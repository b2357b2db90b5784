//! The longest-prefix bucket index: a mapping from exact masked network
//! values to the ranges inserted under that key.
//!
//! An insert stores `(prefix_length, record)` under `network & mask`. A
//! lookup walks candidate prefix lengths from 32 down to 0; at each length it
//! masks the address, looks the key up, and takes the first entry of the
//! bucket whose own mask applied to the address still gives that key. It
//! stops at the first hit, so more specific candidates are tried first.

use vstd::prelude::*;

use std::collections::HashMap;
use std::sync::Arc;

use crate::cidr::cidr_model;
use crate::errors::MalformedCidr;
use crate::range::arc_clone;
use crate::range::mask_for;
use crate::range::prefix_mask;
use crate::range::IPRange;
use crate::range::IPRangeEntry;

verus! {

broadcast use vstd::std_specs::hash::group_hash_axioms;

/// The first entry of `bucket` whose mask keeps `ip` equal to `key`, front
/// to back.
pub open spec fn first_hit(bucket: Seq<(u8, Arc<IPRange>)>, ip: u32, key: u32) -> Option<
    Arc<IPRange>,
>
    decreases bucket.len(),
{
    if bucket.len() == 0 {
        None
    } else if ip & prefix_mask(bucket[0].0) == key {
        Some(bucket[0].1)
    } else {
        first_hit(bucket.skip(1), ip, key)
    }
}

/// The lookup walk, from candidate prefix length `l` down to 0: the first
/// hit over the buckets that the masked address selects.
pub open spec fn search_from(b: Map<u32, Seq<(u8, Arc<IPRange>)>>, ip: u32, l: int) -> Option<
    Arc<IPRange>,
>
    decreases l + 1,
{
    if l < 0 {
        None
    } else {
        let key = ip & prefix_mask(l as u8);
        let hit = if b.contains_key(key) {
            first_hit(b[key], ip, key)
        } else {
            None
        };
        match hit {
            Some(r) => Some(r),
            None => search_from(b, ip, l - 1),
        }
    }
}

/// What the bucket index resolves `ip` to.
pub open spec fn bucket_search_model(b: Map<u32, Seq<(u8, Arc<IPRange>)>>, ip: u32) -> Option<
    Arc<IPRange>,
> {
    search_from(b, ip, 32)
}

/// The entry at position `i` of bucket `key` contains the address `ip`: its
/// own mask keeps `ip` equal to the masked network value it was stored under.
pub open spec fn bucket_entry_matches(
    b: Map<u32, Seq<(u8, Arc<IPRange>)>>,
    ip: u32,
    key: u32,
    i: int,
) -> bool {
    &&& b.contains_key(key)
    &&& 0 <= i < b[key].len()
    &&& ip & prefix_mask(b[key][i].0) == key
}

/// A bucket scan hits exactly when some entry of the bucket contains the
/// address, and what it returns is such an entry's record.
proof fn lemma_first_hit_characterization(bucket: Seq<(u8, Arc<IPRange>)>, ip: u32, key: u32)
    ensures
        (first_hit(bucket, ip, key) is Some) <==> (exists|i: int|
            0 <= i < bucket.len() && ip & prefix_mask((#[trigger] bucket[i]).0) == key),
        first_hit(bucket, ip, key) matches Some(r) ==> exists|i: int|
            0 <= i < bucket.len() && ip & prefix_mask((#[trigger] bucket[i]).0) == key
                && bucket[i].1 == r,
    decreases bucket.len(),
{
    if bucket.len() == 0 {
    } else if ip & prefix_mask(bucket[0].0) == key {
        assert(0 <= 0 < bucket.len() && ip & prefix_mask(bucket[0].0) == key);
    } else {
        lemma_first_hit_characterization(bucket.skip(1), ip, key);
        assert(forall|j: int| 0 <= j < bucket.len() - 1 ==> #[trigger] bucket.skip(1)[j]
            == bucket[j + 1]);
        if exists|i: int|
            0 <= i < bucket.len() && ip & prefix_mask((#[trigger] bucket[i]).0) == key {
            let i = choose|i: int|
                0 <= i < bucket.len() && ip & prefix_mask((#[trigger] bucket[i]).0) == key;
            assert(i != 0);
            assert(ip & prefix_mask(bucket.skip(1)[i - 1].0) == key);
        }
        match first_hit(bucket, ip, key) {
            Some(r) => {
                let j = choose|j: int|
                    0 <= j < bucket.skip(1).len() && ip & prefix_mask(
                        (#[trigger] bucket.skip(1)[j]).0,
                    ) == key && bucket.skip(1)[j].1 == r;
                assert(0 <= j + 1 < bucket.len() && ip & prefix_mask(bucket[j + 1].0) == key
                    && bucket[j + 1].1 == r);
            },
            None => {},
        }
    }
}

/// A hit of the walk is the record of some entry containing the address.
proof fn lemma_search_from_sound(b: Map<u32, Seq<(u8, Arc<IPRange>)>>, ip: u32, l: int)
    ensures
        search_from(b, ip, l) matches Some(r) ==> exists|key: u32, i: int|
            bucket_entry_matches(b, ip, key, i) && b[key][i].1 == r,
    decreases l + 1,
{
    if l >= 0 {
        let key = ip & prefix_mask(l as u8);
        if b.contains_key(key) {
            lemma_first_hit_characterization(b[key], ip, key);
            match first_hit(b[key], ip, key) {
                Some(r) => {
                    let i = choose|i: int|
                        0 <= i < b[key].len() && ip & prefix_mask((#[trigger] b[key][i]).0) == key
                            && b[key][i].1 == r;
                    assert(bucket_entry_matches(b, ip, key, i) && b[key][i].1 == r);
                },
                None => {},
            }
        }
        lemma_search_from_sound(b, ip, l - 1);
    }
}

/// If some stored entry of prefix length at most `l` contains the address,
/// the walk down from `l` hits.
proof fn lemma_search_from_complete(
    b: Map<u32, Seq<(u8, Arc<IPRange>)>>,
    ip: u32,
    l: int,
    key: u32,
    i: int,
)
    requires
        bucket_entry_matches(b, ip, key, i),
        key & prefix_mask(b[key][i].0) == key,
        b[key][i].0 <= l <= 32,
    ensures
        search_from(b, ip, l) is Some,
    decreases l + 1,
{
    let p = b[key][i].0;
    if l == p {
        assert(ip & prefix_mask(l as u8) == key);
        lemma_first_hit_characterization(b[key], ip, key);
    } else {
        let key_l = ip & prefix_mask(l as u8);
        if b.contains_key(key_l) && first_hit(b[key_l], ip, key_l) is Some {
        } else {
            lemma_search_from_complete(b, ip, l - 1, key, i);
        }
    }
}

/// What the lookup returns, for any entry set: it hits exactly when some
/// stored entry contains the address, and what it returns is such an entry's
/// record.
pub proof fn lemma_search_characterization(m: IPRangeHashMap, ip: u32)
    requires
        m.wf(),
    ensures
        (bucket_search_model(m.buckets(), ip) is Some) <==> (exists|key: u32, i: int|
            bucket_entry_matches(m.buckets(), ip, key, i)),
        bucket_search_model(m.buckets(), ip) matches Some(r) ==> exists|key: u32, i: int|
            bucket_entry_matches(m.buckets(), ip, key, i) && m.buckets()[key][i].1 == r,
{
    let b = m.buckets();
    lemma_search_from_sound(b, ip, 32);
    if exists|key: u32, i: int| bucket_entry_matches(b, ip, key, i) {
        let (key, i) = choose|key: u32, i: int| bucket_entry_matches(b, ip, key, i);
        assert(b[key][i].0 <= 32 && key & prefix_mask(b[key][i].0) == key);
        lemma_search_from_complete(b, ip, 32, key, i);
    }
    match bucket_search_model(b, ip) {
        Some(r) => {
            let (key, i) = choose|key: u32, i: int|
                bucket_entry_matches(b, ip, key, i) && b[key][i].1 == r;
            assert(bucket_entry_matches(b, ip, key, i));
        },
        None => {},
    }
}

/// No bucket mixes prefix lengths: entries that collide on one masked key
/// all carry the same mask. Disjoint range sets have this shape, since two
/// ranges with the same key and the same mask are the same range, and two
/// with the same key but different masks contain one another's network.
pub open spec fn uniform_buckets(b: Map<u32, Seq<(u8, Arc<IPRange>)>>) -> bool {
    forall|key: u32, i: int, j: int|
        b.contains_key(key) && 0 <= i < b[key].len() && 0 <= j < b[key].len()
            ==> (#[trigger] b[key][i]).0 == (#[trigger] b[key][j]).0
}

/// Masks of growing prefix length keep more bits: if an address agrees with
/// a value under a long mask, it agrees under every shorter one between.
proof fn lemma_mask_chain(ip: u32, p1: u8, p2: u8, p3: u8)
    requires
        p1 <= p2 <= p3 <= 32,
        ip & prefix_mask(p1) == ip & prefix_mask(p3),
    ensures
        ip & prefix_mask(p2) == ip & prefix_mask(p1),
{
    let q1: u32 = p1 as u32;
    let q2: u32 = p2 as u32;
    let q3: u32 = p3 as u32;
    let m1 = prefix_mask(p1);
    let m2 = prefix_mask(p2);
    let m3 = prefix_mask(p3);
    assert(ip & m2 == ip & m1) by (bit_vector)
        requires
            q1 <= q2 <= q3 <= 32,
            m1 == (if q1 == 0 {
                0u32
            } else {
                !((((1u32 << ((32 - q1) as u32)) - 1) as u32))
            }),
            m2 == (if q2 == 0 {
                0u32
            } else {
                !((((1u32 << ((32 - q2) as u32)) - 1) as u32))
            }),
            m3 == (if q3 == 0 {
                0u32
            } else {
                !((((1u32 << ((32 - q3) as u32)) - 1) as u32))
            }),
            ip & m1 == ip & m3,
    ;
}

/// Walking down from any length that is at least the prefix of some match,
/// the walk hits, and over uniform buckets the hit's prefix is at least that
/// match's prefix.
proof fn lemma_search_from_longest(
    b: Map<u32, Seq<(u8, Arc<IPRange>)>>,
    ip: u32,
    l: int,
    key0: u32,
    i0: int,
)
    requires
        uniform_buckets(b),
        forall|key: u32, i: int|
            b.contains_key(key) && 0 <= i < b[key].len() ==> (#[trigger] b[key][i]).0 <= 32 && key
                & prefix_mask(b[key][i].0) == key,
        bucket_entry_matches(b, ip, key0, i0),
        b[key0][i0].0 <= l <= 32,
    ensures
        match search_from(b, ip, l) {
            Some(r) => exists|key: u32, i: int|
                bucket_entry_matches(b, ip, key, i) && b[key][i].1 == r && b[key][i].0 >= b[key0][i0].0,
            None => false,
        },
    decreases l + 1,
{
    let p0 = b[key0][i0].0;
    let key_l = ip & prefix_mask(l as u8);
    let hit = if b.contains_key(key_l) {
        first_hit(b[key_l], ip, key_l)
    } else {
        None
    };
    match hit {
        Some(r) => {
            lemma_first_hit_characterization(b[key_l], ip, key_l);
            let i = choose|i: int|
                0 <= i < b[key_l].len() && ip & prefix_mask((#[trigger] b[key_l][i]).0) == key_l
                    && b[key_l][i].1 == r;
            assert(bucket_entry_matches(b, ip, key_l, i));
            let p = b[key_l][i].0;
            if p < p0 {
                // The hit's own mask already reproduces the key of length
                // `l`, so the longer match's key collapses onto the same
                // bucket, which then mixes prefix lengths.
                lemma_mask_chain(ip, p, p0, l as u8);
                assert(ip & prefix_mask(p0) == ip & prefix_mask(p));
                assert(key0 == key_l);
                assert(b[key_l][i0].0 == b[key_l][i].0);
                assert(false);
            }
        },
        None => {
            if l == p0 {
                assert(ip & prefix_mask(p0) == key0);
                assert(key_l == key0);
                lemma_first_hit_characterization(b[key0], ip, key0);
                assert(ip & prefix_mask(b[key0][i0].0) == key0);
                assert(false);
            } else {
                lemma_search_from_longest(b, ip, l - 1, key0, i0);
            }
        },
    }
}

/// Over uniform buckets the walk from most to least specific returns a
/// longest-prefix match: the record of a stored range that contains the
/// address and whose prefix no other containing range exceeds.
pub proof fn lemma_longest_prefix_wins(m: IPRangeHashMap, ip: u32, key0: u32, i0: int)
    requires
        m.wf(),
        uniform_buckets(m.buckets()),
        bucket_entry_matches(m.buckets(), ip, key0, i0),
        forall|key: u32, i: int|
            bucket_entry_matches(m.buckets(), ip, key, i) ==> (#[trigger] m.buckets()[key][i]).0
                <= m.buckets()[key0][i0].0,
    ensures
        bucket_search_model(m.buckets(), ip) is Some,
        match bucket_search_model(m.buckets(), ip) {
            Some(r) => exists|key: u32, i: int|
                bucket_entry_matches(m.buckets(), ip, key, i) && m.buckets()[key][i].1 == r && m.buckets()[key][i].0
                    == m.buckets()[key0][i0].0,
            None => true,
        },
{
    let b = m.buckets();
    assert forall|key: u32, i: int|
        b.contains_key(key) && 0 <= i < b[key].len() implies (#[trigger] b[key][i]).0 <= 32 && key
        & prefix_mask(b[key][i].0) == key by {
        assert(b[key][i].0 <= 32 && key & prefix_mask(b[key][i].0) == key);
    }
    assert(b[key0][i0].0 <= 32);
    lemma_search_from_longest(b, ip, 32, key0, i0);
    match bucket_search_model(b, ip) {
        Some(r) => {
            let (key, i) = choose|key: u32, i: int|
                bucket_entry_matches(b, ip, key, i) && b[key][i].1 == r && b[key][i].0 >= b[key0][i0].0;
            assert(b[key][i].0 <= b[key0][i0].0);
            assert(bucket_entry_matches(b, ip, key, i) && b[key][i].1 == r && b[key][i].0 == b[key0][i0].0);
        },
        None => {},
    }
}

/// An address inside exactly one stored range resolves to that range's
/// record; an address inside none resolves to nothing.
pub proof fn lemma_disjoint_exact(m: IPRangeHashMap, ip: u32, key0: u32, i0: int)
    requires
        m.wf(),
        bucket_entry_matches(m.buckets(), ip, key0, i0),
        forall|key: u32, i: int|
            bucket_entry_matches(m.buckets(), ip, key, i) ==> key == key0 && i == i0,
    ensures
        bucket_search_model(m.buckets(), ip) == Some(m.buckets()[key0][i0].1),
{
    lemma_search_characterization(m, ip);
}

/// What a successful insert appends to the buckets: one `(prefix, record)`
/// pair at the end of the bucket of `network & mask`, other buckets
/// untouched.
pub open spec fn appended_bucket(
    oldb: Map<u32, Seq<(u8, Arc<IPRange>)>>,
    newb: Map<u32, Seq<(u8, Arc<IPRange>)>>,
    cidr: Seq<char>,
    isp: Seq<char>,
    asn: Seq<char>,
) -> bool {
    cidr_model(cidr) matches Some(np) && {
        let key = np.0 & prefix_mask(np.1);
        let prev = if oldb.contains_key(key) {
            oldb[key]
        } else {
            Seq::<(u8, Arc<IPRange>)>::empty()
        };
        let cur = newb[key];
        &&& newb.contains_key(key)
        &&& newb == oldb.insert(key, cur)
        &&& cur.len() == prev.len() + 1
        &&& cur.drop_last() == prev
        &&& cur.last().0 == np.1
        &&& cur.last().1.cidr_range@ == cidr
        &&& cur.last().1.isp@ == isp
        &&& cur.last().1.asn@ == asn
    }
}

/// The longest-prefix bucket index, immediately queryable after each insert.
pub struct IPRangeHashMap {
    map: HashMap<u32, Vec<(u8, Arc<IPRange>)>>,
}

impl IPRangeHashMap {
    /// The buckets: each stored key maps to its entries in insertion order.
    pub closed spec fn buckets(&self) -> Map<u32, Seq<(u8, Arc<IPRange>)>> {
        self.map@.map_values(|v: Vec<(u8, Arc<IPRange>)>| v@)
    }

    /// Every stored entry has a prefix length of at most 32, and its key is
    /// already masked by its own mask.
    pub open spec fn wf(&self) -> bool {
        forall|key: u32, i: int|
            self.buckets().contains_key(key) && 0 <= i < self.buckets()[key].len() ==> {
                let item = #[trigger] self.buckets()[key][i];
                &&& item.0 <= 32
                &&& key & prefix_mask(item.0) == key
            }
    }

    /// An empty mapping.
    pub fn new() -> (r: Self)
        ensures
            r.wf(),
            r.buckets() == Map::<u32, Seq<(u8, Arc<IPRange>)>>::empty(),
    {
        let r = IPRangeHashMap { map: HashMap::new() };
        proof {
            assert(r.buckets() =~= Map::<u32, Seq<(u8, Arc<IPRange>)>>::empty());
        }
        r
    }

    /// Parses a CIDR and appends `(prefix_length, record)` to the bucket of
    /// `network & mask`. A parse failure leaves the index exactly as it was.
    pub fn insert_range(&mut self, cidr_range: &str, isp: &str, asn: &str) -> (r: Result<
        (),
        MalformedCidr,
    >)
        requires
            old(self).wf(),
        ensures
            final(self).wf(),
            match r {
                Ok(_) => appended_bucket(
                    old(self).buckets(),
                    final(self).buckets(),
                    cidr_range@,
                    isp@,
                    asn@,
                ),
                Err(_) => {
                    &&& cidr_model(cidr_range@) is None
                    &&& *final(self) == *old(self)
                },
            },
    {
        let entry = match IPRangeEntry::new(cidr_range, isp, asn) {
            Ok(e) => e,
            Err(e) => {
                return Err(e);
            },
        };
        let mask = mask_for(entry.prefix);
        let network = entry.network;
        let key = network & mask;
        proof {
            assert((network & mask) & mask == network & mask) by (bit_vector);
        }
        let mut bucket = match self.map.remove(&key) {
            Some(v) => v,
            None => Vec::new(),
        };
        let ghost oldb = bucket@;
        bucket.push((entry.prefix, entry.ip_range));
        self.map.insert(key, bucket);
        proof {
            let ghost newb = self.buckets()[key];
            assert(self.buckets() =~= old(self).buckets().insert(key, oldb.push(
                (entry.prefix, entry.ip_range),
            )));
            assert(newb.drop_last() =~= oldb);
            assert forall|key2: u32, i: int|
                self.buckets().contains_key(key2) && 0 <= i < self.buckets()[key2].len() implies {
                let item = #[trigger] self.buckets()[key2][i];
                item.0 <= 32 && key2 & prefix_mask(item.0) == key2
            } by {
                if key2 == key {
                    if i < self.buckets()[key2].len() - 1 {
                        assert(old(self).buckets()[key2][i] == self.buckets()[key2][i]);
                    }
                } else {
                    assert(old(self).buckets()[key2][i] == self.buckets()[key2][i]);
                }
            }
        }
        Ok(())
    }

    /// Resolves an address by walking candidate prefix lengths from most to
    /// least specific, exactly as `bucket_search_model` states.
    pub fn search(&self, ip_addr: u32) -> (r: Option<Arc<IPRange>>)
        requires
            self.wf(),
        ensures
            r == bucket_search_model(self.buckets(), ip_addr),
    {
        let mut l: i32 = 32;
        while l >= 0
            invariant
                self.wf(),
                -1 <= l <= 32,
                bucket_search_model(self.buckets(), ip_addr) == search_from(
                    self.buckets(),
                    ip_addr,
                    l as int,
                ),
            decreases l + 1,
        {
            let mask = mask_for(l as u8);
            let key = ip_addr & mask;
            match self.map.get(&key) {
                Some(bucket) => {
                    let ghost bseq = bucket@;
                    assert(self.buckets().contains_key(key) && self.buckets()[key] == bseq);
                    proof {
                        assert(bseq.skip(0) =~= bseq);
                    }
                    let mut i: usize = 0;
                    while i < bucket.len()
                        invariant
                            self.wf(),
                            i <= bucket.len(),
                            bucket@ == bseq,
                            self.buckets().contains_key(key),
                            self.buckets()[key] == bseq,
                            0 <= l <= 32,
                            key == ip_addr & prefix_mask(l as u8),
                            bucket_search_model(self.buckets(), ip_addr) == search_from(
                                self.buckets(),
                                ip_addr,
                                l as int,
                            ),
                            first_hit(bseq, ip_addr, key) == first_hit(
                                bseq.skip(i as int),
                                ip_addr,
                                key,
                            ),
                        decreases bucket.len() - i,
                    {
                        let item = &bucket[i];
                        assert(bseq.skip(i as int)[0] == bseq[i as int]);
                        let m2 = mask_for(item.0);
                        if ip_addr & m2 == key {
                            proof {
                                assert(first_hit(bseq.skip(i as int), ip_addr, key) == Some(
                                    bseq[i as int].1,
                                ));
                                assert(search_from(self.buckets(), ip_addr, l as int) == Some(
                                    bseq[i as int].1,
                                ));
                            }
                            return Some(arc_clone(&item.1));
                        }
                        proof {
                            assert(bseq.skip(i as int).skip(1) =~= bseq.skip(i as int + 1));
                        }
                        i += 1;
                    }
                    proof {
                        assert(bseq.skip(bseq.len() as int).len() == 0);
                        assert(first_hit(bseq, ip_addr, key) is None);
                    }
                },
                None => {
                    assert(!self.buckets().contains_key(key));
                },
            }
            l = l - 1;
        }
        None
    }
}

} // verus!
