//! The direct lookup index: a precomputed table of `2^index_bits` slots,
//! indexed by the top `index_bits` bits of an address.
//!
//! Building writes every inserted range into each slot of the contiguous
//! slot interval it touches; a slot is overwritten only by a strictly more
//! specific range (a longer prefix), so on ties the earliest inserted range
//! keeps the slot. A lookup is one table read.
//!
//! A range is approximated by the slot interval from its first to its last
//! address. When `index_bits` is at least the prefix length of every
//! inserted range, each slot lies entirely inside or outside every range and
//! the table is exact; with fewer bits, a boundary slot may claim addresses
//! just outside a range.

use vstd::prelude::*;

use std::sync::Arc;

use crate::cidr::cidr_model;
use crate::errors::MalformedCidr;
use crate::range::arc_clone;
use crate::range::prefix_mask;
use crate::range::entry_matches;
use crate::range::IPRange;
use crate::range::IPRangeEntry;

verus! {

/// Number of slots of a table with `index_bits` index bits.
pub open spec fn table_len(index_bits: u32) -> int
    recommends
        1 <= index_bits <= 32,
{
    (1u64 << index_bits) as int
}

/// The slot that an address selects: its top `index_bits` bits.
pub open spec fn slot_of(ip: u32, index_bits: u32) -> u32
    recommends
        1 <= index_bits <= 32,
{
    ip >> ((32 - index_bits) as u32)
}

/// The first slot that the range of `e` touches.
pub open spec fn entry_first_slot(e: IPRangeEntry, index_bits: u32) -> u32 {
    (e.network & prefix_mask(e.prefix)) >> ((32 - index_bits) as u32)
}

/// The last slot that the range of `e` touches: the slot of its last
/// address, the network address with all host bits set.
pub open spec fn entry_last_slot(e: IPRangeEntry, index_bits: u32) -> u32 {
    ((e.network & prefix_mask(e.prefix)) | !prefix_mask(e.prefix)) >> ((32 - index_bits) as u32)
}

/// The range of `e` touches `slot`.
pub open spec fn covers(e: IPRangeEntry, index_bits: u32, slot: u32) -> bool {
    entry_first_slot(e, index_bits) <= slot && slot <= entry_last_slot(e, index_bits)
}

/// Index of the entry owning `slot` after all of `entries` have been
/// written, in order: a later entry takes a slot it covers only from a
/// strictly less specific occupant.
pub open spec fn winner(entries: Seq<IPRangeEntry>, index_bits: u32, slot: u32) -> Option<int>
    decreases entries.len(),
{
    if entries.len() == 0 {
        None
    } else {
        let prev = winner(entries.drop_last(), index_bits, slot);
        let e = entries.last();
        let i = entries.len() - 1;
        match prev {
            None => if covers(e, index_bits, slot) {
                Some(i as int)
            } else {
                None
            },
            Some(j) => if covers(e, index_bits, slot) && e.prefix > entries[j].prefix {
                Some(i as int)
            } else {
                Some(j)
            },
        }
    }
}

/// What a built table holds at `slot`.
pub open spec fn slot_content(entries: Seq<IPRangeEntry>, index_bits: u32, slot: u32) -> Option<
    (u8, Arc<IPRange>),
> {
    match winner(entries, index_bits, slot) {
        None => None,
        Some(j) => Some((entries[j].prefix, entries[j].ip_range)),
    }
}

/// The winning entry covers the slot, and no covering entry is more
/// specific; an empty result means no entry covers the slot.
pub proof fn lemma_winner_longest_prefix(entries: Seq<IPRangeEntry>, index_bits: u32, slot: u32)
    ensures
        match winner(entries, index_bits, slot) {
            Some(j) => {
                &&& 0 <= j < entries.len()
                &&& covers(entries[j], index_bits, slot)
                &&& forall|i: int|
                    0 <= i < entries.len() && covers(#[trigger] entries[i], index_bits, slot)
                        ==> entries[i].prefix <= entries[j].prefix
            },
            None => forall|i: int|
                0 <= i < entries.len() ==> !covers(#[trigger] entries[i], index_bits, slot),
        },
    decreases entries.len(),
{
    if entries.len() > 0 {
        lemma_winner_longest_prefix(entries.drop_last(), index_bits, slot);
        assert(forall|i: int|
            0 <= i < entries.len() - 1 ==> entries.drop_last()[i] == #[trigger] entries[i]);
    }
}

/// What a successful insert appends to an entry list: one entry parsed from
/// the CIDR text, backed by a record holding the three texts.
pub open spec fn appended_entry(
    olds: Seq<IPRangeEntry>,
    news: Seq<IPRangeEntry>,
    cidr: Seq<char>,
    isp: Seq<char>,
    asn: Seq<char>,
) -> bool {
    &&& news.len() == olds.len() + 1
    &&& news.drop_last() == olds
    &&& cidr_model(cidr) == Some((news.last().network, news.last().prefix))
    &&& news.last().ip_range.cidr_range@ == cidr
    &&& news.last().ip_range.isp@ == isp
    &&& news.last().ip_range.asn@ == asn
}

/// The direct lookup index: pending entries and the table built from them.
pub struct IPRangeDirectLookup {
    table: Vec<Option<(u8, Arc<IPRange>)>>,
    entries: Vec<IPRangeEntry>,
    index_bits: u32,
}

impl IPRangeDirectLookup {
    /// The inserted entries, in insertion order.
    pub closed spec fn entry_seq(&self) -> Seq<IPRangeEntry> {
        self.entries@
    }

    /// The number of index bits chosen at construction.
    pub closed spec fn bits(&self) -> u32 {
        self.index_bits
    }

    /// The current table.
    pub closed spec fn table_view(&self) -> Seq<Option<(u8, Arc<IPRange>)>> {
        self.table@
    }

    /// Structural validity: the bit count is in range, the table has its
    /// full size, and every entry has a prefix length of at most 32.
    pub open spec fn wf(&self) -> bool {
        &&& 1 <= self.bits() <= 32
        &&& self.table_view().len() == table_len(self.bits())
        &&& forall|i: int| 0 <= i < self.entry_seq().len() ==> (#[trigger] self.entry_seq()[i]).wf()
    }

    /// The table is exactly what the entry set determines: every slot holds
    /// the most specific covering range, earliest inserted on ties.
    pub open spec fn built(&self) -> bool {
        forall|slot: u32|
            slot < table_len(self.bits()) ==> self.table_view()[slot as int] == slot_content(
                self.entry_seq(),
                self.bits(),
                slot,
            )
    }

    /// Allocates a table of `2^index_bits` empty slots and no entries.
    pub fn new(index_bits: u32) -> (r: Self)
        requires
            1 <= index_bits <= 32,
        ensures
            r.wf(),
            r.built(),
            r.bits() == index_bits,
            r.entry_seq() =~= Seq::<IPRangeEntry>::empty(),
    {
        let count: u64 = 1u64 << index_bits;
        let mut table: Vec<Option<(u8, Arc<IPRange>)>> = Vec::new();
        let mut i: u64 = 0;
        while i < count
            invariant
                i <= count,
                table@.len() == i,
                forall|k: int| 0 <= k < i ==> table@[k] is None,
            decreases count - i,
        {
            table.push(None);
            i += 1;
        }
        IPRangeDirectLookup { table, entries: Vec::new(), index_bits }
    }

    /// Parses a CIDR and appends the entry; the table itself is unchanged
    /// until `build_table` runs. A parse failure leaves the whole index
    /// exactly as it was.
    pub fn insert_range(&mut self, cidr_range: &str, isp: &str, asn: &str) -> (r: Result<
        (),
        MalformedCidr,
    >)
        requires
            old(self).wf(),
        ensures
            final(self).wf(),
            final(self).bits() == old(self).bits(),
            final(self).table_view() == old(self).table_view(),
            match r {
                Ok(_) => cidr_model(cidr_range@) is Some && appended_entry(
                    old(self).entry_seq(),
                    final(self).entry_seq(),
                    cidr_range@,
                    isp@,
                    asn@,
                ),
                Err(_) => {
                    &&& cidr_model(cidr_range@) is None
                    &&& *final(self) == *old(self)
                },
            },
    {
        let entry = match IPRangeEntry::new(cidr_range, isp, asn) {
            Ok(e) => e,
            Err(e) => {
                return Err(e);
            },
        };
        self.entries.push(entry);
        proof {
            let es = self.entries@;
            assert(es.drop_last() =~= old(self).entries@);
            assert forall|i: int| 0 <= i < es.len() implies (#[trigger] es[i]).wf() by {
                if i < es.len() - 1 {
                    assert(old(self).entry_seq()[i].wf());
                    assert(es[i] == old(self).entries@[i]);
                } else {
                    assert(es[i] == entry);
                }
            }
        }
        Ok(())
    }

    /// Clears the table, then writes every pending entry over its slot
    /// interval, replacing an occupant only when strictly more specific.
    /// Afterwards the table is exactly what the entry set determines.
    pub fn build_table(&mut self)
        requires
            old(self).wf(),
        ensures
            final(self).wf(),
            final(self).built(),
            final(self).bits() == old(self).bits(),
            final(self).entry_seq() == old(self).entry_seq(),
    {
        let ghost entries_seq = self.entries@;
        let ghost ib = self.index_bits;
        proof {
            assert forall|i: int| 0 <= i < entries_seq.len() implies (
            #[trigger] entries_seq[i]).wf() by {
                assert(old(self).entry_seq()[i].wf());
            }
        }
        let n_slots = self.table.len();
        let mut idx: usize = 0;
        while idx < n_slots
            invariant
                self.index_bits == ib,
                self.entries@ == entries_seq,
                self.table@.len() == n_slots,
                idx <= n_slots,
                forall|k: int| 0 <= k < idx ==> self.table@[k] is None,
            decreases n_slots - idx,
        {
            self.table[idx] = None;
            idx += 1;
        }
        assert(forall|s: u32|
            s < table_len(ib) ==> self.table@[s as int] == slot_content(
                entries_seq.take(0),
                ib,
                s,
            ));
        let n_entries = self.entries.len();
        let mut k: usize = 0;
        while k < n_entries
            invariant
                1 <= ib <= 32,
                self.index_bits == ib,
                ib == old(self).index_bits,
                self.entries@ == entries_seq,
                entries_seq == old(self).entries@,
                forall|i: int| 0 <= i < entries_seq.len() ==> (#[trigger] entries_seq[i]).wf(),
                self.table@.len() == n_slots,
                n_slots == table_len(ib),
                n_entries == entries_seq.len(),
                k <= n_entries,
                forall|s: u32|
                    s < table_len(ib) ==> self.table@[s as int] == slot_content(
                        entries_seq.take(k as int),
                        ib,
                        s,
                    ),
            decreases n_entries - k,
        {
            assert(entries_seq[k as int].wf());
            let e_network = self.entries[k].network;
            let e_prefix = self.entries[k].prefix;
            let mask = self.entries[k].mask();
            let start_ip = e_network & mask;
            let end_ip = start_ip | !mask;
            let shift: u32 = 32 - self.index_bits;
            let start_index = start_ip >> shift;
            let end_index = end_ip >> shift;
            proof {
                assert(start_index <= end_index) by (bit_vector)
                    requires
                        start_index == (e_network & mask) >> shift,
                        end_index == ((e_network & mask) | !mask) >> shift,
                        shift <= 31,
                ;
                assert(((((e_network & mask) | !mask) >> shift) as u64) < (1u64 << ib)) by (bit_vector)
                    requires
                        1 <= ib <= 32,
                        shift == 32 - ib,
                ;
            }
            let ghost e = entries_seq[k as int];
            assert(start_index == entry_first_slot(e, ib));
            assert(end_index == entry_last_slot(e, ib));
            let mut slot: u64 = start_index as u64;
            while slot <= end_index as u64
                invariant
                    self.index_bits == ib,
                    1 <= ib <= 32,
                    self.entries@ == entries_seq,
                    self.table@.len() == n_slots,
                    n_slots == table_len(ib),
                    k < n_entries,
                    n_entries == entries_seq.len(),
                    e == entries_seq[k as int],
                    e.wf(),
                    e_prefix == e.prefix,
                    start_index == entry_first_slot(e, ib),
                    end_index == entry_last_slot(e, ib),
                    (end_index as u64) < (1u64 << ib),
                    start_index as u64 <= slot <= end_index as u64 + 1,
                    forall|s: u32|
                        s < table_len(ib) ==> self.table@[s as int] == (if start_index <= s
                            && (s as u64) < slot {
                            slot_content(entries_seq.take(k as int + 1), ib, s)
                        } else {
                            slot_content(entries_seq.take(k as int), ib, s)
                        }),
                decreases end_index as u64 - slot + 1,
            {
                let s_u32 = slot as u32;
                let sus = slot as usize;
                proof {
                    assert(entries_seq.take(k as int + 1).drop_last() =~= entries_seq.take(
                        k as int,
                    ));
                    assert(entries_seq.take(k as int + 1).last() == e);
                    assert(covers(e, ib, s_u32));
                }
                let needs_update = match &self.table[sus] {
                    Some((p, _)) => e_prefix > *p,
                    None => true,
                };
                if needs_update {
                    let rec = arc_clone(&self.entries[k].ip_range);
                    self.table[sus] = Some((e_prefix, rec));
                }
                proof {
                    lemma_winner_longest_prefix(entries_seq.take(k as int), ib, s_u32);
                    assert(entries_seq.take(k as int + 1)[k as int] == e);
                    assert(self.table@[s_u32 as int] == slot_content(
                        entries_seq.take(k as int + 1),
                        ib,
                        s_u32,
                    ));
                }
                slot = slot + 1;
            }
            proof {
                assert forall|s: u32| s < table_len(ib) implies self.table@[s as int]
                    == slot_content(entries_seq.take(k as int + 1), ib, s) by {
                    assert(entries_seq.take(k as int + 1).drop_last() =~= entries_seq.take(
                        k as int,
                    ));
                    assert(entries_seq.take(k as int + 1).last() == e);
                    lemma_winner_longest_prefix(entries_seq.take(k as int), ib, s);
                    if !(start_index <= s && s <= end_index) {
                        assert(!covers(e, ib, s));
                    }
                }
            }
            k += 1;
        }
        proof {
            assert(entries_seq.take(n_entries as int) =~= entries_seq);
            assert forall|i: int| 0 <= i < self.entry_seq().len() implies (
            #[trigger] self.entry_seq()[i]).wf() by {
                assert(entries_seq[i].wf());
            }
        }
    }

    /// Reads the slot that `ip_addr` selects and returns its record, if any.
    /// On a built table, that is the record of the most specific range whose
    /// slot interval covers the slot, earliest inserted on ties.
    pub fn search(&self, ip_addr: u32) -> (r: Option<Arc<IPRange>>)
        requires
            self.wf(),
        ensures
            r == (match self.table_view()[slot_of(ip_addr, self.bits()) as int] {
                None => None::<Arc<IPRange>>,
                Some((p, rec)) => Some(rec),
            }),
            self.built() ==> r == (match winner(
                self.entry_seq(),
                self.bits(),
                slot_of(ip_addr, self.bits()),
            ) {
                None => None::<Arc<IPRange>>,
                Some(j) => Some(self.entry_seq()[j].ip_range),
            }),
    {
        let shift: u32 = 32 - self.index_bits;
        let index = ip_addr >> shift;
        proof {
            let ghost ib = self.index_bits;
            assert(((ip_addr >> shift) as u64) < (1u64 << ib)) by (bit_vector)
                requires
                    1 <= ib <= 32,
                    shift == 32 - ib,
            ;
        }
        match &self.table[index as usize] {
            Some((_, rec)) => Some(arc_clone(rec)),
            None => None,
        }
    }
}

/// Building is deterministic: two built indexes over the same entry set and
/// the same bit count hold identical tables.
pub proof fn lemma_build_deterministic(a: IPRangeDirectLookup, b: IPRangeDirectLookup)
    requires
        a.wf(),
        b.wf(),
        a.built(),
        b.built(),
        a.entry_seq() == b.entry_seq(),
        a.bits() == b.bits(),
    ensures
        a.table_view() == b.table_view(),
{
    let ib = a.bits();
    assert((1u64 << ib) <= 0x1_0000_0000u64) by (bit_vector)
        requires
            ib <= 32,
    ;
    assert forall|i: int| 0 <= i < a.table_view().len() implies a.table_view()[i]
        == b.table_view()[i] by {
        let s = i as u32;
        assert(s as int == i);
        assert(a.table_view()[s as int] == slot_content(a.entry_seq(), a.bits(), s));
        assert(b.table_view()[s as int] == slot_content(b.entry_seq(), b.bits(), s));
    }
    assert(a.table_view() =~= b.table_view());
}

/// With all 32 address bits used as the index, a slot holds exactly the
/// addresses equal to it, so coverage coincides with range membership.
proof fn lemma_covers_iff_matches_full(e: IPRangeEntry, ip: u32)
    requires
        e.wf(),
    ensures
        covers(e, 32, ip) <==> entry_matches(e, ip),
{
    let m = prefix_mask(e.prefix);
    let n = e.network;
    assert(entry_first_slot(e, 32) == (n & m) >> 0u32);
    assert(entry_last_slot(e, 32) == ((n & m) | !m) >> 0u32);
    if e.prefix == 0 {
        assert((((n & m) >> 0u32) <= ip && ip <= (((n & m) | !m) >> 0u32)) <==> (ip & m == n & m))
            by (bit_vector)
            requires
                m == 0u32,
        ;
    } else {
        let sh: u32 = (32 - e.prefix) as u32;
        assert((((n & m) >> 0u32) <= ip && ip <= (((n & m) | !m) >> 0u32)) <==> (ip & m == n & m))
            by (bit_vector)
            requires
                m == !(((1u32 << sh) - 1) as u32),
                sh <= 31,
        ;
    }
}

/// With `index_bits == 32` the lookup is exact for every address: a built
/// table resolves an address to a most specific range containing it,
/// and to nothing exactly when no inserted range contains it.
pub proof fn lemma_full_index_exact(t: IPRangeDirectLookup, ip: u32)
    requires
        t.wf(),
        t.built(),
        t.bits() == 32,
    ensures
        match winner(t.entry_seq(), 32, slot_of(ip, 32)) {
            Some(j) => {
                &&& 0 <= j < t.entry_seq().len()
                &&& entry_matches(t.entry_seq()[j], ip)
                &&& forall|i: int|
                    0 <= i < t.entry_seq().len() && entry_matches(#[trigger] t.entry_seq()[i], ip)
                        ==> t.entry_seq()[i].prefix <= t.entry_seq()[j].prefix
            },
            None => forall|i: int|
                0 <= i < t.entry_seq().len() ==> !entry_matches(#[trigger] t.entry_seq()[i], ip),
        },
{
    let slot = slot_of(ip, 32);
    assert(ip >> 0u32 == ip) by (bit_vector);
    assert(slot == ip);
    lemma_winner_longest_prefix(t.entry_seq(), 32, slot);
    assert forall|i: int| 0 <= i < t.entry_seq().len() implies (covers(t.entry_seq()[i], 32, slot)
        <==> entry_matches(#[trigger] t.entry_seq()[i], ip)) by {
        lemma_covers_iff_matches_full(t.entry_seq()[i], ip);
    }
}

} // verus!
