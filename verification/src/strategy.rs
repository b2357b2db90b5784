//! One interface over the two index strategies, chosen at configuration
//! time: the direct lookup table trades memory for one-read lookups, the
//! bucket index trades up to 33 map reads for exactness and proportional
//! memory. Both support `insert_range` and `search` over the same entry
//! model; only the direct table needs `build` before it answers.

use vstd::prelude::*;

use std::sync::Arc;

use crate::buckets::appended_bucket;
use crate::buckets::bucket_search_model;
use crate::buckets::IPRangeHashMap;
use crate::cidr::cidr_model;
use crate::direct::appended_entry;
use crate::direct::slot_of;
use crate::direct::winner;
use crate::direct::IPRangeDirectLookup;
use crate::errors::MalformedCidr;
use crate::range::IPRange;

verus! {

/// A range index of either strategy.
pub enum RangeIndex {
    Direct(IPRangeDirectLookup),
    Buckets(IPRangeHashMap),
}

impl RangeIndex {
    /// Structural validity of the chosen strategy.
    pub open spec fn wf(&self) -> bool {
        match *self {
            RangeIndex::Direct(d) => d.wf(),
            RangeIndex::Buckets(b) => b.wf(),
        }
    }

    /// A direct index of `2^index_bits` slots.
    pub fn new_direct(index_bits: u32) -> (r: Self)
        requires
            1 <= index_bits <= 32,
        ensures
            r.wf(),
            r matches RangeIndex::Direct(d) && d.bits() == index_bits && d.entry_seq().len() == 0
                && d.built(),
    {
        RangeIndex::Direct(IPRangeDirectLookup::new(index_bits))
    }

    /// An empty bucket index.
    pub fn new_buckets() -> (r: Self)
        ensures
            r.wf(),
            r matches RangeIndex::Buckets(b) && b.buckets() == Map::<
                u32,
                Seq<(u8, Arc<IPRange>)>,
            >::empty(),
    {
        RangeIndex::Buckets(IPRangeHashMap::new())
    }

    /// Parses a CIDR and inserts the entry under the chosen strategy; a
    /// parse failure leaves the index exactly as it was.
    pub fn insert_range(&mut self, cidr_range: &str, isp: &str, asn: &str) -> (r: Result<
        (),
        MalformedCidr,
    >)
        requires
            old(self).wf(),
        ensures
            final(self).wf(),
            match r {
                Ok(_) => cidr_model(cidr_range@) is Some && (match (*old(self), *final(self)) {
                    (RangeIndex::Direct(d0), RangeIndex::Direct(d1)) => d1.bits() == d0.bits()
                        && d1.table_view() == d0.table_view() && appended_entry(
                        d0.entry_seq(),
                        d1.entry_seq(),
                        cidr_range@,
                        isp@,
                        asn@,
                    ),
                    (RangeIndex::Buckets(b0), RangeIndex::Buckets(b1)) => appended_bucket(
                        b0.buckets(),
                        b1.buckets(),
                        cidr_range@,
                        isp@,
                        asn@,
                    ),
                    _ => false,
                }),
                Err(_) => {
                    &&& cidr_model(cidr_range@) is None
                    &&& *final(self) == *old(self)
                },
            },
    {
        match self {
            RangeIndex::Direct(d) => d.insert_range(cidr_range, isp, asn),
            RangeIndex::Buckets(b) => b.insert_range(cidr_range, isp, asn),
        }
    }

    /// Builds the direct table from its pending entries; the bucket index is
    /// already queryable and is left untouched.
    pub fn build(&mut self)
        requires
            old(self).wf(),
        ensures
            final(self).wf(),
            match (*old(self), *final(self)) {
                (RangeIndex::Direct(d0), RangeIndex::Direct(d1)) => d1.built() && d1.bits()
                    == d0.bits() && d1.entry_seq() == d0.entry_seq(),
                (RangeIndex::Buckets(_), _) => *final(self) == *old(self),
                _ => false,
            },
    {
        match self {
            RangeIndex::Direct(d) => d.build_table(),
            RangeIndex::Buckets(_) => (),
        }
    }

    /// Resolves an address under the chosen strategy.
    pub fn search(&self, ip_addr: u32) -> (r: Option<Arc<IPRange>>)
        requires
            self.wf(),
        ensures
            match *self {
                RangeIndex::Direct(d) => d.built() ==> r == (match winner(
                    d.entry_seq(),
                    d.bits(),
                    slot_of(ip_addr, d.bits()),
                ) {
                    None => None::<Arc<IPRange>>,
                    Some(j) => Some(d.entry_seq()[j].ip_range),
                }),
                RangeIndex::Buckets(b) => r == bucket_search_model(b.buckets(), ip_addr),
            },
    {
        match self {
            RangeIndex::Direct(d) => d.search(ip_addr),
            RangeIndex::Buckets(b) => b.search(ip_addr),
        }
    }
}

} // verus!
