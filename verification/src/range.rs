//! The range entry model: an immutable, shared ownership record and the
//! parsed entry derived from it at insertion time.

use vstd::prelude::*;

use std::sync::Arc;

use crate::cidr::cidr_model;
use crate::cidr::parse_cidr;
use crate::errors::MalformedCidr;

verus! {

/// Ownership metadata for one range: the trimmed source text of the CIDR,
/// the ISP name, and the ASN. Created once per dataset line and shared by
/// reference wherever it is indexed.
pub struct IPRange {
    pub cidr_range: String,
    pub isp: String,
    pub asn: String,
}

/// A parsed range: the full (not pre-masked) network address, the prefix
/// length, and a shared reference to the backing record.
pub struct IPRangeEntry {
    pub network: u32,
    pub prefix: u8,
    pub ip_range: Arc<IPRange>,
}

/// The netmask of a prefix length: 0 for prefix 0, otherwise the top
/// `prefix` bits set.
pub open spec fn prefix_mask(prefix: u8) -> u32
    recommends
        prefix <= 32,
{
    if prefix == 0 {
        0u32
    } else {
        !((((1u32 << ((32 - prefix) as u32)) - 1) as u32))
    }
}

/// The address `ip` lies inside the range of `e`: both agree on the bits
/// that the mask of `e` keeps.
pub open spec fn entry_matches(e: IPRangeEntry, ip: u32) -> bool {
    ip & prefix_mask(e.prefix) == e.network & prefix_mask(e.prefix)
}

impl IPRangeEntry {
    /// A structurally valid entry: the prefix length is at most 32.
    pub open spec fn wf(&self) -> bool {
        self.prefix <= 32
    }

    /// Parses `cidr_range` and wraps it, with the ISP and ASN texts, into an
    /// entry backed by a single shared record. `Err` exactly on text that
    /// `cidr_model` rejects.
    pub fn new(cidr_range: &str, isp: &str, asn: &str) -> (r: Result<IPRangeEntry, MalformedCidr>)
        ensures
            match r {
                Ok(e) => {
                    &&& cidr_model(cidr_range@) == Some((e.network, e.prefix))
                    &&& e.wf()
                    &&& e.ip_range.cidr_range@ == cidr_range@
                    &&& e.ip_range.isp@ == isp@
                    &&& e.ip_range.asn@ == asn@
                },
                Err(_) => cidr_model(cidr_range@) is None,
            },
    {
        let (network, prefix) = match parse_cidr(cidr_range) {
            Ok(p) => p,
            Err(e) => {
                return Err(e);
            },
        };
        Ok(
            IPRangeEntry {
                network,
                prefix,
                ip_range: Arc::new(
                    IPRange {
                        cidr_range: String::from_str(cidr_range),
                        isp: String::from_str(isp),
                        asn: String::from_str(asn),
                    },
                ),
            },
        )
    }

    /// The netmask of this entry, as `prefix_mask` states.
    pub fn mask(&self) -> (m: u32)
        requires
            self.wf(),
        ensures
            m == prefix_mask(self.prefix),
    {
        mask_for(self.prefix)
    }
}

/// The netmask of a prefix length, as `prefix_mask` states.
pub fn mask_for(prefix: u8) -> (m: u32)
    requires
        prefix <= 32,
    ensures
        m == prefix_mask(prefix),
{
    if prefix == 0 {
        0
    } else {
        let shift: u32 = 32 - (prefix as u32);
        assert(1u32 << shift >= 1) by (bit_vector)
            requires
                shift <= 31,
        ;
        !((1u32 << shift) - 1)
    }
}

/// Clones a shared record reference.
///
/// Relies on std's `Arc::clone`: the clone refers to the same allocation, so
/// it carries the same value.
#[verifier::external_body]
pub(crate) fn arc_clone(a: &Arc<IPRange>) -> (r: Arc<IPRange>)
    ensures
        r == *a,
{
    Arc::clone(a)
}

} // verus!
