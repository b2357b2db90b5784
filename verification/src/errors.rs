use vstd::prelude::*;

verus! {

/// A CIDR string was rejected: it lacks exactly one `/`, its address part is
/// not a valid IPv4 dotted quad, or its prefix part is not an integer in
/// `0..=32`. A failed insert leaves the index unchanged.
#[derive(Clone, Copy, Debug, PartialEq, Eq, Structural)]
pub struct MalformedCidr;

/// Errors surfaced to the request layer: an address that resolves to no
/// range, and a query that is not a valid IPv4 address.
#[derive(Clone, Copy, Debug, PartialEq, Eq, Structural)]
pub enum Error {
    NotFound,
    InvalidDate,
}

impl Error {
    /// A short description, in place of a `Display` implementation.
    pub fn message(&self) -> (m: &'static str)
        ensures
            m@ == if self is NotFound { "IP range not found"@ } else { "Invalid IP address"@ },
    {
        match self {
            Error::NotFound => "IP range not found",
            Error::InvalidDate => "Invalid IP address",
        }
    }
}

} // verus!
