use vstd::prelude::*;

verus! {

/// Everything that can go wrong before a provider call is even issued:
/// configuration errors and discovery-response parse errors.
#[derive(Clone, Debug, PartialEq, Eq)]
pub enum DdnsError {
    /// A configured name has fewer than three dot-separated labels.
    InvalidDomain(String),
    /// The credential pair is incomplete.
    MissingAccessKeyId,
    MissingAccessKeySecret,
    /// The IPv4 lookup failed; no update is possible without it.
    Ipv4LookupFailed,
    /// A discovery response did not hold a parsable address literal.
    AddressParse(String),
}

} // verus!
