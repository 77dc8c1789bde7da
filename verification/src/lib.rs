use vstd::prelude::*;

pub mod api;
pub mod domain;
pub mod ipv4;
pub mod ipv6;
pub mod netcmd;
pub mod reconcile;
pub mod record;
pub mod strutil;

verus! {

/// Errors raised when a fully-qualified domain name cannot be used for a
/// provider operation.
#[derive(Debug)]
pub enum DomainError {
    /// The name carries a subdomain prefix where a bare root was required.
    HasPrefix(String),
    /// No registrable root could be located (for example, the name is a bare
    /// public suffix, or it is not a well-formed domain name at all).
    MissingRoot(String),
}

} // verus!
