use vstd::prelude::*;

use crate::DomainError;

verus! {

/// What the public-suffix algorithm makes of a name: the registrable root
/// (one label plus the public suffix), or nothing when the name is not a
/// well-formed domain name or is itself a public suffix. The public-suffix
/// list is compiled into the parser, so the result depends on the name alone.
pub uninterp spec fn registrable_root(name: Seq<char>) -> Option<Seq<char>>;

/// Relies on addr::parse_domain_name, addr::domain::Name::root and
/// addr::domain::Name::prefix: root and prefix are slices of the input, with
/// the full name equal to prefix "." root when a prefix exists and to the
/// root alone otherwise, and the prefix is never empty.
#[verifier::external_body]
fn split_via_psl(s: &str) -> (r: Option<(Option<String>, String)>)
    ensures
        r is Some <==> registrable_root(s@) is Some,
        r matches Some((prefix, root)) ==> {
            &&& Some(root@) == registrable_root(s@)
            &&& match prefix {
                Option::None => s@ == root@,
                Option::Some(p) => p@.len() > 0 && s@ == p@ + seq!['.'] + root@,
            }
        },
{
    match addr::parse_domain_name(s) {
        Ok(name) => match name.root() {
            Some(root) => Some((name.prefix().map(|p| p.to_string()), root.to_string())),
            None => None,
        },
        Err(_) => None,
    }
}

/// A validated fully-qualified domain name, decomposed into an optional
/// subdomain prefix and the provider-addressable registrable root.
#[derive(Debug)]
pub struct DomainName {
    pub name: String,
    pub prefix: Option<String>,
    pub root: String,
}

impl DomainName {
    /// The name is its root with the prefix (never empty) dotted in front,
    /// or exactly its root.
    pub open spec fn wf(&self) -> bool {
        match self.prefix {
            Option::None => self.name@ == self.root@,
            Option::Some(p) => p@.len() > 0 && self.name@ == p@ + seq!['.'] + self.root@,
        }
    }

    /// Validates a raw name and decomposes it; a name without a registrable
    /// root (a bare public suffix, an empty or malformed name) is rejected,
    /// never silently degraded.
    pub fn parse(s: &str) -> (r: Result<DomainName, DomainError>)
        ensures
            r is Ok <==> registrable_root(s@) is Some,
            r matches Ok(d) ==> d.wf() && d.name@ == s@ && Some(d.root@) == registrable_root(s@),
            r matches Err(e) ==> e matches DomainError::MissingRoot(m) && m@ == s@,
    {
        match split_via_psl(s) {
            Some((prefix, root)) => Ok(DomainName { name: s.to_owned(), prefix, root }),
            None => Err(DomainError::MissingRoot(s.to_owned())),
        }
    }

    /// The (prefix, root) pair; the prefix is absent, not empty, when the
    /// name equals its root.
    pub fn split(&self) -> (r: (Option<&String>, &String))
        ensures
            r.1@ == self.root@,
            r.0 is Some <==> self.prefix is Some,
            r.0 matches Some(p) ==> self.prefix matches Some(q) && p@ == q@,
    {
        (self.prefix.as_ref(), &self.root)
    }

    /// Whether the name carries a subdomain prefix.
    pub fn has_prefix(&self) -> (r: bool)
        ensures
            r == (self.prefix is Some),
    {
        match &self.prefix {
            Option::Some(_) => true,
            Option::None => false,
        }
    }

    /// Some provider operations address a bare zone; they must reject a name
    /// with a prefix before any call is issued.
    pub fn require_bare_root(&self) -> (r: Result<(), DomainError>)
        ensures
            r is Ok <==> self.prefix is None,
            r matches Err(e) ==> e matches DomainError::HasPrefix(m) && m@ == self.name@,
    {
        match &self.prefix {
            Option::None => Ok(()),
            Option::Some(_) => Err(DomainError::HasPrefix(self.name.clone())),
        }
    }
}

/// A name splits without a prefix exactly when it equals its own root: the
/// splitter is the identity on roots.
pub proof fn lemma_split_of_root(d: DomainName)
    requires
        d.wf(),
    ensures
        d.prefix is None <==> d.name@ == d.root@,
{
    match d.prefix {
        Option::Some(p) => {
            assert(d.name@.len() == p@.len() + 1 + d.root@.len());
        },
        Option::None => {},
    }
}

/// Splitting a name that is its own registrable root is the identity: the
/// root comes back verbatim and the prefix is absent. This is how `parse`
/// leaves any domain name that the public-suffix algorithm maps to itself.
pub proof fn lemma_root_splits_identically(d: DomainName)
    requires
        d.wf(),
        Some(d.root@) == registrable_root(d.name@),
        registrable_root(d.name@) == Some(d.name@),
    ensures
        d.prefix is None,
        d.root@ == d.name@,
{
    lemma_split_of_root(d);
}

} // verus!
