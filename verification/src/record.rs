use vstd::prelude::*;

use crate::ipv4::{lemma_ipv4_round_trip, parse_ipv4, render_ipv4, Ipv4Address};
use crate::ipv6::{lemma_ipv6_round_trip, parse_ipv6, render_ipv6, Ipv6Address};
use crate::strutil::str_eq;

verus! {

/// The closed set of record types the provider understands.
#[derive(Debug, PartialEq, Eq, Structural, Clone, Copy)]
pub enum Type {
    A,
    Mx,
    Cname,
    Alias,
    Txt,
    Ns,
    Aaaa,
    Srv,
    Tlsa,
    Caa,
    Https,
    Svcb,
}

/// The canonical uppercase wire tag of each record type.
pub open spec fn type_tag(t: Type) -> Seq<char> {
    match t {
        Type::A => seq!['A'],
        Type::Mx => seq!['M', 'X'],
        Type::Cname => seq!['C', 'N', 'A', 'M', 'E'],
        Type::Alias => seq!['A', 'L', 'I', 'A', 'S'],
        Type::Txt => seq!['T', 'X', 'T'],
        Type::Ns => seq!['N', 'S'],
        Type::Aaaa => seq!['A', 'A', 'A', 'A'],
        Type::Srv => seq!['S', 'R', 'V'],
        Type::Tlsa => seq!['T', 'L', 'S', 'A'],
        Type::Caa => seq!['C', 'A', 'A'],
        Type::Https => seq!['H', 'T', 'T', 'P', 'S'],
        Type::Svcb => seq!['S', 'V', 'C', 'B'],
    }
}

/// The type whose tag is `s`, if any.
pub open spec fn tag_to_type(s: Seq<char>) -> Option<Type> {
    if s == type_tag(Type::A) {
        Some(Type::A)
    } else if s == type_tag(Type::Mx) {
        Some(Type::Mx)
    } else if s == type_tag(Type::Cname) {
        Some(Type::Cname)
    } else if s == type_tag(Type::Alias) {
        Some(Type::Alias)
    } else if s == type_tag(Type::Txt) {
        Some(Type::Txt)
    } else if s == type_tag(Type::Ns) {
        Some(Type::Ns)
    } else if s == type_tag(Type::Aaaa) {
        Some(Type::Aaaa)
    } else if s == type_tag(Type::Srv) {
        Some(Type::Srv)
    } else if s == type_tag(Type::Tlsa) {
        Some(Type::Tlsa)
    } else if s == type_tag(Type::Caa) {
        Some(Type::Caa)
    } else if s == type_tag(Type::Https) {
        Some(Type::Https)
    } else if s == type_tag(Type::Svcb) {
        Some(Type::Svcb)
    } else {
        None
    }
}

/// No two record types share a wire tag: tags differ in length or in their
/// first character.
pub proof fn lemma_type_tags_injective(t1: Type, t2: Type)
    ensures
        type_tag(t1) == type_tag(t2) ==> t1 == t2,
{
    if type_tag(t1) == type_tag(t2) {
        assert(type_tag(t1).len() == type_tag(t2).len());
        assert(type_tag(t1)[0] == type_tag(t2)[0]);
    }
}

/// Every type is recovered from its own tag: the tag map and the tag parser
/// agree.
pub proof fn lemma_tag_of_type(t: Type)
    ensures
        tag_to_type(type_tag(t)) == Some(t),
{
    lemma_type_tags_injective(t, Type::A);
    lemma_type_tags_injective(t, Type::Mx);
    lemma_type_tags_injective(t, Type::Cname);
    lemma_type_tags_injective(t, Type::Alias);
    lemma_type_tags_injective(t, Type::Txt);
    lemma_type_tags_injective(t, Type::Ns);
    lemma_type_tags_injective(t, Type::Aaaa);
    lemma_type_tags_injective(t, Type::Srv);
    lemma_type_tags_injective(t, Type::Tlsa);
    lemma_type_tags_injective(t, Type::Caa);
    lemma_type_tags_injective(t, Type::Https);
    lemma_type_tags_injective(t, Type::Svcb);
}

/// A typed record value: address types carry a validated address, all other
/// types carry their wire string verbatim.
#[derive(Debug)]
pub enum Content {
    A(Ipv4Address),
    Mx(String),
    Cname(String),
    Alias(String),
    Txt(String),
    Ns(String),
    Aaaa(Ipv6Address),
    Srv(String),
    Tlsa(String),
    Caa(String),
    Https(String),
    Svcb(String),
}

/// The record type a content value belongs to; total, one type per variant.
pub open spec fn content_type(c: Content) -> Type {
    match c {
        Content::A(_) => Type::A,
        Content::Mx(_) => Type::Mx,
        Content::Cname(_) => Type::Cname,
        Content::Alias(_) => Type::Alias,
        Content::Txt(_) => Type::Txt,
        Content::Ns(_) => Type::Ns,
        Content::Aaaa(_) => Type::Aaaa,
        Content::Srv(_) => Type::Srv,
        Content::Tlsa(_) => Type::Tlsa,
        Content::Caa(_) => Type::Caa,
        Content::Https(_) => Type::Https,
        Content::Svcb(_) => Type::Svcb,
    }
}

/// The wire string of a content value: addresses render to their standard
/// textual notation, everything else is the stored string.
pub open spec fn content_value(c: Content) -> Seq<char> {
    match c {
        Content::A(v) => render_ipv4(v),
        Content::Aaaa(v) => render_ipv6(v),
        Content::Mx(s) => s@,
        Content::Cname(s) => s@,
        Content::Alias(s) => s@,
        Content::Txt(s) => s@,
        Content::Ns(s) => s@,
        Content::Srv(s) => s@,
        Content::Tlsa(s) => s@,
        Content::Caa(s) => s@,
        Content::Https(s) => s@,
        Content::Svcb(s) => s@,
    }
}

/// Structural equality of content: same type and same payload.
pub open spec fn content_eq(a: Content, b: Content) -> bool {
    content_type(a) == content_type(b) && content_value(a) == content_value(b)
}

impl PartialEq for Content {
    fn eq(&self, other: &Content) -> (r: bool) {
        let ta = Type::from(self);
        let tb = Type::from(other);
        if ta != tb {
            return false;
        }
        let va = self.value_to_string();
        let vb = other.value_to_string();
        str_eq(va.as_str(), vb.as_str())
    }
}

impl Eq for Content {

}

impl vstd::std_specs::cmp::PartialEqSpecImpl for Content {
    open spec fn obeys_eq_spec() -> bool {
        true
    }

    open spec fn eq_spec(&self, other: &Content) -> bool {
        content_eq(*self, *other)
    }
}

/// Why a wire pair cannot be turned into typed content.
#[derive(Debug, PartialEq, Eq, Structural, Clone, Copy)]
pub enum ContentError {
    /// The type tag matches no known record type.
    UnknownType,
    /// The content of an A or AAAA record is not a valid address literal.
    MalformedAddress,
}

/// `c` is exactly what the wire pair `(t, value)` parses to.
pub open spec fn parses_to(t: Type, value: Seq<char>, c: Content) -> bool {
    content_type(c) == t && match c {
        Content::A(v) => parse_ipv4(value) == Some(v),
        Content::Aaaa(v) => parse_ipv6(value) == Some(v),
        _ => content_value(c) == value,
    }
}

/// The wire pair `(t, value)` has no typed reading: the content of an
/// address-typed record does not parse.
pub open spec fn parse_fails(t: Type, value: Seq<char>) -> bool {
    ||| t == Type::A && parse_ipv4(value) is None
    ||| t == Type::Aaaa && parse_ipv6(value) is None
}

impl Type {
    /// The canonical uppercase tag.
    pub fn as_str(&self) -> (r: &'static str)
        ensures
            r@ == type_tag(*self),
    {
        proof {
            reveal_strlit("A");
            reveal_strlit("MX");
            reveal_strlit("CNAME");
            reveal_strlit("ALIAS");
            reveal_strlit("TXT");
            reveal_strlit("NS");
            reveal_strlit("AAAA");
            reveal_strlit("SRV");
            reveal_strlit("TLSA");
            reveal_strlit("CAA");
            reveal_strlit("HTTPS");
            reveal_strlit("SVCB");
        }
        let r: &'static str = match self {
            Type::A => "A",
            Type::Mx => "MX",
            Type::Cname => "CNAME",
            Type::Alias => "ALIAS",
            Type::Txt => "TXT",
            Type::Ns => "NS",
            Type::Aaaa => "AAAA",
            Type::Srv => "SRV",
            Type::Tlsa => "TLSA",
            Type::Caa => "CAA",
            Type::Https => "HTTPS",
            Type::Svcb => "SVCB",
        };
        proof {
            assert(r@ =~= type_tag(*self));
        }
        r
    }

    /// The type a wire tag names, if any.
    pub fn from_tag(s: &str) -> (r: Option<Type>)
        ensures
            r == tag_to_type(s@),
    {
        proof {
            reveal_strlit("A");
            reveal_strlit("MX");
            reveal_strlit("CNAME");
            reveal_strlit("ALIAS");
            reveal_strlit("TXT");
            reveal_strlit("NS");
            reveal_strlit("AAAA");
            reveal_strlit("SRV");
            reveal_strlit("TLSA");
            reveal_strlit("CAA");
            reveal_strlit("HTTPS");
            reveal_strlit("SVCB");
            assert("A"@ =~= type_tag(Type::A));
            assert("MX"@ =~= type_tag(Type::Mx));
            assert("CNAME"@ =~= type_tag(Type::Cname));
            assert("ALIAS"@ =~= type_tag(Type::Alias));
            assert("TXT"@ =~= type_tag(Type::Txt));
            assert("NS"@ =~= type_tag(Type::Ns));
            assert("AAAA"@ =~= type_tag(Type::Aaaa));
            assert("SRV"@ =~= type_tag(Type::Srv));
            assert("TLSA"@ =~= type_tag(Type::Tlsa));
            assert("CAA"@ =~= type_tag(Type::Caa));
            assert("HTTPS"@ =~= type_tag(Type::Https));
            assert("SVCB"@ =~= type_tag(Type::Svcb));
        }
        if str_eq(s, "A") {
            Some(Type::A)
        } else if str_eq(s, "MX") {
            Some(Type::Mx)
        } else if str_eq(s, "CNAME") {
            Some(Type::Cname)
        } else if str_eq(s, "ALIAS") {
            Some(Type::Alias)
        } else if str_eq(s, "TXT") {
            Some(Type::Txt)
        } else if str_eq(s, "NS") {
            Some(Type::Ns)
        } else if str_eq(s, "AAAA") {
            Some(Type::Aaaa)
        } else if str_eq(s, "SRV") {
            Some(Type::Srv)
        } else if str_eq(s, "TLSA") {
            Some(Type::Tlsa)
        } else if str_eq(s, "CAA") {
            Some(Type::Caa)
        } else if str_eq(s, "HTTPS") {
            Some(Type::Https)
        } else if str_eq(s, "SVCB") {
            Some(Type::Svcb)
        } else {
            None
        }
    }

    /// The record type of a content value; always agrees with the content's
    /// own tag.
    pub fn from(value: &Content) -> (t: Type)
        ensures
            t == content_type(*value),
    {
        match value {
            Content::A(_) => Type::A,
            Content::Mx(_) => Type::Mx,
            Content::Cname(_) => Type::Cname,
            Content::Alias(_) => Type::Alias,
            Content::Txt(_) => Type::Txt,
            Content::Ns(_) => Type::Ns,
            Content::Aaaa(_) => Type::Aaaa,
            Content::Srv(_) => Type::Srv,
            Content::Tlsa(_) => Type::Tlsa,
            Content::Caa(_) => Type::Caa,
            Content::Https(_) => Type::Https,
            Content::Svcb(_) => Type::Svcb,
        }
    }
}

impl Content {
    /// The wire tag of this content's type.
    pub fn type_as_str(&self) -> (r: &'static str)
        ensures
            r@ == type_tag(content_type(*self)),
    {
        let t = Type::from(self);
        t.as_str()
    }

    /// The wire string of this content.
    pub fn value_to_string(&self) -> (r: String)
        ensures
            r@ == content_value(*self),
    {
        match self {
            Content::A(v) => v.render(),
            Content::Aaaa(v) => v.render(),
            Content::Mx(s) => s.clone(),
            Content::Cname(s) => s.clone(),
            Content::Alias(s) => s.clone(),
            Content::Txt(s) => s.clone(),
            Content::Ns(s) => s.clone(),
            Content::Srv(s) => s.clone(),
            Content::Tlsa(s) => s.clone(),
            Content::Caa(s) => s.clone(),
            Content::Https(s) => s.clone(),
            Content::Svcb(s) => s.clone(),
        }
    }

    /// Typed content from a known type and a wire string; fails exactly when
    /// an address-typed content string is not a valid address literal.
    pub fn from(type_: &Type, content: &str) -> (r: Result<Content, ContentError>)
        ensures
            r matches Ok(c) ==> parses_to(*type_, content@, c),
            r matches Err(e) ==> e == ContentError::MalformedAddress && parse_fails(
                *type_,
                content@,
            ),
            r is Ok <==> !parse_fails(*type_, content@),
    {
        match type_ {
            Type::A => match Ipv4Address::parse(content) {
                Some(v) => Ok(Content::A(v)),
                None => Err(ContentError::MalformedAddress),
            },
            Type::Aaaa => match Ipv6Address::parse(content) {
                Some(v) => Ok(Content::Aaaa(v)),
                None => Err(ContentError::MalformedAddress),
            },
            Type::Mx => Ok(Content::Mx(content.to_owned())),
            Type::Cname => Ok(Content::Cname(content.to_owned())),
            Type::Alias => Ok(Content::Alias(content.to_owned())),
            Type::Txt => Ok(Content::Txt(content.to_owned())),
            Type::Ns => Ok(Content::Ns(content.to_owned())),
            Type::Srv => Ok(Content::Srv(content.to_owned())),
            Type::Tlsa => Ok(Content::Tlsa(content.to_owned())),
            Type::Caa => Ok(Content::Caa(content.to_owned())),
            Type::Https => Ok(Content::Https(content.to_owned())),
            Type::Svcb => Ok(Content::Svcb(content.to_owned())),
        }
    }

    /// Typed content straight from a wire pair, as the provider sends it.
    pub fn parse(tag: &str, content: &str) -> (r: Result<Content, ContentError>)
        ensures
            tag_to_type(tag@) is None ==> r == Result::<Content, ContentError>::Err(
                ContentError::UnknownType,
            ),
            tag_to_type(tag@) matches Some(t) ==> {
                &&& r matches Ok(c) ==> parses_to(t, content@, c)
                &&& r matches Err(e) ==> e == ContentError::MalformedAddress && parse_fails(
                    t,
                    content@,
                )
                &&& r is Ok <==> !parse_fails(t, content@)
            },
    {
        match Type::from_tag(tag) {
            Some(t) => Content::from(&t, content),
            None => Err(ContentError::UnknownType),
        }
    }
}

/// The type of a content value is total and injective per variant, and its
/// tag names that type and no other: typing a value and tagging it agree.
pub proof fn lemma_content_type_agrees(c: Content)
    ensures
        tag_to_type(type_tag(content_type(c))) == Some(content_type(c)),
{
    lemma_tag_of_type(content_type(c));
}

/// Rendering typed content back to its wire string and re-parsing it under
/// its own tag gives the same content: the wire conversion is lossless.
pub proof fn lemma_wire_round_trip(c: Content)
    ensures
        parses_to(content_type(c), content_value(c), c),
{
    match c {
        Content::A(v) => lemma_ipv4_round_trip(v),
        Content::Aaaa(v) => lemma_ipv6_round_trip(v),
        _ => {},
    }
}

/// A wire pair has at most one typed reading, up to structural equality.
pub proof fn lemma_parse_deterministic(t: Type, value: Seq<char>, c1: Content, c2: Content)
    requires
        parses_to(t, value, c1),
        parses_to(t, value, c2),
    ensures
        content_eq(c1, c2),
{
    match (c1, c2) {
        (Content::A(v1), Content::A(v2)) => {
            assert(v1 == v2);
        },
        (Content::Aaaa(v1), Content::Aaaa(v2)) => {
            assert(v1 == v2);
        },
        _ => {},
    }
}

/// Round trip through the wire format: whatever `(t, value)` parses to,
/// rendering it and parsing the rendering under the same tag gives content
/// structurally equal to the first.
pub proof fn lemma_reparse_equal(t: Type, value: Seq<char>, c1: Content, c2: Content)
    requires
        parses_to(t, value, c1),
        parses_to(t, content_value(c1), c2),
    ensures
        content_eq(c1, c2),
{
    lemma_wire_round_trip(c1);
    lemma_parse_deterministic(t, content_value(c1), c1, c2);
}

/// A record as the provider returns it: a provider-assigned immutable id,
/// the full dotted name, and the typed content.
#[derive(Debug)]
pub struct Record {
    pub id: i64,
    pub name: String,
    pub content: Content,
}

} // verus!
