use vstd::prelude::*;

use crate::record::{type_tag, Type};
use crate::strutil::{dec_str_signed, i64_to_string, push_char};

verus! {

/// The relative paths of the provider's API operations, to be joined onto
/// the endpoint URL. Each function builds exactly the path the provider
/// routes, with the zone root, the record id, the record type tag and the
/// optional subdomain prefix in their places.

/// The view of an optional prefix segment: the prefix itself, or nothing.
pub open spec fn prefix_segment(prefix: Option<&str>) -> Seq<char> {
    match prefix {
        Option::Some(p) => p@,
        Option::None => Seq::empty(),
    }
}

pub fn ping_path() -> (r: String)
    ensures
        r@ == "ping"@,
{
    "ping".to_owned()
}

pub fn create_path(root: &str) -> (r: String)
    ensures
        r@ == "dns/create/"@ + root@,
{
    let mut s = "dns/create/".to_owned();
    s.append(root);
    proof {
        assert(s@ =~= "dns/create/"@ + root@);
    }
    s
}

pub fn edit_path(root: &str, id: i64) -> (r: String)
    ensures
        r@ == "dns/edit/"@ + root@ + seq!['/'] + dec_str_signed(id as int),
{
    let mut s = "dns/edit/".to_owned();
    s.append(root);
    push_char(&mut s, '/');
    let ids = i64_to_string(id);
    s.append(ids.as_str());
    proof {
        assert(s@ =~= "dns/edit/"@ + root@ + seq!['/'] + dec_str_signed(id as int));
    }
    s
}

pub fn edit_by_name_type_path(root: &str, t: &Type, prefix: Option<&str>) -> (r: String)
    ensures
        r@ == "dns/editByNameType/"@ + root@ + seq!['/'] + type_tag(*t) + seq!['/']
            + prefix_segment(prefix),
{
    let mut s = "dns/editByNameType/".to_owned();
    s.append(root);
    push_char(&mut s, '/');
    s.append(t.as_str());
    push_char(&mut s, '/');
    if let Some(p) = prefix {
        s.append(p);
    }
    proof {
        assert(s@ =~= "dns/editByNameType/"@ + root@ + seq!['/'] + type_tag(*t) + seq!['/']
            + prefix_segment(prefix));
    }
    s
}

pub fn delete_path(root: &str, id: i64) -> (r: String)
    ensures
        r@ == "dns/delete/"@ + root@ + seq!['/'] + dec_str_signed(id as int),
{
    let mut s = "dns/delete/".to_owned();
    s.append(root);
    push_char(&mut s, '/');
    let ids = i64_to_string(id);
    s.append(ids.as_str());
    proof {
        assert(s@ =~= "dns/delete/"@ + root@ + seq!['/'] + dec_str_signed(id as int));
    }
    s
}

pub fn delete_by_name_type_path(root: &str, t: &Type, prefix: Option<&str>) -> (r: String)
    ensures
        r@ == "dns/deleteByNameType/"@ + root@ + seq!['/'] + type_tag(*t) + seq!['/']
            + prefix_segment(prefix),
{
    let mut s = "dns/deleteByNameType/".to_owned();
    s.append(root);
    push_char(&mut s, '/');
    s.append(t.as_str());
    push_char(&mut s, '/');
    if let Some(p) = prefix {
        s.append(p);
    }
    proof {
        assert(s@ =~= "dns/deleteByNameType/"@ + root@ + seq!['/'] + type_tag(*t) + seq!['/']
            + prefix_segment(prefix));
    }
    s
}

/// The id segment of a retrieval: the id when one record is addressed,
/// nothing when the whole zone is listed.
pub open spec fn id_segment(id: Option<i64>) -> Seq<char> {
    match id {
        Option::Some(v) => dec_str_signed(v as int),
        Option::None => Seq::empty(),
    }
}

pub fn retrieve_path(root: &str, id: Option<i64>) -> (r: String)
    ensures
        r@ == "dns/retrieve/"@ + root@ + seq!['/'] + id_segment(id),
{
    let mut s = "dns/retrieve/".to_owned();
    s.append(root);
    push_char(&mut s, '/');
    if let Some(v) = id {
        let ids = i64_to_string(v);
        s.append(ids.as_str());
    }
    proof {
        assert(s@ =~= "dns/retrieve/"@ + root@ + seq!['/'] + id_segment(id));
    }
    s
}

pub fn retrieve_by_name_type_path(root: &str, t: &Type, prefix: Option<&str>) -> (r: String)
    ensures
        r@ == "dns/retrieveByNameType/"@ + root@ + seq!['/'] + type_tag(*t) + seq!['/']
            + prefix_segment(prefix),
{
    let mut s = "dns/retrieveByNameType/".to_owned();
    s.append(root);
    push_char(&mut s, '/');
    s.append(t.as_str());
    push_char(&mut s, '/');
    if let Some(p) = prefix {
        s.append(p);
    }
    proof {
        assert(s@ =~= "dns/retrieveByNameType/"@ + root@ + seq!['/'] + type_tag(*t) + seq!['/']
            + prefix_segment(prefix));
    }
    s
}

} // verus!
