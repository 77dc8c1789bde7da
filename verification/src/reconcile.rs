use vstd::prelude::*;

use crate::record::{content_eq, content_type, Content, Record, Type};
use crate::strutil::str_eq;

verus! {

/// The minimal mutation that converges the provider's state for one
/// (name, type) pair to the desired content.
#[derive(Debug, PartialEq, Eq, Structural, Clone, Copy)]
pub enum Action {
    /// No record exists yet: create one with the desired content.
    Create,
    /// Exactly one record exists and differs: edit it, by its id.
    Edit(i64),
    /// Exactly one record exists and already equals the desired content.
    Keep,
}

/// Reconciliation refusal: the provider holds several records for one
/// (name, type) pair, and guessing which to edit could destroy data.
#[derive(Debug)]
pub enum ReconcileError {
    /// The offending name, and how many records were found.
    AmbiguousState(String, usize),
}

/// A provider record is a match when its full dotted name and its record
/// type both equal the queried ones (exact match, not prefix or substring).
pub open spec fn record_matches(r: Record, name: Seq<char>, t: Type) -> bool {
    r.name@ == name && content_type(r.content) == t
}

/// The matching records, in the order the provider returned them.
pub open spec fn matching_records(records: Seq<Record>, name: Seq<char>, t: Type) -> Seq<Record>
    decreases records.len(),
{
    if records.len() == 0 {
        Seq::empty()
    } else {
        let init = matching_records(records.drop_last(), name, t);
        if record_matches(records.last(), name, t) {
            init.push(records.last())
        } else {
            init
        }
    }
}

/// Decides what to do for `name`, given the records the provider returned
/// and the desired content: create when none matches, keep or edit when
/// exactly one matches, and refuse to act when several match.
pub fn plan_update(records: &Vec<Record>, name: &str, desired: &Content) -> (r: Result<
    Action,
    ReconcileError,
>)
    ensures
        ({
            let ms = matching_records(records@, name@, content_type(*desired));
            &&& ms.len() == 0 ==> r == Result::<Action, ReconcileError>::Ok(Action::Create)
            &&& ms.len() == 1 && content_eq(ms[0].content, *desired) ==> r == Result::<
                Action,
                ReconcileError,
            >::Ok(Action::Keep)
            &&& ms.len() == 1 && !content_eq(ms[0].content, *desired) ==> r == Result::<
                Action,
                ReconcileError,
            >::Ok(Action::Edit(ms[0].id))
            &&& ms.len() > 1 ==> (r matches Err(ReconcileError::AmbiguousState(d, n)) && d@
                == name@ && n == ms.len())
        }),
{
    let ghost t_spec = content_type(*desired);
    let t = Type::from(desired);
    let mut first: usize = 0;
    let mut found: bool = false;
    let mut count: usize = 0;
    let n = records.len();
    for i in 0..n
        invariant
            n == records@.len(),
            t == t_spec,
            count == matching_records(records@.take(i as int), name@, t_spec).len(),
            count <= i,
            (count > 0) == found,
            found ==> first < i && record_matches(records@[first as int], name@, t_spec)
                && matching_records(records@.take(i as int), name@, t_spec)[0] == records@[first as int],
    {
        proof {
            assert(records@.take(i + 1).drop_last() =~= records@.take(i as int));
        }
        let rec = &records[i];
        if str_eq(rec.name.as_str(), name) {
            let rt = Type::from(&rec.content);
            if rt == t {
                if !found {
                    first = i;
                    found = true;
                }
                count = count + 1;
            }
        }
    }
    proof {
        assert(records@.take(n as int) =~= records@);
    }
    if count == 0 {
        Ok(Action::Create)
    } else if count == 1 {
        let rec = &records[first];
        if rec.content == *desired {
            Ok(Action::Keep)
        } else {
            Ok(Action::Edit(rec.id))
        }
    } else {
        Err(ReconcileError::AmbiguousState(name.to_owned(), count))
    }
}

} // verus!
