use hamsando::ipv4::Ipv4Address;
use hamsando::reconcile::{plan_update, Action, ReconcileError};
use hamsando::record::{Content, Record};

fn a(value: &str) -> Content {
    Content::parse("A", value).unwrap()
}

fn record(id: i64, name: &str, content: Content) -> Record {
    Record { id, name: String::from(name), content }
}

#[test]
fn no_match_creates() {
    let records: Vec<Record> = Vec::new();
    let plan = plan_update(&records, "example.com", &a("203.0.113.5"));
    assert_eq!(plan.unwrap(), Action::Create);
}

#[test]
fn one_equal_match_keeps() {
    let records = vec![record(7, "example.com", a("203.0.113.5"))];
    let plan = plan_update(&records, "example.com", &a("203.0.113.5"));
    assert_eq!(plan.unwrap(), Action::Keep);
}

#[test]
fn one_differing_match_edits_by_id() {
    let records = vec![record(42, "example.com", a("198.51.100.9"))];
    let plan = plan_update(&records, "example.com", &a("203.0.113.5"));
    assert_eq!(plan.unwrap(), Action::Edit(42));
}

#[test]
fn two_matches_are_ambiguous() {
    let records = vec![
        record(1, "example.com", a("198.51.100.9")),
        record(2, "example.com", a("203.0.113.7")),
    ];
    match plan_update(&records, "example.com", &a("203.0.113.5")) {
        Err(ReconcileError::AmbiguousState(name, n)) => {
            assert_eq!(name, "example.com");
            assert_eq!(n, 2);
        }
        other => panic!("expected AmbiguousState, got {:?}", other),
    }
}

#[test]
fn matching_is_exact_on_name_and_type() {
    // Same type under another name, other types under the same name: none of
    // them count as a match, so the desired record is created.
    let records = vec![
        record(1, "other.example.com", a("203.0.113.5")),
        record(2, "example.com", Content::parse("TXT", "203.0.113.5").unwrap()),
        record(3, "example.com", Content::parse("AAAA", "2001:db8::1").unwrap()),
        record(4, "example.com.extra", a("203.0.113.5")),
    ];
    let plan = plan_update(&records, "example.com", &a("203.0.113.5"));
    assert_eq!(plan.unwrap(), Action::Create);
}

#[test]
fn unrelated_records_do_not_disturb_a_single_match() {
    let records = vec![
        record(1, "other.example.com", a("203.0.113.5")),
        record(9, "example.com", a("203.0.113.5")),
        record(2, "example.com", Content::parse("TXT", "x").unwrap()),
    ];
    let plan = plan_update(&records, "example.com", &a("203.0.113.5"));
    assert_eq!(plan.unwrap(), Action::Keep);

    let plan = plan_update(&records, "example.com", &a("203.0.113.6"));
    assert_eq!(plan.unwrap(), Action::Edit(9));
}

#[test]
fn equality_of_desired_content_is_structural() {
    // The retrieved record holds a parsed address; the desired one is built
    // directly. Keep is decided on the value, not on provenance.
    let records = vec![record(
        5,
        "example.com",
        Content::A(Ipv4Address { a: 203, b: 0, c: 113, d: 5 }),
    )];
    let plan = plan_update(&records, "example.com", &a("203.0.113.5"));
    assert_eq!(plan.unwrap(), Action::Keep);
}
