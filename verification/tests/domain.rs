use hamsando::DomainError;
use hamsando::domain::DomainName;

#[test]
fn bare_public_suffix_has_no_root() {
    match DomainName::parse("com") {
        Err(DomainError::MissingRoot(name)) => assert_eq!(name, "com"),
        other => panic!("expected MissingRoot, got {:?}", other),
    }
}

#[test]
fn empty_name_has_no_root() {
    assert!(matches!(
        DomainName::parse(""),
        Err(DomainError::MissingRoot(_))
    ));
}

#[test]
fn root_splits_to_itself_with_no_prefix() {
    let d = DomainName::parse("example.com").unwrap();
    assert_eq!(d.name, "example.com");
    assert_eq!(d.root, "example.com");
    assert_eq!(d.prefix, None);
    let (prefix, root) = d.split();
    assert_eq!(prefix, None);
    assert_eq!(root, "example.com");
}

#[test]
fn subdomain_splits_into_prefix_and_root() {
    let d = DomainName::parse("www.example.com").unwrap();
    assert_eq!(d.name, "www.example.com");
    assert_eq!(d.root, "example.com");
    assert_eq!(d.prefix.as_deref(), Some("www"));
    let (prefix, root) = d.split();
    assert_eq!(prefix.map(|p| p.as_str()), Some("www"));
    assert_eq!(root, "example.com");
    let d = DomainName::parse("a.b.example.co.uk").unwrap();
    assert_eq!(d.root, "example.co.uk");
    assert_eq!(d.prefix.as_deref(), Some("a.b"));
}

#[test]
fn splitting_a_root_again_is_stable() {
    let d = DomainName::parse("deep.sub.example.org").unwrap();
    let again = DomainName::parse(&d.root).unwrap();
    assert_eq!(again.root, d.root);
    assert_eq!(again.prefix, None);
    assert_eq!(again.name, d.root);
}

#[test]
fn bare_root_requirement() {
    let root_only = DomainName::parse("example.com").unwrap();
    assert!(root_only.require_bare_root().is_ok());
    assert!(!root_only.has_prefix());

    let with_prefix = DomainName::parse("www.example.com").unwrap();
    assert!(with_prefix.has_prefix());
    match with_prefix.require_bare_root() {
        Err(DomainError::HasPrefix(name)) => assert_eq!(name, "www.example.com"),
        other => panic!("expected HasPrefix, got {:?}", other),
    }
}
