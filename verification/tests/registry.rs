use asset_registry::tld::{DomainInfo, Error, Event, Pallet};

fn b(s: &str) -> Vec<u8> {
    s.as_bytes().to_vec()
}

#[test]
fn domain_info_new_keeps_its_arguments() {
    let info = DomainInfo::new(b("alice"), b("http://spec"), b("node-1"), true);
    assert_eq!(info.creator, b("alice"));
    assert_eq!(info.chain_spec, b("http://spec"));
    assert_eq!(info.maintainer, b("node-1"));
    assert!(info.available);
}

#[test]
fn register_inserts_an_unavailable_record_and_indexes_the_maintainer() {
    let mut registry = Pallet::new();
    let event = registry
        .register_domain(b("alice"), b("example.net"), b("http://spec"), b("node-1"))
        .unwrap();
    match event {
        Event::DomainRegistered { domain_name, creator } => {
            assert_eq!(domain_name, b("example.net"));
            assert_eq!(creator, b("alice"));
        }
        other => panic!("unexpected event {:?}", other),
    }
    let info = registry.domain_map(b"example.net").unwrap();
    assert_eq!(info.creator, b("alice"));
    assert_eq!(info.chain_spec, b("http://spec"));
    assert_eq!(info.maintainer, b("node-1"));
    assert!(!info.available);
    assert_eq!(registry.maintainer_map(b"node-1"), Some(&b("example.net")));
    assert!(registry.domain_map(b"other.net").is_none());
    assert!(registry.maintainer_map(b"node-2").is_none());
}

#[test]
fn register_refuses_a_claimed_domain() {
    let mut registry = Pallet::new();
    registry.register_domain(b("alice"), b("example.net"), b("s1"), b("n1")).unwrap();
    let again = registry.register_domain(b("bob"), b("example.net"), b("s2"), b("n2"));
    assert_eq!(again.unwrap_err(), Error::DomainNotAvailable);
    let info = registry.domain_map(b"example.net").unwrap();
    assert_eq!(info.creator, b("alice"));
    assert_eq!(info.chain_spec, b("s1"));
    assert!(registry.maintainer_map(b"n2").is_none());
}

#[test]
fn register_refuses_even_the_owner_while_claimed() {
    let mut registry = Pallet::new();
    registry.register_domain(b("alice"), b("example.net"), b("s1"), b("n1")).unwrap();
    let again = registry.register_domain(b("alice"), b("example.net"), b("s2"), b("n2"));
    assert_eq!(again.unwrap_err(), Error::DomainNotAvailable);
}

#[test]
fn amend_needs_an_existing_domain() {
    let mut registry = Pallet::new();
    let r = registry.amend_chainspec(b("alice"), b("example.net"), b("s"), b("n"));
    assert_eq!(r.unwrap_err(), Error::DomainNotFound);
    assert!(registry.domain_map(b"example.net").is_none());
}

#[test]
fn amend_needs_the_owner() {
    let mut registry = Pallet::new();
    registry.register_domain(b("alice"), b("example.net"), b("s1"), b("n1")).unwrap();
    let r = registry.amend_chainspec(b("bob"), b("example.net"), b("s2"), b("n2"));
    assert_eq!(r.unwrap_err(), Error::InvalidOwnerId);
    assert_eq!(registry.domain_map(b"example.net").unwrap().chain_spec, b("s1"));
}

#[test]
fn amend_rewrites_the_record_and_adds_to_the_index() {
    let mut registry = Pallet::new();
    registry.register_domain(b("alice"), b("example.net"), b("s1"), b("n1")).unwrap();
    let event = registry.amend_chainspec(b("alice"), b("example.net"), b("s2"), b("n2")).unwrap();
    assert!(matches!(
        event,
        Event::DomainAmended { ref domain_name, ref editor }
            if domain_name == &b("example.net") && editor == &b("alice")
    ));
    let info = registry.domain_map(b"example.net").unwrap();
    assert_eq!(info.chain_spec, b("s2"));
    assert_eq!(info.maintainer, b("n2"));
    assert!(!info.available);
    assert_eq!(registry.maintainer_map(b"n2"), Some(&b("example.net")));
    assert_eq!(registry.maintainer_map(b"n1"), None);
}

#[test]
fn revoke_needs_an_existing_domain_and_the_owner() {
    let mut registry = Pallet::new();
    assert_eq!(
        registry.revoke_domain(b("alice"), b("example.net")).unwrap_err(),
        Error::DomainNotFound
    );
    registry.register_domain(b("alice"), b("example.net"), b("s1"), b("n1")).unwrap();
    assert_eq!(
        registry.revoke_domain(b("bob"), b("example.net")).unwrap_err(),
        Error::InvalidOwnerId
    );
    assert!(!registry.domain_map(b"example.net").unwrap().available);
}

#[test]
fn revoke_marks_available_and_clears_descriptor_and_maintainer() {
    let mut registry = Pallet::new();
    registry.register_domain(b("alice"), b("example.net"), b("s1"), b("n1")).unwrap();
    let event = registry.revoke_domain(b("alice"), b("example.net")).unwrap();
    assert!(matches!(
        event,
        Event::DomainRevoked { ref domain_name, ref revoker }
            if domain_name == &b("example.net") && revoker == &b("alice")
    ));
    let info = registry.domain_map(b"example.net").unwrap();
    assert!(info.available);
    assert_eq!(info.creator, b("alice"));
    assert!(info.chain_spec.is_empty());
    assert!(info.maintainer.is_empty());
    assert_eq!(registry.maintainer_map(b"n1"), None);
}

#[test]
fn a_revoked_domain_can_be_registered_by_someone_else() {
    let mut registry = Pallet::new();
    registry.register_domain(b("alice"), b("example.net"), b("s1"), b("n1")).unwrap();
    registry.revoke_domain(b("alice"), b("example.net")).unwrap();
    registry.register_domain(b("bob"), b("example.net"), b("s2"), b("n2")).unwrap();
    let info = registry.domain_map(b"example.net").unwrap();
    assert_eq!(info.creator, b("bob"));
    assert!(!info.available);
    assert_eq!(
        registry.amend_chainspec(b("alice"), b("example.net"), b("s3"), b("n3")).unwrap_err(),
        Error::InvalidOwnerId
    );
}

#[test]
fn a_maintainer_points_to_the_domain_registered_last() {
    let mut registry = Pallet::new();
    registry.register_domain(b("alice"), b("a.net"), b("s1"), b("n1")).unwrap();
    registry.register_domain(b("bob"), b("b.net"), b("s2"), b("n1")).unwrap();
    assert_eq!(registry.maintainer_map(b"n1"), Some(&b("b.net")));
}

#[test]
fn an_amendment_with_the_same_maintainer_keeps_its_row() {
    let mut registry = Pallet::new();
    registry.register_domain(b("alice"), b("example.net"), b("s1"), b("n1")).unwrap();
    registry.amend_chainspec(b("alice"), b("example.net"), b("s2"), b("n1")).unwrap();
    assert_eq!(registry.maintainer_map(b"n1"), Some(&b("example.net")));
    assert_eq!(registry.domain_map(b"example.net").unwrap().chain_spec, b("s2"));
}

#[test]
fn a_row_that_points_to_another_domain_is_left_alone() {
    let mut registry = Pallet::new();
    registry.register_domain(b("alice"), b("a.net"), b("s1"), b("n1")).unwrap();
    registry.register_domain(b("bob"), b("b.net"), b("s2"), b("n1")).unwrap();
    registry.amend_chainspec(b("alice"), b("a.net"), b("s3"), b("n2")).unwrap();
    assert_eq!(registry.maintainer_map(b"n1"), Some(&b("b.net")));
    assert_eq!(registry.maintainer_map(b"n2"), Some(&b("a.net")));
    registry.revoke_domain(b("alice"), b("a.net")).unwrap();
    assert_eq!(registry.maintainer_map(b"n1"), Some(&b("b.net")));
    assert_eq!(registry.maintainer_map(b"n2"), None);
}

#[test]
fn every_row_of_the_index_names_the_maintainer_of_a_claimed_domain() {
    let mut registry = Pallet::new();
    registry.register_domain(b("alice"), b("a.net"), b("s"), b("n1")).unwrap();
    registry.register_domain(b("bob"), b("b.net"), b("s"), b("n2")).unwrap();
    registry.amend_chainspec(b("alice"), b("a.net"), b("s"), b("n3")).unwrap();
    registry.revoke_domain(b("bob"), b("b.net")).unwrap();
    registry.register_domain(b("carol"), b("b.net"), b("s"), b("n4")).unwrap();
    for maintainer in ["n1", "n2", "n3", "n4", "n5"] {
        if let Some(domain) = registry.maintainer_map(maintainer.as_bytes()) {
            let info = registry.domain_map(domain).unwrap();
            assert!(!info.available);
            assert_eq!(info.maintainer, b(maintainer));
        }
    }
    assert_eq!(registry.maintainer_map(b"n1"), None);
    assert_eq!(registry.maintainer_map(b"n2"), None);
    assert_eq!(registry.maintainer_map(b"n3"), Some(&b("a.net")));
    assert_eq!(registry.maintainer_map(b"n4"), Some(&b("b.net")));
}
