use asset_registry::assetdiscovery::{
    Call, Error, Event, InvalidTransaction, Pallet, PendingRequest, DOMAIN_BATCH_SIZE,
    PRIORITY_MAX, REQUEST_LIFETIME,
};

fn b(s: &str) -> Vec<u8> {
    s.as_bytes().to_vec()
}

fn key(asset: &str, domain: &str) -> Vec<u8> {
    let mut k = b(asset);
    k.extend_from_slice(domain.as_bytes());
    k
}

fn request(who: &str, domain: &str, asset: &str, deadline: u64) -> PendingRequest {
    PendingRequest { requester: b(who), domain: b(domain), asset_hash: b(asset), timestamp: deadline }
}

/// Requests and commits one binding at tick 0.
fn bind(state: &mut Pallet, asset: &str, domain: &str) {
    state.register_asset_for_domain(b("alice"), b(domain), b(asset), 0);
    state
        .submit_verified_domain(key(asset, domain), request("alice", domain, asset, 1000), 1)
        .unwrap();
}

fn providers(state: &Pallet, asset: &str) -> Option<Vec<Vec<u8>>> {
    state.asset_providers(asset.as_bytes()).map(|l| l.providers.clone())
}

fn assets(state: &Pallet, domain: &str) -> Option<Vec<Vec<u8>>> {
    state.provider_assets(domain.as_bytes()).map(|l| l.assets.clone())
}

/// Whether the two halves of the index mirror each other on the given names.
fn mirrored(state: &Pallet, asset_names: &[&str], domain_names: &[&str]) -> bool {
    asset_names.iter().all(|a| {
        domain_names.iter().all(|d| {
            let in_providers = providers(state, a).map_or(false, |l| l.contains(&b(d)));
            let in_assets = assets(state, d).map_or(false, |l| l.contains(&b(a)));
            in_providers == in_assets
        })
    })
}

#[test]
fn the_constants_have_their_values() {
    assert_eq!(DOMAIN_BATCH_SIZE, 10);
    assert_eq!(REQUEST_LIFETIME, 1000);
    assert_eq!(PRIORITY_MAX, u64::MAX);
}

#[test]
fn a_request_is_stored_under_asset_then_domain_with_its_deadline() {
    let mut state = Pallet::new();
    let event = state.register_asset_for_domain(b("alice"), b("example.net"), b("Qm1"), 42);
    let stored = state.pending_requests(&key("Qm1", "example.net")).unwrap();
    assert_eq!(*stored, request("alice", "example.net", "Qm1", 1042));
    assert!(state.pending_requests(&key("example.net", "Qm1")).is_none());
    assert!(providers(&state, "Qm1").is_none());
    assert!(assets(&state, "example.net").is_none());
    assert!(state.last_processed_domain().is_empty());
    match event {
        Event::DomainValidationRequested(who, r) => {
            assert_eq!(who, b("alice"));
            assert_eq!(r, request("alice", "example.net", "Qm1", 1042));
        }
        other => panic!("unexpected event {:?}", other),
    }
}

#[test]
fn a_repeated_request_resets_the_deadline() {
    let mut state = Pallet::new();
    state.register_asset_for_domain(b("alice"), b("example.net"), b("Qm1"), 10);
    state.register_asset_for_domain(b("bob"), b("example.net"), b("Qm1"), 500);
    let stored = state.pending_requests(&key("Qm1", "example.net")).unwrap();
    assert_eq!(*stored, request("bob", "example.net", "Qm1", 1500));
    assert_eq!(state.fetch_pending_requests(10, 0).len(), 1);
}

#[test]
fn a_commit_without_a_pending_request_is_refused() {
    let mut state = Pallet::new();
    let r = state.submit_verified_domain(
        key("Qm1", "example.net"),
        request("alice", "example.net", "Qm1", 1000),
        5,
    );
    assert_eq!(r.unwrap_err(), Error::RequestDoesNotExist);
    assert!(providers(&state, "Qm1").is_none());
    assert!(assets(&state, "example.net").is_none());
}

#[test]
fn a_commit_binds_in_both_lists_and_reports_the_tick() {
    let mut state = Pallet::new();
    state.register_asset_for_domain(b("alice"), b("example.net"), b("Qm1"), 0);
    let event = state
        .submit_verified_domain(
            key("Qm1", "example.net"),
            request("alice", "example.net", "Qm1", 1000),
            77,
        )
        .unwrap();
    match event {
        Event::AssetRegisteredForDomain(asset, domain, tick) => {
            assert_eq!(asset, b("Qm1"));
            assert_eq!(domain, b("example.net"));
            assert_eq!(tick, 77);
        }
        other => panic!("unexpected event {:?}", other),
    }
    assert_eq!(providers(&state, "Qm1"), Some(vec![b("example.net")]));
    assert_eq!(assets(&state, "example.net"), Some(vec![b("Qm1")]));
    assert!(state.pending_requests(&key("Qm1", "example.net")).is_none());
}

#[test]
fn commits_append_to_existing_lists() {
    let mut state = Pallet::new();
    bind(&mut state, "Qm1", "a.net");
    bind(&mut state, "Qm1", "b.net");
    bind(&mut state, "Qm2", "a.net");
    assert_eq!(providers(&state, "Qm1"), Some(vec![b("a.net"), b("b.net")]));
    assert_eq!(providers(&state, "Qm2"), Some(vec![b("a.net")]));
    assert_eq!(assets(&state, "a.net"), Some(vec![b("Qm1"), b("Qm2")]));
    assert_eq!(assets(&state, "b.net"), Some(vec![b("Qm1")]));
    assert!(mirrored(&state, &["Qm1", "Qm2", "Qm3"], &["a.net", "b.net", "c.net"]));
}

#[test]
fn a_binding_requested_twice_is_committed_once() {
    let mut state = Pallet::new();
    state.register_asset_for_domain(b("alice"), b("example.net"), b("Qm1"), 0);
    state.register_asset_for_domain(b("alice"), b("example.net"), b("Qm1"), 3);
    let due = state.fetch_pending_requests(10, 4);
    assert_eq!(due.len(), 1);
    let (k, r) = due.into_iter().next().unwrap();
    assert_eq!(k, key("Qm1", "example.net"));
    let again = r.clone();
    assert!(state.submit_verified_domain(k.clone(), r, 4).is_ok());
    assert_eq!(
        state.submit_verified_domain(k, again, 4).unwrap_err(),
        Error::RequestDoesNotExist
    );
    assert_eq!(providers(&state, "Qm1"), Some(vec![b("example.net")]));
}

#[test]
fn a_commit_removes_the_entry_under_the_identifier_it_carries() {
    let mut state = Pallet::new();
    state.register_asset_for_domain(b("alice"), b("example.net"), b("Qm1"), 0);
    let r = request("alice", "example.net", "Qm1", 1000);
    assert!(state.submit_verified_domain(b("alice"), r.clone(), 1).is_ok());
    assert!(state.pending_requests(&key("Qm1", "example.net")).is_some());
    assert!(state.submit_verified_domain(b("alice"), r, 2).is_ok());
    assert_eq!(providers(&state, "Qm1"), Some(vec![b("example.net"), b("example.net")]));
    assert_eq!(assets(&state, "example.net"), Some(vec![b("Qm1"), b("Qm1")]));
}

#[test]
fn due_requests_are_those_whose_deadline_has_not_passed() {
    let mut state = Pallet::new();
    state.register_asset_for_domain(b("alice"), b("a.net"), b("Qm1"), 0);
    state.register_asset_for_domain(b("alice"), b("b.net"), b("Qm2"), 5);
    let keys = |now: u64| -> Vec<Vec<u8>> {
        state.fetch_pending_requests(10, now).into_iter().map(|(k, _)| k).collect()
    };
    assert_eq!(keys(999), vec![key("Qm1", "a.net"), key("Qm2", "b.net")]);
    assert_eq!(keys(1000), vec![key("Qm1", "a.net"), key("Qm2", "b.net")]);
    assert_eq!(keys(1001), vec![key("Qm2", "b.net")]);
    assert_eq!(keys(1005), vec![key("Qm2", "b.net")]);
    assert!(keys(1006).is_empty());
}

#[test]
fn due_requests_come_in_key_order_and_stop_at_the_batch_size() {
    let mut state = Pallet::new();
    for asset in ["Qm3", "Qm1", "Qm4", "Qm2"] {
        state.register_asset_for_domain(b("alice"), b("a.net"), b(asset), 0);
    }
    let due = state.fetch_pending_requests(3, 10);
    let keys: Vec<Vec<u8>> = due.iter().map(|(k, _)| k.clone()).collect();
    assert_eq!(keys, vec![key("Qm1", "a.net"), key("Qm2", "a.net"), key("Qm3", "a.net")]);
    assert_eq!(due[0].1, request("alice", "a.net", "Qm1", 1000));
    assert!(state.fetch_pending_requests(0, 10).is_empty());
}

#[test]
fn expiry_removes_requests_whose_deadline_is_reached() {
    let mut state = Pallet::new();
    state.register_asset_for_domain(b("alice"), b("a.net"), b("Qm1"), 0);
    state.register_asset_for_domain(b("alice"), b("b.net"), b("Qm2"), 1);
    state.register_asset_for_domain(b("alice"), b("c.net"), b("Qm3"), 2);
    let event = state.remove_expired_pending_requests(999);
    assert!(matches!(event, Event::ExpiredRequestsRemoved));
    assert_eq!(state.fetch_pending_requests(10, 0).len(), 3);
    state.remove_expired_pending_requests(1001);
    assert!(state.pending_requests(&key("Qm1", "a.net")).is_none());
    assert!(state.pending_requests(&key("Qm2", "b.net")).is_none());
    assert!(state.pending_requests(&key("Qm3", "c.net")).is_some());
    let event = state.remove_expired_pending_requests(5000);
    assert!(matches!(event, Event::ExpiredRequestsRemoved));
    assert!(state.fetch_pending_requests(10, 0).is_empty());
}

#[test]
fn a_request_at_its_deadline_is_both_due_and_expired() {
    let mut state = Pallet::new();
    state.register_asset_for_domain(b("alice"), b("a.net"), b("Qm1"), 0);
    assert_eq!(state.fetch_pending_requests(10, 1000).len(), 1);
    state.remove_expired_pending_requests(1000);
    assert!(state.pending_requests(&key("Qm1", "a.net")).is_none());
}

#[test]
fn retraction_prunes_the_domain_and_keeps_the_order_of_the_rest() {
    let mut state = Pallet::new();
    bind(&mut state, "Qm1", "a.net");
    bind(&mut state, "Qm1", "b.net");
    bind(&mut state, "Qm1", "c.net");
    bind(&mut state, "Qm2", "b.net");
    let events = state.cleanup_revoked_domains(vec![b("b.net")]);
    assert_eq!(events.len(), 1);
    assert!(matches!(&events[0], Event::AssetProviderRevoked(d) if d == &b("b.net")));
    assert_eq!(providers(&state, "Qm1"), Some(vec![b("a.net"), b("c.net")]));
    assert_eq!(providers(&state, "Qm2"), Some(vec![]));
    assert_eq!(assets(&state, "b.net"), None);
    assert_eq!(assets(&state, "a.net"), Some(vec![b("Qm1")]));
    assert!(mirrored(&state, &["Qm1", "Qm2"], &["a.net", "b.net", "c.net"]));
}

#[test]
fn retraction_tolerates_a_domain_without_an_asset_list() {
    let mut state = Pallet::new();
    bind(&mut state, "Qm1", "a.net");
    let events = state.cleanup_revoked_domains(vec![b("ghost.net"), b("a.net"), b("a.net")]);
    assert_eq!(events.len(), 3);
    assert!(matches!(&events[0], Event::AssetProviderRevoked(d) if d == &b("ghost.net")));
    assert!(matches!(&events[2], Event::AssetProviderRevoked(d) if d == &b("a.net")));
    assert_eq!(providers(&state, "Qm1"), Some(vec![]));
    assert_eq!(assets(&state, "a.net"), None);
}

#[test]
fn retraction_removes_every_occurrence_of_the_domain() {
    let mut state = Pallet::new();
    bind(&mut state, "Qm1", "a.net");
    bind(&mut state, "Qm1", "b.net");
    bind(&mut state, "Qm1", "a.net");
    assert_eq!(providers(&state, "Qm1"), Some(vec![b("a.net"), b("b.net"), b("a.net")]));
    state.cleanup_revoked_domains(vec![b("a.net")]);
    assert_eq!(providers(&state, "Qm1"), Some(vec![b("b.net")]));
    assert_eq!(assets(&state, "a.net"), None);
}

#[test]
fn three_sweeps_of_two_cover_five_domains_once_each() {
    let mut state = Pallet::new();
    for domain in ["d3.net", "d1.net", "d5.net", "d2.net", "d4.net"] {
        bind(&mut state, "Qm1", domain);
    }
    assert!(state.last_processed_domain().is_empty());
    let first = state.get_domain_batch(2);
    assert_eq!(first, vec![b("d1.net"), b("d2.net")]);
    assert_eq!(state.last_processed_domain(), &b("d2.net"));
    let second = state.get_domain_batch(2);
    assert_eq!(second, vec![b("d3.net"), b("d4.net")]);
    let third = state.get_domain_batch(2);
    assert_eq!(third, vec![b("d5.net")]);
    assert_eq!(state.last_processed_domain(), &b("d5.net"));
    let fourth = state.get_domain_batch(2);
    assert_eq!(fourth, vec![b("d1.net"), b("d2.net")]);
    assert_eq!(state.last_processed_domain(), &b("d2.net"));
}

#[test]
fn a_sweep_starts_over_when_its_last_batch_was_full() {
    let mut state = Pallet::new();
    for domain in ["a.net", "b.net", "c.net", "d.net"] {
        bind(&mut state, "Qm1", domain);
    }
    assert_eq!(state.get_domain_batch(2), vec![b("a.net"), b("b.net")]);
    assert_eq!(state.get_domain_batch(2), vec![b("c.net"), b("d.net")]);
    assert_eq!(state.get_domain_batch(2), vec![b("a.net"), b("b.net")]);
    assert_eq!(state.get_domain_batch(3), vec![b("c.net"), b("d.net")]);
    assert_eq!(state.get_domain_batch(10), vec![b("a.net"), b("b.net"), b("c.net"), b("d.net")]);
    assert_eq!(state.get_domain_batch(10), vec![b("a.net"), b("b.net"), b("c.net"), b("d.net")]);
}

#[test]
fn a_sweep_of_nothing_leaves_the_cursor() {
    let mut state = Pallet::new();
    bind(&mut state, "Qm1", "a.net");
    bind(&mut state, "Qm1", "b.net");
    assert_eq!(state.get_domain_batch(1), vec![b("a.net")]);
    assert!(state.get_domain_batch(0).is_empty());
    assert_eq!(state.last_processed_domain(), &b("a.net"));
    state.cleanup_revoked_domains(vec![b("a.net"), b("b.net")]);
    assert!(state.get_domain_batch(5).is_empty());
    assert_eq!(state.last_processed_domain(), &b("a.net"));
}

#[test]
fn a_sweep_resumes_after_a_cursor_that_was_retracted() {
    let mut state = Pallet::new();
    for domain in ["a.net", "b.net", "c.net"] {
        bind(&mut state, "Qm1", domain);
    }
    assert_eq!(state.get_domain_batch(2), vec![b("a.net"), b("b.net")]);
    state.cleanup_revoked_domains(vec![b("b.net")]);
    assert_eq!(state.get_domain_batch(2), vec![b("c.net")]);
    assert_eq!(state.get_domain_batch(2), vec![b("a.net"), b("c.net")]);
}

#[test]
fn a_sweep_of_an_empty_index_hands_out_nothing() {
    let mut state = Pallet::new();
    assert!(state.get_domain_batch(10).is_empty());
    assert!(state.last_processed_domain().is_empty());
}

#[test]
fn only_the_commands_of_the_engine_are_admitted_unsigned() {
    let commit = Call::SubmitVerifiedDomain {
        account_id: key("Qm1", "a.net"),
        pending_request: request("alice", "a.net", "Qm1", 1000),
    };
    let v = Pallet::validate_unsigned(&commit).unwrap();
    assert_eq!(v.tag_prefix, "offchain_worker");
    assert_eq!(v.priority, u64::MAX);
    assert_eq!(v.longevity, 1);
    assert!(v.propagate);

    let expire = Call::RemoveExpiredPendingRequests { current_time: 9 };
    let v = Pallet::validate_unsigned(&expire).unwrap();
    assert_eq!(v.tag_prefix, "offchain_worker_expired_requests");
    assert_eq!((v.priority, v.longevity, v.propagate), (u64::MAX, 1, true));

    let retract = Call::CleanupRevokedDomains { domains: vec![b("a.net")] };
    let v = Pallet::validate_unsigned(&retract).unwrap();
    assert_eq!(v.tag_prefix, "offchain_worker_cleanup_revoked");
    assert_eq!((v.priority, v.longevity, v.propagate), (u64::MAX, 1, true));

    let user = Call::RegisterAssetForDomain { domain: b("a.net"), asset_hash: b("Qm1") };
    assert_eq!(Pallet::validate_unsigned(&user).unwrap_err(), InvalidTransaction::Call);
}

#[test]
fn a_commit_is_tagged_with_its_domain_and_asset() {
    let commit = |who: &str, domain: &str, asset: &str| Call::SubmitVerifiedDomain {
        account_id: key(asset, domain),
        pending_request: request(who, domain, asset, 1000),
    };
    let tags = |call: &Call| Pallet::validate_unsigned(call).unwrap().provides;
    let mut expected = vec![5 << 2];
    expected.extend_from_slice(b"a.net");
    expected.push(3 << 2);
    expected.extend_from_slice(b"Qm1");
    assert_eq!(tags(&commit("alice", "a.net", "Qm1")), vec![expected.clone()]);
    assert_eq!(tags(&commit("bob", "a.net", "Qm1")), vec![expected]);
    assert_ne!(tags(&commit("alice", "a.net", "Qm1")), tags(&commit("alice", "a.net", "Qm2")));
    assert_ne!(tags(&commit("alice", "a.net", "Qm1")), tags(&commit("alice", "b.net", "Qm1")));
    assert_ne!(tags(&commit("alice", "ab", "c")), tags(&commit("alice", "a", "bc")));
}

#[test]
fn expiry_and_retraction_are_tagged_with_what_they_carry() {
    let tags = |call: &Call| Pallet::validate_unsigned(call).unwrap().provides;
    assert_eq!(
        tags(&Call::RemoveExpiredPendingRequests { current_time: 0x0102 }),
        vec![vec![2u8, 1, 0, 0, 0, 0, 0, 0]]
    );
    assert_eq!(
        tags(&Call::RemoveExpiredPendingRequests { current_time: u64::MAX }),
        vec![vec![0xffu8; 8]]
    );
    assert_eq!(
        tags(&Call::CleanupRevokedDomains { domains: vec![b("a.net"), b("bb")] }),
        vec![vec![5 << 2, b'a', b'.', b'n', b'e', b't', 2 << 2, b'b', b'b']]
    );
    assert_eq!(tags(&Call::CleanupRevokedDomains { domains: vec![] }), vec![Vec::<u8>::new()]);
    assert_ne!(
        tags(&Call::CleanupRevokedDomains { domains: vec![b("a.net")] }),
        tags(&Call::CleanupRevokedDomains { domains: vec![b("b.net")] })
    );
}

#[test]
fn the_tick_plans_sweep_expiry_and_due_requests() {
    let mut state = Pallet::new();
    for i in 0..12 {
        bind(&mut state, "Qm1", &format!("d{:02}.net", i));
    }
    state.register_asset_for_domain(b("alice"), b("x.net"), b("Qm9"), 5);
    let plan = state.offchain_worker(20);
    assert_eq!(plan.sweep.len(), 10);
    assert_eq!(plan.sweep[0], b("d00.net"));
    assert_eq!(plan.sweep[9], b("d09.net"));
    assert_eq!(state.last_processed_domain(), &b("d09.net"));
    assert!(matches!(plan.expiry, Call::RemoveExpiredPendingRequests { current_time: 20 }));
    assert_eq!(plan.due.len(), 1);
    assert_eq!(plan.due[0].0, key("Qm9", "x.net"));
    assert_eq!(plan.due[0].1, request("alice", "x.net", "Qm9", 1005));
    let plan = state.offchain_worker(21);
    assert_eq!(plan.sweep, vec![b("d10.net"), b("d11.net")]);
}

#[test]
fn invalid_domains_of_a_sweep_are_retracted_in_one_command() {
    let results = vec![(b("a.net"), true), (b("b.net"), false), (b("c.net"), false)];
    match Pallet::remove_revoked_domains(results) {
        Some(Call::CleanupRevokedDomains { domains }) => {
            assert_eq!(domains, vec![b("b.net"), b("c.net")])
        }
        other => panic!("unexpected command {:?}", other),
    }
    assert!(Pallet::remove_revoked_domains(vec![(b("a.net"), true)]).is_none());
    assert!(Pallet::remove_revoked_domains(vec![]).is_none());
}

#[test]
fn verified_requests_are_committed_under_their_keys() {
    let r1 = request("alice", "a.net", "Qm1", 1000);
    let r2 = request("bob", "b.net", "Qm2", 1001);
    let r3 = request("carol", "c.net", "Qm3", 1002);
    let results = vec![
        ((key("Qm1", "a.net"), r1.clone()), true),
        ((key("Qm2", "b.net"), r2), false),
        ((key("Qm3", "c.net"), r3.clone()), true),
    ];
    let calls = Pallet::submit_verified_requests(results);
    assert_eq!(calls.len(), 2);
    match &calls[0] {
        Call::SubmitVerifiedDomain { account_id, pending_request } => {
            assert_eq!(account_id, &key("Qm1", "a.net"));
            assert_eq!(pending_request, &r1);
        }
        other => panic!("unexpected command {:?}", other),
    }
    match &calls[1] {
        Call::SubmitVerifiedDomain { account_id, pending_request } => {
            assert_eq!(account_id, &key("Qm3", "c.net"));
            assert_eq!(pending_request, &r3);
        }
        other => panic!("unexpected command {:?}", other),
    }
    let one = Pallet::submit_domain_verification(b("k"), r1.clone());
    assert!(matches!(one, Call::SubmitVerifiedDomain { ref account_id, .. } if account_id == &b("k")));
    assert!(matches!(
        Pallet::cleanup_expired_requests(30),
        Call::RemoveExpiredPendingRequests { current_time: 30 }
    ));
}
