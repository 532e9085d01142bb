use asset_registry::resolver::{
    blake2_128_concat, decode_domain_info, extract_rpc_endpoint, extract_tld,
    fetch_json_from_url, query_tld_network, request_body, storage_key, storage_reply_valid,
    trim_marks, Body, Chainspec, Fetched, Query, RPCResponse, Reply, Request, StorageReply,
};

fn b(s: &str) -> Vec<u8> {
    s.as_bytes().to_vec()
}

/// A stored record: 32 bytes of account, two encoded byte strings, a flag.
fn record(creator: u8, chain_spec: &[u8], maintainer: &[u8], flag: u8) -> Vec<u8> {
    let mut out = vec![creator; 32];
    out.extend(parity_scale_codec::Encode::encode(&chain_spec.to_vec()));
    out.extend(parity_scale_codec::Encode::encode(&maintainer.to_vec()));
    out.push(flag);
    out
}

fn storage_answer(code: u16, result: &str) -> StorageReply {
    StorageReply::Received {
        code,
        body: Some(RPCResponse { jsonrpc: b("2.0"), result: b(result), id: 1 }),
    }
}

fn document(code: u16, nodes: &[&str]) -> Fetched {
    Fetched::Received {
        code,
        body: Body::Document(Chainspec { boot_nodes: nodes.iter().map(|n| b(n)).collect() }),
    }
}

fn expected_key(domain: &[u8]) -> Vec<u8> {
    let encoded = parity_scale_codec::Encode::encode(&domain.to_vec());
    let mut key = Vec::new();
    key.extend_from_slice(&sp_crypto_hashing::twox_128(b"TldModule"));
    key.extend_from_slice(&sp_crypto_hashing::twox_128(b"DomainMap"));
    key.extend_from_slice(&sp_crypto_hashing::blake2_128(&encoded));
    key.extend_from_slice(&encoded);
    key
}

#[test]
fn the_tld_is_what_follows_the_last_dot() {
    assert_eq!(extract_tld(b"example.net"), Some(&b"net"[..]));
    assert_eq!(extract_tld(b"a.b.c"), Some(&b"c"[..]));
    assert_eq!(extract_tld(b"trailing."), Some(&b""[..]));
    assert_eq!(extract_tld(b".net"), Some(&b"net"[..]));
    assert_eq!(extract_tld(b"nodot"), None);
    assert_eq!(extract_tld(b""), None);
}

#[test]
fn the_endpoint_takes_host_and_port_by_position() {
    assert_eq!(
        extract_rpc_endpoint(b"/ip4/127.0.0.1/tcp/30333/p2p/QmNode"),
        b("http://127.0.0.1:30333")
    );
    assert_eq!(extract_rpc_endpoint(b"/dns/node.example/tcp/9944"), b("http://node.example:9944"));
}

#[test]
fn a_malformed_address_yields_empty_host_or_port() {
    assert_eq!(extract_rpc_endpoint(b"garbage"), b("http://:"));
    assert_eq!(extract_rpc_endpoint(b""), b("http://:"));
    assert_eq!(extract_rpc_endpoint(b"/ip4/10.0.0.1"), b("http://10.0.0.1:"));
    assert_eq!(extract_rpc_endpoint(b"/ip4//tcp/1"), b("http://:1"));
    assert_eq!(extract_rpc_endpoint(b"a/b/c/d/e"), b("http://c:e"));
}

#[test]
fn fetching_names_each_failure() {
    assert_eq!(fetch_json_from_url(Fetched::NotSent).unwrap_err(), "Failed to send HTTP request");
    assert_eq!(fetch_json_from_url(Fetched::TimedOut).unwrap_err(), "Failed to wait for response");
    assert_eq!(fetch_json_from_url(Fetched::Broken).unwrap_err(), "Failed to get response");
    assert_eq!(
        fetch_json_from_url(document(404, &["/ip4/1.1.1.1/tcp/1"])).unwrap_err(),
        "Unexpected response code"
    );
    assert_eq!(
        fetch_json_from_url(Fetched::Received { code: 200, body: Body::NotText }).unwrap_err(),
        "Invalid UTF-8"
    );
    assert_eq!(
        fetch_json_from_url(Fetched::Received { code: 200, body: Body::NotDocument }).unwrap_err(),
        "Failed to parse JSON"
    );
    assert_eq!(
        fetch_json_from_url(Fetched::Received { code: 500, body: Body::NotText }).unwrap_err(),
        "Unexpected response code"
    );
    let spec = fetch_json_from_url(document(200, &["/ip4/1.1.1.1/tcp/1"])).unwrap();
    assert_eq!(spec.boot_nodes, vec![b("/ip4/1.1.1.1/tcp/1")]);
}

#[test]
fn the_map_key_is_the_hash_followed_by_the_input() {
    let input = b("example.net");
    let key = blake2_128_concat(input.clone());
    assert_eq!(key.len(), 16 + input.len());
    assert_eq!(&key[..16], &sp_crypto_hashing::blake2_128(&input)[..]);
    assert_eq!(&key[16..], &input[..]);
    assert_ne!(&key[..11], &input[..]);
    assert_eq!(blake2_128_concat(Vec::new()), sp_crypto_hashing::blake2_128(b"").to_vec());
}

#[test]
fn the_storage_key_is_two_name_hashes_and_the_map_key() {
    let key = storage_key(&b("example.net"));
    assert_eq!(key.len(), 16 + 16 + 16 + 12);
    assert_eq!(key, expected_key(b"example.net"));
    assert_eq!(key[48], 11 << 2);
    assert_eq!(&key[49..], b"example.net");
    assert_ne!(&key[..16], &key[16..32]);
    assert_ne!(&key[..9], b"TldModule");
}

#[test]
fn a_long_domain_gets_a_two_byte_length() {
    let domain = vec![b'a'; 100];
    let key = storage_key(&domain);
    assert_eq!(key.len(), 48 + 2 + 100);
    assert_eq!(&key[48..50], &[0x91, 0x01]);
    assert_eq!(key, expected_key(&domain));
}

#[test]
fn the_request_body_carries_the_address() {
    assert_eq!(
        request_body(b"26aa"),
        b("{\"id\":1,\"jsonrpc\":\"2.0\",\"method\":\"state_getStorage\",\"params\":[\"26aa\"]}")
    );
}

#[test]
fn marks_are_trimmed_from_the_start_only() {
    assert_eq!(trim_marks(b"0x12ab"), b"12ab");
    assert_eq!(trim_marks(b"0x0x12"), b"12");
    assert_eq!(trim_marks(b"12ab"), b"12ab");
    assert_eq!(trim_marks(b"0x"), b"");
    assert_eq!(trim_marks(b"0"), b"0");
    assert_eq!(trim_marks(b"120x"), b"120x");
    assert_eq!(trim_marks(b""), b"");
}

#[test]
fn a_stored_record_is_read_field_by_field() {
    let bytes = record(7, b"http://spec", b"node-1", 0);
    let info = decode_domain_info(&bytes).unwrap();
    assert_eq!(info.creator, vec![7u8; 32]);
    assert_eq!(info.chain_spec, b("http://spec"));
    assert_eq!(info.maintainer, b("node-1"));
    assert!(!info.available);

    let mut by_hand = vec![1u8; 32];
    by_hand.extend_from_slice(&[0x0c, b'a', b'b', b'c', 0x04, b'm', 0x01, 0xff]);
    let info = decode_domain_info(&by_hand).unwrap();
    assert_eq!(info.chain_spec, b("abc"));
    assert_eq!(info.maintainer, b("m"));
    assert!(info.available);

    let long = vec![b'x'; 64];
    let info = decode_domain_info(&record(0, &long, b"", 1)).unwrap();
    assert_eq!(info.chain_spec, long);
    assert!(info.maintainer.is_empty());
    assert!(info.available);
}

#[test]
fn a_broken_record_is_not_read() {
    assert!(decode_domain_info(&[]).is_none());
    assert!(decode_domain_info(&[0u8; 31]).is_none());
    assert!(decode_domain_info(&[0u8; 32]).is_none());
    let good = record(7, b"spec", b"node", 0);
    assert!(decode_domain_info(&good[..good.len() - 1]).is_none());
    assert!(decode_domain_info(&good[..36]).is_none());
    assert!(decode_domain_info(&record(7, b"spec", b"node", 2)).is_none());
    let mut short = vec![0u8; 32];
    short.extend_from_slice(&[0x10, b'a']);
    assert!(decode_domain_info(&short).is_none());
    let mut padded = vec![0u8; 32];
    padded.extend_from_slice(&[0x0d, 0x00, b'a', b'b', b'c', 0x00, 0x00]);
    assert!(decode_domain_info(&padded).is_none());
}

#[test]
fn a_claimed_record_validates_the_domain() {
    let claimed = hex::encode(record(7, b"spec", b"node", 0));
    let free = hex::encode(record(7, b"", b"", 1));
    assert!(storage_reply_valid(&storage_answer(200, &format!("0x{}", claimed))));
    assert!(storage_reply_valid(&storage_answer(200, &claimed)));
    assert!(storage_reply_valid(&storage_answer(200, &claimed.to_uppercase())));
    assert!(!storage_reply_valid(&storage_answer(200, &format!("0x{}", free))));
}

#[test]
fn every_failure_of_the_storage_answer_is_not_valid() {
    let claimed = hex::encode(record(7, b"spec", b"node", 0));
    assert!(!storage_reply_valid(&StorageReply::Unreachable));
    assert!(!storage_reply_valid(&StorageReply::Received { code: 200, body: None }));
    assert!(!storage_reply_valid(&storage_answer(500, &claimed)));
    assert!(!storage_reply_valid(&storage_answer(200, "")));
    assert!(!storage_reply_valid(&storage_answer(200, "0x")));
    assert!(!storage_reply_valid(&storage_answer(200, "0xzz")));
    assert!(!storage_reply_valid(&storage_answer(200, &claimed[1..])));
    assert!(!storage_reply_valid(&storage_answer(200, &claimed[..20])));
}

#[test]
fn a_domain_without_a_dot_resolves_at_once_as_not_valid() {
    let (query, request) = query_tld_network(b("nodot"));
    assert_eq!(query.verdict(), Some(false));
    assert!(matches!(request, Request::Nothing));
}

#[test]
fn a_resolution_asks_for_the_label_then_the_descriptor_then_the_record() {
    let (query, request) = query_tld_network(b("example.net"));
    assert_eq!(query.verdict(), None);
    assert!(matches!(request, Request::ChainSpecForTld { ref tld } if tld == &b("net")));

    let (query, request) = query.advance(Reply::ChainSpec(Some(b("http://specs/net.json"))));
    assert_eq!(query.verdict(), None);
    assert!(matches!(request, Request::Get { ref url } if url == &b("http://specs/net.json")));

    let nodes = ["/ip4/10.1.2.3/tcp/9944/p2p/QmA", "/ip4/10.9.9.9/tcp/1/p2p/QmB"];
    let (query, request) = query.advance(Reply::Descriptor(document(200, &nodes)));
    assert_eq!(query.verdict(), None);
    match request {
        Request::Post { url, body } => {
            assert_eq!(url, b("http://10.1.2.3:9944"));
            let address = hex::encode(expected_key(b"example.net"));
            assert_eq!(address.len(), 120);
            assert_eq!(body, request_body(address.as_bytes()));
            assert!(String::from_utf8(body).unwrap().contains(&address));
        }
        other => panic!("unexpected request {:?}", other),
    }

    let claimed = format!("0x{}", hex::encode(record(7, b"spec", b"node", 0)));
    let (query, request) = query.advance(Reply::Storage(storage_answer(200, &claimed)));
    assert_eq!(query.verdict(), Some(true));
    assert!(matches!(request, Request::Nothing));

    let (query, request) = query.advance(Reply::ChainSpec(None));
    assert_eq!(query.verdict(), Some(true));
    assert!(matches!(request, Request::Nothing));
}

#[test]
fn a_descriptor_without_boot_nodes_ends_without_a_storage_request() {
    let (query, _) = query_tld_network(b("example.net"));
    let (query, _) = query.advance(Reply::ChainSpec(Some(b("http://specs/net.json"))));
    let (query, request) = query.advance(Reply::Descriptor(document(200, &[])));
    assert_eq!(query.verdict(), Some(false));
    assert!(matches!(request, Request::Nothing));
}

#[test]
fn a_label_without_a_chain_specification_is_not_valid() {
    let (query, _) = query_tld_network(b("example.net"));
    let (query, request) = query.advance(Reply::ChainSpec(None));
    assert_eq!(query.verdict(), Some(false));
    assert!(matches!(request, Request::Nothing));
}

#[test]
fn a_failed_fetch_is_not_valid() {
    for fetched in [
        Fetched::NotSent,
        Fetched::TimedOut,
        Fetched::Broken,
        document(503, &["/ip4/1.1.1.1/tcp/1"]),
        Fetched::Received { code: 200, body: Body::NotText },
        Fetched::Received { code: 200, body: Body::NotDocument },
    ] {
        let (query, _) = query_tld_network(b("example.net"));
        let (query, _) = query.advance(Reply::ChainSpec(Some(b("http://specs/net.json"))));
        let (query, request) = query.advance(Reply::Descriptor(fetched));
        assert_eq!(query.verdict(), Some(false));
        assert!(matches!(request, Request::Nothing));
    }
}

#[test]
fn a_free_or_missing_record_is_not_valid() {
    let free = format!("0x{}", hex::encode(record(7, b"", b"", 1)));
    for answer in [
        storage_answer(200, &free),
        storage_answer(200, "0x"),
        storage_answer(404, &free),
        StorageReply::Unreachable,
    ] {
        let (query, _) = query_tld_network(b("example.net"));
        let (query, _) = query.advance(Reply::ChainSpec(Some(b("http://specs/net.json"))));
        let (query, _) =
            query.advance(Reply::Descriptor(document(200, &["/ip4/10.1.2.3/tcp/9944"])));
        let (query, request) = query.advance(Reply::Storage(answer));
        assert_eq!(query.verdict(), Some(false));
        assert!(matches!(request, Request::Nothing));
    }
}

#[test]
fn a_reply_that_is_not_awaited_ends_the_resolution() {
    let (query, _) = query_tld_network(b("example.net"));
    let (query, request) = query.advance(Reply::Storage(StorageReply::Unreachable));
    assert_eq!(query.verdict(), Some(false));
    assert!(matches!(request, Request::Nothing));

    let (query, _) = query_tld_network(b("example.net"));
    let (query, _) = query.advance(Reply::ChainSpec(Some(b("u"))));
    let (query, _) = query.advance(Reply::ChainSpec(Some(b("u"))));
    assert_eq!(query.verdict(), Some(false));
    assert!(matches!(
        Query::AwaitStorage.advance(Reply::Descriptor(Fetched::NotSent)).0.verdict(),
        Some(false)
    ));
}
