//! The remote state resolver: whether a domain is still claimed on the
//! network that its top-level label names.
//!
//! Resolving takes three answers from outside: the chain specification link
//! registered for the label, the chain specification itself, and the stored
//! record of the domain on the remote ledger. The resolver says what to ask
//! next and what each answer means; whoever drives it does the asking. Every
//! failure on the way resolves the domain as not valid.

use vstd::prelude::*;
use vstd::string::StringSliceAdditionalSpecFns;
use vstd::slice::slice_subrange;
use crate::bytes::{append_bytes, copy_bytes, list_view};
use crate::encoding::{
    blake2_128_hash,
    hex_bytes,
    hex_decode,
    hex_encode,
    hex_text,
    scale_decode,
    scale_decoded,
    scale_encode,
    scale_encoded,
    twox_128_hash,
};
use crate::tld::{DomainInfo, DomainRecord};

verus! {

/// The separator of the labels of a domain name.
pub const DOT: u8 = 46;

/// The separator of the segments of a node address.
pub const SLASH: u8 = 47;

/// The width of an account identifier in a stored record.
pub const ACCOUNT_ID_LEN: usize = 32;

/// The name of the registry module on the remote ledger.
pub const TLD_MODULE_PREFIX: &'static str = "TldModule";

/// The name of the domain map within that module.
pub const TLD_STORAGE_PREFIX: &'static str = "DomainMap";

/// The status of a successful answer.
pub const STATUS_OK: u16 = 200;

/// `label` is what follows the last separator of `domain`.
pub open spec fn is_tld_of(label: Seq<u8>, domain: Seq<u8>) -> bool {
    &&& label.len() < domain.len()
    &&& domain[domain.len() - label.len() - 1] == DOT
    &&& label == domain.skip(domain.len() - label.len())
    &&& !label.contains(DOT)
}

/// The top-level label of a domain name: what follows its last separator.
/// A name without a separator has none.
pub fn extract_tld(domain: &[u8]) -> (r: Option<&[u8]>)
    ensures
        match r {
            Some(label) => is_tld_of(label@, domain@),
            None => !domain@.contains(DOT),
        },
{
    let mut i: usize = domain.len();
    while i > 0
        invariant
            i <= domain@.len(),
            forall|j: int| i <= j < domain@.len() ==> domain@[j] != DOT,
        decreases i,
    {
        if domain[i - 1] == DOT {
            let label = slice_subrange(domain, i, domain.len());
            assert(label@ =~= domain@.skip(i as int));
            return Some(label);
        }
        i -= 1;
    }
    None
}

/// A chain specification, as far as the resolver reads it: the addresses of
/// the bootstrap nodes.
#[derive(Debug)]
pub struct Chainspec {
    pub boot_nodes: Vec<Vec<u8>>,
}

/// What became of the body of an answer.
#[derive(Debug)]
pub enum Body {
    /// The bytes are not UTF-8 text.
    NotText,
    /// The text is not the expected document.
    NotDocument,
    /// The chain specification that the text holds.
    Document(Chainspec),
}

/// What became of fetching a chain specification.
#[derive(Debug)]
pub enum Fetched {
    /// The request could not be sent.
    NotSent,
    /// No answer came within the deadline.
    TimedOut,
    /// The answer could not be received.
    Broken,
    /// An answer came.
    Received { code: u16, body: Body },
}

/// What fetching a chain specification yields: the document of a
/// successful answer, else the reason why there is none.
pub fn fetch_json_from_url(fetched: Fetched) -> (r: Result<Chainspec, &'static str>)
    ensures
        match fetched {
            Fetched::NotSent => r matches Err(e) && e@ == "Failed to send HTTP request"@,
            Fetched::TimedOut => r matches Err(e) && e@ == "Failed to wait for response"@,
            Fetched::Broken => r matches Err(e) && e@ == "Failed to get response"@,
            Fetched::Received { code, body } => if code != STATUS_OK {
                r matches Err(e) && e@ == "Unexpected response code"@
            } else {
                match body {
                    Body::NotText => r matches Err(e) && e@ == "Invalid UTF-8"@,
                    Body::NotDocument => r matches Err(e) && e@ == "Failed to parse JSON"@,
                    Body::Document(spec) => r == Ok::<Chainspec, &'static str>(spec),
                }
            },
        },
{
    match fetched {
        Fetched::NotSent => Err("Failed to send HTTP request"),
        Fetched::TimedOut => Err("Failed to wait for response"),
        Fetched::Broken => Err("Failed to get response"),
        Fetched::Received { code, body } => {
            if code != STATUS_OK {
                return Err("Unexpected response code");
            }
            match body {
                Body::NotText => Err("Invalid UTF-8"),
                Body::NotDocument => Err("Failed to parse JSON"),
                Body::Document(spec) => Ok(spec),
            }
        },
    }
}

/// The key of a storage map entry: the hash of the encoded key, then the
/// encoded key itself.
pub fn blake2_128_concat(input: Vec<u8>) -> (r: Vec<u8>)
    ensures
        r@ == blake2_128_hash(input@) + input@,
{
    let hash = sp_crypto_hashing::blake2_128(input.as_slice());
    let mut result: Vec<u8> = Vec::new();
    append_bytes(&mut result, hash.as_slice());
    append_bytes(&mut result, input.as_slice());
    result
}

/// Segment `n` of an address whose segments are separated by `SLASH`,
/// counting from 0. An address with fewer segments has an empty one there.
pub open spec fn segment(address: Seq<u8>, n: nat) -> Seq<u8>
    decreases address.len(),
{
    if address.len() == 0 {
        Seq::empty()
    } else if address[0] == SLASH {
        if n == 0 {
            Seq::empty()
        } else {
            segment(address.skip(1), (n - 1) as nat)
        }
    } else if n == 0 {
        seq![address[0]] + segment(address.skip(1), 0)
    } else {
        segment(address.skip(1), n)
    }
}

/// Appends segment `n` of `address` to `out`.
fn append_segment(out: &mut Vec<u8>, address: &[u8], n: usize)
    ensures
        final(out)@ == old(out)@ + segment(address@, n as nat),
{
    let mut i: usize = 0;
    let mut ahead: usize = n;
    assert(address@.skip(0) =~= address@);
    while i < address.len()
        invariant
            i <= address@.len(),
            old(out)@ + segment(address@, n as nat) == out@ + segment(
                address@.skip(i as int),
                ahead as nat,
            ),
        decreases address@.len() - i,
    {
        let c = address[i];
        proof {
            let rest = address@.skip(i as int);
            assert(rest[0] == c);
            assert(rest.skip(1) =~= address@.skip(i + 1));
        }
        if c == SLASH {
            if ahead == 0 {
                assert(out@ + Seq::<u8>::empty() =~= out@);
                return ;
            }
            ahead -= 1;
        } else if ahead == 0 {
            let ghost before = out@;
            out.push(c);
            assert(out@ + segment(address@.skip(i + 1), 0) =~= before + (seq![c] + segment(
                address@.skip(i + 1),
                0,
            )));
        }
        i += 1;
    }
    assert(out@ + Seq::<u8>::empty() =~= out@);
}

/// The endpoint of the node at `multiaddr`, an address of the form
/// `/ip4/<host>/tcp/<port>/...`: host and port are taken from segments 2
/// and 4, whatever the address holds there.
pub open spec fn rpc_endpoint(multiaddr: Seq<u8>) -> Seq<u8> {
    "http://".spec_bytes() + segment(multiaddr, 2) + ":".spec_bytes() + segment(multiaddr, 4)
}

/// The endpoint of the node at `multiaddr`.
pub fn extract_rpc_endpoint(multiaddr: &[u8]) -> (r: Vec<u8>)
    ensures
        r@ == rpc_endpoint(multiaddr@),
{
    let mut out: Vec<u8> = Vec::new();
    append_bytes(&mut out, "http://".as_bytes());
    append_segment(&mut out, multiaddr, 2);
    append_bytes(&mut out, ":".as_bytes());
    append_segment(&mut out, multiaddr, 4);
    assert(out@ =~= rpc_endpoint(multiaddr@));
    out
}

/// The address of a domain's record in the storage of the remote ledger:
/// the hash of the module's name, the hash of the map's name, and the map
/// key of the encoded domain name.
pub open spec fn storage_address(domain: Seq<u8>) -> Seq<u8> {
    twox_128_hash(TLD_MODULE_PREFIX.spec_bytes()) + twox_128_hash(
        TLD_STORAGE_PREFIX.spec_bytes(),
    ) + blake2_128_hash(scale_encoded(domain)) + scale_encoded(domain)
}

/// The address of a domain's record in the storage of the remote ledger.
pub fn storage_key(domain: &Vec<u8>) -> (r: Vec<u8>)
    requires
        domain@.len() <= u32::MAX,
    ensures
        r@ == storage_address(domain@),
{
    let module = sp_crypto_hashing::twox_128(TLD_MODULE_PREFIX.as_bytes());
    let map = sp_crypto_hashing::twox_128(TLD_STORAGE_PREFIX.as_bytes());
    let key = blake2_128_concat(scale_encode(domain));
    let mut out: Vec<u8> = Vec::new();
    append_bytes(&mut out, module.as_slice());
    append_bytes(&mut out, map.as_slice());
    append_bytes(&mut out, key.as_slice());
    assert(out@ =~= storage_address(domain@));
    out
}

/// The body of the request that reads the storage at `address`, which is
/// given in hexadecimal text.
pub open spec fn storage_request(address: Seq<u8>) -> Seq<u8> {
    "{\"id\":1,\"jsonrpc\":\"2.0\",\"method\":\"state_getStorage\",\"params\":[\"".spec_bytes()
        + address + "\"]}".spec_bytes()
}

/// The body of the request that reads the storage at `address`.
pub fn request_body(address: &[u8]) -> (r: Vec<u8>)
    ensures
        r@ == storage_request(address@),
{
    let mut out: Vec<u8> = Vec::new();
    append_bytes(
        &mut out,
        "{\"id\":1,\"jsonrpc\":\"2.0\",\"method\":\"state_getStorage\",\"params\":[\"".as_bytes(),
    );
    append_bytes(&mut out, address);
    append_bytes(&mut out, "\"]}".as_bytes());
    out
}

/// `text` without the `0x` marks at its start, however many there are.
pub open spec fn without_marks(text: Seq<u8>) -> Seq<u8>
    decreases text.len(),
{
    if text.len() >= 2 && text[0] == 48 && text[1] == 120 {
        without_marks(text.skip(2))
    } else {
        text
    }
}

/// `text` without the `0x` marks at its start.
pub fn trim_marks(text: &[u8]) -> (r: &[u8])
    ensures
        r@ == without_marks(text@),
{
    let mut i: usize = 0;
    assert(text@.skip(0) =~= text@);
    while text.len() - i >= 2 && text[i] == 48 && text[i + 1] == 120
        invariant
            i <= text@.len(),
            without_marks(text@) == without_marks(text@.skip(i as int)),
        decreases text@.len() - i,
    {
        assert(text@.skip(i as int).skip(2) =~= text@.skip(i + 2));
        i += 2;
    }
    let rest = slice_subrange(text, i, text.len());
    assert(rest@ =~= text@.skip(i as int));
    rest
}

/// The record that `bytes` hold, as the remote ledger stores it: the
/// account identifier of the creator, the encoded chain specification link,
/// the encoded maintainer, and one byte that is 1 for an available name and
/// 0 for a claimed one. Bytes after the record are not looked at.
pub open spec fn stored_record(bytes: Seq<u8>) -> Option<DomainRecord> {
    if bytes.len() < ACCOUNT_ID_LEN {
        None
    } else {
        match scale_decoded(bytes.skip(ACCOUNT_ID_LEN as int)) {
            None => None,
            Some((chain_spec, after_spec)) => match scale_decoded(after_spec) {
                None => None,
                Some((maintainer, after_maintainer)) => if after_maintainer.len() >= 1
                    && after_maintainer[0] <= 1 {
                    Some(
                        DomainRecord {
                            creator: bytes.take(ACCOUNT_ID_LEN as int),
                            chain_spec,
                            maintainer,
                            available: after_maintainer[0] == 1,
                        },
                    )
                } else {
                    None
                },
            },
        }
    }
}

/// Reads a stored domain record.
pub fn decode_domain_info(bytes: &[u8]) -> (r: Option<DomainInfo>)
    ensures
        match r {
            Some(info) => stored_record(bytes@) == Some(info@),
            None => stored_record(bytes@) is None,
        },
{
    if bytes.len() < ACCOUNT_ID_LEN {
        return None;
    }
    let creator = copy_bytes(slice_subrange(bytes, 0, ACCOUNT_ID_LEN));
    let tail = slice_subrange(bytes, ACCOUNT_ID_LEN, bytes.len());
    assert(tail@ =~= bytes@.skip(ACCOUNT_ID_LEN as int));
    assert(creator@ =~= bytes@.take(ACCOUNT_ID_LEN as int));
    let (chain_spec, after_spec) = match scale_decode(tail) {
        Some(pair) => pair,
        None => {
            return None;
        },
    };
    let (maintainer, after_maintainer) = match scale_decode(after_spec) {
        Some(pair) => pair,
        None => {
            return None;
        },
    };
    if after_maintainer.len() < 1 {
        return None;
    }
    let flag = after_maintainer[0];
    if flag > 1 {
        return None;
    }
    Some(DomainInfo::new(creator, chain_spec, maintainer, flag == 1))
}

/// The decoded answer of a node that was asked for a storage value.
#[derive(Debug)]
pub struct RPCResponse {
    pub jsonrpc: Vec<u8>,
    /// The stored value in hexadecimal text.
    pub result: Vec<u8>,
    pub id: u32,
}

/// What became of asking a node for a storage value.
#[derive(Debug)]
pub enum StorageReply {
    /// No answer came.
    Unreachable,
    /// An answer came; `body` is `None` where it could not be decoded.
    Received { code: u16, body: Option<RPCResponse> },
}

/// Whether hexadecimal text of a stored value shows a claimed domain.
pub open spec fn shows_claim(result: Seq<u8>) -> bool {
    match hex_bytes(without_marks(result)) {
        None => false,
        Some(bytes) => match stored_record(bytes) {
            None => false,
            Some(record) => !record.available,
        },
    }
}

/// Whether the answer to a storage request shows a claimed domain: it does
/// when it is a success whose value decodes to a record that is not
/// available.
pub open spec fn reply_validity(reply: StorageReply) -> bool {
    match reply {
        StorageReply::Received { code, body: Some(answer) } => code == STATUS_OK && shows_claim(
            answer.result@,
        ),
        _ => false,
    }
}

/// Whether the answer to a storage request shows a claimed domain.
pub fn storage_reply_valid(reply: &StorageReply) -> (valid: bool)
    ensures
        valid == reply_validity(*reply),
{
    match reply {
        StorageReply::Received { code, body: Some(answer) } => {
            if *code != STATUS_OK {
                return false;
            }
            let bytes = match hex_decode(trim_marks(answer.result.as_slice())) {
                Some(bytes) => bytes,
                None => {
                    return false;
                },
            };
            match decode_domain_info(bytes.as_slice()) {
                Some(info) => !info.available,
                None => false,
            }
        },
        _ => false,
    }
}

/// How far the resolution of a domain has come.
#[derive(Debug)]
pub enum Query {
    /// The chain specification link of the top-level label is awaited.
    AwaitChainSpec { domain: Vec<u8> },
    /// The chain specification is awaited.
    AwaitDescriptor { domain: Vec<u8> },
    /// The stored record is awaited.
    AwaitStorage,
    /// The resolution has ended.
    Resolved { valid: bool },
}

/// What the resolver needs next.
#[derive(Debug)]
pub enum Request {
    /// The chain specification link that the registry holds for `tld`.
    ChainSpecForTld { tld: Vec<u8> },
    /// The chain specification at `url`.
    Get { url: Vec<u8> },
    /// The answer of the node at `url` to `body`.
    Post { url: Vec<u8>, body: Vec<u8> },
    /// Nothing: the resolution has ended.
    Nothing,
}

/// An answer to a `Request`.
#[derive(Debug)]
pub enum Reply {
    /// The chain specification link, or `None` where the label has none.
    ChainSpec(Option<Vec<u8>>),
    /// What became of fetching the chain specification.
    Descriptor(Fetched),
    /// What became of asking for the stored record.
    Storage(StorageReply),
}

/// The mathematical value of a `Query`.
pub ghost enum Stage {
    AwaitChainSpec { domain: Seq<u8> },
    AwaitDescriptor { domain: Seq<u8> },
    AwaitStorage,
    Resolved { valid: bool },
}

/// The mathematical value of a `Request`.
pub ghost enum Ask {
    ChainSpecForTld { tld: Seq<u8> },
    Get { url: Seq<u8> },
    Post { url: Seq<u8>, body: Seq<u8> },
    Nothing,
}

impl View for Query {
    type V = Stage;

    open spec fn view(&self) -> Stage {
        match self {
            Query::AwaitChainSpec { domain } => Stage::AwaitChainSpec { domain: domain@ },
            Query::AwaitDescriptor { domain } => Stage::AwaitDescriptor { domain: domain@ },
            Query::AwaitStorage => Stage::AwaitStorage,
            Query::Resolved { valid } => Stage::Resolved { valid: *valid },
        }
    }
}

impl View for Request {
    type V = Ask;

    open spec fn view(&self) -> Ask {
        match self {
            Request::ChainSpecForTld { tld } => Ask::ChainSpecForTld { tld: tld@ },
            Request::Get { url } => Ask::Get { url: url@ },
            Request::Post { url, body } => Ask::Post { url: url@, body: body@ },
            Request::Nothing => Ask::Nothing,
        }
    }
}

/// The end of a resolution that failed.
pub open spec fn failed() -> (Stage, Ask) {
    (Stage::Resolved { valid: false }, Ask::Nothing)
}

/// The bootstrap nodes that a fetch yields; `None` where it yields no
/// chain specification.
pub open spec fn fetched_nodes(fetched: Fetched) -> Option<Seq<Seq<u8>>> {
    match fetched {
        Fetched::Received { code, body: Body::Document(spec) } => if code == STATUS_OK {
            Some(list_view(spec.boot_nodes@))
        } else {
            None
        },
        _ => None,
    }
}

/// What a reply leads to.
///
/// The chain specification link leads to fetching the chain specification.
/// A chain specification with at least one bootstrap node leads to asking
/// the first of them for the stored record of the domain; one without
/// bootstrap nodes ends the resolution, and so does a domain name too long
/// to encode. The stored record ends the resolution with its verdict. A
/// reply that the stage does not await, or that reports a failure, ends the
/// resolution as not valid. A resolution that has ended stays as it is.
pub open spec fn next_step(stage: Stage, reply: Reply) -> (Stage, Ask) {
    match stage {
        Stage::AwaitChainSpec { domain } => match reply {
            Reply::ChainSpec(Some(url)) => (
                Stage::AwaitDescriptor { domain },
                Ask::Get { url: url@ },
            ),
            _ => failed(),
        },
        Stage::AwaitDescriptor { domain } => match reply {
            Reply::Descriptor(fetched) => match fetched_nodes(fetched) {
                Some(nodes) => if nodes.len() > 0 && domain.len() <= u32::MAX {
                    (
                        Stage::AwaitStorage,
                        Ask::Post {
                            url: rpc_endpoint(nodes[0]),
                            body: storage_request(hex_text(storage_address(domain))),
                        },
                    )
                } else {
                    failed()
                },
                None => failed(),
            },
            _ => failed(),
        },
        Stage::AwaitStorage => match reply {
            Reply::Storage(answer) => (
                Stage::Resolved { valid: reply_validity(answer) },
                Ask::Nothing,
            ),
            _ => failed(),
        },
        Stage::Resolved { valid } => (Stage::Resolved { valid }, Ask::Nothing),
    }
}

/// Starts the resolution of `domain`.
///
/// A name with a separator leads to asking for the chain specification link
/// of its top-level label. A name without one is resolved at once as not
/// valid.
pub fn query_tld_network(domain: Vec<u8>) -> (r: (Query, Request))
    ensures
        match r.1@ {
            Ask::ChainSpecForTld { tld } => is_tld_of(tld, domain@) && r.0@ == (
            Stage::AwaitChainSpec { domain: domain@ }),
            Ask::Nothing => !domain@.contains(DOT) && r.0@ == (Stage::Resolved { valid: false }),
            _ => false,
        },
{
    let tld = match extract_tld(domain.as_slice()) {
        Some(label) => copy_bytes(label),
        None => {
            return (Query::Resolved { valid: false }, Request::Nothing);
        },
    };
    (Query::AwaitChainSpec { domain }, Request::ChainSpecForTld { tld })
}

impl Query {
    /// The verdict, once the resolution has ended.
    pub fn verdict(&self) -> (r: Option<bool>)
        ensures
            r == match self@ {
                Stage::Resolved { valid } => Some(valid),
                _ => None,
            },
    {
        match self {
            Query::Resolved { valid } => Some(*valid),
            _ => None,
        }
    }

    /// Takes a reply and says what comes next.
    pub fn advance(self, reply: Reply) -> (r: (Query, Request))
        ensures
            (r.0@, r.1@) == next_step(self@, reply),
    {
        match self {
            Query::AwaitChainSpec { domain } => match reply {
                Reply::ChainSpec(Some(url)) => (
                    Query::AwaitDescriptor { domain },
                    Request::Get { url },
                ),
                _ => (Query::Resolved { valid: false }, Request::Nothing),
            },
            Query::AwaitDescriptor { domain } => match reply {
                Reply::Descriptor(fetched) => {
                    let ghost nodes = fetched_nodes(fetched);
                    match fetch_json_from_url(fetched) {
                        Ok(spec) => {
                            if spec.boot_nodes.len() == 0 || domain.len() > u32::MAX as usize {
                                return (Query::Resolved { valid: false }, Request::Nothing);
                            }
                            assert(nodes == Some(list_view(spec.boot_nodes@)));
                            let url = extract_rpc_endpoint(spec.boot_nodes[0].as_slice());
                            let key = storage_key(&domain);
                            let key_hex = hex_encode(key.as_slice());
                            let body = request_body(key_hex.as_slice());
                            (Query::AwaitStorage, Request::Post { url, body })
                        },
                        Err(_) => {
                            assert(nodes is None);
                            (Query::Resolved { valid: false }, Request::Nothing)
                        },
                    }
                },
                _ => (Query::Resolved { valid: false }, Request::Nothing),
            },
            Query::AwaitStorage => match reply {
                Reply::Storage(answer) => {
                    let valid = storage_reply_valid(&answer);
                    (Query::Resolved { valid }, Request::Nothing)
                },
                _ => (Query::Resolved { valid: false }, Request::Nothing),
            },
            Query::Resolved { valid } => (Query::Resolved { valid }, Request::Nothing),
        }
    }
}

} // verus!
