//! The domain registry and the peer liveness monitor.
//!
//! The registry maps a domain name to its owner, the descriptor of the remote
//! network behind it and the node that maintains it. The monitor compares the
//! peers a node has seen before with the peers it sees now, and names the
//! domains whose maintainer has gone.

use vstd::prelude::*;
use crate::bytes::{bytes_eq, copy_bytes, list_contains, list_view};
use crate::seqs::{lemma_filter_empty, lemma_filter_members, lemma_filter_step};
use crate::storage::StorageMap;

verus! {

/// An account identifier, as the ledger encodes it.
pub type AccountId = Vec<u8>;

/// What the registry records for a domain.
#[derive(Debug)]
pub struct DomainInfo {
    pub creator: AccountId,
    /// A link to the chain specification of the network behind the domain.
    pub chain_spec: Vec<u8>,
    /// The node that the claiming network runs for this domain.
    pub maintainer: Vec<u8>,
    /// Whether the name is free to be claimed.
    pub available: bool,
}

/// The mathematical value of a `DomainInfo`.
pub ghost struct DomainRecord {
    pub creator: Seq<u8>,
    pub chain_spec: Seq<u8>,
    pub maintainer: Seq<u8>,
    pub available: bool,
}

impl View for DomainInfo {
    type V = DomainRecord;

    open spec fn view(&self) -> DomainRecord {
        DomainRecord {
            creator: self.creator@,
            chain_spec: self.chain_spec@,
            maintainer: self.maintainer@,
            available: self.available,
        }
    }
}

impl DomainInfo {
    /// A record with the given fields.
    pub fn new(creator: AccountId, chain_spec: Vec<u8>, maintainer: Vec<u8>, available: bool) -> (r:
        Self)
        ensures
            r == (DomainInfo { creator, chain_spec, maintainer, available }),
    {
        Self { creator, chain_spec, maintainer, available }
    }
}

/// What a successful registry command reports.
#[derive(Debug)]
pub enum Event {
    DomainRegistered { domain_name: Vec<u8>, creator: AccountId },
    DomainAmended { domain_name: Vec<u8>, editor: AccountId },
    DomainRevoked { domain_name: Vec<u8>, revoker: AccountId },
}

/// Why a registry command was refused.
#[derive(Clone, Copy, Debug, PartialEq, Eq, Structural)]
pub enum Error {
    /// No value was set.
    NoneValue,
    /// A stored counter would have overflowed.
    StorageOverflow,
    /// The domain is already registered by someone else.
    DomainNotAvailable,
    /// Someone other than the owner tried to change the domain.
    InvalidOwnerId,
    /// The domain is not registered.
    DomainNotFound,
}

/// The registry's state: the domains and the index from maintainer to domain.
pub struct Pallet {
    pub domains: StorageMap<DomainInfo>,
    pub maintainers: StorageMap<Vec<u8>>,
}

/// Whether `name` is held by an owner: it has a record that is not marked
/// available.
pub open spec fn is_claimed(domains: Map<Seq<u8>, DomainRecord>, name: Seq<u8>) -> bool {
    domains.contains_key(name) && !domains[name].available
}

/// The outcome of an owner's command on `name`: the refusal, if any.
pub open spec fn owner_refusal(
    domains: Map<Seq<u8>, DomainRecord>,
    who: Seq<u8>,
    name: Seq<u8>,
) -> Option<Error> {
    if !domains.contains_key(name) {
        Some(Error::DomainNotFound)
    } else if domains[name].creator != who {
        Some(Error::InvalidOwnerId)
    } else {
        None
    }
}

/// Every row of the maintainer index is true of the registry: the domain it
/// names is claimed, and the record of that domain names the maintainer.
pub open spec fn index_consistent(
    domains: Map<Seq<u8>, DomainRecord>,
    maintainers: Map<Seq<u8>, Seq<u8>>,
) -> bool {
    forall|m: Seq<u8>| #[trigger]
        maintainers.contains_key(m) ==> is_claimed(domains, maintainers[m])
            && domains[maintainers[m]].maintainer == m
}

/// The index without the row that the record of `name` accounts for: the
/// row of the maintainer that the record names, where it points to `name`.
pub open spec fn unindexed(
    domains: Map<Seq<u8>, DomainRecord>,
    maintainers: Map<Seq<u8>, Seq<u8>>,
    name: Seq<u8>,
) -> Map<Seq<u8>, Seq<u8>> {
    if domains.contains_key(name) && maintainers.contains_key(domains[name].maintainer)
        && maintainers[domains[name].maintainer] == name {
        maintainers.remove(domains[name].maintainer)
    } else {
        maintainers
    }
}

/// In a consistent index no row is left that points to `name` once the row
/// that its record accounts for is gone.
pub proof fn lemma_unindexed(
    domains: Map<Seq<u8>, DomainRecord>,
    maintainers: Map<Seq<u8>, Seq<u8>>,
    name: Seq<u8>,
)
    requires
        index_consistent(domains, maintainers),
    ensures
        forall|m: Seq<u8>| #[trigger]
            unindexed(domains, maintainers, name).contains_key(m) ==> maintainers.contains_key(m)
                && unindexed(domains, maintainers, name)[m] == maintainers[m] && maintainers[m]
                != name,
{
    let rest = unindexed(domains, maintainers, name);
    assert forall|m: Seq<u8>| #[trigger] rest.contains_key(m) implies maintainers.contains_key(m)
        && rest[m] == maintainers[m] && maintainers[m] != name by {
        assert(maintainers.contains_key(m));
        if maintainers[m] == name {
            assert(domains[name].maintainer == m);
        }
    }
}

/// Writing the record of a claim and moving its row keeps the index
/// consistent.
pub proof fn lemma_claim_consistent(
    domains: Map<Seq<u8>, DomainRecord>,
    maintainers: Map<Seq<u8>, Seq<u8>>,
    name: Seq<u8>,
    record: DomainRecord,
)
    requires
        index_consistent(domains, maintainers),
        !record.available,
    ensures
        index_consistent(
            domains.insert(name, record),
            unindexed(domains, maintainers, name).insert(record.maintainer, name),
        ),
{
    lemma_unindexed(domains, maintainers, name);
    let rest = unindexed(domains, maintainers, name);
    let index = rest.insert(record.maintainer, name);
    let registry = domains.insert(name, record);
    assert forall|m: Seq<u8>| #[trigger] index.contains_key(m) implies is_claimed(
        registry,
        index[m],
    ) && registry[index[m]].maintainer == m by {
        if m != record.maintainer {
            assert(rest.contains_key(m));
            assert(maintainers.contains_key(m));
        }
    }
}

/// Marking a record available and dropping its row keeps the index
/// consistent.
pub proof fn lemma_release_consistent(
    domains: Map<Seq<u8>, DomainRecord>,
    maintainers: Map<Seq<u8>, Seq<u8>>,
    name: Seq<u8>,
    record: DomainRecord,
)
    requires
        index_consistent(domains, maintainers),
    ensures
        index_consistent(domains.insert(name, record), unindexed(domains, maintainers, name)),
{
    lemma_unindexed(domains, maintainers, name);
    let rest = unindexed(domains, maintainers, name);
    let registry = domains.insert(name, record);
    assert forall|m: Seq<u8>| #[trigger] rest.contains_key(m) implies is_claimed(
        registry,
        rest[m],
    ) && registry[rest[m]].maintainer == m by {
        assert(maintainers.contains_key(m));
    }
}

impl Pallet {
    /// Both maps are well formed.
    pub open spec fn wf(&self) -> bool {
        self.domains.wf() && self.maintainers.wf()
    }

    /// Whether the maintainer index agrees with the registry.
    pub open spec fn consistent(&self) -> bool {
        index_consistent(self.domains@, self.maintainers@)
    }

    /// A registry with no domains.
    pub fn new() -> (r: Self)
        ensures
            r.wf(),
            r.consistent(),
            r.domains@ == Map::<Seq<u8>, DomainRecord>::empty(),
            r.maintainers@ == Map::<Seq<u8>, Seq<u8>>::empty(),
    {
        Pallet { domains: StorageMap::new(), maintainers: StorageMap::new() }
    }

    /// The record of a domain, if it has one.
    pub fn domain_map(&self, domain_name: &[u8]) -> (r: Option<&DomainInfo>)
        requires
            self.wf(),
        ensures
            match r {
                Some(info) => self.domains@.contains_key(domain_name@) && info@
                    == self.domains@[domain_name@],
                None => !self.domains@.contains_key(domain_name@),
            },
    {
        self.domains.get(domain_name)
    }

    /// The domain that a node maintains, if the index has one for it.
    pub fn maintainer_map(&self, maintainer: &[u8]) -> (r: Option<&Vec<u8>>)
        requires
            self.wf(),
        ensures
            match r {
                Some(name) => self.maintainers@.contains_key(maintainer@) && name@
                    == self.maintainers@[maintainer@],
                None => !self.maintainers@.contains_key(maintainer@),
            },
    {
        self.maintainers.get(maintainer)
    }

    /// Checks that `who` owns `domain_name`.
    fn check_owner(&self, who: &[u8], domain_name: &[u8]) -> (r: Option<Error>)
        requires
            self.wf(),
        ensures
            r == owner_refusal(self.domains@, who@, domain_name@),
    {
        match self.domains.get(domain_name) {
            None => Some(Error::DomainNotFound),
            Some(info) => {
                if bytes_eq(who, info.creator.as_slice()) {
                    None
                } else {
                    Some(Error::InvalidOwnerId)
                }
            },
        }
    }

    /// Drops the row of the index that the record of `domain_name` accounts
    /// for.
    fn unindex(&mut self, domain_name: &[u8])
        requires
            old(self).wf(),
        ensures
            final(self).wf(),
            final(self).domains == old(self).domains,
            final(self).maintainers@ == unindexed(
                old(self).domains@,
                old(self).maintainers@,
                domain_name@,
            ),
    {
        let former = match self.domains.get(domain_name) {
            Some(info) => copy_bytes(info.maintainer.as_slice()),
            None => {
                return ;
            },
        };
        let points_here = match self.maintainers.get(former.as_slice()) {
            Some(name) => bytes_eq(name.as_slice(), domain_name),
            None => false,
        };
        if points_here {
            self.maintainers.remove(former.as_slice());
        }
    }

    /// Records `who` as the owner of `domain_name` and moves the row of the
    /// index to the new maintainer.
    fn claim(&mut self, who: &[u8], domain_name: &[u8], chain_spec: Vec<u8>, maintainer: Vec<u8>)
        requires
            old(self).wf(),
        ensures
            final(self).wf(),
            old(self).consistent() ==> final(self).consistent(),
            final(self).domains@ == old(self).domains@.insert(
                domain_name@,
                DomainRecord {
                    creator: who@,
                    chain_spec: chain_spec@,
                    maintainer: maintainer@,
                    available: false,
                },
            ),
            final(self).maintainers@ == unindexed(
                old(self).domains@,
                old(self).maintainers@,
                domain_name@,
            ).insert(maintainer@, domain_name@),
    {
        let ghost record = DomainRecord {
            creator: who@,
            chain_spec: chain_spec@,
            maintainer: maintainer@,
            available: false,
        };
        self.unindex(domain_name);
        let index_key = copy_bytes(maintainer.as_slice());
        let info = DomainInfo::new(copy_bytes(who), chain_spec, maintainer, false);
        self.domains.insert(copy_bytes(domain_name), info);
        self.maintainers.insert(index_key, copy_bytes(domain_name));
        proof {
            if old(self).consistent() {
                lemma_claim_consistent(
                    old(self).domains@,
                    old(self).maintainers@,
                    domain_name@,
                    record,
                );
            }
        }
    }

    /// Registers a domain for `who`.
    ///
    /// Refused with `DomainNotAvailable` when the name is held by an owner.
    /// Otherwise the name gets a fresh record that is not available, and the
    /// maintainer index points from `maintainer` to the name. A row that an
    /// earlier record of the name accounts for is dropped first.
    pub fn register_domain(
        &mut self,
        who: AccountId,
        domain_name: Vec<u8>,
        chain_spec: Vec<u8>,
        maintainer: Vec<u8>,
    ) -> (r: Result<Event, Error>)
        requires
            old(self).wf(),
        ensures
            final(self).wf(),
            old(self).consistent() ==> final(self).consistent(),
            r is Err <==> is_claimed(old(self).domains@, domain_name@),
            match r {
                Err(e) => e == Error::DomainNotAvailable && *final(self) == *old(self),
                Ok(event) => {
                    &&& event matches Event::DomainRegistered { domain_name: d, creator: c }
                    &&& d@ == domain_name@
                    &&& c@ == who@
                    &&& final(self).domains@ == old(self).domains@.insert(
                        domain_name@,
                        DomainRecord {
                            creator: who@,
                            chain_spec: chain_spec@,
                            maintainer: maintainer@,
                            available: false,
                        },
                    )
                    &&& final(self).maintainers@ == unindexed(
                        old(self).domains@,
                        old(self).maintainers@,
                        domain_name@,
                    ).insert(maintainer@, domain_name@)
                },
            },
    {
        let claimed = match self.domains.get(domain_name.as_slice()) {
            Some(info) => !info.available,
            None => false,
        };
        if claimed {
            return Err(Error::DomainNotAvailable);
        }
        self.claim(who.as_slice(), domain_name.as_slice(), chain_spec, maintainer);
        Ok(Event::DomainRegistered { domain_name, creator: who })
    }

    /// Replaces the chain specification and maintainer of a domain.
    ///
    /// Refused with `DomainNotFound` when the name has no record and with
    /// `InvalidOwnerId` when `who` is not its creator. Otherwise the record
    /// is rewritten as by a registration: the row of the former maintainer
    /// leaves the index, where it points to this domain, and the new
    /// maintainer gets its row.
    pub fn amend_chainspec(
        &mut self,
        who: AccountId,
        domain_name: Vec<u8>,
        chain_spec: Vec<u8>,
        maintainer: Vec<u8>,
    ) -> (r: Result<Event, Error>)
        requires
            old(self).wf(),
        ensures
            final(self).wf(),
            old(self).consistent() ==> final(self).consistent(),
            match r {
                Err(e) => owner_refusal(old(self).domains@, who@, domain_name@) == Some(e)
                    && *final(self) == *old(self),
                Ok(event) => {
                    &&& owner_refusal(old(self).domains@, who@, domain_name@) is None
                    &&& event matches Event::DomainAmended { domain_name: d, editor: c }
                    &&& d@ == domain_name@
                    &&& c@ == who@
                    &&& final(self).domains@ == old(self).domains@.insert(
                        domain_name@,
                        DomainRecord {
                            creator: who@,
                            chain_spec: chain_spec@,
                            maintainer: maintainer@,
                            available: false,
                        },
                    )
                    &&& final(self).maintainers@ == unindexed(
                        old(self).domains@,
                        old(self).maintainers@,
                        domain_name@,
                    ).insert(maintainer@, domain_name@)
                },
            },
    {
        match self.check_owner(who.as_slice(), domain_name.as_slice()) {
            Some(e) => Err(e),
            None => {
                self.claim(who.as_slice(), domain_name.as_slice(), chain_spec, maintainer);
                Ok(Event::DomainAmended { domain_name, editor: who })
            },
        }
    }

    /// Gives a domain up.
    ///
    /// Refused with `DomainNotFound` when the name has no record and with
    /// `InvalidOwnerId` when `who` is not its creator. Otherwise the record
    /// is marked available and loses its chain specification and maintainer,
    /// and the row of that maintainer leaves the index, where it points to
    /// this domain.
    pub fn revoke_domain(&mut self, who: AccountId, domain_name: Vec<u8>) -> (r: Result<
        Event,
        Error,
    >)
        requires
            old(self).wf(),
        ensures
            final(self).wf(),
            old(self).consistent() ==> final(self).consistent(),
            match r {
                Err(e) => owner_refusal(old(self).domains@, who@, domain_name@) == Some(e)
                    && *final(self) == *old(self),
                Ok(event) => {
                    &&& owner_refusal(old(self).domains@, who@, domain_name@) is None
                    &&& event matches Event::DomainRevoked { domain_name: d, revoker: c }
                    &&& d@ == domain_name@
                    &&& c@ == who@
                    &&& final(self).domains@ == old(self).domains@.insert(
                        domain_name@,
                        DomainRecord {
                            creator: who@,
                            chain_spec: Seq::empty(),
                            maintainer: Seq::empty(),
                            available: true,
                        },
                    )
                    &&& final(self).maintainers@ == unindexed(
                        old(self).domains@,
                        old(self).maintainers@,
                        domain_name@,
                    )
                },
            },
    {
        match self.check_owner(who.as_slice(), domain_name.as_slice()) {
            Some(e) => Err(e),
            None => {
                let info = DomainInfo::new(
                    copy_bytes(who.as_slice()),
                    Vec::new(),
                    Vec::new(),
                    true,
                );
                self.unindex(domain_name.as_slice());
                self.domains.insert(copy_bytes(domain_name.as_slice()), info);
                proof {
                    if old(self).consistent() {
                        lemma_release_consistent(
                            old(self).domains@,
                            old(self).maintainers@,
                            domain_name@,
                            info@,
                        );
                    }
                }
                Ok(Event::DomainRevoked { domain_name, revoker: who })
            },
        }
    }
}

/// The peers that a node has seen, without repetition, in the order in which
/// it first saw them. The cache belongs to one node and is not replicated.
pub struct PeerCache {
    pub peers: Vec<Vec<u8>>,
}

impl View for PeerCache {
    type V = Seq<Seq<u8>>;

    open spec fn view(&self) -> Seq<Seq<u8>> {
        list_view(self.peers@)
    }
}

/// `list` without the first occurrence of `item`.
pub open spec fn without(list: Seq<Seq<u8>>, item: Seq<u8>) -> Seq<Seq<u8>> {
    if list.contains(item) {
        list.remove(list.index_of(item))
    } else {
        list
    }
}

impl PeerCache {
    /// No peer is held twice.
    pub open spec fn wf(&self) -> bool {
        self@.no_duplicates()
    }

    /// An empty cache.
    pub fn new() -> (r: Self)
        ensures
            r.wf(),
            r@ == Seq::<Seq<u8>>::empty(),
    {
        let r = PeerCache { peers: Vec::new() };
        assert(r@ =~= Seq::<Seq<u8>>::empty());
        r
    }

    /// Whether the cache holds `peer_id`.
    pub fn contains(&self, peer_id: &[u8]) -> (r: bool)
        ensures
            r == self@.contains(peer_id@),
    {
        list_contains(&self.peers, peer_id)
    }

    /// Adds `peer_id` at the end, unless the cache holds it already.
    pub fn add(&mut self, peer_id: Vec<u8>)
        requires
            old(self).wf(),
        ensures
            final(self).wf(),
            final(self)@ == if old(self)@.contains(peer_id@) {
                old(self)@
            } else {
                old(self)@.push(peer_id@)
            },
    {
        if !list_contains(&self.peers, peer_id.as_slice()) {
            self.peers.push(peer_id);
            assert(self@ =~= old(self)@.push(peer_id@));
        }
    }

    /// Removes `peer_id`, if the cache holds it.
    pub fn remove(&mut self, peer_id: &[u8])
        requires
            old(self).wf(),
        ensures
            final(self).wf(),
            final(self)@ == without(old(self)@, peer_id@),
    {
        let mut i: usize = 0;
        while i < self.peers.len()
            invariant
                i <= self.peers@.len(),
                self.peers == old(self).peers,
                self@.no_duplicates(),
                forall|j: int| 0 <= j < i ==> self@[j] != peer_id@,
            decreases self.peers@.len() - i,
        {
            if bytes_eq(self.peers[i].as_slice(), peer_id) {
                let ghost before = self@;
                assert(before[i as int] == peer_id@);
                assert(before.contains(peer_id@));
                let ghost at = before.index_of(peer_id@);
                assert(before[at] == peer_id@);
                assert(at == i);
                self.peers.remove(i);
                assert(self@ =~= before.remove(i as int));
                assert forall|a: int, b: int|
                    0 <= a < self@.len() && 0 <= b < self@.len() && a != b implies self@[a]
                    != self@[b] by {
                    let oa = if a < i { a } else { a + 1 };
                    let ob = if b < i { b } else { b + 1 };
                    assert(self@[a] == before[oa] && self@[b] == before[ob]);
                }
                return ;
            }
            i += 1;
        }
    }
}

/// Where the monitor asks for the peers of the local node.
pub const ENDPOINT: &'static str = "http://127.0.0.1:9945";

/// What the monitor sends to ask for the peers.
pub const REQUEST_BODY: &'static str = "{\"id\":1,\"jsonrpc\":\"2.0\",\"method\":\"system_peers\"}";

/// The key under which a node keeps its peer cache.
pub const PEER_CACHE_STORAGE_KEY: &'static str = "peer_cache_worker::cache";

/// One peer of a node, as the node reports it. Only the identifier is used.
#[derive(Debug)]
pub struct PeerInfo {
    pub peer_id: Vec<u8>,
    pub roles: Vec<u8>,
    pub best_hash: Vec<u8>,
    pub best_number: u64,
}

/// The decoded answer of a node that was asked for its peers.
#[derive(Debug)]
pub struct RPCResponse {
    pub jsonrpc: Vec<u8>,
    pub result: Vec<PeerInfo>,
    pub id: u32,
}

/// What came of asking the local node for its peers.
#[derive(Debug)]
pub enum PeerReport {
    /// The request failed before any answer arrived.
    Unreachable,
    /// An answer arrived; `body` is `None` where it could not be decoded.
    Received { code: u16, body: Option<RPCResponse> },
}

/// What the monitor decided in one tick.
#[derive(Debug)]
pub struct PeerSweep {
    /// The domains to revoke, one command each, in this order.
    pub revocations: Vec<Vec<u8>>,
    /// Whether the cache is to be persisted.
    pub persist: bool,
}

/// The identifiers of the reported peers, in the order of the report.
pub open spec fn reported_ids(peers: Seq<PeerInfo>) -> Seq<Seq<u8>> {
    peers.map_values(|p: PeerInfo| p.peer_id@)
}

/// The known peers that the report does not list.
pub open spec fn missing_peers(known: Seq<Seq<u8>>, live: Seq<Seq<u8>>) -> Seq<Seq<u8>> {
    known.filter(|p: Seq<u8>| !live.contains(p))
}

/// The reported peers that were not known, each once, in the order in which
/// the report first lists them.
pub open spec fn new_peers(known: Seq<Seq<u8>>, live: Seq<Seq<u8>>) -> Seq<Seq<u8>>
    decreases live.len(),
{
    if live.len() == 0 {
        Seq::empty()
    } else {
        let earlier = new_peers(known, live.drop_last());
        if known.contains(live.last()) || earlier.contains(live.last()) {
            earlier
        } else {
            earlier.push(live.last())
        }
    }
}

/// The cache after a report: the known peers that are still listed, then the
/// peers seen for the first time.
pub open spec fn reconciled(known: Seq<Seq<u8>>, live: Seq<Seq<u8>>) -> Seq<Seq<u8>> {
    known.filter(|p: Seq<u8>| live.contains(p)) + new_peers(known, live)
}

/// The domains of the peers in `gone` that maintain one, in the order of
/// `gone`. A peer without an entry in the index is passed over.
pub open spec fn maintained_domains(gone: Seq<Seq<u8>>, index: Map<Seq<u8>, Seq<u8>>) -> Seq<
    Seq<u8>,
> {
    gone.filter_map(
        |p: Seq<u8>|
            if index.contains_key(p) {
                Some(index[p])
            } else {
                None
            },
    )
}

/// The new peers are exactly the reported peers that were not known.
pub proof fn lemma_new_peers(known: Seq<Seq<u8>>, live: Seq<Seq<u8>>)
    ensures
        new_peers(known, live).no_duplicates(),
        forall|p: Seq<u8>| #[trigger]
            new_peers(known, live).contains(p) <==> live.contains(p) && !known.contains(p),
    decreases live.len(),
{
    let fresh = new_peers(known, live);
    if live.len() == 0 {
        assert forall|p: Seq<u8>| #[trigger]
            fresh.contains(p) <==> live.contains(p) && !known.contains(p) by {}
    } else {
        let rest = live.drop_last();
        let last = live.last();
        let earlier = new_peers(known, rest);
        lemma_new_peers(known, rest);
        assert forall|p: Seq<u8>| #[trigger]
            fresh.contains(p) <==> live.contains(p) && !known.contains(p) by {
            if fresh.contains(p) {
                let i = choose|i: int| 0 <= i < fresh.len() && fresh[i] == p;
                if i < earlier.len() {
                    assert(earlier[i] == p);
                    assert(earlier.contains(p));
                    let j = choose|j: int| 0 <= j < rest.len() && rest[j] == p;
                    assert(live[j] == p);
                } else {
                    assert(live[live.len() - 1] == p);
                }
            }
            if live.contains(p) && !known.contains(p) {
                let j = choose|j: int| 0 <= j < live.len() && live[j] == p;
                if j < rest.len() {
                    assert(rest[j] == p);
                    assert(rest.contains(p));
                    assert(earlier.contains(p));
                    let i = choose|i: int| 0 <= i < earlier.len() && earlier[i] == p;
                    assert(fresh[i] == p);
                } else if !earlier.contains(p) {
                    assert(fresh[earlier.len() as int] == p);
                }
            }
        }
        if !(known.contains(last) || earlier.contains(last)) {
            assert forall|i: int, j: int|
                0 <= i < fresh.len() && 0 <= j < fresh.len() && i != j implies fresh[i]
                != fresh[j] by {
                if i == earlier.len() {
                    assert(earlier.contains(earlier[j]));
                } else if j == earlier.len() {
                    assert(earlier.contains(earlier[i]));
                }
            }
        }
    }
}

/// After a report the cache holds each reported peer once and nothing else.
pub proof fn lemma_reconciled(known: Seq<Seq<u8>>, live: Seq<Seq<u8>>)
    requires
        known.no_duplicates(),
    ensures
        reconciled(known, live).no_duplicates(),
        forall|p: Seq<u8>| #[trigger] reconciled(known, live).contains(p) <==> live.contains(p),
        forall|p: Seq<u8>| #[trigger]
            missing_peers(known, live).contains(p) <==> known.contains(p) && !live.contains(p),
{
    let kept = known.filter(|p: Seq<u8>| live.contains(p));
    let fresh = new_peers(known, live);
    let all = reconciled(known, live);
    lemma_filter_members(known, |p: Seq<u8>| live.contains(p));
    lemma_filter_members(known, |p: Seq<u8>| !live.contains(p));
    lemma_new_peers(known, live);
    assert forall|p: Seq<u8>| #[trigger] all.contains(p) <==> live.contains(p) by {
        if all.contains(p) {
            let i = choose|i: int| 0 <= i < all.len() && all[i] == p;
            if i < kept.len() {
                assert(kept[i] == p);
                assert(kept.contains(p));
            } else {
                assert(fresh[i - kept.len()] == p);
                assert(fresh.contains(p));
            }
        }
        if live.contains(p) {
            if known.contains(p) {
                assert(kept.contains(p));
                let i = choose|i: int| 0 <= i < kept.len() && kept[i] == p;
                assert(all[i] == p);
            } else {
                assert(fresh.contains(p));
                let i = choose|i: int| 0 <= i < fresh.len() && fresh[i] == p;
                assert(all[kept.len() + i] == p);
            }
        }
    }
    assert forall|i: int, j: int|
        0 <= i < all.len() && 0 <= j < all.len() && i != j implies all[i] != all[j] by {
        if i < kept.len() && j >= kept.len() {
            assert(kept.contains(kept[i]));
            assert(fresh.contains(fresh[j - kept.len()]));
        } else if j < kept.len() && i >= kept.len() {
            assert(kept.contains(kept[j]));
            assert(fresh.contains(fresh[i - kept.len()]));
        }
    }
}

/// The items of `known` that `live` holds (`listed`) or lacks (`!listed`).
fn select_peers(known: &Vec<Vec<u8>>, live: &Vec<Vec<u8>>, listed: bool) -> (r: Vec<Vec<u8>>)
    ensures
        list_view(r@) == list_view(known@).filter(
            |p: Seq<u8>| list_view(live@).contains(p) == listed,
        ),
{
    let ghost pred = |p: Seq<u8>| list_view(live@).contains(p) == listed;
    let ghost all = list_view(known@);
    let mut out: Vec<Vec<u8>> = Vec::new();
    let mut i: usize = 0;
    proof {
        lemma_filter_empty(all.take(0), pred);
    }
    while i < known.len()
        invariant
            i <= known@.len(),
            all == list_view(known@),
            pred == |p: Seq<u8>| list_view(live@).contains(p) == listed,
            list_view(out@) == all.take(i as int).filter(pred),
        decreases known@.len() - i,
    {
        proof {
            lemma_filter_step(all, pred, i as int);
        }
        if list_contains(live, known[i].as_slice()) == listed {
            let ghost before = out@;
            out.push(copy_bytes(known[i].as_slice()));
            assert(list_view(out@) =~= list_view(before).push(all[i as int]));
        }
        i += 1;
    }
    assert(all.take(known@.len() as int) =~= all);
    out
}

/// The peers of `live` that `known` lacks, each once.
fn fresh_peers(known: &Vec<Vec<u8>>, live: &Vec<Vec<u8>>) -> (r: Vec<Vec<u8>>)
    ensures
        list_view(r@) == new_peers(list_view(known@), list_view(live@)),
{
    let ghost all = list_view(live@);
    let mut out: Vec<Vec<u8>> = Vec::new();
    let mut i: usize = 0;
    assert(list_view(out@) =~= new_peers(list_view(known@), all.take(0)));
    while i < live.len()
        invariant
            i <= live@.len(),
            all == list_view(live@),
            list_view(out@) == new_peers(list_view(known@), all.take(i as int)),
        decreases live@.len() - i,
    {
        proof {
            assert(all.take(i + 1).drop_last() =~= all.take(i as int));
            assert(all.take(i + 1).last() == all[i as int]);
        }
        let peer = live[i].as_slice();
        if !list_contains(known, peer) && !list_contains(&out, peer) {
            let ghost before = out@;
            out.push(copy_bytes(peer));
            assert(list_view(out@) =~= list_view(before).push(all[i as int]));
        }
        i += 1;
    }
    assert(all.take(live@.len() as int) =~= all);
    out
}

/// The identifiers of the reported peers.
fn peer_ids(peers: &Vec<PeerInfo>) -> (r: Vec<Vec<u8>>)
    ensures
        list_view(r@) == reported_ids(peers@),
{
    let mut out: Vec<Vec<u8>> = Vec::new();
    let mut i: usize = 0;
    while i < peers.len()
        invariant
            i <= peers@.len(),
            list_view(out@) == reported_ids(peers@).take(i as int),
        decreases peers@.len() - i,
    {
        let ghost before = out@;
        out.push(copy_bytes(peers[i].peer_id.as_slice()));
        assert(list_view(out@) =~= list_view(before).push(peers@[i as int].peer_id@));
        assert(list_view(out@) =~= reported_ids(peers@).take(i + 1));
        i += 1;
    }
    assert(reported_ids(peers@).take(peers@.len() as int) =~= reported_ids(peers@));
    out
}

impl Pallet {
    /// The domains maintained by the peers in `gone`.
    fn domains_of(&self, gone: &Vec<Vec<u8>>) -> (r: Vec<Vec<u8>>)
        requires
            self.wf(),
        ensures
            list_view(r@) == maintained_domains(list_view(gone@), self.maintainers@),
    {
        let ghost index = self.maintainers@;
        let ghost pick = |p: Seq<u8>|
            if index.contains_key(p) {
                Some(index[p])
            } else {
                None
            };
        let ghost all = list_view(gone@);
        let mut out: Vec<Vec<u8>> = Vec::new();
        let mut i: usize = 0;
        assert(list_view(out@) =~= all.take(0).filter_map(pick));
        while i < gone.len()
            invariant
                self.wf(),
                i <= gone@.len(),
                all == list_view(gone@),
                index == self.maintainers@,
                pick == |p: Seq<u8>|
                    if index.contains_key(p) {
                        Some(index[p])
                    } else {
                        None
                    },
                list_view(out@) == all.take(i as int).filter_map(pick),
            decreases gone@.len() - i,
        {
            proof {
                all.lemma_filter_map_take_succ(pick, i as int);
            }
            match self.maintainers.get(gone[i].as_slice()) {
                Some(name) => {
                    let ghost before = out@;
                    out.push(copy_bytes(name.as_slice()));
                    assert(list_view(out@) =~= list_view(before) + seq![name@]);
                },
                None => {},
            }
            i += 1;
        }
        assert(all.take(gone@.len() as int) =~= all);
        out
    }

    /// One tick of the peer liveness monitor.
    ///
    /// `cache` holds the peers seen before; `report` is what the local node
    /// answered when asked for its peers. Where the request failed outright,
    /// nothing changes and the cache is not to be persisted. Where the answer
    /// is not a success or cannot be decoded, the cache stays as it is. On a
    /// decoded success, the peers that the report no longer lists leave the
    /// cache and the peers it lists for the first time enter it; for each
    /// peer that left and maintains a domain, that domain is to be revoked.
    pub fn offchain_worker(&self, cache: &mut PeerCache, report: PeerReport) -> (r: PeerSweep)
        requires
            self.wf(),
            old(cache).wf(),
        ensures
            final(cache).wf(),
            r.persist == (report is Received),
            match report {
                PeerReport::Received { code, body: Some(answer) } if code == 200 => {
                    let live = reported_ids(answer.result@);
                    &&& final(cache)@ == reconciled(old(cache)@, live)
                    &&& list_view(r.revocations@) == maintained_domains(
                        missing_peers(old(cache)@, live),
                        self.maintainers@,
                    )
                },
                _ => final(cache)@ == old(cache)@ && r.revocations@.len() == 0,
            },
    {
        match report {
            PeerReport::Unreachable => PeerSweep { revocations: Vec::new(), persist: false },
            PeerReport::Received { code, body } => {
                if code != 200 {
                    return PeerSweep { revocations: Vec::new(), persist: true };
                }
                match body {
                    None => PeerSweep { revocations: Vec::new(), persist: true },
                    Some(answer) => {
                        let live = peer_ids(&answer.result);
                        let gone = select_peers(&cache.peers, &live, false);
                        let mut kept = select_peers(&cache.peers, &live, true);
                        let mut fresh = fresh_peers(&cache.peers, &live);
                        let ghost kept_view = list_view(kept@);
                        let ghost fresh_view = list_view(fresh@);
                        kept.append(&mut fresh);
                        proof {
                            let known = old(cache)@;
                            let ids = list_view(live@);
                            assert(list_view(kept@) =~= kept_view + fresh_view);
                            assert((|p: Seq<u8>| ids.contains(p) == true) =~= (|p: Seq<u8>|
                                ids.contains(p)));
                            assert((|p: Seq<u8>| ids.contains(p) == false) =~= (|p: Seq<u8>|
                                !ids.contains(p)));
                            lemma_reconciled(known, ids);
                        }
                        let revocations = self.domains_of(&gone);
                        cache.peers = kept;
                        PeerSweep { revocations, persist: true }
                    },
                }
            },
        }
    }
}

} // verus!
