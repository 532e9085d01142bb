//! The provider index, the queue of pending binding requests, and the
//! commands that change them.
//!
//! An asset is bound to a domain in two lists that mirror each other: the
//! providers of the asset and the assets of the domain. A binding is first
//! requested, then verified against the domain's network, and only then
//! committed. A domain that no longer validates is retracted from both lists.

use vstd::prelude::*;
use crate::bytes::{append_bytes, bytes_eq, copy_bytes, copy_list, list_view};
use crate::seqs::{lemma_filter_empty, lemma_filter_members, lemma_filter_step};
use crate::storage::StorageMap;
use crate::tld::AccountId;

verus! {

/// How many domains one sweep looks at.
pub const DOMAIN_BATCH_SIZE: usize = 10;

/// How many pending requests one tick tries to verify.
pub const REQUEST_BATCH_SIZE: usize = 10;

/// How many ticks a pending request lives.
pub const REQUEST_LIFETIME: u64 = 1000;

/// The domains that serve an asset, in the order in which they were bound.
#[derive(Clone, Debug, Default, PartialEq)]
pub struct ProviderList {
    pub providers: Vec<Vec<u8>>,
}

/// The assets that a domain serves, in the order in which they were bound.
#[derive(Clone, Debug, Default, PartialEq)]
pub struct AssetList {
    pub assets: Vec<Vec<u8>>,
}

/// A binding that awaits verification.
#[derive(Clone, Debug, Default, PartialEq)]
pub struct PendingRequest {
    pub requester: Vec<u8>,
    pub domain: Vec<u8>,
    pub asset_hash: Vec<u8>,
    /// The tick after which the request is no longer worth verifying.
    pub timestamp: u64,
}

/// The mathematical value of a `PendingRequest`.
pub ghost struct PendingRecord {
    pub requester: Seq<u8>,
    pub domain: Seq<u8>,
    pub asset_hash: Seq<u8>,
    pub timestamp: u64,
}

impl View for ProviderList {
    type V = Seq<Seq<u8>>;

    open spec fn view(&self) -> Seq<Seq<u8>> {
        list_view(self.providers@)
    }
}

impl View for AssetList {
    type V = Seq<Seq<u8>>;

    open spec fn view(&self) -> Seq<Seq<u8>> {
        list_view(self.assets@)
    }
}

impl View for PendingRequest {
    type V = PendingRecord;

    open spec fn view(&self) -> PendingRecord {
        PendingRecord {
            requester: self.requester@,
            domain: self.domain@,
            asset_hash: self.asset_hash@,
            timestamp: self.timestamp,
        }
    }
}

/// What a successful command reports.
#[derive(Debug)]
pub enum Event {
    DomainValidationRequested(AccountId, PendingRequest),
    AssetRegisteredForDomain(Vec<u8>, Vec<u8>, u64),
    AssetProviderRevoked(Vec<u8>),
    TesterEvent(Vec<(AccountId, PendingRequest)>),
    ExpiredRequestsRemoved,
}

/// Why a command was refused.
#[derive(Clone, Copy, Debug, PartialEq, Eq, Structural)]
pub enum Error {
    DomainInvalid,
    RequestFailed,
    RequestDoesNotExist,
}

/// The replicated state: both halves of the provider index, the cursor of
/// the revocation sweep, and the pending requests.
pub struct Pallet {
    /// Asset to the domains that serve it.
    pub providers: StorageMap<ProviderList>,
    /// Domain to the assets it serves.
    pub assets: StorageMap<AssetList>,
    /// The last domain that the revocation sweep looked at; empty at the start.
    pub cursor: Vec<u8>,
    /// Request key to pending request.
    pub pending: StorageMap<PendingRequest>,
}

/// The key of a pending request: the asset identifier followed by the domain.
pub open spec fn request_key(asset_hash: Seq<u8>, domain: Seq<u8>) -> Seq<u8> {
    asset_hash + domain
}

/// Whether `index` has a list under `key` that holds `item`.
pub open spec fn lists(index: Map<Seq<u8>, Seq<Seq<u8>>>, key: Seq<u8>, item: Seq<u8>) -> bool {
    index.contains_key(key) && index[key].contains(item)
}

/// The two halves of the provider index mirror each other: a domain is
/// among the providers of an asset exactly when the asset is among the
/// assets of the domain.
pub open spec fn indexes_consistent(
    providers: Map<Seq<u8>, Seq<Seq<u8>>>,
    assets: Map<Seq<u8>, Seq<Seq<u8>>>,
) -> bool {
    forall|asset: Seq<u8>, domain: Seq<u8>|
        #![trigger lists(providers, asset, domain)]
        #![trigger lists(assets, domain, asset)]
        lists(providers, asset, domain) == lists(assets, domain, asset)
}

/// The list under `key` with `item` appended; a list of `item` alone where
/// there was none.
pub open spec fn appended(index: Map<Seq<u8>, Seq<Seq<u8>>>, key: Seq<u8>, item: Seq<u8>) -> Seq<
    Seq<u8>,
> {
    if index.contains_key(key) {
        index[key].push(item)
    } else {
        seq![item]
    }
}

/// `list` without every occurrence of `domain`, the rest in order.
pub open spec fn pruned(list: Seq<Seq<u8>>, domain: Seq<u8>) -> Seq<Seq<u8>> {
    list.filter(other_than(domain))
}

/// The test that every byte string but `domain` passes.
pub open spec fn other_than(domain: Seq<u8>) -> spec_fn(Seq<u8>) -> bool {
    |d: Seq<u8>| d != domain
}

/// The providers after `domain` has left the provider list of each asset
/// that `names` holds. An asset without a provider list is passed over.
pub open spec fn pruned_in(
    providers: Map<Seq<u8>, Seq<Seq<u8>>>,
    names: Seq<Seq<u8>>,
    domain: Seq<u8>,
) -> Map<Seq<u8>, Seq<Seq<u8>>> {
    Map::new(
        |a: Seq<u8>| providers.contains_key(a),
        |a: Seq<u8>|
            if names.contains(a) {
                pruned(providers[a], domain)
            } else {
                providers[a]
            },
    )
}

/// The providers after `domain` is retracted: it leaves the provider list of
/// each asset that the domain's asset list names. Where the domain has no
/// asset list, nothing changes.
pub open spec fn retracted_providers(
    providers: Map<Seq<u8>, Seq<Seq<u8>>>,
    assets: Map<Seq<u8>, Seq<Seq<u8>>>,
    domain: Seq<u8>,
) -> Map<Seq<u8>, Seq<Seq<u8>>> {
    if assets.contains_key(domain) {
        pruned_in(providers, assets[domain], domain)
    } else {
        providers
    }
}

/// Both halves of the index after the domains of `domains` are retracted,
/// one after the other.
pub open spec fn retracted_all(
    providers: Map<Seq<u8>, Seq<Seq<u8>>>,
    assets: Map<Seq<u8>, Seq<Seq<u8>>>,
    domains: Seq<Seq<u8>>,
) -> (Map<Seq<u8>, Seq<Seq<u8>>>, Map<Seq<u8>, Seq<Seq<u8>>>)
    decreases domains.len(),
{
    if domains.len() == 0 {
        (providers, assets)
    } else {
        let (p, a) = retracted_all(providers, assets, domains.drop_last());
        (retracted_providers(p, a, domains.last()), a.remove(domains.last()))
    }
}

/// The pending requests that are left after the expired ones are removed at
/// `now`: those whose deadline lies after `now`.
pub open spec fn unexpired(pending: Map<Seq<u8>, PendingRecord>, now: u64) -> Map<
    Seq<u8>,
    PendingRecord,
> {
    Map::new(
        |k: Seq<u8>| pending.contains_key(k) && now < pending[k].timestamp,
        |k: Seq<u8>| pending[k],
    )
}

/// Binding an asset to a domain in both lists keeps the index consistent.
pub proof fn lemma_bind_consistent(
    providers: Map<Seq<u8>, Seq<Seq<u8>>>,
    assets: Map<Seq<u8>, Seq<Seq<u8>>>,
    asset: Seq<u8>,
    domain: Seq<u8>,
)
    requires
        indexes_consistent(providers, assets),
    ensures
        indexes_consistent(
            providers.insert(asset, appended(providers, asset, domain)),
            assets.insert(domain, appended(assets, domain, asset)),
        ),
{
    let providers_after = providers.insert(asset, appended(providers, asset, domain));
    let assets_after = assets.insert(domain, appended(assets, domain, asset));
    assert forall|x: Seq<u8>, y: Seq<u8>| lists(providers_after, x, y) == lists(assets_after, y, x) by {
        assert(lists(providers, x, y) == lists(assets, y, x));
        let pl = appended(providers, asset, domain);
        let al = appended(assets, domain, asset);
        assert(pl.contains(y) == (lists(providers, asset, y) || y == domain)) by {
            lemma_push_contains(providers, asset, domain, y);
        }
        assert(al.contains(x) == (lists(assets, domain, x) || x == asset)) by {
            lemma_push_contains(assets, domain, asset, x);
        }
        assert(lists(providers, asset, y) == lists(assets, y, asset));
        assert(lists(providers, x, domain) == lists(assets, domain, x));
    }
}

/// What the appended list holds.
proof fn lemma_push_contains(
    index: Map<Seq<u8>, Seq<Seq<u8>>>,
    key: Seq<u8>,
    item: Seq<u8>,
    y: Seq<u8>,
)
    ensures
        appended(index, key, item).contains(y) == (lists(index, key, y) || y == item),
{
    let l = appended(index, key, item);
    if index.contains_key(key) {
        let s = index[key];
        if s.contains(y) {
            let i = choose|i: int| 0 <= i < s.len() && s[i] == y;
            assert(l[i] == y);
        }
        if y == item {
            assert(l[s.len() as int] == y);
        }
        if l.contains(y) {
            let i = choose|i: int| 0 <= i < l.len() && l[i] == y;
            if i < s.len() {
                assert(s[i] == y);
            }
        }
    } else {
        assert(l[0] == item);
    }
}

/// What a pruned list holds, and that pruning twice changes nothing more.
pub proof fn lemma_pruned(list: Seq<Seq<u8>>, domain: Seq<u8>)
    ensures
        forall|d: Seq<u8>| #[trigger]
            pruned(list, domain).contains(d) <==> list.contains(d) && d != domain,
        pruned(pruned(list, domain), domain) == pruned(list, domain),
{
    let keep = other_than(domain);
    lemma_filter_members(list, keep);
    let once = list.filter(keep);
    assert forall|i: int| 0 <= i < once.len() implies keep(#[trigger] once[i]) by {
        assert(once.contains(once[i]));
    }
    lemma_filter_all(once, keep);
}

/// A filter keeps a sequence whose items all meet the predicate.
proof fn lemma_filter_all(s: Seq<Seq<u8>>, pred: spec_fn(Seq<u8>) -> bool)
    requires
        forall|i: int| 0 <= i < s.len() ==> pred(#[trigger] s[i]),
    ensures
        s.filter(pred) == s,
    decreases s.len(),
{
    reveal(Seq::filter);
    if s.len() > 0 {
        lemma_filter_all(s.drop_last(), pred);
        assert(s =~= s.drop_last().push(s.last()));
    }
}

/// Retracting a domain keeps the index consistent.
pub proof fn lemma_retract_consistent(
    providers: Map<Seq<u8>, Seq<Seq<u8>>>,
    assets: Map<Seq<u8>, Seq<Seq<u8>>>,
    domain: Seq<u8>,
)
    requires
        indexes_consistent(providers, assets),
    ensures
        indexes_consistent(retracted_providers(providers, assets, domain), assets.remove(domain)),
{
    let providers_after = retracted_providers(providers, assets, domain);
    let assets_after = assets.remove(domain);
    assert forall|x: Seq<u8>, y: Seq<u8>| lists(providers_after, x, y) == lists(assets_after, y, x) by {
        assert(lists(providers, x, y) == lists(assets, y, x));
        assert(lists(providers, x, domain) == lists(assets, domain, x));
        if y != domain {
            assert(assets_after.contains_key(y) == assets.contains_key(y));
        }
        if assets.contains_key(domain) {
            assert(providers_after.contains_key(x) == providers.contains_key(x));
            if providers.contains_key(x) {
                if assets[domain].contains(x) {
                    lemma_pruned(providers[x], domain);
                    assert(providers_after[x] == pruned(providers[x], domain));
                    assert(pruned(providers[x], domain).contains(y) == (providers[x].contains(y)
                        && y != domain));
                } else {
                    assert(providers_after[x] == providers[x]);
                }
            }
        }
    }
}

impl Pallet {
    /// Each of the three maps is well formed.
    pub open spec fn wf(&self) -> bool {
        self.providers.wf() && self.assets.wf() && self.pending.wf()
    }

    /// Whether the two halves of the provider index mirror each other.
    pub open spec fn consistent(&self) -> bool {
        indexes_consistent(self.providers@, self.assets@)
    }

    /// An empty state.
    pub fn new() -> (r: Self)
        ensures
            r.wf(),
            r.consistent(),
            r.providers@ == Map::<Seq<u8>, Seq<Seq<u8>>>::empty(),
            r.assets@ == Map::<Seq<u8>, Seq<Seq<u8>>>::empty(),
            r.pending@ == Map::<Seq<u8>, PendingRecord>::empty(),
            r.cursor@ == Seq::<u8>::empty(),
    {
        Pallet {
            providers: StorageMap::new(),
            assets: StorageMap::new(),
            cursor: Vec::new(),
            pending: StorageMap::new(),
        }
    }

    /// The providers of an asset, if it has a list.
    pub fn asset_providers(&self, asset_hash: &[u8]) -> (r: Option<&ProviderList>)
        requires
            self.wf(),
        ensures
            match r {
                Some(list) => self.providers@.contains_key(asset_hash@) && list@
                    == self.providers@[asset_hash@],
                None => !self.providers@.contains_key(asset_hash@),
            },
    {
        self.providers.get(asset_hash)
    }

    /// The assets of a domain, if it has a list.
    pub fn provider_assets(&self, domain: &[u8]) -> (r: Option<&AssetList>)
        requires
            self.wf(),
        ensures
            match r {
                Some(list) => self.assets@.contains_key(domain@) && list@ == self.assets@[domain@],
                None => !self.assets@.contains_key(domain@),
            },
    {
        self.assets.get(domain)
    }

    /// The last domain that the revocation sweep looked at.
    pub fn last_processed_domain(&self) -> (r: &Vec<u8>)
        ensures
            r@ == self.cursor@,
    {
        &self.cursor
    }

    /// The pending request stored under `key`, if any.
    pub fn pending_requests(&self, key: &[u8]) -> (r: Option<&PendingRequest>)
        requires
            self.wf(),
        ensures
            match r {
                Some(request) => self.pending@.contains_key(key@) && request@
                    == self.pending@[key@],
                None => !self.pending@.contains_key(key@),
            },
    {
        self.pending.get(key)
    }

    /// Asks for `asset_hash` to be bound to `domain`.
    ///
    /// The request is stored under the asset identifier followed by the
    /// domain, with a deadline `REQUEST_LIFETIME` ticks after `now`. A
    /// request that is already stored under that key is replaced, which
    /// resets its deadline.
    pub fn register_asset_for_domain(
        &mut self,
        who: AccountId,
        domain: Vec<u8>,
        asset_hash: Vec<u8>,
        now: u64,
    ) -> (event: Event)
        requires
            old(self).wf(),
            now + REQUEST_LIFETIME <= u64::MAX,
        ensures
            final(self).wf(),
            final(self).pending@ == old(self).pending@.insert(
                request_key(asset_hash@, domain@),
                PendingRecord {
                    requester: who@,
                    domain: domain@,
                    asset_hash: asset_hash@,
                    timestamp: (now + REQUEST_LIFETIME) as u64,
                },
            ),
            old(self).pending@.contains_key(request_key(asset_hash@, domain@))
                ==> final(self).pending@.dom() == old(self).pending@.dom(),
            old(self).consistent() ==> final(self).consistent(),
            final(self).providers == old(self).providers,
            final(self).assets == old(self).assets,
            final(self).cursor == old(self).cursor,
            event matches Event::DomainValidationRequested(account, request) && account@ == who@
                && request@ == final(self).pending@[request_key(asset_hash@, domain@)],
    {
        let mut key = copy_bytes(asset_hash.as_slice());
        append_bytes(&mut key, domain.as_slice());
        let stored = PendingRequest {
            requester: copy_bytes(who.as_slice()),
            domain: copy_bytes(domain.as_slice()),
            asset_hash: copy_bytes(asset_hash.as_slice()),
            timestamp: now + REQUEST_LIFETIME,
        };
        let request = PendingRequest {
            requester: copy_bytes(who.as_slice()),
            domain,
            asset_hash,
            timestamp: now + REQUEST_LIFETIME,
        };
        self.pending.insert(key, stored);
        proof {
            let k = request_key(asset_hash@, domain@);
            if old(self).pending@.contains_key(k) {
                assert(self.pending@.dom() =~= old(self).pending@.dom());
            }
        }
        Event::DomainValidationRequested(who, request)
    }

    /// Commits a verified binding.
    ///
    /// Refused with `RequestDoesNotExist` when no request is pending under
    /// the asset identifier followed by the domain. Otherwise the pending
    /// entry stored under `account_id` is removed, the domain is appended to
    /// the asset's providers and the asset to the domain's assets, each list
    /// being created where it was missing.
    pub fn submit_verified_domain(
        &mut self,
        account_id: Vec<u8>,
        pending_request: PendingRequest,
        now: u64,
    ) -> (r: Result<Event, Error>)
        requires
            old(self).wf(),
        ensures
            final(self).wf(),
            r is Ok <==> old(self).pending@.contains_key(
                request_key(pending_request.asset_hash@, pending_request.domain@),
            ),
            old(self).consistent() ==> final(self).consistent(),
            final(self).cursor == old(self).cursor,
            match r {
                Err(e) => e == Error::RequestDoesNotExist && *final(self) == *old(self),
                Ok(event) => {
                    let asset = pending_request.asset_hash@;
                    let domain = pending_request.domain@;
                    &&& final(self).pending@ == old(self).pending@.remove(account_id@)
                    &&& final(self).providers@ == old(self).providers@.insert(
                        asset,
                        appended(old(self).providers@, asset, domain),
                    )
                    &&& final(self).assets@ == old(self).assets@.insert(
                        domain,
                        appended(old(self).assets@, domain, asset),
                    )
                    &&& event matches Event::AssetRegisteredForDomain(a, d, t)
                    &&& a@ == asset
                    &&& d@ == domain
                    &&& t == now
                },
            },
    {
        let mut key = copy_bytes(pending_request.asset_hash.as_slice());
        append_bytes(&mut key, pending_request.domain.as_slice());
        if !self.pending.contains_key(key.as_slice()) {
            return Err(Error::RequestDoesNotExist);
        }
        self.pending.remove(account_id.as_slice());
        let ghost asset = pending_request.asset_hash@;
        let ghost domain = pending_request.domain@;

        let mut providers = match self.providers.get(pending_request.asset_hash.as_slice()) {
            Some(list) => copy_list(&list.providers),
            None => Vec::new(),
        };
        let ghost before = providers@;
        providers.push(copy_bytes(pending_request.domain.as_slice()));
        assert(list_view(providers@) =~= list_view(before).push(domain));
        assert(list_view(providers@) =~= appended(old(self).providers@, asset, domain));
        self.providers.insert(
            copy_bytes(pending_request.asset_hash.as_slice()),
            ProviderList { providers },
        );

        let mut assets = match self.assets.get(pending_request.domain.as_slice()) {
            Some(list) => copy_list(&list.assets),
            None => Vec::new(),
        };
        let ghost before = assets@;
        assets.push(copy_bytes(pending_request.asset_hash.as_slice()));
        assert(list_view(assets@) =~= list_view(before).push(asset));
        assert(list_view(assets@) =~= appended(old(self).assets@, domain, asset));
        self.assets.insert(copy_bytes(pending_request.domain.as_slice()), AssetList { assets });
        proof {
            if old(self).consistent() {
                lemma_bind_consistent(old(self).providers@, old(self).assets@, asset, domain);
            }
        }
        Ok(Event::AssetRegisteredForDomain(pending_request.asset_hash, pending_request.domain, now))
    }
}

/// Retracting any number of domains keeps the index consistent.
pub proof fn lemma_retract_all_consistent(
    providers: Map<Seq<u8>, Seq<Seq<u8>>>,
    assets: Map<Seq<u8>, Seq<Seq<u8>>>,
    domains: Seq<Seq<u8>>,
)
    requires
        indexes_consistent(providers, assets),
    ensures
        indexes_consistent(
            retracted_all(providers, assets, domains).0,
            retracted_all(providers, assets, domains).1,
        ),
        forall|d: Seq<u8>|
            domains.contains(d) ==> !(#[trigger] retracted_all(
                providers,
                assets,
                domains,
            ).1.contains_key(d)),
    decreases domains.len(),
{
    if domains.len() > 0 {
        let rest = domains.drop_last();
        lemma_retract_all_consistent(providers, assets, rest);
        let (p, a) = retracted_all(providers, assets, rest);
        lemma_retract_consistent(p, a, domains.last());
        assert forall|d: Seq<u8>| domains.contains(d) implies !(#[trigger] retracted_all(
            providers,
            assets,
            domains,
        ).1.contains_key(d)) by {
            let i = choose|i: int| 0 <= i < domains.len() && domains[i] == d;
            if i < rest.len() {
                assert(rest[i] == d);
                assert(rest.contains(d));
            }
        }
    }
}

/// Revocation is complete: once a consistent index has had `domains`
/// retracted, none of them is left among the providers of any asset, and
/// none of them has an asset list.
pub proof fn lemma_retraction_complete(
    providers: Map<Seq<u8>, Seq<Seq<u8>>>,
    assets: Map<Seq<u8>, Seq<Seq<u8>>>,
    domains: Seq<Seq<u8>>,
    domain: Seq<u8>,
    asset: Seq<u8>,
)
    requires
        indexes_consistent(providers, assets),
        domains.contains(domain),
    ensures
        !retracted_all(providers, assets, domains).1.contains_key(domain),
        !lists(retracted_all(providers, assets, domains).0, asset, domain),
{
    lemma_retract_all_consistent(providers, assets, domains);
    let (p, a) = retracted_all(providers, assets, domains);
    assert(!a.contains_key(domain));
    assert(lists(p, asset, domain) == lists(a, domain, asset));
}

/// The items of `list` other than `domain`, in order.
fn prune_list(list: &Vec<Vec<u8>>, domain: &[u8]) -> (r: Vec<Vec<u8>>)
    ensures
        list_view(r@) == pruned(list_view(list@), domain@),
{
    let ghost all = list_view(list@);
    let ghost keep = other_than(domain@);
    let mut out: Vec<Vec<u8>> = Vec::new();
    let mut i: usize = 0;
    proof {
        lemma_filter_empty(all.take(0), keep);
    }
    while i < list.len()
        invariant
            i <= list@.len(),
            all == list_view(list@),
            keep == other_than(domain@),
            list_view(out@) == all.take(i as int).filter(keep),
        decreases list@.len() - i,
    {
        proof {
            lemma_filter_step(all, keep, i as int);
        }
        if !bytes_eq(list[i].as_slice(), domain) {
            let ghost before = out@;
            out.push(copy_bytes(list[i].as_slice()));
            assert(list_view(out@) =~= list_view(before).push(all[i as int]));
        }
        i += 1;
    }
    assert(all.take(list@.len() as int) =~= all);
    out
}

/// The first `n` items of `s`, or all of them where there are fewer.
pub open spec fn first_n<A>(s: Seq<A>, n: nat) -> Seq<A> {
    if n < s.len() {
        s.take(n as int)
    } else {
        s
    }
}

/// Once a filter over a prefix has found `n` items, they are the first `n`
/// that the filter finds in the whole sequence.
proof fn lemma_first_found<A>(s: Seq<A>, pred: spec_fn(A) -> bool, i: int, n: nat)
    requires
        0 <= i <= s.len(),
        s.take(i).filter(pred).len() == n || (i == s.len() && s.take(i).filter(pred).len() <= n),
    ensures
        first_n(s.filter(pred), n) == s.take(i).filter(pred),
{
    assert(s =~= s.take(i) + s.skip(i));
    Seq::filter_distributes_over_add(s.take(i), s.skip(i), pred);
    if i == s.len() {
        assert(s.take(i) =~= s);
    }
    let found = s.take(i).filter(pred);
    let all = s.filter(pred);
    if n < all.len() {
        assert(all.take(n as int) =~= found);
    } else {
        assert(all =~= found);
    }
}

/// The test that the keys after `cursor` pass.
pub open spec fn later_than(cursor: Seq<u8>) -> spec_fn(Seq<u8>) -> bool {
    |k: Seq<u8>| crate::bytes::lex_lt(cursor, k)
}

/// The keys after a cursor: all of them for an empty cursor, otherwise
/// those that come after it in key order.
pub open spec fn after_cursor(keys: Seq<Seq<u8>>, cursor: Seq<u8>) -> Seq<Seq<u8>> {
    if cursor.len() == 0 {
        keys
    } else {
        keys.filter(later_than(cursor))
    }
}

/// What a sweep works through from `cursor`: the keys after the cursor, or
/// all keys from the first where none is left after it.
pub open spec fn sweep_order(keys: Seq<Seq<u8>>, cursor: Seq<u8>) -> Seq<Seq<u8>> {
    if after_cursor(keys, cursor).len() == 0 {
        keys
    } else {
        after_cursor(keys, cursor)
    }
}

/// The stored requests in iteration order, each with its key.
pub open spec fn rows(keys: Seq<Seq<u8>>, values: Seq<PendingRecord>) -> Seq<
    (Seq<u8>, PendingRecord),
> {
    Seq::new(keys.len(), |i: int| (keys[i], values[i]))
}

/// The test that a request passes while its deadline has not passed at `now`.
pub open spec fn is_due(now: u64) -> spec_fn((Seq<u8>, PendingRecord)) -> bool {
    |row: (Seq<u8>, PendingRecord)| now <= row.1.timestamp
}

/// The view of a list of requests with their keys.
pub open spec fn rows_view(list: Seq<(Vec<u8>, PendingRequest)>) -> Seq<(Seq<u8>, PendingRecord)> {
    list.map_values(|row: (Vec<u8>, PendingRequest)| (row.0@, row.1@))
}

/// What one tick of the engine has to work on.
pub struct WorkPlan {
    /// The domains to validate again, in sweep order.
    pub sweep: Vec<Vec<u8>>,
    /// The command that removes the expired requests.
    pub expiry: Call,
    /// The pending requests to verify, each with its key.
    pub due: Vec<(Vec<u8>, PendingRequest)>,
}

/// A command that changes the replicated state.
#[derive(Debug)]
pub enum Call {
    SubmitVerifiedDomain { account_id: Vec<u8>, pending_request: PendingRequest },
    RegisterAssetForDomain { domain: Vec<u8>, asset_hash: Vec<u8> },
    CleanupRevokedDomains { domains: Vec<Vec<u8>> },
    RemoveExpiredPendingRequests { current_time: u64 },
}

/// The terms on which a command is admitted without a signature.
#[derive(Debug)]
pub struct ValidTransaction {
    /// What tags of this command start with.
    pub tag_prefix: &'static str,
    /// The tags that the command provides, each to be read after the
    /// prefix. A command that provides a tag which another command of the
    /// same block has provided is a duplicate.
    pub provides: Vec<Vec<u8>>,
    pub priority: u64,
    /// For how many blocks the command stays valid.
    pub longevity: u64,
    pub propagate: bool,
}

/// Why a command is not admitted without a signature.
#[derive(Clone, Copy, Debug, PartialEq, Eq, Structural)]
pub enum InvalidTransaction {
    /// The command is not one that the engine issues.
    Call,
}

/// The highest priority a command can have.
pub const PRIORITY_MAX: u64 = 0xffff_ffff_ffff_ffff;

/// A copy of a pending request.
fn copy_request(request: &PendingRequest) -> (r: PendingRequest)
    ensures
        r@ == request@,
{
    PendingRequest {
        requester: copy_bytes(request.requester.as_slice()),
        domain: copy_bytes(request.domain.as_slice()),
        asset_hash: copy_bytes(request.asset_hash.as_slice()),
        timestamp: request.timestamp,
    }
}

impl Pallet {
    /// Removes `domain` from the provider index.
    fn retract_domain(&mut self, domain: &[u8])
        requires
            old(self).wf(),
        ensures
            final(self).wf(),
            final(self).providers@ == retracted_providers(
                old(self).providers@,
                old(self).assets@,
                domain@,
            ),
            final(self).assets@ == old(self).assets@.remove(domain@),
            final(self).pending == old(self).pending,
            final(self).cursor == old(self).cursor,
    {
        let asset_list = match self.assets.remove(domain) {
            Some(list) => list,
            None => {
                return ;
            },
        };
        let ghost names = asset_list@;
        let ghost start = self.providers@;
        let ghost d = domain@;
        let mut i: usize = 0;
        assert(self.providers@ =~= pruned_in(start, names.take(0), d));
        while i < asset_list.assets.len()
            invariant
                i <= asset_list.assets@.len(),
                names == asset_list@,
                d == domain@,
                self.providers.wf(),
                self.providers@ == pruned_in(start, names.take(i as int), d),
                self.assets.wf(),
                self.pending == old(self).pending,
                self.cursor == old(self).cursor,
                self.assets@ == old(self).assets@.remove(d),
            decreases asset_list.assets@.len() - i,
        {
            let asset = asset_list.assets[i].as_slice();
            let ghost a = asset@;
            let ghost done = names.take(i as int);
            let ghost next = names.take(i + 1);
            assert(a == names[i as int]);
            assert(forall|x: Seq<u8>| next.contains(x) <==> done.contains(x) || x == a) by {
                assert forall|x: Seq<u8>| next.contains(x) <==> done.contains(x) || x == a by {
                    if next.contains(x) {
                        let j = choose|j: int| 0 <= j < next.len() && next[j] == x;
                        if j < i {
                            assert(done[j] == x);
                        }
                    }
                    if done.contains(x) {
                        let j = choose|j: int| 0 <= j < done.len() && done[j] == x;
                        assert(next[j] == x);
                    }
                    if x == a {
                        assert(next[i as int] == x);
                    }
                }
            }
            match self.providers.get(asset) {
                None => {
                    assert(self.providers@ =~= pruned_in(start, next, d));
                },
                Some(list) => {
                    let providers = prune_list(&list.providers, domain);
                    proof {
                        lemma_pruned(start[a], d);
                    }
                    self.providers.insert(copy_bytes(asset), ProviderList { providers });
                    assert(self.providers@ =~= pruned_in(start, next, d));
                },
            }
            i += 1;
        }
        assert(names.take(asset_list.assets@.len() as int) =~= names);
    }

    /// Retracts the domains of `domains` from the provider index.
    ///
    /// A retracted domain leaves the provider list of every asset in its
    /// asset list, the order of the other providers being kept, and its
    /// asset list is deleted. A domain without an asset list, or an asset
    /// without a provider list, is passed over. One event is reported for
    /// each domain.
    pub fn cleanup_revoked_domains(&mut self, domains: Vec<Vec<u8>>) -> (events: Vec<Event>)
        requires
            old(self).wf(),
        ensures
            final(self).wf(),
            (final(self).providers@, final(self).assets@) == retracted_all(
                old(self).providers@,
                old(self).assets@,
                list_view(domains@),
            ),
            final(self).pending == old(self).pending,
            final(self).cursor == old(self).cursor,
            old(self).consistent() ==> final(self).consistent(),
            events@.len() == domains@.len(),
            forall|i: int|
                0 <= i < events@.len() ==> (#[trigger] events@[i] matches Event::AssetProviderRevoked(
                    d,
                ) && d@ == domains@[i]@),
    {
        let ghost names = list_view(domains@);
        let mut events: Vec<Event> = Vec::new();
        let mut i: usize = 0;
        assert(names.take(0) =~= Seq::<Seq<u8>>::empty());
        while i < domains.len()
            invariant
                i <= domains@.len(),
                names == list_view(domains@),
                self.wf(),
                (self.providers@, self.assets@) == retracted_all(
                    old(self).providers@,
                    old(self).assets@,
                    names.take(i as int),
                ),
                self.pending == old(self).pending,
                self.cursor == old(self).cursor,
                events@.len() == i,
                forall|j: int|
                    0 <= j < i ==> (#[trigger] events@[j] matches Event::AssetProviderRevoked(d)
                        && d@ == domains@[j]@),
            decreases domains@.len() - i,
        {
            proof {
                assert(names.take(i + 1).drop_last() =~= names.take(i as int));
                assert(names.take(i + 1).last() == domains@[i as int]@);
            }
            self.retract_domain(domains[i].as_slice());
            events.push(Event::AssetProviderRevoked(copy_bytes(domains[i].as_slice())));
            i += 1;
        }
        proof {
            assert(names.take(domains@.len() as int) =~= names);
            if old(self).consistent() {
                lemma_retract_all_consistent(old(self).providers@, old(self).assets@, names);
            }
        }
        events
    }

    /// Removes the pending requests whose deadline has been reached at
    /// `current_time`, and reports once that it did so.
    pub fn remove_expired_pending_requests(&mut self, current_time: u64) -> (event: Event)
        requires
            old(self).wf(),
        ensures
            final(self).wf(),
            final(self).pending@ == unexpired(old(self).pending@, current_time),
            old(self).consistent() ==> final(self).consistent(),
            final(self).providers == old(self).providers,
            final(self).assets == old(self).assets,
            final(self).cursor == old(self).cursor,
            event is ExpiredRequestsRemoved,
    {
        let ghost keys = self.pending.keys();
        let ghost values = self.pending.values();
        let ghost start = self.pending@;
        proof {
            self.pending.lemma_rows();
        }
        let mut expired: Vec<Vec<u8>> = Vec::new();
        let n = self.pending.len();
        let mut i: usize = 0;
        while i < n
            invariant
                i <= n,
                n == keys.len(),
                keys == self.pending.keys(),
                values == self.pending.values(),
                keys.len() == values.len(),
                forall|k: Seq<u8>|
                    list_view(expired@).contains(k) <==> exists|j: int|
                        0 <= j < i && keys[j] == k && current_time >= (#[trigger] values[j]).timestamp,
            decreases n - i,
        {
            if current_time >= self.pending.value_at(i).timestamp {
                let ghost before = list_view(expired@);
                expired.push(copy_bytes(self.pending.key_at(i).as_slice()));
                proof {
                    let after = list_view(expired@);
                    assert(after =~= before.push(keys[i as int]));
                    assert forall|k: Seq<u8>| after.contains(k) <==> exists|j: int|
                        0 <= j < i + 1 && keys[j] == k && current_time >= (
                        #[trigger] values[j]).timestamp by {
                        if after.contains(k) {
                            let x = choose|x: int| 0 <= x < after.len() && after[x] == k;
                            if x < before.len() {
                                assert(before[x] == k);
                                assert(before.contains(k));
                            } else {
                                assert(current_time >= values[i as int].timestamp);
                            }
                        }
                        if exists|j: int|
                            0 <= j < i + 1 && keys[j] == k && current_time >= (
                            #[trigger] values[j]).timestamp {
                            let j = choose|j: int|
                                0 <= j < i + 1 && keys[j] == k && current_time >= (
                                #[trigger] values[j]).timestamp;
                            if j < i {
                                assert(before.contains(k));
                                let x = choose|x: int| 0 <= x < before.len() && before[x] == k;
                                assert(after[x] == k);
                            } else {
                                assert(after[before.len() as int] == k);
                            }
                        }
                    }
                }
            }
            i += 1;
        }
        let ghost gone = list_view(expired@);
        let mut j: usize = 0;
        while j < expired.len()
            invariant
                j <= expired@.len(),
                gone == list_view(expired@),
                self.pending.wf(),
                self.providers == old(self).providers,
                self.assets == old(self).assets,
                self.cursor == old(self).cursor,
                self.pending@ == start.remove_keys(gone.take(j as int).to_set()),
            decreases expired@.len() - j,
        {
            self.pending.remove(expired[j].as_slice());
            proof {
                let k = gone[j as int];
                assert(gone.take(j + 1) =~= gone.take(j as int).push(k));
                assert(gone.take(j + 1).to_set() =~= gone.take(j as int).to_set().insert(k)) by {
                    vstd::seq_lib::seq_to_set_is_finite(gone.take(j as int));
                    gone.take(j as int).lemma_push_to_set_commute(k);
                }
                assert(self.pending@ =~= start.remove_keys(gone.take(j + 1).to_set()));
            }
            j += 1;
        }
        proof {
            assert(gone.take(expired@.len() as int) =~= gone);
            assert forall|k: Seq<u8>| start.contains_key(k) implies (gone.contains(k) <==> current_time
                >= start[k].timestamp) by {
                let x = choose|x: int| 0 <= x < keys.len() && keys[x] == k;
                assert(start[keys[x]] == values[x]);
                if gone.contains(k) {
                    let y = choose|y: int|
                        0 <= y < n && keys[y] == k && current_time >= (
                        #[trigger] values[y]).timestamp;
                    crate::storage::lemma_ascending_distinct(keys, x, y);
                }
            }
            assert(self.pending@ =~= unexpired(start, current_time));
        }
        Event::ExpiredRequestsRemoved
    }

    /// The pending requests that are still worth verifying at
    /// `current_time`, in iteration order, `batch_size` of them at most.
    ///
    /// A request is worth verifying as long as `current_time` is not past
    /// its deadline.
    pub fn fetch_pending_requests(&self, batch_size: usize, current_time: u64) -> (r: Vec<
        (Vec<u8>, PendingRequest),
    >)
        requires
            self.wf(),
        ensures
            rows_view(r@) == first_n(
                rows(self.pending.keys(), self.pending.values()).filter(is_due(current_time)),
                batch_size as nat,
            ),
    {
        let ghost all = rows(self.pending.keys(), self.pending.values());
        let ghost due = is_due(current_time);
        let mut out: Vec<(Vec<u8>, PendingRequest)> = Vec::new();
        let n = self.pending.len();
        let mut i: usize = 0;
        proof {
            lemma_filter_empty(all.take(0), due);
        }
        while i < n && out.len() < batch_size
            invariant
                i <= n,
                n == all.len(),
                self.wf(),
                all == rows(self.pending.keys(), self.pending.values()),
                due == is_due(current_time),
                out@.len() <= batch_size,
                rows_view(out@) == all.take(i as int).filter(due),
            decreases n - i,
        {
            proof {
                lemma_filter_step(all, due, i as int);
            }
            let request = self.pending.value_at(i);
            if current_time <= request.timestamp {
                let ghost before = out@;
                let key = copy_bytes(self.pending.key_at(i).as_slice());
                out.push((key, copy_request(request)));
                assert(rows_view(out@) =~= rows_view(before).push(all[i as int]));
            }
            i += 1;
        }
        proof {
            lemma_first_found(all, due, i as int, batch_size as nat);
        }
        out
    }

    /// The keys of the provider index that come after `cursor`, in order,
    /// `batch_size` of them at most. An empty cursor stands for the start.
    fn keys_after(&self, cursor: &[u8], batch_size: usize) -> (r: Vec<Vec<u8>>)
        requires
            self.wf(),
        ensures
            list_view(r@) == first_n(after_cursor(self.assets.keys(), cursor@), batch_size as nat),
    {
        let ghost keys = self.assets.keys();
        let ghost later = later_than(cursor@);
        let from_start = cursor.len() == 0;
        let mut out: Vec<Vec<u8>> = Vec::new();
        let n = self.assets.len();
        let mut i: usize = 0;
        proof {
            lemma_filter_empty(keys.take(0), later);
            assert(keys.take(0) =~= Seq::<Seq<u8>>::empty());
        }
        while i < n && out.len() < batch_size
            invariant
                i <= n,
                n == keys.len(),
                keys == self.assets.keys(),
                later == later_than(cursor@),
                from_start == (cursor@.len() == 0),
                out@.len() <= batch_size,
                !from_start ==> list_view(out@) == keys.take(i as int).filter(later),
                from_start ==> list_view(out@) == keys.take(i as int),
            decreases n - i,
        {
            proof {
                lemma_filter_step(keys, later, i as int);
            }
            let key = self.assets.key_at(i);
            let after = from_start || match crate::bytes::byte_order(cursor, key.as_slice()) {
                crate::bytes::Order::Less => true,
                _ => false,
            };
            proof {
                crate::bytes::lemma_lex_irreflexive(key@);
                assert(later(key@) == crate::bytes::lex_lt(cursor@, key@));
                assert(keys[i as int] == key@);
            }
            if after {
                let ghost before = out@;
                out.push(copy_bytes(key.as_slice()));
                assert(list_view(out@) =~= list_view(before).push(keys[i as int]));
                assert(keys.take(i + 1) =~= keys.take(i as int).push(keys[i as int]));
            }
            i += 1;
        }
        proof {
            if from_start {
                if i == n {
                    assert(keys.take(i as int) =~= keys);
                }
            } else {
                lemma_first_found(keys, later, i as int, batch_size as nat);
            }
        }
        out
    }

    /// The next domains for the revocation sweep, `batch_size` of them at
    /// most, in key order.
    ///
    /// The sweep resumes after the cursor. Where no domain is left after
    /// the cursor, it starts over from the first domain, so that every
    /// domain is looked at again and again. The cursor moves to the last
    /// domain handed out; it stays where nothing is handed out.
    pub fn get_domain_batch(&mut self, batch_size: usize) -> (r: Vec<Vec<u8>>)
        requires
            old(self).wf(),
        ensures
            final(self).wf(),
            list_view(r@) == first_n(
                sweep_order(old(self).assets.keys(), old(self).cursor@),
                batch_size as nat,
            ),
            final(self).cursor@ == if r@.len() > 0 {
                r@.last()@
            } else {
                old(self).cursor@
            },
            old(self).consistent() ==> final(self).consistent(),
            final(self).providers == old(self).providers,
            final(self).assets == old(self).assets,
            final(self).pending == old(self).pending,
    {
        let ghost keys = self.assets.keys();
        let ghost left = after_cursor(keys, self.cursor@);
        let found = self.keys_after(self.cursor.as_slice(), batch_size);
        let out = if found.len() == 0 && self.cursor.len() > 0 {
            let start: Vec<u8> = Vec::new();
            let again = self.keys_after(start.as_slice(), batch_size);
            proof {
                assert(list_view(found@).len() == 0);
                if batch_size > 0 {
                    assert(left.len() == 0);
                } else {
                    assert(list_view(again@) =~= first_n(sweep_order(keys, self.cursor@), 0));
                }
            }
            again
        } else {
            found
        };
        if out.len() > 0 {
            self.cursor = copy_bytes(out[out.len() - 1].as_slice());
        }
        out
    }

    /// The command that commits a verified binding. `account_id` is the key
    /// under which the request is pending.
    pub fn submit_domain_verification(account_id: Vec<u8>, pending_request: PendingRequest) -> (r:
        Call)
        ensures
            r == (Call::SubmitVerifiedDomain { account_id, pending_request }),
    {
        Call::SubmitVerifiedDomain { account_id, pending_request }
    }

    /// The command that removes the requests that have expired at
    /// `current_time`.
    pub fn cleanup_expired_requests(current_time: u64) -> (r: Call)
        ensures
            r == (Call::RemoveExpiredPendingRequests { current_time }),
    {
        Call::RemoveExpiredPendingRequests { current_time }
    }
}

} // verus!
