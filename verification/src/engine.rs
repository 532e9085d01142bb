//! One tick of the reconciliation engine.
//!
//! A tick first reads the replicated state: the next domains of the
//! revocation sweep and the pending requests that are due. Whoever drives the
//! engine then resolves each of those domains, and the engine turns the
//! verdicts into commands. The engine never changes the provider index or
//! the pending requests itself; only the commands do.

use vstd::prelude::*;
use crate::assetdiscovery::{
    first_n,
    is_due,
    rows,
    rows_view,
    sweep_order,
    Call,
    Pallet,
    PendingRecord,
    PendingRequest,
    WorkPlan,
    DOMAIN_BATCH_SIZE,
    REQUEST_BATCH_SIZE,
};
use crate::bytes::list_view;
use crate::seqs::{lemma_filter_empty, lemma_filter_step};

verus! {

/// The view of a list of domains with their verdicts.
pub open spec fn verdicts_view(results: Seq<(Vec<u8>, bool)>) -> Seq<(Seq<u8>, bool)> {
    results.map_values(|r: (Vec<u8>, bool)| (r.0@, r.1))
}

/// The test that a domain passes when it did not validate.
pub open spec fn is_invalid() -> spec_fn((Seq<u8>, bool)) -> bool {
    |r: (Seq<u8>, bool)| !r.1
}

/// The domains that did not validate, in the order of `results`.
pub open spec fn invalid_domains(results: Seq<(Seq<u8>, bool)>) -> Seq<Seq<u8>> {
    results.filter(is_invalid()).map_values(|r: (Seq<u8>, bool)| r.0)
}

/// The view of a list of pending requests with their keys and verdicts.
pub open spec fn checked_view(results: Seq<((Vec<u8>, PendingRequest), bool)>) -> Seq<
    ((Seq<u8>, PendingRecord), bool),
> {
    results.map_values(|r: ((Vec<u8>, PendingRequest), bool)| ((r.0.0@, r.0.1@), r.1))
}

/// The test that a request passes when its domain validated.
pub open spec fn is_verified() -> spec_fn(((Seq<u8>, PendingRecord), bool)) -> bool {
    |r: ((Seq<u8>, PendingRecord), bool)| r.1
}

/// The requests whose domain validated, each with its key, in the order of
/// `results`.
pub open spec fn verified_requests(results: Seq<((Seq<u8>, PendingRecord), bool)>) -> Seq<
    (Seq<u8>, PendingRecord),
> {
    results.filter(is_verified()).map_values(|r: ((Seq<u8>, PendingRecord), bool)| r.0)
}

/// What a list of commit commands carries: for each command the key and the
/// request. A command of another kind carries nothing.
pub open spec fn committed(calls: Seq<Call>) -> Seq<Option<(Seq<u8>, PendingRecord)>> {
    calls.map_values(
        |c: Call|
            match c {
                Call::SubmitVerifiedDomain { account_id, pending_request } => Some(
                    (account_id@, pending_request@),
                ),
                _ => None,
            },
    )
}

impl Pallet {
    /// The reading half of a tick at `block_number`.
    ///
    /// Hands out the next batch of the revocation sweep, moving the cursor
    /// and starting over where no domain is left after it, the command that
    /// removes the requests expired at `block_number`, and the pending
    /// requests that are due.
    pub fn offchain_worker(&mut self, block_number: u64) -> (plan: WorkPlan)
        requires
            old(self).wf(),
        ensures
            final(self).wf(),
            list_view(plan.sweep@) == first_n(
                sweep_order(old(self).assets.keys(), old(self).cursor@),
                DOMAIN_BATCH_SIZE as nat,
            ),
            final(self).cursor@ == if plan.sweep@.len() > 0 {
                plan.sweep@.last()@
            } else {
                old(self).cursor@
            },
            final(self).providers == old(self).providers,
            final(self).assets == old(self).assets,
            final(self).pending == old(self).pending,
            plan.expiry == (Call::RemoveExpiredPendingRequests { current_time: block_number }),
            rows_view(plan.due@) == first_n(
                rows(old(self).pending.keys(), old(self).pending.values()).filter(
                    is_due(block_number),
                ),
                REQUEST_BATCH_SIZE as nat,
            ),
    {
        let sweep = self.get_domain_batch(DOMAIN_BATCH_SIZE);
        let expiry = Pallet::cleanup_expired_requests(block_number);
        let due = self.fetch_pending_requests(REQUEST_BATCH_SIZE, block_number);
        WorkPlan { sweep, expiry, due }
    }

    /// The command that retracts the domains of a sweep that did not
    /// validate; `None` where all of them did.
    pub fn remove_revoked_domains(results: Vec<(Vec<u8>, bool)>) -> (r: Option<Call>)
        ensures
            match r {
                Some(call) => call matches Call::CleanupRevokedDomains { domains } && list_view(
                    domains@,
                ) == invalid_domains(verdicts_view(results@)) && domains@.len() > 0,
                None => invalid_domains(verdicts_view(results@)).len() == 0,
            },
    {
        let ghost all = verdicts_view(results@);
        let ghost pick = |r: (Seq<u8>, bool)| r.0;
        let mut revoked: Vec<Vec<u8>> = Vec::new();
        let mut results = results;
        let ghost given = results@;
        let mut i: usize = 0;
        proof {
            lemma_filter_empty(all.take(0), is_invalid());
            assert(list_view(revoked@) =~= all.take(0).filter(is_invalid()).map_values(pick));
        }
        while i < results.len()
            invariant
                i <= results@.len(),
                results@.len() == given.len(),
                all == verdicts_view(given),
                pick == |r: (Seq<u8>, bool)| r.0,
                forall|j: int| i <= j < given.len() ==> results@[j] == given[j],
                list_view(revoked@) == all.take(i as int).filter(is_invalid()).map_values(pick),
            decreases results@.len() - i,
        {
            proof {
                lemma_filter_step(all, is_invalid(), i as int);
            }
            if !results[i].1 {
                let ghost before = revoked@;
                let ghost found = all.take(i as int).filter(is_invalid());
                let mut domain: Vec<u8> = Vec::new();
                core::mem::swap(&mut domain, &mut results[i].0);
                revoked.push(domain);
                assert(list_view(revoked@) =~= list_view(before).push(all[i as int].0));
                assert(found.push(all[i as int]).map_values(pick) =~= found.map_values(pick).push(
                    all[i as int].0,
                ));
            }
            i += 1;
        }
        assert(all.take(given.len() as int) =~= all);
        if revoked.len() == 0 {
            None
        } else {
            Some(Call::CleanupRevokedDomains { domains: revoked })
        }
    }

    /// The commands that commit the pending requests whose domain
    /// validated, one for each, in the order of `results`. Each command
    /// carries the key under which its request is pending.
    pub fn submit_verified_requests(results: Vec<((Vec<u8>, PendingRequest), bool)>) -> (calls: Vec<
        Call,
    >)
        ensures
            committed(calls@) == verified_requests(checked_view(results@)).map_values(
                |r: (Seq<u8>, PendingRecord)| Some(r),
            ),
    {
        let ghost all = checked_view(results@);
        let ghost pick = |r: ((Seq<u8>, PendingRecord), bool)| r.0;
        let ghost wrap = |r: (Seq<u8>, PendingRecord)| Some(r);
        let mut calls: Vec<Call> = Vec::new();
        let mut results = results;
        proof {
            lemma_filter_empty(all.take(0), is_verified());
            assert(committed(calls@) =~= all.take(0).filter(is_verified()).map_values(
                pick,
            ).map_values(wrap));
        }
        while results.len() > 0
            invariant
                results@.len() <= all.len(),
                checked_view(results@) == all.skip(all.len() - results@.len()),
                pick == |r: ((Seq<u8>, PendingRecord), bool)| r.0,
                wrap == |r: (Seq<u8>, PendingRecord)| Some(r),
                committed(calls@) == all.take(all.len() - results@.len()).filter(
                    is_verified(),
                ).map_values(pick).map_values(wrap),
            decreases results@.len(),
        {
            let ghost i = all.len() - results@.len();
            let ghost pending = checked_view(results@);
            proof {
                lemma_filter_step(all, is_verified(), i);
                assert(pending[0] == all[i]);
            }
            let ((key, request), valid) = results.remove(0);
            proof {
                assert(checked_view(results@) =~= pending.skip(1));
                assert(pending.skip(1) =~= all.skip(i + 1));
            }
            if valid {
                let ghost before = calls@;
                let ghost found = all.take(i).filter(is_verified());
                calls.push(Pallet::submit_domain_verification(key, request));
                assert(committed(calls@) =~= committed(before).push(Some(all[i].0)));
                assert(found.push(all[i]).map_values(pick).map_values(wrap) =~= found.map_values(
                    pick,
                ).map_values(wrap).push(Some(all[i].0)));
            }
        }
        assert(all.take(all.len() as int) =~= all);
        calls
    }
}

} // verus!
