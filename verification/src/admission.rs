//! The admission of commands that carry no signature.
//!
//! The engine issues three kinds of command. Each is admitted with the
//! highest priority, for one block, under a tag that tells it from every
//! other command of its kind: a second command with the same tag in the same
//! block is a duplicate. Anything else is refused.

use vstd::prelude::*;
use crate::assetdiscovery::{Call, InvalidTransaction, Pallet, ValidTransaction, PRIORITY_MAX};
use crate::bytes::{append_bytes, list_view};
use crate::encoding::{le_bytes, scale_encode, scale_encoded};

verus! {

/// Whether a byte string is short enough for the ledger's encoding.
pub open spec fn encodable(bytes: Seq<u8>) -> bool {
    bytes.len() <= u32::MAX
}

/// The encodings of the byte strings of `names`, one after the other.
pub open spec fn encoded_names(names: Seq<Seq<u8>>) -> Seq<u8>
    decreases names.len(),
{
    if names.len() == 0 {
        Seq::empty()
    } else {
        encoded_names(names.drop_last()) + scale_encoded(names.last())
    }
}

/// The tag of a commit: the encoding of the domain, then that of the asset.
pub open spec fn commit_tag(domain: Seq<u8>, asset_hash: Seq<u8>) -> Seq<u8> {
    scale_encoded(domain) + scale_encoded(asset_hash)
}

/// The tag prefix and the tag under which a command is admitted; `None` for
/// a command that is refused.
///
/// A commit is tagged with its domain and asset, the removal of expired
/// requests with its tick in eight little-endian bytes, a retraction with
/// its domains. A command that the engine does not issue is refused, and so
/// is one that holds a byte string too long to encode.
pub open spec fn admitted(call: Call) -> Option<(&'static str, Seq<u8>)> {
    match call {
        Call::SubmitVerifiedDomain { account_id, pending_request } => if encodable(
            pending_request.domain@,
        ) && encodable(pending_request.asset_hash@) {
            Some(("offchain_worker", commit_tag(pending_request.domain@, pending_request.asset_hash@)))
        } else {
            None
        },
        Call::RemoveExpiredPendingRequests { current_time } => Some(
            ("offchain_worker_expired_requests", le_bytes(current_time as nat, 8)),
        ),
        Call::CleanupRevokedDomains { domains } => if forall|i: int|
            0 <= i < domains@.len() ==> encodable(#[trigger] list_view(domains@)[i]) {
            Some(("offchain_worker_cleanup_revoked", encoded_names(list_view(domains@))))
        } else {
            None
        },
        Call::RegisterAssetForDomain { .. } => None,
    }
}

/// The eight little-endian bytes of a tick.
fn tick_bytes(tick: u64) -> (r: Vec<u8>)
    ensures
        r@ == le_bytes(tick as nat, 8),
{
    let mut out: Vec<u8> = Vec::new();
    let mut rest: u64 = tick;
    let mut i: usize = 0;
    assert(out@ + le_bytes(rest as nat, 8) =~= le_bytes(tick as nat, 8));
    while i < 8
        invariant
            i <= 8,
            out@ + le_bytes(rest as nat, (8 - i) as nat) == le_bytes(tick as nat, 8),
        decreases 8 - i,
    {
        let ghost before = out@;
        let ghost tail = le_bytes((rest / 256) as nat, (8 - i - 1) as nat);
        assert(le_bytes(rest as nat, (8 - i) as nat) == seq![(rest % 256) as u8] + tail);
        out.push((rest % 256) as u8);
        assert(out@ + tail =~= before + (seq![(rest % 256) as u8] + tail));
        rest = rest / 256;
        i += 1;
    }
    assert(le_bytes(rest as nat, 0) =~= Seq::<u8>::empty());
    assert(out@ + Seq::<u8>::empty() =~= out@);
    out
}

/// The encodings of `names`, one after the other; `None` where one of them
/// is too long to encode.
fn names_tag(names: &Vec<Vec<u8>>) -> (r: Option<Vec<u8>>)
    ensures
        match r {
            Some(tag) => tag@ == encoded_names(list_view(names@)) && forall|i: int|
                0 <= i < names@.len() ==> encodable(#[trigger] list_view(names@)[i]),
            None => exists|i: int|
                0 <= i < names@.len() && !encodable(#[trigger] list_view(names@)[i]),
        },
{
    let ghost all = list_view(names@);
    let mut out: Vec<u8> = Vec::new();
    let mut i: usize = 0;
    assert(all.take(0) =~= Seq::<Seq<u8>>::empty());
    while i < names.len()
        invariant
            i <= names@.len(),
            all == list_view(names@),
            out@ == encoded_names(all.take(i as int)),
            forall|j: int| 0 <= j < i ==> encodable(#[trigger] all[j]),
        decreases names@.len() - i,
    {
        if names[i].len() > u32::MAX as usize {
            assert(!encodable(all[i as int]));
            return None;
        }
        let encoded = scale_encode(&names[i]);
        proof {
            assert(all.take(i + 1).drop_last() =~= all.take(i as int));
            assert(all.take(i + 1).last() == all[i as int]);
        }
        append_bytes(&mut out, encoded.as_slice());
        i += 1;
    }
    assert(all.take(names@.len() as int) =~= all);
    Some(out)
}

impl Pallet {
    /// Decides whether a command may be applied without a signature.
    ///
    /// Only the three commands that the engine issues are admitted, each
    /// with the highest priority, for one block, and with one tag that
    /// tells it from the other commands of its kind. Anything else is
    /// refused.
    pub fn validate_unsigned(call: &Call) -> (r: Result<ValidTransaction, InvalidTransaction>)
        ensures
            match admitted(*call) {
                Some((prefix, tag)) => r matches Ok(v) && v.tag_prefix == prefix && list_view(
                    v.provides@,
                ) == seq![tag] && v.priority == PRIORITY_MAX && v.longevity == 1 && v.propagate,
                None => r == Err::<ValidTransaction, InvalidTransaction>(InvalidTransaction::Call),
            },
    {
        let (tag_prefix, tag) = match call {
            Call::SubmitVerifiedDomain { account_id, pending_request } => {
                if pending_request.domain.len() > u32::MAX as usize
                    || pending_request.asset_hash.len() > u32::MAX as usize {
                    return Err(InvalidTransaction::Call);
                }
                let mut tag = scale_encode(&pending_request.domain);
                let asset = scale_encode(&pending_request.asset_hash);
                append_bytes(&mut tag, asset.as_slice());
                ("offchain_worker", tag)
            },
            Call::RemoveExpiredPendingRequests { current_time } => (
                "offchain_worker_expired_requests",
                tick_bytes(*current_time),
            ),
            Call::CleanupRevokedDomains { domains } => match names_tag(domains) {
                Some(tag) => ("offchain_worker_cleanup_revoked", tag),
                None => {
                    return Err(InvalidTransaction::Call);
                },
            },
            Call::RegisterAssetForDomain { .. } => {
                return Err(InvalidTransaction::Call);
            },
        };
        let ghost tag_view = tag@;
        let provides: Vec<Vec<u8>> = vec![tag];
        assert(list_view(provides@) =~= seq![tag_view]);
        Ok(
            ValidTransaction {
                tag_prefix,
                provides,
                priority: PRIORITY_MAX,
                longevity: 1,
                propagate: true,
            },
        )
    }
}

} // verus!
