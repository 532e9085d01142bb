//! Laws that hold of the commands taken together.

use vstd::prelude::*;
use crate::admission::{commit_tag, encodable};
use crate::assetdiscovery::{
    after_cursor,
    first_n,
    is_due,
    later_than,
    request_key,
    rows,
    sweep_order,
    unexpired,
    PendingRecord,
};
use crate::bytes::{lemma_lex_asymmetric, lemma_lex_irreflexive, lemma_lex_transitive, lex_lt};
use crate::encoding::{lemma_scale_round_trip, scale_encoded};
use crate::seqs::lemma_filter_members;
use crate::storage::ascending;

verus! {

/// A binding that is requested twice is committed at most once.
///
/// Requesting the same binding again replaces the pending request and adds
/// no key, so one entry is pending under the key of the binding. The commit that carries
/// this key is accepted and removes the entry; a second commit of the same
/// binding finds no pending request and is refused. The law speaks of
/// commits that carry the key of the binding, as those of the engine do.
pub proof fn law_duplicate_request_commits_once(
    pending: Map<Seq<u8>, PendingRecord>,
    first: PendingRecord,
    second: PendingRecord,
)
    requires
        first.asset_hash == second.asset_hash,
        first.domain == second.domain,
    ensures
        ({
            let key = request_key(first.asset_hash, first.domain);
            let requested = pending.insert(key, first).insert(key, second);
            let committed = requested.remove(key);
            &&& requested.contains_key(key)
            &&& requested[key] == second
            &&& requested.dom() == pending.insert(key, first).dom()
            &&& requested.remove(key) == pending.remove(key)
            &&& !committed.contains_key(key)
        }),
{
    let key = request_key(first.asset_hash, first.domain);
    assert(pending.insert(key, first).insert(key, second).remove(key) =~= pending.remove(key));
    assert(pending.insert(key, first).insert(key, second).dom() =~= pending.insert(
        key,
        first,
    ).dom());
}

/// A request is not handed out for verification after its deadline.
///
/// Every request among those that are due at `now` has a deadline that
/// `now` has not passed. At the deadline itself a request is still handed
/// out.
pub proof fn law_due_requests_not_past_deadline(
    keys: Seq<Seq<u8>>,
    values: Seq<PendingRecord>,
    now: u64,
    batch_size: nat,
    row: (Seq<u8>, PendingRecord),
)
    requires
        first_n(rows(keys, values).filter(is_due(now)), batch_size).contains(row),
    ensures
        now <= row.1.timestamp,
{
    let due = rows(keys, values).filter(is_due(now));
    let batch = first_n(due, batch_size);
    let i = choose|i: int| 0 <= i < batch.len() && batch[i] == row;
    assert(due[i] == row);
    assert(due.contains(row));
    lemma_filter_members(rows(keys, values), is_due(now));
}

/// A request whose deadline has been reached does not survive the removal
/// of expired requests, and every other request does.
pub proof fn law_expired_requests_removed(
    pending: Map<Seq<u8>, PendingRecord>,
    now: u64,
    key: Seq<u8>,
)
    requires
        pending.contains_key(key),
    ensures
        now >= pending[key].timestamp ==> !unexpired(pending, now).contains_key(key),
        now < pending[key].timestamp ==> unexpired(pending, now).contains_key(key) && unexpired(
            pending,
            now,
        )[key] == pending[key],
{
}

/// Where a test is false up to index `from` and true from there on, the
/// filter keeps exactly what stands from `from` on.
proof fn lemma_filter_suffix(
    keys: Seq<Seq<u8>>,
    test: spec_fn(Seq<u8>) -> bool,
    from: int,
)
    requires
        0 <= from <= keys.len(),
        forall|i: int| 0 <= i < from ==> !test(#[trigger] keys[i]),
        forall|i: int| from <= i < keys.len() ==> test(#[trigger] keys[i]),
    ensures
        keys.filter(test) == keys.skip(from),
    decreases keys.len(),
{
    reveal(Seq::filter);
    if keys.len() == 0 {
        assert(keys.filter(test) =~= keys.skip(from));
    } else {
        let rest = keys.drop_last();
        assert forall|i: int| 0 <= i < rest.len() && i < from implies !test(
            #[trigger] rest[i],
        ) by {
            assert(rest[i] == keys[i]);
        }
        assert forall|i: int| from <= i < rest.len() implies test(#[trigger] rest[i]) by {
            assert(rest[i] == keys[i]);
        }
        if from == keys.len() {
            lemma_filter_suffix(rest, test, from - 1);
            assert(rest.skip(from - 1) =~= Seq::<Seq<u8>>::empty());
            assert(keys.filter(test) =~= keys.skip(from));
        } else {
            lemma_filter_suffix(rest, test, from);
            assert(rest.skip(from).push(keys.last()) =~= keys.skip(from));
        }
    }
}

/// In ascending keys, those after a cursor are what stands from some index
/// on.
proof fn lemma_after_cursor_suffix(keys: Seq<Seq<u8>>, cursor: Seq<u8>) -> (from: int)
    requires
        ascending(keys),
    ensures
        0 <= from <= keys.len(),
        keys.filter(later_than(cursor)) == keys.skip(from),
        forall|i: int| 0 <= i < from ==> !lex_lt(cursor, #[trigger] keys[i]),
        forall|i: int| from <= i < keys.len() ==> lex_lt(cursor, #[trigger] keys[i]),
    decreases keys.len(),
{
    let test = later_than(cursor);
    let from = if keys.len() == 0 {
        0
    } else if lex_lt(cursor, keys[0]) {
        0
    } else {
        let tail = keys.skip(1);
        assert forall|i: int, j: int| 0 <= i < j < tail.len() implies lex_lt(
            #[trigger] tail[i],
            #[trigger] tail[j],
        ) by {
            assert(lex_lt(keys[i + 1], keys[j + 1]));
        }
        let inner = lemma_after_cursor_suffix(tail, cursor);
        assert forall|i: int| 0 <= i < inner + 1 implies !lex_lt(cursor, #[trigger] keys[i]) by {
            if i > 0 {
                assert(keys[i] == tail[i - 1]);
            }
        }
        assert forall|i: int| inner + 1 <= i < keys.len() implies lex_lt(
            cursor,
            #[trigger] keys[i],
        ) by {
            assert(keys[i] == tail[i - 1]);
        }
        inner + 1
    };
    if keys.len() > 0 && lex_lt(cursor, keys[0]) {
        assert forall|i: int| 0 <= i < keys.len() implies lex_lt(cursor, #[trigger] keys[i]) by {
            if i > 0 {
                assert(lex_lt(keys[0], keys[i]));
                lemma_lex_transitive(cursor, keys[0], keys[i]);
            }
        }
    }
    assert forall|i: int| 0 <= i < from implies !test(#[trigger] keys[i]) by {}
    assert forall|i: int| from <= i < keys.len() implies test(#[trigger] keys[i]) by {}
    lemma_filter_suffix(keys, test, from);
    from
}

/// What a batch hands out and what is left after it make up what was left
/// before it.
proof fn lemma_batch_then_rest(keys: Seq<Seq<u8>>, cursor: Seq<u8>, batch_size: nat)
    requires
        ascending(keys),
        forall|i: int| 0 <= i < keys.len() ==> (#[trigger] keys[i]).len() > 0,
        first_n(after_cursor(keys, cursor), batch_size).len() > 0,
    ensures
        ({
            let batch = first_n(after_cursor(keys, cursor), batch_size);
            batch + after_cursor(keys, batch.last()) == after_cursor(keys, cursor)
        }),
{
    let left = after_cursor(keys, cursor);
    let batch = first_n(left, batch_size);
    let start = if cursor.len() == 0 {
        assert(keys.skip(0) =~= keys);
        0
    } else {
        lemma_after_cursor_suffix(keys, cursor)
    };
    assert(left == keys.skip(start));
    let last = batch.last();
    let end = start + batch.len();
    assert(last == keys[end - 1]);
    assert(last.len() > 0);
    let from = lemma_after_cursor_suffix(keys, last);
    assert(from == end) by {
        lemma_lex_irreflexive(last);
        if from < end {
            assert(lex_lt(last, keys[from]));
            if from < end - 1 {
                assert(lex_lt(keys[from], keys[end - 1]));
                lemma_lex_asymmetric(keys[from], last);
            }
        }
        if from > end {
            assert(!lex_lt(last, keys[end]));
            assert(lex_lt(keys[end - 1], keys[end]));
        }
    }
    assert(batch + keys.skip(end) =~= keys.skip(start));
}

/// A round of the sweep covers each domain once, in order.
///
/// What a batch hands out, followed by what is left after the new cursor,
/// is what the sweep had to work through: no domain is passed over and none
/// is handed out twice within a round. The law speaks of an index without
/// the empty name, which as a cursor stands for the start, and of a batch
/// that hands out at least one domain.
pub proof fn law_sweep_covers_index_once(keys: Seq<Seq<u8>>, cursor: Seq<u8>, batch_size: nat)
    requires
        ascending(keys),
        forall|i: int| 0 <= i < keys.len() ==> (#[trigger] keys[i]).len() > 0,
        first_n(sweep_order(keys, cursor), batch_size).len() > 0,
    ensures
        ({
            let batch = first_n(sweep_order(keys, cursor), batch_size);
            batch + after_cursor(keys, batch.last()) == sweep_order(keys, cursor)
        }),
{
    if after_cursor(keys, cursor).len() == 0 {
        lemma_batch_then_rest(keys, Seq::empty(), batch_size);
    } else {
        lemma_batch_then_rest(keys, cursor, batch_size);
    }
}

/// After the last domain the sweep starts over.
///
/// With the cursor on the last domain of the index, nothing is left after
/// it, and the next batch is the first batch again.
pub proof fn law_sweep_starts_over(keys: Seq<Seq<u8>>, batch_size: nat)
    requires
        ascending(keys),
        keys.len() > 0,
    ensures
        sweep_order(keys, keys.last()) == keys,
        first_n(sweep_order(keys, keys.last()), batch_size) == first_n(
            sweep_order(keys, Seq::empty()),
            batch_size,
        ),
{
    let last = keys.last();
    if last.len() > 0 {
        let from = lemma_after_cursor_suffix(keys, last);
        lemma_lex_irreflexive(last);
        assert(from == keys.len()) by {
            if from < keys.len() {
                assert(lex_lt(last, keys[keys.len() - 1]));
            }
        }
        assert(keys.skip(from).len() == 0);
    }
}

/// Commits of different bindings carry different tags.
///
/// The tag of a commit tells its domain and its asset: two commits with the
/// same tag are commits of the same binding, so that only a repetition of a
/// commit counts as its duplicate.
pub proof fn law_commit_tags_tell_bindings_apart(
    domain: Seq<u8>,
    asset_hash: Seq<u8>,
    other_domain: Seq<u8>,
    other_asset_hash: Seq<u8>,
)
    requires
        encodable(domain),
        encodable(asset_hash),
        encodable(other_domain),
        encodable(other_asset_hash),
        commit_tag(domain, asset_hash) == commit_tag(other_domain, other_asset_hash),
    ensures
        domain == other_domain,
        asset_hash == other_asset_hash,
{
    lemma_scale_round_trip(domain, scale_encoded(asset_hash));
    lemma_scale_round_trip(other_domain, scale_encoded(other_asset_hash));
    let nothing = Seq::<u8>::empty();
    lemma_scale_round_trip(asset_hash, nothing);
    lemma_scale_round_trip(other_asset_hash, nothing);
    assert(scale_encoded(asset_hash) + nothing =~= scale_encoded(asset_hash));
    assert(scale_encoded(other_asset_hash) + nothing =~= scale_encoded(other_asset_hash));
}

} // verus!
