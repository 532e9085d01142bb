//! Facts about sequences that loops over vectors rely on.

use vstd::prelude::*;

verus! {

/// Filtering one more item either appends it or changes nothing.
pub proof fn lemma_filter_step<A>(s: Seq<A>, pred: spec_fn(A) -> bool, i: int)
    requires
        0 <= i < s.len(),
    ensures
        s.take(i + 1).filter(pred) == if pred(s[i]) {
            s.take(i).filter(pred).push(s[i])
        } else {
            s.take(i).filter(pred)
        },
{
    reveal(Seq::filter);
    assert(s.take(i + 1).drop_last() =~= s.take(i));
    assert(s.take(i + 1).last() == s[i]);
}

/// Filtering nothing gives nothing.
pub proof fn lemma_filter_empty<A>(s: Seq<A>, pred: spec_fn(A) -> bool)
    requires
        s.len() == 0,
    ensures
        s.filter(pred) == Seq::<A>::empty(),
{
    reveal(Seq::filter);
    assert(s =~= Seq::<A>::empty());
}

/// What a filter keeps: the items of the sequence that meet the predicate.
pub proof fn lemma_filter_members<A>(s: Seq<A>, pred: spec_fn(A) -> bool)
    ensures
        forall|x: A| #[trigger] s.filter(pred).contains(x) <==> s.contains(x) && pred(x),
        s.no_duplicates() ==> s.filter(pred).no_duplicates(),
    decreases s.len(),
{
    reveal(Seq::filter);
    if s.len() == 0 {
        assert forall|x: A| #[trigger] s.filter(pred).contains(x) <==> s.contains(x) && pred(
            x,
        ) by {}
    } else {
        let rest = s.drop_last();
        let last = s.last();
        lemma_filter_members(rest, pred);
        let f = s.filter(pred);
        let fr = rest.filter(pred);
        assert forall|x: A| #[trigger] f.contains(x) <==> s.contains(x) && pred(x) by {
            if f.contains(x) {
                let i = choose|i: int| 0 <= i < f.len() && f[i] == x;
                if pred(last) && i == fr.len() {
                    assert(s[s.len() - 1] == x);
                } else {
                    assert(fr[i] == x);
                    assert(fr.contains(x));
                    let j = choose|j: int| 0 <= j < rest.len() && rest[j] == x;
                    assert(s[j] == x);
                }
            }
            if s.contains(x) && pred(x) {
                let j = choose|j: int| 0 <= j < s.len() && s[j] == x;
                if j == s.len() - 1 {
                    assert(f[fr.len() as int] == x);
                } else {
                    assert(rest[j] == x);
                    assert(rest.contains(x));
                    assert(fr.contains(x));
                    let i = choose|i: int| 0 <= i < fr.len() && fr[i] == x;
                    assert(f[i] == x);
                }
            }
        }
        if s.no_duplicates() {
            assert(rest.no_duplicates());
            if pred(last) {
                assert(!fr.contains(last)) by {
                    if fr.contains(last) {
                        assert(rest.contains(last));
                        let j = choose|j: int| 0 <= j < rest.len() && rest[j] == last;
                        assert(s[j] == s[s.len() - 1]);
                    }
                }
                assert forall|i: int, j: int|
                    0 <= i < f.len() && 0 <= j < f.len() && i != j implies f[i] != f[j] by {
                    if i == fr.len() {
                        assert(fr.contains(fr[j]));
                    } else if j == fr.len() {
                        assert(fr.contains(fr[i]));
                    }
                }
            }
        }
    }
}

} // verus!
