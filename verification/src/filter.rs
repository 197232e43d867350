//! What a filter keeps of a sequence.

use vstd::prelude::*;

verus! {

/// `kept` holds the elements of `all` at the indices `at`, and `at` rises:
/// `kept` is `all` with some elements left out and the others in place.
pub open spec fn picks<A>(all: Seq<A>, at: Seq<int>, kept: Seq<A>) -> bool {
    &&& kept.len() == at.len()
    &&& forall|k: int|
        0 <= k < at.len() ==> 0 <= #[trigger] at[k] < all.len() && kept[k] == all[at[k]]
    &&& forall|j: int, k: int| 0 <= j < k < at.len() ==> at[j] < at[k]
}

/// A filter picks the elements that pass its test and those only: each as
/// often as it stands in `all`, and in the order of `all`. The indices
/// returned are those of the elements kept.
pub proof fn lemma_filter_picks<A>(all: Seq<A>, keep: spec_fn(A) -> bool) -> (at: Seq<int>)
    ensures
        picks(all, at, all.filter(keep)),
        forall|i: int| 0 <= i < all.len() ==> (keep(#[trigger] all[i]) <==> at.contains(i)),
    decreases all.len(),
{
    reveal(Seq::filter);
    if all.len() == 0 {
        Seq::empty()
    } else {
        let last = all.len() - 1;
        let before = lemma_filter_picks(all.drop_last(), keep);
        let at = if keep(all[last]) {
            before.push(last)
        } else {
            before
        };
        assert forall|i: int| 0 <= i < all.len() implies (keep(#[trigger] all[i]) <==> at.contains(
            i,
        )) by {
            if i < last {
                assert(all.drop_last()[i] == all[i]);
                if before.contains(i) {
                    let k = choose|k: int| 0 <= k < before.len() && before[k] == i;
                    assert(at[k] == i);
                }
            } else if keep(all[last]) {
                assert(at[before.len() as int] == last);
            }
        }
        at
    }
}

/// A filter keeps an element exactly if the element stands in the sequence
/// and passes the test.
pub proof fn lemma_filter_keeps<A>(all: Seq<A>, keep: spec_fn(A) -> bool, x: A)
    ensures
        all.filter(keep).contains(x) <==> all.contains(x) && keep(x),
{
    let at = lemma_filter_picks(all, keep);
    let kept = all.filter(keep);
    if kept.contains(x) {
        let k = choose|k: int| 0 <= k < kept.len() && kept[k] == x;
        assert(at.contains(at[k]));
        assert(all[at[k]] == x);
    }
    if all.contains(x) && keep(x) {
        let i = choose|i: int| 0 <= i < all.len() && all[i] == x;
        assert(keep(all[i]));
        let k = choose|k: int| 0 <= k < at.len() && at[k] == i;
        assert(kept[k] == x);
    }
}

/// Two tests that agree on every element of a sequence keep the same of it.
pub proof fn lemma_filter_same<A>(all: Seq<A>, keep: spec_fn(A) -> bool, other: spec_fn(A) -> bool)
    requires
        forall|i: int| 0 <= i < all.len() ==> keep(#[trigger] all[i]) == other(all[i]),
    ensures
        all.filter(keep) == all.filter(other),
    decreases all.len(),
{
    reveal(Seq::filter);
    if all.len() > 0 {
        assert(keep(all[all.len() - 1]) == other(all[all.len() - 1]));
        assert forall|i: int| 0 <= i < all.drop_last().len() implies keep(
            #[trigger] all.drop_last()[i],
        ) == other(all.drop_last()[i]) by {
            assert(all.drop_last()[i] == all[i]);
        }
        lemma_filter_same(all.drop_last(), keep, other);
    }
}

/// A test that every element passes keeps the whole sequence.
pub proof fn lemma_filter_all<A>(all: Seq<A>, keep: spec_fn(A) -> bool)
    requires
        forall|i: int| 0 <= i < all.len() ==> keep(#[trigger] all[i]),
    ensures
        all.filter(keep) == all,
    decreases all.len(),
{
    reveal(Seq::filter);
    if all.len() > 0 {
        assert(keep(all[all.len() - 1]));
        assert forall|i: int| 0 <= i < all.drop_last().len() implies keep(
            #[trigger] all.drop_last()[i],
        ) by {
            assert(all.drop_last()[i] == all[i]);
        }
        lemma_filter_all(all.drop_last(), keep);
        assert(all.drop_last().push(all.last()) =~= all);
    }
}

/// A test that no element passes keeps nothing.
pub proof fn lemma_filter_none<A>(all: Seq<A>, keep: spec_fn(A) -> bool)
    requires
        forall|i: int| 0 <= i < all.len() ==> !keep(#[trigger] all[i]),
    ensures
        all.filter(keep) == Seq::<A>::empty(),
    decreases all.len(),
{
    reveal(Seq::filter);
    if all.len() > 0 {
        assert(!keep(all[all.len() - 1]));
        assert forall|i: int| 0 <= i < all.drop_last().len() implies !keep(
            #[trigger] all.drop_last()[i],
        ) by {
            assert(all.drop_last()[i] == all[i]);
        }
        lemma_filter_none(all.drop_last(), keep);
    }
}

/// Filtering one element more keeps that element or not, after the others.
pub proof fn lemma_filter_next<A>(all: Seq<A>, i: int, keep: spec_fn(A) -> bool)
    requires
        0 <= i < all.len(),
    ensures
        all.take(i + 1).filter(keep) == if keep(all[i]) {
            all.take(i).filter(keep).push(all[i])
        } else {
            all.take(i).filter(keep)
        },
{
    assert(all.take(i + 1) =~= all.take(i).push(all[i]));
    all.take(i).lemma_filter_push(all[i], keep);
}

} // verus!
