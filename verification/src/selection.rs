//! Subsequences, and what filtering a sequence keeps.

use vstd::prelude::*;

verus! {

/// `part` is made of elements of `whole` in the order they have there:
/// `picks` names, for each place of `part`, the place in `whole` it came
/// from, and these places increase.
pub open spec fn selects<T>(picks: Seq<int>, part: Seq<T>, whole: Seq<T>) -> bool {
    &&& picks.len() == part.len()
    &&& forall|i: int|
        0 <= i < picks.len() ==> 0 <= #[trigger] picks[i] < whole.len() && whole[picks[i]]
            == part[i]
    &&& forall|i: int, j: int| 0 <= i < j < picks.len() ==> #[trigger] picks[i] < #[trigger] picks[j]
}

/// `part` is a subsequence of `whole`.
pub open spec fn is_selection<T>(part: Seq<T>, whole: Seq<T>) -> bool {
    exists|picks: Seq<int>| selects(picks, part, whole)
}

/// Filtering a sequence with one more element at its end.
pub proof fn lemma_filter_push<T>(s: Seq<T>, last: T, pred: spec_fn(T) -> bool)
    ensures
        s.push(last).filter(pred) == if pred(last) {
            s.filter(pred).push(last)
        } else {
            s.filter(pred)
        },
{
    reveal(Seq::filter);
    assert(s.push(last).drop_last() =~= s);
}

/// What a filter keeps is a subsequence of what it was given.
pub proof fn lemma_filter_is_selection<T>(whole: Seq<T>, pred: spec_fn(T) -> bool)
    ensures
        is_selection(whole.filter(pred), whole),
    decreases whole.len(),
{
    reveal(Seq::filter);
    if whole.len() == 0 {
        assert(selects(Seq::<int>::empty(), whole.filter(pred), whole));
    } else {
        let init = whole.drop_last();
        lemma_filter_is_selection(init, pred);
        let picks = choose|picks: Seq<int>| selects(picks, init.filter(pred), init);
        if pred(whole.last()) {
            let more = picks.push(whole.len() - 1);
            assert(selects(more, whole.filter(pred), whole));
        } else {
            assert(selects(picks, whole.filter(pred), whole));
        }
    }
}

/// A filter keeps everything where every element passes.
pub proof fn lemma_filter_all<T>(whole: Seq<T>, pred: spec_fn(T) -> bool)
    requires
        forall|i: int| 0 <= i < whole.len() ==> pred(#[trigger] whole[i]),
    ensures
        whole.filter(pred) == whole,
    decreases whole.len(),
{
    reveal(Seq::filter);
    if whole.len() > 0 {
        let init = whole.drop_last();
        assert forall|i: int| 0 <= i < init.len() implies pred(#[trigger] init[i]) by {
            assert(init[i] == whole[i]);
        }
        lemma_filter_all(init, pred);
        assert(init.push(whole.last()) =~= whole);
    }
}

/// Where `narrow` holds only of elements of which `wide` holds too,
/// filtering by `wide` first loses nothing that `narrow` keeps.
pub proof fn lemma_filter_within<T>(
    whole: Seq<T>,
    narrow: spec_fn(T) -> bool,
    wide: spec_fn(T) -> bool,
)
    requires
        forall|i: int| 0 <= i < whole.len() && narrow(#[trigger] whole[i]) ==> wide(whole[i]),
    ensures
        whole.filter(wide).filter(narrow) == whole.filter(narrow),
    decreases whole.len(),
{
    reveal(Seq::filter);
    if whole.len() > 0 {
        let init = whole.drop_last();
        assert forall|i: int| 0 <= i < init.len() && narrow(#[trigger] init[i]) implies wide(
            init[i],
        ) by {
            assert(init[i] == whole[i]);
        }
        lemma_filter_within(init, narrow, wide);
        if wide(whole.last()) {
            lemma_filter_push(init.filter(wide), whole.last(), narrow);
        }
    }
}

} // verus!
