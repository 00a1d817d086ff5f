//! The search itself: the lines of a text that contain a query.

use vstd::prelude::*;
use crate::fold::{lowercase, to_lowercase};
use crate::lines::{lines, lines_of, texts};
use crate::selection::{
    is_selection,
    lemma_filter_all,
    lemma_filter_is_selection,
    lemma_filter_push,
    lemma_filter_within,
};
use crate::substring::{contains, lemma_empty_occurs, occurs_in};

verus! {

/// The test "the line contains `query`".
pub open spec fn has(query: Seq<char>) -> spec_fn(Seq<char>) -> bool {
    |line: Seq<char>| occurs_in(line, query)
}

/// The test "the lowercase form of the line contains the lowercase form of
/// `query`".
pub open spec fn has_folded(query: Seq<char>) -> spec_fn(Seq<char>) -> bool {
    |line: Seq<char>| occurs_in(lowercase(line), lowercase(query))
}

/// The lines of `text` that contain `query`, in order, once for each time
/// such a line stands in `text`.
pub open spec fn matching(query: Seq<char>, text: Seq<char>) -> Seq<Seq<char>> {
    lines_of(text).filter(has(query))
}

/// The lines of `text` whose lowercase form contains the lowercase form of
/// `query`, in order and as they stand in `text`.
pub open spec fn matching_folded(query: Seq<char>, text: Seq<char>) -> Seq<Seq<char>> {
    lines_of(text).filter(has_folded(query))
}

/// The slices of `lines` that contain `query`, in order.
pub fn filter_lines<'a>(query: &str, lines: &[&'a str]) -> (kept: Vec<&'a str>)
    ensures
        texts(kept@) == texts(lines@).filter(has(query@)),
{
    let mut kept: Vec<&'a str> = Vec::new();
    let mut i: usize = 0;
    proof {
        reveal(Seq::filter);
        assert(texts(lines@.take(0)) =~= Seq::<Seq<char>>::empty());
        assert(texts(kept@) =~= Seq::<Seq<char>>::empty());
    }
    while i < lines.len()
        invariant
            i <= lines@.len(),
            texts(kept@) == texts(lines@.take(i as int)).filter(has(query@)),
        decreases lines@.len() - i,
    {
        let line = lines[i];
        proof {
            assert(texts(lines@.take(i + 1)) =~= texts(lines@.take(i as int)).push(line@));
            lemma_filter_push(texts(lines@.take(i as int)), line@, has(query@));
            assert(texts(kept@.push(line)) =~= texts(kept@).push(line@));
        }
        if contains(line, query) {
            kept.push(line);
        }
        i += 1;
    }
    proof {
        assert(lines@.take(i as int) =~= lines@);
    }
    kept
}

/// The slices of `lines` whose lowercase form contains the lowercase form
/// of `query`, in order and unchanged.
pub fn filter_lines_case_insensitive<'a>(query: &str, lines: &[&'a str]) -> (kept: Vec<&'a str>)
    ensures
        texts(kept@) == texts(lines@).filter(has_folded(query@)),
{
    let folded_query = to_lowercase(query);
    let mut kept: Vec<&'a str> = Vec::new();
    let mut i: usize = 0;
    proof {
        reveal(Seq::filter);
        assert(texts(lines@.take(0)) =~= Seq::<Seq<char>>::empty());
        assert(texts(kept@) =~= Seq::<Seq<char>>::empty());
    }
    while i < lines.len()
        invariant
            i <= lines@.len(),
            folded_query@ == lowercase(query@),
            texts(kept@) == texts(lines@.take(i as int)).filter(has_folded(query@)),
        decreases lines@.len() - i,
    {
        let line = lines[i];
        let folded_line = to_lowercase(line);
        proof {
            assert(texts(lines@.take(i + 1)) =~= texts(lines@.take(i as int)).push(line@));
            lemma_filter_push(texts(lines@.take(i as int)), line@, has_folded(query@));
            assert(texts(kept@.push(line)) =~= texts(kept@).push(line@));
        }
        if contains(folded_line.as_str(), folded_query.as_str()) {
            kept.push(line);
        }
        i += 1;
    }
    proof {
        assert(lines@.take(i as int) =~= lines@);
    }
    kept
}

/// The lines of `contents` that contain `query`, compared character by
/// character and with regard to case. They come in the order they have in
/// `contents`, each as a slice of `contents`; a line that stands there
/// several times is returned as often as it contains `query`. The empty
/// query is in every line, so it returns them all.
pub fn search<'a>(query: &str, contents: &'a str) -> (found: Vec<&'a str>)
    ensures
        texts(found@) == matching(query@, contents@),
        is_selection(texts(found@), lines_of(contents@)),
        forall|i: int| 0 <= i < found@.len() ==> occurs_in(#[trigger] found@[i]@, query@),
        query@.len() == 0 ==> texts(found@) == lines_of(contents@),
{
    let all = lines(contents);
    let found = filter_lines(query, all.as_slice());
    proof {
        let whole = lines_of(contents@);
        lemma_filter_is_selection(whole, has(query@));
        assert forall|i: int| 0 <= i < found@.len() implies occurs_in(
            #[trigger] found@[i]@,
            query@,
        ) by {
            whole.lemma_filter_pred(has(query@), i);
            assert(texts(found@)[i] == found@[i]@);
        }
        if query@.len() == 0 {
            lemma_matching_empty_query(query@, contents@);
        }
    }
    found
}

/// The lines of `contents` whose lowercase form contains the lowercase form
/// of `query`. Folding serves the comparison only: the lines come back as
/// they stand in `contents`, in their order there, each as a slice of
/// `contents`.
pub fn search_case_insensitive<'a>(query: &str, contents: &'a str) -> (found: Vec<&'a str>)
    ensures
        texts(found@) == matching_folded(query@, contents@),
        is_selection(texts(found@), lines_of(contents@)),
        forall|i: int|
            0 <= i < found@.len() ==> occurs_in(
                lowercase(#[trigger] found@[i]@),
                lowercase(query@),
            ),
{
    let all = lines(contents);
    let found = filter_lines_case_insensitive(query, all.as_slice());
    proof {
        let whole = lines_of(contents@);
        lemma_filter_is_selection(whole, has_folded(query@));
        assert forall|i: int| 0 <= i < found@.len() implies occurs_in(
            lowercase(#[trigger] found@[i]@),
            lowercase(query@),
        ) by {
            whole.lemma_filter_pred(has_folded(query@), i);
            assert(texts(found@)[i] == found@[i]@);
        }
    }
    found
}

/// With the empty query every line matches.
pub proof fn lemma_matching_empty_query(query: Seq<char>, text: Seq<char>)
    requires
        query.len() == 0,
    ensures
        matching(query, text) == lines_of(text),
{
    let whole = lines_of(text);
    assert forall|i: int| 0 <= i < whole.len() implies has(query)(#[trigger] whole[i]) by {
        lemma_empty_occurs(whole[i], query);
    }
    lemma_filter_all(whole, has(query));
}

/// Filtering what a search found once more, by the same query, changes
/// nothing.
pub proof fn lemma_matching_idempotent(query: Seq<char>, text: Seq<char>)
    ensures
        matching(query, text).filter(has(query)) == matching(query, text),
{
    lemma_filter_within(lines_of(text), has(query), has(query));
}

/// Folding keeps the matches of `query` in `text`: each line of `text` that
/// contains `query` still contains it after both are folded to lowercase.
/// This fails where a character folds differently by its place in a word,
/// as the Greek capital sigma does.
pub open spec fn folding_keeps_matches(query: Seq<char>, text: Seq<char>) -> bool {
    forall|i: int|
        0 <= i < lines_of(text).len() && occurs_in(#[trigger] lines_of(text)[i], query)
            ==> occurs_in(lowercase(lines_of(text)[i]), lowercase(query))
}

/// Where folding keeps the matches, the case-insensitive search finds every
/// line that the exact search finds: the exact result is the
/// case-insensitive result filtered by the exact test, so it is a
/// subsequence of it, and each of its lines is among the other's.
pub proof fn lemma_matching_within_folded(query: Seq<char>, text: Seq<char>)
    requires
        folding_keeps_matches(query, text),
    ensures
        matching_folded(query, text).filter(has(query)) == matching(query, text),
        is_selection(matching(query, text), matching_folded(query, text)),
        forall|line: Seq<char>|
            matching(query, text).contains(line) ==> matching_folded(query, text).contains(line),
{
    let whole = lines_of(text);
    lemma_filter_within(whole, has(query), has_folded(query));
    lemma_filter_is_selection(matching_folded(query, text), has(query));
    assert forall|line: Seq<char>| matching(query, text).contains(line) implies matching_folded(
        query,
        text,
    ).contains(line) by {
        matching_folded(query, text).lemma_filter_contains_rev(has(query), line);
    }
}

} // verus!
