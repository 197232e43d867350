//! The search itself: the lines of a text that hold a query.

use vstd::prelude::*;
use crate::filter::{
    lemma_filter_all, lemma_filter_keeps, lemma_filter_next, lemma_filter_none, lemma_filter_picks,
    lemma_filter_same, picks,
};
use crate::fold::{lowercase, to_lowercase};
use crate::infix::{contains, lemma_occurs_in_run, occurs_at, occurs_in};
use crate::lines::{lemma_line_holds_no_line_feed, lemma_line_occurs_in_text, lines, lines_of};

verus! {

/// The test that a line holds `query`, character for character.
pub open spec fn holds(query: Seq<char>) -> spec_fn(Seq<char>) -> bool {
    |line: Seq<char>| occurs_in(line, query)
}

/// The test that the lowercase form of a line holds the lowercase form of
/// `query`.
pub open spec fn holds_folded(query: Seq<char>) -> spec_fn(Seq<char>) -> bool {
    |line: Seq<char>| occurs_in(lowercase(line), lowercase(query))
}

/// The lines of `contents` that hold `query`, in the order of `contents`.
pub open spec fn matching_lines(query: Seq<char>, contents: Seq<char>) -> Seq<Seq<char>> {
    lines_of(contents).filter(holds(query))
}

/// The lines of `contents` that hold `query` when letter case is set aside,
/// in the order of `contents` and as they stand there.
pub open spec fn matching_lines_folded(query: Seq<char>, contents: Seq<char>) -> Seq<Seq<char>> {
    lines_of(contents).filter(holds_folded(query))
}

/// Every line of `contents` that holds `query`, in the order of `contents`.
/// The empty query is held by every line.
pub fn search<'a>(query: &str, contents: &'a str) -> (found: Vec<&'a str>)
    ensures
        found.deep_view() == matching_lines(query@, contents@),
{
    let all = lines(contents);
    let mut found: Vec<&'a str> = Vec::new();
    let mut i: usize = 0;
    assert(found.deep_view() =~= all.deep_view().take(0).filter(holds(query@))) by {
        reveal(Seq::filter);
    }
    while i < all.len()
        invariant
            i <= all.len(),
            found.deep_view() == all.deep_view().take(i as int).filter(holds(query@)),
        decreases all.len() - i,
    {
        let ghost before = found.deep_view();
        let line = all[i];
        if contains(line, query) {
            found.push(line);
            assert(found.deep_view() =~= before.push(line@));
        }
        proof {
            lemma_filter_next(all.deep_view(), i as int, holds(query@));
        }
        i += 1;
    }
    assert(all.deep_view().take(all.len() as int) =~= all.deep_view());
    found
}

/// Every line of `contents` whose lowercase form holds the lowercase form of
/// `query`, in the order of `contents`. The lines returned are those of
/// `contents`, in their own letter case.
pub fn search_case_insensitive<'a>(query: &str, contents: &'a str) -> (found: Vec<&'a str>)
    ensures
        found.deep_view() == matching_lines_folded(query@, contents@),
{
    let folded_query = to_lowercase(query);
    let all = lines(contents);
    let mut found: Vec<&'a str> = Vec::new();
    let mut i: usize = 0;
    assert(found.deep_view() =~= all.deep_view().take(0).filter(holds_folded(query@))) by {
        reveal(Seq::filter);
    }
    while i < all.len()
        invariant
            i <= all.len(),
            folded_query@ == lowercase(query@),
            found.deep_view() == all.deep_view().take(i as int).filter(holds_folded(query@)),
        decreases all.len() - i,
    {
        let ghost before = found.deep_view();
        let line = all[i];
        let folded_line = to_lowercase(line);
        if contains(folded_line.as_str(), folded_query.as_str()) {
            found.push(line);
            assert(found.deep_view() =~= before.push(line@));
        }
        proof {
            lemma_filter_next(all.deep_view(), i as int, holds_folded(query@));
        }
        i += 1;
    }
    assert(all.deep_view().take(all.len() as int) =~= all.deep_view());
    found
}

/// What `search` returns is the lines of the text with those left out that
/// do not hold the query: the lines that hold it stay, each as often as it
/// stands in the text and in the order of the text. The indices returned are
/// those of the lines that stay.
pub proof fn lemma_search_picks(query: Seq<char>, contents: Seq<char>) -> (at: Seq<int>)
    ensures
        picks(lines_of(contents), at, matching_lines(query, contents)),
        forall|i: int|
            0 <= i < lines_of(contents).len() ==> (occurs_in(
                #[trigger] lines_of(contents)[i],
                query,
            ) <==> at.contains(i)),
{
    lemma_filter_picks(lines_of(contents), holds(query))
}

/// `search` returns a line exactly if it is a line of the text and holds
/// the query.
pub proof fn lemma_search_keeps(query: Seq<char>, contents: Seq<char>, line: Seq<char>)
    ensures
        matching_lines(query, contents).contains(line) <==> lines_of(contents).contains(line)
            && occurs_in(line, query),
{
    lemma_filter_keeps(lines_of(contents), holds(query), line);
}

/// What `search_case_insensitive` returns is the lines of the text with
/// those left out whose lowercase form does not hold the lowercase form of
/// the query: the others stay as they stand in the text, each as often as
/// it stands there and in the order of the text. The indices returned are
/// those of the lines that stay.
pub proof fn lemma_folded_search_picks(query: Seq<char>, contents: Seq<char>) -> (at: Seq<int>)
    ensures
        picks(lines_of(contents), at, matching_lines_folded(query, contents)),
        forall|i: int|
            0 <= i < lines_of(contents).len() ==> (occurs_in(
                lowercase(#[trigger] lines_of(contents)[i]),
                lowercase(query),
            ) <==> at.contains(i)),
{
    lemma_filter_picks(lines_of(contents), holds_folded(query))
}

/// `search_case_insensitive` returns a line exactly if it is a line of the
/// text and its lowercase form holds the lowercase form of the query.
pub proof fn lemma_folded_search_keeps(query: Seq<char>, contents: Seq<char>, line: Seq<char>)
    ensures
        matching_lines_folded(query, contents).contains(line) <==> lines_of(contents).contains(
            line,
        ) && occurs_in(lowercase(line), lowercase(query)),
{
    lemma_filter_keeps(lines_of(contents), holds_folded(query), line);
}

/// Where the query and every line of the text are their own lowercase
/// forms, the two searches find the same.
pub proof fn lemma_lowercase_text_is_searched_alike(query: Seq<char>, contents: Seq<char>)
    requires
        lowercase(query) == query,
        forall|i: int|
            0 <= i < lines_of(contents).len() ==> lowercase(#[trigger] lines_of(contents)[i])
                == lines_of(contents)[i],
    ensures
        matching_lines_folded(query, contents) == matching_lines(query, contents),
{
    lemma_filter_same(lines_of(contents), holds_folded(query), holds(query));
}

/// The empty query is held by every line: the search for it returns all
/// the lines of the text.
pub proof fn lemma_empty_query_matches_every_line(contents: Seq<char>)
    ensures
        matching_lines(Seq::empty(), contents) == lines_of(contents),
{
    let all = lines_of(contents);
    let query = Seq::<char>::empty();
    assert forall|i: int| 0 <= i < all.len() implies holds(query)(#[trigger] all[i]) by {
        assert(all[i].subrange(0, 0) =~= query);
        assert(occurs_at(all[i], query, 0));
    }
    lemma_filter_all(all, holds(query));
}

/// A query whose lowercase form is empty is held by every line when letter
/// case is set aside.
pub proof fn lemma_empty_folded_query_matches_every_line(query: Seq<char>, contents: Seq<char>)
    requires
        lowercase(query).len() == 0,
    ensures
        matching_lines_folded(query, contents) == lines_of(contents),
{
    let all = lines_of(contents);
    assert forall|i: int| 0 <= i < all.len() implies holds_folded(query)(#[trigger] all[i]) by {
        assert(lowercase(all[i]).subrange(0, 0) =~= lowercase(query));
        assert(occurs_at(lowercase(all[i]), lowercase(query), 0));
    }
    lemma_filter_all(all, holds_folded(query));
}

/// The empty text has no lines, and no search finds anything in it.
pub proof fn lemma_empty_contents_match_nothing(query: Seq<char>)
    ensures
        lines_of(Seq::empty()) == Seq::<Seq<char>>::empty(),
        matching_lines(query, Seq::empty()) == Seq::<Seq<char>>::empty(),
        matching_lines_folded(query, Seq::empty()) == Seq::<Seq<char>>::empty(),
{
    let none = lines_of(Seq::empty());
    assert(none =~= Seq::<Seq<char>>::empty());
    lemma_filter_none(none, holds(query));
    lemma_filter_none(none, holds_folded(query));
}

/// A query that stands nowhere in the text is held by none of its lines.
pub proof fn lemma_absent_query_matches_nothing(query: Seq<char>, contents: Seq<char>)
    requires
        !occurs_in(contents, query),
    ensures
        matching_lines(query, contents) == Seq::<Seq<char>>::empty(),
{
    let all = lines_of(contents);
    assert forall|i: int| 0 <= i < all.len() implies !holds(query)(#[trigger] all[i]) by {
        if occurs_in(all[i], query) {
            lemma_line_occurs_in_text(contents, i);
            lemma_occurs_in_run(contents, all[i], query);
        }
    }
    lemma_filter_none(all, holds(query));
}

/// A query that holds a line feed is held by no line, since no line holds
/// one: a match never runs from one line into the next.
pub proof fn lemma_query_with_line_feed_matches_nothing(query: Seq<char>, contents: Seq<char>)
    requires
        query.contains('\n'),
    ensures
        matching_lines(query, contents) == Seq::<Seq<char>>::empty(),
{
    let all = lines_of(contents);
    assert forall|i: int| 0 <= i < all.len() implies !holds(query)(#[trigger] all[i]) by {
        if occurs_in(all[i], query) {
            let at = choose|at: int| occurs_at(all[i], query, at);
            let j = choose|j: int| 0 <= j < query.len() && query[j] == '\n';
            lemma_line_holds_no_line_feed(contents, i);
            assert(all[i].subrange(at, at + query.len())[j] == all[i][at + j]);
            assert(all[i].contains('\n'));
        }
    }
    lemma_filter_none(all, holds(query));
}

} // verus!
