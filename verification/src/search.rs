//! The search itself: the lines of a text that hold a query.

use vstd::prelude::*;
use vstd::string::*;
use crate::lines::{lines, split_lines};
use crate::substring::{contains, lemma_empty_occurs, occurs_in};

verus! {

/// The lower-case form of a text as the standard library's
/// `str::to_lowercase` gives it: a function of the text alone, fixed by the
/// Unicode tables that the standard library holds. It may differ in length
/// from the text, and it is left without a definition here.
pub uninterp spec fn lowercase(text: Seq<char>) -> Seq<char>;

/// `str::to_lowercase` of the standard library. Nothing is proved of it:
/// this states only that the text it returns is `lowercase` of the text it
/// was given.
pub assume_specification[ str::to_lowercase ](text: &str) -> (lowered: String)
    ensures
        lowered@ == lowercase(text@),
;

/// The test that a line passes when `query` is a part of it.
pub open spec fn line_test(query: Seq<char>) -> spec_fn(Seq<char>) -> bool {
    |line: Seq<char>| occurs_in(query, line)
}

/// The test that a line passes when the lower-case form of `query` is a
/// part of the lower-case form of the line.
pub open spec fn line_test_ignoring_case(query: Seq<char>) -> spec_fn(Seq<char>) -> bool {
    |line: Seq<char>| occurs_in(lowercase(query), lowercase(line))
}

/// The lines of `contents` that hold `query`, in the order of `contents`.
pub open spec fn matching_lines(query: Seq<char>, contents: Seq<char>) -> Seq<Seq<char>> {
    split_lines(contents).filter(line_test(query))
}

/// The lines of `contents` whose lower-case form holds the lower-case form
/// of `query`, in the order of `contents` and as they stand in `contents`.
pub open spec fn matching_lines_ignoring_case(query: Seq<char>, contents: Seq<char>) -> Seq<
    Seq<char>,
> {
    split_lines(contents).filter(line_test_ignoring_case(query))
}

/// A sequence filtered by a test that all of its items pass is the sequence
/// itself.
pub proof fn lemma_filter_all<A>(items: Seq<A>, test: spec_fn(A) -> bool)
    requires
        forall|i: int| 0 <= i < items.len() ==> test(#[trigger] items[i]),
    ensures
        items.filter(test) == items,
    decreases items.len(),
{
    reveal(Seq::filter);
    if items.len() > 0 {
        lemma_filter_all(items.drop_last(), test);
        assert(items.drop_last().push(items.last()) =~= items);
    }
}

/// Whatever a filter keeps passes its test and comes from the sequence, and
/// whatever passes the test in the sequence is kept.
pub proof fn lemma_filter_exact<A>(items: Seq<A>, test: spec_fn(A) -> bool)
    ensures
        forall|i: int|
            0 <= i < items.filter(test).len() ==> test(#[trigger] items.filter(test)[i])
                && items.contains(items.filter(test)[i]),
        forall|i: int|
            0 <= i < items.len() && test(#[trigger] items[i]) ==> items.filter(test).contains(
                items[i],
            ),
    decreases items.len(),
{
    reveal(Seq::filter);
    if items.len() > 0 {
        let front = items.drop_last();
        lemma_filter_exact(front, test);
        let kept = items.filter(test);
        assert forall|i: int| 0 <= i < kept.len() implies test(#[trigger] kept[i])
            && items.contains(kept[i]) by {
            if i < front.filter(test).len() {
                assert(kept[i] == front.filter(test)[i]);
                let at = choose|at: int| 0 <= at < front.len() && front[at] == kept[i];
                assert(items[at] == kept[i]);
            } else {
                assert(kept[i] == items.last());
                assert(items[items.len() - 1] == kept[i]);
            }
        }
        assert forall|i: int|
            0 <= i < items.len() && test(#[trigger] items[i]) implies kept.contains(items[i]) by {
            if i < front.len() {
                assert(front[i] == items[i]);
                let at = choose|at: int|
                    0 <= at < front.filter(test).len() && front.filter(test)[at] == items[i];
                assert(kept[at] == items[i]);
            } else {
                assert(kept[kept.len() - 1] == items[i]);
            }
        }
    }
}

/// Filtering by a test gives what filtering first by a wider test and then
/// by the test itself gives.
pub proof fn lemma_filter_through<A>(
    items: Seq<A>,
    test: spec_fn(A) -> bool,
    wider: spec_fn(A) -> bool,
)
    requires
        forall|i: int| 0 <= i < items.len() && test(#[trigger] items[i]) ==> wider(items[i]),
    ensures
        items.filter(test) == items.filter(wider).filter(test),
    decreases items.len(),
{
    reveal(Seq::filter);
    if items.len() > 0 {
        let front = items.drop_last();
        let last = items.last();
        lemma_filter_through(front, test, wider);
        if wider(last) {
            front.filter(wider).lemma_filter_push(last, test);
        }
    }
}

/// Where the lower-case form of each line of `contents` that holds `query`
/// holds the lower-case form of `query`, a search that ignores case finds
/// every line that a search for `query` as it stands finds, in the same
/// order, and so at least as many.
pub proof fn lemma_ignoring_case_finds_no_less(query: Seq<char>, contents: Seq<char>)
    requires
        forall|i: int|
            0 <= i < split_lines(contents).len() && occurs_in(
                query,
                #[trigger] split_lines(contents)[i],
            ) ==> occurs_in(lowercase(query), lowercase(split_lines(contents)[i])),
    ensures
        matching_lines(query, contents) == matching_lines_ignoring_case(query, contents).filter(
            line_test(query),
        ),
        matching_lines(query, contents).len() <= matching_lines_ignoring_case(
            query,
            contents,
        ).len(),
{
    lemma_filter_through(split_lines(contents), line_test(query), line_test_ignoring_case(query));
    matching_lines_ignoring_case(query, contents).lemma_filter_len(line_test(query));
}

/// The lines of `contents` that hold `query` as a contiguous part,
/// character for character, in the order in which they stand in `contents`.
/// Each is a part of `contents` itself. An empty `query` is held by every
/// line.
pub fn search<'a>(query: &str, contents: &'a str) -> (result: Vec<&'a str>)
    ensures
        result.deep_view() == matching_lines(query@, contents@),
        forall|i: int|
            0 <= i < result.len() ==> occurs_in(query@, (#[trigger] result[i])@)
                && split_lines(contents@).contains(result[i]@),
        forall|i: int|
            0 <= i < split_lines(contents@).len() && occurs_in(
                query@,
                #[trigger] split_lines(contents@)[i],
            ) ==> result.deep_view().contains(split_lines(contents@)[i]),
        query@.len() == 0 ==> result.deep_view() == split_lines(contents@),
{
    let all = lines(contents);
    let mut result: Vec<&'a str> = Vec::new();
    let mut i: usize = 0;
    assert(all.deep_view().take(0) =~= Seq::<Seq<char>>::empty());
    assert(result.deep_view() =~= Seq::<Seq<char>>::empty());
    assert(Seq::<Seq<char>>::empty().filter(line_test(query@)) =~= Seq::<Seq<char>>::empty()) by {
        reveal(Seq::filter);
    }
    while i < all.len()
        invariant
            i <= all.len(),
            result.deep_view() == all.deep_view().take(i as int).filter(line_test(query@)),
        decreases all.len() - i,
    {
        let line = all[i];
        let ghost before = result.deep_view();
        proof {
            all.deep_view().lemma_take_succ_push(i as int);
            all.deep_view().take(i as int).lemma_filter_push(line@, line_test(query@));
        }
        if contains(line, query) {
            result.push(line);
            assert(result.deep_view() =~= before.push(line@));
        }
        i += 1;
    }
    proof {
        let found = result.deep_view();
        let every = split_lines(contents@);
        assert(all.deep_view().take(all.len() as int) =~= all.deep_view());
        lemma_filter_exact(every, line_test(query@));
        assert forall|i: int| 0 <= i < result.len() implies occurs_in(
            query@,
            (#[trigger] result[i])@,
        ) && every.contains(result[i]@) by {
            assert(found[i] == result[i]@);
        }
        if query@.len() == 0 {
            assert(query@ =~= Seq::<char>::empty());
            assert forall|i: int| 0 <= i < every.len() implies line_test(query@)(
                #[trigger] every[i],
            ) by {
                lemma_empty_occurs(every[i]);
            }
            lemma_filter_all(every, line_test(query@));
        }
    }
    result
}

/// The lines of `contents` whose lower-case form holds the lower-case form
/// of `query`, in the order in which they stand in `contents`. Each is a
/// part of `contents` itself, as it is written there.
pub fn search_case_insensitive<'a>(query: &str, contents: &'a str) -> (result: Vec<&'a str>)
    ensures
        result.deep_view() == matching_lines_ignoring_case(query@, contents@),
        forall|i: int|
            0 <= i < result.len() ==> occurs_in(
                lowercase(query@),
                lowercase((#[trigger] result[i])@),
            ) && split_lines(contents@).contains(result[i]@),
        forall|i: int|
            0 <= i < split_lines(contents@).len() && occurs_in(
                lowercase(query@),
                lowercase(#[trigger] split_lines(contents@)[i]),
            ) ==> result.deep_view().contains(split_lines(contents@)[i]),
{
    let wanted = query.to_lowercase();
    let all = lines(contents);
    let mut result: Vec<&'a str> = Vec::new();
    let mut i: usize = 0;
    assert(all.deep_view().take(0) =~= Seq::<Seq<char>>::empty());
    assert(result.deep_view() =~= Seq::<Seq<char>>::empty());
    assert(Seq::<Seq<char>>::empty().filter(line_test_ignoring_case(query@)) =~= Seq::<
        Seq<char>,
    >::empty()) by {
        reveal(Seq::filter);
    }
    while i < all.len()
        invariant
            i <= all.len(),
            wanted@ == lowercase(query@),
            result.deep_view() == all.deep_view().take(i as int).filter(
                line_test_ignoring_case(query@),
            ),
        decreases all.len() - i,
    {
        let line = all[i];
        let ghost before = result.deep_view();
        proof {
            all.deep_view().lemma_take_succ_push(i as int);
            all.deep_view().take(i as int).lemma_filter_push(
                line@,
                line_test_ignoring_case(query@),
            );
        }
        let lowered = line.to_lowercase();
        if contains(lowered.as_str(), wanted.as_str()) {
            result.push(line);
            assert(result.deep_view() =~= before.push(line@));
        }
        i += 1;
    }
    proof {
        let found = result.deep_view();
        let every = split_lines(contents@);
        assert(all.deep_view().take(all.len() as int) =~= all.deep_view());
        lemma_filter_exact(every, line_test_ignoring_case(query@));
        assert forall|i: int| 0 <= i < result.len() implies occurs_in(
            lowercase(query@),
            lowercase((#[trigger] result[i])@),
        ) && every.contains(result[i]@) by {
            assert(found[i] == result[i]@);
        }
    }
    result
}

} // verus!
