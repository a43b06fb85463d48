//! What a search finds.
use vstd::prelude::*;
use crate::app::search;
use crate::app::App;
use crate::input::{self, Action, Key};
use crate::lane::LaneView;
use crate::scalar::Scalar;
use crate::text;

verus! {

/// Whether a text stands in another, at some position.
pub open spec fn stands_in(part: Seq<char>, whole: Seq<char>) -> bool {
    exists|before: Seq<char>, after: Seq<char>| whole == #[trigger] (before + part + after)
}

/// Whether an item of a lane has a name in which a text stands, upper and lower case alike.
pub open spec fn is_hit<T>(app: App<T>, hit: (usize, usize), query: Seq<char>) -> bool {
    &&& hit.0 < app.lanes@.len()
    &&& ({
        let lane: LaneView = app.lanes@[hit.0 as int]@;
        &&& hit.1 < lane.items.len()
        &&& ({
            let i = lane.items[hit.1 as int] as int;
            if lane.annotations {
                i < app.annotations@.len() && stands_in(
                    text::lowercase_text(query),
                    text::lowercase_text(app.annotations@[i].name@),
                )
            } else {
                i < app.kernels@.len() && stands_in(
                    text::lowercase_text(query),
                    text::lowercase_text(app.kernels@[i].name@),
                )
            }
        })
    })
}

proof fn lemma_stands_in(part: Seq<char>, whole: Seq<char>)
    ensures
        text::holds_text(whole, part) == stands_in(part, whole),
{
    if text::holds_text(whole, part) {
        let i = choose|i: int| #[trigger] text::occurs_at(whole, part, i);
        let before = whole.take(i);
        let after = whole.skip(i + part.len());
        assert(whole == before + part + after);
    }
    if stands_in(part, whole) {
        let (before, after) = choose|before: Seq<char>, after: Seq<char>|
            whole == #[trigger] (before + part + after);
        assert(whole.subrange(before.len() as int, (before.len() + part.len()) as int) == part);
        assert(text::occurs_at(whole, part, before.len() as int));
    }
}

proof fn lemma_hit<T: Scalar>(app: App<T>, hit: (usize, usize), query: Seq<char>)
    ensures
        search::is_match(app, text::lowercase_text(query), hit) == is_hit(app, hit, query),
{
    let needle = text::lowercase_text(query);
    if hit.0 < app.lanes@.len() {
        let lane = app.lanes@[hit.0 as int]@;
        if hit.1 < lane.items.len() {
            let i = lane.items[hit.1 as int] as int;
            if lane.annotations && i < app.annotations@.len() {
                lemma_stands_in(needle, text::lowercase_text(app.annotations@[i].name@));
            } else if !lane.annotations && i < app.kernels@.len() {
                lemma_stands_in(needle, text::lowercase_text(app.kernels@[i].name@));
            }
        }
    }
}

/// Every key that changes the query lists anew all items whose name holds it, lane after
/// lane and in the order of each lane, selects the first, and says so where there is none.
/// The empty query finds nothing and does not fail.
pub proof fn queries_list_every_hit<T: Scalar>(
    before: App<T>,
    key: Key,
    height: usize,
    after: App<T>,
    action: Action,
)
    requires
        input::key_step(before, key, height, after, action),
        before.sequence is None,
        before.search_active,
        key is Char || key is Backspace,
        before.lanes@.len() <= usize::MAX,
        forall|l: int|
            0 <= l < before.lanes@.len() ==> (#[trigger] before.lanes@[l])@.items.len()
                <= usize::MAX,
    ensures
        ({
            let query = after.search_query@;
            let found = after.search_matches@;
            &&& query.len() == 0 ==> found.len() == 0 && !after.search_no_match
            &&& query.len() > 0 ==> {
                &&& forall|i: int| 0 <= i < found.len() ==> is_hit(before, #[trigger] found[i], query)
                &&& forall|hit: (usize, usize)| #[trigger]
                    is_hit(before, hit, query) ==> found.contains(hit)
                &&& forall|i: int, j: int|
                    0 <= i < j < found.len() ==> (#[trigger] found[i]).0 < (#[trigger] found[j]).0
                        || (found[i].0 == found[j].0 && found[i].1 < found[j].1)
                &&& after.search_no_match <==> (forall|hit: (usize, usize)|
                    !#[trigger] is_hit(before, hit, query))
            }
            &&& found.len() > 0 ==> after.search_match_idx == 0 && (
                after.active_lane,
                after.selected_item,
            ) == found[0]
            &&& found.len() == 0 ==> after.active_lane == before.active_lane
                && after.selected_item == before.selected_item
        }),
{
    let cleared = App { status: None, ..before };
    let query = after.search_query@;
    let needle = text::lowercase_text(query);
    let found = after.search_matches@;
    if query.len() > 0 {
        search::search_finds_exactly_the_matches(cleared, needle, cleared.lanes@.len() as int);
        assert(found == cleared.matches_upto(needle, cleared.lanes@.len() as int));
        assert forall|hit: (usize, usize)| #[trigger]
            is_hit(before, hit, query) == search::is_match(cleared, needle, hit) by {
            lemma_hit(cleared, hit, query);
            assert(is_hit(before, hit, query) == is_hit(cleared, hit, query));
        }
        assert forall|i: int| 0 <= i < found.len() implies is_hit(
            before,
            #[trigger] found[i],
            query,
        ) by {
            assert(search::is_match(cleared, needle, found[i]));
            assert(is_hit(before, found[i], query) == search::is_match(cleared, needle, found[i]));
        }
        assert forall|hit: (usize, usize)| #[trigger]
            is_hit(before, hit, query) implies found.contains(hit) by {
            assert(search::is_match(cleared, needle, hit));
        }
        assert forall|i: int, j: int| 0 <= i < j < found.len() implies (#[trigger] found[i]).0 < (
        #[trigger] found[j]).0 || (found[i].0 == found[j].0 && found[i].1 < found[j].1) by {
            assert(search::comes_before(found[i], found[j]));
        }
        if found.len() > 0 {
            assert(is_hit(before, found[0], query));
        }
    }
}

} // verus!
