//! Incremental search over the names of kernels and annotations.
use vstd::prelude::*;
use vstd::string::StringExecFns;
use crate::app::navigation::{self, ring_next, ring_prev};
use crate::app::App;
use crate::lane::{Lane, LaneView};
use crate::scalar::Scalar;
use crate::text::{self, chars_of, contains_text, push_decimal, text_between, to_lowercase};

verus! {

impl<T: Scalar> App<T> {
    /// The name of item `pos` of a lane, if it is an item at all.
    pub open spec fn item_name(&self, lane: LaneView, pos: int) -> Option<Seq<char>> {
        let idx = lane.items[pos] as int;
        if lane.annotations {
            if idx < self.annotations@.len() {
                Some(self.annotations@[idx].name@)
            } else {
                None
            }
        } else if idx < self.kernels@.len() {
            Some(self.kernels@[idx].name@)
        } else {
            None
        }
    }

    /// Whether the name of item `pos` of a lane holds a text, upper and lower
    /// case alike. `needle` is in lower case.
    pub open spec fn item_matches(&self, lane: LaneView, pos: int, needle: Seq<char>) -> bool {
        match self.item_name(lane, pos) {
            Some(name) => text::holds_text(text::lowercase_text(name), needle),
            None => false,
        }
    }

    /// The matches among the first `n` items of a lane, in order.
    pub open spec fn lane_matches(
        &self,
        lane_idx: usize,
        lane: LaneView,
        needle: Seq<char>,
        n: int,
    ) -> Seq<(usize, usize)>
        decreases n,
    {
        if n <= 0 {
            Seq::empty()
        } else if self.item_matches(lane, n - 1, needle) {
            self.lane_matches(lane_idx, lane, needle, n - 1).push((lane_idx, (n - 1) as usize))
        } else {
            self.lane_matches(lane_idx, lane, needle, n - 1)
        }
    }

    /// The matches in the first `k` lanes, lane after lane.
    pub open spec fn matches_upto(&self, needle: Seq<char>, k: int) -> Seq<(usize, usize)>
        decreases k,
    {
        if k <= 0 {
            Seq::empty()
        } else {
            let lane = self.lanes@[k - 1]@;
            self.matches_upto(needle, k - 1) + self.lane_matches(
                (k - 1) as usize,
                lane,
                needle,
                lane.items.len() as int,
            )
        }
    }

    /// All matches of a query, by lane and then by position.
    pub open spec fn all_matches(&self, query: Seq<char>) -> Seq<(usize, usize)> {
        self.matches_upto(text::lowercase_text(query), self.lanes@.len() as int)
    }

    /// Whether `after` is this state with the given query applied: the list of
    /// matches is rebuilt and the first of them selected. An empty query has no
    /// matches and no failure.
    pub open spec fn applied(self, query: Seq<char>, after: App<T>) -> bool {
        let matches = if query.len() == 0 {
            Seq::empty()
        } else {
            self.all_matches(query)
        };
        &&& after.search_query@ == query
        &&& after.search_matches@ == matches
        &&& after == (App {
            search_query: after.search_query,
            search_matches: after.search_matches,
            search_match_idx: 0,
            search_no_match: query.len() > 0 && matches.len() == 0,
            active_lane: if matches.len() > 0 {
                matches[0].0
            } else {
                self.active_lane
            },
            selected_item: if matches.len() > 0 {
                matches[0].1
            } else {
                self.selected_item
            },
            ..self
        })
    }

    /// This state on its match number `i`.
    pub open spec fn on_match(self, i: usize) -> App<T> {
        if i < self.search_matches@.len() {
            App {
                search_match_idx: i,
                active_lane: self.search_matches@[i as int].0,
                selected_item: self.search_matches@[i as int].1,
                ..self
            }
        } else {
            App { search_match_idx: i, ..self }
        }
    }

    /// Starts a search with an empty query.
    pub fn search_start(&mut self)
        ensures
            final(self).search_query@.len() == 0,
            final(self).search_matches@.len() == 0,
            *final(self) == (App {
                search_active: true,
                search_query: final(self).search_query,
                search_no_match: false,
                search_matches: final(self).search_matches,
                search_match_idx: 0,
                ..*old(self)
            }),
    {
        self.search_active = true;
        self.search_query = String::new();
        self.search_no_match = false;
        self.search_matches.clear();
        self.search_match_idx = 0;
    }

    /// Ends the search and forgets the query and its matches.
    pub fn search_cancel(&mut self)
        ensures
            final(self).search_query@.len() == 0,
            final(self).search_matches@.len() == 0,
            *final(self) == (App {
                search_active: false,
                search_query: final(self).search_query,
                search_no_match: false,
                search_matches: final(self).search_matches,
                search_match_idx: 0,
                ..*old(self)
            }),
    {
        self.search_active = false;
        self.search_query = String::new();
        self.search_no_match = false;
        self.search_matches.clear();
        self.search_match_idx = 0;
    }

    /// Ends the search and keeps the current match.
    pub fn search_commit(&mut self)
        ensures
            *final(self) == (App { search_active: false, ..*old(self) }),
    {
        self.search_active = false;
    }

    /// Adds a character to the query.
    pub fn search_push(&mut self, c: char)
        ensures
            old(self).applied(old(self).search_query@.push(c), *final(self)),
    {
        self.search_query.push(c);
        proof {
            lemma_same_matches(
                *old(self),
                *self,
                text::lowercase_text(self.search_query@),
                self.lanes@.len() as int,
            );
        }
        self.search_apply();
    }

    /// Takes the last character off the query.
    pub fn search_backspace(&mut self)
        ensures
            old(self).applied(
                if old(self).search_query@.len() > 0 {
                    old(self).search_query@.drop_last()
                } else {
                    old(self).search_query@
                },
                *final(self),
            ),
    {
        let chars = chars_of(self.search_query.as_str());
        if chars.len() > 0 {
            self.search_query = text_between(&chars, 0, chars.len() - 1);
            assert(self.search_query@ == old(self).search_query@.drop_last());
        }
        proof {
            lemma_same_matches(
                *old(self),
                *self,
                text::lowercase_text(self.search_query@),
                self.lanes@.len() as int,
            );
        }
        self.search_apply();
    }

    /// Whether the name of an item holds a text, upper and lower case alike.
    fn name_matches(&self, lane: &Lane, item_idx: usize, needle: &str) -> (r: bool)
        ensures
            r == match if lane@.annotations {
                if item_idx < self.annotations@.len() {
                    Some(self.annotations@[item_idx as int].name@)
                } else {
                    None
                }
            } else if item_idx < self.kernels@.len() {
                Some(self.kernels@[item_idx as int].name@)
            } else {
                None
            } {
                Some(name) => text::holds_text(text::lowercase_text(name), needle@),
                None => false,
            },
    {
        let name: &String = if lane.is_annotations() {
            if item_idx >= self.annotations.len() {
                return false;
            }
            &self.annotations[item_idx].name
        } else {
            if item_idx >= self.kernels.len() {
                return false;
            }
            &self.kernels[item_idx].name
        };
        let lower = to_lowercase(name.as_str());
        contains_text(lower.as_str(), needle)
    }

    /// All items whose name holds `needle`, by lane and then by position.
    fn find_matches(&self, needle: &str) -> (r: Vec<(usize, usize)>)
        ensures
            r@ == self.matches_upto(needle@, self.lanes@.len() as int),
    {
        let mut out: Vec<(usize, usize)> = Vec::new();
        let mut k: usize = 0;
        while k < self.lanes.len()
            invariant
                k <= self.lanes@.len(),
                out@ == self.matches_upto(needle@, k as int),
            decreases self.lanes@.len() - k,
        {
            let lane = &self.lanes[k];
            let items = lane.item_indices();
            let ghost start = out@;
            let mut pos: usize = 0;
            assert(start + self.lane_matches(k, lane@, needle@, 0) == start);
            while pos < items.len()
                invariant
                    pos <= items@.len(),
                    items@ == lane@.items,
                    out@ == start + self.lane_matches(k, lane@, needle@, pos as int),
                decreases items@.len() - pos,
            {
                if self.name_matches(lane, items[pos], needle) {
                    assert(self.item_matches(lane@, pos as int, needle@));
                    out.push((k, pos));
                }
                pos += 1;
                assert(out@ == start + self.lane_matches(k, lane@, needle@, pos as int));
            }
            k += 1;
        }
        out
    }

    /// Rebuilds the ordered match list for the current query and jumps to the
    /// first match. Empty query clears matches and the no-match flag.
    fn search_apply(&mut self)
        ensures
            old(self).applied(old(self).search_query@, *final(self)),
    {
        self.search_match_idx = 0;
        if self.search_query.as_str().is_empty() {
            self.search_matches.clear();
            self.search_no_match = false;
            return;
        }
        let needle = to_lowercase(self.search_query.as_str());
        let matches = self.find_matches(needle.as_str());
        proof {
            lemma_same_matches(*old(self), *self, needle@, self.lanes@.len() as int);
        }
        self.search_matches = matches;
        if self.search_matches.len() > 0 {
            let (lane_idx, pos) = self.search_matches[0];
            self.active_lane = lane_idx;
            self.selected_item = pos;
            self.search_no_match = false;
        } else {
            self.search_no_match = true;
        }
    }

    /// Moves the selection to the next match, wrapping past the last to the
    /// first. No-op when there are no matches.
    pub fn search_next(&mut self)
        ensures
            *final(self) == if old(self).search_matches@.len() == 0 {
                *old(self)
            } else {
                old(self).on_match(
                    ((old(self).search_match_idx + 1) % old(self).search_matches@.len() as int) as usize,
                )
            },
    {
        let n: usize = self.search_matches.len();
        if n == 0 {
            return;
        }
        self.search_match_idx = ring_next(self.search_match_idx, n);
        self.goto_current_match();
    }

    /// Moves the selection to the previous match, wrapping past the first to the
    /// last. No-op when there are no matches.
    pub fn search_prev(&mut self)
        ensures
            *final(self) == if old(self).search_matches@.len() == 0 {
                *old(self)
            } else {
                old(self).on_match(
                    ((old(self).search_match_idx + old(self).search_matches@.len() - 1) % old(self).search_matches@.len() as int) as usize,
                )
            },
    {
        let n: usize = self.search_matches.len();
        if n == 0 {
            return;
        }
        self.search_match_idx = ring_prev(self.search_match_idx, n);
        self.goto_current_match();
    }

    /// Selects the current match.
    fn goto_current_match(&mut self)
        ensures
            *final(self) == old(self).on_match(old(self).search_match_idx),
    {
        if self.search_match_idx < self.search_matches.len() {
            let (lane_idx, pos) = self.search_matches[self.search_match_idx];
            self.active_lane = lane_idx;
            self.selected_item = pos;
        }
    }

    /// `"i/N"` position of the current match among all matches, or `None` when
    /// the query has no matches.
    pub fn search_match_label(&self) -> (r: Option<String>)
        ensures
            match r {
                Some(s) => self.search_matches@.len() > 0 && s@ == text::decimal_text(
                    (self.search_match_idx + 1) as nat,
                ) + "/"@ + text::decimal_text(self.search_matches@.len()),
                None => self.search_matches@.len() == 0,
            },
    {
        if self.search_matches.len() == 0 {
            return None;
        }
        let mut out = String::new();
        push_decimal(&mut out, self.search_match_idx as u128 + 1);
        out.append("/");
        push_decimal(&mut out, self.search_matches.len() as u128);
        assert(out@ == text::decimal_text((self.search_match_idx + 1) as nat) + "/"@
            + text::decimal_text(self.search_matches@.len()));
        Some(out)
    }
}

proof fn lemma_same_matches<T: Scalar>(a: App<T>, b: App<T>, needle: Seq<char>, k: int)
    requires
        a.kernels == b.kernels,
        a.annotations == b.annotations,
        a.lanes == b.lanes,
        0 <= k <= a.lanes@.len(),
    ensures
        a.matches_upto(needle, k) == b.matches_upto(needle, k),
    decreases k,
{
    if k > 0 {
        lemma_same_matches(a, b, needle, k - 1);
        let lane = a.lanes@[k - 1]@;
        lemma_same_lane_matches(a, b, (k - 1) as usize, lane, needle, lane.items.len() as int);
    }
}

proof fn lemma_same_lane_matches<T: Scalar>(
    a: App<T>,
    b: App<T>,
    lane_idx: usize,
    lane: LaneView,
    needle: Seq<char>,
    n: int,
)
    requires
        a.kernels == b.kernels,
        a.annotations == b.annotations,
    ensures
        a.lane_matches(lane_idx, lane, needle, n) == b.lane_matches(lane_idx, lane, needle, n),
    decreases n,
{
    if n > 0 {
        lemma_same_lane_matches(a, b, lane_idx, lane, needle, n - 1);
    }
}

/// Whether `(lane_idx, pos)` is an item whose name holds a text.
pub open spec fn is_match<T: Scalar>(
    app: App<T>,
    needle: Seq<char>,
    hit: (usize, usize),
) -> bool {
    &&& hit.0 < app.lanes@.len()
    &&& hit.1 < app.lanes@[hit.0 as int]@.items.len()
    &&& app.item_matches(app.lanes@[hit.0 as int]@, hit.1 as int, needle)
}

/// Whether one hit comes before another: by lane, then by position.
pub open spec fn comes_before(a: (usize, usize), b: (usize, usize)) -> bool {
    a.0 < b.0 || (a.0 == b.0 && a.1 < b.1)
}

/// The search finds exactly the matching items, of kernels and of annotations,
/// each once, ordered by lane and then by position.
pub proof fn search_finds_exactly_the_matches<T: Scalar>(app: App<T>, needle: Seq<char>, k: int)
    requires
        0 <= k <= app.lanes@.len() <= usize::MAX,
        forall|l: int| 0 <= l < k ==> (#[trigger] app.lanes@[l])@.items.len() <= usize::MAX,
    ensures
        ({
            let found = app.matches_upto(needle, k);
            &&& forall|i: int|
                0 <= i < found.len() ==> is_match(app, needle, #[trigger] found[i]) && found[i].0
                    < k
            &&& forall|i: int, j: int|
                0 <= i < j < found.len() ==> comes_before(found[i], found[j])
            &&& forall|hit: (usize, usize)| #[trigger]
                is_match(app, needle, hit) && hit.0 < k ==> found.contains(hit)
        }),
    decreases k,
{
    if k > 0 {
        search_finds_exactly_the_matches(app, needle, k - 1);
        let lane = app.lanes@[k - 1]@;
        let n = lane.items.len() as int;
        let id = (k - 1) as usize;
        lemma_lane_matches(app, id, lane, needle, n);
        let before = app.matches_upto(needle, k - 1);
        let own = app.lane_matches(id, lane, needle, n);
        let found = app.matches_upto(needle, k);
        assert(found == before + own);
        assert forall|i: int| 0 <= i < found.len() implies is_match(
            app,
            needle,
            #[trigger] found[i],
        ) && found[i].0 < k by {
            if i < before.len() {
                assert(found[i] == before[i]);
            } else {
                assert(found[i] == own[i - before.len()]);
            }
        }
        assert forall|i: int, j: int| 0 <= i < j < found.len() implies comes_before(
            found[i],
            found[j],
        ) by {
            if j < before.len() {
                assert(comes_before(before[i], before[j]));
            } else if i >= before.len() {
                assert(comes_before(own[i - before.len()], own[j - before.len()]));
            } else {
                assert(found[i] == before[i]);
                assert(found[j] == own[j - before.len()]);
            }
        }
        assert forall|hit: (usize, usize)| #[trigger]
            is_match(app, needle, hit) && hit.0 < k implies found.contains(hit) by {
            if hit.0 < k - 1 {
                let i = choose|i: int| 0 <= i < before.len() && before[i] == hit;
                assert(found[i] == hit);
            } else {
                assert(own.contains(hit));
                let i = choose|i: int| 0 <= i < own.len() && own[i] == hit;
                assert(found[before.len() + i] == hit);
            }
        }
    }
}

proof fn lemma_lane_matches<T: Scalar>(
    app: App<T>,
    lane_idx: usize,
    lane: LaneView,
    needle: Seq<char>,
    n: int,
)
    requires
        0 <= n <= lane.items.len() <= usize::MAX,
    ensures
        ({
            let found = app.lane_matches(lane_idx, lane, needle, n);
            &&& forall|i: int|
                0 <= i < found.len() ==> (#[trigger] found[i]).0 == lane_idx && found[i].1 < n
                    && app.item_matches(lane, found[i].1 as int, needle)
            &&& forall|i: int, j: int|
                0 <= i < j < found.len() ==> comes_before(found[i], found[j])
            &&& forall|pos: usize|
                pos < n && #[trigger] app.item_matches(lane, pos as int, needle)
                    ==> found.contains((lane_idx, pos))
        }),
    decreases n,
{
    if n > 0 {
        lemma_lane_matches(app, lane_idx, lane, needle, n - 1);
        let before = app.lane_matches(lane_idx, lane, needle, n - 1);
        let found = app.lane_matches(lane_idx, lane, needle, n);
        assert forall|i: int, j: int| 0 <= i < j < found.len() implies comes_before(
            found[i],
            found[j],
        ) by {
            if j < before.len() {
                assert(comes_before(before[i], before[j]));
            } else {
                assert(found[i] == before[i]);
            }
        }
        assert forall|pos: usize|
            pos < n && #[trigger] app.item_matches(lane, pos as int, needle) implies found.contains(
            (lane_idx, pos),
        ) by {
            if pos < n - 1 {
                let i = choose|i: int| 0 <= i < before.len() && before[i] == (lane_idx, pos);
                assert(found[i] == (lane_idx, pos));
            } else {
                assert(found[found.len() - 1] == (lane_idx, pos));
            }
        }
    }
}

/// Going to the next match and back leads to the same state, and so does going
/// back and on, wherever a match is selected.
pub proof fn matches_are_a_ring<T: Scalar>(app: App<T>)
    requires
        app.search_match_idx < app.search_matches@.len() <= usize::MAX,
        app == app.on_match(app.search_match_idx),
    ensures
        ({
            let n = app.search_matches@.len() as int;
            let next = app.on_match(((app.search_match_idx + 1) % n) as usize);
            let prev = app.on_match(((app.search_match_idx + n - 1) % n) as usize);
            &&& next.on_match(((next.search_match_idx + n - 1) % n) as usize) == app
            &&& prev.on_match(((prev.search_match_idx + 1) % n) as usize) == app
        }),
{
    navigation::lanes_are_a_ring(
        app.search_match_idx as int,
        app.search_matches@.len() as int,
    );
}

} // verus!
