//! How surely two blocks belong together.
use vstd::prelude::*;
use crate::align::nw;
use crate::scalar::{self, Scalar};
use crate::text;

verus! {

/// Whether a list of runs are the words of a text: stretches of letters and digits, from one
/// end to the other, that cannot be made longer and leave no letter or digit out.
pub open spec fn are_words(s: Seq<char>, runs: Seq<(int, int)>, from: int) -> bool {
    &&& forall|k: int|
        0 <= k < runs.len() ==> from <= (#[trigger] runs[k]).0 < runs[k].1 <= s.len()
    &&& forall|k: int, i: int|
        0 <= k < runs.len() && (#[trigger] runs[k]).0 <= i < runs[k].1
            ==> text::alphanumeric_char(#[trigger] s[i])
    &&& forall|k: int|
        0 <= k < runs.len() && (#[trigger] runs[k]).1 < s.len() ==> !text::alphanumeric_char(
            s[runs[k].1],
        )
    &&& forall|k: int, l: int|
        #![trigger runs[k], runs[l]]
        0 <= k < l < runs.len() ==> runs[k].1 < runs[l].0
    &&& forall|i: int|
        from <= i < s.len() && text::alphanumeric_char(#[trigger] s[i]) ==> in_a_run(runs, i)
}

/// Whether a position lies in one of some runs.
pub open spec fn in_a_run(runs: Seq<(int, int)>, i: int) -> bool {
    exists|k: int| 0 <= k < runs.len() && (#[trigger] runs[k]).0 <= i < runs[k].1
}

proof fn lemma_token_end(s: Seq<char>, i: int)
    requires
        0 <= i <= s.len(),
    ensures
        i <= nw::token_end(s, i) <= s.len(),
        forall|k: int| i <= k < nw::token_end(s, i) ==> text::alphanumeric_char(#[trigger] s[k]),
        nw::token_end(s, i) < s.len() ==> !text::alphanumeric_char(s[nw::token_end(s, i)]),
    decreases s.len() - i,
{
    if i < s.len() && text::alphanumeric_char(s[i]) {
        lemma_token_end(s, i + 1);
    }
}

/// The tokens of a name are its words, from left to right, in lower case.
pub proof fn tokens_are_the_words_of_a_name(s: Seq<char>, from: int) -> (runs: Seq<(int, int)>)
    requires
        0 <= from <= s.len(),
    ensures
        are_words(s, runs, from),
        nw::tokens_from(s, from).len() == runs.len(),
        forall|k: int|
            0 <= k < runs.len() ==> #[trigger] nw::tokens_from(s, from)[k] == text::lowercase_text(
                s.subrange(runs[k].0, runs[k].1),
            ),
    decreases s.len() - from,
{
    if from >= s.len() {
        Seq::empty()
    } else if !text::alphanumeric_char(s[from]) {
        tokens_are_the_words_of_a_name(s, from + 1)
    } else {
        let end = nw::token_end(s, from);
        lemma_token_end(s, from + 1);
        let rest = tokens_are_the_words_of_a_name(s, end);
        let runs = seq![(from, end)] + rest;
        let all = nw::tokens_from(s, from);
        assert forall|k: int| 0 <= k < runs.len() implies #[trigger] all[k]
            == text::lowercase_text(s.subrange(runs[k].0, runs[k].1)) by {
            if k > 0 {
                assert(runs[k] == rest[k - 1]);
                assert(all[k] == nw::tokens_from(s, end)[k - 1]);
            }
        }
        assert forall|k: int, l: int|
            #![trigger runs[k], runs[l]]
            0 <= k < l < runs.len() implies runs[k].1 < runs[l].0 by {
            assert(runs[l] == rest[l - 1]);
            if k > 0 {
                assert(runs[k] == rest[k - 1]);
            } else {
                // The next word does not start right behind this one.
                assert(end <= rest[l - 1].0 < rest[l - 1].1);
                if rest[l - 1].0 == end {
                    assert(text::alphanumeric_char(s[end]));
                }
            }
        }
        assert forall|i: int|
            from <= i < s.len() && text::alphanumeric_char(#[trigger] s[i]) implies in_a_run(
            runs,
            i,
        ) by {
            if i < end {
                assert(runs[0].0 <= i < runs[0].1);
            } else {
                assert(in_a_run(rest, i));
                let k = choose|k: int| 0 <= k < rest.len() && (#[trigger] rest[k]).0 <= i < rest[k].1;
                assert(runs[k + 1] == rest[k]);
            }
        }
        assert forall|k: int| 0 <= k < runs.len() implies from <= (#[trigger] runs[k]).0 < runs[k].1
            <= s.len() by {
            if k > 0 {
                assert(runs[k] == rest[k - 1]);
            }
        }
        assert forall|k: int, i: int|
            0 <= k < runs.len() && (#[trigger] runs[k]).0 <= i
                < runs[k].1 implies text::alphanumeric_char(#[trigger] s[i]) by {
            if k > 0 {
                assert(runs[k] == rest[k - 1]);
            }
        }
        assert forall|k: int|
            0 <= k < runs.len() && (#[trigger] runs[k]).1 < s.len() implies !text::alphanumeric_char(
            s[runs[k].1],
        ) by {
            if k > 0 {
                assert(runs[k] == rest[k - 1]);
            }
        }
        runs
    }
}

proof fn lemma_shared(a: Seq<Seq<char>>, b: Seq<Seq<char>>, n: int)
    requires
        0 <= n <= a.len(),
    ensures
        nw::shared_count(a, b, n) == a.take(n).filter(|x: Seq<char>| b.contains(x)).len(),
        0 <= nw::shared_count(a, b, n) <= n,
    decreases n,
{
    reveal(Seq::filter);
    if n > 0 {
        lemma_shared(a, b, n - 1);
        assert(a.take(n).drop_last() == a.take(n - 1));
        assert(a.take(n).last() == a[n - 1]);
    }
}

/// The overlap of two lists of tokens is the number of tokens of the first that stand in the
/// second, by the length of the longer; two empty lists overlap wholly.
pub proof fn overlaps_count_shared_tokens<C: Scalar>(a: Seq<Seq<char>>, b: Seq<Seq<char>>)
    ensures
        a.len() == 0 && b.len() == 0 ==> nw::overlap::<C>(a, b) == C::whole_spec(1),
        a.len() >= b.len() && a.len() > 0 ==> nw::overlap::<C>(a, b) == C::whole_spec(
            a.filter(|x: Seq<char>| b.contains(x)).len() as u64,
        ).over_spec(C::whole_spec(a.len() as u64)),
        b.len() > a.len() ==> nw::overlap::<C>(a, b) == C::whole_spec(
            a.filter(|x: Seq<char>| b.contains(x)).len() as u64,
        ).over_spec(C::whole_spec(b.len() as u64)),
{
    lemma_shared(a, b, a.len() as int);
    assert(a.take(a.len() as int) == a);
}

/// A step of an alignment: how many names it takes of the one side and of the other.
pub open spec fn is_step(step: (int, int)) -> bool {
    0 <= step.0 <= 3 && 0 <= step.1 <= 3 && step.0 + step.1 > 0
}

/// The tokens of the names `from..to`, one name after the other.
pub open spec fn tokens_between(names: Seq<Seq<char>>, from: int, to: int) -> Seq<Seq<char>>
    decreases to - from,
{
    if from >= to {
        Seq::empty()
    } else {
        nw::tokens_from(names[from], 0) + tokens_between(names, from + 1, to)
    }
}

/// What a step that leads to `(i, j)` is worth: names left out cost two fifths each, names
/// taken together are worth the overlap of their tokens where that is above a half, and
/// cost a fifth where it is not.
pub open spec fn step_worth<C: Scalar>(
    a: Seq<Seq<char>>,
    b: Seq<Seq<char>>,
    i: int,
    j: int,
    step: (int, int),
) -> C {
    if step.1 == 0 {
        C::ratio_spec((-4) as i64, 10).times_spec(C::whole_spec(step.0 as u64))
    } else if step.0 == 0 {
        C::ratio_spec((-4) as i64, 10).times_spec(C::whole_spec(step.1 as u64))
    } else {
        let shared = nw::overlap::<C>(
            tokens_between(a, i - step.0, i),
            tokens_between(b, j - step.1, j),
        );
        if C::ratio_spec(5, 10).less_spec(shared) {
            shared
        } else {
            C::ratio_spec((-2) as i64, 10)
        }
    }
}

/// Whether steps lead from the start of both lists to `(i, j)`.
pub open spec fn leads_to(steps: Seq<(int, int)>, i: int, j: int) -> bool
    decreases steps.len(),
{
    if steps.len() == 0 {
        i == 0 && j == 0
    } else {
        let last = steps.last();
        is_step(last) && last.0 <= i && last.1 <= j && leads_to(
            steps.drop_last(),
            i - last.0,
            j - last.1,
        )
    }
}

/// What steps that lead to `(i, j)` are worth together.
pub open spec fn worth<C: Scalar>(
    a: Seq<Seq<char>>,
    b: Seq<Seq<char>>,
    steps: Seq<(int, int)>,
    i: int,
    j: int,
) -> C
    decreases steps.len(),
{
    if steps.len() == 0 {
        C::whole_spec(0)
    } else {
        let last = steps.last();
        worth::<C>(a, b, steps.drop_last(), i - last.0, j - last.1).plus_spec(
            step_worth::<C>(a, b, i, j, last),
        )
    }
}

/// Whether scores are ordered, sums keep the order, nothing is below the lowest score, and
/// leaving out several names costs as much as leaving them out one by one.
pub open spec fn scores_add_up<C: Scalar>() -> bool {
    let gap = C::ratio_spec((-4) as i64, 10);
    &&& scalar::ordered_totally::<C>()
    &&& forall|x: C, y: C, z: C|
        #![trigger x.plus_spec(z), y.plus_spec(z)]
        x.at_most_spec(y) ==> x.plus_spec(z).at_most_spec(y.plus_spec(z))
    &&& forall|x: C| C::neg_infinity_spec().at_most_spec(#[trigger] x.plus_spec(gap))
    &&& forall|x: C|
        #[trigger] x.plus_spec(gap.times_spec(C::whole_spec(1))) == x.plus_spec(gap)
    &&& forall|x: C|
        #[trigger] x.plus_spec(gap.times_spec(C::whole_spec(2))) == x.plus_spec(gap).plus_spec(gap)
    &&& forall|x: C|
        #[trigger] x.plus_spec(gap.times_spec(C::whole_spec(3))) == x.plus_spec(gap).plus_spec(
            gap,
        ).plus_spec(gap)
}

proof fn lemma_tokens_between(names: Seq<Seq<char>>, from: int, to: int)
    requires
        0 <= from <= to,
    ensures
        nw::group_tokens(names, from, to) == tokens_between(names, from, to),
    decreases to - from,
{
    if from < to {
        lemma_tokens_between(names, from, to - 1);
        lemma_tokens_end(names, from, to);
    }
}

proof fn lemma_tokens_end(names: Seq<Seq<char>>, from: int, to: int)
    requires
        from < to,
    ensures
        tokens_between(names, from, to) == tokens_between(names, from, to - 1) + nw::tokens_from(
            names[to - 1],
            0,
        ),
    decreases to - from,
{
    let last = nw::tokens_from(names[to - 1], 0);
    if from + 1 < to {
        lemma_tokens_end(names, from + 1, to);
        let first = nw::tokens_from(names[from], 0);
        assert(first + (tokens_between(names, from + 1, to - 1) + last) == first + tokens_between(
            names,
            from + 1,
            to - 1,
        ) + last);
    } else {
        assert(tokens_between(names, from + 1, to) == Seq::<Seq<char>>::empty());
        assert(last + Seq::<Seq<char>>::empty() == last);
        assert(Seq::<Seq<char>>::empty() + last == last);
    }
}

proof fn lemma_better<C: Scalar>(x: C, y: C)
    requires
        scalar::ordered_totally::<C>(),
    ensures
        x.at_most_spec(nw::better(x, y)),
        y.at_most_spec(nw::better(x, y)),
        nw::better(x, y) == x || nw::better(x, y) == y,
{
    assert(x.at_most_spec(x) && y.at_most_spec(y));
    assert(x.less_spec(y) == !y.at_most_spec(x));
}

/// Whether a score is that of one of the steps that lead to `(i, j)` from the scores of
/// shorter alignments.
spec fn comes_from<C: Scalar>(
    a: Seq<Seq<char>>,
    b: Seq<Seq<char>>,
    cells: spec_fn(int, int) -> C,
    i: int,
    j: int,
    step: (int, int),
    x: C,
) -> bool {
    is_step(step) && step.0 <= i && step.1 <= j && x == cells(i - step.0, j - step.1).plus_spec(
        step_worth::<C>(a, b, i, j, step),
    )
}

proof fn lemma_gap_right<C: Scalar>(
    a: Seq<Seq<char>>,
    b: Seq<Seq<char>>,
    cells: spec_fn(int, int) -> C,
    row: Seq<C>,
    i: int,
    j: int,
    k: int,
)
    requires
        scores_add_up::<C>(),
        1 <= k <= 3,
        k <= j,
        0 <= i,
        forall|q: int| 0 <= q < j ==> #[trigger] row[q] == cells(i, q),
    ensures
        ({
            let best = nw::best_gap_right(row, j, k);
            &&& forall|r: int|
                1 <= r <= k ==> cells(i, j - r).plus_spec(
                    #[trigger] step_worth::<C>(a, b, i, j, (0, r)),
                ).at_most_spec(best)
            &&& exists|r: int| 1 <= r <= k && #[trigger] comes_from(a, b, cells, i, j, (0, r), best)
        }),
    decreases k,
{
    let before = nw::best_gap_right(row, j, k - 1);
    let own = row[j - k].plus_spec(nw::gap_cost::<C>(k));
    assert(own == cells(i, j - k).plus_spec(step_worth::<C>(a, b, i, j, (0, k))));
    lemma_better(before, own);
    let best = nw::best_gap_right(row, j, k);
    assert(best == nw::better(before, own));
    if k == 1 {
        assert(before == C::neg_infinity_spec());
        let gap = C::ratio_spec((-4) as i64, 10);
        assert(own == cells(i, j - 1).plus_spec(gap.times_spec(C::whole_spec(1))));
        assert(own == cells(i, j - 1).plus_spec(gap));
        assert(before.at_most_spec(own));
        assert(best == own);
        assert(comes_from(a, b, cells, i, j, (0, 1), best));
    } else {
        lemma_gap_right(a, b, cells, row, i, j, k - 1);
        assert forall|r: int| 1 <= r <= k implies cells(i, j - r).plus_spec(
            #[trigger] step_worth::<C>(a, b, i, j, (0, r)),
        ).at_most_spec(best) by {}
        if best == own {
            assert(comes_from(a, b, cells, i, j, (0, k), best));
        } else {
            let r = choose|r: int|
                1 <= r <= k - 1 && #[trigger] comes_from(a, b, cells, i, j, (0, r), before);
            assert(comes_from(a, b, cells, i, j, (0, r), best));
        }
    }
}

proof fn lemma_gap_left<C: Scalar>(
    a: Seq<Seq<char>>,
    b: Seq<Seq<char>>,
    cells: spec_fn(int, int) -> C,
    rows: Seq<Seq<C>>,
    i: int,
    j: int,
    k: int,
    init: C,
)
    requires
        scores_add_up::<C>(),
        0 <= k <= 3,
        k <= i,
        0 < j,
        forall|p: int| 0 <= p < i ==> #[trigger] rows[p][j] == cells(p, j),
    ensures
        ({
            let best = nw::best_gap_left(rows, i, j, k, init);
            &&& init.at_most_spec(best)
            &&& forall|l: int|
                1 <= l <= k ==> cells(i - l, j).plus_spec(
                    #[trigger] step_worth::<C>(a, b, i, j, (l, 0)),
                ).at_most_spec(best)
            &&& best == init || exists|l: int|
                1 <= l <= k && #[trigger] comes_from(a, b, cells, i, j, (l, 0), best)
        }),
    decreases k,
{
    assert(init.at_most_spec(init));
    if k > 0 {
        lemma_gap_left(a, b, cells, rows, i, j, k - 1, init);
        let before = nw::best_gap_left(rows, i, j, k - 1, init);
        assert(rows[i - k][j] == cells(i - k, j));
        let own = rows[i - k][j].plus_spec(nw::gap_cost::<C>(k));
        assert(own == cells(i - k, j).plus_spec(step_worth::<C>(a, b, i, j, (k, 0))));
        lemma_better(before, own);
        let best = nw::best_gap_left(rows, i, j, k, init);
        assert forall|l: int| 1 <= l <= k implies cells(i - l, j).plus_spec(
            #[trigger] step_worth::<C>(a, b, i, j, (l, 0)),
        ).at_most_spec(best) by {}
        if best == own {
            assert(comes_from(a, b, cells, i, j, (k, 0), best));
        } else if best != init {
            let l = choose|l: int|
                1 <= l <= k - 1 && #[trigger] comes_from(a, b, cells, i, j, (l, 0), before);
            assert(comes_from(a, b, cells, i, j, (l, 0), best));
        }
    }
}

proof fn lemma_pair<C: Scalar>(
    a: Seq<Seq<char>>,
    b: Seq<Seq<char>>,
    cells: spec_fn(int, int) -> C,
    rows: Seq<Seq<C>>,
    i: int,
    j: int,
    left: int,
    right: int,
    init: C,
)
    requires
        scores_add_up::<C>(),
        1 <= left <= 3,
        left <= i,
        0 <= right <= 3,
        right <= j,
        forall|p: int, q: int|
            0 <= p < i && 0 <= q <= j ==> #[trigger] rows[p][q] == cells(p, q),
    ensures
        ({
            let best = nw::best_pair(a, b, rows, i, j, left, right, init);
            &&& init.at_most_spec(best)
            &&& forall|r: int|
                1 <= r <= right ==> cells(i - left, j - r).plus_spec(
                    #[trigger] step_worth::<C>(a, b, i, j, (left, r)),
                ).at_most_spec(best)
            &&& best == init || exists|r: int|
                1 <= r <= right && #[trigger] comes_from(a, b, cells, i, j, (left, r), best)
        }),
    decreases right,
{
    assert(init.at_most_spec(init));
    if right > 0 {
        lemma_pair(a, b, cells, rows, i, j, left, right - 1, init);
        let before = nw::best_pair(a, b, rows, i, j, left, right - 1, init);
        let score = nw::group_score::<C>(a, i - left, i, b, j - right, j);
        lemma_tokens_between(a, i - left, i);
        lemma_tokens_between(b, j - right, j);
        assert(rows[i - left][j - right] == cells(i - left, j - right));
        let own = rows[i - left][j - right].plus_spec(nw::pair_worth(score));
        assert(own == cells(i - left, j - right).plus_spec(
            step_worth::<C>(a, b, i, j, (left, right)),
        ));
        lemma_better(before, own);
        let best = nw::best_pair(a, b, rows, i, j, left, right, init);
        assert forall|r: int| 1 <= r <= right implies cells(i - left, j - r).plus_spec(
            #[trigger] step_worth::<C>(a, b, i, j, (left, r)),
        ).at_most_spec(best) by {}
        if best == own {
            assert(comes_from(a, b, cells, i, j, (left, right), best));
        } else if best != init {
            let r = choose|r: int|
                1 <= r <= right - 1 && #[trigger] comes_from(
                    a,
                    b,
                    cells,
                    i,
                    j,
                    (left, r),
                    before,
                );
            assert(comes_from(a, b, cells, i, j, (left, r), best));
        }
    }
}

spec fn from_some_pair<C: Scalar>(
    a: Seq<Seq<char>>,
    b: Seq<Seq<char>>,
    cells: spec_fn(int, int) -> C,
    i: int,
    j: int,
    x: C,
) -> bool {
    exists|step: (int, int)| #[trigger] comes_from(a, b, cells, i, j, step, x)
}

proof fn lemma_pairs<C: Scalar>(
    a: Seq<Seq<char>>,
    b: Seq<Seq<char>>,
    cells: spec_fn(int, int) -> C,
    rows: Seq<Seq<C>>,
    i: int,
    j: int,
    left: int,
    init: C,
)
    requires
        scores_add_up::<C>(),
        0 <= left <= 3,
        left <= i,
        0 < j,
        forall|p: int, q: int|
            0 <= p < i && 0 <= q <= j ==> #[trigger] rows[p][q] == cells(p, q),
    ensures
        ({
            let best = nw::best_pairs(a, b, rows, i, j, left, init);
            &&& init.at_most_spec(best)
            &&& forall|l: int, r: int|
                1 <= l <= left && 1 <= r <= 3 && r <= j ==> cells(i - l, j - r).plus_spec(
                    #[trigger] step_worth::<C>(a, b, i, j, (l, r)),
                ).at_most_spec(best)
            &&& best == init || from_some_pair(a, b, cells, i, j, best)
        }),
    decreases left,
{
    assert(init.at_most_spec(init));
    if left > 0 {
        lemma_pairs(a, b, cells, rows, i, j, left - 1, init);
        let before = nw::best_pairs(a, b, rows, i, j, left - 1, init);
        let right = nw::at_most(nw::GROUP as int, j);
        lemma_pair(a, b, cells, rows, i, j, left, right, before);
        let best = nw::best_pairs(a, b, rows, i, j, left, init);
        assert forall|l: int, r: int| 1 <= l <= left && 1 <= r <= 3 && r <= j implies cells(
            i - l,
            j - r,
        ).plus_spec(#[trigger] step_worth::<C>(a, b, i, j, (l, r))).at_most_spec(best) by {
            if l < left {
                assert(cells(i - l, j - r).plus_spec(
                    step_worth::<C>(a, b, i, j, (l, r)),
                ).at_most_spec(before));
            }
        }
        if best != before {
            let r = choose|r: int|
                1 <= r <= right && #[trigger] comes_from(a, b, cells, i, j, (left, r), best);
            assert(comes_from(a, b, cells, i, j, (left, r), best));
        }
    }
}

/// The score of aligning the first `i` names with the first `j`.
pub open spec fn cell<C: Scalar>(a: Seq<Seq<char>>, b: Seq<Seq<char>>, i: int, j: int) -> C {
    nw::score_rows::<C>(a, b, i)[i][j]
}

proof fn lemma_row<C: Scalar>(
    a: Seq<Seq<char>>,
    b: Seq<Seq<char>>,
    rows: Seq<Seq<C>>,
    i: int,
    m: int,
    n: int,
)
    requires
        0 <= m <= n,
    ensures
        nw::score_row(a, b, rows, i, n).len() == n + 1,
        forall|q: int|
            0 <= q <= m ==> #[trigger] nw::score_row(a, b, rows, i, n)[q] == nw::score_row(
                a,
                b,
                rows,
                i,
                m,
            )[q],
    decreases n,
{
    if n > 0 {
        if m < n {
            lemma_row(a, b, rows, i, m, n - 1);
        } else {
            lemma_row(a, b, rows, i, m - 1, n - 1);
        }
    }
}

proof fn lemma_rows<C: Scalar>(a: Seq<Seq<char>>, b: Seq<Seq<char>>, m: int, n: int)
    requires
        0 <= m <= n,
    ensures
        nw::score_rows::<C>(a, b, n).len() == n + 1,
        nw::score_rows::<C>(a, b, n)[m] == nw::score_rows::<C>(a, b, m)[m],
    decreases n,
{
    if n > 0 {
        if m < n {
            lemma_rows::<C>(a, b, m, n - 1);
        } else {
            lemma_rows::<C>(a, b, m - 1, n - 1);
        }
    } else {
        assert(nw::score_rows::<C>(a, b, -1) == Seq::<Seq<C>>::empty());
    }
}

/// A score is at least that of every step that leads to it, and that of one of them.
proof fn lemma_cell<C: Scalar>(a: Seq<Seq<char>>, b: Seq<Seq<char>>, i: int, j: int)
    requires
        scores_add_up::<C>(),
        0 <= i,
        0 <= j <= b.len(),
    ensures
        i == 0 && j == 0 ==> cell::<C>(a, b, i, j) == C::whole_spec(0),
        forall|l: int, r: int|
            is_step((l, r)) && l <= i && r <= j ==> cell::<C>(a, b, i - l, j - r).plus_spec(
                #[trigger] step_worth::<C>(a, b, i, j, (l, r)),
            ).at_most_spec(cell::<C>(a, b, i, j)),
        i > 0 || j > 0 ==> exists|step: (int, int)|
            is_step(step) && step.0 <= i && step.1 <= j && cell::<C>(a, b, i, j) == cell::<C>(
                a,
                b,
                i - step.0,
                j - step.1,
            ).plus_spec(#[trigger] step_worth::<C>(a, b, i, j, step)),
    decreases i + j,
{
    let cells = |p: int, q: int| cell::<C>(a, b, p, q);
    let rows = nw::score_rows::<C>(a, b, i - 1);
    let n = b.len() as int;
    let all = nw::score_row(a, b, rows, i, n);
    let gap = C::ratio_spec((-4) as i64, 10);
    if i > 0 {
        lemma_rows::<C>(a, b, i - 1, i - 1);
    } else {
        assert(rows == Seq::<Seq<C>>::empty());
    }
    assert(nw::score_rows::<C>(a, b, i)[i] == all);
    lemma_row(a, b, rows, i, j, n);
    assert forall|p: int, q: int| 0 <= p < i && 0 <= q <= j implies #[trigger] rows[p][q] == cells(
        p,
        q,
    ) by {
        lemma_rows::<C>(a, b, p, i - 1);
    }
    let here = cell::<C>(a, b, i, j);
    assert(here == nw::score_row(a, b, rows, i, j)[j]);
    assert(here.at_most_spec(here));
    if i == 0 && j == 0 {
    } else if j == 0 {
        assert(here == rows[i - 1][0].plus_spec(gap));
        assert(rows[i - 1][0] == cells(i - 1, 0));
        assert forall|l: int, r: int| is_step((l, r)) && l <= i && r <= j implies cell::<C>(
            a,
            b,
            i - l,
            j - r,
        ).plus_spec(#[trigger] step_worth::<C>(a, b, i, j, (l, r))).at_most_spec(here) by {
            assert(r == 0);
            lemma_border_left::<C>(a, b, i, l);
        }
        assert(step_worth::<C>(a, b, i, j, (1, 0)) == gap.times_spec(C::whole_spec(1)));
        assert(cells(i - 1, 0).plus_spec(gap.times_spec(C::whole_spec(1))) == here);
    } else if i == 0 {
        let row = nw::score_row(a, b, rows, i, j - 1);
        lemma_row(a, b, rows, i, j - 1, j - 1);
        assert(here == row[j - 1].plus_spec(gap));
        lemma_row(a, b, rows, i, j - 1, n);
        assert(row[j - 1] == cells(0, j - 1));
        assert forall|l: int, r: int| is_step((l, r)) && l <= i && r <= j implies cell::<C>(
            a,
            b,
            i - l,
            j - r,
        ).plus_spec(#[trigger] step_worth::<C>(a, b, i, j, (l, r))).at_most_spec(here) by {
            assert(l == 0);
            lemma_border_top::<C>(a, b, j, r);
        }
        assert(step_worth::<C>(a, b, i, j, (0, 1)) == gap.times_spec(C::whole_spec(1)));
        assert(cells(0, j - 1).plus_spec(gap.times_spec(C::whole_spec(1))) == here);
    } else {
        let row = nw::score_row(a, b, rows, i, j - 1);
        lemma_row(a, b, rows, i, j - 1, j - 1);
        lemma_row(a, b, rows, i, j - 1, n);
        assert(here == nw::best_step(a, b, rows, row, i, j));
        assert forall|q: int| 0 <= q < j implies #[trigger] row[q] == cells(i, q) by {}
        let k = nw::at_most(nw::GROUP as int, j);
        let h = nw::at_most(nw::GROUP as int, i);
        lemma_gap_right(a, b, cells, row, i, j, k);
        let first = nw::best_gap_right(row, j, k);
        lemma_gap_left(a, b, cells, rows, i, j, h, first);
        let second = nw::best_gap_left(rows, i, j, h, first);
        lemma_pairs(a, b, cells, rows, i, j, h, second);
        assert forall|l: int, r: int| is_step((l, r)) && l <= i && r <= j implies cell::<C>(
            a,
            b,
            i - l,
            j - r,
        ).plus_spec(#[trigger] step_worth::<C>(a, b, i, j, (l, r))).at_most_spec(here) by {
            if l == 0 {
                assert(cells(i, j - r).plus_spec(
                    step_worth::<C>(a, b, i, j, (0, r)),
                ).at_most_spec(first));
            } else if r == 0 {
                assert(cells(i - l, j).plus_spec(
                    step_worth::<C>(a, b, i, j, (l, 0)),
                ).at_most_spec(second));
            } else {
                assert(cells(i - l, j - r).plus_spec(
                    step_worth::<C>(a, b, i, j, (l, r)),
                ).at_most_spec(here));
            }
        }
        if here != second {
            assert(from_some_pair(a, b, cells, i, j, here));
            let step = choose|step: (int, int)| #[trigger]
                comes_from(a, b, cells, i, j, step, here);
            assert(comes_from(a, b, cells, i, j, step, here));
        } else if second != first {
            let l = choose|l: int|
                1 <= l <= h && #[trigger] comes_from(a, b, cells, i, j, (l, 0), second);
            assert(comes_from(a, b, cells, i, j, (l, 0), here));
        } else {
            let r = choose|r: int|
                1 <= r <= k && #[trigger] comes_from(a, b, cells, i, j, (0, r), first);
            assert(comes_from(a, b, cells, i, j, (0, r), here));
        }
    }
}

proof fn lemma_first_column<C: Scalar>(a: Seq<Seq<char>>, b: Seq<Seq<char>>, i: int)
    requires
        i > 0,
    ensures
        cell::<C>(a, b, i, 0) == cell::<C>(a, b, i - 1, 0).plus_spec(C::ratio_spec((-4) as i64, 10)),
{
    let rows = nw::score_rows::<C>(a, b, i - 1);
    lemma_rows::<C>(a, b, i - 1, i - 1);
    lemma_row(a, b, rows, i, 0, b.len() as int);
    assert(nw::score_rows::<C>(a, b, i)[i] == nw::score_row(a, b, rows, i, b.len() as int));
}

proof fn lemma_first_row<C: Scalar>(a: Seq<Seq<char>>, b: Seq<Seq<char>>, j: int)
    requires
        0 < j <= b.len(),
    ensures
        cell::<C>(a, b, 0, j) == cell::<C>(a, b, 0, j - 1).plus_spec(C::ratio_spec((-4) as i64, 10)),
{
    let rows = nw::score_rows::<C>(a, b, -1);
    assert(rows == Seq::<Seq<C>>::empty());
    lemma_row(a, b, rows, 0, j, b.len() as int);
    lemma_row(a, b, rows, 0, j - 1, b.len() as int);
    lemma_row(a, b, rows, 0, j - 1, j - 1);
    assert(nw::score_rows::<C>(a, b, 0)[0] == nw::score_row(a, b, rows, 0, b.len() as int));
}

proof fn lemma_border_left<C: Scalar>(a: Seq<Seq<char>>, b: Seq<Seq<char>>, i: int, l: int)
    requires
        scores_add_up::<C>(),
        1 <= l <= 3,
        l <= i,
    ensures
        cell::<C>(a, b, i - l, 0).plus_spec(step_worth::<C>(a, b, i, 0, (l, 0))) == cell::<C>(
            a,
            b,
            i,
            0,
        ),
        cell::<C>(a, b, i, 0).at_most_spec(cell::<C>(a, b, i, 0)),
{
    lemma_first_column::<C>(a, b, i);
    if l >= 2 {
        lemma_first_column::<C>(a, b, i - 1);
    }
    if l >= 3 {
        lemma_first_column::<C>(a, b, i - 2);
    }
    let gap = C::ratio_spec((-4) as i64, 10);
    let x = cell::<C>(a, b, i - l, 0);
    assert(l == 1 ==> x.plus_spec(gap.times_spec(C::whole_spec(1))) == x.plus_spec(gap));
    assert(l == 2 ==> x.plus_spec(gap.times_spec(C::whole_spec(2))) == x.plus_spec(gap).plus_spec(
        gap,
    ));
    assert(l == 3 ==> x.plus_spec(gap.times_spec(C::whole_spec(3))) == x.plus_spec(gap).plus_spec(
        gap,
    ).plus_spec(gap));
}

proof fn lemma_border_top<C: Scalar>(a: Seq<Seq<char>>, b: Seq<Seq<char>>, j: int, r: int)
    requires
        scores_add_up::<C>(),
        1 <= r <= 3,
        r <= j <= b.len(),
    ensures
        cell::<C>(a, b, 0, j - r).plus_spec(step_worth::<C>(a, b, 0, j, (0, r))) == cell::<C>(
            a,
            b,
            0,
            j,
        ),
        cell::<C>(a, b, 0, j).at_most_spec(cell::<C>(a, b, 0, j)),
{
    lemma_first_row::<C>(a, b, j);
    if r >= 2 {
        lemma_first_row::<C>(a, b, j - 1);
    }
    if r >= 3 {
        lemma_first_row::<C>(a, b, j - 2);
    }
    let gap = C::ratio_spec((-4) as i64, 10);
    let x = cell::<C>(a, b, 0, j - r);
    assert(r == 1 ==> x.plus_spec(gap.times_spec(C::whole_spec(1))) == x.plus_spec(gap));
    assert(r == 2 ==> x.plus_spec(gap.times_spec(C::whole_spec(2))) == x.plus_spec(gap).plus_spec(
        gap,
    ));
    assert(r == 3 ==> x.plus_spec(gap.times_spec(C::whole_spec(3))) == x.plus_spec(gap).plus_spec(
        gap,
    ).plus_spec(gap));
}

/// No alignment of two lists of names is worth more than their score.
pub proof fn no_alignment_is_better<C: Scalar>(
    a: Seq<Seq<char>>,
    b: Seq<Seq<char>>,
    steps: Seq<(int, int)>,
    i: int,
    j: int,
)
    requires
        scores_add_up::<C>(),
        leads_to(steps, i, j),
        0 <= i,
        0 <= j <= b.len(),
    ensures
        worth::<C>(a, b, steps, i, j).at_most_spec(cell::<C>(a, b, i, j)),
    decreases steps.len(),
{
    lemma_cell::<C>(a, b, i, j);
    if steps.len() == 0 {
        assert(C::whole_spec(0).at_most_spec(C::whole_spec(0)));
    } else {
        let last = steps.last();
        no_alignment_is_better::<C>(a, b, steps.drop_last(), i - last.0, j - last.1);
        let x = worth::<C>(a, b, steps.drop_last(), i - last.0, j - last.1);
        let y = cell::<C>(a, b, i - last.0, j - last.1);
        let w = step_worth::<C>(a, b, i, j, last);
        assert(last == (last.0, last.1));
        assert(x.plus_spec(w).at_most_spec(y.plus_spec(w)));
        assert(y.plus_spec(w).at_most_spec(cell::<C>(a, b, i, j)));
    }
}

/// Some alignment of two lists of names is worth their score.
pub proof fn some_alignment_is_as_good<C: Scalar>(
    a: Seq<Seq<char>>,
    b: Seq<Seq<char>>,
    i: int,
    j: int,
) -> (steps: Seq<(int, int)>)
    requires
        scores_add_up::<C>(),
        0 <= i,
        0 <= j <= b.len(),
    ensures
        leads_to(steps, i, j),
        worth::<C>(a, b, steps, i, j) == cell::<C>(a, b, i, j),
    decreases i + j,
{
    lemma_cell::<C>(a, b, i, j);
    if i == 0 && j == 0 {
        Seq::empty()
    } else {
        let step = choose|step: (int, int)|
            is_step(step) && step.0 <= i && step.1 <= j && cell::<C>(a, b, i, j) == cell::<C>(
                a,
                b,
                i - step.0,
                j - step.1,
            ).plus_spec(#[trigger] step_worth::<C>(a, b, i, j, step));
        let before = some_alignment_is_as_good::<C>(a, b, i - step.0, j - step.1);
        let steps = before.push(step);
        assert(steps.drop_last() == before);
        steps
    }
}

/// Two blocks belong together as surely as the best alignment of their names is worth, by
/// the longer of them, on a scale that takes minus one to zero and one to one. Two empty
/// blocks are sure to belong together, and an empty one does not belong to any other.
pub proof fn confidence_is_the_worth_of_the_best_alignment<C: Scalar>(
    a: Seq<Seq<char>>,
    b: Seq<Seq<char>>,
) -> (steps: Seq<(int, int)>)
    requires
        scores_add_up::<C>(),
    ensures
        a.len() == 0 && b.len() == 0 ==> nw::confidence::<C>(a, b) == C::whole_spec(1),
        a.len() == 0 && b.len() > 0 || a.len() > 0 && b.len() == 0 ==> nw::confidence::<C>(a, b)
            == C::whole_spec(0),
        leads_to(steps, a.len() as int, b.len() as int),
        forall|other: Seq<(int, int)>| #[trigger]
            leads_to(other, a.len() as int, b.len() as int) ==> worth::<C>(
                a,
                b,
                other,
                a.len() as int,
                b.len() as int,
            ).at_most_spec(worth::<C>(a, b, steps, a.len() as int, b.len() as int)),
        a.len() > 0 && b.len() > 0 ==> {
            let longest = C::whole_spec(
                if a.len() < b.len() {
                    b.len() as u64
                } else {
                    a.len() as u64
                },
            );
            let scaled = worth::<C>(a, b, steps, a.len() as int, b.len() as int).over_spec(
                longest,
            ).plus_spec(C::whole_spec(1)).over_spec(C::whole_spec(2));
            C::whole_spec(0).less_spec(longest) ==> {
                &&& C::whole_spec(0).at_most_spec(scaled) && scaled.at_most_spec(
                    C::whole_spec(1),
                ) ==> nw::confidence::<C>(a, b) == scaled
                &&& scaled.less_spec(C::whole_spec(0)) ==> nw::confidence::<C>(a, b)
                    == C::whole_spec(0)
                &&& C::whole_spec(1).less_spec(scaled) && C::whole_spec(0).at_most_spec(scaled)
                    ==> nw::confidence::<C>(a, b) == C::whole_spec(1)
            }
        },
{
    let i = a.len() as int;
    let j = b.len() as int;
    let steps = some_alignment_is_as_good::<C>(a, b, i, j);
    assert forall|other: Seq<(int, int)>| #[trigger] leads_to(other, i, j) implies worth::<C>(
        a,
        b,
        other,
        i,
        j,
    ).at_most_spec(worth::<C>(a, b, steps, i, j)) by {
        no_alignment_is_better::<C>(a, b, other, i, j);
    }
    steps
}

} // verus!
