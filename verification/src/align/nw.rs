//! Aligning the kernels of two blocks, with groups of kernels allowed to stand
//! for each other.
use vstd::prelude::*;
use crate::scalar::Scalar;
use crate::text::{self, chars_of, is_alphanumeric, text_between, to_lowercase};
use crate::trace::KernelEvent;

verus! {

/// How many kernels of a side may be fused into one group.
pub const GROUP: usize = 3;

/// What leaving out a kernel costs, in tenths.
pub const GAP_TENTHS: i64 = -4;

/// What pairing groups that have little in common costs, in tenths.
pub const MISMATCH_TENTHS: i64 = -2;

/// The end of the run of letters and digits from position `i` on.
pub open spec fn token_end(s: Seq<char>, i: int) -> int
    decreases s.len() - i,
{
    if 0 <= i < s.len() && text::alphanumeric_char(s[i]) {
        token_end(s, i + 1)
    } else {
        i
    }
}

proof fn lemma_token_end(s: Seq<char>, i: int)
    requires
        0 <= i <= s.len(),
    ensures
        i <= token_end(s, i) <= s.len(),
    decreases s.len() - i,
{
    if i < s.len() && text::alphanumeric_char(s[i]) {
        lemma_token_end(s, i + 1);
    }
}

/// The runs of letters and digits of a name from position `i` on, in lower case.
pub open spec fn tokens_from(s: Seq<char>, i: int) -> Seq<Seq<char>>
    decreases s.len() - i,
    via tokens_from_decreases
{
    if i < 0 || i >= s.len() {
        Seq::empty()
    } else if !text::alphanumeric_char(s[i]) {
        tokens_from(s, i + 1)
    } else {
        seq![text::lowercase_text(s.subrange(i, token_end(s, i)))] + tokens_from(
            s,
            token_end(s, i),
        )
    }
}

#[via_fn]
proof fn tokens_from_decreases(s: Seq<char>, i: int) {
    if 0 <= i < s.len() && text::alphanumeric_char(s[i]) {
        lemma_token_end(s, i + 1);
    }
}

/// The tokens of a name: its runs of letters and digits, in lower case.
pub fn normalize_tokens(name: &str) -> (r: Vec<String>)
    ensures
        text::texts(r@) == tokens_from(name@, 0),
{
    let chars = chars_of(name);
    let n: usize = chars.len();
    let mut out: Vec<String> = Vec::new();
    let mut i: usize = 0;
    assert(text::texts(out@) + tokens_from(chars@, 0) == tokens_from(chars@, 0));
    while i < n
        invariant
            i <= n == chars@.len(),
            text::texts(out@) + tokens_from(chars@, i as int) == tokens_from(chars@, 0),
        decreases n - i,
    {
        if !is_alphanumeric(chars[i]) {
            i += 1;
            continue;
        }
        let mut e: usize = i;
        while e < n && is_alphanumeric(chars[e])
            invariant
                i <= e <= n == chars@.len(),
                token_end(chars@, i as int) == token_end(chars@, e as int),
            decreases n - e,
        {
            e += 1;
        }
        let token = to_lowercase(text_between(&chars, i, e).as_str());
        proof {
            lemma_token_end(chars@, i + 1);
            let rest = tokens_from(chars@, e as int);
            assert(tokens_from(chars@, i as int) == seq![token@] + rest);
            assert(text::texts(out@) + (seq![token@] + rest) == text::texts(out@).push(token@)
                + rest);
            assert(text::texts(out@.push(token)) == text::texts(out@).push(token@));
        }
        out.push(token);
        i = e;
    }
    assert(tokens_from(chars@, n as int) == Seq::<Seq<char>>::empty());
    assert(text::texts(out@) + Seq::<Seq<char>>::empty() == text::texts(out@));
    out
}

/// The tokens of the names `from..to`, name after name.
pub open spec fn group_tokens(names: Seq<Seq<char>>, from: int, to: int) -> Seq<Seq<char>>
    decreases to - from,
{
    if to <= from {
        Seq::empty()
    } else {
        group_tokens(names, from, to - 1) + tokens_from(names[to - 1], 0)
    }
}

/// How many of the first `n` of some texts stand in a list of texts.
pub open spec fn shared_count(a: Seq<Seq<char>>, b: Seq<Seq<char>>, n: int) -> int
    decreases n,
{
    if n <= 0 {
        0
    } else if b.contains(a[n - 1]) {
        shared_count(a, b, n - 1) + 1
    } else {
        shared_count(a, b, n - 1)
    }
}

/// The share of texts that two lists have in common, by the longer list; one
/// where both are empty.
pub open spec fn overlap<C: Scalar>(a: Seq<Seq<char>>, b: Seq<Seq<char>>) -> C {
    let most = if a.len() > b.len() {
        a.len()
    } else {
        b.len()
    };
    if most == 0 {
        C::whole_spec(1)
    } else {
        C::whole_spec(shared_count(a, b, a.len() as int) as u64).over_spec(
            C::whole_spec(most as u64),
        )
    }
}

/// Whether a text stands in a list of texts.
fn stands_in(list: &Vec<String>, s: &String) -> (r: bool)
    ensures
        r == text::texts(list@).contains(s@),
{
    let ghost all = text::texts(list@);
    let mut i: usize = 0;
    while i < list.len()
        invariant
            i <= list@.len(),
            all == text::texts(list@),
            forall|j: int| 0 <= j < i ==> #[trigger] all[j] != s@,
        decreases list@.len() - i,
    {
        assert(all[i as int] == list@[i as int]@);
        if list[i] == *s {
            return true;
        }
        i += 1;
    }
    false
}

/// The share of texts that two lists have in common.
pub fn text_overlap<C: Scalar>(a: &Vec<String>, b: &Vec<String>) -> (r: C)
    ensures
        r == overlap::<C>(text::texts(a@), text::texts(b@)),
{
    let ghost ta = text::texts(a@);
    let ghost tb = text::texts(b@);
    let most: usize = if a.len() > b.len() {
        a.len()
    } else {
        b.len()
    };
    if most == 0 {
        return C::whole(1);
    }
    let mut shared: usize = 0;
    let mut i: usize = 0;
    while i < a.len()
        invariant
            i <= a@.len(),
            ta == text::texts(a@),
            tb == text::texts(b@),
            shared <= i,
            shared == shared_count(ta, tb, i as int),
        decreases a@.len() - i,
    {
        assert(ta[i as int] == a@[i as int]@);
        if stands_in(b, &a[i]) {
            shared += 1;
        }
        i += 1;
    }
    C::whole(shared as u64).over(C::whole(most as u64))
}

/// The tokens of the names `from..to`, name after name.
fn tokens_of_group(names: &Vec<&str>, from: usize, to: usize) -> (r: Vec<String>)
    requires
        from <= to <= names@.len(),
    ensures
        text::texts(r@) == group_tokens(crate::diff::name_texts(names@), from as int, to as int),
{
    let ghost all = crate::diff::name_texts(names@);
    let mut out: Vec<String> = Vec::new();
    let mut i: usize = from;
    assert(text::texts(out@) == group_tokens(all, from as int, from as int));
    while i < to
        invariant
            from <= i <= to <= names@.len(),
            all == crate::diff::name_texts(names@),
            text::texts(out@) == group_tokens(all, from as int, i as int),
        decreases to - i,
    {
        let tokens = normalize_tokens(names[i]);
        let ghost before = out@;
        let ghost list = text::texts(tokens@);
        assert(all[i as int] == names@[i as int]@);
        assert(list.take(0) + list == list);
        assert(text::texts(before) + list.take(0) == text::texts(before));
        for t in it: tokens
            invariant
                list == text::texts(it.seq()),
                text::texts(out@) == text::texts(before) + list.take(it.index()),
        {
            assert(list.take(it.index() + 1) == list.take(it.index()).push(t@));
            let ghost was = out@;
            out.push(t);
            assert(text::texts(out@) == text::texts(was).push(t@));
        }
        assert(list.take(list.len() as int) == list);
        i += 1;
    }
    out
}

/// The share of tokens that two groups of names have in common; one where
/// neither has any.
pub open spec fn group_score<C: Scalar>(
    a: Seq<Seq<char>>,
    a_from: int,
    a_to: int,
    b: Seq<Seq<char>>,
    b_from: int,
    b_to: int,
) -> C {
    overlap::<C>(group_tokens(a, a_from, a_to), group_tokens(b, b_from, b_to))
}

/// What a step that leaves out `k` kernels costs.
pub open spec fn gap_cost<C: Scalar>(k: int) -> C {
    C::ratio_spec(GAP_TENTHS, 10).times_spec(C::whole_spec(k as u64))
}

/// What pairing two groups is worth: the share of their tokens where it is more
/// than half, else the cost of a mismatch.
pub open spec fn pair_worth<C: Scalar>(score: C) -> C {
    if C::ratio_spec(5, 10).less_spec(score) {
        score
    } else {
        C::ratio_spec(MISMATCH_TENTHS, 10)
    }
}

/// The better of two scores.
pub open spec fn better<C: Scalar>(best: C, v: C) -> C {
    if best.less_spec(v) {
        v
    } else {
        best
    }
}

/// The smaller of two counts.
pub open spec fn at_most(a: int, b: int) -> int {
    if a < b {
        a
    } else {
        b
    }
}

/// The best score of leaving out one to `k` kernels of the second side at column
/// `j`, given the row so far.
pub open spec fn best_gap_right<C: Scalar>(row: Seq<C>, j: int, k: int) -> C
    decreases k,
{
    if k <= 0 {
        C::neg_infinity_spec()
    } else {
        better(best_gap_right(row, j, k - 1), row[j - k].plus_spec(gap_cost::<C>(k)))
    }
}

/// The best of `init` and of leaving out one to `k` kernels of the first side at
/// row `i`, given the rows so far.
pub open spec fn best_gap_left<C: Scalar>(
    rows: Seq<Seq<C>>,
    i: int,
    j: int,
    k: int,
    init: C,
) -> C
    decreases k,
{
    if k <= 0 {
        init
    } else {
        better(
            best_gap_left(rows, i, j, k - 1, init),
            rows[i - k][j].plus_spec(gap_cost::<C>(k)),
        )
    }
}

/// The best of `init` and of pairing the last `left` kernels of the first side
/// with the last one to `right` of the second.
pub open spec fn best_pair<C: Scalar>(
    a: Seq<Seq<char>>,
    b: Seq<Seq<char>>,
    rows: Seq<Seq<C>>,
    i: int,
    j: int,
    left: int,
    right: int,
    init: C,
) -> C
    decreases right,
{
    if right <= 0 {
        init
    } else {
        let score = group_score::<C>(a, i - left, i, b, j - right, j);
        better(
            best_pair(a, b, rows, i, j, left, right - 1, init),
            rows[i - left][j - right].plus_spec(pair_worth(score)),
        )
    }
}

/// The best of `init` and of pairing the last one to `left` kernels of the first
/// side with the last one to three of the second.
pub open spec fn best_pairs<C: Scalar>(
    a: Seq<Seq<char>>,
    b: Seq<Seq<char>>,
    rows: Seq<Seq<C>>,
    i: int,
    j: int,
    left: int,
    init: C,
) -> C
    decreases left,
{
    if left <= 0 {
        init
    } else {
        best_pair(
            a,
            b,
            rows,
            i,
            j,
            left,
            at_most(GROUP as int, j),
            best_pairs(a, b, rows, i, j, left - 1, init),
        )
    }
}

/// The best score of aligning the first `i` names of one side with the first `j`
/// of the other, given the scores of all shorter alignments: a step leaves out
/// up to three kernels of one side, or pairs up to three of one side with up to
/// three of the other.
pub open spec fn best_step<C: Scalar>(
    a: Seq<Seq<char>>,
    b: Seq<Seq<char>>,
    rows: Seq<Seq<C>>,
    row: Seq<C>,
    i: int,
    j: int,
) -> C {
    best_pairs(
        a,
        b,
        rows,
        i,
        j,
        at_most(GROUP as int, i),
        best_gap_left(
            rows,
            i,
            j,
            at_most(GROUP as int, i),
            best_gap_right(row, j, at_most(GROUP as int, j)),
        ),
    )
}

/// The scores of aligning the first `i` names of one side with the first
/// `0..=m` of the other, given the rows before.
pub open spec fn score_row<C: Scalar>(
    a: Seq<Seq<char>>,
    b: Seq<Seq<char>>,
    rows: Seq<Seq<C>>,
    i: int,
    m: int,
) -> Seq<C>
    decreases m,
{
    if m <= 0 {
        if i <= 0 {
            seq![C::whole_spec(0)]
        } else {
            seq![rows[i - 1][0].plus_spec(C::ratio_spec(GAP_TENTHS, 10))]
        }
    } else {
        let row = score_row(a, b, rows, i, m - 1);
        if i <= 0 {
            row.push(row[m - 1].plus_spec(C::ratio_spec(GAP_TENTHS, 10)))
        } else {
            row.push(best_step(a, b, rows, row, i, m))
        }
    }
}

/// The scores of aligning the first `0..=n` names of one side with those of the
/// other.
pub open spec fn score_rows<C: Scalar>(a: Seq<Seq<char>>, b: Seq<Seq<char>>, n: int) -> Seq<Seq<C>>
    decreases n + 1,
{
    if n < 0 {
        Seq::empty()
    } else {
        let rows = score_rows::<C>(a, b, n - 1);
        rows.push(score_row(a, b, rows, n, b.len() as int))
    }
}

/// A number moved into the span from zero to one.
pub open spec fn into_unit<C: Scalar>(x: C) -> C {
    if x.less_spec(C::whole_spec(0)) {
        C::whole_spec(0)
    } else if C::whole_spec(1).less_spec(x) {
        C::whole_spec(1)
    } else {
        x
    }
}

/// How surely two lists of names belong together: the best alignment score by
/// the longer list, moved into the span from zero to one.
pub open spec fn confidence<C: Scalar>(a: Seq<Seq<char>>, b: Seq<Seq<char>>) -> C {
    if a.len() == 0 && b.len() == 0 {
        C::whole_spec(1)
    } else if a.len() == 0 || b.len() == 0 {
        C::whole_spec(0)
    } else {
        let raw = score_rows::<C>(a, b, a.len() as int)[a.len() as int][b.len() as int];
        let most = C::whole_spec(
            (if a.len() > b.len() {
                a.len()
            } else {
                b.len()
            }) as u64,
        );
        if most.at_most_spec(C::whole_spec(0)) {
            C::whole_spec(0)
        } else {
            into_unit(
                raw.over_spec(most).plus_spec(C::whole_spec(1)).over_spec(C::whole_spec(2)),
            )
        }
    }
}

/// The better of two scores.
fn pick_better<C: Scalar>(best: C, v: C) -> (r: C)
    ensures
        r == better(best, v),
{
    if best.less(v) {
        v
    } else {
        best
    }
}

/// The smaller of two counts.
fn fewer(a: usize, b: usize) -> (r: usize)
    ensures
        r == at_most(a as int, b as int),
{
    if a < b {
        a
    } else {
        b
    }
}

/// The share of tokens that two groups of names have in common.
fn token_overlap_score<C: Scalar>(
    a: &Vec<&str>,
    a_from: usize,
    a_to: usize,
    b: &Vec<&str>,
    b_from: usize,
    b_to: usize,
) -> (r: C)
    requires
        a_from <= a_to <= a@.len(),
        b_from <= b_to <= b@.len(),
    ensures
        r == group_score::<C>(
            crate::diff::name_texts(a@),
            a_from as int,
            a_to as int,
            crate::diff::name_texts(b@),
            b_from as int,
            b_to as int,
        ),
{
    let ta = tokens_of_group(a, a_from, a_to);
    let tb = tokens_of_group(b, b_from, b_to);
    text_overlap(&ta, &tb)
}

/// The views of a list of rows.
pub open spec fn row_views<C>(rows: Seq<Vec<C>>) -> Seq<Seq<C>> {
    rows.map_values(|r: Vec<C>| r@)
}

/// The best score of aligning the first `i` names of one side with the first `j`
/// of the other, given the scores of all shorter alignments.
fn take_best_step<C: Scalar>(
    a: &Vec<&str>,
    b: &Vec<&str>,
    rows: &Vec<Vec<C>>,
    row: &Vec<C>,
    i: usize,
    j: usize,
) -> (r: C)
    requires
        1 <= i <= a@.len(),
        1 <= j <= b@.len(),
        rows@.len() == i,
        forall|p: int| 0 <= p < i ==> (#[trigger] rows@[p])@.len() == b@.len() + 1,
        row@.len() == j,
    ensures
        r == best_step(
            crate::diff::name_texts(a@),
            crate::diff::name_texts(b@),
            row_views(rows@),
            row@,
            i as int,
            j as int,
        ),
{
    let ghost ta = crate::diff::name_texts(a@);
    let ghost tb = crate::diff::name_texts(b@);
    let ghost views = row_views(rows@);
    let lefts: usize = fewer(GROUP, i);
    let rights: usize = fewer(GROUP, j);
    let gap = C::ratio(GAP_TENTHS, 10);
    let mut best = C::neg_infinity();
    let mut k: usize = 1;
    while k <= rights
        invariant
            1 <= k <= rights + 1,
            rights <= j == row@.len(),
            rights <= 3,
            gap == C::ratio_spec(GAP_TENTHS, 10),
            best == best_gap_right(row@, j as int, k - 1),
        decreases rights + 1 - k,
    {
        best = pick_better(best, row[j - k].plus(gap.times(C::whole(k as u64))));
        k += 1;
    }
    let ghost first = best;
    let mut k: usize = 1;
    while k <= lefts
        invariant
            1 <= k <= lefts + 1,
            lefts <= i == rows@.len(),
            lefts <= 3,
            j <= b@.len(),
            forall|p: int| 0 <= p < i ==> (#[trigger] rows@[p])@.len() == b@.len() + 1,
            views == row_views(rows@),
            gap == C::ratio_spec(GAP_TENTHS, 10),
            best == best_gap_left(views, i as int, j as int, k - 1, first),
        decreases lefts + 1 - k,
    {
        assert(rows@[i - k]@.len() == b@.len() + 1);
        assert(views[i - k] == rows@[i - k]@);
        best = pick_better(best, rows[i - k][j].plus(gap.times(C::whole(k as u64))));
        k += 1;
    }
    let ghost second = best;
    let half = C::ratio(5, 10);
    let mismatch = C::ratio(MISMATCH_TENTHS, 10);
    let mut left: usize = 1;
    while left <= lefts
        invariant
            1 <= left <= lefts + 1,
            lefts <= i == rows@.len(),
            lefts <= 3,
            rights == at_most(GROUP as int, j as int),
            rights <= j,
            rights <= 3,
            i <= a@.len(),
            j <= b@.len(),
            forall|p: int| 0 <= p < i ==> (#[trigger] rows@[p])@.len() == b@.len() + 1,
            ta == crate::diff::name_texts(a@),
            tb == crate::diff::name_texts(b@),
            views == row_views(rows@),
            half == C::ratio_spec(5, 10),
            mismatch == C::ratio_spec(MISMATCH_TENTHS, 10),
            best == best_pairs(ta, tb, views, i as int, j as int, left - 1, second),
        decreases lefts + 1 - left,
    {
        let ghost start = best;
        let mut right: usize = 1;
        while right <= rights
            invariant
                1 <= left <= lefts <= i == rows@.len(),
                1 <= right <= rights + 1,
                rights <= j,
                rights <= 3,
                i <= a@.len(),
                j <= b@.len(),
                forall|p: int| 0 <= p < i ==> (#[trigger] rows@[p])@.len() == b@.len() + 1,
                ta == crate::diff::name_texts(a@),
                tb == crate::diff::name_texts(b@),
                views == row_views(rows@),
                half == C::ratio_spec(5, 10),
                mismatch == C::ratio_spec(MISMATCH_TENTHS, 10),
                best == best_pair(
                    ta,
                    tb,
                    views,
                    i as int,
                    j as int,
                    left as int,
                    right - 1,
                    start,
                ),
            decreases rights + 1 - right,
        {
            let score: C = token_overlap_score(a, i - left, i, b, j - right, j);
            let worth = if half.less(score) {
                score
            } else {
                mismatch
            };
            assert(rows@[i - left]@.len() == b@.len() + 1);
            assert(views[i - left] == rows@[i - left]@);
            best = pick_better(best, rows[i - left][j - right].plus(worth));
            right += 1;
        }
        left += 1;
    }
    best
}

/// How surely two lists of names belong together.
pub fn names_confidence<C: Scalar>(a: &Vec<&str>, b: &Vec<&str>) -> (r: C)
    ensures
        r == confidence::<C>(crate::diff::name_texts(a@), crate::diff::name_texts(b@)),
{
    let ghost ta = crate::diff::name_texts(a@);
    let ghost tb = crate::diff::name_texts(b@);
    let n: usize = a.len();
    let m: usize = b.len();
    if n == 0 && m == 0 {
        return C::whole(1);
    }
    if n == 0 || m == 0 {
        return C::whole(0);
    }
    let gap = C::ratio(GAP_TENTHS, 10);
    let mut rows: Vec<Vec<C>> = Vec::new();
    let mut first: Vec<C> = Vec::new();
    first.push(C::whole(0));
    assert(first@ == score_row::<C>(ta, tb, Seq::empty(), 0, 0));
    let mut j: usize = 0;
    while j < m
        invariant
            j <= m,
            m == tb.len() == b@.len(),
            gap == C::ratio_spec(GAP_TENTHS, 10),
            first@ == score_row::<C>(ta, tb, Seq::empty(), 0, j as int),
            first@.len() == j + 1,
        decreases m - j,
    {
        first.push(first[j].plus(gap));
        j += 1;
    }
    rows.push(first);
    assert(score_rows::<C>(ta, tb, -1) == Seq::<Seq<C>>::empty());
    assert(row_views(rows@) == score_rows::<C>(ta, tb, 0));
    let mut i: usize = 0;
    while i < n
        invariant
            i <= n,
            n == ta.len() == a@.len(),
            m == tb.len() == b@.len(),
            m > 0,
            ta == crate::diff::name_texts(a@),
            tb == crate::diff::name_texts(b@),
            gap == C::ratio_spec(GAP_TENTHS, 10),
            rows@.len() == i + 1,
            row_views(rows@) == score_rows::<C>(ta, tb, i as int),
            forall|p: int| 0 <= p <= i ==> (#[trigger] rows@[p])@.len() == m + 1,
        decreases n - i,
    {
        let ghost views = row_views(rows@);
        let mut row: Vec<C> = Vec::new();
        assert(rows@[i as int]@.len() == m + 1);
        assert(views[i as int] == rows@[i as int]@);
        row.push(rows[i][0].plus(gap));
        assert(row@ == score_row(ta, tb, views, i + 1, 0));
        let mut j: usize = 0;
        while j < m
            invariant
                j <= m,
                i < n == a@.len(),
                m == b@.len(),
                ta == crate::diff::name_texts(a@),
                tb == crate::diff::name_texts(b@),
                rows@.len() == i + 1,
                views == row_views(rows@),
                forall|p: int| 0 <= p <= i ==> (#[trigger] rows@[p])@.len() == m + 1,
                row@ == score_row(ta, tb, views, i + 1, j as int),
                row@.len() == j + 1,
            decreases m - j,
        {
            let v = take_best_step(a, b, &rows, &row, i + 1, j + 1);
            row.push(v);
            j += 1;
        }
        rows.push(row);
        assert(row_views(rows@) == views.push(row@));
        i += 1;
    }
    assert(row_views(rows@)[n as int] == rows@[n as int]@);
    let raw = rows[n][m];
    let most = C::whole(
        if n > m {
            n as u64
        } else {
            m as u64
        },
    );
    if most.at_most(C::whole(0)) {
        return C::whole(0);
    }
    let x = raw.over(most).plus(C::whole(1)).over(C::whole(2));
    if x.less(C::whole(0)) {
        C::whole(0)
    } else if C::whole(1).less(x) {
        C::whole(1)
    } else {
        x
    }
}

/// Bounded alignment of two blocks with fusion groups: up to three consecutive
/// kernels are taken from either side per step, allowing `[gemm, relu]` to match
/// `[fused_gemm_relu]` when token overlap is high. Returns a confidence from zero
/// to one.
pub fn align_block_pair<T: Scalar, C: Scalar>(
    ref_kernels: &[KernelEvent<T>],
    other_kernels: &[KernelEvent<T>],
) -> (r: C)
    ensures
        r == confidence::<C>(names_of(ref_kernels@), names_of(other_kernels@)),
{
    let a = list_names(ref_kernels);
    let b = list_names(other_kernels);
    names_confidence(&a, &b)
}

/// The names of some kernels.
pub open spec fn names_of<T>(kernels: Seq<KernelEvent<T>>) -> Seq<Seq<char>> {
    kernels.map_values(|k: KernelEvent<T>| k.name@)
}

/// The names of some kernels.
fn list_names<'a, T: Scalar>(kernels: &'a [KernelEvent<T>]) -> (r: Vec<&'a str>)
    ensures
        crate::diff::name_texts(r@) == names_of(kernels@),
{
    let mut out: Vec<&'a str> = Vec::new();
    let mut i: usize = 0;
    while i < kernels.len()
        invariant
            i <= kernels@.len(),
            out@.len() == i,
            forall|j: int| 0 <= j < i ==> (#[trigger] out@[j])@ == kernels@[j].name@,
        decreases kernels@.len() - i,
    {
        out.push(kernels[i].name.as_str());
        i += 1;
    }
    assert(crate::diff::name_texts(out@) == names_of(kernels@));
    out
}

/// A confidence lies between zero and one, for all numbers of which zero is not
/// below itself and one is below neither itself nor zero.
pub proof fn confidence_lies_between_zero_and_one<C: Scalar>(
    a: Seq<Seq<char>>,
    b: Seq<Seq<char>>,
)
    requires
        !C::whole_spec(0).less_spec(C::whole_spec(0)),
        !C::whole_spec(1).less_spec(C::whole_spec(1)),
        !C::whole_spec(1).less_spec(C::whole_spec(0)),
    ensures
        !confidence::<C>(a, b).less_spec(C::whole_spec(0)),
        !C::whole_spec(1).less_spec(confidence::<C>(a, b)),
{
}

} // verus!
