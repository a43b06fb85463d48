//! Compact labels for traces that are shown side by side.
use vstd::prelude::*;
use crate::text::{chars_of, push_decimal, text_between};

verus! {

/// The characters of every label.
pub open spec fn label_views(labels: Seq<String>) -> Seq<Seq<char>> {
    labels.map_values(|s: String| s@)
}

/// Whether all labels have a character at position `p`, and the same one.
pub open spec fn agree_at(ls: Seq<Seq<char>>, p: int) -> bool {
    forall|i: int| 0 <= i < ls.len() ==> 0 <= p < (#[trigger] ls[i]).len() && ls[i][p] == ls[0][p]
}

/// The end of the run of positions, from `p` on, at which all labels agree.
pub open spec fn common_prefix_end(ls: Seq<Seq<char>>, p: int) -> int
    decreases ls[0].len() - p,
{
    if ls.len() > 0 && agree_at(ls, p) && p < ls[0].len() {
        common_prefix_end(ls, p + 1)
    } else {
        p
    }
}

/// Whether all labels have a `k`-th character from the end behind their first
/// `pre` characters, and the same one.
pub open spec fn agree_from_end(ls: Seq<Seq<char>>, pre: int, k: int) -> bool {
    forall|i: int|
        0 <= i < ls.len() ==> 0 <= k < (#[trigger] ls[i]).len() - pre && ls[i][ls[i].len() - 1 - k]
            == ls[0][ls[0].len() - 1 - k]
}

/// The end of the run of positions from the end, from `k` on, at which all
/// labels agree behind their first `pre` characters.
pub open spec fn common_suffix_end(ls: Seq<Seq<char>>, pre: int, k: int) -> int
    decreases ls[0].len() - k,
{
    if ls.len() > 0 && agree_from_end(ls, pre, k) && 0 <= k < ls[0].len() {
        common_suffix_end(ls, pre, k + 1)
    } else {
        k
    }
}

/// What is left of label `i` without the common prefix and suffix.
pub open spec fn distinct_part(ls: Seq<Seq<char>>, i: int) -> Seq<char> {
    let pre = common_prefix_end(ls, 0);
    let suf = common_suffix_end(ls, pre, 0);
    ls[i].subrange(pre, ls[i].len() - suf)
}

/// The short form of label `i`: its distinct part, or `T{i}` when the distinct
/// part of any label is empty. A single label is kept as it is.
pub open spec fn short_label(ls: Seq<Seq<char>>, i: int) -> Seq<char> {
    if ls.len() < 2 {
        ls[i]
    } else if exists|j: int| 0 <= j < ls.len() && (#[trigger] distinct_part(ls, j)).len() == 0 {
        seq!['T'] + crate::text::decimal_text(i as nat)
    } else {
        distinct_part(ls, i)
    }
}

/// The label `T{i}`.
fn index_label(i: usize) -> (r: String)
    ensures
        r@ == seq!['T'] + crate::text::decimal_text(i as nat),
{
    let mut out: String = String::new();
    out.push('T');
    push_decimal(&mut out, i as u128);
    assert(out@ == seq!['T'] + crate::text::decimal_text(i as nat));
    out
}

/// The common prefix fits every label, and the common suffix fits behind it.
proof fn lemma_common_parts_fit(ls: Seq<Seq<char>>, pre: int, p: int, k: int)
    requires
        ls.len() > 0,
        0 <= p,
        0 <= k,
        forall|i: int| 0 <= i < ls.len() ==> p <= (#[trigger] ls[i]).len(),
        0 <= pre,
        forall|i: int| 0 <= i < ls.len() ==> k <= (#[trigger] ls[i]).len() - pre,
    ensures
        p <= common_prefix_end(ls, p),
        forall|i: int| 0 <= i < ls.len() ==> common_prefix_end(ls, p) <= (#[trigger] ls[i]).len(),
        k <= common_suffix_end(ls, pre, k),
        forall|i: int|
            0 <= i < ls.len() ==> common_suffix_end(ls, pre, k) <= (#[trigger] ls[i]).len() - pre,
    decreases ls[0].len() - p, ls[0].len() - k,
{
    if agree_at(ls, p) && p < ls[0].len() {
        lemma_common_parts_fit(ls, pre, p + 1, k);
    } else if agree_from_end(ls, pre, k) && k < ls[0].len() {
        lemma_common_parts_fit(ls, pre, p, k + 1);
    }
}

/// Shortens trace labels to just their differing middle by stripping the common
/// character prefix and suffix shared by all labels. Falls back to `T{index}`
/// when any shortened label is empty (labels identical, or one is a substring
/// boundary of another).
pub fn shorten_labels(labels: &[String]) -> (r: Vec<String>)
    ensures
        r@.len() == labels@.len(),
        forall|i: int|
            0 <= i < labels@.len() ==> (#[trigger] r@[i])@ == short_label(label_views(labels@), i),
{
    let ghost ls = label_views(labels@);
    let n: usize = labels.len();
    let mut out: Vec<String> = Vec::new();
    if n < 2 {
        let mut i: usize = 0;
        while i < n
            invariant
                i <= n == labels@.len(),
                n < 2,
                ls == label_views(labels@),
                out@.len() == i,
                forall|j: int| 0 <= j < i ==> (#[trigger] out@[j])@ == short_label(ls, j),
            decreases n - i,
        {
            out.push(labels[i].clone());
            i += 1;
        }
        return out;
    }
    let mut cols: Vec<Vec<char>> = Vec::new();
    let mut i: usize = 0;
    while i < n
        invariant
            i <= n == labels@.len(),
            ls == label_views(labels@),
            cols@.len() == i,
            forall|j: int| 0 <= j < i ==> (#[trigger] cols@[j])@ == ls[j],
        decreases n - i,
    {
        cols.push(chars_of(labels[i].as_str()));
        i += 1;
    }
    let mut prefix: usize = 0;
    while all_agree_at(&cols, prefix)
        invariant
            n == cols@.len() == ls.len(),
            n >= 2,
            forall|j: int| 0 <= j < n ==> (#[trigger] cols@[j])@ == ls[j],
            common_prefix_end(ls, 0) == common_prefix_end(ls, prefix as int),
        decreases ls[0].len() - prefix,
    {
        proof {
            assert(views_of(cols@) == ls);
            assert(ls[0].len() > prefix);
            assert(cols@[0]@ == ls[0]);
        }
        let first_len: usize = cols[0].len();
        assert(prefix < first_len);
        prefix += 1;
    }
    assert(views_of(cols@) == ls);
    let mut suffix: usize = 0;
    while all_agree_from_end(&cols, prefix, suffix)
        invariant
            n == cols@.len() == ls.len(),
            n >= 2,
            views_of(cols@) == ls,
            forall|j: int| 0 <= j < n ==> (#[trigger] cols@[j])@ == ls[j],
            common_suffix_end(ls, prefix as int, 0) == common_suffix_end(
                ls,
                prefix as int,
                suffix as int,
            ),
        decreases ls[0].len() - suffix,
    {
        proof {
            assert(ls[0].len() > suffix);
            assert(cols@[0]@ == ls[0]);
        }
        let first_len: usize = cols[0].len();
        assert(suffix < first_len);
        suffix += 1;
    }
    proof {
        lemma_common_parts_fit(ls, 0, 0, 0);
        lemma_common_parts_fit(ls, prefix as int, 0, 0);
    }
    let mut any_empty: bool = false;
    let mut k: usize = 0;
    while k < n
        invariant
            k <= n == cols@.len() == ls.len(),
            n >= 2,
            forall|j: int| 0 <= j < n ==> (#[trigger] cols@[j])@ == ls[j],
            prefix == common_prefix_end(ls, 0),
            suffix == common_suffix_end(ls, prefix as int, 0),
            forall|j: int| 0 <= j < ls.len() ==> prefix <= (#[trigger] ls[j]).len(),
            forall|j: int| 0 <= j < ls.len() ==> suffix <= (#[trigger] ls[j]).len() - prefix,
            out@.len() == k,
            forall|j: int| 0 <= j < k ==> (#[trigger] out@[j])@ == distinct_part(ls, j),
            any_empty == exists|j: int| 0 <= j < k && (#[trigger] distinct_part(ls, j)).len() == 0,
        decreases n - k,
    {
        assert(cols@[k as int]@ == ls[k as int]);
        let end: usize = cols[k].len() - suffix;
        if prefix == end {
            assert(distinct_part(ls, k as int).len() == 0);
            any_empty = true;
        }
        out.push(text_between(&cols[k], prefix, end));
        k += 1;
    }
    if !any_empty {
        return out;
    }
    let mut named: Vec<String> = Vec::new();
    let mut m: usize = 0;
    while m < n
        invariant
            m <= n == ls.len(),
            n >= 2,
            exists|j: int| 0 <= j < ls.len() && (#[trigger] distinct_part(ls, j)).len() == 0,
            named@.len() == m,
            forall|j: int| 0 <= j < m ==> (#[trigger] named@[j])@ == short_label(ls, j),
        decreases n - m,
    {
        named.push(index_label(m));
        m += 1;
    }
    named
}

/// The contents of every column.
spec fn views_of(cols: Seq<Vec<char>>) -> Seq<Seq<char>> {
    cols.map_values(|c: Vec<char>| c@)
}

/// Whether all of `cols` have the same character at `p`.
fn all_agree_at(cols: &Vec<Vec<char>>, p: usize) -> (r: bool)
    requires
        cols@.len() > 0,
    ensures
        r == agree_at(views_of(cols@), p as int),
{
    let ghost ls = views_of(cols@);
    let mut i: usize = 0;
    while i < cols.len()
        invariant
            i <= cols@.len(),
            cols@.len() > 0,
            ls == views_of(cols@),
            forall|j: int|
                0 <= j < i ==> 0 <= p < (#[trigger] ls[j]).len() && ls[j][p as int]
                    == ls[0][p as int],
        decreases cols@.len() - i,
    {
        assert(ls[i as int] == cols@[i as int]@);
        assert(ls[0] == cols@[0]@);
        if p >= cols[i].len() || cols[i][p] != cols[0][p] {
            return false;
        }
        i += 1;
    }
    true
}

/// Whether all of `cols` have the same `k`-th character from the end behind
/// their first `pre` characters.
fn all_agree_from_end(cols: &Vec<Vec<char>>, pre: usize, k: usize) -> (r: bool)
    requires
        cols@.len() > 0,
    ensures
        r == agree_from_end(views_of(cols@), pre as int, k as int),
{
    let ghost ls = views_of(cols@);
    let mut i: usize = 0;
    while i < cols.len()
        invariant
            i <= cols@.len(),
            cols@.len() > 0,
            ls == views_of(cols@),
            forall|j: int|
                0 <= j < i ==> 0 <= k < (#[trigger] ls[j]).len() - pre && ls[j][ls[j].len() - 1 - k]
                    == ls[0][ls[0].len() - 1 - k],
        decreases cols@.len() - i,
    {
        assert(ls[i as int] == cols@[i as int]@);
        assert(ls[0] == cols@[0]@);
        let len: usize = cols[i].len();
        let len0: usize = cols[0].len();
        if len < pre || k >= len - pre {
            return false;
        }
        if cols[i][len - 1 - k] != cols[0][len0 - 1 - k] {
            return false;
        }
        i += 1;
    }
    true
}

} // verus!
