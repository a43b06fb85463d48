//! What the short labels of traces are.
use vstd::prelude::*;
use crate::labels;
use crate::text;

verus! {

/// Whether every label is made of the same start, its own middle and the same end.
pub open spec fn made_of(
    ls: Seq<Seq<char>>,
    start: Seq<char>,
    middles: Seq<Seq<char>>,
    end: Seq<char>,
) -> bool {
    &&& middles.len() == ls.len()
    &&& forall|i: int| 0 <= i < ls.len() ==> #[trigger] ls[i] == start + middles[i] + end
}

/// Whether some middles begin, or end, with the same character.
pub open spec fn share_an_end(middles: Seq<Seq<char>>) -> bool {
    ||| exists|c: char| #[trigger] all_start_with(middles, c)
    ||| exists|c: char| #[trigger] all_end_with(middles, c)
}

/// Whether all texts start with a character.
pub open spec fn all_start_with(texts: Seq<Seq<char>>, c: char) -> bool {
    forall|i: int|
        0 <= i < texts.len() ==> (#[trigger] texts[i]).len() > 0 && texts[i][0] == c
}

/// Whether all texts end with a character.
pub open spec fn all_end_with(texts: Seq<Seq<char>>, c: char) -> bool {
    forall|i: int|
        0 <= i < texts.len() ==> (#[trigger] texts[i]).len() > 0 && texts[i][texts[i].len() - 1]
            == c
}

proof fn lemma_prefix(ls: Seq<Seq<char>>, p: int)
    requires
        ls.len() > 0,
        0 <= p,
        forall|i: int, k: int|
            0 <= i < ls.len() && 0 <= k < p ==> p <= (#[trigger] ls[i]).len()
                && #[trigger] ls[i][k] == ls[0][k],
        forall|i: int| 0 <= i < ls.len() ==> p <= (#[trigger] ls[i]).len(),
    ensures
        ({
            let e = labels::common_prefix_end(ls, p);
            &&& p <= e
            &&& !labels::agree_at(ls, e)
            &&& forall|i: int| 0 <= i < ls.len() ==> e <= (#[trigger] ls[i]).len()
            &&& forall|i: int, k: int|
                0 <= i < ls.len() && 0 <= k < e ==> #[trigger] ls[i][k] == ls[0][k]
        }),
    decreases ls[0].len() - p,
{
    if labels::agree_at(ls, p) && p < ls[0].len() {
        assert forall|i: int, k: int| 0 <= i < ls.len() && 0 <= k < p + 1 implies p + 1
            <= (#[trigger] ls[i]).len() && #[trigger] ls[i][k] == ls[0][k] by {
            assert(p < ls[i].len());
        }
        lemma_prefix(ls, p + 1);
    } else {
        assert(0 <= p < ls[0].len() || !labels::agree_at(ls, p)) by {
            if labels::agree_at(ls, p) {
                assert(p < ls[0].len());
            }
        }
    }
}

proof fn lemma_suffix(ls: Seq<Seq<char>>, pre: int, k: int)
    requires
        ls.len() > 0,
        0 <= k,
        0 <= pre,
        forall|i: int| 0 <= i < ls.len() ==> k <= (#[trigger] ls[i]).len() - pre,
        forall|i: int, j: int|
            0 <= i < ls.len() && 0 <= j < k ==> #[trigger] from_end(ls, i, j) == from_end(ls, 0, j),
    ensures
        ({
            let e = labels::common_suffix_end(ls, pre, k);
            &&& k <= e
            &&& !labels::agree_from_end(ls, pre, e)
            &&& forall|i: int| 0 <= i < ls.len() ==> e <= (#[trigger] ls[i]).len() - pre
            &&& forall|i: int, j: int|
                0 <= i < ls.len() && 0 <= j < e ==> #[trigger] from_end(ls, i, j) == from_end(
                    ls,
                    0,
                    j,
                )
        }),
    decreases ls[0].len() - k,
{
    if labels::agree_from_end(ls, pre, k) && k < ls[0].len() {
        assert forall|i: int, j: int| 0 <= i < ls.len() && 0 <= j < k + 1 implies #[trigger] from_end(
            ls,
            i,
            j,
        ) == from_end(ls, 0, j) by {
            assert(k < ls[i].len() - pre);
        }
        lemma_suffix(ls, pre, k + 1);
    } else {
        if labels::agree_from_end(ls, pre, k) {
            assert(k < ls[0].len() - pre);
        }
    }
}

spec fn from_end(ls: Seq<Seq<char>>, i: int, j: int) -> char {
    ls[i][ls[i].len() - 1 - j]
}

/// Short labels are what is left of the labels without the longest start and, behind that,
/// the longest end that all of them have: put back between these, they give the labels, and
/// no further character can be taken off all of them. Where that would leave a label empty,
/// and for no other reason, the labels are numbered instead. A single label stays whole.
pub proof fn short_labels_leave_out_what_all_labels_share(ls: Seq<Seq<char>>)
    requires
        ls.len() > 0,
    ensures
        ({
            let short = Seq::new(ls.len(), |i: int| labels::short_label(ls, i));
            &&& ls.len() == 1 ==> short =~= ls
            &&& ls.len() > 1 ==> exists|start: Seq<char>, middles: Seq<Seq<char>>, end: Seq<char>|
                {
                    &&& #[trigger] made_of(ls, start, middles, end)
                    &&& !share_an_end(middles)
                    &&& if exists|i: int|
                        0 <= i < ls.len() && (#[trigger] middles[i]).len() == 0 {
                        forall|i: int|
                            0 <= i < ls.len() ==> #[trigger] short[i] == seq!['T']
                                + text::decimal_text(i as nat)
                    } else {
                        short =~= middles
                    }
                }
        }),
{
    let short = Seq::new(ls.len(), |i: int| labels::short_label(ls, i));
    if ls.len() > 1 {
        lemma_prefix(ls, 0);
        let pre = labels::common_prefix_end(ls, 0);
        lemma_suffix(ls, pre, 0);
        let suf = labels::common_suffix_end(ls, pre, 0);
        let start = ls[0].take(pre);
        let end = ls[0].skip(ls[0].len() - suf);
        let middles = Seq::new(ls.len(), |i: int| labels::distinct_part(ls, i));
        assert forall|i: int| 0 <= i < ls.len() implies #[trigger] ls[i] == start + middles[i]
            + end by {
            let whole = start + middles[i] + end;
            assert(pre + suf <= ls[i].len());
            assert(pre + suf <= ls[0].len());
            assert(whole.len() == ls[i].len());
            assert forall|k: int| 0 <= k < whole.len() implies whole[k] == ls[i][k] by {
                if k < pre {
                    assert(ls[i][k] == ls[0][k]);
                } else if k >= ls[i].len() - suf {
                    let j = ls[i].len() - 1 - k;
                    assert(from_end(ls, i, j) == from_end(ls, 0, j));
                    assert(end[suf - 1 - j] == from_end(ls, 0, j));
                }
            }
        }
        assert(made_of(ls, start, middles, end));
        if share_an_end(middles) {
            if exists|c: char| #[trigger] all_start_with(middles, c) {
                let c = choose|c: char| #[trigger] all_start_with(middles, c);
                assert forall|i: int| 0 <= i < ls.len() implies 0 <= pre < (
                #[trigger] ls[i]).len() && ls[i][pre] == ls[0][pre] by {
                    assert(middles[i].len() > 0 && middles[i][0] == c);
                    assert(middles[0].len() > 0 && middles[0][0] == c);
                }
                assert(labels::agree_at(ls, pre));
            } else {
                let c = choose|c: char| #[trigger] all_end_with(middles, c);
                assert forall|i: int| 0 <= i < ls.len() implies 0 <= suf < (
                #[trigger] ls[i]).len() - pre && ls[i][ls[i].len() - 1 - suf]
                    == ls[0][ls[0].len() - 1 - suf] by {
                    assert(middles[i].len() > 0 && middles[i][middles[i].len() - 1] == c);
                    assert(middles[0].len() > 0 && middles[0][middles[0].len() - 1] == c);
                }
                assert(labels::agree_from_end(ls, pre, suf));
            }
            assert(false);
        }
        if exists|i: int| 0 <= i < ls.len() && (#[trigger] middles[i]).len() == 0 {
            let i = choose|i: int| 0 <= i < ls.len() && (#[trigger] middles[i]).len() == 0;
            assert(labels::distinct_part(ls, i).len() == 0);
        } else {
            assert forall|j: int| 0 <= j < ls.len() implies (#[trigger] labels::distinct_part(
                ls,
                j,
            )).len() != 0 by {
                assert(middles[j].len() != 0);
            }
            assert(short =~= middles);
        }
    }
}

} // verus!
