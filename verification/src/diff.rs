//! Comparing two sequences of names by their edit script.
use vstd::prelude::*;
use similar::{capture_diff_slices, Algorithm, DiffOp};

verus! {

/// A step of an edit script between an old and a new sequence.
#[derive(Debug, Clone, Copy, PartialEq, Eq, Structural)]
pub enum EditOp {
    /// Both sequences agree on a run.
    Equal { old_index: usize, new_index: usize, len: usize },
    /// A run of the old sequence is left out.
    Delete { old_index: usize, old_len: usize, new_index: usize },
    /// A run of the new sequence is put in.
    Insert { old_index: usize, new_index: usize, new_len: usize },
    /// A run of the old sequence is replaced by a run of the new one.
    Replace { old_index: usize, old_len: usize, new_index: usize, new_len: usize },
}

impl EditOp {
    /// How many items of the old sequence the step covers.
    pub open spec fn old_count(self) -> int {
        match self {
            EditOp::Equal { len, .. } => len as int,
            EditOp::Delete { old_len, .. } => old_len as int,
            EditOp::Insert { .. } => 0,
            EditOp::Replace { old_len, .. } => old_len as int,
        }
    }

    /// How many items of the new sequence the step covers.
    pub open spec fn new_count(self) -> int {
        match self {
            EditOp::Equal { len, .. } => len as int,
            EditOp::Delete { .. } => 0,
            EditOp::Insert { new_len, .. } => new_len as int,
            EditOp::Replace { new_len, .. } => new_len as int,
        }
    }

    /// Whether the step ends at a position that can be counted.
    pub open spec fn fits(self) -> bool {
        match self {
            EditOp::Equal { old_index, new_index, len } => old_index + len <= usize::MAX
                && new_index + len <= usize::MAX,
            EditOp::Delete { old_index, old_len, .. } => old_index + old_len <= usize::MAX,
            EditOp::Insert { new_index, new_len, .. } => new_index + new_len <= usize::MAX,
            EditOp::Replace { old_index, old_len, new_index, new_len } => old_index + old_len
                <= usize::MAX && new_index + new_len <= usize::MAX,
        }
    }

    /// Whether the step covers the old sequence from `old_at` on and the new one
    /// from `new_at` on, as far as it covers them at all.
    pub open spec fn stands_at(self, old_at: int, new_at: int) -> bool {
        match self {
            EditOp::Equal { old_index, new_index, .. } => old_index == old_at && new_index
                == new_at,
            EditOp::Delete { old_index, .. } => old_index == old_at,
            EditOp::Insert { new_index, .. } => new_index == new_at,
            EditOp::Replace { old_index, new_index, .. } => old_index == old_at && new_index
                == new_at,
        }
    }
}

/// How many old items the first `k` steps cover.
pub open spec fn old_before(ops: Seq<EditOp>, k: int) -> int
    decreases k,
{
    if k <= 0 {
        0
    } else {
        old_before(ops, k - 1) + ops[k - 1].old_count()
    }
}

/// How many new items the first `k` steps cover.
pub open spec fn new_before(ops: Seq<EditOp>, k: int) -> int
    decreases k,
{
    if k <= 0 {
        0
    } else {
        new_before(ops, k - 1) + ops[k - 1].new_count()
    }
}

/// Whether an edit script leads from `n` old items to `m` new ones: its steps
/// cover either sequence from start to end, without gap or overlap.
pub open spec fn leads(ops: Seq<EditOp>, n: int, m: int) -> bool {
    &&& old_before(ops, ops.len() as int) == n
    &&& new_before(ops, ops.len() as int) == m
    &&& forall|k: int|
        0 <= k < ops.len() ==> (#[trigger] ops[k]).stands_at(old_before(ops, k), new_before(ops, k))
}

/// Whether the runs on which both sequences are said to agree do agree.
pub open spec fn agrees(ops: Seq<EditOp>, left: Seq<Seq<char>>, right: Seq<Seq<char>>) -> bool {
    forall|k: int|
        0 <= k < ops.len() ==> match #[trigger] ops[k] {
            EditOp::Equal { old_index, new_index, len } => forall|i: int|
                0 <= i < len ==> #[trigger] left[old_index + i] == right[new_index + i],
            _ => true,
        }
}

/// How many items the equal runs of the first `k` steps match.
pub open spec fn equal_before(ops: Seq<EditOp>, k: int) -> int
    decreases k,
{
    if k <= 0 {
        0
    } else {
        equal_before(ops, k - 1) + match ops[k - 1] {
            EditOp::Equal { len, .. } => len as int,
            _ => 0,
        }
    }
}

/// Whether pairs of positions lead forward through two sequences, from equal item to
/// equal item.
pub open spec fn common_subsequence(
    pairs: Seq<(int, int)>,
    left: Seq<Seq<char>>,
    right: Seq<Seq<char>>,
) -> bool {
    &&& forall|p: int|
        0 <= p < pairs.len() ==> 0 <= (#[trigger] pairs[p]).0 < left.len() && 0 <= pairs[p].1
            < right.len() && left[pairs[p].0] == right[pairs[p].1]
    &&& forall|p: int, q: int|
        #![trigger pairs[p], pairs[q]]
        0 <= p < q < pairs.len() ==> pairs[p].0 < pairs[q].0 && pairs[p].1 < pairs[q].1
}

/// Whether an edit script matches as many items as any common subsequence has.
pub open spec fn matches_most(
    ops: Seq<EditOp>,
    left: Seq<Seq<char>>,
    right: Seq<Seq<char>>,
) -> bool {
    forall|pairs: Seq<(int, int)>| #[trigger]
        common_subsequence(pairs, left, right) ==> pairs.len() <= equal_before(
            ops,
            ops.len() as int,
        )
}

/// The texts of a list of names.
pub open spec fn name_texts(names: Seq<&str>) -> Seq<Seq<char>> {
    names.map_values(|s: &str| s@)
}

/// The edit script that Myers' algorithm gives for two sequences of names.
pub uninterp spec fn myers_script(left: Seq<Seq<char>>, right: Seq<Seq<char>>) -> Seq<EditOp>;

/// Calls `similar::capture_diff_slices` with Myers' algorithm. The result is a
/// function of the two sequences; its steps cover both sequences in order,
/// without gap or overlap, and the items of its equal runs are pairwise equal.
/// The equal runs make up a longest common subsequence: that is what the crate says
/// of its algorithms and Myers' algorithm finds when it has no deadline, and joining
/// and moving steps afterwards keeps the number of matched items. Nothing is said of
/// the old position of an insertion and of the new position of a deletion, nor of
/// which of several longest common subsequences it is.
#[verifier::external_body]
pub(crate) fn capture_myers(left: &[&str], right: &[&str]) -> (r: Vec<EditOp>)
    ensures
        r@ == myers_script(name_texts(left@), name_texts(right@)),
        leads(r@, left@.len() as int, right@.len() as int),
        agrees(r@, name_texts(left@), name_texts(right@)),
        matches_most(r@, name_texts(left@), name_texts(right@)),
{
    let convert = |op: DiffOp| match op {
        DiffOp::Equal { old_index, new_index, len } => EditOp::Equal { old_index, new_index, len },
        DiffOp::Delete { old_index, old_len, new_index } => EditOp::Delete { old_index, old_len, new_index },
        DiffOp::Insert { old_index, new_index, new_len } => EditOp::Insert { old_index, new_index, new_len },
        DiffOp::Replace { old_index, old_len, new_index, new_len } => {
            EditOp::Replace { old_index, old_len, new_index, new_len }
        },
    };
    capture_diff_slices(Algorithm::Myers, left, right).into_iter().map(convert).collect()
}

/// A run of items that stand in both sequences.
pub open spec fn matched_run(old_index: int, new_index: int, len: nat) -> Seq<
    (Option<usize>, Option<usize>),
> {
    Seq::new(len, |i: int| (Some((old_index + i) as usize), Some((new_index + i) as usize)))
}

/// A run of items that stand only in the old sequence.
pub open spec fn removed_run(old_index: int, len: nat) -> Seq<(Option<usize>, Option<usize>)> {
    Seq::new(len, |i: int| (Some((old_index + i) as usize), None::<usize>))
}

/// A run of items that stand only in the new sequence.
pub open spec fn added_run(new_index: int, len: nat) -> Seq<(Option<usize>, Option<usize>)> {
    Seq::new(len, |i: int| (None::<usize>, Some((new_index + i) as usize)))
}

/// The items of a step, item by item; what is replaced comes before what
/// replaces it.
pub open spec fn step_pairs(op: EditOp) -> Seq<(Option<usize>, Option<usize>)> {
    match op {
        EditOp::Equal { old_index, new_index, len } => matched_run(
            old_index as int,
            new_index as int,
            len as nat,
        ),
        EditOp::Delete { old_index, old_len, .. } => removed_run(old_index as int, old_len as nat),
        EditOp::Insert { new_index, new_len, .. } => added_run(new_index as int, new_len as nat),
        EditOp::Replace { old_index, old_len, new_index, new_len } => removed_run(
            old_index as int,
            old_len as nat,
        ) + added_run(new_index as int, new_len as nat),
    }
}

/// The items of the first `k` steps, item by item.
pub open spec fn script_pairs(ops: Seq<EditOp>, k: int) -> Seq<(Option<usize>, Option<usize>)>
    decreases k,
{
    if k <= 0 {
        Seq::empty()
    } else {
        script_pairs(ops, k - 1) + step_pairs(ops[k - 1])
    }
}

/// The steps of a script go forward through both sequences.
pub proof fn steps_go_forward(ops: Seq<EditOp>, j: int, k: int)
    requires
        0 <= j <= k <= ops.len(),
    ensures
        0 <= old_before(ops, j) <= old_before(ops, k),
        0 <= new_before(ops, j) <= new_before(ops, k),
    decreases k,
{
    if j < k {
        steps_go_forward(ops, j, k - 1);
    } else if k > 0 {
        steps_go_forward(ops, k - 1, k - 1);
    }
}

/// Every step of a script lies inside both sequences.
pub proof fn steps_lie_inside(ops: Seq<EditOp>, n: int, m: int, k: int)
    requires
        leads(ops, n, m),
        0 <= k < ops.len(),
    ensures
        0 <= old_before(ops, k),
        old_before(ops, k) + ops[k].old_count() == old_before(ops, k + 1) <= n,
        0 <= new_before(ops, k),
        new_before(ops, k) + ops[k].new_count() == new_before(ops, k + 1) <= m,
{
    steps_go_forward(ops, k, ops.len() as int);
    steps_go_forward(ops, k + 1, ops.len() as int);
}

/// Lists an edit script item by item: `(Some, Some)` is matched, `(Some, None)`
/// removed from the left, `(None, Some)` added on the right.
pub fn list_pairs(ops: &Vec<EditOp>) -> (r: Vec<(Option<usize>, Option<usize>)>)
    requires
        forall|k: int| 0 <= k < ops@.len() ==> (#[trigger] ops@[k]).fits(),
    ensures
        r@ == script_pairs(ops@, ops@.len() as int),
{
    let mut out: Vec<(Option<usize>, Option<usize>)> = Vec::new();
    let mut k: usize = 0;
    while k < ops.len()
        invariant
            k <= ops@.len(),
            forall|k: int| 0 <= k < ops@.len() ==> (#[trigger] ops@[k]).fits(),
            out@ == script_pairs(ops@, k as int),
        decreases ops@.len() - k,
    {
        let op = ops[k];
        let ghost start = out@;
        match op {
            EditOp::Equal { old_index, new_index, len } => {
                let mut i: usize = 0;
                while i < len
                    invariant
                        i <= len,
                        old_index + len <= usize::MAX,
                        new_index + len <= usize::MAX,
                        out@ == start + matched_run(
                            old_index as int,
                            new_index as int,
                            i as nat,
                        ),
                    decreases len - i,
                {
                    out.push((Some(old_index + i), Some(new_index + i)));
                    i += 1;
                    assert(out@ == start + matched_run(
                        old_index as int,
                        new_index as int,
                        i as nat,
                    ));
                }
            },
            EditOp::Delete { old_index, old_len, .. } => {
                push_removed(&mut out, old_index, old_len);
            },
            EditOp::Insert { new_index, new_len, .. } => {
                push_added(&mut out, new_index, new_len);
            },
            EditOp::Replace { old_index, old_len, new_index, new_len } => {
                push_removed(&mut out, old_index, old_len);
                push_added(&mut out, new_index, new_len);
                assert(out@ == start + step_pairs(op));
            },
        }
        k += 1;
    }
    out
}

/// Appends a run of items that stand only in the old sequence.
fn push_removed(out: &mut Vec<(Option<usize>, Option<usize>)>, old_index: usize, old_len: usize)
    requires
        old_index + old_len <= usize::MAX,
    ensures
        final(out)@ == old(out)@ + removed_run(old_index as int, old_len as nat),
{
    let ghost start = out@;
    let mut i: usize = 0;
    while i < old_len
        invariant
            i <= old_len,
            old_index + old_len <= usize::MAX,
            out@ == start + removed_run(old_index as int, i as nat),
        decreases old_len - i,
    {
        out.push((Some(old_index + i), None));
        i += 1;
        assert(out@ == start + removed_run(old_index as int, i as nat));
    }
}

/// Appends a run of items that stand only in the new sequence.
fn push_added(out: &mut Vec<(Option<usize>, Option<usize>)>, new_index: usize, new_len: usize)
    requires
        new_index + new_len <= usize::MAX,
    ensures
        final(out)@ == old(out)@ + added_run(new_index as int, new_len as nat),
{
    let ghost start = out@;
    let mut i: usize = 0;
    while i < new_len
        invariant
            i <= new_len,
            new_index + new_len <= usize::MAX,
            out@ == start + added_run(new_index as int, i as nat),
        decreases new_len - i,
    {
        out.push((None, Some(new_index + i)));
        i += 1;
        assert(out@ == start + added_run(new_index as int, i as nat));
    }
}

/// Myers diff over names. Returns `(Option<left_idx>, Option<right_idx>)` pairs
/// in order: `(Some, Some)` is matched, `(Some, None)` removed from the left,
/// `(None, Some)` added on the right.
pub fn myers_lcs(left: &[&str], right: &[&str]) -> (r: Vec<(Option<usize>, Option<usize>)>)
    ensures
        ({
            let ops = myers_script(name_texts(left@), name_texts(right@));
            r@ == script_pairs(ops, ops.len() as int)
        }),
        faithful(r@, name_texts(left@), name_texts(right@)),
        longest_common(matched(r@), name_texts(left@), name_texts(right@)),
{
    let ops = capture_myers(left, right);
    proof {
        assert(left@.len() == left.len() && right@.len() == right.len());
        assert forall|k: int| 0 <= k < ops@.len() implies (#[trigger] ops@[k]).fits() by {
            steps_lie_inside(ops@, left@.len() as int, right@.len() as int, k);
        }
    }
    let r = list_pairs(&ops);
    proof {
        scripts_are_faithful(ops@, name_texts(left@), name_texts(right@));
        scripts_match_a_longest_common_subsequence(
            ops@,
            name_texts(left@),
            name_texts(right@),
        );
    }
    r
}

/// The left indices of a pair list, in order.
pub open spec fn lefts(pairs: Seq<(Option<usize>, Option<usize>)>) -> Seq<usize>
    decreases pairs.len(),
{
    if pairs.len() == 0 {
        Seq::empty()
    } else {
        match pairs.last().0 {
            Some(i) => lefts(pairs.drop_last()).push(i),
            None => lefts(pairs.drop_last()),
        }
    }
}

/// The right indices of a pair list, in order.
pub open spec fn rights(pairs: Seq<(Option<usize>, Option<usize>)>) -> Seq<usize>
    decreases pairs.len(),
{
    if pairs.len() == 0 {
        Seq::empty()
    } else {
        match pairs.last().1 {
            Some(i) => rights(pairs.drop_last()).push(i),
            None => rights(pairs.drop_last()),
        }
    }
}

/// The numbers `0..n`.
pub open spec fn first_numbers(n: int) -> Seq<usize> {
    Seq::new(
        if n < 0 {
            0
        } else {
            n as nat
        },
        |i: int| i as usize,
    )
}

/// Whether a pair list tells two sequences apart faithfully: every left and
/// every right item occurs exactly once, in order, and matched items are equal.
pub open spec fn faithful(
    pairs: Seq<(Option<usize>, Option<usize>)>,
    left: Seq<Seq<char>>,
    right: Seq<Seq<char>>,
) -> bool {
    &&& lefts(pairs) == first_numbers(left.len() as int)
    &&& rights(pairs) == first_numbers(right.len() as int)
    &&& forall|p: int|
        0 <= p < pairs.len() ==> match #[trigger] pairs[p] {
            (Some(i), Some(j)) => i < left.len() && j < right.len() && left[i as int]
                == right[j as int],
            (None, None) => false,
            _ => true,
        }
}

proof fn lemma_lefts_join(
    a: Seq<(Option<usize>, Option<usize>)>,
    b: Seq<(Option<usize>, Option<usize>)>,
)
    ensures
        lefts(a + b) == lefts(a) + lefts(b),
        rights(a + b) == rights(a) + rights(b),
    decreases b.len(),
{
    if b.len() == 0 {
        assert(a + b == a);
        assert(lefts(a) + lefts(b) == lefts(a));
        assert(rights(a) + rights(b) == rights(a));
    } else {
        lemma_lefts_join(a, b.drop_last());
        assert((a + b).drop_last() == a + b.drop_last());
        assert((a + b).last() == b.last());
        assert(lefts(a + b) == lefts(a) + lefts(b));
        assert(rights(a + b) == rights(a) + rights(b));
    }
}

/// The numbers from `from` on.
spec fn numbers_from(from: int, len: nat) -> Seq<usize> {
    Seq::new(len, |i: int| (from + i) as usize)
}

proof fn lemma_runs(old_index: int, new_index: int, len: nat)
    ensures
        lefts(matched_run(old_index, new_index, len)) == numbers_from(old_index, len),
        rights(matched_run(old_index, new_index, len)) == numbers_from(new_index, len),
        lefts(removed_run(old_index, len)) == numbers_from(old_index, len),
        rights(removed_run(old_index, len)) == Seq::<usize>::empty(),
        lefts(added_run(new_index, len)) == Seq::<usize>::empty(),
        rights(added_run(new_index, len)) == numbers_from(new_index, len),
    decreases len,
{
    if len > 0 {
        let l = (len - 1) as nat;
        lemma_runs(old_index, new_index, l);
        assert(matched_run(old_index, new_index, len).drop_last() == matched_run(
            old_index,
            new_index,
            l,
        ));
        assert(removed_run(old_index, len).drop_last() == removed_run(old_index, l));
        assert(added_run(new_index, len).drop_last() == added_run(new_index, l));
        assert(numbers_from(old_index, len) == numbers_from(old_index, l).push(
            (old_index + l) as usize,
        ));
        assert(numbers_from(new_index, len) == numbers_from(new_index, l).push(
            (new_index + l) as usize,
        ));
        assert(lefts(removed_run(old_index, len)) == numbers_from(old_index, len));
        assert(rights(added_run(new_index, len)) == numbers_from(new_index, len));
    } else {
        assert(lefts(matched_run(old_index, new_index, len)) == numbers_from(old_index, len));
        assert(rights(matched_run(old_index, new_index, len)) == numbers_from(new_index, len));
        assert(lefts(removed_run(old_index, len)) == numbers_from(old_index, len));
        assert(rights(added_run(new_index, len)) == numbers_from(new_index, len));
    }
}

proof fn lemma_step_pairs(op: EditOp, old_at: int, new_at: int)
    requires
        op.stands_at(old_at, new_at),
    ensures
        lefts(step_pairs(op)) == numbers_from(old_at, op.old_count() as nat),
        rights(step_pairs(op)) == numbers_from(new_at, op.new_count() as nat),
{
    match op {
        EditOp::Equal { old_index, new_index, len } => {
            lemma_runs(old_index as int, new_index as int, len as nat);
        },
        EditOp::Delete { old_index, old_len, .. } => {
            lemma_runs(old_index as int, 0, old_len as nat);
            assert(numbers_from(new_at, 0) == Seq::<usize>::empty());
        },
        EditOp::Insert { new_index, new_len, .. } => {
            lemma_runs(0, new_index as int, new_len as nat);
            assert(numbers_from(old_at, 0) == Seq::<usize>::empty());
        },
        EditOp::Replace { old_index, old_len, new_index, new_len } => {
            let a = removed_run(old_index as int, old_len as nat);
            let b = added_run(new_index as int, new_len as nat);
            lemma_runs(old_index as int, 0, old_len as nat);
            lemma_runs(0, new_index as int, new_len as nat);
            lemma_lefts_join(a, b);
            assert(lefts(a) + lefts(b) == lefts(a));
            assert(rights(a) + rights(b) == rights(b));
        },
    }
}

proof fn lemma_prefix_pairs(ops: Seq<EditOp>, n: int, m: int, k: int)
    requires
        leads(ops, n, m),
        0 <= k <= ops.len(),
    ensures
        lefts(script_pairs(ops, k)) == first_numbers(old_before(ops, k)),
        rights(script_pairs(ops, k)) == first_numbers(new_before(ops, k)),
    decreases k,
{
    if k > 0 {
        lemma_prefix_pairs(ops, n, m, k - 1);
        steps_lie_inside(ops, n, m, k - 1);
        let op = ops[k - 1];
        assert(op.stands_at(old_before(ops, k - 1), new_before(ops, k - 1)));
        lemma_step_pairs(op, old_before(ops, k - 1), new_before(ops, k - 1));
        lemma_lefts_join(script_pairs(ops, k - 1), step_pairs(op));
        assert(first_numbers(old_before(ops, k)) == first_numbers(old_before(ops, k - 1))
            + numbers_from(old_before(ops, k - 1), op.old_count() as nat));
        assert(first_numbers(new_before(ops, k)) == first_numbers(new_before(ops, k - 1))
            + numbers_from(new_before(ops, k - 1), op.new_count() as nat));
    } else {
        assert(lefts(script_pairs(ops, k)) == first_numbers(0));
        assert(rights(script_pairs(ops, k)) == first_numbers(0));
    }
}

proof fn lemma_prefix_matches(
    ops: Seq<EditOp>,
    left: Seq<Seq<char>>,
    right: Seq<Seq<char>>,
    k: int,
)
    requires
        leads(ops, left.len() as int, right.len() as int),
        agrees(ops, left, right),
        left.len() <= usize::MAX,
        right.len() <= usize::MAX,
        0 <= k <= ops.len(),
    ensures
        forall|p: int|
            0 <= p < script_pairs(ops, k).len() ==> match #[trigger] script_pairs(ops, k)[p] {
                (Some(i), Some(j)) => i < left.len() && j < right.len() && left[i as int]
                    == right[j as int],
                (None, None) => false,
                _ => true,
            },
    decreases k,
{
    if k > 0 {
        lemma_prefix_matches(ops, left, right, k - 1);
        steps_lie_inside(ops, left.len() as int, right.len() as int, k - 1);
        let op = ops[k - 1];
        assert(op.stands_at(old_before(ops, k - 1), new_before(ops, k - 1)));
        let before = script_pairs(ops, k - 1);
        let all = script_pairs(ops, k);
        assert forall|p: int| 0 <= p < all.len() implies match #[trigger] all[p] {
            (Some(i), Some(j)) => i < left.len() && j < right.len() && left[i as int]
                == right[j as int],
            (None, None) => false,
            _ => true,
        } by {
            if p < before.len() {
                assert(all[p] == before[p]);
            } else {
                let q = p - before.len();
                assert(all[p] == step_pairs(op)[q]);
                match op {
                    EditOp::Equal { old_index, new_index, len } => {
                        assert(left[old_index + q] == right[new_index + q]);
                    },
                    _ => {},
                }
            }
        }
    }
}

/// Every edit script tells the two sequences apart faithfully.
pub proof fn scripts_are_faithful(ops: Seq<EditOp>, left: Seq<Seq<char>>, right: Seq<Seq<char>>)
    requires
        leads(ops, left.len() as int, right.len() as int),
        agrees(ops, left, right),
        left.len() <= usize::MAX,
        right.len() <= usize::MAX,
    ensures
        faithful(script_pairs(ops, ops.len() as int), left, right),
{
    lemma_prefix_pairs(ops, left.len() as int, right.len() as int, ops.len() as int);
    lemma_prefix_matches(ops, left, right, ops.len() as int);
}

/// The matched items of a pair list, in order.
pub open spec fn matched(pairs: Seq<(Option<usize>, Option<usize>)>) -> Seq<(int, int)>
    decreases pairs.len(),
{
    if pairs.len() == 0 {
        Seq::empty()
    } else {
        match pairs.last() {
            (Some(i), Some(j)) => matched(pairs.drop_last()).push((i as int, j as int)),
            _ => matched(pairs.drop_last()),
        }
    }
}

/// Whether pairs of positions are a common subsequence of two sequences, and none is
/// longer.
pub open spec fn longest_common(
    pairs: Seq<(int, int)>,
    left: Seq<Seq<char>>,
    right: Seq<Seq<char>>,
) -> bool {
    &&& common_subsequence(pairs, left, right)
    &&& forall|others: Seq<(int, int)>| #[trigger]
        common_subsequence(others, left, right) ==> others.len() <= pairs.len()
}

proof fn lemma_matched_join(
    a: Seq<(Option<usize>, Option<usize>)>,
    b: Seq<(Option<usize>, Option<usize>)>,
)
    ensures
        matched(a + b) == matched(a) + matched(b),
    decreases b.len(),
{
    if b.len() == 0 {
        assert(a + b == a);
        assert(matched(a) + matched(b) == matched(a));
    } else {
        lemma_matched_join(a, b.drop_last());
        assert((a + b).drop_last() == a + b.drop_last());
        assert((a + b).last() == b.last());
        assert(matched(a + b) == matched(a) + matched(b));
    }
}

proof fn lemma_matched_runs(old_index: int, new_index: int, len: nat)
    ensures
        matched(matched_run(old_index, new_index, len)).len() == len,
        matched(removed_run(old_index, len)).len() == 0,
        matched(added_run(new_index, len)).len() == 0,
    decreases len,
{
    if len > 0 {
        let l = (len - 1) as nat;
        lemma_matched_runs(old_index, new_index, l);
        assert(matched_run(old_index, new_index, len).drop_last() == matched_run(
            old_index,
            new_index,
            l,
        ));
        assert(removed_run(old_index, len).drop_last() == removed_run(old_index, l));
        assert(added_run(new_index, len).drop_last() == added_run(new_index, l));
    }
}

proof fn lemma_matched_count(ops: Seq<EditOp>, k: int)
    requires
        0 <= k <= ops.len(),
    ensures
        matched(script_pairs(ops, k)).len() == equal_before(ops, k),
    decreases k,
{
    if k > 0 {
        lemma_matched_count(ops, k - 1);
        lemma_matched_join(script_pairs(ops, k - 1), step_pairs(ops[k - 1]));
        match ops[k - 1] {
            EditOp::Equal { old_index, new_index, len } => {
                lemma_matched_runs(old_index as int, new_index as int, len as nat);
            },
            EditOp::Delete { old_index, old_len, .. } => {
                lemma_matched_runs(old_index as int, 0, old_len as nat);
            },
            EditOp::Insert { new_index, new_len, .. } => {
                lemma_matched_runs(0, new_index as int, new_len as nat);
            },
            EditOp::Replace { old_index, old_len, new_index, new_len } => {
                lemma_matched_runs(old_index as int, 0, old_len as nat);
                lemma_matched_runs(0, new_index as int, new_len as nat);
                lemma_matched_join(
                    removed_run(old_index as int, old_len as nat),
                    added_run(new_index as int, new_len as nat),
                );
            },
        }
    }
}

/// The matched items of a list that reaches `a` left and `b` right items, each once
/// and in order, lie before those and lead forward.
proof fn lemma_matched_in_order(
    pairs: Seq<(Option<usize>, Option<usize>)>,
    left: Seq<Seq<char>>,
    right: Seq<Seq<char>>,
    a: int,
    b: int,
)
    requires
        0 <= a <= usize::MAX,
        0 <= b <= usize::MAX,
        lefts(pairs) == first_numbers(a),
        rights(pairs) == first_numbers(b),
        forall|p: int|
            0 <= p < pairs.len() ==> match #[trigger] pairs[p] {
                (Some(i), Some(j)) => i < left.len() && j < right.len() && left[i as int]
                    == right[j as int],
                (None, None) => false,
                _ => true,
            },
    ensures
        common_subsequence(matched(pairs), left, right),
        forall|p: int|
            0 <= p < matched(pairs).len() ==> (#[trigger] matched(pairs)[p]).0 < a && matched(
                pairs,
            )[p].1 < b,
    decreases pairs.len(),
{
    if pairs.len() > 0 {
        let rest = pairs.drop_last();
        let last = pairs.last();
        let a1 = if last.0 is Some {
            a - 1
        } else {
            a
        };
        let b1 = if last.1 is Some {
            b - 1
        } else {
            b
        };
        if last.0 is Some {
            assert(lefts(pairs).drop_last() == lefts(rest));
            assert(lefts(pairs).last() == last.0->0);
        }
        if last.1 is Some {
            assert(rights(pairs).drop_last() == rights(rest));
            assert(rights(pairs).last() == last.1->0);
        }
        assert(lefts(rest) == first_numbers(a1));
        assert(rights(rest) == first_numbers(b1));
        assert forall|p: int| 0 <= p < rest.len() implies match #[trigger] rest[p] {
            (Some(i), Some(j)) => i < left.len() && j < right.len() && left[i as int]
                == right[j as int],
            (None, None) => false,
            _ => true,
        } by {
            assert(rest[p] == pairs[p]);
        }
        lemma_matched_in_order(rest, left, right, a1, b1);
        assert(pairs[pairs.len() - 1] == last);
    }
}

/// The items that a script matches are a longest common subsequence.
proof fn scripts_match_a_longest_common_subsequence(
    ops: Seq<EditOp>,
    left: Seq<Seq<char>>,
    right: Seq<Seq<char>>,
)
    requires
        leads(ops, left.len() as int, right.len() as int),
        agrees(ops, left, right),
        matches_most(ops, left, right),
        left.len() <= usize::MAX,
        right.len() <= usize::MAX,
    ensures
        longest_common(
            matched(script_pairs(ops, ops.len() as int)),
            left,
            right,
        ),
{
    let pairs = script_pairs(ops, ops.len() as int);
    scripts_are_faithful(ops, left, right);
    lemma_matched_in_order(pairs, left, right, left.len() as int, right.len() as int);
    lemma_matched_count(ops, ops.len() as int);
}

proof fn lemma_equal_steps_only(ops: Seq<EditOp>, k: int)
    requires
        0 <= k <= ops.len(),
    ensures
        equal_before(ops, k) <= old_before(ops, k),
        equal_before(ops, k) <= new_before(ops, k),
        equal_before(ops, k) == old_before(ops, k) && equal_before(ops, k) == new_before(ops, k)
            ==> forall|l: int|
            0 <= l < k ==> (#[trigger] ops[l]) is Equal || (ops[l].old_count() == 0
                && ops[l].new_count() == 0),
    decreases k,
{
    if k > 0 {
        lemma_equal_steps_only(ops, k - 1);
    }
}

/// A script that matches as many items as it can matches equal sequences throughout:
/// no step of it leaves anything out or puts anything in.
pub proof fn equal_sequences_are_matched_throughout(
    ops: Seq<EditOp>,
    left: Seq<Seq<char>>,
    right: Seq<Seq<char>>,
)
    requires
        left == right,
        leads(ops, left.len() as int, right.len() as int),
        matches_most(ops, left, right),
    ensures
        forall|k: int|
            0 <= k < ops.len() ==> (#[trigger] ops[k]) is Equal || (ops[k].old_count() == 0
                && ops[k].new_count() == 0),
        forall|k: int|
            0 <= k <= ops.len() ==> #[trigger] old_before(ops, k) == new_before(ops, k),
{
    let all = Seq::new(left.len(), |i: int| (i, i));
    assert(common_subsequence(all, left, right));
    lemma_equal_steps_only(ops, ops.len() as int);
    assert forall|k: int| 0 <= k <= ops.len() implies #[trigger] old_before(ops, k) == new_before(
        ops,
        k,
    ) by {
        lemma_equal_steps_keep_level(ops, k);
    }
}

proof fn lemma_equal_steps_keep_level(ops: Seq<EditOp>, k: int)
    requires
        0 <= k <= ops.len(),
        forall|l: int|
            0 <= l < ops.len() ==> (#[trigger] ops[l]) is Equal || (ops[l].old_count() == 0
                && ops[l].new_count() == 0),
    ensures
        old_before(ops, k) == new_before(ops, k),
    decreases k,
{
    if k > 0 {
        lemma_equal_steps_keep_level(ops, k - 1);
        assert(ops[k - 1] is Equal || ops[k - 1].old_count() == 0);
    }
}

/// Equal lists of names are matched item by item.
pub proof fn equal_lists_differ_nowhere(
    pairs: Seq<(Option<usize>, Option<usize>)>,
    left: Seq<Seq<char>>,
    right: Seq<Seq<char>>,
)
    requires
        left == right,
        left.len() <= usize::MAX,
        faithful(pairs, left, right),
        longest_common(matched(pairs), left, right),
    ensures
        pairs == Seq::new(left.len(), |i: int| (Some(i as usize), Some(i as usize))),
{
    let n = left.len() as int;
    let all = Seq::new(left.len(), |i: int| (i, i));
    assert(common_subsequence(all, left, right));
    lemma_all_matched(pairs, n);
    assert forall|i: int| 0 <= i < pairs.len() implies pairs[i] == (
        Some(i as usize),
        Some(i as usize),
    ) by {
        assert(lefts(pairs)[i] == i as usize);
        assert(rights(pairs)[i] == i as usize);
    }
}

proof fn lemma_all_matched(pairs: Seq<(Option<usize>, Option<usize>)>, n: int)
    requires
        lefts(pairs).len() <= n,
        rights(pairs).len() <= n,
        matched(pairs).len() >= n,
        forall|p: int| 0 <= p < pairs.len() ==> #[trigger] pairs[p] != (None::<usize>, None::<usize>),
    ensures
        pairs.len() == n,
        lefts(pairs).len() == n,
        rights(pairs).len() == n,
        forall|p: int|
            0 <= p < pairs.len() ==> (#[trigger] pairs[p]).0 == Some(lefts(pairs)[p]) && pairs[p].1
                == Some(rights(pairs)[p]),
    decreases pairs.len(),
{
    lemma_matched_at_most(pairs);
    if pairs.len() > 0 {
        let rest = pairs.drop_last();
        let last = pairs.last();
        lemma_matched_at_most(rest);
        assert(pairs[pairs.len() - 1] == last);
        assert(last.0 is Some && last.1 is Some);
        assert forall|p: int| 0 <= p < rest.len() implies #[trigger] rest[p] != (
            None::<usize>,
            None::<usize>,
        ) by {
            assert(rest[p] == pairs[p]);
        }
        lemma_all_matched(rest, n - 1);
        assert forall|p: int| 0 <= p < pairs.len() implies (#[trigger] pairs[p]).0 == Some(
            lefts(pairs)[p],
        ) && pairs[p].1 == Some(rights(pairs)[p]) by {
            if p < rest.len() {
                assert(rest[p] == pairs[p]);
            }
        }
    }
}

proof fn lemma_matched_at_most(pairs: Seq<(Option<usize>, Option<usize>)>)
    ensures
        matched(pairs).len() <= lefts(pairs).len(),
        matched(pairs).len() <= rights(pairs).len(),
    decreases pairs.len(),
{
    if pairs.len() > 0 {
        lemma_matched_at_most(pairs.drop_last());
    }
}

} // verus!
