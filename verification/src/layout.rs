//! Where the kernels of two compared traces are drawn: the second trace is laid
//! onto the first along the edit script of their kernel names.
use vstd::prelude::*;
use crate::diff::{self, capture_myers, EditOp};
use crate::lane::KernelDiff;
use crate::scalar::{self, Scalar};
use crate::trace::KernelEvent;

verus! {

/// The timing of one stream in the anchor trace (0) and in the second trace (1):
/// raw starts and durations of the kernels in their order, and what is added to
/// a raw start to get to the common axis.
pub struct StreamPair<T> {
    pub raw0: Seq<T>,
    pub dur0: Seq<T>,
    pub off0: T,
    pub raw1: Seq<T>,
    pub dur1: Seq<T>,
    pub off1: T,
}

impl<T: Scalar> StreamPair<T> {
    /// Where kernel `i` of the anchor starts on the common axis.
    pub open spec fn base0(self, i: int) -> T {
        self.raw0[i].plus_spec(self.off0)
    }

    /// Where kernel `j` of the second trace starts on the common axis.
    pub open spec fn base1(self, j: int) -> T {
        self.raw1[j].plus_spec(self.off1)
    }

    /// Where the last of `len` kernels of the second trace, from `from` on, ends.
    pub open spec fn run_end(self, from: int, len: nat) -> T
        decreases len,
    {
        if len == 0 {
            T::lowest_spec()
        } else {
            self.run_end(from, (len - 1) as nat).larger_spec(
                self.base1(from + len - 1).plus_spec(self.dur1[from + len - 1]),
            )
        }
    }

    /// The width of the gap that a run of the second trace opens.
    pub open spec fn run_width(self, from: int, len: nat) -> T {
        self.run_end(from, len).minus_spec(self.base1(from)).larger_spec(T::whole_spec(0))
    }

    /// Where the gap before anchor kernel `at` opens; behind the last kernel
    /// where there is no such kernel.
    pub open spec fn gap_start(self, at: int, shift: T) -> T {
        let n = self.raw0.len() as int;
        if at < n {
            self.base0(at).plus_spec(shift)
        } else {
            self.base0(n - 1).plus_spec(shift).plus_spec(self.dur0[n - 1])
        }
    }

    /// How far the gaps opened by the first `k` steps have pushed the anchor.
    pub open spec fn shift_before(self, ops: Seq<EditOp>, k: int) -> T
        decreases k,
    {
        if k <= 0 {
            T::whole_spec(0)
        } else {
            let shift = self.shift_before(ops, k - 1);
            match ops[k - 1] {
                EditOp::Insert { new_index, new_len, .. } if new_len > 0 => shift.plus_spec(
                    self.run_width(new_index as int, new_len as nat),
                ),
                EditOp::Replace { new_index, new_len, .. } if new_len > 0 => shift.plus_spec(
                    self.run_width(new_index as int, new_len as nat),
                ),
                _ => shift,
            }
        }
    }

    /// A run of anchor kernels, pushed by `shift`.
    pub open spec fn pushed_run(self, from: int, len: nat, shift: T) -> Seq<T> {
        Seq::new(len, |i: int| self.base0(from + i).plus_spec(shift))
    }

    /// A run of the second trace, laid from `gap` on.
    pub open spec fn inserted_run(self, from: int, len: nat, gap: T) -> Seq<T> {
        Seq::new(len, |j: int| gap.plus_spec(self.base1(from + j).minus_spec(self.base1(from))))
    }

    /// Where the anchor kernels of a step are drawn.
    pub open spec fn step_starts0(self, op: EditOp, shift: T) -> Seq<T> {
        match op {
            EditOp::Equal { old_index, len, .. } => self.pushed_run(
                old_index as int,
                len as nat,
                shift,
            ),
            EditOp::Delete { old_index, old_len, .. } => self.pushed_run(
                old_index as int,
                old_len as nat,
                shift,
            ),
            EditOp::Insert { .. } => Seq::empty(),
            EditOp::Replace { old_index, old_len, .. } => self.pushed_run(
                old_index as int,
                old_len as nat,
                shift,
            ),
        }
    }

    /// Where the kernels of the second trace of a step are drawn: matched ones
    /// onto the anchor, others into the gap that they open before the first anchor
    /// kernel that no step up to this one covers. `at` is how many anchor kernels
    /// the steps before this one cover.
    pub open spec fn step_starts1(self, op: EditOp, at: int, shift: T) -> Seq<T> {
        match op {
            EditOp::Equal { old_index, len, .. } => self.pushed_run(
                old_index as int,
                len as nat,
                shift,
            ),
            EditOp::Delete { .. } => Seq::empty(),
            EditOp::Insert { new_index, new_len, .. } => self.inserted_run(
                new_index as int,
                new_len as nat,
                self.gap_start(at, shift),
            ),
            EditOp::Replace { old_len, new_index, new_len, .. } => self.inserted_run(
                new_index as int,
                new_len as nat,
                self.gap_start(at + old_len, shift),
            ),
        }
    }

    /// Where the anchor kernels of the first `k` steps are drawn.
    pub open spec fn starts0(self, ops: Seq<EditOp>, k: int) -> Seq<T>
        decreases k,
    {
        if k <= 0 {
            Seq::empty()
        } else {
            self.starts0(ops, k - 1) + self.step_starts0(
                ops[k - 1],
                self.shift_before(ops, k - 1),
            )
        }
    }

    /// Where the kernels of the second trace of the first `k` steps are drawn.
    pub open spec fn starts1(self, ops: Seq<EditOp>, k: int) -> Seq<T>
        decreases k,
    {
        if k <= 0 {
            Seq::empty()
        } else {
            self.starts1(ops, k - 1) + self.step_starts1(
                ops[k - 1],
                diff::old_before(ops, k - 1),
                self.shift_before(ops, k - 1),
            )
        }
    }
}

/// `len` times the same answer.
pub open spec fn flags(len: nat, value: bool) -> Seq<bool> {
    Seq::new(len, |i: int| value)
}

/// Which anchor kernels of the first `k` steps stand in the anchor only.
pub open spec fn deleted_flags(ops: Seq<EditOp>, k: int) -> Seq<bool>
    decreases k,
{
    if k <= 0 {
        Seq::empty()
    } else {
        deleted_flags(ops, k - 1) + flags(
            ops[k - 1].old_count() as nat,
            !(ops[k - 1] is Equal),
        )
    }
}

/// Which kernels of the second trace of the first `k` steps stand there only.
pub open spec fn added_flags(ops: Seq<EditOp>, k: int) -> Seq<bool>
    decreases k,
{
    if k <= 0 {
        Seq::empty()
    } else {
        added_flags(ops, k - 1) + flags(ops[k - 1].new_count() as nat, !(ops[k - 1] is Equal))
    }
}

/// The starts and kinds of the kernels of one compared stream.
#[derive(Debug, Clone)]
pub struct StreamLayout<T> {
    /// Where the anchor kernels are drawn.
    pub starts0: Vec<T>,
    /// Where the kernels of the second trace are drawn.
    pub starts1: Vec<T>,
    /// Which anchor kernels stand in the anchor only.
    pub deleted: Vec<bool>,
    /// Which kernels of the second trace stand there only.
    pub added: Vec<bool>,
}

/// The timing of the kernels at the given positions.
pub open spec fn pair_of<T: Scalar>(
    kernels: Seq<KernelEvent<T>>,
    idx0: Seq<usize>,
    idx1: Seq<usize>,
    off0: T,
    off1: T,
) -> StreamPair<T> {
    StreamPair {
        raw0: Seq::new(idx0.len(), |i: int| kernels[idx0[i] as int].ts),
        dur0: Seq::new(idx0.len(), |i: int| kernels[idx0[i] as int].dur),
        off0,
        raw1: Seq::new(idx1.len(), |j: int| kernels[idx1[j] as int].ts),
        dur1: Seq::new(idx1.len(), |j: int| kernels[idx1[j] as int].dur),
        off1,
    }
}

/// The names of the kernels at the given positions.
pub open spec fn names_at<T>(kernels: Seq<KernelEvent<T>>, idx: Seq<usize>) -> Seq<Seq<char>> {
    Seq::new(idx.len(), |i: int| kernels[idx[i] as int].name@)
}

/// Whether all positions lie in a list of `n` items.
pub open spec fn within(idx: Seq<usize>, n: int) -> bool {
    forall|i: int| 0 <= i < idx.len() ==> #[trigger] idx[i] < n
}

/// Appends a run of anchor kernels, pushed by `shift`.
fn push_pushed_run<T: Scalar>(
    out: &mut Vec<T>,
    kernels: &[KernelEvent<T>],
    idx0: &[usize],
    off0: T,
    from: usize,
    len: usize,
    shift: T,
    Ghost(pair): Ghost<StreamPair<T>>,
)
    requires
        within(idx0@, kernels@.len() as int),
        from + len <= idx0@.len(),
        pair.raw0 == Seq::new(idx0@.len(), |i: int| kernels@[idx0@[i] as int].ts),
        pair.off0 == off0,
    ensures
        final(out)@ == old(out)@ + pair.pushed_run(from as int, len as nat, shift),
{
    let ghost start = out@;
    let n: usize = idx0.len();
    let mut i: usize = 0;
    while i < len
        invariant
            i <= len,
            from + len <= n == idx0@.len(),
            within(idx0@, kernels@.len() as int),
            pair.raw0 == Seq::new(idx0@.len(), |i: int| kernels@[idx0@[i] as int].ts),
            pair.off0 == off0,
            out@ == start + pair.pushed_run(from as int, i as nat, shift),
        decreases len - i,
    {
        let base = kernels[idx0[from + i]].ts.plus(off0);
        assert(base == pair.base0(from + i));
        out.push(base.plus(shift));
        i += 1;
        assert(out@ == start + pair.pushed_run(from as int, i as nat, shift));
    }
}

/// Appends `len` times the same answer.
fn push_flags(out: &mut Vec<bool>, len: usize, value: bool)
    ensures
        final(out)@ == old(out)@ + flags(len as nat, value),
{
    let ghost start = out@;
    let mut i: usize = 0;
    while i < len
        invariant
            i <= len,
            out@ == start + flags(i as nat, value),
        decreases len - i,
    {
        out.push(value);
        i += 1;
        assert(out@ == start + flags(i as nat, value));
    }
}

/// Lays a run of trace-1-only kernels into a newly opened gap of the anchor whose
/// width is the run's span. Gives back by how much the anchor is pushed in all.
fn push_inserted_run<T: Scalar>(
    out: &mut Vec<T>,
    kernels: &[KernelEvent<T>],
    idx0: &[usize],
    idx1: &[usize],
    off0: T,
    off1: T,
    at: usize,
    new_index: usize,
    new_len: usize,
    shift: T,
) -> (r: T)
    requires
        within(idx0@, kernels@.len() as int),
        within(idx1@, kernels@.len() as int),
        new_index + new_len <= idx1@.len(),
        idx0@.len() > 0 || idx1@.len() == 0,
    ensures
        ({
            let pair = pair_of(kernels@, idx0@, idx1@, off0, off1);
            &&& final(out)@ == old(out)@ + pair.inserted_run(
                new_index as int,
                new_len as nat,
                pair.gap_start(at as int, shift),
            )
            &&& r == if new_len > 0 {
                shift.plus_spec(pair.run_width(new_index as int, new_len as nat))
            } else {
                shift
            }
        }),
{
    let ghost pair = pair_of(kernels@, idx0@, idx1@, off0, off1);
    let ghost start = out@;
    if new_len == 0 {
        assert(out@ == start + pair.inserted_run(
            new_index as int,
            0,
            pair.gap_start(at as int, shift),
        ));
        return shift;
    }
    let n1: usize = idx1.len();
    let n0: usize = idx0.len();
    let run_start = kernels[idx1[new_index]].ts.plus(off1);
    assert(run_start == pair.base1(new_index as int));
    let mut run_end = T::lowest();
    let mut i: usize = 0;
    while i < new_len
        invariant
            i <= new_len,
            new_index + new_len <= n1 == idx1@.len(),
            within(idx1@, kernels@.len() as int),
            pair == pair_of(kernels@, idx0@, idx1@, off0, off1),
            run_end == pair.run_end(new_index as int, i as nat),
        decreases new_len - i,
    {
        let k = &kernels[idx1[new_index + i]];
        run_end = run_end.larger(k.ts.plus(off1).plus(k.dur));
        i += 1;
    }
    let width = run_end.minus(run_start).larger(T::whole(0));
    let gap = if at < n0 {
        kernels[idx0[at]].ts.plus(off0).plus(shift)
    } else {
        let last = &kernels[idx0[n0 - 1]];
        last.ts.plus(off0).plus(shift).plus(last.dur)
    };
    assert(gap == pair.gap_start(at as int, shift));
    let mut j: usize = 0;
    while j < new_len
        invariant
            j <= new_len,
            new_index + new_len <= n1 == idx1@.len(),
            within(idx1@, kernels@.len() as int),
            pair == pair_of(kernels@, idx0@, idx1@, off0, off1),
            run_start == pair.base1(new_index as int),
            out@ == start + pair.inserted_run(new_index as int, j as nat, gap),
        decreases new_len - j,
    {
        let base = kernels[idx1[new_index + j]].ts.plus(off1);
        assert(base == pair.base1(new_index + j));
        out.push(gap.plus(base.minus(run_start)));
        j += 1;
        assert(out@ == start + pair.inserted_run(new_index as int, j as nat, gap));
    }
    shift.plus(width)
}

/// Lays the kernels of one stream of two traces out along an edit script of
/// their names. `idx0` and `idx1` are the positions of the kernels of the anchor
/// and of the second trace, `off0` and `off1` what leads to the common axis.
pub fn lay_out<T: Scalar>(
    kernels: &[KernelEvent<T>],
    idx0: &[usize],
    idx1: &[usize],
    off0: T,
    off1: T,
    ops: &Vec<EditOp>,
) -> (r: StreamLayout<T>)
    requires
        within(idx0@, kernels@.len() as int),
        within(idx1@, kernels@.len() as int),
        idx0@.len() > 0 || idx1@.len() == 0,
        diff::leads(ops@, idx0@.len() as int, idx1@.len() as int),
    ensures
        ({
            let pair = pair_of(kernels@, idx0@, idx1@, off0, off1);
            let n = ops@.len() as int;
            &&& r.starts0@ == pair.starts0(ops@, n)
            &&& r.starts1@ == pair.starts1(ops@, n)
            &&& r.deleted@ == deleted_flags(ops@, n)
            &&& r.added@ == added_flags(ops@, n)
        }),
{
    let ghost pair = pair_of(kernels@, idx0@, idx1@, off0, off1);
    let mut starts0: Vec<T> = Vec::new();
    let mut starts1: Vec<T> = Vec::new();
    let mut deleted: Vec<bool> = Vec::new();
    let mut added: Vec<bool> = Vec::new();
    let mut shift = T::whole(0);
    let mut old_at: usize = 0;
    let mut k: usize = 0;
    while k < ops.len()
        invariant
            k <= ops@.len(),
            old_at == diff::old_before(ops@, k as int),
            within(idx0@, kernels@.len() as int),
            within(idx1@, kernels@.len() as int),
            idx0@.len() > 0 || idx1@.len() == 0,
            diff::leads(ops@, idx0@.len() as int, idx1@.len() as int),
            pair == pair_of(kernels@, idx0@, idx1@, off0, off1),
            shift == pair.shift_before(ops@, k as int),
            starts0@ == pair.starts0(ops@, k as int),
            starts1@ == pair.starts1(ops@, k as int),
            deleted@ == deleted_flags(ops@, k as int),
            added@ == added_flags(ops@, k as int),
        decreases ops@.len() - k,
    {
        let op = ops[k];
        proof {
            diff::steps_lie_inside(ops@, idx0@.len() as int, idx1@.len() as int, k as int);
            assert(ops@[k as int].stands_at(
                diff::old_before(ops@, k as int),
                diff::new_before(ops@, k as int),
            ));
            assert(idx0@.len() == idx0.len());
        }
        let ghost s0 = starts0@;
        let ghost s1 = starts1@;
        let ghost d0 = deleted@;
        let ghost d1 = added@;
        match op {
            EditOp::Equal { old_index, len, .. } => {
                push_pushed_run(
                    &mut starts0,
                    kernels,
                    idx0,
                    off0,
                    old_index,
                    len,
                    shift,
                    Ghost(pair),
                );
                push_pushed_run(
                    &mut starts1,
                    kernels,
                    idx0,
                    off0,
                    old_index,
                    len,
                    shift,
                    Ghost(pair),
                );
                push_flags(&mut deleted, len, false);
                push_flags(&mut added, len, false);
                old_at = old_at + len;
            },
            EditOp::Delete { old_index, old_len, .. } => {
                push_pushed_run(
                    &mut starts0,
                    kernels,
                    idx0,
                    off0,
                    old_index,
                    old_len,
                    shift,
                    Ghost(pair),
                );
                push_flags(&mut deleted, old_len, true);
                old_at = old_at + old_len;
                assert(s1 + Seq::<T>::empty() == s1);
                assert(d1 + flags(0, true) == d1);
            },
            EditOp::Insert { new_index, new_len, .. } => {
                shift =
                push_inserted_run(
                    &mut starts1,
                    kernels,
                    idx0,
                    idx1,
                    off0,
                    off1,
                    old_at,
                    new_index,
                    new_len,
                    shift,
                );
                push_flags(&mut added, new_len, true);
                assert(s0 + Seq::<T>::empty() == s0);
                assert(d0 + flags(0, true) == d0);
            },
            EditOp::Replace { old_index, old_len, new_index, new_len } => {
                push_pushed_run(
                    &mut starts0,
                    kernels,
                    idx0,
                    off0,
                    old_index,
                    old_len,
                    shift,
                    Ghost(pair),
                );
                push_flags(&mut deleted, old_len, true);
                old_at = old_at + old_len;
                shift =
                push_inserted_run(
                    &mut starts1,
                    kernels,
                    idx0,
                    idx1,
                    off0,
                    off1,
                    old_at,
                    new_index,
                    new_len,
                    shift,
                );
                push_flags(&mut added, new_len, true);
            },
        }
        k += 1;
    }
    StreamLayout { starts0, starts1, deleted, added }
}

/// A list with new values at the given positions, written one after the other.
pub open spec fn overwritten<V>(base: Seq<V>, at: Seq<usize>, values: Seq<V>) -> Seq<V>
    decreases at.len(),
{
    if at.len() == 0 {
        base
    } else {
        overwritten(base, at.drop_last(), values).update(
            at.last() as int,
            values[at.len() - 1],
        )
    }
}

/// A list with a new value at those of the given positions that are flagged.
pub open spec fn marked<V>(base: Seq<V>, at: Seq<usize>, flags: Seq<bool>, value: V) -> Seq<V>
    decreases at.len(),
{
    if at.len() == 0 {
        base
    } else if flags[at.len() - 1] {
        marked(base, at.drop_last(), flags, value).update(at.last() as int, value)
    } else {
        marked(base, at.drop_last(), flags, value)
    }
}

/// Starts as entries of an override list.
pub open spec fn as_overrides<T>(starts: Seq<T>) -> Seq<Option<T>> {
    starts.map_values(|t: T| Some(t))
}

/// What overwriting leaves at each position, for distinct positions.
pub proof fn overwriting_reaches_its_positions<V>(base: Seq<V>, at: Seq<usize>, values: Seq<V>)
    requires
        within(at, base.len() as int),
        at.no_duplicates(),
    ensures
        overwritten(base, at, values).len() == base.len(),
        forall|i: int|
            0 <= i < at.len() ==> overwritten(base, at, values)[#[trigger] at[i] as int]
                == values[i],
        forall|p: int|
            0 <= p < base.len() && !at.contains(p as usize) ==> #[trigger] overwritten(
                base,
                at,
                values,
            )[p] == base[p],
    decreases at.len(),
{
    if at.len() > 0 {
        let rest = at.drop_last();
        assert(rest.no_duplicates());
        overwriting_reaches_its_positions(base, rest, values);
        let r = overwritten(base, at, values);
        let t = overwritten(base, rest, values);
        assert forall|i: int| 0 <= i < at.len() implies r[#[trigger] at[i] as int] == values[i] by {
            if i < at.len() - 1 {
                assert(rest[i] == at[i]);
                assert(t[rest[i] as int] == values[i]);
            }
        }
        assert forall|p: int| 0 <= p < base.len() && !at.contains(p as usize) implies #[trigger] r[p]
            == base[p] by {
            assert(at[at.len() - 1] != p as usize);
            assert(!rest.contains(p as usize)) by {
                if rest.contains(p as usize) {
                    let i = choose|i: int| 0 <= i < rest.len() && rest[i] == p as usize;
                    assert(at[i] == p as usize);
                }
            }
            assert(t[p] == base[p]);
        }
    }
}

/// What marking leaves at each position, for distinct positions.
pub proof fn marking_reaches_its_positions<V>(
    base: Seq<V>,
    at: Seq<usize>,
    flags: Seq<bool>,
    value: V,
)
    requires
        within(at, base.len() as int),
        at.no_duplicates(),
    ensures
        marked(base, at, flags, value).len() == base.len(),
        forall|i: int|
            0 <= i < at.len() ==> marked(base, at, flags, value)[#[trigger] at[i] as int]
                == if flags[i] {
                value
            } else {
                base[at[i] as int]
            },
        forall|p: int|
            0 <= p < base.len() && !at.contains(p as usize) ==> #[trigger] marked(
                base,
                at,
                flags,
                value,
            )[p] == base[p],
    decreases at.len(),
{
    if at.len() > 0 {
        let rest = at.drop_last();
        assert(rest.no_duplicates());
        marking_reaches_its_positions(base, rest, flags, value);
        let r = marked(base, at, flags, value);
        let t = marked(base, rest, flags, value);
        assert forall|i: int| 0 <= i < at.len() implies r[#[trigger] at[i] as int] == if flags[i] {
            value
        } else {
            base[at[i] as int]
        } by {
            if i < at.len() - 1 {
                assert(rest[i] == at[i]);
                assert(t[rest[i] as int] == if flags[i] {
                    value
                } else {
                    base[at[i] as int]
                });
            } else {
                assert(!rest.contains(at[i])) by {
                    if rest.contains(at[i]) {
                        let j = choose|j: int| 0 <= j < rest.len() && rest[j] == at[i];
                        assert(at[j] == at[i]);
                    }
                }
                assert(t[at[i] as int] == base[at[i] as int]);
            }
        }
        assert forall|p: int| 0 <= p < base.len() && !at.contains(p as usize) implies #[trigger] r[p]
            == base[p] by {
            assert(at[at.len() - 1] != p as usize);
            assert(!rest.contains(p as usize)) by {
                if rest.contains(p as usize) {
                    let i = choose|i: int| 0 <= i < rest.len() && rest[i] == p as usize;
                    assert(at[i] == p as usize);
                }
            }
            assert(t[p] == base[p]);
        }
    }
}

/// Writes starts into an override list.
fn write_starts<T: Scalar>(overrides: &mut Vec<Option<T>>, at: &[usize], starts: &Vec<T>)
    requires
        within(at@, old(overrides)@.len() as int),
        starts@.len() == at@.len(),
    ensures
        final(overrides)@ == overwritten(old(overrides)@, at@, as_overrides(starts@)),
        final(overrides)@.len() == old(overrides)@.len(),
{
    let ghost base = overrides@;
    let mut i: usize = 0;
    while i < at.len()
        invariant
            i <= at@.len(),
            starts@.len() == at@.len(),
            within(at@, base.len() as int),
            overrides@.len() == base.len(),
            overrides@ == overwritten(base, at@.take(i as int), as_overrides(starts@)),
        decreases at@.len() - i,
    {
        assert(at@.take(i + 1).drop_last() == at@.take(i as int));
        overrides.set(at[i], Some(starts[i]));
        i += 1;
    }
    assert(at@.take(at@.len() as int) == at@);
}

/// Writes a diff status where a flag is set.
fn write_status(
    status: &mut Vec<Option<KernelDiff>>,
    at: &[usize],
    flags: &Vec<bool>,
    value: KernelDiff,
)
    requires
        within(at@, old(status)@.len() as int),
        flags@.len() == at@.len(),
    ensures
        final(status)@ == marked(old(status)@, at@, flags@, Some(value)),
        final(status)@.len() == old(status)@.len(),
{
    let ghost base = status@;
    let mut i: usize = 0;
    while i < at.len()
        invariant
            i <= at@.len(),
            flags@.len() == at@.len(),
            within(at@, base.len() as int),
            status@.len() == base.len(),
            status@ == marked(base, at@.take(i as int), flags@, Some(value)),
        decreases at@.len() - i,
    {
        assert(at@.take(i + 1).drop_last() == at@.take(i as int));
        if flags[i] {
            status.set(at[i], Some(value));
        }
        i += 1;
    }
    assert(at@.take(at@.len() as int) == at@);
}

/// Pairs of raw and render start, by which annotations follow the kernels.
pub open spec fn controls<T>(raw: Seq<T>, starts: Seq<T>) -> Seq<(T, T)> {
    Seq::new(raw.len(), |i: int| (raw[i], starts[i]))
}

/// The pairs of raw and render start of the kernels at the given positions.
fn control_points<T: Scalar>(kernels: &[KernelEvent<T>], at: &[usize], starts: &Vec<T>) -> (r: Vec<
    (T, T),
>)
    requires
        within(at@, kernels@.len() as int),
        starts@.len() == at@.len(),
    ensures
        r@ == controls(Seq::new(at@.len(), |i: int| kernels@[at@[i] as int].ts), starts@),
{
    let ghost raw = Seq::new(at@.len(), |i: int| kernels@[at@[i] as int].ts);
    let mut out: Vec<(T, T)> = Vec::new();
    let mut i: usize = 0;
    while i < at.len()
        invariant
            i <= at@.len(),
            starts@.len() == at@.len(),
            within(at@, kernels@.len() as int),
            raw == Seq::new(at@.len(), |i: int| kernels@[at@[i] as int].ts),
            out@ == controls(raw, starts@).take(i as int),
        decreases at@.len() - i,
    {
        out.push((kernels[at[i]].ts, starts[i]));
        i += 1;
        assert(out@ == controls(raw, starts@).take(i as int));
    }
    assert(out@ == controls(raw, starts@));
    out
}

/// The names of the kernels at the given positions.
fn kernel_names<'a, T: Scalar>(kernels: &'a [KernelEvent<T>], at: &[usize]) -> (r: Vec<&'a str>)
    requires
        within(at@, kernels@.len() as int),
    ensures
        diff::name_texts(r@) == names_at(kernels@, at@),
        r@.len() == at@.len(),
{
    let mut out: Vec<&'a str> = Vec::new();
    let mut i: usize = 0;
    while i < at.len()
        invariant
            i <= at@.len(),
            within(at@, kernels@.len() as int),
            out@.len() == i,
            forall|j: int|
                0 <= j < i ==> (#[trigger] out@[j])@ == kernels@[at@[j] as int].name@,
        decreases at@.len() - i,
    {
        out.push(kernels[at[i]].name.as_str());
        i += 1;
    }
    assert(diff::name_texts(out@) == names_at(kernels@, at@));
    out
}

/// Every kernel that the first `k` steps cover has a start and a flag.
pub proof fn steps_place_what_they_cover<T: Scalar>(pair: StreamPair<T>, ops: Seq<EditOp>, k: int)
    requires
        0 <= k <= ops.len(),
    ensures
        pair.starts0(ops, k).len() == deleted_flags(ops, k).len() == diff::old_before(ops, k),
        pair.starts1(ops, k).len() == added_flags(ops, k).len() == diff::new_before(ops, k),
    decreases k,
{
    if k > 0 {
        steps_place_what_they_cover(pair, ops, k - 1);
    }
}

/// The edit script of the kernel names of one stream of two traces.
pub open spec fn stream_script<T>(
    kernels: Seq<KernelEvent<T>>,
    idx0: Seq<usize>,
    idx1: Seq<usize>,
) -> Seq<EditOp> {
    diff::myers_script(names_at(kernels, idx0), names_at(kernels, idx1))
}

/// Whether the edit script of one stream leads from the kernels of the one trace
/// to those of the other, with equal names where it says so, and matches as many
/// kernels as can be matched.
pub open spec fn sound_script<T>(
    kernels: Seq<KernelEvent<T>>,
    idx0: Seq<usize>,
    idx1: Seq<usize>,
) -> bool {
    let ops = stream_script(kernels, idx0, idx1);
    &&& diff::leads(ops, idx0.len() as int, idx1.len() as int)
    &&& diff::agrees(ops, names_at(kernels, idx0), names_at(kernels, idx1))
    &&& diff::matches_most(ops, names_at(kernels, idx0), names_at(kernels, idx1))
}

/// Diffs the two streams' kernel-name sequences, writing absolute render-start
/// overrides for their kernels and returning the trace-0 and trace-1 control
/// points `(raw_start, render_start)` so annotations can follow the same remap.
/// `idx0`/`idx1` are flat kernel indices for trace 0 / 1 in timeline order;
/// `off0`/`off1` are the per-trace normal offsets used as the un-shifted origin.
pub fn remap_stream<T: Scalar>(
    kernels: &[KernelEvent<T>],
    idx0: &[usize],
    idx1: &[usize],
    off0: T,
    off1: T,
    overrides: &mut Vec<Option<T>>,
    diff_status: &mut Vec<Option<KernelDiff>>,
) -> (r: (Vec<(T, T)>, Vec<(T, T)>))
    requires
        within(idx0@, kernels@.len() as int),
        within(idx1@, kernels@.len() as int),
        within(idx0@, old(overrides)@.len() as int),
        within(idx1@, old(overrides)@.len() as int),
        within(idx0@, old(diff_status)@.len() as int),
        within(idx1@, old(diff_status)@.len() as int),
        idx0@.len() > 0 || idx1@.len() == 0,
    ensures
        ({
            let pair = pair_of(kernels@, idx0@, idx1@, off0, off1);
            let ops = stream_script(kernels@, idx0@, idx1@);
            let n = ops.len() as int;
            &&& final(overrides)@ == overwritten(
                overwritten(old(overrides)@, idx0@, as_overrides(pair.starts0(ops, n))),
                idx1@,
                as_overrides(pair.starts1(ops, n)),
            )
            &&& final(diff_status)@ == marked(
                marked(
                    old(diff_status)@,
                    idx0@,
                    deleted_flags(ops, n),
                    Some(KernelDiff::Deleted),
                ),
                idx1@,
                added_flags(ops, n),
                Some(KernelDiff::Added),
            )
            &&& r.0@ == controls(pair.raw0, pair.starts0(ops, n))
            &&& r.1@ == controls(pair.raw1, pair.starts1(ops, n))
        }),
        final(overrides)@.len() == old(overrides)@.len(),
        final(diff_status)@.len() == old(diff_status)@.len(),
        sound_script(kernels@, idx0@, idx1@),
{
    let names0 = kernel_names(kernels, idx0);
    let names1 = kernel_names(kernels, idx1);
    let ops = capture_myers(names0.as_slice(), names1.as_slice());
    let layout = lay_out(kernels, idx0, idx1, off0, off1, &ops);
    proof {
        steps_place_what_they_cover(pair_of(kernels@, idx0@, idx1@, off0, off1), ops@, ops@.len() as int);
    }
    write_starts(overrides, idx0, &layout.starts0);
    write_starts(overrides, idx1, &layout.starts1);
    write_status(diff_status, idx0, &layout.deleted, KernelDiff::Deleted);
    write_status(diff_status, idx1, &layout.added, KernelDiff::Added);
    let ctrl0 = control_points(kernels, idx0, &layout.starts0);
    let ctrl1 = control_points(kernels, idx1, &layout.starts1);
    (ctrl0, ctrl1)
}

proof fn lemma_prefix<T: Scalar>(pair: StreamPair<T>, ops: Seq<EditOp>, j: int, k: int)
    requires
        0 <= j <= k <= ops.len(),
    ensures
        pair.starts0(ops, k).take(diff::old_before(ops, j)) == pair.starts0(ops, j),
        pair.starts1(ops, k).take(diff::new_before(ops, j)) == pair.starts1(ops, j),
        deleted_flags(ops, k).take(diff::old_before(ops, j)) == deleted_flags(ops, j),
        added_flags(ops, k).take(diff::new_before(ops, j)) == added_flags(ops, j),
        diff::old_before(ops, j) <= diff::old_before(ops, k),
        diff::new_before(ops, j) <= diff::new_before(ops, k),
    decreases k,
{
    steps_place_what_they_cover(pair, ops, j);
    steps_place_what_they_cover(pair, ops, k);
    if j == k {
        assert(pair.starts0(ops, k).take(diff::old_before(ops, j)) == pair.starts0(ops, j));
        assert(pair.starts1(ops, k).take(diff::new_before(ops, j)) == pair.starts1(ops, j));
        assert(deleted_flags(ops, k).take(diff::old_before(ops, j)) == deleted_flags(ops, j));
        assert(added_flags(ops, k).take(diff::new_before(ops, j)) == added_flags(ops, j));
    } else {
        lemma_prefix(pair, ops, j, k - 1);
        steps_place_what_they_cover(pair, ops, k - 1);
        assert(pair.starts0(ops, k).take(diff::old_before(ops, j)) == pair.starts0(
            ops,
            k - 1,
        ).take(diff::old_before(ops, j)));
        assert(pair.starts1(ops, k).take(diff::new_before(ops, j)) == pair.starts1(
            ops,
            k - 1,
        ).take(diff::new_before(ops, j)));
        assert(deleted_flags(ops, k).take(diff::old_before(ops, j)) == deleted_flags(
            ops,
            k - 1,
        ).take(diff::old_before(ops, j)));
        assert(added_flags(ops, k).take(diff::new_before(ops, j)) == added_flags(
            ops,
            k - 1,
        ).take(diff::new_before(ops, j)));
    }
}

/// Every kernel of either trace is placed, and each by the step that covers it:
/// an anchor kernel stays where it is but for the gaps opened before it, and a
/// kernel of the second trace stands where its step lays it. The flags tell
/// exactly the kernels that no equal run covers.
pub proof fn every_kernel_is_placed<T: Scalar>(pair: StreamPair<T>, ops: Seq<EditOp>, k: int)
    requires
        diff::leads(ops, pair.raw0.len() as int, pair.raw1.len() as int),
        0 <= k < ops.len(),
    ensures
        ({
            let n = ops.len() as int;
            let shift = pair.shift_before(ops, k);
            let old_at = diff::old_before(ops, k);
            let new_at = diff::new_before(ops, k);
            &&& pair.starts0(ops, n).len() == deleted_flags(ops, n).len() == pair.raw0.len()
            &&& pair.starts1(ops, n).len() == added_flags(ops, n).len() == pair.raw1.len()
            &&& forall|i: int|
                old_at <= i < old_at + ops[k].old_count() ==> #[trigger] pair.starts0(ops, n)[i]
                    == pair.base0(i).plus_spec(shift)
            &&& forall|j: int|
                new_at <= j < new_at + ops[k].new_count() ==> #[trigger] pair.starts1(ops, n)[j]
                    == pair.step_starts1(ops[k], old_at, shift)[j - new_at]
            &&& forall|i: int|
                old_at <= i < old_at + ops[k].old_count() ==> #[trigger] deleted_flags(ops, n)[i]
                    == !(ops[k] is Equal)
            &&& forall|j: int|
                new_at <= j < new_at + ops[k].new_count() ==> #[trigger] added_flags(ops, n)[j]
                    == !(ops[k] is Equal)
        }),
{
    let n = ops.len() as int;
    let shift = pair.shift_before(ops, k);
    let old_at = diff::old_before(ops, k);
    let new_at = diff::new_before(ops, k);
    diff::steps_lie_inside(ops, pair.raw0.len() as int, pair.raw1.len() as int, k);
    assert(ops[k].stands_at(old_at, new_at));
    steps_place_what_they_cover(pair, ops, n);
    steps_place_what_they_cover(pair, ops, k);
    steps_place_what_they_cover(pair, ops, k + 1);
    lemma_prefix(pair, ops, k + 1, n);
    assert forall|i: int| old_at <= i < old_at + ops[k].old_count() implies #[trigger] pair.starts0(
        ops,
        n,
    )[i] == pair.base0(i).plus_spec(shift) by {
        assert(pair.starts0(ops, n).take(diff::old_before(ops, k + 1))[i] == pair.starts0(
            ops,
            k + 1,
        )[i]);
        assert(pair.starts0(ops, k + 1)[i] == pair.step_starts0(ops[k], shift)[i - old_at]);
    }
    assert forall|j: int| new_at <= j < new_at + ops[k].new_count() implies #[trigger] pair.starts1(
        ops,
        n,
    )[j] == pair.step_starts1(ops[k], old_at, shift)[j - new_at] by {
        assert(pair.starts1(ops, n).take(diff::new_before(ops, k + 1))[j] == pair.starts1(
            ops,
            k + 1,
        )[j]);
    }
    assert forall|i: int|
        old_at <= i < old_at + ops[k].old_count() implies #[trigger] deleted_flags(ops, n)[i] == !(
    ops[k] is Equal) by {
        assert(deleted_flags(ops, n).take(diff::old_before(ops, k + 1))[i] == deleted_flags(
            ops,
            k + 1,
        )[i]);
    }
    assert forall|j: int|
        new_at <= j < new_at + ops[k].new_count() implies #[trigger] added_flags(ops, n)[j] == !(
    ops[k] is Equal) by {
        assert(added_flags(ops, n).take(diff::new_before(ops, k + 1))[j] == added_flags(
            ops,
            k + 1,
        )[j]);
    }
}

/// Matched kernels share their start, are marked neither deleted nor added, and
/// bear the same name.
pub proof fn matched_kernels_share_their_start<T: Scalar>(
    pair: StreamPair<T>,
    ops: Seq<EditOp>,
    names0: Seq<Seq<char>>,
    names1: Seq<Seq<char>>,
    k: int,
    d: int,
)
    requires
        diff::leads(ops, pair.raw0.len() as int, pair.raw1.len() as int),
        diff::agrees(ops, names0, names1),
        0 <= k < ops.len(),
        ops[k] is Equal,
        0 <= d < ops[k].old_count(),
    ensures
        ({
            let n = ops.len() as int;
            let i = diff::old_before(ops, k) + d;
            let j = diff::new_before(ops, k) + d;
            &&& pair.starts0(ops, n)[i] == pair.starts1(ops, n)[j]
            &&& !deleted_flags(ops, n)[i]
            &&& !added_flags(ops, n)[j]
            &&& names0[i] == names1[j]
        }),
{
    every_kernel_is_placed(pair, ops, k);
    assert(ops[k].stands_at(diff::old_before(ops, k), diff::new_before(ops, k)));
    match ops[k] {
        EditOp::Equal { old_index, new_index, len } => {
            assert(names0[old_index + d] == names1[new_index + d]);
        },
        _ => {},
    }
}

/// Streams with the same names are matched kernel by kernel: nothing is marked, the
/// anchor is not pushed, and each kernel of the second trace starts with its own
/// anchor kernel.
pub proof fn streams_with_the_same_names_differ_nowhere<T: Scalar>(
    pair: StreamPair<T>,
    ops: Seq<EditOp>,
    names0: Seq<Seq<char>>,
    names1: Seq<Seq<char>>,
    i: int,
)
    requires
        names0 == names1,
        pair.raw0.len() == names0.len(),
        pair.raw1.len() == names1.len(),
        diff::leads(ops, names0.len() as int, names1.len() as int),
        diff::matches_most(ops, names0, names1),
        0 <= i < names0.len(),
    ensures
        ({
            let n = ops.len() as int;
            &&& pair.starts0(ops, n)[i] == pair.base0(i).plus_spec(T::whole_spec(0))
            &&& pair.starts1(ops, n)[i] == pair.starts0(ops, n)[i]
            &&& !deleted_flags(ops, n)[i]
            &&& !added_flags(ops, n)[i]
        }),
{
    diff::equal_sequences_are_matched_throughout(ops, names0, names1);
    let k = lemma_covering(ops, i, ops.len() as int);
    every_kernel_is_placed(pair, ops, k);
    lemma_no_push(pair, ops, k);
    assert(ops[k] is Equal);
    assert(ops[k].stands_at(diff::old_before(ops, k), diff::new_before(ops, k)));
    assert(diff::old_before(ops, k) == diff::new_before(ops, k));
}

proof fn lemma_no_push<T: Scalar>(pair: StreamPair<T>, ops: Seq<EditOp>, k: int)
    requires
        0 <= k <= ops.len(),
        forall|l: int| 0 <= l < k ==> (#[trigger] ops[l]) is Equal || ops[l].new_count() == 0,
    ensures
        pair.shift_before(ops, k) == T::whole_spec(0),
    decreases k,
{
    if k > 0 {
        lemma_no_push(pair, ops, k - 1);
        assert(ops[k - 1] is Equal || ops[k - 1].new_count() == 0);
    }
}

/// The step that covers old item `i`.
pub open spec fn covering_step(ops: Seq<EditOp>, i: int, k: int) -> bool {
    0 <= k < ops.len() && diff::old_before(ops, k) <= i < diff::old_before(ops, k + 1)
}

/// Every anchor kernel is covered by a step, and so is either matched or marked
/// deleted; it keeps its own place but for a push to the right.
pub proof fn anchor_kernels_are_only_pushed<T: Scalar>(
    pair: StreamPair<T>,
    ops: Seq<EditOp>,
    i: int,
)
    requires
        diff::leads(ops, pair.raw0.len() as int, pair.raw1.len() as int),
        0 <= i < pair.raw0.len(),
    ensures
        exists|k: int| #[trigger]
            covering_step(ops, i, k) && pair.starts0(ops, ops.len() as int)[i] == pair.base0(
                i,
            ).plus_spec(pair.shift_before(ops, k)) && deleted_flags(ops, ops.len() as int)[i] == !(
            ops[k] is Equal),
{
    let k = lemma_covering(ops, i, ops.len() as int);
    every_kernel_is_placed(pair, ops, k);
    assert(covering_step(ops, i, k));
}

proof fn lemma_covering(ops: Seq<EditOp>, i: int, n: int) -> (k: int)
    requires
        0 <= n <= ops.len(),
        0 <= i < diff::old_before(ops, n),
    ensures
        covering_step(ops, i, k),
    decreases n,
{
    if i >= diff::old_before(ops, n - 1) {
        n - 1
    } else {
        lemma_covering(ops, i, n - 1)
    }
}

/// Before the first insertion nothing is pushed: anchor kernels stand at their
/// un-shifted place plus zero.
pub proof fn nothing_is_pushed_before_an_insertion<T: Scalar>(
    pair: StreamPair<T>,
    ops: Seq<EditOp>,
    k: int,
)
    requires
        0 <= k <= ops.len(),
        forall|l: int| 0 <= l < k ==> (#[trigger] ops[l]) is Equal || ops[l] is Delete,
    ensures
        pair.shift_before(ops, k) == T::whole_spec(0),
    decreases k,
{
    if k > 0 {
        nothing_is_pushed_before_an_insertion(pair, ops, k - 1);
        assert(ops[k - 1] is Equal || ops[k - 1] is Delete);
    }
}

/// Counted in ticks, gaps only push the anchor to the right: the push grows from
/// step to step.
pub proof fn gaps_only_push_right(pair: StreamPair<i64>, ops: Seq<EditOp>, k: int, l: int)
    requires
        0 <= k <= l <= ops.len(),
    ensures
        0 <= pair.shift_before(ops, k) <= pair.shift_before(ops, l),
    decreases l,
{
    if k < l {
        gaps_only_push_right(pair, ops, k, l - 1);
    } else if k > 0 {
        gaps_only_push_right(pair, ops, k - 1, k - 1);
    }
}

/// Two covering steps come in the order of what they cover.
proof fn lemma_covering_steps_in_order(ops: Seq<EditOp>, i: int, j: int, k: int, l: int)
    requires
        i <= j,
        covering_step(ops, i, k),
        covering_step(ops, j, l),
    ensures
        k <= l,
{
    if l < k {
        diff::steps_go_forward(ops, l + 1, k);
    }
}

/// Counted in ticks, anchor kernels stay in their order.
pub proof fn the_anchor_keeps_its_order(
    pair: StreamPair<i64>,
    ops: Seq<EditOp>,
    i: int,
    j: int,
)
    requires
        diff::leads(ops, pair.raw0.len() as int, pair.raw1.len() as int),
        0 <= i <= j < pair.raw0.len(),
        pair.base0(i) <= pair.base0(j),
    ensures
        pair.starts0(ops, ops.len() as int)[i] <= pair.starts0(ops, ops.len() as int)[j],
{
    let k = lemma_covering(ops, i, ops.len() as int);
    let l = lemma_covering(ops, j, ops.len() as int);
    every_kernel_is_placed(pair, ops, k);
    every_kernel_is_placed(pair, ops, l);
    lemma_covering_steps_in_order(ops, i, j, k, l);
    gaps_only_push_right(pair, ops, k, l);
}

/// The width of all gaps that the steps `k..l` open.
pub open spec fn widths_between(pair: StreamPair<i64>, ops: Seq<EditOp>, k: int, l: int) -> int
    decreases l - k,
{
    if l <= k {
        0
    } else {
        widths_between(pair, ops, k, l - 1) + match ops[l - 1] {
            EditOp::Insert { new_index, new_len, .. } if new_len > 0 => pair.run_width(
                new_index as int,
                new_len as nat,
            ) as int,
            EditOp::Replace { new_index, new_len, .. } if new_len > 0 => pair.run_width(
                new_index as int,
                new_len as nat,
            ) as int,
            _ => 0,
        }
    }
}

proof fn lemma_shift_adds_widths(pair: StreamPair<i64>, ops: Seq<EditOp>, k: int, l: int)
    requires
        0 <= k <= l <= ops.len(),
        pair.shift_before(ops, l) < i64::MAX,
    ensures
        pair.shift_before(ops, l) == pair.shift_before(ops, k) + widths_between(pair, ops, k, l),
    decreases l,
{
    if k < l {
        gaps_only_push_right(pair, ops, l - 1, l);
        lemma_shift_adds_widths(pair, ops, k, l - 1);
    }
}

/// Counted in ticks, the distance of two anchor kernels grows by exactly the width
/// of what is inserted between them; where nothing is, the idle gaps between them
/// stay as they are.
pub proof fn distances_grow_by_what_is_inserted(
    pair: StreamPair<i64>,
    ops: Seq<EditOp>,
    i: int,
    j: int,
    k: int,
    l: int,
)
    requires
        diff::leads(ops, pair.raw0.len() as int, pair.raw1.len() as int),
        0 <= i <= j < pair.raw0.len(),
        covering_step(ops, i, k),
        covering_step(ops, j, l),
        pair.shift_before(ops, l) < i64::MAX,
        pair.base0(i) + pair.shift_before(ops, k) <= i64::MAX,
        pair.base0(j) + pair.shift_before(ops, l) <= i64::MAX,
    ensures
        ({
            let starts = pair.starts0(ops, ops.len() as int);
            starts[j] - starts[i] == pair.base0(j) - pair.base0(i) + widths_between(
                pair,
                ops,
                k,
                l,
            )
        }),
{
    lemma_covering_steps_in_order(ops, i, j, k, l);
    every_kernel_is_placed(pair, ops, k);
    every_kernel_is_placed(pair, ops, l);
    gaps_only_push_right(pair, ops, k, l);
    lemma_shift_adds_widths(pair, ops, k, l);
}

proof fn lemma_run_end(pair: StreamPair<i64>, from: int, len: nat, d: int)
    requires
        0 <= d < len,
    ensures
        pair.run_end(from, len) >= pair.base1(from + d).plus_spec(pair.dur1[from + d]),
    decreases len,
{
    if d < len - 1 {
        lemma_run_end(pair, from, (len - 1) as nat, d);
    }
}

/// Whether a step lays kernels that stand in the second trace only.
pub open spec fn opens_gap(op: EditOp) -> bool {
    match op {
        EditOp::Insert { new_len, .. } => new_len > 0,
        EditOp::Replace { new_len, .. } => new_len > 0,
        _ => false,
    }
}

/// Counted in ticks, the kernels that stand in the second trace only fill the gap
/// that opens before the next anchor kernel: they start where that kernel would
/// have stood, and end before it starts.
#[verifier::spinoff_prover]
#[verifier::rlimit(60)]
pub proof fn second_only_kernels_fill_the_gap(
    pair: StreamPair<i64>,
    ops: Seq<EditOp>,
    k: int,
    j: int,
)
    requires
        diff::leads(ops, pair.raw0.len() as int, pair.raw1.len() as int),
        0 <= k < ops.len(),
        opens_gap(ops[k]),
        diff::old_before(ops, k + 1) < pair.raw0.len(),
        diff::new_before(ops, k) <= j < diff::new_before(ops, k + 1),
        pair.base1(diff::new_before(ops, k)) <= pair.base1(j),
        0 <= pair.dur1[j],
        pair.base1(j) + pair.dur1[j] <= i64::MAX,
        pair.run_end(diff::new_before(ops, k), ops[k].new_count() as nat) - pair.base1(
            diff::new_before(ops, k),
        ) <= i64::MAX,
        pair.base0(diff::old_before(ops, k + 1)) + pair.shift_before(ops, k + 1) <= i64::MAX,
        pair.shift_before(ops, k + 1) < i64::MAX,
    ensures
        ({
            let at = diff::old_before(ops, k + 1);
            let n = ops.len() as int;
            let start = pair.starts1(ops, n)[j];
            &&& pair.base0(at) + pair.shift_before(ops, k) <= start
            &&& start + pair.dur1[j] <= pair.starts0(ops, n)[at]
        }),
{
    let from = diff::new_before(ops, k);
    let at = diff::old_before(ops, k + 1);
    let n = ops.len() as int;
    let len = ops[k].new_count() as nat;
    diff::steps_go_forward(ops, 0, k);
    diff::steps_go_forward(ops, 0, k + 1);
    assert(ops[k].stands_at(diff::old_before(ops, k), from));
    every_kernel_is_placed(pair, ops, k);
    let l = lemma_covering(ops, at, n);
    if l <= k {
        diff::steps_go_forward(ops, l + 1, k + 1);
    }
    every_kernel_is_placed(pair, ops, l);
    gaps_only_push_right(pair, ops, k, k + 1);
    gaps_only_push_right(pair, ops, k + 1, l);
    lemma_run_end(pair, from, len, j - from);
    lemma_shift_adds_widths(pair, ops, k, k + 1);
    assert(widths_between(pair, ops, k, k) == 0);
    let gap = pair.gap_start(at, pair.shift_before(ops, k));
    assert(pair.starts1(ops, n)[j] == pair.inserted_run(from, len, gap)[j - from]);
}

/// Counted in ticks, kernels of the second trace that stand behind all anchor
/// kernels start no earlier than the last of those ends.
pub proof fn a_tail_starts_behind_the_last_anchor_kernel(
    pair: StreamPair<i64>,
    ops: Seq<EditOp>,
    k: int,
    j: int,
)
    requires
        diff::leads(ops, pair.raw0.len() as int, pair.raw1.len() as int),
        0 < pair.raw0.len(),
        0 <= k < ops.len(),
        opens_gap(ops[k]),
        diff::old_before(ops, k + 1) == pair.raw0.len(),
        diff::new_before(ops, k) <= j < diff::new_before(ops, k + 1),
        pair.base1(diff::new_before(ops, k)) <= pair.base1(j),
    ensures
        ({
            let n = ops.len() as int;
            let last = pair.raw0.len() - 1;
            pair.starts0(ops, n)[last].plus_spec(pair.dur0[last]) <= pair.starts1(ops, n)[j]
        }),
{
    let from = diff::new_before(ops, k);
    let n = ops.len() as int;
    let last = pair.raw0.len() - 1;
    let len = ops[k].new_count() as nat;
    diff::steps_go_forward(ops, 0, k);
    assert(ops[k].stands_at(diff::old_before(ops, k), from));
    every_kernel_is_placed(pair, ops, k);
    let l = lemma_covering(ops, last, n);
    if k < l {
        diff::steps_go_forward(ops, k + 1, l);
    }
    every_kernel_is_placed(pair, ops, l);
    gaps_only_push_right(pair, ops, l, k);
    let gap = pair.gap_start(pair.raw0.len() as int, pair.shift_before(ops, k));
    assert(pair.starts1(ops, n)[j] == pair.inserted_run(from, len, gap)[j - from]);
}

/// For numbers that count like reals, gaps only push the anchor to the right: the push
/// grows from step to step.
pub proof fn pushes_never_shrink<T: Scalar>(
    pair: StreamPair<T>,
    ops: Seq<EditOp>,
    k: int,
    l: int,
)
    requires
        scalar::counts_like_reals::<T>(),
        0 <= k <= l <= ops.len(),
    ensures
        T::whole_spec(0).at_most_spec(pair.shift_before(ops, k)),
        pair.shift_before(ops, k).at_most_spec(pair.shift_before(ops, l)),
    decreases l,
{
    let zero = T::whole_spec(0);
    assert(zero.at_most_spec(zero));
    if k < l {
        pushes_never_shrink(pair, ops, k, l - 1);
        lemma_push(pair, ops, l - 1);
    } else if k > 0 {
        pushes_never_shrink(pair, ops, k - 1, k - 1);
        lemma_push(pair, ops, k - 1);
    }
}

/// What a step pushes the anchor by.
pub open spec fn step_push<T: Scalar>(pair: StreamPair<T>, op: EditOp) -> T {
    match op {
        EditOp::Insert { new_index, new_len, .. } if new_len > 0 => pair.run_width(
            new_index as int,
            new_len as nat,
        ),
        EditOp::Replace { new_index, new_len, .. } if new_len > 0 => pair.run_width(
            new_index as int,
            new_len as nat,
        ),
        _ => T::whole_spec(0),
    }
}

proof fn lemma_push<T: Scalar>(pair: StreamPair<T>, ops: Seq<EditOp>, k: int)
    requires
        scalar::counts_like_reals::<T>(),
        0 <= k < ops.len(),
    ensures
        pair.shift_before(ops, k + 1) == pair.shift_before(ops, k).plus_spec(
            step_push(pair, ops[k]),
        ),
        T::whole_spec(0).at_most_spec(step_push(pair, ops[k])),
        pair.shift_before(ops, k).at_most_spec(pair.shift_before(ops, k + 1)),
{
    let zero = T::whole_spec(0);
    let shift = pair.shift_before(ops, k);
    let push = step_push(pair, ops[k]);
    assert(zero.at_most_spec(zero));
    assert(shift.plus_spec(zero) == shift);
    match ops[k] {
        EditOp::Insert { new_index, new_len, .. } if new_len > 0 => {
            let end = pair.run_end(new_index as int, new_len as nat);
            let span = end.minus_spec(pair.base1(new_index as int));
            assert(push == span.larger_spec(zero));
            assert(span.at_most_spec(zero) || zero.at_most_spec(span));
        },
        EditOp::Replace { new_index, new_len, .. } if new_len > 0 => {
            let end = pair.run_end(new_index as int, new_len as nat);
            let span = end.minus_spec(pair.base1(new_index as int));
            assert(push == span.larger_spec(zero));
            assert(span.at_most_spec(zero) || zero.at_most_spec(span));
        },
        _ => {},
    }
    assert(shift.plus_spec(zero).at_most_spec(shift.plus_spec(push)));
}

/// For numbers that count like reals, anchor kernels stay in their order.
pub proof fn anchor_kernels_stay_in_order<T: Scalar>(
    pair: StreamPair<T>,
    ops: Seq<EditOp>,
    i: int,
    j: int,
)
    requires
        scalar::counts_like_reals::<T>(),
        diff::leads(ops, pair.raw0.len() as int, pair.raw1.len() as int),
        0 <= i <= j < pair.raw0.len(),
        pair.base0(i).at_most_spec(pair.base0(j)),
    ensures
        pair.starts0(ops, ops.len() as int)[i].at_most_spec(
            pair.starts0(ops, ops.len() as int)[j],
        ),
{
    let k = lemma_covering(ops, i, ops.len() as int);
    let l = lemma_covering(ops, j, ops.len() as int);
    every_kernel_is_placed(pair, ops, k);
    every_kernel_is_placed(pair, ops, l);
    lemma_covering_steps_in_order(ops, i, j, k, l);
    pushes_never_shrink(pair, ops, k, l);
    let a = pair.base0(i);
    let b = pair.base0(j);
    let s = pair.shift_before(ops, k);
    let t = pair.shift_before(ops, l);
    assert(a.plus_spec(s).at_most_spec(b.plus_spec(s)));
    assert(b.plus_spec(s).at_most_spec(b.plus_spec(t)));
}

/// What the steps `k..l` push the anchor by, taken together.
pub open spec fn pushes_between<T: Scalar>(
    pair: StreamPair<T>,
    ops: Seq<EditOp>,
    k: int,
    l: int,
) -> T
    decreases l - k,
{
    if l <= k {
        T::whole_spec(0)
    } else {
        pushes_between(pair, ops, k, l - 1).plus_spec(step_push(pair, ops[l - 1]))
    }
}

proof fn lemma_pushes_add_up<T: Scalar>(pair: StreamPair<T>, ops: Seq<EditOp>, k: int, l: int)
    requires
        scalar::counts_like_reals::<T>(),
        0 <= k <= l <= ops.len(),
    ensures
        pair.shift_before(ops, l) == pair.shift_before(ops, k).plus_spec(
            pushes_between(pair, ops, k, l),
        ),
    decreases l,
{
    let shift = pair.shift_before(ops, k);
    assert(shift.plus_spec(T::whole_spec(0)) == shift);
    if k < l {
        lemma_pushes_add_up(pair, ops, k, l - 1);
        lemma_push(pair, ops, l - 1);
        scalar::sums_group_freely(
            shift,
            pushes_between(pair, ops, k, l - 1),
            step_push(pair, ops[l - 1]),
        );
    }
}

/// For numbers that count like reals, the distance of two anchor kernels grows by
/// exactly the width of what is inserted between them; where nothing is, the idle gaps
/// between them stay as they are.
pub proof fn distances_grow_by_the_gaps_between<T: Scalar>(
    pair: StreamPair<T>,
    ops: Seq<EditOp>,
    i: int,
    j: int,
    k: int,
    l: int,
)
    requires
        scalar::counts_like_reals::<T>(),
        diff::leads(ops, pair.raw0.len() as int, pair.raw1.len() as int),
        0 <= i <= j < pair.raw0.len(),
        covering_step(ops, i, k),
        covering_step(ops, j, l),
    ensures
        ({
            let starts = pair.starts0(ops, ops.len() as int);
            starts[j].minus_spec(starts[i]) == pair.base0(j).minus_spec(pair.base0(i)).plus_spec(
                pushes_between(pair, ops, k, l),
            )
        }),
{
    lemma_covering_steps_in_order(ops, i, j, k, l);
    every_kernel_is_placed(pair, ops, k);
    every_kernel_is_placed(pair, ops, l);
    lemma_pushes_add_up(pair, ops, k, l);
    let a = pair.base0(i);
    let e = pair.base0(j).minus_spec(a);
    let s = pair.shift_before(ops, k);
    let w = pushes_between(pair, ops, k, l);
    assert(a.plus_spec(e) == pair.base0(j));
    scalar::inner_summands_swap(a, e, s, w);
    assert(a.plus_spec(s).plus_spec(e.plus_spec(w)).minus_spec(a.plus_spec(s)) == e.plus_spec(w));
}

proof fn lemma_run_ends_behind<T: Scalar>(pair: StreamPair<T>, from: int, len: nat, d: int)
    requires
        scalar::counts_like_reals::<T>(),
        0 <= d < len,
    ensures
        pair.base1(from + d).plus_spec(pair.dur1[from + d]).at_most_spec(pair.run_end(from, len)),
    decreases len,
{
    let before = pair.run_end(from, (len - 1) as nat);
    let last = pair.base1(from + len - 1).plus_spec(pair.dur1[from + len - 1]);
    let end = before.larger_spec(last);
    assert(before.at_most_spec(last) || last.at_most_spec(before));
    assert(last.at_most_spec(last) && before.at_most_spec(before));
    assert(before.at_most_spec(end) && last.at_most_spec(end));
    if d < len - 1 {
        lemma_run_ends_behind(pair, from, (len - 1) as nat, d);
    }
}

/// Where an inserted run is laid, at or behind the start of its gap.
proof fn lemma_laid_behind<T: Scalar>(gap: T, base: T, from: T)
    requires
        scalar::counts_like_reals::<T>(),
        from.at_most_spec(base),
    ensures
        gap.at_most_spec(gap.plus_spec(base.minus_spec(from))),
{
    let zero = T::whole_spec(0);
    let d = base.minus_spec(from);
    assert(from.minus_spec(from) == zero);
    assert(zero.at_most_spec(d));
    assert(gap.plus_spec(zero) == gap);
    assert(gap.plus_spec(zero).at_most_spec(gap.plus_spec(d)));
}

/// For numbers that count like reals, the kernels that stand in the second trace only
/// fill the gap that opens before the next anchor kernel: they start no earlier than
/// where that kernel would have stood, and end before it starts.
pub proof fn second_only_kernels_stand_in_the_gap<T: Scalar>(
    pair: StreamPair<T>,
    ops: Seq<EditOp>,
    k: int,
    j: int,
)
    requires
        scalar::counts_like_reals::<T>(),
        diff::leads(ops, pair.raw0.len() as int, pair.raw1.len() as int),
        0 <= k < ops.len(),
        opens_gap(ops[k]),
        diff::old_before(ops, k + 1) < pair.raw0.len(),
        diff::new_before(ops, k) <= j < diff::new_before(ops, k + 1),
        pair.base1(diff::new_before(ops, k)).at_most_spec(pair.base1(j)),
    ensures
        ({
            let at = diff::old_before(ops, k + 1);
            let n = ops.len() as int;
            let start = pair.starts1(ops, n)[j];
            &&& pair.base0(at).plus_spec(pair.shift_before(ops, k)).at_most_spec(start)
            &&& start.plus_spec(pair.dur1[j]).at_most_spec(pair.starts0(ops, n)[at])
        }),
{
    let from = diff::new_before(ops, k);
    let at = diff::old_before(ops, k + 1);
    let n = ops.len() as int;
    let len = ops[k].new_count() as nat;
    diff::steps_go_forward(ops, 0, k);
    diff::steps_go_forward(ops, 0, k + 1);
    assert(ops[k].stands_at(diff::old_before(ops, k), from));
    every_kernel_is_placed(pair, ops, k);
    let l = lemma_covering(ops, at, n);
    if l <= k {
        diff::steps_go_forward(ops, l + 1, k + 1);
    }
    every_kernel_is_placed(pair, ops, l);
    pushes_never_shrink(pair, ops, k + 1, l);
    lemma_push(pair, ops, k);
    lemma_run_ends_behind(pair, from, len, j - from);
    let base = pair.base0(at);
    let shift = pair.shift_before(ops, k);
    let gap = pair.gap_start(at, shift);
    assert(gap == base.plus_spec(shift));
    assert(pair.starts1(ops, n)[j] == pair.inserted_run(from, len, gap)[j - from]);
    let b = pair.base1(j);
    let f = pair.base1(from);
    let d = b.minus_spec(f);
    let dur = pair.dur1[j];
    assert(pair.starts1(ops, n)[j] == gap.plus_spec(d));
    lemma_laid_behind(gap, b, f);
    let end = pair.run_end(from, len);
    let span = end.minus_spec(f);
    let width = pair.run_width(from, len);
    assert(width == step_push(pair, ops[k]));
    scalar::distances_take_summands(b, dur, f);
    assert(b.plus_spec(dur).minus_spec(f).at_most_spec(span));
    assert(width == span.larger_spec(T::whole_spec(0)));
    assert(span.at_most_spec(span));
    assert(span.at_most_spec(width));
    assert(d.plus_spec(dur).at_most_spec(width));
    scalar::sums_group_freely(gap, d, dur);
    assert(gap.plus_spec(d.plus_spec(dur)).at_most_spec(gap.plus_spec(width)));
    scalar::sums_group_freely(base, shift, width);
    assert(base.plus_spec(pair.shift_before(ops, k + 1)).at_most_spec(
        base.plus_spec(pair.shift_before(ops, l)),
    ));
}

/// For numbers that count like reals, kernels of the second trace that stand behind all
/// anchor kernels start no earlier than the last of those ends.
pub proof fn a_tail_stands_behind_the_anchor<T: Scalar>(
    pair: StreamPair<T>,
    ops: Seq<EditOp>,
    k: int,
    j: int,
)
    requires
        scalar::counts_like_reals::<T>(),
        diff::leads(ops, pair.raw0.len() as int, pair.raw1.len() as int),
        0 < pair.raw0.len(),
        0 <= k < ops.len(),
        opens_gap(ops[k]),
        diff::old_before(ops, k + 1) == pair.raw0.len(),
        diff::new_before(ops, k) <= j < diff::new_before(ops, k + 1),
        pair.base1(diff::new_before(ops, k)).at_most_spec(pair.base1(j)),
    ensures
        ({
            let n = ops.len() as int;
            let last = pair.raw0.len() - 1;
            pair.starts0(ops, n)[last].plus_spec(pair.dur0[last]).at_most_spec(
                pair.starts1(ops, n)[j],
            )
        }),
{
    let from = diff::new_before(ops, k);
    let n = ops.len() as int;
    let last = pair.raw0.len() - 1;
    let len = ops[k].new_count() as nat;
    diff::steps_go_forward(ops, 0, k);
    assert(ops[k].stands_at(diff::old_before(ops, k), from));
    every_kernel_is_placed(pair, ops, k);
    let l = lemma_covering(ops, last, n);
    if k < l {
        diff::steps_go_forward(ops, k + 1, l);
    }
    every_kernel_is_placed(pair, ops, l);
    pushes_never_shrink(pair, ops, l, k);
    let base = pair.base0(last);
    let s = base.plus_spec(pair.shift_before(ops, l));
    let t = base.plus_spec(pair.shift_before(ops, k));
    let gap = pair.gap_start(pair.raw0.len() as int, pair.shift_before(ops, k));
    assert(gap == t.plus_spec(pair.dur0[last]));
    assert(s.plus_spec(pair.dur0[last]).at_most_spec(gap));
    assert(pair.starts1(ops, n)[j] == pair.inserted_run(from, len, gap)[j - from]);
    lemma_laid_behind(gap, pair.base1(j), pair.base1(from));
}

} // verus!
