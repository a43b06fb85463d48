//! Stable sorting by key, and the ascending list of distinct numbers.
use vstd::prelude::*;
use crate::scalar::Scalar;

verus! {

/// A key that says which of two comes first.
pub trait SortKey: Sized {
    spec fn before_spec(&self, other: &Self) -> bool;

    /// Whether this key comes strictly before `other`.
    fn before(&self, other: &Self) -> (r: bool)
        ensures
            r == self.before_spec(other),
    ;
}

/// Sorts smaller numbers first; numbers that cannot be compared count as equal.
pub struct Rising<T>(pub T);

/// Sorts larger numbers first; numbers that cannot be compared count as equal.
pub struct Falling<T>(pub T);

/// Sorts by the total order of all numbers.
pub struct Totally<T>(pub T);

impl<T: Scalar> SortKey for Rising<T> {
    open spec fn before_spec(&self, other: &Self) -> bool {
        self.0.less_spec(other.0)
    }

    fn before(&self, other: &Self) -> (r: bool) {
        self.0.less(other.0)
    }
}

impl<T: Scalar> SortKey for Falling<T> {
    open spec fn before_spec(&self, other: &Self) -> bool {
        other.0.less_spec(self.0)
    }

    fn before(&self, other: &Self) -> (r: bool) {
        other.0.less(self.0)
    }
}

impl<T: Scalar> SortKey for Totally<T> {
    open spec fn before_spec(&self, other: &Self) -> bool {
        self.0.total_less_spec(other.0)
    }

    fn before(&self, other: &Self) -> (r: bool) {
        self.0.total_less(other.0)
    }
}

impl SortKey for u64 {
    open spec fn before_spec(&self, other: &Self) -> bool {
        *self < *other
    }

    fn before(&self, other: &Self) -> (r: bool) {
        *self < *other
    }
}

impl SortKey for usize {
    open spec fn before_spec(&self, other: &Self) -> bool {
        *self < *other
    }

    fn before(&self, other: &Self) -> (r: bool) {
        *self < *other
    }
}

/// Merges two lists of positions; of two equal keys the one of `a` comes first.
pub open spec fn merged<K: SortKey>(keys: Seq<K>, a: Seq<usize>, b: Seq<usize>) -> Seq<usize>
    decreases a.len() + b.len(),
{
    if a.len() == 0 {
        b
    } else if b.len() == 0 {
        a
    } else if keys[b[0] as int].before_spec(&keys[a[0] as int]) {
        seq![b[0]] + merged(keys, a, b.skip(1))
    } else {
        seq![a[0]] + merged(keys, a.skip(1), b)
    }
}

/// The positions `lo..hi` in the order of their keys.
pub open spec fn sorted_range<K: SortKey>(keys: Seq<K>, lo: int, hi: int) -> Seq<usize>
    decreases hi - lo,
{
    if hi <= lo {
        Seq::empty()
    } else if hi == lo + 1 {
        seq![lo as usize]
    } else {
        let mid = lo + (hi - lo) / 2;
        merged(keys, sorted_range(keys, lo, mid), sorted_range(keys, mid, hi))
    }
}

/// All positions of `keys` in the order of their keys, equal keys in the order
/// of their positions.
pub open spec fn sorted_order<K: SortKey>(keys: Seq<K>) -> Seq<usize> {
    sorted_range(keys, 0, keys.len() as int)
}

/// Whether `before` orders these keys: keys of which neither comes first count
/// as equal, and that is transitive.
pub open spec fn orderly<K: SortKey>(keys: Seq<K>) -> bool {
    &&& forall|i: int, j: int|
        0 <= i < keys.len() && 0 <= j < keys.len() && #[trigger] keys[i].before_spec(&keys[j])
            ==> !keys[j].before_spec(&keys[i])
    &&& forall|i: int, j: int, k: int|
        #![trigger keys[j].before_spec(&keys[i]), keys[k].before_spec(&keys[j])]
        0 <= i < keys.len() && 0 <= j < keys.len() && 0 <= k < keys.len()
            && !keys[j].before_spec(&keys[i]) && !keys[k].before_spec(&keys[j])
            ==> !keys[k].before_spec(&keys[i])
}

/// Whether the positions `s` are exactly `lo..hi`, each once.
pub open spec fn arranges(s: Seq<usize>, lo: int, hi: int) -> bool {
    &&& s.len() == if lo < hi {
        hi - lo
    } else {
        0
    }
    &&& forall|i: int| 0 <= i < s.len() ==> lo <= #[trigger] s[i] < hi
    &&& forall|i: int, j: int| 0 <= i < j < s.len() ==> s[i] != s[j]
    &&& forall|v: usize| lo <= v < hi ==> #[trigger] s.contains(v)
}

/// Whether position `p` precedes position `q` in a stable sort.
pub open spec fn precedes<K: SortKey>(keys: Seq<K>, p: usize, q: usize) -> bool {
    ||| keys[p as int].before_spec(&keys[q as int])
    ||| !keys[q as int].before_spec(&keys[p as int]) && p < q
}

/// Whether the positions `s` stand in the order of their keys, equal keys in
/// the order of their positions.
pub open spec fn in_order<K: SortKey>(keys: Seq<K>, s: Seq<usize>) -> bool {
    forall|i: int, j: int| 0 <= i < j < s.len() ==> #[trigger] precedes(keys, s[i], s[j])
}

proof fn lemma_merged_members<K: SortKey>(keys: Seq<K>, a: Seq<usize>, b: Seq<usize>)
    ensures
        merged(keys, a, b).len() == a.len() + b.len(),
        forall|i: int|
            0 <= i < merged(keys, a, b).len() ==> a.contains(#[trigger] merged(keys, a, b)[i])
                || b.contains(merged(keys, a, b)[i]),
        forall|v: usize| #[trigger]
            merged(keys, a, b).contains(v) <==> a.contains(v) || b.contains(v),
    decreases a.len() + b.len(),
{
    let m = merged(keys, a, b);
    if a.len() == 0 || b.len() == 0 {
    } else if keys[b[0] as int].before_spec(&keys[a[0] as int]) {
        let t = merged(keys, a, b.skip(1));
        lemma_merged_members(keys, a, b.skip(1));
        assert forall|v: usize| #[trigger] m.contains(v) <==> a.contains(v) || b.contains(v) by {
            assert(b.contains(v) <==> b[0] == v || b.skip(1).contains(v)) by {
                lemma_contains_head(b, v);
            }
            lemma_contains_head(m, v);
            assert(m.skip(1) == t);
        }
    } else {
        let t = merged(keys, a.skip(1), b);
        lemma_merged_members(keys, a.skip(1), b);
        assert forall|v: usize| #[trigger] m.contains(v) <==> a.contains(v) || b.contains(v) by {
            lemma_contains_head(a, v);
            lemma_contains_head(m, v);
            assert(m.skip(1) == t);
        }
    }
    assert forall|i: int| 0 <= i < m.len() implies a.contains(#[trigger] m[i]) || b.contains(
        m[i],
    ) by {
        assert(m.contains(m[i]));
    }
}

proof fn lemma_contains_head(s: Seq<usize>, v: usize)
    requires
        s.len() > 0,
    ensures
        s.contains(v) <==> s[0] == v || s.skip(1).contains(v),
{
    if s.contains(v) && s[0] != v {
        let i = choose|i: int| 0 <= i < s.len() && s[i] == v;
        assert(s.skip(1)[i - 1] == v);
    }
    if s.skip(1).contains(v) {
        let i = choose|i: int| 0 <= i < s.skip(1).len() && s.skip(1)[i] == v;
        assert(s[i + 1] == v);
    }
}

proof fn lemma_merged_distinct<K: SortKey>(keys: Seq<K>, a: Seq<usize>, b: Seq<usize>)
    requires
        forall|i: int, j: int| 0 <= i < j < a.len() ==> a[i] != a[j],
        forall|i: int, j: int| 0 <= i < j < b.len() ==> b[i] != b[j],
        forall|i: int, j: int| 0 <= i < a.len() && 0 <= j < b.len() ==> a[i] != b[j],
    ensures
        forall|i: int, j: int|
            0 <= i < j < merged(keys, a, b).len() ==> merged(keys, a, b)[i] != merged(
                keys,
                a,
                b,
            )[j],
    decreases a.len() + b.len(),
{
    let m = merged(keys, a, b);
    if a.len() == 0 || b.len() == 0 {
    } else if keys[b[0] as int].before_spec(&keys[a[0] as int]) {
        let t = merged(keys, a, b.skip(1));
        lemma_merged_distinct(keys, a, b.skip(1));
        lemma_merged_members(keys, a, b.skip(1));
        assert forall|i: int, j: int| 0 <= i < j < m.len() implies m[i] != m[j] by {
            assert(m[j] == t[j - 1]);
            if i > 0 {
                assert(m[i] == t[i - 1]);
            }
        }
    } else {
        let t = merged(keys, a.skip(1), b);
        lemma_merged_distinct(keys, a.skip(1), b);
        lemma_merged_members(keys, a.skip(1), b);
        assert forall|i: int, j: int| 0 <= i < j < m.len() implies m[i] != m[j] by {
            assert(m[j] == t[j - 1]);
            if i > 0 {
                assert(m[i] == t[i - 1]);
            }
        }
    }
}

proof fn lemma_sorted_range_arranges<K: SortKey>(keys: Seq<K>, lo: int, hi: int)
    requires
        0 <= lo,
        hi <= usize::MAX,
    ensures
        arranges(sorted_range(keys, lo, hi), lo, hi),
    decreases hi - lo,
{
    let s = sorted_range(keys, lo, hi);
    if hi <= lo {
    } else if hi == lo + 1 {
        assert(s[0] == lo);
        assert forall|v: usize| lo <= v < hi implies #[trigger] s.contains(v) by {
            assert(s[0] == v);
        }
    } else {
        let mid = lo + (hi - lo) / 2;
        let a = sorted_range(keys, lo, mid);
        let b = sorted_range(keys, mid, hi);
        lemma_sorted_range_arranges(keys, lo, mid);
        lemma_sorted_range_arranges(keys, mid, hi);
        lemma_merged_members(keys, a, b);
        lemma_merged_distinct(keys, a, b);
        assert forall|v: usize| lo <= v < hi implies #[trigger] s.contains(v) by {
            assert(a.contains(v) || b.contains(v));
        }
    }
}

proof fn lemma_merged_in_order<K: SortKey>(keys: Seq<K>, a: Seq<usize>, b: Seq<usize>)
    requires
        orderly(keys),
        in_order(keys, a),
        in_order(keys, b),
        forall|i: int| 0 <= i < a.len() ==> #[trigger] a[i] < keys.len(),
        forall|i: int| 0 <= i < b.len() ==> #[trigger] b[i] < keys.len(),
        forall|i: int, j: int|
            0 <= i < a.len() && 0 <= j < b.len() ==> #[trigger] a[i] < #[trigger] b[j],
    ensures
        in_order(keys, merged(keys, a, b)),
    decreases a.len() + b.len(),
{
    let m = merged(keys, a, b);
    if a.len() == 0 || b.len() == 0 {
    } else if keys[b[0] as int].before_spec(&keys[a[0] as int]) {
        let rest = b.skip(1);
        let t = merged(keys, a, rest);
        assert forall|i: int, j: int| 0 <= i < j < rest.len() implies #[trigger] precedes(
            keys,
            rest[i],
            rest[j],
        ) by {
            assert(precedes(keys, b[i + 1], b[j + 1]));
        }
        lemma_merged_in_order(keys, a, rest);
        lemma_merged_members(keys, a, rest);
        assert forall|i: int, j: int| 0 <= i < j < m.len() implies #[trigger] precedes(
            keys,
            m[i],
            m[j],
        ) by {
            assert(m[j] == t[j - 1]);
            if i > 0 {
                assert(m[i] == t[i - 1]);
            } else if a.contains(t[j - 1]) {
                let p = choose|p: int| 0 <= p < a.len() && a[p] == t[j - 1];
                if p > 0 {
                    assert(precedes(keys, a[0], a[p]));
                    assert(!keys[a[p] as int].before_spec(&keys[a[0] as int]));
                }
            } else {
                let p = choose|p: int| 0 <= p < rest.len() && rest[p] == t[j - 1];
                assert(precedes(keys, b[0], b[p + 1]));
            }
        }
    } else {
        let rest = a.skip(1);
        let t = merged(keys, rest, b);
        assert forall|i: int, j: int| 0 <= i < j < rest.len() implies #[trigger] precedes(
            keys,
            rest[i],
            rest[j],
        ) by {
            assert(precedes(keys, a[i + 1], a[j + 1]));
        }
        lemma_merged_in_order(keys, rest, b);
        lemma_merged_members(keys, rest, b);
        assert forall|i: int, j: int| 0 <= i < j < m.len() implies #[trigger] precedes(
            keys,
            m[i],
            m[j],
        ) by {
            assert(m[j] == t[j - 1]);
            if i > 0 {
                assert(m[i] == t[i - 1]);
            } else if b.contains(t[j - 1]) {
                let p = choose|p: int| 0 <= p < b.len() && b[p] == t[j - 1];
                if p > 0 {
                    assert(precedes(keys, b[0], b[p]));
                    assert(!keys[b[p] as int].before_spec(&keys[b[0] as int]));
                }
                assert(a[0] < b[p]);
            } else {
                let p = choose|p: int| 0 <= p < rest.len() && rest[p] == t[j - 1];
                assert(precedes(keys, a[0], a[p + 1]));
            }
        }
    }
}

proof fn lemma_sorted_range_in_order<K: SortKey>(keys: Seq<K>, lo: int, hi: int)
    requires
        orderly(keys),
        0 <= lo,
        hi <= keys.len() <= usize::MAX,
    ensures
        in_order(keys, sorted_range(keys, lo, hi)),
    decreases hi - lo,
{
    if hi <= lo || hi == lo + 1 {
    } else {
        let mid = lo + (hi - lo) / 2;
        lemma_sorted_range_in_order(keys, lo, mid);
        lemma_sorted_range_in_order(keys, mid, hi);
        lemma_sorted_range_arranges(keys, lo, mid);
        lemma_sorted_range_arranges(keys, mid, hi);
        lemma_merged_in_order(
            keys,
            sorted_range(keys, lo, mid),
            sorted_range(keys, mid, hi),
        );
    }
}

/// Sorting keeps every position exactly once, whatever the keys are.
pub proof fn sorting_rearranges<K: SortKey>(keys: Seq<K>)
    requires
        keys.len() <= usize::MAX,
    ensures
        arranges(sorted_order(keys), 0, keys.len() as int),
{
    lemma_sorted_range_arranges(keys, 0, keys.len() as int);
}

/// Sorting puts keys that can be ordered in order, and leaves equal keys in the
/// order in which they came.
pub proof fn sorting_is_stable<K: SortKey>(keys: Seq<K>)
    requires
        keys.len() <= usize::MAX,
        orderly(keys),
    ensures
        in_order(keys, sorted_order(keys)),
{
    lemma_sorted_range_in_order(keys, 0, keys.len() as int);
}

/// Only one arrangement of orderly keys is in order.
pub proof fn only_one_order<K: SortKey>(keys: Seq<K>, s: Seq<usize>)
    requires
        keys.len() <= usize::MAX,
        orderly(keys),
        arranges(s, 0, keys.len() as int),
        in_order(keys, s),
    ensures
        s == sorted_order(keys),
{
    let t = sorted_order(keys);
    sorting_rearranges(keys);
    sorting_is_stable(keys);
    assert forall|i: int| 0 <= i < s.len() implies s[i] == t[i] by {
        lemma_same_at(keys, s, t, i);
    }
}

proof fn lemma_same_at<K: SortKey>(keys: Seq<K>, s: Seq<usize>, t: Seq<usize>, i: int)
    requires
        orderly(keys),
        arranges(s, 0, keys.len() as int),
        arranges(t, 0, keys.len() as int),
        in_order(keys, s),
        in_order(keys, t),
        0 <= i < s.len(),
    ensures
        s[i] == t[i],
    decreases i,
{
    assert forall|j: int| 0 <= j < i implies s[j] == t[j] by {
        lemma_same_at(keys, s, t, j);
    }
    if s[i] != t[i] {
        assert(t.contains(s[i]));
        assert(s.contains(t[i]));
        let p = choose|p: int| 0 <= p < t.len() && t[p] == s[i];
        let q = choose|q: int| 0 <= q < s.len() && s[q] == t[i];
        assert(p > i) by {
            if p < i {
                assert(s[p] == t[p]);
            }
        }
        assert(q > i) by {
            if q < i {
                assert(s[q] == t[q]);
            }
        }
        assert(precedes(keys, t[i], t[p]));
        assert(precedes(keys, s[i], s[q]));
        let x = s[i] as int;
        let y = t[i] as int;
        assert(keys[x].before_spec(&keys[y]) ==> !keys[y].before_spec(&keys[x]));
        assert(keys[y].before_spec(&keys[x]) ==> !keys[x].before_spec(&keys[y]));
    }
}

/// Merges two lists of positions.
fn merge<K: SortKey>(keys: &Vec<K>, a: &Vec<usize>, b: &Vec<usize>) -> (r: Vec<usize>)
    requires
        forall|i: int| 0 <= i < a@.len() ==> #[trigger] a@[i] < keys@.len(),
        forall|i: int| 0 <= i < b@.len() ==> #[trigger] b@[i] < keys@.len(),
    ensures
        r@ == merged(keys@, a@, b@),
{
    let mut out: Vec<usize> = Vec::new();
    let mut i: usize = 0;
    let mut j: usize = 0;
    assert(a@.skip(0) == a@);
    assert(b@.skip(0) == b@);
    while i < a.len() && j < b.len()
        invariant
            i <= a@.len(),
            j <= b@.len(),
            forall|i: int| 0 <= i < a@.len() ==> #[trigger] a@[i] < keys@.len(),
            forall|i: int| 0 <= i < b@.len() ==> #[trigger] b@[i] < keys@.len(),
            out@ + merged(keys@, a@.skip(i as int), b@.skip(j as int)) == merged(keys@, a@, b@),
        decreases a@.len() - i + b@.len() - j,
    {
        let ghost sa = a@.skip(i as int);
        let ghost sb = b@.skip(j as int);
        let x: usize = a[i];
        let y: usize = b[j];
        assert(sa[0] == x && sb[0] == y);
        assert(sa.skip(1) == a@.skip(i + 1));
        assert(sb.skip(1) == b@.skip(j + 1));
        if keys[y].before(&keys[x]) {
            out.push(y);
            j += 1;
        } else {
            out.push(x);
            i += 1;
        }
        assert(out@ + merged(keys@, a@.skip(i as int), b@.skip(j as int)) == merged(
            keys@,
            a@,
            b@,
        ));
    }
    while i < a.len()
        invariant
            i <= a@.len(),
            i < a@.len() ==> j == b@.len(),
            j <= b@.len(),
            out@ + merged(keys@, a@.skip(i as int), b@.skip(j as int)) == merged(keys@, a@, b@),
        decreases a@.len() - i,
    {
        assert(a@.skip(i as int).skip(1) == a@.skip(i + 1));
        assert(b@.skip(j as int).len() == 0);
        assert(a@.skip(i as int)[0] == a@[i as int]);
        out.push(a[i]);
        i += 1;
        assert(a@.skip(i - 1) == seq![a@[i - 1]] + a@.skip(i as int));
        assert(out@ + merged(keys@, a@.skip(i as int), b@.skip(j as int)) == merged(
            keys@,
            a@,
            b@,
        ));
    }
    while j < b.len()
        invariant
            i == a@.len(),
            j <= b@.len(),
            out@ + merged(keys@, a@.skip(i as int), b@.skip(j as int)) == merged(keys@, a@, b@),
        decreases b@.len() - j,
    {
        assert(a@.skip(i as int).len() == 0);
        out.push(b[j]);
        j += 1;
        assert(b@.skip(j - 1) == seq![b@[j - 1]] + b@.skip(j as int));
        assert(out@ + merged(keys@, a@.skip(i as int), b@.skip(j as int)) == merged(
            keys@,
            a@,
            b@,
        ));
    }
    assert(merged(keys@, a@.skip(i as int), b@.skip(j as int)) == Seq::<usize>::empty());
    assert(out@ == merged(keys@, a@, b@));
    out
}

/// Sorts the positions `lo..hi`.
fn sort_range<K: SortKey>(keys: &Vec<K>, lo: usize, hi: usize) -> (r: Vec<usize>)
    requires
        lo <= hi <= keys@.len(),
    ensures
        r@ == sorted_range(keys@, lo as int, hi as int),
    decreases hi - lo,
{
    let mut out: Vec<usize> = Vec::new();
    if lo == hi {
        out
    } else if hi - lo == 1 {
        out.push(lo);
        assert(out@ == seq![lo]);
        out
    } else {
        let mid: usize = lo + (hi - lo) / 2;
        let a = sort_range(keys, lo, mid);
        let b = sort_range(keys, mid, hi);
        proof {
            lemma_sorted_range_arranges(keys@, lo as int, mid as int);
            lemma_sorted_range_arranges(keys@, mid as int, hi as int);
        }
        merge(keys, &a, &b)
    }
}

/// All positions of `keys` in the order of their keys, equal keys in the order
/// of their positions.
pub fn sort_order<K: SortKey>(keys: &Vec<K>) -> (r: Vec<usize>)
    ensures
        r@ == sorted_order(keys@),
        arranges(r@, 0, keys@.len() as int),
        orderly(keys@) ==> in_order(keys@, r@),
{
    let r = sort_range(keys, 0, keys.len());
    proof {
        sorting_rearranges(keys@);
        if orderly(keys@) {
            sorting_is_stable(keys@);
        }
    }
    r
}

/// The items at the given positions.
pub open spec fn picked<E>(items: Seq<E>, order: Seq<usize>) -> Seq<E> {
    Seq::new(order.len(), |i: int| items[order[i] as int])
}

/// Picking every position once keeps the items, however often each occurs.
pub proof fn picking_keeps_the_items<E>(items: Seq<E>, order: Seq<usize>)
    requires
        items.len() <= usize::MAX,
        arranges(order, 0, items.len() as int),
    ensures
        picked(items, order).to_multiset() == items.to_multiset(),
    decreases items.len(),
{
    let n = items.len() as int;
    let out = picked(items, order);
    if n == 0 {
        assert(out == items);
    } else {
        let last = (n - 1) as usize;
        assert(order.contains(last));
        let p = choose|p: int| 0 <= p < order.len() && order[p] == last;
        let rest_items = items.drop_last();
        let rest_order = order.remove(p);
        assert forall|i: int| 0 <= i < rest_order.len() implies 0 <= #[trigger] rest_order[i]
            < n - 1 by {
            if i < p {
                assert(rest_order[i] == order[i]);
            } else {
                assert(rest_order[i] == order[i + 1]);
            }
        }
        assert forall|i: int, j: int| 0 <= i < j < rest_order.len() implies rest_order[i]
            != rest_order[j] by {
            let a = if i < p {
                i
            } else {
                i + 1
            };
            let b = if j < p {
                j
            } else {
                j + 1
            };
            assert(order[a] != order[b]);
        }
        assert forall|v: usize| 0 <= v < n - 1 implies #[trigger] rest_order.contains(v) by {
            assert(order.contains(v));
            let q = choose|q: int| 0 <= q < order.len() && order[q] == v;
            assert(q != p);
            if q < p {
                assert(rest_order[q] == v);
            } else {
                assert(rest_order[q - 1] == v);
            }
        }
        picking_keeps_the_items(rest_items, rest_order);
        assert(picked(rest_items, rest_order) == out.remove(p));
        broadcast use vstd::seq_lib::group_to_multiset_ensures;

        assert(out.remove(p).to_multiset() == out.to_multiset().remove(out[p]));
        assert(items == rest_items.push(items.last()));
        assert(out[p] == items.last());
        assert(items.to_multiset() == rest_items.to_multiset().insert(items.last()));
        assert(out.to_multiset().contains(out[p]));
        assert(out.to_multiset() == out.remove(p).to_multiset().insert(out[p]));
    }
}

/// Puts the items in the order of the given positions.
pub fn arrange<E>(items: Vec<E>, order: &Vec<usize>) -> (r: Vec<E>)
    requires
        arranges(order@, 0, items@.len() as int),
    ensures
        r@ == picked(items@, order@),
{
    let ghost all = items@;
    let n: usize = items.len();
    let mut slots: Vec<Option<E>> = Vec::new();
    for item in it: items
        invariant
            it.seq() == all,
            slots@.len() == it.index(),
            forall|j: int| 0 <= j < slots@.len() ==> #[trigger] slots@[j] == Some(all[j]),
    {
        slots.push(Some(item));
    }
    let mut out: Vec<E> = Vec::new();
    let mut k: usize = 0;
    while k < n
        invariant
            k <= n == all.len(),
            slots@.len() == n,
            arranges(order@, 0, n as int),
            out@ == picked(all, order@).take(k as int),
            forall|i: int|
                k <= i < n ==> slots@[#[trigger] order@[i] as int] == Some(
                    all[order@[i] as int],
                ),
        decreases n - k,
    {
        let mut slot: Option<E> = None;
        let at: usize = order[k];
        slots.set_and_swap(at, &mut slot);
        match slot {
            Some(item) => {
                out.push(item);
            },
            None => {},
        }
        k += 1;
        assert(out@ == picked(all, order@).take(k as int));
    }
    assert(picked(all, order@).take(n as int) == picked(all, order@));
    out
}

/// An ascending list with one more number in its place; unchanged where the
/// number is already in it.
pub open spec fn with_number(list: Seq<u64>, x: u64) -> Seq<u64>
    decreases list.len(),
{
    if list.len() == 0 || list.last() < x {
        list.push(x)
    } else if list.last() == x {
        list
    } else {
        with_number(list.drop_last(), x).push(list.last())
    }
}

/// The distinct numbers of `source` in ascending order.
pub open spec fn distinct_sorted(source: Seq<u64>) -> Seq<u64>
    decreases source.len(),
{
    if source.len() == 0 {
        Seq::empty()
    } else {
        with_number(distinct_sorted(source.drop_last()), source.last())
    }
}

/// Whether a list is strictly ascending.
pub open spec fn ascending(list: Seq<u64>) -> bool {
    forall|i: int, j: int| 0 <= i < j < list.len() ==> list[i] < list[j]
}

proof fn lemma_with_number(list: Seq<u64>, x: u64)
    requires
        ascending(list),
    ensures
        ascending(with_number(list, x)),
        forall|v: u64| #[trigger] with_number(list, x).contains(v) <==> v == x || list.contains(v),
    decreases list.len(),
{
    let r = with_number(list, x);
    if list.len() == 0 || list.last() < x {
        assert forall|v: u64| #[trigger] r.contains(v) <==> v == x || list.contains(v) by {
            lemma_contains_last(r, v);
            assert(r.drop_last() == list);
        }
    } else if list.last() == x {
        assert(list[list.len() - 1] == x);
    } else {
        let t = with_number(list.drop_last(), x);
        lemma_with_number(list.drop_last(), x);
        assert forall|v: u64| #[trigger] r.contains(v) <==> v == x || list.contains(v) by {
            lemma_contains_last(r, v);
            lemma_contains_last(list, v);
            assert(r.drop_last() == t);
        }
        assert forall|i: int, j: int| 0 <= i < j < r.len() implies r[i] < r[j] by {
            assert(t.contains(t[i]));
            if list.drop_last().contains(t[i]) {
                let p = choose|p: int|
                    0 <= p < list.drop_last().len() && list.drop_last()[p] == t[i];
                assert(list[p] < list.last());
            }
        }
    }
}

proof fn lemma_contains_last(s: Seq<u64>, v: u64)
    requires
        s.len() > 0,
    ensures
        s.contains(v) <==> s.last() == v || s.drop_last().contains(v),
{
    if s.contains(v) && s.last() != v {
        let i = choose|i: int| 0 <= i < s.len() && s[i] == v;
        assert(s.drop_last()[i] == v);
    }
    if s.drop_last().contains(v) {
        let i = choose|i: int| 0 <= i < s.drop_last().len() && s.drop_last()[i] == v;
        assert(s[i] == v);
    }
    if s.last() == v {
        assert(s[s.len() - 1] == v);
    }
}

/// The list of distinct numbers is strictly ascending and has the same members.
pub proof fn distinct_sorted_is_ascending(source: Seq<u64>)
    ensures
        ascending(distinct_sorted(source)),
        forall|v: u64| #[trigger] distinct_sorted(source).contains(v) <==> source.contains(v),
    decreases source.len(),
{
    if source.len() > 0 {
        distinct_sorted_is_ascending(source.drop_last());
        lemma_with_number(distinct_sorted(source.drop_last()), source.last());
        assert forall|v: u64| #[trigger]
            distinct_sorted(source).contains(v) <==> source.contains(v) by {
            lemma_contains_last(source, v);
        }
    }
}

/// Adds a number to an ascending list unless it is already in it.
pub fn add_number(list: &mut Vec<u64>, x: u64)
    ensures
        final(list)@ == with_number(old(list)@, x),
{
    let ghost start = list@;
    let mut at: usize = list.len();
    assert(start.take(start.len() as int) == start);
    assert(with_number(start, x) == with_number(start, x) + start.skip(start.len() as int));
    while at > 0 && list[at - 1] > x
        invariant
            at <= list@.len(),
            list@ == start,
            with_number(start, x) == with_number(start.take(at as int), x) + start.skip(at as int),
        decreases at,
    {
        proof {
            let p = start.take(at as int);
            assert(p.drop_last() == start.take(at - 1));
            assert(p.last() == start[at - 1]);
            assert(with_number(p, x) == with_number(start.take(at - 1), x).push(start[at - 1]));
            assert(with_number(start.take(at - 1), x) + start.skip(at - 1) == with_number(p, x)
                + start.skip(at as int));
        }
        at -= 1;
    }
    proof {
        if at > 0 {
            assert(start.take(at as int).last() == start[at - 1]);
        }
    }
    if at > 0 && list[at - 1] == x {
        assert(start.take(at as int) + start.skip(at as int) == start);
        return;
    }
    list.insert(at, x);
    assert(list@ == start.take(at as int).push(x) + start.skip(at as int));
}

} // verus!
