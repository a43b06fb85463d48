//! Carrying times along with the kernels of a stream.
use vstd::prelude::*;
use crate::scalar::{self, Scalar};
use crate::sort::{self, arrange, sort_order, Rising, SortKey};

verus! {

/// A piecewise-linear map from raw timestamps to render timestamps, built from
/// `(raw_kernel_start, assigned_render_start)` control points. Used to carry
/// annotations along the same remap their stream's kernels underwent in diff
/// mode. Below the first and above the last control it extrapolates by that
/// control's constant shift.
#[derive(Debug, Clone)]
pub struct TimeMap<T> {
    controls: Vec<(T, T)>,
    normal_off: T,
}

/// The sort keys of control points: their raw times.
pub open spec fn control_keys<T: Scalar>(controls: Seq<(T, T)>) -> Seq<Rising<T>> {
    controls.map_values(|c: (T, T)| Rising(c.0))
}

/// Control points in the order of their raw times.
pub open spec fn controls_by_time<T: Scalar>(controls: Seq<(T, T)>) -> Seq<(T, T)> {
    sort::picked(controls, sort::sorted_order(control_keys(controls)))
}

/// The first pair of neighbouring control points, from the `i`-th on, with `t`
/// between them.
pub open spec fn segment_from<T: Scalar>(controls: Seq<(T, T)>, t: T, i: int) -> Option<int>
    decreases controls.len() - i,
{
    if i < 0 || i + 1 >= controls.len() {
        None
    } else if controls[i].0.at_most_spec(t) && t.at_most_spec(controls[i + 1].0) {
        Some(i)
    } else {
        segment_from(controls, t, i + 1)
    }
}

/// A time moved by the shift of a control point.
pub open spec fn shifted_by<T: Scalar>(t: T, control: (T, T)) -> T {
    t.plus_spec(control.1.minus_spec(control.0))
}

/// A time between two control points, mapped linearly.
pub open spec fn interpolated<T: Scalar>(t: T, a: (T, T), b: (T, T)) -> T {
    if b.0.same_spec(a.0) {
        shifted_by(t, a)
    } else {
        a.1.plus_spec(
            t.minus_spec(a.0).over_spec(b.0.minus_spec(a.0)).times_spec(b.1.minus_spec(a.1)),
        )
    }
}

/// Where the sorted control points take a time; without any, it moves by the
/// normal offset.
pub open spec fn mapped<T: Scalar>(controls: Seq<(T, T)>, normal_off: T, t: T) -> T {
    if controls.len() == 0 {
        t.plus_spec(normal_off)
    } else if t.at_most_spec(controls[0].0) {
        shifted_by(t, controls[0])
    } else if controls.last().0.at_most_spec(t) {
        shifted_by(t, controls.last())
    } else {
        match segment_from(controls, t, 0) {
            Some(i) => interpolated(t, controls[i], controls[i + 1]),
            None => shifted_by(t, controls.last()),
        }
    }
}

impl<T: Scalar> TimeMap<T> {
    /// The control points, in the order of their raw times.
    pub closed spec fn points(&self) -> Seq<(T, T)> {
        self.controls@
    }

    /// What is added where there are no control points.
    pub closed spec fn offset(&self) -> T {
        self.normal_off
    }

    /// Where the map takes a time.
    pub open spec fn map_spec(&self, t: T) -> T {
        mapped(self.points(), self.offset(), t)
    }

    /// The map through the given control points.
    pub fn new(controls: Vec<(T, T)>, normal_off: T) -> (r: Self)
        ensures
            r.points() == controls_by_time(controls@),
            r.offset() == normal_off,
    {
        let mut keys: Vec<Rising<T>> = Vec::new();
        let mut i: usize = 0;
        while i < controls.len()
            invariant
                i <= controls@.len(),
                keys@ == control_keys(controls@).take(i as int),
            decreases controls@.len() - i,
        {
            keys.push(Rising(controls[i].0));
            i += 1;
            assert(keys@ == control_keys(controls@).take(i as int));
        }
        assert(keys@ == control_keys(controls@));
        let order = sort_order(&keys);
        TimeMap { controls: arrange(controls, &order), normal_off }
    }

    /// Where the map takes a time.
    pub fn map(&self, t: T) -> (r: T)
        ensures
            r == self.map_spec(t),
    {
        let n: usize = self.controls.len();
        if n == 0 {
            return t.plus(self.normal_off);
        }
        let (first_raw, first_render) = self.controls[0];
        if t.at_most(first_raw) {
            return t.plus(first_render.minus(first_raw));
        }
        let (last_raw, last_render) = self.controls[n - 1];
        if last_raw.at_most(t) {
            return t.plus(last_render.minus(last_raw));
        }
        let mut i: usize = 0;
        while i < n - 1
            invariant
                i <= n - 1,
                n == self.controls@.len(),
                n > 0,
                !t.at_most_spec(self.controls@[0].0),
                !self.controls@[n - 1].0.at_most_spec(t),
                segment_from(self.controls@, t, 0) == segment_from(self.controls@, t, i as int),
            decreases n - i,
        {
            let (raw_i, render_i) = self.controls[i];
            let (raw_j, render_j) = self.controls[i + 1];
            if raw_i.at_most(t) && t.at_most(raw_j) {
                if raw_j.same(raw_i) {
                    return t.plus(render_i.minus(raw_i));
                }
                let alpha = t.minus(raw_i).over(raw_j.minus(raw_i));
                return render_i.plus(alpha.times(render_j.minus(render_i)));
            }
            i += 1;
        }
        t.plus(last_render.minus(last_raw))
    }
}

/// Whether control points ascend, in raw time and in where they lead.
pub open spec fn ascending(points: Seq<(i64, i64)>) -> bool {
    forall|i: int, j: int|
        #![trigger points[i], points[j]]
        0 <= i < j < points.len() ==> points[i].0 < points[j].0 && points[i].1 <= points[j].1
}

/// Whether all differences between control points can be counted in ticks.
pub open spec fn narrow(points: Seq<(i64, i64)>) -> bool {
    &&& forall|i: int|
        0 <= i < points.len() ==> i64::MIN <= (#[trigger] points[i]).1 - points[i].0 <= i64::MAX
    &&& forall|i: int, j: int|
        #![trigger points[i], points[j]]
        0 <= i <= j < points.len() ==> points[j].0 - points[i].0 <= i64::MAX && points[j].1
            - points[i].1 <= i64::MAX
}

/// A whole part of a whole: nothing below it, one where it is reached.
proof fn lemma_share(e: i64, d: i64)
    requires
        0 <= e <= d,
        0 < d,
    ensures
        e.over_spec(d) == if e == d {
            1i64
        } else {
            0i64
        },
{
    if e == d {
        vstd::arithmetic::div_mod::lemma_div_by_self(d as int);
    } else {
        vstd::arithmetic::div_mod::lemma_basic_div(e as int, d as int);
    }
}

/// Between control points, ticks stay with the last point that they reach.
proof fn lemma_segment(points: Seq<(i64, i64)>, t: i64, i: int, from: int)
    requires
        ascending(points),
        narrow(points),
        0 <= from <= i < points.len() - 1,
        points[i].0 <= t < points[i + 1].0,
    ensures
        segment_from(points, t, from) is Some,
        ({
            let s = segment_from(points, t, from)->0;
            interpolated(t, points[s], points[s + 1]) == points[i].1
        }),
    decreases i - from,
{
    let a = points[from];
    let b = points[from + 1];
    assert(a.0 < b.0);
    if a.0 <= t && t <= b.0 {
        if from < i {
            if from + 1 < i {
                assert(points[from + 1].0 < points[i].0);
            }
            assert(t == b.0);
        }
        let e: i64 = (t - a.0) as i64;
        let d: i64 = (b.0 - a.0) as i64;
        lemma_share(e, d);
        assert(t.minus_spec(a.0) == e);
        assert(b.0.minus_spec(a.0) == d);
        assert(b.1.minus_spec(a.1) == b.1 - a.1);
        assert(segment_from(points, t, from) == Some(from));
    } else {
        if from < i {
            assert(a.0 < points[i].0);
        }
        lemma_segment(points, t, i, from + 1);
    }
}

/// The last control point, from `i` down, that a time reaches.
proof fn lemma_reached(points: Seq<(i64, i64)>, t: i64, n: int) -> (i: int)
    requires
        0 < n < points.len(),
        points[0].0 <= t < points[n].0,
    ensures
        0 <= i < n,
        points[i].0 <= t < points[i + 1].0,
    decreases n,
{
    if points[n - 1].0 <= t {
        n - 1
    } else {
        lemma_reached(points, t, n - 1)
    }
}

/// Counted in ticks, a time map leads every control point to where it was given:
/// what starts with a kernel is drawn where that kernel is drawn.
pub proof fn control_points_are_met(points: Seq<(i64, i64)>, offset: i64, i: int)
    requires
        ascending(points),
        narrow(points),
        0 <= i < points.len(),
    ensures
        mapped(points, offset, points[i].0) == points[i].1,
{
    let t = points[i].0;
    if 0 < i < points.len() - 1 {
        assert(points[0].0 < t);
        assert(t < points[points.len() - 1].0);
        assert(t < points[i + 1].0);
        lemma_segment(points, t, i, 0);
    }
}

/// Where a time between the first and the last control point is led.
proof fn lemma_inside(points: Seq<(i64, i64)>, offset: i64, t: i64) -> (i: int)
    requires
        ascending(points),
        narrow(points),
        points.len() > 0,
        points[0].0 < t < points[points.len() - 1].0,
    ensures
        0 <= i < points.len() - 1,
        points[i].0 <= t < points[i + 1].0,
        mapped(points, offset, t) == points[i].1,
{
    let i = lemma_reached(points, t, points.len() - 1);
    lemma_segment(points, t, i, 0);
    i
}

/// Counted in ticks, a time map keeps the order of times.
pub proof fn time_maps_keep_the_order(points: Seq<(i64, i64)>, offset: i64, t: i64, u: i64)
    requires
        ascending(points),
        narrow(points),
        t <= u,
    ensures
        mapped(points, offset, t) <= mapped(points, offset, u),
{
    let n = points.len() as int;
    if n > 0 {
        let inside_t = points[0].0 < t < points[n - 1].0;
        let inside_u = points[0].0 < u < points[n - 1].0;
        if inside_t && inside_u {
            let i = lemma_inside(points, offset, t);
            let j = lemma_inside(points, offset, u);
            if j < i {
                if j + 1 < i {
                    assert(points[j + 1].0 < points[i].0);
                }
                assert(false);
            }
            if i < j {
                assert(points[i].1 <= points[j].1);
            }
        } else if inside_t {
            let i = lemma_inside(points, offset, t);
            assert(points[i].1 <= points[n - 1].1);
        } else if inside_u {
            let j = lemma_inside(points, offset, u);
            if j > 0 {
                assert(points[0].1 <= points[j].1);
            }
        } else if n > 1 {
            assert(points[0].0 < points[n - 1].0 && points[0].1 <= points[n - 1].1);
        }
    }
}

/// Whether control points climb: raw times strictly, render times at least not
/// falling.
pub open spec fn climbing<T: Scalar>(points: Seq<(T, T)>) -> bool {
    forall|i: int, j: int|
        #![trigger points[i], points[j]]
        0 <= i < j < points.len() ==> points[i].0.at_most_spec(points[j].0) && points[i].0
            != points[j].0 && points[i].1.at_most_spec(points[j].1)
}

/// Whether the raw times of control points rise strictly, wherever they lead.
pub open spec fn rising<T: Scalar>(points: Seq<(T, T)>) -> bool {
    forall|i: int, j: int|
        #![trigger points[i], points[j]]
        0 <= i < j < points.len() ==> points[i].0.at_most_spec(points[j].0) && points[i].0
            != points[j].0
}

/// The two ends of a segment are led to their own places.
proof fn lemma_segment_ends<T: Scalar>(a: (T, T), b: (T, T))
    requires
        scalar::counts_like_reals::<T>(),
        a.0 != b.0,
    ensures
        interpolated(a.0, a, b) == a.1,
        interpolated(b.0, a, b) == b.1,
{
    let zero = T::whole_spec(0);
    let one = T::whole_spec(1);
    let d = b.0.minus_spec(a.0);
    let h = b.1.minus_spec(a.1);
    assert(a.0.minus_spec(a.0) == zero);
    assert(a.0.plus_spec(d) == b.0);
    assert(a.0.plus_spec(zero) == a.0);
    assert(d != zero);
    assert(zero.over_spec(d) == zero && d.over_spec(d) == one);
    assert(zero.times_spec(h) == zero && one.times_spec(h) == h);
    assert(a.1.plus_spec(zero) == a.1 && a.1.plus_spec(h) == b.1);
}

/// A time between two points is led between where they are led, and each of them
/// to its own place.
proof fn lemma_interpolated<T: Scalar>(a: (T, T), b: (T, T), t: T)
    requires
        scalar::counts_like_reals::<T>(),
        a.0.at_most_spec(t),
        t.at_most_spec(b.0),
        a.0 != b.0,
        a.1.at_most_spec(b.1),
    ensures
        a.1.at_most_spec(interpolated(t, a, b)),
        interpolated(t, a, b).at_most_spec(b.1),
        t == a.0 ==> interpolated(t, a, b) == a.1,
        t == b.0 ==> interpolated(t, a, b) == b.1,
{
    let zero = T::whole_spec(0);
    let one = T::whole_spec(1);
    let d = b.0.minus_spec(a.0);
    let e = t.minus_spec(a.0);
    let h = b.1.minus_spec(a.1);
    assert(a.0.minus_spec(a.0) == zero);
    assert(a.1.minus_spec(a.1) == zero);
    assert(zero.at_most_spec(e) && e.at_most_spec(d));
    assert(zero.at_most_spec(d));
    assert(zero.at_most_spec(h));
    assert(a.0.plus_spec(d) == b.0);
    assert(a.0.plus_spec(zero) == a.0);
    assert(d != zero);
    let r = e.over_spec(d);
    assert(zero.over_spec(d) == zero && d.over_spec(d) == one);
    assert(zero.at_most_spec(r) && r.at_most_spec(one));
    let x = r.times_spec(h);
    assert(zero.times_spec(h) == zero && one.times_spec(h) == h);
    assert(zero.at_most_spec(x) && x.at_most_spec(h));
    assert(a.1.plus_spec(zero) == a.1 && a.1.plus_spec(h) == b.1);
    assert(a.1.plus_spec(zero).at_most_spec(a.1.plus_spec(x)));
    assert(a.1.plus_spec(x).at_most_spec(a.1.plus_spec(h)));
}

/// Between two points the map keeps the order.
proof fn lemma_interpolated_in_order<T: Scalar>(a: (T, T), b: (T, T), t: T, u: T)
    requires
        scalar::counts_like_reals::<T>(),
        a.0.at_most_spec(t),
        t.at_most_spec(u),
        u.at_most_spec(b.0),
        a.0 != b.0,
        a.1.at_most_spec(b.1),
    ensures
        interpolated(t, a, b).at_most_spec(interpolated(u, a, b)),
{
    let zero = T::whole_spec(0);
    let d = b.0.minus_spec(a.0);
    let h = b.1.minus_spec(a.1);
    assert(a.0.at_most_spec(b.0));
    assert(a.0.minus_spec(a.0) == zero);
    assert(a.1.minus_spec(a.1) == zero);
    assert(zero.at_most_spec(d) && zero.at_most_spec(h));
    assert(a.0.plus_spec(d) == b.0);
    assert(a.0.plus_spec(zero) == a.0);
    assert(d != zero);
    let e = t.minus_spec(a.0);
    let f = u.minus_spec(a.0);
    assert(e.at_most_spec(f));
    assert(e.over_spec(d).at_most_spec(f.over_spec(d)));
    assert(e.over_spec(d).times_spec(h).at_most_spec(f.over_spec(d).times_spec(h)));
    assert(a.1.plus_spec(e.over_spec(d).times_spec(h)).at_most_spec(
        a.1.plus_spec(f.over_spec(d).times_spec(h)),
    ));
}

/// The first segment that holds a time, where segment `i` does.
proof fn lemma_first_segment<T: Scalar>(points: Seq<(T, T)>, t: T, i: int, from: int)
    requires
        0 <= from <= i < points.len() - 1,
        points[i].0.at_most_spec(t),
        t.at_most_spec(points[i + 1].0),
    ensures
        ({
            let s = segment_from(points, t, from);
            &&& s is Some
            &&& from <= s->0 <= i
            &&& points[s->0].0.at_most_spec(t)
            &&& t.at_most_spec(points[s->0 + 1].0)
        }),
    decreases i - from,
{
    if !(points[from].0.at_most_spec(t) && t.at_most_spec(points[from + 1].0)) {
        lemma_first_segment(points, t, i, from + 1);
    }
}

/// For numbers that count like reals, a time map is linear between two neighbouring
/// control points.
pub proof fn time_maps_are_linear_between_neighbours<T: Scalar>(
    points: Seq<(T, T)>,
    offset: T,
    i: int,
    t: T,
)
    requires
        scalar::counts_like_reals::<T>(),
        rising(points),
        0 <= i < points.len() - 1,
        points[i].0.at_most_spec(t),
        t.at_most_spec(points[i + 1].0),
    ensures
        mapped(points, offset, t) == points[i].1.plus_spec(
            t.minus_spec(points[i].0).over_spec(
                points[i + 1].0.minus_spec(points[i].0),
            ).times_spec(points[i + 1].1.minus_spec(points[i].1)),
        ),
        mapped(points, offset, t) == interpolated(t, points[i], points[i + 1]),
{
    let n = points.len() as int;
    let a = points[i];
    let b = points[i + 1];
    lemma_segment_ends(a, b);
    if t.at_most_spec(points[0].0) {
        if i > 0 {
            assert(points[0].0.at_most_spec(a.0));
            assert(false);
        }
        assert(t == a.0);
        assert(a.0.plus_spec(a.1.minus_spec(a.0)) == a.1);
    } else if points.last().0.at_most_spec(t) {
        if i + 1 < n - 1 {
            assert(b.0.at_most_spec(points[n - 1].0));
            assert(points[n - 1].0.at_most_spec(b.0));
            assert(false);
        }
        assert(t == b.0);
        assert(b.0.plus_spec(b.1.minus_spec(b.0)) == b.1);
    } else {
        lemma_first_segment(points, t, i, 0);
        let s = segment_from(points, t, 0)->0;
        if s < i {
            if s + 1 < i {
                assert(points[s + 1].0.at_most_spec(points[i].0));
                assert(t.at_most_spec(points[i].0));
                assert(points[i].0.at_most_spec(points[s + 1].0));
                assert(false);
            }
            assert(t == a.0);
            lemma_segment_ends(points[s], points[s + 1]);
        }
    }
}

/// For numbers that count like reals, a time map moves times before the first
/// control point as that point is moved, and times behind the last as that one is.
pub proof fn time_maps_shift_outside<T: Scalar>(points: Seq<(T, T)>, offset: T, t: T)
    requires
        scalar::counts_like_reals::<T>(),
        rising(points),
        0 < points.len(),
    ensures
        t.at_most_spec(points[0].0) ==> mapped(points, offset, t).minus_spec(t)
            == points[0].1.minus_spec(points[0].0),
        points.last().0.at_most_spec(t) ==> mapped(points, offset, t).minus_spec(t)
            == points.last().1.minus_spec(points.last().0),
{
    let first = points[0];
    let last = points.last();
    let s = first.1.minus_spec(first.0);
    let e = last.1.minus_spec(last.0);
    assert(t.plus_spec(s).minus_spec(t) == s);
    assert(t.plus_spec(e).minus_spec(t) == e);
    if t.at_most_spec(first.0) && last.0.at_most_spec(t) && points.len() > 1 {
        assert(first.0.at_most_spec(points[points.len() - 1].0));
        assert(last.0.at_most_spec(first.0));
        assert(false);
    }
}

/// For numbers that count like reals, a time map leads every control point to where
/// it was given.
pub proof fn time_maps_meet_their_points<T: Scalar>(points: Seq<(T, T)>, offset: T, i: int)
    requires
        scalar::counts_like_reals::<T>(),
        rising(points),
        0 <= i < points.len(),
    ensures
        mapped(points, offset, points[i].0) == points[i].1,
{
    let n = points.len() as int;
    let c = points[i];
    assert(c.0.at_most_spec(c.0));
    if n == 1 {
        assert(c.0.plus_spec(c.1.minus_spec(c.0)) == c.1);
    } else if i + 1 < n {
        assert(c.0.at_most_spec(points[i + 1].0));
        time_maps_are_linear_between_neighbours(points, offset, i, c.0);
        lemma_segment_ends(c, points[i + 1]);
    } else {
        assert(points[i - 1].0.at_most_spec(c.0));
        time_maps_are_linear_between_neighbours(points, offset, i - 1, c.0);
        lemma_segment_ends(points[i - 1], c);
    }
}

/// A segment that holds a time between the first and the `n`-th point.
proof fn lemma_holding_segment<T: Scalar>(points: Seq<(T, T)>, t: T, n: int) -> (i: int)
    requires
        scalar::ordered_totally::<T>(),
        0 < n < points.len(),
        points[0].0.at_most_spec(t),
        t.at_most_spec(points[n].0),
    ensures
        0 <= i < n,
        points[i].0.at_most_spec(t),
        t.at_most_spec(points[i + 1].0),
    decreases n,
{
    if points[n - 1].0.at_most_spec(t) {
        n - 1
    } else {
        assert(t.at_most_spec(points[n - 1].0));
        lemma_holding_segment(points, t, n - 1)
    }
}

/// Times between the first and the last point are led between where those are led.
proof fn lemma_led_inside<T: Scalar>(points: Seq<(T, T)>, offset: T, t: T)
    requires
        scalar::counts_like_reals::<T>(),
        climbing(points),
        1 < points.len(),
        points[0].0.at_most_spec(t),
        t.at_most_spec(points.last().0),
    ensures
        points[0].1.at_most_spec(mapped(points, offset, t)),
        mapped(points, offset, t).at_most_spec(points.last().1),
{
    let n = points.len() as int;
    let i = lemma_holding_segment(points, t, n - 1);
    let m = mapped(points, offset, t);
    time_maps_are_linear_between_neighbours(points, offset, i, t);
    lemma_interpolated(points[i], points[i + 1], t);
    assert(points[i].1.at_most_spec(m) && m.at_most_spec(points[i + 1].1));
    if i > 0 {
        assert(points[0].1.at_most_spec(points[i].1));
    }
    if i + 1 < n - 1 {
        assert(points[i + 1].1.at_most_spec(points[n - 1].1));
    }
}

proof fn lemma_inside_in_order<T: Scalar>(points: Seq<(T, T)>, offset: T, t: T, u: T)
    requires
        scalar::counts_like_reals::<T>(),
        climbing(points),
        1 < points.len(),
        points[0].0.at_most_spec(t),
        t.at_most_spec(u),
        u.at_most_spec(points.last().0),
    ensures
        mapped(points, offset, t).at_most_spec(mapped(points, offset, u)),
{
    let n = points.len() as int;
    assert(t.at_most_spec(points.last().0));
    assert(points[0].0.at_most_spec(u));
    let i = lemma_holding_segment(points, t, n - 1);
    let j = lemma_holding_segment(points, u, n - 1);
    let m = mapped(points, offset, t);
    let o = mapped(points, offset, u);
    time_maps_are_linear_between_neighbours(points, offset, i, t);
    time_maps_are_linear_between_neighbours(points, offset, j, u);
    lemma_interpolated(points[i], points[i + 1], t);
    lemma_interpolated(points[j], points[j + 1], u);
    if i == j {
        lemma_interpolated_in_order(points[i], points[i + 1], t, u);
    } else if i < j {
        if i + 1 < j {
            assert(points[i + 1].1.at_most_spec(points[j].1));
        }
        assert(m.at_most_spec(points[i + 1].1));
        assert(points[j].1.at_most_spec(o));
        assert(points[i + 1].1.at_most_spec(points[j].1));
    } else {
        if j + 1 < i {
            assert(points[j + 1].0.at_most_spec(points[i].0));
        }
        assert(u.at_most_spec(points[i].0));
        assert(u.at_most_spec(t));
        assert(t == u);
    }
}

/// For numbers that count like reals, a time map keeps the order of times.
pub proof fn time_maps_are_monotone<T: Scalar>(points: Seq<(T, T)>, offset: T, t: T, u: T)
    requires
        scalar::counts_like_reals::<T>(),
        climbing(points),
        t.at_most_spec(u),
    ensures
        mapped(points, offset, t).at_most_spec(mapped(points, offset, u)),
{
    let n = points.len() as int;
    let m = mapped(points, offset, t);
    let o = mapped(points, offset, u);
    if n == 0 {
        assert(t.plus_spec(offset).at_most_spec(u.plus_spec(offset)));
    } else {
        let first = points[0];
        let last = points.last();
        let s = first.1.minus_spec(first.0);
        let e = last.1.minus_spec(last.0);
        assert(first.0.plus_spec(s) == first.1);
        assert(last.0.plus_spec(e) == last.1);
        if n == 1 {
            assert(m == t.plus_spec(s) && o == u.plus_spec(s));
        } else {
            assert(first.0.at_most_spec(last.0)) by {
                assert(first.0.at_most_spec(points[n - 1].0));
            }
            assert(first.1.at_most_spec(last.1)) by {
                assert(first.1.at_most_spec(points[n - 1].1));
            }
            if u.at_most_spec(first.0) {
                assert(t.at_most_spec(first.0));
                assert(t.plus_spec(s).at_most_spec(u.plus_spec(s)));
            } else if last.0.at_most_spec(t) {
                lemma_led_as_last(points, offset, t);
                lemma_led_as_last(points, offset, u);
                assert(last.0.at_most_spec(u));
                assert(t.plus_spec(e).at_most_spec(u.plus_spec(e)));
            } else {
                assert(first.0.at_most_spec(u));
                assert(t.at_most_spec(last.0));
                if first.0.at_most_spec(t) && u.at_most_spec(last.0) {
                    lemma_inside_in_order(points, offset, t, u);
                } else {
                    if first.0.at_most_spec(t) {
                        lemma_led_inside(points, offset, t);
                    } else {
                        assert(t.at_most_spec(first.0));
                        assert(t.plus_spec(s).at_most_spec(first.0.plus_spec(s)));
                        assert(m.at_most_spec(first.1));
                        assert(m.at_most_spec(last.1));
                    }
                    if u.at_most_spec(last.0) {
                        lemma_led_inside(points, offset, u);
                    } else {
                        assert(last.0.at_most_spec(u));
                        lemma_led_as_last(points, offset, u);
                        assert(last.0.plus_spec(e).at_most_spec(u.plus_spec(e)));
                        assert(last.1.at_most_spec(o));
                        assert(first.1.at_most_spec(o));
                    }
                }
            }
        }
    }
}

/// Times at or behind the last point are moved as that point is.
proof fn lemma_led_as_last<T: Scalar>(points: Seq<(T, T)>, offset: T, t: T)
    requires
        scalar::counts_like_reals::<T>(),
        climbing(points),
        1 < points.len(),
    ensures
        points.last().0.at_most_spec(t) ==> mapped(points, offset, t) == shifted_by(
            t,
            points.last(),
        ),
{
    let n = points.len() as int;
    if points.last().0.at_most_spec(t) && t.at_most_spec(points[0].0) {
        assert(points[0].0.at_most_spec(points[n - 1].0));
        assert(points[n - 1].0.at_most_spec(points[0].0));
        assert(false);
    }
}

/// Whether control points, in any order, have distinct raw times, and render times
/// that do not fall with rising raw times.
pub open spec fn agreeing<T: Scalar>(controls: Seq<(T, T)>) -> bool {
    &&& forall|i: int, j: int|
        #![trigger controls[i], controls[j]]
        0 <= i < controls.len() && 0 <= j < controls.len() && i != j ==> controls[i].0
            != controls[j].0
    &&& forall|i: int, j: int|
        #![trigger controls[i], controls[j]]
        0 <= i < controls.len() && 0 <= j < controls.len() && controls[i].0.at_most_spec(
            controls[j].0,
        ) ==> controls[i].1.at_most_spec(controls[j].1)
}

/// Control points with distinct raw times rise once they are sorted; sorting loses none
/// of them and adds none.
pub proof fn sorted_controls_rise<T: Scalar>(controls: Seq<(T, T)>)
    requires
        scalar::ordered_totally::<T>(),
        controls.len() <= usize::MAX,
        forall|i: int, j: int|
            #![trigger controls[i], controls[j]]
            0 <= i < controls.len() && 0 <= j < controls.len() && i != j ==> controls[i].0
                != controls[j].0,
    ensures
        rising(controls_by_time(controls)),
        controls_by_time(controls).len() == controls.len(),
        forall|i: int|
            0 <= i < controls.len() ==> controls_by_time(controls).contains(#[trigger] controls[i]),
        forall|i: int|
            0 <= i < controls.len() ==> controls.contains(#[trigger] controls_by_time(controls)[i]),
{
    let keys = control_keys(controls);
    let order = sort::sorted_order(keys);
    let points = controls_by_time(controls);
    sort::sorting_rearranges(keys);
    assert(sort::orderly(keys)) by {
        assert forall|i: int, j: int|
            0 <= i < keys.len() && 0 <= j < keys.len() && #[trigger] keys[i].before_spec(
                &keys[j],
            ) implies !keys[j].before_spec(&keys[i]) by {
            assert(controls[i].0.less_spec(controls[j].0));
            assert(controls[i].0.at_most_spec(controls[j].0));
        }
        assert forall|i: int, j: int, k: int|
            #![trigger keys[j].before_spec(&keys[i]), keys[k].before_spec(&keys[j])]
            0 <= i < keys.len() && 0 <= j < keys.len() && 0 <= k < keys.len()
                && !keys[j].before_spec(&keys[i]) && !keys[k].before_spec(
                &keys[j],
            ) implies !keys[k].before_spec(&keys[i]) by {
            assert(!controls[j].0.less_spec(controls[i].0));
            assert(!controls[k].0.less_spec(controls[j].0));
            assert(controls[i].0.at_most_spec(controls[j].0));
            assert(controls[j].0.at_most_spec(controls[k].0));
            assert(controls[i].0.at_most_spec(controls[k].0));
        }
    }
    sort::sorting_is_stable(keys);
    assert forall|i: int, j: int|
        #![trigger points[i], points[j]]
        0 <= i < j < points.len() implies points[i].0.at_most_spec(points[j].0) && points[i].0
        != points[j].0 by {
        let p = order[i] as int;
        let q = order[j] as int;
        assert(order[i] != order[j]);
        assert(sort::precedes(keys, order[i], order[j]));
        assert(points[i] == controls[p] && points[j] == controls[q]);
        assert(keys[p].0 == controls[p].0 && keys[q].0 == controls[q].0);
        assert(!controls[q].0.less_spec(controls[p].0)) by {
            if controls[p].0.less_spec(controls[q].0) {
                assert(!controls[q].0.at_most_spec(controls[p].0));
                assert(controls[p].0.at_most_spec(controls[q].0));
            }
        }
    }
    assert forall|i: int| 0 <= i < controls.len() implies points.contains(
        #[trigger] controls[i],
    ) by {
        assert(order.contains(i as usize));
        let k = choose|k: int| 0 <= k < order.len() && order[k] == i as usize;
        assert(points[k] == controls[i]);
    }
    assert forall|i: int| 0 <= i < controls.len() implies controls.contains(
        #[trigger] points[i],
    ) by {
        assert(points[i] == controls[order[i] as int]);
    }
}

/// Control points that agree climb once they are sorted; sorting loses none of them.
pub proof fn sorted_controls_climb<T: Scalar>(controls: Seq<(T, T)>)
    requires
        scalar::ordered_totally::<T>(),
        controls.len() <= usize::MAX,
        agreeing(controls),
    ensures
        climbing(controls_by_time(controls)),
        controls_by_time(controls).len() == controls.len(),
        forall|i: int|
            0 <= i < controls.len() ==> controls_by_time(controls).contains(#[trigger] controls[i]),
{
    let keys = control_keys(controls);
    let order = sort::sorted_order(keys);
    let points = controls_by_time(controls);
    sort::sorting_rearranges(keys);
    assert(sort::orderly(keys)) by {
        assert forall|i: int, j: int|
            0 <= i < keys.len() && 0 <= j < keys.len() && #[trigger] keys[i].before_spec(
                &keys[j],
            ) implies !keys[j].before_spec(&keys[i]) by {
            assert(controls[i].0.less_spec(controls[j].0));
            assert(controls[i].0.at_most_spec(controls[j].0));
        }
        assert forall|i: int, j: int, k: int|
            #![trigger keys[j].before_spec(&keys[i]), keys[k].before_spec(&keys[j])]
            0 <= i < keys.len() && 0 <= j < keys.len() && 0 <= k < keys.len()
                && !keys[j].before_spec(&keys[i]) && !keys[k].before_spec(
                &keys[j],
            ) implies !keys[k].before_spec(&keys[i]) by {
            assert(!controls[j].0.less_spec(controls[i].0));
            assert(!controls[k].0.less_spec(controls[j].0));
            assert(controls[i].0.at_most_spec(controls[j].0));
            assert(controls[j].0.at_most_spec(controls[k].0));
            assert(controls[i].0.at_most_spec(controls[k].0));
        }
    }
    sort::sorting_is_stable(keys);
    assert forall|i: int, j: int|
        #![trigger points[i], points[j]]
        0 <= i < j < points.len() implies points[i].0.at_most_spec(points[j].0) && points[i].0
        != points[j].0 && points[i].1.at_most_spec(points[j].1) by {
        let p = order[i] as int;
        let q = order[j] as int;
        assert(order[i] != order[j]);
        assert(sort::precedes(keys, order[i], order[j]));
        assert(points[i] == controls[p] && points[j] == controls[q]);
        assert(keys[p].0 == controls[p].0 && keys[q].0 == controls[q].0);
        assert(!controls[q].0.less_spec(controls[p].0)) by {
            if controls[p].0.less_spec(controls[q].0) {
                assert(!controls[q].0.at_most_spec(controls[p].0));
                assert(controls[p].0.at_most_spec(controls[q].0));
            }
        }
    }
    assert forall|i: int| 0 <= i < controls.len() implies points.contains(
        #[trigger] controls[i],
    ) by {
        assert(order.contains(i as usize));
        let k = choose|k: int| 0 <= k < order.len() && order[k] == i as usize;
        assert(points[k] == controls[i]);
    }
}

/// For numbers that count like reals, the map through agreeing control points keeps
/// the order of times, meets every control point, moves what lies outside them as the
/// nearest one, and is linear between two neighbours.
pub proof fn time_maps_follow_their_controls<T: Scalar>(
    map: TimeMap<T>,
    controls: Seq<(T, T)>,
    t: T,
    u: T,
)
    requires
        scalar::counts_like_reals::<T>(),
        0 < controls.len() <= usize::MAX,
        agreeing(controls),
        map.points() == controls_by_time(controls),
        t.at_most_spec(u),
    ensures
        map.map_spec(t).at_most_spec(map.map_spec(u)),
        forall|i: int|
            0 <= i < controls.len() ==> map.map_spec((#[trigger] controls[i]).0) == controls[i].1,
        t.at_most_spec(map.points()[0].0) ==> map.map_spec(t).minus_spec(t)
            == map.points()[0].1.minus_spec(map.points()[0].0),
        map.points().last().0.at_most_spec(t) ==> map.map_spec(t).minus_spec(t)
            == map.points().last().1.minus_spec(map.points().last().0),
        forall|i: int|
            0 <= i < map.points().len() - 1 && (#[trigger] map.points()[i]).0.at_most_spec(t)
                && t.at_most_spec(map.points()[i + 1].0) ==> map.map_spec(t) == interpolated(
                t,
                map.points()[i],
                map.points()[i + 1],
            ),
{
    let points = map.points();
    sorted_controls_climb(controls);
    time_maps_are_monotone(points, map.offset(), t, u);
    time_maps_shift_outside(points, map.offset(), t);
    assert forall|i: int| 0 <= i < controls.len() implies map.map_spec((#[trigger] controls[i]).0)
        == controls[i].1 by {
        assert(points.contains(controls[i]));
        let k = choose|k: int| 0 <= k < points.len() && points[k] == controls[i];
        time_maps_meet_their_points(points, map.offset(), k);
    }
    assert forall|i: int|
        0 <= i < points.len() - 1 && (#[trigger] points[i]).0.at_most_spec(t) && t.at_most_spec(
            points[i + 1].0,
        ) implies map.map_spec(t) == interpolated(t, points[i], points[i + 1]) by {
        time_maps_are_linear_between_neighbours(points, map.offset(), i, t);
    }
}

} // verus!
