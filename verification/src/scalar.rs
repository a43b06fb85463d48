//! The number type that timestamps and durations are measured in.
//!
//! The timeline logic is generic over its numbers: it says which operations are
//! applied to which values, and proves that, whatever the numbers are. Nothing
//! is asked of an operation but that its result is a function of its operands.
//! Whole 64-bit counts of ticks are one such number type.
use vstd::prelude::*;
use crate::text::push_decimal;

verus! {

/// A number on the time axis: its operations, and for each of them what it gives
/// as a mathematical function. These functions have default bodies, so that number
/// types of code that is not verified need to write the operations alone. A default
/// body is one unknown value for all operands: a verified number type gives every
/// function a body of its own, since an operation held to a default one could only
/// return a constant. What is proved for all number types makes no use of them.
pub trait Scalar: Sized + Copy {
    open spec fn plus_spec(self, other: Self) -> Self {
        arbitrary()
    }

    open spec fn minus_spec(self, other: Self) -> Self {
        arbitrary()
    }

    open spec fn times_spec(self, other: Self) -> Self {
        arbitrary()
    }

    open spec fn over_spec(self, other: Self) -> Self {
        arbitrary()
    }

    open spec fn larger_spec(self, other: Self) -> Self {
        arbitrary()
    }

    open spec fn smaller_spec(self, other: Self) -> Self {
        arbitrary()
    }

    open spec fn magnitude_spec(self) -> Self {
        arbitrary()
    }

    open spec fn rounded_down_spec(self) -> Self {
        arbitrary()
    }

    open spec fn rounded_up_spec(self) -> Self {
        arbitrary()
    }

    open spec fn less_spec(self, other: Self) -> bool {
        arbitrary()
    }

    open spec fn at_most_spec(self, other: Self) -> bool {
        arbitrary()
    }

    open spec fn same_spec(self, other: Self) -> bool {
        arbitrary()
    }

    open spec fn total_less_spec(self, other: Self) -> bool {
        arbitrary()
    }

    open spec fn finite_spec(self) -> bool {
        arbitrary()
    }

    open spec fn index_spec(self) -> usize {
        arbitrary()
    }

    open spec fn count_spec(self) -> u64 {
        arbitrary()
    }

    open spec fn whole_spec(n: u64) -> Self {
        arbitrary()
    }

    open spec fn ratio_spec(num: i64, den: u64) -> Self {
        arbitrary()
    }

    open spec fn infinity_spec() -> Self {
        arbitrary()
    }

    open spec fn neg_infinity_spec() -> Self {
        arbitrary()
    }

    open spec fn largest_spec() -> Self {
        arbitrary()
    }

    open spec fn lowest_spec() -> Self {
        arbitrary()
    }

    open spec fn show_spec(self) -> Seq<char> {
        arbitrary()
    }

    open spec fn show_places_spec(self, places: nat) -> Seq<char> {
        arbitrary()
    }

    /// The sum.
    fn plus(self, other: Self) -> (r: Self)
        ensures
            r == self.plus_spec(other),
    ;

    /// The difference.
    fn minus(self, other: Self) -> (r: Self)
        ensures
            r == self.minus_spec(other),
    ;

    /// The product.
    fn times(self, other: Self) -> (r: Self)
        ensures
            r == self.times_spec(other),
    ;

    /// The quotient.
    fn over(self, other: Self) -> (r: Self)
        ensures
            r == self.over_spec(other),
    ;

    /// The larger of two numbers.
    fn larger(self, other: Self) -> (r: Self)
        ensures
            r == self.larger_spec(other),
    ;

    /// The smaller of two numbers.
    fn smaller(self, other: Self) -> (r: Self)
        ensures
            r == self.smaller_spec(other),
    ;

    /// The absolute value.
    fn magnitude(self) -> (r: Self)
        ensures
            r == self.magnitude_spec(),
    ;

    /// The largest whole number that is not larger.
    fn rounded_down(self) -> (r: Self)
        ensures
            r == self.rounded_down_spec(),
    ;

    /// The smallest whole number that is not smaller.
    fn rounded_up(self) -> (r: Self)
        ensures
            r == self.rounded_up_spec(),
    ;

    /// Whether this number lies before `other`.
    fn less(self, other: Self) -> (r: bool)
        ensures
            r == self.less_spec(other),
    ;

    /// Whether this number does not lie behind `other`.
    fn at_most(self, other: Self) -> (r: bool)
        ensures
            r == self.at_most_spec(other),
    ;

    /// Whether two numbers are equal.
    fn same(self, other: Self) -> (r: bool)
        ensures
            r == self.same_spec(other),
    ;

    /// Whether this number comes before `other` in the total order of all
    /// numbers.
    fn total_less(self, other: Self) -> (r: bool)
        ensures
            r == self.total_less_spec(other),
    ;

    /// Whether this is an ordinary, finite number.
    fn finite(self) -> (r: bool)
        ensures
            r == self.finite_spec(),
    ;

    /// The number cut down to an index, saturating at both ends.
    fn to_index(self) -> (r: usize)
        ensures
            r == self.index_spec(),
    ;

    /// The number cut down to a count, saturating at both ends.
    fn to_count(self) -> (r: u64)
        ensures
            r == self.count_spec(),
    ;

    /// A whole number.
    fn whole(n: u64) -> (r: Self)
        ensures
            r == Self::whole_spec(n),
    ;

    /// The number nearest to `num / den`.
    fn ratio(num: i64, den: u64) -> (r: Self)
        ensures
            r == Self::ratio_spec(num, den),
    ;

    /// The number beyond all finite ones.
    fn infinity() -> (r: Self)
        ensures
            r == Self::infinity_spec(),
    ;

    /// The number before all finite ones.
    fn neg_infinity() -> (r: Self)
        ensures
            r == Self::neg_infinity_spec(),
    ;

    /// The largest finite number.
    fn largest() -> (r: Self)
        ensures
            r == Self::largest_spec(),
    ;

    /// The lowest finite number.
    fn lowest() -> (r: Self)
        ensures
            r == Self::lowest_spec(),
    ;

    /// The shortest notation of the number.
    fn show(self) -> (r: String)
        ensures
            r@ == self.show_spec(),
    ;

    /// The notation of the number with a fixed number of decimal places.
    fn show_places(self, places: usize) -> (r: String)
        ensures
            r@ == self.show_places_spec(places as nat),
    ;
}

/// Whether the comparisons of a number type are those of one total order.
pub open spec fn ordered_totally<T: Scalar>() -> bool {
    &&& forall|a: T, b: T| #[trigger] a.less_spec(b) == !b.at_most_spec(a)
    &&& forall|a: T, b: T| #[trigger] a.same_spec(b) == (a == b)
    &&& forall|a: T, b: T| #[trigger] a.at_most_spec(b) || b.at_most_spec(a)
    &&& forall|a: T, b: T| #[trigger] a.at_most_spec(b) && b.at_most_spec(a) ==> a == b
    &&& forall|a: T, b: T, c: T|
        #![trigger a.at_most_spec(b), b.at_most_spec(c)]
        a.at_most_spec(b) && b.at_most_spec(c) ==> a.at_most_spec(c)
}

/// Whether sums and differences of a number type are exact: they undo each other,
/// zero changes nothing, and they keep the order.
pub open spec fn adds_exactly<T: Scalar>() -> bool {
    &&& forall|a: T, b: T| a.plus_spec(#[trigger] b.minus_spec(a)) == b
    &&& forall|a: T, b: T| (#[trigger] a.plus_spec(b)).minus_spec(a) == b
    &&& forall|a: T| #[trigger] a.plus_spec(T::whole_spec(0)) == a
    &&& forall|a: T| #[trigger] a.minus_spec(a) == T::whole_spec(0)
    &&& forall|a: T, b: T, c: T|
        #![trigger a.minus_spec(c), b.minus_spec(c)]
        a.at_most_spec(b) ==> a.minus_spec(c).at_most_spec(b.minus_spec(c))
    &&& forall|a: T, b: T, c: T|
        #![trigger a.plus_spec(c), b.plus_spec(c)]
        a.at_most_spec(b) ==> a.plus_spec(c).at_most_spec(b.plus_spec(c))
    &&& forall|a: T, b: T, c: T|
        #![trigger c.plus_spec(a), c.plus_spec(b)]
        a.at_most_spec(b) ==> c.plus_spec(a).at_most_spec(c.plus_spec(b))
}

/// Whether products and quotients of a number type are exact: one and zero are
/// neutral and absorbing, a number divided by itself is one, and positive factors
/// and divisors keep the order.
pub open spec fn scales_exactly<T: Scalar>() -> bool {
    &&& forall|c: T| #[trigger] T::whole_spec(1).times_spec(c) == c
    &&& forall|c: T| #[trigger] T::whole_spec(0).times_spec(c) == T::whole_spec(0)
    &&& forall|d: T| d != T::whole_spec(0) ==> #[trigger] d.over_spec(d) == T::whole_spec(1)
    &&& forall|d: T|
        d != T::whole_spec(0) ==> #[trigger] T::whole_spec(0).over_spec(d) == T::whole_spec(0)
    &&& forall|a: T, b: T, c: T|
        #![trigger a.times_spec(c), b.times_spec(c)]
        a.at_most_spec(b) && T::whole_spec(0).at_most_spec(c) ==> a.times_spec(c).at_most_spec(
            b.times_spec(c),
        )
    &&& forall|a: T, b: T, d: T|
        #![trigger a.over_spec(d), b.over_spec(d)]
        a.at_most_spec(b) && T::whole_spec(0).at_most_spec(d) && d != T::whole_spec(0)
            ==> a.over_spec(d).at_most_spec(b.over_spec(d))
}

/// Whether the larger and the smaller of two numbers are those of their order.
pub open spec fn picks_by_order<T: Scalar>() -> bool {
    &&& forall|a: T, b: T| #[trigger] a.larger_spec(b) == if a.at_most_spec(b) {
        b
    } else {
        a
    }
    &&& forall|a: T, b: T| #[trigger] a.smaller_spec(b) == if a.at_most_spec(b) {
        a
    } else {
        b
    }
}

/// Whether the order and the grouping of a sum make no difference.
#[verifier::opaque]
pub open spec fn sums_regroup<T: Scalar>() -> bool {
    &&& forall|a: T, b: T| #[trigger] a.plus_spec(b) == b.plus_spec(a)
    &&& forall|a: T, b: T, c: T| #[trigger]
        a.plus_spec(b).plus_spec(c) == a.plus_spec(b.plus_spec(c))
}

/// Whether half a number, taken twice, is the number.
pub open spec fn halves_exactly<T: Scalar>() -> bool {
    forall|a: T|
        (#[trigger] a.over_spec(T::whole_spec(2))).plus_spec(a.over_spec(T::whole_spec(2))) == a
}

/// Whether whole numbers differ and ascend, and no part of one is negative.
pub open spec fn wholes_ascend<T: Scalar>() -> bool {
    &&& forall|m: u64, n: u64|
        #![trigger T::whole_spec(m), T::whole_spec(n)]
        m < n ==> T::whole_spec(m).at_most_spec(T::whole_spec(n)) && T::whole_spec(m)
            != T::whole_spec(n)
    &&& forall|num: i64, den: u64|
        0 <= num && 0 < den ==> T::whole_spec(0).at_most_spec(#[trigger] T::ratio_spec(num, den))
}

/// Whether a number type counts as the real numbers do, without rounding and
/// without limits.
pub open spec fn counts_like_reals<T: Scalar>() -> bool {
    &&& ordered_totally::<T>()
    &&& adds_exactly::<T>()
    &&& scales_exactly::<T>()
    &&& picks_by_order::<T>()
    &&& sums_regroup::<T>()
    &&& wholes_ascend::<T>()
    &&& forall|a: T| #[trigger] a.finite_spec()
}

/// Ticks are ordered totally, and so are the larger and the smaller of two.
pub proof fn ticks_are_ordered()
    ensures
        ordered_totally::<i64>(),
        picks_by_order::<i64>(),
{
}

/// In an exact sum of four numbers the inner two can change places.
pub proof fn inner_summands_swap<T: Scalar>(a: T, b: T, c: T, d: T)
    requires
        counts_like_reals::<T>(),
    ensures
        a.plus_spec(b).plus_spec(c.plus_spec(d)) == a.plus_spec(c).plus_spec(b.plus_spec(d)),
{
    assert(a.plus_spec(b).plus_spec(c.plus_spec(d)) == a.plus_spec(b.plus_spec(c.plus_spec(d)))
        && b.plus_spec(c.plus_spec(d)) == b.plus_spec(c).plus_spec(d) && b.plus_spec(c)
        == c.plus_spec(b) && c.plus_spec(b).plus_spec(d) == c.plus_spec(b.plus_spec(d))
        && a.plus_spec(c).plus_spec(b.plus_spec(d)) == a.plus_spec(
        c.plus_spec(b.plus_spec(d)),
    )) by {
        reveal(sums_regroup);
    }
}

/// The grouping of an exact sum makes no difference.
pub proof fn sums_group_freely<T: Scalar>(a: T, b: T, c: T)
    requires
        counts_like_reals::<T>(),
    ensures
        a.plus_spec(b).plus_spec(c) == a.plus_spec(b.plus_spec(c)),
        a.plus_spec(b) == b.plus_spec(a),
{
    reveal(sums_regroup);
}

/// What is added to a number is added to its exact distance from another.
pub proof fn distances_take_summands<T: Scalar>(a: T, b: T, from: T)
    requires
        counts_like_reals::<T>(),
    ensures
        a.plus_spec(b).minus_spec(from) == a.minus_spec(from).plus_spec(b),
{
    let d = a.minus_spec(from);
    assert(from.plus_spec(d) == a);
    sums_group_freely(from, d, b);
    assert(from.plus_spec(d.plus_spec(b)).minus_spec(from) == d.plus_spec(b));
}

/// Moving a number by what leads from one place to another keeps its exact distance.
pub proof fn moves_keep_distances<T: Scalar>(a: T, from: T, to: T)
    requires
        counts_like_reals::<T>(),
    ensures
        a.plus_spec(to.minus_spec(from)).minus_spec(to) == a.minus_spec(from),
{
    let d = a.minus_spec(from);
    let shift = to.minus_spec(from);
    assert(from.plus_spec(d) == a);
    assert(from.plus_spec(shift) == to);
    sums_group_freely(from, d, shift);
    sums_group_freely(d, shift, d);
    sums_group_freely(from, shift, d);
    assert(a.plus_spec(shift) == to.plus_spec(d));
    assert(to.plus_spec(d).minus_spec(to) == d);
}

/// A mathematical integer, cut down to 64 bits.
pub open spec fn clamp_tick(x: int) -> i64 {
    if x > i64::MAX {
        i64::MAX
    } else if x < i64::MIN {
        i64::MIN
    } else {
        x as i64
    }
}

/// The quotient of two integers rounded toward zero; zero for a zero divisor.
pub open spec fn tick_quotient(a: int, b: int) -> int {
    if b == 0 {
        0
    } else if (a >= 0) == (b > 0) {
        (vstd::math::abs(a) / vstd::math::abs(b)) as int
    } else {
        -((vstd::math::abs(a) / vstd::math::abs(b)) as int)
    }
}

/// A 128-bit integer, cut down to 64 bits.
fn clamp_ticks(x: i128) -> (r: i64)
    ensures
        r == clamp_tick(x as int),
{
    if x > i64::MAX as i128 {
        i64::MAX
    } else if x < i64::MIN as i128 {
        i64::MIN
    } else {
        x as i64
    }
}

/// The absolute value of a 64-bit integer.
fn tick_size(x: i64) -> (r: u64)
    ensures
        r == vstd::math::abs(x as int),
{
    if x >= 0 {
        x as u64
    } else {
        (-(x as i128)) as u64
    }
}

/// Divides rounding toward zero; a zero divisor gives zero.
fn divide_ticks(a_negative: bool, a: u64, b: u64) -> (r: i64)
    ensures
        r == clamp_tick(
            tick_quotient(
                if a_negative {
                    -(a as int)
                } else {
                    a as int
                },
                b as int,
            ),
        ),
{
    if b == 0 {
        0
    } else {
        let q: u64 = a / b;
        proof {
            assert(0 <= q as int <= a) by {
                vstd::arithmetic::div_mod::lemma_div_is_ordered_by_denominator(
                    a as int,
                    1,
                    b as int,
                );
                vstd::arithmetic::div_mod::lemma_div_basics(a as int);
            }
            if a == 0 {
                vstd::arithmetic::div_mod::lemma_div_basics(b as int);
            }
        }
        if a_negative {
            clamp_ticks(-(q as i128))
        } else {
            clamp_ticks(q as i128)
        }
    }
}

/// Whole ticks: sums, differences and products saturate, quotients round
/// toward zero.
impl Scalar for i64 {
    open spec fn plus_spec(self, other: Self) -> Self {
        clamp_tick(self + other)
    }

    open spec fn minus_spec(self, other: Self) -> Self {
        clamp_tick(self - other)
    }

    open spec fn times_spec(self, other: Self) -> Self {
        clamp_tick(self * other)
    }

    open spec fn over_spec(self, other: Self) -> Self {
        clamp_tick(tick_quotient(self as int, other as int))
    }

    open spec fn larger_spec(self, other: Self) -> Self {
        if self < other {
            other
        } else {
            self
        }
    }

    open spec fn smaller_spec(self, other: Self) -> Self {
        if other < self {
            other
        } else {
            self
        }
    }

    open spec fn magnitude_spec(self) -> Self {
        clamp_tick(vstd::math::abs(self as int) as int)
    }

    open spec fn rounded_down_spec(self) -> Self {
        self
    }

    open spec fn rounded_up_spec(self) -> Self {
        self
    }

    open spec fn less_spec(self, other: Self) -> bool {
        self < other
    }

    open spec fn at_most_spec(self, other: Self) -> bool {
        self <= other
    }

    open spec fn same_spec(self, other: Self) -> bool {
        self == other
    }

    open spec fn total_less_spec(self, other: Self) -> bool {
        self < other
    }

    open spec fn finite_spec(self) -> bool {
        true
    }

    open spec fn index_spec(self) -> usize {
        if self < 0 {
            0
        } else if self > usize::MAX {
            usize::MAX
        } else {
            self as usize
        }
    }

    open spec fn count_spec(self) -> u64 {
        if self < 0 {
            0
        } else {
            self as u64
        }
    }

    open spec fn whole_spec(n: u64) -> Self {
        clamp_tick(n as int)
    }

    open spec fn ratio_spec(num: i64, den: u64) -> Self {
        clamp_tick(tick_quotient(num as int, den as int))
    }

    open spec fn infinity_spec() -> Self {
        i64::MAX
    }

    open spec fn neg_infinity_spec() -> Self {
        i64::MIN
    }

    open spec fn largest_spec() -> Self {
        i64::MAX
    }

    open spec fn lowest_spec() -> Self {
        i64::MIN
    }

    open spec fn show_spec(self) -> Seq<char> {
        if self < 0 {
            seq!['-'] + crate::text::decimal_text((-self) as nat)
        } else {
            crate::text::decimal_text(self as nat)
        }
    }

    open spec fn show_places_spec(self, places: nat) -> Seq<char> {
        if places == 0 {
            self.show_spec()
        } else {
            self.show_spec() + seq!['.'] + Seq::new(places, |i: int| '0')
        }
    }

    fn plus(self, other: Self) -> (r: Self) {
        clamp_ticks(self as i128 + other as i128)
    }

    fn minus(self, other: Self) -> (r: Self) {
        clamp_ticks(self as i128 - other as i128)
    }

    fn times(self, other: Self) -> (r: Self) {
        let a: i128 = self as i128;
        let b: i128 = other as i128;
        proof {
            let lim = 0x8000_0000_0000_0000int;
            assert(-(lim * lim) <= a * b <= lim * lim) by (nonlinear_arith)
                requires
                    -lim <= a <= lim,
                    -lim <= b <= lim,
                    lim == 0x8000_0000_0000_0000int,
            ;
            assert(lim * lim <= i128::MAX) by (nonlinear_arith)
                requires
                    lim == 0x8000_0000_0000_0000int,
            ;
        }
        clamp_ticks(a * b)
    }

    fn over(self, other: Self) -> (r: Self) {
        divide_ticks((self < 0) != (other < 0), tick_size(self), tick_size(other))
    }

    fn larger(self, other: Self) -> (r: Self) {
        if self < other {
            other
        } else {
            self
        }
    }

    fn smaller(self, other: Self) -> (r: Self) {
        if other < self {
            other
        } else {
            self
        }
    }

    fn magnitude(self) -> (r: Self) {
        clamp_ticks(tick_size(self) as i128)
    }

    fn rounded_down(self) -> (r: Self) {
        self
    }

    fn rounded_up(self) -> (r: Self) {
        self
    }

    fn less(self, other: Self) -> (r: bool) {
        self < other
    }

    fn at_most(self, other: Self) -> (r: bool) {
        self <= other
    }

    fn same(self, other: Self) -> (r: bool) {
        self == other
    }

    fn total_less(self, other: Self) -> (r: bool) {
        self < other
    }

    fn finite(self) -> (r: bool) {
        true
    }

    fn to_index(self) -> (r: usize) {
        if self < 0 {
            0
        } else if self as u64 > usize::MAX as u64 {
            usize::MAX
        } else {
            self as usize
        }
    }

    fn to_count(self) -> (r: u64) {
        if self < 0 {
            0
        } else {
            self as u64
        }
    }

    fn whole(n: u64) -> (r: Self) {
        clamp_ticks(n as i128)
    }

    fn ratio(num: i64, den: u64) -> (r: Self) {
        divide_ticks(num < 0, tick_size(num), den)
    }

    fn infinity() -> (r: Self) {
        i64::MAX
    }

    fn neg_infinity() -> (r: Self) {
        i64::MIN
    }

    fn largest() -> (r: Self) {
        i64::MAX
    }

    fn lowest() -> (r: Self) {
        i64::MIN
    }

    fn show(self) -> (r: String) {
        let mut out: String = String::new();
        if self < 0 {
            out.push('-');
        }
        push_decimal(&mut out, tick_size(self) as u128);
        assert(out@ == self.show_spec());
        out
    }

    fn show_places(self, places: usize) -> (r: String) {
        let mut out = self.show();
        if places > 0 {
            out.push('.');
            let mut i: usize = 0;
            while i < places
                invariant
                    i <= places,
                    out@ == self.show_spec() + seq!['.'] + Seq::new(i as nat, |j: int| '0'),
                decreases places - i,
            {
                out.push('0');
                i += 1;
            }
        }
        out
    }
}

} // verus!
