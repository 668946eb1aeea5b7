//! Bin weights held as exact fractions over one denominator.

use vstd::prelude::*;

verus! {

/// The fraction `num / den`.
#[derive(Clone, Copy, Debug)]
pub struct Ratio {
    pub num: i64,
    pub den: u64,
}

/// A row of bin weights: bin `i` weighs `parts[i] / scale`.
#[derive(Debug)]
pub struct Profile {
    pub parts: Vec<i64>,
    pub scale: u64,
}

/// The size of a number, whatever its sign.
pub open spec fn size(x: int) -> nat {
    if x < 0 {
        (-x) as nat
    } else {
        x as nat
    }
}

/// The sum of the entries of `s`.
pub open spec fn total(s: Seq<i64>) -> int
    decreases s.len(),
{
    if s.len() == 0 {
        0
    } else {
        total(s.drop_last()) + s.last()
    }
}

/// The sum of the sizes of the entries of `s`.
pub open spec fn weight(s: Seq<i64>) -> nat
    decreases s.len(),
{
    if s.len() == 0 {
        0
    } else {
        weight(s.drop_last()) + size(s.last() as int)
    }
}

/// Whether every entry of `s` is zero.
pub open spec fn all_zero(s: Seq<i64>) -> bool {
    forall|i: int| 0 <= i < s.len() ==> #[trigger] s[i] == 0
}

/// Whether no entry of `s` is negative.
pub open spec fn no_negative(s: Seq<i64>) -> bool {
    forall|i: int| 0 <= i < s.len() ==> #[trigger] s[i] >= 0
}

/// The numerator, over the denominator `b`, of bin `i` of `x` smoothed with the
/// weight `a / b`: the bin moves towards each neighbour that it has by `a / b`
/// of their difference.
pub open spec fn smooth_at(x: Seq<i64>, a: int, b: int, i: int) -> int {
    if x.len() == 1 {
        b * x[0]
    } else if i == 0 {
        b * x[0] + a * (x[1] - x[0])
    } else if i == x.len() - 1 {
        b * x[i] + a * (x[i - 1] - x[i])
    } else {
        b * x[i] + a * (x[i - 1] - x[i]) + a * (x[i + 1] - x[i])
    }
}

/// The sum of the first `k` smoothed numerators, in closed form.
pub open spec fn smooth_mass(x: Seq<i64>, a: int, b: int, k: int) -> int {
    if k == 0 {
        0
    } else if k == x.len() {
        b * total(x)
    } else {
        b * total(x.take(k)) - a * x[k - 1] + a * x[k]
    }
}

/// A bound on the sizes of the first `k` smoothed numerators taken together,
/// for a weight of size `a / b`.
pub open spec fn smooth_room(x: Seq<i64>, a: int, b: int, k: int) -> int {
    if k == 0 {
        0
    } else if k == x.len() {
        (b + 4 * a) * weight(x)
    } else {
        (b + 4 * a) * weight(x.take(k - 1)) + (b + 3 * a) * size(x[k - 1] as int) + a * size(
            x[k] as int,
        )
    }
}

pub proof fn lemma_total_push(s: Seq<i64>, v: i64)
    ensures
        total(s.push(v)) == total(s) + v,
        weight(s.push(v)) == weight(s) + size(v as int),
{
    assert(s.push(v).drop_last() =~= s);
}

pub proof fn lemma_total_take(s: Seq<i64>, k: int)
    requires
        0 <= k < s.len(),
    ensures
        total(s.take(k + 1)) == total(s.take(k)) + s[k],
        weight(s.take(k + 1)) == weight(s.take(k)) + size(s[k] as int),
{
    assert(s.take(k + 1).drop_last() =~= s.take(k));
}

/// A prefix weighs no more than the whole.
pub proof fn lemma_weight_prefix(s: Seq<i64>, k: int)
    requires
        0 <= k <= s.len(),
    ensures
        weight(s.take(k)) <= weight(s),
    decreases s.len() - k,
{
    if k == s.len() {
        assert(s.take(k) =~= s);
    } else {
        lemma_total_take(s, k);
        lemma_weight_prefix(s, k + 1);
    }
}

/// No entry is larger than the weight.
pub proof fn lemma_weight_entry(s: Seq<i64>, i: int)
    requires
        0 <= i < s.len(),
    ensures
        size(s[i] as int) <= weight(s),
{
    lemma_total_take(s, i);
    lemma_weight_prefix(s, i + 1);
}

/// The sum is no larger than the weight, whatever its sign.
pub proof fn lemma_total_within(s: Seq<i64>)
    ensures
        size(total(s)) <= weight(s),
    decreases s.len(),
{
    if s.len() > 0 {
        lemma_total_within(s.drop_last());
    }
}

/// Without negative entries, the weight is the sum.
pub proof fn lemma_plain_weight(s: Seq<i64>)
    requires
        no_negative(s),
    ensures
        weight(s) == total(s),
    decreases s.len(),
{
    if s.len() > 0 {
        assert forall|i: int| 0 <= i < s.drop_last().len() implies #[trigger] s.drop_last()[i]
            >= 0 by {
            assert(s.drop_last()[i] == s[i]);
        }
        lemma_plain_weight(s.drop_last());
        assert(s.last() == s[s.len() - 1]);
    }
}

/// A weight of zero means that every entry is zero, and then the sum is zero.
pub proof fn lemma_total_zero(s: Seq<i64>)
    ensures
        weight(s) == 0 <==> all_zero(s),
        all_zero(s) ==> total(s) == 0,
    decreases s.len(),
{
    if s.len() > 0 {
        lemma_total_zero(s.drop_last());
        if all_zero(s) {
            assert forall|i: int| 0 <= i < s.drop_last().len() implies #[trigger] s.drop_last()[i]
                == 0 by {
                assert(s.drop_last()[i] == s[i]);
            }
            assert(s.last() == s[s.len() - 1]);
        }
        if weight(s) == 0 {
            assert forall|i: int| 0 <= i < s.len() implies #[trigger] s[i] == 0 by {
                if i < s.len() - 1 {
                    assert(s.drop_last()[i] == s[i]);
                }
            }
        }
    }
}

/// Raising one entry changes the sum by as much, and the weight by no more.
pub proof fn lemma_total_raise(s: Seq<i64>, i: int, v: i64)
    requires
        0 <= i < s.len(),
    ensures
        total(s.update(i, v)) == total(s) - s[i] + v,
        weight(s.update(i, v)) == weight(s) - size(s[i] as int) + size(v as int),
    decreases s.len(),
{
    if i == s.len() - 1 {
        assert(s.update(i, v).drop_last() =~= s.drop_last());
    } else {
        lemma_total_raise(s.drop_last(), i, v);
        assert(s.update(i, v).drop_last() =~= s.drop_last().update(i, v));
    }
}

/// The entries of `s` with their signs turned.
pub open spec fn negated(s: Seq<i64>) -> Seq<i64> {
    Seq::new(s.len(), |i: int| (-s[i]) as i64)
}

/// `n` entries of zero.
pub open spec fn zeroed(n: nat) -> Seq<i64> {
    Seq::new(n, |i: int| 0i64)
}

/// The numerators of `parts` taken as shares of their sum: all zero where
/// the sum is zero, and with their signs turned where it is negative, so that
/// the denominator is the size of the sum.
pub open spec fn share_parts(parts: Seq<i64>) -> Seq<i64> {
    if total(parts) == 0 {
        zeroed(parts.len())
    } else if total(parts) > 0 {
        parts
    } else {
        negated(parts)
    }
}

/// The denominator that turns the numerators `parts` into shares of their sum:
/// the size of the sum, or `scale` as it was where the sum is zero.
pub open spec fn share_scale(parts: Seq<i64>, scale: int) -> int {
    if total(parts) == 0 {
        scale
    } else {
        size(total(parts)) as int
    }
}

/// Turning the signs turns the sign of the sum and keeps the weight.
pub proof fn lemma_negated(s: Seq<i64>)
    requires
        weight(s) <= i64::MAX,
    ensures
        total(negated(s)) == -total(s),
        weight(negated(s)) == weight(s),
    decreases s.len(),
{
    if s.len() > 0 {
        lemma_weight_entry(s, s.len() - 1);
        lemma_negated(s.drop_last());
        assert(negated(s).drop_last() =~= negated(s.drop_last()));
        assert(negated(s).last() == (-s.last()) as i64);
    }
}

/// Normalization idempotence: to normalize what is normalized changes nothing.
/// Normalized numerators sum to their denominator, that is the shares sum to
/// one, unless the numerators sum to zero: then every share is zero.
pub proof fn lemma_normalize_idempotent(parts: Seq<i64>, scale: int)
    requires
        weight(parts) <= i64::MAX,
    ensures
        share_parts(share_parts(parts)) == share_parts(parts),
        share_scale(share_parts(parts), share_scale(parts, scale)) == share_scale(parts, scale),
        total(parts) != 0 ==> total(share_parts(parts)) == share_scale(parts, scale),
        total(parts) == 0 ==> all_zero(share_parts(parts)),
{
    lemma_negated(parts);
    lemma_total_zero(zeroed(parts.len()));
    assert(zeroed(zeroed(parts.len()).len()) =~= zeroed(parts.len()));
}

/// Each smoothed numerator adds to the closed form of the sum so far.
pub proof fn lemma_smooth_mass_step(x: Seq<i64>, a: int, b: int, k: int)
    requires
        0 <= k < x.len(),
    ensures
        smooth_mass(x, a, b, k + 1) == smooth_mass(x, a, b, k) + smooth_at(x, a, b, k),
{
    let n = x.len() as int;
    lemma_total_take(x, k);
    assert(x.take(n) =~= x);
    let tk = total(x.take(k));
    let c = x[k] as int;
    assert(b * (tk + c) == b * tk + b * c) by (nonlinear_arith);
    if n == 1 {
        assert(x.take(0) =~= Seq::<i64>::empty());
    } else if k == 0 {
        assert(x.take(0) =~= Seq::<i64>::empty());
        let r = x[1] as int;
        assert(a * (r - c) == a * r - a * c) by (nonlinear_arith);
        assert(b * 0 == 0);
    } else if k == n - 1 {
        let l = x[k - 1] as int;
        assert(a * (l - c) == a * l - a * c) by (nonlinear_arith);
    } else {
        let l = x[k - 1] as int;
        let r = x[k + 1] as int;
        assert(a * (l - c) == a * l - a * c) by (nonlinear_arith);
        assert(a * (r - c) == a * r - a * c) by (nonlinear_arith);
    }
}

/// The product of two numbers is no larger than the product of their bounds.
pub proof fn lemma_product_size(a: int, d: int, bound_a: int, bound_d: int)
    requires
        -bound_a <= a <= bound_a,
        -bound_d <= d <= bound_d,
    ensures
        -(bound_a * bound_d) <= a * d <= bound_a * bound_d,
{
    assert(-(bound_a * bound_d) <= a * d <= bound_a * bound_d) by (nonlinear_arith)
        requires
            -bound_a <= a <= bound_a,
            -bound_d <= d <= bound_d,
    ;
}

/// A smoothed numerator is no larger than what the bin and its neighbours
/// allow for, and the sizes of the first numerators stay within their room.
pub proof fn lemma_smooth_bounds(x: Seq<i64>, a: int, b: int, k: int)
    requires
        0 <= k < x.len(),
        0 <= b,
    ensures
        size(smooth_at(x, a, b, k)) <= (b + 4 * size(a)) * weight(x),
        smooth_room(x, size(a) as int, b, k) + size(smooth_at(x, a, b, k)) <= smooth_room(
            x,
            size(a) as int,
            b,
            k + 1,
        ),
        0 <= smooth_room(x, size(a) as int, b, k) <= (b + 4 * size(a)) * weight(x),
        smooth_room(x, size(a) as int, b, k + 1) <= (b + 4 * size(a)) * weight(x),
{
    let n = x.len() as int;
    let aa = size(a) as int;
    let w = weight(x) as int;
    let c = x[k] as int;
    let cc = size(c) as int;
    lemma_total_take(x, k);
    lemma_weight_prefix(x, k);
    lemma_weight_prefix(x, k + 1);
    assert(x.take(n) =~= x);
    assert(x.take(0) =~= Seq::<i64>::empty());
    let wk = weight(x.take(k)) as int;
    lemma_product_size(c, b, cc, b);
    assert(b * c == c * b) by (nonlinear_arith);
    if n == 1 {
        assert(cc * b <= (b + 4 * aa) * w) by (nonlinear_arith)
            requires
                0 <= cc <= w,
                0 <= b,
                0 <= aa,
        ;
        assert((b + 4 * aa) * w == (b + 4 * aa) * cc) by (nonlinear_arith)
            requires
                w == cc,
        ;
    } else if k == 0 {
        let r = x[1] as int;
        let rr = size(r) as int;
        lemma_total_take(x, 1);
        lemma_weight_prefix(x, 2);
        lemma_product_size(a, r - c, aa, rr + cc);
        let room = smooth_room(x, aa, b, 1);
        if n == 2 {
            assert(x.take(2) =~= x);
        }
        assert(cc * b + aa * (rr + cc) <= (b + 3 * aa) * cc + aa * rr && (b + 3 * aa) * cc + aa
            * rr <= (b + 4 * aa) * (cc + rr) && 0 <= (b + 3 * aa) * cc + aa * rr && (b + 4 * aa)
            * (cc + rr) <= (b + 4 * aa) * w) by (nonlinear_arith)
            requires
                0 <= cc,
                0 <= rr,
                cc + rr <= w,
                0 <= b,
                0 <= aa,
        ;
        assert((b + 4 * aa) * 0 == 0);
    } else if k == n - 1 {
        let l = x[k - 1] as int;
        let ll = size(l) as int;
        lemma_total_take(x, k - 1);
        lemma_weight_prefix(x, k - 1);
        let wp = weight(x.take(k - 1)) as int;
        lemma_product_size(a, l - c, aa, ll + cc);
        assert((b + 4 * aa) * wp + (b + 3 * aa) * ll + aa * cc + (cc * b + aa * (ll + cc)) <= (b + 4
            * aa) * w && 0 <= (b + 4 * aa) * wp + (b + 3 * aa) * ll + aa * cc && cc * b + aa * (ll
            + cc) <= (b + 4 * aa) * w) by (nonlinear_arith)
            requires
                0 <= wp,
                0 <= ll,
                0 <= cc,
                wp + ll + cc == w,
                0 <= b,
                0 <= aa,
        ;
    } else {
        let l = x[k - 1] as int;
        let ll = size(l) as int;
        let r = x[k + 1] as int;
        let rr = size(r) as int;
        lemma_total_take(x, k - 1);
        lemma_total_take(x, k + 1);
        lemma_weight_prefix(x, k - 1);
        lemma_weight_prefix(x, k + 2);
        let wp = weight(x.take(k - 1)) as int;
        lemma_product_size(a, l - c, aa, ll + cc);
        lemma_product_size(a, r - c, aa, rr + cc);
        if k + 1 == n - 1 {
        }
        assert((b + 4 * aa) * wp + (b + 3 * aa) * ll + aa * cc + (cc * b + aa * (ll + cc) + aa * (rr
            + cc)) == (b + 4 * aa) * (wp + ll) + (b + 3 * aa) * cc + aa * rr && 0 <= (b + 4 * aa)
            * wp + (b + 3 * aa) * ll + aa * cc && (b + 4 * aa) * (wp + ll) + (b + 3 * aa) * cc + aa
            * rr <= (b + 4 * aa) * w && cc * b + aa * (ll + cc) + aa * (rr + cc) <= (b + 4 * aa)
            * w) by (nonlinear_arith)
            requires
                0 <= wp,
                0 <= ll,
                0 <= cc,
                0 <= rr,
                wp + ll + cc + rr <= w,
                0 <= b,
                0 <= aa,
        ;
    }
}

impl Ratio {
    /// A fraction has a denominator that is not zero.
    pub open spec fn wf(&self) -> bool {
        self.den > 0
    }

    /// The fraction `num / den`.
    pub fn new(num: i64, den: u64) -> (out: Ratio)
        requires
            den > 0,
        ensures
            out.num == num,
            out.den == den,
            out.wf(),
    {
        Ratio { num, den }
    }
}

/// The size of a number that is not the least of its type.
pub fn size_of(v: i64) -> (out: u64)
    requires
        v > i64::MIN,
    ensures
        out == size(v as int),
{
    if v < 0 {
        (-v) as u64
    } else {
        v as u64
    }
}

impl Profile {
    /// The denominator is not zero, and the numerators weigh within `i64`.
    pub open spec fn wf(&self) -> bool {
        &&& self.scale > 0
        &&& weight(self.parts@) <= i64::MAX
    }

    /// The sum of the numerators.
    pub open spec fn mass(&self) -> int {
        total(self.parts@)
    }

    /// `bins` weights of zero, over the denominator 1.
    pub fn zeros(bins: usize) -> (out: Profile)
        ensures
            out.wf(),
            out.scale == 1,
            out.parts@.len() == bins,
            all_zero(out.parts@),
            out.mass() == 0,
            weight(out.parts@) == 0,
    {
        let mut parts: Vec<i64> = Vec::new();
        let mut i: usize = 0;
        while i < bins
            invariant
                i <= bins,
                parts.len() == i,
                all_zero(parts@),
            decreases bins - i,
        {
            parts.push(0);
            i += 1;
        }
        proof {
            lemma_total_zero(parts@);
        }
        Profile { parts, scale: 1 }
    }

    /// The weights `parts` over the denominator `scale`, if the numerators
    /// weigh within `i64` and the denominator is not zero.
    pub fn from_parts(parts: Vec<i64>, scale: u64) -> (out: Option<Profile>)
        ensures
            out is Some <==> scale > 0 && weight(parts@) <= i64::MAX,
            out is Some ==> out->0.parts@ == parts@ && out->0.scale == scale && out->0.wf(),
    {
        if scale == 0 {
            return None;
        }
        let mut sum: u64 = 0;
        let mut i: usize = 0;
        while i < parts.len()
            invariant
                i <= parts.len(),
                sum == weight(parts@.take(i as int)),
                sum <= i64::MAX,
            decreases parts.len() - i,
        {
            proof {
                lemma_total_take(parts@, i as int);
                lemma_weight_prefix(parts@, i + 1);
            }
            let v = parts[i];
            if v == i64::MIN {
                return None;
            }
            let more = size_of(v);
            if more > 0x7fff_ffff_ffff_ffff - sum {
                return None;
            }
            sum = sum + more;
            i += 1;
        }
        assert(parts@.take(i as int) =~= parts@);
        Some(Profile { parts, scale })
    }

    /// The sum of the numerators.
    pub fn sum(&self) -> (out: i64)
        requires
            self.wf(),
        ensures
            out == self.mass(),
    {
        let mut sum: i64 = 0;
        let mut i: usize = 0;
        while i < self.parts.len()
            invariant
                i <= self.parts.len(),
                sum == total(self.parts@.take(i as int)),
                weight(self.parts@) <= i64::MAX,
            decreases self.parts.len() - i,
        {
            proof {
                lemma_total_take(self.parts@, i as int);
                lemma_weight_prefix(self.parts@, i + 1);
                lemma_total_within(self.parts@.take(i as int));
                lemma_total_within(self.parts@.take(i + 1));
            }
            sum = sum + self.parts[i];
            i += 1;
        }
        assert(self.parts@.take(i as int) =~= self.parts@);
        sum
    }

    /// The sum of the sizes of the numerators.
    pub fn weight(&self) -> (out: u64)
        requires
            self.wf(),
        ensures
            out == weight(self.parts@),
    {
        let mut sum: u64 = 0;
        let mut i: usize = 0;
        while i < self.parts.len()
            invariant
                i <= self.parts.len(),
                sum == weight(self.parts@.take(i as int)),
                weight(self.parts@) <= i64::MAX,
            decreases self.parts.len() - i,
        {
            proof {
                lemma_total_take(self.parts@, i as int);
                lemma_weight_prefix(self.parts@, i + 1);
                lemma_weight_prefix(self.parts@, i as int);
                lemma_weight_entry(self.parts@, i as int);
            }
            sum = sum + size_of(self.parts[i]);
            i += 1;
        }
        assert(self.parts@.take(i as int) =~= self.parts@);
        sum
    }

    /// A copy with the same weights.
    pub fn duplicate(&self) -> (out: Profile)
        ensures
            out.parts@ == self.parts@,
            out.scale == self.scale,
    {
        Profile { parts: self.parts.clone(), scale: self.scale }
    }
}

/// Three-point smoothing with the weight `alpha`, whatever its size and sign:
/// every bin moves towards each neighbour that it has by `alpha` times their
/// difference. The result stands over the denominator of `x` times that of
/// `alpha`, and sums to as much as `x`.
pub fn exponential_smoothing(x: &Profile, alpha: &Ratio) -> (out: Profile)
    requires
        x.wf(),
        alpha.wf(),
        (alpha.den + 4 * size(alpha.num as int)) * weight(x.parts@) <= i64::MAX,
        alpha.den * x.scale <= u64::MAX,
    ensures
        out.wf(),
        out.scale == x.scale * alpha.den,
        out.parts@.len() == x.parts@.len(),
        forall|i: int|
            0 <= i < out.parts@.len() ==> #[trigger] out.parts@[i] == smooth_at(
                x.parts@,
                alpha.num as int,
                alpha.den as int,
                i,
            ),
        out.mass() == alpha.den * x.mass(),
        weight(out.parts@) <= (alpha.den + 4 * size(alpha.num as int)) * weight(x.parts@),
{
    let n = x.parts.len();
    let a: i128 = alpha.num as i128;
    let b: i128 = alpha.den as i128;
    let ghost xs = x.parts@;
    let ghost aa = size(alpha.num as int) as int;
    let ghost cap = (alpha.den + 4 * aa) * weight(xs);
    assert(0 < x.scale * alpha.den == alpha.den * x.scale) by (nonlinear_arith)
        requires
            x.scale > 0,
            alpha.den > 0,
    ;
    let scale: u64 = x.scale * alpha.den;
    let mut parts: Vec<i64> = Vec::new();
    let mut i: usize = 0;
    while i < n
        invariant
            i <= n,
            n == x.parts.len(),
            xs == x.parts@,
            a == alpha.num,
            b == alpha.den,
            b > 0,
            aa == size(alpha.num as int),
            cap == (alpha.den + 4 * aa) * weight(xs),
            cap <= i64::MAX,
            parts.len() == i,
            forall|j: int|
                0 <= j < i ==> #[trigger] parts@[j] == smooth_at(xs, a as int, b as int, j),
            total(parts@) == smooth_mass(xs, a as int, b as int, i as int),
            weight(parts@) <= smooth_room(xs, aa, b as int, i as int),
        decreases n - i,
    {
        proof {
            lemma_smooth_bounds(xs, a as int, b as int, i as int);
            lemma_smooth_mass_step(xs, a as int, b as int, i as int);
            lemma_weight_entry(xs, i as int);
        }
        let c: i128 = x.parts[i] as i128;
        let ghost want = smooth_at(xs, a as int, b as int, i as int);
        let ghost w = weight(xs) as int;
        let ghost cc = size(c as int) as int;
        proof {
            lemma_product_size(c as int, b as int, cc, b as int);
            assert(b * c == c * b) by (nonlinear_arith);
            assert(cc * b <= cap) by (nonlinear_arith)
                requires
                    0 <= cc <= w,
                    0 <= b,
                    0 <= aa,
                    cap == (b + 4 * aa) * w,
            ;
        }
        let mut v: i128 = b * c;
        if n > 1 && i > 0 {
            let l: i128 = x.parts[i - 1] as i128;
            proof {
                lemma_weight_entry(xs, i - 1);
                let ll = size(l as int) as int;
                lemma_product_size(a as int, l - c, aa, ll + cc);
                assert(aa * (ll + cc) <= cap) by (nonlinear_arith)
                    requires
                        0 <= cc <= w,
                        0 <= ll <= w,
                        0 <= b,
                        0 <= aa,
                        cap == (b + 4 * aa) * w,
                ;
            }
            v = v + a * (l - c);
        }
        if n > 1 && i < n - 1 {
            let r: i128 = x.parts[i + 1] as i128;
            proof {
                lemma_weight_entry(xs, i + 1);
                let rr = size(r as int) as int;
                lemma_product_size(a as int, r - c, aa, rr + cc);
                assert(aa * (rr + cc) <= cap) by (nonlinear_arith)
                    requires
                        0 <= cc <= w,
                        0 <= rr <= w,
                        0 <= b,
                        0 <= aa,
                        cap == (b + 4 * aa) * w,
                ;
            }
            v = v + a * (r - c);
        }
        assert(v == want);
        let part: i64 = v as i64;
        proof {
            lemma_total_push(parts@, part);
        }
        parts.push(part);
        i += 1;
    }
    proof {
        if n == 0 {
            assert(total(xs) == 0);
            assert(b * 0 == 0);
            assert(weight(xs) == 0);
        }
    }
    Profile { parts, scale }
}

/// The weights of `x` as shares of their sum: the numerators over the size of
/// their sum as denominator, with their signs turned where the sum is
/// negative. Where the sum is zero every share is zero.
pub fn normalize(x: &Profile) -> (out: Profile)
    requires
        x.wf(),
    ensures
        out.wf(),
        out.parts@ == share_parts(x.parts@),
        out.scale == share_scale(x.parts@, x.scale as int),
        weight(out.parts@) <= weight(x.parts@),
        x.mass() == 0 ==> all_zero(out.parts@),
{
    let sum = x.sum();
    let n = x.parts.len();
    let ghost xs = x.parts@;
    proof {
        lemma_total_within(xs);
        lemma_negated(xs);
        lemma_total_zero(zeroed(xs.len()));
    }
    let mut parts: Vec<i64> = Vec::new();
    let mut i: usize = 0;
    while i < n
        invariant
            i <= n,
            n == x.parts.len(),
            xs == x.parts@,
            sum == total(xs),
            weight(xs) <= i64::MAX,
            parts.len() == i,
            forall|j: int| 0 <= j < i ==> #[trigger] parts@[j] == share_parts(xs)[j],
        decreases n - i,
    {
        proof {
            lemma_weight_entry(xs, i as int);
        }
        let v = x.parts[i];
        let part: i64 = if sum == 0 {
            0
        } else if sum > 0 {
            v
        } else {
            -v
        };
        parts.push(part);
        i += 1;
    }
    assert(parts@ =~= share_parts(xs));
    let scale: u64 = if sum == 0 {
        x.scale
    } else if sum > 0 {
        sum as u64
    } else {
        (-sum) as u64
    };
    Profile { parts, scale }
}

} // verus!
