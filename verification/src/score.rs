//! The signed square difference between a control profile and the profiles of
//! other wells.

use crate::profile::{
    lemma_product_size, lemma_total_take, lemma_weight_entry, lemma_weight_prefix, size, weight,
    Profile, Ratio,
};
use vstd::prelude::*;

verus! {

/// A score as an exact fraction: `num / den`, taken negative where `negative`
/// is set.
#[derive(Clone, Copy, Debug)]
pub struct Score {
    pub negative: bool,
    pub num: u128,
    pub den: u128,
}

/// Why no scores could be computed.
#[derive(Clone, Copy, Debug, PartialEq, Eq)]
pub enum ShapeError {
    /// A profile has another number of bins than the control profile.
    Mismatch,
}

/// The numerators weighted by their position, counted from 1, and summed.
pub open spec fn weighted(s: Seq<i64>) -> int
    decreases s.len(),
{
    if s.len() == 0 {
        0
    } else {
        weighted(s.drop_last()) + s.last() * s.len()
    }
}

/// The difference, in one bin, between the control share `c / cs` and the
/// scaled share `(p / q) * (e / es)`, over the common denominator `cs * es * q`.
pub open spec fn gap(c: int, e: int, cs: int, es: int, p: int, q: int) -> int {
    c * es * q - p * e * cs
}

/// The sum over all bins of the squares of `gap`.
pub open spec fn square_sum(c: Seq<i64>, e: Seq<i64>, cs: int, es: int, p: int, q: int) -> int
    decreases c.len(),
{
    if c.len() == 0 || e.len() == 0 {
        0
    } else {
        square_sum(c.drop_last(), e.drop_last(), cs, es, p, q) + gap(
            c.last() as int,
            e.last() as int,
            cs,
            es,
            p,
            q,
        ) * gap(c.last() as int, e.last() as int, cs, es, p, q)
    }
}

/// Whether the control stands further right than the other profile: whether
/// its position-weighted sum, as a share, is the larger one.
pub open spec fn leans_left(c: Seq<i64>, cs: int, e: Seq<i64>, es: int) -> bool {
    weighted(c) * es > weighted(e) * cs
}

/// Whether the score of `exp` against `ctrl` can be held in 128 bits.
pub open spec fn score_fits(ctrl: &Profile, exp: &Profile, factor: &Ratio) -> bool {
    &&& ctrl.scale * exp.scale * factor.den <= u64::MAX
    &&& weight(ctrl.parts@) * exp.scale * factor.den + size(factor.num as int) * weight(
        exp.parts@,
    ) * ctrl.scale <= u64::MAX
    &&& weight(ctrl.parts@) * exp.scale <= i64::MAX
    &&& weight(exp.parts@) * ctrl.scale <= i64::MAX
}

/// The score of the profile `e / es` against the control profile `c / cs`, with
/// the shares of the first scaled by `p / q`: negative where the control stands
/// further right, and as large as the sum of the squared differences of the
/// shares, bin by bin.
pub open spec fn score_view(c: Seq<i64>, cs: int, e: Seq<i64>, es: int, p: int, q: int) -> Score {
    Score {
        negative: leans_left(c, cs, e, es),
        num: square_sum(c, e, cs, es, p, q) as u128,
        den: ((cs * es * q) * (cs * es * q)) as u128,
    }
}

/// Whether `score` is the score of `exp` against `ctrl` with `exp` scaled by
/// `factor`: negative where the control stands further right, and as large as
/// the sum of the squared differences of the shares, bin by bin.
pub open spec fn is_score(score: Score, ctrl: &Profile, exp: &Profile, factor: &Ratio) -> bool {
    &&& score.negative == leans_left(
        ctrl.parts@,
        ctrl.scale as int,
        exp.parts@,
        exp.scale as int,
    )
    &&& score.num == square_sum(
        ctrl.parts@,
        exp.parts@,
        ctrl.scale as int,
        exp.scale as int,
        factor.num as int,
        factor.den as int,
    )
    &&& score.den == (ctrl.scale * exp.scale * factor.den) * (ctrl.scale * exp.scale * factor.den)
    &&& score.den > 0
}

proof fn lemma_weighted_take(s: Seq<i64>, k: int)
    requires
        0 <= k < s.len(),
    ensures
        weighted(s.take(k + 1)) == weighted(s.take(k)) + s[k] * (k + 1),
        size(weighted(s.take(k + 1))) <= (k + 1) * weight(s.take(k + 1)),
        size(weighted(s.take(k))) <= k * weight(s.take(k)),
    decreases k,
{
    assert(s.take(k + 1).drop_last() =~= s.take(k));
    lemma_total_take(s, k);
    if k > 0 {
        lemma_weighted_take(s, k - 1);
    } else {
        assert(s.take(0) =~= Seq::<i64>::empty());
    }
    let w = weighted(s.take(k));
    let t = weight(s.take(k)) as int;
    let c = s[k] as int;
    let cc = size(c) as int;
    lemma_product_size(c, k + 1, cc, k + 1);
    assert(-((k + 1) * (t + cc)) <= w + c * (k + 1) <= (k + 1) * (t + cc)) by (nonlinear_arith)
        requires
            -(k * t) <= w <= k * t,
            -(cc * (k + 1)) <= c * (k + 1) <= cc * (k + 1),
            0 <= t,
            0 <= cc,
            0 <= k,
    ;
}

proof fn lemma_square_take(c: Seq<i64>, e: Seq<i64>, cs: int, es: int, p: int, q: int, k: int)
    requires
        0 <= k < c.len(),
        c.len() == e.len(),
    ensures
        square_sum(c.take(k + 1), e.take(k + 1), cs, es, p, q) == square_sum(
            c.take(k),
            e.take(k),
            cs,
            es,
            p,
            q,
        ) + gap(c[k] as int, e[k] as int, cs, es, p, q) * gap(
            c[k] as int,
            e[k] as int,
            cs,
            es,
            p,
            q,
        ),
{
    assert(c.take(k + 1).drop_last() =~= c.take(k));
    assert(e.take(k + 1).drop_last() =~= e.take(k));
}

/// The position-weighted sum of the numerators of `x`.
fn weighted_sum(x: &Profile) -> (out: i128)
    requires
        x.wf(),
    ensures
        out == weighted(x.parts@),
        size(out as int) <= x.parts@.len() * weight(x.parts@),
{
    let n = x.parts.len();
    let ghost xs = x.parts@;
    let mut acc: i128 = 0;
    let mut i: usize = 0;
    assert(xs.take(0) =~= Seq::<i64>::empty());
    while i < n
        invariant
            i <= n,
            n == xs.len(),
            xs == x.parts@,
            weight(xs) <= i64::MAX,
            acc == weighted(xs.take(i as int)),
            size(acc as int) <= i * weight(xs.take(i as int)),
        decreases n - i,
    {
        proof {
            lemma_weighted_take(xs, i as int);
            lemma_weight_prefix(xs, i + 1);
            lemma_weight_prefix(xs, i as int);
            lemma_weight_entry(xs, i as int);
            let t = weight(xs.take(i + 1)) as int;
            let t0 = weight(xs.take(i as int)) as int;
            let cc = size(xs[i as int] as int) as int;
            lemma_product_size(xs[i as int] as int, i + 1, cc, i + 1);
            assert((i + 1) * t <= 0xffff_ffff_ffff_ffff * 0x7fff_ffff_ffff_ffff && i * t0
                <= 0xffff_ffff_ffff_ffff * 0x7fff_ffff_ffff_ffff && cc * (i + 1)
                <= 0x7fff_ffff_ffff_ffff * 0xffff_ffff_ffff_ffff) by (nonlinear_arith)
                requires
                    0 <= t <= 0x7fff_ffff_ffff_ffff,
                    0 <= t0 <= 0x7fff_ffff_ffff_ffff,
                    0 <= cc <= 0x7fff_ffff_ffff_ffff,
                    0 <= i + 1 <= 0xffff_ffff_ffff_ffff,
            ;
        }
        let term: i128 = (x.parts[i] as i128) * ((i as i128) + 1);
        acc = acc + term;
        i += 1;
    }
    proof {
        assert(xs.take(n as int) =~= xs);
    }
    acc
}

/// The size of a number.
fn size_wide(v: i64) -> (out: u128)
    ensures
        out == size(v as int),
{
    if v < 0 {
        (-(v as i128)) as u128
    } else {
        v as u128
    }
}

/// Whether the score of `exp` against `ctrl` can be held in 128 bits.
pub fn fits(ctrl: &Profile, exp: &Profile, factor: &Ratio) -> (out: bool)
    requires
        ctrl.wf(),
        exp.wf(),
        factor.wf(),
    ensures
        out == score_fits(ctrl, exp, factor),
{
    let limit: u128 = 0xffff_ffff_ffff_ffff;
    let half: u128 = 0x7fff_ffff_ffff_ffff;
    let cs: u128 = ctrl.scale as u128;
    let es: u128 = exp.scale as u128;
    let p: u128 = size_wide(factor.num);
    let q: u128 = factor.den as u128;
    let cm: u128 = ctrl.weight() as u128;
    let em: u128 = exp.weight() as u128;
    assert(cs * es <= limit * limit && cm * es <= limit * limit && p * em <= limit * limit && em
        * cs <= limit * limit) by (nonlinear_arith)
        requires
            0 <= cs <= limit,
            0 <= es <= limit,
            0 <= p <= limit,
            0 <= cm <= limit,
            0 <= em <= limit,
    ;
    let a = cs * es;
    let b = cm * es;
    let c = p * em;
    let d = em * cs;
    assert(a * q >= a && b * q >= b && c * cs >= c) by (nonlinear_arith)
        requires
            q >= 1,
            cs >= 1,
            a >= 0,
            b >= 0,
            c >= 0,
    ;
    if a > limit || b > half || c > limit || d > half {
        return false;
    }
    assert(a * q <= limit * limit && b * q <= limit * limit && c * cs <= limit * limit)
        by (nonlinear_arith)
        requires
            0 <= a <= limit,
            0 <= b <= limit,
            0 <= c <= limit,
            0 <= q <= limit,
            0 <= cs <= limit,
    ;
    let aq = a * q;
    let bq = b * q;
    let cc = c * cs;
    aq <= limit && bq <= limit && cc <= limit && bq + cc <= limit
}

/// The score of `exp` against `ctrl`, with the shares of `exp` scaled by
/// `factor`.
pub fn square_diff(ctrl: &Profile, exp: &Profile, factor: &Ratio) -> (out: Score)
    requires
        ctrl.wf(),
        exp.wf(),
        factor.wf(),
        ctrl.parts@.len() == exp.parts@.len(),
        score_fits(ctrl, exp, factor),
    ensures
        is_score(out, ctrl, exp, factor),
        out == score_view(
            ctrl.parts@,
            ctrl.scale as int,
            exp.parts@,
            exp.scale as int,
            factor.num as int,
            factor.den as int,
        ),
{
    let limit: u128 = 0xffff_ffff_ffff_ffff;
    let n = ctrl.parts.len();
    let ghost c = ctrl.parts@;
    let ghost e = exp.parts@;
    let cs: i128 = ctrl.scale as i128;
    let es: i128 = exp.scale as i128;
    let p: i128 = factor.num as i128;
    let q: i128 = factor.den as i128;
    let ghost pp = size(p as int) as int;
    let ghost cm = weight(c) as int;
    let ghost em = weight(e) as int;
    // The two sides of the sign test.
    let wc = weighted_sum(ctrl);
    let we = weighted_sum(exp);
    proof {
        let wca = size(wc as int) as int;
        let wea = size(we as int) as int;
        lemma_product_size(wc as int, es as int, wca, es as int);
        lemma_product_size(we as int, cs as int, wea, cs as int);
        assert(wca * es <= 0xffff_ffff_ffff_ffff * 0x7fff_ffff_ffff_ffff && wea * cs
            <= 0xffff_ffff_ffff_ffff * 0x7fff_ffff_ffff_ffff && cs * es <= limit && es * q
            <= limit && 0 < cs * es * q) by (nonlinear_arith)
            requires
                cs * es * q <= limit,
                cm * es <= 0x7fff_ffff_ffff_ffff,
                em * cs <= 0x7fff_ffff_ffff_ffff,
                0 <= wca <= n * cm,
                0 <= wea <= n * em,
                0 <= n <= 0xffff_ffff_ffff_ffff,
                1 <= cs,
                1 <= es,
                1 <= q,
                0 <= cm,
                0 <= em,
        ;
    }
    let negative = wc * es > we * cs;
    let esq: i128 = es * q;
    let ghost bound_u = cm * es * q;
    let ghost bound_v = pp * em * cs;
    let mut acc: u128 = 0;
    let mut i: usize = 0;
    proof {
        assert(c.take(0) =~= Seq::<i64>::empty());
        assert(e.take(0) =~= Seq::<i64>::empty());
        assert(0 <= bound_u && 0 <= bound_v) by (nonlinear_arith)
            requires
                bound_u == cm * es * q,
                bound_v == pp * em * cs,
                0 <= cm,
                0 <= em,
                0 <= pp,
                1 <= cs,
                1 <= es,
                1 <= q,
        ;
        assert(weight(c.take(0)) * es * q + pp * weight(e.take(0)) * cs == 0) by (nonlinear_arith)
            requires
                weight(c.take(0)) == 0,
                weight(e.take(0)) == 0,
        ;
    }
    while i < n
        invariant
            i <= n,
            n == c.len(),
            n == e.len(),
            c == ctrl.parts@,
            e == exp.parts@,
            cm == weight(c),
            em == weight(e),
            limit == 0xffff_ffff_ffff_ffff,
            cs == ctrl.scale,
            es == exp.scale,
            p == factor.num,
            q == factor.den,
            pp == size(p as int),
            esq == es * q,
            1 <= cs,
            1 <= es,
            1 <= q,
            bound_u == cm * es * q,
            bound_v == pp * em * cs,
            0 <= bound_u,
            0 <= bound_v,
            bound_u + bound_v <= limit,
            acc == square_sum(c.take(i as int), e.take(i as int), cs as int, es as int, p as int, q as int),
            acc <= (weight(c.take(i as int)) * es * q + pp * weight(e.take(i as int)) * cs) * (
            weight(c.take(i as int)) * es * q + pp * weight(e.take(i as int)) * cs),
        decreases n - i,
    {
        let ci: i128 = ctrl.parts[i] as i128;
        let ei: i128 = exp.parts[i] as i128;
        let ghost tc = weight(c.take(i as int)) as int;
        let ghost te = weight(e.take(i as int)) as int;
        let ghost ca = size(ci as int) as int;
        let ghost ea = size(ei as int) as int;
        let ghost ua = ca * es * q;
        let ghost va = pp * ea * cs;
        proof {
            lemma_square_take(c, e, cs as int, es as int, p as int, q as int, i as int);
            lemma_total_take(c, i as int);
            lemma_total_take(e, i as int);
            lemma_weight_prefix(c, i + 1);
            lemma_weight_prefix(e, i + 1);
            lemma_product_size(ci as int, esq as int, ca, esq as int);
            lemma_product_size(p as int, ei as int, pp, ea);
            assert(ci * esq == ci * es * q && ca * esq == ua && 0 <= ua && (tc + ca) * es * q
                <= bound_u && (tc + ca) * es * q == tc * es * q + ua && 0 <= tc * es * q)
                by (nonlinear_arith)
                requires
                    esq == es * q,
                    ua == ca * es * q,
                    bound_u == cm * es * q,
                    0 <= ca,
                    0 <= tc,
                    tc + ca <= cm,
                    1 <= es,
                    1 <= q,
            ;
            assert(pp * ea <= va && 0 <= va && pp * (te + ea) * cs <= bound_v && pp * (te + ea)
                * cs == pp * te * cs + va && 0 <= pp * te * cs && 0 <= pp * ea) by (nonlinear_arith)
                requires
                    va == pp * ea * cs,
                    bound_v == pp * em * cs,
                    0 <= ea,
                    0 <= te,
                    te + ea <= em,
                    0 <= pp,
                    1 <= cs,
            ;
            lemma_product_size(p * ei, cs as int, pp * ea, cs as int);
            assert((pp * ea) * cs == va) by (nonlinear_arith)
                requires
                    va == pp * ea * cs,
            ;
        }
        let u: i128 = ci * esq;
        let v: i128 = p * ei * cs;
        let d: i128 = u - v;
        let m: u128 = if d >= 0 {
            d as u128
        } else {
            (-d) as u128
        };
        proof {
            let g = gap(ci as int, ei as int, cs as int, es as int, p as int, q as int);
            let s = tc * es * q + pp * te * cs;
            assert(g == u - v);
            assert(m * m == g * g && m * m <= limit * limit && s * s + m * m <= (s + ua + va) * (s
                + ua + va) && (s + ua + va) * (s + ua + va) <= limit * limit) by (nonlinear_arith)
                requires
                    g == u - v,
                    m == (if u - v >= 0 {
                        u - v
                    } else {
                        v - u
                    }),
                    -ua <= u <= ua,
                    -va <= v <= va,
                    0 <= ua,
                    0 <= va,
                    0 <= s,
                    s + ua + va <= limit,
                    0 <= limit,
            ;
            assert(s + ua + va == (tc + ca) * es * q + pp * (te + ea) * cs);
        }
        acc = acc + m * m;
        i += 1;
    }
    proof {
        assert(c.take(n as int) =~= c);
        assert(e.take(n as int) =~= e);
    }
    let base: u128 = (cs * es * q) as u128;
    proof {
        assert(base * base <= limit * limit && 0 < base * base) by (nonlinear_arith)
            requires
                0 < base <= limit,
        ;
    }
    Score { negative, num: acc, den: base * base }
}

/// The score of each profile of `exp` against `ctrl`, with the shares of each
/// scaled by `factor`; or the error, where one of them has another number of
/// bins than `ctrl`.
pub fn hist_square_diff(exp: &[Profile], ctrl: &Profile, factor: &Ratio) -> (out: Result<
    Vec<Score>,
    ShapeError,
>)
    requires
        ctrl.wf(),
        factor.wf(),
        forall|w: int| 0 <= w < exp.len() ==> (#[trigger] exp[w]).wf(),
        forall|w: int|
            0 <= w < exp.len() && exp[w].parts@.len() == ctrl.parts@.len() ==> score_fits(
                ctrl,
                #[trigger] &exp[w],
                factor,
            ),
    ensures
        out is Err <==> exists|w: int|
            0 <= w < exp.len() && (#[trigger] exp[w]).parts@.len() != ctrl.parts@.len(),
        out is Ok ==> out->Ok_0.len() == exp.len(),
        out is Ok ==> forall|w: int|
            0 <= w < exp.len() ==> is_score(#[trigger] out->Ok_0[w], ctrl, &exp[w], factor),
{
    let mut w: usize = 0;
    while w < exp.len()
        invariant
            w <= exp.len(),
            forall|j: int| 0 <= j < w ==> (#[trigger] exp[j]).parts@.len() == ctrl.parts@.len(),
        decreases exp.len() - w,
    {
        if exp[w].parts.len() != ctrl.parts.len() {
            return Err(ShapeError::Mismatch);
        }
        w += 1;
    }
    let mut scores: Vec<Score> = Vec::new();
    let mut w: usize = 0;
    while w < exp.len()
        invariant
            w <= exp.len(),
            ctrl.wf(),
            factor.wf(),
            scores.len() == w,
            forall|j: int| 0 <= j < exp.len() ==> (#[trigger] exp[j]).wf(),
            forall|j: int|
                0 <= j < exp.len() ==> (#[trigger] exp[j]).parts@.len() == ctrl.parts@.len(),
            forall|j: int|
                0 <= j < exp.len() && exp[j].parts@.len() == ctrl.parts@.len() ==> score_fits(
                    ctrl,
                    #[trigger] &exp[j],
                    factor,
                ),
            forall|j: int| 0 <= j < w ==> is_score(#[trigger] scores[j], ctrl, &exp[j], factor),
        decreases exp.len() - w,
    {
        assert(score_fits(ctrl, &exp[w as int], factor));
        scores.push(square_diff(ctrl, &exp[w], factor));
        w += 1;
    }
    Ok(scores)
}

} // verus!
