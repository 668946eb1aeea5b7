//! Fixed-bin histograms over one range of measurements.
//!
//! A histogram knows a measured value by its key (see `keys`): comparing two
//! keys compares the values they stand for. Which bin of the range a value
//! falls into is a matter of arithmetic on the values themselves, which is
//! left to the reader of the values: a reading brings the number of whole bin
//! widths between the low end of the range and the value along with it.

use crate::keys::{finite_key, is_finite_pattern, key_of};
use crate::profile::{
    exponential_smoothing, lemma_product_size, lemma_total_push, lemma_total_raise,
    lemma_total_take, lemma_weight_entry, lemma_weight_prefix, normalize, size, total, weight,
    Profile, Ratio,
};
use vstd::prelude::*;

verus! {

/// The range of one feature, as the keys of its least and greatest value.
#[derive(Clone, Copy, Debug)]
pub struct MinMax {
    pub xlow: i64,
    pub xhigh: i64,
}

/// One measurement on its way into a histogram: the key of its value, and the
/// number of whole bin widths that the caller counted from the low end of the
/// range up to the value.
#[derive(Clone, Copy, Debug)]
pub struct Reading {
    pub value: i64,
    pub offset: usize,
}

/// One measurement as it is read: the bit pattern of its value, and the number
/// of whole bin widths that the reader counted from the low end of the range up
/// to the value.
#[derive(Clone, Copy, Debug)]
pub struct Measure {
    pub bits: u64,
    pub offset: usize,
}

/// The reading that a measurement gives: none where nothing was measured, and
/// none where the value is not finite.
pub open spec fn reading_of(measure: Option<Measure>) -> Option<Reading> {
    match measure {
        None => None,
        Some(m) => if is_finite_pattern(m.bits) {
            Some(Reading { value: key_of(m.bits) as i64, offset: m.offset })
        } else {
            None
        },
    }
}

/// The reading that a measurement gives.
pub fn read(measure: &Option<Measure>) -> (out: Option<Reading>)
    ensures
        out == reading_of(*measure),
{
    match measure {
        None => None,
        Some(m) => match finite_key(m.bits) {
            Some(value) => Some(Reading { value, offset: m.offset }),
            None => None,
        },
    }
}

/// A histogram of `nbins` bins of equal width over the range from `xlow` to
/// `xhigh`.
#[derive(Debug)]
pub struct Hist1D {
    nbins: usize,
    xlow: i64,
    xhigh: i64,
    counts: Profile,
}

/// What a histogram holds.
pub struct HistView {
    pub nbins: nat,
    pub xlow: int,
    pub xhigh: int,
    pub counts: Seq<i64>,
    pub scale: nat,
}

/// The bin that takes a reading, if any does. A value from `xlow` up to, but
/// not at, `xhigh` goes to the bin that its offset names, and to the last bin
/// where the offset names none; the value `xhigh` itself goes to the last bin;
/// every other value, and a reading that is missing, goes nowhere.
pub open spec fn slot_of(nbins: nat, xlow: int, xhigh: int, reading: Option<Reading>) -> Option<
    int,
> {
    match reading {
        None => None,
        Some(r) => if nbins == 0 {
            None
        } else if xlow <= r.value < xhigh {
            if r.offset < nbins {
                Some(r.offset as int)
            } else {
                Some(nbins - 1)
            }
        } else if r.value == xhigh {
            Some(nbins - 1)
        } else {
            None
        },
    }
}

/// How many of the readings `data` go to bin `bin`.
pub open spec fn hits(
    nbins: nat,
    xlow: int,
    xhigh: int,
    data: Seq<Option<Reading>>,
    bin: int,
) -> nat
    decreases data.len(),
{
    if data.len() == 0 {
        0
    } else {
        hits(nbins, xlow, xhigh, data.drop_last(), bin) + (if slot_of(
            nbins,
            xlow,
            xhigh,
            data.last(),
        ) == Some(bin) {
            1nat
        } else {
            0nat
        })
    }
}

/// How many of the readings `data` go to any bin.
pub open spec fn placed(nbins: nat, xlow: int, xhigh: int, data: Seq<Option<Reading>>) -> nat
    decreases data.len(),
{
    if data.len() == 0 {
        0
    } else {
        placed(nbins, xlow, xhigh, data.drop_last()) + (if slot_of(
            nbins,
            xlow,
            xhigh,
            data.last(),
        ) is Some {
            1nat
        } else {
            0nat
        })
    }
}

/// No more readings are placed than there are.
pub proof fn lemma_placed_bound(nbins: nat, xlow: int, xhigh: int, data: Seq<Option<Reading>>)
    ensures
        placed(nbins, xlow, xhigh, data) <= data.len(),
    decreases data.len(),
{
    if data.len() > 0 {
        lemma_placed_bound(nbins, xlow, xhigh, data.drop_last());
    }
}

/// What the reading at `i` adds to the count of a bin.
pub proof fn lemma_hits_remove(
    nbins: nat,
    xlow: int,
    xhigh: int,
    data: Seq<Option<Reading>>,
    i: int,
    bin: int,
)
    requires
        0 <= i < data.len(),
    ensures
        hits(nbins, xlow, xhigh, data, bin) == hits(nbins, xlow, xhigh, data.remove(i), bin) + (
        if slot_of(nbins, xlow, xhigh, data[i]) == Some(bin) {
            1nat
        } else {
            0nat
        }),
    decreases data.len(),
{
    if i == data.len() - 1 {
        assert(data.remove(i) =~= data.drop_last());
    } else {
        lemma_hits_remove(nbins, xlow, xhigh, data.drop_last(), i, bin);
        assert(data.remove(i).drop_last() =~= data.drop_last().remove(i));
        assert(data.remove(i).last() == data.last());
    }
}

/// Order independence of filling: the count that readings add to a bin does
/// not depend on their order.
pub proof fn lemma_hits_permuted(
    nbins: nat,
    xlow: int,
    xhigh: int,
    a: Seq<Option<Reading>>,
    b: Seq<Option<Reading>>,
    bin: int,
)
    requires
        a.to_multiset() == b.to_multiset(),
    ensures
        hits(nbins, xlow, xhigh, a, bin) == hits(nbins, xlow, xhigh, b, bin),
    decreases a.len(),
{
    vstd::seq_lib::to_multiset_len(a);
    vstd::seq_lib::to_multiset_len(b);
    if b.len() > 0 {
        let x = b.last();
        assert(b[b.len() - 1] == x);
        assert(b.contains(x));
        vstd::seq_lib::to_multiset_contains(b, x);
        vstd::seq_lib::to_multiset_contains(a, x);
        let i = choose|i: int| 0 <= i < a.len() && a[i] == x;
        assert(b.remove(b.len() - 1) =~= b.drop_last());
        vstd::seq_lib::to_multiset_remove(a, i);
        vstd::seq_lib::to_multiset_remove(b, b.len() - 1);
        assert(a.remove(i).to_multiset() =~= b.drop_last().to_multiset());
        lemma_hits_permuted(nbins, xlow, xhigh, a.remove(i), b.drop_last(), bin);
        lemma_hits_remove(nbins, xlow, xhigh, a, i, bin);
    }
}

impl View for Hist1D {
    type V = HistView;

    closed spec fn view(&self) -> HistView {
        HistView {
            nbins: self.nbins as nat,
            xlow: self.xlow as int,
            xhigh: self.xhigh as int,
            counts: self.counts.parts@,
            scale: self.counts.scale as nat,
        }
    }
}

impl HistView {
    /// There is one count for each bin, the counts weigh within `i64`, and the
    /// denominator is not zero.
    pub open spec fn wf(&self) -> bool {
        &&& self.counts.len() == self.nbins
        &&& self.scale > 0
        &&& self.scale <= u64::MAX
        &&& weight(self.counts) <= i64::MAX
    }

    /// Whether two histograms have the same bins over the same range.
    pub open spec fn same_frame(&self, other: HistView) -> bool {
        &&& self.nbins == other.nbins
        &&& self.xlow == other.xlow
        &&& self.xhigh == other.xhigh
    }

    /// The sum of the numerators of all bins.
    pub open spec fn mass(&self) -> int {
        total(self.counts)
    }

    /// The sum of the sizes of the numerators of all bins.
    pub open spec fn heft(&self) -> nat {
        weight(self.counts)
    }
}

impl Hist1D {
    /// Whether the histogram is well formed.
    pub closed spec fn wf(&self) -> bool {
        &&& self.counts.parts@.len() == self.nbins
        &&& self.counts.wf()
    }

    /// A well-formed histogram has a well-formed view.
    pub broadcast proof fn lemma_wf_view(&self)
        ensures
            #[trigger] self.wf() <==> self@.wf(),
    {
    }

    /// An empty histogram of `nbins` bins over the range from `xlow` to `xhigh`:
    /// every bin counts zero.
    pub fn new(nbins: usize, xlow: i64, xhigh: i64) -> (out: Hist1D)
        ensures
            out.wf(),
            out@.nbins == nbins,
            out@.xlow == xlow,
            out@.xhigh == xhigh,
            out@.scale == 1,
            out@.counts == Seq::new(nbins as nat, |i: int| 0i64),
            out@.mass() == 0,
            out@.heft() == 0,
    {
        let counts = Profile::zeros(nbins);
        assert(counts.parts@ =~= Seq::new(nbins as nat, |i: int| 0i64));
        Hist1D { nbins, xlow, xhigh, counts }
    }

    /// The number of bins.
    pub fn nbins(&self) -> (out: usize)
        ensures
            out == self@.nbins,
    {
        self.nbins
    }

    /// The key of the low end of the range.
    pub fn xlow(&self) -> (out: i64)
        ensures
            out == self@.xlow,
    {
        self.xlow
    }

    /// The key of the high end of the range.
    pub fn xhigh(&self) -> (out: i64)
        ensures
            out == self@.xhigh,
    {
        self.xhigh
    }

    /// The bin weights.
    pub fn data(&self) -> (out: &Profile)
        ensures
            out.parts@ == self@.counts,
            out.scale == self@.scale,
            self.wf() ==> out.wf(),
    {
        &self.counts
    }

    /// A copy of the histogram.
    pub fn duplicate(&self) -> (out: Hist1D)
        ensures
            out@ == self@,
            out.wf() == self.wf(),
    {
        Hist1D {
            nbins: self.nbins,
            xlow: self.xlow,
            xhigh: self.xhigh,
            counts: self.counts.duplicate(),
        }
    }

    /// The bin that takes `reading`, if any does.
    pub fn locate(&self, reading: &Option<Reading>) -> (out: Option<usize>)
        ensures
            match out {
                Some(b) => slot_of(self@.nbins, self@.xlow, self@.xhigh, *reading) == Some(b as int),
                None => slot_of(self@.nbins, self@.xlow, self@.xhigh, *reading) is None,
            },
            out is Some ==> out->0 < self@.nbins,
    {
        match reading {
            None => None,
            Some(r) => {
                if self.nbins == 0 {
                    None
                } else if self.xlow <= r.value && r.value < self.xhigh {
                    if r.offset < self.nbins {
                        Some(r.offset)
                    } else {
                        Some(self.nbins - 1)
                    }
                } else if r.value == self.xhigh {
                    Some(self.nbins - 1)
                } else {
                    None
                }
            },
        }
    }

    /// Counts `reading` in the bin that takes it, as one whole; a reading that
    /// no bin takes changes nothing.
    pub fn deposit(&mut self, reading: &Option<Reading>)
        requires
            old(self).wf(),
            old(self)@.heft() + old(self)@.scale <= i64::MAX,
        ensures
            final(self).wf(),
            final(self)@.same_frame(old(self)@),
            final(self)@.scale == old(self)@.scale,
            final(self)@.counts.len() == old(self)@.counts.len(),
            forall|b: int|
                0 <= b < old(self)@.nbins ==> #[trigger] final(self)@.counts[b] == old(
                    self,
                )@.counts[b] + (if slot_of(
                    old(self)@.nbins,
                    old(self)@.xlow,
                    old(self)@.xhigh,
                    *reading,
                ) == Some(b) {
                    old(self)@.scale
                } else {
                    0
                }),
            final(self)@.mass() == old(self)@.mass() + (if slot_of(
                old(self)@.nbins,
                old(self)@.xlow,
                old(self)@.xhigh,
                *reading,
            ) is Some {
                old(self)@.scale
            } else {
                0
            }),
            final(self)@.heft() <= old(self)@.heft() + (if slot_of(
                old(self)@.nbins,
                old(self)@.xlow,
                old(self)@.xhigh,
                *reading,
            ) is Some {
                old(self)@.scale
            } else {
                0
            }),
    {
        let scale: u64 = self.counts.scale;
        match self.locate(reading) {
            Some(b) => {
                let old_count: i64 = self.counts.parts[b];
                proof {
                    lemma_weight_entry(self.counts.parts@, b as int);
                    lemma_total_raise(
                        self.counts.parts@,
                        b as int,
                        (old_count + scale) as i64,
                    );
                }
                self.counts.parts.set(b, old_count + scale as i64);
            },
            None => {},
        }
    }

    /// Counts each reading of `data` in the bin that takes it, as one whole;
    /// a reading that no bin takes changes nothing.
    pub fn fill(&mut self, data: &[Option<Reading>])
        requires
            old(self).wf(),
            old(self)@.heft() + old(self)@.scale * data.len() <= i64::MAX,
        ensures
            final(self).wf(),
            final(self)@.same_frame(old(self)@),
            final(self)@.scale == old(self)@.scale,
            final(self)@.counts.len() == old(self)@.counts.len(),
            forall|b: int|
                0 <= b < old(self)@.nbins ==> #[trigger] final(self)@.counts[b] == old(
                    self,
                )@.counts[b] + old(self)@.scale * hits(
                    old(self)@.nbins,
                    old(self)@.xlow,
                    old(self)@.xhigh,
                    data@,
                    b,
                ),
            final(self)@.mass() == old(self)@.mass() + old(self)@.scale * placed(
                old(self)@.nbins,
                old(self)@.xlow,
                old(self)@.xhigh,
                data@,
            ),
            final(self)@.heft() <= old(self)@.heft() + old(self)@.scale * placed(
                old(self)@.nbins,
                old(self)@.xlow,
                old(self)@.xhigh,
                data@,
            ),
    {
        let ghost before = self@;
        let ghost n = before.nbins;
        let ghost lo = before.xlow;
        let ghost hi = before.xhigh;
        let scale: u64 = self.counts.scale;
        let mut i: usize = 0;
        assert(scale * 0 == 0);
        while i < data.len()
            invariant
                i <= data.len(),
                self.wf(),
                self@.same_frame(before),
                self@.scale == before.scale,
                scale == before.scale,
                n == before.nbins,
                lo == before.xlow,
                hi == before.xhigh,
                before.counts.len() == n,
                self@.counts.len() == n,
                before.heft() + before.scale * data.len() <= i64::MAX,
                forall|b: int|
                    0 <= b < n ==> #[trigger] self@.counts[b] == before.counts[b] + scale * hits(
                        n,
                        lo,
                        hi,
                        data@.take(i as int),
                        b,
                    ),
                self@.mass() == before.mass() + scale * placed(n, lo, hi, data@.take(i as int)),
                self@.heft() <= before.heft() + scale * placed(n, lo, hi, data@.take(i as int)),
            decreases data.len() - i,
        {
            let ghost seen = data@.take(i as int);
            let ghost next = data@.take(i + 1);
            proof {
                assert(next.drop_last() =~= seen);
                assert(next.last() == data@[i as int]);
                lemma_placed_bound(n, lo, hi, seen);
            }
            proof {
                assert(scale * (placed(n, lo, hi, seen) + 1) == scale * placed(n, lo, hi, seen)
                    + scale) by (nonlinear_arith);
                assert(scale * (placed(n, lo, hi, seen) + 1) <= scale * data.len())
                    by (nonlinear_arith)
                    requires
                        placed(n, lo, hi, seen) + 1 <= data.len(),
                ;
                assert forall|b: int| 0 <= b < n implies scale * (hits(n, lo, hi, seen, b) + 1)
                    == scale * #[trigger] hits(n, lo, hi, seen, b) + scale by {
                    assert(scale * (hits(n, lo, hi, seen, b) + 1) == scale * hits(
                        n,
                        lo,
                        hi,
                        seen,
                        b,
                    ) + scale) by (nonlinear_arith);
                }
            }
            self.deposit(&data[i]);
            i += 1;
        }
        assert(data@.take(i as int) =~= data@);
    }

    /// Adds the weights of `other`, bin by bin. The sum stands over the product
    /// of the two denominators.
    pub fn add(&mut self, other: &Hist1D)
        requires
            old(self).wf(),
            other.wf(),
            old(self)@.same_frame(other@),
            old(self)@.scale * other@.scale <= u64::MAX,
            old(self)@.heft() * other@.scale + other@.heft() * old(self)@.scale <= i64::MAX,
        ensures
            final(self).wf(),
            final(self)@.same_frame(old(self)@),
            final(self)@.scale == old(self)@.scale * other@.scale,
            final(self)@.counts.len() == old(self)@.counts.len(),
            forall|b: int|
                0 <= b < old(self)@.nbins ==> #[trigger] final(self)@.counts[b] == old(
                    self,
                )@.counts[b] * other@.scale + other@.counts[b] * old(self)@.scale,
            final(self)@.mass() == old(self)@.mass() * other@.scale + other@.mass() * old(
                self,
            )@.scale,
            final(self)@.heft() <= old(self)@.heft() * other@.scale + other@.heft() * old(
                self,
            )@.scale,
    {
        let ghost before = self@;
        let ghost mine = self.counts.parts@;
        let ghost theirs = other.counts.parts@;
        let s1: u64 = self.counts.scale;
        let s2: u64 = other.counts.scale;
        assert(0 < s1 * s2) by (nonlinear_arith)
            requires
                s1 > 0,
                s2 > 0,
        ;
        let n = self.nbins;
        let mut parts: Vec<i64> = Vec::new();
        let mut i: usize = 0;
        assert(mine.take(0) =~= Seq::<i64>::empty());
        assert(theirs.take(0) =~= Seq::<i64>::empty());
        assert(total(mine.take(0)) * s2 + total(theirs.take(0)) * s1 == 0 && weight(mine.take(0))
            * s2 + weight(theirs.take(0)) * s1 == 0) by (nonlinear_arith)
            requires
                total(mine.take(0)) == 0,
                total(theirs.take(0)) == 0,
                weight(mine.take(0)) == 0,
                weight(theirs.take(0)) == 0,
        ;
        while i < n
            invariant
                i <= n,
                n == mine.len(),
                n == theirs.len(),
                mine == self.counts.parts@,
                theirs == other.counts.parts@,
                s1 > 0,
                s2 > 0,
                weight(mine) * s2 + weight(theirs) * s1 <= i64::MAX,
                parts.len() == i,
                forall|b: int| 0 <= b < i ==> #[trigger] parts@[b] == mine[b] * s2 + theirs[b] * s1,
                total(parts@) == total(mine.take(i as int)) * s2 + total(theirs.take(i as int))
                    * s1,
                weight(parts@) <= weight(mine.take(i as int)) * s2 + weight(theirs.take(i as int))
                    * s1,
            decreases n - i,
        {
            let c1: i128 = self.counts.parts[i] as i128;
            let c2: i128 = other.counts.parts[i] as i128;
            proof {
                lemma_total_take(mine, i as int);
                lemma_total_take(theirs, i as int);
                lemma_weight_prefix(mine, i + 1);
                lemma_weight_prefix(theirs, i + 1);
                let t1 = total(mine.take(i as int));
                let t2 = total(theirs.take(i as int));
                let h1 = weight(mine.take(i as int)) as int;
                let h2 = weight(theirs.take(i as int)) as int;
                let w1 = weight(mine) as int;
                let w2 = weight(theirs) as int;
                let a1 = size(c1 as int) as int;
                let a2 = size(c2 as int) as int;
                lemma_product_size(c1 as int, s2 as int, a1, s2 as int);
                lemma_product_size(c2 as int, s1 as int, a2, s1 as int);
                assert((t1 + c1) * s2 + (t2 + c2) * s1 == t1 * s2 + t2 * s1 + (c1 * s2 + c2 * s1)
                    && (h1 + a1) * s2 + (h2 + a2) * s1 == h1 * s2 + h2 * s1 + (a1 * s2 + a2 * s1)
                    && 0 <= a1 * s2 <= a1 * s2 + a2 * s1 && 0 <= a2 * s1 && (h1 + a1) * s2 + (h2
                    + a2) * s1 <= w1 * s2 + w2 * s1 && 0 <= h1 * s2 + h2 * s1) by (nonlinear_arith)
                    requires
                        0 <= h1,
                        0 <= h2,
                        0 <= a1,
                        0 <= a2,
                        h1 + a1 <= w1,
                        h2 + a2 <= w2,
                        0 < s1,
                        0 < s2,
                ;
            }
            let v: i128 = c1 * (s2 as i128) + c2 * (s1 as i128);
            let part: i64 = v as i64;
            proof {
                lemma_total_push(parts@, part);
            }
            parts.push(part);
            i += 1;
        }
        assert(mine.take(i as int) =~= mine);
        assert(theirs.take(i as int) =~= theirs);
        self.counts = Profile { parts, scale: s1 * s2 };
    }

    /// Smooths the bins with the weight `alpha`, whatever its size and sign:
    /// each bin moves towards each neighbour that it has by `alpha` times their
    /// difference.
    pub fn smooth(&mut self, alpha: Ratio)
        requires
            old(self).wf(),
            alpha.wf(),
            (alpha.den + 4 * size(alpha.num as int)) * old(self)@.heft() <= i64::MAX,
            alpha.den * old(self)@.scale <= u64::MAX,
        ensures
            final(self).wf(),
            final(self)@.same_frame(old(self)@),
            final(self)@.scale == old(self)@.scale * alpha.den,
            final(self)@.counts.len() == old(self)@.counts.len(),
            forall|b: int|
                0 <= b < old(self)@.nbins ==> #[trigger] final(self)@.counts[b]
                    == crate::profile::smooth_at(
                    old(self)@.counts,
                    alpha.num as int,
                    alpha.den as int,
                    b,
                ),
            final(self)@.mass() == alpha.den * old(self)@.mass(),
            final(self)@.heft() <= (alpha.den + 4 * size(alpha.num as int)) * old(self)@.heft(),
    {
        let smoothed = exponential_smoothing(&self.counts, &alpha);
        self.counts = smoothed;
    }

    /// Turns the bin weights into shares of their sum. Where the sum is zero
    /// every bin is set to zero.
    pub fn normalize(&mut self)
        requires
            old(self).wf(),
        ensures
            final(self).wf(),
            final(self)@.same_frame(old(self)@),
            final(self)@.counts == crate::profile::share_parts(old(self)@.counts),
            final(self)@.heft() <= old(self)@.heft(),
            final(self)@.scale == crate::profile::share_scale(
                old(self)@.counts,
                old(self)@.scale as int,
            ),
            old(self)@.mass() == 0 ==> crate::profile::all_zero(final(self)@.counts),
    {
        let shares = normalize(&self.counts);
        self.counts = shares;
    }
}

} // verus!
