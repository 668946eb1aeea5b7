//! Scoring: for each group, the control profile of each feature, and the score
//! of every other well of the group against it.

use crate::accumulate::{
    accumulated, frames_of, plan_of, row_views, Accumulator,
    CalcError, Plan, Row, RowView,
};
use crate::columns::all_present;
use crate::ranges::MinMaxPlateResult;
use crate::columns::{first_index, texts};
use crate::columns::{contains_name, lemma_take_contains, position};
use crate::groups::{in_group, named_at};
use crate::groups::{block_texts, definition_texts, groups_of, resolve_groups};
use crate::text::push_char;
use crate::wells::{canonical_all, canonical_well, clean_well_names};
use crate::histograms::{Hist1D, HistView};
use crate::profile::{
    exponential_smoothing, lemma_plain_weight, lemma_total_within, no_negative, normalize,
    share_parts, share_scale, smooth_at, total, weight, Profile, Ratio,
};
use crate::score::{score_fits, score_view, square_diff, Score};
use crate::table::{merged_well, overlaid, ResultTable, ScoreRow};
use vstd::prelude::*;

verus! {

/// The number of observations that a histogram has to stay under to take part
/// in scoring.
pub const MASS_LIMIT: i64 = 0x2000_0000;

/// The name under which no well is scored.
pub open spec fn reserved_name() -> Seq<char> {
    seq!['C', 'N', 'T', 'R', 'L']
}

/// Whether the control well `c` adds to the control of `group`: it has
/// histograms and is of the group.
pub open spec fn contributes(
    state: Map<Seq<char>, Seq<HistView>>,
    group: Seq<Seq<char>>,
    c: Seq<char>,
) -> bool {
    state.contains_key(c) && in_group(group, c)
}

/// Whether any control well adds to the control of `group`.
pub open spec fn has_control(
    state: Map<Seq<char>, Seq<HistView>>,
    group: Seq<Seq<char>>,
    controls: Seq<Seq<char>>,
) -> bool {
    exists|k: int| 0 <= k < controls.len() && contributes(state, group, #[trigger] controls[k])
}

/// The count in bin `bin` of the control histogram at `slot`: the sum of the
/// counts of the control wells that add to it, each as often as it is listed.
pub open spec fn control_count(
    state: Map<Seq<char>, Seq<HistView>>,
    group: Seq<Seq<char>>,
    controls: Seq<Seq<char>>,
    slot: int,
    bin: int,
) -> int
    decreases controls.len(),
{
    if controls.len() == 0 {
        0
    } else {
        control_count(state, group, controls.drop_last(), slot, bin) + (if contributes(
            state,
            group,
            controls.last(),
        ) {
            state[controls.last()][slot].counts[bin] as int
        } else {
            0int
        })
    }
}

/// The number of observations in the control histogram at `slot`.
pub open spec fn control_mass(
    state: Map<Seq<char>, Seq<HistView>>,
    group: Seq<Seq<char>>,
    controls: Seq<Seq<char>>,
    slot: int,
) -> int
    decreases controls.len(),
{
    if controls.len() == 0 {
        0
    } else {
        control_mass(state, group, controls.drop_last(), slot) + (if contributes(
            state,
            group,
            controls.last(),
        ) {
            total(state[controls.last()][slot].counts)
        } else {
            0int
        })
    }
}

/// The counts of the control histogram at `slot`.
pub open spec fn control_row(
    state: Map<Seq<char>, Seq<HistView>>,
    group: Seq<Seq<char>>,
    controls: Seq<Seq<char>>,
    nbins: nat,
    slot: int,
) -> Seq<i64> {
    Seq::new(nbins, |b: int| control_count(state, group, controls, slot, b) as i64)
}

/// Whether `well` is scored in `group`: it has histograms, is of the group,
/// and does not bear the reserved name.
pub open spec fn scored(
    state: Map<Seq<char>, Seq<HistView>>,
    group: Seq<Seq<char>>,
    well: Seq<char>,
) -> bool {
    state.contains_key(well) && in_group(group, well) && well != reserved_name()
}

/// Whether every histogram that takes part in the scoring of `group` stays
/// under the limit.
pub open spec fn within_limit(
    state: Map<Seq<char>, Seq<HistView>>,
    group: Seq<Seq<char>>,
    controls: Seq<Seq<char>>,
    slots: int,
) -> bool {
    has_control(state, group, controls) ==> {
        &&& forall|s: int|
            0 <= s < slots ==> #[trigger] control_mass(state, group, controls, s) < MASS_LIMIT
        &&& forall|w: Seq<char>, s: int|
            scored(state, group, w) && 0 <= s < slots ==> total(
                (#[trigger] state[w][s]).counts,
            ) < MASS_LIMIT
    }
}

/// The numerators of counts smoothed with the weight one quarter, over the
/// denominator 4.
pub open spec fn quartered(counts: Seq<i64>) -> Seq<i64> {
    Seq::new(counts.len(), |i: int| smooth_at(counts, 1, 4, i) as i64)
}

/// The numerators of counts smoothed with the weight one quarter and taken as
/// shares of their sum, over the denominator of `refined_scale`.
pub open spec fn refined_parts(counts: Seq<i64>) -> Seq<i64> {
    share_parts(quartered(counts))
}

/// The denominator that turns the smoothed numerators into shares of their
/// sum.
pub open spec fn refined_scale(counts: Seq<i64>) -> int {
    share_scale(quartered(counts), 4)
}

/// The score of a well against the control, both smoothed with the weight one
/// quarter and then taken as shares.
pub open spec fn well_score(control: Seq<i64>, well: Seq<i64>) -> Score {
    score_view(
        refined_parts(control),
        refined_scale(control),
        refined_parts(well),
        refined_scale(well),
        1,
        1,
    )
}

/// The place of the histogram that belongs to the feature name `name`.
pub open spec fn slot_named(features: Seq<Seq<char>>, name: Seq<char>) -> int {
    first_index(features, name)->0
}

/// The scores of one well: under each feature name, the score of its
/// histogram against the control histogram of that feature.
pub open spec fn well_scores(
    features: Seq<Seq<char>>,
    controls: Seq<Seq<i64>>,
    hists: Seq<HistView>,
) -> Map<Seq<char>, Score> {
    Map::new(
        |f: Seq<char>| features.contains(f),
        |f: Seq<char>|
            well_score(controls[slot_named(features, f)], hists[slot_named(features, f)].counts),
    )
}

/// The control counts of every slot.
pub open spec fn control_rows(
    state: Map<Seq<char>, Seq<HistView>>,
    group: Seq<Seq<char>>,
    controls: Seq<Seq<char>>,
    plan: Plan,
) -> Seq<Seq<i64>> {
    Seq::new(
        plan.features.len(),
        |s: int| control_row(state, group, controls, plan.nbins, s),
    )
}

/// The scores of one group: nothing where no control well adds to its
/// control, else the scores of each well that is scored in it.
pub open spec fn group_scores(
    state: Map<Seq<char>, Seq<HistView>>,
    group: Seq<Seq<char>>,
    controls: Seq<Seq<char>>,
    plan: Plan,
) -> Map<Seq<char>, Map<Seq<char>, Score>> {
    if has_control(state, group, controls) && plan.features.len() > 0 {
        Map::new(
            |w: Seq<char>| scored(state, group, w),
            |w: Seq<char>|
                well_scores(plan.features, control_rows(state, group, controls, plan), state[w]),
        )
    } else {
        Map::empty()
    }
}

/// The table after the scores `scores` of one group went into it: where a well
/// had a score under the same feature name, the new one takes its place.
pub open spec fn merged_group(
    table: Map<Seq<char>, Map<Seq<char>, Score>>,
    scores: Map<Seq<char>, Map<Seq<char>, Score>>,
) -> Map<Seq<char>, Map<Seq<char>, Score>> {
    Map::new(
        |w: Seq<char>| table.contains_key(w) || scores.contains_key(w),
        |w: Seq<char>|
            if scores.contains_key(w) {
                if table.contains_key(w) {
                    overlaid(table[w], scores[w])
                } else {
                    scores[w]
                }
            } else {
                table[w]
            },
    )
}

/// The table after the first `upto` groups were scored, one after the other.
pub open spec fn all_scores(
    state: Map<Seq<char>, Seq<HistView>>,
    groups: Seq<Seq<Seq<char>>>,
    controls: Seq<Seq<char>>,
    plan: Plan,
    upto: int,
) -> Map<Seq<char>, Map<Seq<char>, Score>>
    decreases upto,
{
    if upto <= 0 {
        Map::empty()
    } else {
        merged_group(
            all_scores(state, groups, controls, plan, upto - 1),
            group_scores(state, groups[upto - 1], controls, plan),
        )
    }
}

/// Counts smoothed with the weight one quarter and taken as shares.
fn refine(h: &Hist1D) -> (out: Profile)
    requires
        h.wf(),
        h@.scale == 1,
        no_negative(h@.counts),
        h@.mass() < MASS_LIMIT,
    ensures
        out.wf(),
        out.parts@ == refined_parts(h@.counts),
        out.scale == refined_scale(h@.counts),
        out.scale <= 4 * MASS_LIMIT,
        weight(out.parts@) <= 8 * MASS_LIMIT - 8,
{
    proof {
        lemma_plain_weight(h@.counts);
        assert(crate::profile::size(1) == 1);
        h.lemma_wf_view();
    }
    let quarter = Ratio { num: 1, den: 4 };
    assert((quarter.den + 4 * crate::profile::size(quarter.num as int)) * weight(h@.counts) == 8
        * weight(h@.counts)) by (nonlinear_arith)
        requires
            quarter.den == 4,
            crate::profile::size(quarter.num as int) == 1,
    ;
    let smoothed = exponential_smoothing(h.data(), &quarter);
    proof {
        assert(smoothed.parts@ =~= quartered(h@.counts));
        lemma_total_within(smoothed.parts@);
    }
    normalize(&smoothed)
}

/// Refined profiles are small enough for an exact score.
proof fn lemma_refined_fit(ctrl: &Profile, exp: &Profile, one: &Ratio)
    requires
        one.num == 1,
        one.den == 1,
        0 < ctrl.scale <= 4 * MASS_LIMIT,
        0 < exp.scale <= 4 * MASS_LIMIT,
        weight(ctrl.parts@) <= 8 * MASS_LIMIT - 8,
        weight(exp.parts@) <= 8 * MASS_LIMIT - 8,
    ensures
        score_fits(ctrl, exp, one),
{
    let cap: int = 4 * MASS_LIMIT;
    let room: int = 8 * MASS_LIMIT - 8;
    let cs = ctrl.scale as int;
    let es = exp.scale as int;
    let cm = weight(ctrl.parts@) as int;
    let em = weight(exp.parts@) as int;
    assert(cs * es * 1 <= cap * cap && cm * es * 1 + 1 * em * cs <= 2 * (room * cap) && em * cs
        <= room * cap && cm * es <= room * cap && 0 <= cm * es && 0 <= em * cs)
        by (nonlinear_arith)
        requires
            0 < cs <= cap,
            0 < es <= cap,
            0 <= cm <= room,
            0 <= em <= room,
    ;
    assert(2 * (room * cap) <= u64::MAX && room * cap <= i64::MAX && cap * cap <= u64::MAX)
        by (nonlinear_arith)
        requires
            cap == 0x8000_0000,
            room == 0xffff_fff8,
    ;
    assert(crate::profile::size(1) == 1);
}

/// What scoring needs of the plan.
pub(crate) struct Shape {
    pub features: Vec<String>,
    pub slots: Vec<usize>,
    pub frames: Vec<crate::histograms::MinMax>,
    pub nbins: usize,
}

impl Shape {
    pub(crate) open spec fn follows(&self, plan: Plan) -> bool {
        &&& plan.wf()
        &&& plan.features == texts(self.features@)
        &&& plan.slots == self.slots@.map_values(|i: usize| i as int)
        &&& forall|j: int|
            0 <= j < plan.features.len() ==> first_index(plan.features, plan.features[j]) == Some(
                #[trigger] plan.slots[j],
            )
        &&& plan.frames == self.frames@
        &&& plan.nbins == self.nbins
    }
}

/// Whether `drained` lists the wells of `state`, each once, with its
/// histograms.
pub(crate) open spec fn lists(
    drained: Seq<(String, Vec<Hist1D>)>,
    state: Map<Seq<char>, Seq<HistView>>,
) -> bool {
    &&& forall|i: int, j: int|
        0 <= i < j < drained.len() ==> (#[trigger] drained[i]).0@ != (#[trigger] drained[j]).0@
    &&& forall|i: int|
        0 <= i < drained.len() ==> state.contains_key((#[trigger] drained[i]).0@)
            && state[drained[i].0@] == crate::shared::views(drained[i].1@)
    &&& forall|well: Seq<char>| #[trigger]
        state.contains_key(well) ==> exists|i: int|
            0 <= i < drained.len() && (#[trigger] drained[i]).0@ == well
}

/// Whether every well of `state` has one histogram of the plan for each
/// feature.
pub(crate) open spec fn shaped(state: Map<Seq<char>, Seq<HistView>>, plan: Plan) -> bool {
    &&& forall|w: Seq<char>| #[trigger]
        state.contains_key(w) ==> state[w].len() == plan.features.len()
    &&& forall|w: Seq<char>, s: int|
        state.contains_key(w) && 0 <= s < plan.features.len() ==> plan.frames_at(
            #[trigger] state[w][s],
            s,
        ) && weight(state[w][s].counts) <= i64::MAX
}

/// Whether `hists` are histograms of the plan, one for each feature.
pub(crate) open spec fn framed(hists: Seq<Hist1D>, plan: Plan) -> bool {
    &&& hists.len() == plan.features.len()
    &&& forall|s: int|
        0 <= s < hists.len() ==> (#[trigger] hists[s]).wf() && plan.frames_at(hists[s]@, s)
}

proof fn lemma_control_take(
    state: Map<Seq<char>, Seq<HistView>>,
    group: Seq<Seq<char>>,
    controls: Seq<Seq<char>>,
    k: int,
    slot: int,
    bin: int,
)
    requires
        0 <= k < controls.len(),
    ensures
        control_count(state, group, controls.take(k + 1), slot, bin) == control_count(
            state,
            group,
            controls.take(k),
            slot,
            bin,
        ) + (if contributes(state, group, controls[k]) {
            state[controls[k]][slot].counts[bin] as int
        } else {
            0int
        }),
        control_mass(state, group, controls.take(k + 1), slot) == control_mass(
            state,
            group,
            controls.take(k),
            slot,
        ) + (if contributes(state, group, controls[k]) {
            total(state[controls[k]][slot].counts)
        } else {
            0int
        }),
{
    assert(controls.take(k + 1).drop_last() =~= controls.take(k));
}

proof fn lemma_control_mass_grows(
    state: Map<Seq<char>, Seq<HistView>>,
    group: Seq<Seq<char>>,
    controls: Seq<Seq<char>>,
    k: int,
    slot: int,
)
    requires
        0 <= k <= controls.len(),
        forall|l: int|
            0 <= l < controls.len() && contributes(state, group, #[trigger] controls[l]) ==> 0
                <= total(state[controls[l]][slot].counts),
    ensures
        control_mass(state, group, controls.take(k), slot) <= control_mass(
            state,
            group,
            controls,
            slot,
        ),
    decreases controls.len() - k,
{
    if k == controls.len() {
        assert(controls.take(k) =~= controls);
    } else {
        lemma_control_take(state, group, controls, k, slot, 0);
        lemma_control_mass_grows(state, group, controls, k + 1, slot);
    }
}

proof fn lemma_control_mass_rises(
    state: Map<Seq<char>, Seq<HistView>>,
    plan: Plan,
    group: Seq<Seq<char>>,
    controls: Seq<Seq<char>>,
    k: int,
    slot: int,
)
    requires
        0 <= k <= controls.len(),
        shaped(state, plan),
        0 <= slot < plan.features.len(),
    ensures
        control_mass(state, group, controls.take(k), slot) <= control_mass(
            state,
            group,
            controls,
            slot,
        ),
{
    assert forall|l: int|
        0 <= l < controls.len() && contributes(state, group, #[trigger] controls[l]) implies 0
        <= total(state[controls[l]][slot].counts) by {
        lemma_state_plain(state, plan, controls[l], slot);
    }
    lemma_control_mass_grows(state, group, controls, k, slot);
}

/// The histograms of a plate hold no negative count, so that the number of
/// observations of each is its weight.
proof fn lemma_state_plain(state: Map<Seq<char>, Seq<HistView>>, plan: Plan, well: Seq<char>, slot: int)
    requires
        shaped(state, plan),
        state.contains_key(well),
        0 <= slot < plan.features.len(),
    ensures
        0 <= total(state[well][slot].counts) == weight(state[well][slot].counts),
{
    assert(plan.frames_at(state[well][slot], slot));
    lemma_plain_weight(state[well][slot].counts);
}

/// Adds the histograms of one control well to the control, slot by slot,
/// unless a sum would reach the limit.
fn add_control(ctrl: &mut Vec<Hist1D>, entry: &Vec<Hist1D>, Ghost(plan): Ghost<Plan>) -> (ok: bool)
    requires
        framed(old(ctrl)@, plan),
        framed(entry@, plan),
        forall|s: int| 0 <= s < old(ctrl).len() ==> (#[trigger] old(ctrl)[s])@.mass() < MASS_LIMIT,
    ensures
        ok <==> forall|s: int|
            0 <= s < entry.len() ==> old(ctrl)[s]@.mass() + (#[trigger] entry[s])@.mass()
                < MASS_LIMIT,
        !ok ==> final(ctrl)@ == old(ctrl)@,
        ok ==> framed(final(ctrl)@, plan),
        ok ==> forall|s: int|
            0 <= s < entry.len() ==> (#[trigger] final(ctrl)[s])@.mass() == old(ctrl)[s]@.mass()
                + entry[s]@.mass(),
        ok ==> forall|s: int, b: int|
            0 <= s < entry.len() && 0 <= b < plan.nbins ==> (#[trigger] final(ctrl)[s]@.counts[b])
                == old(ctrl)[s]@.counts[b] + entry[s]@.counts[b],
{
    let n = entry.len();
    let mut s: usize = 0;
    while s < n
        invariant
            s <= n,
            n == entry.len(),
            n == ctrl.len(),
            ctrl@ == old(ctrl)@,
            framed(ctrl@, plan),
            framed(entry@, plan),
            forall|t: int| 0 <= t < n ==> (#[trigger] ctrl[t])@.mass() < MASS_LIMIT,
            forall|t: int| 0 <= t < s ==> ctrl[t]@.mass() + (#[trigger] entry[t])@.mass() < MASS_LIMIT,
        decreases n - s,
    {
        proof {
            ctrl[s as int].lemma_wf_view();
            entry[s as int].lemma_wf_view();
            assert(plan.frames_at(ctrl[s as int]@, s as int));
            assert(plan.frames_at(entry[s as int]@, s as int));
            lemma_plain_weight(ctrl[s as int]@.counts);
            lemma_plain_weight(entry[s as int]@.counts);
        }
        let mine = ctrl[s].data().sum();
        let theirs = entry[s].data().sum();
        if theirs >= MASS_LIMIT || mine + theirs >= MASS_LIMIT {
            return false;
        }
        s += 1;
    }
    let ghost before = ctrl@;
    let mut s: usize = 0;
    while s < n
        invariant
            s <= n,
            n == entry.len(),
            n == ctrl.len(),
            n == plan.features.len(),
            before == old(ctrl)@,
            framed(before, plan),
            framed(entry@, plan),
            forall|t: int| 0 <= t < n ==> before[t]@.mass() + (#[trigger] entry[t])@.mass() < MASS_LIMIT,
            forall|t: int| s <= t < n ==> #[trigger] ctrl[t] == before[t],
            forall|t: int|
                0 <= t < s ==> (#[trigger] ctrl[t]).wf() && plan.frames_at(ctrl[t]@, t)
                    && ctrl[t]@.mass() == before[t]@.mass() + entry[t]@.mass(),
            forall|t: int, b: int|
                0 <= t < s && 0 <= b < plan.nbins ==> (#[trigger] ctrl[t]@.counts[b])
                    == before[t]@.counts[b] + entry[t]@.counts[b],
        decreases n - s,
    {
        let ghost held = ctrl@;
        proof {
            assert(ctrl[s as int] == before[s as int]);
            assert(plan.frames_at(before[s as int]@, s as int));
            assert(plan.frames_at(entry[s as int]@, s as int));
            assert(before[s as int]@.mass() + entry[s as int]@.mass() < MASS_LIMIT);
            lemma_plain_weight(before[s as int]@.counts);
            lemma_plain_weight(entry[s as int]@.counts);
        }
        ctrl[s].add(&entry[s]);
        proof {
            assert(no_negative(ctrl[s as int]@.counts)) by {
                assert forall|b: int| 0 <= b < ctrl[s as int]@.counts.len() implies (
                #[trigger] ctrl[s as int]@.counts[b]) >= 0 by {
                    assert(before[s as int]@.counts[b] >= 0);
                    assert(entry[s as int]@.counts[b] >= 0);
                }
            }
            assert forall|t: int| s < t < n implies #[trigger] ctrl[t] == before[t] by {
                assert(ctrl[t] == held[t]);
            }
            assert forall|t: int| 0 <= t < s implies (#[trigger] ctrl[t]).wf() && plan.frames_at(
                ctrl[t]@,
                t,
            ) && ctrl[t]@.mass() == before[t]@.mass() + entry[t]@.mass() by {
                assert(ctrl[t] == held[t]);
            }
            assert forall|t: int, b: int| 0 <= t < s && 0 <= b < plan.nbins implies (
            #[trigger] ctrl[t]@.counts[b]) == before[t]@.counts[b] + entry[t]@.counts[b] by {
                assert(ctrl[t] == held[t]);
            }
        }
        s += 1;
    }
    true
}

/// The name of each listed well, in order.
pub(crate) open spec fn names_of(drained: Seq<(String, Vec<Hist1D>)>) -> Seq<Seq<char>> {
    Seq::new(drained.len(), |i: int| drained[i].0@)
}

/// Whether `select` holds the canonical forms of the names of `group`.
pub(crate) open spec fn selected(select: Seq<String>, group: Seq<Seq<char>>) -> bool {
    &&& select.len() == group.len()
    &&& forall|i: int| 0 <= i < select.len() ==> (#[trigger] select[i])@ == canonical_well(group[i])
}

/// Whether `well` is the canonical form of a name of `group`.
fn is_selected(select: &Vec<String>, well: &String, Ghost(group): Ghost<Seq<Seq<char>>>) -> (out:
    bool)
    requires
        selected(select@, group),
    ensures
        out == in_group(group, well@),
{
    let out = contains_name(select.as_slice(), well);
    proof {
        let all = texts(select@);
        if all.contains(well@) {
            let i = choose|i: int| 0 <= i < all.len() && all[i] == well@;
            assert(select@[i]@ == canonical_well(group[i]));
            assert(named_at(group, i, well@));
        }
        if in_group(group, well@) {
            let i = choose|i: int| named_at(group, i, well@);
            assert(all[i] == well@);
        }
    }
    out
}

/// The histograms of the well `name`, if it has any.
fn find_well<'a>(
    drained: &'a Vec<(String, Vec<Hist1D>)>,
    names: &Vec<String>,
    name: &String,
    Ghost(state): Ghost<Map<Seq<char>, Seq<HistView>>>,
    Ghost(plan): Ghost<Plan>,
) -> (out: Option<&'a Vec<Hist1D>>)
    requires
        lists(drained@, state),
        shaped(state, plan),
        texts(names@) == names_of(drained@),
    ensures
        out is Some <==> state.contains_key(name@),
        out is Some ==> framed(out->0@, plan) && crate::shared::views(out->0@) == state[name@],
{
    match position(names.as_slice(), name) {
        Some(e) => {
            proof {
                assert(texts(names@)[e as int] == drained@[e as int].0@);
                crate::columns::lemma_first_index_none(texts(names@), name@);
                let hists = drained@[e as int].1@;
                assert(crate::shared::views(hists) == state[name@]);
                assert forall|s: int| 0 <= s < hists.len() implies (#[trigger] hists[s]).wf()
                    && plan.frames_at(hists[s]@, s) by {
                    assert(crate::shared::views(hists)[s] == hists[s]@);
                    assert(plan.frames_at(state[name@][s], s));
                    hists[s].lemma_wf_view();
                }
            }
            Some(&drained[e].1)
        },
        None => {
            proof {
                if state.contains_key(name@) {
                    let i = choose|i: int|
                        0 <= i < drained.len() && (#[trigger] drained@[i]).0@ == name@;
                    assert(texts(names@)[i] == name@);
                }
            }
            None
        },
    }
}

/// The control histograms of one group: the sum, slot by slot, of the
/// histograms of the control wells that add to it. The first part of the result
/// is false where a sum reaches the limit.
fn build_control(
    shape: &Shape,
    drained: &Vec<(String, Vec<Hist1D>)>,
    names: &Vec<String>,
    select: &Vec<String>,
    controls: &Vec<String>,
    Ghost(state): Ghost<Map<Seq<char>, Seq<HistView>>>,
    Ghost(group): Ghost<Seq<Seq<char>>>,
    Ghost(plan): Ghost<Plan>,
) -> (out: (bool, Option<Vec<Hist1D>>))
    requires
        shape.follows(plan),
        lists(drained@, state),
        shaped(state, plan),
        texts(names@) == names_of(drained@),
        selected(select@, group),
    ensures
        !out.0 ==> has_control(state, group, texts(controls@)) && exists|s: int|
            0 <= s < plan.features.len() && #[trigger] control_mass(
                state,
                group,
                texts(controls@),
                s,
            ) >= MASS_LIMIT,
        out.0 ==> (out.1 is Some <==> has_control(state, group, texts(controls@))),
        out.0 ==> forall|s: int|
            0 <= s < plan.features.len() ==> #[trigger] control_mass(
                state,
                group,
                texts(controls@),
                s,
            ) < MASS_LIMIT,
        out.0 && out.1 is Some ==> {
            let ctrl = out.1->0;
            &&& framed(ctrl@, plan)
            &&& forall|s: int|
                0 <= s < ctrl.len() ==> (#[trigger] ctrl[s])@.mass() == control_mass(
                    state,
                    group,
                    texts(controls@),
                    s,
                )
            &&& forall|s: int, b: int|
                0 <= s < ctrl.len() && 0 <= b < plan.nbins ==> (#[trigger] ctrl[s]@.counts[b])
                    == control_count(state, group, texts(controls@), s, b)
        },
{
    let ghost cs = texts(controls@);
    let n = shape.features.len();
    let mut ctrl = zero_hists(&shape.frames, shape.nbins, Ghost(plan));
    let mut found = false;
    let mut k: usize = 0;
    proof {
        assert(cs.take(0) =~= Seq::<Seq<char>>::empty());
    }
    while k < controls.len()
        invariant
            k <= controls.len(),
            cs == texts(controls@),
            n == plan.features.len(),
            shape.follows(plan),
            lists(drained@, state),
            shaped(state, plan),
            texts(names@) == names_of(drained@),
            selected(select@, group),
            framed(ctrl@, plan),
            found <==> exists|l: int| 0 <= l < k && contributes(state, group, #[trigger] cs[l]),
            forall|s: int|
                0 <= s < n ==> (#[trigger] ctrl[s])@.mass() == control_mass(
                    state,
                    group,
                    cs.take(k as int),
                    s,
                ) && ctrl[s]@.mass() < MASS_LIMIT,
            forall|s: int, b: int|
                0 <= s < n && 0 <= b < plan.nbins ==> (#[trigger] ctrl[s]@.counts[b])
                    == control_count(state, group, cs.take(k as int), s, b),
        decreases controls.len() - k,
    {
        let ghost before = ctrl@;
        let name = &controls[k];
        assert(cs[k as int] == name@);
        let mut adds = false;
        proof {
            assert forall|s: int, b: int|
                control_count(state, group, cs.take(k + 1), s, b) == control_count(
                    state,
                    group,
                    cs.take(k as int),
                    s,
                    b,
                ) + (if contributes(state, group, cs[k as int]) {
                    state[cs[k as int]][s].counts[b] as int
                } else {
                    0int
                }) && control_mass(state, group, cs.take(k + 1), s) == control_mass(
                    state,
                    group,
                    cs.take(k as int),
                    s,
                ) + (if contributes(state, group, cs[k as int]) {
                    total(state[cs[k as int]][s].counts)
                } else {
                    0int
                }) by {
                lemma_control_take(state, group, cs, k as int, s, b);
            }
        }
        if is_selected(select, name, Ghost(group)) {
            match find_well(drained, names, name, Ghost(state), Ghost(plan)) {
                Some(entry) => {
                    assert(contributes(state, group, cs[k as int]));
                    proof {
                        assert forall|s: int| 0 <= s < n implies (#[trigger] entry[s])@
                            == state[name@][s] by {
                            assert(crate::shared::views(entry@)[s] == entry[s]@);
                        }
                    }
                    let ok = add_control(&mut ctrl, entry, Ghost(plan));
                    proof {
                        if ok {
                            assert forall|s: int| 0 <= s < n implies (#[trigger] ctrl[s])@.mass()
                                == before[s]@.mass() + total(state[cs[k as int]][s].counts) by {
                                assert(entry[s]@ == state[name@][s]);
                            }
                            assert forall|s: int, b: int|
                                0 <= s < n && 0 <= b < plan.nbins implies (
                            #[trigger] ctrl[s]@.counts[b]) == before[s]@.counts[b]
                                + state[cs[k as int]][s].counts[b] by {
                                assert(entry[s]@ == state[name@][s]);
                            }
                        }
                    }
                    if !ok {
                        proof {
                            let s = choose|s: int|
                                0 <= s < entry.len() && !(before[s]@.mass() + (
                                #[trigger] entry[s])@.mass() < MASS_LIMIT);
                            lemma_control_mass_rises(state, plan, group, cs, k + 1, s);
                            assert(control_mass(state, group, cs, s) >= MASS_LIMIT);
                        }
                        return (false, None);
                    }
                    adds = true;
                    found = true;
                },
                None => {},
            }
        }
        proof {
            assert(adds == contributes(state, group, cs[k as int]));
            if !adds {
                assert(ctrl@ == before);
            }
            assert forall|s: int| 0 <= s < n implies (#[trigger] ctrl[s])@.mass() == control_mass(
                state,
                group,
                cs.take(k + 1),
                s,
            ) && ctrl[s]@.mass() < MASS_LIMIT by {
                lemma_control_take(state, group, cs, k as int, s, 0);
                if adds {
                    assert(ctrl[s]@.mass() == before[s]@.mass() + total(
                        state[cs[k as int]][s].counts,
                    ));
                    lemma_control_mass_rises(state, plan, group, cs, k + 1, s);
                } else {
                    assert(ctrl[s] == before[s]);
                }
            }
            assert forall|s: int, b: int| 0 <= s < n && 0 <= b < plan.nbins implies (
            #[trigger] ctrl[s]@.counts[b]) == control_count(
                state,
                group,
                cs.take(k + 1),
                s,
                b,
            ) by {
                lemma_control_take(state, group, cs, k as int, s, b);
                if adds {
                    assert(ctrl[s]@.counts[b] == before[s]@.counts[b] + state[cs[k as int]][s].counts[b]);
                } else {
                    assert(ctrl[s] == before[s]);
                }
            }
            assert(found <==> exists|l: int|
                0 <= l < k + 1 && contributes(state, group, #[trigger] cs[l])) by {
                if found && !adds {
                    let l = choose|l: int| 0 <= l < k && contributes(state, group, #[trigger] cs[l]);
                    assert(0 <= l < k + 1 && contributes(state, group, cs[l]));
                }
                if exists|l: int| 0 <= l < k + 1 && contributes(state, group, #[trigger] cs[l]) {
                    let l = choose|l: int|
                        0 <= l < k + 1 && contributes(state, group, #[trigger] cs[l]);
                    if l < k {
                        assert(found);
                    }
                }
            }
        }
        k += 1;
    }
    proof {
        assert(cs.take(k as int) =~= cs);
        if found {
            let l = choose|l: int| 0 <= l < k && contributes(state, group, #[trigger] cs[l]);
            assert(has_control(state, group, cs));
        }
        assert forall|s: int| 0 <= s < n implies #[trigger] control_mass(state, group, cs, s)
            < MASS_LIMIT by {
            assert(ctrl[s]@.mass() == control_mass(state, group, cs, s));
        }
    }
    if found {
        (true, Some(ctrl))
    } else {
        (true, None)
    }
}

/// One empty histogram of the plan for each feature.
fn zero_hists(frames: &Vec<crate::histograms::MinMax>, nbins: usize, Ghost(plan): Ghost<Plan>) -> (out:
    Vec<Hist1D>)
    requires
        plan.frames == frames@,
        plan.nbins == nbins,
        plan.frames.len() == plan.features.len(),
    ensures
        framed(out@, plan),
        forall|s: int| 0 <= s < out.len() ==> (#[trigger] out[s])@.mass() == 0,
        forall|s: int, b: int|
            0 <= s < out.len() && 0 <= b < nbins ==> (#[trigger] out[s]@.counts[b]) == 0,
{
    let n = frames.len();
    let mut out: Vec<Hist1D> = Vec::new();
    let mut s: usize = 0;
    while s < n
        invariant
            s <= n,
            n == frames.len(),
            plan.frames == frames@,
            plan.nbins == nbins,
            out.len() == s,
            forall|t: int|
                0 <= t < s ==> (#[trigger] out[t]).wf() && plan.frames_at(out[t]@, t)
                    && out[t]@.mass() == 0,
            forall|t: int, b: int|
                0 <= t < s && 0 <= b < nbins ==> (#[trigger] out[t]@.counts[b]) == 0,
        decreases n - s,
    {
        let frame = frames[s];
        let h = Hist1D::new(nbins, frame.xlow, frame.xhigh);
        proof {
            crate::profile::lemma_total_zero(h@.counts);
        }
        out.push(h);
        s += 1;
    }
    out
}

/// The scores of one well against the refined control profiles `ctrl`; or
/// `None`, where one of its histograms reaches the limit.
fn score_well(
    shape: &Shape,
    ctrl: &Vec<Profile>,
    hists: &Vec<Hist1D>,
    Ghost(plan): Ghost<Plan>,
    Ghost(rows): Ghost<Seq<Seq<i64>>>,
) -> (out: Option<ScoreRow>)
    requires
        shape.follows(plan),
        framed(hists@, plan),
        ctrl.len() == plan.features.len(),
        rows.len() == plan.features.len(),
        forall|s: int|
            0 <= s < ctrl.len() ==> {
                let c = #[trigger] ctrl[s];
                &&& c.wf()
                &&& rows[s].len() == plan.nbins
                &&& c.parts@ == refined_parts(rows[s])
                &&& c.scale == refined_scale(rows[s])
                &&& c.scale <= 4 * MASS_LIMIT
                &&& weight(c.parts@) <= 8 * MASS_LIMIT - 8
            },
    ensures
        out is None <==> exists|s: int|
            0 <= s < hists.len() && (#[trigger] hists[s])@.mass() >= MASS_LIMIT,
        out is Some ==> out->0.wf() && out->0@ == well_scores(
            plan.features,
            rows,
            crate::shared::views(hists@),
        ),
{
    let n = shape.features.len();
    let ghost feats = plan.features;
    let mut s: usize = 0;
    while s < n
        invariant
            s <= n,
            n == hists.len(),
            n == shape.features@.len(),
            shape.follows(plan),
            framed(hists@, plan),
            ctrl.len() == plan.features.len(),
            rows.len() == plan.features.len(),
            forall|t: int|
                0 <= t < ctrl.len() ==> {
                    let c = #[trigger] ctrl[t];
                    &&& c.wf()
                    &&& rows[t].len() == plan.nbins
                    &&& c.parts@ == refined_parts(rows[t])
                    &&& c.scale == refined_scale(rows[t])
                    &&& c.scale <= 4 * MASS_LIMIT
                    &&& weight(c.parts@) <= 8 * MASS_LIMIT - 8
                },
            forall|t: int| 0 <= t < s ==> (#[trigger] hists[t])@.mass() < MASS_LIMIT,
        decreases n - s,
    {
        proof {
            hists[s as int].lemma_wf_view();
        }
        if hists[s].data().sum() >= MASS_LIMIT {
            return None;
        }
        s += 1;
    }
    let one = Ratio { num: 1, den: 1 };
    let mut row = ScoreRow::new();
    let ghost seen = crate::shared::views(hists@);
    let mut j: usize = 0;
    proof {
        assert(feats.take(0) =~= Seq::<Seq<char>>::empty());
        assert(row@ =~= Map::new(
            |f: Seq<char>| feats.take(0).contains(f),
            |f: Seq<char>| well_score(rows[slot_named(feats, f)], seen[slot_named(feats, f)].counts),
        ));
    }
    while j < n
        invariant
            j <= n,
            n == plan.features.len(),
            n == hists.len(),
            n == ctrl.len(),
            n == rows.len(),
            n == shape.features@.len(),
            n == shape.slots@.len(),
            feats == plan.features,
            seen == crate::shared::views(hists@),
            one.num == 1,
            one.den == 1,
            shape.follows(plan),
            framed(hists@, plan),
            forall|t: int| 0 <= t < n ==> (#[trigger] hists[t])@.mass() < MASS_LIMIT,
            forall|t: int|
                0 <= t < ctrl.len() ==> {
                    let c = #[trigger] ctrl[t];
                    &&& c.wf()
                    &&& rows[t].len() == plan.nbins
                    &&& c.parts@ == refined_parts(rows[t])
                    &&& c.scale == refined_scale(rows[t])
                    &&& c.scale <= 4 * MASS_LIMIT
                    &&& weight(c.parts@) <= 8 * MASS_LIMIT - 8
                },
            row.wf(),
            row@ == Map::new(
                |f: Seq<char>| feats.take(j as int).contains(f),
                |f: Seq<char>|
                    well_score(rows[slot_named(feats, f)], seen[slot_named(feats, f)].counts),
            ),
        decreases n - j,
    {
        let slot = shape.slots[j];
        proof {
            assert(plan.slots[j as int] == slot);
            assert(0 <= plan.slots[j as int] <= j);
            assert(first_index(feats, feats[j as int]) == Some(plan.slots[j as int]));
            assert(slot_named(feats, feats[j as int]) == slot);
            hists[slot as int].lemma_wf_view();
            assert(plan.frames_at(hists[slot as int]@, slot as int));
            assert(seen[slot as int] == hists[slot as int]@);
        }
        let exp = refine(&hists[slot]);
        let control = &ctrl[slot];
        proof {
            lemma_refined_fit(control, &exp, &one);
            assert(refined_parts(rows[slot as int]).len() == plan.nbins);
            assert(refined_parts(hists[slot as int]@.counts).len() == plan.nbins);
        }
        let score = square_diff(control, &exp, &one);
        let ghost before = row@;
        assert(shape.features@[j as int]@ == feats[j as int]);
        row.set(&shape.features[j], score);
        proof {
            assert forall|f: Seq<char>|
                feats.take(j + 1).contains(f) <==> feats.take(j as int).contains(f) || f
                    == feats[j as int] by {
                lemma_take_contains(feats, j as int, f);
            }
            assert(score == well_score(rows[slot as int], seen[slot as int].counts));
            let target = Map::new(
                |f: Seq<char>| feats.take(j + 1).contains(f),
                |f: Seq<char>|
                    well_score(rows[slot_named(feats, f)], seen[slot_named(feats, f)].counts),
            );
            assert(row@ == before.insert(feats[j as int], score));
            assert forall|f: Seq<char>| target.contains_key(f) <==> row@.contains_key(f) by {
                lemma_take_contains(feats, j as int, f);
            }
            assert forall|f: Seq<char>| target.contains_key(f) implies #[trigger] target[f]
                == row@[f] by {
                lemma_take_contains(feats, j as int, f);
                if f == feats[j as int] {
                    assert(row@[f] == score);
                } else {
                    assert(before.contains_key(f));
                    assert(row@[f] == before[f]);
                }
            }
            assert(row@ =~= target);
        }
        j += 1;
    }
    proof {
        assert(feats.take(n as int) =~= feats);
        assert(row@ =~= well_scores(feats, rows, seen));
    }
    Some(row)
}

/// The scores of the wells listed before `upto` that are scored in `group`.
pub(crate) open spec fn partial_scores(
    state: Map<Seq<char>, Seq<HistView>>,
    group: Seq<Seq<char>>,
    plan: Plan,
    rows: Seq<Seq<i64>>,
    names: Seq<Seq<char>>,
    upto: int,
) -> Map<Seq<char>, Map<Seq<char>, Score>> {
    Map::new(
        |w: Seq<char>| scored(state, group, w) && names.take(upto).contains(w),
        |w: Seq<char>| well_scores(plan.features, rows, state[w]),
    )
}

/// The reserved name as a string.
fn reserved() -> (out: String)
    ensures
        out@ == reserved_name(),
{
    let mut out = String::new();
    push_char(&mut out, 'C');
    push_char(&mut out, 'N');
    push_char(&mut out, 'T');
    push_char(&mut out, 'R');
    push_char(&mut out, 'L');
    assert(out@ =~= reserved_name());
    out
}

/// Scores one group and takes its scores into the table. The result is false
/// where a histogram that takes part reaches the limit.
fn score_group(
    shape: &Shape,
    drained: &Vec<(String, Vec<Hist1D>)>,
    names: &Vec<String>,
    group: &Vec<String>,
    controls: &Vec<String>,
    table: &mut ResultTable,
    Ghost(state): Ghost<Map<Seq<char>, Seq<HistView>>>,
    Ghost(plan): Ghost<Plan>,
) -> (ok: bool)
    requires
        old(table).wf(),
        shape.follows(plan),
        lists(drained@, state),
        shaped(state, plan),
        texts(names@) == names_of(drained@),
    ensures
        ok <==> within_limit(state, texts(group@), texts(controls@), plan.features.len() as int),
        ok ==> final(table).wf() && final(table)@ == merged_group(
            old(table)@,
            group_scores(state, texts(group@), texts(controls@), plan),
        ),
{
    let ghost g = texts(group@);
    let ghost cs = texts(controls@);
    let ghost base = table@;
    let ghost all = texts(names@);
    let n = shape.features.len();
    let select = clean_well_names(group.as_slice());
    assert(selected(select@, g)) by {
        assert forall|i: int| 0 <= i < select.len() implies (#[trigger] select@[i])@
            == canonical_well(g[i]) by {
            assert(g[i] == group@[i]@);
        }
    }
    let (fits, found) = build_control(
        shape,
        drained,
        names,
        &select,
        controls,
        Ghost(state),
        Ghost(g),
        Ghost(plan),
    );
    if !fits {
        return false;
    }
    let ctrl = match found {
        Some(ctrl) => ctrl,
        None => {
            assert(table@ =~= merged_group(base, group_scores(state, g, cs, plan)));
            return true;
        },
    };
    if n == 0 {
        assert(table@ =~= merged_group(base, group_scores(state, g, cs, plan)));
        return true;
    }
    let ghost rows = control_rows(state, g, cs, plan);
    // The control of each slot, smoothed and taken as shares.
    let mut profiles: Vec<Profile> = Vec::new();
    let mut s: usize = 0;
    while s < n
        invariant
            s <= n,
            n == plan.features.len(),
            n == ctrl.len(),
            rows == control_rows(state, g, cs, plan),
            framed(ctrl@, plan),
            forall|t: int|
                0 <= t < n ==> (#[trigger] ctrl[t])@.mass() == control_mass(state, g, cs, t)
                    && control_mass(state, g, cs, t) < MASS_LIMIT,
            forall|t: int, b: int|
                0 <= t < n && 0 <= b < plan.nbins ==> (#[trigger] ctrl[t]@.counts[b])
                    == control_count(state, g, cs, t, b),
            profiles.len() == s,
            forall|t: int|
                0 <= t < s ==> {
                    let c = #[trigger] profiles[t];
                    &&& c.wf()
                    &&& rows[t].len() == plan.nbins
                    &&& c.parts@ == refined_parts(rows[t])
                    &&& c.scale == refined_scale(rows[t])
                    &&& c.scale <= 4 * MASS_LIMIT
                    &&& weight(c.parts@) <= 8 * MASS_LIMIT - 8
                },
        decreases n - s,
    {
        proof {
            ctrl[s as int].lemma_wf_view();
            assert(plan.frames_at(ctrl[s as int]@, s as int));
            assert(ctrl[s as int]@.counts =~= rows[s as int]) by {
                assert forall|b: int| 0 <= b < plan.nbins implies ctrl[s as int]@.counts[b]
                    == rows[s as int][b] by {
                    assert(ctrl[s as int]@.counts[b] == control_count(state, g, cs, s as int, b));
                }
            }
        }
        profiles.push(refine(&ctrl[s]));
        s += 1;
    }
    let unscored = reserved();
    let mut e: usize = 0;
    proof {
        assert(all.take(0) =~= Seq::<Seq<char>>::empty());
        assert(table@ =~= merged_group(base, partial_scores(state, g, plan, rows, all, 0)));
    }
    while e < drained.len()
        invariant
            e <= drained.len(),
            n == plan.features.len(),
            n > 0,
            g == texts(group@),
            cs == texts(controls@),
            all == texts(names@),
            all == names_of(drained@),
            unscored@ == reserved_name(),
            rows == control_rows(state, g, cs, plan),
            has_control(state, g, cs),
            shape.follows(plan),
            lists(drained@, state),
            shaped(state, plan),
            selected(select@, g),
            profiles.len() == n,
            forall|t: int|
                0 <= t < n ==> {
                    let c = #[trigger] profiles[t];
                    &&& c.wf()
                    &&& rows[t].len() == plan.nbins
                    &&& c.parts@ == refined_parts(rows[t])
                    &&& c.scale == refined_scale(rows[t])
                    &&& c.scale <= 4 * MASS_LIMIT
                    &&& weight(c.parts@) <= 8 * MASS_LIMIT - 8
                },
            forall|t: int| 0 <= t < n ==> #[trigger] control_mass(state, g, cs, t) < MASS_LIMIT,
            table.wf(),
            table@ == merged_group(base, partial_scores(state, g, plan, rows, all, e as int)),
            forall|w: Seq<char>, t: int|
                scored(state, g, w) && all.take(e as int).contains(w) && 0 <= t < n ==> total(
                    (#[trigger] state[w][t]).counts,
                ) < MASS_LIMIT,
        decreases drained.len() - e,
    {
        let well = &drained[e].0;
        let hists = &drained[e].1;
        let ghost w = well@;
        let ghost before = table@;
        let ghost done = partial_scores(state, g, plan, rows, all, e as int);
        let ghost next = partial_scores(state, g, plan, rows, all, e + 1);
        proof {
            assert(all[e as int] == w);
            assert(state.contains_key(w) && state[w] == crate::shared::views(hists@));
            assert forall|f: Seq<char>|
                all.take(e + 1).contains(f) <==> all.take(e as int).contains(f) || f == w by {
                lemma_take_contains(all, e as int, f);
            }
            // No well is listed twice.
            if all.take(e as int).contains(w) {
                let i = choose|i: int| 0 <= i < e && all.take(e as int)[i] == w;
                assert(drained@[i].0@ == drained@[e as int].0@);
            }
            assert forall|t: int| 0 <= t < hists.len() implies (#[trigger] hists[t]).wf()
                && plan.frames_at(hists[t]@, t) by {
                assert(crate::shared::views(hists@)[t] == hists[t]@);
                assert(plan.frames_at(state[w][t], t));
                hists[t].lemma_wf_view();
            }
        }
        let mut takes_part = false;
        if is_selected(&select, well, Ghost(g)) {
            if !(*well == unscored) {
                takes_part = true;
            }
        }
        assert(takes_part == scored(state, g, w));
        if takes_part {
            match score_well(shape, &profiles, hists, Ghost(plan), Ghost(rows)) {
                Some(row) => {
                    table.extend(well, &row);
                    proof {
                        assert forall|t: int| 0 <= t < n implies total(
                            (#[trigger] state[w][t]).counts,
                        ) < MASS_LIMIT by {
                            assert(state[w][t] == hists[t]@);
                        }
                        assert(row@ == well_scores(plan.features, rows, state[w]));
                        assert(!done.contains_key(w));
                        assert(next.contains_key(w));
                        assert forall|v: Seq<char>| next.contains_key(v) <==> done.contains_key(v)
                            || v == w by {}
                        assert(table@ =~= merged_group(base, next));
                    }
                },
                None => {
                    proof {
                        let t = choose|t: int|
                            0 <= t < hists.len() && (#[trigger] hists[t])@.mass() >= MASS_LIMIT;
                        assert(state[w][t] == hists[t]@);
                        assert(!(total(state[w][t].counts) < MASS_LIMIT));
                    }
                    return false;
                },
            }
        } else {
            proof {
                assert forall|v: Seq<char>| next.contains_key(v) <==> done.contains_key(v) by {}
                assert(next =~= done);
            }
        }
        e += 1;
    }
    proof {
        assert(all.take(e as int) =~= all);
        let whole = partial_scores(state, g, plan, rows, all, e as int);
        let want = group_scores(state, g, cs, plan);
        assert forall|v: Seq<char>| whole.contains_key(v) <==> want.contains_key(v) by {
            if scored(state, g, v) {
                let i = choose|i: int| 0 <= i < drained.len() && (#[trigger] drained@[i]).0@ == v;
                assert(all[i] == v);
            }
        }
        assert(whole =~= want);
        assert forall|v: Seq<char>, t: int| scored(state, g, v) && 0 <= t < n implies total(
            (#[trigger] state[v][t]).counts,
        ) < MASS_LIMIT by {
            let i = choose|i: int| 0 <= i < drained.len() && (#[trigger] drained@[i]).0@ == v;
            assert(all[i] == v);
            assert(all.contains(v));
        }
    }
    true
}

/// Whether, in every group, every histogram that takes part in the scoring
/// stays under the limit.
pub open spec fn scoring_fits(
    state: Map<Seq<char>, Seq<HistView>>,
    groups: Seq<Seq<Seq<char>>>,
    controls: Seq<Seq<char>>,
    slots: int,
) -> bool {
    forall|g: int|
        0 <= g < groups.len() ==> within_limit(state, #[trigger] groups[g], controls, slots)
}

impl Accumulator {
    /// Ends the feeding and scores the plate. The control wells are
    /// `vehicle_cntrls`, by their canonical names. Each group is scored on its
    /// own, in the order of `groups_of`: the control of a feature is the sum of
    /// the histograms of the control wells of the group; control and wells are
    /// smoothed with the weight one quarter and taken as shares; and every well
    /// of the group gets its score against the control under each feature name.
    /// A group to whose control no well adds gets no scores. A later group's
    /// score for a well and feature takes the place of an earlier one.
    pub fn finish(self, vehicle_cntrls: &[String], block_def: Option<Vec<Vec<String>>>) -> (out:
        Result<ResultTable, CalcError>)
        requires
            self.wf(),
        ensures
            match out {
                Ok(table) => {
                    &&& table.wf()
                    &&& scoring_fits(
                        self.state(),
                        groups_of(self.plan().universe, definition_texts(block_def)),
                        canonical_all(texts(vehicle_cntrls@)),
                        self.plan().features.len() as int,
                    )
                    &&& table@ == all_scores(
                        self.state(),
                        groups_of(self.plan().universe, definition_texts(block_def)),
                        canonical_all(texts(vehicle_cntrls@)),
                        self.plan(),
                        groups_of(self.plan().universe, definition_texts(block_def)).len() as int,
                    )
                },
                Err(e) => {
                    &&& e == CalcError::TooManyObservations
                    &&& !scoring_fits(
                        self.state(),
                        groups_of(self.plan().universe, definition_texts(block_def)),
                        canonical_all(texts(vehicle_cntrls@)),
                        self.plan().features.len() as int,
                    )
                },
            },
    {
        let ghost plan = self.plan();
        let ghost state = self.state();
        let ghost gs = groups_of(plan.universe, definition_texts(block_def));
        let ghost cs = canonical_all(texts(vehicle_cntrls@));
        let (shape, universe, drained) = self.dissolve();
        let controls = clean_well_names(vehicle_cntrls);
        assert(texts(controls@) =~= cs);
        let groups = resolve_groups(universe.as_slice(), block_def);
        assert(block_texts(groups@) == gs);
        let mut names: Vec<String> = Vec::new();
        let mut i: usize = 0;
        while i < drained.len()
            invariant
                i <= drained.len(),
                names.len() == i,
                forall|j: int| 0 <= j < i ==> (#[trigger] names[j])@ == drained@[j].0@,
            decreases drained.len() - i,
        {
            names.push(drained[i].0.clone());
            i += 1;
        }
        assert(texts(names@) =~= names_of(drained@));
        let mut table = ResultTable::new();
        let mut g: usize = 0;
        while g < groups.len()
            invariant
                g <= groups.len(),
                gs == block_texts(groups@),
                gs == groups_of(plan.universe, definition_texts(block_def)),
                cs == texts(controls@),
                cs == canonical_all(texts(vehicle_cntrls@)),
                plan == self.plan(),
                state == self.state(),
                shape.follows(plan),
                lists(drained@, state),
                shaped(state, plan),
                texts(names@) == names_of(drained@),
                table.wf(),
                table@ == all_scores(state, gs, cs, plan, g as int),
                forall|h: int|
                    0 <= h < g ==> within_limit(
                        state,
                        #[trigger] gs[h],
                        cs,
                        plan.features.len() as int,
                    ),
            decreases groups.len() - g,
        {
            assert(gs[g as int] == texts(groups@[g as int]@));
            let ok = score_group(
                &shape,
                &drained,
                &names,
                &groups[g],
                &controls,
                &mut table,
                Ghost(state),
                Ghost(plan),
            );
            if !ok {
                proof {
                    assert(!within_limit(state, gs[g as int], cs, plan.features.len() as int));
                    assert(!scoring_fits(state, gs, cs, plan.features.len() as int));
                }
                return Err(CalcError::TooManyObservations);
            }
            g += 1;
        }
        Ok(table)
    }
}

/// Scores a plate from its table. `headers` names the columns and `id_cols`
/// those that identify the well of a row; `ranges` gives the usable features
/// and the range of each; every histogram has `nbins` bins. Rows are taken in
/// as `Accumulator::deposit` says, and the plate is scored as
/// `Accumulator::finish` says.
pub fn calculate_scores(
    headers: &[String],
    rows: &[Row],
    id_cols: &[String],
    vehicle_cntrls: &[String],
    nbins: usize,
    ranges: &MinMaxPlateResult,
    block_def: Option<Vec<Vec<String>>>,
    plate_def: Option<Vec<String>>,
) -> (out: Result<ResultTable, CalcError>)
    requires
        ranges.wf(),
        rows.len() * ranges.features.len() <= i64::MAX,
    ensures
        out == Err::<ResultTable, CalcError>(CalcError::MissingIdColumn) <==> !all_present(
            texts(headers@),
            texts(id_cols@),
        ),
        all_present(texts(headers@), texts(id_cols@)) ==> {
            let plan = plan_of(
                texts(headers@),
                texts(id_cols@),
                crate::accumulate::universe_of(plate_def),
                nbins as nat,
                texts(ranges.features@),
                frames_of(ranges.min_max@),
            );
            let state = accumulated(plan, row_views(rows@));
            let groups = groups_of(plan.universe, definition_texts(block_def));
            let controls = canonical_all(texts(vehicle_cntrls@));
            match out {
                Ok(table) => {
                    &&& table.wf()
                    &&& scoring_fits(state, groups, controls, plan.features.len() as int)
                    &&& table@ == all_scores(state, groups, controls, plan, groups.len() as int)
                },
                Err(e) => {
                    &&& e == CalcError::TooManyObservations
                    &&& !scoring_fits(state, groups, controls, plan.features.len() as int)
                },
            }
        },
{
    let mut acc = match Accumulator::new(headers, id_cols, nbins, ranges, plate_def) {
        Ok(acc) => acc,
        Err(e) => {
            return Err(CalcError::MissingIdColumn);
        },
    };
    let ghost plan = acc.plan();
    let ghost all = row_views(rows@);
    let n = rows.len();
    let mut r: usize = 0;
    proof {
        assert(all.take(0) =~= Seq::<RowView>::empty());
    }
    while r < n
        invariant
            r <= n,
            n == rows.len(),
            all == row_views(rows@),
            acc.wf(),
            acc.plan() == plan,
            acc.fed() == all.take(r as int),
            plan.features.len() == ranges.features@.len(),
            rows.len() * ranges.features.len() <= i64::MAX,
        decreases n - r,
    {
        proof {
            assert(all.take(r + 1) =~= all.take(r as int).push(rows@[r as int]@));
            assert((r + 1) * ranges.features@.len() <= rows.len() * ranges.features@.len())
                by (nonlinear_arith)
                requires
                    r + 1 <= rows.len(),
                    0 <= ranges.features@.len(),
            ;
            acc.lemma_room(r as int);
        }
        acc.deposit(&rows[r]);
        r += 1;
    }
    proof {
        assert(all.take(r as int) =~= all);
        acc.lemma_state();
    }
    acc.finish(vehicle_cntrls, block_def)
}

/// Order independence of the scores: two tables that hold the same rows, in
/// whatever order, get the same scores, or are both refused.
pub proof fn lemma_scores_order_independence(
    plan: Plan,
    a: Seq<RowView>,
    b: Seq<RowView>,
    groups: Seq<Seq<Seq<char>>>,
    controls: Seq<Seq<char>>,
)
    requires
        a.to_multiset() == b.to_multiset(),
    ensures
        scoring_fits(accumulated(plan, a), groups, controls, plan.features.len() as int)
            == scoring_fits(accumulated(plan, b), groups, controls, plan.features.len() as int),
        all_scores(accumulated(plan, a), groups, controls, plan, groups.len() as int)
            == all_scores(accumulated(plan, b), groups, controls, plan, groups.len() as int),
{
    crate::accumulate::lemma_order_independence(plan, a, b);
}

/// A well that is scored in one of the first `upto` groups, in a group with a
/// control, has scores in the table, as long as there is a usable feature.
pub proof fn lemma_scored_well_is_key(
    state: Map<Seq<char>, Seq<HistView>>,
    groups: Seq<Seq<Seq<char>>>,
    controls: Seq<Seq<char>>,
    plan: Plan,
    upto: int,
    g: int,
    well: Seq<char>,
)
    requires
        0 <= g < upto <= groups.len(),
        scored(state, groups[g], well),
        has_control(state, groups[g], controls),
        plan.features.len() > 0,
    ensures
        all_scores(state, groups, controls, plan, upto).contains_key(well),
    decreases upto,
{
    if g < upto - 1 {
        lemma_scored_well_is_key(state, groups, controls, plan, upto - 1, g, well);
    } else {
        assert(group_scores(state, groups[g], controls, plan).contains_key(well));
    }
}

/// A well with scores in the table was scored in one of the groups.
pub proof fn lemma_key_is_scored_well(
    state: Map<Seq<char>, Seq<HistView>>,
    groups: Seq<Seq<Seq<char>>>,
    controls: Seq<Seq<char>>,
    plan: Plan,
    upto: int,
    well: Seq<char>,
)
    requires
        0 <= upto <= groups.len(),
        all_scores(state, groups, controls, plan, upto).contains_key(well),
    ensures
        exists|g: int|
            0 <= g < upto && scored(state, #[trigger] groups[g], well) && has_control(
                state,
                groups[g],
                controls,
            ),
    decreases upto,
{
    if upto > 0 {
        let last = group_scores(state, groups[upto - 1], controls, plan);
        if last.contains_key(well) {
            assert(scored(state, groups[upto - 1], well) && has_control(
                state,
                groups[upto - 1],
                controls,
            ));
        } else {
            lemma_key_is_scored_well(state, groups, controls, plan, upto - 1, well);
            let g = choose|g: int|
                0 <= g < upto - 1 && scored(state, #[trigger] groups[g], well) && has_control(
                    state,
                    groups[g],
                    controls,
                );
            assert(0 <= g < upto && scored(state, groups[g], well));
        }
    }
}

/// The scores of a well that is of one group only are those of that group,
/// taken against the control of that group alone.
pub proof fn lemma_scores_of_one_group(
    state: Map<Seq<char>, Seq<HistView>>,
    groups: Seq<Seq<Seq<char>>>,
    controls: Seq<Seq<char>>,
    plan: Plan,
    upto: int,
    g: int,
    well: Seq<char>,
)
    requires
        0 <= g < upto <= groups.len(),
        scored(state, groups[g], well),
        has_control(state, groups[g], controls),
        plan.features.len() > 0,
        forall|h: int| 0 <= h < groups.len() && h != g ==> !in_group(#[trigger] groups[h], well),
    ensures
        all_scores(state, groups, controls, plan, upto).contains_key(well),
        all_scores(state, groups, controls, plan, upto)[well] == well_scores(
            plan.features,
            control_rows(state, groups[g], controls, plan),
            state[well],
        ),
    decreases upto,
{
    let before = all_scores(state, groups, controls, plan, upto - 1);
    let last = group_scores(state, groups[upto - 1], controls, plan);
    if g < upto - 1 {
        lemma_scores_of_one_group(state, groups, controls, plan, upto - 1, g, well);
        assert(!in_group(groups[upto - 1], well));
        assert(!last.contains_key(well));
    } else {
        assert(last.contains_key(well));
        if before.contains_key(well) {
            lemma_key_is_scored_well(state, groups, controls, plan, upto - 1, well);
            let h = choose|h: int|
                0 <= h < upto - 1 && scored(state, #[trigger] groups[h], well) && has_control(
                    state,
                    groups[h],
                    controls,
                );
            assert(in_group(groups[h], well));
            assert(false);
        }
    }
}

/// Group completeness: where every group has a control and there is a usable
/// feature, every well of the universe that goes by its canonical name, has a
/// row, and does not bear the reserved name has scores in the table.
pub proof fn lemma_group_completeness(
    state: Map<Seq<char>, Seq<HistView>>,
    universe: Seq<Seq<char>>,
    blocks: Option<Seq<Seq<Seq<char>>>>,
    controls: Seq<Seq<char>>,
    plan: Plan,
    well: Seq<char>,
)
    requires
        universe.contains(well),
        crate::wells::is_canonical(well),
        state.contains_key(well),
        well != reserved_name(),
        plan.features.len() > 0,
        forall|g: int|
            0 <= g < groups_of(universe, blocks).len() ==> has_control(
                state,
                #[trigger] groups_of(universe, blocks)[g],
                controls,
            ),
    ensures
        all_scores(
            state,
            groups_of(universe, blocks),
            controls,
            plan,
            groups_of(universe, blocks).len() as int,
        ).contains_key(well),
{
    let groups = groups_of(universe, blocks);
    crate::groups::lemma_every_well_grouped(universe, blocks, well);
    let g = choose|g: int| 0 <= g < groups.len() && in_group(#[trigger] groups[g], well);
    lemma_scored_well_is_key(state, groups, controls, plan, groups.len() as int, g, well);
}

/// Where no two blocks claim the same well and every well of the universe goes
/// by its canonical name, the scores of a well of the universe are those of the
/// one group that it is of, taken against the control of that group alone.
pub proof fn lemma_one_group_scores(
    state: Map<Seq<char>, Seq<HistView>>,
    universe: Seq<Seq<char>>,
    blocks: Option<Seq<Seq<Seq<char>>>>,
    controls: Seq<Seq<char>>,
    plan: Plan,
    g: int,
    well: Seq<char>,
)
    requires
        forall|i: int| 0 <= i < universe.len() ==> crate::wells::is_canonical(#[trigger] universe[i]),
        blocks is Some ==> crate::groups::disjoint(blocks->0),
        0 <= g < groups_of(universe, blocks).len(),
        scored(state, groups_of(universe, blocks)[g], well),
        has_control(state, groups_of(universe, blocks)[g], controls),
        plan.features.len() > 0,
    ensures
        all_scores(
            state,
            groups_of(universe, blocks),
            controls,
            plan,
            groups_of(universe, blocks).len() as int,
        )[well] == well_scores(
            plan.features,
            control_rows(state, groups_of(universe, blocks)[g], controls, plan),
            state[well],
        ),
{
    let groups = groups_of(universe, blocks);
    assert forall|h: int| 0 <= h < groups.len() && h != g implies !in_group(
        #[trigger] groups[h],
        well,
    ) by {
        if in_group(groups[h], well) {
            crate::groups::lemma_one_group_only(universe, blocks, well, g, h);
        }
    }
    lemma_scores_of_one_group(state, groups, controls, plan, groups.len() as int, g, well);
}

/// Control wells go by their canonical names: two lists of control wells with
/// the same canonical names give the same scores.
pub proof fn lemma_controls_by_canonical_name(
    state: Map<Seq<char>, Seq<HistView>>,
    groups: Seq<Seq<Seq<char>>>,
    a: Seq<Seq<char>>,
    b: Seq<Seq<char>>,
    plan: Plan,
)
    requires
        canonical_all(a) == canonical_all(b),
    ensures
        all_scores(state, groups, canonical_all(a), plan, groups.len() as int) == all_scores(
            state,
            groups,
            canonical_all(b),
            plan,
            groups.len() as int,
        ),
        scoring_fits(state, groups, canonical_all(a), plan.features.len() as int) == scoring_fits(
            state,
            groups,
            canonical_all(b),
            plan.features.len() as int,
        ),
{
}

} // verus!
