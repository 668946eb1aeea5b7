//! The second pass over the table: one histogram for each well and feature.

use crate::columns::{all_present, contains_name, first_index, locate, located, position, texts};
use crate::histograms::{read, reading_of, slot_of, Hist1D, HistView, Measure, MinMax, Reading};
use crate::profile::{no_negative, weight};
use crate::ranges::MinMaxPlateResult;
use crate::calc::{lists, shaped, Shape};
use crate::shared::{views, well_drain, well_map, well_put, well_take, wells_held};
use crate::wells::{
    canonical_all, canonical_well, clean_well_names, composite_id, joined, picked,
    plate_definition, rename_index,
};
use dashmap::DashMap;
use vstd::prelude::*;

verus! {

/// One row of the table: its fields as text, and beside each field the
/// measurement read from it, or `None` where the field reads as no number.
#[derive(Debug)]
pub struct Row {
    pub fields: Vec<String>,
    pub readings: Vec<Option<Measure>>,
}

/// What a row holds.
pub struct RowView {
    pub fields: Seq<Seq<char>>,
    pub readings: Seq<Option<Measure>>,
}

impl View for Row {
    type V = RowView;

    open spec fn view(&self) -> RowView {
        RowView { fields: texts(self.fields@), readings: self.readings@ }
    }
}

/// What each row holds, in order.
pub open spec fn row_views(rows: Seq<Row>) -> Seq<RowView> {
    Seq::new(rows.len(), |r: int| rows[r]@)
}

/// How the rows of a table are laid out, and where their readings go.
pub struct Plan {
    /// The number of columns.
    pub width: nat,
    /// The places of the identifier columns.
    pub ids: Seq<int>,
    /// The wells that are taken in.
    pub universe: Seq<Seq<char>>,
    /// The number of bins of every histogram.
    pub nbins: nat,
    /// The names of the usable features.
    pub features: Seq<Seq<char>>,
    /// For each feature, the column that its readings come from.
    pub columns: Seq<Option<int>>,
    /// For each feature, the first feature of the same name: the histogram of
    /// a well under a name stands at that place.
    pub slots: Seq<int>,
    /// For each feature, its range.
    pub frames: Seq<MinMax>,
}

/// The plan for a table with the headers `headers`.
pub open spec fn plan_of(
    headers: Seq<Seq<char>>,
    id_cols: Seq<Seq<char>>,
    universe: Seq<Seq<char>>,
    nbins: nat,
    features: Seq<Seq<char>>,
    frames: Seq<MinMax>,
) -> Plan {
    Plan {
        width: headers.len(),
        ids: located(headers, id_cols),
        universe,
        nbins,
        features,
        columns: Seq::new(features.len(), |j: int| first_index(headers, features[j])),
        slots: Seq::new(features.len(), |j: int| first_index(features, features[j])->0),
        frames,
    }
}

/// The wells that are taken in: those of the plate definition by their
/// canonical names, or the default plate where there is no definition.
pub open spec fn universe_of(plate_def: Option<Vec<String>>) -> Seq<Seq<char>> {
    match plate_def {
        Some(wells) => canonical_all(texts(wells@)),
        None => crate::wells::default_plate(),
    }
}

/// Every well of the universe goes by its canonical name.
pub proof fn lemma_universe_canonical(plate_def: Option<Vec<String>>)
    ensures
        forall|i: int|
            0 <= i < universe_of(plate_def).len() ==> crate::wells::is_canonical(
                #[trigger] universe_of(plate_def)[i],
            ),
{
    match plate_def {
        Some(wells) => {
            assert forall|i: int| 0 <= i < universe_of(plate_def).len() implies crate::wells::is_canonical(
                #[trigger] universe_of(plate_def)[i],
            ) by {
                crate::wells::lemma_canonical_idempotent(texts(wells@)[i]);
            }
        },
        None => {
            crate::wells::lemma_default_plate_distinct();
        },
    }
}

/// The range of each entry, in order.
pub open spec fn frames_of(min_max: Seq<(String, MinMax)>) -> Seq<MinMax> {
    Seq::new(min_max.len(), |k: int| min_max[k].1)
}

impl Plan {
    pub open spec fn wf(self) -> bool {
        &&& self.columns.len() == self.features.len()
        &&& self.slots.len() == self.features.len()
        &&& self.frames.len() == self.features.len()
        &&& forall|j: int|
            0 <= j < self.features.len() && (#[trigger] self.columns[j]) is Some ==> 0
                <= self.columns[j]->0 < self.width
        &&& forall|j: int| 0 <= j < self.features.len() ==> 0 <= #[trigger] self.slots[j] <= j
        &&& forall|k: int| 0 <= k < self.ids.len() ==> 0 <= #[trigger] self.ids[k] < self.width
    }

    /// The well that a row belongs to: the canonical form of its identifier
    /// fields joined by underscores.
    pub open spec fn well_of(self, row: RowView) -> Seq<char> {
        canonical_well(joined(picked(row.fields, self.ids)))
    }

    /// Whether a row is taken in: it has one field and one reading for each
    /// column, and its well is in the universe.
    pub open spec fn accepts(self, row: RowView) -> bool {
        &&& row.fields.len() == self.width
        &&& row.readings.len() == self.width
        &&& self.universe.contains(self.well_of(row))
    }

    /// The reading that a row gives for feature `j`.
    pub open spec fn tap(self, row: RowView, j: int) -> Option<Reading> {
        match self.columns[j] {
            Some(c) => reading_of(row.readings[c]),
            None => None,
        }
    }

    /// Whether the reading of a row for feature `j` goes to bin `bin` of the
    /// histogram at `slot`.
    pub open spec fn lands(self, row: RowView, j: int, slot: int, bin: int) -> bool {
        self.slots[j] == slot && slot_of(
            self.nbins,
            self.frames[slot].xlow as int,
            self.frames[slot].xhigh as int,
            self.tap(row, j),
        ) == Some(bin)
    }

    /// How many readings of a row, among its features before `upto`, go to
    /// bin `bin` of the histogram at `slot`.
    pub open spec fn row_hits(self, row: RowView, upto: int, slot: int, bin: int) -> nat
        decreases upto,
    {
        if upto <= 0 {
            0
        } else {
            self.row_hits(row, upto - 1, slot, bin) + (if self.lands(row, upto - 1, slot, bin) {
                1nat
            } else {
                0nat
            })
        }
    }

    /// How many readings of the rows taken in for `well` go to bin `bin` of the
    /// histogram at `slot`.
    pub open spec fn tally(self, rows: Seq<RowView>, well: Seq<char>, slot: int, bin: int) -> nat
        decreases rows.len(),
    {
        if rows.len() == 0 {
            0
        } else {
            self.tally(rows.drop_last(), well, slot, bin) + (if self.accepts(rows.last())
                && self.well_of(rows.last()) == well {
                self.row_hits(rows.last(), self.features.len() as int, slot, bin)
            } else {
                0nat
            })
        }
    }

    /// Whether some row is taken in for `well`.
    pub open spec fn present(self, rows: Seq<RowView>, well: Seq<char>) -> bool {
        exists|r: int| self.taken_at(rows, r, well)
    }

    /// Whether row `r` is taken in for `well`.
    pub open spec fn taken_at(self, rows: Seq<RowView>, r: int, well: Seq<char>) -> bool {
        0 <= r < rows.len() && self.accepts(rows[r]) && self.well_of(rows[r]) == well
    }

    /// Whether `h` is a histogram of this plan at `slot`, counting whole
    /// observations.
    pub open spec fn frames_at(self, h: HistView, slot: int) -> bool {
        &&& h.nbins == self.nbins
        &&& h.xlow == self.frames[slot].xlow
        &&& h.xhigh == self.frames[slot].xhigh
        &&& h.scale == 1
        &&& h.counts.len() == self.nbins
        &&& no_negative(h.counts)
    }

    /// Whether `state` holds, for each well that rows were taken in for, one
    /// histogram for each feature, and in each bin the tally of the rows.
    pub open spec fn tallied(self, state: Map<Seq<char>, Seq<HistView>>, rows: Seq<RowView>) -> bool {
        &&& forall|w: Seq<char>| #[trigger] state.contains_key(w) <==> self.present(rows, w)
        &&& forall|w: Seq<char>| #[trigger]
            state.contains_key(w) ==> state[w].len() == self.features.len()
        &&& forall|w: Seq<char>, s: int|
            state.contains_key(w) && 0 <= s < self.features.len() ==> self.frames_at(
                #[trigger] state[w][s],
                s,
            )
        &&& forall|w: Seq<char>, s: int, b: int|
            state.contains_key(w) && 0 <= s < self.features.len() && 0 <= b < self.nbins
                ==> #[trigger] state[w][s].counts[b] == self.tally(rows, w, s, b)
    }
}

/// A well for which no row was taken in has a tally of zero.
pub proof fn lemma_tally_absent(plan: Plan, rows: Seq<RowView>, well: Seq<char>, slot: int, bin: int)
    requires
        !plan.present(rows, well),
    ensures
        plan.tally(rows, well, slot, bin) == 0,
    decreases rows.len(),
{
    if rows.len() > 0 {
        let rest = rows.drop_last();
        if plan.present(rest, well) {
            let r = choose|r: int| plan.taken_at(rest, r, well);
            assert(plan.taken_at(rows, r, well));
        }
        lemma_tally_absent(plan, rest, well, slot, bin);
        if plan.accepts(rows.last()) && plan.well_of(rows.last()) == well {
            assert(plan.taken_at(rows, rows.len() - 1, well));
        }
    }
}

/// What one more row changes: the wells that rows were taken in for.
pub proof fn lemma_present_push(plan: Plan, rows: Seq<RowView>, row: RowView, well: Seq<char>)
    ensures
        plan.present(rows.push(row), well) <==> plan.present(rows, well) || (plan.accepts(row)
            && plan.well_of(row) == well),
{
    let more = rows.push(row);
    if plan.present(more, well) {
        let r = choose|r: int| plan.taken_at(more, r, well);
        if r < rows.len() {
            assert(more[r] == rows[r]);
            assert(plan.taken_at(rows, r, well));
        } else {
            assert(more[r] == row);
        }
    }
    if plan.present(rows, well) {
        let r = choose|r: int| plan.taken_at(rows, r, well);
        assert(more[r] == rows[r]);
        assert(plan.taken_at(more, r, well));
    }
    if plan.accepts(row) && plan.well_of(row) == well {
        assert(more[rows.len() as int] == row);
        assert(plan.taken_at(more, rows.len() as int, well));
    }
}

/// What one more row changes: the tallies.
pub proof fn lemma_tally_push(
    plan: Plan,
    rows: Seq<RowView>,
    row: RowView,
    well: Seq<char>,
    slot: int,
    bin: int,
)
    ensures
        plan.tally(rows.push(row), well, slot, bin) == plan.tally(rows, well, slot, bin) + (
        if plan.accepts(row) && plan.well_of(row) == well {
            plan.row_hits(row, plan.features.len() as int, slot, bin)
        } else {
            0nat
        }),
{
    assert(rows.push(row).drop_last() =~= rows);
}

/// Why no scores could be computed.
#[derive(Clone, Copy, Debug, PartialEq, Eq)]
pub enum CalcError {
    /// An identifier column is not among the headers.
    MissingIdColumn,
    /// A histogram that takes part in scoring holds more observations than
    /// exact scores allow for.
    TooManyObservations,
}

/// One empty histogram of `nbins` bins for each range of `frames`.
fn fresh(frames: &Vec<MinMax>, nbins: usize) -> (out: Vec<Hist1D>)
    ensures
        out.len() == frames.len(),
        forall|s: int| 0 <= s < out.len() ==> (#[trigger] out[s]).wf(),
        forall|s: int|
            0 <= s < out.len() ==> {
                let h = (#[trigger] out[s])@;
                &&& h.nbins == nbins
                &&& h.xlow == frames[s].xlow
                &&& h.xhigh == frames[s].xhigh
                &&& h.scale == 1
                &&& h.counts.len() == nbins
                &&& weight(h.counts) == 0
                &&& no_negative(h.counts)
            },
        forall|s: int, b: int|
            0 <= s < out.len() && 0 <= b < nbins ==> (#[trigger] out[s]@.counts[b]) == 0,
{
    let n = frames.len();
    let mut out: Vec<Hist1D> = Vec::new();
    let mut s: usize = 0;
    while s < n
        invariant
            s <= n,
            n == frames.len(),
            out.len() == s,
            forall|t: int| 0 <= t < s ==> (#[trigger] out[t]).wf(),
            forall|t: int|
                0 <= t < s ==> {
                    let h = (#[trigger] out[t])@;
                    &&& h.nbins == nbins
                    &&& h.xlow == frames[t].xlow
                    &&& h.xhigh == frames[t].xhigh
                    &&& h.scale == 1
                    &&& h.counts.len() == nbins
                    &&& weight(h.counts) == 0
                    &&& no_negative(h.counts)
                },
            forall|t: int, b: int|
                0 <= t < s && 0 <= b < nbins ==> (#[trigger] out[t]@.counts[b]) == 0,
        decreases n - s,
    {
        let frame = frames[s];
        let h = Hist1D::new(nbins, frame.xlow, frame.xhigh);
        proof {
            crate::profile::lemma_total_zero(h@.counts);
        }
        out.push(h);
        s += 1;
    }
    out
}

/// The histograms of a plate while the rows of its table come in.
pub struct Accumulator {
    universe: Vec<String>,
    id_places: Vec<usize>,
    features: Vec<String>,
    columns: Vec<Option<usize>>,
    slots: Vec<usize>,
    frames: Vec<MinMax>,
    nbins: usize,
    width: usize,
    wells: DashMap<String, Vec<Hist1D>>,
    count: u64,
    plan: Ghost<Plan>,
    fed: Ghost<Seq<RowView>>,
}

impl Accumulator {
    /// The plan that rows are taken in by.
    pub closed spec fn plan(&self) -> Plan {
        self.plan@
    }

    /// The rows fed so far.
    pub closed spec fn fed(&self) -> Seq<RowView> {
        self.fed@
    }

    /// The histograms of each well for which a row was taken in.
    pub closed spec fn state(&self) -> Map<Seq<char>, Seq<HistView>> {
        wells_held(self.wells)
    }

    /// Whether one more row can be fed without a count leaving `i64`.
    pub closed spec fn has_room(&self) -> bool {
        &&& self.fed@.len() < u64::MAX
        &&& (self.fed@.len() + 1) * self.features@.len() <= i64::MAX
    }

    /// The accumulator holds the tally of the rows fed so far.
    pub closed spec fn wf(&self) -> bool {
        let plan = self.plan@;
        &&& plan.wf()
        &&& self.count == self.fed@.len()
        &&& self.fed@.len() * self.features@.len() <= i64::MAX
        &&& plan.width == self.width
        &&& plan.nbins == self.nbins
        &&& plan.universe == texts(self.universe@)
        &&& plan.features == texts(self.features@)
        &&& plan.ids == self.id_places@.map_values(|i: usize| i as int)
        &&& plan.frames == self.frames@
        &&& plan.columns.len() == self.columns@.len()
        &&& forall|j: int|
            0 <= j < self.columns@.len() ==> #[trigger] plan.columns[j] == (match self.columns@[j] {
                Some(c) => Some(c as int),
                None => None,
            })
        &&& plan.slots == self.slots@.map_values(|i: usize| i as int)
        &&& forall|j: int|
            0 <= j < plan.features.len() ==> first_index(plan.features, plan.features[j]) == Some(
                #[trigger] plan.slots[j],
            )
        &&& plan.tallied(wells_held(self.wells), self.fed@)
        &&& forall|w: Seq<char>, s: int|
            wells_held(self.wells).contains_key(w) && 0 <= s < plan.features.len() ==> weight(
                (#[trigger] wells_held(self.wells)[w][s]).counts,
            ) <= self.fed@.len() * plan.features.len()
    }

    /// There is room as long as the counts of one more row stay within `i64`.
    pub proof fn lemma_room(&self, fed: int)
        requires
            self.wf(),
            fed == self.fed().len(),
            fed < u64::MAX,
            (fed + 1) * self.plan().features.len() <= i64::MAX,
        ensures
            self.has_room(),
    {
    }

    /// The state is what the rows fed so far leave behind.
    pub proof fn lemma_state(&self)
        requires
            self.wf(),
        ensures
            self.plan().wf(),
            self.plan().tallied(self.state(), self.fed()),
            self.state() == accumulated(self.plan(), self.fed()),
    {
        lemma_tallied_is_accumulated(self.plan@, wells_held(self.wells), self.fed@);
    }

    /// An accumulator for a table with the headers `headers`, of which the
    /// columns `id_cols` identify the well of a row. Every histogram has `nbins`
    /// bins over the range that `ranges` gives for its feature. Rows of wells
    /// outside `plate_def` are left out, wells going by their canonical names;
    /// where it is `None`, the default plate stands for it.
    pub fn new(
        headers: &[String],
        id_cols: &[String],
        nbins: usize,
        ranges: &MinMaxPlateResult,
        plate_def: Option<Vec<String>>,
    ) -> (out: Result<Accumulator, CalcError>)
        requires
            ranges.wf(),
        ensures
            out is Err <==> !all_present(texts(headers@), texts(id_cols@)),
            out is Ok ==> {
                &&& out->Ok_0.wf()
                &&& out->Ok_0.fed() == Seq::<RowView>::empty()
                &&& out->Ok_0.plan() == plan_of(
                    texts(headers@),
                    texts(id_cols@),
                    universe_of(plate_def),
                    nbins as nat,
                    texts(ranges.features@),
                    frames_of(ranges.min_max@),
                )
            },
    {
        let id_places = match locate(headers, id_cols) {
            Some(places) => places,
            None => {
                return Err(CalcError::MissingIdColumn);
            },
        };
        let ghost wanted = universe_of(plate_def);
        let universe = match plate_def {
            Some(wells) => clean_well_names(wells.as_slice()),
            None => plate_definition(),
        };
        assert(texts(universe@) =~= wanted);
        let ghost hs = texts(headers@);
        let ghost fs = texts(ranges.features@);
        let ghost plan = plan_of(
            hs,
            texts(id_cols@),
            texts(universe@),
            nbins as nat,
            fs,
            frames_of(ranges.min_max@),
        );
        let n = ranges.features.len();
        let mut features: Vec<String> = Vec::new();
        let mut columns: Vec<Option<usize>> = Vec::new();
        let mut slots: Vec<usize> = Vec::new();
        let mut frames: Vec<MinMax> = Vec::new();
        let mut j: usize = 0;
        while j < n
            invariant
                j <= n,
                n == ranges.features.len(),
                ranges.wf(),
                hs == texts(headers@),
                fs == texts(ranges.features@),
                features.len() == j,
                columns.len() == j,
                slots.len() == j,
                frames.len() == j,
                forall|k: int| 0 <= k < j ==> (#[trigger] features[k])@ == fs[k],
                forall|k: int|
                    0 <= k < j ==> first_index(hs, fs[k]) == (match #[trigger] columns[k] {
                        Some(c) => Some(c as int),
                        None => None,
                    }),
                forall|k: int| 0 <= k < j && (#[trigger] columns[k]) is Some ==> columns[k]->0 < headers.len(),
                forall|k: int| 0 <= k < j ==> first_index(fs, fs[k]) == Some(#[trigger] slots[k] as int),
                forall|k: int| 0 <= k < j ==> #[trigger] slots[k] <= k,
                forall|k: int| 0 <= k < j ==> #[trigger] frames[k] == ranges.min_max@[k].1,
            decreases n - j,
        {
            let name = ranges.features[j].clone();
            assert(name@ == fs[j as int]);
            let column = position(headers, &name);
            let slot = match position(ranges.features.as_slice(), &name) {
                Some(s) => s,
                None => j,
            };
            proof {
                assert(fs.contains(fs[j as int]));
                crate::columns::lemma_first_index_none(fs, fs[j as int]);
                crate::columns::lemma_first_index_none(hs, fs[j as int]);
                if slot > j {
                    assert(fs[j as int] != fs[j as int]);
                }
            }
            columns.push(column);
            slots.push(slot);
            frames.push(ranges.min_max[j].1);
            features.push(name);
            j += 1;
        }
        let wells = well_map();
        let acc = Accumulator {
            universe,
            id_places,
            features,
            columns,
            slots,
            frames,
            nbins,
            width: headers.len(),
            wells,
            count: 0,
            plan: Ghost(plan),
            fed: Ghost(Seq::empty()),
        };
        proof {
            assert(texts(acc.features@) =~= fs);
            assert(plan.frames =~= acc.frames@);
            assert(plan.slots =~= acc.slots@.map_values(|i: usize| i as int));
            assert(plan.ids =~= acc.id_places@.map_values(|i: usize| i as int));
            assert forall|k: int| 0 <= k < plan.ids.len() implies 0 <= #[trigger] plan.ids[k]
                < plan.width by {
                assert(plan.ids[k] == acc.id_places@[k]);
            }
            let none = Seq::<RowView>::empty();
            assert(none.len() * acc.features@.len() == 0) by (nonlinear_arith)
                requires
                    none.len() == 0,
            ;
            assert forall|w: Seq<char>| !plan.present(none, w) by {
                if plan.present(none, w) {
                    let r = choose|r: int| plan.taken_at(none, r, w);
                    assert(false);
                }
            }
        }
        Ok(acc)
    }

    /// Whether one more row can be fed without a count leaving `i64`.
    pub fn room(&self) -> (out: bool)
        requires
            self.wf(),
        ensures
            out == self.has_room(),
    {
        if self.count == u64::MAX {
            return false;
        }
        let rows: u128 = self.count as u128 + 1;
        let each: u128 = self.features.len() as u128;
        assert(rows * each <= 0xffff_ffff_ffff_ffff * 0xffff_ffff_ffff_ffff) by (nonlinear_arith)
            requires
                0 <= rows <= 0xffff_ffff_ffff_ffff,
                0 <= each <= 0xffff_ffff_ffff_ffff,
        ;
        rows * each <= 0x7fff_ffff_ffff_ffff
    }

    /// Feeds one row. Where the row has one field and one measurement for each
    /// column and its well is in the universe, each usable feature's
    /// measurement goes into the histogram of that well and feature, unless
    /// its value is not finite; any other row changes nothing.
    pub fn deposit(&mut self, row: &Row)
        requires
            old(self).wf(),
            old(self).has_room(),
        ensures
            final(self).wf(),
            final(self).plan() == old(self).plan(),
            final(self).fed() == old(self).fed().push(row@),
    {
        let ghost plan = self.plan@;
        let ghost rows = self.fed@;
        let ghost more = rows.push(row@);
        let ghost before = wells_held(self.wells);
        let n = self.features.len();
        proof {
            assert forall|w: Seq<char>, s: int, b: int|
                plan.tally(more, w, s, b) == plan.tally(rows, w, s, b) + (if plan.accepts(row@)
                    && plan.well_of(row@) == w {
                    plan.row_hits(row@, plan.features.len() as int, s, b)
                } else {
                    0nat
                }) by {
                lemma_tally_push(plan, rows, row@, w, s, b);
            }
            assert forall|w: Seq<char>|
                plan.present(more, w) <==> plan.present(rows, w) || (plan.accepts(row@)
                    && plan.well_of(row@) == w) by {
                lemma_present_push(plan, rows, row@, w);
            }
            assert((rows.len() + 1) * n == rows.len() * n + n) by (nonlinear_arith);
        }
        self.count = self.count + 1;
        self.fed = Ghost(more);
        if row.fields.len() != self.width || row.readings.len() != self.width {
            return ;
        }
        assert(texts(row.fields@).len() == plan.width);
        proof {
            let places = self.id_places@.map_values(|i: usize| i as int);
            assert forall|k: int| 0 <= k < self.id_places@.len() implies #[trigger] self.id_places@[k]
                < row.fields@.len() by {
                assert(plan.ids[k] == places[k]);
                assert(0 <= plan.ids[k] < plan.width);
            }
        }
        let id = composite_id(row.fields.as_slice(), self.id_places.as_slice());
        let well = rename_index(id.as_str());
        assert(well@ == plan.well_of(row@));
        if !contains_name(self.universe.as_slice(), &well) {
            return ;
        }
        assert(plan.accepts(row@));
        let mut hists = match well_take(&mut self.wells, &well) {
            Some(hists) => {
                proof {
                    assert forall|s: int| 0 <= s < hists.len() implies (#[trigger] hists[s]).wf() by {
                        assert(views(hists@)[s] == hists[s]@);
                        assert(plan.frames_at(before[well@][s], s));
                        hists[s].lemma_wf_view();
                        assert(weight(before[well@][s].counts) <= rows.len() * n);
                    }
                }
                hists
            },
            None => {
                proof {
                    assert(!plan.present(rows, well@));
                    assert forall|s: int, b: int| plan.tally(rows, well@, s, b) == 0 by {
                        lemma_tally_absent(plan, rows, well@, s, b);
                    }
                    assert(0 <= rows.len() * n) by (nonlinear_arith)
                        requires
                            0 <= rows.len(),
                            0 <= n,
                    ;
                }
                fresh(&self.frames, self.nbins)
            },
        };
        let ghost base = views(hists@);
        proof {
            assert forall|s: int| 0 <= s < n implies plan.frames_at((#[trigger] hists[s])@, s)
                && weight(hists[s]@.counts) <= rows.len() * n by {
                assert(base[s] == hists[s]@);
                if before.contains_key(well@) {
                    assert(plan.frames_at(before[well@][s], s));
                }
            }
            assert forall|s: int, b: int| 0 <= s < n && 0 <= b < plan.nbins implies (
            #[trigger] hists[s]@.counts[b]) == plan.tally(rows, well@, s, b) by {
                assert(base[s] == hists[s]@);
                if before.contains_key(well@) {
                    assert(before[well@][s].counts[b] == plan.tally(rows, well@, s, b));
                }
            }
        }
        let mut j: usize = 0;
        while j < n
            invariant
                j <= n,
                n == self.features@.len(),
                n == plan.features.len(),
                n == self.columns@.len(),
                n == self.slots@.len(),
                plan.wf(),
                plan.nbins == self.nbins,
                rows.len() * n + n <= i64::MAX,
                row.readings@.len() == plan.width,
                forall|k: int|
                    0 <= k < n ==> #[trigger] plan.columns[k] == (match self.columns@[k] {
                        Some(c) => Some(c as int),
                        None => None,
                    }),
                plan.slots == self.slots@.map_values(|i: usize| i as int),
                hists.len() == n,
                forall|s: int| 0 <= s < n ==> (#[trigger] hists[s]).wf(),
                forall|s: int| 0 <= s < n ==> plan.frames_at((#[trigger] hists[s])@, s),
                forall|s: int| 0 <= s < n ==> weight((#[trigger] hists[s])@.counts) <= rows.len() * n + j,
                forall|s: int, b: int|
                    0 <= s < n && 0 <= b < plan.nbins ==> (#[trigger] hists[s]@.counts[b])
                        == plan.tally(rows, well@, s, b) + plan.row_hits(row@, j as int, s, b),
            decreases n - j,
        {
            let ghost prior = views(hists@);
            let ghost held = hists@;
            let slot = self.slots[j];
            assert(plan.slots[j as int] == slot);
            let reading: Option<Reading> = match self.columns[j] {
                Some(c) => {
                    assert(plan.columns[j as int] == Some(c as int));
                    read(&row.readings[c])
                },
                None => None,
            };
            assert(reading == plan.tap(row@, j as int));
            assert(prior[slot as int] == hists[slot as int]@);
            hists[slot].deposit(&reading);
            proof {
                assert forall|s: int| 0 <= s < n implies (#[trigger] hists[s]).wf()
                    && plan.frames_at(hists[s]@, s) && weight(hists[s]@.counts) <= rows.len() * n
                    + j + 1 by {
                    if s != slot {
                        assert(hists[s] == held[s]);
                    }
                }
            }
            j += 1;
        }
        well_put(&mut self.wells, well, hists);
    }

    /// Ends the feeding: the wells with their histograms, each well once, in no
    /// stated order; beside them what scoring needs of the plan, and the
    /// universe.
    pub(crate) fn dissolve(self) -> (out: (Shape, Vec<String>, Vec<(String, Vec<Hist1D>)>))
        requires
            self.wf(),
        ensures
            out.0.follows(self.plan()),
            texts(out.1@) == self.plan().universe,
            lists(out.2@, self.state()),
            shaped(self.state(), self.plan()),
    {
        let ghost plan = self.plan@;
        let ghost state = wells_held(self.wells);
        proof {
            assert forall|w: Seq<char>, s: int|
                state.contains_key(w) && 0 <= s < plan.features.len() implies plan.frames_at(
                #[trigger] state[w][s],
                s,
            ) && weight(state[w][s].counts) <= i64::MAX by {
                assert(weight(state[w][s].counts) <= self.fed@.len() * plan.features.len());
            }
        }
        let shape = Shape {
            features: self.features,
            slots: self.slots,
            frames: self.frames,
            nbins: self.nbins,
        };
        let drained = well_drain(self.wells);
        (shape, self.universe, drained)
    }
}

/// The histograms that the rows of a table leave behind: for each well that
/// rows were taken in for, one histogram for each feature, and in each bin the
/// tally of the rows.
pub open spec fn accumulated(plan: Plan, rows: Seq<RowView>) -> Map<Seq<char>, Seq<HistView>> {
    Map::new(
        |w: Seq<char>| plan.present(rows, w),
        |w: Seq<char>|
            Seq::new(
                plan.features.len(),
                |s: int|
                    HistView {
                        nbins: plan.nbins,
                        xlow: plan.frames[s].xlow as int,
                        xhigh: plan.frames[s].xhigh as int,
                        counts: Seq::new(plan.nbins, |b: int| plan.tally(rows, w, s, b) as i64),
                        scale: 1,
                    },
            ),
    )
}

/// A state that holds the tally of the rows is the state that they leave
/// behind.
pub proof fn lemma_tallied_is_accumulated(
    plan: Plan,
    state: Map<Seq<char>, Seq<HistView>>,
    rows: Seq<RowView>,
)
    requires
        plan.tallied(state, rows),
    ensures
        state == accumulated(plan, rows),
{
    let want = accumulated(plan, rows);
    assert forall|w: Seq<char>| state.contains_key(w) implies #[trigger] state[w] == want[w] by {
        assert(state[w].len() == want[w].len());
        assert forall|s: int| 0 <= s < state[w].len() implies #[trigger] state[w][s]
            == want[w][s] by {
            assert(plan.frames_at(state[w][s], s));
            assert forall|b: int| 0 <= b < plan.nbins implies #[trigger] state[w][s].counts[b]
                == want[w][s].counts[b] by {
                assert(state[w][s].counts[b] == plan.tally(rows, w, s, b));
            }
            assert(state[w][s].counts =~= want[w][s].counts);
        }
        assert(state[w] =~= want[w]);
    }
    assert(state =~= want);
}

/// What the row at `i` adds to a tally.
pub proof fn lemma_tally_remove(
    plan: Plan,
    rows: Seq<RowView>,
    i: int,
    well: Seq<char>,
    slot: int,
    bin: int,
)
    requires
        0 <= i < rows.len(),
    ensures
        plan.tally(rows, well, slot, bin) == plan.tally(rows.remove(i), well, slot, bin) + (
        if plan.accepts(rows[i]) && plan.well_of(rows[i]) == well {
            plan.row_hits(rows[i], plan.features.len() as int, slot, bin)
        } else {
            0nat
        }),
    decreases rows.len(),
{
    if i == rows.len() - 1 {
        assert(rows.remove(i) =~= rows.drop_last());
    } else {
        lemma_tally_remove(plan, rows.drop_last(), i, well, slot, bin);
        assert(rows.remove(i).drop_last() =~= rows.drop_last().remove(i));
        assert(rows.remove(i).last() == rows.last());
    }
}

/// A tally does not depend on the order of the rows.
pub proof fn lemma_tally_permuted(
    plan: Plan,
    a: Seq<RowView>,
    b: Seq<RowView>,
    well: Seq<char>,
    slot: int,
    bin: int,
)
    requires
        a.to_multiset() == b.to_multiset(),
    ensures
        plan.tally(a, well, slot, bin) == plan.tally(b, well, slot, bin),
    decreases a.len(),
{
    vstd::seq_lib::to_multiset_len(a);
    vstd::seq_lib::to_multiset_len(b);
    assert(a.len() == b.len());
    if b.len() > 0 {
        let x = b.last();
        assert(b.contains(x)) by {
            assert(b[b.len() - 1] == x);
        }
        vstd::seq_lib::to_multiset_contains(b, x);
        vstd::seq_lib::to_multiset_contains(a, x);
        assert(a.contains(x));
        let i = choose|i: int| 0 <= i < a.len() && a[i] == x;
        assert(b.remove(b.len() - 1) =~= b.drop_last());
        vstd::seq_lib::to_multiset_remove(a, i);
        vstd::seq_lib::to_multiset_remove(b, b.len() - 1);
        assert(a.remove(i).to_multiset() =~= b.drop_last().to_multiset());
        lemma_tally_permuted(plan, a.remove(i), b.drop_last(), well, slot, bin);
        lemma_tally_remove(plan, a, i, well, slot, bin);
    }
}

/// Order independence: two tables that hold the same rows, in whatever order,
/// leave the same histograms behind.
pub proof fn lemma_order_independence(plan: Plan, a: Seq<RowView>, b: Seq<RowView>)
    requires
        a.to_multiset() == b.to_multiset(),
    ensures
        accumulated(plan, a) == accumulated(plan, b),
{
    let left = accumulated(plan, a);
    let right = accumulated(plan, b);
    assert forall|w: Seq<char>| plan.present(a, w) <==> plan.present(b, w) by {
        if plan.present(a, w) {
            let r = choose|r: int| plan.taken_at(a, r, w);
            assert(a.contains(a[r]));
            vstd::seq_lib::to_multiset_contains(a, a[r]);
            vstd::seq_lib::to_multiset_contains(b, a[r]);
            assert(b.contains(a[r]));
            let q = choose|q: int| 0 <= q < b.len() && b[q] == a[r];
            assert(plan.taken_at(b, q, w));
        }
        if plan.present(b, w) {
            let r = choose|r: int| plan.taken_at(b, r, w);
            assert(b.contains(b[r]));
            vstd::seq_lib::to_multiset_contains(b, b[r]);
            vstd::seq_lib::to_multiset_contains(a, b[r]);
            assert(a.contains(b[r]));
            let q = choose|q: int| 0 <= q < a.len() && a[q] == b[r];
            assert(plan.taken_at(a, q, w));
        }
    }
    assert forall|w: Seq<char>| left.contains_key(w) implies #[trigger] left[w] == right[w] by {
        assert forall|s: int| 0 <= s < plan.features.len() implies #[trigger] left[w][s]
            == right[w][s] by {
            assert forall|bin: int| 0 <= bin < plan.nbins implies #[trigger] left[w][s].counts[bin]
                == right[w][s].counts[bin] by {
                lemma_tally_permuted(plan, a, b, w, s, bin);
            }
            assert(left[w][s].counts =~= right[w][s].counts);
        }
        assert(left[w] =~= right[w]);
    }
    assert(left =~= right);
}

/// Rows are taken in by the canonical name of their well: every well that has
/// histograms goes by its canonical name and is of the universe.
pub proof fn lemma_wells_canonical(plan: Plan, rows: Seq<RowView>, well: Seq<char>)
    requires
        accumulated(plan, rows).contains_key(well),
    ensures
        crate::wells::is_canonical(well),
        plan.universe.contains(well),
{
    let r = choose|r: int| plan.taken_at(rows, r, well);
    crate::wells::lemma_canonical_idempotent(joined(picked(rows[r].fields, plan.ids)));
}

} // verus!
