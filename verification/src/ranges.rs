//! One pass over the table that finds the range of every feature.
//!
//! The pass itself (`RangeScanner`, `scan_plate`) finds the least and the
//! greatest value of each feature. The ranges of the plate
//! (`get_min_max_plate`) come from that in a second step, which gives every
//! feature with one value alone a high end of its own: no histogram is ever
//! made over a range without width.

use crate::columns::{all_present, contains_name, locate, located, texts};
use crate::histograms::MinMax;
use crate::keys::{
    finite_key, is_finite_pattern, is_number_bits, is_number_pattern, key_of, key_of_bits,
    ONE_BITS,
};
use crate::shared::{span_get, span_map, span_put, spans_held};
use dashmap::DashMap;
use vstd::prelude::*;

verus! {

/// Why a scan gave no ranges.
#[derive(Clone, Copy, Debug, PartialEq, Eq)]
pub enum ScanError {
    /// An identifier column is not among the headers.
    MissingIdColumn,
    /// A feature with one value alone was handed no high end of its own.
    NoHighEnd,
}

/// What a pass over the table found, as it was found: a feature with one value
/// alone has that value at both ends of its range.
#[derive(Debug)]
pub struct PlateScan {
    /// The least and the greatest value of each usable feature, in the order
    /// of `features`.
    pub min_max: Vec<(String, MinMax)>,
    /// The usable features, in the order of their columns.
    pub features: Vec<String>,
    /// The features under which no value was found, each once; `None` where
    /// there is no such feature.
    pub problemativ_features: Option<Vec<String>>,
    /// How many rows were left out because they had not one cell per header.
    pub skipped_rows: usize,
}

/// The ranges of the features of a plate. No range has its two ends at one
/// value.
#[derive(Debug)]
pub struct MinMaxPlateResult {
    /// The range of each usable feature, in the order of `features`.
    pub min_max: Vec<(String, MinMax)>,
    /// The usable features, in the order of their columns.
    pub features: Vec<String>,
    /// The features under which no value was found, each once; `None` where
    /// there is no such feature.
    pub problemativ_features: Option<Vec<String>>,
    /// How many rows were left out because they had not one cell per header.
    pub skipped_rows: usize,
}

/// Whether column `i` of `cells` is a feature column named `name` that holds
/// a finite value with key `key`. The columns `ids` are the identifier columns.
pub open spec fn shows_at(
    headers: Seq<Seq<char>>,
    ids: Seq<int>,
    cells: Seq<Option<u64>>,
    i: int,
    name: Seq<char>,
    key: int,
) -> bool {
    &&& 0 <= i < headers.len()
    &&& i < cells.len()
    &&& !ids.contains(i)
    &&& headers[i] == name
    &&& cells[i] is Some
    &&& is_finite_pattern(cells[i]->0)
    &&& key_of(cells[i]->0) == key
}

/// Whether some column before `upto` shows `key` under `name`.
pub open spec fn shows_before(
    headers: Seq<Seq<char>>,
    ids: Seq<int>,
    cells: Seq<Option<u64>>,
    upto: int,
    name: Seq<char>,
    key: int,
) -> bool {
    exists|i: int| 0 <= i < upto && shows_at(headers, ids, cells, i, name, key)
}

/// Whether row `r` has one cell per header and shows `key` under `name`.
pub open spec fn row_shows(
    headers: Seq<Seq<char>>,
    ids: Seq<int>,
    rows: Seq<Seq<Option<u64>>>,
    r: int,
    name: Seq<char>,
    key: int,
) -> bool {
    &&& 0 <= r < rows.len()
    &&& rows[r].len() == headers.len()
    &&& shows_before(headers, ids, rows[r], headers.len() as int, name, key)
}

/// Whether some row of the table shows `key` under the feature `name`.
pub open spec fn observed(
    headers: Seq<Seq<char>>,
    ids: Seq<int>,
    rows: Seq<Seq<Option<u64>>>,
    name: Seq<char>,
    key: int,
) -> bool {
    exists|r: int| row_shows(headers, ids, rows, r, name, key)
}

/// Whether any value at all was observed under the feature `name`.
pub open spec fn usable(
    headers: Seq<Seq<char>>,
    ids: Seq<int>,
    rows: Seq<Seq<Option<u64>>>,
    name: Seq<char>,
) -> bool {
    exists|key: int| observed(headers, ids, rows, name, key)
}

/// Whether `name` is the name of a feature column.
pub open spec fn is_feature(headers: Seq<Seq<char>>, ids: Seq<int>, name: Seq<char>) -> bool {
    exists|i: int| feature_at(headers, ids, i, name)
}

/// Whether column `i` is a feature column named `name`.
pub open spec fn feature_at(headers: Seq<Seq<char>>, ids: Seq<int>, i: int, name: Seq<char>) -> bool {
    0 <= i < headers.len() && !ids.contains(i) && headers[i] == name
}

/// Whether `span` is the range of the values observed under `name`: `None`
/// where none was observed, else the least and the greatest of them.
pub open spec fn summarises(
    span: Option<MinMax>,
    headers: Seq<Seq<char>>,
    ids: Seq<int>,
    rows: Seq<Seq<Option<u64>>>,
    name: Seq<char>,
) -> bool {
    match span {
        None => forall|key: int| !observed(headers, ids, rows, name, key),
        Some(m) => {
            &&& observed(headers, ids, rows, name, m.xlow as int)
            &&& observed(headers, ids, rows, name, m.xhigh as int)
            &&& forall|key: int| #[trigger]
                observed(headers, ids, rows, name, key) ==> m.xlow <= key <= m.xhigh
        },
    }
}

/// The names of the usable feature columns before `upto`, in column order.
pub open spec fn usable_features(
    headers: Seq<Seq<char>>,
    ids: Seq<int>,
    rows: Seq<Seq<Option<u64>>>,
    upto: int,
) -> Seq<Seq<char>>
    decreases upto,
{
    if upto <= 0 {
        Seq::empty()
    } else {
        let before = usable_features(headers, ids, rows, upto - 1);
        if !ids.contains(upto - 1) && usable(headers, ids, rows, headers[upto - 1]) {
            before.push(headers[upto - 1])
        } else {
            before
        }
    }
}

/// The names of the feature columns before `upto` under which no value was
/// observed, each once, in the order of their first columns.
pub open spec fn problem_features(
    headers: Seq<Seq<char>>,
    ids: Seq<int>,
    rows: Seq<Seq<Option<u64>>>,
    upto: int,
) -> Seq<Seq<char>>
    decreases upto,
{
    if upto <= 0 {
        Seq::empty()
    } else {
        let before = problem_features(headers, ids, rows, upto - 1);
        let name = headers[upto - 1];
        if !ids.contains(upto - 1) && !usable(headers, ids, rows, name) && !before.contains(name) {
            before.push(name)
        } else {
            before
        }
    }
}

/// A span after one more value with key `key`.
pub open spec fn absorbed(span: Option<MinMax>, key: i64) -> Option<MinMax> {
    match span {
        None => Some(MinMax { xlow: key, xhigh: key }),
        Some(m) => Some(
            MinMax {
                xlow: if key < m.xlow {
                    key
                } else {
                    m.xlow
                },
                xhigh: if key > m.xhigh {
                    key
                } else {
                    m.xhigh
                },
            },
        ),
    }
}

/// Whether a value was seen in the rows, or in the row at hand before column
/// `upto`.
pub open spec fn known(
    headers: Seq<Seq<char>>,
    ids: Seq<int>,
    rows: Seq<Seq<Option<u64>>>,
    cur: Seq<Option<u64>>,
    upto: int,
    name: Seq<char>,
    key: int,
) -> bool {
    observed(headers, ids, rows, name, key) || shows_before(headers, ids, cur, upto, name, key)
}

/// `summarises`, with the row at hand counted up to column `upto`.
pub open spec fn tracks(
    span: Option<MinMax>,
    headers: Seq<Seq<char>>,
    ids: Seq<int>,
    rows: Seq<Seq<Option<u64>>>,
    cur: Seq<Option<u64>>,
    upto: int,
    name: Seq<char>,
) -> bool {
    match span {
        None => forall|key: int| !known(headers, ids, rows, cur, upto, name, key),
        Some(m) => {
            &&& known(headers, ids, rows, cur, upto, name, m.xlow as int)
            &&& known(headers, ids, rows, cur, upto, name, m.xhigh as int)
            &&& forall|key: int| #[trigger]
                known(headers, ids, rows, cur, upto, name, key) ==> m.xlow <= key <= m.xhigh
        },
    }
}

proof fn lemma_known_step(
    headers: Seq<Seq<char>>,
    ids: Seq<int>,
    rows: Seq<Seq<Option<u64>>>,
    cur: Seq<Option<u64>>,
    i: int,
    name: Seq<char>,
    key: int,
)
    requires
        0 <= i,
    ensures
        known(headers, ids, rows, cur, i + 1, name, key) <==> known(
            headers,
            ids,
            rows,
            cur,
            i,
            name,
            key,
        ) || shows_at(headers, ids, cur, i, name, key),
{
    if shows_before(headers, ids, cur, i + 1, name, key) {
        let w = choose|w: int| 0 <= w < i + 1 && shows_at(headers, ids, cur, w, name, key);
        if w < i {
            assert(shows_before(headers, ids, cur, i, name, key));
        }
    }
    if shows_before(headers, ids, cur, i, name, key) {
        let w = choose|w: int| 0 <= w < i && shows_at(headers, ids, cur, w, name, key);
        assert(0 <= w < i + 1 && shows_at(headers, ids, cur, w, name, key));
    }
    if shows_at(headers, ids, cur, i, name, key) {
        assert(0 <= i < i + 1 && shows_at(headers, ids, cur, i, name, key));
    }
}

proof fn lemma_known_row(
    headers: Seq<Seq<char>>,
    ids: Seq<int>,
    rows: Seq<Seq<Option<u64>>>,
    cur: Seq<Option<u64>>,
    name: Seq<char>,
    key: int,
)
    ensures
        observed(headers, ids, rows.push(cur), name, key) <==> observed(
            headers,
            ids,
            rows,
            name,
            key,
        ) || (cur.len() == headers.len() && shows_before(
            headers,
            ids,
            cur,
            headers.len() as int,
            name,
            key,
        )),
        known(headers, ids, rows, cur, 0, name, key) <==> observed(headers, ids, rows, name, key),
{
    let more = rows.push(cur);
    if observed(headers, ids, more, name, key) {
        let r = choose|r: int| row_shows(headers, ids, more, r, name, key);
        if r < rows.len() {
            assert(more[r] == rows[r]);
            assert(row_shows(headers, ids, rows, r, name, key));
        } else {
            assert(more[r] == cur);
        }
    }
    if observed(headers, ids, rows, name, key) {
        let r = choose|r: int| row_shows(headers, ids, rows, r, name, key);
        assert(more[r] == rows[r]);
        assert(row_shows(headers, ids, more, r, name, key));
    }
    if cur.len() == headers.len() && shows_before(
        headers,
        ids,
        cur,
        headers.len() as int,
        name,
        key,
    ) {
        assert(more[rows.len() as int] == cur);
        assert(row_shows(headers, ids, more, rows.len() as int, name, key));
    }
}

proof fn lemma_tracks_step(
    span: Option<MinMax>,
    headers: Seq<Seq<char>>,
    ids: Seq<int>,
    rows: Seq<Seq<Option<u64>>>,
    cur: Seq<Option<u64>>,
    i: int,
    name: Seq<char>,
    hit: Option<i64>,
)
    requires
        0 <= i,
        tracks(span, headers, ids, rows, cur, i, name),
        hit is None ==> forall|k: int| !shows_at(headers, ids, cur, i, name, k),
        hit is Some ==> forall|k: int| shows_at(headers, ids, cur, i, name, k) <==> k == hit->0,
    ensures
        tracks(
            match hit {
                None => span,
                Some(key) => absorbed(span, key),
            },
            headers,
            ids,
            rows,
            cur,
            i + 1,
            name,
        ),
{
    let j = i + 1;
    assert forall|k: int|
        known(headers, ids, rows, cur, j, name, k) <==> known(
            headers,
            ids,
            rows,
            cur,
            i,
            name,
            k,
        ) || shows_at(headers, ids, cur, i, name, k) by {
        lemma_known_step(headers, ids, rows, cur, i, name, k);
    }
    match hit {
        None => {
            match span {
                None => {
                    assert forall|k: int| !known(headers, ids, rows, cur, j, name, k) by {
                        lemma_known_step(headers, ids, rows, cur, i, name, k);
                    }
                },
                Some(m) => {
                    lemma_known_step(headers, ids, rows, cur, i, name, m.xlow as int);
                    lemma_known_step(headers, ids, rows, cur, i, name, m.xhigh as int);
                    assert forall|k: int| #[trigger]
                        known(headers, ids, rows, cur, j, name, k) implies m.xlow <= k
                        <= m.xhigh by {
                        lemma_known_step(headers, ids, rows, cur, i, name, k);
                    }
                },
            }
        },
        Some(key) => {
            let next = absorbed(span, key)->0;
            lemma_known_step(headers, ids, rows, cur, i, name, key as int);
            assert(shows_at(headers, ids, cur, i, name, key as int));
            match span {
                None => {
                    assert forall|k: int| #[trigger]
                        known(headers, ids, rows, cur, j, name, k) implies next.xlow <= k
                        <= next.xhigh by {
                        lemma_known_step(headers, ids, rows, cur, i, name, k);
                    }
                },
                Some(m) => {
                    lemma_known_step(headers, ids, rows, cur, i, name, m.xlow as int);
                    lemma_known_step(headers, ids, rows, cur, i, name, m.xhigh as int);
                    assert forall|k: int| #[trigger]
                        known(headers, ids, rows, cur, j, name, k) implies next.xlow <= k
                        <= next.xhigh by {
                        lemma_known_step(headers, ids, rows, cur, i, name, k);
                    }
                },
            }
        },
    }
}

proof fn lemma_tracks_start(
    span: Option<MinMax>,
    headers: Seq<Seq<char>>,
    ids: Seq<int>,
    rows: Seq<Seq<Option<u64>>>,
    cur: Seq<Option<u64>>,
    name: Seq<char>,
)
    requires
        summarises(span, headers, ids, rows, name),
    ensures
        tracks(span, headers, ids, rows, cur, 0, name),
        cur.len() != headers.len() ==> summarises(span, headers, ids, rows.push(cur), name),
{
    assert forall|k: int|
        known(headers, ids, rows, cur, 0, name, k) <==> observed(headers, ids, rows, name, k) by {
        lemma_known_row(headers, ids, rows, cur, name, k);
    }
    match span {
        None => {
            assert forall|k: int| !known(headers, ids, rows, cur, 0, name, k) by {
                lemma_known_row(headers, ids, rows, cur, name, k);
            }
            if cur.len() != headers.len() {
                assert forall|k: int| !observed(headers, ids, rows.push(cur), name, k) by {
                    lemma_known_row(headers, ids, rows, cur, name, k);
                }
            }
        },
        Some(m) => {
            lemma_known_row(headers, ids, rows, cur, name, m.xlow as int);
            lemma_known_row(headers, ids, rows, cur, name, m.xhigh as int);
            assert forall|k: int| #[trigger]
                known(headers, ids, rows, cur, 0, name, k) implies m.xlow <= k <= m.xhigh by {
                lemma_known_row(headers, ids, rows, cur, name, k);
            }
            if cur.len() != headers.len() {
                assert forall|k: int| #[trigger]
                    observed(headers, ids, rows.push(cur), name, k) implies m.xlow <= k
                    <= m.xhigh by {
                    lemma_known_row(headers, ids, rows, cur, name, k);
                }
            }
        },
    }
}

proof fn lemma_tracks_done(
    span: Option<MinMax>,
    headers: Seq<Seq<char>>,
    ids: Seq<int>,
    rows: Seq<Seq<Option<u64>>>,
    cur: Seq<Option<u64>>,
    name: Seq<char>,
)
    requires
        cur.len() == headers.len(),
        tracks(span, headers, ids, rows, cur, headers.len() as int, name),
    ensures
        summarises(span, headers, ids, rows.push(cur), name),
{
    let n = headers.len() as int;
    match span {
        None => {
            assert forall|k: int| !observed(headers, ids, rows.push(cur), name, k) by {
                lemma_known_row(headers, ids, rows, cur, name, k);
                assert(!known(headers, ids, rows, cur, n, name, k));
            }
        },
        Some(m) => {
            lemma_known_row(headers, ids, rows, cur, name, m.xlow as int);
            lemma_known_row(headers, ids, rows, cur, name, m.xhigh as int);
            assert forall|k: int| #[trigger]
                observed(headers, ids, rows.push(cur), name, k) implies m.xlow <= k
                <= m.xhigh by {
                lemma_known_row(headers, ids, rows, cur, name, k);
                assert(known(headers, ids, rows, cur, n, name, k));
            }
        },
    }
}

/// A pass over a table, fed row by row.
pub struct RangeScanner {
    headers: Vec<String>,
    is_id: Vec<bool>,
    spans: DashMap<String, Option<MinMax>>,
    skipped: usize,
    ids: Ghost<Seq<int>>,
    seen: Ghost<Seq<Seq<Option<u64>>>>,
}

impl RangeScanner {
    /// The headers of the table.
    pub closed spec fn headers(&self) -> Seq<Seq<char>> {
        texts(self.headers@)
    }

    /// The places of the identifier columns.
    pub closed spec fn ids(&self) -> Seq<int> {
        self.ids@
    }

    /// The rows fed so far.
    pub closed spec fn seen(&self) -> Seq<Seq<Option<u64>>> {
        self.seen@
    }

    /// How many of the rows fed so far were left out.
    pub closed spec fn skipped(&self) -> nat {
        self.skipped as nat
    }

    /// The scanner holds, under each feature name, the range of the values
    /// that the rows fed so far show under that name.
    pub closed spec fn wf(&self) -> bool {
        &&& self.is_id@.len() == self.headers@.len()
        &&& forall|i: int| 0 <= i < self.is_id@.len() ==> self.is_id@[i] == self.ids@.contains(i)
        &&& forall|name: Seq<char>| #[trigger]
            spans_held(self.spans).contains_key(name) <==> is_feature(
                texts(self.headers@),
                self.ids@,
                name,
            )
        &&& forall|name: Seq<char>| #[trigger]
            spans_held(self.spans).contains_key(name) ==> summarises(
                spans_held(self.spans)[name],
                texts(self.headers@),
                self.ids@,
                self.seen@,
                name,
            )
    }

    /// A scanner for a table with the headers `headers`, of which the columns
    /// `id_cols` identify the row; or the error, where one of them is missing.
    pub fn new(headers: &[String], id_cols: &[String]) -> (out: Result<RangeScanner, ScanError>)
        ensures
            out is Err <==> !all_present(texts(headers@), texts(id_cols@)),
            out is Err ==> out->Err_0 == ScanError::MissingIdColumn,
            out is Ok ==> {
                &&& out->Ok_0.wf()
                &&& out->Ok_0.headers() == texts(headers@)
                &&& out->Ok_0.ids() == located(texts(headers@), texts(id_cols@))
                &&& out->Ok_0.seen() == Seq::<Seq<Option<u64>>>::empty()
                &&& out->Ok_0.skipped() == 0
            },
    {
        let places = match locate(headers, id_cols) {
            Some(places) => places,
            None => {
                return Err(ScanError::MissingIdColumn);
            },
        };
        let ghost hs = texts(headers@);
        let ghost ids = located(hs, texts(id_cols@));
        assert(ids == places@.map_values(|i: usize| i as int));
        let n = headers.len();
        // Which columns identify the row.
        let mut is_id: Vec<bool> = Vec::new();
        let mut i: usize = 0;
        while i < n
            invariant
                i <= n,
                is_id.len() == i,
                forall|j: int| 0 <= j < i ==> !is_id@[j],
            decreases n - i,
        {
            is_id.push(false);
            i += 1;
        }
        let mut k: usize = 0;
        while k < places.len()
            invariant
                k <= places.len(),
                is_id.len() == n,
                n == headers.len(),
                ids == places@.map_values(|i: usize| i as int),
                forall|j: int| 0 <= j < places.len() ==> #[trigger] places[j] < headers.len(),
                forall|j: int| 0 <= j < n ==> is_id@[j] == ids.take(k as int).contains(j),
            decreases places.len() - k,
        {
            let at = places[k];
            is_id.set(at, true);
            proof {
                assert(ids[k as int] == at);
                let t0 = ids.take(k as int);
                let t1 = ids.take(k + 1);
                assert forall|j: int| 0 <= j < n implies is_id@[j] == t1.contains(j) by {
                    if t1.contains(j) {
                        let w = choose|w: int| 0 <= w < t1.len() && t1[w] == j;
                        if w < k {
                            assert(t0[w] == j);
                        }
                    }
                    if t0.contains(j) {
                        let w = choose|w: int| 0 <= w < t0.len() && t0[w] == j;
                        assert(t1[w] == j);
                    }
                    if j == at {
                        assert(t1[k as int] == j);
                    }
                }
            }
            k += 1;
        }
        assert(ids.take(k as int) =~= ids);
        // One empty span under the name of every feature column.
        let mut spans = span_map();
        let mut own: Vec<String> = Vec::new();
        let ghost none = Seq::<Seq<Option<u64>>>::empty();
        let mut i: usize = 0;
        while i < n
            invariant
                i <= n,
                n == headers.len(),
                hs == texts(headers@),
                is_id.len() == n,
                own.len() == i,
                forall|j: int| 0 <= j < i ==> (#[trigger] own[j])@ == hs[j],
                forall|j: int| 0 <= j < n ==> is_id@[j] == ids.contains(j),
                forall|name: Seq<char>| #[trigger]
                    spans_held(spans).contains_key(name) <==> exists|c: int|
                        0 <= c < i && feature_at(hs, ids, c, name),
                forall|name: Seq<char>| #[trigger]
                    spans_held(spans).contains_key(name) ==> spans_held(spans)[name] is None,
            decreases n - i,
        {
            let ghost before = spans_held(spans);
            let name = headers[i].clone();
            assert(name@ == hs[i as int]);
            own.push(headers[i].clone());
            if !is_id[i] {
                span_put(&mut spans, name, None);
                proof {
                    let after = spans_held(spans);
                    assert forall|f: Seq<char>| #[trigger] after.contains_key(f) <==> exists|c: int|
                        0 <= c < i + 1 && feature_at(hs, ids, c, f) by {
                        if after.contains_key(f) {
                            if f == hs[i as int] {
                                assert(feature_at(hs, ids, i as int, f));
                            } else {
                                assert(before.contains_key(f));
                                let c = choose|c: int| 0 <= c < i && feature_at(hs, ids, c, f);
                                assert(0 <= c < i + 1 && feature_at(hs, ids, c, f));
                            }
                        }
                        if exists|c: int| 0 <= c < i + 1 && feature_at(hs, ids, c, f) {
                            let c = choose|c: int| 0 <= c < i + 1 && feature_at(hs, ids, c, f);
                            if c < i {
                                assert(before.contains_key(f));
                            }
                        }
                    }
                }
            } else {
                proof {
                    assert forall|f: Seq<char>| #[trigger] before.contains_key(f) <==> exists|c: int|
                        0 <= c < i + 1 && feature_at(hs, ids, c, f) by {
                        if before.contains_key(f) {
                            let c = choose|c: int| 0 <= c < i && feature_at(hs, ids, c, f);
                            assert(0 <= c < i + 1 && feature_at(hs, ids, c, f));
                        }
                        if exists|c: int| 0 <= c < i + 1 && feature_at(hs, ids, c, f) {
                            let c = choose|c: int| 0 <= c < i + 1 && feature_at(hs, ids, c, f);
                            assert(c < i);
                        }
                    }
                }
            }
            i += 1;
        }
        let scanner = RangeScanner {
            headers: own,
            is_id,
            spans,
            skipped: 0,
            ids: Ghost(ids),
            seen: Ghost(none),
        };
        proof {
            assert(texts(scanner.headers@) =~= hs);
            let held = spans_held(scanner.spans);
            assert forall|name: Seq<char>| #[trigger] held.contains_key(name) <==> is_feature(
                hs,
                ids,
                name,
            ) by {
                if held.contains_key(name) {
                    let c = choose|c: int| 0 <= c < n && feature_at(hs, ids, c, name);
                    assert(feature_at(hs, ids, c, name));
                }
                if is_feature(hs, ids, name) {
                    let c = choose|c: int| feature_at(hs, ids, c, name);
                    assert(0 <= c < n && feature_at(hs, ids, c, name));
                }
            }
            assert forall|name: Seq<char>| #[trigger] held.contains_key(name) implies summarises(
                held[name],
                hs,
                ids,
                none,
                name,
            ) by {
                assert forall|key: int| !observed(hs, ids, none, name, key) by {
                    if observed(hs, ids, none, name, key) {
                        let r = choose|r: int| row_shows(hs, ids, none, r, name, key);
                        assert(false);
                    }
                }
            }
        }
        Ok(scanner)
    }

    /// Feeds one row: one cell per header, each the bit pattern of the value
    /// read there, or `None` where no value was read. A value that is not
    /// finite counts for nothing. A row of another length is left out and
    /// counted.
    pub fn observe(&mut self, cells: &[Option<u64>])
        requires
            old(self).wf(),
        ensures
            final(self).wf(),
            final(self).headers() == old(self).headers(),
            final(self).ids() == old(self).ids(),
            final(self).seen() == old(self).seen().push(cells@),
            final(self).skipped() == (if cells.len() == old(self).headers().len() || old(
                self,
            ).skipped() == usize::MAX {
                old(self).skipped()
            } else {
                old(self).skipped() + 1
            }),
    {
        let ghost hs = texts(self.headers@);
        let ghost ids = self.ids@;
        let ghost rows = self.seen@;
        let ghost cur = cells@;
        let n = self.headers.len();
        proof {
            let held = spans_held(self.spans);
            assert forall|name: Seq<char>| #[trigger] held.contains_key(name) implies tracks(
                held[name],
                hs,
                ids,
                rows,
                cur,
                0,
                name,
            ) && (cur.len() != hs.len() ==> summarises(held[name], hs, ids, rows.push(cur), name)) by {
                lemma_tracks_start(held[name], hs, ids, rows, cur, name);
            }
        }
        if cells.len() != n {
            if self.skipped < usize::MAX {
                self.skipped = self.skipped + 1;
            }
            self.seen = Ghost(rows.push(cur));
            return ;
        }
        let mut i: usize = 0;
        while i < n
            invariant
                i <= n,
                n == self.headers.len(),
                n == cells.len(),
                cur == cells@,
                hs == texts(self.headers@),
                ids == self.ids@,
                rows == self.seen@,
                self.skipped == old(self).skipped,
                self.is_id@.len() == n,
                forall|j: int| 0 <= j < n ==> self.is_id@[j] == ids.contains(j),
                forall|name: Seq<char>| #[trigger]
                    spans_held(self.spans).contains_key(name) <==> is_feature(hs, ids, name),
                forall|name: Seq<char>| #[trigger]
                    spans_held(self.spans).contains_key(name) ==> tracks(
                        spans_held(self.spans)[name],
                        hs,
                        ids,
                        rows,
                        cur,
                        i as int,
                        name,
                    ),
            decreases n - i,
        {
            let ghost before = spans_held(self.spans);
            let ghost g = hs[i as int];
            let mut hit: Option<i64> = None;
            if !self.is_id[i] {
                hit = match cells[i] {
                    Some(bits) => finite_key(bits),
                    None => None,
                };
            }
            proof {
                assert(self.is_id@[i as int] == ids.contains(i as int));
            }
            match hit {
                Some(key) => {
                    let name = self.headers[i].clone();
                    assert(name@ == g);
                    assert(feature_at(hs, ids, i as int, g));
                    assert(is_feature(hs, ids, g));
                    match span_get(&self.spans, &name) {
                        Some(span) => {
                            let next = match span {
                                None => MinMax { xlow: key, xhigh: key },
                                Some(m) => MinMax {
                                    xlow: if key < m.xlow {
                                        key
                                    } else {
                                        m.xlow
                                    },
                                    xhigh: if key > m.xhigh {
                                        key
                                    } else {
                                        m.xhigh
                                    },
                                },
                            };
                            assert(Some(next) == absorbed(span, key));
                            span_put(&mut self.spans, name, Some(next));
                        },
                        None => {
                            assert(false);
                        },
                    }
                },
                None => {},
            }
            proof {
                let after = spans_held(self.spans);
                assert forall|f: Seq<char>| #[trigger] after.contains_key(f) implies tracks(
                    after[f],
                    hs,
                    ids,
                    rows,
                    cur,
                    i + 1,
                    f,
                ) by {
                    assert(before.contains_key(f));
                    if hit is Some && f == g {
                        lemma_tracks_step(before[f], hs, ids, rows, cur, i as int, f, hit);
                    } else {
                        assert(after[f] == before[f]);
                        lemma_tracks_step(before[f], hs, ids, rows, cur, i as int, f, None);
                    }
                }
                assert forall|f: Seq<char>| #[trigger] after.contains_key(f) <==> is_feature(
                    hs,
                    ids,
                    f,
                ) by {
                    assert(before.contains_key(f) <==> is_feature(hs, ids, f));
                }
            }
            i += 1;
        }
        self.seen = Ghost(rows.push(cur));
        proof {
            let held = spans_held(self.spans);
            assert forall|name: Seq<char>| #[trigger] held.contains_key(name) implies summarises(
                held[name],
                hs,
                ids,
                rows.push(cur),
                name,
            ) by {
                lemma_tracks_done(held[name], hs, ids, rows, cur, name);
            }
        }
    }

    /// Ends the pass: the usable features with their ranges, and the features
    /// under which nothing was found.
    pub fn finish(self) -> (out: PlateScan)
        requires
            self.wf(),
        ensures
            out.wf(),
            out.describes(self.headers(), self.ids(), self.seen()),
            out.skipped_rows == self.skipped(),
    {
        let ghost hs = texts(self.headers@);
        let ghost ids = self.ids@;
        let ghost rows = self.seen@;
        let ghost held = spans_held(self.spans);
        let n = self.headers.len();
        let mut features: Vec<String> = Vec::new();
        let mut min_max: Vec<(String, MinMax)> = Vec::new();
        let mut problematic: Vec<String> = Vec::new();
        proof {
            assert forall|name: Seq<char>| #[trigger] held.contains_key(name) implies (held[name]
                is Some <==> usable(hs, ids, rows, name)) by {
                lemma_usable(held[name], hs, ids, rows, name);
            }
        }
        let mut i: usize = 0;
        while i < n
            invariant
                i <= n,
                n == self.headers.len(),
                hs == texts(self.headers@),
                ids == self.ids@,
                rows == self.seen@,
                held == spans_held(self.spans),
                self.wf(),
                forall|name: Seq<char>| #[trigger]
                    held.contains_key(name) ==> (held[name] is Some <==> usable(hs, ids, rows, name)),
                texts(features@) == usable_features(hs, ids, rows, i as int),
                min_max.len() == features.len(),
                forall|k: int|
                    0 <= k < min_max.len() ==> (#[trigger] min_max[k]).0@ == features[k]@
                        && summarises(Some(min_max[k].1), hs, ids, rows, features[k]@),
                texts(problematic@) == problem_features(hs, ids, rows, i as int),
                texts(problematic@).no_duplicates(),
                forall|name: Seq<char>|
                    texts(problematic@).contains(name) <==> (exists|c: int|
                        0 <= c < i && feature_at(hs, ids, c, name)) && !usable(hs, ids, rows, name),
            decreases n - i,
        {
            let ghost g = hs[i as int];
            let ghost old_features = texts(features@);
            let ghost old_problematic = texts(problematic@);
            let mut added = false;
            assert(self.is_id@[i as int] == ids.contains(i as int));
            if !self.is_id[i] {
                let name = self.headers[i].clone();
                assert(name@ == g);
                assert(feature_at(hs, ids, i as int, g));
                assert(is_feature(hs, ids, g));
                assert(held.contains_key(g));
                match span_get(&self.spans, &name) {
                    Some(Some(m)) => {
                        features.push(self.headers[i].clone());
                        min_max.push((name, m));
                        assert(texts(features@) =~= old_features.push(g));
                    },
                    Some(None) => {
                        if !contains_name(problematic.as_slice(), &name) {
                            problematic.push(name);
                            added = true;
                            assert(texts(problematic@) =~= old_problematic.push(g));
                        }
                    },
                    None => {
                        assert(false);
                    },
                }
            }
            proof {
                let now = texts(problematic@);
                if added {
                    assert(now == old_problematic.push(g));
                    assert forall|a: int, b: int| 0 <= a < b < now.len() implies now[a] != now[b] by {
                        if b == now.len() - 1 {
                            assert(old_problematic[a] == now[a]);
                        } else {
                            assert(old_problematic[a] == now[a]);
                            assert(old_problematic[b] == now[b]);
                        }
                    }
                } else {
                    assert(now =~= old_problematic);
                }
                assert forall|name: Seq<char>|
                    now.contains(name) <==> (exists|c: int|
                        0 <= c < i + 1 && feature_at(hs, ids, c, name)) && !usable(
                        hs,
                        ids,
                        rows,
                        name,
                    ) by {
                    if now.contains(name) {
                        let w = choose|w: int| 0 <= w < now.len() && now[w] == name;
                        if added && w == now.len() - 1 {
                            assert(name == g);
                            assert(feature_at(hs, ids, i as int, name));
                        } else {
                            assert(old_problematic[w] == name);
                            assert(old_problematic.contains(name));
                            let c = choose|c: int| 0 <= c < i && feature_at(hs, ids, c, name);
                            assert(0 <= c < i + 1 && feature_at(hs, ids, c, name));
                        }
                    }
                    if (exists|c: int| 0 <= c < i + 1 && feature_at(hs, ids, c, name)) && !usable(
                        hs,
                        ids,
                        rows,
                        name,
                    ) {
                        let c = choose|c: int| 0 <= c < i + 1 && feature_at(hs, ids, c, name);
                        if c < i {
                            assert(old_problematic.contains(name));
                            let w = choose|w: int|
                                0 <= w < old_problematic.len() && old_problematic[w] == name;
                            assert(now[w] == name);
                        } else {
                            assert(name == g);
                            if added {
                                assert(now[now.len() - 1] == name);
                            } else {
                                assert(old_problematic.contains(name));
                            }
                        }
                    }
                }
            }
            i += 1;
        }
        let ghost all = texts(problematic@);
        let skipped_rows = self.skipped;
        let problemativ_features = if problematic.len() == 0 {
            None
        } else {
            Some(problematic)
        };
        let out = PlateScan { min_max, features, problemativ_features, skipped_rows };
        proof {
            assert forall|name: Seq<char>|
                all.contains(name) <==> is_feature(hs, ids, name) && !usable(
                    hs,
                    ids,
                    rows,
                    name,
                ) by {
                if is_feature(hs, ids, name) {
                    let c = choose|c: int| feature_at(hs, ids, c, name);
                    assert(0 <= c < n && feature_at(hs, ids, c, name));
                }
                if all.contains(name) {
                    let c = choose|c: int| 0 <= c < n && feature_at(hs, ids, c, name);
                    assert(feature_at(hs, ids, c, name));
                }
            }
            if all.len() == 0 {
                assert forall|name: Seq<char>| is_feature(hs, ids, name) implies usable(
                    hs,
                    ids,
                    rows,
                    name,
                ) by {
                    if !usable(hs, ids, rows, name) {
                        assert(all.contains(name));
                    }
                }
            }
        }
        out
    }
}

proof fn lemma_usable(
    span: Option<MinMax>,
    headers: Seq<Seq<char>>,
    ids: Seq<int>,
    rows: Seq<Seq<Option<u64>>>,
    name: Seq<char>,
)
    requires
        summarises(span, headers, ids, rows, name),
    ensures
        span is Some <==> usable(headers, ids, rows, name),
{
    match span {
        None => {
            if usable(headers, ids, rows, name) {
                let k = choose|k: int| observed(headers, ids, rows, name, k);
                assert(!observed(headers, ids, rows, name, k));
            }
        },
        Some(m) => {
            assert(observed(headers, ids, rows, name, m.xlow as int));
        },
    }
}

impl PlateScan {
    /// Whether this is what a pass over `rows` finds: the usable features in
    /// column order, under each the least and the greatest value observed, and
    /// the other features, each once.
    pub open spec fn describes(
        &self,
        headers: Seq<Seq<char>>,
        ids: Seq<int>,
        rows: Seq<Seq<Option<u64>>>,
    ) -> bool {
        &&& texts(self.features@) == usable_features(headers, ids, rows, headers.len() as int)
        &&& self.min_max@.len() == self.features@.len()
        &&& forall|k: int|
            0 <= k < self.min_max@.len() ==> (#[trigger] self.min_max@[k]).0@ == self.features@[k]@
                && summarises(Some(self.min_max@[k].1), headers, ids, rows, self.features@[k]@)
        &&& match self.problemativ_features {
            None => {
                &&& problem_features(headers, ids, rows, headers.len() as int).len() == 0
                &&& forall|name: Seq<char>|
                    is_feature(headers, ids, name) ==> usable(headers, ids, rows, name)
            },
            Some(list) => {
                &&& list@.len() > 0
                &&& texts(list@) == problem_features(headers, ids, rows, headers.len() as int)
                &&& texts(list@).no_duplicates()
                &&& forall|name: Seq<char>|
                    texts(list@).contains(name) <==> is_feature(headers, ids, name) && !usable(
                        headers,
                        ids,
                        rows,
                        name,
                    )
            },
        }
    }

    /// Each usable feature has its range beside it.
    pub open spec fn wf(&self) -> bool {
        &&& self.min_max@.len() == self.features@.len()
        &&& forall|k: int|
            0 <= k < self.min_max@.len() ==> (#[trigger] self.min_max@[k]).0@ == self.features@[k]@
    }
}

impl MinMaxPlateResult {
    /// Each usable feature has its range beside it, and no range has its two
    /// ends at one value.
    pub open spec fn wf(&self) -> bool {
        &&& self.min_max@.len() == self.features@.len()
        &&& forall|k: int|
            0 <= k < self.min_max@.len() ==> (#[trigger] self.min_max@[k]).0@ == self.features@[k]@
                && self.min_max@[k].1.xlow != self.min_max@[k].1.xhigh
    }

    /// Whether these are the ranges of `scan`, each high end widened with the
    /// value of `highs` beside it where the scan found one value alone: the
    /// same features and the same low ends, and as high end `widened_high`.
    pub open spec fn widened_from(&self, scan: PlateScan, highs: Seq<u64>) -> bool {
        &&& texts(self.features@) == texts(scan.features@)
        &&& self.skipped_rows == scan.skipped_rows
        &&& match self.problemativ_features {
            None => scan.problemativ_features is None,
            Some(list) => scan.problemativ_features is Some && texts(list@) == texts(
                scan.problemativ_features->0@,
            ),
        }
        &&& self.min_max@.len() == scan.min_max@.len()
        &&& forall|k: int|
            0 <= k < self.min_max@.len() ==> {
                let after = #[trigger] self.min_max@[k];
                let before = scan.min_max@[k];
                &&& after.0@ == before.0@
                &&& after.1.xlow == before.1.xlow
                &&& after.1.xhigh == widened_high(before.1, highs[k])
            }
    }
}

/// The cells of each row, in order.
pub open spec fn cell_rows(rows: Seq<Vec<Option<u64>>>) -> Seq<Seq<Option<u64>>> {
    Seq::new(rows.len(), |r: int| rows[r]@)
}

/// How many of the rows have not `width` cells.
pub open spec fn malformed(rows: Seq<Seq<Option<u64>>>, width: nat) -> nat
    decreases rows.len(),
{
    if rows.len() == 0 {
        0
    } else {
        malformed(rows.drop_last(), width) + (if rows.last().len() != width {
            1nat
        } else {
            0nat
        })
    }
}

proof fn lemma_malformed_bound(rows: Seq<Seq<Option<u64>>>, width: nat)
    ensures
        malformed(rows, width) <= rows.len(),
    decreases rows.len(),
{
    if rows.len() > 0 {
        lemma_malformed_bound(rows.drop_last(), width);
    }
}

/// Finds the least and the greatest value of every feature of a table.
/// `headers` names the columns, `id_cols` those that identify the row; every
/// other column is a feature. A row holds one cell per header: the bit pattern
/// of the value read there, or `None` where no value was read. A value that is
/// not finite counts for nothing, and a row of another length is left out.
pub fn scan_plate(headers: &[String], id_cols: &[String], rows: &[Vec<Option<u64>>]) -> (out:
    Result<PlateScan, ScanError>)
    ensures
        out is Err <==> !all_present(texts(headers@), texts(id_cols@)),
        out is Err ==> out->Err_0 == ScanError::MissingIdColumn,
        out is Ok ==> out->Ok_0.wf(),
        out is Ok ==> out->Ok_0.describes(
            texts(headers@),
            located(texts(headers@), texts(id_cols@)),
            cell_rows(rows@),
        ),
        out is Ok ==> out->Ok_0.skipped_rows == malformed(cell_rows(rows@), headers@.len()),
{
    let mut scanner = match RangeScanner::new(headers, id_cols) {
        Ok(scanner) => scanner,
        Err(e) => {
            return Err(e);
        },
    };
    let ghost hs = texts(headers@);
    let ghost ids = located(hs, texts(id_cols@));
    let ghost all = cell_rows(rows@);
    let mut r: usize = 0;
    assert(all.take(0) =~= Seq::<Seq<Option<u64>>>::empty());
    while r < rows.len()
        invariant
            r <= rows.len(),
            scanner.wf(),
            hs == texts(headers@),
            all == cell_rows(rows@),
            scanner.headers() == hs,
            scanner.ids() == ids,
            scanner.seen() == all.take(r as int),
            scanner.skipped() == malformed(all.take(r as int), hs.len()),
        decreases rows.len() - r,
    {
        proof {
            assert(all.take(r + 1).drop_last() =~= all.take(r as int));
            assert(all.take(r + 1) =~= all.take(r as int).push(rows[r as int]@));
            lemma_malformed_bound(all.take(r as int), hs.len());
        }
        scanner.observe(rows[r].as_slice());
        r += 1;
    }
    assert(all.take(r as int) =~= all);
    Ok(scanner.finish())
}

/// The ranges that a scan finds hold finite values only, the low end not above
/// the high end.
pub proof fn lemma_ranges_finite(
    result: PlateScan,
    headers: Seq<Seq<char>>,
    ids: Seq<int>,
    rows: Seq<Seq<Option<u64>>>,
)
    requires
        result.describes(headers, ids, rows),
    ensures
        forall|k: int|
            0 <= k < result.min_max@.len() ==> {
                let m = (#[trigger] result.min_max@[k]).1;
                -(crate::keys::INFINITY_BITS as int) < m.xlow <= m.xhigh
                    < crate::keys::INFINITY_BITS
            },
{
    assert forall|k: int| 0 <= k < result.min_max@.len() implies {
        let m = (#[trigger] result.min_max@[k]).1;
        -(crate::keys::INFINITY_BITS as int) < m.xlow <= m.xhigh < crate::keys::INFINITY_BITS
    } by {
        let m = result.min_max@[k].1;
        let name = result.features@[k]@;
        assert(summarises(Some(m), headers, ids, rows, name));
        let r = choose|r: int| row_shows(headers, ids, rows, r, name, m.xlow as int);
        let i = choose|i: int|
            0 <= i < headers.len() && shows_at(headers, ids, rows[r], i, name, m.xlow as int);
        crate::keys::lemma_finite_is_number(rows[r][i]->0);
        let q = choose|q: int| row_shows(headers, ids, rows, q, name, m.xhigh as int);
        let j = choose|j: int|
            0 <= j < headers.len() && shows_at(headers, ids, rows[q], j, name, m.xhigh as int);
        crate::keys::lemma_finite_is_number(rows[q][j]->0);
    }
}

/// The high end of a range after widening: as it was, where the range holds
/// more than one value; the key of the number one, where it holds the value
/// zero alone; and else the key of the value with the pattern `bits`.
pub open spec fn widened_high(range: MinMax, bits: u64) -> int {
    if range.xlow != range.xhigh {
        range.xhigh as int
    } else if range.xlow == 0 {
        key_of(ONE_BITS)
    } else {
        key_of(bits)
    }
}

/// Whether the value with the pattern `bits` can be the high end of `range`:
/// where the range holds one value alone, and not zero, the value handed in is
/// a number and is another one.
pub open spec fn can_widen(range: MinMax, bits: u64) -> bool {
    range.xlow == range.xhigh && range.xlow != 0 ==> is_number_pattern(bits) && key_of(bits)
        != range.xlow
}

/// Whether the value with the pattern `bits` can be the high end of `range`.
pub fn widens(range: &MinMax, bits: u64) -> (out: bool)
    ensures
        out == can_widen(*range, bits),
{
    if range.xlow == range.xhigh && range.xlow != 0 {
        is_number_bits(bits) && key_of_bits(bits) != range.xlow
    } else {
        true
    }
}

/// Whether `range` is the range of the feature `name` of a table: its low end
/// is the least value observed; its high end is the greatest, where more than
/// one value was observed, and else one for the value zero and the value with
/// the pattern `bits` for any other value.
pub open spec fn is_range_of(
    range: MinMax,
    headers: Seq<Seq<char>>,
    ids: Seq<int>,
    rows: Seq<Seq<Option<u64>>>,
    name: Seq<char>,
    bits: u64,
) -> bool {
    &&& observed(headers, ids, rows, name, range.xlow as int)
    &&& forall|key: int| #[trigger] observed(headers, ids, rows, name, key) ==> range.xlow <= key
    &&& if exists|key: int| observed(headers, ids, rows, name, key) && key != range.xlow {
        &&& observed(headers, ids, rows, name, range.xhigh as int)
        &&& forall|key: int| #[trigger]
            observed(headers, ids, rows, name, key) ==> key <= range.xhigh
    } else if range.xlow == 0 {
        range.xhigh == key_of(ONE_BITS)
    } else {
        range.xhigh == key_of(bits)
    }
    &&& range.xlow != range.xhigh
}

/// Range widening: the ranges that `get_min_max_plate` gives are the ranges of
/// the features of the table that the scan went over, and none of them has its
/// two ends at one value.
pub proof fn lemma_final_ranges(
    result: MinMaxPlateResult,
    scan: PlateScan,
    highs: Seq<u64>,
    headers: Seq<Seq<char>>,
    ids: Seq<int>,
    rows: Seq<Seq<Option<u64>>>,
)
    requires
        scan.describes(headers, ids, rows),
        all_widen(scan, highs),
        result.widened_from(scan, highs),
    ensures
        texts(result.features@) == usable_features(headers, ids, rows, headers.len() as int),
        forall|k: int|
            0 <= k < result.min_max@.len() ==> is_range_of(
                (#[trigger] result.min_max@[k]).1,
                headers,
                ids,
                rows,
                scan.features@[k]@,
                highs[k],
            ),
{
    assert forall|k: int| 0 <= k < result.min_max@.len() implies is_range_of(
        (#[trigger] result.min_max@[k]).1,
        headers,
        ids,
        rows,
        scan.features@[k]@,
        highs[k],
    ) by {
        let name = scan.features@[k]@;
        let before = scan.min_max@[k].1;
        let after = result.min_max@[k].1;
        assert(summarises(Some(before), headers, ids, rows, name));
        assert(can_widen(before, highs[k]));
        assert(after.xhigh == widened_high(before, highs[k]));
        if exists|key: int| observed(headers, ids, rows, name, key) && key != after.xlow {
            let key = choose|key: int| observed(headers, ids, rows, name, key) && key != after.xlow;
            assert(before.xlow <= key <= before.xhigh);
        } else {
            assert(observed(headers, ids, rows, name, before.xhigh as int));
        }
    }
}

/// Whether every range of the scan that holds one value alone has a high end
/// of its own among `highs`.
pub open spec fn all_widen(scan: PlateScan, highs: Seq<u64>) -> bool {
    &&& highs.len() == scan.min_max@.len()
    &&& forall|k: int|
        0 <= k < highs.len() ==> can_widen((#[trigger] scan.min_max@[k]).1, highs[k])
}

/// The ranges of the features of a plate, from what a pass over its table
/// found. The range of a feature is from its least to its greatest value. A
/// feature with one value alone gets a high end of its own, so that no range
/// has its two ends at one value: where that value is zero, the high end is
/// one; else it is the value with the bit pattern `highs[k]`, which the caller
/// computes from the low end. For a feature with more values `highs[k]` is
/// ignored. There are no ranges where `highs` is of another length than the
/// scan, or hands a feature with one value alone what is no number or that
/// value again.
pub fn get_min_max_plate(scan: &PlateScan, highs: &[u64]) -> (out: Result<
    MinMaxPlateResult,
    ScanError,
>)
    requires
        scan.wf(),
    ensures
        out is Ok <==> all_widen(*scan, highs@),
        out is Err ==> out->Err_0 == ScanError::NoHighEnd,
        out is Ok ==> out->Ok_0.wf() && out->Ok_0.widened_from(*scan, highs@),
{
    let n = scan.min_max.len();
    if highs.len() != n {
        return Err(ScanError::NoHighEnd);
    }
    let mut widened: Vec<(String, MinMax)> = Vec::new();
    let mut k: usize = 0;
    while k < n
        invariant
            k <= n,
            n == scan.min_max.len(),
            n == highs.len(),
            scan.wf(),
            widened.len() == k,
            forall|j: int| 0 <= j < k ==> can_widen((#[trigger] scan.min_max@[j]).1, highs[j]),
            forall|j: int|
                0 <= j < k ==> {
                    let after = #[trigger] widened@[j];
                    let before = scan.min_max@[j];
                    &&& after.0@ == before.0@
                    &&& after.1.xlow == before.1.xlow
                    &&& after.1.xhigh == widened_high(before.1, highs[j])
                    &&& after.1.xlow != after.1.xhigh
                },
        decreases n - k,
    {
        let range = scan.min_max[k].1;
        if !widens(&range, highs[k]) {
            assert(!can_widen(scan.min_max@[k as int].1, highs@[k as int]));
            return Err(ScanError::NoHighEnd);
        }
        let xhigh = if range.xlow != range.xhigh {
            range.xhigh
        } else if range.xlow == 0 {
            key_of_bits(ONE_BITS)
        } else {
            key_of_bits(highs[k])
        };
        widened.push((scan.min_max[k].0.clone(), MinMax { xlow: range.xlow, xhigh }));
        k += 1;
    }
    let features = crate::groups::copy_names(scan.features.as_slice());
    let problemativ_features = match &scan.problemativ_features {
        Some(list) => Some(crate::groups::copy_names(list.as_slice())),
        None => None,
    };
    let out = MinMaxPlateResult {
        min_max: widened,
        features,
        problemativ_features,
        skipped_rows: scan.skipped_rows,
    };
    proof {
        assert(out.features@.len() == scan.features@.len()) by {
            assert(texts(out.features@).len() == texts(scan.features@).len());
        }
        assert forall|j: int| 0 <= j < n implies (#[trigger] out.min_max@[j]).0@
            == out.features@[j]@ && out.min_max@[j].1.xlow != out.min_max@[j].1.xhigh by {
            assert(out.min_max@[j].0@ == scan.min_max@[j].0@);
            assert(texts(out.features@)[j] == texts(scan.features@)[j]);
        }
    }
    Ok(out)
}

/// What is observed does not depend on the order of the rows.
pub proof fn lemma_observed_permuted(
    headers: Seq<Seq<char>>,
    ids: Seq<int>,
    a: Seq<Seq<Option<u64>>>,
    b: Seq<Seq<Option<u64>>>,
    name: Seq<char>,
    key: int,
)
    requires
        a.to_multiset() == b.to_multiset(),
    ensures
        observed(headers, ids, a, name, key) == observed(headers, ids, b, name, key),
        usable(headers, ids, a, name) == usable(headers, ids, b, name),
{
    assert forall|k: int| observed(headers, ids, a, name, k) implies observed(
        headers,
        ids,
        b,
        name,
        k,
    ) by {
        let r = choose|r: int| row_shows(headers, ids, a, r, name, k);
        assert(a.contains(a[r]));
        vstd::seq_lib::to_multiset_contains(a, a[r]);
        vstd::seq_lib::to_multiset_contains(b, a[r]);
        let q = choose|q: int| 0 <= q < b.len() && b[q] == a[r];
        assert(row_shows(headers, ids, b, q, name, k));
    }
    assert forall|k: int| observed(headers, ids, b, name, k) implies observed(
        headers,
        ids,
        a,
        name,
        k,
    ) by {
        let r = choose|r: int| row_shows(headers, ids, b, r, name, k);
        assert(b.contains(b[r]));
        vstd::seq_lib::to_multiset_contains(b, b[r]);
        vstd::seq_lib::to_multiset_contains(a, b[r]);
        let q = choose|q: int| 0 <= q < a.len() && a[q] == b[r];
        assert(row_shows(headers, ids, a, q, name, k));
    }
    if usable(headers, ids, a, name) {
        let k = choose|k: int| observed(headers, ids, a, name, k);
        assert(observed(headers, ids, b, name, k));
    }
    if usable(headers, ids, b, name) {
        let k = choose|k: int| observed(headers, ids, b, name, k);
        assert(observed(headers, ids, a, name, k));
    }
}

proof fn lemma_features_permuted(
    headers: Seq<Seq<char>>,
    ids: Seq<int>,
    a: Seq<Seq<Option<u64>>>,
    b: Seq<Seq<Option<u64>>>,
    upto: int,
)
    requires
        a.to_multiset() == b.to_multiset(),
    ensures
        usable_features(headers, ids, a, upto) == usable_features(headers, ids, b, upto),
        problem_features(headers, ids, a, upto) == problem_features(headers, ids, b, upto),
    decreases upto,
{
    if upto > 0 {
        lemma_features_permuted(headers, ids, a, b, upto - 1);
        lemma_observed_permuted(headers, ids, a, b, headers[upto - 1], 0);
    }
}

/// Order independence of the scan: what describes a table describes every
/// table that holds the same rows in another order.
pub proof fn lemma_scan_order_independence(
    result: PlateScan,
    headers: Seq<Seq<char>>,
    ids: Seq<int>,
    a: Seq<Seq<Option<u64>>>,
    b: Seq<Seq<Option<u64>>>,
)
    requires
        a.to_multiset() == b.to_multiset(),
        result.describes(headers, ids, a),
    ensures
        result.describes(headers, ids, b),
{
    lemma_features_permuted(headers, ids, a, b, headers.len() as int);
    assert forall|name: Seq<char>, key: int|
        observed(headers, ids, a, name, key) == observed(headers, ids, b, name, key) && usable(
            headers,
            ids,
            a,
            name,
        ) == usable(headers, ids, b, name) by {
        lemma_observed_permuted(headers, ids, a, b, name, key);
    }
    assert forall|k: int| 0 <= k < result.min_max@.len() implies (#[trigger] result.min_max@[k]).0@
        == result.features@[k]@ && summarises(
        Some(result.min_max@[k].1),
        headers,
        ids,
        b,
        result.features@[k]@,
    ) by {
        let name = result.features@[k]@;
        let m = result.min_max@[k].1;
        assert(summarises(Some(m), headers, ids, a, name));
        lemma_observed_permuted(headers, ids, a, b, name, m.xlow as int);
        lemma_observed_permuted(headers, ids, a, b, name, m.xhigh as int);
        assert forall|key: int| #[trigger] observed(headers, ids, b, name, key) implies m.xlow
            <= key <= m.xhigh by {
            lemma_observed_permuted(headers, ids, a, b, name, key);
        }
    }
}

} // verus!
