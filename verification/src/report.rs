//! How results are laid out for writing: one row for each well, one column
//! for each feature, the columns in the order of their names.

use crate::columns::{lemma_take_contains, texts};
use crate::ranges::MinMaxPlateResult;
use crate::score::Score;
use crate::table::ResultTable;
use crate::text::{chars_of, push_char};
use vstd::prelude::*;
use vstd::string::StringExecFns;

verus! {

/// Whether `a` stands before `b` in the order of names: at the first place
/// where they differ, `a` ends or has the smaller character.
pub open spec fn precedes(a: Seq<char>, b: Seq<char>) -> bool
    decreases a.len(),
{
    if b.len() == 0 {
        false
    } else if a.len() == 0 {
        true
    } else if a[0] != b[0] {
        a[0] < b[0]
    } else {
        precedes(a.skip(1), b.skip(1))
    }
}

/// Whether each name of `names` stands before the next.
pub open spec fn ascending(names: Seq<Seq<char>>) -> bool {
    forall|i: int, j: int| 0 <= i < j < names.len() ==> precedes(names[i], names[j])
}

/// No name stands before itself.
pub proof fn lemma_precedes_irreflexive(a: Seq<char>)
    ensures
        !precedes(a, a),
    decreases a.len(),
{
    if a.len() > 0 {
        lemma_precedes_irreflexive(a.skip(1));
    }
}

/// Of two different names, one stands before the other.
pub proof fn lemma_precedes_total(a: Seq<char>, b: Seq<char>)
    ensures
        a == b || precedes(a, b) || precedes(b, a),
    decreases a.len(),
{
    if a.len() > 0 && b.len() > 0 && a[0] == b[0] {
        lemma_precedes_total(a.skip(1), b.skip(1));
        if a.skip(1) == b.skip(1) {
            assert(a =~= seq![a[0]] + a.skip(1));
            assert(b =~= seq![b[0]] + b.skip(1));
        }
    } else if a.len() == 0 && b.len() == 0 {
        assert(a =~= b);
    }
}

/// What stands before a name stands before every name after it.
pub proof fn lemma_precedes_transitive(a: Seq<char>, b: Seq<char>, c: Seq<char>)
    requires
        precedes(a, b),
        precedes(b, c),
    ensures
        precedes(a, c),
    decreases a.len(),
{
    if a.len() > 0 && b.len() > 0 && c.len() > 0 {
        if a[0] == b[0] && b[0] == c[0] {
            lemma_precedes_transitive(a.skip(1), b.skip(1), c.skip(1));
        }
    }
}

/// Whether `a` stands before `b` in the order of names.
pub fn stands_before(a: &Vec<char>, b: &Vec<char>) -> (out: bool)
    ensures
        out == precedes(a@, b@),
{
    let mut i: usize = 0;
    assert(a@.skip(0) =~= a@);
    assert(b@.skip(0) =~= b@);
    while i < a.len() && i < b.len()
        invariant
            i <= a.len(),
            i <= b.len(),
            precedes(a@, b@) == precedes(a@.skip(i as int), b@.skip(i as int)),
        decreases a.len() - i,
    {
        assert(a@.skip(i as int)[0] == a@[i as int]);
        assert(b@.skip(i as int)[0] == b@[i as int]);
        if a[i] != b[i] {
            return a[i] < b[i];
        }
        assert(a@.skip(i as int).skip(1) =~= a@.skip(i + 1));
        assert(b@.skip(i as int).skip(1) =~= b@.skip(i + 1));
        i += 1;
    }
    i < b.len()
}

/// Puts `name` into the ascending list `names`, unless it stands there.
pub fn insert_name(names: &mut Vec<String>, name: &String)
    requires
        ascending(texts(old(names)@)),
    ensures
        ascending(texts(final(names)@)),
        forall|f: Seq<char>|
            texts(final(names)@).contains(f) <==> texts(old(names)@).contains(f) || f == name@,
{
    let ghost before = texts(names@);
    let key = chars_of(name.as_str());
    let n = names.len();
    let mut i: usize = 0;
    let mut stop = false;
    while i < n && !stop
        invariant
            i <= n,
            n == names.len(),
            names@ == old(names)@,
            before == texts(names@),
            key@ == name@,
            forall|j: int| 0 <= j < i ==> precedes(#[trigger] before[j], name@),
            stop ==> i < n && !precedes(before[i as int], name@),
        decreases n - i + (if stop {
            0int
        } else {
            1int
        }),
    {
        assert(before[i as int] == names@[i as int]@);
        let here = chars_of(names[i].as_str());
        if stands_before(&here, &key) {
            i += 1;
        } else {
            stop = true;
        }
    }
    if i < n && names[i] == *name {
        assert(before[i as int] == name@);
        return ;
    }
    names.insert(i, name.clone());
    proof {
        let after = texts(names@);
        assert(after =~= before.insert(i as int, name@));
        if i < n {
            assert(before[i as int] == old(names)@[i as int]@);
            lemma_precedes_total(before[i as int], name@);
            assert(precedes(name@, before[i as int]));
        }
        assert forall|a: int, b: int| 0 <= a < b < after.len() implies precedes(
            after[a],
            after[b],
        ) by {
            if b < i {
                assert(after[a] == before[a] && after[b] == before[b]);
            } else if b == i {
                assert(after[a] == before[a]);
            } else if a == i {
                assert(after[b] == before[b - 1]);
                if b - 1 > i {
                    lemma_precedes_transitive(name@, before[i as int], before[b - 1]);
                }
            } else if a < i {
                assert(after[a] == before[a] && after[b] == before[b - 1]);
                if a < b - 1 {
                } else {
                    assert(false);
                }
            } else {
                assert(after[a] == before[a - 1] && after[b] == before[b - 1]);
            }
        }
        assert forall|f: Seq<char>| after.contains(f) <==> before.contains(f) || f == name@ by {
            if after.contains(f) {
                let w = choose|w: int| 0 <= w < after.len() && after[w] == f;
                if w < i {
                    assert(before[w] == f);
                } else if w > i {
                    assert(before[w - 1] == f);
                }
            }
            if before.contains(f) {
                let w = choose|w: int| 0 <= w < before.len() && before[w] == f;
                if w < i {
                    assert(after[w] == f);
                } else {
                    assert(after[w + 1] == f);
                }
            }
            assert(after[i as int] == name@);
        }
    }
}

/// Whether some well of the table has a score under the feature `name`.
pub open spec fn has_feature(table: Map<Seq<char>, Map<Seq<char>, Score>>, name: Seq<char>) -> bool {
    exists|w: Seq<char>| scored_under(table, w, name)
}

/// Whether the well `well` has a score under the feature `name`.
pub open spec fn scored_under(
    table: Map<Seq<char>, Map<Seq<char>, Score>>,
    well: Seq<char>,
    name: Seq<char>,
) -> bool {
    table.contains_key(well) && table[well].contains_key(name)
}

/// Whether one of the first `upto` wells has a score under the feature `name`.
pub open spec fn featured_before(
    table: Map<Seq<char>, Map<Seq<char>, Score>>,
    wells: Seq<Seq<char>>,
    upto: int,
    name: Seq<char>,
) -> bool {
    exists|v: int| 0 <= v < upto && scored_under(table, #[trigger] wells[v], name)
}

proof fn lemma_featured_step(
    table: Map<Seq<char>, Map<Seq<char>, Score>>,
    wells: Seq<Seq<char>>,
    w: int,
    name: Seq<char>,
)
    requires
        0 <= w < wells.len(),
    ensures
        featured_before(table, wells, w + 1, name) <==> featured_before(table, wells, w, name)
            || scored_under(table, wells[w], name),
{
    if featured_before(table, wells, w + 1, name) {
        let v = choose|v: int| 0 <= v < w + 1 && scored_under(table, #[trigger] wells[v], name);
        if v < w {
            assert(featured_before(table, wells, w, name));
        }
    }
    if featured_before(table, wells, w, name) {
        let v = choose|v: int| 0 <= v < w && scored_under(table, #[trigger] wells[v], name);
        assert(0 <= v < w + 1 && scored_under(table, wells[v], name));
    }
    if scored_under(table, wells[w], name) {
        assert(0 <= w < w + 1 && scored_under(table, wells[w], name));
    }
}

/// The feature names of the table, each once and in ascending order: the
/// columns of the written results.
pub fn feature_columns(table: &ResultTable) -> (out: Vec<String>)
    requires
        table.wf(),
    ensures
        ascending(texts(out@)),
        forall|f: Seq<char>| texts(out@).contains(f) <==> has_feature(table@, f),
{
    let mut out: Vec<String> = Vec::new();
    let n = table.len();
    let ghost wells = table.wells();
    proof {
        table.lemma_wells();
    }
    let mut w: usize = 0;
    while w < n
        invariant
            w <= n,
            n == wells.len(),
            wells == table.wells(),
            table.wf(),
            forall|v: Seq<char>| table@.contains_key(v) <==> wells.contains(v),
            ascending(texts(out@)),
            forall|f: Seq<char>| #[trigger]
                texts(out@).contains(f) <==> featured_before(table@, wells, w as int, f),
        decreases n - w,
    {
        let (well, row) = table.entry(w);
        let m = row.len();
        let ghost feats = row.names();
        let ghost start = texts(out@);
        proof {
            row.lemma_names();
            assert(feats.take(0) =~= Seq::<Seq<char>>::empty());
        }
        let mut j: usize = 0;
        while j < m
            invariant
                j <= m,
                m == feats.len(),
                feats == row.names(),
                row.wf(),
                ascending(texts(out@)),
                forall|f: Seq<char>| #[trigger]
                    texts(out@).contains(f) <==> start.contains(f) || feats.take(j as int).contains(
                        f,
                    ),
            decreases m - j,
        {
            let (name, score) = row.entry(j);
            let ghost held = texts(out@);
            insert_name(&mut out, name);
            proof {
                let now = texts(out@);
                assert forall|f: Seq<char>|
                    now.contains(f) <==> start.contains(f) || feats.take(j + 1).contains(f) by {
                    lemma_take_contains(feats, j as int, f);
                    assert(now.contains(f) <==> held.contains(f) || f == name@);
                    assert(held.contains(f) <==> start.contains(f) || feats.take(j as int).contains(
                        f,
                    ));
                }
            }
            j += 1;
        }
        proof {
            assert(feats.take(m as int) =~= feats);
            let now = texts(out@);
            assert forall|f: Seq<char>|
                now.contains(f) <==> featured_before(table@, wells, w + 1, f) by {
                lemma_featured_step(table@, wells, w as int, f);
                assert(scored_under(table@, wells[w as int], f) <==> feats.contains(f));
                assert(start.contains(f) <==> featured_before(table@, wells, w as int, f));
                assert(now.contains(f) <==> start.contains(f) || feats.take(m as int).contains(f));
            }
        }
        w += 1;
    }
    proof {
        assert forall|f: Seq<char>| texts(out@).contains(f) <==> has_feature(table@, f) by {
            if featured_before(table@, wells, n as int, f) {
                let v = choose|v: int| 0 <= v < n && scored_under(table@, #[trigger] wells[v], f);
                assert(scored_under(table@, wells[v], f));
            }
            if has_feature(table@, f) {
                let x = choose|x: Seq<char>| scored_under(table@, x, f);
                assert(wells.contains(x));
                let v = choose|v: int| 0 <= v < wells.len() && wells[v] == x;
                assert(0 <= v < n && scored_under(table@, wells[v], f));
            }
        }
    }
    out
}

/// The scores of the `i`-th well of the table under the columns `columns`, in
/// their order; `None` where the well has no score under a column.
pub fn record_of<'a>(table: &'a ResultTable, i: usize, columns: &[String]) -> (out: (
    &'a String,
    Vec<Option<Score>>,
))
    requires
        table.wf(),
        i < table.wells().len(),
    ensures
        out.0@ == table.wells()[i as int],
        out.1.len() == columns.len(),
        forall|c: int|
            0 <= c < columns.len() ==> #[trigger] out.1[c] == (if table@[out.0@].contains_key(
                columns[c]@,
            ) {
                Some(table@[out.0@][columns[c]@])
            } else {
                None
            }),
{
    let (well, row) = table.entry(i);
    let mut cells: Vec<Option<Score>> = Vec::new();
    let mut c: usize = 0;
    while c < columns.len()
        invariant
            c <= columns.len(),
            row.wf(),
            cells.len() == c,
            forall|d: int|
                0 <= d < c ==> #[trigger] cells[d] == (if row@.contains_key(columns[d]@) {
                    Some(row@[columns[d]@])
                } else {
                    None
                }),
        decreases columns.len() - c,
    {
        cells.push(row.get(&columns[c]));
        c += 1;
    }
    (well, cells)
}

/// The line that reports the feature `name` as one without values.
pub open spec fn report_line(name: Seq<char>) -> Seq<char> {
    name + ",noValues"@
}

/// One line for each feature under which no value was found, in the order in
/// which the scan lists them.
pub fn problem_lines(result: &MinMaxPlateResult) -> (out: Vec<String>)
    ensures
        match result.problemativ_features {
            None => out.len() == 0,
            Some(list) => out.len() == list.len() && forall|i: int|
                0 <= i < out.len() ==> (#[trigger] out[i])@ == report_line(list[i]@),
        },
{
    let mut out: Vec<String> = Vec::new();
    match &result.problemativ_features {
        None => {},
        Some(list) => {
            let mut i: usize = 0;
            while i < list.len()
                invariant
                    i <= list.len(),
                    out.len() == i,
                    forall|j: int| 0 <= j < i ==> (#[trigger] out[j])@ == report_line(list[j]@),
                decreases list.len() - i,
            {
                let mut line = list[i].clone();
                line.append(",noValues");
                out.push(line);
                i += 1;
            }
        },
    }
    out
}

} // verus!
