//! Well names and the plate they stand on.

use crate::columns::{all_present, first_index, locate, located, texts};
use crate::text::{
    chars_of, decimal, lemma_decimal_is_literal, lemma_decimal_round_trip, parse_unsigned,
    push_char, push_decimal, unsigned_literal,
};
use vstd::prelude::*;
use vstd::string::StringExecFns;

verus! {

/// Rows of the default plate, lettered `A` to `P`.
pub const PLATE_ROWS: u8 = 16;

/// Columns of the default plate, numbered 1 to 24.
pub const PLATE_COLUMNS: u8 = 24;

/// The canonical form of a well name: its first character, then the rest
/// without leading zeros, where the rest reads as an unsigned 32-bit decimal
/// literal; any other name is its own canonical form.
pub open spec fn canonical_well(name: Seq<char>) -> Seq<char> {
    if name.len() >= 2 {
        match unsigned_literal(name.skip(1)) {
            Some(n) => seq![name[0]] + decimal(n),
            None => name,
        }
    } else {
        name
    }
}

/// Whether a well name is in canonical form.
pub open spec fn is_canonical(name: Seq<char>) -> bool {
    canonical_well(name) == name
}

/// The canonical form of each name, in order.
pub open spec fn canonical_all(names: Seq<Seq<char>>) -> Seq<Seq<char>> {
    Seq::new(names.len(), |k: int| canonical_well(names[k]))
}

/// The letter of row `row`, counted from 0.
pub open spec fn row_letter(row: int) -> char {
    ('A' as int + row) as char
}

/// The name of the well in row `row`, counted from 0, and column `col`, counted
/// from 1.
pub open spec fn well_label(row: int, col: int) -> Seq<char> {
    seq![row_letter(row)] + decimal(col as nat)
}

/// The names of the default plate, row by row.
pub open spec fn default_plate() -> Seq<Seq<char>> {
    Seq::new(384, |i: int| well_label(i / 24, i % 24 + 1))
}

/// The parts joined by underscores.
pub open spec fn joined(parts: Seq<Seq<char>>) -> Seq<char>
    decreases parts.len(),
{
    if parts.len() == 0 {
        Seq::empty()
    } else if parts.len() == 1 {
        parts[0]
    } else {
        joined(parts.drop_last()) + seq!['_'] + parts.last()
    }
}

/// The fields of `record` at `places`, in the order of `places`.
pub open spec fn picked(record: Seq<Seq<char>>, places: Seq<int>) -> Seq<Seq<char>> {
    Seq::new(places.len(), |k: int| record[places[k]])
}

/// Canonical form is a fixed point: the canonical form of a name is canonical.
pub proof fn lemma_canonical_idempotent(name: Seq<char>)
    ensures
        is_canonical(canonical_well(name)),
{
    if name.len() >= 2 {
        match unsigned_literal(name.skip(1)) {
            Some(n) => {
                let out = seq![name[0]] + decimal(n);
                lemma_decimal_round_trip(n);
                lemma_decimal_is_literal(n);
                assert(out.skip(1) =~= decimal(n));
                assert(out[0] == name[0]);
            },
            None => {},
        }
    }
}

/// A label of row and column is canonical, and tells row and column apart.
pub proof fn lemma_label_canonical(row: int, col: int)
    requires
        0 <= col <= u32::MAX,
    ensures
        is_canonical(well_label(row, col)),
        well_label(row, col).len() >= 2,
        well_label(row, col)[0] == row_letter(row),
        unsigned_literal(well_label(row, col).skip(1)) == Some(col as nat),
{
    let out = well_label(row, col);
    lemma_decimal_round_trip(col as nat);
    lemma_decimal_is_literal(col as nat);
    assert(out.skip(1) =~= decimal(col as nat));
}

/// No name stands twice on the default plate, and each is canonical.
pub proof fn lemma_default_plate_distinct()
    ensures
        default_plate().no_duplicates(),
        forall|i: int| 0 <= i < 384 ==> is_canonical(#[trigger] default_plate()[i]),
{
    let plate = default_plate();
    assert forall|i: int, j: int| 0 <= i < 384 && 0 <= j < 384 && i != j implies plate[i]
        != plate[j] by {
        lemma_label_canonical(i / 24, i % 24 + 1);
        lemma_label_canonical(j / 24, j % 24 + 1);
        if plate[i] == plate[j] {
            assert(row_letter(i / 24) == row_letter(j / 24));
            assert(i / 24 == j / 24);
            assert(i % 24 == j % 24);
        }
    }
    assert forall|i: int| 0 <= i < 384 implies is_canonical(#[trigger] plate[i]) by {
        lemma_label_canonical(i / 24, i % 24 + 1);
    }
}

/// The canonical form of one well name.
pub fn rename_index(x: &str) -> (out: String)
    ensures
        out@ == canonical_well(x@),
{
    let chars = chars_of(x);
    if chars.len() >= 2 {
        match parse_unsigned(&chars, 1) {
            Some(n) => {
                let mut out = String::new();
                push_char(&mut out, chars[0]);
                push_decimal(&mut out, n);
                assert(out@ =~= seq![x@[0]] + decimal(n as nat));
                out
            },
            None => x.to_owned(),
        }
    } else {
        x.to_owned()
    }
}

/// The canonical form of each name, in the order given.
pub fn clean_well_names(well_names: &[String]) -> (out: Vec<String>)
    ensures
        out.len() == well_names.len(),
        forall|i: int| 0 <= i < out.len() ==> (#[trigger] out[i])@ == canonical_well(well_names[i]@),
{
    let mut out: Vec<String> = Vec::new();
    let mut i: usize = 0;
    while i < well_names.len()
        invariant
            i <= well_names.len(),
            out.len() == i,
            forall|j: int| 0 <= j < i ==> (#[trigger] out[j])@ == canonical_well(well_names[j]@),
        decreases well_names.len() - i,
    {
        out.push(rename_index(well_names[i].as_str()));
        i += 1;
    }
    out
}

/// The 384 wells of the default plate: rows `A` to `P`, and in each row the
/// columns 1 to 24.
pub fn plate_definition() -> (out: Vec<String>)
    ensures
        texts(out@) == default_plate(),
        texts(out@).no_duplicates(),
        forall|i: int| 0 <= i < out.len() ==> is_canonical(#[trigger] out[i]@),
{
    let mut out: Vec<String> = Vec::new();
    let mut row: u8 = 0;
    while row < PLATE_ROWS
        invariant
            row <= PLATE_ROWS,
            out.len() == row * 24,
            forall|i: int| 0 <= i < out.len() ==> (#[trigger] out[i])@ == well_label(i / 24, i % 24 + 1),
        decreases PLATE_ROWS - row,
    {
        let mut col: u8 = 1;
        while col <= PLATE_COLUMNS
            invariant
                row < PLATE_ROWS,
                1 <= col <= PLATE_COLUMNS + 1,
                out.len() == row * 24 + (col - 1),
                forall|i: int| 0 <= i < out.len() ==> (#[trigger] out[i])@ == well_label(i / 24, i % 24 + 1),
            decreases PLATE_COLUMNS + 1 - col,
        {
            let mut name = String::new();
            push_char(&mut name, (65u8 + row) as char);
            push_decimal(&mut name, col as u32);
            assert(name@ =~= well_label(row as int, col as int));
            out.push(name);
            col += 1;
        }
        row += 1;
    }
    proof {
        assert(texts(out@) =~= default_plate());
        lemma_default_plate_distinct();
        assert forall|i: int| 0 <= i < out.len() implies is_canonical(#[trigger] out[i]@) by {
            assert(out[i]@ == default_plate()[i]);
        }
    }
    out
}

/// The identifier of a row: its fields at `places`, joined by underscores.
pub fn composite_id(record: &[String], places: &[usize]) -> (out: String)
    requires
        forall|k: int| 0 <= k < places.len() ==> #[trigger] places[k] < record.len(),
    ensures
        out@ == joined(picked(texts(record@), places@.map_values(|i: usize| i as int))),
{
    let ghost parts = picked(texts(record@), places@.map_values(|i: usize| i as int));
    let mut out = String::new();
    let mut k: usize = 0;
    while k < places.len()
        invariant
            k <= places.len(),
            parts == picked(texts(record@), places@.map_values(|i: usize| i as int)),
            forall|j: int| 0 <= j < places.len() ==> #[trigger] places[j] < record.len(),
            out@ == joined(parts.take(k as int)),
        decreases places.len() - k,
    {
        if k > 0 {
            push_char(&mut out, '_');
        }
        let field = &record[places[k]];
        out.append(field.as_str());
        proof {
            let now = parts.take(k + 1);
            assert(now.drop_last() =~= parts.take(k as int));
            assert(now.last() == field@);
            if k == 0 {
                assert(out@ =~= field@);
            } else {
                assert(out@ =~= joined(parts.take(k as int)) + seq!['_'] + field@);
            }
        }
        k += 1;
    }
    assert(parts.take(k as int) =~= parts);
    out
}

/// The identifier of a row under the identifier columns `id_col`: the row's
/// field under each of them, joined by underscores.
pub fn build_id(record: &[String], headers: &[String], id_col: &[String]) -> (out: String)
    requires
        id_col.len() > 0,
        all_present(texts(headers@), texts(id_col@)),
        forall|k: int|
            0 <= k < id_col.len() ==> (#[trigger] first_index(
                texts(headers@),
                texts(id_col@)[k],
            ))->0 < record.len(),
    ensures
        out@ == joined(picked(texts(record@), located(texts(headers@), texts(id_col@)))),
{
    match locate(headers, id_col) {
        Some(places) => {
            proof {
                let at = places@.map_values(|i: usize| i as int);
                assert forall|k: int| 0 <= k < places.len() implies #[trigger] places[k]
                    < record.len() by {
                    assert(at[k] == located(texts(headers@), texts(id_col@))[k]);
                    assert(at[k] == first_index(texts(headers@), texts(id_col@)[k])->0);
                }
            }
            composite_id(record, places.as_slice())
        },
        None => String::new(),
    }
}

} // verus!
