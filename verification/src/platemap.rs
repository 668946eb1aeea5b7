//! Which wells of a plate map are on the plate, and which are controls.

use crate::columns::texts;
use crate::wells::{canonical_well, clean_well_names};
use vstd::prelude::*;
use vstd::string::StringExecFns;

verus! {

/// The text `s` in upper case, as the standard library maps it.
pub uninterp spec fn upper_case(s: Seq<char>) -> Seq<char>;

/// `str::to_uppercase` of the standard library: the result is the upper case of
/// `s`, which depends on `s` alone.
#[verifier::external_body]
pub(crate) fn to_upper(s: &str) -> (out: String)
    ensures
        out@ == upper_case(s@),
{
    s.to_uppercase()
}

/// The label that marks a control well.
pub open spec fn reference_label() -> Seq<char> {
    "REFERENCE"@
}

/// What a plate map says.
#[derive(Debug)]
pub struct Designation {
    /// The wells of the plate by their canonical names, unless they are 384:
    /// then the default plate stands for them.
    pub plate_def: Option<Vec<String>>,
    /// The control wells by their canonical names, in the order of the map.
    pub controls: Vec<String>,
}

/// The canonical names of the first `upto` wells whose label marks a control.
pub open spec fn marked(wells: Seq<Seq<char>>, labels: Seq<Seq<char>>, upto: int) -> Seq<Seq<char>>
    decreases upto,
{
    if upto <= 0 {
        Seq::empty()
    } else {
        let before = marked(wells, labels, upto - 1);
        if labels[upto - 1] == reference_label() {
            before.push(canonical_well(wells[upto - 1]))
        } else {
            before
        }
    }
}

/// The canonical name of each well.
pub open spec fn plate_of(wells: Seq<Seq<char>>) -> Seq<Seq<char>> {
    Seq::new(wells.len(), |i: int| canonical_well(wells[i]))
}

/// Whether `out` is what the map of `wells` and `labels` says.
pub open spec fn designated(out: Designation, wells: Seq<Seq<char>>, labels: Seq<Seq<char>>) -> bool {
    &&& texts(out.controls@) == marked(wells, labels, wells.len() as int)
    &&& out.plate_def is None <==> wells.len() == 384
    &&& out.plate_def is Some ==> texts(out.plate_def->0@) == plate_of(wells)
}

/// What a plate map says whose wells and labels are in upper case already:
/// each well is on the plate, and a well is a control where its label is
/// `REFERENCE`.
pub fn designate_upper(wells: &[String], labels: &[String]) -> (out: Designation)
    requires
        wells.len() == labels.len(),
    ensures
        designated(out, texts(wells@), texts(labels@)),
{
    let ghost ws = texts(wells@);
    let ghost ls = texts(labels@);
    let reference = String::from_str("REFERENCE");
    let mut picked: Vec<String> = Vec::new();
    let mut i: usize = 0;
    while i < wells.len()
        invariant
            i <= wells.len(),
            wells.len() == labels.len(),
            ws == texts(wells@),
            ls == texts(labels@),
            reference@ == reference_label(),
            texts(picked@) == marked(ws, ls, i as int),
        decreases wells.len() - i,
    {
        let ghost before = texts(picked@);
        assert(ls[i as int] == labels@[i as int]@);
        assert(ws[i as int] == wells@[i as int]@);
        if labels[i] == reference {
            picked.push(crate::wells::rename_index(wells[i].as_str()));
            assert(texts(picked@) =~= before.push(canonical_well(ws[i as int])));
        }
        i += 1;
    }
    let plate = clean_well_names(wells);
    assert(texts(plate@) =~= plate_of(ws));
    let plate_def = if plate.len() == 384 {
        None
    } else {
        Some(plate)
    };
    Designation { plate_def, controls: picked }
}

/// The upper case of each text.
pub open spec fn upper_all(items: Seq<Seq<char>>) -> Seq<Seq<char>> {
    Seq::new(items.len(), |i: int| upper_case(items[i]))
}

/// The upper case of each text.
pub fn all_upper(items: &[String]) -> (out: Vec<String>)
    ensures
        out.len() == items.len(),
        texts(out@) == upper_all(texts(items@)),
{
    let mut out: Vec<String> = Vec::new();
    let mut i: usize = 0;
    while i < items.len()
        invariant
            i <= items.len(),
            out.len() == i,
            forall|j: int| 0 <= j < i ==> (#[trigger] out[j])@ == upper_case(items[j]@),
        decreases items.len() - i,
    {
        out.push(to_upper(items[i].as_str()));
        i += 1;
    }
    assert(texts(out@) =~= upper_all(texts(items@)));
    out
}

/// What a plate map says: wells and labels are read without regard to case.
pub fn designate(wells: &[String], labels: &[String]) -> (out: Designation)
    requires
        wells.len() == labels.len(),
    ensures
        designated(out, upper_all(texts(wells@)), upper_all(texts(labels@))),
{
    let upper_wells = all_upper(wells);
    let upper_labels = all_upper(labels);
    designate_upper(upper_wells.as_slice(), upper_labels.as_slice())
}

} // verus!
