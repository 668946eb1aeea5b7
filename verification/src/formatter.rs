//! Column names of raw tables: how they are cleaned, and which of them are
//! flagged.

use crate::columns::{all_present, contains_name, first_index, located, texts};
use crate::wells::{build_id, canonical_well, joined, picked, rename_index};
use crate::text::{chars_of, string_from};
use vstd::prelude::*;
use vstd::string::StringExecFns;
use vstd::string::StringSliceAdditionalSpecFns;

verus! {

/// Whether `c` is white space.
pub open spec fn is_space(c: char) -> bool {
    let n = c as u32;
    ||| 0x9 <= n <= 0xd
    ||| n == 0x20
    ||| n == 0x85
    ||| n == 0xa0
    ||| n == 0x1680
    ||| 0x2000 <= n <= 0x200a
    ||| n == 0x2028
    ||| n == 0x2029
    ||| n == 0x202f
    ||| n == 0x205f
    ||| n == 0x3000
}

/// `s` without the white space at its start.
pub open spec fn trim_front(s: Seq<char>) -> Seq<char>
    decreases s.len(),
{
    if s.len() > 0 && is_space(s[0]) {
        trim_front(s.skip(1))
    } else {
        s
    }
}

/// `s` without the white space at its end.
pub open spec fn trim_back(s: Seq<char>) -> Seq<char>
    decreases s.len(),
{
    if s.len() > 0 && is_space(s.last()) {
        trim_back(s.drop_last())
    } else {
        s
    }
}

/// `s` without the white space at its start and at its end.
pub open spec fn trimmed(s: Seq<char>) -> Seq<char> {
    trim_back(trim_front(s))
}

/// Whether `needle` stands in `hay` at place `at`.
pub open spec fn occurs_at(hay: Seq<char>, at: int, needle: Seq<char>) -> bool {
    0 <= at && at + needle.len() <= hay.len() && hay.subrange(at, at + needle.len()) == needle
}

/// Whether `needle` stands somewhere in `hay`.
pub open spec fn is_substring(needle: Seq<char>, hay: Seq<char>) -> bool {
    exists|at: int| occurs_at(hay, at, needle)
}

/// `s` with every occurrence of `from` replaced by `to`, the occurrences taken
/// from the left and not overlapping.
pub open spec fn replaced(s: Seq<char>, from: Seq<char>, to: Seq<char>) -> Seq<char>
    recommends
        from.len() > 0,
    decreases s.len(),
{
    if s.len() == 0 || from.len() == 0 {
        s
    } else if occurs_at(s, 0, from) {
        to + replaced(s.skip(from.len() as int), from, to)
    } else {
        seq![s[0]] + replaced(s.skip(1), from, to)
    }
}

/// The clean form of a column name: without white space around it, and then,
/// one after the other, every tab turned into a comma, every percent sign into
/// `Pct`, every hyphen between two blanks into a bare hyphen, every blank into
/// an underscore, every micro sign into `u`, every superscript two into `^2`,
/// and the two plate suffixes taken out.
pub open spec fn cleaned(name: Seq<char>) -> Seq<char> {
    let a = trimmed(name);
    let b = replaced(a, "\t"@, ","@);
    let c = replaced(b, "%"@, "Pct"@);
    let d = replaced(c, " - "@, "-"@);
    let e = replaced(d, " "@, "_"@);
    let f = replaced(e, "\u{b5}"@, "u"@);
    let g = replaced(f, "\u{b2}"@, "^2"@);
    let h = replaced(g, "_(RAWcells-CP2-Cyto_BMR)"@, ""@);
    replaced(h, "_(RAWcells-CP2-EdU_BMR)"@, ""@)
}

/// The length of `s` in bytes of UTF-8.
pub open spec fn byte_len(s: Seq<char>) -> nat {
    vstd::utf8::encode_utf8(s).len()
}

/// Whether the flagged name `bad` flags `feat`: a flagged name of more than
/// two bytes flags every name that it stands in, a shorter one only itself.
pub open spec fn flags(bad: Seq<char>, feat: Seq<char>) -> bool {
    if byte_len(bad) > 2 {
        is_substring(bad, feat)
    } else {
        bad == feat
    }
}

/// Whether one of `bad` flags `feat`.
pub open spec fn flagged(bad: Seq<Seq<char>>, feat: Seq<char>) -> bool {
    exists|i: int| 0 <= i < bad.len() && flags(#[trigger] bad[i], feat)
}

/// Of the first `upto` names of `items`, each once and in the order of its
/// first occurrence: those that are among `bad` themselves, where `own` is
/// set; else those that `bad` flags without holding them.
pub open spec fn gathered(items: Seq<Seq<char>>, bad: Seq<Seq<char>>, own: bool, upto: int) -> Seq<
    Seq<char>,
>
    decreases upto,
{
    if upto <= 0 {
        Seq::empty()
    } else {
        let before = gathered(items, bad, own, upto - 1);
        let name = items[upto - 1];
        let takes = if own {
            bad.contains(name)
        } else {
            flagged(bad, name) && !bad.contains(name)
        };
        if takes && !before.contains(name) {
            before.push(name)
        } else {
            before
        }
    }
}

/// Whether `c` is white space.
pub fn space(c: char) -> (out: bool)
    ensures
        out == is_space(c),
{
    let n = c as u32;
    (0x9 <= n && n <= 0xd) || n == 0x20 || n == 0x85 || n == 0xa0 || n == 0x1680 || (0x2000 <= n
        && n <= 0x200a) || n == 0x2028 || n == 0x2029 || n == 0x202f || n == 0x205f || n == 0x3000
}

/// The characters of `s` without the white space at its start and at its end.
pub fn trim(s: &Vec<char>) -> (out: Vec<char>)
    ensures
        out@ == trimmed(s@),
{
    let n = s.len();
    let mut a: usize = 0;
    assert(s@.skip(0) =~= s@);
    while a < n && space(s[a])
        invariant
            a <= n,
            n == s.len(),
            trim_front(s@) == trim_front(s@.skip(a as int)),
        decreases n - a,
    {
        assert(s@.skip(a as int)[0] == s@[a as int]);
        assert(s@.skip(a as int).skip(1) =~= s@.skip(a + 1));
        a += 1;
    }
    proof {
        if a < n {
            assert(s@.skip(a as int)[0] == s@[a as int]);
        }
        assert(trim_front(s@) == s@.skip(a as int));
        assert(s@.skip(a as int) =~= s@.subrange(a as int, n as int));
    }
    let mut b: usize = n;
    while b > a && space(s[b - 1])
        invariant
            a <= b <= n,
            n == s.len(),
            trim_back(s@.subrange(a as int, n as int)) == trim_back(s@.subrange(a as int, b as int)),
        decreases b,
    {
        assert(s@.subrange(a as int, b as int).last() == s@[b - 1]);
        assert(s@.subrange(a as int, b as int).drop_last() =~= s@.subrange(a as int, b - 1));
        b -= 1;
    }
    proof {
        if b > a {
            assert(s@.subrange(a as int, b as int).last() == s@[b - 1]);
        }
    }
    let mut out: Vec<char> = Vec::new();
    let mut i: usize = a;
    while i < b
        invariant
            a <= i <= b,
            b <= s.len(),
            out@ == s@.subrange(a as int, i as int),
        decreases b - i,
    {
        out.push(s[i]);
        i += 1;
        assert(out@ =~= s@.subrange(a as int, i as int));
    }
    out
}

/// Whether `needle` stands in `hay` at place `at`.
pub fn starts_at(hay: &Vec<char>, at: usize, needle: &Vec<char>) -> (out: bool)
    ensures
        out == occurs_at(hay@, at as int, needle@),
{
    let m = needle.len();
    if at > hay.len() || m > hay.len() - at {
        return false;
    }
    let mut k: usize = 0;
    while k < m
        invariant
            k <= m,
            m == needle.len(),
            at + m <= hay.len(),
            forall|j: int| 0 <= j < k ==> hay@[at + j] == needle@[j],
        decreases m - k,
    {
        if hay[at + k] != needle[k] {
            assert(hay@.subrange(at as int, at + m)[k as int] != needle@[k as int]);
            return false;
        }
        k += 1;
    }
    assert(hay@.subrange(at as int, at + m) =~= needle@);
    true
}

/// Whether `needle` stands somewhere in `hay`.
pub fn contains_text(hay: &Vec<char>, needle: &Vec<char>) -> (out: bool)
    ensures
        out == is_substring(needle@, hay@),
{
    let n = hay.len();
    let mut at: usize = 0;
    while at < n
        invariant
            at <= n,
            n == hay.len(),
            forall|k: int| 0 <= k < at ==> !occurs_at(hay@, k, needle@),
        decreases n - at,
    {
        if starts_at(hay, at, needle) {
            return true;
        }
        at += 1;
    }
    if starts_at(hay, n, needle) {
        return true;
    }
    proof {
        if is_substring(needle@, hay@) {
            let k = choose|k: int| occurs_at(hay@, k, needle@);
            assert(k <= n);
        }
    }
    false
}

/// `s` with every occurrence of `from` replaced by `to`.
pub fn replace_all(s: &Vec<char>, from: &Vec<char>, to: &Vec<char>) -> (out: Vec<char>)
    requires
        from.len() > 0,
    ensures
        out@ == replaced(s@, from@, to@),
{
    let n = s.len();
    let mut out: Vec<char> = Vec::new();
    let mut i: usize = 0;
    assert(s@.skip(0) =~= s@);
    while i < n
        invariant
            i <= n,
            n == s.len(),
            from.len() > 0,
            out@ + replaced(s@.skip(i as int), from@, to@) == replaced(s@, from@, to@),
        decreases n - i,
    {
        let ghost rest = s@.skip(i as int);
        let ghost held = out@;
        if starts_at(s, i, from) {
            proof {
                assert(rest.subrange(0, from.len() as int) =~= s@.subrange(
                    i as int,
                    i + from.len(),
                ));
                assert(occurs_at(rest, 0, from@));
                assert(rest.skip(from.len() as int) =~= s@.skip(i + from.len()));
            }
            let mut k: usize = 0;
            while k < to.len()
                invariant
                    k <= to.len(),
                    out@ == held + to@.take(k as int),
                decreases to.len() - k,
            {
                out.push(to[k]);
                k += 1;
                assert(out@ =~= held + to@.take(k as int));
            }
            assert(to@.take(to.len() as int) =~= to@);
            i += from.len();
            assert(out@ + replaced(s@.skip(i as int), from@, to@) =~= held + (to@ + replaced(
                s@.skip(i as int),
                from@,
                to@,
            )));
        } else {
            proof {
                if occurs_at(rest, 0, from@) {
                    assert(rest.subrange(0, from.len() as int) =~= s@.subrange(
                        i as int,
                        i + from.len(),
                    ));
                }
                assert(rest.skip(1) =~= s@.skip(i + 1));
                assert(rest[0] == s@[i as int]);
            }
            out.push(s[i]);
            i += 1;
            assert(out@ + replaced(s@.skip(i as int), from@, to@) =~= held + (seq![s@[i - 1]]
                + replaced(s@.skip(i as int), from@, to@)));
        }
    }
    assert(out@ + Seq::<char>::empty() =~= out@);
    out
}

/// The clean form of a column name.
pub fn clean_col_name(col_name: &str) -> (out: String)
    ensures
        out@ == cleaned(col_name@),
{
    proof {
        reveal_strlit("\t");
        reveal_strlit("%");
        reveal_strlit(" - ");
        reveal_strlit(" ");
        reveal_strlit("\u{b5}");
        reveal_strlit("\u{b2}");
        reveal_strlit("_(RAWcells-CP2-Cyto_BMR)");
        reveal_strlit("_(RAWcells-CP2-EdU_BMR)");
    }
    let a = trim(&chars_of(col_name));
    let b = replace_all(&a, &pattern("\t"), &chars_of(","));
    let c = replace_all(&b, &pattern("%"), &chars_of("Pct"));
    let d = replace_all(&c, &pattern(" - "), &chars_of("-"));
    let e = replace_all(&d, &pattern(" "), &chars_of("_"));
    let f = replace_all(&e, &pattern("\u{b5}"), &chars_of("u"));
    let g = replace_all(&f, &pattern("\u{b2}"), &chars_of("^2"));
    let h = replace_all(&g, &pattern("_(RAWcells-CP2-Cyto_BMR)"), &chars_of(""));
    let i = replace_all(&h, &pattern("_(RAWcells-CP2-EdU_BMR)"), &chars_of(""));
    string_from(&i, 0)
}

/// The characters of a pattern that is not empty.
fn pattern(text: &'static str) -> (out: Vec<char>)
    requires
        text@.len() > 0,
    ensures
        out@ == text@,
        out.len() > 0,
{
    chars_of(text)
}

/// The names of `true_feats` that `bad_feats` flags, each once: first those
/// that are among `bad_feats` themselves, then the others, each part in the
/// order of first occurrence in `true_feats`.
pub fn find_common_features(true_feats: &[String], bad_feats: &[String]) -> (out: Vec<String>)
    ensures
        texts(out@) == gathered(texts(true_feats@), texts(bad_feats@), true, true_feats.len() as int)
            + gathered(texts(true_feats@), texts(bad_feats@), false, true_feats.len() as int),
{
    let ghost items = texts(true_feats@);
    let ghost bad = texts(bad_feats@);
    let n = true_feats.len();
    let mut out: Vec<String> = Vec::new();
    let mut i: usize = 0;
    while i < n
        invariant
            i <= n,
            n == true_feats.len(),
            items == texts(true_feats@),
            bad == texts(bad_feats@),
            texts(out@) == gathered(items, bad, true, i as int),
        decreases n - i,
    {
        let ghost before = texts(out@);
        assert(items[i as int] == true_feats@[i as int]@);
        if contains_name(bad_feats, &true_feats[i]) && !contains_name(
            out.as_slice(),
            &true_feats[i],
        ) {
            out.push(true_feats[i].clone());
            assert(texts(out@) =~= before.push(items[i as int]));
        }
        i += 1;
    }
    let ghost first = texts(out@);
    let mut rest: Vec<String> = Vec::new();
    let mut i: usize = 0;
    while i < n
        invariant
            i <= n,
            n == true_feats.len(),
            items == texts(true_feats@),
            bad == texts(bad_feats@),
            texts(rest@) == gathered(items, bad, false, i as int),
        decreases n - i,
    {
        let ghost before = texts(rest@);
        assert(items[i as int] == true_feats@[i as int]@);
        if !contains_name(bad_feats, &true_feats[i]) && is_flagged(bad_feats, &true_feats[i])
            && !contains_name(rest.as_slice(), &true_feats[i]) {
            rest.push(true_feats[i].clone());
            assert(texts(rest@) =~= before.push(items[i as int]));
        }
        i += 1;
    }
    let ghost second = texts(rest@);
    out.append(&mut rest);
    assert(texts(out@) =~= first + second);
    out
}

/// Whether one of `bad_feats` flags `feat`.
pub fn is_flagged(bad_feats: &[String], feat: &String) -> (out: bool)
    ensures
        out == flagged(texts(bad_feats@), feat@),
{
    let ghost bad = texts(bad_feats@);
    let hay = chars_of(feat.as_str());
    let mut i: usize = 0;
    while i < bad_feats.len()
        invariant
            i <= bad_feats.len(),
            bad == texts(bad_feats@),
            hay@ == feat@,
            forall|j: int| 0 <= j < i ==> !flags(#[trigger] bad[j], feat@),
        decreases bad_feats.len() - i,
    {
        assert(bad[i as int] == bad_feats@[i as int]@);
        let name: &str = bad_feats[i].as_str();
        assert(name.spec_bytes() == vstd::utf8::encode_utf8(bad[i as int]));
        let hit = if name.as_bytes().len() > 2 {
            contains_text(&hay, &chars_of(bad_feats[i].as_str()))
        } else {
            bad_feats[i] == *feat
        };
        if hit {
            assert(flags(bad[i as int], feat@));
            return true;
        }
        i += 1;
    }
    false
}

/// The names of the columns of a raw table that describe a cell without
/// measuring it.
pub open spec fn meta_columns() -> Seq<Seq<char>> {
    seq![
        "ScreenName"@,
        "ScreenID"@,
        "PlateName"@,
        "PlateID"@,
        "MeasurementDate"@,
        "MeasurementID"@,
        "WellName"@,
        "Row"@,
        "Column"@,
        "Timepoint"@,
        "Field"@,
        "RefId"@,
        "Object Number"@,
        "X"@,
        "Y"@,
        "Bounding Box"@,
        "ax"@,
        "ay"@,
        "Cell Count"@,
        "Cell ID"@,
        "Instance"@,
        "Laser focus score"@,
        "Plate ID"@,
        "Run Settings ID"@,
        "Series ID"@,
        "Site ID"@,
        "Well Name"@,
        "Well X"@,
        "Well Y"@,
    ]
}

/// The names of `meta_columns`.
pub fn meta_names() -> (out: Vec<String>)
    ensures
        texts(out@) == meta_columns(),
{
    let mut out: Vec<String> = Vec::new();
    out.push(String::from_str("ScreenName"));
    out.push(String::from_str("ScreenID"));
    out.push(String::from_str("PlateName"));
    out.push(String::from_str("PlateID"));
    out.push(String::from_str("MeasurementDate"));
    out.push(String::from_str("MeasurementID"));
    out.push(String::from_str("WellName"));
    out.push(String::from_str("Row"));
    out.push(String::from_str("Column"));
    out.push(String::from_str("Timepoint"));
    out.push(String::from_str("Field"));
    out.push(String::from_str("RefId"));
    out.push(String::from_str("Object Number"));
    out.push(String::from_str("X"));
    out.push(String::from_str("Y"));
    out.push(String::from_str("Bounding Box"));
    out.push(String::from_str("ax"));
    out.push(String::from_str("ay"));
    out.push(String::from_str("Cell Count"));
    out.push(String::from_str("Cell ID"));
    out.push(String::from_str("Instance"));
    out.push(String::from_str("Laser focus score"));
    out.push(String::from_str("Plate ID"));
    out.push(String::from_str("Run Settings ID"));
    out.push(String::from_str("Series ID"));
    out.push(String::from_str("Site ID"));
    out.push(String::from_str("Well Name"));
    out.push(String::from_str("Well X"));
    out.push(String::from_str("Well Y"));
    assert(texts(out@) =~= meta_columns());
    out
}

/// The names of `names` other than `name`, in order.
pub open spec fn without(names: Seq<Seq<char>>, name: Seq<char>, upto: int) -> Seq<Seq<char>>
    decreases upto,
{
    if upto <= 0 {
        Seq::empty()
    } else {
        let before = without(names, name, upto - 1);
        if names[upto - 1] == name {
            before
        } else {
            before.push(names[upto - 1])
        }
    }
}

/// The column that identifies the well, given the flagged columns of a table:
/// `WellName` where it is among them, else `Well Name`.
pub open spec fn id_column(common: Seq<Seq<char>>) -> Seq<char> {
    if common.contains("WellName"@) {
        "WellName"@
    } else {
        "Well Name"@
    }
}

/// How the columns of a raw table are told apart.
#[derive(Debug)]
pub struct ColumnRoles {
    /// The column that identifies the well.
    pub id_col: Vec<String>,
    /// The other columns that describe a cell without measuring it.
    pub useless_feats: Vec<String>,
}

/// Tells the columns of a raw table apart: the flagged columns are those that
/// `meta_columns` flags; one of them identifies the well, and the others are
/// of no use.
pub fn classify_columns(headers: &[String]) -> (out: ColumnRoles)
    ensures
        ({
            let common = gathered(texts(headers@), meta_columns(), true, headers.len() as int)
                + gathered(texts(headers@), meta_columns(), false, headers.len() as int);
            &&& texts(out.id_col@) == seq![id_column(common)]
            &&& texts(out.useless_feats@) == without(common, id_column(common), common.len() as int)
        }),
{
    let meta = meta_names();
    let common = find_common_features(headers, meta.as_slice());
    let ghost all = texts(common@);
    let well_name = String::from_str("WellName");
    let id = if contains_name(common.as_slice(), &well_name) {
        well_name
    } else {
        String::from_str("Well Name")
    };
    assert(id@ == id_column(all));
    let mut useless: Vec<String> = Vec::new();
    let mut i: usize = 0;
    while i < common.len()
        invariant
            i <= common.len(),
            all == texts(common@),
            texts(useless@) == without(all, id@, i as int),
        decreases common.len() - i,
    {
        let ghost before = texts(useless@);
        assert(all[i as int] == common@[i as int]@);
        if !(common[i] == id) {
            useless.push(common[i].clone());
            assert(texts(useless@) =~= before.push(all[i as int]));
        }
        i += 1;
    }
    let mut id_col: Vec<String> = Vec::new();
    id_col.push(id);
    assert(texts(id_col@) =~= seq![id_column(all)]);
    ColumnRoles { id_col, useless_feats: useless }
}

/// Whether a row with `float_count` numeric fields among `total` is mostly
/// numeric: whether the numeric fields are at least 65 in 100 of all, the bound
/// rounded down to a whole number.
pub fn majority_float(float_count: usize, total: usize) -> (out: bool)
    ensures
        out == (float_count >= 13 * total / 20),
{
    let bound: u128 = 13 * (total as u128) / 20;
    float_count as u128 >= bound
}

/// Whether column `i` is kept when a table is cleaned: it is neither an
/// identifier column nor flagged as useless.
pub open spec fn is_kept(
    headers: Seq<Seq<char>>,
    id_col: Seq<Seq<char>>,
    useless: Seq<Seq<char>>,
    i: int,
) -> bool {
    0 <= i < headers.len() && !useless.contains(headers[i]) && !id_col.contains(headers[i])
}

/// The columns before `upto` that are kept, in header order.
pub open spec fn kept_places(
    headers: Seq<Seq<char>>,
    id_col: Seq<Seq<char>>,
    useless: Seq<Seq<char>>,
    upto: int,
) -> Seq<int>
    decreases upto,
{
    if upto <= 0 {
        Seq::empty()
    } else {
        let before = kept_places(headers, id_col, useless, upto - 1);
        if is_kept(headers, id_col, useless, upto - 1) {
            before.push(upto - 1)
        } else {
            before
        }
    }
}

/// The clean names of the kept columns, in header order.
pub open spec fn kept_names(
    headers: Seq<Seq<char>>,
    id_col: Seq<Seq<char>>,
    useless: Seq<Seq<char>>,
) -> Seq<Seq<char>> {
    let places = kept_places(headers, id_col, useless, headers.len() as int);
    Seq::new(places.len(), |k: int| cleaned(headers[places[k]]))
}

/// The kept columns are columns of the table, in ascending order, and every
/// column that is neither an identifier nor useless is among them.
pub proof fn lemma_kept_places(
    headers: Seq<Seq<char>>,
    id_col: Seq<Seq<char>>,
    useless: Seq<Seq<char>>,
    upto: int,
)
    requires
        0 <= upto <= headers.len(),
    ensures
        forall|k: int|
            0 <= k < kept_places(headers, id_col, useless, upto).len() ==> 0 <= (
            #[trigger] kept_places(headers, id_col, useless, upto)[k]) < upto && is_kept(
                headers,
                id_col,
                useless,
                kept_places(headers, id_col, useless, upto)[k],
            ),
        forall|k: int, l: int|
            0 <= k < l < kept_places(headers, id_col, useless, upto).len() ==> (
            #[trigger] kept_places(headers, id_col, useless, upto)[k]) < (#[trigger] kept_places(
                headers,
                id_col,
                useless,
                upto,
            )[l]),
        forall|i: int|
            0 <= i < upto && is_kept(headers, id_col, useless, i) ==> kept_places(
                headers,
                id_col,
                useless,
                upto,
            ).contains(i),
    decreases upto,
{
    if upto > 0 {
        lemma_kept_places(headers, id_col, useless, upto - 1);
        let before = kept_places(headers, id_col, useless, upto - 1);
        let now = kept_places(headers, id_col, useless, upto);
        assert forall|i: int| 0 <= i < upto && is_kept(headers, id_col, useless, i) implies now.contains(
            i,
        ) by {
            if i < upto - 1 {
                assert(before.contains(i));
                let w = choose|w: int| 0 <= w < before.len() && before[w] == i;
                assert(now[w] == i);
            } else {
                assert(now[now.len() - 1] == i);
            }
        }
    }
}

/// The columns that are kept when a table is cleaned, in header order.
pub fn keep_indices(headers: &[String], id_col: &[String], useless_feats: &[String]) -> (out: Vec<
    usize,
>)
    ensures
        out@.map_values(|i: usize| i as int) == kept_places(
            texts(headers@),
            texts(id_col@),
            texts(useless_feats@),
            headers.len() as int,
        ),
        forall|k: int| 0 <= k < out.len() ==> #[trigger] out[k] < headers.len(),
{
    let ghost hs = texts(headers@);
    let ghost ids = texts(id_col@);
    let ghost bad = texts(useless_feats@);
    let mut out: Vec<usize> = Vec::new();
    let mut i: usize = 0;
    while i < headers.len()
        invariant
            i <= headers.len(),
            hs == texts(headers@),
            ids == texts(id_col@),
            bad == texts(useless_feats@),
            out@.map_values(|i: usize| i as int) == kept_places(hs, ids, bad, i as int),
            forall|k: int| 0 <= k < out.len() ==> #[trigger] out[k] < headers.len(),
        decreases headers.len() - i,
    {
        let ghost before = out@.map_values(|i: usize| i as int);
        assert(hs[i as int] == headers@[i as int]@);
        if !contains_name(useless_feats, &headers[i]) && !contains_name(id_col, &headers[i]) {
            out.push(i);
            assert(out@.map_values(|i: usize| i as int) =~= before.push(i as int));
        }
        i += 1;
    }
    out
}

/// The columns of the cleaned table after its first: the clean names of the
/// kept columns.
pub fn final_columns(headers: &[String], id_col: &[String], useless_feats: &[String]) -> (out: Vec<
    String,
>)
    ensures
        texts(out@) == kept_names(texts(headers@), texts(id_col@), texts(useless_feats@)),
{
    let ghost hs = texts(headers@);
    let keep = keep_indices(headers, id_col, useless_feats);
    let ghost places = keep@.map_values(|i: usize| i as int);
    let mut out: Vec<String> = Vec::new();
    let mut k: usize = 0;
    while k < keep.len()
        invariant
            k <= keep.len(),
            hs == texts(headers@),
            places == keep@.map_values(|i: usize| i as int),
            forall|l: int| 0 <= l < keep.len() ==> #[trigger] keep[l] < headers.len(),
            out.len() == k,
            forall|l: int| 0 <= l < k ==> (#[trigger] out[l])@ == cleaned(hs[places[l]]),
        decreases keep.len() - k,
    {
        assert(hs[keep[k as int] as int] == headers@[keep[k as int] as int]@);
        assert(places[k as int] == keep[k as int]);
        out.push(clean_col_name(headers[keep[k]].as_str()));
        k += 1;
    }
    assert(texts(out@) =~= kept_names(hs, texts(id_col@), texts(useless_feats@)));
    out
}

/// Whether one of `final_headers` is flagged as useless.
pub fn has_useless(final_headers: &[String], useless_feats: &[String]) -> (out: bool)
    ensures
        out == exists|i: int|
            0 <= i < final_headers.len() && texts(useless_feats@).contains(
                #[trigger] final_headers[i]@,
            ),
{
    let mut i: usize = 0;
    while i < final_headers.len()
        invariant
            i <= final_headers.len(),
            forall|j: int|
                0 <= j < i ==> !texts(useless_feats@).contains(#[trigger] final_headers[j]@),
        decreases final_headers.len() - i,
    {
        if contains_name(useless_feats, &final_headers[i]) {
            return true;
        }
        i += 1;
    }
    false
}

/// One row of the cleaned table: the canonical name of the well that the
/// record belongs to, then the fields of the record at `keep`, in order, with
/// an empty field where the record has none at that place.
pub fn output_row(record: &[String], headers: &[String], id_col: &[String], keep: &[usize]) -> (out:
    Vec<String>)
    requires
        id_col.len() > 0,
        all_present(texts(headers@), texts(id_col@)),
        forall|k: int|
            0 <= k < id_col.len() ==> (#[trigger] first_index(
                texts(headers@),
                texts(id_col@)[k],
            ))->0 < record.len(),
    ensures
        out.len() == keep.len() + 1,
        out[0]@ == canonical_well(
            joined(picked(texts(record@), located(texts(headers@), texts(id_col@)))),
        ),
        forall|k: int|
            0 <= k < keep.len() ==> (#[trigger] out[k + 1])@ == (if keep[k] < record.len() {
                record[keep[k] as int]@
            } else {
                Seq::<char>::empty()
            }),
{
    let id = build_id(record, headers, id_col);
    let mut out: Vec<String> = Vec::new();
    out.push(rename_index(id.as_str()));
    let mut k: usize = 0;
    while k < keep.len()
        invariant
            k <= keep.len(),
            out.len() == k + 1,
            out[0]@ == canonical_well(
                joined(picked(texts(record@), located(texts(headers@), texts(id_col@)))),
            ),
            forall|l: int|
                0 <= l < k ==> (#[trigger] out[l + 1])@ == (if keep[l] < record.len() {
                    record[keep[l] as int]@
                } else {
                    Seq::<char>::empty()
                }),
        decreases keep.len() - k,
    {
        let field = if keep[k] < record.len() {
            record[keep[k]].clone()
        } else {
            String::new()
        };
        out.push(field);
        k += 1;
    }
    out
}

/// The pieces of `s` between its tabs, in order: one more than it has tabs.
pub open spec fn pieces(s: Seq<char>) -> Seq<Seq<char>>
    decreases s.len(),
{
    if s.len() == 0 {
        seq![Seq::<char>::empty()]
    } else if s.last() == '\t' {
        pieces(s.drop_last()).push(Seq::<char>::empty())
    } else {
        let before = pieces(s.drop_last());
        before.drop_last().push(before.last().push(s.last()))
    }
}

/// The fields of a line: the pieces between the tabs of the line without the
/// white space around it.
pub fn split_fields(line: &str) -> (out: Vec<String>)
    ensures
        texts(out@) == pieces(trimmed(line@)),
{
    let body = trim(&chars_of(line));
    let mut done: Vec<String> = Vec::new();
    let mut piece = String::new();
    let mut i: usize = 0;
    proof {
        assert(body@.take(0) =~= Seq::<char>::empty());
        assert(texts(done@).push(piece@) =~= pieces(body@.take(0)));
    }
    while i < body.len()
        invariant
            i <= body.len(),
            texts(done@).push(piece@) == pieces(body@.take(i as int)),
        decreases body.len() - i,
    {
        let ghost so_far = pieces(body@.take(i as int));
        let ghost held = texts(done@);
        let ghost open = piece@;
        proof {
            assert(body@.take(i + 1).drop_last() =~= body@.take(i as int));
            assert(body@.take(i + 1).last() == body@[i as int]);
            assert(so_far.last() == open);
            assert(so_far.drop_last() =~= held);
        }
        if body[i] == '\t' {
            done.push(piece);
            piece = String::new();
            assert(texts(done@) =~= held.push(open));
        } else {
            crate::text::push_char(&mut piece, body[i]);
        }
        i += 1;
    }
    assert(body@.take(i as int) =~= body@);
    let ghost held = texts(done@);
    let ghost open = piece@;
    done.push(piece);
    assert(texts(done@) =~= held.push(open));
    done
}

/// Whether a row is kept when a raw table is checked: it has as many fields as
/// the header, and is mostly numeric.
pub fn keeps_row(fields: usize, header_fields: usize, float_count: usize) -> (out: bool)
    ensures
        out == (fields == header_fields && float_count >= 13 * fields / 20),
{
    fields == header_fields && majority_float(float_count, fields)
}

/// A cleaned table: its headers, and its rows.
#[derive(Debug)]
pub struct CleanTable {
    pub headers: Vec<String>,
    pub rows: Vec<Vec<String>>,
}

/// Why a table could not be cleaned.
#[derive(Clone, Copy, Debug, PartialEq, Eq)]
pub enum PreprocessError {
    /// A record has no field under an identifier column, or there is no
    /// identifier column.
    MissingId,
    /// A name that is flagged as useless is among the cleaned headers.
    UselessPresent,
}

/// The headers of the cleaned table: `id`, then the clean names of the kept
/// columns.
pub open spec fn clean_headers(
    headers: Seq<Seq<char>>,
    id_col: Seq<Seq<char>>,
    useless: Seq<Seq<char>>,
) -> Seq<Seq<char>> {
    seq!["id"@] + kept_names(headers, id_col, useless)
}

/// Whether every record has a field under every identifier column, and there
/// is such a column.
pub open spec fn identified(
    headers: Seq<Seq<char>>,
    id_col: Seq<Seq<char>>,
    records: Seq<Seq<Seq<char>>>,
) -> bool {
    &&& id_col.len() > 0
    &&& all_present(headers, id_col)
    &&& forall|r: int, k: int|
        0 <= r < records.len() && 0 <= k < id_col.len() ==> (#[trigger] first_index(
            headers,
            id_col[k],
        ))->0 < (#[trigger] records[r]).len()
}

/// Whether `row` is the cleaned row of `record`: the canonical name of its
/// well, then its fields at `keep`, an empty field where it has none.
pub open spec fn is_clean_row(
    row: Seq<Seq<char>>,
    record: Seq<Seq<char>>,
    headers: Seq<Seq<char>>,
    id_col: Seq<Seq<char>>,
    keep: Seq<int>,
) -> bool {
    &&& row.len() == keep.len() + 1
    &&& row[0] == canonical_well(joined(picked(record, located(headers, id_col))))
    &&& forall|k: int|
        0 <= k < keep.len() ==> #[trigger] row[k + 1] == (if keep[k] < record.len() {
            record[keep[k]]
        } else {
            Seq::<char>::empty()
        })
}

/// The fields of each record, as text.
pub open spec fn record_texts(records: Seq<Vec<String>>) -> Seq<Seq<Seq<char>>> {
    Seq::new(records.len(), |r: int| texts(records[r]@))
}

/// Whether a header of the cleaned table is flagged as useless.
pub open spec fn any_useless(
    headers: Seq<Seq<char>>,
    id_col: Seq<Seq<char>>,
    useless: Seq<Seq<char>>,
) -> bool {
    exists|i: int|
        0 <= i < clean_headers(headers, id_col, useless).len() && useless.contains(
            #[trigger] clean_headers(headers, id_col, useless)[i],
        )
}

/// When no header of the cleaned table is flagged: when `id` is not flagged,
/// and the clean name of no kept column is.
pub proof fn lemma_any_useless(
    headers: Seq<Seq<char>>,
    id_col: Seq<Seq<char>>,
    useless: Seq<Seq<char>>,
)
    ensures
        any_useless(headers, id_col, useless) <==> useless.contains("id"@) || exists|i: int|
            is_kept(headers, id_col, useless, i) && useless.contains(#[trigger] cleaned(headers[i])),
{
    let places = kept_places(headers, id_col, useless, headers.len() as int);
    let names = kept_names(headers, id_col, useless);
    let all = clean_headers(headers, id_col, useless);
    lemma_kept_places(headers, id_col, useless, headers.len() as int);
    if any_useless(headers, id_col, useless) {
        let i = choose|i: int| 0 <= i < all.len() && useless.contains(#[trigger] all[i]);
        if i > 0 {
            assert(all[i] == names[i - 1]);
            let at = places[i - 1];
            assert(is_kept(headers, id_col, useless, at));
            assert(useless.contains(cleaned(headers[at])));
        } else {
            assert(all[0] == "id"@);
        }
    }
    if useless.contains("id"@) {
        assert(all[0] == "id"@);
    }
    if exists|i: int|
        is_kept(headers, id_col, useless, i) && useless.contains(#[trigger] cleaned(headers[i])) {
        let i = choose|i: int|
            is_kept(headers, id_col, useless, i) && useless.contains(#[trigger] cleaned(headers[i]));
        assert(places.contains(i));
        let k = choose|k: int| 0 <= k < places.len() && places[k] == i;
        assert(all[k + 1] == names[k]);
        assert(useless.contains(all[k + 1]));
    }
}

/// Whether `table` is the cleaned table of the records: under `id` the
/// canonical name of the well of each record, and after it the kept columns
/// under their clean names, the records in their order.
pub open spec fn is_cleaned(
    table: CleanTable,
    headers: Seq<Seq<char>>,
    records: Seq<Seq<Seq<char>>>,
    id_col: Seq<Seq<char>>,
    useless: Seq<Seq<char>>,
) -> bool {
    &&& texts(table.headers@) == clean_headers(headers, id_col, useless)
    &&& table.rows@.len() == records.len()
    &&& forall|r: int|
        0 <= r < records.len() ==> is_clean_row(
            texts((#[trigger] table.rows@[r])@),
            records[r],
            headers,
            id_col,
            kept_places(headers, id_col, useless, headers.len() as int),
        )
}

/// Cleans a raw table. The cleaned table has the column `id` with the
/// canonical name of the well of each record, and after it every column that
/// is neither an identifier column nor flagged as useless, under its clean
/// name and in header order. A table with records needs an identifier in each
/// of them; and no header of the cleaned table may be flagged as useless.
pub fn preprocess_data(
    headers: &[String],
    records: &[Vec<String>],
    id_col: &[String],
    useless_feats: &[String],
) -> (out: Result<CleanTable, PreprocessError>)
    ensures
        ({
            let hs = texts(headers@);
            let ids = texts(id_col@);
            let bad = texts(useless_feats@);
            let all = record_texts(records@);
            let found = records.len() == 0 || identified(hs, ids, all);
            let useless = any_useless(hs, ids, bad);
            match out {
                Err(PreprocessError::MissingId) => !found,
                Err(PreprocessError::UselessPresent) => found && useless,
                Ok(table) => found && !useless && is_cleaned(table, hs, all, ids, bad),
            }
        }),
{
    let ghost hs = texts(headers@);
    let ghost ids = texts(id_col@);
    let ghost bad = texts(useless_feats@);
    let ghost all = record_texts(records@);
    let keep = keep_indices(headers, id_col, useless_feats);
    let final_cols = final_columns(headers, id_col, useless_feats);
    let ghost kept = texts(final_cols@);
    let ghost places = kept_places(hs, ids, bad, hs.len() as int);
    // Where each identifier column stands, if all of them stand somewhere.
    let places_of_ids = if id_col.len() > 0 {
        crate::columns::locate(headers, id_col)
    } else {
        None
    };
    let mut rows: Vec<Vec<String>> = Vec::new();
    let mut r: usize = 0;
    while r < records.len()
        invariant
            r <= records.len(),
            hs == texts(headers@),
            ids == texts(id_col@),
            bad == texts(useless_feats@),
            all == record_texts(records@),
            places == keep@.map_values(|i: usize| i as int),
            places_of_ids is Some <==> id_col.len() > 0 && all_present(hs, ids),
            places_of_ids is Some ==> places_of_ids->0@.map_values(|i: usize| i as int) == located(
                hs,
                ids,
            ) && places_of_ids->0.len() == id_col.len(),
            r > 0 ==> places_of_ids is Some,
            rows.len() == r,
            forall|q: int, k: int|
                0 <= q < r && 0 <= k < id_col.len() ==> (#[trigger] first_index(hs, ids[k]))->0 < (
                #[trigger] all[q]).len(),
            forall|q: int|
                0 <= q < r ==> is_clean_row(texts((#[trigger] rows@[q])@), all[q], hs, ids, places),
        decreases records.len() - r,
    {
        let record = &records[r];
        assert(all[r as int] == texts(record@));
        let mut reaches = true;
        match &places_of_ids {
            Some(at) => {
                let mut k: usize = 0;
                while k < at.len()
                    invariant
                        k <= at.len(),
                        reaches <==> forall|l: int| 0 <= l < k ==> #[trigger] at[l] < record.len(),
                    decreases at.len() - k,
                {
                    if at[k] >= record.len() {
                        reaches = false;
                    }
                    k += 1;
                }
                proof {
                    assert forall|l: int| 0 <= l < id_col.len() implies at[l] == (
                    #[trigger] first_index(hs, ids[l]))->0 by {
                        assert(at@.map_values(|i: usize| i as int)[l] == located(hs, ids)[l]);
                    }
                }
            },
            None => {
                reaches = false;
            },
        }
        if !reaches {
            proof {
                if identified(hs, ids, all) {
                    let at = places_of_ids->0;
                    let l = choose|l: int| 0 <= l < at.len() && !(#[trigger] at[l] < record.len());
                    assert(at[l] == first_index(hs, ids[l])->0);
                    assert(first_index(hs, ids[l])->0 < all[r as int].len());
                    assert(false);
                }
            }
            return Err(PreprocessError::MissingId);
        }
        proof {
            let at = places_of_ids->0;
            assert forall|k: int| 0 <= k < id_col.len() implies (#[trigger] first_index(
                hs,
                ids[k],
            ))->0 < record.len() by {
                assert(at[k] < record.len());
            }
        }
        let row = output_row(record.as_slice(), headers, id_col, keep.as_slice());
        proof {
            assert forall|k: int| 0 <= k < places.len() implies #[trigger] texts(row@)[k + 1] == (
            if places[k] < all[r as int].len() {
                all[r as int][places[k]]
            } else {
                Seq::<char>::empty()
            }) by {
                assert(texts(row@)[k + 1] == row[k + 1]@);
                assert(places[k] == keep[k]);
            }
            assert(texts(row@)[0] == row[0]@);
        }
        rows.push(row);
        r += 1;
    }
    let mut final_headers: Vec<String> = Vec::new();
    final_headers.push(String::from_str("id"));
    let mut k: usize = 0;
    while k < final_cols.len()
        invariant
            k <= final_cols.len(),
            kept == texts(final_cols@),
            texts(final_headers@) == seq!["id"@] + kept.take(k as int),
        decreases final_cols.len() - k,
    {
        let ghost before = texts(final_headers@);
        final_headers.push(final_cols[k].clone());
        assert(texts(final_headers@) =~= before.push(kept[k as int]));
        assert(seq!["id"@] + kept.take(k + 1) =~= (seq!["id"@] + kept.take(k as int)).push(
            kept[k as int],
        ));
        k += 1;
    }
    proof {
        assert(kept.take(final_cols.len() as int) =~= kept);
        assert(texts(final_headers@) == clean_headers(hs, ids, bad));
        assert forall|i: int| 0 <= i < final_headers.len() implies (#[trigger] final_headers[i])@
            == clean_headers(hs, ids, bad)[i] by {
            assert(texts(final_headers@)[i] == final_headers[i]@);
        }
        if records.len() > 0 {
            assert(identified(hs, ids, all));
        }
    }
    if has_useless(final_headers.as_slice(), useless_feats) {
        proof {
            let i = choose|i: int|
                0 <= i < final_headers.len() && bad.contains(#[trigger] final_headers[i]@);
            assert(bad.contains(clean_headers(hs, ids, bad)[i]));
        }
        return Err(PreprocessError::UselessPresent);
    }
    proof {
        if any_useless(hs, ids, bad) {
            let i = choose|i: int|
                0 <= i < clean_headers(hs, ids, bad).len() && bad.contains(
                    #[trigger] clean_headers(hs, ids, bad)[i],
                );
            assert(bad.contains(final_headers[i]@));
        }
    }
    let table = CleanTable { headers: final_headers, rows };
    proof {
        assert forall|q: int| 0 <= q < records.len() implies is_clean_row(
            texts((#[trigger] table.rows@[q])@),
            all[q],
            hs,
            ids,
            places,
        ) by {}
        assert(is_cleaned(table, hs, all, ids, bad));
    }
    Ok(table)
}

} // verus!
