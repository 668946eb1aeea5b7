//! The two shared maps of the engine, keyed by name.
//!
//! Both are `dashmap::DashMap`s. Verus does not look inside one: what a map
//! holds is named by a specification function, and each call into the map goes
//! through a function of this file whose contract is taken on trust from the
//! map's source.

use crate::histograms::{Hist1D, HistView, MinMax};
use dashmap::DashMap;
use vstd::prelude::*;

verus! {

/// `dashmap::DashMap`, as a type that Verus carries without looking inside.
#[verifier::external_type_specification]
#[verifier::external_body]
#[verifier::reject_recursive_types(K)]
#[verifier::reject_recursive_types(V)]
#[verifier::reject_recursive_types(S)]
pub struct ExDashMap<K, V, S>(DashMap<K, V, S>);

/// The range found so far under each feature name; `None` under a name for
/// which no value was found yet.
pub uninterp spec fn spans_held(m: DashMap<String, Option<MinMax>>) -> Map<
    Seq<char>,
    Option<MinMax>,
>;

/// The histograms of each well, by the well's name.
pub uninterp spec fn wells_held(m: DashMap<String, Vec<Hist1D>>) -> Map<Seq<char>, Seq<HistView>>;

/// What each histogram of `hists` holds, in order.
pub open spec fn views(hists: Seq<Hist1D>) -> Seq<HistView> {
    Seq::new(hists.len(), |i: int| hists[i]@)
}

/// A map of spans without entries.
pub open spec fn no_spans() -> Map<Seq<char>, Option<MinMax>> {
    Map::empty()
}

/// A map of wells without entries.
pub open spec fn no_wells() -> Map<Seq<char>, Seq<HistView>> {
    Map::empty()
}

/// `DashMap::new`: a map that holds nothing.
#[verifier::external_body]
pub(crate) fn span_map() -> (m: DashMap<String, Option<MinMax>>)
    ensures
        spans_held(m) == no_spans(),
{
    DashMap::new()
}

/// `DashMap::insert`: afterwards the map holds `span` under `name`, in place of
/// what it held there before, and every other entry as before.
#[verifier::external_body]
pub(crate) fn span_put(m: &mut DashMap<String, Option<MinMax>>, name: String, span: Option<MinMax>)
    ensures
        spans_held(*final(m)) == spans_held(*old(m)).insert(name@, span),
{
    m.insert(name, span);
}

/// `DashMap::get`, with the value copied out: what the map holds under `name`,
/// or `None` where it holds nothing there.
#[verifier::external_body]
pub(crate) fn span_get(m: &DashMap<String, Option<MinMax>>, name: &String) -> (out: Option<
    Option<MinMax>,
>)
    ensures
        out is Some <==> spans_held(*m).contains_key(name@),
        out is Some ==> out->0 == spans_held(*m)[name@],
{
    m.get(name).map(|entry| *entry.value())
}

/// `DashMap::new`: a map that holds nothing.
#[verifier::external_body]
pub(crate) fn well_map() -> (m: DashMap<String, Vec<Hist1D>>)
    ensures
        wells_held(m) == no_wells(),
{
    DashMap::new()
}

/// `DashMap::insert`: afterwards the map holds `hists` under `well`, in place
/// of what it held there before, and every other entry as before.
#[verifier::external_body]
pub(crate) fn well_put(m: &mut DashMap<String, Vec<Hist1D>>, well: String, hists: Vec<Hist1D>)
    ensures
        wells_held(*final(m)) == wells_held(*old(m)).insert(well@, views(hists@)),
{
    m.insert(well, hists);
}

/// `DashMap::remove`: the entry under `well` leaves the map and its value is
/// handed out; where there is none, the map stays as it is.
#[verifier::external_body]
pub(crate) fn well_take(m: &mut DashMap<String, Vec<Hist1D>>, well: &String) -> (out: Option<
    Vec<Hist1D>,
>)
    ensures
        out is Some <==> wells_held(*old(m)).contains_key(well@),
        out is Some ==> views(out->0@) == wells_held(*old(m))[well@],
        wells_held(*final(m)) == wells_held(*old(m)).remove(well@),
{
    m.remove(well).map(|entry| entry.1)
}

/// `DashMap::into_iter`, collected: every entry of the map once, as a pair of
/// name and value, in no stated order.
#[verifier::external_body]
pub(crate) fn well_drain(m: DashMap<String, Vec<Hist1D>>) -> (out: Vec<(String, Vec<Hist1D>)>)
    ensures
        forall|i: int, j: int|
            0 <= i < j < out.len() ==> (#[trigger] out[i]).0@ != (#[trigger] out[j]).0@,
        forall|i: int|
            0 <= i < out.len() ==> wells_held(m).contains_key((#[trigger] out[i]).0@) && wells_held(
                m,
            )[out[i].0@] == views(out[i].1@),
        forall|well: Seq<char>| #[trigger]
            wells_held(m).contains_key(well) ==> exists|i: int|
                0 <= i < out.len() && (#[trigger] out[i]).0@ == well,
{
    m.into_iter().collect()
}

} // verus!
