//! Looking names up in a header row.

use vstd::prelude::*;

verus! {

/// The text of each string of `items`, in order.
pub open spec fn texts(items: Seq<String>) -> Seq<Seq<char>> {
    Seq::new(items.len(), |i: int| items[i]@)
}

/// Whether `i` is the first place at which `name` stands in `items`.
pub open spec fn is_first_at(items: Seq<Seq<char>>, name: Seq<char>, i: int) -> bool {
    &&& 0 <= i < items.len()
    &&& items[i] == name
    &&& forall|j: int| 0 <= j < i ==> items[j] != name
}

/// The first place at which `name` stands in `items`, if it stands there at all.
pub open spec fn first_index(items: Seq<Seq<char>>, name: Seq<char>) -> Option<int> {
    if exists|i: int| is_first_at(items, name, i) {
        Some(choose|i: int| is_first_at(items, name, i))
    } else {
        None
    }
}

/// A first place is the only first place.
pub proof fn lemma_first_index_is(items: Seq<Seq<char>>, name: Seq<char>, i: int)
    requires
        is_first_at(items, name, i),
    ensures
        first_index(items, name) == Some(i),
{
    let k = choose|k: int| is_first_at(items, name, k);
    assert(is_first_at(items, name, k));
    if k < i {
        assert(items[k] != name);
    } else if i < k {
        assert(items[i] != name);
    }
}

/// A name that stands nowhere has no first place, and the converse.
pub proof fn lemma_first_index_none(items: Seq<Seq<char>>, name: Seq<char>)
    ensures
        first_index(items, name) is None <==> !items.contains(name),
        first_index(items, name) is Some ==> is_first_at(
            items,
            name,
            first_index(items, name)->0,
        ),
{
    if items.contains(name) {
        let w = choose|w: int| 0 <= w < items.len() && items[w] == name;
        lemma_least_place(items, name, w);
    } else {
        if exists|i: int| is_first_at(items, name, i) {
            let i = choose|i: int| is_first_at(items, name, i);
            assert(items[i] == name);
        }
    }
}

proof fn lemma_least_place(items: Seq<Seq<char>>, name: Seq<char>, w: int)
    requires
        0 <= w < items.len(),
        items[w] == name,
    ensures
        exists|i: int| is_first_at(items, name, i),
    decreases w,
{
    if exists|j: int| 0 <= j < w && items[j] == name {
        let j = choose|j: int| 0 <= j < w && items[j] == name;
        lemma_least_place(items, name, j);
    } else {
        assert(is_first_at(items, name, w));
    }
}

/// The first place at which `name` stands in `items`.
pub fn position(items: &[String], name: &String) -> (out: Option<usize>)
    ensures
        out is Some <==> texts(items@).contains(name@),
        match out {
            Some(i) => first_index(texts(items@), name@) == Some(i as int),
            None => first_index(texts(items@), name@) is None,
        },
{
    let ghost all = texts(items@);
    let mut i: usize = 0;
    while i < items.len()
        invariant
            i <= items.len(),
            all == texts(items@),
            forall|j: int| 0 <= j < i ==> all[j] != name@,
        decreases items.len() - i,
    {
        if items[i] == *name {
            proof {
                assert(all[i as int] == name@);
                assert(is_first_at(all, name@, i as int));
                lemma_first_index_is(all, name@, i as int);
            }
            return Some(i);
        }
        i += 1;
    }
    proof {
        lemma_first_index_none(all, name@);
    }
    None
}

/// Whether `name` stands in `items`.
pub fn contains_name(items: &[String], name: &String) -> (out: bool)
    ensures
        out == texts(items@).contains(name@),
{
    position(items, name).is_some()
}

/// Where each of `names` first stands in `headers`, one place per name, in the
/// order of `names`; every name is looked up on its own.
pub open spec fn located(headers: Seq<Seq<char>>, names: Seq<Seq<char>>) -> Seq<int> {
    Seq::new(names.len(), |k: int| first_index(headers, names[k])->0)
}

/// Whether every one of `names` stands in `headers`.
pub open spec fn all_present(headers: Seq<Seq<char>>, names: Seq<Seq<char>>) -> bool {
    forall|k: int| 0 <= k < names.len() ==> headers.contains(#[trigger] names[k])
}

/// The places of `names` in `headers`, or `None` as soon as one is absent.
pub fn locate(headers: &[String], names: &[String]) -> (out: Option<Vec<usize>>)
    ensures
        out is Some <==> all_present(texts(headers@), texts(names@)),
        out is Some ==> out->0@.map_values(|i: usize| i as int) == located(
            texts(headers@),
            texts(names@),
        ),
        out is Some ==> out->0.len() == names.len(),
        out is Some ==> forall|k: int| 0 <= k < out->0.len() ==> #[trigger] out->0[k] < headers.len(),
{
    let ghost hs = texts(headers@);
    let ghost ns = texts(names@);
    let mut places: Vec<usize> = Vec::new();
    let mut k: usize = 0;
    while k < names.len()
        invariant
            k <= names.len(),
            hs == texts(headers@),
            ns == texts(names@),
            places.len() == k,
            forall|j: int| 0 <= j < k ==> hs.contains(#[trigger] ns[j]),
            forall|j: int| 0 <= j < k ==> first_index(hs, ns[j]) == Some(#[trigger] places[j] as int),
            forall|j: int| 0 <= j < k ==> #[trigger] places[j] < headers.len(),
        decreases names.len() - k,
    {
        match position(headers, &names[k]) {
            Some(i) => {
                proof {
                    lemma_first_index_none(hs, ns[k as int]);
                }
                places.push(i);
            },
            None => {
                assert(!hs.contains(ns[k as int]));
                return None;
            },
        }
        k += 1;
    }
    assert(places@.map_values(|i: usize| i as int) =~= located(hs, ns));
    Some(places)
}

/// What the next name adds to the names before it.
pub proof fn lemma_take_contains(names: Seq<Seq<char>>, j: int, f: Seq<char>)
    requires
        0 <= j < names.len(),
    ensures
        names.take(j + 1).contains(f) <==> names.take(j).contains(f) || f == names[j],
{
    let done = names.take(j);
    let next = names.take(j + 1);
    if next.contains(f) {
        let w = choose|w: int| 0 <= w < next.len() && next[w] == f;
        if w < j {
            assert(done[w] == f);
        }
    }
    if done.contains(f) {
        let w = choose|w: int| 0 <= w < done.len() && done[w] == f;
        assert(next[w] == f);
    }
    assert(next[j] == names[j]);
}


} // verus!
