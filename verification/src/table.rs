//! The table of results: for each well, a score under each feature name.

use crate::columns::{
    first_index, is_first_at, lemma_first_index_is, lemma_first_index_none, position, texts,
};
use crate::score::Score;
use vstd::prelude::*;

verus! {

/// The scores of one well, by feature name.
#[derive(Debug)]
pub struct ScoreRow {
    names: Vec<String>,
    scores: Vec<Score>,
}

/// The scores of all wells, by well name.
#[derive(Debug)]
pub struct ResultTable {
    wells: Vec<String>,
    rows: Vec<ScoreRow>,
}

/// The map that holds the entries of `extra`, and those of `base` under the
/// names that `extra` does not hold.
pub open spec fn overlaid(base: Map<Seq<char>, Score>, extra: Map<Seq<char>, Score>) -> Map<
    Seq<char>,
    Score,
> {
    base.union_prefer_right(extra)
}

/// The table after the scores `scores` of the well `well` went into it: a score
/// that the well had under the same feature name gives way to the new one.
pub open spec fn merged_well(
    table: Map<Seq<char>, Map<Seq<char>, Score>>,
    well: Seq<char>,
    scores: Map<Seq<char>, Score>,
) -> Map<Seq<char>, Map<Seq<char>, Score>> {
    if table.contains_key(well) {
        table.insert(well, overlaid(table[well], scores))
    } else {
        table.insert(well, scores)
    }
}

proof fn lemma_pushed_name(names: Seq<Seq<char>>, name: Seq<char>, f: Seq<char>)
    requires
        !names.contains(name),
    ensures
        names.push(name).contains(f) <==> names.contains(f) || f == name,
        names.contains(f) ==> first_index(names.push(name), f) == first_index(names, f),
        first_index(names.push(name), name) == Some(names.len() as int),
{
    let more = names.push(name);
    if more.contains(f) {
        let w = choose|w: int| 0 <= w < more.len() && more[w] == f;
        if w < names.len() {
            assert(names[w] == f);
        }
    }
    if names.contains(f) {
        let w = choose|w: int| 0 <= w < names.len() && names[w] == f;
        assert(more[w] == f);
        lemma_first_index_none(names, f);
        let k = first_index(names, f)->0;
        assert forall|j: int| 0 <= j < k implies more[j] != f by {
            assert(more[j] == names[j]);
        }
        assert(more[k] == names[k]);
        assert(is_first_at(more, f, k));
        lemma_first_index_is(more, f, k);
    }
    assert(more[names.len() as int] == name);
    assert forall|j: int| 0 <= j < names.len() implies more[j] != name by {
        assert(more[j] == names[j]);
    }
    assert(is_first_at(more, name, names.len() as int));
    lemma_first_index_is(more, name, names.len() as int);
}

impl View for ScoreRow {
    type V = Map<Seq<char>, Score>;

    closed spec fn view(&self) -> Map<Seq<char>, Score> {
        Map::new(
            |f: Seq<char>| texts(self.names@).contains(f),
            |f: Seq<char>| self.scores@[first_index(texts(self.names@), f)->0],
        )
    }
}

impl ScoreRow {
    /// No feature name stands twice, and each has its score.
    pub closed spec fn wf(&self) -> bool {
        &&& self.names@.len() == self.scores@.len()
        &&& texts(self.names@).no_duplicates()
    }

    /// The feature names, in the order in which they came.
    pub closed spec fn names(&self) -> Seq<Seq<char>> {
        texts(self.names@)
    }

    /// The row holds a score under exactly the names of `names`.
    pub proof fn lemma_names(&self)
        requires
            self.wf(),
        ensures
            self.names().no_duplicates(),
            forall|f: Seq<char>| self@.contains_key(f) <==> self.names().contains(f),
    {
    }

    /// A row without scores.
    pub fn new() -> (out: ScoreRow)
        ensures
            out.wf(),
            out@ == Map::<Seq<char>, Score>::empty(),
            out.names().len() == 0,
    {
        let out = ScoreRow { names: Vec::new(), scores: Vec::new() };
        assert(out@ =~= Map::<Seq<char>, Score>::empty());
        out
    }

    /// The number of scores.
    pub fn len(&self) -> (out: usize)
        requires
            self.wf(),
        ensures
            out == self.names().len(),
    {
        self.names.len()
    }

    /// The `i`-th feature name and its score.
    pub fn entry(&self, i: usize) -> (out: (&String, Score))
        requires
            self.wf(),
            i < self.names().len(),
        ensures
            out.0@ == self.names()[i as int],
            self@.contains_key(out.0@),
            self@[out.0@] == out.1,
    {
        proof {
            let all = texts(self.names@);
            assert(all[i as int] == self.names@[i as int]@);
            assert forall|j: int| 0 <= j < i implies all[j] != all[i as int] by {}
            assert(is_first_at(all, all[i as int], i as int));
            lemma_first_index_is(all, all[i as int], i as int);
        }
        (&self.names[i], self.scores[i])
    }

    /// The score under `name`, if there is one.
    pub fn get(&self, name: &String) -> (out: Option<Score>)
        requires
            self.wf(),
        ensures
            out is Some <==> self@.contains_key(name@),
            out is Some ==> out->0 == self@[name@],
    {
        match position(self.names.as_slice(), name) {
            Some(i) => Some(self.scores[i]),
            None => None,
        }
    }

    /// Puts `score` under `name`, in place of the score that stood there.
    pub fn set(&mut self, name: &String, score: Score)
        requires
            old(self).wf(),
        ensures
            final(self).wf(),
            final(self)@ == old(self)@.insert(name@, score),
    {
        let ghost before = texts(self.names@);
        let ghost old_scores = self.scores@;
        match position(self.names.as_slice(), name) {
            Some(i) => {
                self.scores.set(i, score);
                proof {
                    assert forall|f: Seq<char>| before.contains(f) implies #[trigger] self@[f] == old(
                        self,
                    )@.insert(name@, score)[f] by {
                        lemma_first_index_none(before, f);
                    }
                    assert(before.contains(name@));
                    assert(self@ =~= old(self)@.insert(name@, score));
                }
            },
            None => {
                self.names.push(name.clone());
                self.scores.push(score);
                proof {
                    let after = texts(self.names@);
                    assert(after =~= before.push(name@));
                    assert forall|f: Seq<char>|
                        (after.contains(f) <==> before.contains(f) || f == name@) && (
                        before.contains(f) ==> first_index(after, f) == first_index(before, f))
                        && first_index(after, name@) == Some(before.len() as int) by {
                        lemma_pushed_name(before, name@, f);
                    }
                    assert forall|f: Seq<char>| before.contains(f) implies first_index(before, f)->0
                        < before.len() && first_index(before, f) is Some by {
                        lemma_first_index_none(before, f);
                    }
                    assert forall|a: int, b: int| 0 <= a < b < after.len() implies after[a]
                        != after[b] by {
                        if b == before.len() {
                            assert(after[a] == before[a]);
                            assert(before.contains(before[a]));
                        } else {
                            assert(after[a] == before[a]);
                            assert(after[b] == before[b]);
                        }
                    }
                    assert(self@ =~= old(self)@.insert(name@, score));
                }
            },
        }
    }

    /// A copy of the row.
    pub fn duplicate(&self) -> (out: ScoreRow)
        requires
            self.wf(),
        ensures
            out.wf(),
            out@ == self@,
            out.names() == self.names(),
    {
        let mut names: Vec<String> = Vec::new();
        let mut scores: Vec<Score> = Vec::new();
        let mut i: usize = 0;
        while i < self.names.len()
            invariant
                i <= self.names.len(),
                self.names@.len() == self.scores@.len(),
                names.len() == i,
                scores.len() == i,
                forall|j: int| 0 <= j < i ==> (#[trigger] names[j])@ == self.names@[j]@,
                forall|j: int| 0 <= j < i ==> #[trigger] scores[j] == self.scores@[j],
            decreases self.names.len() - i,
        {
            names.push(self.names[i].clone());
            scores.push(self.scores[i]);
            i += 1;
        }
        let out = ScoreRow { names, scores };
        proof {
            assert(texts(out.names@) =~= texts(self.names@));
            assert(out.scores@ =~= self.scores@);
            assert(out@ =~= self@);
        }
        out
    }

    /// Takes over every score of `other`; a score that stood under the same
    /// name gives way.
    pub fn merge(&mut self, other: &ScoreRow)
        requires
            old(self).wf(),
            other.wf(),
        ensures
            final(self).wf(),
            final(self)@ == overlaid(old(self)@, other@),
    {
        let ghost base = self@;
        let ghost theirs = texts(other.names@);
        let mut i: usize = 0;
        assert(self@ =~= Map::new(
            |f: Seq<char>| base.contains_key(f) || theirs.take(0).contains(f),
            |f: Seq<char>|
                if theirs.take(0).contains(f) {
                    other@[f]
                } else {
                    base[f]
                },
        ));
        while i < other.names.len()
            invariant
                i <= other.names.len(),
                self.wf(),
                other.wf(),
                theirs == texts(other.names@),
                self@ == Map::new(
                    |f: Seq<char>| base.contains_key(f) || theirs.take(i as int).contains(f),
                    |f: Seq<char>|
                        if theirs.take(i as int).contains(f) {
                            other@[f]
                        } else {
                            base[f]
                        },
                ),
            decreases other.names.len() - i,
        {
            let (name, score) = other.entry(i);
            let ghost before = self@;
            self.set(name, score);
            proof {
                let done = theirs.take(i as int);
                let next = theirs.take(i + 1);
                assert(next =~= done.push(theirs[i as int]));
                assert forall|f: Seq<char>| next.contains(f) <==> done.contains(f) || f
                    == theirs[i as int] by {
                    if next.contains(f) {
                        let w = choose|w: int| 0 <= w < next.len() && next[w] == f;
                        if w < i {
                            assert(done[w] == f);
                        }
                    }
                    if done.contains(f) {
                        let w = choose|w: int| 0 <= w < done.len() && done[w] == f;
                        assert(next[w] == f);
                    }
                    assert(next[i as int] == theirs[i as int]);
                }
                assert(self@ =~= Map::new(
                    |f: Seq<char>| base.contains_key(f) || next.contains(f),
                    |f: Seq<char>|
                        if next.contains(f) {
                            other@[f]
                        } else {
                            base[f]
                        },
                ));
            }
            i += 1;
        }
        proof {
            assert(theirs.take(i as int) =~= theirs);
            assert(self@ =~= overlaid(base, other@));
        }
    }
}

impl View for ResultTable {
    type V = Map<Seq<char>, Map<Seq<char>, Score>>;

    closed spec fn view(&self) -> Map<Seq<char>, Map<Seq<char>, Score>> {
        Map::new(
            |w: Seq<char>| texts(self.wells@).contains(w),
            |w: Seq<char>| self.rows@[first_index(texts(self.wells@), w)->0]@,
        )
    }
}

impl ResultTable {
    /// No well stands twice, and each has its row of scores.
    pub closed spec fn wf(&self) -> bool {
        &&& self.wells@.len() == self.rows@.len()
        &&& texts(self.wells@).no_duplicates()
        &&& forall|i: int| 0 <= i < self.rows@.len() ==> (#[trigger] self.rows@[i]).wf()
    }

    /// The well names, in the order in which they came.
    pub closed spec fn wells(&self) -> Seq<Seq<char>> {
        texts(self.wells@)
    }

    /// The table holds a row under exactly the names of `wells`.
    pub proof fn lemma_wells(&self)
        requires
            self.wf(),
        ensures
            self.wells().no_duplicates(),
            forall|w: Seq<char>| self@.contains_key(w) <==> self.wells().contains(w),
    {
    }

    /// A table without wells.
    pub fn new() -> (out: ResultTable)
        ensures
            out.wf(),
            out@ == Map::<Seq<char>, Map<Seq<char>, Score>>::empty(),
            out.wells().len() == 0,
    {
        let out = ResultTable { wells: Vec::new(), rows: Vec::new() };
        assert(out@ =~= Map::<Seq<char>, Map<Seq<char>, Score>>::empty());
        out
    }

    /// The number of wells.
    pub fn len(&self) -> (out: usize)
        requires
            self.wf(),
        ensures
            out == self.wells().len(),
    {
        self.wells.len()
    }

    /// The `i`-th well and its scores.
    pub fn entry(&self, i: usize) -> (out: (&String, &ScoreRow))
        requires
            self.wf(),
            i < self.wells().len(),
        ensures
            out.0@ == self.wells()[i as int],
            out.1.wf(),
            self@.contains_key(out.0@),
            self@[out.0@] == out.1@,
    {
        proof {
            let all = texts(self.wells@);
            assert(all[i as int] == self.wells@[i as int]@);
            assert forall|j: int| 0 <= j < i implies all[j] != all[i as int] by {}
            assert(is_first_at(all, all[i as int], i as int));
            lemma_first_index_is(all, all[i as int], i as int);
        }
        (&self.wells[i], &self.rows[i])
    }

    /// The scores of `well`, if it has any.
    pub fn get(&self, well: &String) -> (out: Option<&ScoreRow>)
        requires
            self.wf(),
        ensures
            out is Some <==> self@.contains_key(well@),
            out is Some ==> out->0@ == self@[well@] && out->0.wf(),
    {
        match position(self.wells.as_slice(), well) {
            Some(i) => Some(&self.rows[i]),
            None => None,
        }
    }

    /// Takes the scores `scores` of the well `well` into the table; a score
    /// that the well had under the same feature name gives way.
    pub fn extend(&mut self, well: &String, scores: &ScoreRow)
        requires
            old(self).wf(),
            scores.wf(),
        ensures
            final(self).wf(),
            final(self)@ == merged_well(old(self)@, well@, scores@),
    {
        let ghost before = texts(self.wells@);
        let ghost old_rows = self.rows@;
        match position(self.wells.as_slice(), well) {
            Some(i) => {
                self.rows[i].merge(scores);
                proof {
                    assert forall|w: Seq<char>| before.contains(w) implies first_index(before, w)
                        is Some && 0 <= first_index(before, w)->0 < before.len() by {
                        lemma_first_index_none(before, w);
                    }
                    assert(before.contains(well@));
                    assert(self@ =~= merged_well(old(self)@, well@, scores@));
                }
            },
            None => {
                self.wells.push(well.clone());
                self.rows.push(scores.duplicate());
                proof {
                    let after = texts(self.wells@);
                    assert(after =~= before.push(well@));
                    assert forall|w: Seq<char>|
                        (after.contains(w) <==> before.contains(w) || w == well@) && (
                        before.contains(w) ==> first_index(after, w) == first_index(before, w))
                        && first_index(after, well@) == Some(before.len() as int) by {
                        lemma_pushed_name(before, well@, w);
                    }
                    assert forall|w: Seq<char>| before.contains(w) implies first_index(before, w)->0
                        < before.len() && first_index(before, w) is Some by {
                        lemma_first_index_none(before, w);
                    }
                    assert forall|a: int, b: int| 0 <= a < b < after.len() implies after[a]
                        != after[b] by {
                        if b == before.len() {
                            assert(after[a] == before[a]);
                            assert(before.contains(before[a]));
                        } else {
                            assert(after[a] == before[a]);
                            assert(after[b] == before[b]);
                        }
                    }
                    assert(self@ =~= merged_well(old(self)@, well@, scores@));
                }
            },
        }
    }
}

} // verus!
