//! The groups of wells that are scored on their own.

use crate::columns::{contains_name, texts};
use crate::wells::{canonical_well, clean_well_names, is_canonical};
use vstd::prelude::*;

verus! {

/// Whether `well` is the canonical form of a name of `group`.
pub open spec fn in_group(group: Seq<Seq<char>>, well: Seq<char>) -> bool {
    exists|i: int| named_at(group, i, well)
}

/// Whether `well` is the canonical form of the `i`-th name of `group`.
pub open spec fn named_at(group: Seq<Seq<char>>, i: int, well: Seq<char>) -> bool {
    0 <= i < group.len() && canonical_well(group[i]) == well
}

/// Whether one of `blocks` claims `well`.
pub open spec fn claimed(blocks: Seq<Seq<Seq<char>>>, well: Seq<char>) -> bool {
    exists|k: int| claimed_by(blocks, k, well)
}

/// Whether the `k`-th of `blocks` claims `well`.
pub open spec fn claimed_by(blocks: Seq<Seq<Seq<char>>>, k: int, well: Seq<char>) -> bool {
    0 <= k < blocks.len() && in_group(blocks[k], well)
}

/// The wells among the first `upto` of `universe` that none of `blocks` claims,
/// in the order of `universe`.
pub open spec fn leftover(universe: Seq<Seq<char>>, blocks: Seq<Seq<Seq<char>>>, upto: int) -> Seq<
    Seq<char>,
>
    decreases upto,
{
    if upto <= 0 {
        Seq::empty()
    } else {
        let before = leftover(universe, blocks, upto - 1);
        if claimed(blocks, universe[upto - 1]) {
            before
        } else {
            before.push(universe[upto - 1])
        }
    }
}

/// The groups that are scored: without explicit blocks, the whole universe as
/// one group; else the blocks as they are, and after them one more group of the
/// wells that no block claims.
pub open spec fn groups_of(universe: Seq<Seq<char>>, blocks: Option<Seq<Seq<Seq<char>>>>) -> Seq<
    Seq<Seq<char>>,
> {
    match blocks {
        None => seq![universe],
        Some(b) => b.push(leftover(universe, b, universe.len() as int)),
    }
}

/// The names of each block, in order.
pub open spec fn block_texts(blocks: Seq<Vec<String>>) -> Seq<Seq<Seq<char>>> {
    Seq::new(blocks.len(), |k: int| texts(blocks[k]@))
}

/// The names of each block of a definition, if there is one.
pub open spec fn definition_texts(block_def: Option<Vec<Vec<String>>>) -> Option<
    Seq<Seq<Seq<char>>>,
> {
    match block_def {
        None => None,
        Some(blocks) => Some(block_texts(blocks@)),
    }
}

/// A well is left over exactly if it is in the universe and unclaimed.
pub proof fn lemma_leftover(
    universe: Seq<Seq<char>>,
    blocks: Seq<Seq<Seq<char>>>,
    upto: int,
    well: Seq<char>,
)
    requires
        0 <= upto <= universe.len(),
    ensures
        leftover(universe, blocks, upto).contains(well) <==> !claimed(blocks, well) && exists|i: int|
            0 <= i < upto && universe[i] == well,
    decreases upto,
{
    if upto > 0 {
        lemma_leftover(universe, blocks, upto - 1, well);
        let before = leftover(universe, blocks, upto - 1);
        let now = leftover(universe, blocks, upto);
        let last = universe[upto - 1];
        if now.contains(well) {
            let w = choose|w: int| 0 <= w < now.len() && now[w] == well;
            if claimed(blocks, last) {
                assert(before.contains(well));
            } else if w < before.len() {
                assert(before[w] == well);
                assert(before.contains(well));
            } else {
                assert(well == last);
            }
            if before.contains(well) {
                let i = choose|i: int| 0 <= i < upto - 1 && universe[i] == well;
                assert(0 <= i < upto && universe[i] == well);
            } else {
                assert(0 <= upto - 1 < upto && universe[upto - 1] == well);
            }
        }
        if !claimed(blocks, well) && exists|i: int| 0 <= i < upto && universe[i] == well {
            let i = choose|i: int| 0 <= i < upto && universe[i] == well;
            if i < upto - 1 {
                assert(before.contains(well));
                let w = choose|w: int| 0 <= w < before.len() && before[w] == well;
                assert(now[w] == well);
            } else {
                assert(now[now.len() - 1] == well);
            }
        }
    } else {
        let now = leftover(universe, blocks, upto);
        assert(now.len() == 0);
    }
}

/// Every canonical well of the universe is in a group, whatever the blocks.
pub proof fn lemma_every_well_grouped(
    universe: Seq<Seq<char>>,
    blocks: Option<Seq<Seq<Seq<char>>>>,
    well: Seq<char>,
)
    requires
        universe.contains(well),
        is_canonical(well),
    ensures
        exists|g: int|
            0 <= g < groups_of(universe, blocks).len() && in_group(
                #[trigger] groups_of(universe, blocks)[g],
                well,
            ),
{
    let groups = groups_of(universe, blocks);
    let at = choose|i: int| 0 <= i < universe.len() && universe[i] == well;
    match blocks {
        None => {
            assert(named_at(universe, at, well));
            assert(in_group(groups[0], well));
        },
        Some(b) => {
            if claimed(b, well) {
                let k = choose|k: int| claimed_by(b, k, well);
                assert(groups[k] == b[k]);
                assert(in_group(groups[k], well));
            } else {
                let rest = leftover(universe, b, universe.len() as int);
                lemma_leftover(universe, b, universe.len() as int, well);
                assert(rest.contains(well));
                let w = choose|w: int| 0 <= w < rest.len() && rest[w] == well;
                assert(named_at(rest, w, well));
                assert(groups[b.len() as int] == rest);
                assert(in_group(groups[b.len() as int], well));
            }
        },
    }
}

/// Whether no well is claimed by two of `blocks`.
pub open spec fn disjoint(blocks: Seq<Seq<Seq<char>>>) -> bool {
    forall|k: int, l: int, well: Seq<char>|
        claimed_by(blocks, k, well) && claimed_by(blocks, l, well) ==> k == l
}

/// Where every well of the universe is canonical and no two blocks claim the
/// same well, a well of the universe is in one group only.
pub proof fn lemma_one_group_only(
    universe: Seq<Seq<char>>,
    blocks: Option<Seq<Seq<Seq<char>>>>,
    well: Seq<char>,
    g: int,
    h: int,
)
    requires
        forall|i: int| 0 <= i < universe.len() ==> is_canonical(#[trigger] universe[i]),
        blocks is Some ==> disjoint(blocks->0),
        0 <= g < groups_of(universe, blocks).len(),
        0 <= h < groups_of(universe, blocks).len(),
        in_group(groups_of(universe, blocks)[g], well),
        in_group(groups_of(universe, blocks)[h], well),
    ensures
        g == h,
{
    match blocks {
        None => {},
        Some(b) => {
            let groups = groups_of(universe, blocks);
            let rest = leftover(universe, b, universe.len() as int);
            let last = b.len() as int;
            if g < last {
                assert(groups[g] == b[g]);
                assert(claimed_by(b, g, well));
            }
            if h < last {
                assert(groups[h] == b[h]);
                assert(claimed_by(b, h, well));
            }
            if g == last && h < last || h == last && g < last {
                assert(groups[last] == rest);
                let i = choose|i: int| named_at(rest, i, well);
                assert(rest.contains(rest[i]));
                lemma_leftover(universe, b, universe.len() as int, rest[i]);
                let u = choose|u: int| 0 <= u < universe.len() && universe[u] == rest[i];
                assert(is_canonical(universe[u]));
                assert(rest[i] == well);
                assert(claimed(b, well));
            }
        },
    }
}

/// A copy of the names.
pub fn copy_names(names: &[String]) -> (out: Vec<String>)
    ensures
        texts(out@) == texts(names@),
{
    let mut out: Vec<String> = Vec::new();
    let mut i: usize = 0;
    while i < names.len()
        invariant
            i <= names.len(),
            out.len() == i,
            forall|j: int| 0 <= j < i ==> (#[trigger] out[j])@ == names[j]@,
        decreases names.len() - i,
    {
        out.push(names[i].clone());
        i += 1;
    }
    assert(texts(out@) =~= texts(names@));
    out
}

/// The groups that are scored: without explicit blocks, the whole universe as
/// one group; else the blocks as they are, and after them one more group of the
/// wells that no block claims.
pub fn resolve_groups(universe: &[String], block_def: Option<Vec<Vec<String>>>) -> (out: Vec<
    Vec<String>,
>)
    ensures
        block_texts(out@) == groups_of(texts(universe@), definition_texts(block_def)),
{
    match block_def {
        None => {
            let mut out: Vec<Vec<String>> = Vec::new();
            out.push(copy_names(universe));
            assert(block_texts(out@) =~= seq![texts(universe@)]);
            out
        },
        Some(blocks) => {
            let ghost b = block_texts(blocks@);
            let ghost u = texts(universe@);
            // The canonical forms of all names of all blocks.
            let mut taken: Vec<String> = Vec::new();
            let mut k: usize = 0;
            while k < blocks.len()
                invariant
                    k <= blocks.len(),
                    b == block_texts(blocks@),
                    forall|well: Seq<char>|
                        texts(taken@).contains(well) <==> exists|l: int|
                            0 <= l < k && claimed_by(b, l, well),
                decreases blocks.len() - k,
            {
                let mut clean = clean_well_names(blocks[k].as_slice());
                let ghost before = texts(taken@);
                let ghost names = texts(clean@);
                assert forall|well: Seq<char>| names.contains(well) <==> in_group(b[k as int], well) by {
                    if names.contains(well) {
                        let i = choose|i: int| 0 <= i < names.len() && names[i] == well;
                        assert(clean[i]@ == canonical_well(blocks[k as int][i]@));
                        assert(named_at(b[k as int], i, well));
                    }
                    if in_group(b[k as int], well) {
                        let i = choose|i: int| named_at(b[k as int], i, well);
                        assert(names[i] == well);
                    }
                }
                taken.append(&mut clean);
                proof {
                    let after = texts(taken@);
                    assert(after =~= before + names);
                    assert forall|well: Seq<char>|
                        after.contains(well) <==> exists|l: int|
                            0 <= l < k + 1 && claimed_by(b, l, well) by {
                        if after.contains(well) {
                            let i = choose|i: int| 0 <= i < after.len() && after[i] == well;
                            if i < before.len() {
                                assert(before[i] == well);
                                assert(before.contains(well));
                                let l = choose|l: int| 0 <= l < k && claimed_by(b, l, well);
                                assert(0 <= l < k + 1 && claimed_by(b, l, well));
                            } else {
                                assert(names[i - before.len()] == well);
                                assert(names.contains(well));
                                assert(0 <= k < k + 1 && claimed_by(b, k as int, well));
                            }
                        }
                        if exists|l: int| 0 <= l < k + 1 && claimed_by(b, l, well) {
                            let l = choose|l: int| 0 <= l < k + 1 && claimed_by(b, l, well);
                            if l < k {
                                assert(before.contains(well));
                                let i = choose|i: int| 0 <= i < before.len() && before[i] == well;
                                assert(after[i] == well);
                            } else {
                                assert(names.contains(well));
                                let i = choose|i: int| 0 <= i < names.len() && names[i] == well;
                                assert(after[before.len() + i] == well);
                            }
                        }
                    }
                }
                k += 1;
            }
            proof {
                assert forall|well: Seq<char>| texts(taken@).contains(well) <==> claimed(b, well) by {
                    if texts(taken@).contains(well) {
                        let l = choose|l: int| 0 <= l < k && claimed_by(b, l, well);
                        assert(claimed_by(b, l, well));
                    }
                    if claimed(b, well) {
                        let l = choose|l: int| claimed_by(b, l, well);
                        assert(0 <= l < k && claimed_by(b, l, well));
                    }
                }
            }
            let mut rest: Vec<String> = Vec::new();
            let mut i: usize = 0;
            while i < universe.len()
                invariant
                    i <= universe.len(),
                    u == texts(universe@),
                    forall|well: Seq<char>| texts(taken@).contains(well) <==> claimed(b, well),
                    texts(rest@) == leftover(u, b, i as int),
                decreases universe.len() - i,
            {
                let ghost before = texts(rest@);
                assert(u[i as int] == universe[i as int]@);
                if !contains_name(taken.as_slice(), &universe[i]) {
                    rest.push(universe[i].clone());
                    assert(texts(rest@) =~= before.push(u[i as int]));
                }
                i += 1;
            }
            let mut out = blocks;
            out.push(rest);
            assert(block_texts(out@) =~= b.push(leftover(u, b, u.len() as int)));
            out
        },
    }
}

} // verus!
