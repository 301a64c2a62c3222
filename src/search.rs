use vstd::prelude::*;
use rand::seq::SliceRandom;
use crate::sides::{Sides, neighbor, at_point, opposite_of, step_from, dist_sq, lemma_opposite_involution};
use crate::flags::MultiFlag;
use crate::graph::{
    FlagGraph, CellView, cells_view, supply_view, occupied, locs_unique, registry_wf, ids_known,
    compatible_side, fits, legal, on_frontier, is_leaf, is_placement, state_wf, graph_total,
    find_supply,
};
use crate::index::EdgeData;

verus! {

/// A free cell next to the placement, and the side across which an
/// occupied neighbor was found.
#[derive(Debug, Clone, Copy)]
pub struct BoundaryCell {
    pub loc: (i32, i32),
    pub from: Sides,
}

/// Whether the point `p` has coordinates that fit in `i32`.
pub open spec fn in_grid(p: (int, int)) -> bool {
    i32::MIN <= p.0 <= i32::MAX && i32::MIN <= p.1 <= i32::MAX
}

/// `b` is free, and the cell across `b.from` is occupied.
pub open spec fn cell_ok(c: Seq<CellView>, b: BoundaryCell) -> bool {
    &&& !occupied(c, (b.loc.0 as int, b.loc.1 as int))
    &&& occupied(c, neighbor(b.loc, b.from))
}

/// Some boundary cell of `v` sits on point `p`.
pub open spec fn listed(v: Seq<BoundaryCell>, p: (int, int)) -> bool {
    exists|m: int| 0 <= m < v.len() && at_point(#[trigger] v[m].loc, p)
}

/// Every cell of `v` is a boundary cell, each coordinate once.
pub open spec fn frontier_ok(c: Seq<CellView>, v: Seq<BoundaryCell>) -> bool {
    &&& forall|m: int| 0 <= m < v.len() ==> cell_ok(c, #[trigger] v[m])
    &&& forall|m: int, q: int| 0 <= m < v.len() && 0 <= q < v.len() && m != q ==> v[m].loc != v[q].loc
}

/// `child` is one legal move away from `parent`, and keeps every invariant.
pub open spec fn successor(parent: crate::graph::GraphView, child: crate::graph::GraphView, reg: Seq<MultiFlag>) -> bool {
    exists|loc: (i32, i32), k: int|
        on_frontier(parent.cells, loc) && #[trigger] legal(parent, reg, loc, k)
            && is_placement(parent, child, loc, reg[k].id@) && state_wf(child, reg)
            && graph_total(child) == graph_total(parent)
}

/// Relies on rand's `SliceRandom::shuffle` over `thread_rng`: it only swaps
/// elements, so the result is a permutation of the input.
#[verifier::external_body]
fn shuffle<T>(v: &mut Vec<T>)
    ensures
        final(v)@.to_multiset() == old(v)@.to_multiset(),
{
    v.shuffle(&mut rand::thread_rng());
}

/// Relies on `slice::sort_by`: the result is a permutation of the input in
/// which no cell is nearer to the origin than a cell after it.
#[verifier::external_body]
fn sort_farthest_first(v: &mut Vec<BoundaryCell>)
    ensures
        final(v)@.to_multiset() == old(v)@.to_multiset(),
        forall|i: int, j: int| 0 <= i < j < final(v)@.len() ==>
            final(v)@[i].loc.0 * final(v)@[i].loc.0 + final(v)@[i].loc.1 * final(v)@[i].loc.1
                >= final(v)@[j].loc.0 * final(v)@[j].loc.0 + final(v)@[j].loc.1 * final(v)@[j].loc.1,
{
    v.sort_by(|a, b| dist_sq(b.loc).cmp(&dist_sq(a.loc)));
}

/// Position of the placement at `p`, if any.
pub fn find_loc(cells: &Vec<((i32, i32), String)>, p: (i32, i32)) -> (r: Option<usize>)
    ensures
        r matches Some(i) ==> i < cells@.len() && cells@[i as int].0 == p,
        r is None ==> !occupied(cells_view(cells@), (p.0 as int, p.1 as int)),
{
    let mut i: usize = 0;
    while i < cells.len()
        invariant
            i <= cells@.len(),
            forall|j: int| 0 <= j < i ==> cells@[j].0 != p,
        decreases cells@.len() - i,
    {
        if cells[i].0.0 == p.0 && cells[i].0.1 == p.1 {
            return Some(i);
        }
        i = i + 1;
    }
    assert forall|j: int| 0 <= j < cells@.len() implies !at_point(#[trigger] cells_view(cells@)[j].0, (p.0 as int, p.1 as int)) by {
        assert(cells_view(cells@)[j].0 == cells@[j].0);
    }
    None
}

/// Position in the registry of the MultiFlag with id `id`, if any.
pub fn find_flag(reg: &Vec<MultiFlag>, id: &String) -> (r: Option<usize>)
    ensures
        r matches Some(k) ==> k < reg@.len() && reg@[k as int].id@ == id@,
        r is None ==> forall|k: int| 0 <= k < reg@.len() ==> reg@[k].id@ != id@,
{
    let mut k: usize = 0;
    while k < reg.len()
        invariant
            k <= reg@.len(),
            forall|q: int| 0 <= q < k ==> reg@[q].id@ != id@,
        decreases reg@.len() - k,
    {
        if reg[k].id == *id {
            return Some(k);
        }
        k = k + 1;
    }
    None
}

/// Whether a tile exposing `sig` on side `s` at `loc` agrees with the
/// placement across that side; a side with nothing across it agrees.
pub fn side_matches(state: &FlagGraph, reg: &Vec<MultiFlag>, loc: (i32, i32), s: Sides, sig: &String) -> (r: bool)
    requires
        registry_wf(reg@),
        locs_unique(state@.cells),
        ids_known(state@.cells, reg@),
    ensures
        r == compatible_side(state@.cells, reg@, loc, s, sig@),
{
    let c = Ghost(state@.cells);
    proof {
        crate::graph::lemma_cells_view(state.graph@);
    }
    match step_from(loc, s) {
        None => {
            assert forall|i: int, b: int| #![trigger c@[i], reg@[b]]
                0 <= i < c@.len() && 0 <= b < reg@.len() && at_point(c@[i].0, neighbor(loc, s))
                    && reg@[b].id@ == c@[i].1 implies reg@[b].sig(opposite_of(s)) == sig@ by {
            }
            true
        },
        Some(n) => {
            match find_loc(&state.graph, n) {
                None => true,
                Some(i) => {
                    assert(c@[i as int] == (state.graph@[i as int].0, state.graph@[i as int].1@));
                    match find_flag(reg, &state.graph[i].1) {
                        None => {
                            assert(exists|b: int| 0 <= b < reg@.len() && reg@[b].id@ == c@[i as int].1);
                            false
                        },
                        Some(a) => {
                            let t = s.opposite();
                            let ok = *reg[a].side_string(t) == *sig;
                            assert forall|i2: int, b: int| #![trigger c@[i2], reg@[b]]
                                0 <= i2 < c@.len() && 0 <= b < reg@.len() && at_point(c@[i2].0, neighbor(loc, s))
                                    && reg@[b].id@ == c@[i2].1 implies (reg@[b].sig(opposite_of(s)) == sig@ <==> ok) by {
                                assert(c@[i2].0 == c@[i as int].0);
                            }
                            ok
                        },
                    }
                },
            }
        },
    }
}

/// Whether `reg[k]` at `loc` agrees with all four neighbors.
pub fn fits_at(state: &FlagGraph, reg: &Vec<MultiFlag>, loc: (i32, i32), k: usize) -> (r: bool)
    requires
        registry_wf(reg@),
        locs_unique(state@.cells),
        ids_known(state@.cells, reg@),
        k < reg@.len(),
    ensures
        r == fits(state@.cells, reg@, loc, k as int),
{
    let f = &reg[k];
    let t = side_matches(state, reg, loc, Sides::TOP, f.side_string(Sides::TOP));
    let ri = side_matches(state, reg, loc, Sides::RIGHT, f.side_string(Sides::RIGHT));
    let bo = side_matches(state, reg, loc, Sides::BOTTOM, f.side_string(Sides::BOTTOM));
    let le = side_matches(state, reg, loc, Sides::LEFT, f.side_string(Sides::LEFT));
    let r = t && ri && bo && le;
    if r {
        assert forall|s: Sides| #[trigger] compatible_side(state@.cells, reg@, loc, s, reg@[k as int].sig(s)) by {
            match s {
                Sides::TOP => {},
                Sides::RIGHT => {},
                Sides::BOTTOM => {},
                Sides::LEFT => {},
            }
        }
    }
    r
}

/// Records the free neighbor of placement `j` across side `s`, unless it
/// is already listed or lies off the grid.
fn consider(state: &FlagGraph, out: &mut Vec<BoundaryCell>, j: usize, s: Sides)
    requires
        j < state@.cells.len(),
        frontier_ok(state@.cells, old(out)@),
    ensures
        frontier_ok(state@.cells, final(out)@),
        forall|p: (int, int)| listed(old(out)@, p) ==> listed(final(out)@, p),
        in_grid(neighbor(state@.cells[j as int].0, s)) && !occupied(state@.cells, neighbor(state@.cells[j as int].0, s))
            ==> listed(final(out)@, neighbor(state@.cells[j as int].0, s)),
{
    let c = Ghost(state@.cells);
    proof {
        crate::graph::lemma_cells_view(state.graph@);
    }
    let here = state.graph[j].0;
    assert(c@[j as int].0 == here);
    match step_from(here, s) {
        None => {},
        Some(n) => {
            let found = find_loc(&state.graph, n);
            if let Some(i) = found {
                assert(at_point(c@[i as int].0, neighbor(c@[j as int].0, s)));
            }
            if found.is_none() {
                let mut m: usize = 0;
                let mut seen = false;
                while m < out.len() && !seen
                    invariant
                        m <= out@.len(),
                        seen ==> m < out@.len() && out@[m as int].loc == n,
                        !seen ==> forall|q: int| 0 <= q < m ==> out@[q].loc != n,
                    decreases out@.len() - m + (if seen { 0int } else { 1int }),
                {
                    if out[m].loc.0 == n.0 && out[m].loc.1 == n.1 {
                        seen = true;
                    } else {
                        m = m + 1;
                    }
                }
                if !seen {
                    let ghost before = out@;
                    let t = s.opposite();
                    out.push(BoundaryCell { loc: n, from: t });
                    proof {
                        lemma_opposite_involution(s);
                        let b = out@[before.len() as int];
                        assert(at_point(c@[j as int].0, neighbor(b.loc, b.from)));
                        assert(cell_ok(c@, b));
                        assert forall|m2: int| 0 <= m2 < out@.len() implies cell_ok(c@, #[trigger] out@[m2]) by {
                            if m2 < before.len() {
                                assert(out@[m2] == before[m2]);
                            }
                        }
                        assert forall|p: (int, int)| listed(before, p) implies listed(out@, p) by {
                            let q = choose|q: int| 0 <= q < before.len() && at_point(#[trigger] before[q].loc, p);
                            assert(out@[q] == before[q]);
                        }
                        assert(at_point(out@[before.len() as int].loc, neighbor(c@[j as int].0, s)));
                    }
                } else {
                    assert(at_point(out@[m as int].loc, neighbor(c@[j as int].0, s)));
                }
            }
        },
    }
}

/// Every free cell next to a placement, each once, with the side across
/// which one occupied neighbor lies.
pub fn boundary_cells(state: &FlagGraph) -> (r: Vec<BoundaryCell>)
    ensures
        frontier_ok(state@.cells, r@),
        forall|loc: (i32, i32)| on_frontier(state@.cells, loc) ==> listed(r@, (loc.0 as int, loc.1 as int)),
{
    let c = Ghost(state@.cells);
    let mut out: Vec<BoundaryCell> = Vec::new();
    let mut i: usize = 0;
    while i < state.graph.len()
        invariant
            i <= c@.len(),
            c@ == state@.cells,
            frontier_ok(c@, out@),
            forall|j: int, s: Sides| 0 <= j < i && in_grid(#[trigger] neighbor(c@[j].0, s)) && !occupied(c@, neighbor(c@[j].0, s))
                ==> listed(out@, neighbor(c@[j].0, s)),
        decreases c@.len() - i,
    {
        consider(state, &mut out, i, Sides::TOP);
        consider(state, &mut out, i, Sides::RIGHT);
        consider(state, &mut out, i, Sides::LEFT);
        consider(state, &mut out, i, Sides::BOTTOM);
        assert forall|j: int, s: Sides| 0 <= j < i + 1 && in_grid(#[trigger] neighbor(c@[j].0, s)) && !occupied(c@, neighbor(c@[j].0, s))
            implies listed(out@, neighbor(c@[j].0, s)) by {
            match s {
                Sides::TOP => {},
                Sides::RIGHT => {},
                Sides::BOTTOM => {},
                Sides::LEFT => {},
            }
        }
        i = i + 1;
    }
    assert forall|loc: (i32, i32)| on_frontier(c@, loc) implies listed(out@, (loc.0 as int, loc.1 as int)) by {
        let s = choose|s: Sides| occupied(c@, #[trigger] neighbor(loc, s));
        let j = choose|j: int| 0 <= j < c@.len() && at_point(#[trigger] c@[j].0, neighbor(loc, s));
        lemma_opposite_involution(s);
        let t = opposite_of(s);
        assert(neighbor(c@[j].0, t) == (loc.0 as int, loc.1 as int));
    }
    out
}

/// Appends to `next_states` every legal successor of `state`: for each
/// boundary cell, farthest from the origin first, each MultiFlag that the
/// index offers for the signature across its discovery side, still in
/// supply, and agreeing with all four neighbors. Returns how many were added;
/// none exactly when `state` is a leaf.
pub fn add_next_states(
    state: &FlagGraph,
    next_states: &mut Vec<FlagGraph>,
    edge_data: &EdgeData,
    reg: &Vec<MultiFlag>,
) -> (r: usize)
    requires
        registry_wf(reg@),
        edge_data.wf(reg@),
        state_wf(state@, reg@),
    ensures
        final(next_states)@.len() == old(next_states)@.len() + r,
        forall|i: int| 0 <= i < old(next_states)@.len() ==> #[trigger] final(next_states)@[i] == old(next_states)@[i],
        forall|i: int| old(next_states)@.len() <= i < final(next_states)@.len()
            ==> successor(state@, #[trigger] final(next_states)@[i]@, reg@),
        (r == 0) == is_leaf(state@, reg@),
{
    let c = Ghost(state@.cells);
    proof {
        crate::graph::lemma_cells_view(state.graph@);
    }
    let ghost start = next_states@;
    let reg_len = reg.len();
    let found = boundary_cells(state);
    let mut cells = found.clone();
    assert(cells@ == found@);
    shuffle(&mut cells);
    sort_farthest_first(&mut cells);
    proof {
        crate::graph::lemma_supply_view(state.remaining_flags@);
        found@.to_multiset_ensures();
        cells@.to_multiset_ensures();
        assert forall|m: int| 0 <= m < cells@.len() implies found@.contains(#[trigger] cells@[m]) by {
            assert(cells@.to_multiset().count(cells@[m]) > 0);
        }
    }
    let mut added: usize = 0;
    let mut bi: usize = 0;
    while bi < cells.len()
        invariant
            bi <= cells@.len(),
            c@ == state@.cells,
            registry_wf(reg@),
            reg_len == reg@.len(),
            edge_data.wf(reg@),
            state_wf(state@, reg@),
            frontier_ok(c@, found@),
            forall|m: int| 0 <= m < cells@.len() ==> found@.contains(#[trigger] cells@[m]),
            next_states@.len() == start.len() + added,
            forall|i: int| 0 <= i < start.len() ==> #[trigger] next_states@[i] == start[i],
            forall|i: int| start.len() <= i < next_states@.len() ==> successor(state@, #[trigger] next_states@[i]@, reg@),
            added == 0 ==> forall|m: int, k: int| 0 <= m < bi ==> !#[trigger] legal(state@, reg@, cells@[m].loc, k),
        decreases cells@.len() - bi,
    {
        let b = cells[bi];
        assert(found@.contains(b));
        assert(cell_ok(c@, b));
        let ghost added_before = added;
        if let Some(n) = step_from(b.loc, b.from) {
            if let Some(j) = find_loc(&state.graph, n) {
                if let Some(a) = find_flag(reg, &state.graph[j].1) {
                    let sig = reg[a].side_string(b.from.opposite());
                    let mut cands = edge_data.lookup(reg, b.from, sig);
                    let ghost listed_cands = cands@;
                    shuffle(&mut cands);
                    proof {
                        listed_cands.to_multiset_ensures();
                        cands@.to_multiset_ensures();
                        assert forall|q: int| 0 <= q < cands@.len() implies (#[trigger] cands@[q] as int) < reg@.len() by {
                            assert(cands@.to_multiset().count(cands@[q]) > 0);
                            let p = choose|p: int| 0 <= p < listed_cands.len() && listed_cands[p] == cands@[q];
                        }
                    }
                    let mut ci: usize = 0;
                    while ci < cands.len()
                        invariant
                            ci <= cands@.len(),
                            c@ == state@.cells,
                            registry_wf(reg@),
                            reg_len == reg@.len(),
                            state_wf(state@, reg@),
                            cell_ok(c@, b),
                            added_before <= added,
                            added_before == 0 ==> forall|m: int, k: int| 0 <= m < bi ==> !#[trigger] legal(state@, reg@, cells@[m].loc, k),
                            forall|q: int| 0 <= q < cands@.len() ==> (#[trigger] cands@[q] as int) < reg@.len(),
                            next_states@.len() == start.len() + added,
                            forall|i: int| 0 <= i < start.len() ==> #[trigger] next_states@[i] == start[i],
                            forall|i: int| start.len() <= i < next_states@.len() ==> successor(state@, #[trigger] next_states@[i]@, reg@),
                            added == 0 ==> forall|q: int| 0 <= q < ci ==> !#[trigger] legal(state@, reg@, b.loc, cands@[q] as int),
                        decreases cands@.len() - ci,
                    {
                        let k = cands[ci];
                        let avail = find_supply(&state.remaining_flags, &reg[k].id);
                        proof {
                            if let Some(si) = avail {
                                assert(supply_view(state.remaining_flags@)[si as int].1 >= 1);
                            }
                        }
                        if avail.is_some() && fits_at(state, reg, b.loc, k) {
                            let ghost parent = state@;
                            let next = state.place(reg, b.loc, k);
                            proof {
                                let t = b.from;
                                assert(occupied(c@, neighbor(b.loc, t)));
                                assert(on_frontier(parent.cells, b.loc));
                                assert(legal(parent, reg@, b.loc, k as int));
                            }
                            next_states.push(next);
                            let now = next_states.len();
                            assert(now == start.len() + added + 1);
                            added = added + 1;
                        } else {
                            assert(!legal(state@, reg@, b.loc, k as int));
                        }
                        ci = ci + 1;
                    }
                    proof {
                        if added == 0 {
                            assert forall|k: int| !#[trigger] legal(state@, reg@, b.loc, k) by {
                                if legal(state@, reg@, b.loc, k) {
                                    assert(at_point(c@[j as int].0, neighbor(b.loc, b.from)));
                                    assert(reg@[a as int].id@ == c@[j as int].1);
                                    assert(c@[j as int] == (state.graph@[j as int].0, state.graph@[j as int].1@));
                                    assert(compatible_side(c@, reg@, b.loc, b.from, reg@[k].sig(b.from)));
                                    assert(reg@[k].sig(b.from) == sig@);
                                    assert(listed_cands.contains(k as usize));
                                    assert(cands@.to_multiset().count(k as usize) > 0);
                                    let q = choose|q: int| 0 <= q < cands@.len() && cands@[q] == k as usize;
                                    assert(!legal(state@, reg@, b.loc, cands@[q] as int));
                                }
                            }
                        }
                    }
                } else {
                    assert(c@[j as int] == (state.graph@[j as int].0, state.graph@[j as int].1@));
                    assert(exists|bb: int| 0 <= bb < reg@.len() && reg@[bb].id@ == c@[j as int].1);
                    assert(false);
                }
            } else {
                assert(occupied(c@, neighbor(b.loc, b.from)));
                assert(false);
            }
        } else {
            proof {
                let w = choose|w: int| 0 <= w < c@.len() && at_point(#[trigger] c@[w].0, neighbor(b.loc, b.from));
                assert(at_point(c@[w].0, neighbor(b.loc, b.from)));
                assert(false);
            }
        }
        assert(added == 0 ==> forall|k: int| !#[trigger] legal(state@, reg@, b.loc, k));
        proof {
            if added == 0 {
                assert forall|m: int, k: int| 0 <= m < bi + 1 implies !#[trigger] legal(state@, reg@, cells@[m].loc, k) by {
                    if m < bi {
                    } else {
                        assert(cells@[m] == b);
                    }
                }
            }
        }
        bi = bi + 1;
    }
    proof {
        if added == 0 {
            assert forall|loc: (i32, i32), k: int| on_frontier(state@.cells, loc) implies !#[trigger] legal(state@, reg@, loc, k) by {
                let m = choose|m: int| 0 <= m < found@.len() && at_point(#[trigger] found@[m].loc, (loc.0 as int, loc.1 as int));
                assert(found@.to_multiset().count(found@[m]) > 0);
                assert(cells@.contains(found@[m]));
                let q = choose|q: int| 0 <= q < cells@.len() && cells@[q] == found@[m];
                assert(cells@[q].loc == loc);
                assert(!legal(state@, reg@, cells@[q].loc, k));
            }
        } else {
            let i = start.len() as int;
            assert(successor(state@, next_states@[i]@, reg@));
        }
    }
    added
}

} // verus!
