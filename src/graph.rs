use vstd::prelude::*;
use crate::sides::{Sides, neighbor, at_point, opposite_of};
use crate::flags::MultiFlag;

verus! {

/// A placement as the contracts see it: coordinate and MultiFlag id.
pub type CellView = ((i32, i32), Seq<char>);

/// A supply entry as the contracts see it: MultiFlag id and remaining count.
pub type SupplyView = (Seq<char>, u32);

/// A committed tiling: placements, the remaining supply per MultiFlag id,
/// and the number of placed tiles.
pub struct FlagGraph {
    pub graph: Vec<((i32, i32), String)>,
    pub remaining_flags: Vec<(String, u32)>,
    pub idx: u32,
}

/// What a `FlagGraph` holds, with strings seen as character sequences.
pub struct GraphView {
    pub cells: Seq<CellView>,
    pub supply: Seq<SupplyView>,
    pub idx: u32,
}

pub open spec fn cells_view(g: Seq<((i32, i32), String)>) -> Seq<CellView> {
    g.map_values(|c: ((i32, i32), String)| (c.0, c.1@))
}

pub proof fn lemma_cells_view(g: Seq<((i32, i32), String)>)
    ensures
        cells_view(g).len() == g.len(),
        forall|i: int| 0 <= i < g.len() ==> #[trigger] cells_view(g)[i] == (g[i].0, g[i].1@),
{
}

pub open spec fn supply_view(s: Seq<(String, u32)>) -> Seq<SupplyView> {
    s.map_values(|e: (String, u32)| (e.0@, e.1))
}

pub proof fn lemma_supply_view(s: Seq<(String, u32)>)
    ensures
        supply_view(s).len() == s.len(),
        forall|i: int| 0 <= i < s.len() ==> #[trigger] supply_view(s)[i] == (s[i].0@, s[i].1),
{
}

impl View for FlagGraph {
    type V = GraphView;

    open spec fn view(&self) -> GraphView {
        GraphView {
            cells: cells_view(self.graph@),
            supply: supply_view(self.remaining_flags@),
            idx: self.idx,
        }
    }
}

/// Remaining supply of MultiFlag `id`, zero where it has no entry.
pub open spec fn supply_of(s: Seq<SupplyView>, id: Seq<char>) -> nat
    decreases s.len(),
{
    if s.len() == 0 {
        0
    } else {
        supply_of(s.drop_last(), id) + if s.last().0 == id {
            s.last().1 as nat
        } else {
            0
        }
    }
}

/// Sum of all remaining supply.
pub open spec fn supply_sum(s: Seq<SupplyView>) -> nat
    decreases s.len(),
{
    if s.len() == 0 {
        0
    } else {
        supply_sum(s.drop_last()) + s.last().1 as nat
    }
}

/// Each MultiFlag id has at most one supply entry, and no entry is zero.
pub open spec fn supply_wf(s: Seq<SupplyView>) -> bool {
    &&& forall|i: int, j: int| 0 <= i < s.len() && 0 <= j < s.len() && i != j ==> s[i].0 != s[j].0
    &&& forall|i: int| 0 <= i < s.len() ==> s[i].1 >= 1
}

/// Some placement sits on point `p`.
pub open spec fn occupied(c: Seq<CellView>, p: (int, int)) -> bool {
    exists|i: int| 0 <= i < c.len() && at_point(#[trigger] c[i].0, p)
}

/// No two placements share a coordinate.
pub open spec fn locs_unique(c: Seq<CellView>) -> bool {
    forall|i: int, j: int| 0 <= i < c.len() && 0 <= j < c.len() && i != j ==> c[i].0 != c[j].0
}

/// No two MultiFlags of a registry share an id.
pub open spec fn registry_wf(reg: Seq<MultiFlag>) -> bool {
    forall|a: int, b: int| 0 <= a < reg.len() && 0 <= b < reg.len() && a != b ==> reg[a].id@ != reg[b].id@
}

/// Every placed id names a MultiFlag of the registry.
pub open spec fn ids_known(c: Seq<CellView>, reg: Seq<MultiFlag>) -> bool {
    forall|i: int| #![trigger c[i]] 0 <= i < c.len() ==> exists|k: int| 0 <= k < reg.len() && reg[k].id@ == c[i].1
}

/// Two placements that touch expose the same signature toward each other.
pub open spec fn edges_match(c: Seq<CellView>, reg: Seq<MultiFlag>) -> bool {
    forall|i: int, j: int, a: int, b: int, s: Sides|
        #![trigger c[i], c[j], reg[a], reg[b], neighbor(c[i].0, s)]
        0 <= i < c.len() && 0 <= j < c.len() && 0 <= a < reg.len() && 0 <= b < reg.len()
            && reg[a].id@ == c[i].1 && reg[b].id@ == c[j].1
            && at_point(c[j].0, neighbor(c[i].0, s))
            ==> reg[a].sig(s) == reg[b].sig(opposite_of(s))
}

/// The placement at `loc` agrees on side `s` with whatever lies across it,
/// when that placement would expose `sig` there.
pub open spec fn compatible_side(
    c: Seq<CellView>,
    reg: Seq<MultiFlag>,
    loc: (i32, i32),
    s: Sides,
    sig: Seq<char>,
) -> bool {
    forall|i: int, b: int|
        #![trigger c[i], reg[b]]
        0 <= i < c.len() && 0 <= b < reg.len() && at_point(c[i].0, neighbor(loc, s))
            && reg[b].id@ == c[i].1 ==> reg[b].sig(opposite_of(s)) == sig
}

/// MultiFlag `reg[k]` agrees with every occupied neighbor of `loc`.
pub open spec fn fits(c: Seq<CellView>, reg: Seq<MultiFlag>, loc: (i32, i32), k: int) -> bool {
    forall|s: Sides| #[trigger] compatible_side(c, reg, loc, s, reg[k].sig(s))
}

/// Placing `reg[k]` at `loc` is a legal next move from `g`.
pub open spec fn legal(g: GraphView, reg: Seq<MultiFlag>, loc: (i32, i32), k: int) -> bool {
    &&& 0 <= k < reg.len()
    &&& !occupied(g.cells, (loc.0 as int, loc.1 as int))
    &&& supply_of(g.supply, reg[k].id@) > 0
    &&& fits(g.cells, reg, loc, k)
}

/// `loc` is free and touches at least one placement.
pub open spec fn on_frontier(c: Seq<CellView>, loc: (i32, i32)) -> bool {
    &&& !occupied(c, (loc.0 as int, loc.1 as int))
    &&& exists|s: Sides| occupied(c, #[trigger] neighbor(loc, s))
}

/// No legal move exists anywhere on the frontier of `g`.
pub open spec fn is_leaf(g: GraphView, reg: Seq<MultiFlag>) -> bool {
    forall|loc: (i32, i32), k: int| on_frontier(g.cells, loc) ==> !#[trigger] legal(g, reg, loc, k)
}

/// `child` is `parent` with MultiFlag `id` placed at `loc`: one more
/// placement, one less of that MultiFlag in supply, the counter one higher.
pub open spec fn is_placement(parent: GraphView, child: GraphView, loc: (i32, i32), id: Seq<char>) -> bool {
    &&& child.cells == parent.cells.push((loc, id))
    &&& forall|x: Seq<char>| #[trigger] supply_of(child.supply, x) == supply_of(parent.supply, x) - (if x == id { 1int } else { 0int })
    &&& child.idx == parent.idx + 1
}

/// Placed count plus remaining supply: what the run started with.
pub open spec fn graph_total(g: GraphView) -> nat {
    (g.idx + supply_sum(g.supply)) as nat
}

/// Every invariant of a reachable state, for a run whose initial supply
/// totals `total`.
pub open spec fn graph_wf(g: GraphView, reg: Seq<MultiFlag>, total: nat) -> bool {
    &&& locs_unique(g.cells)
    &&& g.idx == g.cells.len()
    &&& supply_wf(g.supply)
    &&& g.idx + supply_sum(g.supply) == total
    &&& total <= u32::MAX
    &&& ids_known(g.cells, reg)
    &&& edges_match(g.cells, reg)
}

pub proof fn lemma_supply_absent(s: Seq<SupplyView>, x: Seq<char>)
    requires
        forall|i: int| 0 <= i < s.len() ==> s[i].0 != x,
    ensures
        supply_of(s, x) == 0,
    decreases s.len(),
{
    if s.len() > 0 {
        lemma_supply_absent(s.drop_last(), x);
    }
}

pub proof fn lemma_supply_at(s: Seq<SupplyView>, i: int)
    requires
        supply_wf(s),
        0 <= i < s.len(),
    ensures
        supply_of(s, s[i].0) == s[i].1,
    decreases s.len(),
{
    if i == s.len() - 1 {
        lemma_supply_absent(s.drop_last(), s[i].0);
    } else {
        lemma_supply_at(s.drop_last(), i);
    }
}

pub proof fn lemma_supply_update(s: Seq<SupplyView>, i: int, v: u32)
    requires
        0 <= i < s.len(),
    ensures
        forall|x: Seq<char>| #[trigger] supply_of(s.update(i, (s[i].0, v)), x) == supply_of(s, x) - (if x == s[i].0 { s[i].1 as int } else { 0 }) + (if x == s[i].0 { v as int } else { 0 }),
        supply_sum(s.update(i, (s[i].0, v))) == supply_sum(s) - s[i].1 + v,
    decreases s.len(),
{
    let t = s.update(i, (s[i].0, v));
    if i == s.len() - 1 {
        assert(t.drop_last() == s.drop_last());
    } else {
        lemma_supply_update(s.drop_last(), i, v);
        assert(t.drop_last() == s.drop_last().update(i, (s[i].0, v)));
    }
    assert forall|x: Seq<char>| #[trigger] supply_of(t, x) == supply_of(s, x) - (if x == s[i].0 { s[i].1 as int } else { 0 }) + (if x == s[i].0 { v as int } else { 0 }) by {
        if i != s.len() - 1 {
            assert(supply_of(t.drop_last(), x) == supply_of(s.drop_last(), x) - (if x == s[i].0 { s[i].1 as int } else { 0 }) + (if x == s[i].0 { v as int } else { 0 }));
        }
    }
}

pub proof fn lemma_supply_remove(s: Seq<SupplyView>, i: int)
    requires
        0 <= i < s.len(),
    ensures
        forall|x: Seq<char>| #[trigger] supply_of(s.remove(i), x) == supply_of(s, x) - (if x == s[i].0 { s[i].1 as int } else { 0 }),
        supply_sum(s.remove(i)) == supply_sum(s) - s[i].1,
    decreases s.len(),
{
    let t = s.remove(i);
    if i == s.len() - 1 {
        assert(t == s.drop_last());
    } else {
        lemma_supply_remove(s.drop_last(), i);
        assert(t.drop_last() == s.drop_last().remove(i));
        assert(t.last() == s.last());
    }
    assert forall|x: Seq<char>| #[trigger] supply_of(t, x) == supply_of(s, x) - (if x == s[i].0 { s[i].1 as int } else { 0 }) by {
        if i != s.len() - 1 {
            assert(supply_of(t.drop_last(), x) == supply_of(s.drop_last(), x) - (if x == s[i].0 { s[i].1 as int } else { 0 }));
        }
    }
}

/// Position of the supply entry for `id`, if any.
pub fn find_supply(rem: &Vec<(String, u32)>, id: &String) -> (r: Option<usize>)
    requires
        supply_wf(supply_view(rem@)),
    ensures
        r matches Some(i) ==> i < rem@.len() && rem@[i as int].0@ == id@ && supply_of(supply_view(rem@), id@) == rem@[i as int].1,
        r is None ==> supply_of(supply_view(rem@), id@) == 0,
{
    let ghost sv = supply_view(rem@);
    let mut i: usize = 0;
    while i < rem.len()
        invariant
            i <= rem@.len(),
            sv == supply_view(rem@),
            supply_wf(sv),
            forall|j: int| 0 <= j < i ==> sv[j].0 != id@,
        decreases rem@.len() - i,
    {
        if rem[i].0 == *id {
            proof {
                lemma_supply_at(sv, i as int);
            }
            return Some(i);
        }
        i = i + 1;
    }
    proof {
        lemma_supply_absent(sv, id@);
    }
    None
}

/// Takes one unit of the MultiFlag whose entry sits at `i`; an entry that
/// reaches zero is removed.
pub fn take_one(rem: &mut Vec<(String, u32)>, i: usize)
    requires
        supply_wf(supply_view(old(rem)@)),
        i < old(rem)@.len(),
    ensures
        supply_wf(supply_view(final(rem)@)),
        forall|x: Seq<char>| #[trigger] supply_of(supply_view(final(rem)@), x) == supply_of(supply_view(old(rem)@), x) - (if x == old(rem)@[i as int].0@ { 1int } else { 0int }),
        supply_sum(supply_view(final(rem)@)) + 1 == supply_sum(supply_view(old(rem)@)),
{
    let ghost s0 = supply_view(rem@);
    let v = rem[i].1;
    if v == 1 {
        let _ = rem.remove(i);
        proof {
            lemma_supply_remove(s0, i as int);
            assert(supply_view(rem@) == s0.remove(i as int));
        }
    } else {
        let key = rem[i].0.clone();
        rem.set(i, (key, v - 1));
        proof {
            lemma_supply_update(s0, i as int, (v - 1) as u32);
            assert(supply_view(rem@) == s0.update(i as int, (s0[i as int].0, (v - 1) as u32)));
        }
    }
}

/// Every invariant of a reachable state, with the total taken from the state.
pub open spec fn state_wf(g: GraphView, reg: Seq<MultiFlag>) -> bool {
    graph_wf(g, reg, graph_total(g))
}

pub proof fn lemma_supply_le_sum(s: Seq<SupplyView>, x: Seq<char>)
    ensures
        supply_of(s, x) <= supply_sum(s),
    decreases s.len(),
{
    if s.len() > 0 {
        lemma_supply_le_sum(s.drop_last(), x);
    }
}

/// Adding a fitting MultiFlag on a free cell keeps all touching edges matched.
pub proof fn lemma_place_keeps_edges(c: Seq<CellView>, reg: Seq<MultiFlag>, loc: (i32, i32), k: int)
    requires
        registry_wf(reg),
        0 <= k < reg.len(),
        edges_match(c, reg),
        fits(c, reg, loc, k),
        !occupied(c, (loc.0 as int, loc.1 as int)),
    ensures
        edges_match(c.push((loc, reg[k].id@)), reg),
{
    let d = c.push((loc, reg[k].id@));
    let n = c.len() as int;
    assert forall|i: int, j: int, a: int, b: int, s: Sides|
        #![trigger d[i], d[j], reg[a], reg[b], neighbor(d[i].0, s)]
        0 <= i < d.len() && 0 <= j < d.len() && 0 <= a < reg.len() && 0 <= b < reg.len()
            && reg[a].id@ == d[i].1 && reg[b].id@ == d[j].1
            && at_point(d[j].0, neighbor(d[i].0, s))
        implies reg[a].sig(s) == reg[b].sig(opposite_of(s)) by {
        crate::sides::lemma_opposite_involution(s);
        if i < n && j < n {
            assert(c[i] == d[i] && c[j] == d[j]);
        } else if i == n && j < n {
            assert(a == k);
            assert(c[j] == d[j]);
            assert(compatible_side(c, reg, loc, s, reg[k].sig(s)));
        } else if i < n && j == n {
            assert(b == k);
            assert(c[i] == d[i]);
            let t = opposite_of(s);
            assert(at_point(c[i].0, neighbor(loc, t)));
            assert(compatible_side(c, reg, loc, t, reg[k].sig(t)));
            assert(reg[a].sig(opposite_of(t)) == reg[k].sig(t));
        } else {
            assert(false);
        }
    }
}

impl FlagGraph {
    /// An independent copy with the same contents.
    pub fn clone_graph(&self) -> (r: FlagGraph)
        ensures
            r@ == self@,
    {
        let mut graph: Vec<((i32, i32), String)> = Vec::new();
        let mut i: usize = 0;
        while i < self.graph.len()
            invariant
                i <= self.graph@.len(),
                graph@.len() == i,
                cells_view(graph@) == cells_view(self.graph@).take(i as int),
            decreases self.graph@.len() - i,
        {
            let cell = (self.graph[i].0, self.graph[i].1.clone());
            graph.push(cell);
            assert(cells_view(graph@) =~= cells_view(self.graph@).take(i as int + 1));
            i = i + 1;
        }
        let mut remaining_flags: Vec<(String, u32)> = Vec::new();
        let mut j: usize = 0;
        while j < self.remaining_flags.len()
            invariant
                j <= self.remaining_flags@.len(),
                remaining_flags@.len() == j,
                supply_view(remaining_flags@) == supply_view(self.remaining_flags@).take(j as int),
            decreases self.remaining_flags@.len() - j,
        {
            let e = (self.remaining_flags[j].0.clone(), self.remaining_flags[j].1);
            remaining_flags.push(e);
            assert(supply_view(remaining_flags@) =~= supply_view(self.remaining_flags@).take(j as int + 1));
            j = j + 1;
        }
        assert(cells_view(graph@) == cells_view(self.graph@));
        assert(supply_view(remaining_flags@) == supply_view(self.remaining_flags@));
        FlagGraph { graph, remaining_flags, idx: self.idx }
    }

    /// The successor of this state with `reg[k]` placed at `loc`.
    pub fn place(&self, reg: &Vec<MultiFlag>, loc: (i32, i32), k: usize) -> (r: FlagGraph)
        requires
            registry_wf(reg@),
            state_wf(self@, reg@),
            legal(self@, reg@, loc, k as int),
        ensures
            is_placement(self@, r@, loc, reg@[k as int].id@),
            state_wf(r@, reg@),
            graph_total(r@) == graph_total(self@),
    {
        let mut next = self.clone_graph();
        let id = reg[k].id.clone();
        proof {
            lemma_supply_le_sum(self@.supply, id@);
        }
        match find_supply(&next.remaining_flags, &id) {
            Some(i) => {
                take_one(&mut next.remaining_flags, i);
            },
            None => {},
        }
        next.idx = next.idx + 1;
        next.graph.push((loc, id));
        proof {
            let c = self@.cells;
            assert(next@.cells == c.push((loc, reg@[k as int].id@)));
            lemma_place_keeps_edges(c, reg@, loc, k as int);
            assert forall|i: int, j: int| 0 <= i < next@.cells.len() && 0 <= j < next@.cells.len() && i != j
                implies next@.cells[i].0 != next@.cells[j].0 by {
                if i == c.len() && next@.cells[i].0 == next@.cells[j].0 {
                    assert(next@.cells[j] == c[j]);
                    assert(at_point(c[j].0, (loc.0 as int, loc.1 as int)));
                } else if j == c.len() && next@.cells[i].0 == next@.cells[j].0 {
                    assert(next@.cells[i] == c[i]);
                    assert(at_point(c[i].0, (loc.0 as int, loc.1 as int)));
                } else if i < c.len() && j < c.len() {
                    assert(next@.cells[i] == c[i] && next@.cells[j] == c[j]);
                }
            }
            assert forall|i: int| #![trigger next@.cells[i]] 0 <= i < next@.cells.len() implies exists|b: int| 0 <= b < reg@.len() && reg@[b].id@ == next@.cells[i].1 by {
                if i == c.len() {
                    assert(reg@[k as int].id@ == next@.cells[i].1);
                } else {
                    assert(next@.cells[i] == c[i]);
                }
            }
        }
        next
    }
}

} // verus!
