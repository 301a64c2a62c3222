use vstd::prelude::*;
use crate::graph::{FlagGraph, GraphView, CellView, cells_view, supply_view, locs_unique, lemma_cells_view};
use crate::search::find_loc;

verus! {

/// The stored form of a `FlagGraph`: placements as a list.
pub struct FlagGraphSerialize {
    pub graph: Vec<((i32, i32), String)>,
    pub remaining_flags: Vec<(String, u32)>,
    pub idx: u32,
}

impl View for FlagGraphSerialize {
    type V = GraphView;

    open spec fn view(&self) -> GraphView {
        GraphView {
            cells: cells_view(self.graph@),
            supply: supply_view(self.remaining_flags@),
            idx: self.idx,
        }
    }
}

/// Cell `x` of `out` is the last cell of `inp` at its coordinate.
pub open spec fn last_at(inp: Seq<CellView>, x: CellView) -> bool {
    exists|j: int| 0 <= j < inp.len() && inp[j] == x && forall|j2: int| j < j2 < inp.len() ==> inp[j2].0 != x.0
}

/// `h` is what reading back `s` gives: each coordinate once, holding the
/// last id stored for it; the supply and counter as stored; and, where `s`
/// has no repeated coordinate, the placements in stored order.
pub open spec fn restores(s: GraphView, h: GraphView) -> bool {
    &&& locs_unique(h.cells)
    &&& forall|i: int| 0 <= i < h.cells.len() ==> last_at(s.cells, #[trigger] h.cells[i])
    &&& forall|j: int| 0 <= j < s.cells.len() ==> exists|i: int| 0 <= i < h.cells.len() && h.cells[i].0 == (#[trigger] s.cells[j]).0
    &&& locs_unique(s.cells) ==> h.cells == s.cells
    &&& h.supply == s.supply
    &&& h.idx == s.idx
}

fn clone_cells(v: &Vec<((i32, i32), String)>) -> (r: Vec<((i32, i32), String)>)
    ensures
        cells_view(r@) == cells_view(v@),
{
    let mut out: Vec<((i32, i32), String)> = Vec::new();
    let mut i: usize = 0;
    while i < v.len()
        invariant
            i <= v@.len(),
            out@.len() == i,
            cells_view(out@) == cells_view(v@).take(i as int),
        decreases v@.len() - i,
    {
        out.push((v[i].0, v[i].1.clone()));
        assert(cells_view(out@) =~= cells_view(v@).take(i as int + 1));
        i = i + 1;
    }
    assert(cells_view(v@).take(v@.len() as int) =~= cells_view(v@));
    out
}

fn clone_supply(v: &Vec<(String, u32)>) -> (r: Vec<(String, u32)>)
    ensures
        supply_view(r@) == supply_view(v@),
{
    let mut out: Vec<(String, u32)> = Vec::new();
    let mut i: usize = 0;
    while i < v.len()
        invariant
            i <= v@.len(),
            out@.len() == i,
            supply_view(out@) == supply_view(v@).take(i as int),
        decreases v@.len() - i,
    {
        out.push((v[i].0.clone(), v[i].1));
        assert(supply_view(out@) =~= supply_view(v@).take(i as int + 1));
        i = i + 1;
    }
    assert(supply_view(v@).take(v@.len() as int) =~= supply_view(v@));
    out
}

impl FlagGraphSerialize {
    pub fn new(flag_graph: &FlagGraph) -> (r: FlagGraphSerialize)
        ensures
            r@ == flag_graph@,
    {
        FlagGraphSerialize {
            graph: clone_cells(&flag_graph.graph),
            remaining_flags: clone_supply(&flag_graph.remaining_flags),
            idx: flag_graph.idx,
        }
    }

    pub fn to_flag_graph(&self) -> (r: FlagGraph)
        ensures
            restores(self@, r@),
    {
        let inp = Ghost(self@.cells);
        proof {
            lemma_cells_view(self.graph@);
        }
        let mut out: Vec<((i32, i32), String)> = Vec::new();
        let mut n: usize = 0;
        while n < self.graph.len()
            invariant
                n <= inp@.len(),
                inp@ == cells_view(self.graph@),
                inp@.len() == self.graph@.len(),
                locs_unique(cells_view(out@)),
                forall|i: int| 0 <= i < out@.len() ==> last_at(inp@.take(n as int), #[trigger] cells_view(out@)[i]),
                forall|j: int| 0 <= j < n ==> exists|i: int| 0 <= i < out@.len() && cells_view(out@)[i].0 == (#[trigger] inp@[j]).0,
                locs_unique(inp@.take(n as int)) ==> cells_view(out@) == inp@.take(n as int),
            decreases inp@.len() - n,
        {
            proof {
                lemma_cells_view(out@);
            }
            let ghost before = cells_view(out@);
            let ghost pre = inp@.take(n as int);
            let ghost post = inp@.take(n as int + 1);
            let x = (self.graph[n].0, self.graph[n].1.clone());
            assert(inp@[n as int] == (x.0, x.1@));
            let ghost mut pos: int = 0;
            match find_loc(&out, x.0) {
                Some(i) => {
                    out.set(i, x);
                    proof {
                        pos = i as int;
                        lemma_cells_view(out@);
                        assert(cells_view(out@) == before.update(i as int, (x.0, x.1@)));
                        assert(!locs_unique(post)) by {
                            let w = choose|w: int| 0 <= w < pre.len() && pre[w] == before[i as int] && forall|j2: int| w < j2 < pre.len() ==> pre[j2].0 != before[i as int].0;
                            assert(post[w].0 == post[n as int].0);
                        }
                    }
                },
                None => {
                    out.push(x);
                    proof {
                        pos = before.len() as int;
                        lemma_cells_view(out@);
                        assert(cells_view(out@) == before.push((x.0, x.1@)));
                        if locs_unique(post) {
                            assert(pre == post.drop_last());
                            assert(locs_unique(pre));
                            assert(cells_view(out@) =~= post);
                        }
                    }
                },
            }
            proof {
                let c = cells_view(out@);
                assert(c[pos] == (x.0, x.1@));
                assert forall|a: int, b: int| 0 <= a < c.len() && 0 <= b < c.len() && a != b implies c[a].0 != c[b].0 by {
                    if a != pos && b != pos {
                        assert(c[a] == before[a] && c[b] == before[b]);
                    } else if a == pos {
                        assert(c[b] == before[b]);
                        if pos < before.len() {
                            assert(before[pos].0 == x.0);
                        } else {
                            assert(!crate::sides::at_point(before[b].0, (x.0.0 as int, x.0.1 as int)));
                        }
                    } else {
                        assert(c[a] == before[a]);
                        if pos < before.len() {
                            assert(before[pos].0 == x.0);
                        } else {
                            assert(!crate::sides::at_point(before[a].0, (x.0.0 as int, x.0.1 as int)));
                        }
                    }
                }
                assert forall|i: int| 0 <= i < c.len() implies last_at(post, #[trigger] c[i]) by {
                    if i == pos {
                        assert(post[n as int] == c[i]);
                    } else {
                        assert(c[i] == before[i]);
                        assert(last_at(pre, before[i]));
                        let w = choose|w: int| 0 <= w < pre.len() && pre[w] == before[i] && forall|j2: int| w < j2 < pre.len() ==> pre[j2].0 != before[i].0;
                        assert(post[w] == c[i]);
                        assert(c[pos].0 != c[i].0);
                        assert(post[n as int].0 != c[i].0);
                    }
                }
                assert forall|j: int| 0 <= j < n + 1 implies exists|i: int| 0 <= i < c.len() && c[i].0 == (#[trigger] inp@[j]).0 by {
                    if j < n {
                        let i = choose|i: int| 0 <= i < before.len() && before[i].0 == inp@[j].0;
                        assert(c[i].0 == inp@[j].0);
                    } else {
                        assert(c[pos].0 == inp@[j].0);
                    }
                }
            }
            n = n + 1;
        }
        assert(inp@.take(inp@.len() as int) =~= inp@);
        FlagGraph { graph: out, remaining_flags: clone_supply(&self.remaining_flags), idx: self.idx }
    }
}

/// Writing a graph with distinct coordinates to its stored form and reading
/// it back gives the same placements, supply and placed count.
pub proof fn lemma_round_trip(g: GraphView, s: GraphView, h: GraphView)
    requires
        locs_unique(g.cells),
        s == g,
        restores(s, h),
    ensures
        h == g,
{
}

} // verus!
