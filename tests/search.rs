use flag_tiling::engine::{SearchEngine, StepOutcome};
use flag_tiling::flags::{edge_to_id, edges_into_id, flag_info_of, FlagEdges, FlagInfo, MultiFlag};
use flag_tiling::graph::{find_supply, take_one, FlagGraph};
use flag_tiling::index::EdgeData;
use flag_tiling::persist::FlagGraphSerialize;
use flag_tiling::registry::build_registry;
use flag_tiling::search::{add_next_states, boundary_cells};
use flag_tiling::sides::{dist_sq, step_from, Sides};

fn mf(id: &str, top: &str, right: &str, bottom: &str, left: &str) -> MultiFlag {
    MultiFlag {
        id: id.to_string(),
        top: top.to_string(),
        right: right.to_string(),
        bottom: bottom.to_string(),
        left: left.to_string(),
    }
}

fn info(id: &str, top: &str, right: &str, bottom: &str, left: &str) -> FlagInfo {
    FlagInfo {
        id: id.to_string(),
        top: top.to_string(),
        right: right.to_string(),
        bottom: bottom.to_string(),
        left: left.to_string(),
    }
}

fn supply(entries: &[(&str, u32)]) -> Vec<(String, u32)> {
    entries.iter().map(|(k, v)| (k.to_string(), *v)).collect()
}

fn id_at(g: &FlagGraph, loc: (i32, i32)) -> Option<String> {
    g.graph.iter().find(|c| c.0 == loc).map(|c| c.1.clone())
}

fn supply_total(g: &FlagGraph) -> u64 {
    g.remaining_flags.iter().map(|e| e.1 as u64).sum()
}

fn pair_engine(threshold: u64) -> SearchEngine {
    let a = mf("A", "X", "Y", "Z", "W");
    let b = mf("B", "Z", "Y", "X", "W");
    SearchEngine::new(vec![a, b], supply(&[("A", 1), ("B", 1)]), &"A".to_string(), threshold).unwrap()
}

#[test]
fn sides_opposite_and_offset() {
    assert!(matches!(Sides::TOP.opposite(), Sides::BOTTOM));
    assert!(matches!(Sides::RIGHT.opposite(), Sides::LEFT));
    assert!(matches!(Sides::BOTTOM.opposite(), Sides::TOP));
    assert!(matches!(Sides::LEFT.opposite(), Sides::RIGHT));
    assert_eq!(Sides::TOP.offset(), (0, 1));
    assert_eq!(Sides::RIGHT.offset(), (1, 0));
    assert_eq!(Sides::BOTTOM.offset(), (0, -1));
    assert_eq!(Sides::LEFT.offset(), (-1, 0));
}

#[test]
fn step_from_stays_on_grid() {
    assert_eq!(step_from((3, 4), Sides::TOP), Some((3, 5)));
    assert_eq!(step_from((3, 4), Sides::LEFT), Some((2, 4)));
    assert_eq!(step_from((i32::MAX, 0), Sides::RIGHT), None);
    assert_eq!(step_from((0, i32::MIN), Sides::BOTTOM), None);
}

#[test]
fn dist_sq_values() {
    assert_eq!(dist_sq((0, 0)), 0);
    assert_eq!(dist_sq((3, -4)), 25);
    assert_eq!(dist_sq((i32::MIN, i32::MIN)), 1u64 << 63);
}

#[test]
fn edge_to_id_concatenates_runs() {
    let edge = vec![("Red".to_string(), 12u32), ("White".to_string(), 7u32), ("Blue".to_string(), 105u32)];
    assert_eq!(edge_to_id(&edge), "Red12White7Blue105");
    assert_eq!(edge_to_id(&Vec::new()), "");
}

#[test]
fn edges_into_id_joins_with_commas() {
    let f = info("fr", "Blue8", "Red24", "White8", "Blue24");
    assert_eq!(edges_into_id(&f), "Blue8,Red24,White8,Blue24");
}

#[test]
fn flag_info_reduces_each_border() {
    let e = FlagEdges {
        id: "jp".to_string(),
        top: vec![("White".to_string(), 24)],
        right: vec![("White".to_string(), 24)],
        bottom: vec![("White".to_string(), 24)],
        left: vec![("White".to_string(), 10), ("Red".to_string(), 4), ("White".to_string(), 10)],
    };
    let f = flag_info_of(&e);
    assert_eq!(f.id, "jp");
    assert_eq!(f.top, "White24");
    assert_eq!(f.left, "White10Red4White10");
}

#[test]
fn multiflag_side_picks_border() {
    let m = mf("m", "t", "r", "b", "l");
    assert_eq!(m.side(Sides::TOP), "t");
    assert_eq!(m.side(Sides::RIGHT), "r");
    assert_eq!(m.side(Sides::BOTTOM), "b");
    assert_eq!(m.side(Sides::LEFT), "l");
}

#[test]
fn registry_groups_identical_quadruples() {
    let flags = vec![
        info("a", "1", "2", "3", "4"),
        info("b", "5", "6", "7", "8"),
        info("c", "1", "2", "3", "4"),
    ];
    let r = build_registry(&flags);
    assert_eq!(r.multi_flags.len(), 2);
    assert_eq!(r.multi_flags[0].id, "1,2,3,4");
    assert_eq!(r.multi_flags[0].top, "1");
    assert_eq!(r.multi_flags[1].id, "5,6,7,8");
    assert_eq!(r.counts, supply(&[("1,2,3,4", 2), ("5,6,7,8", 1)]));
    assert_eq!(r.flags_to_multi_flags[2], ("c".to_string(), "1,2,3,4".to_string()));
}

#[test]
fn registry_of_no_flags_is_empty() {
    let r = build_registry(&Vec::new());
    assert!(r.multi_flags.is_empty());
    assert!(r.counts.is_empty());
}

#[test]
fn edge_index_lookup() {
    let reg = vec![mf("A", "X", "Y", "Z", "W"), mf("B", "Z", "Y", "X", "W"), mf("C", "Z", "Q", "Q", "Q")];
    let idx = EdgeData::build(&reg);
    let mut tops = idx.lookup(&reg, Sides::TOP, &"Z".to_string());
    tops.sort();
    assert_eq!(tops, vec![1, 2]);
    assert_eq!(idx.lookup(&reg, Sides::RIGHT, &"Y".to_string()), vec![0, 1]);
    assert!(idx.lookup(&reg, Sides::LEFT, &"nothing".to_string()).is_empty());
    assert_eq!(idx.side(Sides::BOTTOM).len(), 3);
}

#[test]
fn supply_takes_and_removes() {
    let mut rem = supply(&[("A", 2), ("B", 1)]);
    let i = find_supply(&rem, &"A".to_string()).unwrap();
    take_one(&mut rem, i);
    assert_eq!(rem, supply(&[("A", 1), ("B", 1)]));
    let j = find_supply(&rem, &"B".to_string()).unwrap();
    take_one(&mut rem, j);
    assert_eq!(rem, supply(&[("A", 1)]));
    assert_eq!(find_supply(&rem, &"B".to_string()), None);
}

#[test]
fn trivial_match_places_b_above_a() {
    let e = pair_engine(100);
    let reg = e.multi_flags;
    let idx = EdgeData::build(&reg);
    let seed = &e.seed;
    let mut next = Vec::new();
    let n = add_next_states(seed, &mut next, &idx, &reg);
    assert_eq!(e.next_states.len(), 2);
    assert!(e.best.is_none());
    assert_eq!(n, next.len());
    let at_up: Vec<&FlagGraph> = next.iter().filter(|g| id_at(g, (0, 1)).is_some()).collect();
    assert_eq!(at_up.len(), 1);
    assert_eq!(id_at(at_up[0], (0, 1)), Some("B".to_string()));
    assert_eq!(id_at(at_up[0], (0, 0)), Some("A".to_string()));
    assert_eq!(at_up[0].idx, 2);
    assert!(at_up[0].remaining_flags.is_empty());
    for g in &next {
        assert!(id_at(g, (1, 0)).is_none());
        assert!(id_at(g, (-1, 0)).is_none());
    }
}

#[test]
fn boundary_cells_of_single_tile() {
    let g = FlagGraph { graph: vec![((0, 0), "A".to_string())], remaining_flags: Vec::new(), idx: 1 };
    let mut cells: Vec<(i32, i32)> = boundary_cells(&g).iter().map(|b| b.loc).collect();
    cells.sort();
    assert_eq!(cells, vec![(-1, 0), (0, -1), (0, 1), (1, 0)]);
}

#[test]
fn supply_exhaustion_gives_leaf_of_one() {
    let only = mf("S", "a", "b", "c", "d");
    let mut e = SearchEngine::new(vec![only], supply(&[("S", 1)]), &"S".to_string(), 10).unwrap();
    assert!(e.next_states.is_empty());
    assert_eq!(e.best.as_ref().unwrap().idx, 1);
    assert!(e.best.as_ref().unwrap().remaining_flags.is_empty());
    assert_eq!(e.step(), StepOutcome::Exhausted);
    assert_eq!(e.best.as_ref().unwrap().idx, 1);
}

#[test]
fn unknown_seed_is_refused() {
    let only = mf("S", "a", "b", "c", "d");
    assert!(SearchEngine::new(vec![only], supply(&[("S", 1)]), &"T".to_string(), 10).is_none());
    let other = mf("S", "a", "b", "c", "d");
    assert!(SearchEngine::new(vec![other], Vec::new(), &"S".to_string(), 10).is_none());
}

#[test]
fn restart_preserves_best() {
    let mut e = pair_engine(1);
    let mut guard = 0;
    while e.best.is_none() && guard < 100 {
        e.step();
        guard += 1;
    }
    let before = e.best.as_ref().unwrap().idx;
    assert_eq!(before, 2);
    e.restart();
    assert_eq!(e.next_states.len(), 2);
    assert_eq!(e.next_states[0].idx, 2);
    assert_eq!(e.best.as_ref().unwrap().idx, before);
    for _ in 0..20 {
        e.step();
        assert!(e.best.as_ref().unwrap().idx >= before);
    }
}

#[test]
fn run_keeps_invariants() {
    let reg = vec![
        mf("A", "X", "Y", "Z", "W"),
        mf("B", "Z", "Y", "X", "W"),
        mf("C", "X", "W", "Z", "Y"),
    ];
    let mut e = SearchEngine::new(reg.clone(), supply(&[("A", 2), ("B", 2), ("C", 1)]), &"A".to_string(), 50).unwrap();
    let mut last_best = 0;
    for _ in 0..300 {
        if e.step() == StepOutcome::Exhausted {
            break;
        }
        for g in &e.next_states {
            assert_eq!(g.idx as u64 + supply_total(g), 5);
            assert_eq!(g.idx as usize, g.graph.len());
            for (i, a) in g.graph.iter().enumerate() {
                for (j, b) in g.graph.iter().enumerate() {
                    if i != j {
                        assert_ne!(a.0, b.0);
                    }
                    let fa = reg.iter().find(|m| m.id == a.1).unwrap();
                    let fb = reg.iter().find(|m| m.id == b.1).unwrap();
                    if (b.0 .0, b.0 .1) == (a.0 .0, a.0 .1 + 1) {
                        assert_eq!(fa.top, fb.bottom);
                    }
                    if (b.0 .0, b.0 .1) == (a.0 .0 + 1, a.0 .1) {
                        assert_eq!(fa.right, fb.left);
                    }
                }
            }
        }
        let now = e.best.as_ref().map(|b| b.idx).unwrap_or(0);
        assert!(now >= last_best);
        last_best = now;
    }
    assert!(last_best >= 2);
}

#[test]
fn serialization_round_trip() {
    let g = FlagGraph {
        graph: vec![((0, 0), "A".to_string()), ((0, 1), "B".to_string()), ((-3, 7), "A".to_string())],
        remaining_flags: supply(&[("C", 4)]),
        idx: 3,
    };
    let s = FlagGraphSerialize::new(&g);
    assert_eq!(s.graph, g.graph);
    let h = s.to_flag_graph();
    assert_eq!(h.graph, g.graph);
    assert_eq!(h.remaining_flags, g.remaining_flags);
    assert_eq!(h.idx, 3);
}

#[test]
fn reading_back_keeps_last_id_per_coordinate() {
    let s = FlagGraphSerialize {
        graph: vec![((0, 0), "A".to_string()), ((1, 0), "B".to_string()), ((0, 0), "C".to_string())],
        remaining_flags: Vec::new(),
        idx: 2,
    };
    let h = s.to_flag_graph();
    assert_eq!(h.graph.len(), 2);
    assert_eq!(id_at(&h, (0, 0)), Some("C".to_string()));
    assert_eq!(id_at(&h, (1, 0)), Some("B".to_string()));
}

#[test]
fn successors_come_farthest_cell_first() {
    let reg = vec![mf("U", "S", "S", "S", "S")];
    let idx = EdgeData::build(&reg);
    let g = FlagGraph {
        graph: vec![((0, 0), "U".to_string()), ((1, 0), "U".to_string())],
        remaining_flags: supply(&[("U", 5)]),
        idx: 2,
    };
    let mut next = Vec::new();
    let n = add_next_states(&g, &mut next, &idx, &reg);
    assert_eq!(n, 6);
    assert_eq!(id_at(&next[0], (2, 0)), Some("U".to_string()));
    let last = &next[5];
    let new_cell = last.graph.last().unwrap().0;
    assert_eq!(dist_sq(new_cell), 1);
    for s in &next {
        assert_eq!(s.idx, 3);
        assert_eq!(s.remaining_flags, supply(&[("U", 4)]));
    }
}
