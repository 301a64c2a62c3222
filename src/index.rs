use vstd::prelude::*;
use crate::sides::Sides;
use crate::flags::MultiFlag;

verus! {

/// For one side: signature id, then the positions in the registry of the
/// MultiFlags that expose that signature on that side.
pub type SideIndex = Vec<(String, Vec<usize>)>;

/// Per-side inverted index from border signature to MultiFlags.
pub struct EdgeData {
    pub top: SideIndex,
    pub right: SideIndex,
    pub bottom: SideIndex,
    pub left: SideIndex,
}

/// `m` indexes side `s` of `reg`: each signature once, each list holding
/// exactly the MultiFlags with that signature on `s`.
pub open spec fn side_index_wf(m: Seq<(String, Vec<usize>)>, reg: Seq<MultiFlag>, s: Sides) -> bool {
    &&& forall|e: int, f: int| 0 <= e < m.len() && 0 <= f < m.len() && e != f ==> m[e].0@ != m[f].0@
    &&& forall|e: int, j: int| 0 <= e < m.len() && 0 <= j < m[e].1@.len()
        ==> (#[trigger] m[e].1@[j] as int) < reg.len() && reg[m[e].1@[j] as int].sig(s) == m[e].0@
    &&& forall|k: int| 0 <= k < reg.len() ==> exists|e: int| 0 <= e < m.len() && m[e].0@ == #[trigger] reg[k].sig(s)
        && m[e].1@.contains(k as usize)
}

impl EdgeData {
    pub open spec fn side_spec(&self, side: Sides) -> Seq<(String, Vec<usize>)> {
        match side {
            Sides::TOP => self.top@,
            Sides::RIGHT => self.right@,
            Sides::BOTTOM => self.bottom@,
            Sides::LEFT => self.left@,
        }
    }

    /// The index is built from `reg` on every side.
    pub open spec fn wf(&self, reg: Seq<MultiFlag>) -> bool {
        forall|s: Sides| side_index_wf(#[trigger] self.side_spec(s), reg, s)
    }

    pub fn side(&self, side: Sides) -> (r: &SideIndex)
        ensures
            r@ == self.side_spec(side),
    {
        match side {
            Sides::TOP => &self.top,
            Sides::RIGHT => &self.right,
            Sides::BOTTOM => &self.bottom,
            Sides::LEFT => &self.left,
        }
    }

    /// Indexes all four sides of `reg`.
    pub fn build(reg: &Vec<MultiFlag>) -> (r: EdgeData)
        ensures
            r.wf(reg@),
    {
        let r = EdgeData {
            top: build_side(reg, Sides::TOP),
            right: build_side(reg, Sides::RIGHT),
            bottom: build_side(reg, Sides::BOTTOM),
            left: build_side(reg, Sides::LEFT),
        };
        assert forall|s: Sides| side_index_wf(#[trigger] r.side_spec(s), reg@, s) by {
            match s {
                Sides::TOP => {},
                Sides::RIGHT => {},
                Sides::BOTTOM => {},
                Sides::LEFT => {},
            }
        }
        r
    }

    /// The MultiFlags whose side `side` carries signature `sig`; empty where
    /// none does.
    pub fn lookup(&self, reg: &Vec<MultiFlag>, side: Sides, sig: &String) -> (r: Vec<usize>)
        requires
            self.wf(reg@),
        ensures
            forall|j: int| 0 <= j < r@.len() ==> (#[trigger] r@[j] as int) < reg@.len() && reg@[r@[j] as int].sig(side) == sig@,
            forall|k: int| 0 <= k < reg@.len() && #[trigger] reg@[k].sig(side) == sig@ ==> r@.contains(k as usize),
    {
        let m = self.side(side);
        assert(side_index_wf(self.side_spec(side), reg@, side));
        let mut e: usize = 0;
        while e < m.len()
            invariant
                e <= m@.len(),
                m@ == self.side_spec(side),
                side_index_wf(m@, reg@, side),
                forall|f: int| 0 <= f < e ==> m@[f].0@ != sig@,
            decreases m@.len() - e,
        {
            if m[e].0 == *sig {
                let r = m[e].1.clone();
                assert forall|k: int| 0 <= k < reg@.len() && #[trigger] reg@[k].sig(side) == sig@ implies r@.contains(k as usize) by {
                    let f = choose|f: int| 0 <= f < m@.len() && m@[f].0@ == reg@[k].sig(side) && m@[f].1@.contains(k as usize);
                    assert(f == e as int);
                }
                return r;
            }
            e = e + 1;
        }
        assert forall|k: int| 0 <= k < reg@.len() implies reg@[k].sig(side) != sig@ by {
            let f = choose|f: int| 0 <= f < m@.len() && m@[f].0@ == #[trigger] reg@[k].sig(side) && m@[f].1@.contains(k as usize);
        }
        Vec::new()
    }
}

/// Indexes side `s` of every MultiFlag of `reg`, in registry order.
pub fn build_side(reg: &Vec<MultiFlag>, s: Sides) -> (r: SideIndex)
    ensures
        side_index_wf(r@, reg@, s),
{
    let mut m: SideIndex = Vec::new();
    let mut k: usize = 0;
    while k < reg.len()
        invariant
            k <= reg@.len(),
            side_index_wf(m@, reg@.take(k as int), s),
            forall|e: int, j: int| 0 <= e < m@.len() && 0 <= j < m@[e].1@.len() ==> (#[trigger] m@[e].1@[j]) < k,
        decreases reg@.len() - k,
    {
        let sig = reg[k].side_string(s);
        let ghost pre = m@;
        let ghost sub = reg@.take(k as int + 1);
        assert(reg@.take(k as int) == sub.take(k as int));
        let mut e: usize = 0;
        let mut found = false;
        while e < m.len() && !found
            invariant
                e <= m@.len(),
                m@ == pre,
                k < reg@.len(),
                sig@ == reg@[k as int].sig(s),
                side_index_wf(pre, reg@.take(k as int), s),
                forall|e1: int, j: int| 0 <= e1 < pre.len() && 0 <= j < pre[e1].1@.len() ==> (#[trigger] pre[e1].1@[j]) < k,
                found ==> e < m@.len() && m@[e as int].0@ == sig@,
                !found ==> forall|f: int| 0 <= f < e ==> m@[f].0@ != sig@,
            decreases m@.len() - e + (if found { 0int } else { 1int }),
        {
            if m[e].0 == *sig {
                found = true;
            } else {
                e = e + 1;
            }
        }
        if found {
            let mut list = m[e].1.clone();
            list.push(k);
            let key = m[e].0.clone();
            m.set(e, (key, list));
            assert(forall|f: int| 0 <= f < m@.len() ==> #[trigger] m@[f].0@ == pre[f].0@);
        } else {
            let mut list: Vec<usize> = Vec::new();
            list.push(k);
            let key = sig.clone();
            m.push((key, list));
            assert(forall|f: int| 0 <= f < pre.len() ==> #[trigger] m@[f].0@ == pre[f].0@ && pre[f].0@ != sig@);
            assert(m@[pre.len() as int].0@ == sig@);
        }
        proof {
            assert forall|e1: int, e2: int| 0 <= e1 < m@.len() && 0 <= e2 < m@.len() && e1 != e2 implies m@[e1].0@ != m@[e2].0@ by {
                if e1 < pre.len() && e2 < pre.len() {
                    assert(m@[e1].0@ == pre[e1].0@ && m@[e2].0@ == pre[e2].0@);
                } else if e1 < pre.len() {
                    assert(m@[e1].0@ == pre[e1].0@);
                } else {
                    assert(m@[e2].0@ == pre[e2].0@);
                }
            }
            assert forall|e2: int, j: int| 0 <= e2 < m@.len() && 0 <= j < m@[e2].1@.len()
                implies (#[trigger] m@[e2].1@[j] as int) < sub.len() && sub[m@[e2].1@[j] as int].sig(s) == m@[e2].0@ by {
                if e2 < pre.len() && !(found && e2 == e) {
                    assert(m@[e2] == pre[e2]);
                } else if j < m@[e2].1@.len() - 1 {
                    assert(m@[e2].1@[j] == pre[e2].1@[j]);
                }
            }
            assert forall|e2: int, j: int| 0 <= e2 < m@.len() && 0 <= j < m@[e2].1@.len() implies (#[trigger] m@[e2].1@[j]) < k + 1 by {
                if e2 < pre.len() && !(found && e2 == e) {
                    assert(m@[e2] == pre[e2]);
                } else if j < m@[e2].1@.len() - 1 {
                    assert(m@[e2].1@[j] == pre[e2].1@[j]);
                }
            }
            assert forall|q: int| 0 <= q < sub.len() implies exists|f: int| 0 <= f < m@.len() && m@[f].0@ == #[trigger] sub[q].sig(s)
                && m@[f].1@.contains(q as usize) by {
                if q == k {
                    let f = if found { e as int } else { pre.len() as int };
                    assert(m@[f].1@.last() == k);
                    assert(m@[f].1@.contains(q as usize));
                } else {
                    assert(sub[q] == reg@.take(k as int)[q]);
                    let f = choose|f: int| 0 <= f < pre.len() && pre[f].0@ == #[trigger] reg@.take(k as int)[q].sig(s) && pre[f].1@.contains(q as usize);
                    let t = choose|t: int| 0 <= t < pre[f].1@.len() && pre[f].1@[t] == q as usize;
                    assert(m@[f].1@[t] == q as usize);
                }
            }
        }
        k = k + 1;
    }
    assert(reg@.take(reg@.len() as int) == reg@);
    m
}

} // verus!
