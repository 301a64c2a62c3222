use vstd::prelude::*;
use crate::flags::{FlagInfo, MultiFlag, edges_into_id, joined_id};
use crate::graph::{registry_wf, supply_view, supply_wf, lemma_supply_view};
use crate::search::find_flag;

verus! {

/// The MultiFlags of a set of flags, with initial supply and membership.
pub struct Registry {
    /// One MultiFlag per distinct quadruple of signatures, in order of first appearance.
    pub multi_flags: Vec<MultiFlag>,
    /// Initial supply, aligned with `multi_flags`: MultiFlag id and number of flags.
    pub counts: Vec<(String, u32)>,
    /// For each input flag, in input order: its id and its MultiFlag's id.
    pub flags_to_multi_flags: Vec<(String, String)>,
}

/// Number of flags of `flags` whose canonical id is `id`.
pub open spec fn count_with(flags: Seq<FlagInfo>, id: Seq<char>) -> nat
    decreases flags.len(),
{
    if flags.len() == 0 {
        0
    } else {
        count_with(flags.drop_last(), id) + if flags.last().canonical_id() == id { 1nat } else { 0nat }
    }
}

/// The MultiFlag's id is the canonical id of its own four signatures.
pub open spec fn self_named(m: MultiFlag) -> bool {
    m.id@ == joined_id(m.top@, m.right@, m.bottom@, m.left@)
}

/// Some MultiFlag of `mf` has id `id`.
pub open spec fn has_group(mf: Seq<MultiFlag>, id: Seq<char>) -> bool {
    exists|k: int| 0 <= k < mf.len() && mf[k].id@ == id
}

/// Some flag of `flags` has canonical id `id`.
pub open spec fn has_member(flags: Seq<FlagInfo>, id: Seq<char>) -> bool {
    exists|j: int| 0 <= j < flags.len() && flags[j].canonical_id() == id
}

/// `mf` holds one MultiFlag for each canonical id of `flags`, and no other.
pub open spec fn distinct_groups(mf: Seq<MultiFlag>, flags: Seq<FlagInfo>) -> bool {
    &&& registry_wf(mf)
    &&& forall|k: int| 0 <= k < mf.len() ==> self_named(#[trigger] mf[k])
    &&& forall|k: int| 0 <= k < mf.len() ==> #[trigger] has_member(flags, mf[k].id@)
    &&& forall|j: int| 0 <= j < flags.len() ==> #[trigger] has_group(mf, flags[j].canonical_id())
}

/// `r` groups `flags` by canonical id, with each group's size as supply.
pub open spec fn groups(r: &Registry, flags: Seq<FlagInfo>) -> bool {
    let mf = r.multi_flags@;
    &&& distinct_groups(mf, flags)
    &&& r.counts@.len() == mf.len()
    &&& forall|k: int| 0 <= k < mf.len() ==> (#[trigger] r.counts@[k]).0@ == mf[k].id@
        && r.counts@[k].1 == count_with(flags, mf[k].id@) && r.counts@[k].1 >= 1
    &&& r.flags_to_multi_flags@.len() == flags.len()
    &&& forall|j: int| 0 <= j < flags.len() ==> (#[trigger] r.flags_to_multi_flags@[j]).0@ == flags[j].id@
        && r.flags_to_multi_flags@[j].1@ == flags[j].canonical_id()
}

pub proof fn lemma_count_bounds(flags: Seq<FlagInfo>, id: Seq<char>, j: int)
    requires
        0 <= j < flags.len(),
        flags[j].canonical_id() == id,
    ensures
        1 <= count_with(flags, id) <= flags.len(),
    decreases flags.len(),
{
    lemma_count_le(flags.drop_last(), id);
    if j < flags.len() - 1 {
        lemma_count_bounds(flags.drop_last(), id, j);
    }
}

pub proof fn lemma_count_le(flags: Seq<FlagInfo>, id: Seq<char>)
    ensures
        count_with(flags, id) <= flags.len(),
    decreases flags.len(),
{
    if flags.len() > 0 {
        lemma_count_le(flags.drop_last(), id);
    }
}

/// One MultiFlag per distinct canonical id of `flags`, in order of first
/// appearance, with the signatures of that first flag.
#[verifier::rlimit(60)]
fn distinct_multi_flags(flags: &Vec<FlagInfo>) -> (mf: Vec<MultiFlag>)
    ensures
        distinct_groups(mf@, flags@),
{
    let mut mf: Vec<MultiFlag> = Vec::new();
    let mut i: usize = 0;
    while i < flags.len()
        invariant
            i <= flags@.len(),
            distinct_groups(mf@, flags@.take(i as int)),
        decreases flags@.len() - i,
    {
        let ghost pre = flags@.take(i as int);
        let ghost post = flags@.take(i as int + 1);
        let ghost before = mf@;
        let f = &flags[i];
        let id = edges_into_id(f);
        proof {
            assert forall|j: int| 0 <= j < i implies post[j] == pre[j] by {}
            assert(post[i as int] == *f);
        }
        let found = find_flag(&mf, &id);
        if found.is_none() {
            let m = MultiFlag {
                id,
                top: f.top.clone(),
                right: f.right.clone(),
                bottom: f.bottom.clone(),
                left: f.left.clone(),
            };
            mf.push(m);
            proof {
                let n = before.len() as int;
                assert(self_named(mf@[n]));
                assert forall|a: int, b: int| 0 <= a < mf@.len() && 0 <= b < mf@.len() && a != b implies mf@[a].id@ != mf@[b].id@ by {
                    if a < n && b < n {
                        assert(mf@[a] == before[a] && mf@[b] == before[b]);
                    } else if a < n {
                        assert(mf@[a] == before[a]);
                    } else {
                        assert(mf@[b] == before[b]);
                    }
                }
                assert forall|k: int| 0 <= k < mf@.len() implies #[trigger] has_member(post, mf@[k].id@) by {
                    if k < n {
                        assert(mf@[k] == before[k]);
                        assert(has_member(pre, before[k].id@));
                        let j = choose|j: int| 0 <= j < pre.len() && pre[j].canonical_id() == before[k].id@;
                        assert(post[j] == pre[j]);
                    } else {
                        assert(mf@[k].id@ == post[i as int].canonical_id());
                    }
                }
                assert forall|j: int| 0 <= j < post.len() implies #[trigger] has_group(mf@, post[j].canonical_id()) by {
                    if j < i {
                        assert(post[j] == pre[j]);
                        assert(has_group(before, pre[j].canonical_id()));
                        let k = choose|k: int| 0 <= k < before.len() && before[k].id@ == pre[j].canonical_id();
                        assert(mf@[k] == before[k]);
                    } else {
                        assert(mf@[n].id@ == post[j].canonical_id());
                    }
                }
                assert forall|k: int| 0 <= k < mf@.len() implies self_named(#[trigger] mf@[k]) by {
                    if k < n {
                        assert(mf@[k] == before[k]);
                    }
                }
            }
        } else {
            proof {
                assert forall|k: int| 0 <= k < mf@.len() implies #[trigger] has_member(post, mf@[k].id@) by {
                    assert(has_member(pre, mf@[k].id@));
                    let j = choose|j: int| 0 <= j < pre.len() && pre[j].canonical_id() == mf@[k].id@;
                    assert(post[j] == pre[j]);
                }
                assert forall|j: int| 0 <= j < post.len() implies #[trigger] has_group(mf@, post[j].canonical_id()) by {
                    if j < i {
                        assert(post[j] == pre[j]);
                    } else {
                        if let Some(k) = found {
                            assert(mf@[k as int].id@ == post[j].canonical_id());
                        }
                    }
                }
            }
        }
        i = i + 1;
    }
    assert(flags@.take(flags@.len() as int) == flags@);
    mf
}

/// How many flags of `flags` have canonical id `id`.
fn count_flags(flags: &Vec<FlagInfo>, ids: &Vec<String>, id: &String) -> (n: u32)
    requires
        flags@.len() <= u32::MAX,
        ids@.len() == flags@.len(),
        forall|j: int| 0 <= j < flags@.len() ==> (#[trigger] ids@[j])@ == flags@[j].canonical_id(),
    ensures
        n == count_with(flags@, id@),
{
    let mut n: u32 = 0;
    let mut j: usize = 0;
    while j < ids.len()
        invariant
            j <= flags@.len(),
            flags@.len() <= u32::MAX,
            ids@.len() == flags@.len(),
            forall|q: int| 0 <= q < flags@.len() ==> (#[trigger] ids@[q])@ == flags@[q].canonical_id(),
            n == count_with(flags@.take(j as int), id@),
        decreases flags@.len() - j,
    {
        proof {
            assert(flags@.take(j as int + 1).drop_last() == flags@.take(j as int));
            lemma_count_le(flags@.take(j as int), id@);
        }
        if ids[j] == *id {
            n = n + 1;
        }
        j = j + 1;
    }
    assert(flags@.take(flags@.len() as int) == flags@);
    n
}

/// Partitions `flags` by their quadruple of signatures into MultiFlags whose
/// supply is the size of their part.
pub fn build_registry(flags: &Vec<FlagInfo>) -> (r: Registry)
    requires
        flags@.len() <= u32::MAX,
    ensures
        groups(&r, flags@),
        supply_wf(supply_view(r.counts@)),
{
    let mut ids: Vec<String> = Vec::new();
    let mut flags_to_multi_flags: Vec<(String, String)> = Vec::new();
    let mut i: usize = 0;
    while i < flags.len()
        invariant
            i <= flags@.len(),
            ids@.len() == i,
            flags_to_multi_flags@.len() == i,
            forall|j: int| 0 <= j < i ==> (#[trigger] ids@[j])@ == flags@[j].canonical_id(),
            forall|j: int| 0 <= j < i ==> (#[trigger] flags_to_multi_flags@[j]).0@ == flags@[j].id@
                && flags_to_multi_flags@[j].1@ == flags@[j].canonical_id(),
        decreases flags@.len() - i,
    {
        let id = edges_into_id(&flags[i]);
        let id2 = id.clone();
        ids.push(id);
        flags_to_multi_flags.push((flags[i].id.clone(), id2));
        i = i + 1;
    }
    let multi_flags = distinct_multi_flags(flags);
    let mut counts: Vec<(String, u32)> = Vec::new();
    let mut k: usize = 0;
    while k < multi_flags.len()
        invariant
            k <= multi_flags@.len(),
            flags@.len() <= u32::MAX,
            distinct_groups(multi_flags@, flags@),
            ids@.len() == flags@.len(),
            forall|j: int| 0 <= j < flags@.len() ==> (#[trigger] ids@[j])@ == flags@[j].canonical_id(),
            counts@.len() == k,
            forall|q: int| 0 <= q < k ==> (#[trigger] counts@[q]).0@ == multi_flags@[q].id@
                && counts@[q].1 == count_with(flags@, multi_flags@[q].id@) && counts@[q].1 >= 1,
        decreases multi_flags@.len() - k,
    {
        let n = count_flags(flags, &ids, &multi_flags[k].id);
        proof {
            assert(has_member(flags@, multi_flags@[k as int].id@));
            let j = choose|j: int| 0 <= j < flags@.len() && flags@[j].canonical_id() == multi_flags@[k as int].id@;
            lemma_count_bounds(flags@, multi_flags@[k as int].id@, j);
        }
        counts.push((multi_flags[k].id.clone(), n));
        k = k + 1;
    }
    let r = Registry { multi_flags, counts, flags_to_multi_flags };
    proof {
        lemma_supply_view(r.counts@);
        assert forall|a: int, b: int| 0 <= a < r.counts@.len() && 0 <= b < r.counts@.len() && a != b
            implies supply_view(r.counts@)[a].0 != supply_view(r.counts@)[b].0 by {
            assert(r.counts@[a].0@ == r.multi_flags@[a].id@);
            assert(r.counts@[b].0@ == r.multi_flags@[b].id@);
        }
    }
    r
}

} // verus!
