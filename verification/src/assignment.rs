//! The assignment data model: which worker serves which partition.

use vstd::prelude::*;

verus! {

/// A full epoch assignment: the workers serving the orchestrator partition,
/// and, for each admitted container partition, its identifier together with
/// the workers serving it.  A worker absent from every list is unassigned
/// for the epoch.
#[derive(Debug)]
pub struct Assignment {
    /// Workers serving the orchestrator partition, in assignment order.
    pub orchestrator_chain: Vec<u64>,
    /// Admitted container partitions in ascending id order, each with its
    /// workers in assignment order.
    pub container_chains: Vec<(u32, Vec<u64>)>,
}

/// The mathematical model of an [`Assignment`].
#[verifier::ext_equal]
pub ghost struct AssignmentView {
    pub orchestrator_chain: Seq<u64>,
    pub container_chains: Seq<(u32, Seq<u64>)>,
}

/// The model of a list of container partitions.
pub open spec fn chains_view(cs: Seq<(u32, Vec<u64>)>) -> Seq<(u32, Seq<u64>)> {
    cs.map_values(|p: (u32, Vec<u64>)| (p.0, p.1@))
}

impl View for Assignment {
    type V = AssignmentView;

    open spec fn view(&self) -> AssignmentView {
        AssignmentView {
            orchestrator_chain: self.orchestrator_chain@,
            container_chains: chains_view(self.container_chains@),
        }
    }
}

/// No value occurs twice in the sequence.
pub open spec fn distinct_seq<T>(s: Seq<T>) -> bool {
    forall|i: int, j: int| 0 <= i < j < s.len() ==> s[i] != s[j]
}

/// The sequence is strictly increasing.
pub open spec fn sorted_strict(s: Seq<u32>) -> bool {
    forall|i: int, j: int| 0 <= i < j < s.len() ==> s[i] < s[j]
}

/// The container partition ids of an assignment, in list order.
pub open spec fn chain_ids(cs: Seq<(u32, Seq<u64>)>) -> Seq<u32> {
    cs.map_values(|p: (u32, Seq<u64>)| p.0)
}

/// Some container partition of `a` has id `id`.
pub open spec fn has_chain(a: AssignmentView, id: u32) -> bool {
    exists|j: int| 0 <= j < a.container_chains.len() && a.container_chains[j].0 == id
}

/// The position of the container partition with id `id` (meaningful only
/// when `has_chain(a, id)`).
pub open spec fn chain_index_of(a: AssignmentView, id: u32) -> int {
    choose|j: int| 0 <= j < a.container_chains.len() && a.container_chains[j].0 == id
}

/// The workers of the container partition with id `id` (meaningful only
/// when `has_chain(a, id)` and the ids are distinct).
pub open spec fn chain_members(a: AssignmentView, id: u32) -> Seq<u64> {
    a.container_chains[chain_index_of(a, id)].1
}

/// Worker `w` serves some container partition of `a`.
pub open spec fn in_some_chain(a: AssignmentView, w: u64) -> bool {
    exists|j: int| 0 <= j < a.container_chains.len() && a.container_chains[j].1.contains(w)
}

/// Worker `w` serves some partition of `a`.
pub open spec fn in_assignment(a: AssignmentView, w: u64) -> bool {
    a.orchestrator_chain.contains(w) || in_some_chain(a, w)
}

/// Well-formedness: container ids strictly ascending, no worker listed
/// twice anywhere.
pub open spec fn wf(a: AssignmentView) -> bool {
    &&& distinct_seq(a.orchestrator_chain)
    &&& sorted_strict(chain_ids(a.container_chains))
    &&& forall|j: int|
        0 <= j < a.container_chains.len() ==> distinct_seq(#[trigger] a.container_chains[j].1)
    &&& forall|j: int, w: u64|
        0 <= j < a.container_chains.len() && #[trigger] a.container_chains[j].1.contains(w)
            ==> !a.orchestrator_chain.contains(w)
    &&& forall|j1: int, j2: int, w: u64|
        0 <= j1 < a.container_chains.len() && 0 <= j2 < a.container_chains.len() && j1 != j2
            && #[trigger] a.container_chains[j1].1.contains(w) ==> !(
        #[trigger] a.container_chains[j2].1.contains(w))
}

impl Assignment {
    /// The empty assignment that precedes the first epoch.
    pub fn new() -> (r: Assignment)
        ensures
            r@.orchestrator_chain =~= Seq::<u64>::empty(),
            r@.container_chains =~= Seq::<(u32, Seq<u64>)>::empty(),
            wf(r@),
    {
        let r = Assignment { orchestrator_chain: Vec::new(), container_chains: Vec::new() };
        proof {
            assert(r@.container_chains =~= Seq::<(u32, Seq<u64>)>::empty());
        }
        r
    }
}

/// With distinct ids, any position holding `id` holds exactly the members
/// that `chain_members` denotes.
pub proof fn lemma_chain_members_at(a: AssignmentView, id: u32, j: int)
    requires
        distinct_seq(chain_ids(a.container_chains)),
        0 <= j < a.container_chains.len(),
        a.container_chains[j].0 == id,
    ensures
        has_chain(a, id),
        chain_members(a, id) == a.container_chains[j].1,
{
    assert(has_chain(a, id));
    let j2 = chain_index_of(a, id);
    assert(0 <= j2 < a.container_chains.len() && a.container_chains[j2].0 == id);
    assert(chain_members(a, id) == a.container_chains[j2].1);
    let ids = chain_ids(a.container_chains);
    assert(ids[j] == a.container_chains[j].0);
    assert(ids[j2] == a.container_chains[j2].0);
    if j != j2 {
        assert(ids[j] != ids[j2]);
        assert(false);
    }
}

/// The flattened view of an assignment: one `(worker, partition id)` pair
/// per assigned worker, container partitions first, then the orchestrator
/// partition under the caller's label.
pub open spec fn chain_pairs(cs: Seq<(u32, Seq<u64>)>) -> Seq<(u64, u32)>
    decreases cs.len(),
{
    if cs.len() == 0 {
        Seq::empty()
    } else {
        chain_pairs(cs.drop_last()) + cs.last().1.map_values(|w: u64| (w, cs.last().0))
    }
}

/// All pairs of `assigned_collators`: container pairs, then orchestrator
/// pairs labelled `label`.
pub open spec fn assigned_pairs(a: AssignmentView, label: u32) -> Seq<(u64, u32)> {
    chain_pairs(a.container_chains) + a.orchestrator_chain.map_values(|w: u64| (w, label))
}

/// Flattens an assignment into `(worker, partition id)` pairs, labelling the
/// orchestrator partition with `label`.
pub fn assigned_collators(a: &Assignment, label: u32) -> (r: Vec<(u64, u32)>)
    ensures
        r@ == assigned_pairs(a@, label),
{
    let ghost cs = a@.container_chains;
    let mut r: Vec<(u64, u32)> = Vec::new();
    let mut j: usize = 0;
    while j < a.container_chains.len()
        invariant
            0 <= j <= a.container_chains.len(),
            cs == a@.container_chains,
            r@ == chain_pairs(cs.take(j as int)),
        decreases a.container_chains.len() - j,
    {
        let ghost r_before = r@;
        let members_len = a.container_chains[j].1.len();
        let mut m: usize = 0;
        while m < members_len
            invariant
                0 <= m <= members_len,
                members_len == a.container_chains[j as int].1.len(),
                j < a.container_chains.len(),
                cs == a@.container_chains,
                r@ == r_before + cs[j as int].1.take(m as int).map_values(
                    |w: u64| (w, cs[j as int].0),
                ),
            decreases members_len - m,
        {
            let w = a.container_chains[j].1[m];
            let id = a.container_chains[j].0;
            r.push((w, id));
            proof {
                let mem = cs[j as int].1;
                assert(mem.take(m + 1).drop_last() =~= mem.take(m as int));
                assert(mem.take(m + 1).last() == mem[m as int]);
                assert(mem.take(m + 1).map_values(|w: u64| (w, cs[j as int].0)) =~= mem.take(
                    m as int,
                ).map_values(|w: u64| (w, cs[j as int].0)).push((mem[m as int], cs[j as int].0)));
            }
            m += 1;
        }
        proof {
            let t1 = cs.take(j + 1);
            assert(t1.drop_last() =~= cs.take(j as int));
            assert(t1.last() == cs[j as int]);
            assert(cs[j as int].1.take(members_len as int) =~= cs[j as int].1);
            assert(r@ =~= chain_pairs(cs.take(j + 1)));
        }
        j += 1;
    }
    proof {
        assert(cs.take(cs.len() as int) =~= cs);
    }
    let ghost orch_before = r@;
    let mut i: usize = 0;
    while i < a.orchestrator_chain.len()
        invariant
            0 <= i <= a.orchestrator_chain.len(),
            orch_before == chain_pairs(a@.container_chains),
            r@ == orch_before + a@.orchestrator_chain.take(i as int).map_values(
                |w: u64| (w, label),
            ),
        decreases a.orchestrator_chain.len() - i,
    {
        let w = a.orchestrator_chain[i];
        r.push((w, label));
        proof {
            let orch = a@.orchestrator_chain;
            assert(orch.take(i + 1).drop_last() =~= orch.take(i as int));
            assert(orch.take(i + 1).map_values(|w: u64| (w, label)) =~= orch.take(
                i as int,
            ).map_values(|w: u64| (w, label)).push((orch[i as int], label)));
        }
        i += 1;
    }
    proof {
        assert(a@.orchestrator_chain.take(a@.orchestrator_chain.len() as int)
            =~= a@.orchestrator_chain);
    }
    r
}

/// Whether the epoch ran in degraded mode: the orchestrator partition was
/// left below its configured minimum by genuine worker scarcity.
pub fn is_degraded(a: &Assignment, min_orchestrator: u32) -> (b: bool)
    ensures
        b == (a@.orchestrator_chain.len() < min_orchestrator as int),
{
    a.orchestrator_chain.len() < min_orchestrator as usize
}

} // verus!
