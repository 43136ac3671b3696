//! The laws of the scheduler: capacity, exclusivity, admission order,
//! stability, and idempotence, proved of [`crate::scheduler::spec_assign`].

use crate::assignment::{
    chain_ids, chain_members, distinct_seq, has_chain, in_assignment, sorted_strict, wf,
    AssignmentView,
};
use crate::scheduler::{
    admitted_count, clip, displaced_pool, fill_bwd, fill_fwd, in_chain_list, is_admitted, kept,
    new_pool, orch_core, placed_core, ret_count, retained_members, skeleton, skeleton_prefix,
    spec_assign, take_n,
};
use vstd::prelude::*;

verus! {

broadcast use vstd::seq_lib::group_seq_properties;

/// `kept` holds exactly the members of `s` that occur in `elig`.
pub proof fn lemma_kept_contains(s: Seq<u64>, elig: Seq<u64>, w: u64)
    ensures
        kept(s, elig).contains(w) <==> (s.contains(w) && elig.contains(w)),
    decreases s.len(),
{
    if s.len() > 0 {
        lemma_kept_contains(s.drop_last(), elig, w);
        assert(s.contains(w) <==> (s.drop_last().contains(w) || s.last() == w));
        if kept(s, elig).contains(w) {
            if elig.contains(s.last()) {
                assert(kept(s.drop_last(), elig).push(s.last()).contains(w));
                if w != s.last() {
                    assert(kept(s.drop_last(), elig).contains(w));
                }
            }
        }
        if s.contains(w) && elig.contains(w) {
            if s.last() == w {
                assert(kept(s, elig).last() == w);
            } else {
                assert(s.drop_last().contains(w));
                if elig.contains(s.last()) {
                    assert(kept(s, elig).contains(w)) by {
                        assert(kept(s.drop_last(), elig).contains(w));
                        let p = choose|p: int|
                            0 <= p < kept(s.drop_last(), elig).len() && kept(
                                s.drop_last(),
                                elig,
                            )[p] == w;
                        assert(kept(s, elig)[p] == w);
                    }
                }
            }
        }
    }
}

/// `kept` never grows and keeps distinctness.
pub proof fn lemma_kept_distinct(s: Seq<u64>, elig: Seq<u64>)
    requires
        distinct_seq(s),
    ensures
        kept(s, elig).len() <= s.len(),
        distinct_seq(kept(s, elig)),
    decreases s.len(),
{
    if s.len() > 0 {
        assert(distinct_seq(s.drop_last()));
        lemma_kept_distinct(s.drop_last(), elig);
        if elig.contains(s.last()) {
            assert(!s.drop_last().contains(s.last())) by {
                if s.drop_last().contains(s.last()) {
                    let p = choose|p: int|
                        0 <= p < s.len() - 1 && s.drop_last()[p] == s.last();
                    assert(s[p] == s[s.len() - 1]);
                }
            }
            lemma_kept_contains(s.drop_last(), elig, s.last());
            let r = kept(s.drop_last(), elig);
            assert(forall|p: int| 0 <= p < r.len() ==> r[p] != s.last()) by {
                if exists|p: int| 0 <= p < r.len() && r[p] == s.last() {
                    let p = choose|p: int| 0 <= p < r.len() && r[p] == s.last();
                    assert(r.contains(s.last()));
                }
            }
            assert(distinct_seq(r.push(s.last())));
        }
    }
}

/// A prefix of a distinct sequence is distinct, and a sub-part of it.
pub proof fn lemma_clip_facts(s: Seq<u64>, n: int)
    requires
        0 <= n,
    ensures
        clip(s, n).len() == (if s.len() <= n { s.len() as int } else { n }),
        forall|w: u64| #[trigger] clip(s, n).contains(w) ==> s.contains(w),
        distinct_seq(s) ==> distinct_seq(clip(s, n)),
{
    if s.len() > n {
        assert(forall|w: u64| #[trigger] clip(s, n).contains(w) ==> s.contains(w)) by {
            assert forall|w: u64| #[trigger] clip(s, n).contains(w) implies s.contains(w) by {
                let p = choose|p: int| 0 <= p < clip(s, n).len() && clip(s, n)[p] == w;
                assert(s[p] == w);
            }
        }
    }
}

/// `new_pool` holds exactly the eligible workers absent from the previous
/// assignment.
pub proof fn lemma_new_pool_contains(elig: Seq<u64>, prev: AssignmentView, w: u64)
    ensures
        new_pool(elig, prev).contains(w) <==> (elig.contains(w) && !in_assignment(prev, w)),
    decreases elig.len(),
{
    if elig.len() > 0 {
        lemma_new_pool_contains(elig.drop_last(), prev, w);
        assert(elig.contains(w) <==> (elig.drop_last().contains(w) || elig.last() == w));
        let rest = new_pool(elig.drop_last(), prev);
        if !in_assignment(prev, elig.last()) {
            assert(new_pool(elig, prev) == rest.push(elig.last()));
            assert(new_pool(elig, prev).contains(w) <==> (rest.contains(w) || elig.last() == w))
                by {
                if rest.contains(w) {
                    let p = choose|p: int| 0 <= p < rest.len() && rest[p] == w;
                    assert(rest.push(elig.last())[p] == w);
                }
                if rest.push(elig.last()).contains(w) {
                    let p = choose|p: int|
                        0 <= p < rest.len() + 1 && rest.push(elig.last())[p] == w;
                    if p < rest.len() {
                        assert(rest[p] == w);
                    }
                }
            }
        }
    }
}

/// `displaced_pool` holds exactly the eligible previous workers that lost
/// their slot.
pub proof fn lemma_displaced_contains(
    elig: Seq<u64>,
    prev: AssignmentView,
    oc: Seq<u64>,
    sk: Seq<(u32, Seq<u64>)>,
    w: u64,
)
    ensures
        displaced_pool(elig, prev, oc, sk).contains(w) <==> (elig.contains(w) && in_assignment(
            prev,
            w,
        ) && !placed_core(oc, sk, w)),
    decreases elig.len(),
{
    if elig.len() > 0 {
        lemma_displaced_contains(elig.drop_last(), prev, oc, sk, w);
        assert(elig.contains(w) <==> (elig.drop_last().contains(w) || elig.last() == w));
        let rest = displaced_pool(elig.drop_last(), prev, oc, sk);
        if in_assignment(prev, elig.last()) && !placed_core(oc, sk, elig.last()) {
            assert(displaced_pool(elig, prev, oc, sk) == rest.push(elig.last()));
            assert(displaced_pool(elig, prev, oc, sk).contains(w) <==> (rest.contains(w)
                || elig.last() == w)) by {
                if rest.contains(w) {
                    let p = choose|p: int| 0 <= p < rest.len() && rest[p] == w;
                    assert(rest.push(elig.last())[p] == w);
                }
                if rest.push(elig.last()).contains(w) {
                    let p = choose|p: int|
                        0 <= p < rest.len() + 1 && rest.push(elig.last())[p] == w;
                    if p < rest.len() {
                        assert(rest[p] == w);
                    }
                }
            }
        }
    }
}

/// Both pools are distinct when the eligibility list is.
pub proof fn lemma_pools_distinct(
    elig: Seq<u64>,
    prev: AssignmentView,
    oc: Seq<u64>,
    sk: Seq<(u32, Seq<u64>)>,
)
    requires
        distinct_seq(elig),
    ensures
        distinct_seq(new_pool(elig, prev)),
        distinct_seq(displaced_pool(elig, prev, oc, sk)),
    decreases elig.len(),
{
    if elig.len() > 0 {
        assert(distinct_seq(elig.drop_last()));
        lemma_pools_distinct(elig.drop_last(), prev, oc, sk);
        assert(!elig.drop_last().contains(elig.last())) by {
            if elig.drop_last().contains(elig.last()) {
                let p = choose|p: int|
                    0 <= p < elig.len() - 1 && elig.drop_last()[p] == elig.last();
                assert(elig[p] == elig[elig.len() - 1]);
            }
        }
        let rn = new_pool(elig.drop_last(), prev);
        let rd = displaced_pool(elig.drop_last(), prev, oc, sk);
        lemma_new_pool_contains(elig.drop_last(), prev, elig.last());
        lemma_displaced_contains(elig.drop_last(), prev, oc, sk, elig.last());
        if !in_assignment(prev, elig.last()) {
            assert(forall|p: int| 0 <= p < rn.len() ==> rn[p] != elig.last()) by {
                if exists|p: int| 0 <= p < rn.len() && rn[p] == elig.last() {
                    let p = choose|p: int| 0 <= p < rn.len() && rn[p] == elig.last();
                    assert(rn.contains(elig.last()));
                }
            }
            assert(distinct_seq(rn.push(elig.last())));
        }
        if in_assignment(prev, elig.last()) && !placed_core(oc, sk, elig.last()) {
            assert(forall|p: int| 0 <= p < rd.len() ==> rd[p] != elig.last()) by {
                if exists|p: int| 0 <= p < rd.len() && rd[p] == elig.last() {
                    let p = choose|p: int| 0 <= p < rd.len() && rd[p] == elig.last();
                    assert(rd.contains(elig.last()));
                }
            }
            assert(distinct_seq(rd.push(elig.last())));
        }
    }
}


/// The id `v` occurs among the first `i` requested ids at an admitted
/// position.
pub open spec fn id_admitted_in(
    ids: Seq<u32>,
    prev: AssignmentView,
    kp: int,
    i: int,
    v: u32,
) -> bool {
    exists|q: int| 0 <= q < i && ids[q] == v && is_admitted(ids, prev, kp, q)
}

/// Shape of the skeleton: its ids are exactly the admitted ids, in strictly
/// ascending order, and every partition carries its retained members.
#[verifier::rlimit(100)]
#[verifier::spinoff_prover]
pub proof fn lemma_skeleton_shape(
    ids: Seq<u32>,
    prev: AssignmentView,
    elig: Seq<u64>,
    s: int,
    kp: int,
    i: int,
)
    requires
        sorted_strict(ids),
        0 <= i <= ids.len(),
    ensures
        forall|p: int|
            0 <= p < skeleton_prefix(ids, prev, elig, s, kp, i).len() ==> id_admitted_in(
                ids,
                prev,
                kp,
                i,
                (#[trigger] skeleton_prefix(ids, prev, elig, s, kp, i)[p]).0,
            ),
        forall|p: int|
            0 <= p < skeleton_prefix(ids, prev, elig, s, kp, i).len()
                ==> (#[trigger] skeleton_prefix(ids, prev, elig, s, kp, i)[p]).1
                == retained_members(prev, elig, s, skeleton_prefix(ids, prev, elig, s, kp, i)[p].0),
        sorted_strict(chain_ids(skeleton_prefix(ids, prev, elig, s, kp, i))),
        forall|q: int|
            0 <= q < i && is_admitted(ids, prev, kp, q) ==> chain_ids(
                skeleton_prefix(ids, prev, elig, s, kp, i),
            ).contains(#[trigger] ids[q]),
    decreases i,
{
    if i > 0 {
        lemma_skeleton_shape(ids, prev, elig, s, kp, i - 1);
        let rest = skeleton_prefix(ids, prev, elig, s, kp, i - 1);
        let cur = skeleton_prefix(ids, prev, elig, s, kp, i);
        if is_admitted(ids, prev, kp, i - 1) {
            let x = (ids[i - 1], retained_members(prev, elig, s, ids[i - 1]));
            assert(cur == rest.push(x));
            assert(chain_ids(cur) =~= chain_ids(rest).push(ids[i - 1]));
            assert(forall|p: int|
                0 <= p < rest.len() ==> chain_ids(rest)[p] == (#[trigger] rest[p]).0);
            assert forall|p: int| 0 <= p < rest.len() implies chain_ids(rest)[p] < ids[i - 1] by {
                assert(id_admitted_in(ids, prev, kp, i - 1, rest[p].0));
                let q = choose|q: int|
                    0 <= q < i - 1 && ids[q] == rest[p].0 && is_admitted(ids, prev, kp, q);
                assert(ids[q] < ids[i - 1]);
            }
            assert(sorted_strict(chain_ids(cur)));
            assert forall|p: int| 0 <= p < cur.len() implies id_admitted_in(
                ids,
                prev,
                kp,
                i,
                (#[trigger] cur[p]).0,
            ) by {
                if p < rest.len() {
                    assert(cur[p] == rest[p]);
                    let q = choose|q: int|
                        0 <= q < i - 1 && ids[q] == rest[p].0 && is_admitted(ids, prev, kp, q);
                    assert(0 <= q < i && ids[q] == cur[p].0 && is_admitted(ids, prev, kp, q));
                } else {
                    assert(cur[p] == x);
                    assert(0 <= i - 1 < i && ids[i - 1] == cur[p].0 && is_admitted(
                        ids,
                        prev,
                        kp,
                        i - 1,
                    ));
                }
            }
            assert forall|q: int| 0 <= q < i && is_admitted(ids, prev, kp, q) implies chain_ids(
                cur,
            ).contains(#[trigger] ids[q]) by {
                if q < i - 1 {
                    assert(chain_ids(rest).contains(ids[q]));
                    let p = choose|p: int|
                        0 <= p < chain_ids(rest).len() && chain_ids(rest)[p] == ids[q];
                    assert(chain_ids(cur)[p] == ids[q]);
                } else {
                    assert(chain_ids(cur)[cur.len() - 1] == ids[i - 1]);
                }
            }
        } else {
            assert(cur == rest);
            assert forall|p: int| 0 <= p < cur.len() implies id_admitted_in(
                ids,
                prev,
                kp,
                i,
                (#[trigger] cur[p]).0,
            ) by {
                let q = choose|q: int|
                    0 <= q < i - 1 && ids[q] == rest[p].0 && is_admitted(ids, prev, kp, q);
                assert(0 <= q < i && ids[q] == cur[p].0 && is_admitted(ids, prev, kp, q));
            }
        }
    }
}

/// Filling only appends: whatever a partition held, it still holds.
pub proof fn lemma_fill_fwd_keeps(
    cs: Seq<(u32, Seq<u64>)>,
    s: int,
    pool: Seq<u64>,
    idx0: int,
    i: int,
)
    requires
        0 <= idx0 <= pool.len(),
        0 <= i <= cs.len(),
    ensures
        forall|m: int, x: u64|
            0 <= m < cs.len() && (#[trigger] cs[m].1.contains(x)) ==> fill_fwd(
                cs,
                s,
                pool,
                idx0,
                i,
            ).0[m].1.contains(x),
    decreases i,
{
    crate::scheduler::lemma_fill_fwd_frame(cs, s, pool, idx0, i);
    if i > 0 {
        lemma_fill_fwd_keeps(cs, s, pool, idx0, i - 1);
        crate::scheduler::lemma_fill_fwd_frame(cs, s, pool, idx0, i - 1);
    }
}

/// Filling only appends: whatever a partition held, it still holds.
pub proof fn lemma_fill_bwd_keeps(
    cs: Seq<(u32, Seq<u64>)>,
    s: int,
    pool: Seq<u64>,
    idx0: int,
    j: int,
)
    requires
        0 <= idx0 <= pool.len(),
        0 <= j <= cs.len(),
    ensures
        forall|m: int, x: u64|
            0 <= m < cs.len() && (#[trigger] cs[m].1.contains(x)) ==> fill_bwd(
                cs,
                s,
                pool,
                idx0,
                j,
            ).0[m].1.contains(x),
    decreases cs.len() - j,
{
    crate::scheduler::lemma_fill_bwd_frame(cs, s, pool, idx0, j);
    if j < cs.len() {
        lemma_fill_bwd_keeps(cs, s, pool, idx0, j + 1);
        crate::scheduler::lemma_fill_bwd_frame(cs, s, pool, idx0, j + 1);
    }
}

/// With no previously populated partition among the requested ids,
/// `ret_count` is zero.
pub proof fn lemma_ret_count_zero(ids: Seq<u32>, prev: AssignmentView)
    requires
        forall|q: int| 0 <= q < ids.len() ==> !has_chain(prev, #[trigger] ids[q]),
    ensures
        ret_count(ids, prev) == 0,
    decreases ids.len(),
{
    if ids.len() > 0 {
        assert(forall|q: int|
            0 <= q < ids.len() - 1 ==> !has_chain(prev, #[trigger] ids.drop_last()[q]));
        lemma_ret_count_zero(ids.drop_last(), prev);
        assert(!has_chain(prev, ids.last()));
    }
}

/// Monotonic admission: when no requested partition was populated in the
/// previous epoch, the admitted set is exactly the first `min(kp, k)` ids,
/// so partitions are dropped strictly from the highest id down.
pub proof fn lemma_admission_drops_highest(
    elig: Seq<u64>,
    ids: Seq<u32>,
    min_o: int,
    max_o: int,
    s: int,
    prev: AssignmentView,
)
    requires
        0 <= s,
        sorted_strict(ids),
        forall|q: int| 0 <= q < ids.len() ==> !has_chain(prev, #[trigger] ids[q]),
    ensures
        ({
            let kp = admitted_count(elig.len() as int, ids.len() as int, min_o, s);
            let keep = if kp <= ids.len() {
                kp
            } else {
                ids.len() as int
            };
            chain_ids(spec_assign(elig, ids, min_o, max_o, s, prev).container_chains) == ids.take(
                keep,
            )
        }),
{
    let kp = admitted_count(elig.len() as int, ids.len() as int, min_o, s);
    let keep = if kp <= ids.len() {
        kp
    } else {
        ids.len() as int
    };
    assert(0 <= kp) by {
        if s != 0 {
            let n = elig.len() as int;
            let avail: int = if n >= min_o {
                n - min_o
            } else {
                0
            };
            vstd::arithmetic::div_mod::lemma_div_pos_is_pos(avail, s);
        }
    }
    lemma_skeleton_fresh_prefix(ids, prev, elig, s, kp, ids.len() as int);
    let sk = skeleton(ids, prev, elig, s, kp);
    assert(chain_ids(sk) == ids.take(keep));
    // The fill passes never change a partition's id.
    let out = spec_assign(elig, ids, min_o, max_o, s, prev);
    lemma_fills_keep_ids(elig, ids, min_o, max_o, s, prev);
    assert(chain_ids(out.container_chains) =~= chain_ids(sk));
}

/// The container partitions of the output carry exactly the skeleton's ids.
pub proof fn lemma_fills_keep_ids(
    elig: Seq<u64>,
    ids: Seq<u32>,
    min_o: int,
    max_o: int,
    s: int,
    prev: AssignmentView,
)
    ensures
        ({
            let kp = admitted_count(elig.len() as int, ids.len() as int, min_o, s);
            let sk = skeleton(ids, prev, elig, s, kp);
            let out = spec_assign(elig, ids, min_o, max_o, s, prev);
            out.container_chains.len() == sk.len() && forall|p: int|
                0 <= p < sk.len() ==> (#[trigger] out.container_chains[p]).0 == sk[p].0
        }),
{
    let n = elig.len() as int;
    let kp = admitted_count(n, ids.len() as int, min_o, s);
    let oc = orch_core(prev, elig, min_o);
    let sk = skeleton(ids, prev, elig, s, kp);
    let newp = new_pool(elig, prev);
    let disp = displaced_pool(elig, prev, oc, sk);
    let need_min = if oc.len() >= min_o {
        0
    } else {
        min_o - oc.len()
    };
    let tn = take_n(need_min, newp.len() as int);
    let td = take_n(need_min - tn, disp.len() as int);
    crate::scheduler::lemma_fill_fwd_frame(sk, s, newp, tn, sk.len() as int);
    let fa = fill_fwd(sk, s, newp, tn, sk.len() as int);
    crate::scheduler::lemma_fill_bwd_frame(fa.0, s, disp, td, 0);
}

/// With no previously populated partition, the skeleton is the first
/// `min(kp, i)` requested ids, each with no retained members.
pub proof fn lemma_skeleton_fresh_prefix(
    ids: Seq<u32>,
    prev: AssignmentView,
    elig: Seq<u64>,
    s: int,
    kp: int,
    i: int,
)
    requires
        0 <= kp,
        0 <= i <= ids.len(),
        forall|q: int| 0 <= q < ids.len() ==> !has_chain(prev, #[trigger] ids[q]),
    ensures
        chain_ids(skeleton_prefix(ids, prev, elig, s, kp, i)) == ids.take(
            if kp <= i {
                kp
            } else {
                i
            },
        ),
    decreases i,
{
    lemma_ret_count_zero(ids, prev);
    if i > 0 {
        lemma_skeleton_fresh_prefix(ids, prev, elig, s, kp, i - 1);
        let rest = skeleton_prefix(ids, prev, elig, s, kp, i - 1);
        let cur = skeleton_prefix(ids, prev, elig, s, kp, i);
        assert(forall|q: int|
            0 <= q < i - 1 ==> !has_chain(prev, #[trigger] ids.take(i - 1)[q]));
        lemma_ret_count_zero(ids.take(i - 1), prev);
        assert(is_admitted(ids, prev, kp, i - 1) <==> (i - 1 < kp));
        if i - 1 < kp {
            assert(cur == rest.push((ids[i - 1], retained_members(prev, elig, s, ids[i - 1]))));
            assert(chain_ids(cur) =~= chain_ids(rest).push(ids[i - 1]));
            assert(chain_ids(cur) =~= ids.take(
                if kp <= i {
                    kp
                } else {
                    i
                },
            ));
        } else {
            assert(cur == rest);
        }
    } else {
        assert(chain_ids(skeleton_prefix(ids, prev, elig, s, kp, 0)) =~= ids.take(0));
    }
}

/// Replacement locality, container side: a still-eligible worker of an
/// admitted container partition keeps its partition whenever it is among
/// the partition's first `s` still-eligible members.
pub proof fn lemma_container_retention(
    elig: Seq<u64>,
    ids: Seq<u32>,
    min_o: int,
    max_o: int,
    s: int,
    prev: AssignmentView,
    q: int,
    w: u64,
)
    requires
        sorted_strict(ids),
        0 <= q < ids.len(),
        is_admitted(ids, prev, admitted_count(elig.len() as int, ids.len() as int, min_o, s), q),
        retained_members(prev, elig, s, ids[q]).contains(w),
    ensures
        ({
            let out = spec_assign(elig, ids, min_o, max_o, s, prev);
            exists|p: int|
                0 <= p < out.container_chains.len() && (#[trigger] out.container_chains[p]).0
                    == ids[q] && out.container_chains[p].1.contains(w)
        }),
{
    let n = elig.len() as int;
    let kp = admitted_count(n, ids.len() as int, min_o, s);
    let oc = orch_core(prev, elig, min_o);
    let sk = skeleton(ids, prev, elig, s, kp);
    let newp = new_pool(elig, prev);
    let disp = displaced_pool(elig, prev, oc, sk);
    let need_min = if oc.len() >= min_o {
        0
    } else {
        min_o - oc.len()
    };
    let tn = take_n(need_min, newp.len() as int);
    let td = take_n(need_min - tn, disp.len() as int);
    lemma_skeleton_shape(ids, prev, elig, s, kp, ids.len() as int);
    assert(chain_ids(sk).contains(ids[q]));
    let p = choose|p: int| 0 <= p < chain_ids(sk).len() && chain_ids(sk)[p] == ids[q];
    assert(sk[p].0 == ids[q]);
    assert(sk[p].1 == retained_members(prev, elig, s, ids[q]));
    crate::scheduler::lemma_fill_fwd_frame(sk, s, newp, tn, sk.len() as int);
    let fa = fill_fwd(sk, s, newp, tn, sk.len() as int);
    lemma_fill_fwd_keeps(sk, s, newp, tn, sk.len() as int);
    lemma_fill_bwd_keeps(fa.0, s, disp, td, 0);
    lemma_fills_keep_ids(elig, ids, min_o, max_o, s, prev);
    let out = spec_assign(elig, ids, min_o, max_o, s, prev);
    assert(out.container_chains[p].0 == ids[q]);
    assert(out.container_chains[p].1.contains(w));
}

/// Replacement locality, orchestrator side: every worker of the retained
/// orchestrator core keeps its seat, and when the previous orchestrator
/// partition held at most `min_o` still-eligible workers, every one of them
/// does.
pub proof fn lemma_orchestrator_retention(
    elig: Seq<u64>,
    ids: Seq<u32>,
    min_o: int,
    max_o: int,
    s: int,
    prev: AssignmentView,
    w: u64,
)
    requires
        kept(prev.orchestrator_chain, elig).len() <= min_o,
        prev.orchestrator_chain.contains(w),
        elig.contains(w),
    ensures
        spec_assign(elig, ids, min_o, max_o, s, prev).orchestrator_chain.contains(w),
{
    lemma_kept_contains(prev.orchestrator_chain, elig, w);
    let oc = orch_core(prev, elig, min_o);
    assert(oc == kept(prev.orchestrator_chain, elig));
    assert(oc.contains(w));
    let out = spec_assign(elig, ids, min_o, max_o, s, prev);
    let p = choose|p: int| 0 <= p < oc.len() && oc[p] == w;
    assert(out.orchestrator_chain[p] == w);
}


/// Every partition's members are distinct and no worker sits in two
/// partitions of the list.
pub open spec fn chains_disjoint(cs: Seq<(u32, Seq<u64>)>) -> bool {
    &&& forall|m: int| 0 <= m < cs.len() ==> distinct_seq((#[trigger] cs[m]).1)
    &&& forall|m1: int, m2: int, w: u64|
        0 <= m1 < cs.len() && 0 <= m2 < cs.len() && m1 != m2 && (#[trigger] cs[m1].1.contains(w))
            ==> !(#[trigger] cs[m2].1.contains(w))
}

/// No member of any partition of `cs` occurs in `pool` at an index at or
/// past `idx`.
pub open spec fn chains_fresh(cs: Seq<(u32, Seq<u64>)>, pool: Seq<u64>, idx: int) -> bool {
    forall|m: int, x: int|
        0 <= m < cs.len() && idx <= x < pool.len() ==> !(#[trigger] cs[m].1.contains(
            #[trigger] pool[x],
        ))
}

/// Two index ranges of one distinct sequence share no values.
pub proof fn lemma_ranges_disjoint(pool: Seq<u64>, a: int, b: int, c: int, d: int)
    requires
        distinct_seq(pool),
        0 <= a <= b <= c <= d <= pool.len(),
    ensures
        forall|w: u64|
            #[trigger] pool.subrange(a, b).contains(w) ==> !pool.subrange(c, d).contains(w),
{
    assert forall|w: u64| #[trigger] pool.subrange(a, b).contains(w) implies !pool.subrange(
        c,
        d,
    ).contains(w) by {
        let p = choose|p: int| 0 <= p < b - a && pool.subrange(a, b)[p] == w;
        if pool.subrange(c, d).contains(w) {
            let q = choose|q: int| 0 <= q < d - c && pool.subrange(c, d)[q] == w;
            assert(pool[a + p] == pool[c + q]);
        }
    }
}

/// A subrange of a distinct sequence is distinct.
pub proof fn lemma_subrange_distinct(pool: Seq<u64>, a: int, b: int)
    requires
        distinct_seq(pool),
        0 <= a <= b <= pool.len(),
    ensures
        distinct_seq(pool.subrange(a, b)),
{
}

/// The ascending fill keeps partitions disjoint: it hands each pool worker
/// to at most one partition, and every added worker comes from
/// `pool[idx0..r.1]`.
pub proof fn lemma_fill_fwd_wf(cs: Seq<(u32, Seq<u64>)>, s: int, pool: Seq<u64>, idx0: int, i: int)
    requires
        0 <= idx0 <= pool.len(),
        0 <= i <= cs.len(),
        distinct_seq(pool),
        chains_disjoint(cs),
        chains_fresh(cs, pool, idx0),
    ensures
        chains_disjoint(fill_fwd(cs, s, pool, idx0, i).0),
        chains_fresh(fill_fwd(cs, s, pool, idx0, i).0, pool, fill_fwd(cs, s, pool, idx0, i).1),
        forall|m: int, w: u64|
            0 <= m < cs.len() && (#[trigger] fill_fwd(cs, s, pool, idx0, i).0[m].1.contains(w))
                ==> cs[m].1.contains(w) || pool.subrange(
                idx0,
                fill_fwd(cs, s, pool, idx0, i).1,
            ).contains(w),
    decreases i,
{
    crate::scheduler::lemma_fill_fwd_frame(cs, s, pool, idx0, i);
    if i > 0 {
        lemma_fill_fwd_wf(cs, s, pool, idx0, i - 1);
        crate::scheduler::lemma_fill_fwd_frame(cs, s, pool, idx0, i - 1);
        let r0 = fill_fwd(cs, s, pool, idx0, i - 1);
        let cs1 = r0.0;
        let idx = r0.1;
        let need = if cs1[i - 1].1.len() >= s {
            0
        } else {
            s - cs1[i - 1].1.len()
        };
        let t = take_n(need, pool.len() - idx);
        let slice = pool.subrange(idx, idx + t);
        let r1 = fill_fwd(cs, s, pool, idx0, i);
        let merged = cs1[i - 1].1 + slice;
        // The freshly filled partition stays distinct.
        assert(cs1[i - 1] == cs[i - 1]);
        lemma_subrange_distinct(pool, idx, idx + t);
        assert(distinct_seq(merged)) by {
            assert(forall|p: int| 0 <= p < cs1[i - 1].1.len() ==> merged[p] == cs1[i - 1].1[p]);
            assert(forall|p: int|
                cs1[i - 1].1.len() <= p < merged.len() ==> merged[p] == slice[p - cs1[i
                    - 1].1.len()]);
            assert forall|p1: int, p2: int| 0 <= p1 < p2 < merged.len() implies merged[p1]
                != merged[p2] by {
                if p1 < cs1[i - 1].1.len() && p2 >= cs1[i - 1].1.len() {
                    assert(merged[p2] == pool[idx + (p2 - cs1[i - 1].1.len())]);
                    assert(cs[i - 1].1.contains(merged[p1]));
                }
            }
        }
        // Its new members were unknown to every other partition.
        assert forall|m1: int, m2: int, w: u64|
            0 <= m1 < cs.len() && 0 <= m2 < cs.len() && m1 != m2 && (#[trigger] r1.0[m1].1.contains(
                w,
            )) implies !(#[trigger] r1.0[m2].1.contains(w)) by {
            if m1 != i - 1 && m2 != i - 1 {
                assert(r1.0[m1].1 == cs1[m1].1);
                assert(r1.0[m2].1 == cs1[m2].1);
            } else if m1 == i - 1 {
                // w is an old member or a slice worker; m2 is untouched.
                assert(r1.0[m2].1 == cs1[m2].1);
                if cs1[i - 1].1.contains(w) {
                    assert(!cs1[m2].1.contains(w));
                } else {
                    assert(slice.contains(w));
                    let q = choose|q: int| 0 <= q < t && slice[q] == w;
                    assert(w == pool[idx + q]);
                    if cs1[m2].1.contains(w) {
                        if m2 < i - 1 {
                            // m2 holds old members plus pool[idx0..idx].
                            assert(cs[m2].1.contains(w) || pool.subrange(idx0, idx).contains(w));
                            if cs[m2].1.contains(w) {
                                assert(!cs[m2].1.contains(pool[idx + q]));
                            } else {
                                lemma_ranges_disjoint(pool, idx0, idx, idx, idx + t);
                                assert(slice.contains(w));
                            }
                        } else {
                            assert(cs1[m2] == cs[m2]);
                            assert(!cs[m2].1.contains(pool[idx + q]));
                        }
                    }
                }
            } else {
                // m2 == i - 1: symmetric.
                assert(r1.0[m1].1 == cs1[m1].1);
                if cs1[i - 1].1.contains(w) {
                    if cs1[m1].1.contains(w) {
                        assert(false);
                    }
                } else if slice.contains(w) {
                    let q = choose|q: int| 0 <= q < t && slice[q] == w;
                    assert(w == pool[idx + q]);
                    if cs1[m1].1.contains(w) {
                        if m1 < i - 1 {
                            assert(cs[m1].1.contains(w) || pool.subrange(idx0, idx).contains(w));
                            if cs[m1].1.contains(w) {
                                assert(!cs[m1].1.contains(pool[idx + q]));
                            } else {
                                lemma_ranges_disjoint(pool, idx0, idx, idx, idx + t);
                            }
                        } else {
                            assert(cs1[m1] == cs[m1]);
                            assert(!cs[m1].1.contains(pool[idx + q]));
                        }
                    }
                }
            }
        }
        assert(chains_disjoint(r1.0)) by {
            assert(forall|m: int|
                0 <= m < r1.0.len() && m != i - 1 ==> (#[trigger] r1.0[m]).1 == cs1[m].1);
            assert(r1.0[i - 1].1 == merged);
        }
        // Every partition's members avoid the unconsumed pool tail.
        assert forall|m: int, x: int|
            0 <= m < r1.0.len() && r1.1 <= x < pool.len() implies !(#[trigger] r1.0[m].1.contains(
                #[trigger] pool[x],
            )) by {
            if m != i - 1 {
                assert(r1.0[m].1 == cs1[m].1);
                assert(!cs1[m].1.contains(pool[x]));
            } else {
                if merged.contains(pool[x]) {
                    if cs1[i - 1].1.contains(pool[x]) {
                        assert(false);
                    } else {
                        assert(slice.contains(pool[x]));
                        let q = choose|q: int| 0 <= q < t && slice[q] == pool[x];
                        assert(pool[idx + q] == pool[x]);
                        assert(idx + q < r1.1 <= x);
                    }
                }
            }
        }
        // Added members come from pool[idx0..r1.1].
        assert forall|m: int, w: u64|
            0 <= m < cs.len() && (#[trigger] r1.0[m].1.contains(w)) implies cs[m].1.contains(w)
            || pool.subrange(idx0, r1.1).contains(w) by {
            if m != i - 1 {
                assert(r1.0[m].1 == cs1[m].1);
                if cs1[m].1.contains(w) && !cs[m].1.contains(w) {
                    assert(pool.subrange(idx0, idx).contains(w));
                    let q = choose|q: int|
                        0 <= q < idx - idx0 && pool.subrange(idx0, idx)[q] == w;
                    assert(pool.subrange(idx0, r1.1)[q] == w);
                }
            } else {
                if merged.contains(w) && !cs[i - 1].1.contains(w) {
                    assert(slice.contains(w));
                    let q = choose|q: int| 0 <= q < t && slice[q] == w;
                    assert(pool.subrange(idx0, r1.1)[idx - idx0 + q] == w);
                }
            }
        }
    }
}

/// The descending fill keeps partitions disjoint in the same way.
pub proof fn lemma_fill_bwd_wf(cs: Seq<(u32, Seq<u64>)>, s: int, pool: Seq<u64>, idx0: int, j: int)
    requires
        0 <= idx0 <= pool.len(),
        0 <= j <= cs.len(),
        distinct_seq(pool),
        chains_disjoint(cs),
        chains_fresh(cs, pool, idx0),
    ensures
        chains_disjoint(fill_bwd(cs, s, pool, idx0, j).0),
        chains_fresh(fill_bwd(cs, s, pool, idx0, j).0, pool, fill_bwd(cs, s, pool, idx0, j).1),
        forall|m: int, w: u64|
            0 <= m < cs.len() && (#[trigger] fill_bwd(cs, s, pool, idx0, j).0[m].1.contains(w))
                ==> cs[m].1.contains(w) || pool.subrange(
                idx0,
                fill_bwd(cs, s, pool, idx0, j).1,
            ).contains(w),
    decreases cs.len() - j,
{
    crate::scheduler::lemma_fill_bwd_frame(cs, s, pool, idx0, j);
    if j < cs.len() {
        lemma_fill_bwd_wf(cs, s, pool, idx0, j + 1);
        crate::scheduler::lemma_fill_bwd_frame(cs, s, pool, idx0, j + 1);
        let r0 = fill_bwd(cs, s, pool, idx0, j + 1);
        let cs1 = r0.0;
        let idx = r0.1;
        let need = if cs1[j].1.len() >= s {
            0
        } else {
            s - cs1[j].1.len()
        };
        let t = take_n(need, pool.len() - idx);
        let slice = pool.subrange(idx, idx + t);
        let r1 = fill_bwd(cs, s, pool, idx0, j);
        let merged = cs1[j].1 + slice;
        assert(cs1[j] == cs[j]);
        lemma_subrange_distinct(pool, idx, idx + t);
        assert(distinct_seq(merged)) by {
            assert forall|p1: int, p2: int| 0 <= p1 < p2 < merged.len() implies merged[p1]
                != merged[p2] by {
                if p1 < cs1[j].1.len() && p2 >= cs1[j].1.len() {
                    assert(merged[p2] == pool[idx + (p2 - cs1[j].1.len())]);
                    assert(cs[j].1.contains(merged[p1]));
                }
            }
        }
        assert forall|m1: int, m2: int, w: u64|
            0 <= m1 < cs.len() && 0 <= m2 < cs.len() && m1 != m2 && (#[trigger] r1.0[m1].1.contains(
                w,
            )) implies !(#[trigger] r1.0[m2].1.contains(w)) by {
            if m1 != j && m2 != j {
                assert(r1.0[m1].1 == cs1[m1].1);
                assert(r1.0[m2].1 == cs1[m2].1);
            } else if m1 == j {
                assert(r1.0[m2].1 == cs1[m2].1);
                if cs1[j].1.contains(w) {
                    assert(!cs1[m2].1.contains(w));
                } else {
                    assert(slice.contains(w));
                    let q = choose|q: int| 0 <= q < t && slice[q] == w;
                    assert(w == pool[idx + q]);
                    if cs1[m2].1.contains(w) {
                        if m2 > j {
                            assert(cs[m2].1.contains(w) || pool.subrange(idx0, idx).contains(w));
                            if cs[m2].1.contains(w) {
                                assert(!cs[m2].1.contains(pool[idx + q]));
                            } else {
                                lemma_ranges_disjoint(pool, idx0, idx, idx, idx + t);
                            }
                        } else {
                            assert(cs1[m2] == cs[m2]);
                            assert(!cs[m2].1.contains(pool[idx + q]));
                        }
                    }
                }
            } else {
                assert(r1.0[m1].1 == cs1[m1].1);
                if cs1[j].1.contains(w) {
                    if cs1[m1].1.contains(w) {
                        assert(false);
                    }
                } else if slice.contains(w) {
                    let q = choose|q: int| 0 <= q < t && slice[q] == w;
                    assert(w == pool[idx + q]);
                    if cs1[m1].1.contains(w) {
                        if m1 > j {
                            assert(cs[m1].1.contains(w) || pool.subrange(idx0, idx).contains(w));
                            if cs[m1].1.contains(w) {
                                assert(!cs[m1].1.contains(pool[idx + q]));
                            } else {
                                lemma_ranges_disjoint(pool, idx0, idx, idx, idx + t);
                            }
                        } else {
                            assert(cs1[m1] == cs[m1]);
                            assert(!cs[m1].1.contains(pool[idx + q]));
                        }
                    }
                }
            }
        }
        assert(chains_disjoint(r1.0)) by {
            assert(forall|m: int|
                0 <= m < r1.0.len() && m != j ==> (#[trigger] r1.0[m]).1 == cs1[m].1);
            assert(r1.0[j].1 == merged);
        }
        assert forall|m: int, x: int|
            0 <= m < r1.0.len() && r1.1 <= x < pool.len() implies !(#[trigger] r1.0[m].1.contains(
                #[trigger] pool[x],
            )) by {
            if m != j {
                assert(r1.0[m].1 == cs1[m].1);
                assert(!cs1[m].1.contains(pool[x]));
            } else {
                if merged.contains(pool[x]) {
                    if cs1[j].1.contains(pool[x]) {
                        assert(false);
                    } else {
                        assert(slice.contains(pool[x]));
                        let q = choose|q: int| 0 <= q < t && slice[q] == pool[x];
                        assert(pool[idx + q] == pool[x]);
                        assert(idx + q < r1.1 <= x);
                    }
                }
            }
        }
        assert forall|m: int, w: u64|
            0 <= m < cs.len() && (#[trigger] r1.0[m].1.contains(w)) implies cs[m].1.contains(w)
            || pool.subrange(idx0, r1.1).contains(w) by {
            if m != j {
                assert(r1.0[m].1 == cs1[m].1);
                if cs1[m].1.contains(w) && !cs[m].1.contains(w) {
                    assert(pool.subrange(idx0, idx).contains(w));
                    let q = choose|q: int|
                        0 <= q < idx - idx0 && pool.subrange(idx0, idx)[q] == w;
                    assert(pool.subrange(idx0, r1.1)[q] == w);
                }
            } else {
                if merged.contains(w) && !cs[j].1.contains(w) {
                    assert(slice.contains(w));
                    let q = choose|q: int| 0 <= q < t && slice[q] == w;
                    assert(pool.subrange(idx0, r1.1)[idx - idx0 + q] == w);
                }
            }
        }
    }
}


/// The retained orchestrator core: distinct, previously seated, eligible.
pub proof fn lemma_orch_core_facts(prev: AssignmentView, elig: Seq<u64>, min_o: int)
    requires
        0 <= min_o,
        distinct_seq(prev.orchestrator_chain),
    ensures
        distinct_seq(orch_core(prev, elig, min_o)),
        orch_core(prev, elig, min_o).len() <= min_o || orch_core(prev, elig, min_o).len()
            <= prev.orchestrator_chain.len(),
        forall|w: u64|
            #[trigger] orch_core(prev, elig, min_o).contains(w) ==> prev.orchestrator_chain.contains(
                w,
            ) && elig.contains(w),
{
    lemma_kept_distinct(prev.orchestrator_chain, elig);
    lemma_clip_facts(kept(prev.orchestrator_chain, elig), min_o);
    assert forall|w: u64| #[trigger] orch_core(prev, elig, min_o).contains(w)
        implies prev.orchestrator_chain.contains(w) && elig.contains(w) by {
        assert(kept(prev.orchestrator_chain, elig).contains(w));
        lemma_kept_contains(prev.orchestrator_chain, elig, w);
    }
}

/// Retained container members: distinct, eligible, and drawn from the
/// partition's previous members.
pub proof fn lemma_retained_facts(prev: AssignmentView, elig: Seq<u64>, s: int, id: u32)
    requires
        0 <= s,
        wf(prev),
    ensures
        distinct_seq(retained_members(prev, elig, s, id)),
        forall|w: u64|
            #[trigger] retained_members(prev, elig, s, id).contains(w) ==> elig.contains(w)
                && has_chain(prev, id) && chain_members(prev, id).contains(w) && in_assignment(
                prev,
                w,
            ),
{
    if has_chain(prev, id) {
        let j = crate::assignment::chain_index_of(prev, id);
        assert(0 <= j < prev.container_chains.len() && prev.container_chains[j].0 == id);
        assert(distinct_seq(chain_members(prev, id)));
        lemma_kept_distinct(chain_members(prev, id), elig);
        lemma_clip_facts(kept(chain_members(prev, id), elig), s);
        assert forall|w: u64| #[trigger] retained_members(prev, elig, s, id).contains(w)
            implies elig.contains(w) && has_chain(prev, id) && chain_members(prev, id).contains(w)
            && in_assignment(prev, w) by {
            assert(kept(chain_members(prev, id), elig).contains(w));
            lemma_kept_contains(chain_members(prev, id), elig, w);
            assert(prev.container_chains[j].1.contains(w));
        }
    }
}

/// Distinct partitions of the previous epoch share no members.
pub proof fn lemma_retained_pairwise(
    prev: AssignmentView,
    elig: Seq<u64>,
    s: int,
    id1: u32,
    id2: u32,
    w: u64,
)
    requires
        0 <= s,
        wf(prev),
        id1 != id2,
        retained_members(prev, elig, s, id1).contains(w),
    ensures
        !retained_members(prev, elig, s, id2).contains(w),
{
    lemma_retained_facts(prev, elig, s, id1);
    lemma_retained_facts(prev, elig, s, id2);
    if retained_members(prev, elig, s, id2).contains(w) {
        let j1 = crate::assignment::chain_index_of(prev, id1);
        let j2 = crate::assignment::chain_index_of(prev, id2);
        assert(prev.container_chains[j1].0 == id1);
        assert(prev.container_chains[j2].0 == id2);
        assert(j1 != j2);
        assert(prev.container_chains[j1].1.contains(w));
        assert(prev.container_chains[j2].1.contains(w));
    }
}

/// The skeleton is well-formed at the start of the fill passes: disjoint
/// partitions whose members are eligible and previously seated.
pub proof fn lemma_skeleton_init(
    ids: Seq<u32>,
    prev: AssignmentView,
    elig: Seq<u64>,
    s: int,
    kp: int,
)
    requires
        0 <= s,
        sorted_strict(ids),
        wf(prev),
    ensures
        chains_disjoint(skeleton(ids, prev, elig, s, kp)),
        forall|m: int, w: u64|
            0 <= m < skeleton(ids, prev, elig, s, kp).len() && (#[trigger] skeleton(
                ids,
                prev,
                elig,
                s,
                kp,
            )[m].1.contains(w)) ==> elig.contains(w) && in_assignment(prev, w) && retained_members(
                prev,
                elig,
                s,
                skeleton(ids, prev, elig, s, kp)[m].0,
            ).contains(w),
{
    let sk = skeleton(ids, prev, elig, s, kp);
    lemma_skeleton_shape(ids, prev, elig, s, kp, ids.len() as int);
    assert forall|m: int, w: u64|
        0 <= m < sk.len() && (#[trigger] sk[m].1.contains(w)) implies elig.contains(w)
        && in_assignment(prev, w) && retained_members(prev, elig, s, sk[m].0).contains(w) by {
        assert(sk[m].1 == retained_members(prev, elig, s, sk[m].0));
        lemma_retained_facts(prev, elig, s, sk[m].0);
    }
    assert forall|m: int| 0 <= m < sk.len() implies distinct_seq((#[trigger] sk[m]).1) by {
        assert(sk[m].1 == retained_members(prev, elig, s, sk[m].0));
        lemma_retained_facts(prev, elig, s, sk[m].0);
    }
    assert forall|m1: int, m2: int, w: u64|
        0 <= m1 < sk.len() && 0 <= m2 < sk.len() && m1 != m2 && (#[trigger] sk[m1].1.contains(w))
        implies !(#[trigger] sk[m2].1.contains(w)) by {
        assert(chain_ids(sk)[m1] == sk[m1].0);
        assert(chain_ids(sk)[m2] == sk[m2].0);
        assert(sk[m1].0 != sk[m2].0);
        assert(sk[m1].1 == retained_members(prev, elig, s, sk[m1].0));
        assert(sk[m2].1 == retained_members(prev, elig, s, sk[m2].0));
        lemma_retained_pairwise(prev, elig, s, sk[m1].0, sk[m2].0, w);
    }
}

/// Appending foreign members keeps a sequence distinct.
pub proof fn lemma_append_distinct(a: Seq<u64>, b: Seq<u64>)
    requires
        distinct_seq(a),
        distinct_seq(b),
        forall|w: u64| #[trigger] b.contains(w) ==> !a.contains(w),
    ensures
        distinct_seq(a + b),
{
    assert forall|p1: int, p2: int| 0 <= p1 < p2 < (a + b).len() implies (a + b)[p1] != (a
        + b)[p2] by {
        if p1 < a.len() && p2 >= a.len() {
            assert((a + b)[p2] == b[p2 - a.len()]);
            assert(b.contains(b[p2 - a.len()]));
            assert(a.contains((a + b)[p1]));
        }
    }
}

/// No double assignment, and well-formedness of the whole output: every
/// worker appears in at most one partition of the new assignment, the
/// partition ids stay strictly ascending, and every partition's member list
/// is duplicate-free.
pub proof fn lemma_assign_wf(
    elig: Seq<u64>,
    ids: Seq<u32>,
    min_o: int,
    max_o: int,
    s: int,
    prev: AssignmentView,
)
    requires
        distinct_seq(elig),
        sorted_strict(ids),
        0 <= min_o,
        0 <= s,
        wf(prev),
    ensures
        wf(spec_assign(elig, ids, min_o, max_o, s, prev)),
{
    let n = elig.len() as int;
    let kp = admitted_count(n, ids.len() as int, min_o, s);
    let oc = orch_core(prev, elig, min_o);
    let sk = skeleton(ids, prev, elig, s, kp);
    let newp = new_pool(elig, prev);
    let disp = displaced_pool(elig, prev, oc, sk);
    let need_min = if oc.len() >= min_o {
        0
    } else {
        min_o - oc.len()
    };
    let tn = take_n(need_min, newp.len() as int);
    let td = take_n(need_min - tn, disp.len() as int);
    let orch1 = oc + newp.take(tn) + disp.take(td);
    let fa = fill_fwd(sk, s, newp, tn, sk.len() as int);
    let fb = fill_bwd(fa.0, s, disp, td, 0);
    let need_max = if orch1.len() >= max_o {
        0
    } else {
        max_o - orch1.len()
    };
    let td2 = take_n(need_max, disp.len() - fb.1);
    let tn2 = take_n(need_max - td2, newp.len() - fa.1);
    let orch2 = orch1 + disp.subrange(fb.1, fb.1 + td2) + newp.subrange(fa.1, fa.1 + tn2);
    let out = spec_assign(elig, ids, min_o, max_o, s, prev);

    lemma_orch_core_facts(prev, elig, min_o);
    lemma_skeleton_init(ids, prev, elig, s, kp);
    lemma_skeleton_shape(ids, prev, elig, s, kp, ids.len() as int);
    lemma_pools_distinct(elig, prev, oc, sk);

    // Members of the retained core are in neither pool.
    assert forall|w: u64| placed_core(oc, sk, w) implies !newp.contains(w) && !disp.contains(w) by {
        lemma_new_pool_contains(elig, prev, w);
        lemma_displaced_contains(elig, prev, oc, sk, w);
        if oc.contains(w) {
            assert(in_assignment(prev, w));
        } else {
            let m = choose|m: int| 0 <= m < sk.len() && sk[m].1.contains(w);
            assert(in_assignment(prev, w));
        }
    }
    // Pool members are mutually exclusive.
    assert forall|w: u64| #[trigger] newp.contains(w) implies !disp.contains(w) by {
        lemma_new_pool_contains(elig, prev, w);
        lemma_displaced_contains(elig, prev, oc, sk, w);
    }

    // The fill passes.
    assert(chains_fresh(sk, newp, tn)) by {
        assert forall|m: int, x: int| 0 <= m < sk.len() && tn <= x < newp.len()
            implies !(#[trigger] sk[m].1.contains(#[trigger] newp[x])) by {
            if sk[m].1.contains(newp[x]) {
                assert(placed_core(oc, sk, newp[x]));
                assert(newp.contains(newp[x]));
            }
        }
    }
    assert(0 <= tn <= newp.len());
    lemma_fill_fwd_wf(sk, s, newp, tn, sk.len() as int);
    crate::scheduler::lemma_fill_fwd_frame(sk, s, newp, tn, sk.len() as int);
    assert(chains_fresh(fa.0, disp, td)) by {
        assert forall|m: int, x: int| 0 <= m < fa.0.len() && td <= x < disp.len()
            implies !(#[trigger] fa.0[m].1.contains(#[trigger] disp[x])) by {
            if fa.0[m].1.contains(disp[x]) {
                assert(sk[m].1.contains(disp[x]) || newp.subrange(tn, fa.1).contains(disp[x]));
                if sk[m].1.contains(disp[x]) {
                    assert(placed_core(oc, sk, disp[x]));
                    assert(disp.contains(disp[x]));
                } else {
                    assert(newp.contains(disp[x]));
                    assert(disp.contains(disp[x]));
                }
            }
        }
    }
    assert(0 <= td <= disp.len());
    lemma_fill_bwd_wf(fa.0, s, disp, td, 0);
    crate::scheduler::lemma_fill_bwd_frame(fa.0, s, disp, td, 0);

    // Where every final container member comes from.
    assert forall|m: int, w: u64|
        0 <= m < fb.0.len() && (#[trigger] fb.0[m].1.contains(w)) implies sk[m].1.contains(w)
        || newp.subrange(tn, fa.1).contains(w) || disp.subrange(td, fb.1).contains(w) by {
        assert(fa.0[m].1.contains(w) || disp.subrange(td, fb.1).contains(w));
    }

    // The orchestrator sequence is duplicate-free.
    let n1 = newp.take(tn);
    let d1 = disp.take(td);
    let d2 = disp.subrange(fb.1, fb.1 + td2);
    let n2 = newp.subrange(fa.1, fa.1 + tn2);
    assert(n1 =~= newp.subrange(0, tn));
    assert(d1 =~= disp.subrange(0, td));
    lemma_subrange_distinct(newp, 0, tn);
    lemma_subrange_distinct(disp, 0, td);
    lemma_subrange_distinct(disp, fb.1, fb.1 + td2);
    lemma_subrange_distinct(newp, fa.1, fa.1 + tn2);
    assert(distinct_seq(oc + n1)) by {
        assert forall|w: u64| #[trigger] n1.contains(w) implies !oc.contains(w) by {
            assert(newp.contains(w));
            lemma_new_pool_contains(elig, prev, w);
            if oc.contains(w) {
                assert(in_assignment(prev, w));
            }
        }
        lemma_append_distinct(oc, n1);
    }
    assert(distinct_seq(oc + n1 + d1)) by {
        assert forall|w: u64| #[trigger] d1.contains(w) implies !(oc + n1).contains(w) by {
            assert(disp.contains(w));
            if (oc + n1).contains(w) {
                assert(oc.contains(w) || n1.contains(w));
                if oc.contains(w) {
                    assert(placed_core(oc, sk, w));
                } else {
                    assert(newp.contains(w));
                }
            }
        }
        lemma_append_distinct(oc + n1, d1);
    }
    assert(distinct_seq(orch1 + d2)) by {
        assert forall|w: u64| #[trigger] d2.contains(w) implies !orch1.contains(w) by {
            assert(disp.contains(w));
            if orch1.contains(w) {
                assert(oc.contains(w) || n1.contains(w) || d1.contains(w));
                if oc.contains(w) {
                    assert(placed_core(oc, sk, w));
                } else if n1.contains(w) {
                    assert(newp.contains(w));
                } else {
                    lemma_ranges_disjoint(disp, 0, td, fb.1, fb.1 + td2);
                }
            }
        }
        lemma_append_distinct(orch1, d2);
    }
    assert(distinct_seq(orch2)) by {
        assert forall|w: u64| #[trigger] n2.contains(w) implies !(orch1 + d2).contains(w) by {
            assert(newp.contains(w));
            if (orch1 + d2).contains(w) {
                assert(oc.contains(w) || n1.contains(w) || d1.contains(w) || d2.contains(w));
                if oc.contains(w) {
                    assert(placed_core(oc, sk, w));
                } else if n1.contains(w) {
                    lemma_ranges_disjoint(newp, 0, tn, fa.1, fa.1 + tn2);
                } else {
                    assert(disp.contains(w));
                }
            }
        }
        lemma_append_distinct(orch1 + d2, n2);
        assert(orch2 =~= (orch1 + d2) + n2);
    }

    // No container member sits in the orchestrator partition.
    assert forall|m: int, w: u64|
        0 <= m < fb.0.len() && (#[trigger] fb.0[m].1.contains(w)) implies !orch2.contains(w) by {
        if orch2.contains(w) {
            assert(oc.contains(w) || n1.contains(w) || d1.contains(w) || d2.contains(w)
                || n2.contains(w));
            if sk[m].1.contains(w) {
                assert(placed_core(oc, sk, w));
                assert(!newp.contains(w) && !disp.contains(w));
                if oc.contains(w) {
                    assert(prev.orchestrator_chain.contains(w));
                    assert(retained_members(prev, elig, s, sk[m].0).contains(w));
                    lemma_retained_facts(prev, elig, s, sk[m].0);
                    let j = crate::assignment::chain_index_of(prev, sk[m].0);
                    assert(prev.container_chains[j].1.contains(w));
                }
            } else if newp.subrange(tn, fa.1).contains(w) {
                assert(newp.contains(w));
                assert(!disp.contains(w));
                assert(!oc.contains(w)) by {
                    lemma_new_pool_contains(elig, prev, w);
                    if oc.contains(w) {
                        assert(in_assignment(prev, w));
                    }
                }
                if n1.contains(w) {
                    lemma_ranges_disjoint(newp, 0, tn, tn, fa.1);
                } else if n2.contains(w) {
                    lemma_ranges_disjoint(newp, tn, fa.1, fa.1, fa.1 + tn2);
                }
            } else {
                assert(disp.subrange(td, fb.1).contains(w));
                assert(disp.contains(w));
                assert(!newp.contains(w));
                assert(!oc.contains(w)) by {
                    lemma_displaced_contains(elig, prev, oc, sk, w);
                }
                if d1.contains(w) {
                    lemma_ranges_disjoint(disp, 0, td, td, fb.1);
                } else if d2.contains(w) {
                    lemma_ranges_disjoint(disp, td, fb.1, fb.1, fb.1 + td2);
                }
            }
        }
    }

    // The ids of the output are the skeleton's, strictly ascending.
    assert(chain_ids(out.container_chains) =~= chain_ids(sk));
    assert(sorted_strict(chain_ids(out.container_chains)));
    assert(out.orchestrator_chain == orch2);
    assert(out.container_chains == fb.0);
    assert(distinct_seq(out.orchestrator_chain));
    assert(forall|j: int|
        0 <= j < out.container_chains.len() ==> distinct_seq(
            (#[trigger] out.container_chains[j]).1,
        ));
    assert forall|j: int, w: u64|
        0 <= j < out.container_chains.len() && (#[trigger] out.container_chains[j].1.contains(w))
        implies !out.orchestrator_chain.contains(w) by {}
    assert forall|j1: int, j2: int, w: u64|
        0 <= j1 < out.container_chains.len() && 0 <= j2 < out.container_chains.len() && j1 != j2
            && (#[trigger] out.container_chains[j1].1.contains(w)) implies !(
    #[trigger] out.container_chains[j2].1.contains(w)) by {
        assert(chains_disjoint(fb.0));
    }
}


/// The total number of workers seated in the container partitions.
pub open spec fn members_count(cs: Seq<(u32, Seq<u64>)>) -> int
    decreases cs.len(),
{
    if cs.len() == 0 {
        0
    } else {
        members_count(cs.drop_last()) + cs.last().1.len()
    }
}

/// Replacing one partition changes the total by the difference of its
/// member counts.
pub proof fn lemma_members_count_update(cs: Seq<(u32, Seq<u64>)>, m: int, p: (u32, Seq<u64>))
    requires
        0 <= m < cs.len(),
    ensures
        members_count(cs.update(m, p)) == members_count(cs) - cs[m].1.len() + p.1.len(),
    decreases cs.len(),
{
    if m == cs.len() - 1 {
        assert(cs.update(m, p).drop_last() =~= cs.drop_last());
        assert(cs.update(m, p).last() == p);
    } else {
        assert(cs.update(m, p).drop_last() =~= cs.drop_last().update(m, p));
        assert(cs.update(m, p).last() == cs.last());
        lemma_members_count_update(cs.drop_last(), m, p);
    }
}

/// The ascending fill seats exactly the pool workers it consumes.
pub proof fn lemma_fill_fwd_count(
    cs: Seq<(u32, Seq<u64>)>,
    s: int,
    pool: Seq<u64>,
    idx0: int,
    i: int,
)
    requires
        0 <= idx0 <= pool.len(),
        0 <= i <= cs.len(),
    ensures
        members_count(fill_fwd(cs, s, pool, idx0, i).0) == members_count(cs) + (fill_fwd(
            cs,
            s,
            pool,
            idx0,
            i,
        ).1 - idx0),
    decreases i,
{
    crate::scheduler::lemma_fill_fwd_frame(cs, s, pool, idx0, i);
    if i > 0 {
        lemma_fill_fwd_count(cs, s, pool, idx0, i - 1);
        crate::scheduler::lemma_fill_fwd_frame(cs, s, pool, idx0, i - 1);
        let r0 = fill_fwd(cs, s, pool, idx0, i - 1);
        let need = if r0.0[i - 1].1.len() >= s {
            0
        } else {
            s - r0.0[i - 1].1.len()
        };
        let t = take_n(need, pool.len() - r0.1);
        lemma_members_count_update(
            r0.0,
            i - 1,
            (r0.0[i - 1].0, r0.0[i - 1].1 + pool.subrange(r0.1, r0.1 + t)),
        );
    }
}

/// The descending fill seats exactly the pool workers it consumes.
pub proof fn lemma_fill_bwd_count(
    cs: Seq<(u32, Seq<u64>)>,
    s: int,
    pool: Seq<u64>,
    idx0: int,
    j: int,
)
    requires
        0 <= idx0 <= pool.len(),
        0 <= j <= cs.len(),
    ensures
        members_count(fill_bwd(cs, s, pool, idx0, j).0) == members_count(cs) + (fill_bwd(
            cs,
            s,
            pool,
            idx0,
            j,
        ).1 - idx0),
    decreases cs.len() - j,
{
    crate::scheduler::lemma_fill_bwd_frame(cs, s, pool, idx0, j);
    if j < cs.len() {
        lemma_fill_bwd_count(cs, s, pool, idx0, j + 1);
        crate::scheduler::lemma_fill_bwd_frame(cs, s, pool, idx0, j + 1);
        let r0 = fill_bwd(cs, s, pool, idx0, j + 1);
        let need = if r0.0[j].1.len() >= s {
            0
        } else {
            s - r0.0[j].1.len()
        };
        let t = take_n(need, pool.len() - r0.1);
        lemma_members_count_update(
            r0.0,
            j,
            (r0.0[j].0, r0.0[j].1 + pool.subrange(r0.1, r0.1 + t)),
        );
    }
}

/// After the ascending fill, a partition it reached is full or the pool is
/// spent; and no partition overflows its target.
pub proof fn lemma_fill_fwd_full(
    cs: Seq<(u32, Seq<u64>)>,
    s: int,
    pool: Seq<u64>,
    idx0: int,
    i: int,
)
    requires
        0 <= idx0 <= pool.len(),
        0 <= i <= cs.len(),
    ensures
        forall|m: int|
            0 <= m < i ==> ((#[trigger] fill_fwd(cs, s, pool, idx0, i).0[m]).1.len() >= s
                || fill_fwd(cs, s, pool, idx0, i).1 == pool.len()),
        forall|m: int|
            0 <= m < cs.len() && cs[m].1.len() <= s ==> (#[trigger] fill_fwd(
                cs,
                s,
                pool,
                idx0,
                i,
            ).0[m]).1.len() <= s,
        forall|m: int|
            0 <= m < cs.len() ==> (#[trigger] fill_fwd(cs, s, pool, idx0, i).0[m]).1.len()
                >= cs[m].1.len(),
    decreases i,
{
    crate::scheduler::lemma_fill_fwd_frame(cs, s, pool, idx0, i);
    if i > 0 {
        lemma_fill_fwd_full(cs, s, pool, idx0, i - 1);
        crate::scheduler::lemma_fill_fwd_frame(cs, s, pool, idx0, i - 1);
    }
}

/// After the descending fill, a partition it reached is full or the pool is
/// spent; and no partition overflows its target.
pub proof fn lemma_fill_bwd_full(
    cs: Seq<(u32, Seq<u64>)>,
    s: int,
    pool: Seq<u64>,
    idx0: int,
    j: int,
)
    requires
        0 <= idx0 <= pool.len(),
        0 <= j <= cs.len(),
    ensures
        forall|m: int|
            j <= m < cs.len() ==> ((#[trigger] fill_bwd(cs, s, pool, idx0, j).0[m]).1.len() >= s
                || fill_bwd(cs, s, pool, idx0, j).1 == pool.len()),
        forall|m: int|
            0 <= m < cs.len() && cs[m].1.len() <= s ==> (#[trigger] fill_bwd(
                cs,
                s,
                pool,
                idx0,
                j,
            ).0[m]).1.len() <= s,
        forall|m: int|
            0 <= m < cs.len() ==> (#[trigger] fill_bwd(cs, s, pool, idx0, j).0[m]).1.len()
                >= cs[m].1.len(),
    decreases cs.len() - j,
{
    crate::scheduler::lemma_fill_bwd_frame(cs, s, pool, idx0, j);
    if j < cs.len() {
        lemma_fill_bwd_full(cs, s, pool, idx0, j + 1);
        crate::scheduler::lemma_fill_bwd_frame(cs, s, pool, idx0, j + 1);
    }
}

/// A partition list whose members are capped sums to at most its length
/// times the cap; strictly less if one partition is short.
pub proof fn lemma_members_count_bound(cs: Seq<(u32, Seq<u64>)>, s: int)
    requires
        0 <= s,
        forall|m: int| 0 <= m < cs.len() ==> (#[trigger] cs[m]).1.len() <= s,
    ensures
        members_count(cs) <= cs.len() * s,
        forall|m0: int|
            0 <= m0 < cs.len() && (#[trigger] cs[m0]).1.len() < s ==> members_count(cs) < cs.len()
                * s,
    decreases cs.len(),
{
    if cs.len() > 0 {
        assert(forall|m: int|
            0 <= m < cs.len() - 1 ==> (#[trigger] cs.drop_last()[m]).1.len() <= s);
        lemma_members_count_bound(cs.drop_last(), s);
        assert(cs.len() * s == (cs.len() - 1) * s + s) by (nonlinear_arith);
        assert forall|m0: int| 0 <= m0 < cs.len() && (#[trigger] cs[m0]).1.len() < s
            implies members_count(cs) < cs.len() * s by {
            if m0 == cs.len() - 1 {
                assert(cs.last().1.len() < s);
            } else {
                assert(cs.drop_last()[m0] == cs[m0]);
                assert(members_count(cs.drop_last()) < (cs.len() - 1) * s);
            }
        }
    }
}

/// How many entries of `elig` equal `x`.
pub open spec fn count_eq(elig: Seq<u64>, x: u64) -> int
    decreases elig.len(),
{
    if elig.len() == 0 {
        0
    } else {
        count_eq(elig.drop_last(), x) + if elig.last() == x {
            1int
        } else {
            0int
        }
    }
}

/// How many entries of `elig` occur in `t`.
pub open spec fn count_mem(elig: Seq<u64>, t: Seq<u64>) -> int
    decreases elig.len(),
{
    if elig.len() == 0 {
        0
    } else {
        count_mem(elig.drop_last(), t) + if t.contains(elig.last()) {
            1int
        } else {
            0int
        }
    }
}

/// How many entries of `elig` hold a retained seat.
pub open spec fn count_placed(elig: Seq<u64>, oc: Seq<u64>, sk: Seq<(u32, Seq<u64>)>) -> int
    decreases elig.len(),
{
    if elig.len() == 0 {
        0
    } else {
        count_placed(elig.drop_last(), oc, sk) + if placed_core(oc, sk, elig.last()) {
            1int
        } else {
            0int
        }
    }
}

/// In a distinct list, a value occurs once or not at all.
pub proof fn lemma_count_eq_distinct(elig: Seq<u64>, x: u64)
    requires
        distinct_seq(elig),
    ensures
        count_eq(elig, x) == if elig.contains(x) {
            1int
        } else {
            0int
        },
    decreases elig.len(),
{
    if elig.len() > 0 {
        assert(distinct_seq(elig.drop_last()));
        lemma_count_eq_distinct(elig.drop_last(), x);
        assert(elig.contains(x) <==> (elig.drop_last().contains(x) || elig.last() == x));
        if elig.last() == x && elig.drop_last().contains(x) {
            let q = choose|q: int| 0 <= q < elig.len() - 1 && elig.drop_last()[q] == x;
            assert(elig[q] == elig[elig.len() - 1]);
        }
    }
}

/// Counting membership in `t` splits into counting `t` without its last
/// member plus counting that member.
pub proof fn lemma_count_mem_peel(elig: Seq<u64>, t: Seq<u64>)
    requires
        t.len() > 0,
        distinct_seq(t),
    ensures
        count_mem(elig, t) == count_mem(elig, t.drop_last()) + count_eq(elig, t.last()),
    decreases elig.len(),
{
    if elig.len() > 0 {
        lemma_count_mem_peel(elig.drop_last(), t);
        assert(t.contains(elig.last()) <==> (t.drop_last().contains(elig.last()) || t.last()
            == elig.last()));
        if t.drop_last().contains(elig.last()) && t.last() == elig.last() {
            let q = choose|q: int| 0 <= q < t.len() - 1 && t.drop_last()[q] == t.last();
            assert(t[q] == t[t.len() - 1]);
        }
    }
}

/// Each distinct eligible partition member is counted exactly once.
pub proof fn lemma_count_mem_exact(elig: Seq<u64>, t: Seq<u64>)
    requires
        distinct_seq(elig),
        distinct_seq(t),
        forall|w: u64| #[trigger] t.contains(w) ==> elig.contains(w),
    ensures
        count_mem(elig, t) == t.len(),
    decreases t.len(),
{
    if t.len() == 0 {
        lemma_count_mem_empty(elig, t);
    } else {
        assert(distinct_seq(t.drop_last()));
        assert forall|w: u64| #[trigger] t.drop_last().contains(w) implies elig.contains(w) by {
            let q = choose|q: int| 0 <= q < t.len() - 1 && t.drop_last()[q] == w;
            assert(t[q] == w);
            assert(t.contains(w));
        }
        lemma_count_mem_exact(elig, t.drop_last());
        lemma_count_mem_peel(elig, t);
        assert(t.contains(t.last()));
        lemma_count_eq_distinct(elig, t.last());
    }
}

/// Membership counting over an empty target is zero.
pub proof fn lemma_count_mem_empty(elig: Seq<u64>, t: Seq<u64>)
    requires
        t.len() == 0,
    ensures
        count_mem(elig, t) == 0,
    decreases elig.len(),
{
    if elig.len() > 0 {
        lemma_count_mem_empty(elig.drop_last(), t);
    }
}

/// Counting seated workers splits into the last partition and the rest.
pub proof fn lemma_count_placed_peel(elig: Seq<u64>, oc: Seq<u64>, sk: Seq<(u32, Seq<u64>)>)
    requires
        sk.len() > 0,
        forall|w: u64|
            #[trigger] sk.last().1.contains(w) ==> !placed_core(oc, sk.drop_last(), w),
    ensures
        count_placed(elig, oc, sk) == count_placed(elig, oc, sk.drop_last()) + count_mem(
            elig,
            sk.last().1,
        ),
    decreases elig.len(),
{
    if elig.len() > 0 {
        lemma_count_placed_peel(elig.drop_last(), oc, sk);
        let w = elig.last();
        assert(in_chain_list(sk, w) <==> (in_chain_list(sk.drop_last(), w) || sk.last().1.contains(
            w,
        ))) by {
            if in_chain_list(sk, w) {
                let m = choose|m: int| 0 <= m < sk.len() && sk[m].1.contains(w);
                if m < sk.len() - 1 {
                    assert(sk.drop_last()[m].1.contains(w));
                }
            }
            if in_chain_list(sk.drop_last(), w) {
                let m = choose|m: int|
                    0 <= m < sk.len() - 1 && sk.drop_last()[m].1.contains(w);
                assert(sk[m].1.contains(w));
            }
            if sk.last().1.contains(w) {
                assert(sk[sk.len() - 1].1.contains(w));
            }
        }
    }
}

/// Counting seated workers with no partitions counts the orchestrator core.
pub proof fn lemma_count_placed_base(elig: Seq<u64>, oc: Seq<u64>, sk: Seq<(u32, Seq<u64>)>)
    requires
        sk.len() == 0,
    ensures
        count_placed(elig, oc, sk) == count_mem(elig, oc),
    decreases elig.len(),
{
    if elig.len() > 0 {
        lemma_count_placed_base(elig.drop_last(), oc, sk);
        assert(!in_chain_list(sk, elig.last()));
    }
}

/// The seated workers number exactly the core plus the partition totals.
pub proof fn lemma_count_placed_total(elig: Seq<u64>, oc: Seq<u64>, sk: Seq<(u32, Seq<u64>)>)
    requires
        distinct_seq(elig),
        distinct_seq(oc),
        forall|w: u64| #[trigger] oc.contains(w) ==> elig.contains(w),
        forall|m: int| 0 <= m < sk.len() ==> distinct_seq((#[trigger] sk[m]).1),
        forall|m: int, w: u64|
            0 <= m < sk.len() && (#[trigger] sk[m].1.contains(w)) ==> elig.contains(w)
                && !oc.contains(w),
        forall|m1: int, m2: int, w: u64|
            0 <= m1 < sk.len() && 0 <= m2 < sk.len() && m1 != m2 && (#[trigger] sk[m1].1.contains(
                w,
            )) ==> !(#[trigger] sk[m2].1.contains(w)),
    ensures
        count_placed(elig, oc, sk) == oc.len() + members_count(sk),
    decreases sk.len(),
{
    if sk.len() == 0 {
        lemma_count_placed_base(elig, oc, sk);
        lemma_count_mem_exact(elig, oc);
    } else {
        assert(forall|m: int| 0 <= m < sk.len() - 1 ==> sk.drop_last()[m] == sk[m]);
        assert(forall|m: int|
            0 <= m < sk.drop_last().len() ==> distinct_seq((#[trigger] sk.drop_last()[m]).1));
        assert forall|m: int, w: u64|
            0 <= m < sk.drop_last().len() && (#[trigger] sk.drop_last()[m].1.contains(w))
            implies elig.contains(w) && !oc.contains(w) by {
            assert(sk[m].1.contains(w));
        }
        assert forall|m1: int, m2: int, w: u64|
            0 <= m1 < sk.drop_last().len() && 0 <= m2 < sk.drop_last().len() && m1 != m2 && (
            #[trigger] sk.drop_last()[m1].1.contains(w)) implies !(
        #[trigger] sk.drop_last()[m2].1.contains(w)) by {
            assert(sk[m1].1.contains(w));
            assert(!sk[m2].1.contains(w));
        }
        lemma_count_placed_total(elig, oc, sk.drop_last());
        assert forall|w: u64| #[trigger] sk.last().1.contains(w) implies !placed_core(
            oc,
            sk.drop_last(),
            w,
        ) by {
            assert(sk[sk.len() - 1].1.contains(w));
            assert(!oc.contains(w));
            if in_chain_list(sk.drop_last(), w) {
                let m = choose|m: int|
                    0 <= m < sk.len() - 1 && sk.drop_last()[m].1.contains(w);
                assert(sk[m].1.contains(w));
            }
        }
        lemma_count_placed_peel(elig, oc, sk);
        assert forall|w: u64| #[trigger] sk.last().1.contains(w) implies elig.contains(w) by {
            assert(sk[sk.len() - 1].1.contains(w));
        }
        lemma_count_mem_exact(elig, sk.last().1);
    }
}

/// Every eligible worker is seated, a newcomer, or displaced: the three
/// groups partition the eligibility list.
pub proof fn lemma_pools_partition(
    elig: Seq<u64>,
    prev: AssignmentView,
    oc: Seq<u64>,
    sk: Seq<(u32, Seq<u64>)>,
)
    requires
        forall|w: u64| placed_core(oc, sk, w) ==> in_assignment(prev, w),
    ensures
        elig.len() == count_placed(elig, oc, sk) + new_pool(elig, prev).len() + displaced_pool(
            elig,
            prev,
            oc,
            sk,
        ).len(),
    decreases elig.len(),
{
    if elig.len() > 0 {
        lemma_pools_partition(elig.drop_last(), prev, oc, sk);
    }
}


/// How many of the first `i` requested partitions are admitted: all
/// previously populated ones but the `r_total - kp` lowest-ranked, plus
/// fresh ones while slots remain.
pub proof fn lemma_skeleton_len(
    ids: Seq<u32>,
    prev: AssignmentView,
    elig: Seq<u64>,
    s: int,
    kp: int,
    i: int,
)
    requires
        0 <= kp,
        0 <= i <= ids.len(),
    ensures
        skeleton_prefix(ids, prev, elig, s, kp, i).len() == ({
            let r_total = ret_count(ids, prev);
            let rb = ret_count(ids.take(i), prev);
            let q = if r_total - kp >= 0 {
                r_total - kp
            } else {
                0
            };
            let fbudget = if kp - r_total >= 0 {
                kp - r_total
            } else {
                0
            };
            let ra = if rb <= q {
                0
            } else {
                rb - q
            };
            let fa = if i - rb <= fbudget {
                i - rb
            } else {
                fbudget
            };
            ra + fa
        }),
    decreases i,
{
    crate::scheduler::lemma_ret_count_bounds(ids, prev, i);
    if i > 0 {
        lemma_skeleton_len(ids, prev, elig, s, kp, i - 1);
        crate::scheduler::lemma_ret_count_step(ids, prev, i - 1);
        crate::scheduler::lemma_ret_count_bounds(ids, prev, i - 1);
    } else {
        assert(ids.take(0).len() == 0);
        assert(ret_count(ids.take(0), prev) == 0);
    }
}

/// A partition list whose members all hit the target sums to length times
/// target.
pub proof fn lemma_members_count_exact(cs: Seq<(u32, Seq<u64>)>, s: int)
    requires
        forall|m: int| 0 <= m < cs.len() ==> (#[trigger] cs[m]).1.len() == s,
    ensures
        members_count(cs) == cs.len() * s,
    decreases cs.len(),
{
    if cs.len() > 0 {
        assert(forall|m: int|
            0 <= m < cs.len() - 1 ==> (#[trigger] cs.drop_last()[m]).1.len() == s);
        lemma_members_count_exact(cs.drop_last(), s);
        assert(cs.last().1.len() == s);
        assert(cs.len() * s == (cs.len() - 1) * s + s) by (nonlinear_arith);
    }
}

/// Capacity invariant: every admitted container partition ends with exactly
/// its target headcount; the number of admitted partitions is what the
/// worker supply sustains; and the orchestrator partition holds everything
/// left over, capped at its maximum.  Whenever any container partition is
/// admitted, the supply covers the orchestrator minimum as well.
#[verifier::rlimit(100)]
#[verifier::spinoff_prover]
pub proof fn lemma_assign_capacity(
    elig: Seq<u64>,
    ids: Seq<u32>,
    min_o: int,
    max_o: int,
    s: int,
    prev: AssignmentView,
)
    requires
        distinct_seq(elig),
        sorted_strict(ids),
        0 <= min_o <= max_o,
        0 <= s,
        wf(prev),
    ensures
        ({
            let n = elig.len() as int;
            let k = ids.len() as int;
            let kp = admitted_count(n, k, min_o, s);
            let kk = if kp <= k {
                kp
            } else {
                k
            };
            let out = spec_assign(elig, ids, min_o, max_o, s, prev);
            &&& out.container_chains.len() == kk
            &&& forall|m: int|
                0 <= m < out.container_chains.len() ==> (#[trigger] out.container_chains[m]).1.len()
                    == s
            &&& out.orchestrator_chain.len() == (if n - kk * s >= max_o {
                max_o
            } else {
                n - kk * s
            })
            &&& (s > 0 && kp > 0 ==> n >= min_o + kp * s)
        }),
{
    let n = elig.len() as int;
    let k = ids.len() as int;
    let kp = admitted_count(n, k, min_o, s);
    let kk = if kp <= k {
        kp
    } else {
        k
    };
    let oc = orch_core(prev, elig, min_o);
    let sk = skeleton(ids, prev, elig, s, kp);
    let newp = new_pool(elig, prev);
    let disp = displaced_pool(elig, prev, oc, sk);
    let need_min = if oc.len() >= min_o {
        0
    } else {
        min_o - oc.len()
    };
    let tn = take_n(need_min, newp.len() as int);
    let td = take_n(need_min - tn, disp.len() as int);
    let orch1 = oc + newp.take(tn) + disp.take(td);
    let fa = fill_fwd(sk, s, newp, tn, sk.len() as int);
    let fb = fill_bwd(fa.0, s, disp, td, 0);
    let need_max = if orch1.len() >= max_o {
        0
    } else {
        max_o - orch1.len()
    };
    let td2 = take_n(need_max, disp.len() - fb.1);
    let tn2 = take_n(need_max - td2, newp.len() - fa.1);
    let out = spec_assign(elig, ids, min_o, max_o, s, prev);

    // The nonnegative admitted count, and the supply it certifies.
    assert(0 <= kp && (s > 0 && kp > 0 ==> n >= min_o + kp * s) && kp * s <= (if n >= min_o {
        n - min_o
    } else {
        0
    })) by {
        if s != 0 {
            let avail: int = if n >= min_o {
                n - min_o
            } else {
                0
            };
            vstd::arithmetic::div_mod::lemma_div_pos_is_pos(avail, s);
            vstd::arithmetic::div_mod::lemma_fundamental_div_mod(avail, s);
            vstd::arithmetic::div_mod::lemma_mod_bound(avail, s);
            let cap = avail / s;
            assert(cap * s == s * cap) by (nonlinear_arith);
            assert(cap * s <= avail);
            assert(kp <= cap);
            assert(kp * s <= cap * s) by (nonlinear_arith)
                requires
                    kp <= cap,
                    s >= 0,
            ;
            if kp > 0 {
                assert(kp * s >= s > 0) by (nonlinear_arith)
                    requires
                        kp > 0,
                        s > 0,
                ;
                assert(avail > 0);
            }
        } else {
            assert(kp * s == 0) by (nonlinear_arith)
                requires
                    s == 0,
            ;
        }
    }

    // The number of admitted partitions.
    assert(sk.len() == kk) by {
        lemma_skeleton_len(ids, prev, elig, s, kp, k);
        assert(ids.take(k) =~= ids);
        crate::scheduler::lemma_ret_count_nonneg(ids, prev);
    }

    // Facts feeding the counting argument.
    lemma_orch_core_facts(prev, elig, min_o);
    lemma_skeleton_init(ids, prev, elig, s, kp);
    lemma_clip_facts(kept(prev.orchestrator_chain, elig), min_o);
    assert(oc.len() <= min_o);
    assert forall|m: int, w: u64|
        0 <= m < sk.len() && (#[trigger] sk[m].1.contains(w)) implies elig.contains(w)
        && !oc.contains(w) by {
        lemma_retained_facts(prev, elig, s, sk[m].0);
        if oc.contains(w) {
            assert(prev.orchestrator_chain.contains(w));
            let j = crate::assignment::chain_index_of(prev, sk[m].0);
            assert(prev.container_chains[j].1.contains(w));
        }
    }
    lemma_count_placed_total(elig, oc, sk);
    assert forall|w: u64| placed_core(oc, sk, w) implies in_assignment(prev, w) by {
        if oc.contains(w) {
        } else {
            let m = choose|m: int| 0 <= m < sk.len() && sk[m].1.contains(w);
        }
    }
    lemma_pools_partition(elig, prev, oc, sk);
    let msk = members_count(sk);
    assert(n == oc.len() + msk + newp.len() + disp.len());

    // Each partition starts at or below its target and never overflows it.
    assert forall|m: int| 0 <= m < sk.len() implies (#[trigger] sk[m]).1.len() <= s by {
        lemma_skeleton_shape(ids, prev, elig, s, kp, ids.len() as int);
        assert(sk[m].1 == retained_members(prev, elig, s, sk[m].0));
        if has_chain(prev, sk[m].0) {
            lemma_clip_facts(kept(chain_members(prev, sk[m].0), elig), s);
        }
    }
    assert(0 <= tn <= newp.len() && 0 <= td <= disp.len());
    crate::scheduler::lemma_fill_fwd_frame(sk, s, newp, tn, sk.len() as int);
    crate::scheduler::lemma_fill_bwd_frame(fa.0, s, disp, td, 0);
    lemma_fill_fwd_full(sk, s, newp, tn, sk.len() as int);
    lemma_fill_bwd_full(fa.0, s, disp, td, 0);
    lemma_fill_fwd_count(sk, s, newp, tn, sk.len() as int);
    lemma_fill_bwd_count(fa.0, s, disp, td, 0);

    // Every admitted partition is exactly full.
    assert forall|m: int| 0 <= m < fb.0.len() implies (#[trigger] fb.0[m]).1.len() == s by {
        assert(fb.0[m].1.len() <= s);
        if fb.0[m].1.len() < s {
            // Both pools were spent, yet demand remained: impossible.
            assert(fb.1 == disp.len());
            assert(fa.0[m].1.len() <= fb.0[m].1.len());
            assert(fa.1 == newp.len());
            assert(td2 == 0 && tn2 == 0);
            assert(orch1.len() == oc.len() + tn + td);
            assert(tn + td <= need_min);
            assert(orch1.len() <= min_o);
            lemma_members_count_bound(fb.0, s);
            assert(members_count(fb.0) < fb.0.len() * s);
            assert(members_count(fb.0) == msk + (fa.1 - tn) + (fb.1 - td));
            assert(kk * s <= kp * s) by (nonlinear_arith)
                requires
                    kk <= kp,
                    s >= 0,
            ;
            assert(fb.0.len() * s == kk * s);
            assert(kp > 0) by {
                if kp == 0 {
                    assert(fb.0.len() == 0);
                }
            }
            assert(n == orch1.len() + members_count(fb.0) + (newp.len() - fa.1) + (disp.len()
                - fb.1));
            assert(n < min_o + kp * s);
            assert(false);
        }
    }
    lemma_members_count_exact(fb.0, s);
    assert(members_count(fb.0) == kk * s);

    // The orchestrator holds the rest, capped at the maximum.
    let rem_pool = (newp.len() - fa.1) + (disp.len() - fb.1);
    assert(members_count(fb.0) == msk + (fa.1 - tn) + (fb.1 - td));
    assert(rem_pool == n - kk * s - (oc.len() + tn + td));
    assert(orch1.len() == oc.len() + tn + td);
    assert(tn + td <= need_min);
    assert(orch1.len() <= min_o);
    assert(td2 + tn2 == (if need_max <= rem_pool {
        need_max
    } else {
        rem_pool
    }));
    assert(out.orchestrator_chain.len() == orch1.len() + td2 + tn2);
    if need_max <= rem_pool {
        assert(out.orchestrator_chain.len() == max_o);
        assert(n - kk * s >= max_o);
    } else {
        assert(out.orchestrator_chain.len() == n - kk * s);
        assert(n - kk * s < max_o);
    }
}


/// Keeping eligible members of an all-eligible list changes nothing.
pub proof fn lemma_kept_identity(s: Seq<u64>, elig: Seq<u64>)
    requires
        forall|w: u64| #[trigger] s.contains(w) ==> elig.contains(w),
    ensures
        kept(s, elig) == s,
    decreases s.len(),
{
    if s.len() > 0 {
        assert forall|w: u64| #[trigger] s.drop_last().contains(w) implies elig.contains(w) by {
            let q = choose|q: int| 0 <= q < s.len() - 1 && s.drop_last()[q] == w;
            assert(s[q] == w);
            assert(s.contains(w));
        }
        lemma_kept_identity(s.drop_last(), elig);
        assert(s.contains(s.last()));
        assert(kept(s, elig) =~= s);
    }
}

/// Every member of the new assignment was an eligible worker.
pub proof fn lemma_assign_members(
    elig: Seq<u64>,
    ids: Seq<u32>,
    min_o: int,
    max_o: int,
    s: int,
    prev: AssignmentView,
)
    requires
        distinct_seq(elig),
        sorted_strict(ids),
        0 <= min_o <= max_o,
        0 <= s,
        wf(prev),
    ensures
        ({
            let out = spec_assign(elig, ids, min_o, max_o, s, prev);
            &&& forall|w: u64| #[trigger] out.orchestrator_chain.contains(w) ==> elig.contains(w)
            &&& forall|m: int, w: u64|
                0 <= m < out.container_chains.len() && (#[trigger] out.container_chains[m].1.contains(
                    w,
                )) ==> elig.contains(w)
        }),
{
    let n = elig.len() as int;
    let kp = admitted_count(n, ids.len() as int, min_o, s);
    let oc = orch_core(prev, elig, min_o);
    let sk = skeleton(ids, prev, elig, s, kp);
    let newp = new_pool(elig, prev);
    let disp = displaced_pool(elig, prev, oc, sk);
    let need_min = if oc.len() >= min_o {
        0
    } else {
        min_o - oc.len()
    };
    let tn = take_n(need_min, newp.len() as int);
    let td = take_n(need_min - tn, disp.len() as int);
    let fa = fill_fwd(sk, s, newp, tn, sk.len() as int);
    let fb = fill_bwd(fa.0, s, disp, td, 0);
    let out = spec_assign(elig, ids, min_o, max_o, s, prev);
    lemma_orch_core_facts(prev, elig, min_o);
    lemma_skeleton_init(ids, prev, elig, s, kp);
    lemma_pools_distinct(elig, prev, oc, sk);
    assert forall|w: u64| #[trigger] newp.contains(w) implies elig.contains(w) by {
        lemma_new_pool_contains(elig, prev, w);
    }
    assert forall|w: u64| #[trigger] disp.contains(w) implies elig.contains(w) by {
        lemma_displaced_contains(elig, prev, oc, sk, w);
    }
    assert(0 <= tn <= newp.len() && 0 <= td <= disp.len());
    crate::scheduler::lemma_fill_fwd_frame(sk, s, newp, tn, sk.len() as int);
    crate::scheduler::lemma_fill_bwd_frame(fa.0, s, disp, td, 0);
    assert(chains_fresh(sk, newp, tn)) by {
        assert forall|m: int, x: int| 0 <= m < sk.len() && tn <= x < newp.len()
            implies !(#[trigger] sk[m].1.contains(#[trigger] newp[x])) by {
            if sk[m].1.contains(newp[x]) {
                lemma_new_pool_contains(elig, prev, newp[x]);
                assert(in_assignment(prev, newp[x]));
                assert(newp.contains(newp[x]));
            }
        }
    }
    lemma_fill_fwd_wf(sk, s, newp, tn, sk.len() as int);
    assert(chains_fresh(fa.0, disp, td)) by {
        assert forall|m: int, x: int| 0 <= m < fa.0.len() && td <= x < disp.len()
            implies !(#[trigger] fa.0[m].1.contains(#[trigger] disp[x])) by {
            if fa.0[m].1.contains(disp[x]) {
                assert(sk[m].1.contains(disp[x]) || newp.subrange(tn, fa.1).contains(disp[x]));
                lemma_displaced_contains(elig, prev, oc, sk, disp[x]);
                if sk[m].1.contains(disp[x]) {
                    assert(placed_core(oc, sk, disp[x]));
                } else {
                    assert(newp.contains(disp[x]));
                    lemma_new_pool_contains(elig, prev, disp[x]);
                }
            }
        }
    }
    lemma_fill_bwd_wf(fa.0, s, disp, td, 0);
    assert forall|m: int, w: u64|
        0 <= m < out.container_chains.len() && (#[trigger] out.container_chains[m].1.contains(w))
        implies elig.contains(w) by {
        assert(fb.0[m].1.contains(w));
        assert(fa.0[m].1.contains(w) || disp.subrange(td, fb.1).contains(w));
        if fa.0[m].1.contains(w) {
            assert(sk[m].1.contains(w) || newp.subrange(tn, fa.1).contains(w));
            if !sk[m].1.contains(w) {
                assert(newp.contains(w));
            }
        } else {
            assert(disp.contains(w));
        }
    }
    assert forall|w: u64| #[trigger] out.orchestrator_chain.contains(w)
        implies elig.contains(w) by {
        let orch1 = oc + newp.take(tn) + disp.take(td);
        let need_max = if orch1.len() >= max_o {
            0
        } else {
            max_o - orch1.len()
        };
        let td2 = take_n(need_max, disp.len() - fb.1);
        let tn2 = take_n(need_max - td2, newp.len() - fa.1);
        let d2 = disp.subrange(fb.1, fb.1 + td2);
        let n2 = newp.subrange(fa.1, fa.1 + tn2);
        assert(out.orchestrator_chain == orch1 + d2 + n2);
        let q = choose|q: int|
            0 <= q < out.orchestrator_chain.len() && out.orchestrator_chain[q] == w;
        if q < oc.len() {
            assert(oc.contains(w));
        } else if q < oc.len() + tn {
            assert(w == newp.take(tn)[q - oc.len()]);
            assert(newp.contains(w));
        } else if q < orch1.len() {
            assert(w == disp.take(td)[q - oc.len() - tn]);
            assert(disp.contains(w));
        } else if q < orch1.len() + td2 {
            assert(w == d2[q - orch1.len()]);
            assert(disp.contains(w));
        } else {
            assert(w == n2[q - orch1.len() - td2]);
            assert(newp.contains(w));
        }
    }
}

/// Filling already-full partitions changes nothing.
pub proof fn lemma_fill_fwd_noop(cs: Seq<(u32, Seq<u64>)>, s: int, pool: Seq<u64>, idx0: int, i: int)
    requires
        0 <= idx0 <= pool.len(),
        0 <= i <= cs.len(),
        forall|m: int| 0 <= m < cs.len() ==> (#[trigger] cs[m]).1.len() >= s,
    ensures
        fill_fwd(cs, s, pool, idx0, i).0 == cs,
        fill_fwd(cs, s, pool, idx0, i).1 == idx0,
    decreases i,
{
    if i > 0 {
        lemma_fill_fwd_noop(cs, s, pool, idx0, i - 1);
        assert(cs[i - 1].1 + pool.subrange(idx0, idx0) =~= cs[i - 1].1);
        assert(cs.update(i - 1, (cs[i - 1].0, cs[i - 1].1)) =~~= cs);
    }
}

/// Filling already-full partitions changes nothing.
pub proof fn lemma_fill_bwd_noop(cs: Seq<(u32, Seq<u64>)>, s: int, pool: Seq<u64>, idx0: int, j: int)
    requires
        0 <= idx0 <= pool.len(),
        0 <= j <= cs.len(),
        forall|m: int| 0 <= m < cs.len() ==> (#[trigger] cs[m]).1.len() >= s,
    ensures
        fill_bwd(cs, s, pool, idx0, j).0 == cs,
        fill_bwd(cs, s, pool, idx0, j).1 == idx0,
    decreases cs.len() - j,
{
    if j < cs.len() {
        lemma_fill_bwd_noop(cs, s, pool, idx0, j + 1);
        assert(cs[j].1 + pool.subrange(idx0, idx0) =~= cs[j].1);
        assert(cs.update(j, (cs[j].0, cs[j].1)) =~~= cs);
    }
}

/// A partition id is listed exactly when the assignment has that partition.
pub proof fn lemma_has_chain_ids(a: AssignmentView, v: u32)
    ensures
        has_chain(a, v) <==> chain_ids(a.container_chains).contains(v),
{
    if has_chain(a, v) {
        let j = choose|j: int|
            0 <= j < a.container_chains.len() && a.container_chains[j].0 == v;
        assert(chain_ids(a.container_chains)[j] == v);
    }
    if chain_ids(a.container_chains).contains(v) {
        let j = choose|j: int|
            0 <= j < chain_ids(a.container_chains).len() && chain_ids(a.container_chains)[j] == v;
        assert(a.container_chains[j].0 == v);
    }
}

/// Counting populated partitions counts the listed ids: each listed id is
/// met exactly once while walking the strictly ascending request list.
pub proof fn lemma_ret_count_exact(ids: Seq<u32>, a: AssignmentView)
    requires
        sorted_strict(ids),
        sorted_strict(chain_ids(a.container_chains)),
        forall|v: u32|
            #[trigger] chain_ids(a.container_chains).contains(v) ==> ids.contains(v),
    ensures
        ret_count(ids, a) == a.container_chains.len(),
{
    let cids = chain_ids(a.container_chains);
    lemma_ret_count_as_count(ids, a, cids);
    lemma_count_mem32_exact(ids, cids);
}

/// How many entries of `ids` equal `x`.
pub open spec fn count_eq32(ids: Seq<u32>, x: u32) -> int
    decreases ids.len(),
{
    if ids.len() == 0 {
        0
    } else {
        count_eq32(ids.drop_last(), x) + if ids.last() == x {
            1int
        } else {
            0int
        }
    }
}

/// How many entries of `ids` occur in `t`.
pub open spec fn count_mem32(ids: Seq<u32>, t: Seq<u32>) -> int
    decreases ids.len(),
{
    if ids.len() == 0 {
        0
    } else {
        count_mem32(ids.drop_last(), t) + if t.contains(ids.last()) {
            1int
        } else {
            0int
        }
    }
}

/// `ret_count` is membership counting over the listed ids.
pub proof fn lemma_ret_count_as_count(ids: Seq<u32>, a: AssignmentView, cids: Seq<u32>)
    requires
        cids == chain_ids(a.container_chains),
    ensures
        ret_count(ids, a) == count_mem32(ids, cids),
    decreases ids.len(),
{
    if ids.len() > 0 {
        lemma_ret_count_as_count(ids.drop_last(), a, cids);
        lemma_has_chain_ids(a, ids.last());
    }
}

/// In a distinct list, a value occurs once or not at all.
pub proof fn lemma_count_eq32_distinct(ids: Seq<u32>, x: u32)
    requires
        distinct_seq(ids),
    ensures
        count_eq32(ids, x) == if ids.contains(x) {
            1int
        } else {
            0int
        },
    decreases ids.len(),
{
    if ids.len() > 0 {
        assert(distinct_seq(ids.drop_last()));
        lemma_count_eq32_distinct(ids.drop_last(), x);
        if ids.last() == x && ids.drop_last().contains(x) {
            let q = choose|q: int| 0 <= q < ids.len() - 1 && ids.drop_last()[q] == x;
            assert(ids[q] == ids[ids.len() - 1]);
        }
    }
}

/// Membership counting splits off the last target member.
pub proof fn lemma_count_mem32_peel(ids: Seq<u32>, t: Seq<u32>)
    requires
        t.len() > 0,
        distinct_seq(t),
    ensures
        count_mem32(ids, t) == count_mem32(ids, t.drop_last()) + count_eq32(ids, t.last()),
    decreases ids.len(),
{
    if ids.len() > 0 {
        lemma_count_mem32_peel(ids.drop_last(), t);
        if t.drop_last().contains(ids.last()) && t.last() == ids.last() {
            let q = choose|q: int| 0 <= q < t.len() - 1 && t.drop_last()[q] == t.last();
            assert(t[q] == t[t.len() - 1]);
        }
    }
}

/// Each distinct listed id is counted exactly once.
pub proof fn lemma_count_mem32_exact(ids: Seq<u32>, t: Seq<u32>)
    requires
        distinct_seq(ids),
        distinct_seq(t),
        forall|v: u32| #[trigger] t.contains(v) ==> ids.contains(v),
    ensures
        count_mem32(ids, t) == t.len(),
    decreases t.len(),
{
    if t.len() == 0 {
        lemma_count_mem32_empty(ids, t);
    } else {
        assert(distinct_seq(t.drop_last()));
        assert forall|v: u32| #[trigger] t.drop_last().contains(v) implies ids.contains(v) by {
            let q = choose|q: int| 0 <= q < t.len() - 1 && t.drop_last()[q] == v;
            assert(t[q] == v);
            assert(t.contains(v));
        }
        lemma_count_mem32_exact(ids, t.drop_last());
        lemma_count_mem32_peel(ids, t);
        assert(t.contains(t.last()));
        lemma_count_eq32_distinct(ids, t.last());
    }
}

/// Membership counting over an empty target is zero.
pub proof fn lemma_count_mem32_empty(ids: Seq<u32>, t: Seq<u32>)
    requires
        t.len() == 0,
    ensures
        count_mem32(ids, t) == 0,
    decreases ids.len(),
{
    if ids.len() > 0 {
        lemma_count_mem32_empty(ids.drop_last(), t);
    }
}


/// Membership counting never exceeds the list walked.
pub proof fn lemma_count_mem32_le(ids: Seq<u32>, t: Seq<u32>)
    ensures
        count_mem32(ids, t) <= ids.len(),
        0 <= count_mem32(ids, t),
    decreases ids.len(),
{
    if ids.len() > 0 {
        lemma_count_mem32_le(ids.drop_last(), t);
    }
}

/// If every walked entry was counted, every walked entry is in the target.
pub proof fn lemma_count_mem32_all(ids: Seq<u32>, t: Seq<u32>)
    requires
        count_mem32(ids, t) == ids.len(),
    ensures
        forall|q: int| 0 <= q < ids.len() ==> t.contains(#[trigger] ids[q]),
    decreases ids.len(),
{
    if ids.len() > 0 {
        lemma_count_mem32_le(ids.drop_last(), t);
        lemma_count_mem32_all(ids.drop_last(), t);
        assert forall|q: int| 0 <= q < ids.len() implies t.contains(#[trigger] ids[q]) by {
            if q < ids.len() - 1 {
                assert(ids.drop_last()[q] == ids[q]);
            }
        }
    }
}

/// Re-running the admission over a full, well-formed output readmits its
/// partitions one for one, in order, with all their members retained.
#[verifier::rlimit(100)]
#[verifier::spinoff_prover]
pub proof fn lemma_skeleton_rebuild(
    ids: Seq<u32>,
    out: AssignmentView,
    elig: Seq<u64>,
    s: int,
    kp: int,
    i: int,
)
    requires
        sorted_strict(ids),
        wf(out),
        0 <= i <= ids.len(),
        forall|m: int|
            0 <= m < out.container_chains.len() ==> (#[trigger] out.container_chains[m]).1.len()
                == s,
        forall|m: int, w: u64|
            0 <= m < out.container_chains.len() && (#[trigger] out.container_chains[m].1.contains(
                w,
            )) ==> elig.contains(w),
        forall|v: u32|
            #[trigger] chain_ids(out.container_chains).contains(v) ==> ids.contains(v),
        out.container_chains.len() <= kp,
        ret_count(ids, out) == out.container_chains.len(),
        out.container_chains.len() < kp ==> forall|q: int|
            0 <= q < ids.len() ==> has_chain(out, #[trigger] ids[q]),
    ensures
        ret_count(ids.take(i), out) <= out.container_chains.len(),
        skeleton_prefix(ids, out, elig, s, kp, i) == out.container_chains.take(
            ret_count(ids.take(i), out),
        ),
    decreases i,
{
    let cc = out.container_chains;
    let r_total = ret_count(ids, out);
    crate::scheduler::lemma_ret_count_bounds(ids, out, i);
    if i == 0 {
        assert(ids.take(0).len() == 0);
        assert(cc.take(0) =~= skeleton_prefix(ids, out, elig, s, kp, 0));
    } else {
        lemma_skeleton_rebuild(ids, out, elig, s, kp, i - 1);
        crate::scheduler::lemma_ret_count_step(ids, out, i - 1);
        crate::scheduler::lemma_ret_count_bounds(ids, out, i - 1);
        let rb = ret_count(ids.take(i - 1), out);
        let rest = skeleton_prefix(ids, out, elig, s, kp, i - 1);
        let cur = skeleton_prefix(ids, out, elig, s, kp, i);
        lemma_skeleton_shape(ids, out, elig, s, kp, i - 1);
        if has_chain(out, ids[i - 1]) {
            assert(ret_count(ids.take(i), out) == rb + 1);
            assert(rb + 1 <= r_total);
            assert(rb < cc.len());
            assert(is_admitted(ids, out, kp, i - 1)) by {
                assert(r_total - rb - 1 < kp);
            }
            // The next admitted id is exactly the next listed partition.
            let cids = chain_ids(cc);
            lemma_has_chain_ids(out, ids[i - 1]);
            let cstar = choose|c: int| 0 <= c < cids.len() && cids[c] == ids[i - 1];
            assert(cstar >= rb) by {
                if cstar < rb {
                    // cids[cstar] would already sit in the rebuilt prefix.
                    assert(rest[cstar] == cc.take(rb)[cstar]);
                    assert(rest[cstar].0 == cids[cstar]);
                    assert(id_admitted_in(ids, out, kp, i - 1, rest[cstar].0));
                    let q = choose|q: int|
                        0 <= q < i - 1 && ids[q] == rest[cstar].0 && is_admitted(ids, out, kp, q);
                    assert(ids[q] == ids[i - 1]);
                    assert(q < i - 1);
                }
            }
            assert(cstar <= rb) by {
                if cstar > rb {
                    assert(cids[rb] < cids[cstar]);
                    lemma_has_chain_ids(out, cids[rb]);
                    assert(cids.contains(cids[rb]));
                    assert(ids.contains(cids[rb]));
                    let q0 = choose|q0: int| 0 <= q0 < ids.len() && ids[q0] == cids[rb];
                    assert(ids[q0] < ids[i - 1]);
                    assert(q0 < i - 1);
                    assert(has_chain(out, ids[q0]));
                    assert(is_admitted(ids, out, kp, q0)) by {
                        crate::scheduler::lemma_ret_count_bounds(ids, out, q0 + 1);
                        crate::scheduler::lemma_ret_count_step(ids, out, q0);
                        crate::scheduler::lemma_ret_count_nonneg(ids.take(q0), out);
                        assert(ret_count(ids.take(q0 + 1), out) <= r_total);
                    }
                    assert(chain_ids(rest).contains(ids[q0]));
                    // But the rebuilt prefix holds only ids below cids[rb].
                    let c0 = choose|c0: int|
                        0 <= c0 < chain_ids(rest).len() && chain_ids(rest)[c0] == ids[q0];
                    assert(rest[c0].0 == ids[q0]);
                    assert(rest[c0] == cc.take(rb)[c0]);
                    assert(cids[c0] == ids[q0]);
                    assert(c0 < rb);
                    assert(cids[c0] == cids[rb]);
                }
            }
            assert(cc[rb].0 == ids[i - 1]);
            // Its members are retained wholesale.
            crate::assignment::lemma_chain_members_at(out, ids[i - 1], rb);
            assert(chain_members(out, ids[i - 1]) == cc[rb].1);
            assert(retained_members(out, elig, s, ids[i - 1]) == cc[rb].1) by {
                assert forall|w: u64| #[trigger] cc[rb].1.contains(w) implies elig.contains(
                    w,
                ) by {}
                lemma_kept_identity(cc[rb].1, elig);
                assert(cc[rb].1.len() == s);
            }
            assert(cur == rest.push((ids[i - 1], cc[rb].1)));
            assert(cur =~= cc.take(rb + 1));
        } else {
            assert(ret_count(ids.take(i), out) == rb);
            assert(!is_admitted(ids, out, kp, i - 1)) by {
                if cc.len() < kp {
                    assert(has_chain(out, ids[i - 1]));
                } else {
                    assert(r_total + (i - 1) - rb >= kp);
                }
            }
            assert(cur == rest);
        }
    }
}


/// The displaced pool is as long as the tail it collects, when displacement
/// coincides with membership in that tail.
pub proof fn lemma_disp_len_as_count(
    elig: Seq<u64>,
    out: AssignmentView,
    oc: Seq<u64>,
    sk: Seq<(u32, Seq<u64>)>,
    tail: Seq<u64>,
)
    requires
        forall|w: u64|
            (in_assignment(out, w) && !placed_core(oc, sk, w)) <==> #[trigger] tail.contains(w),
    ensures
        displaced_pool(elig, out, oc, sk).len() == count_mem(elig, tail),
    decreases elig.len(),
{
    if elig.len() > 0 {
        lemma_disp_len_as_count(elig.drop_last(), out, oc, sk, tail);
    }
}

/// Idempotence: feeding the scheduler its own output as the previous
/// assignment, with the workers and the configuration unchanged, returns
/// the very same container partitions and the very same orchestrator
/// membership (the orchestrator list may be re-ordered internally, but no
/// worker joins or leaves it).
#[verifier::rlimit(100)]
#[verifier::spinoff_prover]
pub proof fn lemma_assign_idempotent(
    elig: Seq<u64>,
    ids: Seq<u32>,
    min_o: int,
    max_o: int,
    s: int,
    prev: AssignmentView,
)
    requires
        distinct_seq(elig),
        sorted_strict(ids),
        0 <= min_o <= max_o,
        0 <= s,
        wf(prev),
    ensures
        ({
            let out = spec_assign(elig, ids, min_o, max_o, s, prev);
            let out2 = spec_assign(elig, ids, min_o, max_o, s, out);
            &&& out2.container_chains == out.container_chains
            &&& out2.orchestrator_chain.len() == out.orchestrator_chain.len()
            &&& forall|w: u64|
                #[trigger] out2.orchestrator_chain.contains(w)
                    <==> out.orchestrator_chain.contains(w)
        }),
{
    let n = elig.len() as int;
    let k = ids.len() as int;
    let kp = admitted_count(n, k, min_o, s);
    let kk = if kp <= k {
        kp
    } else {
        k
    };
    let out = spec_assign(elig, ids, min_o, max_o, s, prev);
    let out2 = spec_assign(elig, ids, min_o, max_o, s, out);
    lemma_assign_wf(elig, ids, min_o, max_o, s, prev);
    lemma_assign_capacity(elig, ids, min_o, max_o, s, prev);
    lemma_assign_members(elig, ids, min_o, max_o, s, prev);
    let cc = out.container_chains;
    let orch = out.orchestrator_chain;
    let ll = orch.len() as int;
    assert(cc.len() == kk);
    assert(ll == (if n - kk * s >= max_o {
        max_o
    } else {
        n - kk * s
    }));

    // The output's partition ids come from the request list.
    let sk1 = skeleton(ids, prev, elig, s, kp);
    lemma_skeleton_shape(ids, prev, elig, s, kp, ids.len() as int);
    lemma_fills_keep_ids(elig, ids, min_o, max_o, s, prev);
    assert forall|v: u32| #[trigger] chain_ids(cc).contains(v) implies ids.contains(v) by {
        let pp = choose|pp: int| 0 <= pp < chain_ids(cc).len() && chain_ids(cc)[pp] == v;
        assert(cc[pp].0 == v);
        assert(cc[pp].0 == sk1[pp].0);
        assert(id_admitted_in(ids, prev, kp, ids.len() as int, sk1[pp].0));
        let q = choose|q: int|
            0 <= q < ids.len() && ids[q] == sk1[pp].0 && is_admitted(ids, prev, kp, q);
        assert(ids[q] == v);
    }
    lemma_ret_count_exact(ids, out);
    assert(ret_count(ids, out) == kk);
    if cc.len() < kp {
        assert(kk == k);
        lemma_ret_count_as_count(ids, out, chain_ids(cc));
        assert(chain_ids(cc).len() == k);
        lemma_count_mem32_all(ids, chain_ids(cc));
        assert forall|q: int| 0 <= q < ids.len() implies has_chain(out, #[trigger] ids[q]) by {
            lemma_has_chain_ids(out, ids[q]);
        }
    }

    // The second admission readmits exactly the output's partitions.
    lemma_skeleton_rebuild(ids, out, elig, s, kp, ids.len() as int);
    let sk2 = skeleton(ids, out, elig, s, kp);
    assert(ids.take(k) =~= ids);
    assert(sk2 == cc.take(kk));
    assert(cc.take(kk) =~= cc);
    assert(sk2 == cc);

    // The second run's retained orchestrator core.
    let oc2 = orch_core(out, elig, min_o);
    lemma_kept_identity(orch, elig);
    assert(oc2 == clip(orch, min_o));
    lemma_clip_facts(orch, min_o);
    assert(distinct_seq(oc2));
    assert forall|w: u64| #[trigger] oc2.contains(w) implies orch.contains(w) && elig.contains(
        w,
    ) by {}

    // Count who is already seated.
    assert forall|m: int, w: u64|
        0 <= m < cc.len() && (#[trigger] cc[m].1.contains(w)) implies elig.contains(w)
        && !oc2.contains(w) by {
        if oc2.contains(w) {
            assert(orch.contains(w));
        }
    }
    lemma_count_placed_total(elig, oc2, cc);
    lemma_members_count_exact(cc, s);
    assert forall|w: u64| placed_core(oc2, cc, w) implies in_assignment(out, w) by {
        if oc2.contains(w) {
        } else {
            let m = choose|m: int| 0 <= m < cc.len() && cc[m].1.contains(w);
        }
    }
    lemma_pools_partition(elig, out, oc2, cc);
    let new2 = new_pool(elig, out);
    let disp2 = displaced_pool(elig, out, oc2, cc);
    assert(n == oc2.len() + kk * s + new2.len() + disp2.len());

    // Both fill passes find every partition already full.
    let need_min2 = if oc2.len() >= min_o {
        0
    } else {
        min_o - oc2.len()
    };
    let tn2 = take_n(need_min2, new2.len() as int);
    let td2 = take_n(need_min2 - tn2, disp2.len() as int);
    assert(0 <= tn2 <= new2.len() && 0 <= td2 <= disp2.len());
    lemma_fill_fwd_noop(cc, s, new2, tn2, cc.len() as int);
    let fa2 = fill_fwd(sk2, s, new2, tn2, sk2.len() as int);
    assert(fa2.0 == cc && fa2.1 == tn2);
    lemma_fill_bwd_noop(cc, s, disp2, td2, 0);
    let fb2 = fill_bwd(fa2.0, s, disp2, td2, 0);
    assert(fb2.0 == cc && fb2.1 == td2);
    assert(out2.container_chains == cc);

    let orch1_2 = oc2 + new2.take(tn2) + disp2.take(td2);
    let need_max2 = if orch1_2.len() >= max_o {
        0
    } else {
        max_o - orch1_2.len()
    };
    let tdm = take_n(need_max2, disp2.len() - fb2.1);
    let tnm = take_n(need_max2 - tdm, new2.len() - fa2.1);
    assert(out2.orchestrator_chain == orch1_2 + disp2.subrange(td2, td2 + tdm) + new2.subrange(
        tn2,
        tn2 + tnm,
    ));

    if ll < min_o {
        // Degraded epoch: everyone is already seated, nothing can move.
        assert(ll == n - kk * s);
        assert(oc2 =~= orch);
        assert(new2.len() == 0 && disp2.len() == 0);
        assert(tn2 == 0 && td2 == 0 && tdm == 0 && tnm == 0);
        assert(out2.orchestrator_chain =~= orch);
    } else {
        // The core keeps the first `min_o` seats; the displaced pool is a
        // re-ordering of the remaining seats; newcomers stay out.
        assert(oc2 =~= orch.take(min_o));
        assert(oc2.len() == min_o);
        assert(tn2 == 0 && td2 == 0);
        assert(orch1_2 =~= oc2);
        let tail = orch.skip(min_o);
        assert forall|w: u64| (in_assignment(out, w) && !placed_core(oc2, cc, w))
            <==> #[trigger] tail.contains(w) by {
            if tail.contains(w) {
                let q = choose|q: int| 0 <= q < ll - min_o && tail[q] == w;
                assert(orch[min_o + q] == w);
                assert(orch.contains(w));
                assert(!oc2.contains(w)) by {
                    if oc2.contains(w) {
                        let q2 = choose|q2: int| 0 <= q2 < min_o && orch.take(min_o)[q2] == w;
                        assert(orch[q2] == orch[min_o + q]);
                    }
                }
                assert(!in_chain_list(cc, w)) by {
                    if in_chain_list(cc, w) {
                        let m = choose|m: int| 0 <= m < cc.len() && cc[m].1.contains(w);
                        assert(!orch.contains(w));
                    }
                }
            }
            if in_assignment(out, w) && !placed_core(oc2, cc, w) {
                assert(!in_chain_list(cc, w)) by {
                    if in_chain_list(cc, w) {
                    }
                }
                assert(orch.contains(w)) by {
                    if !orch.contains(w) {
                        assert(crate::assignment::in_some_chain(out, w));
                        let m = choose|m: int|
                            0 <= m < out.container_chains.len()
                                && out.container_chains[m].1.contains(w);
                        assert(in_chain_list(cc, w));
                    }
                }
                let q = choose|q: int| 0 <= q < ll && orch[q] == w;
                if q < min_o {
                    assert(orch.take(min_o)[q] == w);
                    assert(oc2.contains(w));
                } else {
                    assert(tail[q - min_o] == w);
                }
            }
        }
        lemma_disp_len_as_count(elig, out, oc2, cc, tail);
        assert(tail =~= orch.subrange(min_o, ll));
        lemma_subrange_distinct(orch, min_o, ll);
        assert forall|w: u64| #[trigger] tail.contains(w) implies elig.contains(w) by {
            let q = choose|q: int| 0 <= q < ll - min_o && tail[q] == w;
            assert(orch[min_o + q] == w);
            assert(orch.contains(w));
        }
        lemma_count_mem_exact(elig, tail);
        assert(disp2.len() == ll - min_o);
        assert(new2.len() == n - kk * s - ll);
        assert(ll <= max_o);
        assert(tdm == ll - min_o);
        assert(tnm == 0) by {
            if ll < max_o {
                assert(ll == n - kk * s);
                assert(new2.len() == 0);
            }
        }
        assert(disp2.subrange(0, disp2.len() as int) =~= disp2);
        assert(out2.orchestrator_chain =~= oc2 + disp2);
        assert(out2.orchestrator_chain.len() == ll);
        assert forall|w: u64| #[trigger] out2.orchestrator_chain.contains(w)
            <==> orch.contains(w) by {
            if out2.orchestrator_chain.contains(w) {
                let q = choose|q: int|
                    0 <= q < out2.orchestrator_chain.len() && out2.orchestrator_chain[q] == w;
                if q < min_o {
                    assert(oc2[q] == w);
                    assert(oc2.contains(w));
                    assert(orch.contains(w));
                } else {
                    assert(disp2[q - min_o] == w);
                    assert(disp2.contains(w));
                    lemma_displaced_contains(elig, out, oc2, cc, w);
                    assert(tail.contains(w));
                    let q2 = choose|q2: int| 0 <= q2 < ll - min_o && tail[q2] == w;
                    assert(orch[min_o + q2] == w);
                }
            }
            if orch.contains(w) {
                let q = choose|q: int| 0 <= q < ll && orch[q] == w;
                if q < min_o {
                    assert(oc2[q] == w);
                    assert((oc2 + disp2)[q] == w);
                    assert(out2.orchestrator_chain.contains(w));
                } else {
                    assert(tail[q - min_o] == w);
                    assert(tail.contains(w));
                    lemma_displaced_contains(elig, out, oc2, cc, w);
                    assert(elig.contains(w));
                    assert(disp2.contains(w));
                    let q2 = choose|q2: int| 0 <= q2 < disp2.len() && disp2[q2] == w;
                    assert((oc2 + disp2)[min_o + q2] == w);
                    assert(out2.orchestrator_chain.contains(w));
                }
            }
        }
    }
}


/// Membership counting never exceeds the list walked.
pub proof fn lemma_count_mem_le(elig: Seq<u64>, t: Seq<u64>)
    ensures
        0 <= count_mem(elig, t) <= elig.len(),
    decreases elig.len(),
{
    if elig.len() > 0 {
        lemma_count_mem_le(elig.drop_last(), t);
    }
}

/// If every walked entry was counted, every walked entry is in the target.
pub proof fn lemma_count_mem_all(elig: Seq<u64>, t: Seq<u64>)
    requires
        count_mem(elig, t) == elig.len(),
    ensures
        forall|q: int| 0 <= q < elig.len() ==> t.contains(#[trigger] elig[q]),
    decreases elig.len(),
{
    if elig.len() > 0 {
        lemma_count_mem_le(elig.drop_last(), t);
        lemma_count_mem_all(elig.drop_last(), t);
        assert forall|q: int| 0 <= q < elig.len() implies t.contains(#[trigger] elig[q]) by {
            if q < elig.len() - 1 {
                assert(elig.drop_last()[q] == elig[q]);
            }
        }
    }
}

/// Replacement locality, full partitions: an admitted container partition
/// whose previous members all remain eligible keeps exactly its previous
/// membership — workers join or leave only partitions that lost someone.
#[verifier::rlimit(100)]
#[verifier::spinoff_prover]
pub proof fn lemma_unchanged_partition(
    elig: Seq<u64>,
    ids: Seq<u32>,
    min_o: int,
    max_o: int,
    s: int,
    prev: AssignmentView,
    q: int,
)
    requires
        distinct_seq(elig),
        sorted_strict(ids),
        0 <= min_o <= max_o,
        0 <= s,
        wf(prev),
        0 <= q < ids.len(),
        is_admitted(ids, prev, admitted_count(elig.len() as int, ids.len() as int, min_o, s), q),
        has_chain(prev, ids[q]),
        chain_members(prev, ids[q]).len() == s,
        forall|w: u64|
            #[trigger] chain_members(prev, ids[q]).contains(w) ==> elig.contains(w),
    ensures
        ({
            let out = spec_assign(elig, ids, min_o, max_o, s, prev);
            exists|p: int|
                0 <= p < out.container_chains.len() && (#[trigger] out.container_chains[p]).0
                    == ids[q] && forall|w: u64|
                    out.container_chains[p].1.contains(w) <==> chain_members(
                        prev,
                        ids[q],
                    ).contains(w)
        }),
{
    let n = elig.len() as int;
    let kp = admitted_count(n, ids.len() as int, min_o, s);
    let old_members = chain_members(prev, ids[q]);
    let out = spec_assign(elig, ids, min_o, max_o, s, prev);
    // The whole previous membership is retained.
    assert(retained_members(prev, elig, s, ids[q]) == old_members) by {
        lemma_kept_identity(old_members, elig);
    }
    lemma_assign_wf(elig, ids, min_o, max_o, s, prev);
    lemma_assign_capacity(elig, ids, min_o, max_o, s, prev);
    let j = crate::assignment::chain_index_of(prev, ids[q]);
    assert(distinct_seq(old_members)) by {
        assert(prev.container_chains[j].1 == old_members);
    }
    // Retention puts every old member into the output's partition.
    assert forall|w: u64| #[trigger] old_members.contains(w) implies exists|p: int|
        0 <= p < out.container_chains.len() && (#[trigger] out.container_chains[p]).0 == ids[q]
            && out.container_chains[p].1.contains(w) by {
        lemma_container_retention(elig, ids, min_o, max_o, s, prev, q, w);
    }
    assert(old_members.len() == s);
    if s > 0 {
        assert(old_members.contains(old_members[0]));
        let p = choose|p: int|
            0 <= p < out.container_chains.len() && (#[trigger] out.container_chains[p]).0
                == ids[q] && out.container_chains[p].1.contains(old_members[0]);
        let new_members = out.container_chains[p].1;
        assert(new_members.len() == s);
        assert(distinct_seq(new_members));
        // Every old member sits in this very partition: partition ids are
        // unique in a well-formed output.
        assert forall|w: u64| #[trigger] old_members.contains(w) implies new_members.contains(
            w,
        ) by {
            let p2 = choose|p2: int|
                0 <= p2 < out.container_chains.len() && (#[trigger] out.container_chains[p2]).0
                    == ids[q] && out.container_chains[p2].1.contains(w);
            assert(chain_ids(out.container_chains)[p] == ids[q]);
            assert(chain_ids(out.container_chains)[p2] == ids[q]);
            assert(p == p2);
        }
        // A full partition holding all s old members holds nothing else.
        lemma_count_mem_exact(new_members, old_members);
        lemma_count_mem_all(new_members, old_members);
        assert forall|w: u64| #[trigger] new_members.contains(w) implies old_members.contains(
            w,
        ) by {
            let x = choose|x: int| 0 <= x < new_members.len() && new_members[x] == w;
        }
    } else {
        // A zero-target partition is empty before and after.
        lemma_skeleton_shape(ids, prev, elig, s, kp, ids.len() as int);
        assert(chain_ids(skeleton(ids, prev, elig, s, kp)).contains(ids[q]));
        lemma_fills_keep_ids(elig, ids, min_o, max_o, s, prev);
        let sk = skeleton(ids, prev, elig, s, kp);
        let p = choose|p: int| 0 <= p < chain_ids(sk).len() && chain_ids(sk)[p] == ids[q];
        assert(out.container_chains[p].0 == sk[p].0);
        assert(sk[p].0 == ids[q]);
        assert(out.container_chains[p].1.len() == 0);
        assert forall|w: u64| #[trigger] out.container_chains[p].1.contains(w)
            implies old_members.contains(w) by {
            let x = choose|x: int|
                0 <= x < out.container_chains[p].1.len() && out.container_chains[p].1[x] == w;
        }
        assert forall|w: u64| #[trigger] old_members.contains(w)
            implies out.container_chains[p].1.contains(w) by {
            let x = choose|x: int| 0 <= x < old_members.len() && old_members[x] == w;
        }
    }
}

} // verus!
