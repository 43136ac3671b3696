//! The epoch scheduler: admission, retention, and the deterministic fill
//! passes that produce a new assignment from the previous one.

use crate::assignment::{
    chain_members, chains_view, has_chain, in_assignment, lemma_chain_members_at, wf, Assignment,
    AssignmentView,
};
use crate::assignment::{distinct_seq, sorted_strict};
use vstd::prelude::*;

verus! {

/// How many items a fill may take: the demand, clipped to what is left.
pub open spec fn take_n(need: int, avail: int) -> int {
    if need <= avail {
        need
    } else {
        avail
    }
}

/// The first `n` items of `s`, or all of `s` if it is shorter.
pub open spec fn clip(s: Seq<u64>, n: int) -> Seq<u64> {
    if s.len() <= n {
        s
    } else {
        s.take(n)
    }
}

/// The members of `s` that occur in `elig`, in the order of `s`.
pub open spec fn kept(s: Seq<u64>, elig: Seq<u64>) -> Seq<u64>
    decreases s.len(),
{
    if s.len() == 0 {
        Seq::empty()
    } else {
        let rest = kept(s.drop_last(), elig);
        if elig.contains(s.last()) {
            rest.push(s.last())
        } else {
            rest
        }
    }
}

/// One step of `kept`, for loops that build it front to back.
pub proof fn lemma_kept_step(s: Seq<u64>, elig: Seq<u64>, i: int)
    requires
        0 <= i < s.len(),
    ensures
        elig.contains(s[i]) ==> kept(s.take(i + 1), elig) == kept(s.take(i), elig).push(s[i]),
        !elig.contains(s[i]) ==> kept(s.take(i + 1), elig) == kept(s.take(i), elig),
{
    assert(s.take(i + 1).drop_last() =~= s.take(i));
    assert(s.take(i + 1).last() == s[i]);
}

/// How many container partitions the epoch can sustain: every admitted
/// partition must receive exactly `s` workers after the orchestrator
/// partition has been granted its minimum `min_o`.
pub open spec fn admitted_count(n: int, k: int, min_o: int, s: int) -> int {
    if s == 0 {
        k
    } else {
        let avail = if n >= min_o {
            n - min_o
        } else {
            0
        };
        let cap = avail / s;
        if k <= cap {
            k
        } else {
            cap
        }
    }
}

/// The number of the given ids whose partition was populated in the
/// previous epoch.
pub open spec fn ret_count(ids: Seq<u32>, prev: AssignmentView) -> int
    decreases ids.len(),
{
    if ids.len() == 0 {
        0
    } else {
        ret_count(ids.drop_last(), prev) + if has_chain(prev, ids.last()) {
            1int
        } else {
            0int
        }
    }
}

/// One step of `ret_count`, for loops that count front to back.
pub proof fn lemma_ret_count_step(ids: Seq<u32>, prev: AssignmentView, i: int)
    requires
        0 <= i < ids.len(),
    ensures
        ret_count(ids.take(i + 1), prev) == ret_count(ids.take(i), prev) + if has_chain(
            prev,
            ids[i],
        ) {
            1int
        } else {
            0int
        },
{
    assert(ids.take(i + 1).drop_last() =~= ids.take(i));
    assert(ids.take(i + 1).last() == ids[i]);
}

/// `ret_count` of a prefix never exceeds `ret_count` of the whole, and is
/// never negative.
pub proof fn lemma_ret_count_bounds(ids: Seq<u32>, prev: AssignmentView, i: int)
    requires
        0 <= i <= ids.len(),
    ensures
        0 <= ret_count(ids.take(i), prev) <= i,
        ret_count(ids.take(i), prev) <= ret_count(ids, prev),
        ret_count(ids, prev) - ret_count(ids.take(i), prev) <= ids.len() - i,
    decreases ids.len() - i,
{
    if i == ids.len() {
        assert(ids.take(i) =~= ids);
        lemma_ret_count_nonneg(ids.take(i), prev);
    } else {
        lemma_ret_count_bounds(ids, prev, i + 1);
        lemma_ret_count_step(ids, prev, i);
        lemma_ret_count_nonneg(ids.take(i), prev);
    }
}

/// `ret_count` lies between zero and the length counted.
pub proof fn lemma_ret_count_nonneg(ids: Seq<u32>, prev: AssignmentView)
    ensures
        0 <= ret_count(ids, prev) <= ids.len(),
    decreases ids.len(),
{
    if ids.len() > 0 {
        lemma_ret_count_nonneg(ids.drop_last(), prev);
    }
}

/// Whether the id at position `i` of `ids` is admitted, given `kp` slots.
/// Partitions populated in the previous epoch are ranked first, higher id
/// first; fresh partitions follow, lower id first.
pub open spec fn is_admitted(ids: Seq<u32>, prev: AssignmentView, kp: int, i: int) -> bool {
    let r_total = ret_count(ids, prev);
    let ret_before = ret_count(ids.take(i), prev);
    if has_chain(prev, ids[i]) {
        r_total - ret_before - 1 < kp
    } else {
        r_total + i - ret_before < kp
    }
}

/// The previous members of partition `id` that stay on it: still eligible,
/// clipped to the target size.
pub open spec fn retained_members(prev: AssignmentView, elig: Seq<u64>, s: int, id: u32) -> Seq<
    u64,
> {
    if has_chain(prev, id) {
        clip(kept(chain_members(prev, id), elig), s)
    } else {
        Seq::empty()
    }
}

/// The admitted partitions drawn from the first `i` requested ids, in
/// ascending id order, each holding only its retained members.
pub open spec fn skeleton_prefix(
    ids: Seq<u32>,
    prev: AssignmentView,
    elig: Seq<u64>,
    s: int,
    kp: int,
    i: int,
) -> Seq<(u32, Seq<u64>)>
    decreases i,
{
    if i <= 0 {
        Seq::empty()
    } else {
        let rest = skeleton_prefix(ids, prev, elig, s, kp, i - 1);
        if is_admitted(ids, prev, kp, i - 1) {
            rest.push((ids[i - 1], retained_members(prev, elig, s, ids[i - 1])))
        } else {
            rest
        }
    }
}

/// All admitted partitions with their retained members.
pub open spec fn skeleton(
    ids: Seq<u32>,
    prev: AssignmentView,
    elig: Seq<u64>,
    s: int,
    kp: int,
) -> Seq<(u32, Seq<u64>)> {
    skeleton_prefix(ids, prev, elig, s, kp, ids.len() as int)
}

/// Worker `w` occurs in some partition of the list `cs`.
pub open spec fn in_chain_list(cs: Seq<(u32, Seq<u64>)>, w: u64) -> bool {
    exists|j: int| 0 <= j < cs.len() && cs[j].1.contains(w)
}

/// Worker `w` already holds a slot: in the retained orchestrator core or in
/// a retained container slot.
pub open spec fn placed_core(orchc: Seq<u64>, sk: Seq<(u32, Seq<u64>)>, w: u64) -> bool {
    orchc.contains(w) || in_chain_list(sk, w)
}

/// Eligible workers that held no partition in the previous epoch, in
/// eligibility order.
pub open spec fn new_pool(elig: Seq<u64>, prev: AssignmentView) -> Seq<u64>
    decreases elig.len(),
{
    if elig.len() == 0 {
        Seq::empty()
    } else {
        let rest = new_pool(elig.drop_last(), prev);
        if !in_assignment(prev, elig.last()) {
            rest.push(elig.last())
        } else {
            rest
        }
    }
}

/// One step of `new_pool`, for loops that build it front to back.
pub proof fn lemma_new_pool_step(elig: Seq<u64>, prev: AssignmentView, i: int)
    requires
        0 <= i < elig.len(),
    ensures
        !in_assignment(prev, elig[i]) ==> new_pool(elig.take(i + 1), prev) == new_pool(
            elig.take(i),
            prev,
        ).push(elig[i]),
        in_assignment(prev, elig[i]) ==> new_pool(elig.take(i + 1), prev) == new_pool(
            elig.take(i),
            prev,
        ),
{
    assert(elig.take(i + 1).drop_last() =~= elig.take(i));
    assert(elig.take(i + 1).last() == elig[i]);
}

/// Eligible workers that held a partition in the previous epoch but lost
/// their slot (partition dropped, or capacity shrank), in eligibility order.
pub open spec fn displaced_pool(
    elig: Seq<u64>,
    prev: AssignmentView,
    orchc: Seq<u64>,
    sk: Seq<(u32, Seq<u64>)>,
) -> Seq<u64>
    decreases elig.len(),
{
    if elig.len() == 0 {
        Seq::empty()
    } else {
        let rest = displaced_pool(elig.drop_last(), prev, orchc, sk);
        if in_assignment(prev, elig.last()) && !placed_core(orchc, sk, elig.last()) {
            rest.push(elig.last())
        } else {
            rest
        }
    }
}

/// One step of `displaced_pool`, for loops that build it front to back.
pub proof fn lemma_displaced_pool_step(
    elig: Seq<u64>,
    prev: AssignmentView,
    orchc: Seq<u64>,
    sk: Seq<(u32, Seq<u64>)>,
    i: int,
)
    requires
        0 <= i < elig.len(),
    ensures
        (in_assignment(prev, elig[i]) && !placed_core(orchc, sk, elig[i])) ==> displaced_pool(
            elig.take(i + 1),
            prev,
            orchc,
            sk,
        ) == displaced_pool(elig.take(i), prev, orchc, sk).push(elig[i]),
        !(in_assignment(prev, elig[i]) && !placed_core(orchc, sk, elig[i])) ==> displaced_pool(
            elig.take(i + 1),
            prev,
            orchc,
            sk,
        ) == displaced_pool(elig.take(i), prev, orchc, sk),
{
    assert(elig.take(i + 1).drop_last() =~= elig.take(i));
    assert(elig.take(i + 1).last() == elig[i]);
}

/// The orchestrator workers that keep their seat outright: the still
/// eligible previous members, clipped to the configured minimum.
pub open spec fn orch_core(prev: AssignmentView, elig: Seq<u64>, min_o: int) -> Seq<u64> {
    clip(kept(prev.orchestrator_chain, elig), min_o)
}

/// Fill partitions `0..i` in ascending order up to `s` members each,
/// consuming `pool` from index `idx0` on; yields the filled list and the
/// next unconsumed pool index.
pub open spec fn fill_fwd(
    cs: Seq<(u32, Seq<u64>)>,
    s: int,
    pool: Seq<u64>,
    idx0: int,
    i: int,
) -> (Seq<(u32, Seq<u64>)>, int)
    decreases i,
{
    if i <= 0 {
        (cs, idx0)
    } else {
        let r = fill_fwd(cs, s, pool, idx0, i - 1);
        let cs1 = r.0;
        let idx = r.1;
        let need = if cs1[i - 1].1.len() >= s {
            0
        } else {
            s - cs1[i - 1].1.len()
        };
        let t = take_n(need, pool.len() - idx);
        (cs1.update(i - 1, (cs1[i - 1].0, cs1[i - 1].1 + pool.subrange(idx, idx + t))), idx + t)
    }
}

/// Fill partitions `j..len` in descending order up to `s` members each,
/// consuming `pool` from index `idx0` on; yields the filled list and the
/// next unconsumed pool index.
pub open spec fn fill_bwd(
    cs: Seq<(u32, Seq<u64>)>,
    s: int,
    pool: Seq<u64>,
    idx0: int,
    j: int,
) -> (Seq<(u32, Seq<u64>)>, int)
    decreases cs.len() - j,
{
    if j >= cs.len() || j < 0 {
        (cs, idx0)
    } else {
        let r = fill_bwd(cs, s, pool, idx0, j + 1);
        let cs1 = r.0;
        let idx = r.1;
        let need = if cs1[j].1.len() >= s {
            0
        } else {
            s - cs1[j].1.len()
        };
        let t = take_n(need, pool.len() - idx);
        (cs1.update(j, (cs1[j].0, cs1[j].1 + pool.subrange(idx, idx + t))), idx + t)
    }
}

/// The complete scheduling function: the new assignment determined by the
/// eligible workers, the partition configuration and the previous epoch's
/// assignment.
///
/// In order: partitions that cannot be fully staffed are dropped; surviving
/// partitions keep their eligible members (the orchestrator partition keeps
/// at most `min_o`); the orchestrator partition is topped up to `min_o`,
/// newcomers first; admitted container partitions are topped up to `s` from
/// newcomers in ascending id order, then from displaced workers in
/// descending id order; finally the orchestrator partition absorbs leftover
/// workers up to `max_o`, displaced workers first.
pub open spec fn spec_assign(
    elig: Seq<u64>,
    ids: Seq<u32>,
    min_o: int,
    max_o: int,
    s: int,
    prev: AssignmentView,
) -> AssignmentView {
    let n = elig.len() as int;
    let kp = admitted_count(n, ids.len() as int, min_o, s);
    let oc = orch_core(prev, elig, min_o);
    let sk = skeleton(ids, prev, elig, s, kp);
    let newp = new_pool(elig, prev);
    let disp = displaced_pool(elig, prev, oc, sk);
    let need_min = if oc.len() >= min_o {
        0
    } else {
        min_o - oc.len()
    };
    let tn = take_n(need_min, newp.len() as int);
    let td = take_n(need_min - tn, disp.len() as int);
    let orch1 = oc + newp.take(tn) + disp.take(td);
    let fa = fill_fwd(sk, s, newp, tn, sk.len() as int);
    let fb = fill_bwd(fa.0, s, disp, td, 0);
    let need_max = if orch1.len() >= max_o {
        0
    } else {
        max_o - orch1.len()
    };
    let td2 = take_n(need_max, disp.len() - fb.1);
    let tn2 = take_n(need_max - td2, newp.len() - fa.1);
    let orch2 = orch1 + disp.subrange(fb.1, fb.1 + td2) + newp.subrange(fa.1, fa.1 + tn2);
    AssignmentView { orchestrator_chain: orch2, container_chains: fb.0 }
}

/// `fill_fwd` keeps the list's length and ids, touches only the partitions
/// already processed, and consumes the pool monotonically.
pub proof fn lemma_fill_fwd_frame(cs: Seq<(u32, Seq<u64>)>, s: int, pool: Seq<u64>, idx0: int, i: int)
    requires
        0 <= idx0 <= pool.len(),
        0 <= i <= cs.len(),
    ensures
        fill_fwd(cs, s, pool, idx0, i).0.len() == cs.len(),
        idx0 <= fill_fwd(cs, s, pool, idx0, i).1 <= pool.len(),
        forall|m: int| i <= m < cs.len() ==> fill_fwd(cs, s, pool, idx0, i).0[m] == cs[m],
        forall|m: int| 0 <= m < cs.len() ==> (#[trigger] fill_fwd(cs, s, pool, idx0, i).0[m]).0
            == cs[m].0,
    decreases i,
{
    if i > 0 {
        lemma_fill_fwd_frame(cs, s, pool, idx0, i - 1);
    }
}

/// `fill_bwd` keeps the list's length and ids, touches only the partitions
/// already processed, and consumes the pool monotonically.
pub proof fn lemma_fill_bwd_frame(cs: Seq<(u32, Seq<u64>)>, s: int, pool: Seq<u64>, idx0: int, j: int)
    requires
        0 <= idx0 <= pool.len(),
        0 <= j <= cs.len(),
    ensures
        fill_bwd(cs, s, pool, idx0, j).0.len() == cs.len(),
        idx0 <= fill_bwd(cs, s, pool, idx0, j).1 <= pool.len(),
        forall|m: int| 0 <= m < j ==> fill_bwd(cs, s, pool, idx0, j).0[m] == cs[m],
        forall|m: int| 0 <= m < cs.len() ==> (#[trigger] fill_bwd(cs, s, pool, idx0, j).0[m]).0
            == cs[m].0,
    decreases cs.len() - j,
{
    if j < cs.len() {
        lemma_fill_bwd_frame(cs, s, pool, idx0, j + 1);
    }
}

/// Whether worker `x` occurs in `v`.
pub fn contains_u64(v: &Vec<u64>, x: u64) -> (b: bool)
    ensures
        b == v@.contains(x),
{
    let mut i: usize = 0;
    while i < v.len()
        invariant
            0 <= i <= v.len(),
            forall|m: int| 0 <= m < i ==> v@[m] != x,
        decreases v.len() - i,
    {
        if v[i] == x {
            return true;
        }
        i += 1;
    }
    false
}

/// The position of partition `id` in the previous assignment, if any.
pub fn chain_position(a: &Assignment, id: u32) -> (r: Option<usize>)
    ensures
        match r {
            Some(j) => j < a@.container_chains.len() && a@.container_chains[j as int].0 == id
                && has_chain(a@, id),
            None => !has_chain(a@, id),
        },
{
    let mut j: usize = 0;
    while j < a.container_chains.len()
        invariant
            0 <= j <= a.container_chains.len(),
            forall|m: int| 0 <= m < j ==> a@.container_chains[m].0 != id,
        decreases a.container_chains.len() - j,
    {
        if a.container_chains[j].0 == id {
            return Some(j);
        }
        j += 1;
    }
    None
}

/// Whether worker `w` held any partition in assignment `a`.
pub fn in_prev_assignment(a: &Assignment, w: u64) -> (b: bool)
    ensures
        b == in_assignment(a@, w),
{
    if contains_u64(&a.orchestrator_chain, w) {
        return true;
    }
    let mut j: usize = 0;
    while j < a.container_chains.len()
        invariant
            0 <= j <= a.container_chains.len(),
            !a@.orchestrator_chain.contains(w),
            forall|m: int| 0 <= m < j ==> !(#[trigger] a@.container_chains[m].1.contains(w)),
        decreases a.container_chains.len() - j,
    {
        if contains_u64(&a.container_chains[j].1, w) {
            proof {
                assert(a@.container_chains[j as int].1.contains(w));
            }
            return true;
        }
        j += 1;
    }
    false
}

/// Whether worker `w` holds a retained container slot in the list `cs`.
pub fn in_chain_list_exec(cs: &Vec<(u32, Vec<u64>)>, w: u64) -> (b: bool)
    ensures
        b == in_chain_list(chains_view(cs@), w),
{
    let mut j: usize = 0;
    while j < cs.len()
        invariant
            0 <= j <= cs.len(),
            forall|m: int| 0 <= m < j ==> !(#[trigger] chains_view(cs@)[m].1.contains(w)),
        decreases cs.len() - j,
    {
        if contains_u64(&cs[j].1, w) {
            proof {
                assert(chains_view(cs@)[j as int].1.contains(w));
            }
            return true;
        }
        j += 1;
    }
    false
}




/// How many workers a partition still needs to reach `target`.
pub open spec fn shortfall(len: int, target: int) -> int {
    if len >= target {
        0
    } else {
        target - len
    }
}

/// Appends workers from `pool[start..]` to `orch` until it holds `target`
/// workers or the pool runs out; returns how many were taken.
#[verifier::loop_isolation(false)]
fn fill_orch(orch: &mut Vec<u64>, target: usize, pool: &Vec<u64>, start: usize) -> (t: usize)
    requires
        start <= pool@.len(),
    ensures
        t as int == take_n(
            shortfall(old(orch)@.len() as int, target as int),
            pool@.len() - start,
        ),
        final(orch)@ == old(orch)@ + pool@.subrange(start as int, start + t),
{
    let mut t: usize = 0;
    while orch.len() < target && start + t < pool.len()
        invariant
            t as int <= take_n(
                shortfall(old(orch)@.len() as int, target as int),
                pool@.len() - start,
            ),
            start + t <= pool.len(),
            orch@ == old(orch)@ + pool@.subrange(start as int, start + t),
        decreases pool@.len() - start - t,
    {
        let w = pool[start + t];
        orch.push(w);
        t += 1;
        proof {
            assert(pool@.subrange(start as int, start + t) =~= pool@.subrange(
                start as int,
                start + t - 1,
            ).push(pool@[start + t - 1]));
            assert(orch@ =~= old(orch)@ + pool@.subrange(start as int, start + t));
        }
    }
    proof {
        assert(old(orch)@ + pool@.subrange(start as int, start as int) =~= old(orch)@);
        assert(t as int == take_n(
            shortfall(old(orch)@.len() as int, target as int),
            pool@.len() - start,
        ));
    }
    t
}

/// Tops up the partitions of `sk` in ascending order to `s_us` members
/// each, consuming `pool` from `start` on; returns how many were taken.
#[verifier::loop_isolation(false)]
fn fill_chains_fwd(
    sk: &mut Vec<(u32, Vec<u64>)>,
    s_us: usize,
    pool: &Vec<u64>,
    start: usize,
) -> (t: usize)
    requires
        start <= pool@.len(),
    ensures
        chains_view(final(sk)@) == fill_fwd(
            chains_view(old(sk)@),
            s_us as int,
            pool@,
            start as int,
            old(sk)@.len() as int,
        ).0,
        (start + t) as int == fill_fwd(
            chains_view(old(sk)@),
            s_us as int,
            pool@,
            start as int,
            old(sk)@.len() as int,
        ).1,
        start + t <= pool@.len(),
{
    let ghost gsk = chains_view(old(sk)@);
    let ghost gpool = pool@;
    let ghost gs = s_us as int;
    let mut ni: usize = start;
    let mut ci: usize = 0;
    proof {
        lemma_fill_fwd_frame(gsk, gs, gpool, start as int, 0);
    }
    while ci < sk.len()
        invariant
            0 <= ci <= sk.len(),
            sk@.len() == gsk.len(),
            chains_view(sk@) == fill_fwd(gsk, gs, gpool, start as int, ci as int).0,
            ni as int == fill_fwd(gsk, gs, gpool, start as int, ci as int).1,
            start <= ni,
            ni <= pool@.len(),
        decreases sk@.len() - ci,
    {
        let ghost cs_at = chains_view(sk@);
        let ghost idx_at = ni as int;
        proof {
            lemma_fill_fwd_frame(gsk, gs, gpool, start as int, ci as int);
        }
        while sk[ci].1.len() < s_us && ni < pool.len()
            invariant
                ci < sk@.len(),
                sk@.len() == gsk.len(),
                idx_at <= ni as int <= gpool.len(),
                chains_view(sk@) == cs_at.update(
                    ci as int,
                    (cs_at[ci as int].0, cs_at[ci as int].1 + gpool.subrange(idx_at, ni as int)),
                ),
                ni as int - idx_at <= shortfall(cs_at[ci as int].1.len() as int, gs),
                chains_view(sk@)[ci as int].1.len() == cs_at[ci as int].1.len() + (ni as int
                    - idx_at),
            decreases gpool.len() - ni,
        {
            let ghost sk_cur = sk@;
            let w = pool[ni];
            sk[ci].1.push(w);
            ni += 1;
            proof {
                let old_inner = cs_at[ci as int].1 + gpool.subrange(idx_at, ni - 1);
                assert(gpool.subrange(idx_at, ni as int) =~= gpool.subrange(idx_at, ni - 1).push(
                    gpool[ni - 1],
                ));
                assert(old_inner.push(gpool[ni - 1]) =~= cs_at[ci as int].1 + gpool.subrange(
                    idx_at,
                    ni as int,
                ));
                assert(chains_view(sk_cur)[ci as int].1 == old_inner);
                assert(sk_cur[ci as int].1@ == old_inner);
                assert(sk@[ci as int].1@ == old_inner.push(gpool[ni - 1]));
                assert(sk@[ci as int].0 == sk_cur[ci as int].0);
                assert forall|m: int| 0 <= m < gsk.len() && m != ci implies #[trigger] chains_view(
                    sk@,
                )[m] == cs_at[m] by {
                    assert(sk@[m] == sk_cur[m]);
                    assert(chains_view(sk_cur)[m] == cs_at[m]);
                }
                assert(chains_view(sk@)[ci as int].0 == cs_at[ci as int].0);
                assert(chains_view(sk@)[ci as int].1 == cs_at[ci as int].1 + gpool.subrange(
                    idx_at,
                    ni as int,
                ));
                assert(chains_view(sk@) =~~= cs_at.update(
                    ci as int,
                    (cs_at[ci as int].0, cs_at[ci as int].1 + gpool.subrange(idx_at, ni as int)),
                ));
            }
        }
        proof {
            let need = shortfall(cs_at[ci as int].1.len() as int, gs);
            let t = take_n(need, gpool.len() - idx_at);
            assert(ni as int - idx_at == t);
            assert(fill_fwd(gsk, gs, gpool, start as int, ci + 1).0 =~~= cs_at.update(
                ci as int,
                (cs_at[ci as int].0, cs_at[ci as int].1 + gpool.subrange(idx_at, idx_at + t)),
            ));
            assert(fill_fwd(gsk, gs, gpool, start as int, ci + 1).1 == idx_at + t);
        }
        ci += 1;
    }
    ni - start
}

/// Tops up the partitions of `sk` in descending order to `s_us` members
/// each, consuming `pool` from `start` on; returns how many were taken.
#[verifier::loop_isolation(false)]
fn fill_chains_bwd(
    sk: &mut Vec<(u32, Vec<u64>)>,
    s_us: usize,
    pool: &Vec<u64>,
    start: usize,
) -> (t: usize)
    requires
        start <= pool@.len(),
    ensures
        chains_view(final(sk)@) == fill_bwd(
            chains_view(old(sk)@),
            s_us as int,
            pool@,
            start as int,
            0,
        ).0,
        (start + t) as int == fill_bwd(
            chains_view(old(sk)@),
            s_us as int,
            pool@,
            start as int,
            0,
        ).1,
        start + t <= pool@.len(),
{
    let ghost gsk = chains_view(old(sk)@);
    let ghost gpool = pool@;
    let ghost gs = s_us as int;
    let mut di: usize = start;
    let mut cj: usize = sk.len();
    proof {
        lemma_fill_bwd_frame(gsk, gs, gpool, start as int, 0);
    }
    while cj > 0
        invariant
            0 <= cj <= sk@.len(),
            sk@.len() == gsk.len(),
            chains_view(sk@) == fill_bwd(gsk, gs, gpool, start as int, cj as int).0,
            di as int == fill_bwd(gsk, gs, gpool, start as int, cj as int).1,
            start <= di,
            di <= pool@.len(),
        decreases cj,
    {
        cj -= 1;
        let ghost cs_at = chains_view(sk@);
        let ghost idx_at = di as int;
        proof {
            lemma_fill_bwd_frame(gsk, gs, gpool, start as int, cj + 1);
        }
        while sk[cj].1.len() < s_us && di < pool.len()
            invariant
                cj < sk@.len(),
                sk@.len() == gsk.len(),
                idx_at <= di as int <= gpool.len(),
                chains_view(sk@) == cs_at.update(
                    cj as int,
                    (cs_at[cj as int].0, cs_at[cj as int].1 + gpool.subrange(idx_at, di as int)),
                ),
                di as int - idx_at <= shortfall(cs_at[cj as int].1.len() as int, gs),
                chains_view(sk@)[cj as int].1.len() == cs_at[cj as int].1.len() + (di as int
                    - idx_at),
            decreases gpool.len() - di,
        {
            let ghost sk_cur = sk@;
            let w = pool[di];
            sk[cj].1.push(w);
            di += 1;
            proof {
                let old_inner = cs_at[cj as int].1 + gpool.subrange(idx_at, di - 1);
                assert(gpool.subrange(idx_at, di as int) =~= gpool.subrange(idx_at, di - 1).push(
                    gpool[di - 1],
                ));
                assert(old_inner.push(gpool[di - 1]) =~= cs_at[cj as int].1 + gpool.subrange(
                    idx_at,
                    di as int,
                ));
                assert(chains_view(sk_cur)[cj as int].1 == old_inner);
                assert(sk_cur[cj as int].1@ == old_inner);
                assert(sk@[cj as int].1@ == old_inner.push(gpool[di - 1]));
                assert(sk@[cj as int].0 == sk_cur[cj as int].0);
                assert forall|m: int| 0 <= m < gsk.len() && m != cj implies #[trigger] chains_view(
                    sk@,
                )[m] == cs_at[m] by {
                    assert(sk@[m] == sk_cur[m]);
                    assert(chains_view(sk_cur)[m] == cs_at[m]);
                }
                assert(chains_view(sk@)[cj as int].0 == cs_at[cj as int].0);
                assert(chains_view(sk@)[cj as int].1 == cs_at[cj as int].1 + gpool.subrange(
                    idx_at,
                    di as int,
                ));
                assert(chains_view(sk@) =~~= cs_at.update(
                    cj as int,
                    (cs_at[cj as int].0, cs_at[cj as int].1 + gpool.subrange(idx_at, di as int)),
                ));
            }
        }
        proof {
            let need = shortfall(cs_at[cj as int].1.len() as int, gs);
            let t = take_n(need, gpool.len() - idx_at);
            assert(di as int - idx_at == t);
            assert(fill_bwd(gsk, gs, gpool, start as int, cj as int).0 =~~= cs_at.update(
                cj as int,
                (cs_at[cj as int].0, cs_at[cj as int].1 + gpool.subrange(idx_at, idx_at + t)),
            ));
            assert(fill_bwd(gsk, gs, gpool, start as int, cj as int).1 == idx_at + t);
        }
    }
    di - start
}


/// The orchestrator workers that keep their seat outright.
#[verifier::loop_isolation(false)]
fn compute_orch_core(prev: &Assignment, eligible: &Vec<u64>, min_us: usize) -> (oc: Vec<u64>)
    ensures
        oc@ == orch_core(prev@, eligible@, min_us as int),
{
    let ghost ev = eligible@;
    let ghost pv = prev@;
    let mut oc: Vec<u64> = Vec::new();
    let mut i: usize = 0;
    while i < prev.orchestrator_chain.len()
        invariant
            0 <= i <= pv.orchestrator_chain.len(),
            oc@ == kept(pv.orchestrator_chain.take(i as int), ev),
        decreases pv.orchestrator_chain.len() - i,
    {
        let w = prev.orchestrator_chain[i];
        proof {
            lemma_kept_step(pv.orchestrator_chain, ev, i as int);
        }
        if contains_u64(eligible, w) {
            oc.push(w);
        }
        i += 1;
    }
    proof {
        assert(pv.orchestrator_chain.take(pv.orchestrator_chain.len() as int)
            =~= pv.orchestrator_chain);
    }
    if oc.len() > min_us {
        oc.truncate(min_us);
        proof {
            assert(kept(pv.orchestrator_chain, ev).take(min_us as int) =~= kept(
                pv.orchestrator_chain,
                ev,
            ).subrange(0, min_us as int));
        }
    }
    oc
}

/// The admitted partitions with their retained members, ascending id order.
#[verifier::loop_isolation(false)]
fn build_skeleton(
    container_ids: &Vec<u32>,
    prev: &Assignment,
    eligible: &Vec<u64>,
    s_us: usize,
    kp: usize,
) -> (sk: Vec<(u32, Vec<u64>)>)
    requires
        wf(prev@),
    ensures
        chains_view(sk@) == skeleton(container_ids@, prev@, eligible@, s_us as int, kp as int),
{
    let ghost ev = eligible@;
    let ghost pv = prev@;
    let ghost cids = container_ids@;
    let k = container_ids.len();

    // How many of the requested partitions were populated last epoch.
    let mut r_total: usize = 0;
    let mut i: usize = 0;
    while i < k
        invariant
            0 <= i <= k,
            r_total as int == ret_count(cids.take(i as int), pv),
            r_total <= i,
        decreases k - i,
    {
        proof {
            lemma_ret_count_step(cids, pv, i as int);
        }
        if chain_position(prev, container_ids[i]).is_some() {
            r_total += 1;
        }
        i += 1;
    }
    proof {
        assert(cids.take(k as int) =~= cids);
        assert(r_total as int == ret_count(cids, pv));
    }

    let mut sk: Vec<(u32, Vec<u64>)> = Vec::new();
    let mut ret_seen: usize = 0;
    let mut i: usize = 0;
    while i < k
        invariant
            0 <= i <= k,
            ret_seen as int == ret_count(cids.take(i as int), pv),
            ret_seen <= i,
            chains_view(sk@) == skeleton_prefix(cids, pv, ev, s_us as int, kp as int, i as int),
        decreases k - i,
    {
        let id = container_ids[i];
        let pos = chain_position(prev, id);
        proof {
            lemma_ret_count_step(cids, pv, i as int);
            lemma_ret_count_bounds(cids, pv, i + 1);
        }
        let ghost sk_before = chains_view(sk@);
        match pos {
            Some(j) => {
                // A populated partition: admitted when it is among the
                // `kp` highest-ranked populated partitions.
                proof {
                    assert(ret_count(cids.take(i + 1), pv) == ret_seen + 1);
                    assert(ret_seen + 1 <= r_total);
                }
                let admitted = r_total - ret_seen - 1 < kp;
                proof {
                    assert(admitted == is_admitted(cids, pv, kp as int, i as int));
                }
                if admitted {
                    let mlen = prev.container_chains[j].1.len();
                    let mut mem: Vec<u64> = Vec::new();
                    let mut t: usize = 0;
                    while t < mlen
                        invariant
                            0 <= t <= mlen,
                            j < pv.container_chains.len(),
                            mlen == pv.container_chains[j as int].1.len(),
                            mem@ == kept(pv.container_chains[j as int].1.take(t as int), ev),
                        decreases mlen - t,
                    {
                        let w = prev.container_chains[j].1[t];
                        proof {
                            lemma_kept_step(pv.container_chains[j as int].1, ev, t as int);
                        }
                        if contains_u64(eligible, w) {
                            mem.push(w);
                        }
                        t += 1;
                    }
                    proof {
                        assert(pv.container_chains[j as int].1.take(mlen as int)
                            =~= pv.container_chains[j as int].1);
                    }
                    if mem.len() > s_us {
                        mem.truncate(s_us);
                        proof {
                            let km = kept(pv.container_chains[j as int].1, ev);
                            assert(km.take(s_us as int) =~= km.subrange(0, s_us as int));
                        }
                    }
                    proof {
                        lemma_chain_members_at(pv, id, j as int);
                        assert(mem@ == retained_members(pv, ev, s_us as int, id));
                    }
                    let ghost memv = mem@;
                    sk.push((id, mem));
                    proof {
                        assert(chains_view(sk@) =~~= sk_before.push((id, memv)));
                    }
                }
                ret_seen += 1;
            },
            None => {
                // A fresh partition: admitted when the remaining slots
                // after every populated partition reach it, lowest id
                // first.
                let fresh_seen = i - ret_seen;
                let admitted = kp > r_total && fresh_seen < kp - r_total;
                proof {
                    assert(admitted == is_admitted(cids, pv, kp as int, i as int));
                }
                if admitted {
                    let mem: Vec<u64> = Vec::new();
                    let ghost memv = mem@;
                    sk.push((id, mem));
                    proof {
                        assert(memv =~= retained_members(pv, ev, s_us as int, id));
                        assert(chains_view(sk@) =~~= sk_before.push((id, memv)));
                    }
                }
            },
        }
        i += 1;
    }
    proof {
        assert(cids.take(k as int) =~= cids);
    }
    sk
}

/// The two fill pools, in eligibility order: newcomers, and displaced
/// previous workers.
#[verifier::loop_isolation(false)]
fn build_pools(
    eligible: &Vec<u64>,
    prev: &Assignment,
    oc: &Vec<u64>,
    sk: &Vec<(u32, Vec<u64>)>,
) -> (pools: (Vec<u64>, Vec<u64>))
    ensures
        pools.0@ == new_pool(eligible@, prev@),
        pools.1@ == displaced_pool(eligible@, prev@, oc@, chains_view(sk@)),
{
    let ghost ev = eligible@;
    let ghost pv = prev@;
    let ghost gsk = chains_view(sk@);
    let mut newp: Vec<u64> = Vec::new();
    let mut disp: Vec<u64> = Vec::new();
    let mut i: usize = 0;
    while i < eligible.len()
        invariant
            0 <= i <= ev.len(),
            newp@ == new_pool(ev.take(i as int), pv),
            disp@ == displaced_pool(ev.take(i as int), pv, oc@, gsk),
        decreases ev.len() - i,
    {
        let w = eligible[i];
        proof {
            lemma_new_pool_step(ev, pv, i as int);
            lemma_displaced_pool_step(ev, pv, oc@, gsk, i as int);
        }
        if in_prev_assignment(prev, w) {
            if !contains_u64(oc, w) && !in_chain_list_exec(sk, w) {
                disp.push(w);
            }
        } else {
            newp.push(w);
        }
        i += 1;
    }
    proof {
        assert(ev.take(ev.len() as int) =~= ev);
    }
    (newp, disp)
}

/// Computes the epoch's assignment from the eligible workers (in supplied
/// order, duplicate-free), the partition configuration, and the previous
/// epoch's assignment.  The result is exactly [`spec_assign`] applied to
/// the views of the inputs, so equal inputs give equal outputs on every
/// replica.
#[verifier::loop_isolation(false)]
pub fn assign_collators(
    eligible: &Vec<u64>,
    container_ids: &Vec<u32>,
    min_orchestrator: u32,
    max_orchestrator: u32,
    per_container: u32,
    prev: &Assignment,
) -> (r: Assignment)
    requires
        distinct_seq(eligible@),
        sorted_strict(container_ids@),
        min_orchestrator <= max_orchestrator,
        wf(prev@),
    ensures
        r@ == spec_assign(
            eligible@,
            container_ids@,
            min_orchestrator as int,
            max_orchestrator as int,
            per_container as int,
            prev@,
        ),
        wf(r@),
{
    proof {
        crate::laws::lemma_assign_wf(
            eligible@,
            container_ids@,
            min_orchestrator as int,
            max_orchestrator as int,
            per_container as int,
            prev@,
        );
    }
    let ghost ev = eligible@;
    let ghost cids = container_ids@;
    let ghost pv = prev@;
    let min_us: usize = min_orchestrator as usize;
    let max_us: usize = max_orchestrator as usize;
    let s_us: usize = per_container as usize;
    let ghost gmin = min_orchestrator as int;
    let ghost gmax = max_orchestrator as int;
    let ghost gs = per_container as int;
    let n: usize = eligible.len();
    let k: usize = container_ids.len();

    let oc = compute_orch_core(prev, eligible, min_us);
    let ghost goc = oc@;

    // Number of container partitions the worker supply can sustain.
    let kp: usize = if s_us == 0 {
        k
    } else {
        let avail: usize = if n >= min_us {
            n - min_us
        } else {
            0
        };
        let cap: usize = avail / s_us;
        if k <= cap {
            k
        } else {
            cap
        }
    };
    let ghost gkp = kp as int;
    proof {
        assert(gkp == admitted_count(n as int, k as int, gmin, gs));
    }

    let mut sk = build_skeleton(container_ids, prev, eligible, s_us, kp);
    let ghost gsk = chains_view(sk@);

    let (newp, disp) = build_pools(eligible, prev, &oc, &sk);
    let ghost gnew = newp@;
    let ghost gdisp = disp@;

    // Top the orchestrator partition up to its minimum: newcomers first,
    // then displaced workers.
    let ghost gneed_min: int = if goc.len() >= gmin {
        0
    } else {
        gmin - goc.len()
    };
    let ghost gtn = take_n(gneed_min, gnew.len() as int);
    let ghost gtd = take_n(gneed_min - gtn, gdisp.len() as int);
    let mut orch = oc;
    let ni = fill_orch(&mut orch, min_us, &newp, 0);
    proof {
        assert(ni as int == gtn);
        assert(gnew.subrange(0, gtn) =~= gnew.take(gtn));
    }
    let di = fill_orch(&mut orch, min_us, &disp, 0);
    proof {
        assert(di as int == gtd);
        assert(gdisp.subrange(0, gtd) =~= gdisp.take(gtd));
    }
    let ghost gorch1 = goc + gnew.take(gtn) + gdisp.take(gtd);
    proof {
        assert(orch@ == (goc + gnew.take(gtn)) + gdisp.take(gtd));
        assert(orch@ =~= gorch1);
    }

    // Fill admitted partitions: newcomers ascending, then displaced
    // workers descending.
    let ghost gfa = fill_fwd(gsk, gs, gnew, gtn, gsk.len() as int);
    let ghost gfb = fill_bwd(gfa.0, gs, gdisp, gtd, 0);
    let ta = fill_chains_fwd(&mut sk, s_us, &newp, ni);
    proof {
        assert(chains_view(sk@) == gfa.0);
        assert((ni + ta) as int == gfa.1);
        assert(ni + ta <= newp.len());
        lemma_fill_fwd_frame(gsk, gs, gnew, gtn, gsk.len() as int);
    }
    let tb = fill_chains_bwd(&mut sk, s_us, &disp, di);
    proof {
        assert(chains_view(sk@) == gfb.0);
        assert((di + tb) as int == gfb.1);
        assert(di + tb <= disp.len());
        lemma_fill_bwd_frame(gfa.0, gs, gdisp, gtd, 0);
    }

    // Absorb leftover workers into the orchestrator partition up to its
    // maximum: displaced workers first, then newcomers.
    let ghost gneed_max: int = if gorch1.len() >= gmax {
        0
    } else {
        gmax - gorch1.len()
    };
    let ghost gtd2 = take_n(gneed_max, gdisp.len() - gfb.1);
    let ghost gtn2 = take_n(gneed_max - gtd2, gnew.len() - gfa.1);
    let td2 = fill_orch(&mut orch, max_us, &disp, di + tb);
    proof {
        assert(td2 as int == gtd2);
        assert(orch@ == (gorch1 + gdisp.subrange(gfb.1, gfb.1 + gtd2)));
    }
    let tn2 = fill_orch(&mut orch, max_us, &newp, ni + ta);
    proof {
        assert(tn2 as int == gtn2);
        assert(orch@ == (gorch1 + gdisp.subrange(gfb.1, gfb.1 + gtd2)) + gnew.subrange(
            gfa.1,
            gfa.1 + gtn2,
        ));
    }

    let r = Assignment { orchestrator_chain: orch, container_chains: sk };
    proof {
        assert(r@ =~~= spec_assign(ev, cids, gmin, gmax, gs, pv));
    }
    r
}

} // verus!
