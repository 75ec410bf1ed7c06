//! Properties of the analysis that hold for every task set.
use vstd::prelude::*;
use crate::analysis::{
    all_exact_meet_deadlines, all_meet_deadlines, block_term, blocking_map, blocking_of, ceil_ratio, exact_interference_map,
    exact_response, exact_response_exists, exact_response_map, higher_demand, interference_of,
    interference_map, interference_term, is_exact_response, lemma_ceil_ratio_mono,
    lemma_higher_demand_mono, response_step, is_least_exact_response, max_block, resources_of,
    response_map, response_of, task_uses, task_values, trace_uses, traces_uses,
};
use crate::model::{
    lookup_or_zero, prio_map, resource_map, resource_sets, resources_wf, trace_ids, traces_ids,
    IdPrio, Task, TaskResources, Trace,
};
use crate::sums::{lemma_set_sum_ge_term, lemma_set_sum_mono, lemma_set_sum_zero};

verus! {

/// Every identifier that occurs in the trace of some task has a priority,
/// no other identifier has one, and an identifier's priority is the highest
/// priority among the tasks whose traces hold it.
pub proof fn lemma_prio_map_is_max(ts: Seq<Task>, k: Seq<char>)
    ensures
        prio_map(ts).contains_key(k) <==> exists|i: int|
            0 <= i < ts.len() && #[trigger] trace_ids(ts[i].trace).contains(k),
        prio_map(ts).contains_key(k) ==> forall|i: int|
            0 <= i < ts.len() && #[trigger] trace_ids(ts[i].trace).contains(k) ==> ts[i].prio
                <= prio_map(ts)[k],
        prio_map(ts).contains_key(k) ==> exists|i: int|
            0 <= i < ts.len() && #[trigger] trace_ids(ts[i].trace).contains(k) && ts[i].prio
                == prio_map(ts)[k],
    decreases ts.len(),
{
    if ts.len() > 0 {
        let pre = ts.drop_last();
        let n = pre.len() as int;
        lemma_prio_map_is_max(pre, k);
        assert(forall|i: int| 0 <= i < n ==> pre[i] == ts[i]);
        let m = prio_map(pre);
        let last_has = trace_ids(ts[n].trace).contains(k);
        if m.contains_key(k) {
            let w = choose|i: int|
                0 <= i < pre.len() && #[trigger] trace_ids(pre[i].trace).contains(k) && pre[i].prio
                    == m[k];
            assert(trace_ids(ts[w].trace).contains(k));
            if last_has && m[k] < ts[n].prio {
                assert(prio_map(ts)[k] == ts[n].prio);
            } else {
                assert(prio_map(ts)[k] == m[k]);
            }
        } else if last_has {
            assert(prio_map(ts)[k] == ts[n].prio);
        }
        if prio_map(ts).contains_key(k) {
            assert forall|i: int|
                0 <= i < ts.len() && #[trigger] trace_ids(ts[i].trace).contains(
                    k,
                ) implies ts[i].prio <= prio_map(ts)[k] by {
                if i < n {
                    assert(trace_ids(pre[i].trace).contains(k));
                }
            }
        }
        if exists|i: int| 0 <= i < ts.len() && #[trigger] trace_ids(ts[i].trace).contains(k) {
            let i = choose|i: int| 0 <= i < ts.len() && #[trigger] trace_ids(ts[i].trace).contains(k);
            if i < n {
                assert(trace_ids(pre[i].trace).contains(k));
            }
        }
    }
}


/// A task identifier has a resource set exactly where some task with that
/// identifier has nested sections, and the set holds exactly the identifiers
/// nested in the traces of the tasks with that identifier.
pub proof fn lemma_resource_map_members(ts: Seq<Task>, k: Seq<char>, x: Seq<char>)
    ensures
        resource_map(ts).contains_key(k) <==> exists|i: int|
            0 <= i < ts.len() && (#[trigger] ts[i]).id@ == k && ts[i].trace.inner@.len() > 0,
        (resource_map(ts).contains_key(k) && resource_map(ts)[k].contains(x)) <==> exists|i: int|
            0 <= i < ts.len() && (#[trigger] ts[i]).id@ == k && traces_ids(
                ts[i].trace.inner@,
            ).contains(x),
    decreases ts.len(),
{
    if ts.len() > 0 {
        let pre = ts.drop_last();
        let n = pre.len() as int;
        lemma_resource_map_members(pre, k, x);
        assert(forall|i: int| 0 <= i < n ==> pre[i] == ts[i]);
        let t = ts[n];
        if t.trace.inner@.len() > 0 {
            lemma_traces_ids_nonempty(t.trace.inner@);
        } else {
            assert(traces_ids(t.trace.inner@) =~= Set::<Seq<char>>::empty());
        }
        if exists|i: int|
            0 <= i < ts.len() && (#[trigger] ts[i]).id@ == k && ts[i].trace.inner@.len() > 0 {
            let i = choose|i: int|
                0 <= i < ts.len() && (#[trigger] ts[i]).id@ == k && ts[i].trace.inner@.len() > 0;
            if i < n {
                assert(pre[i].id@ == k);
            }
        }
        if exists|i: int|
            0 <= i < ts.len() && (#[trigger] ts[i]).id@ == k && traces_ids(
                ts[i].trace.inner@,
            ).contains(x) {
            let i = choose|i: int|
                0 <= i < ts.len() && (#[trigger] ts[i]).id@ == k && traces_ids(
                    ts[i].trace.inner@,
                ).contains(x);
            if i < n {
                assert(pre[i].id@ == k);
            }
        }
        if resource_map(pre).contains_key(k) {
            let i = choose|i: int|
                0 <= i < pre.len() && (#[trigger] pre[i]).id@ == k && pre[i].trace.inner@.len() > 0;
            assert(ts[i].id@ == k);
        }
        if resource_map(pre).contains_key(k) && resource_map(pre)[k].contains(x) {
            let i = choose|i: int|
                0 <= i < pre.len() && (#[trigger] pre[i]).id@ == k && traces_ids(
                    pre[i].trace.inner@,
                ).contains(x);
            assert(ts[i].id@ == k);
        }
    }
}

proof fn lemma_traces_ids_nonempty(ts: Seq<Trace>)
    requires
        ts.len() > 0,
    ensures
        traces_ids(ts).contains(ts.last().id@),
{
    assert(trace_ids(ts.last()).contains(ts.last().id@));
}

/// Every resource that a task uses has a priority, at least that of some
/// task with that identifier.
pub proof fn lemma_resources_have_priorities(ts: Seq<Task>, k: Seq<char>, x: Seq<char>)
    requires
        resource_map(ts).contains_key(k),
        resource_map(ts)[k].contains(x),
    ensures
        prio_map(ts).contains_key(x),
        exists|i: int|
            0 <= i < ts.len() && (#[trigger] ts[i]).id@ == k && ts[i].prio <= prio_map(ts)[x],
{
    lemma_resource_map_members(ts, k, x);
    let i = choose|i: int|
        0 <= i < ts.len() && (#[trigger] ts[i]).id@ == k && traces_ids(ts[i].trace.inner@).contains(
            x,
        );
    assert(trace_ids(ts[i].trace).contains(x));
    lemma_prio_map_is_max(ts, x);
}


/// Each task's identifier has a value in a map built task by task, and
/// where the tasks that share an identifier agree on the value, it is the
/// value of each of them.
pub proof fn lemma_task_values_at(ts: Seq<Task>, f: spec_fn(Task) -> u32, i: int)
    requires
        0 <= i < ts.len(),
        forall|a: int, b: int|
            0 <= a < ts.len() && 0 <= b < ts.len() && (#[trigger] ts[a]).id@ == (
            #[trigger] ts[b]).id@ ==> f(ts[a]) == f(ts[b]),
    ensures
        task_values(ts, f).contains_key(ts[i].id@),
        task_values(ts, f)[ts[i].id@] == f(ts[i]),
    decreases ts.len(),
{
    let pre = ts.drop_last();
    let n = pre.len() as int;
    if i < n {
        assert(forall|a: int| 0 <= a < n ==> pre[a] == ts[a]);
        lemma_task_values_at(pre, f, i);
        assert(ts[n].id@ == ts[i].id@ ==> f(ts[n]) == f(ts[i]));
    }
}

/// The identifiers that a map built task by task has values for are exactly
/// the identifiers of the tasks.
pub proof fn lemma_task_values_dom(ts: Seq<Task>, f: spec_fn(Task) -> u32, k: Seq<char>)
    ensures
        task_values(ts, f).contains_key(k) <==> exists|i: int|
            0 <= i < ts.len() && (#[trigger] ts[i]).id@ == k,
    decreases ts.len(),
{
    if ts.len() > 0 {
        let pre = ts.drop_last();
        let n = pre.len() as int;
        lemma_task_values_dom(pre, f, k);
        assert(forall|a: int| 0 <= a < n ==> pre[a] == ts[a]);
        if exists|i: int| 0 <= i < ts.len() && (#[trigger] ts[i]).id@ == k {
            let i = choose|i: int| 0 <= i < ts.len() && (#[trigger] ts[i]).id@ == k;
            if i < n {
                assert(pre[i].id@ == k);
            }
        }
        if task_values(pre, f).contains_key(k) {
            let i = choose|i: int| 0 <= i < pre.len() && (#[trigger] pre[i]).id@ == k;
            assert(ts[i].id@ == k);
        }
    }
}

/// The response time computed for a task is the sum of its execution time,
/// blocking time and interference: `R(t) = C(t) + B(t) + I(t)`.
pub proof fn lemma_response_is_sum(
    ts: Seq<Task>,
    ct: Map<Seq<char>, u32>,
    bt: Map<Seq<char>, u32>,
    it: Map<Seq<char>, u32>,
    i: int,
)
    requires
        0 <= i < ts.len(),
        forall|j: int| 0 <= j < ts.len() ==> response_of(#[trigger] ts[j], ct, bt, it) <= u32::MAX,
    ensures
        lookup_or_zero(response_map(ts, ct, bt, it), ts[i].id@) == lookup_or_zero(ct, ts[i].id@)
            + lookup_or_zero(bt, ts[i].id@) + lookup_or_zero(it, ts[i].id@),
{
    lemma_task_values_at(ts, |t: Task| response_of(t, ct, bt, it) as u32, i);
}

/// The position of the last task of `ts` with identifier `k`, or -1.
pub open spec fn last_with_id(ts: Seq<Task>, k: Seq<char>) -> int
    decreases ts.len(),
{
    if ts.len() == 0 {
        -1
    } else if ts.last().id@ == k {
        ts.len() - 1
    } else {
        last_with_id(ts.drop_last(), k)
    }
}

/// A map built task by task gives an identifier the value of the last task
/// with that identifier.
pub proof fn lemma_task_values_last(ts: Seq<Task>, f: spec_fn(Task) -> u32, i: int)
    requires
        0 <= i < ts.len(),
    ensures
        0 <= last_with_id(ts, ts[i].id@) < ts.len(),
        ts[last_with_id(ts, ts[i].id@)].id@ == ts[i].id@,
        task_values(ts, f).contains_key(ts[i].id@),
        task_values(ts, f)[ts[i].id@] == f(ts[last_with_id(ts, ts[i].id@)]),
    decreases ts.len(),
{
    let pre = ts.drop_last();
    let n = pre.len() as int;
    if ts[n].id@ != ts[i].id@ {
        assert(pre[i] == ts[i]);
        lemma_task_values_last(pre, f, i);
        assert(pre[last_with_id(pre, ts[i].id@)] == ts[last_with_id(pre, ts[i].id@)]);
    }
}

/// In the exact analysis too, a task's response time is its execution time,
/// blocking time and interference together.
pub proof fn lemma_exact_response_is_sum(
    ts: Seq<Task>,
    ct: Map<Seq<char>, u32>,
    bt: Map<Seq<char>, u32>,
    i: int,
)
    requires
        0 <= i < ts.len(),
        forall|j: int| 0 <= j < ts.len() ==> exact_response_exists(ts, ct, bt, #[trigger] ts[j]),
    ensures
        lookup_or_zero(exact_response_map(ts, ct, bt), ts[i].id@) == lookup_or_zero(ct, ts[i].id@)
            + lookup_or_zero(bt, ts[i].id@) + lookup_or_zero(
            exact_interference_map(ts, ct, bt),
            ts[i].id@,
        ),
{
    lemma_task_values_last(ts, |t: Task| exact_response(ts, ct, bt, t) as u32, i);
    lemma_task_values_last(
        ts,
        |t: Task|
            (exact_response(ts, ct, bt, t) - lookup_or_zero(ct, t.id@) - lookup_or_zero(
                bt,
                t.id@,
            )) as u32,
        i,
    );
    let t = ts[last_with_id(ts, ts[i].id@)];
    let c = lookup_or_zero(ct, t.id@) as int;
    let b = lookup_or_zero(bt, t.id@) as int;
    assert(exact_response_exists(ts, ct, bt, t));
    let q = choose|q: int| q <= u32::MAX && #[trigger] is_exact_response(ts, ct, c, b, t.prio, q);
    lemma_least_exists(ts, ct, c, b, t.prio, q);
    let e = exact_response(ts, ct, bt, t);
    assert(is_least_exact_response(ts, ct, c, b, t.prio, e));
    assert(e <= q);
}

/// Where the recurrence has a solution, it has a least one, no larger.
proof fn lemma_least_exists(
    ts: Seq<Task>,
    ct: Map<Seq<char>, u32>,
    c: int,
    b: int,
    prio: u8,
    q: int,
)
    requires
        is_exact_response(ts, ct, c, b, prio, q),
    ensures
        exists|r: int| r <= q && is_least_exact_response(ts, ct, c, b, prio, r),
    decreases q - (c + b),
{
    if exists|p: int| #[trigger] is_exact_response(ts, ct, c, b, prio, p) && p < q {
        let p = choose|p: int| #[trigger] is_exact_response(ts, ct, c, b, prio, p) && p < q;
        lemma_least_exists(ts, ct, c, b, prio, p);
    } else {
        assert(is_least_exact_response(ts, ct, c, b, prio, q));
    }
}


/// A task whose priority no identifier of the priority map exceeds suffers
/// no interference.
pub proof fn lemma_top_priority_no_interference(
    t: Task,
    idprio: IdPrio,
    ct: Map<Seq<char>, u32>,
    at: Map<Seq<char>, u32>,
    bpt: Map<Seq<char>, u32>,
)
    requires
        idprio.wf(),
        forall|k: Seq<char>| #[trigger] idprio@.contains_key(k) ==> idprio@[k] <= t.prio,
    ensures
        interference_of(t, idprio@, ct, at, bpt) == 0,
{
    idprio.lemma_entries();
    lemma_set_sum_zero(
        idprio@.dom(),
        interference_term(idprio@, ct, at, t.prio, lookup_or_zero(bpt, t.id@)),
    );
}

/// A task of the highest priority in the task set responds in its
/// execution time plus its blocking time: `C + B` is the least solution of
/// its recurrence.
pub proof fn lemma_top_priority_exact_response(
    ts: Seq<Task>,
    ct: Map<Seq<char>, u32>,
    c: int,
    b: int,
    prio: u8,
)
    requires
        forall|j: int| 0 <= j < ts.len() ==> (#[trigger] ts[j]).prio <= prio,
    ensures
        is_least_exact_response(ts, ct, c, b, prio, c + b),
{
    lemma_no_higher_demand(ts, ct, prio, c + b);
}

proof fn lemma_no_higher_demand(ts: Seq<Task>, ct: Map<Seq<char>, u32>, prio: u8, r: int)
    requires
        forall|j: int| 0 <= j < ts.len() ==> (#[trigger] ts[j]).prio <= prio,
    ensures
        higher_demand(ts, ct, prio, r) == 0,
    decreases ts.len(),
{
    if ts.len() > 0 {
        let pre = ts.drop_last();
        assert(forall|j: int| 0 <= j < pre.len() ==> pre[j] == ts[j]);
        lemma_no_higher_demand(pre, ct, prio, r);
        assert(ts[ts.len() - 1].prio <= prio);
    }
}

proof fn lemma_trace_uses_prio(tr: Trace, p: u8)
    ensures
        forall|j: int| 0 <= j < trace_uses(tr, p).len() ==> (#[trigger] trace_uses(tr, p)[j]).2 == p,
    decreases tr,
{
    lemma_traces_uses_prio(tr.inner@, p);
    let head = seq![(tr.id@, (tr.end - tr.start) as u32, p)];
    let rest = traces_uses(tr.inner@, p);
    assert forall|j: int| 0 <= j < trace_uses(tr, p).len() implies (#[trigger] trace_uses(
        tr,
        p,
    )[j]).2 == p by {
        if j >= 1 {
            assert(trace_uses(tr, p)[j] == rest[j - 1]);
        }
    }
}

proof fn lemma_traces_uses_prio(ts: Seq<Trace>, p: u8)
    ensures
        forall|j: int| 0 <= j < traces_uses(ts, p).len() ==> (#[trigger] traces_uses(ts, p)[j]).2
            == p,
    decreases ts,
{
    if ts.len() > 0 {
        lemma_traces_uses_prio(ts.drop_last(), p);
        lemma_trace_uses_prio(ts.last(), p);
        let a = traces_uses(ts.drop_last(), p);
        let b = trace_uses(ts.last(), p);
        assert forall|j: int| 0 <= j < traces_uses(ts, p).len() implies (#[trigger] traces_uses(
            ts,
            p,
        )[j]).2 == p by {
            if j < a.len() {
                assert(traces_uses(ts, p)[j] == a[j]);
            } else {
                assert(traces_uses(ts, p)[j] == b[j - a.len()]);
            }
        }
    }
}

/// Every resource use of a task set is held at the priority of one of its tasks.
pub proof fn lemma_task_uses_prio(ts: Seq<Task>)
    ensures
        forall|j: int|
            0 <= j < task_uses(ts).len() ==> exists|i: int|
                0 <= i < ts.len() && (#[trigger] task_uses(ts)[j]).2 == (#[trigger] ts[i]).prio,
    decreases ts.len(),
{
    if ts.len() > 0 {
        let pre = ts.drop_last();
        let n = pre.len() as int;
        lemma_task_uses_prio(pre);
        lemma_traces_uses_prio(ts[n].trace.inner@, ts[n].prio);
        let u = task_uses(ts);
        let a = task_uses(pre);
        assert forall|j: int| 0 <= j < u.len() implies exists|i: int|
            0 <= i < ts.len() && (#[trigger] u[j]).2 == (#[trigger] ts[i]).prio by {
            if j < a.len() {
                let i = choose|i: int| 0 <= i < pre.len() && (#[trigger] a[j]).2 == (#[trigger] pre[i]).prio;
                assert(ts[i] == pre[i]);
            } else {
                assert(u[j] == traces_uses(ts[n].trace.inner@, ts[n].prio)[j - a.len()]);
                assert(u[j].2 == ts[n].prio);
            }
        }
    }
}

/// The longest hold of a resource by a task of lower priority: no matching
/// use is longer, and it is the length of a matching use unless it is 0.
pub proof fn lemma_max_block_is_max(uses: Seq<(Seq<char>, u32, u8)>, r: Seq<char>, prio: u8)
    ensures
        forall|j: int|
            0 <= j < uses.len() && (#[trigger] uses[j]).0 == r && uses[j].2 < prio ==> uses[j].1
                <= max_block(uses, r, prio),
        max_block(uses, r, prio) == 0 || exists|j: int|
            0 <= j < uses.len() && (#[trigger] uses[j]).0 == r && uses[j].2 < prio && uses[j].1
                == max_block(uses, r, prio),
    decreases uses.len(),
{
    if uses.len() > 0 {
        let pre = uses.drop_last();
        lemma_max_block_is_max(pre, r, prio);
        assert(forall|j: int| 0 <= j < pre.len() ==> pre[j] == uses[j]);
        if max_block(pre, r, prio) != 0 && max_block(uses, r, prio) == max_block(pre, r, prio) {
            let j = choose|j: int|
                0 <= j < pre.len() && (#[trigger] pre[j]).0 == r && pre[j].2 < prio && pre[j].1
                    == max_block(pre, r, prio);
            assert(uses[j] == pre[j]);
        }
        if max_block(uses, r, prio) != max_block(pre, r, prio) {
            assert(uses[uses.len() - 1] == uses.last());
        }
    }
}

proof fn lemma_max_block_no_lower(uses: Seq<(Seq<char>, u32, u8)>, r: Seq<char>, prio: u8)
    requires
        forall|j: int| 0 <= j < uses.len() ==> (#[trigger] uses[j]).2 >= prio,
    ensures
        max_block(uses, r, prio) == 0,
    decreases uses.len(),
{
    if uses.len() > 0 {
        let pre = uses.drop_last();
        assert(forall|j: int| 0 <= j < pre.len() ==> pre[j] == uses[j]);
        lemma_max_block_no_lower(pre, r, prio);
        assert(uses[uses.len() - 1] == uses.last());
    }
}

/// A task of the lowest priority in the task set is never blocked.
pub proof fn lemma_lowest_priority_not_blocked(ts: Seq<Task>, t: Task, tr: TaskResources)
    requires
        resources_wf(tr),
        forall|i: int| 0 <= i < ts.len() ==> t.prio <= (#[trigger] ts[i]).prio,
    ensures
        blocking_of(t, task_uses(ts), resource_sets(tr)) == 0,
{
    lemma_task_uses_prio(ts);
    let u = task_uses(ts);
    assert forall|j: int| 0 <= j < u.len() implies (#[trigger] u[j]).2 >= t.prio by {
        let i = choose|i: int| 0 <= i < ts.len() && (#[trigger] u[j]).2 == (#[trigger] ts[i]).prio;
    }
    let s = resources_of(resource_sets(tr), t.id@);
    if tr@.contains_key(t.id@) {
        tr@[t.id@].lemma_items();
    }
    assert forall|x: Seq<char>| s.contains(x) implies block_term(u, t.prio)(x) == 0 by {
        lemma_max_block_no_lower(u, x, t.prio);
    }
    lemma_set_sum_zero(s, block_term(u, t.prio));
}

/// `ceil_ratio` rounds up: for a positive divisor `a`, the quotient is the
/// least `q` with `q * a >= b`.
pub proof fn lemma_ceil_ratio_bounds(b: int, a: int)
    requires
        0 <= b,
        0 < a,
    ensures
        ceil_ratio(b, a) * a >= b,
        (ceil_ratio(b, a) - 1) * a < b,
{
    let q = ceil_ratio(b, a);
    assert(q * a >= b && (q - 1) * a < b) by (nonlinear_arith)
        requires
            q == (b + a - 1) / a,
            0 < a,
            0 <= b,
    ;
}


proof fn lemma_max_block_append_not_lower(
    a: Seq<(Seq<char>, u32, u8)>,
    b: Seq<(Seq<char>, u32, u8)>,
    r: Seq<char>,
    prio: u8,
)
    requires
        forall|j: int| 0 <= j < b.len() ==> (#[trigger] b[j]).2 >= prio,
    ensures
        max_block(a + b, r, prio) == max_block(a, r, prio),
    decreases b.len(),
{
    if b.len() == 0 {
        assert(a + b =~= a);
    } else {
        let bp = b.drop_last();
        assert(forall|j: int| 0 <= j < bp.len() ==> bp[j] == b[j]);
        lemma_max_block_append_not_lower(a, bp, r, prio);
        assert((a + b).drop_last() =~= a + bp);
        assert((a + b).last() == b[b.len() - 1]);
    }
}

/// Adding to a task set a task of priority at least that of the task whose
/// blocking time the map gives for identifier `ts[i].id` (the last task
/// with that identifier), under another identifier, leaves that blocking
/// time unchanged: sections of tasks of equal or higher priority never add
/// to it.
pub proof fn lemma_blocking_ignores_higher_task(
    ts: Seq<Task>,
    u: Task,
    i: int,
    res: Map<Seq<char>, Set<Seq<char>>>,
)
    requires
        0 <= i < ts.len(),
        u.id@ != ts[i].id@,
        ts[last_with_id(ts, ts[i].id@)].prio <= u.prio,
    ensures
        blocking_map(ts, res).contains_key(ts[i].id@),
        blocking_map(ts.push(u), res).contains_key(ts[i].id@),
        blocking_map(ts.push(u), res)[ts[i].id@] == blocking_map(ts, res)[ts[i].id@],
{
    let ts2 = ts.push(u);
    let k = ts[i].id@;
    let f1 = |x: Task| blocking_of(x, task_uses(ts), res) as u32;
    let f2 = |x: Task| blocking_of(x, task_uses(ts2), res) as u32;
    // The value in the longer set comes from the last task of `ts` with `k`.
    assert(ts2.drop_last() =~= ts);
    assert(ts2.last() == u);
    lemma_task_values_last(ts, f1, i);
    lemma_task_values_last(ts, f2, i);
    let t = ts[last_with_id(ts, k)];
    assert(blocking_map(ts2, res) == task_values(ts2, f2));
    assert(task_values(ts2, f2) == task_values(ts, f2).insert(u.id@, f2(u)));
    // The uses that `u` adds are all held at `u.prio >= t.prio`.
    assert(task_uses(ts2) == task_uses(ts) + traces_uses(u.trace.inner@, u.prio));
    lemma_traces_uses_prio(u.trace.inner@, u.prio);
    assert forall|r: Seq<char>|
        #[trigger] block_term(task_uses(ts2), t.prio)(r) == block_term(task_uses(ts), t.prio)(r) by {
        lemma_max_block_append_not_lower(
            task_uses(ts),
            traces_uses(u.trace.inner@, u.prio),
            r,
            t.prio,
        );
    }
    assert(block_term(task_uses(ts2), t.prio) =~= block_term(task_uses(ts), t.prio));
    assert(f2(t) == f1(t));
}


/// A task's interference does not fall when its busy period grows.
pub proof fn lemma_interference_grows_with_busy_period(
    t: Task,
    idprio: IdPrio,
    ct: Map<Seq<char>, u32>,
    at: Map<Seq<char>, u32>,
    bpt: Map<Seq<char>, u32>,
    bpt2: Map<Seq<char>, u32>,
)
    requires
        idprio.wf(),
        lookup_or_zero(bpt, t.id@) <= lookup_or_zero(bpt2, t.id@),
    ensures
        interference_of(t, idprio@, ct, at, bpt) <= interference_of(t, idprio@, ct, at, bpt2),
{
    idprio.lemma_entries();
    let w1 = lookup_or_zero(bpt, t.id@);
    let w2 = lookup_or_zero(bpt2, t.id@);
    let g1 = interference_term(idprio@, ct, at, t.prio, w1);
    let g2 = interference_term(idprio@, ct, at, t.prio, w2);
    assert forall|k: Seq<char>| idprio@.dom().contains(k) implies g1(k) <= g2(k) by {
        if k.contains('T') && idprio@[k] > t.prio && ct.contains_key(k) && at.contains_key(k) {
            lemma_ceil_ratio_mono(w1 as int, w2 as int, at[k] as int);
            let x1 = ceil_ratio(w1 as int, at[k] as int);
            let x2 = ceil_ratio(w2 as int, at[k] as int);
            let c = ct[k] as int;
            assert(c * x1 <= c * x2) by (nonlinear_arith)
                requires
                    0 <= x1 <= x2,
                    0 <= c,
            ;
        }
    }
    lemma_set_sum_mono(idprio@.dom(), g1, g2);
}

/// In the interference maps of a task set, the interference of a task
/// identifier does not fall when its busy period grows.
pub proof fn lemma_interference_map_grows_with_busy_period(
    ts: Seq<Task>,
    idprio: IdPrio,
    ct: Map<Seq<char>, u32>,
    at: Map<Seq<char>, u32>,
    bpt: Map<Seq<char>, u32>,
    bpt2: Map<Seq<char>, u32>,
    i: int,
)
    requires
        idprio.wf(),
        0 <= i < ts.len(),
        lookup_or_zero(bpt, ts[i].id@) <= lookup_or_zero(bpt2, ts[i].id@),
        forall|j: int|
            0 <= j < ts.len() ==> interference_of(#[trigger] ts[j], idprio@, ct, at, bpt)
                <= u32::MAX,
        forall|j: int|
            0 <= j < ts.len() ==> interference_of(#[trigger] ts[j], idprio@, ct, at, bpt2)
                <= u32::MAX,
    ensures
        lookup_or_zero(interference_map(ts, idprio@, ct, at, bpt), ts[i].id@) <= lookup_or_zero(
            interference_map(ts, idprio@, ct, at, bpt2),
            ts[i].id@,
        ),
{
    let f1 = |x: Task| interference_of(x, idprio@, ct, at, bpt) as u32;
    let f2 = |x: Task| interference_of(x, idprio@, ct, at, bpt2) as u32;
    lemma_task_values_last(ts, f1, i);
    lemma_task_values_last(ts, f2, i);
    let j = last_with_id(ts, ts[i].id@);
    let t = ts[j];
    lemma_interference_grows_with_busy_period(t, idprio, ct, at, bpt, bpt2);
    idprio.lemma_entries();
    assert forall|k: Seq<char>| idprio@.dom().contains(k) implies #[trigger] interference_term(
        idprio@,
        ct,
        at,
        t.prio,
        lookup_or_zero(bpt, t.id@),
    )(k) >= 0 by {
        lemma_ceil_ratio_mono(0, lookup_or_zero(bpt, t.id@) as int, at[k] as int);
        let x = ceil_ratio(lookup_or_zero(bpt, t.id@) as int, at[k] as int);
        let c = ct[k] as int;
        assert(c * x >= 0) by (nonlinear_arith)
            requires
                0 <= x,
                0 <= c,
        ;
    }
    lemma_set_sum_mono(
        idprio@.dom(),
        |k: Seq<char>| 0int,
        interference_term(idprio@, ct, at, t.prio, lookup_or_zero(bpt, t.id@)),
    );
    lemma_set_sum_zero(idprio@.dom(), |k: Seq<char>| 0int);
}


proof fn lemma_fixpoint_between(
    ts: Seq<Task>,
    ct: Map<Seq<char>, u32>,
    c: int,
    b: int,
    prio: u8,
    r: int,
    big: int,
)
    requires
        0 <= c + b <= r <= big,
        r <= response_step(ts, ct, c, b, prio, r),
        response_step(ts, ct, c, b, prio, big) <= big,
    ensures
        exists|f: int| r <= f <= big && #[trigger] is_exact_response(ts, ct, c, b, prio, f),
    decreases big - r,
{
    let next = response_step(ts, ct, c, b, prio, r);
    if next == r {
        assert(is_exact_response(ts, ct, c, b, prio, r));
    } else {
        lemma_higher_demand_mono(ts, ct, prio, r, big);
        lemma_higher_demand_mono(ts, ct, prio, r, next);
        lemma_fixpoint_between(ts, ct, c, b, prio, next, big);
    }
}

/// With more blocking the least solution of the response-time recurrence is
/// no smaller: it lies at or below every solution for the larger blocking.
pub proof fn lemma_least_response_grows_with_blocking(
    ts: Seq<Task>,
    ct: Map<Seq<char>, u32>,
    c: int,
    b: int,
    b2: int,
    prio: u8,
    r1: int,
    r2: int,
)
    requires
        0 <= c,
        0 <= b <= b2,
        is_least_exact_response(ts, ct, c, b, prio, r1),
        is_exact_response(ts, ct, c, b2, prio, r2),
    ensures
        r1 <= r2,
{
    lemma_higher_demand_mono(ts, ct, prio, 0, c + b);
    lemma_fixpoint_between(ts, ct, c, b, prio, c + b, r2);
    let f = choose|f: int| c + b <= f <= r2 && #[trigger] is_exact_response(ts, ct, c, b, prio, f);
}

/// In the exact analysis, the response time of a task identifier does not
/// fall when its blocking time grows.
pub proof fn lemma_exact_response_grows_with_blocking(
    ts: Seq<Task>,
    ct: Map<Seq<char>, u32>,
    bt: Map<Seq<char>, u32>,
    bt2: Map<Seq<char>, u32>,
    i: int,
)
    requires
        0 <= i < ts.len(),
        lookup_or_zero(bt, ts[i].id@) <= lookup_or_zero(bt2, ts[i].id@),
        forall|j: int| 0 <= j < ts.len() ==> exact_response_exists(ts, ct, bt, #[trigger] ts[j]),
        forall|j: int| 0 <= j < ts.len() ==> exact_response_exists(ts, ct, bt2, #[trigger] ts[j]),
    ensures
        lookup_or_zero(exact_response_map(ts, ct, bt), ts[i].id@) <= lookup_or_zero(
            exact_response_map(ts, ct, bt2),
            ts[i].id@,
        ),
{
    lemma_task_values_last(ts, |t: Task| exact_response(ts, ct, bt, t) as u32, i);
    lemma_task_values_last(ts, |t: Task| exact_response(ts, ct, bt2, t) as u32, i);
    let t = ts[last_with_id(ts, ts[i].id@)];
    let c = lookup_or_zero(ct, t.id@) as int;
    let b = lookup_or_zero(bt, t.id@) as int;
    let b2 = lookup_or_zero(bt2, t.id@) as int;
    assert(exact_response_exists(ts, ct, bt, t));
    assert(exact_response_exists(ts, ct, bt2, t));
    let q1 = choose|q: int| q <= u32::MAX && #[trigger] is_exact_response(ts, ct, c, b, t.prio, q);
    let q2 = choose|q: int| q <= u32::MAX && #[trigger] is_exact_response(ts, ct, c, b2, t.prio, q);
    lemma_least_exists(ts, ct, c, b, t.prio, q1);
    lemma_least_exists(ts, ct, c, b2, t.prio, q2);
    let e1 = exact_response(ts, ct, bt, t);
    let e2 = exact_response(ts, ct, bt2, t);
    assert(is_least_exact_response(ts, ct, c, b, t.prio, e1));
    assert(is_least_exact_response(ts, ct, c, b2, t.prio, e2));
    assert(e1 <= q1 && e2 <= q2);
    lemma_least_response_grows_with_blocking(ts, ct, c, b, b2, t.prio, e1, e2);
}


/// Two priority maps merged: an identifier of either map, with the higher
/// priority where both have it.
pub open spec fn max_merge(m1: Map<Seq<char>, u8>, m2: Map<Seq<char>, u8>) -> Map<Seq<char>, u8> {
    Map::new(
        |k: Seq<char>| m1.contains_key(k) || m2.contains_key(k),
        |k: Seq<char>|
            if m1.contains_key(k) && (!m2.contains_key(k) || m2[k] <= m1[k]) {
                m1[k]
            } else {
                m2[k]
            },
    )
}

/// Two resource maps merged: an identifier of either map, with the union of
/// its sets.
pub open spec fn union_merge(
    m1: Map<Seq<char>, Set<Seq<char>>>,
    m2: Map<Seq<char>, Set<Seq<char>>>,
) -> Map<Seq<char>, Set<Seq<char>>> {
    Map::new(
        |k: Seq<char>| m1.contains_key(k) || m2.contains_key(k),
        |k: Seq<char>|
            (if m1.contains_key(k) {
                m1[k]
            } else {
                Set::empty()
            }).union(
                if m2.contains_key(k) {
                    m2[k]
                } else {
                    Set::empty()
                },
            ),
    )
}

proof fn lemma_concat_prio_at(a: Seq<Task>, b: Seq<Task>, k: Seq<char>)
    ensures
        prio_map(a + b).contains_key(k) == max_merge(prio_map(a), prio_map(b)).contains_key(k),
        prio_map(a + b).contains_key(k) ==> prio_map(a + b)[k] == max_merge(
            prio_map(a),
            prio_map(b),
        )[k],
{
    let ab = a + b;
    let na = a.len() as int;
    assert(forall|i: int| 0 <= i < na ==> ab[i] == a[i]);
    assert(forall|j: int| 0 <= j < b.len() ==> ab[na + j] == b[j]);
    let pm = prio_map(ab);
    let pa = prio_map(a);
    let pb = prio_map(b);
    lemma_prio_map_is_max(ab, k);
    lemma_prio_map_is_max(a, k);
    lemma_prio_map_is_max(b, k);
    if pa.contains_key(k) {
        let i = choose|i: int|
            0 <= i < a.len() && #[trigger] trace_ids(a[i].trace).contains(k) && a[i].prio == pa[k];
        assert(trace_ids(ab[i].trace).contains(k));
    }
    if pb.contains_key(k) {
        let j = choose|j: int|
            0 <= j < b.len() && #[trigger] trace_ids(b[j].trace).contains(k) && b[j].prio == pb[k];
        assert(trace_ids(ab[na + j].trace).contains(k));
    }
    if pm.contains_key(k) {
        let w = choose|w: int|
            0 <= w < ab.len() && #[trigger] trace_ids(ab[w].trace).contains(k) && ab[w].prio
                == pm[k];
        if w < na {
            assert(trace_ids(a[w].trace).contains(k));
        } else {
            assert(ab[w] == b[w - na]);
            assert(trace_ids(b[w - na].trace).contains(k));
        }
    }
}

/// The maps of two task sets analysed as one are the maps of each merged:
/// the higher priority for a shared identifier, the union of the resource
/// sets for a shared task identifier.
pub proof fn lemma_pre_analysis_concat(a: Seq<Task>, b: Seq<Task>)
    ensures
        prio_map(a + b) == max_merge(prio_map(a), prio_map(b)),
        resource_map(a + b) == union_merge(resource_map(a), resource_map(b)),
{
    let ab = a + b;
    let na = a.len() as int;
    assert(forall|i: int| 0 <= i < na ==> ab[i] == a[i]);
    assert(forall|j: int| 0 <= j < b.len() ==> ab[na + j] == b[j]);
    let pm = prio_map(ab);
    let mm = max_merge(prio_map(a), prio_map(b));
    assert forall|k: Seq<char>| #[trigger] pm.contains_key(k) == mm.contains_key(k) by {
        lemma_concat_prio_at(a, b, k);
    }
    assert forall|k: Seq<char>| #[trigger] pm.contains_key(k) implies pm[k] == mm[k] by {
        lemma_concat_prio_at(a, b, k);
    }
    assert(pm =~= mm);
    let rm = resource_map(ab);
    let ra = resource_map(a);
    let rb = resource_map(b);
    let um = union_merge(ra, rb);
    assert forall|k: Seq<char>| rm.contains_key(k) <==> um.contains_key(k) by {
        lemma_resource_map_members(ab, k, k);
        lemma_resource_map_members(a, k, k);
        lemma_resource_map_members(b, k, k);
        if rm.contains_key(k) {
            let w = choose|w: int|
                0 <= w < ab.len() && (#[trigger] ab[w]).id@ == k && ab[w].trace.inner@.len() > 0;
            if w < na {
                assert(a[w].id@ == k);
            } else {
                assert(b[w - na] == ab[w]);
            }
        }
        if ra.contains_key(k) {
            let i = choose|i: int|
                0 <= i < a.len() && (#[trigger] a[i]).id@ == k && a[i].trace.inner@.len() > 0;
            assert(ab[i].id@ == k);
        }
        if rb.contains_key(k) {
            let j = choose|j: int|
                0 <= j < b.len() && (#[trigger] b[j]).id@ == k && b[j].trace.inner@.len() > 0;
            assert(ab[na + j].id@ == k);
        }
    }
    assert forall|k: Seq<char>| #[trigger] rm.contains_key(k) implies rm[k] =~= um[k] by {
        assert forall|x: Seq<char>| rm[k].contains(x) <==> um[k].contains(x) by {
            lemma_resource_map_members(ab, k, x);
            lemma_resource_map_members(a, k, x);
            lemma_resource_map_members(b, k, x);
            if rm[k].contains(x) {
                let w = choose|w: int|
                    0 <= w < ab.len() && (#[trigger] ab[w]).id@ == k && traces_ids(
                        ab[w].trace.inner@,
                    ).contains(x);
                if w < na {
                    assert(a[w].id@ == k);
                } else {
                    assert(b[w - na] == ab[w]);
                }
            }
            if ra.contains_key(k) && ra[k].contains(x) {
                let i = choose|i: int|
                    0 <= i < a.len() && (#[trigger] a[i]).id@ == k && traces_ids(
                        a[i].trace.inner@,
                    ).contains(x);
                assert(ab[i].id@ == k);
            }
            if rb.contains_key(k) && rb[k].contains(x) {
                let j = choose|j: int|
                    0 <= j < b.len() && (#[trigger] b[j]).id@ == k && traces_ids(
                        b[j].trace.inner@,
                    ).contains(x);
                assert(ab[na + j].id@ == k);
            }
        }
    }
    assert(rm =~= um);
}

/// Task sets that hold the same tasks (in any order, any number of times)
/// have the same priority map and the same resource map.
pub proof fn lemma_pre_analysis_same_tasks(ts1: Seq<Task>, ts2: Seq<Task>)
    requires
        forall|t: Task| ts1.contains(t) <==> ts2.contains(t),
    ensures
        prio_map(ts1) == prio_map(ts2),
        resource_map(ts1) == resource_map(ts2),
{
    lemma_pre_analysis_same_tasks_le(ts1, ts2);
    lemma_pre_analysis_same_tasks_le(ts2, ts1);
    let p1 = prio_map(ts1);
    let p2 = prio_map(ts2);
    assert forall|k: Seq<char>| #[trigger] p1.contains_key(k) implies p1[k] == p2[k] by {}
    assert(p1 =~= p2);
    let r1 = resource_map(ts1);
    let r2 = resource_map(ts2);
    assert forall|k: Seq<char>| #[trigger] r1.contains_key(k) implies r1[k] =~= r2[k] by {
        assert forall|x: Seq<char>| r1[k].contains(x) <==> r2[k].contains(x) by {
            lemma_pre_analysis_same_tasks_members(ts1, ts2, k, x);
            lemma_pre_analysis_same_tasks_members(ts2, ts1, k, x);
        }
    }
    assert forall|k: Seq<char>| r1.contains_key(k) <==> r2.contains_key(k) by {
        lemma_pre_analysis_same_tasks_members(ts1, ts2, k, k);
        lemma_pre_analysis_same_tasks_members(ts2, ts1, k, k);
    }
    assert(r1 =~= r2);
}

proof fn lemma_pre_analysis_same_tasks_le(ts1: Seq<Task>, ts2: Seq<Task>)
    requires
        forall|t: Task| ts1.contains(t) ==> ts2.contains(t),
    ensures
        forall|k: Seq<char>|
            #[trigger] prio_map(ts1).contains_key(k) ==> prio_map(ts2).contains_key(k)
                && prio_map(ts1)[k] <= prio_map(ts2)[k],
{
    assert forall|k: Seq<char>| #[trigger] prio_map(ts1).contains_key(k) implies prio_map(
        ts2,
    ).contains_key(k) && prio_map(ts1)[k] <= prio_map(ts2)[k] by {
        lemma_prio_map_is_max(ts1, k);
        lemma_prio_map_is_max(ts2, k);
        let i = choose|i: int|
            0 <= i < ts1.len() && #[trigger] trace_ids(ts1[i].trace).contains(k) && ts1[i].prio
                == prio_map(ts1)[k];
        assert(ts1.contains(ts1[i]));
        let j = choose|j: int| 0 <= j < ts2.len() && ts2[j] == ts1[i];
        assert(trace_ids(ts2[j].trace).contains(k));
    }
}

proof fn lemma_pre_analysis_same_tasks_members(ts1: Seq<Task>, ts2: Seq<Task>, k: Seq<char>, x: Seq<char>)
    requires
        forall|t: Task| ts1.contains(t) ==> ts2.contains(t),
    ensures
        resource_map(ts1).contains_key(k) ==> resource_map(ts2).contains_key(k),
        resource_map(ts1).contains_key(k) && resource_map(ts1)[k].contains(x) ==> resource_map(
            ts2,
        ).contains_key(k) && resource_map(ts2)[k].contains(x),
{
    lemma_resource_map_members(ts1, k, x);
    lemma_resource_map_members(ts2, k, x);
    if resource_map(ts1).contains_key(k) {
        let i = choose|i: int|
            0 <= i < ts1.len() && (#[trigger] ts1[i]).id@ == k && ts1[i].trace.inner@.len() > 0;
        assert(ts1.contains(ts1[i]));
        let j = choose|j: int| 0 <= j < ts2.len() && ts2[j] == ts1[i];
        assert(ts2[j].id@ == k);
    }
    if resource_map(ts1).contains_key(k) && resource_map(ts1)[k].contains(x) {
        let i = choose|i: int|
            0 <= i < ts1.len() && (#[trigger] ts1[i]).id@ == k && traces_ids(
                ts1[i].trace.inner@,
            ).contains(x);
        assert(ts1.contains(ts1[i]));
        let j = choose|j: int| 0 <= j < ts2.len() && ts2[j] == ts1[i];
        assert(ts2[j].id@ == k);
    }
}

/// The maps of `pre_analysis` do not depend on the order of the tasks: a
/// permutation of a task set has the same priority and resource maps.
pub proof fn lemma_pre_analysis_permutation(ts1: Seq<Task>, ts2: Seq<Task>)
    requires
        ts1.to_multiset() == ts2.to_multiset(),
    ensures
        prio_map(ts1) == prio_map(ts2),
        resource_map(ts1) == resource_map(ts2),
{
    ts1.to_multiset_ensures();
    ts2.to_multiset_ensures();
    assert forall|t: Task| ts1.contains(t) <==> ts2.contains(t) by {
        assert(ts1.contains(t) <==> ts1.to_multiset().count(t) > 0);
        assert(ts2.contains(t) <==> ts2.to_multiset().count(t) > 0);
    }
    lemma_pre_analysis_same_tasks(ts1, ts2);
}


/// The deadline flag of the approximate analysis is true exactly when every
/// task of the set, at every position, has execution time plus blocking time
/// plus interference at most its deadline; one task over its deadline makes
/// it false.
pub proof fn lemma_deadline_flag(
    ts: Seq<Task>,
    ct: Map<Seq<char>, u32>,
    bt: Map<Seq<char>, u32>,
    it: Map<Seq<char>, u32>,
)
    ensures
        all_meet_deadlines(ts, ct, bt, it) <==> forall|i: int|
            0 <= i < ts.len() ==> lookup_or_zero(ct, (#[trigger] ts[i]).id@) + lookup_or_zero(
                bt,
                ts[i].id@,
            ) + lookup_or_zero(it, ts[i].id@) <= ts[i].deadline,
        forall|i: int|
            0 <= i < ts.len() && lookup_or_zero(ct, (#[trigger] ts[i]).id@) + lookup_or_zero(
                bt,
                ts[i].id@,
            ) + lookup_or_zero(it, ts[i].id@) > ts[i].deadline ==> !all_meet_deadlines(
                ts,
                ct,
                bt,
                it,
            ),
{
}

/// The response-time recurrence of `t` has a solution no larger than `bound`.
pub open spec fn solvable_within(
    ts: Seq<Task>,
    ct: Map<Seq<char>, u32>,
    bt: Map<Seq<char>, u32>,
    t: Task,
    bound: int,
) -> bool {
    exists|r: int|
        r <= bound && #[trigger] is_exact_response(
            ts,
            ct,
            lookup_or_zero(ct, t.id@) as int,
            lookup_or_zero(bt, t.id@) as int,
            t.prio,
            r,
        )
}

/// The deadline flag of the exact analysis is true exactly when the
/// response-time recurrence of every task of the set, at every position, has
/// a solution within the task's deadline; one task whose least solution is
/// over its deadline makes it false.
pub proof fn lemma_exact_deadline_flag(ts: Seq<Task>, ct: Map<Seq<char>, u32>, bt: Map<Seq<char>, u32>)
    requires
        forall|j: int| 0 <= j < ts.len() ==> exact_response_exists(ts, ct, bt, #[trigger] ts[j]),
    ensures
        all_exact_meet_deadlines(ts, ct, bt) <==> forall|i: int|
            0 <= i < ts.len() ==> solvable_within(ts, ct, bt, #[trigger] ts[i], ts[i].deadline as int),
        forall|i: int|
            0 <= i < ts.len() && exact_response(ts, ct, bt, #[trigger] ts[i]) > ts[i].deadline
                ==> !all_exact_meet_deadlines(ts, ct, bt),
{
    assert forall|i: int| 0 <= i < ts.len() implies (exact_response(ts, ct, bt, #[trigger] ts[i])
        <= ts[i].deadline <==> solvable_within(ts, ct, bt, ts[i], ts[i].deadline as int)) by {
        let t = ts[i];
        let c = lookup_or_zero(ct, t.id@) as int;
        let b = lookup_or_zero(bt, t.id@) as int;
        assert(exact_response_exists(ts, ct, bt, t));
        let q = choose|q: int| q <= u32::MAX && #[trigger] is_exact_response(ts, ct, c, b, t.prio, q);
        lemma_least_exists(ts, ct, c, b, t.prio, q);
        let e = exact_response(ts, ct, bt, t);
        assert(is_least_exact_response(ts, ct, c, b, t.prio, e));
        if e <= t.deadline {
            assert(is_exact_response(ts, ct, c, b, t.prio, e));
        }
        if solvable_within(ts, ct, bt, t, t.deadline as int) {
            let r = choose|r: int| r <= t.deadline && #[trigger] is_exact_response(ts, ct, c, b, t.prio, r);
        }
    }
}

/// Every identifier of higher priority that names a task with a known
/// execution time `C` and inter-arrival time `A` adds at least one arrival
/// per `A` of the busy period `W`: the interference `I` satisfies
/// `I * A >= C * W`, and where `A` is 0 and `W` is not, `I >= C * u32::MAX`.
pub proof fn lemma_interference_covers_each_arrival(
    t: Task,
    idprio: IdPrio,
    ct: Map<Seq<char>, u32>,
    at: Map<Seq<char>, u32>,
    bpt: Map<Seq<char>, u32>,
    k: Seq<char>,
)
    requires
        idprio.wf(),
        idprio@.contains_key(k),
        k.contains('T'),
        idprio@[k] > t.prio,
        ct.contains_key(k),
        at.contains_key(k),
    ensures
        at[k] > 0 ==> interference_of(t, idprio@, ct, at, bpt) * at[k] >= ct[k] * lookup_or_zero(
            bpt,
            t.id@,
        ),
        at[k] == 0 && lookup_or_zero(bpt, t.id@) > 0 ==> interference_of(t, idprio@, ct, at, bpt)
            >= ct[k] * u32::MAX,
{
    idprio.lemma_entries();
    let w = lookup_or_zero(bpt, t.id@);
    let g = interference_term(idprio@, ct, at, t.prio, w);
    assert forall|y: Seq<char>| idprio@.dom().contains(y) implies g(y) >= 0 by {
        if y.contains('T') && idprio@[y] > t.prio && ct.contains_key(y) && at.contains_key(y) {
            lemma_ceil_ratio_mono(0, w as int, at[y] as int);
            let x = ceil_ratio(w as int, at[y] as int);
            let c = ct[y] as int;
            assert(c * x >= 0) by (nonlinear_arith)
                requires
                    0 <= x,
                    0 <= c,
            ;
        }
    }
    lemma_set_sum_ge_term(idprio@.dom(), g, k);
    let total = interference_of(t, idprio@, ct, at, bpt);
    let c = ct[k] as int;
    let a = at[k] as int;
    let q = ceil_ratio(w as int, a);
    assert(g(k) == c * q);
    if a > 0 {
        lemma_ceil_ratio_bounds(w as int, a);
        assert(total * a >= c * (w as int)) by (nonlinear_arith)
            requires
                total >= c * q,
                q * a >= w,
                a > 0,
                c >= 0,
        ;
    }
}


/// Only identifiers that name a task (hold a `T`) of strictly higher
/// priority, with a known execution time and inter-arrival time, add to the
/// interference: where there is none, the interference is 0.
pub proof fn lemma_no_higher_task_no_interference(
    t: Task,
    idprio: IdPrio,
    ct: Map<Seq<char>, u32>,
    at: Map<Seq<char>, u32>,
    bpt: Map<Seq<char>, u32>,
)
    requires
        idprio.wf(),
        forall|k: Seq<char>|
            #[trigger] idprio@.contains_key(k) ==> !(k.contains('T') && idprio@[k] > t.prio
                && ct.contains_key(k) && at.contains_key(k)),
    ensures
        interference_of(t, idprio@, ct, at, bpt) == 0,
{
    idprio.lemma_entries();
    lemma_set_sum_zero(
        idprio@.dom(),
        interference_term(idprio@, ct, at, t.prio, lookup_or_zero(bpt, t.id@)),
    );
}

} // verus!
