//! Response-time analysis of a task set under priority-based scheduling
//! with resource sharing: execution times, blocking, interference and
//! response times, per task.
use vstd::prelude::*;
use crate::idmap::IdMap;
use crate::model::{
    readin_u32,
    resource_sets, resources_wf, BlockingFiller, BlockingTime, BlockingVector, Bpt, Ct,
    FinalDisplay, IdPrio, Interference, InterTimings, ResponseTime, Task, TaskAnalysis,
    TaskResources, Tasks, Trace, lookup_or_zero,
};
use crate::sums::{lemma_set_sum_prefix_le, lemma_set_sum_step, lemma_set_sum_take_zero, set_sum};

verus! {

/// The map that gives each task identifier the value of `f` at the last task
/// of `ts` with that identifier.
pub open spec fn task_values(ts: Seq<Task>, f: spec_fn(Task) -> u32) -> Map<Seq<char>, u32>
    decreases ts.len(),
{
    if ts.len() == 0 {
        Map::empty()
    } else {
        task_values(ts.drop_last(), f).insert(ts.last().id@, f(ts.last()))
    }
}

/// The worst-case execution time of a task: the length of its trace.
pub open spec fn wcet(t: Task) -> u32 {
    (t.trace.end - t.trace.start) as u32
}

/// A task's trace does not end before it starts.
pub open spec fn trace_ordered(t: Task) -> bool {
    t.trace.start <= t.trace.end
}

/// No section of a trace, at any depth, ends before it starts.
pub open spec fn trace_timed(tr: Trace) -> bool
    decreases tr,
{
    &&& tr.start <= tr.end
    &&& forall|i: int| 0 <= i < tr.inner@.len() ==> trace_timed(#[trigger] tr.inner@[i])
}

/// No section nested in a task's trace ends before it starts.
pub open spec fn sections_timed(t: Task) -> bool {
    forall|i: int| 0 <= i < t.trace.inner@.len() ==> trace_timed(#[trigger] t.trace.inner@[i])
}

/// The minimal inter-arrival time of every task.
pub open spec fn inter_arrival_map(ts: Seq<Task>) -> Map<Seq<char>, u32> {
    task_values(ts, |t: Task| t.inter_arrival)
}

/// The worst-case execution time of every task.
pub open spec fn wcet_map(ts: Seq<Task>) -> Map<Seq<char>, u32> {
    task_values(ts, |t: Task| wcet(t))
}

/// The busy period of every task, approximated by its deadline.
pub open spec fn deadline_map(ts: Seq<Task>) -> Map<Seq<char>, u32> {
    task_values(ts, |t: Task| t.deadline)
}

/// Collects the inter-arrival time and the worst-case execution time of
/// every task.
pub fn own_analysis(tasks: &Tasks) -> (res: (InterTimings, Ct))
    requires
        forall|i: int| 0 <= i < tasks@.len() ==> trace_ordered(#[trigger] tasks@[i]),
    ensures
        res.0.wf(),
        res.1.wf(),
        res.0@ == inter_arrival_map(tasks@),
        res.1@ == wcet_map(tasks@),
{
    let mut at: InterTimings = IdMap::new();
    let mut ct: Ct = IdMap::new();
    let mut n: usize = 0;
    proof {
        assert(tasks@.take(0) =~= Seq::<Task>::empty());
    }
    while n < tasks.len()
        invariant
            n <= tasks@.len(),
            forall|i: int| 0 <= i < tasks@.len() ==> trace_ordered(#[trigger] tasks@[i]),
            at.wf(),
            ct.wf(),
            at@ == inter_arrival_map(tasks@.take(n as int)),
            ct@ == wcet_map(tasks@.take(n as int)),
        decreases tasks@.len() - n,
    {
        let t = &tasks[n];
        assert(trace_ordered(tasks@[n as int]));
        at.insert(t.id.clone(), t.inter_arrival);
        let c = t.trace.end - t.trace.start;
        ct.insert(t.id.clone(), c);
        proof {
            assert(tasks@.take(n + 1).drop_last() =~= tasks@.take(n as int));
        }
        n += 1;
    }
    proof {
        assert(tasks@.take(n as int) =~= tasks@);
    }
    (at, ct)
}

/// Takes the busy period of every task to be its deadline.
pub fn calculate_busy_period(tasks: &Tasks) -> (bpt: Bpt)
    ensures
        bpt.wf(),
        bpt@ == deadline_map(tasks@),
{
    let mut bpt: Bpt = IdMap::new();
    let mut n: usize = 0;
    proof {
        assert(tasks@.take(0) =~= Seq::<Task>::empty());
    }
    while n < tasks.len()
        invariant
            n <= tasks@.len(),
            bpt.wf(),
            bpt@ == deadline_map(tasks@.take(n as int)),
        decreases tasks@.len() - n,
    {
        bpt.insert(tasks[n].id.clone(), tasks[n].deadline);
        proof {
            assert(tasks@.take(n + 1).drop_last() =~= tasks@.take(n as int));
        }
        n += 1;
    }
    proof {
        assert(tasks@.take(n as int) =~= tasks@);
    }
    bpt
}


/// Whether no section of `tr`, at any depth, ends before it starts.
pub fn trace_is_timed(tr: &Trace) -> (b: bool)
    ensures
        b == trace_timed(*tr),
    decreases tr,
{
    if tr.start > tr.end {
        return false;
    }
    let mut i: usize = 0;
    while i < tr.inner.len()
        invariant
            i <= tr.inner@.len(),
            tr.start <= tr.end,
            forall|j: int| 0 <= j < i ==> trace_timed(#[trigger] tr.inner@[j]),
        decreases tr.inner@.len() - i,
    {
        if !trace_is_timed(&tr.inner[i]) {
            return false;
        }
        i += 1;
    }
    true
}

/// Whether no section nested in the trace of `t` ends before it starts.
pub fn sections_are_timed(t: &Task) -> (b: bool)
    ensures
        b == sections_timed(*t),
{
    let mut i: usize = 0;
    while i < t.trace.inner.len()
        invariant
            i <= t.trace.inner@.len(),
            forall|j: int| 0 <= j < i ==> trace_timed(#[trigger] t.trace.inner@[j]),
        decreases t.trace.inner@.len() - i,
    {
        if !trace_is_timed(&t.trace.inner[i]) {
            return false;
        }
        i += 1;
    }
    true
}

/// A resource use as plain values: resource, holding time, priority.
pub open spec fn use_view(b: BlockingFiller) -> (Seq<char>, u32, u8) {
    (b.resource@, b.time, b.prio)
}

/// The resource uses recorded in a blocking vector.
pub open spec fn uses_view(v: Seq<BlockingFiller>) -> Seq<(Seq<char>, u32, u8)> {
    v.map_values(|b: BlockingFiller| use_view(b))
}

/// The uses of a section and of every section nested in it, in pre-order,
/// each held at priority `prio`.
pub open spec fn trace_uses(tr: Trace, prio: u8) -> Seq<(Seq<char>, u32, u8)>
    decreases tr,
{
    seq![(tr.id@, (tr.end - tr.start) as u32, prio)] + traces_uses(tr.inner@, prio)
}

/// The uses of a sequence of sections, one after the other.
pub open spec fn traces_uses(ts: Seq<Trace>, prio: u8) -> Seq<(Seq<char>, u32, u8)>
    decreases ts,
{
    if ts.len() == 0 {
        Seq::empty()
    } else {
        traces_uses(ts.drop_last(), prio) + trace_uses(ts.last(), prio)
    }
}

/// The resource uses of a task set: the sections nested in each task's
/// trace, task after task.
pub open spec fn task_uses(ts: Seq<Task>) -> Seq<(Seq<char>, u32, u8)>
    decreases ts.len(),
{
    if ts.len() == 0 {
        Seq::empty()
    } else {
        task_uses(ts.drop_last()) + traces_uses(ts.last().trace.inner@, ts.last().prio)
    }
}

/// The longest time that a task of priority lower than `prio` holds
/// resource `r` in `uses`, or 0 where none does.
pub open spec fn max_block(uses: Seq<(Seq<char>, u32, u8)>, r: Seq<char>, prio: u8) -> u32
    decreases uses.len(),
{
    if uses.len() == 0 {
        0
    } else {
        let m = max_block(uses.drop_last(), r, prio);
        let u = uses.last();
        if u.0 == r && u.2 < prio && u.1 > m {
            u.1
        } else {
            m
        }
    }
}

/// The blocking a resource can cause a task of priority `prio`.
pub open spec fn block_term(uses: Seq<(Seq<char>, u32, u8)>, prio: u8) -> spec_fn(Seq<char>) -> int {
    |r: Seq<char>| max_block(uses, r, prio) as int
}

/// The resources that task `id` uses according to `res`.
pub open spec fn resources_of(res: Map<Seq<char>, Set<Seq<char>>>, id: Seq<char>) -> Set<Seq<char>> {
    if res.contains_key(id) {
        res[id]
    } else {
        Set::empty()
    }
}

/// The blocking time of a task: over the resources it uses, the sum of the
/// longest time a task of lower priority holds each of them.
pub open spec fn blocking_of(
    t: Task,
    uses: Seq<(Seq<char>, u32, u8)>,
    res: Map<Seq<char>, Set<Seq<char>>>,
) -> int {
    set_sum(resources_of(res, t.id@), block_term(uses, t.prio))
}

/// The blocking time of every task.
pub open spec fn blocking_map(ts: Seq<Task>, res: Map<Seq<char>, Set<Seq<char>>>) -> Map<
    Seq<char>,
    u32,
> {
    task_values(ts, |t: Task| blocking_of(t, task_uses(ts), res) as u32)
}

proof fn lemma_traces_uses_step(ts: Seq<Trace>, prio: u8, i: int)
    requires
        0 <= i < ts.len(),
    ensures
        traces_uses(ts.take(i + 1), prio) == traces_uses(ts.take(i), prio) + trace_uses(
            ts[i],
            prio,
        ),
{
    assert(ts.take(i + 1).drop_last() =~= ts.take(i));
}

/// Appends to `blocking_vector` a use of `trace` and of every section nested
/// in it, in pre-order, all held at priority `prio`.
pub fn fill_blocking_vector(trace: &Trace, prio: u8, blocking_vector: &mut BlockingVector)
    requires
        trace_timed(*trace),
    ensures
        uses_view(final(blocking_vector)@) == uses_view(old(blocking_vector)@) + trace_uses(
            *trace,
            prio,
        ),
    decreases trace,
{
    let ghost v0 = uses_view(blocking_vector@);
    let resource = trace.id.clone();
    let time = trace.end - trace.start;
    let bf = BlockingFiller { resource: resource, time: time, prio: prio };
    blocking_vector.push(bf);
    proof {
        assert(uses_view(blocking_vector@) =~= v0 + seq![(trace.id@, time, prio)]);
        assert(traces_uses(trace.inner@.take(0), prio) =~= Seq::<(Seq<char>, u32, u8)>::empty());
    }
    let mut i: usize = 0;
    while i < trace.inner.len()
        invariant
            i <= trace.inner@.len(),
            trace_timed(*trace),
            uses_view(blocking_vector@) =~= v0 + seq![
                (trace.id@, (trace.end - trace.start) as u32, prio),
            ] + traces_uses(trace.inner@.take(i as int), prio),
        decreases trace.inner@.len() - i,
    {
        assert(trace_timed(trace.inner@[i as int]));
        fill_blocking_vector(&trace.inner[i], prio, blocking_vector);
        proof {
            lemma_traces_uses_step(trace.inner@, prio, i as int);
        }
        i += 1;
    }
    proof {
        assert(trace.inner@.take(i as int) =~= trace.inner@);
    }
}

/// Lists every resource use of every task, with the priority of the task.
pub fn build_blocking_vector(tasks: &Tasks) -> (bv: BlockingVector)
    requires
        forall|i: int| 0 <= i < tasks@.len() ==> sections_timed(#[trigger] tasks@[i]),
    ensures
        uses_view(bv@) == task_uses(tasks@),
{
    let mut blocking_vector: BlockingVector = Vec::new();
    let mut n: usize = 0;
    proof {
        assert(tasks@.take(0) =~= Seq::<Task>::empty());
        assert(uses_view(blocking_vector@) =~= Seq::<(Seq<char>, u32, u8)>::empty());
    }
    while n < tasks.len()
        invariant
            n <= tasks@.len(),
            forall|i: int| 0 <= i < tasks@.len() ==> sections_timed(#[trigger] tasks@[i]),
            uses_view(blocking_vector@) == task_uses(tasks@.take(n as int)),
        decreases tasks@.len() - n,
    {
        let t = &tasks[n];
        let prio: u8 = t.prio;
        let ghost v0 = uses_view(blocking_vector@);
        assert(sections_timed(tasks@[n as int]));
        proof {
            assert(traces_uses(t.trace.inner@.take(0), prio) =~= Seq::<
                (Seq<char>, u32, u8),
            >::empty());
        }
        let mut i: usize = 0;
        while i < t.trace.inner.len()
            invariant
                i <= t.trace.inner@.len(),
                sections_timed(*t),
                uses_view(blocking_vector@) =~= v0 + traces_uses(
                    t.trace.inner@.take(i as int),
                    prio,
                ),
            decreases t.trace.inner@.len() - i,
        {
            assert(trace_timed(t.trace.inner@[i as int]));
            fill_blocking_vector(&t.trace.inner[i], prio, &mut blocking_vector);
            proof {
                lemma_traces_uses_step(t.trace.inner@, prio, i as int);
            }
            i += 1;
        }
        proof {
            assert(t.trace.inner@.take(i as int) =~= t.trace.inner@);
            assert(tasks@.take(n + 1).drop_last() =~= tasks@.take(n as int));
        }
        n += 1;
    }
    proof {
        assert(tasks@.take(n as int) =~= tasks@);
    }
    blocking_vector
}

/// The longest time that a task of priority lower than `prio` holds
/// `resource_name` according to `blocking_vector`, or 0.
pub fn max_blocking(blocking_vector: &BlockingVector, resource_name: &String, prio: u8) -> (tmax:
    u32)
    ensures
        tmax == max_block(uses_view(blocking_vector@), resource_name@, prio),
{
    let mut tmax: u32 = 0;
    let mut j: usize = 0;
    proof {
        assert(uses_view(blocking_vector@).take(0) =~= Seq::<(Seq<char>, u32, u8)>::empty());
    }
    while j < blocking_vector.len()
        invariant
            j <= blocking_vector@.len(),
            tmax == max_block(uses_view(blocking_vector@).take(j as int), resource_name@, prio),
        decreases blocking_vector@.len() - j,
    {
        let bf = &blocking_vector[j];
        if *resource_name == bf.resource && bf.prio < prio {
            if bf.time > tmax {
                tmax = bf.time;
            }
        }
        proof {
            let u = uses_view(blocking_vector@);
            assert(u.take(j + 1).drop_last() =~= u.take(j as int));
            assert(u.take(j + 1).last() == use_view(blocking_vector@[j as int]));
        }
        j += 1;
    }
    proof {
        assert(uses_view(blocking_vector@).take(j as int) =~= uses_view(blocking_vector@));
    }
    tmax
}

/// The blocking time of `t`, if it fits in a `u32`.
pub fn blocking_time_of(t: &Task, blocking_vector: &BlockingVector, tr: &TaskResources) -> (res:
    Option<u32>)
    requires
        resources_wf(*tr),
    ensures
        match res {
            Some(v) => v == blocking_of(*t, uses_view(blocking_vector@), resource_sets(*tr)),
            None => blocking_of(*t, uses_view(blocking_vector@), resource_sets(*tr)) > u32::MAX,
        },
{
    let ghost g = block_term(uses_view(blocking_vector@), t.prio);
    match tr.get(&t.id) {
        None => {
            proof {
                assert(resources_of(resource_sets(*tr), t.id@) =~= Set::<Seq<char>>::empty());
                lemma_set_sum_take_zero(Seq::<Seq<char>>::empty(), g);
                assert(Seq::<Seq<char>>::empty().take(0).to_set() =~= Set::<Seq<char>>::empty());
            }
            Some(0)
        },
        Some(retask) => {
            let ghost q = retask.item_seq();
            proof {
                retask.lemma_items();
                assert(resources_of(resource_sets(*tr), t.id@) == retask@);
                lemma_set_sum_take_zero(q, g);
                assert forall|k: int| 0 <= k < q.len() implies g(#[trigger] q[k]) >= 0 by {}
            }
            let mut btpart: u64 = 0;
            let mut i: usize = 0;
            let n = retask.len();
            while i < n
                invariant
                    retask.wf(),
                    resources_of(resource_sets(*tr), t.id@) == retask@,
                    n == q.len(),
                    q == retask.item_seq(),
                    g == block_term(uses_view(blocking_vector@), t.prio),
                    i <= n,
                    btpart <= u32::MAX,
                    btpart == set_sum(q.take(i as int).to_set(), g),
                decreases n - i,
            {
                let resource_name = retask.item_at(i);
                let tmax = max_blocking(blocking_vector, resource_name, t.prio);
                proof {
                    retask.lemma_items();
                    lemma_set_sum_step(q, g, i as int);
                }
                btpart = btpart + tmax as u64;
                if btpart > 0xffff_ffffu64 {
                    proof {
                        assert forall|k: int| 0 <= k < q.len() implies g(#[trigger] q[k]) >= 0 by {}
                        lemma_set_sum_prefix_le(q, g, i + 1, q.len() as int);
                        assert(q.take(q.len() as int) =~= q);
                        retask.lemma_items();
                        assert(g(q[i as int]) == tmax);
                        assert(set_sum(q.take(i + 1).to_set(), g) == btpart);
                        assert(set_sum(q.to_set(), g) > u32::MAX);
                        assert(resources_of(resource_sets(*tr), t.id@) == q.to_set());
                    }
                    return None;
                }
                i += 1;
            }
            proof {
                assert(q.take(n as int) =~= q);
                retask.lemma_items();
            }
            Some(btpart as u32)
        },
    }
}

/// The blocking time of every task: over the resources a task uses, the sum
/// of the longest time a task of lower priority holds each of them.
pub fn calculate_blocking_time(tasks: &Tasks, tr: &TaskResources) -> (bt: BlockingTime)
    requires
        resources_wf(*tr),
        forall|i: int| 0 <= i < tasks@.len() ==> sections_timed(#[trigger] tasks@[i]),
        forall|i: int|
            0 <= i < tasks@.len() ==> blocking_of(
                #[trigger] tasks@[i],
                task_uses(tasks@),
                resource_sets(*tr),
            ) <= u32::MAX,
    ensures
        bt.wf(),
        bt@ == blocking_map(tasks@, resource_sets(*tr)),
{
    let blocking_vector = build_blocking_vector(tasks);
    let mut bt: BlockingTime = IdMap::new();
    let mut n: usize = 0;
    proof {
        assert(tasks@.take(0) =~= Seq::<Task>::empty());
    }
    while n < tasks.len()
        invariant
            n <= tasks@.len(),
            resources_wf(*tr),
            uses_view(blocking_vector@) == task_uses(tasks@),
            forall|i: int|
                0 <= i < tasks@.len() ==> blocking_of(
                    #[trigger] tasks@[i],
                    task_uses(tasks@),
                    resource_sets(*tr),
                ) <= u32::MAX,
            bt.wf(),
            bt@ == task_values(
                tasks@.take(n as int),
                |t: Task| blocking_of(t, task_uses(tasks@), resource_sets(*tr)) as u32,
            ),
        decreases tasks@.len() - n,
    {
        let t = &tasks[n];
        let btpart = match blocking_time_of(t, &blocking_vector, tr) {
            Some(v) => v,
            None => {
                assert(blocking_of(tasks@[n as int], task_uses(tasks@), resource_sets(*tr))
                    <= u32::MAX);
                0
            },
        };
        bt.insert(t.id.clone(), btpart);
        proof {
            assert(tasks@.take(n + 1).drop_last() =~= tasks@.take(n as int));
        }
        n += 1;
    }
    proof {
        assert(tasks@.take(n as int) =~= tasks@);
    }
    bt
}


/// `b / a` rounded up. A divisor of 0 gives 0 for a dividend of 0 and
/// `u32::MAX` for any other dividend (an unbounded quotient, saturated).
pub open spec fn ceil_ratio(b: int, a: int) -> int {
    if a == 0 {
        if b == 0 {
            0
        } else {
            u32::MAX as int
        }
    } else {
        (b + a - 1) / a
    }
}

/// `b / a` rounded up, as `ceil_ratio` states it.
pub fn ceil_div(b: u32, a: u32) -> (q: u32)
    ensures
        q == ceil_ratio(b as int, a as int),
{
    if a == 0 {
        if b == 0 {
            0
        } else {
            u32::MAX
        }
    } else {
        let q = b / a;
        let r = b % a;
        proof {
            let bi = b as int;
            let ai = a as int;
            assert(bi == ai * (q as int) + (r as int) && 0 <= r < ai) by (nonlinear_arith)
                requires
                    ai > 0,
                    q as int == bi / ai,
                    r as int == bi % ai,
            ;
            if r == 0 {
                assert((bi + ai - 1) / ai == q as int) by (nonlinear_arith)
                    requires
                        ai > 0,
                        bi == ai * (q as int),
                ;
            } else {
                assert((bi + ai - 1) / ai == q as int + 1) by (nonlinear_arith)
                    requires
                        ai > 0,
                        bi == ai * (q as int) + (r as int),
                        0 < r < ai,
                ;
                assert(q as int + 1 <= u32::MAX) by (nonlinear_arith)
                    requires
                        ai > 1,
                        bi == ai * (q as int) + (r as int),
                        bi <= u32::MAX,
                        0 < r,
                ;
            }
        }
        if r == 0 {
            q
        } else {
            q + 1
        }
    }
}

/// Whether an identifier names a task: it holds the letter `T`.
pub fn names_task(id: &String) -> (b: bool)
    ensures
        b == id@.contains('T'),
{
    let s = id.as_str();
    let n = s.unicode_len();
    let mut i: usize = 0;
    while i < n
        invariant
            s@ == id@,
            n == s@.len(),
            i <= n,
            forall|j: int| 0 <= j < i ==> s@[j] != 'T',
        decreases n - i,
    {
        if s.get_char(i) == 'T' {
            return true;
        }
        i += 1;
    }
    false
}

/// What the task (or resource) `k` contributes to the interference of a
/// task of priority `prio` over a window of length `window`: where `k` names
/// a task of higher priority with a known execution time and inter-arrival
/// time, its execution time once per arrival in the window.
pub open spec fn interference_term(
    idprio: Map<Seq<char>, u8>,
    ct: Map<Seq<char>, u32>,
    at: Map<Seq<char>, u32>,
    prio: u8,
    window: u32,
) -> spec_fn(Seq<char>) -> int {
    |k: Seq<char>|
        if k.contains('T') && idprio[k] > prio && ct.contains_key(k) && at.contains_key(k) {
            ct[k] * ceil_ratio(window as int, at[k] as int)
        } else {
            0
        }
}

/// The interference of a task: the sum of the terms of every identifier of
/// the priority map, over the task's busy period.
pub open spec fn interference_of(
    t: Task,
    idprio: Map<Seq<char>, u8>,
    ct: Map<Seq<char>, u32>,
    at: Map<Seq<char>, u32>,
    bpt: Map<Seq<char>, u32>,
) -> int {
    set_sum(idprio.dom(), interference_term(idprio, ct, at, t.prio, lookup_or_zero(bpt, t.id@)))
}

/// The interference of every task.
pub open spec fn interference_map(
    ts: Seq<Task>,
    idprio: Map<Seq<char>, u8>,
    ct: Map<Seq<char>, u32>,
    at: Map<Seq<char>, u32>,
    bpt: Map<Seq<char>, u32>,
) -> Map<Seq<char>, u32> {
    task_values(ts, |t: Task| interference_of(t, idprio, ct, at, bpt) as u32)
}

/// The interference of `t`, if it fits in a `u32`.
pub fn interference_for(t: &Task, idprio: &IdPrio, ct: &Ct, at: &InterTimings, bpt: &Bpt) -> (res:
    Option<u32>)
    requires
        idprio.wf(),
        ct.wf(),
        at.wf(),
        bpt.wf(),
    ensures
        match res {
            Some(v) => v == interference_of(*t, idprio@, ct@, at@, bpt@),
            None => interference_of(*t, idprio@, ct@, at@, bpt@) > u32::MAX,
        },
{
    let prio = t.prio;
    let bpttask = readin_u32(t, bpt);
    let ghost g = interference_term(idprio@, ct@, at@, prio, bpttask);
    let ghost q = idprio.key_seq();
    proof {
        idprio.lemma_entries();
        lemma_set_sum_take_zero(q, g);
        assert forall|k: int| 0 <= k < q.len() implies g(#[trigger] q[k]) >= 0 by {}
    }
    let n = idprio.len();
    let mut part_sum: u64 = 0;
    let mut j: usize = 0;
    while j < n
        invariant
            idprio.wf(),
            ct.wf(),
            at.wf(),
            q == idprio.key_seq(),
            n == q.len(),
            prio == t.prio,
            bpttask == lookup_or_zero(bpt@, t.id@),
            g == interference_term(idprio@, ct@, at@, prio, bpttask),
            j <= n,
            part_sum <= u32::MAX,
            part_sum == set_sum(q.take(j as int).to_set(), g),
        decreases n - j,
    {
        let task = idprio.key_at(j);
        let tprio = *idprio.value_at(j);
        let mut part_mult: u64 = 0;
        if names_task(task) {
            if tprio > prio {
                if let Some(k) = ct.get(task) {
                    if let Some(l) = at.get(task) {
                        let part_div = ceil_div(bpttask, *l);
                        let c = *k;
                        proof {
                            assert((c as int) * (part_div as int) <= u32::MAX as int * u32::MAX as int)
                                by (nonlinear_arith)
                                requires
                                    c <= u32::MAX,
                                    part_div <= u32::MAX,
                            ;
                        }
                        part_mult = c as u64 * part_div as u64;
                    }
                }
            }
        }
        proof {
            idprio.lemma_entries();
            lemma_set_sum_step(q, g, j as int);
            assert(part_mult == g(q[j as int]));
        }
        part_sum = part_sum + part_mult;
        if part_sum > 0xffff_ffffu64 {
            proof {
                idprio.lemma_entries();
                assert forall|k: int| 0 <= k < q.len() implies g(#[trigger] q[k]) >= 0 by {}
                lemma_set_sum_prefix_le(q, g, j + 1, q.len() as int);
                assert(q.take(q.len() as int) =~= q);
                assert(idprio@.dom() =~= q.to_set());
            }
            return None;
        }
        j += 1;
    }
    proof {
        idprio.lemma_entries();
        assert(q.take(n as int) =~= q);
    }
    Some(part_sum as u32)
}

/// The interference of every task: over every identifier of higher priority
/// that names a task, its execution time once per arrival within the busy
/// period of the task.
pub fn calculate_interference(
    tasks: &Tasks,
    idprio: &IdPrio,
    ct: &Ct,
    at: &InterTimings,
    bpt: &Bpt,
) -> (it: Interference)
    requires
        idprio.wf(),
        ct.wf(),
        at.wf(),
        bpt.wf(),
        forall|i: int|
            0 <= i < tasks@.len() ==> interference_of(
                #[trigger] tasks@[i],
                idprio@,
                ct@,
                at@,
                bpt@,
            ) <= u32::MAX,
    ensures
        it.wf(),
        it@ == interference_map(tasks@, idprio@, ct@, at@, bpt@),
{
    let mut it: Interference = IdMap::new();
    let mut n: usize = 0;
    proof {
        assert(tasks@.take(0) =~= Seq::<Task>::empty());
    }
    while n < tasks.len()
        invariant
            n <= tasks@.len(),
            idprio.wf(),
            ct.wf(),
            at.wf(),
            bpt.wf(),
            forall|i: int|
                0 <= i < tasks@.len() ==> interference_of(
                    #[trigger] tasks@[i],
                    idprio@,
                    ct@,
                    at@,
                    bpt@,
                ) <= u32::MAX,
            it.wf(),
            it@ == interference_map(tasks@.take(n as int), idprio@, ct@, at@, bpt@),
        decreases tasks@.len() - n,
    {
        let t = &tasks[n];
        let part_sum = match interference_for(t, idprio, ct, at, bpt) {
            Some(v) => v,
            None => {
                assert(interference_of(tasks@[n as int], idprio@, ct@, at@, bpt@) <= u32::MAX);
                0
            },
        };
        it.insert(t.id.clone(), part_sum);
        proof {
            assert(tasks@.take(n + 1).drop_last() =~= tasks@.take(n as int));
        }
        n += 1;
    }
    proof {
        assert(tasks@.take(n as int) =~= tasks@);
    }
    it
}


/// The response time of a task: execution time, blocking time and
/// interference, each as the maps give it for the task's identifier.
pub open spec fn response_of(
    t: Task,
    ct: Map<Seq<char>, u32>,
    bt: Map<Seq<char>, u32>,
    it: Map<Seq<char>, u32>,
) -> int {
    lookup_or_zero(ct, t.id@) + lookup_or_zero(bt, t.id@) + lookup_or_zero(it, t.id@)
}

/// The response time of every task.
pub open spec fn response_map(
    ts: Seq<Task>,
    ct: Map<Seq<char>, u32>,
    bt: Map<Seq<char>, u32>,
    it: Map<Seq<char>, u32>,
) -> Map<Seq<char>, u32> {
    task_values(ts, |t: Task| response_of(t, ct, bt, it) as u32)
}

/// Every task responds within its deadline.
pub open spec fn all_meet_deadlines(
    ts: Seq<Task>,
    ct: Map<Seq<char>, u32>,
    bt: Map<Seq<char>, u32>,
    it: Map<Seq<char>, u32>,
) -> bool {
    forall|i: int| 0 <= i < ts.len() ==> response_of(#[trigger] ts[i], ct, bt, it) <= ts[i].deadline
}

/// The response time of `t`, if it fits in a `u32`.
pub fn response_time_of(t: &Task, ct: &Ct, bt: &BlockingTime, it: &Interference) -> (res: Option<
    u32,
>)
    requires
        ct.wf(),
        bt.wf(),
        it.wf(),
    ensures
        match res {
            Some(v) => v == response_of(*t, ct@, bt@, it@),
            None => response_of(*t, ct@, bt@, it@) > u32::MAX,
        },
{
    let cttask = readin_u32(t, ct);
    let bttask = readin_u32(t, bt);
    let ittask = readin_u32(t, it);
    let total: u64 = cttask as u64 + bttask as u64 + ittask as u64;
    if total > 0xffff_ffffu64 {
        None
    } else {
        Some(total as u32)
    }
}

/// The response time of every task, `R(t) = C(t) + B(t) + I(t)`, and
/// whether every task responds within its deadline.
pub fn calculate_response_time(tasks: &Tasks, ct: &Ct, bt: &BlockingTime, it: &Interference) -> (res:
    (ResponseTime, bool))
    requires
        ct.wf(),
        bt.wf(),
        it.wf(),
        forall|i: int|
            0 <= i < tasks@.len() ==> response_of(#[trigger] tasks@[i], ct@, bt@, it@) <= u32::MAX,
    ensures
        res.0.wf(),
        res.0@ == response_map(tasks@, ct@, bt@, it@),
        res.1 == all_meet_deadlines(tasks@, ct@, bt@, it@),
{
    let mut rt: ResponseTime = IdMap::new();
    let mut rt_possible = true;
    let mut n: usize = 0;
    proof {
        assert(tasks@.take(0) =~= Seq::<Task>::empty());
    }
    while n < tasks.len()
        invariant
            n <= tasks@.len(),
            ct.wf(),
            bt.wf(),
            it.wf(),
            forall|i: int|
                0 <= i < tasks@.len() ==> response_of(#[trigger] tasks@[i], ct@, bt@, it@)
                    <= u32::MAX,
            rt.wf(),
            rt@ == response_map(tasks@.take(n as int), ct@, bt@, it@),
            rt_possible == all_meet_deadlines(tasks@.take(n as int), ct@, bt@, it@),
        decreases tasks@.len() - n,
    {
        let t = &tasks[n];
        let rttask = match response_time_of(t, ct, bt, it) {
            Some(v) => v,
            None => {
                assert(response_of(tasks@[n as int], ct@, bt@, it@) <= u32::MAX);
                0
            },
        };
        if rttask > t.deadline {
            rt_possible = false;
        }
        rt.insert(t.id.clone(), rttask);
        proof {
            let pre = tasks@.take(n as int);
            let post = tasks@.take(n + 1);
            assert(post.drop_last() =~= pre);
            assert(post[n as int] == tasks@[n as int]);
            assert(forall|i: int| 0 <= i < n ==> post[i] == pre[i]);
        }
        n += 1;
    }
    proof {
        assert(tasks@.take(n as int) =~= tasks@);
    }
    (rt, rt_possible)
}

/// The demand that the tasks of `ts` of priority above `prio` place in a
/// window of length `r`: each one's execution time once per period of its
/// deadline (rounded up).
pub open spec fn higher_demand(ts: Seq<Task>, ct: Map<Seq<char>, u32>, prio: u8, r: int) -> int
    decreases ts.len(),
{
    if ts.len() == 0 {
        0
    } else {
        let h = ts.last();
        higher_demand(ts.drop_last(), ct, prio, r) + if prio < h.prio {
            ceil_ratio(r, h.deadline as int) * lookup_or_zero(ct, h.id@)
        } else {
            0
        }
    }
}

/// One step of the response-time recurrence: `C + B + demand(r)`.
pub open spec fn response_step(
    ts: Seq<Task>,
    ct: Map<Seq<char>, u32>,
    c: int,
    b: int,
    prio: u8,
    r: int,
) -> int {
    c + b + higher_demand(ts, ct, prio, r)
}

/// `r` is a solution of the response-time recurrence, at least `C + B`.
pub open spec fn is_exact_response(
    ts: Seq<Task>,
    ct: Map<Seq<char>, u32>,
    c: int,
    b: int,
    prio: u8,
    r: int,
) -> bool {
    &&& c + b <= r
    &&& response_step(ts, ct, c, b, prio, r) == r
}

/// `r` is the least solution of the response-time recurrence.
pub open spec fn is_least_exact_response(
    ts: Seq<Task>,
    ct: Map<Seq<char>, u32>,
    c: int,
    b: int,
    prio: u8,
    r: int,
) -> bool {
    &&& is_exact_response(ts, ct, c, b, prio, r)
    &&& forall|q: int| #[trigger] is_exact_response(ts, ct, c, b, prio, q) ==> r <= q
}

/// The recurrence of task `t` has a solution that fits in a `u32`, and so
/// does `C + B`.
pub open spec fn exact_response_exists(
    ts: Seq<Task>,
    ct: Map<Seq<char>, u32>,
    bt: Map<Seq<char>, u32>,
    t: Task,
) -> bool {
    &&& lookup_or_zero(ct, t.id@) + lookup_or_zero(bt, t.id@) <= u32::MAX
    &&& exists|q: int|
        q <= u32::MAX && #[trigger] is_exact_response(
            ts,
            ct,
            lookup_or_zero(ct, t.id@) as int,
            lookup_or_zero(bt, t.id@) as int,
            t.prio,
            q,
        )
}

/// The exact response time of task `t`: the least solution of its recurrence.
pub open spec fn exact_response(
    ts: Seq<Task>,
    ct: Map<Seq<char>, u32>,
    bt: Map<Seq<char>, u32>,
    t: Task,
) -> int {
    choose|r: int|
        is_least_exact_response(
            ts,
            ct,
            lookup_or_zero(ct, t.id@) as int,
            lookup_or_zero(bt, t.id@) as int,
            t.prio,
            r,
        )
}

/// The exact response time of every task.
pub open spec fn exact_response_map(
    ts: Seq<Task>,
    ct: Map<Seq<char>, u32>,
    bt: Map<Seq<char>, u32>,
) -> Map<Seq<char>, u32> {
    task_values(ts, |t: Task| exact_response(ts, ct, bt, t) as u32)
}

/// The interference within the exact response time of every task.
pub open spec fn exact_interference_map(
    ts: Seq<Task>,
    ct: Map<Seq<char>, u32>,
    bt: Map<Seq<char>, u32>,
) -> Map<Seq<char>, u32> {
    task_values(
        ts,
        |t: Task|
            (exact_response(ts, ct, bt, t) - lookup_or_zero(ct, t.id@) - lookup_or_zero(
                bt,
                t.id@,
            )) as u32,
    )
}

/// Every task's exact response time is within its deadline.
pub open spec fn all_exact_meet_deadlines(
    ts: Seq<Task>,
    ct: Map<Seq<char>, u32>,
    bt: Map<Seq<char>, u32>,
) -> bool {
    forall|i: int| 0 <= i < ts.len() ==> exact_response(ts, ct, bt, #[trigger] ts[i]) <= ts[i].deadline
}

pub proof fn lemma_ceil_ratio_mono(r1: int, r2: int, d: int)
    requires
        0 <= r1 <= r2,
        0 <= d,
    ensures
        0 <= ceil_ratio(r1, d) <= ceil_ratio(r2, d),
{
    if d > 0 {
        vstd::arithmetic::div_mod::lemma_div_is_ordered(r1 + d - 1, r2 + d - 1, d);
        vstd::arithmetic::div_mod::lemma_div_pos_is_pos(r1 + d - 1, d);
    }
}

pub proof fn lemma_higher_demand_mono(ts: Seq<Task>, ct: Map<Seq<char>, u32>, prio: u8, r1: int, r2: int)
    requires
        0 <= r1 <= r2,
    ensures
        0 <= higher_demand(ts, ct, prio, r1) <= higher_demand(ts, ct, prio, r2),
    decreases ts.len(),
{
    if ts.len() > 0 {
        lemma_higher_demand_mono(ts.drop_last(), ct, prio, r1, r2);
        let h = ts.last();
        lemma_ceil_ratio_mono(r1, r2, h.deadline as int);
        let x1 = ceil_ratio(r1, h.deadline as int);
        let x2 = ceil_ratio(r2, h.deadline as int);
        let c = lookup_or_zero(ct, h.id@) as int;
        assert(0 <= x1 * c <= x2 * c) by (nonlinear_arith)
            requires
                0 <= x1 <= x2,
                0 <= c,
        ;
    }
}

proof fn lemma_higher_demand_step(ts: Seq<Task>, ct: Map<Seq<char>, u32>, prio: u8, r: int, j: int)
    requires
        0 <= j < ts.len(),
    ensures
        higher_demand(ts.take(j + 1), ct, prio, r) == higher_demand(ts.take(j), ct, prio, r) + if prio
            < ts[j].prio {
            ceil_ratio(r, ts[j].deadline as int) * lookup_or_zero(ct, ts[j].id@)
        } else {
            0
        },
{
    assert(ts.take(j + 1).drop_last() =~= ts.take(j));
}

proof fn lemma_higher_demand_prefix_le(
    ts: Seq<Task>,
    ct: Map<Seq<char>, u32>,
    prio: u8,
    r: int,
    j: int,
    k: int,
)
    requires
        0 <= j <= k <= ts.len(),
        0 <= r,
    ensures
        higher_demand(ts.take(j), ct, prio, r) <= higher_demand(ts.take(k), ct, prio, r),
    decreases k - j,
{
    if j < k {
        lemma_higher_demand_prefix_le(ts, ct, prio, r, j, k - 1);
        lemma_higher_demand_step(ts, ct, prio, r, k - 1);
        lemma_ceil_ratio_mono(0, r, ts[k - 1].deadline as int);
        let x = ceil_ratio(r, ts[k - 1].deadline as int);
        let c = lookup_or_zero(ct, ts[k - 1].id@) as int;
        assert(0 <= x * c) by (nonlinear_arith)
            requires
                0 <= x,
                0 <= c,
        ;
    }
}

/// The least solution of the response-time recurrence of `t`,
/// `R = C + B + sum over tasks h of higher priority of ceil(R / D(h)) * C(h)`,
/// found by iteration from `C + B`, with the interference `R - C - B`;
/// `None` where no solution fits in a `u32`.
pub fn exact_response_time_of(t: &Task, tasks: &Tasks, ct: &Ct, bt: &BlockingTime) -> (res:
    Option<(u32, u32)>)
    requires
        ct.wf(),
        bt.wf(),
    ensures
        ({
            let c = lookup_or_zero(ct@, t.id@) as int;
            let b = lookup_or_zero(bt@, t.id@) as int;
            match res {
                Some((r, i)) => is_least_exact_response(tasks@, ct@, c, b, t.prio, r as int) && i
                    == r - c - b,
                None => !exact_response_exists(tasks@, ct@, bt@, *t),
            }
        }),
{
    let ctask = readin_u32(t, ct);
    let btask = readin_u32(t, bt);
    let prio_task = t.prio;
    let ghost c = ctask as int;
    let ghost b = btask as int;
    if ctask as u64 + btask as u64 > 0xffff_ffffu64 {
        return None;
    }
    let base: u32 = ctask + btask;
    let mut r_old: u32 = base;
    proof {
        lemma_higher_demand_mono(tasks@, ct@, prio_task, 0, r_old as int);
    }
    loop
        invariant
            ct.wf(),
            ctask == lookup_or_zero(ct@, t.id@),
            btask == lookup_or_zero(bt@, t.id@),
            prio_task == t.prio,
            c == ctask,
            b == btask,
            base == c + b,
            base <= r_old,
            r_old <= response_step(tasks@, ct@, c, b, prio_task, r_old as int),
            forall|q: int|
                #[trigger] is_exact_response(tasks@, ct@, c, b, prio_task, q) ==> r_old <= q,
        decreases u32::MAX - r_old,
    {
        let mut sum: u64 = 0;
        let mut j: usize = 0;
        proof {
            assert(tasks@.take(0) =~= Seq::<Task>::empty());
        }
        while j < tasks.len()
            invariant
                ct.wf(),
                ctask == lookup_or_zero(ct@, t.id@),
                btask == lookup_or_zero(bt@, t.id@),
                prio_task == t.prio,
                c == ctask,
                b == btask,
                base == c + b,
                forall|q: int|
                    #[trigger] is_exact_response(tasks@, ct@, c, b, prio_task, q) ==> r_old <= q,
                j <= tasks@.len(),
                base as int + sum <= u32::MAX,
                sum == higher_demand(tasks@.take(j as int), ct@, prio_task, r_old as int),
            decreases tasks@.len() - j,
        {
            let i = &tasks[j];
            let mut term: u64 = 0;
            if prio_task < i.prio {
                let ceiling = ceil_div(r_old, i.deadline);
                let ct_higher = readin_u32(i, ct);
                proof {
                    assert((ceiling as int) * (ct_higher as int) <= u32::MAX as int
                        * u32::MAX as int) by (nonlinear_arith)
                        requires
                            ceiling <= u32::MAX,
                            ct_higher <= u32::MAX,
                    ;
                }
                term = ceiling as u64 * ct_higher as u64;
            }
            proof {
                lemma_higher_demand_step(tasks@, ct@, prio_task, r_old as int, j as int);
            }
            sum = sum + term;
            if base as u64 + sum > 0xffff_ffffu64 {
                proof {
                    lemma_higher_demand_prefix_le(
                        tasks@,
                        ct@,
                        prio_task,
                        r_old as int,
                        j + 1,
                        tasks@.len() as int,
                    );
                    assert(tasks@.take(tasks@.len() as int) =~= tasks@);
                    assert forall|q: int|
                        q <= u32::MAX implies !#[trigger] is_exact_response(
                            tasks@,
                            ct@,
                            c,
                            b,
                            prio_task,
                            q,
                        ) by {
                        if is_exact_response(tasks@, ct@, c, b, prio_task, q) {
                            lemma_higher_demand_mono(tasks@, ct@, prio_task, r_old as int, q);
                        }
                    }
                }
                return None;
            }
            j += 1;
        }
        proof {
            assert(tasks@.take(j as int) =~= tasks@);
        }
        let r_new: u32 = base + sum as u32;
        if r_new == r_old {
            return Some((r_new, sum as u32));
        }
        proof {
            lemma_higher_demand_mono(tasks@, ct@, prio_task, r_old as int, r_new as int);
            assert forall|q: int|
                #[trigger] is_exact_response(tasks@, ct@, c, b, prio_task, q) implies r_new
                <= q by {
                lemma_higher_demand_mono(tasks@, ct@, prio_task, r_old as int, q);
            }
        }
        r_old = r_new;
    }
}

proof fn lemma_least_unique(
    ts: Seq<Task>,
    ct: Map<Seq<char>, u32>,
    c: int,
    b: int,
    prio: u8,
    r1: int,
    r2: int,
)
    requires
        is_least_exact_response(ts, ct, c, b, prio, r1),
        is_least_exact_response(ts, ct, c, b, prio, r2),
    ensures
        r1 == r2,
{
    assert(r1 <= r2);
    assert(r2 <= r1);
}

/// The exact response time of every task, by iterating its response-time
/// recurrence from `C + B` until it is stable, the interference within it,
/// and whether every task responds within its deadline.
pub fn calculate_exact_response_time(tasks: &Tasks, ct: &Ct, bt: &BlockingTime) -> (res: (
    Interference,
    ResponseTime,
    bool,
))
    requires
        ct.wf(),
        bt.wf(),
        forall|i: int|
            0 <= i < tasks@.len() ==> exact_response_exists(tasks@, ct@, bt@, #[trigger] tasks@[i]),
    ensures
        res.0.wf(),
        res.1.wf(),
        res.0@ == exact_interference_map(tasks@, ct@, bt@),
        res.1@ == exact_response_map(tasks@, ct@, bt@),
        res.2 == all_exact_meet_deadlines(tasks@, ct@, bt@),
{
    let mut rt: ResponseTime = IdMap::new();
    let mut it: Interference = IdMap::new();
    let mut rt_possible = true;
    let mut n: usize = 0;
    proof {
        assert(tasks@.take(0) =~= Seq::<Task>::empty());
    }
    while n < tasks.len()
        invariant
            n <= tasks@.len(),
            ct.wf(),
            bt.wf(),
            forall|i: int|
                0 <= i < tasks@.len() ==> exact_response_exists(
                    tasks@,
                    ct@,
                    bt@,
                    #[trigger] tasks@[i],
                ),
            rt.wf(),
            it.wf(),
            rt@ == task_values(
                tasks@.take(n as int),
                |t: Task| exact_response(tasks@, ct@, bt@, t) as u32,
            ),
            it@ == task_values(
                tasks@.take(n as int),
                |t: Task|
                    (exact_response(tasks@, ct@, bt@, t) - lookup_or_zero(ct@, t.id@)
                        - lookup_or_zero(bt@, t.id@)) as u32,
            ),
            rt_possible == (forall|i: int|
                0 <= i < n ==> exact_response(tasks@, ct@, bt@, #[trigger] tasks@[i])
                    <= tasks@[i].deadline),
        decreases tasks@.len() - n,
    {
        let t = &tasks[n];
        let (r_new, ittask) = match exact_response_time_of(t, tasks, ct, bt) {
            Some(p) => p,
            None => {
                assert(exact_response_exists(tasks@, ct@, bt@, tasks@[n as int]));
                (0, 0)
            },
        };
        proof {
            let c = lookup_or_zero(ct@, t.id@) as int;
            let b = lookup_or_zero(bt@, t.id@) as int;
            let e = exact_response(tasks@, ct@, bt@, *t);
            assert(is_least_exact_response(tasks@, ct@, c, b, t.prio, r_new as int));
            assert(is_least_exact_response(tasks@, ct@, c, b, t.prio, e));
            lemma_least_unique(tasks@, ct@, c, b, t.prio, r_new as int, e);
        }
        if r_new > t.deadline {
            rt_possible = false;
        }
        rt.insert(t.id.clone(), r_new);
        it.insert(t.id.clone(), ittask);
        proof {
            assert(tasks@.take(n + 1).drop_last() =~= tasks@.take(n as int));
        }
        n += 1;
    }
    proof {
        assert(tasks@.take(n as int) =~= tasks@);
    }
    (it, rt, rt_possible)
}

/// One row per task, in the order of the tasks: its identifier and its
/// response time, execution time, blocking time and interference (0 where
/// a map has no value for it).
pub fn final_display(
    tasks: &Tasks,
    rt: &ResponseTime,
    ct: &Ct,
    bt: &BlockingTime,
    it: &Interference,
) -> (rows: FinalDisplay)
    requires
        rt.wf(),
        ct.wf(),
        bt.wf(),
        it.wf(),
    ensures
        rows@.len() == tasks@.len(),
        forall|i: int|
            0 <= i < tasks@.len() ==> {
                &&& (#[trigger] rows@[i]).task@ == tasks@[i].id@
                &&& rows@[i].rt == lookup_or_zero(rt@, tasks@[i].id@)
                &&& rows@[i].ct == lookup_or_zero(ct@, tasks@[i].id@)
                &&& rows@[i].bt == lookup_or_zero(bt@, tasks@[i].id@)
                &&& rows@[i].it == lookup_or_zero(it@, tasks@[i].id@)
            },
{
    let mut vec: FinalDisplay = Vec::new();
    let mut n: usize = 0;
    while n < tasks.len()
        invariant
            n <= tasks@.len(),
            rt.wf(),
            ct.wf(),
            bt.wf(),
            it.wf(),
            vec@.len() == n,
            forall|i: int|
                0 <= i < n ==> {
                    &&& (#[trigger] vec@[i]).task@ == tasks@[i].id@
                    &&& vec@[i].rt == lookup_or_zero(rt@, tasks@[i].id@)
                    &&& vec@[i].ct == lookup_or_zero(ct@, tasks@[i].id@)
                    &&& vec@[i].bt == lookup_or_zero(bt@, tasks@[i].id@)
                    &&& vec@[i].it == lookup_or_zero(it@, tasks@[i].id@)
                },
        decreases tasks@.len() - n,
    {
        let t = &tasks[n];
        let rttask = readin_u32(t, rt);
        let cttask = readin_u32(t, ct);
        let bttask = readin_u32(t, bt);
        let ittask = readin_u32(t, it);
        let vec_filler = TaskAnalysis {
            task: t.id.clone(),
            rt: rttask,
            ct: cttask,
            bt: bttask,
            it: ittask,
        };
        vec.push(vec_filler);
        n += 1;
    }
    vec
}

} // verus!
