//! The task model: tasks, their nested resource traces, and the maps that
//! the analysis derives from them.
use vstd::prelude::*;
use crate::idmap::{IdMap, IdSet};

verus! {

/// A critical section (or the whole job of a task): the identifier of the
/// resource or task, its start and end time, and the sections nested in it.
#[derive(Debug)]
pub struct Trace {
    pub id: String,
    pub start: u32,
    pub end: u32,
    pub inner: Vec<Trace>,
}

/// A task: its identifier, priority, relative deadline, minimal
/// inter-arrival time and the trace of one job.
#[derive(Debug)]
pub struct Task {
    pub id: String,
    pub prio: u8,
    pub deadline: u32,
    pub inter_arrival: u32,
    pub trace: Trace,
}

/// One row of the final result: response time, worst-case execution
/// time, blocking time and interference of a task.
#[derive(Debug)]
pub struct TaskAnalysis {
    pub task: String,
    pub rt: u32,
    pub ct: u32,
    pub bt: u32,
    pub it: u32,
}

/// One use of a resource: the resource, how long it is held, and the
/// priority of the task that holds it.
#[derive(Debug)]
pub struct BlockingFiller {
    pub resource: String,
    pub time: u32,
    pub prio: u8,
}

/// A task set.
pub type Tasks = Vec<Task>;

/// Task and resource identifiers to priorities.
pub type IdPrio = IdMap<u8>;

/// Task identifiers to the resources that their jobs use.
pub type TaskResources = IdMap<IdSet>;

/// Task identifiers to minimal inter-arrival times.
pub type InterTimings = IdMap<u32>;

/// Task identifiers to worst-case execution times.
pub type Ct = IdMap<u32>;

/// Every resource use of every task, in trace order.
pub type BlockingVector = Vec<BlockingFiller>;

/// Task identifiers to busy periods.
pub type Bpt = IdMap<u32>;

/// Task identifiers to response times.
pub type ResponseTime = IdMap<u32>;

/// Task identifiers to interference.
pub type Interference = IdMap<u32>;

/// Task identifiers to blocking times.
pub type BlockingTime = IdMap<u32>;

/// The final result, one row per task.
pub type FinalDisplay = Vec<TaskAnalysis>;

/// The identifiers that occur in a trace, its own included.
pub open spec fn trace_ids(tr: Trace) -> Set<Seq<char>>
    decreases tr,
{
    set![tr.id@].union(traces_ids(tr.inner@))
}

/// The identifiers that occur in a sequence of traces.
pub open spec fn traces_ids(ts: Seq<Trace>) -> Set<Seq<char>>
    decreases ts,
{
    if ts.len() == 0 {
        Set::empty()
    } else {
        traces_ids(ts.drop_last()).union(trace_ids(ts.last()))
    }
}


/// `m` after every identifier of `ids` has been given at least priority `p`;
/// an identifier new to `m` gets `p`.
pub open spec fn raise_prio(m: Map<Seq<char>, u8>, p: u8, ids: Set<Seq<char>>) -> Map<
    Seq<char>,
    u8,
> {
    Map::new(
        |k: Seq<char>| m.contains_key(k) || ids.contains(k),
        |k: Seq<char>|
            if ids.contains(k) && (!m.contains_key(k) || m[k] < p) {
                p
            } else {
                m[k]
            },
    )
}

/// The priority map of a task set: every identifier in the trace of a task
/// gets the highest priority among the tasks whose traces hold it.
pub open spec fn prio_map(ts: Seq<Task>) -> Map<Seq<char>, u8>
    decreases ts.len(),
{
    if ts.len() == 0 {
        Map::empty()
    } else {
        raise_prio(prio_map(ts.drop_last()), ts.last().prio, trace_ids(ts.last().trace))
    }
}

/// `m` with the identifiers `ids` added to the set of `k`.
pub open spec fn add_resources(
    m: Map<Seq<char>, Set<Seq<char>>>,
    k: Seq<char>,
    ids: Set<Seq<char>>,
) -> Map<Seq<char>, Set<Seq<char>>> {
    m.insert(
        k,
        if m.contains_key(k) {
            m[k].union(ids)
        } else {
            ids
        },
    )
}

/// The resource map of a task set: a task with nested sections maps to
/// every identifier that occurs below the top of its trace.
pub open spec fn resource_map(ts: Seq<Task>) -> Map<Seq<char>, Set<Seq<char>>>
    decreases ts.len(),
{
    if ts.len() == 0 {
        Map::empty()
    } else {
        let t = ts.last();
        let m = resource_map(ts.drop_last());
        if t.trace.inner@.len() == 0 {
            m
        } else {
            add_resources(m, t.id@, traces_ids(t.trace.inner@))
        }
    }
}

/// The sets held by a resource map.
pub open spec fn resource_sets(tr: TaskResources) -> Map<Seq<char>, Set<Seq<char>>> {
    Map::new(|k: Seq<char>| tr@.contains_key(k), |k: Seq<char>| tr@[k]@)
}

/// A resource map and every set in it are well formed.
pub open spec fn resources_wf(tr: TaskResources) -> bool {
    &&& tr.wf()
    &&& forall|k: Seq<char>| tr@.contains_key(k) ==> (#[trigger] tr@[k]).wf()
}

/// The value of `k` in `m`, or 0 where `m` has none.
pub open spec fn lookup_or_zero(m: Map<Seq<char>, u32>, k: Seq<char>) -> u32 {
    if m.contains_key(k) {
        m[k]
    } else {
        0
    }
}

proof fn lemma_raise_union(
    m: Map<Seq<char>, u8>,
    p: u8,
    a: Set<Seq<char>>,
    b: Set<Seq<char>>,
)
    ensures
        raise_prio(raise_prio(m, p, a), p, b) =~= raise_prio(m, p, a.union(b)),
{
}

proof fn lemma_add_union(
    m: Map<Seq<char>, Set<Seq<char>>>,
    k: Seq<char>,
    a: Set<Seq<char>>,
    b: Set<Seq<char>>,
)
    ensures
        add_resources(add_resources(m, k, a), k, b) =~= add_resources(m, k, a.union(b)),
{
    if m.contains_key(k) {
        assert(m[k].union(a).union(b) =~= m[k].union(a.union(b)));
    }
}

proof fn lemma_traces_ids_step(ts: Seq<Trace>, i: int)
    requires
        0 <= i < ts.len(),
    ensures
        traces_ids(ts.take(i + 1)) == traces_ids(ts.take(i)).union(trace_ids(ts[i])),
{
    assert(ts.take(i + 1).drop_last() =~= ts.take(i));
}

/// Raises every identifier of `trace` (its own and those nested in it) to
/// at least `prio` in `hm`.
pub fn update_prio(prio: u8, trace: &Trace, hm: &mut IdPrio)
    requires
        old(hm).wf(),
    ensures
        final(hm).wf(),
        final(hm)@ == raise_prio(old(hm)@, prio, trace_ids(*trace)),
    decreases trace,
{
    let ghost m0 = hm@;
    let cur: Option<u8> = match hm.get(&trace.id) {
        Some(v) => Some(*v),
        None => None,
    };
    match cur {
        Some(old_prio) => {
            if prio > old_prio {
                hm.insert(trace.id.clone(), prio);
            }
        },
        None => {
            hm.insert(trace.id.clone(), prio);
        },
    }
    proof {
        assert(hm@ =~= raise_prio(m0, prio, set![trace.id@]));
        assert(set![trace.id@].union(traces_ids(trace.inner@.take(0))) =~= set![trace.id@]);
    }
    let mut i: usize = 0;
    while i < trace.inner.len()
        invariant
            hm.wf(),
            i <= trace.inner@.len(),
            hm@ == raise_prio(m0, prio, set![trace.id@].union(traces_ids(trace.inner@.take(i as int)))),
        decreases trace.inner@.len() - i,
    {
        let ghost m1 = hm@;
        update_prio(prio, &trace.inner[i], hm);
        proof {
            lemma_traces_ids_step(trace.inner@, i as int);
            lemma_raise_union(
                m0,
                prio,
                set![trace.id@].union(traces_ids(trace.inner@.take(i as int))),
                trace_ids(trace.inner@[i as int]),
            );
            assert(set![trace.id@].union(traces_ids(trace.inner@.take(i as int))).union(
                trace_ids(trace.inner@[i as int]),
            ) =~= set![trace.id@].union(traces_ids(trace.inner@.take(i + 1))));
        }
        i += 1;
    }
    proof {
        assert(trace.inner@.take(i as int) =~= trace.inner@);
    }
}


/// Adds every identifier of `trace` (its own and those nested in it) to the
/// resource set of task `s`, creating that set where there is none.
pub fn update_tr(s: String, trace: &Trace, trmap: &mut TaskResources)
    requires
        resources_wf(*old(trmap)),
    ensures
        resources_wf(*final(trmap)),
        resource_sets(*final(trmap)) == add_resources(
            resource_sets(*old(trmap)),
            s@,
            trace_ids(*trace),
        ),
    decreases trace,
{
    let ghost m0 = resource_sets(*trmap);
    let mut hs = match trmap.get(&s) {
        Some(seen) => seen.duplicate(),
        None => IdSet::new(),
    };
    hs.insert(trace.id.clone());
    proof {
        if m0.contains_key(s@) {
            assert(hs@ =~= m0[s@].union(set![trace.id@]));
        } else {
            assert(hs@ =~= set![trace.id@]);
        }
    }
    let ghost hv = hs@;
    trmap.insert(s.clone(), hs);
    proof {
        assert(trmap@[s@]@ == hv);
        assert(resource_sets(*trmap) =~= add_resources(m0, s@, set![trace.id@]));
        assert(set![trace.id@].union(traces_ids(trace.inner@.take(0))) =~= set![trace.id@]);
    }
    let mut i: usize = 0;
    while i < trace.inner.len()
        invariant
            resources_wf(*trmap),
            i <= trace.inner@.len(),
            resource_sets(*trmap) == add_resources(
                m0,
                s@,
                set![trace.id@].union(traces_ids(trace.inner@.take(i as int))),
            ),
        decreases trace.inner@.len() - i,
    {
        update_tr(s.clone(), &trace.inner[i], trmap);
        proof {
            lemma_traces_ids_step(trace.inner@, i as int);
            lemma_add_union(
                m0,
                s@,
                set![trace.id@].union(traces_ids(trace.inner@.take(i as int))),
                trace_ids(trace.inner@[i as int]),
            );
            assert(set![trace.id@].union(traces_ids(trace.inner@.take(i as int))).union(
                trace_ids(trace.inner@[i as int]),
            ) =~= set![trace.id@].union(traces_ids(trace.inner@.take(i + 1))));
        }
        i += 1;
    }
    proof {
        assert(trace.inner@.take(i as int) =~= trace.inner@);
    }
}

/// Derives from a task set the priority of every task and resource
/// identifier and the resources that each task uses.
pub fn pre_analysis(tasks: &Tasks) -> (res: (IdPrio, TaskResources))
    ensures
        res.0.wf(),
        res.0@ == prio_map(tasks@),
        resources_wf(res.1),
        resource_sets(res.1) == resource_map(tasks@),
{
    let mut ip: IdPrio = IdMap::new();
    let mut tr: TaskResources = IdMap::new();
    proof {
        assert(resource_sets(tr) =~= Map::<Seq<char>, Set<Seq<char>>>::empty());
        assert(tasks@.take(0) =~= Seq::<Task>::empty());
    }
    let mut n: usize = 0;
    while n < tasks.len()
        invariant
            n <= tasks@.len(),
            ip.wf(),
            ip@ == prio_map(tasks@.take(n as int)),
            resources_wf(tr),
            resource_sets(tr) == resource_map(tasks@.take(n as int)),
        decreases tasks@.len() - n,
    {
        let t = &tasks[n];
        update_prio(t.prio, &t.trace, &mut ip);
        let ghost m0 = resource_sets(tr);
        let mut i: usize = 0;
        while i < t.trace.inner.len()
            invariant
                i <= t.trace.inner@.len(),
                resources_wf(tr),
                i == 0 ==> resource_sets(tr) == m0,
                i > 0 ==> resource_sets(tr) == add_resources(
                    m0,
                    t.id@,
                    traces_ids(t.trace.inner@.take(i as int)),
                ),
            decreases t.trace.inner@.len() - i,
        {
            update_tr(t.id.clone(), &t.trace.inner[i], &mut tr);
            proof {
                lemma_traces_ids_step(t.trace.inner@, i as int);
                if i > 0 {
                    lemma_add_union(
                        m0,
                        t.id@,
                        traces_ids(t.trace.inner@.take(i as int)),
                        trace_ids(t.trace.inner@[i as int]),
                    );
                } else {
                    assert(traces_ids(t.trace.inner@.take(0)) =~= Set::<Seq<char>>::empty());
                    assert(Set::<Seq<char>>::empty().union(trace_ids(t.trace.inner@[0])) =~= trace_ids(
                        t.trace.inner@[0],
                    ));
                }
            }
            i += 1;
        }
        proof {
            assert(t.trace.inner@.take(i as int) =~= t.trace.inner@);
            assert(tasks@.take(n + 1).drop_last() =~= tasks@.take(n as int));
        }
        n += 1;
    }
    proof {
        assert(tasks@.take(n as int) =~= tasks@);
    }
    (ip, tr)
}

/// The value stored under the task's identifier in `hin`, or 0 where there is none.
pub fn readin_u32(task: &Task, hin: &IdMap<u32>) -> (out: u32)
    requires
        hin.wf(),
    ensures
        out == lookup_or_zero(hin@, task.id@),
{
    let mut out: u32 = 0;
    if let Some(value) = hin.get(&task.id) {
        out = *value;
    }
    out
}

} // verus!
