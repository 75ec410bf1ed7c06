use lib::analysis::{
    build_blocking_vector, calculate_blocking_time, calculate_busy_period,
    calculate_exact_response_time, calculate_interference, calculate_response_time, ceil_div,
    exact_response_time_of, fill_blocking_vector, final_display, interference_for,
    max_blocking, names_task, own_analysis, response_time_of, sections_are_timed,
    trace_is_timed, blocking_time_of,
};
use lib::idmap::{IdMap, IdSet};
use lib::model::{pre_analysis, readin_u32, update_prio, update_tr, BlockingFiller, Task, Trace};

fn tr(id: &str, start: u32, end: u32, inner: Vec<Trace>) -> Trace {
    Trace { id: id.to_string(), start, end, inner }
}

fn task(id: &str, prio: u8, deadline: u32, inter_arrival: u32, trace: Trace) -> Task {
    Task { id: id.to_string(), prio, deadline, inter_arrival, trace }
}

/// The task set of the example program.
fn example_tasks() -> Vec<Task> {
    let t1 = task(
        "T1",
        1,
        100,
        100,
        tr("T1", 0, 10, vec![tr("R1", 5, 10, vec![tr("R2", 5, 10, vec![])])]),
    );
    let t2 = task(
        "T2",
        2,
        200,
        200,
        tr(
            "T2",
            0,
            30,
            vec![
                tr("R1", 10, 20, vec![tr("R2", 12, 16, vec![])]),
                tr("R1", 22, 28, vec![]),
            ],
        ),
    );
    let t3 = task("T3", 3, 50, 50, tr("T3", 0, 30, vec![tr("R2", 10, 20, vec![])]));
    vec![t1, t2, t3]
}

fn s(x: &str) -> String {
    x.to_string()
}

fn get_u32(m: &IdMap<u32>, k: &str) -> Option<u32> {
    m.get(&s(k)).copied()
}

fn set_items(set: &IdSet) -> Vec<String> {
    let mut v = Vec::new();
    for i in 0..set.len() {
        v.push(set.item_at(i).clone());
    }
    v.sort();
    v
}

#[test]
fn pre_analysis_gives_highest_priority_per_identifier() {
    let tasks = example_tasks();
    let (ip, _tr) = pre_analysis(&tasks);
    assert_eq!(ip.len(), 5);
    assert_eq!(ip.get(&s("T1")).copied(), Some(1));
    assert_eq!(ip.get(&s("T2")).copied(), Some(2));
    assert_eq!(ip.get(&s("T3")).copied(), Some(3));
    assert_eq!(ip.get(&s("R1")).copied(), Some(2));
    assert_eq!(ip.get(&s("R2")).copied(), Some(3));
    assert_eq!(ip.get(&s("R3")).copied(), None);
}

#[test]
fn pre_analysis_gives_resources_per_task() {
    let tasks = example_tasks();
    let (_ip, tr_map) = pre_analysis(&tasks);
    assert_eq!(tr_map.len(), 3);
    assert_eq!(set_items(tr_map.get(&s("T1")).unwrap()), vec![s("R1"), s("R2")]);
    assert_eq!(set_items(tr_map.get(&s("T2")).unwrap()), vec![s("R1"), s("R2")]);
    assert_eq!(set_items(tr_map.get(&s("T3")).unwrap()), vec![s("R2")]);
}

#[test]
fn pre_analysis_task_without_sections_has_no_resource_entry() {
    let tasks = vec![task("T9", 4, 10, 10, tr("T9", 0, 3, vec![]))];
    let (ip, tr_map) = pre_analysis(&tasks);
    assert_eq!(ip.get(&s("T9")).copied(), Some(4));
    assert_eq!(tr_map.len(), 0);
    assert!(tr_map.get(&s("T9")).is_none());
}

#[test]
fn pre_analysis_of_empty_task_set_is_empty() {
    let tasks: Vec<Task> = vec![];
    let (ip, tr_map) = pre_analysis(&tasks);
    assert_eq!(ip.len(), 0);
    assert_eq!(tr_map.len(), 0);
}

#[test]
fn pre_analysis_merges_resources_of_tasks_with_one_identifier() {
    let tasks = vec![
        task("T1", 1, 10, 10, tr("T1", 0, 5, vec![tr("A", 1, 2, vec![])])),
        task("T1", 5, 10, 10, tr("T1", 0, 5, vec![tr("B", 1, 2, vec![])])),
    ];
    let (ip, tr_map) = pre_analysis(&tasks);
    assert_eq!(ip.get(&s("T1")).copied(), Some(5));
    assert_eq!(ip.get(&s("A")).copied(), Some(1));
    assert_eq!(ip.get(&s("B")).copied(), Some(5));
    assert_eq!(set_items(tr_map.get(&s("T1")).unwrap()), vec![s("A"), s("B")]);
}

#[test]
fn update_prio_keeps_the_higher_priority() {
    let mut hm: IdMap<u8> = IdMap::new();
    update_prio(3, &tr("X", 0, 1, vec![tr("Y", 0, 1, vec![])]), &mut hm);
    update_prio(2, &tr("X", 0, 1, vec![tr("Z", 0, 1, vec![])]), &mut hm);
    assert_eq!(hm.get(&s("X")).copied(), Some(3));
    assert_eq!(hm.get(&s("Y")).copied(), Some(3));
    assert_eq!(hm.get(&s("Z")).copied(), Some(2));
    update_prio(7, &tr("Y", 0, 1, vec![]), &mut hm);
    assert_eq!(hm.get(&s("Y")).copied(), Some(7));
}

#[test]
fn update_tr_adds_the_whole_trace() {
    let mut trmap: IdMap<IdSet> = IdMap::new();
    update_tr(s("T"), &tr("A", 0, 1, vec![tr("B", 0, 1, vec![tr("C", 0, 1, vec![])])]), &mut trmap);
    assert_eq!(set_items(trmap.get(&s("T")).unwrap()), vec![s("A"), s("B"), s("C")]);
    update_tr(s("T"), &tr("A", 0, 1, vec![tr("D", 0, 1, vec![])]), &mut trmap);
    assert_eq!(set_items(trmap.get(&s("T")).unwrap()), vec![s("A"), s("B"), s("C"), s("D")]);
}

#[test]
fn readin_u32_reads_value_or_zero() {
    let tasks = example_tasks();
    let mut m: IdMap<u32> = IdMap::new();
    m.insert(s("T1"), 42);
    assert_eq!(readin_u32(&tasks[0], &m), 42);
    assert_eq!(readin_u32(&tasks[1], &m), 0);
}

#[test]
fn own_analysis_collects_arrivals_and_execution_times() {
    let tasks = example_tasks();
    let (at, ct) = own_analysis(&tasks);
    assert_eq!(get_u32(&at, "T1"), Some(100));
    assert_eq!(get_u32(&at, "T2"), Some(200));
    assert_eq!(get_u32(&at, "T3"), Some(50));
    assert_eq!(get_u32(&ct, "T1"), Some(10));
    assert_eq!(get_u32(&ct, "T2"), Some(30));
    assert_eq!(get_u32(&ct, "T3"), Some(30));
    assert_eq!(at.len(), 3);
}

#[test]
fn own_analysis_later_task_overrides_same_identifier() {
    let tasks = vec![
        task("T1", 1, 10, 10, tr("T1", 0, 5, vec![])),
        task("T1", 1, 10, 20, tr("T1", 2, 9, vec![])),
    ];
    let (at, ct) = own_analysis(&tasks);
    assert_eq!(at.len(), 1);
    assert_eq!(get_u32(&at, "T1"), Some(20));
    assert_eq!(get_u32(&ct, "T1"), Some(7));
}

#[test]
fn busy_period_is_the_deadline() {
    let tasks = example_tasks();
    let bpt = calculate_busy_period(&tasks);
    assert_eq!(get_u32(&bpt, "T1"), Some(100));
    assert_eq!(get_u32(&bpt, "T2"), Some(200));
    assert_eq!(get_u32(&bpt, "T3"), Some(50));
}

#[test]
fn blocking_vector_lists_every_nested_use_in_order() {
    let tasks = example_tasks();
    let bv = build_blocking_vector(&tasks);
    let got: Vec<(String, u32, u8)> =
        bv.iter().map(|b| (b.resource.clone(), b.time, b.prio)).collect();
    assert_eq!(
        got,
        vec![
            (s("R1"), 5, 1),
            (s("R2"), 5, 1),
            (s("R1"), 10, 2),
            (s("R2"), 4, 2),
            (s("R1"), 6, 2),
            (s("R2"), 10, 3),
        ]
    );
}

#[test]
fn fill_blocking_vector_appends_pre_order() {
    let mut bv: Vec<BlockingFiller> = vec![BlockingFiller { resource: s("Z"), time: 1, prio: 9 }];
    fill_blocking_vector(&tr("A", 0, 4, vec![tr("B", 1, 2, vec![]), tr("C", 2, 4, vec![])]), 3, &mut bv);
    let got: Vec<(String, u32, u8)> =
        bv.iter().map(|b| (b.resource.clone(), b.time, b.prio)).collect();
    assert_eq!(got, vec![(s("Z"), 1, 9), (s("A"), 4, 3), (s("B"), 1, 3), (s("C"), 2, 3)]);
}

#[test]
fn max_blocking_takes_longest_lower_priority_hold() {
    let tasks = example_tasks();
    let bv = build_blocking_vector(&tasks);
    assert_eq!(max_blocking(&bv, &s("R2"), 3), 5);
    assert_eq!(max_blocking(&bv, &s("R1"), 3), 10);
    assert_eq!(max_blocking(&bv, &s("R1"), 2), 5);
    assert_eq!(max_blocking(&bv, &s("R1"), 1), 0);
    assert_eq!(max_blocking(&bv, &s("R9"), 9), 0);
}

#[test]
fn blocking_time_of_example() {
    let tasks = example_tasks();
    let (_ip, tr_map) = pre_analysis(&tasks);
    let bt = calculate_blocking_time(&tasks, &tr_map);
    assert_eq!(get_u32(&bt, "T1"), Some(0));
    assert_eq!(get_u32(&bt, "T2"), Some(10));
    assert_eq!(get_u32(&bt, "T3"), Some(5));
}

#[test]
fn blocking_time_of_overflow_is_none() {
    let tasks = vec![
        task(
            "T1",
            1,
            10,
            10,
            tr("T1", 0, 5, vec![tr("A", 0, u32::MAX, vec![]), tr("B", 0, u32::MAX, vec![])]),
        ),
        task("T2", 2, 10, 10, tr("T2", 0, 5, vec![tr("A", 0, 1, vec![]), tr("B", 0, 1, vec![])])),
    ];
    let (_ip, tr_map) = pre_analysis(&tasks);
    let bv = build_blocking_vector(&tasks);
    assert_eq!(blocking_time_of(&tasks[1], &bv, &tr_map), None);
    assert_eq!(blocking_time_of(&tasks[0], &bv, &tr_map), Some(0));
}

#[test]
fn timing_checks() {
    assert!(trace_is_timed(&tr("A", 1, 2, vec![tr("B", 1, 1, vec![])])));
    assert!(!trace_is_timed(&tr("A", 1, 2, vec![tr("B", 3, 1, vec![])])));
    assert!(!trace_is_timed(&tr("A", 3, 2, vec![])));
    assert!(sections_are_timed(&task("T", 1, 1, 1, tr("T", 5, 0, vec![tr("B", 1, 2, vec![])]))));
    assert!(!sections_are_timed(&task("T", 1, 1, 1, tr("T", 0, 5, vec![tr("B", 2, 1, vec![])]))));
}

#[test]
fn ceil_div_values() {
    assert_eq!(ceil_div(7, 2), 4);
    assert_eq!(ceil_div(8, 2), 4);
    assert_eq!(ceil_div(0, 5), 0);
    assert_eq!(ceil_div(100, 200), 1);
    assert_eq!(ceil_div(u32::MAX, 1), u32::MAX);
    assert_eq!(ceil_div(u32::MAX, u32::MAX), 1);
    assert_eq!(ceil_div(0, 0), 0);
    assert_eq!(ceil_div(5, 0), u32::MAX);
}

#[test]
fn names_task_looks_for_letter_t() {
    assert!(names_task(&s("T1")));
    assert!(names_task(&s("xTy")));
    assert!(!names_task(&s("R1")));
    assert!(!names_task(&s("t1")));
    assert!(!names_task(&s("")));
}

#[test]
fn interference_of_example() {
    let tasks = example_tasks();
    let (ip, _tr) = pre_analysis(&tasks);
    let (at, ct) = own_analysis(&tasks);
    let bpt = calculate_busy_period(&tasks);
    let it = calculate_interference(&tasks, &ip, &ct, &at, &bpt);
    assert_eq!(get_u32(&it, "T1"), Some(90));
    assert_eq!(get_u32(&it, "T2"), Some(120));
    assert_eq!(get_u32(&it, "T3"), Some(0));
}

#[test]
fn interference_ignores_identifiers_without_t() {
    let tasks = vec![
        task("T1", 1, 100, 100, tr("T1", 0, 10, vec![])),
        task("X2", 5, 100, 10, tr("X2", 0, 3, vec![])),
    ];
    let (ip, _tr) = pre_analysis(&tasks);
    let (at, ct) = own_analysis(&tasks);
    let bpt = calculate_busy_period(&tasks);
    assert_eq!(interference_for(&tasks[0], &ip, &ct, &at, &bpt), Some(0));
}

#[test]
fn interference_overflow_is_none() {
    let tasks = vec![
        task("T1", 1, u32::MAX, 100, tr("T1", 0, 10, vec![])),
        task("T2", 2, 100, 1, tr("T2", 0, 2, vec![])),
    ];
    let (ip, _tr) = pre_analysis(&tasks);
    let (at, ct) = own_analysis(&tasks);
    let bpt = calculate_busy_period(&tasks);
    assert_eq!(interference_for(&tasks[0], &ip, &ct, &at, &bpt), None);
    assert_eq!(interference_for(&tasks[1], &ip, &ct, &at, &bpt), Some(0));
}

#[test]
fn interference_with_zero_inter_arrival() {
    let tasks = vec![
        task("T1", 1, 10, 100, tr("T1", 0, 10, vec![])),
        task("T2", 2, 100, 0, tr("T2", 0, 1, vec![])),
    ];
    let (ip, _tr) = pre_analysis(&tasks);
    let (at, ct) = own_analysis(&tasks);
    let bpt = calculate_busy_period(&tasks);
    assert_eq!(interference_for(&tasks[0], &ip, &ct, &at, &bpt), Some(u32::MAX));
}

#[test]
fn response_time_of_example() {
    let tasks = example_tasks();
    let (ip, tr_map) = pre_analysis(&tasks);
    let (at, ct) = own_analysis(&tasks);
    let bt = calculate_blocking_time(&tasks, &tr_map);
    let bpt = calculate_busy_period(&tasks);
    let it = calculate_interference(&tasks, &ip, &ct, &at, &bpt);
    let (rt, ok) = calculate_response_time(&tasks, &ct, &bt, &it);
    assert!(ok);
    assert_eq!(get_u32(&rt, "T1"), Some(100));
    assert_eq!(get_u32(&rt, "T2"), Some(160));
    assert_eq!(get_u32(&rt, "T3"), Some(35));
    let rows = final_display(&tasks, &rt, &ct, &bt, &it);
    assert_eq!(rows.len(), 3);
    assert_eq!(rows[0].task, "T1");
    assert_eq!((rows[0].rt, rows[0].ct, rows[0].bt, rows[0].it), (100, 10, 0, 90));
    assert_eq!(rows[1].task, "T2");
    assert_eq!((rows[1].rt, rows[1].ct, rows[1].bt, rows[1].it), (160, 30, 10, 120));
    assert_eq!(rows[2].task, "T3");
    assert_eq!((rows[2].rt, rows[2].ct, rows[2].bt, rows[2].it), (35, 30, 5, 0));
}

#[test]
fn response_time_beyond_deadline_is_reported() {
    let tasks = vec![
        task("T1", 1, 15, 100, tr("T1", 0, 10, vec![])),
        task("T2", 2, 100, 50, tr("T2", 0, 10, vec![])),
    ];
    let (ip, tr_map) = pre_analysis(&tasks);
    let (at, ct) = own_analysis(&tasks);
    let bt = calculate_blocking_time(&tasks, &tr_map);
    let bpt = calculate_busy_period(&tasks);
    let it = calculate_interference(&tasks, &ip, &ct, &at, &bpt);
    let (rt, ok) = calculate_response_time(&tasks, &ct, &bt, &it);
    assert!(!ok);
    assert_eq!(get_u32(&rt, "T1"), Some(20));
    assert_eq!(get_u32(&rt, "T2"), Some(10));
}

#[test]
fn response_time_of_overflow_is_none() {
    let tasks = vec![task("T1", 1, 15, 100, tr("T1", 0, 10, vec![]))];
    let mut ct: IdMap<u32> = IdMap::new();
    ct.insert(s("T1"), u32::MAX);
    let mut bt: IdMap<u32> = IdMap::new();
    bt.insert(s("T1"), 1);
    let it: IdMap<u32> = IdMap::new();
    assert_eq!(response_time_of(&tasks[0], &ct, &bt, &it), None);
    let bt0: IdMap<u32> = IdMap::new();
    assert_eq!(response_time_of(&tasks[0], &ct, &bt0, &it), Some(u32::MAX));
}

#[test]
fn response_time_of_empty_task_set_is_possible() {
    let tasks: Vec<Task> = vec![];
    let m: IdMap<u32> = IdMap::new();
    let (rt, ok) = calculate_response_time(&tasks, &m, &m, &m);
    assert!(ok);
    assert_eq!(rt.len(), 0);
}

#[test]
fn exact_response_time_of_example() {
    let tasks = example_tasks();
    let (_ip, tr_map) = pre_analysis(&tasks);
    let (_at, ct) = own_analysis(&tasks);
    let bt = calculate_blocking_time(&tasks, &tr_map);
    let (it, rt, ok) = calculate_exact_response_time(&tasks, &ct, &bt);
    assert!(ok);
    assert_eq!(get_u32(&rt, "T1"), Some(100));
    assert_eq!(get_u32(&rt, "T2"), Some(100));
    assert_eq!(get_u32(&rt, "T3"), Some(35));
    assert_eq!(get_u32(&it, "T1"), Some(90));
    assert_eq!(get_u32(&it, "T2"), Some(60));
    assert_eq!(get_u32(&it, "T3"), Some(0));
}

#[test]
fn exact_response_time_beyond_deadline_is_reported() {
    let tasks = vec![
        task("T1", 1, 20, 100, tr("T1", 0, 10, vec![])),
        task("T2", 2, 15, 50, tr("T2", 0, 10, vec![])),
    ];
    let (_ip, tr_map) = pre_analysis(&tasks);
    let (_at, ct) = own_analysis(&tasks);
    let bt = calculate_blocking_time(&tasks, &tr_map);
    let (it, rt, ok) = calculate_exact_response_time(&tasks, &ct, &bt);
    // T1: 10 -> 10 + 10 = 20 -> 10 + ceil(20/15) * 10 = 30 -> 30 (stable).
    assert!(!ok);
    assert_eq!(get_u32(&rt, "T1"), Some(30));
    assert_eq!(get_u32(&it, "T1"), Some(20));
    assert_eq!(get_u32(&rt, "T2"), Some(10));
}

#[test]
fn exact_response_time_without_solution_is_none() {
    let tasks = vec![
        task("T1", 1, 100, 100, tr("T1", 0, 1, vec![])),
        task("T2", 2, 1, 1, tr("T2", 0, 1000, vec![])),
    ];
    let (_ip, tr_map) = pre_analysis(&tasks);
    let (_at, ct) = own_analysis(&tasks);
    let bt = calculate_blocking_time(&tasks, &tr_map);
    // R = 1 + 1000 * R has no solution.
    assert_eq!(exact_response_time_of(&tasks[0], &tasks, &ct, &bt), None);
    assert_eq!(exact_response_time_of(&tasks[1], &tasks, &ct, &bt), Some((1000, 0)));
}

#[test]
fn exact_response_time_of_zero_demand_task() {
    let tasks = vec![
        task("T1", 1, 100, 100, tr("T1", 0, 0, vec![])),
        task("T2", 2, 0, 1, tr("T2", 0, 1, vec![])),
    ];
    let (_ip, tr_map) = pre_analysis(&tasks);
    let (_at, ct) = own_analysis(&tasks);
    let bt = calculate_blocking_time(&tasks, &tr_map);
    assert_eq!(exact_response_time_of(&tasks[0], &tasks, &ct, &bt), Some((0, 0)));
}

#[test]
fn exact_response_time_with_zero_deadline_overflows() {
    let tasks = vec![
        task("T1", 1, 100, 100, tr("T1", 0, 1, vec![])),
        task("T2", 2, 0, 1, tr("T2", 0, 1, vec![])),
    ];
    let (_ip, tr_map) = pre_analysis(&tasks);
    let (_at, ct) = own_analysis(&tasks);
    let bt = calculate_blocking_time(&tasks, &tr_map);
    assert_eq!(exact_response_time_of(&tasks[0], &tasks, &ct, &bt), None);
}

#[test]
fn id_map_insert_get_and_order() {
    let mut m: IdMap<u32> = IdMap::new();
    assert_eq!(m.len(), 0);
    m.insert(s("b"), 1);
    m.insert(s("a"), 2);
    m.insert(s("b"), 3);
    assert_eq!(m.len(), 2);
    assert_eq!(get_u32(&m, "b"), Some(3));
    assert_eq!(get_u32(&m, "a"), Some(2));
    assert_eq!(get_u32(&m, "c"), None);
    assert!(m.contains_key(&s("a")));
    assert!(!m.contains_key(&s("c")));
    assert_eq!(m.key_at(0), "b");
    assert_eq!(*m.value_at(0), 3);
    assert_eq!(m.key_at(1), "a");
}

#[test]
fn id_set_insert_and_contains() {
    let mut set = IdSet::new();
    set.insert(s("x"));
    set.insert(s("y"));
    set.insert(s("x"));
    assert_eq!(set.len(), 2);
    assert!(set.contains(&s("x")));
    assert!(!set.contains(&s("z")));
    assert_eq!(set.item_at(0), "x");
    let copy = set.duplicate();
    assert_eq!(set_items(&copy), vec![s("x"), s("y")]);
}

#[test]
fn law_every_row_response_is_execution_plus_blocking_plus_interference() {
    let tasks = example_tasks();
    let (ip, tr_map) = pre_analysis(&tasks);
    let (at, ct) = own_analysis(&tasks);
    let bt = calculate_blocking_time(&tasks, &tr_map);
    let bpt = calculate_busy_period(&tasks);
    let it = calculate_interference(&tasks, &ip, &ct, &at, &bpt);
    let (rt, _) = calculate_response_time(&tasks, &ct, &bt, &it);
    for row in final_display(&tasks, &rt, &ct, &bt, &it) {
        assert_eq!(row.rt, row.ct + row.bt + row.it);
    }
    let (eit, ert, _) = calculate_exact_response_time(&tasks, &ct, &bt);
    for row in final_display(&tasks, &ert, &ct, &bt, &eit) {
        assert_eq!(row.rt, row.ct + row.bt + row.it);
    }
}

#[test]
fn law_every_used_resource_has_a_priority_at_least_its_users() {
    let tasks = example_tasks();
    let (ip, tr_map) = pre_analysis(&tasks);
    for t in &tasks {
        if let Some(set) = tr_map.get(&t.id) {
            for i in 0..set.len() {
                let p = ip.get(set.item_at(i)).copied().unwrap();
                assert!(p >= t.prio);
            }
        }
    }
}

#[test]
fn law_extreme_priorities() {
    let tasks = example_tasks();
    let (ip, tr_map) = pre_analysis(&tasks);
    let (at, ct) = own_analysis(&tasks);
    let bt = calculate_blocking_time(&tasks, &tr_map);
    let bpt = calculate_busy_period(&tasks);
    // The lowest-priority task is never blocked.
    assert_eq!(get_u32(&bt, "T1"), Some(0));
    // The highest-priority task suffers no interference and responds in C + B.
    assert_eq!(interference_for(&tasks[2], &ip, &ct, &at, &bpt), Some(0));
    assert_eq!(exact_response_time_of(&tasks[2], &tasks, &ct, &bt), Some((35, 0)));
}

#[test]
fn law_higher_priority_task_does_not_change_blocking() {
    let tasks = example_tasks();
    let (_ip, tr_map) = pre_analysis(&tasks);
    let before = calculate_blocking_time(&tasks, &tr_map);
    let mut more = example_tasks();
    more.push(task("T4", 2, 10, 10, tr("T4", 0, 50, vec![tr("R1", 0, 40, vec![tr("R2", 0, 30, vec![])])])));
    let after = calculate_blocking_time(&more, &tr_map);
    assert_eq!(get_u32(&after, "T2"), get_u32(&before, "T2"));
    assert_eq!(get_u32(&after, "T2"), Some(10));
    // A lower-priority holder of the same resources does count.
    assert_eq!(get_u32(&after, "T3"), Some(30));
}

fn prio_pairs(m: &IdMap<u8>) -> Vec<(String, u8)> {
    let mut v = Vec::new();
    for i in 0..m.len() {
        v.push((m.key_at(i).clone(), *m.value_at(i)));
    }
    v.sort();
    v
}

fn resource_pairs(m: &IdMap<IdSet>) -> Vec<(String, Vec<String>)> {
    let mut v = Vec::new();
    for i in 0..m.len() {
        v.push((m.key_at(i).clone(), set_items(m.value_at(i))));
    }
    v.sort();
    v
}

#[test]
fn law_pre_analysis_ignores_task_order() {
    let tasks = example_tasks();
    let mut reversed = example_tasks();
    reversed.reverse();
    let (ip1, tr1) = pre_analysis(&tasks);
    let (ip2, tr2) = pre_analysis(&reversed);
    assert_eq!(prio_pairs(&ip1), prio_pairs(&ip2));
    assert_eq!(resource_pairs(&tr1), resource_pairs(&tr2));
}

#[test]
fn law_pre_analysis_of_concatenation_merges() {
    let mut a = example_tasks();
    let b = vec![
        task("T1", 5, 10, 10, tr("T1", 0, 5, vec![tr("R3", 1, 2, vec![])])),
        task("T4", 0, 10, 10, tr("T4", 0, 5, vec![tr("R1", 1, 2, vec![])])),
    ];
    let (ipb, trb) = pre_analysis(&b);
    assert_eq!(prio_pairs(&ipb), vec![(s("R1"), 0), (s("R3"), 5), (s("T1"), 5), (s("T4"), 0)]);
    assert_eq!(resource_pairs(&trb), vec![(s("T1"), vec![s("R3")]), (s("T4"), vec![s("R1")])]);
    a.extend(b);
    let (ip, trm) = pre_analysis(&a);
    assert_eq!(
        prio_pairs(&ip),
        vec![(s("R1"), 2), (s("R2"), 3), (s("R3"), 5), (s("T1"), 5), (s("T2"), 2), (s("T3"), 3), (s("T4"), 0)]
    );
    assert_eq!(
        resource_pairs(&trm),
        vec![
            (s("T1"), vec![s("R1"), s("R2"), s("R3")]),
            (s("T2"), vec![s("R1"), s("R2")]),
            (s("T3"), vec![s("R2")]),
            (s("T4"), vec![s("R1")]),
        ]
    );
}

#[test]
fn law_interference_grows_with_busy_period() {
    let tasks = example_tasks();
    let (ip, _tr) = pre_analysis(&tasks);
    let (at, ct) = own_analysis(&tasks);
    let bpt = calculate_busy_period(&tasks);
    let mut bpt2 = calculate_busy_period(&tasks);
    bpt2.insert(s("T1"), 201);
    let it = calculate_interference(&tasks, &ip, &ct, &at, &bpt);
    let it2 = calculate_interference(&tasks, &ip, &ct, &at, &bpt2);
    // 30 * ceil(201/200) + 30 * ceil(201/50) = 60 + 150.
    assert_eq!(get_u32(&it2, "T1"), Some(210));
    assert!(get_u32(&it2, "T1") >= get_u32(&it, "T1"));
}

#[test]
fn law_exact_response_grows_with_blocking() {
    let tasks = example_tasks();
    let (_ip, tr_map) = pre_analysis(&tasks);
    let (_at, ct) = own_analysis(&tasks);
    let bt = calculate_blocking_time(&tasks, &tr_map);
    let mut bt2 = calculate_blocking_time(&tasks, &tr_map);
    bt2.insert(s("T2"), 21);
    let (_it, rt, _) = calculate_exact_response_time(&tasks, &ct, &bt);
    let (_it2, rt2, _) = calculate_exact_response_time(&tasks, &ct, &bt2);
    // T2: 51 -> 51 + 60 = 111 -> 51 + 90 = 141 -> 51 + 90 = 141.
    assert_eq!(get_u32(&rt2, "T2"), Some(141));
    assert!(get_u32(&rt2, "T2") >= get_u32(&rt, "T2"));
}

#[test]
fn law_higher_priority_task_does_not_change_blocking_with_repeated_ids() {
    let tasks = vec![
        task("T1", 1, 10, 10, tr("T1", 0, 5, vec![tr("A", 0, 3, vec![])])),
        task("T2", 2, 10, 10, tr("T2", 0, 5, vec![tr("A", 0, 1, vec![])])),
        task("T2", 3, 10, 10, tr("T2", 0, 5, vec![tr("A", 0, 2, vec![])])),
    ];
    let (_ip, tr_map) = pre_analysis(&tasks);
    let before = calculate_blocking_time(&tasks, &tr_map);
    assert_eq!(get_u32(&before, "T2"), Some(3));
    let mut more = tasks;
    more.push(task("T5", 3, 10, 10, tr("T5", 0, 9, vec![tr("A", 0, 9, vec![])])));
    let after = calculate_blocking_time(&more, &tr_map);
    assert_eq!(get_u32(&after, "T2"), Some(3));
}
