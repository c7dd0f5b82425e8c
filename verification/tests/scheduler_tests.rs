use ninja_rs::builder::scheduler::{
    build_graph, node_step, requested_nodes, BuildState, NodeStep, ParallelTopoScheduler, SchedulerGraph,
};
use ninja_rs::builder::task::{Key, KeyPath, Task, TaskVariant, Tasks};

fn path(p: &[u8]) -> Key {
    Key::Path(KeyPath(p.to_vec()))
}

fn command(deps: Vec<Key>) -> Task {
    Task { dependencies: deps, order_dependencies: vec![], variant: TaskVariant::Command("cmd".to_owned()) }
}

/// foo <- foo.o <- foo.c, and bar <- bar.o <- bar.c, with foo also depending on bar.o.
fn sample_tasks() -> Tasks {
    let mut tasks = Tasks::new();
    tasks.insert(path(b"foo.o"), command(vec![path(b"foo.c")]));
    tasks.insert(path(b"bar.o"), command(vec![path(b"bar.c")]));
    tasks.insert(path(b"foo"), command(vec![path(b"foo.o"), path(b"bar.o")]));
    tasks
}

fn node_of(g: &SchedulerGraph, p: &[u8]) -> usize {
    (0..g.node_count()).find(|&i| g.key(i).same(&path(p))).expect("node")
}

#[test]
fn scheduler_graph_of_all_tasks() {
    let tasks = sample_tasks();
    let g = build_graph(&tasks, &None);
    // foo.o, foo.c, bar.o, bar.c, foo
    assert_eq!(g.node_count(), 5);
    let roots = requested_nodes(&g, &None);
    assert_eq!(roots, vec![node_of(&g, b"foo")]);
}

#[test]
fn scheduler_graph_from_start_keeps_what_is_needed() {
    let tasks = sample_tasks();
    let g = build_graph(&tasks, &Some(vec![path(b"bar.o")]));
    assert_eq!(g.node_count(), 2);
    let roots = requested_nodes(&g, &Some(vec![path(b"bar.o")]));
    assert_eq!(roots, vec![node_of(&g, b"bar.o")]);
}

#[test]
fn scheduler_start_without_task_gives_no_node() {
    let tasks = sample_tasks();
    let g = build_graph(&tasks, &Some(vec![path(b"nothing")]));
    assert_eq!(g.node_count(), 0);
}

#[test]
fn scheduler_runs_dependencies_first() {
    let tasks = sample_tasks();
    let scheduler = ParallelTopoScheduler::new(2);
    assert_eq!(scheduler.max_parallel(), 2);
    let (g, mut state) = scheduler.plan(&tasks, &None);
    let mut order = Vec::new();
    while !state.done() {
        let node = state.next_ready().expect("a ready node");
        order.push(node);
        state.finish_node(&g, node, true);
    }
    assert_eq!(order.len(), 5);
    let pos = |p: &[u8]| order.iter().position(|&n| n == node_of(&g, p)).unwrap();
    assert!(pos(b"foo.c") < pos(b"foo.o"));
    assert!(pos(b"bar.c") < pos(b"bar.o"));
    assert!(pos(b"foo.o") < pos(b"foo"));
    assert!(pos(b"bar.o") < pos(b"foo"));
}

#[test]
fn scheduler_failure_finishes_dependents() {
    let tasks = sample_tasks();
    let scheduler = ParallelTopoScheduler::new(1);
    let (g, mut state) = scheduler.plan(&tasks, &None);
    let mut ran = Vec::new();
    while !state.done() {
        let node = state.next_ready().expect("a ready node");
        ran.push(node);
        // foo.c fails; foo.o and foo never run.
        let ok = node != node_of(&g, b"foo.c");
        state.finish_node(&g, node, ok);
    }
    assert!(!ran.contains(&node_of(&g, b"foo.o")));
    assert!(!ran.contains(&node_of(&g, b"foo")));
    assert!(ran.contains(&node_of(&g, b"bar.o")));
}

#[test]
fn scheduler_build_state_basics() {
    let tasks = sample_tasks();
    let g = build_graph(&tasks, &None);
    let mut state = BuildState::new(&g);
    assert!(state.done());
    let c = node_of(&g, b"foo.c");
    let o = node_of(&g, b"foo.o");
    state.add_node(&g, c);
    state.add_node(&g, o);
    assert!(!state.done());
    // Only the source is ready; the object waits.
    assert_eq!(state.next_ready(), Some(c));
    assert_eq!(state.next_ready(), None);
    state.finish_node(&g, c, true);
    assert_eq!(state.next_ready(), Some(o));
    state.finish_node(&g, o, true);
    assert!(state.done());
}

#[test]
fn scheduler_hands_out_each_node_once() {
    let tasks = sample_tasks();
    let scheduler = ParallelTopoScheduler::new(3);
    let (g, mut state) = scheduler.plan(&tasks, &None);
    let mut handed = Vec::new();
    let mut running = Vec::new();
    // Take every ready node before finishing any, so that several run at once.
    while !state.done() {
        while let Some(node) = state.next_ready() {
            assert!(!handed.contains(&node));
            assert!(!state.is_waiting(node));
            handed.push(node);
            running.push(node);
            if state.done() {
                break;
            }
        }
        let node = running.remove(0);
        state.finish_node(&g, node, true);
    }
    handed.sort();
    assert_eq!(handed, (0..g.node_count()).collect::<Vec<_>>());
}

#[test]
fn scheduler_node_steps() {
    assert_eq!(node_step(false, false, None), NodeStep::Finish);
    assert_eq!(node_step(true, false, None), NodeStep::Refuse);
    assert_eq!(node_step(true, true, None), NodeStep::AskRebuilder);
    assert_eq!(node_step(true, true, Some(true)), NodeStep::Run);
    assert_eq!(node_step(true, true, Some(false)), NodeStep::Finish);
}
