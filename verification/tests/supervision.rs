use quil_node::lifecycle;
use quil_node::lifecycle::{ShutdownReason, TaskEvent};
use quil_node::supervisor::{ComponentEnd, ComponentOutcome, ErrorHandlingBehavior, Supervisor};

type Policy = fn(String) -> ErrorHandlingBehavior;

fn build_sup_with_deps(deps: Vec<(&str, Vec<&str>)>) -> Supervisor<Policy> {
    let mut sup: Supervisor<Policy> = Supervisor::new();
    for (name, dep_list) in deps {
        sup.add(
            name.to_string(),
            dep_list.iter().map(|s| s.to_string()).collect(),
            |_| ErrorHandlingBehavior::ShouldShutdown,
        );
    }
    sup
}

fn position_of(sup: &Supervisor<Policy>, order: &[usize], name: &str) -> usize {
    order
        .iter()
        .position(|&i| sup.components[i].name == name)
        .unwrap_or_else(|| panic!("{} not in sort order", name))
}

#[test]
fn topo_sort_linear_chain() {
    let sup = build_sup_with_deps(vec![("a", vec![]), ("b", vec!["a"]), ("c", vec!["b"])]);
    let order = sup.topo_sort().unwrap();
    assert_eq!(order.len(), 3);
    let pa = position_of(&sup, &order, "a");
    let pb = position_of(&sup, &order, "b");
    let pc = position_of(&sup, &order, "c");
    assert!(pa < pb);
    assert!(pb < pc);
}

#[test]
fn topo_sort_parallel_branches() {
    let sup = build_sup_with_deps(vec![("a", vec![]), ("b", vec!["a"]), ("c", vec!["a"])]);
    let order = sup.topo_sort().unwrap();
    let pa = position_of(&sup, &order, "a");
    let pb = position_of(&sup, &order, "b");
    let pc = position_of(&sup, &order, "c");
    assert!(pa < pb);
    assert!(pa < pc);
}

#[test]
fn topo_sort_diamond() {
    let sup = build_sup_with_deps(vec![
        ("a", vec![]),
        ("b", vec!["a"]),
        ("c", vec!["a"]),
        ("d", vec!["b", "c"]),
    ]);
    let order = sup.topo_sort().unwrap();
    let pa = position_of(&sup, &order, "a");
    let pb = position_of(&sup, &order, "b");
    let pc = position_of(&sup, &order, "c");
    let pd = position_of(&sup, &order, "d");
    assert!(pa < pb);
    assert!(pa < pc);
    assert!(pb < pd);
    assert!(pc < pd);
}

#[test]
fn topo_sort_circular_is_error() {
    let sup = build_sup_with_deps(vec![("a", vec!["c"]), ("b", vec!["a"]), ("c", vec!["b"])]);
    let err = sup.topo_sort().unwrap_err();
    assert!(format!("{}", err).contains("circular"));
}

#[test]
fn topo_sort_unknown_dep_is_error() {
    let sup = build_sup_with_deps(vec![("a", vec!["ghost"])]);
    let err = sup.topo_sort().unwrap_err();
    let msg = format!("{}", err);
    assert!(msg.contains("unknown") || msg.contains("ghost"));
}

#[test]
fn topo_sort_empty_returns_empty() {
    let sup: Supervisor<Policy> = Supervisor::new();
    assert_eq!(sup.topo_sort().unwrap().len(), 0);
}

#[test]
fn topo_sort_single_component_no_deps() {
    let sup = build_sup_with_deps(vec![("only", vec![])]);
    assert_eq!(sup.topo_sort().unwrap(), vec![0]);
}

#[test]
fn topo_sort_independent_roots() {
    let sup = build_sup_with_deps(vec![("a", vec![]), ("b", vec![])]);
    let order = sup.topo_sort().unwrap();
    assert_eq!(order.len(), 2);
}

#[test]
fn topo_sort_self_reference_is_circular() {
    let sup = build_sup_with_deps(vec![("a", vec!["a"])]);
    let err = sup.topo_sort().unwrap_err();
    assert!(format!("{}", err).contains("circular"));
}

#[test]
fn every_component_comes_once_behind_what_it_needs() {
    let sup = build_sup_with_deps(vec![
        ("e", vec!["d", "a"]),
        ("d", vec!["b", "c"]),
        ("c", vec!["a"]),
        ("b", vec!["a"]),
        ("a", vec![]),
    ]);
    let order = sup.topo_sort().unwrap();
    let mut sorted = order.clone();
    sorted.sort();
    assert_eq!(sorted, vec![0, 1, 2, 3, 4]);
    for c in &sup.components {
        for d in &c.deps {
            assert!(position_of(&sup, &order, d) < position_of(&sup, &order, &c.name));
        }
    }
}

fn failed(text: &str, b: ErrorHandlingBehavior) -> ComponentOutcome {
    ComponentOutcome::Failed(text.to_string(), b)
}

#[test]
fn a_component_that_fails_or_panics_is_named() {
    let sup = build_sup_with_deps(vec![("a", vec![]), ("bad", vec![]), ("late", vec![])]);
    assert_eq!(sup.first_failure(&vec![]), Ok(()));
    assert!(sup.first_failure(&vec![(0, ComponentOutcome::Clean)]).is_ok());
    let outcomes = vec![
        (0, ComponentOutcome::Clean),
        (1, failed("broken", ErrorHandlingBehavior::ShouldShutdown)),
    ];
    assert_eq!(sup.first_failure(&outcomes).unwrap_err(), "component 'bad' failed: broken");
    let panicked = (2, ComponentOutcome::Panicked("oops".to_string()));
    let err = sup.first_failure(&vec![panicked]).unwrap_err();
    assert_eq!(err, "component 'late' panicked: oops");
}

#[test]
fn what_the_policy_said_of_an_error_decides() {
    let sup = build_sup_with_deps(vec![("soft", vec![]), ("hard", vec![])]);
    let soft = || (0, failed("broken", ErrorHandlingBehavior::ShouldStop));
    assert!(sup.first_failure(&vec![soft()]).is_ok());
    let outcomes = vec![soft(), (1, failed("broken", ErrorHandlingBehavior::ShouldShutdown))];
    assert_eq!(sup.first_failure(&outcomes).unwrap_err(), "component 'hard' failed: broken");
}

#[test]
fn the_policy_is_asked_about_the_very_error() {
    let asked = std::cell::RefCell::new(vec![]);
    let mut sup = Supervisor::new();
    sup.add("worker".to_string(), vec![], |e: String| {
        asked.borrow_mut().push(e.clone());
        if e.contains("timed out") {
            ErrorHandlingBehavior::ShouldStop
        } else {
            ErrorHandlingBehavior::ShouldShutdown
        }
    });
    let end = |e: &str| ComponentEnd::Failed(e.to_string());
    assert!(sup.component_ended(0, end("dial timed out")).is_ok());
    let err = sup.component_ended(0, end("no disk")).unwrap_err();
    assert_eq!(err, "component 'worker' failed: no disk");
    assert!(sup.component_ended(0, ComponentEnd::Clean).is_ok());
    let err = sup.component_ended(0, ComponentEnd::Panicked("timed out".to_string())).unwrap_err();
    assert_eq!(err, "component 'worker' panicked: timed out");
    match sup.judge(0, end("timed out again")) {
        ComponentOutcome::Failed(e, b) => {
            assert_eq!(e, "timed out again");
            assert_eq!(b, ErrorHandlingBehavior::ShouldStop);
        }
        _ => panic!("it failed"),
    }
    assert_eq!(*asked.borrow(), vec!["dial timed out", "no disk", "timed out again"]);
}

#[test]
fn only_startup_tasks_may_end() {
    let mut s = lifecycle::Supervisor::new();
    s.spawn_startup_task(1, "load".to_string());
    s.spawn(2, "serve".to_string());
    assert!(s.handle(TaskEvent::Finished(1)).is_none());
    match s.handle(TaskEvent::Finished(2)) {
        Some(ShutdownReason::TaskExited(name)) => assert_eq!(name, "serve"),
        _ => panic!("a task that serves may not end"),
    }
}

#[test]
fn each_way_to_stop_has_its_reason() {
    let mut s = lifecycle::Supervisor::new().with_shutdown_timeout(5);
    assert_eq!(s.shutdown_timeout_ms, 5);
    s.spawn(1, "one".to_string());
    s.spawn_startup_task(2, "two".to_string());
    assert!(matches!(s.handle(TaskEvent::CtrlC), Some(ShutdownReason::CtrlC)));
    match s.handle(TaskEvent::Failed(2, "no disk".to_string())) {
        Some(ShutdownReason::TaskError(name, e)) => {
            assert_eq!(name, "two");
            assert_eq!(e, "no disk");
        }
        _ => panic!("a task that fails stops the node"),
    }
    match s.handle(TaskEvent::Lost(1, "panicked".to_string())) {
        Some(ShutdownReason::JoinError(name, e)) => {
            assert_eq!(name, "one");
            assert_eq!(e, "panicked");
        }
        _ => panic!("a task that is lost stops the node"),
    }
}
