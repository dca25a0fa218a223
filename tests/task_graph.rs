use turborepo_core::paths::package_relative_path;
use turborepo_core::retry::{after_attempt, retry_delay_ms, HashOutcome, RetryAction};
use turborepo_core::engine::{
    check_task_command, is_recursive_turbo, root_task_to_include, EngineError, TaskGraph,
};
use turborepo_core::graph::DepGraph;

fn names(v: &[&str]) -> Vec<String> {
    v.iter().map(|s| s.to_string()).collect()
}

#[test]
fn topological_order_puts_dependencies_first() {
    // 0 depends on 1 and 2, 1 depends on 2.
    let g = DepGraph::new(vec![vec![1, 2], vec![2], vec![]]).unwrap();
    assert_eq!(g.topological_order(), Ok(vec![2, 1, 0]));
}

#[test]
fn cycle_is_named_node_by_node() {
    // 0 -> 1 -> 2 -> 0, and 3 -> 0.
    let g = DepGraph::new(vec![vec![1], vec![2], vec![0], vec![0]]).unwrap();
    let c = g.topological_order().unwrap_err();
    assert_eq!(c.len(), 3);
    let mut sorted = c.clone();
    sorted.sort();
    assert_eq!(sorted, vec![0, 1, 2]);
    for i in 0..c.len() {
        let next = c[(i + 1) % c.len()];
        assert!(g.deps_of(c[i]).contains(&next));
    }
}

#[test]
fn self_dependency_is_a_cycle() {
    let g = DepGraph::new(vec![vec![0]]).unwrap();
    assert_eq!(g.topological_order(), Err(vec![0]));
}

#[test]
fn edge_to_unknown_node_is_refused() {
    assert!(DepGraph::new(vec![vec![1]]).is_none());
}

#[test]
fn waves_follow_depth() {
    // 3 depends on 1 and 2; 1 depends on 0; 2 has none.
    let g = DepGraph::new(vec![vec![], vec![0], vec![], vec![1, 2]]).unwrap();
    let (d, w) = g.waves().unwrap();
    assert_eq!(d, vec![0, 1, 0, 2]);
    assert_eq!(w.len(), 3);
    let mut w0 = w[0].clone();
    w0.sort();
    assert_eq!(w0, vec![0, 2]);
    assert_eq!(w[1], vec![1]);
    assert_eq!(w[2], vec![3]);
}

#[test]
fn dependents_closure_selects_reverse_dependencies() {
    // a=0 depends on b=1, b depends on c=2, d=3 is unrelated.
    let g = DepGraph::new(vec![vec![1], vec![2], vec![], vec![]]).unwrap();
    assert_eq!(g.dependents_closure(&vec![2]), vec![true, true, true, false]);
    assert_eq!(g.dependents_closure(&vec![1]), vec![true, true, false, false]);
    assert_eq!(g.dependents_closure(&vec![]), vec![false; 4]);
}

#[test]
fn failed_task_skips_only_its_dependents() {
    // my-app=0 depends on some-lib=1; other-app=2 is independent.
    let g = DepGraph::new(vec![vec![1], vec![], vec![]]).unwrap();
    let skipped = g.dependents_closure(&vec![1]);
    assert!(skipped[0]);
    assert!(skipped[1]);
    assert!(!skipped[2]);
}

#[test]
fn persistent_dependency_is_rejected() {
    let t = TaskGraph::new(
        names(&["app-a#build", "app-b#dev"]),
        vec![false, true],
        vec![vec![1], vec![]],
    )
    .unwrap();
    assert_eq!(
        t.validate_persistent(),
        Err(EngineError::PersistentDependency {
            task: "app-a#build".to_string(),
            dependency: "app-b#dev".to_string(),
        })
    );
    assert!(t.validate(10).is_err());
}

#[test]
fn concurrency_floor_counts_persistent_tasks() {
    // Two persistent tasks and one task that needs neither.
    let t = TaskGraph::new(
        names(&["a#dev", "b#dev", "c#build"]),
        vec![true, true, false],
        vec![vec![], vec![], vec![]],
    )
    .unwrap();
    assert_eq!(t.persistent_slots(), 2);
    assert_eq!(
        t.validate_concurrency(2),
        Err(EngineError::Concurrency { persistent: 2, concurrency: 2 })
    );
    assert_eq!(t.validate_concurrency(3), Ok(()));
    assert_eq!(t.validate(3), Ok(()));
    assert!(t.validate(1).is_err());
}

#[test]
fn cycle_is_reported_with_task_names() {
    let t = TaskGraph::new(
        names(&["a#build", "b#build"]),
        vec![false, false],
        vec![vec![1], vec![0]],
    )
    .unwrap();
    match t.validate(4) {
        Err(EngineError::Cycle(c)) => {
            let mut c = c;
            c.sort();
            assert_eq!(c, names(&["a#build", "b#build"]));
        }
        other => panic!("expected a cycle, got {:?}", other),
    }
}

#[test]
fn root_script_running_turbo_is_recursive() {
    assert!(is_recursive_turbo("//", "turbo run build"));
    assert!(is_recursive_turbo("//", "npx turbo"));
    assert!(!is_recursive_turbo("//", "turbos run"));
    assert!(!is_recursive_turbo("//", "echo turbo-like"));
    assert!(!is_recursive_turbo("web", "turbo run build"));
    let err = check_task_command("//", "something", "turbo run build").unwrap_err();
    assert_eq!(err.task_name, "//#something");
    assert_eq!(err.command, "turbo run build");
    assert!(check_task_command("web", "build", "turbo run build").is_ok());
}

#[test]
fn root_task_joins_when_defined_at_root() {
    let root = names(&["//#lint", "build"]);
    assert_eq!(
        root_task_to_include(&names(&["build", "lint"]), &root),
        Some("//#lint".to_string())
    );
    assert_eq!(root_task_to_include(&names(&["test"]), &root), None);
    assert_eq!(
        root_task_to_include(&names(&["web#build", "lint"]), &names(&["web#build"])),
        Some("web#build".to_string())
    );
}

#[test]
fn retry_waits_longer_each_time_up_to_a_second() {
    assert_eq!(retry_delay_ms(0), 10);
    assert_eq!(retry_delay_ms(3), 80);
    assert_eq!(retry_delay_ms(6), 640);
    assert_eq!(retry_delay_ms(7), 1000);
    assert_eq!(retry_delay_ms(9), 1000);
    assert_eq!(after_attempt(0, HashOutcome::TooManyOpenFiles), RetryAction::SleepThenRetry(10));
    assert_eq!(after_attempt(9, HashOutcome::TooManyOpenFiles), RetryAction::SleepThenRetry(1000));
    assert_eq!(after_attempt(10, HashOutcome::TooManyOpenFiles), RetryAction::Finish);
    assert_eq!(after_attempt(0, HashOutcome::OtherError), RetryAction::Finish);
    assert_eq!(after_attempt(3, HashOutcome::Hashed), RetryAction::Finish);
}

#[test]
fn paths_are_made_relative_to_the_package() {
    assert_eq!(package_relative_path("apps/web/src/a.ts", "apps/web"), "src/a.ts");
    assert_eq!(package_relative_path("root.json", "fixture/child"), "../../root.json");
    assert_eq!(package_relative_path("fixture/root.json", "fixture/child"), "../root.json");
    assert_eq!(package_relative_path("a/b.txt", ""), "a/b.txt");
    assert_eq!(package_relative_path("apps/webx/a", "apps/web"), "../webx/a");
}

#[test]
fn validate_reports_cycle_before_other_errors() {
    // A persistent task inside a cycle: the cycle is what is reported.
    let t = TaskGraph::new(
        names(&["a#dev", "b#build"]),
        vec![true, false],
        vec![vec![1], vec![0]],
    )
    .unwrap();
    assert!(matches!(t.validate(1), Err(EngineError::Cycle(_))));
}

#[test]
fn too_many_persistent_needs_three_workers() {
    // Two persistent tasks, no dependencies between them.
    let t = TaskGraph::new(names(&["one#build", "two#build"]), vec![true, true], vec![vec![], vec![]])
        .unwrap();
    assert!(t.validate(1).is_err());
    assert!(t.validate(2).is_err());
    assert_eq!(t.validate(3), Ok(()));
}

#[test]
fn shortest_cycle_is_reported() {
    // 0 -> 1 -> 2 -> 0 and 3 -> 4 -> 3.
    let g = DepGraph::new(vec![vec![1], vec![2], vec![0], vec![4], vec![3]]).unwrap();
    let c = g.shortest_cycle(5).unwrap();
    assert_eq!(c.len(), 2);
    let t = TaskGraph::new(
        names(&["a#x", "b#x", "c#x", "d#x", "e#x"]),
        vec![false; 5],
        vec![vec![1], vec![2], vec![0], vec![4], vec![3]],
    )
    .unwrap();
    match t.validate(10) {
        Err(EngineError::Cycle(c)) => {
            let mut c = c;
            c.sort();
            assert_eq!(c, names(&["d#x", "e#x"]));
        }
        other => panic!("expected a cycle, got {:?}", other),
    }
}

#[test]
fn lockfile_entries_are_written_in_key_order() {
    let text = "b@1:\n  version \"1\"\n\na@1:\n  version \"1\"\n";
    let l = turborepo_core::yarn1::Yarn1Lockfile::from_str(text).unwrap();
    let out = l.encode_string();
    assert!(out.find("a@1:").unwrap() < out.find("b@1:").unwrap());
}
