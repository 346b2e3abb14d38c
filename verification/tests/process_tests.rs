use std::collections::HashMap;

use wrath::error::WrathError;
use wrath::process::{
    alive_pids, describe, descendants, execute, get_process_name, has_ancestor_in,
    kill_processes, plan_by_name, plan_by_name_excluding, plan_by_pid, plan_by_pid_excluding,
    KillPlan, KillResult, ProcEntry, ProcessTable,
};

/// The whole result message on a single line.
fn message(result: &KillResult) -> String {
    format!("{} {}", result.headline(), result.outcome())
}

fn entry(pid: u32, parent: Option<u32>, name: &str) -> ProcEntry {
    ProcEntry {
        pid,
        parent,
        name: name.to_string(),
        cmd: vec![name.to_string()],
        exe: None,
        cwd: None,
        user: None,
        memory: 0,
        run_time: 0,
    }
}

fn table(entries: Vec<ProcEntry>) -> ProcessTable {
    let mut table = ProcessTable::new();
    for e in entries {
        table.insert(e);
    }
    table
}

fn own_pid() -> u32 {
    sysinfo::get_current_pid()
        .expect("should get current pid")
        .as_u32()
}

#[test]
fn test_kill_result_message_single_process_no_port() {
    let result = KillResult {
        process_name: "node".to_string(),
        total_killed: 1,
        port: None,
    };
    assert_eq!(
        message(&result),
        "Wrath unleashed: Process 'node' (1 process) has been obliterated."
    );
}

#[test]
fn test_kill_result_message_multiple_processes_no_port() {
    let result = KillResult {
        process_name: "node".to_string(),
        total_killed: 3,
        port: None,
    };
    assert_eq!(
        message(&result),
        "Wrath unleashed: Process 'node' (3 processes) has been obliterated."
    );
}

#[test]
fn test_kill_result_message_single_process_with_port() {
    let result = KillResult {
        process_name: "node".to_string(),
        total_killed: 1,
        port: Some(3000),
    };
    assert_eq!(
        message(&result),
        "Wrath unleashed: Process 'node' (1 process) using port 3000 has been obliterated."
    );
}

#[test]
fn test_kill_result_message_multiple_processes_with_port() {
    let result = KillResult {
        process_name: "node".to_string(),
        total_killed: 5,
        port: Some(8080),
    };
    assert_eq!(
        message(&result),
        "Wrath unleashed: Process 'node' (5 processes) using port 8080 has been obliterated."
    );
}

#[test]
fn test_plan_by_name_nonexistent_process() {
    let system = table(vec![entry(1, None, "init"), entry(2, Some(1), "node")]);
    let result = plan_by_name(&system, "this_process_definitely_does_not_exist_xyzzy_42");
    assert_eq!(
        result,
        Err(WrathError::NoProcessWithName(
            "this_process_definitely_does_not_exist_xyzzy_42".to_string()
        ))
    );
}

#[test]
fn test_plan_by_name_never_targets_itself() {
    let own = own_pid();
    let other = if own == 1 { 2 } else { 1 };
    let system = table(vec![
        entry(other, None, "wrath-under-test"),
        entry(own, Some(other), "wrath-under-test"),
    ]);
    let own_name = get_process_name(&system, own).expect("current process has a name");

    if let Ok(plan) = plan_by_name(&system, &own_name) {
        assert!(!plan.pids.contains(&own));
    }
}

#[test]
fn test_plan_by_pid_nonexistent_process() {
    let system = table(vec![entry(1, None, "init")]);
    let result = plan_by_pid(&system, 999_999_999, 3000);
    assert_eq!(result, Err(WrathError::NoProcessOnPort(3000)));
}

#[test]
fn test_plan_by_pid_excludes_current_process() {
    let own = own_pid();
    let system = table(vec![entry(own, None, "wrath-under-test")]);

    let plan = plan_by_pid(&system, own, 3000).expect("current process exists");
    assert_eq!(plan.roots, vec![own]);
    assert_eq!(plan.port, Some(3000));
    assert!(!plan.pids.contains(&own));
}

#[test]
fn test_describe_current_process() {
    let own = own_pid();
    let system = table(vec![entry(own, None, "wrath-under-test")]);
    let plan = plan_by_pid(&system, own, 3000).expect("current process exists");

    let infos = describe(&system, &plan);
    assert_eq!(infos.len(), 1);
    assert_eq!(infos[0].pid, own);
}

#[test]
fn test_execute_empty_plan_fails() {
    let plan = KillPlan {
        process_name: "ghost".to_string(),
        port: None,
        roots: vec![],
        pids: vec![],
    };
    assert!(matches!(
        execute(&plan, &[], &[]),
        Err(WrathError::KillFailed(_))
    ));
}

#[test]
fn test_descendants_breadth_first() {
    let map = HashMap::from([(1, vec![2, 3]), (2, vec![4]), (3, vec![5])]);
    assert_eq!(descendants(&map, 1), vec![2, 3, 4, 5]);
    assert_eq!(descendants(&map, 3), vec![5]);
    assert!(descendants(&map, 5).is_empty());
}

#[test]
fn test_descendants_survives_cycles() {
    let map = HashMap::from([(1, vec![2]), (2, vec![1])]);
    assert_eq!(descendants(&map, 1), vec![2]);
}

#[test]
fn test_has_ancestor_in_unknown_pid() {
    let system = table(vec![entry(1, None, "init")]);
    assert!(!has_ancestor_in(&system, 999_999_999, &[1]));
}

#[test]
fn test_get_process_name_nonexistent() {
    let system = table(vec![entry(1, None, "init")]);
    assert!(get_process_name(&system, 999_999_999).is_none());
}

#[test]
fn test_get_process_name_current_process() {
    let own = own_pid();
    let system = table(vec![entry(own, None, "wrath-under-test")]);
    assert!(get_process_name(&system, own).is_some());
}

#[test]
fn test_kill_processes_empty_list() {
    assert_eq!(
        kill_processes(&[], &[]),
        Err(WrathError::KillFailed(
            "Could not kill any processes".to_string()
        ))
    );
}

#[test]
fn test_kill_processes_nonexistent_pids() {
    let system = table(vec![entry(1, None, "init")]);
    let alive = alive_pids(&system, &[999_999_999]);
    assert_eq!(
        kill_processes(&alive, &[]),
        Err(WrathError::KillFailed(
            "Could not kill any processes".to_string()
        ))
    );
}

#[test]
fn plan_by_name_matches_case_and_exe_suffix_and_keeps_only_top_matches() {
    let system = table(vec![
        entry(1, None, "init"),
        entry(10, Some(1), "Node.EXE"),
        entry(11, Some(10), "node"),
        entry(12, Some(11), "esbuild"),
        entry(20, Some(1), "NODE"),
        entry(21, Some(1), "nodejs"),
    ]);
    let plan = plan_by_name_excluding(&system, "node", None).expect("matches");
    assert_eq!(plan.process_name, "Node.EXE");
    assert_eq!(plan.port, None);
    assert_eq!(plan.roots, vec![10, 20]);
    assert_eq!(plan.pids, vec![10, 20, 11, 12]);
}

#[test]
fn plan_by_name_leaves_out_the_given_own_process() {
    let system = table(vec![
        entry(1, None, "node"),
        entry(2, Some(1), "node"),
        entry(3, Some(2), "worker"),
    ]);
    let plan = plan_by_name_excluding(&system, "node", Some(2)).expect("matches");
    assert_eq!(plan.roots, vec![1]);
    assert_eq!(plan.pids, vec![1, 3]);

    assert_eq!(
        plan_by_name_excluding(&table(vec![entry(5, None, "node")]), "node", Some(5)),
        Err(WrathError::NoProcessWithName("node".to_string()))
    );
}

#[test]
fn plan_by_pid_kills_the_holder_and_all_descendants_roots_first() {
    let system = table(vec![
        entry(1, None, "init"),
        entry(5, Some(1), "java"),
        entry(6, Some(5), "sh"),
        entry(7, Some(6), "tail"),
        entry(8, Some(5), "sh"),
    ]);
    let plan = plan_by_pid_excluding(&system, 5, 8080, None).expect("holder exists");
    assert_eq!(plan.process_name, "java");
    assert_eq!(plan.port, Some(8080));
    assert_eq!(plan.roots, vec![5]);
    assert_eq!(plan.pids, vec![5, 6, 8, 7]);
}

#[test]
fn describe_lists_descendant_names_of_each_present_root() {
    let system = table(vec![
        entry(1, None, "node"),
        entry(2, Some(1), "esbuild"),
        entry(3, Some(1), "esbuild"),
    ]);
    let plan = KillPlan {
        process_name: "node".to_string(),
        port: None,
        roots: vec![1, 99],
        pids: vec![1, 2, 3],
    };
    let infos = describe(&system, &plan);
    assert_eq!(infos.len(), 1);
    assert_eq!(infos[0].pid, 1);
    assert_eq!(infos[0].children, vec!["esbuild".to_string(), "esbuild".to_string()]);
}

#[test]
fn execute_counts_the_processes_that_are_gone() {
    let plan = KillPlan {
        process_name: "node".to_string(),
        port: Some(3000),
        roots: vec![1],
        pids: vec![1, 2, 3],
    };
    assert_eq!(
        execute(&plan, &[1, 2, 3], &[3]),
        Ok(KillResult {
            process_name: "node".to_string(),
            total_killed: 2,
            port: Some(3000),
        })
    );
    assert_eq!(
        execute(&plan, &[1, 2], &[1, 2]),
        Err(WrathError::KillFailed(
            "Could not kill any processes".to_string()
        ))
    );
}

#[test]
fn has_ancestor_in_follows_parents_and_stops_on_loops() {
    let system = table(vec![
        entry(1, None, "init"),
        entry(2, Some(1), "a"),
        entry(3, Some(2), "b"),
        entry(8, Some(9), "x"),
        entry(9, Some(8), "y"),
    ]);
    assert!(has_ancestor_in(&system, 3, &[1]));
    assert!(!has_ancestor_in(&system, 1, &[1]));
    assert!(!has_ancestor_in(&system, 8, &[1]));
    assert!(has_ancestor_in(&system, 8, &[9]));
}

#[test]
fn table_insert_replaces_and_counts() {
    let mut system = table(vec![entry(1, None, "a"), entry(2, None, "b")]);
    system.insert(entry(1, None, "c"));
    assert_eq!(system.len(), 2);
    assert_eq!(get_process_name(&system, 1), Some("c".to_string()));
    assert_eq!(alive_pids(&system, &[3, 2, 1]), vec![2, 1]);
}
