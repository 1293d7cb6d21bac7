use global_hotkeys::build_command;
use global_hotkeys::ProcessTable;

#[test]
fn command_argv_is_exact() {
    let run_as = "worker".to_string();
    let env = vec![
        ("DISPLAY".to_string(), ":0".to_string()),
        ("LANG".to_string(), "C".to_string()),
    ];
    let command = "echo hi".to_string();
    let argv = build_command(&run_as, &env, &command);
    assert_eq!(
        argv,
        vec![
            "sudo".to_string(),
            "-u".to_string(),
            "worker".to_string(),
            "--preserve-env=DISPLAY,LANG".to_string(),
            "sh".to_string(),
            "-c".to_string(),
            "echo hi".to_string(),
        ]
    );
}

#[test]
fn command_argv_with_empty_env() {
    let argv = build_command(&"u".to_string(), &Vec::new(), &"true".to_string());
    assert_eq!(argv[3], "--preserve-env=");
}

#[test]
fn spawn_failure_does_not_block_sibling() {
    let mut table = ProcessTable::new();
    // two hotkeys matched one press; the first spawn failed, the second
    // succeeded and is still registered
    let recorded = table.register_spawned(&vec![false, true]);
    assert_eq!(recorded, vec![None, Some(0)]);
    assert_eq!(table.len(), 1);
    // a later event keeps going from there
    let recorded = table.register_spawned(&vec![true]);
    assert_eq!(recorded, vec![Some(1)]);
    assert_eq!(table.len(), 2);
}

#[test]
fn reap_removes_each_exit_exactly_once() {
    let mut table = ProcessTable::new();
    table.register_spawned(&vec![true, true, true]);
    let events = table.reap(&vec![true, false, true]);
    assert_eq!(events, vec![0, 2]);
    assert_eq!(table.len(), 1);
    // the survivor is still polled; nothing already reported comes back
    let events = table.reap(&vec![false]);
    assert!(events.is_empty());
    assert_eq!(table.len(), 1);
    let events = table.reap(&vec![true]);
    assert_eq!(events, vec![1]);
    assert_eq!(table.len(), 0);
    let events = table.reap(&Vec::new());
    assert!(events.is_empty());
}
