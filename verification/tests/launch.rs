use ignition::config::{ItemKind, LaunchItem};
use ignition::launch::{
    boot_wait_ms, io_error_message, is_access_denied, is_shortcut, launch_action, launch_enabled,
    launch_item, launch_report, launch_result, spawn_error_message, split_args, LaunchAction,
    LaunchStep,
};

fn item(id: &str, target: &str, kind: ItemKind, args: &str, enabled: bool, delay_ms: u64) -> LaunchItem {
    LaunchItem {
        id: id.into(),
        name: format!("name-{id}"),
        target: target.into(),
        args: args.into(),
        kind,
        enabled,
        delay_ms,
    }
}

#[test]
fn splitting_argument_lines() {
    assert_eq!(split_args(r#"-a "b c" d"#), vec!["-a", "b c", "d"]);
    assert_eq!(split_args(""), Vec::<String>::new());
    assert_eq!(split_args("   x   "), vec!["x"]);
    assert_eq!(split_args(r#""" x"#), vec!["x"]);
    assert_eq!(split_args("a\tb\nc"), vec!["a", "b", "c"]);
    assert_eq!(split_args(r#"--path="C:\Program Files\x" -v"#), vec![r"--path=C:\Program Files\x", "-v"]);
    assert_eq!(split_args(r#""open quote"#), vec!["open quote"]);
}

#[test]
fn split_parts_keep_the_text() {
    let line = r#" one "two three"  fo"u"r "#;
    let parts = split_args(line);
    assert!(parts.iter().all(|p| !p.is_empty() && !p.contains('"')));
    assert_eq!(parts.concat(), "onetwo threefour");
}

#[test]
fn shortcuts() {
    assert!(is_shortcut("/x/Start.LNK"));
    assert!(is_shortcut("a.lnk"));
    assert!(!is_shortcut("a.exe"));
    assert!(!is_shortcut("lnk"));
    assert!(is_shortcut("tool.lnk"));
    assert!(is_shortcut("Tool.LnK"));
    assert!(!is_shortcut(".lnk"));
    assert!(!is_shortcut("tool.lnk.exe"));
    assert!(!is_shortcut("tool.exe.lnkx"));
    assert!(is_shortcut("C:/Apps/Tool.LNK"));
    assert!(is_shortcut(r"C:\Users\me\Desktop\Game.lnk"));
    assert!(!is_shortcut("/home/me/tool.exe"));
    let it = item("9", "C:/Apps/Tool.LNK", ItemKind::App, "-x", true, 0);
    assert!(matches!(launch_item(&it), LaunchAction::Open { .. }));
    let it = item("9", "C:/Apps/Tool.exe", ItemKind::App, "-x", true, 0);
    assert!(matches!(launch_item(&it), LaunchAction::Spawn { .. }));
}

#[test]
fn programs_with_arguments_are_spawned() {
    let it = item("1", "/bin/tool", ItemKind::App, r#" -x "y z" "#, true, 0);
    match launch_item(&it) {
        LaunchAction::Spawn { program, args } => {
            assert_eq!(program, "/bin/tool");
            assert_eq!(args, vec!["-x", "y z"]);
        }
        other => panic!("unexpected {other:?}"),
    }
}

#[test]
fn other_items_are_opened() {
    for it in [
        item("1", "/bin/tool", ItemKind::App, "   ", true, 0),
        item("2", "/x/a.lnk", ItemKind::App, "-x", true, 0),
        item("3", "/x/a.txt", ItemKind::File, "-x", true, 0),
        item("4", "https://e.com", ItemKind::Url, "", true, 0),
        item("5", "/x", ItemKind::Folder, "", true, 0),
    ] {
        match launch_item(&it) {
            LaunchAction::Open { target } => assert_eq!(target, it.target),
            other => panic!("unexpected {other:?}"),
        }
    }
    let it = item("1", "/x/a.exe", ItemKind::App, "-x", true, 0);
    assert!(matches!(launch_action(&it, true), LaunchAction::Open { .. }));
    assert!(matches!(launch_action(&it, false), LaunchAction::Spawn { .. }));
}

#[test]
fn plan_of_a_run() {
    let items = [
        item("a", "x", ItemKind::File, "", true, 0),
        item("b", "x", ItemKind::File, "", false, 9),
        item("c", "x", ItemKind::File, "", true, 40),
        item("d", "x", ItemKind::File, "", true, 0),
    ];
    assert_eq!(
        launch_enabled(&items, 350),
        vec![
            LaunchStep::Launch(0),
            LaunchStep::Pause(350),
            LaunchStep::Pause(40),
            LaunchStep::Launch(2),
            LaunchStep::Pause(350),
            LaunchStep::Launch(3),
        ]
    );
    assert_eq!(
        launch_enabled(&items, 0),
        vec![LaunchStep::Launch(0), LaunchStep::Pause(40), LaunchStep::Launch(2), LaunchStep::Launch(3)]
    );
    assert!(launch_enabled(&items[1..2], 350).is_empty());
}

#[test]
fn report_of_a_run() {
    let items = [
        item("a", "x", ItemKind::File, "", true, 0),
        item("b", "x", ItemKind::File, "", false, 0),
        item("c", "x", ItemKind::File, "", true, 0),
    ];
    let report = launch_report(&items, &[Ok(()), Err("boom".to_string())]);
    assert_eq!(report.launched, 1);
    assert_eq!(report.failed, 1);
    assert_eq!(report.results.len(), 2);
    assert_eq!(report.results[0].id, "a");
    assert!(report.results[0].ok);
    assert_eq!(report.results[0].error, None);
    assert_eq!(report.results[1].id, "c");
    assert_eq!(report.results[1].name, "name-c");
    assert!(!report.results[1].ok);
    assert_eq!(report.results[1].error.as_deref(), Some("boom"));
    let empty = launch_report(&items[1..2], &[]);
    assert_eq!((empty.launched, empty.failed, empty.results.len()), (0, 0, 0));
}

#[test]
fn results_of_one_launch() {
    let it = item("q", "x", ItemKind::File, "", true, 0);
    let ok = launch_result(&it, Ok(()));
    assert_eq!((ok.id.as_str(), ok.name.as_str(), ok.ok, ok.error), ("q", "name-q", true, None));
    let bad = launch_result(&it, Err("no".into()));
    assert!(!bad.ok);
    assert_eq!(bad.error.as_deref(), Some("no"));
}

#[test]
fn error_messages() {
    assert_eq!(
        io_error_message(Some(5), "x".into()),
        "Windows blocked this open (access denied)."
    );
    assert_eq!(io_error_message(Some(2), "x".into()), "Not found. The path may have moved.");
    assert_eq!(io_error_message(Some(3), "other".into()), "other");
    assert_eq!(io_error_message(None, "plain".into()), "plain");
    assert_eq!(spawn_error_message(true, Some(5), "x".into()), "Not found. The path may have moved.");
    assert_eq!(
        spawn_error_message(false, Some(5), "x".into()),
        "Windows blocked this open (access denied)."
    );
    assert!(is_access_denied(Some(5)));
    assert!(!is_access_denied(Some(2)));
    assert!(!is_access_denied(None));
}

#[test]
fn boot_waits_at_least_a_moment() {
    assert_eq!(boot_wait_ms(0), 120);
    assert_eq!(boot_wait_ms(119), 120);
    assert_eq!(boot_wait_ms(5_000), 5_000);
}
