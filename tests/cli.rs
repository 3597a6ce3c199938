use cornucopia::cli::cleanup_after;
use cornucopia::{run, Action, Args, Command};

fn args(action: Action, sync: bool, asynchronous: bool) -> Args {
    Args {
        podman: true,
        queries_path: "queries/".to_string(),
        destination: "src/cornucopia.rs".to_string(),
        action,
        sync,
        asynchronous,
        derive: vec!["serde::Serialize".to_string()],
        use_lines: vec![],
        utoipa_enum_fix: false,
    }
}

#[test]
fn asynchronous_is_the_default() {
    let plan = run(args(Action::Live { url: "postgres://localhost".to_string() }, false, false));
    assert!(plan.settings.gen_async);
    assert!(!plan.settings.gen_sync);
    assert_eq!(plan.settings.gen_derive, vec!["serde::Serialize".to_string()]);
    match plan.command {
        Command::Live { url, queries_path, destination } => {
            assert_eq!(url, "postgres://localhost");
            assert_eq!(queries_path, "queries/");
            assert_eq!(destination, "src/cornucopia.rs");
        }
        other => panic!("unexpected command {:?}", other),
    }
}

#[test]
fn sync_alone_turns_async_off() {
    let plan = run(args(Action::Schema { schema_files: vec!["schema.sql".to_string()] }, true, false));
    assert!(!plan.settings.gen_async);
    assert!(plan.settings.gen_sync);
    let plan = run(args(Action::Schema { schema_files: vec![] }, true, true));
    assert!(plan.settings.gen_async && plan.settings.gen_sync);
}

#[test]
fn only_failed_managed_generation_cleans_up() {
    let plan = run(args(Action::Schema { schema_files: vec!["schema.sql".to_string()] }, false, false));
    match &plan.command {
        Command::Managed { schema_files, podman, .. } => {
            assert_eq!(schema_files, &vec!["schema.sql".to_string()]);
            assert!(*podman);
        }
        other => panic!("unexpected command {:?}", other),
    }
    assert_eq!(cleanup_after(&plan.command, true), Some(true));
    assert_eq!(cleanup_after(&plan.command, false), None);
    let live = run(args(Action::Live { url: "u".to_string() }, false, false));
    assert_eq!(cleanup_after(&live.command, true), None);
}
