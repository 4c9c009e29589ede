use liveserve::event::{
    needs_precompile, plan_fs_event, precompile_command, precompile_succeeded, FsEvent,
    InvalidationEvent, ToolExit,
};
use liveserve::graph::ClientType;
use liveserve::reload::{path_matches_trigger, reload_subprotocol};

fn b(s: &str) -> Vec<u8> {
    s.as_bytes().to_vec()
}

#[test]
fn write_like_events_precompile_and_publish() {
    let plan = plan_fs_event(FsEvent::Create(b("src/app.coffee")));
    assert_eq!(plan.precompile, vec![b("src/app.coffee")]);
    assert!(matches!(plan.publish, Some(InvalidationEvent::Created(p)) if p == b("src/app.coffee")));

    let plan = plan_fs_event(FsEvent::Write(b("index.html")));
    assert_eq!(plan.precompile, vec![b("index.html")]);
    assert!(matches!(plan.publish, Some(InvalidationEvent::Modified(p)) if p == b("index.html")));
}

#[test]
fn removal_publishes_without_precompile() {
    let plan = plan_fs_event(FsEvent::Remove(b("gone.js")));
    assert!(plan.precompile.is_empty());
    assert!(matches!(plan.publish, Some(InvalidationEvent::Removed(p)) if p == b("gone.js")));
}

#[test]
fn rename_is_atomic_and_precompiles_target() {
    let plan = plan_fs_event(FsEvent::Rename(b("a.coffee"), b("b.coffee")));
    assert_eq!(plan.precompile, vec![b("b.coffee")]);
    assert!(matches!(
        plan.publish,
        Some(InvalidationEvent::Renamed(o, n)) if o == b("a.coffee") && n == b("b.coffee")
    ));
}

#[test]
fn other_events_are_ignored() {
    let plan = plan_fs_event(FsEvent::Other);
    assert!(plan.precompile.is_empty());
    assert!(plan.publish.is_none());
}

#[test]
fn coffee_extension_detected() {
    assert!(needs_precompile(&b("src/app.coffee")));
    assert!(needs_precompile(&b("a.b.coffee")));
    assert!(!needs_precompile(&b("src/app.js")));
    assert!(!needs_precompile(&b("coffee")));
    assert!(!needs_precompile(&b("src/.coffee")));
    assert!(!needs_precompile(&b("app.coffees")));
    assert!(!needs_precompile(&b("")));
}

#[test]
fn precompile_invocation_shape() {
    let cmd = precompile_command(&b("src/app.coffee"));
    assert_eq!(cmd.program, b("coffee"));
    assert_eq!(cmd.args, vec![b("-c"), b("src/app.coffee")]);
}

#[test]
fn only_clean_exit_counts_as_success() {
    assert!(precompile_succeeded(ToolExit::Exited(0)));
    assert!(!precompile_succeeded(ToolExit::Exited(1)));
    assert!(!precompile_succeeded(ToolExit::Signaled(9)));
    assert!(!precompile_succeeded(ToolExit::Undetermined));
}

#[test]
fn trigger_matches_component_suffix() {
    assert!(path_matches_trigger(&b("client/js/main.js"), &b("main.js")));
    assert!(path_matches_trigger(&b("main.js"), &b("main.js")));
    assert!(path_matches_trigger(&b("client/js/main.js"), &b("js/main.js")));
    assert!(!path_matches_trigger(&b("client/js/xmain.js"), &b("main.js")));
    assert!(!path_matches_trigger(&b("client/js/main.jsx"), &b("main.js")));
    assert!(!path_matches_trigger(&b("main.js"), &b("js/main.js")));
}

#[test]
fn reload_protocol_name_fixed() {
    assert_eq!(reload_subprotocol(), "selenologist-minimal-reloader");
}

#[test]
fn client_type_opposite_swaps_roles() {
    assert!(matches!(ClientType::Frontend.opposite(), ClientType::Backend));
    assert!(matches!(ClientType::Backend.opposite(), ClientType::Frontend));
    assert!(matches!(ClientType::Both.opposite(), ClientType::Both));
}

#[test]
fn client_type_both_matches_everyone() {
    assert!(ClientType::Both == ClientType::Frontend);
    assert!(ClientType::Both == ClientType::Backend);
    assert!(ClientType::Frontend == ClientType::Both);
    assert!(ClientType::Frontend == ClientType::Frontend);
    assert!(ClientType::Frontend != ClientType::Backend);
    assert!(ClientType::Backend != ClientType::Frontend);
}
