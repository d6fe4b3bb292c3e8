use plainmark::watcher::{
    coalesce, is_relevant, normalize_batch, normalize_event, CreateKind, EventKind, FsEvent, IndexEvent,
    ModifyKind, RemoveKind, RenameMode, WatchConfig, WatchMode,
};

fn created(p: &str) -> IndexEvent {
    IndexEvent::Created { path: p.to_string() }
}

fn modified(p: &str) -> IndexEvent {
    IndexEvent::Modified { path: p.to_string() }
}

fn removed(p: &str) -> IndexEvent {
    IndexEvent::Removed { path: p.to_string() }
}

fn renamed(a: &str, b: &str) -> IndexEvent {
    IndexEvent::Renamed { from: a.to_string(), to: b.to_string() }
}

fn event(kind: EventKind, paths: &[&str]) -> FsEvent {
    FsEvent { kind, paths: paths.iter().map(|p| p.to_string()).collect() }
}

#[test]
fn coalesce_is_idempotent() {
    let burst = vec![
        modified("/v/b.md"),
        renamed("/v/x.md", "/v/y.md"),
        created("/v/a.md"),
        removed("/v/b.md"),
        modified("/v/a.md"),
    ];
    let once = coalesce(burst);
    assert_eq!(once, vec![removed("/v/b.md"), created("/v/a.md"), renamed("/v/x.md", "/v/y.md")]);
    assert_eq!(coalesce(once.clone()), once);
}

#[test]
fn coalesce_change_after_remove_is_the_last_write() {
    assert_eq!(coalesce(vec![removed("/v/a.md"), modified("/v/a.md")]), vec![modified("/v/a.md")]);
    assert_eq!(coalesce(vec![removed("/v/a.md"), created("/v/a.md")]), vec![created("/v/a.md")]);
    assert_eq!(coalesce(vec![removed("/v/a.md"), created("/v/a.md"), modified("/v/a.md")]), vec![created("/v/a.md")]);
    assert_eq!(coalesce(vec![removed("/v/a.md"), created("/v/a.md"), removed("/v/a.md")]), vec![removed("/v/a.md")]);
}

#[test]
fn coalesce_keeps_renames_in_order_after_the_rest() {
    let out = coalesce(vec![renamed("/v/1.md", "/v/2.md"), modified("/v/a.md"), renamed("/v/3.md", "/v/4.md")]);
    assert_eq!(out, vec![modified("/v/a.md"), renamed("/v/1.md", "/v/2.md"), renamed("/v/3.md", "/v/4.md")]);
}

#[test]
fn coalesce_of_nothing_is_nothing() {
    assert!(coalesce(vec![]).is_empty());
}

#[test]
fn relevance_is_judged_below_the_root() {
    assert!(is_relevant("/v/a.md", "/v"));
    assert!(!is_relevant("/v/.git/a.md", "/v"));
    assert!(!is_relevant("/w/a.md", "/v"));
    assert!(!is_relevant("/v/a.markdown", "/v"));
    assert!(is_relevant("/home/.x/v/a.MD", "/home/.x/v"));
}

#[test]
fn normalize_other_kinds() {
    let from = event(EventKind::Modify(ModifyKind::Name(RenameMode::From)), &["/v/a.md"]);
    assert_eq!(normalize_event(&from, "/v"), vec![removed("/v/a.md")]);
    let to = event(EventKind::Modify(ModifyKind::Name(RenameMode::To)), &["/v/a.md"]);
    assert_eq!(normalize_event(&to, "/v"), vec![created("/v/a.md")]);
    let rm = event(EventKind::Remove(RemoveKind::File), &["/v/a.md", "/v/b.txt"]);
    assert_eq!(normalize_event(&rm, "/v"), vec![removed("/v/a.md")]);
    let folder = event(EventKind::Remove(RemoveKind::Folder), &["/v/dir"]);
    assert!(normalize_event(&folder, "/v").is_empty());
    let access = event(EventKind::Access, &["/v/a.md"]);
    assert!(normalize_event(&access, "/v").is_empty());
    let into = event(EventKind::Modify(ModifyKind::Name(RenameMode::Both)), &["/v/draft.txt", "/v/note.md"]);
    assert_eq!(normalize_event(&into, "/v"), vec![created("/v/note.md")]);
    let half = event(EventKind::Modify(ModifyKind::Name(RenameMode::Both)), &["/v/a.md"]);
    assert!(normalize_event(&half, "/v").is_empty());
    let any = event(EventKind::Create(CreateKind::Any), &["/v/a.md"]);
    assert_eq!(normalize_event(&any, "/v"), vec![created("/v/a.md")]);
}

#[test]
fn normalize_batch_normalizes_then_coalesces() {
    let raw = vec![
        event(EventKind::Create(CreateKind::File), &["/v/a.md"]),
        event(EventKind::Modify(ModifyKind::Data), &["/v/a.md", "/v/.tmp/x.md"]),
        event(EventKind::Modify(ModifyKind::Metadata), &["/v/b.md"]),
    ];
    assert_eq!(normalize_batch(&raw, "/v"), vec![created("/v/a.md"), modified("/v/b.md")]);
    assert!(normalize_batch(&vec![], "/v").is_empty());
}

#[test]
fn watch_config_defaults_and_overrides() {
    let d = WatchConfig::default_config();
    assert_eq!(d.mode, WatchMode::Auto);
    assert_eq!(d.debounce_ms, 400);
    assert_eq!(d.poll_interval_ms, 4000);
    assert!(d.poll_compare_contents);
    let c = WatchConfig::from_settings(Some(WatchMode::Poll), Some(1000), None, Some(false));
    assert_eq!(c.mode, WatchMode::Poll);
    assert_eq!(c.poll_interval_ms, 1000);
    assert_eq!(c.debounce_ms, 400);
    assert!(!c.poll_compare_contents);
    let none = WatchConfig::from_settings(None, None, None, None);
    assert_eq!(none.mode, WatchMode::Auto);
}
