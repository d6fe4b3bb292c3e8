use plainmark::watcher::{
    coalesce, normalize_event, CreateKind, EventKind, FsEvent, IndexEvent, ModifyKind, RenameMode,
};

const VAULT: &str = "/v";

fn event(kind: EventKind, paths: &[&str]) -> FsEvent {
    FsEvent { kind, paths: paths.iter().map(|p| p.to_string()).collect() }
}

fn normalize(ev: &FsEvent) -> Vec<IndexEvent> {
    normalize_event(ev, VAULT)
}

fn created(p: &str) -> IndexEvent {
    IndexEvent::Created { path: p.to_string() }
}

fn modified(p: &str) -> IndexEvent {
    IndexEvent::Modified { path: p.to_string() }
}

fn removed(p: &str) -> IndexEvent {
    IndexEvent::Removed { path: p.to_string() }
}

#[test]
fn normalize_keeps_md_and_drops_others() {
    let create_md = event(EventKind::Create(CreateKind::File), &["/v/a.md"]);
    assert_eq!(normalize(&create_md), vec![created("/v/a.md")]);

    let create_txt = event(EventKind::Create(CreateKind::File), &["/v/a.txt"]);
    assert!(normalize(&create_txt).is_empty());
}

#[test]
fn normalize_drops_hidden_and_temp_paths() {
    let tmp = event(EventKind::Create(CreateKind::File), &["/v/.a.md.plainmark.tmp"]);
    assert!(normalize(&tmp).is_empty());

    let dotdir = event(EventKind::Modify(ModifyKind::Data), &["/v/.plainmark/x.md"]);
    assert!(normalize(&dotdir).is_empty());
}

#[test]
fn normalize_keeps_md_even_when_vault_sits_under_a_dotted_dir() {
    let ev = event(EventKind::Create(CreateKind::File), &["/home/u/.config/notes/a.md"]);
    assert_eq!(
        normalize_event(&ev, "/home/u/.config/notes"),
        vec![created("/home/u/.config/notes/a.md")]
    );
}

#[test]
fn normalize_correlated_rename_becomes_single_event() {
    let ev = event(EventKind::Modify(ModifyKind::Name(RenameMode::Both)), &["/v/old.md", "/v/new.md"]);
    assert_eq!(
        normalize(&ev),
        vec![IndexEvent::Renamed { from: "/v/old.md".to_string(), to: "/v/new.md".to_string() }]
    );
}

#[test]
fn normalize_rename_to_non_md_is_a_removal() {
    let ev = event(EventKind::Modify(ModifyKind::Name(RenameMode::Both)), &["/v/note.md", "/v/note.txt"]);
    assert_eq!(normalize(&ev), vec![removed("/v/note.md")]);
}

#[test]
fn coalesce_collapses_modify_burst() {
    let burst = vec![modified("/v/a.md"), modified("/v/a.md"), modified("/v/a.md")];
    assert_eq!(coalesce(burst), vec![modified("/v/a.md")]);
}

#[test]
fn coalesce_create_then_modify_stays_create() {
    let burst = vec![created("/v/a.md"), modified("/v/a.md")];
    assert_eq!(coalesce(burst), vec![created("/v/a.md")]);
}

#[test]
fn coalesce_modify_then_remove_is_remove() {
    let burst = vec![modified("/v/a.md"), removed("/v/a.md")];
    assert_eq!(coalesce(burst), vec![removed("/v/a.md")]);
}

#[test]
fn coalesce_preserves_distinct_paths_in_order() {
    let burst = vec![modified("/v/b.md"), modified("/v/a.md")];
    let out = coalesce(burst);
    assert_eq!(out.len(), 2);
    assert_eq!(out[0], modified("/v/b.md"));
}
