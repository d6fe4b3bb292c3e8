use plainmark::config::AppConfig;
use plainmark::daily::{daily_rel_path, template_body, LocalDate};
use plainmark::error::AppError;
use plainmark::fs_ops::VaultSettings;
use plainmark::index::{build_entry, rewrite_inbound_links, toggle_task_line, Index};

fn date(year: i32, month: u32, day: u32) -> LocalDate {
    LocalDate { year, month, day }
}

#[test]
fn iso_pads_year_month_and_day() {
    assert_eq!(date(2026, 6, 24).iso(), "2026-06-24");
    assert_eq!(date(987, 1, 2).iso(), "0987-01-02");
    assert_eq!(date(-5, 12, 31).iso(), "-005-12-31");
    assert_eq!(date(12345, 10, 10).iso(), "12345-10-10");
}

#[test]
fn daily_path_uses_default_folder_and_iso_filename() {
    let s = VaultSettings::defaults();
    assert_eq!(daily_rel_path(&s, date(2026, 6, 24)).unwrap(), "Daily/2026-06-24.md");
}

#[test]
fn daily_path_honors_configured_folder_and_format() {
    let s = VaultSettings::from_fields(None, Some("Journal/Days".to_string()), Some("YYYY_MM_DD".to_string()), None);
    assert_eq!(daily_rel_path(&s, date(2026, 6, 24)).unwrap(), "Journal/Days/2026_06_24.md");
}

#[test]
fn escaping_daily_folder_falls_back_to_default() {
    let s = VaultSettings::from_fields(None, Some("../escape".to_string()), None, None);
    assert_eq!(daily_rel_path(&s, date(2026, 6, 24)).unwrap(), "Daily/2026-06-24.md");
}

#[test]
fn escaping_filename_format_is_refused() {
    let s = VaultSettings::from_fields(None, None, Some("../YYYY".to_string()), None);
    match daily_rel_path(&s, date(2026, 6, 24)) {
        Err(AppError::InvalidPath(m)) => assert_eq!(m, "invalid daily note path: Daily/../2026.md"),
        other => panic!("unexpected {other:?}"),
    }
}

#[test]
fn template_body_expands_or_falls_back() {
    assert_eq!(template_body(Some("## Log for {{date}}\n\n- \n".to_string()), date(2026, 1, 2)), "## Log for 2026-01-02\n\n- \n");
    assert_eq!(template_body(None, date(2026, 12, 31)), "# 2026-12-31\n");
}

#[test]
fn error_messages() {
    assert_eq!(AppError::Io("disk full".to_string()).message(), "filesystem error: disk full");
    assert_eq!(AppError::NoVault.message(), "no vault is currently open");
    assert_eq!(AppError::OutsideVault.message(), "path is outside the active vault");
    assert_eq!(AppError::InvalidPath("x".to_string()).message(), "invalid path: x");
    assert_eq!(AppError::TaskMismatch("line 3 is not a task".to_string()).message(), "line 3 is not a task");
}

#[test]
fn config_remembers_the_last_vault() {
    assert!(AppConfig::default().last_vault.is_none());
    assert_eq!(AppConfig::with_last_vault("/v".to_string()).last_vault.as_deref(), Some("/v"));
}

#[test]
fn toggle_messages_and_uppercase_checkbox() {
    let content = "- [X] a\n";
    let (flipped, done) = toggle_task_line(content, 1, "a", true).unwrap();
    assert!(!done);
    assert_eq!(flipped, "- [ ] a\n");
    // Toggling back writes a lowercase `x`.
    assert_eq!(toggle_task_line(&flipped, 1, "a", false).unwrap().0, "- [x] a\n");
    match toggle_task_line(content, 0, "a", true) {
        Err(AppError::TaskMismatch(m)) => assert_eq!(m, "line numbers start at 1"),
        other => panic!("unexpected {other:?}"),
    }
    match toggle_task_line(content, 5, "a", true) {
        Err(AppError::TaskMismatch(m)) => assert_eq!(m, "line 5 is past the end of the file"),
        other => panic!("unexpected {other:?}"),
    }
    match toggle_task_line("prose\n", 1, "a", true) {
        Err(AppError::TaskMismatch(m)) => assert_eq!(m, "line 1 is not a task"),
        other => panic!("unexpected {other:?}"),
    }
    match toggle_task_line(content, 1, "b", true) {
        Err(AppError::TaskMismatch(m)) => {
            assert_eq!(m, "the task on line 1 changed since the query ran \u{2014} refresh and try again")
        }
        other => panic!("unexpected {other:?}"),
    }
}

#[test]
fn linking_notes_are_distinct_and_ordered() {
    let mut idx = Index::new();
    idx.insert(build_entry("Old.md".to_string(), 0, 0, ""));
    idx.insert(build_entry("B.md".to_string(), 0, 0, "[[Old]] and [[Old]]\n[[Old]]\n"));
    idx.insert(build_entry("A.md".to_string(), 0, 0, "[[Old]]\n"));
    idx.insert(build_entry("C.md".to_string(), 0, 0, "nothing\n"));
    assert_eq!(idx.linking_notes("Old.md"), vec!["A.md", "B.md"]);
    assert!(idx.linking_notes("C.md").is_empty());
}

#[test]
fn renamed_links_still_resolve_after_the_index_update() {
    let mut idx = Index::new();
    let c = "See [[a]] and [[notes/a#Top|alias]].\n";
    idx.insert(build_entry("notes/a.md".to_string(), 0, 1, "# Top\n"));
    idx.insert(build_entry("c.md".to_string(), 0, c.len() as u64, c));
    idx.insert(build_entry("other/b.md".to_string(), 0, 1, ""));
    let out = rewrite_inbound_links(c, "c.md", &idx, "notes/a.md", "sub/B.md").unwrap();
    assert_eq!(out, "See [[sub/B]] and [[sub/B#Top|alias]].\n");
    idx.remove("notes/a.md");
    idx.insert(build_entry("sub/B.md".to_string(), 0, 1, "# Top\n"));
    assert_eq!(idx.resolve("sub/B", "c.md"), Some("sub/B.md".to_string()));

    let mut idx = Index::new();
    let d = "[[a]]\n";
    idx.insert(build_entry("a.md".to_string(), 0, 1, ""));
    idx.insert(build_entry("d.md".to_string(), 0, d.len() as u64, d));
    let out = rewrite_inbound_links(d, "d.md", &idx, "a.md", "x/Fresh.md").unwrap();
    assert_eq!(out, "[[Fresh]]\n");
    idx.remove("a.md");
    idx.insert(build_entry("x/Fresh.md".to_string(), 0, 1, ""));
    assert_eq!(idx.resolve("Fresh", "d.md"), Some("x/Fresh.md".to_string()));
}
