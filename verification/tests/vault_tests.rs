use plainmark::index::{build_entry, Heading, Index, LinkRef, NoteEntry, Task};
use plainmark::vault::{apply_event, assemble_cached, build_index, event_target, needs_read, reindex_path, ListedFile};
use plainmark::watcher::IndexEvent;

fn entry(rel: &str, content: &str, mtime: i64) -> NoteEntry {
    build_entry(rel.to_string(), mtime, content.len() as u64, content)
}

fn listed(abs: &str, mtime: i64, content: Option<&str>, size: u64) -> ListedFile {
    (abs.to_string(), mtime, size, content.map(|c| c.to_string()))
}

#[test]
fn build_index_parses_read_files() {
    let files = vec![
        listed("/v/Work/Plan.md", 1, Some("# Plan\n\n[[Inbox]]\n"), 18),
        listed("/v/Inbox.md", 1, Some("inbox\n"), 6),
        listed("/elsewhere/x.md", 1, Some("x"), 1),
    ];
    let built = build_index("/v", &files, &vec![]);
    assert_eq!(built.index.len(), 2);
    assert_eq!(built.index.resolve("Inbox", "Work/Plan.md").as_deref(), Some("Inbox.md"));
    assert_eq!(built.index.backlinks("Inbox.md").len(), 1);
    assert_eq!(built.upserts.len(), 2);
    assert!(built.prunes.is_empty());
}

#[test]
fn build_index_reuses_fresh_cache_and_prunes_missing() {
    let cached = vec![entry("Inbox.md", "inbox [[Plan]]\n", 7), entry("Gone.md", "", 3)];
    let size = "inbox [[Plan]]\n".len() as u64;
    assert!(!needs_read("/v", "/v/Inbox.md", 7, size, &cached));
    assert!(needs_read("/v", "/v/Inbox.md", 8, size, &cached));
    assert!(needs_read("/v", "/v/New.md", 1, 1, &cached));
    assert!(!needs_read("/v", "/other/a.md", 1, 1, &cached));

    let files = vec![listed("/v/Inbox.md", 7, None, size), listed("/v/Plan.md", 2, Some("plan\n"), 5)];
    let built = build_index("/v", &files, &cached);
    assert_eq!(built.index.len(), 2);
    // The cached entry was reused (its link is there without re-reading).
    assert_eq!(built.index.backlinks("Plan.md").len(), 1);
    assert_eq!(built.upserts.len(), 1);
    assert_eq!(built.upserts[0].rel_path, "Plan.md");
    assert_eq!(built.prunes, vec!["Gone.md"]);
}

#[test]
fn cache_reuse_gives_the_same_graph_as_a_full_parse() {
    let content = "see [[Target]]\n";
    let files_read = vec![listed("/v/A.md", 5, Some(content), 15), listed("/v/Target.md", 5, Some(""), 0)];
    let fresh = build_index("/v", &files_read, &vec![]);
    let cached = vec![entry("A.md", content, 5)];
    let reused = build_index("/v", &files_read, &cached);
    assert_eq!(fresh.index.backlinks("Target.md"), reused.index.backlinks("Target.md"));
    assert_eq!(fresh.index.len(), reused.index.len());
}

#[test]
fn apply_event_tracks_creates_removes_and_renames() {
    let mut idx = Index::new();
    let created = IndexEvent::Created { path: "/v/Target.md".to_string() };
    assert_eq!(event_target(&created).map(|s| s.as_str()), Some("/v/Target.md"));
    apply_event(&mut idx, "/v", &created, Some((1, 0, String::new())));
    apply_event(&mut idx, "/v", &IndexEvent::Created { path: "/v/B.md".to_string() }, Some((1, 11, "[[Target]]\n".to_string())));
    assert_eq!(idx.len(), 2);
    assert_eq!(idx.backlinks("Target.md").len(), 1);

    // An unreadable file leaves the index as it was.
    apply_event(&mut idx, "/v", &IndexEvent::Modified { path: "/v/B.md".to_string() }, None);
    assert_eq!(idx.backlinks("Target.md").len(), 1);

    let renamed = IndexEvent::Renamed { from: "/v/B.md".to_string(), to: "/v/C.md".to_string() };
    apply_event(&mut idx, "/v", &renamed, Some((2, 11, "[[Target]]\n".to_string())));
    assert!(idx.get("B.md").is_none());
    assert_eq!(idx.backlinks("Target.md")[0].from, "C.md");

    let removed = IndexEvent::Removed { path: "/v/C.md".to_string() };
    assert!(event_target(&removed).is_none());
    apply_event(&mut idx, "/v", &removed, None);
    assert_eq!(idx.len(), 1);
    assert!(idx.backlinks("Target.md").is_empty());
}

#[test]
fn reindex_outside_the_vault_is_ignored() {
    let mut idx = Index::new();
    reindex_path(&mut idx, "/v", "/other/a.md", Some((1, 1, "x".to_string())));
    assert!(idx.is_empty());
    reindex_path(&mut idx, "/v", "/v/a.md", Some((1, 1, "x".to_string())));
    assert_eq!(idx.get("a.md").unwrap().mtime, 1);
}

#[test]
fn cached_rows_assemble_into_entries() {
    let notes = vec![
        ("Plan.md".to_string(), "Plan".to_string(), Some("Secret".to_string()), 12, 34),
        ("Empty.md".to_string(), "Empty".to_string(), None, 1, 0),
    ];
    let headings = vec![
        ("Plan.md".to_string(), Heading { text: "Goals".to_string(), slug: "goals".to_string(), level: 2 }),
        ("Other.md".to_string(), Heading { text: "X".to_string(), slug: "x".to_string(), level: 1 }),
        ("Plan.md".to_string(), Heading { text: "Risks".to_string(), slug: "risks".to_string(), level: 2 }),
    ];
    let links = vec![(
        "Plan.md".to_string(),
        LinkRef { target: "Other".to_string(), heading: Some("Section".to_string()), line: 4, snippet: "see".to_string() },
    )];
    let tasks = vec![(
        "Plan.md".to_string(),
        Task { text: "do it".to_string(), done: false, tags: vec!["work".to_string()], due: None, line: 5 },
    )];
    let entries = assemble_cached(&notes, &headings, &links, &tasks);
    assert_eq!(entries.len(), 2);
    assert_eq!(entries[0].rel_path, "Plan.md");
    assert_eq!(entries[0].classification.as_deref(), Some("Secret"));
    assert_eq!(entries[0].mtime, 12);
    assert_eq!(entries[0].size, 34);
    let hs: Vec<&str> = entries[0].headings.iter().map(|h| h.text.as_str()).collect();
    assert_eq!(hs, vec!["Goals", "Risks"]);
    assert_eq!(entries[0].outgoing.len(), 1);
    assert_eq!(entries[0].tasks[0].tags, vec!["work"]);
    assert!(entries[1].headings.is_empty() && entries[1].outgoing.is_empty() && entries[1].tasks.is_empty());
}

#[test]
fn rebuilding_over_the_written_cache_gives_the_same_index() {
    let a = "see [[B]]\n- [ ] task\n";
    let b = "# B\n";
    // A stale entry for A and one for a note that is gone.
    let cached = vec![entry("A.md", "old [[C]]\n", 1), entry("Gone.md", "", 3)];
    let disk = |cache: &Vec<NoteEntry>| {
        let mut fs = Vec::new();
        for (abs, mtime, c) in [("/v/A.md", 9i64, a), ("/v/B.md", 4, b)] {
            let size = c.len() as u64;
            let content = if needs_read("/v", abs, mtime, size, cache) { Some(c) } else { None };
            fs.push(listed(abs, mtime, content, size));
        }
        fs
    };
    let first = build_index("/v", &disk(&cached), &cached);
    let mut cache2: Vec<NoteEntry> = first.upserts.clone();
    for e in &cached {
        if !first.prunes.contains(&e.rel_path) && !first.upserts.iter().any(|u| u.rel_path == e.rel_path) {
            cache2.push(e.clone());
        }
    }
    let second = build_index("/v", &disk(&cache2), &cache2);
    assert!(second.upserts.is_empty());
    assert_eq!(first.index.len(), second.index.len());
    for e in first.index.entries() {
        let f = second.index.get(&e.rel_path).unwrap();
        assert_eq!(format!("{:?}", e), format!("{:?}", f));
    }
}
