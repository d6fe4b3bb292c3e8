use plainmark::index::{build_entry, rewrite_inbound_links, toggle_task_line, Index, NoteEntry};
use plainmark::parse::{parse_frontmatter_classification, parse_note};

fn entry(rel: &str, content: &str) -> NoteEntry {
    build_entry(rel.to_string(), 0, content.len() as u64, content)
}

#[test]
fn parses_basic_links_and_headings() {
    let (headings, links, _tasks) = parse_note("# Title\n\nSee [[Other Note]] and [[Plan#Goals]].\n");
    assert_eq!(headings.len(), 1);
    assert_eq!(headings[0].text, "Title");
    assert_eq!(headings[0].slug, "title");
    assert_eq!(links.len(), 2);
    assert_eq!(links[0].target, "Other Note");
    assert_eq!(links[0].heading, None);
    assert_eq!(links[0].line, 3);
    assert_eq!(links[1].target, "Plan");
    assert_eq!(links[1].heading.as_deref(), Some("Goals"));
}

#[test]
fn ignores_embeds_and_aliases() {
    let (_, links, _) = parse_note("![[image.png]] but [[Real|shown text]] counts\n");
    assert_eq!(links.len(), 1);
    assert_eq!(links[0].target, "Real");
    assert!(links[0].heading.is_none());
}

#[test]
fn ignores_links_in_code() {
    let content = "Inline `[[NotALink]]` and a block:\n\n```\n[[AlsoNot]]\n```\n\n[[RealOne]]\n";
    let (_, links, _) = parse_note(content);
    assert_eq!(links.len(), 1);
    assert_eq!(links[0].target, "RealOne");
}

#[test]
fn heading_slug_handles_punctuation() {
    let (headings, _, _) = parse_note("## My Heading: Part 2!\n");
    assert_eq!(headings[0].slug, "my-heading-part-2");
}

#[test]
fn resolves_bare_name_case_insensitively() {
    let mut idx = Index::new();
    idx.insert(entry("Plan.md", ""));
    assert_eq!(idx.resolve("plan", "Inbox.md").as_deref(), Some("Plan.md"));
    assert_eq!(idx.resolve("Missing", "Inbox.md"), None);
}

#[test]
fn resolves_prefers_same_folder_on_collision() {
    let mut idx = Index::new();
    idx.insert(entry("Work/Plan.md", ""));
    idx.insert(entry("Personal/Plan.md", ""));
    assert_eq!(idx.resolve("Plan", "Work/Tasks.md").as_deref(), Some("Work/Plan.md"));
    assert_eq!(idx.resolve("Plan", "Inbox.md").as_deref(), Some("Personal/Plan.md"));
}

#[test]
fn resolves_shortest_path_over_deeper() {
    let mut idx = Index::new();
    idx.insert(entry("Plan.md", ""));
    idx.insert(entry("Archive/Old/Plan.md", ""));
    assert_eq!(idx.resolve("Plan", "Notes/X.md").as_deref(), Some("Plan.md"));
}

#[test]
fn resolves_exact_path_qualified() {
    let mut idx = Index::new();
    idx.insert(entry("Work/Plan.md", ""));
    idx.insert(entry("Personal/Plan.md", ""));
    assert_eq!(idx.resolve("Personal/Plan", "Work/X.md").as_deref(), Some("Personal/Plan.md"));
}

#[test]
fn link_status_reports_heading_existence() {
    let mut idx = Index::new();
    idx.insert(entry("Plan.md", "# Goals\n\nbody\n"));
    let ok = idx.link_status("Plan", Some("Goals"), "X.md");
    assert_eq!(ok.path.as_deref(), Some("Plan.md"));
    assert!(ok.heading_ok);

    let bad = idx.link_status("Plan", Some("Nonexistent"), "X.md");
    assert_eq!(bad.path.as_deref(), Some("Plan.md"));
    assert!(!bad.heading_ok);
}

#[test]
fn backlinks_are_computed_and_sorted() {
    let mut idx = Index::new();
    idx.insert(entry("Target.md", "# Target\n"));
    idx.insert(entry("B.md", "links to [[Target]] here\n"));
    idx.insert(entry("A.md", "also [[Target]]\nand again [[Target]]\n"));
    idx.insert(entry("Unrelated.md", "nothing\n"));

    let backs = idx.backlinks("Target.md");
    assert_eq!(backs.len(), 3);
    assert_eq!(backs[0].from, "A.md");
    assert_eq!(backs[0].line, 1);
    assert_eq!(backs[1].from, "A.md");
    assert_eq!(backs[1].line, 2);
    assert_eq!(backs[2].from, "B.md");
    assert!(backs[0].snippet.contains("[[Target]]"));
}

#[test]
fn incremental_remove_updates_backlinks_and_resolution() {
    let mut idx = Index::new();
    idx.insert(entry("Target.md", ""));
    idx.insert(entry("B.md", "[[Target]]\n"));
    assert_eq!(idx.backlinks("Target.md").len(), 1);

    idx.remove("B.md");
    assert_eq!(idx.backlinks("Target.md").len(), 0);
    assert_eq!(idx.len(), 1);

    idx.remove("Target.md");
    assert_eq!(idx.resolve("Target", "X.md"), None);
    assert!(idx.is_empty());
}

#[test]
fn rewrite_inbound_links_changes_only_resolving_targets() {
    let mut idx = Index::new();
    idx.insert(entry("Old.md", ""));
    let from = "note.md";
    let content = "see [[Old]] and `[[Old]]` and [[Other]]\n";
    let out = rewrite_inbound_links(content, from, &idx, "Old.md", "New.md").unwrap();
    assert_eq!(out, "see [[New]] and `[[Old]]` and [[Other]]\n");
}

#[test]
fn rewrite_preserves_heading_and_alias() {
    let mut idx = Index::new();
    idx.insert(entry("Old.md", "# Goals\n"));
    let out = rewrite_inbound_links("[[Old#Goals|My Plan]]\n", "n.md", &idx, "Old.md", "New.md").unwrap();
    assert_eq!(out, "[[New#Goals|My Plan]]\n");
}

#[test]
fn rewrite_path_qualified_target_uses_new_path() {
    let mut idx = Index::new();
    idx.insert(entry("Work/Old.md", ""));
    let out = rewrite_inbound_links("[[Work/Old]]\n", "n.md", &idx, "Work/Old.md", "Work/New.md").unwrap();
    assert_eq!(out, "[[Work/New]]\n");
}

#[test]
fn reinsert_replaces_outgoing_links() {
    let mut idx = Index::new();
    idx.insert(entry("Target.md", ""));
    idx.insert(entry("B.md", "[[Target]]\n"));
    assert_eq!(idx.backlinks("Target.md").len(), 1);

    idx.insert(entry("B.md", "no links now\n"));
    assert_eq!(idx.backlinks("Target.md").len(), 0);
}

#[test]
fn parses_task_markers_status_tags_and_due() {
    let content = "# T\n\n- [ ] Write the spec #work #urgent 📅 2026-07-01\n- [x] Done thing\n* [X] starred done\n";
    let (_, _, tasks) = parse_note(content);
    assert_eq!(tasks.len(), 3);

    assert_eq!(tasks[0].text, "Write the spec #work #urgent 📅 2026-07-01");
    assert!(!tasks[0].done);
    assert_eq!(tasks[0].tags, vec!["work", "urgent"]);
    assert_eq!(tasks[0].due.as_deref(), Some("2026-07-01"));
    assert_eq!(tasks[0].line, 3);

    assert!(tasks[1].done);
    assert!(tasks[1].tags.is_empty());
    assert!(tasks[1].due.is_none());

    assert!(tasks[2].done);
}

#[test]
fn tasks_inside_code_blocks_are_skipped() {
    let content = "- [ ] real\n\n```\n- [ ] fenced not a task\n```\n\n    - [ ] indented code\n";
    let (_, _, tasks) = parse_note(content);
    assert_eq!(tasks.len(), 1);
    assert_eq!(tasks[0].text, "real");
    assert_eq!(tasks[0].line, 1);
}

#[test]
fn frontmatter_classification_is_read() {
    let c = "---\ntitle: X\nclassification: Secret\n---\n\n- [ ] body\n";
    assert_eq!(parse_frontmatter_classification(c).as_deref(), Some("Secret"));
    assert_eq!(
        parse_frontmatter_classification("---\nclassification: \"Top Secret\"\n---\n").as_deref(),
        Some("Top Secret")
    );
    assert!(parse_frontmatter_classification("no frontmatter\n").is_none());
    assert!(parse_frontmatter_classification("---\ntitle: X\n---\n").is_none());
}

#[test]
fn digit_only_hashes_are_not_tags() {
    let (_, _, tasks) = parse_note("- [ ] pay #123 and #work\n");
    assert_eq!(tasks[0].tags, vec!["work"]);
}

#[test]
fn toggle_flips_open_to_done_and_back() {
    let content = "- [ ] a\n- [ ] b\n";
    let (flipped, done) = toggle_task_line(content, 2, "b", false).unwrap();
    assert!(done);
    assert_eq!(flipped, "- [ ] a\n- [x] b\n");

    let (back, done) = toggle_task_line(&flipped, 2, "b", true).unwrap();
    assert!(!done);
    assert_eq!(back, content);
}

#[test]
fn toggle_refuses_a_shifted_or_changed_line() {
    let content = "- [ ] a\n- [ ] b\n";
    assert!(toggle_task_line(content, 2, "stale text", false).is_err());
    assert!(toggle_task_line(content, 1, "a", true).is_err());
    assert!(toggle_task_line("just prose\n", 1, "", false).is_err());
    assert!(toggle_task_line(content, 9, "x", false).is_err());
}

#[test]
fn every_indexed_task_toggles_at_write_back() {
    let c = "# Tasks\n\n- [ ] one #a\n  * [x]   two 📅 2026-01-02  \n\n```\n- [ ] in code\n```\n+ [X] three\n";
    let (_, _, tasks) = parse_note(c);
    assert_eq!(tasks.len(), 3);
    for t in &tasks {
        let (_, done) = toggle_task_line(c, t.line, &t.text, t.done).unwrap();
        assert_eq!(done, !t.done);
    }
}
