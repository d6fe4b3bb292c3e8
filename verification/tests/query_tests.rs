use plainmark::index::{build_entry, Index};
use plainmark::query::{execute, parse, Filter, Query, TaskHit};

fn index_of(notes: &[(&str, &str)]) -> Index {
    let mut idx = Index::new();
    for (rel, content) in notes {
        idx.insert(build_entry(rel.to_string(), 0, content.len() as u64, content));
    }
    idx
}

fn texts(hits: &[TaskHit]) -> Vec<&str> {
    hits.iter().map(|h| h.text.as_str()).collect()
}

#[test]
fn done_and_not_done() {
    let idx = index_of(&[("a.md", "- [ ] open\n- [x] closed\n")]);
    let q = parse("not done").unwrap();
    assert_eq!(texts(&execute(&idx, &q, "2026-06-24")), ["open"]);
    let q = parse("done").unwrap();
    assert_eq!(texts(&execute(&idx, &q, "2026-06-24")), ["closed"]);
}

#[test]
fn tasks_across_three_folders() {
    let idx = index_of(&[
        ("Projects/a.md", "- [ ] alpha\n"),
        ("Work/b.md", "- [ ] beta\n"),
        ("Inbox/c.md", "- [ ] gamma\n"),
    ]);
    let q = parse("not done").unwrap();
    let hits = execute(&idx, &q, "2026-06-24");
    assert_eq!(hits.len(), 3);
    assert_eq!(texts(&hits), ["gamma", "alpha", "beta"]);
}

#[test]
fn path_startswith_and_includes() {
    let idx = index_of(&[("Projects/a.md", "- [ ] one\n"), ("Work/b.md", "- [ ] two\n")]);
    let q = parse("path startswith \"Projects/\"").unwrap();
    assert_eq!(texts(&execute(&idx, &q, "2026-06-24")), ["one"]);
    let q = parse("path includes \"Work\"").unwrap();
    assert_eq!(texts(&execute(&idx, &q, "2026-06-24")), ["two"]);
}

#[test]
fn tag_filter_is_case_insensitive() {
    let idx = index_of(&[("a.md", "- [ ] x #Work\n- [ ] y #home\n")]);
    let q = parse("tag #work").unwrap();
    assert_eq!(texts(&execute(&idx, &q, "2026-06-24")), ["x #Work"]);
}

#[test]
fn text_includes_is_case_insensitive() {
    let idx = index_of(&[("a.md", "- [ ] Write the SPEC\n- [ ] other\n")]);
    let q = parse("text includes \"spec\"").unwrap();
    assert_eq!(texts(&execute(&idx, &q, "2026-06-24")), ["Write the SPEC"]);
}

#[test]
fn due_comparisons_and_today() {
    let idx = index_of(&[(
        "a.md",
        "- [ ] past 📅 2026-06-01\n- [ ] today 📅 2026-06-24\n- [ ] future 📅 2026-12-31\n- [ ] undated\n",
    )]);
    let today = "2026-06-24";
    assert_eq!(texts(&execute(&idx, &parse("due before today").unwrap(), today)), ["past 📅 2026-06-01"]);
    assert_eq!(texts(&execute(&idx, &parse("due after today").unwrap(), today)), ["future 📅 2026-12-31"]);
    assert_eq!(texts(&execute(&idx, &parse("due today").unwrap(), today)), ["today 📅 2026-06-24"]);
    assert_eq!(texts(&execute(&idx, &parse("due on 2026-12-31").unwrap(), today)), ["future 📅 2026-12-31"]);
}

#[test]
fn no_due_and_has_due() {
    let idx = index_of(&[("a.md", "- [ ] dated 📅 2026-01-01\n- [ ] bare\n")]);
    assert_eq!(texts(&execute(&idx, &parse("no due").unwrap(), "2026-06-24")), ["bare"]);
    assert_eq!(texts(&execute(&idx, &parse("has due").unwrap(), "2026-06-24")), ["dated 📅 2026-01-01"]);
}

#[test]
fn classification_matches_frontmatter() {
    let idx = index_of(&[
        ("secret.md", "---\nclassification: Secret\n---\n- [ ] hush\n"),
        ("plain.md", "- [ ] open\n"),
    ]);
    let q = parse("classification is Secret").unwrap();
    assert_eq!(texts(&execute(&idx, &q, "2026-06-24")), ["hush"]);
    let q = parse("classification is secret").unwrap();
    assert_eq!(texts(&execute(&idx, &q, "2026-06-24")), ["hush"]);
}

#[test]
fn sort_by_due_and_path() {
    let idx = index_of(&[("b.md", "- [ ] later 📅 2026-12-01\n"), ("a.md", "- [ ] earlier 📅 2026-01-01\n")]);
    let hits = execute(&idx, &parse("sort by due asc").unwrap(), "2026-06-24");
    assert_eq!(texts(&hits), ["earlier 📅 2026-01-01", "later 📅 2026-12-01"]);
    let hits = execute(&idx, &parse("sort by due desc").unwrap(), "2026-06-24");
    assert_eq!(texts(&hits), ["later 📅 2026-12-01", "earlier 📅 2026-01-01"]);
    let hits = execute(&idx, &parse("sort by path asc").unwrap(), "2026-06-24");
    assert_eq!(texts(&hits), ["earlier 📅 2026-01-01", "later 📅 2026-12-01"]);
}

#[test]
fn limit_truncates() {
    let idx = index_of(&[("a.md", "- [ ] one\n- [ ] two\n- [ ] three\n")]);
    let q = parse("sort by path asc\nlimit 2").unwrap();
    assert_eq!(execute(&idx, &q, "2026-06-24").len(), 2);
}

#[test]
fn filters_combine_with_and() {
    let idx = index_of(&[(
        "Projects/a.md",
        "- [ ] hit #work 📅 2026-06-01\n- [ ] miss #work\n- [ ] other 📅 2026-06-01\n",
    )]);
    let q = parse("not done\ntag #work\ndue before today").unwrap();
    assert_eq!(texts(&execute(&idx, &q, "2026-06-24")), ["hit #work 📅 2026-06-01"]);
}

#[test]
fn unknown_and_malformed_directives_error() {
    assert!(parse("group by file").is_err());
    assert!(parse("priority high").is_err());
    assert!(parse("limit abc").is_err());
    assert!(parse("due before yesterday").is_err());
    assert!(parse("due on 2026-13-40").is_err());
    assert!(parse("tag work").is_err());
    assert!(parse("path startswith Projects/").is_err());
    assert!(parse("sort by name asc").is_err());
    assert!(parse("classification is ").is_err());
}

#[test]
fn blank_lines_are_ignored() {
    let q = parse("\n  \ndone\n\n").unwrap();
    assert_eq!(q, Query { filters: vec![Filter::Done(true)], sort: None, limit: None });
}
