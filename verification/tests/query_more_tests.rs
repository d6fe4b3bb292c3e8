use plainmark::index::{build_entry, Index};
use plainmark::query::{execute, parse, DateSpec, DueCmp, Filter, Query, SortDir, SortKey};

fn index_of(notes: &[(&str, &str)]) -> Index {
    let mut idx = Index::new();
    for (rel, content) in notes {
        idx.insert(build_entry(rel.to_string(), 0, content.len() as u64, content));
    }
    idx
}

fn err(src: &str) -> String {
    parse(src).unwrap_err()
}

#[test]
fn each_error_has_its_message() {
    assert_eq!(err("group by file"), "unknown directive: group by file");
    assert_eq!(err("limit abc"), "limit needs a non-negative number: limit abc");
    assert_eq!(err("due yesterday"), "due needs before|after|on: due yesterday");
    assert_eq!(err("due before"), "due needs a date: due before");
    assert_eq!(err("due before  "), "due needs a date: due before");
    assert_eq!(err("due before yesterday"), "invalid date 'yesterday' (use YYYY-MM-DD or today)");
    assert_eq!(err("due on 2026-13-40"), "invalid date '2026-13-40' (use YYYY-MM-DD or today)");
    assert_eq!(err("due on today now"), "too many words in: due on today now");
    assert_eq!(err("tag work"), "tag must start with '#': tag work");
    assert_eq!(err("tag #"), "invalid tag: tag #");
    assert_eq!(err("tag #a b"), "invalid tag: tag #a b");
    assert_eq!(err("path startswith Projects/"), "expected a quoted \"value\", got: Projects/");
    assert_eq!(err("text includes \"a\"b\""), "expected a quoted \"value\", got: \"a\"b\"");
    assert_eq!(err("sort by name asc"), "sort by needs due|path: sort by name asc");
    assert_eq!(err("sort by due up"), "sort direction must be asc|desc: up");
    assert_eq!(err("sort by due asc extra"), "too many words in: sort by due asc extra");
    assert_eq!(err("classification is "), "unknown directive: classification is");
}

#[test]
fn the_first_bad_line_is_reported() {
    assert_eq!(err("done\nbogus\nalso bogus"), "unknown directive: bogus");
}

#[test]
fn later_sort_and_limit_override_earlier_ones() {
    let q = parse("limit 5\nsort by path desc\nlimit +2\nsort by due\ndone\nno due").unwrap();
    assert_eq!(
        q,
        Query {
            filters: vec![Filter::Done(true), Filter::NoDue],
            sort: Some((SortKey::Due, SortDir::Asc)),
            limit: Some(2),
        }
    );
}

#[test]
fn every_filter_form_parses() {
    let q = parse("has due\ndue after 2026-01-31\ndue on today\ntag #Work\nclassification is Top Secret\npath includes \"a b\"").unwrap();
    assert_eq!(
        q.filters,
        vec![
            Filter::HasDue,
            Filter::Due(DueCmp::After, DateSpec::Date("2026-01-31".to_string())),
            Filter::Due(DueCmp::On, DateSpec::Today),
            Filter::Tag("Work".to_string()),
            Filter::Classification("Top Secret".to_string()),
            Filter::PathIncludes("a b".to_string()),
        ]
    );
}

#[test]
fn blank_lines_anywhere_change_nothing() {
    assert_eq!(parse("done\n\n   \nlimit 1\n"), parse("done\nlimit 1"));
    assert_eq!(parse(""), Ok(Query { filters: vec![], sort: None, limit: None }));
    assert_eq!(parse("\r\ndone\r\n"), parse("done"));
}

#[test]
fn limit_zero_returns_nothing() {
    let idx = index_of(&[("a.md", "- [ ] one\n")]);
    assert!(execute(&idx, &parse("limit 0").unwrap(), "2026-06-24").is_empty());
}

#[test]
fn limit_too_big_for_usize_is_an_error() {
    assert!(parse("limit 99999999999999999999999").is_err());
}

#[test]
fn results_fill_the_limit_in_path_then_line_order() {
    let idx = index_of(&[("b.md", "- [ ] b1\n- [ ] b2\n"), ("a.md", "- [ ] a1\n\n- [x] a2\n")]);
    let hits = execute(&idx, &parse("limit 3").unwrap(), "2026-06-24");
    let got: Vec<(&str, usize)> = hits.iter().map(|h| (h.rel_path.as_str(), h.line)).collect();
    assert_eq!(got, vec![("a.md", 1), ("a.md", 3), ("b.md", 1)]);
    assert_eq!(hits[0].title, "a");
    let desc = execute(&idx, &parse("sort by path desc").unwrap(), "2026-06-24");
    let got: Vec<(&str, usize)> = desc.iter().map(|h| (h.rel_path.as_str(), h.line)).collect();
    assert_eq!(got, vec![("b.md", 2), ("b.md", 1), ("a.md", 3), ("a.md", 1)]);
}

#[test]
fn undated_tasks_sort_first_by_due() {
    let idx = index_of(&[("a.md", "- [ ] later 📅 2026-02-01\n- [ ] undated\n- [ ] sooner 📅 2026-01-01\n")]);
    let hits = execute(&idx, &parse("sort by due").unwrap(), "2026-06-24");
    let texts: Vec<&str> = hits.iter().map(|h| h.text.as_str()).collect();
    assert_eq!(texts, vec!["undated", "sooner 📅 2026-01-01", "later 📅 2026-02-01"]);
}

#[test]
fn results_do_not_depend_on_insertion_order() {
    let notes = [
        ("c.md", "- [ ] c1 📅 2026-03-01\n- [x] c2\n"),
        ("a.md", "- [ ] a1\n- [ ] a2 📅 2026-01-05\n"),
        ("b/b.md", "- [ ] b1 📅 2026-03-01\n"),
    ];
    let forward = index_of(&notes);
    let mut reversed_notes = notes.to_vec();
    reversed_notes.reverse();
    let backward = index_of(&reversed_notes);
    for src in ["", "sort by due desc", "sort by path desc\nlimit 2", "not done\nsort by due"] {
        let q = parse(src).unwrap();
        let x = execute(&forward, &q, "2026-06-24");
        let y = execute(&backward, &q, "2026-06-24");
        assert_eq!(x, y);
    }
    let q = parse("sort by due desc").unwrap();
    let got: Vec<(String, usize)> = execute(&forward, &q, "2026-06-24")
        .iter()
        .map(|h| (h.rel_path.clone(), h.line))
        .collect();
    let want: Vec<(String, usize)> = vec![
        ("c.md".to_string(), 1),
        ("b/b.md".to_string(), 1),
        ("a.md".to_string(), 2),
        ("c.md".to_string(), 2),
        ("a.md".to_string(), 1),
    ];
    assert_eq!(got, want);
}

#[test]
fn joined_blocks_parse_as_the_combination() {
    let a = "done\nsort by path desc\nlimit 4";
    let b = "no due\nlimit 1";
    let qa = parse(a).unwrap();
    let qb = parse(b).unwrap();
    let joined = parse(&format!("{a}\n{b}")).unwrap();
    let mut filters = qa.filters;
    filters.extend(qb.filters);
    assert_eq!(
        joined,
        Query { filters, sort: qb.sort.or(qa.sort), limit: qb.limit.or(qa.limit) }
    );
    assert_eq!(parse(&format!("{a}\nfrobnicate")), parse("frobnicate"));
    assert_eq!(parse(&format!("frobnicate\n{b}")), parse("frobnicate"));
}
