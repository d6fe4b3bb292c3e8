use plainmark::tree::{build_tree, is_hidden, list_md_files, DirEntry};

fn file(name: &str, path: &str) -> DirEntry {
    DirEntry { name: name.to_string(), path: path.to_string(), is_dir: false, is_file: true, children: vec![] }
}

fn dir(name: &str, path: &str, children: Vec<DirEntry>) -> DirEntry {
    DirEntry { name: name.to_string(), path: path.to_string(), is_dir: true, is_file: false, children }
}

fn listing() -> Vec<DirEntry> {
    vec![
        file("b.md", "/r/b.md"),
        file("a.md", "/r/a.md"),
        file("notes.txt", "/r/notes.txt"),
        dir(".plainmark", "/r/.plainmark", vec![file("settings.md", "/r/.plainmark/settings.md")]),
        dir("Projects", "/r/Projects", vec![file("p.md", "/r/Projects/p.md")]),
        dir("Empty", "/r/Empty", vec![]),
        dir("archive", "/r/archive", vec![file("old.MD", "/r/archive/old.MD")]),
    ]
}

#[test]
fn build_tree_lists_md_and_skips_hidden() {
    let tree = build_tree(&listing());
    let names: Vec<&str> = tree.iter().map(|n| n.name.as_str()).collect();
    // Folders with Markdown first (case-insensitive order), then files.
    assert_eq!(names, vec!["archive", "Projects", "a.md", "b.md"]);
    assert!(tree[0].is_dir);
    assert_eq!(tree[1].children.len(), 1);
    assert_eq!(tree[1].children[0].path, "/r/Projects/p.md");
    assert!(!tree[2].is_dir);
    assert!(tree[2].children.is_empty());
}

#[test]
fn list_md_files_is_depth_first_in_listing_order() {
    let files = list_md_files(&listing());
    assert_eq!(files, vec!["/r/b.md", "/r/a.md", "/r/Projects/p.md", "/r/archive/old.MD"]);
}

#[test]
fn hidden_names_start_with_a_dot() {
    assert!(is_hidden(".git"));
    assert!(!is_hidden("git"));
    assert!(!is_hidden(""));
}
