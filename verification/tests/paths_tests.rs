use plainmark::paths::{is_md, to_rel};

#[test]
fn to_rel_strips_the_vault_root() {
    assert_eq!(to_rel("/v", "/v/Work/Plan.md").as_deref(), Some("Work/Plan.md"));
    assert_eq!(to_rel("/v", "/elsewhere/a.md"), None);
    assert_eq!(to_rel("/v", "/v2/a.md"), None);
    assert_eq!(to_rel("/v", "/v/odd\\name.md").as_deref(), Some("odd/name.md"));
}

#[test]
fn is_md_ignores_case() {
    assert!(is_md("/v/a.md"));
    assert!(is_md("/v/a.MD"));
    assert!(!is_md("/v/a.txt"));
    assert!(!is_md("/v/.md"));
}

#[test]
fn parent_components_make_a_path_unsafe() {
    assert_eq!(plainmark::fs_ops::safe_vault_rel("a/../b"), None);
    assert!(!plainmark::watcher::is_relevant("/v/../v/a.md", "/v"));
}
