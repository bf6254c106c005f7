use treesize::path::{lies_within, lineage, normalize, SEPARATOR};

#[test]
fn separator_is_the_slash() {
    assert_eq!(SEPARATOR, '/');
}

#[test]
fn normalize_squeezes_and_trims() {
    assert_eq!(normalize("a/b"), "a/b");
    assert_eq!(normalize("a//b"), "a/b");
    assert_eq!(normalize("a/b/"), "a/b");
    assert_eq!(normalize("a///b//"), "a/b");
    assert_eq!(normalize("/"), "/");
    assert_eq!(normalize("///"), "/");
    assert_eq!(normalize("//a"), "/a");
    assert_eq!(normalize(""), "");
    assert_eq!(normalize("."), ".");
    assert_eq!(normalize("./"), ".");
    assert_eq!(normalize("é//ü/"), "é/ü");
}

#[test]
fn normalize_leaves_normal_paths_alone() {
    for p in ["a", "a/b/c", "/", "/a/b", ".", "./a", "..", "a b/c d"] {
        assert_eq!(normalize(p), p);
        assert_eq!(normalize(&normalize(p)), normalize(p));
    }
}

#[test]
fn lineage_runs_from_the_path_up_to_the_root() {
    assert_eq!(lineage("root", "root/a/x"), vec!["root/a/x", "root/a", "root"]);
    assert_eq!(lineage("root/a", "root/a/x"), vec!["root/a/x", "root/a"]);
    assert_eq!(lineage("root", "root"), vec!["root"]);
    assert_eq!(lineage("/", "/a/b"), vec!["/a/b", "/a", "/"]);
    assert_eq!(lineage("/", "/"), vec!["/"]);
    assert_eq!(lineage("/a", "/a/b"), vec!["/a/b", "/a"]);
    assert_eq!(lineage(".", "./a"), vec!["./a", "."]);
}

#[test]
fn lineage_is_empty_outside_the_root() {
    assert!(lineage("root", "rooted/a").is_empty());
    assert!(lineage("root", "roo").is_empty());
    assert!(lineage("root/a", "root").is_empty());
    assert!(lineage("root", "other/root/a").is_empty());
    assert!(lineage("", "a").is_empty());
    assert!(lineage("/", "a/b").is_empty());
}

#[test]
fn lineage_of_unnormalized_text_cuts_at_every_separator() {
    assert_eq!(lineage("a", "a//b"), vec!["a//b", "a/", "a"]);
    assert_eq!(lineage("/", "//x"), vec!["//x", "/"]);
    assert_eq!(lineage("", ""), vec![""]);
}

#[test]
fn lies_within_is_decided_at_component_boundaries() {
    assert!(lies_within("root/a", "root"));
    assert!(lies_within("root", "root"));
    assert!(lies_within("/a", "/"));
    assert!(lies_within("/", "/"));
    assert!(!lies_within("rooted", "root"));
    assert!(!lies_within("root", "root/a"));
    assert!(!lies_within("a", ""));
    assert!(!lies_within("a/b", "/"));
    assert!(lies_within("été/x", "été"));
}
