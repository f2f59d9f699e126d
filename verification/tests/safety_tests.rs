use kpack::safety::is_safe_path;

fn safe(p: &str) -> bool {
    is_safe_path(&p.as_bytes().to_vec())
}

#[test]
fn ordinary_relative_paths_accepted() {
    assert!(safe("a"));
    assert!(safe("a.txt"));
    assert!(safe("a/b"));
    assert!(safe("a/b/c.txt"));
    assert!(safe(".packignore"));
    assert!(safe("...")); // three dots are a legal file name
    assert!(safe("..a"));
    assert!(safe("a.."));
    assert!(safe("a/..b/c"));
}

#[test]
fn parent_segments_rejected() {
    assert!(!safe(".."));
    assert!(!safe("../escape"));
    assert!(!safe("a/.."));
    assert!(!safe("a/../b"));
    assert!(!safe("a/b/.."));
}

#[test]
fn current_dir_segments_rejected() {
    assert!(!safe("."));
    assert!(!safe("./a"));
    assert!(!safe("a/."));
    assert!(!safe("a/./b"));
}

#[test]
fn absolute_and_empty_rejected() {
    assert!(!safe(""));
    assert!(!safe("/"));
    assert!(!safe("/abs"));
    assert!(!safe("/a/b"));
}

#[test]
fn separator_shapes_rejected() {
    assert!(!safe("a/"));
    assert!(!safe("a//b"));
    assert!(!safe("a\\b"));
}

#[test]
fn null_bytes_rejected() {
    assert!(!is_safe_path(&vec![b'a', 0, b'b']));
    assert!(!is_safe_path(&vec![0]));
}
