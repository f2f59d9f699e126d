use kpack::codec::decode_archive;
use kpack::entry::{Entry, EntryKind};
use kpack::glob::glob_matches;
use kpack::pack::pack_archive;
use kpack::walk::{basename_of, dir_of_path, plan_entries};

fn file(path: &str, content: &[u8]) -> Entry {
    Entry {
        path: path.as_bytes().to_vec(),
        kind: EntryKind::File,
        mode: 0o644,
        mtime_sec: 1_700_000_000,
        mtime_nsec: 0,
        content: content.to_vec(),
    }
}

fn dir(path: &str) -> Entry {
    Entry {
        path: path.as_bytes().to_vec(),
        kind: EntryKind::Directory,
        mode: 0o755,
        mtime_sec: 1_700_000_000,
        mtime_nsec: 0,
        content: Vec::new(),
    }
}

fn paths(es: &[Entry]) -> Vec<String> {
    es.iter().map(|e| String::from_utf8(e.path.clone()).unwrap()).collect()
}

#[test]
fn ignored_file_pruned_siblings_kept() {
    let cands = vec![
        file(".packignore", b"*.tmp\n"),
        file("a.txt", b"hello"),
        file("skip.tmp", b"junk"),
        dir("sub"),
        file("sub/b.txt", b""),
    ];
    let planned = plan_entries(&cands);
    assert_eq!(paths(&planned), vec!["a.txt", "sub", "sub/b.txt"]);
}

#[test]
fn rule_applies_below_its_directory_only() {
    let cands = vec![
        dir("sub"),
        file("sub/.packignore", b"*.log\n"),
        file("top.log", b"kept: rule lives lower"),
        file("sub/deep.log", b"pruned"),
        dir("sub/inner"),
        file("sub/inner/x.log", b"pruned too"),
        file("sub/keep.txt", b"kept"),
    ];
    let planned = plan_entries(&cands);
    assert_eq!(paths(&planned), vec!["sub", "top.log", "sub/inner", "sub/keep.txt"]);
}

#[test]
fn pruned_directory_takes_descendants() {
    let cands = vec![
        file(".packignore", b"build\n"),
        dir("build"),
        file("build/out.bin", b"x"),
        dir("build/deep"),
        file("build/deep/more.bin", b"y"),
        file("src.txt", b"z"),
    ];
    let planned = plan_entries(&cands);
    assert_eq!(paths(&planned), vec!["src.txt"]);
}

#[test]
fn rules_merge_down_the_tree() {
    let cands = vec![
        file(".packignore", b"*.tmp\n"),
        dir("sub"),
        file("sub/.packignore", b"*.log\n"),
        file("sub/a.tmp", b"pruned by root rule"),
        file("sub/b.log", b"pruned by sub rule"),
        file("sub/c.txt", b"kept"),
    ];
    let planned = plan_entries(&cands);
    assert_eq!(paths(&planned), vec!["sub", "sub/c.txt"]);
}

#[test]
fn empty_rule_lines_ignored() {
    let cands = vec![file(".packignore", b"\n\n*.tmp\n\n"), file("a.tmp", b""), file("b.txt", b"")];
    let planned = plan_entries(&cands);
    assert_eq!(paths(&planned), vec!["b.txt"]);
}

#[test]
fn scenario_two_files_one_dir() {
    let cands = vec![
        file("a.txt", b"12345"),
        dir("sub"),
        file("sub/b.txt", b""),
        file(".packignore", b"*.tmp\n"),
        file("skip.tmp", b"stray"),
    ];
    let bytes = pack_archive(&cands).expect("plan is well-formed");
    let restored = decode_archive(&bytes).expect("archive must decode");
    assert_eq!(restored.len(), 3);
    assert_eq!(paths(&restored), vec!["a.txt", "sub", "sub/b.txt"]);
    assert_eq!(restored[0].kind, EntryKind::File);
    assert_eq!(restored[0].content.len(), 5);
    assert_eq!(restored[1].kind, EntryKind::Directory);
    assert_eq!(restored[2].kind, EntryKind::File);
    assert_eq!(restored[2].content.len(), 0);
}

#[test]
fn glob_star_and_literals() {
    let pat = |p: &str| p.as_bytes().to_vec();
    let s = |x: &str| x.as_bytes().to_vec();
    assert!(glob_matches(&pat("*.tmp"), &s("skip.tmp")));
    assert!(glob_matches(&pat("*.tmp"), &s(".tmp")));
    assert!(!glob_matches(&pat("*.tmp"), &s("skip.tmpx")));
    assert!(!glob_matches(&pat("*.tmp"), &s("skip.txt")));
    assert!(glob_matches(&pat("*"), &s("")));
    assert!(glob_matches(&pat("*"), &s("anything")));
    assert!(glob_matches(&pat("a*b*c"), &s("axxbyyc")));
    assert!(!glob_matches(&pat("a*b*c"), &s("axxbyy")));
    assert!(glob_matches(&pat("exact"), &s("exact")));
    assert!(!glob_matches(&pat("exact"), &s("exac")));
    assert!(!glob_matches(&pat(""), &s("x")));
    assert!(glob_matches(&pat(""), &s("")));
}

#[test]
fn basename_and_dir_split() {
    let p = |x: &str| x.as_bytes().to_vec();
    assert_eq!(basename_of(&p("a/b/c.txt")), p("c.txt"));
    assert_eq!(dir_of_path(&p("a/b/c.txt")), p("a/b"));
    assert_eq!(basename_of(&p("top.txt")), p("top.txt"));
    assert_eq!(dir_of_path(&p("top.txt")), p(""));
}

#[test]
fn unpackable_plan_refused() {
    // A candidate with a path longer than the 16-bit length field cannot
    // be stored; packing must refuse rather than mangle it.
    let long = "x".repeat(70_000);
    let cands = vec![file(&long, b"data")];
    assert!(pack_archive(&cands).is_none());
}

fn symlink(path: &str, target: &str) -> Entry {
    Entry {
        path: path.as_bytes().to_vec(),
        kind: EntryKind::Symlink,
        mode: 0o777,
        mtime_sec: 1_700_000_000,
        mtime_nsec: 0,
        content: target.as_bytes().to_vec(),
    }
}

#[test]
fn only_regular_files_are_rule_files() {
    // A directory or symlink bearing the rule-file name is an ordinary
    // candidate: it is packed, and its bytes are not read as rules.
    let cands = vec![
        dir(".packignore"),
        symlink("also/.packignore", "a.txt"),
        dir("also"),
        file("a.txt", b"kept"),
    ];
    let planned = plan_entries(&cands);
    assert_eq!(paths(&planned), vec![".packignore", "also/.packignore", "also", "a.txt"]);
}
