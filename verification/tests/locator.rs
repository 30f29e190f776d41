use repo_scan::fs_tree::{Entry, Node};
use repo_scan::locator::{find_repositories, is_repository, LocateError};

fn file(name: &str) -> Entry {
    Entry { name: name.to_string(), node: Node::File }
}

fn dir(name: &str, entries: Vec<Entry>) -> Entry {
    Entry { name: name.to_string(), node: Node::Dir { entries: Some(entries) } }
}

fn denied(name: &str) -> Entry {
    Entry { name: name.to_string(), node: Node::Dir { entries: None } }
}

fn repo(name: &str) -> Entry {
    dir(name, vec![dir(".git", vec![])])
}

fn paths(r: &[Vec<String>]) -> Vec<Vec<&str>> {
    r.iter().map(|p| p.iter().map(|c| c.as_str()).collect()).collect()
}

#[test]
fn marker_directory_makes_repository() {
    assert!(is_repository(&repo("a")));
    let with_extras = dir("b", vec![file("README"), dir(".git", vec![file("HEAD")])]);
    assert!(is_repository(&with_extras));
}

#[test]
fn marker_file_is_not_repository() {
    let fake = dir("a", vec![file(".git"), file("README")]);
    assert!(!is_repository(&fake));
}

#[test]
fn plain_file_and_denied_listing_are_not_repositories() {
    assert!(!is_repository(&file(".git")));
    assert!(!is_repository(&denied("a")));
    assert!(!is_repository(&dir("empty", vec![])));
}

#[test]
fn root_that_is_a_file_fails() {
    let mut count: usize = 0;
    let r = find_repositories(&file("x"), true, &mut count);
    assert_eq!(r, Err(LocateError::NotADirectory));
    assert_eq!(count, 0);
}

#[test]
fn denied_root_listing_yields_no_repositories() {
    let mut count: usize = 0;
    let r = find_repositories(&denied("x"), true, &mut count).unwrap();
    assert!(r.is_empty());
    assert_eq!(count, 0);
}

#[test]
fn zero_repositories_found_in_plain_tree() {
    let root = dir("root", vec![file("a"), dir("d", vec![file("b")])]);
    let mut count: usize = 0;
    let r = find_repositories(&root, true, &mut count).unwrap();
    assert_eq!(r.len(), 0);
}

#[test]
fn nonrecursive_scan_finds_only_top_level() {
    let root = dir(
        "root",
        vec![repo("r1"), dir("d", vec![repo("r2")]), file("f")],
    );
    let mut count: usize = 0;
    let r = find_repositories(&root, false, &mut count).unwrap();
    assert_eq!(paths(&r), vec![vec!["r1"]]);
    // only the root's three immediate children were examined
    assert_eq!(count, 3);
}

#[test]
fn recursive_scan_finds_nested_repository() {
    let root = dir("root", vec![dir("d", vec![repo("r2")]), repo("r1")]);
    let mut count: usize = 0;
    let r = find_repositories(&root, true, &mut count).unwrap();
    assert_eq!(paths(&r), vec![vec!["d", "r2"], vec!["r1"]]);
}

#[test]
fn repository_nested_inside_repository_is_not_found() {
    let outer = dir(
        "outer",
        vec![dir(".git", vec![]), repo("inner"), dir("sub", vec![repo("deep")])],
    );
    let root = dir("root", vec![outer]);
    let mut count: usize = 0;
    let r = find_repositories(&root, true, &mut count).unwrap();
    assert_eq!(paths(&r), vec![vec!["outer"]]);
    // only the root's one child was examined; the repository was not entered
    assert_eq!(count, 1);
}

#[test]
fn counter_counts_children_of_descended_directories() {
    // root has 3 children; "d" is descended into and has 2; the repository
    // "r" and the file "f" contribute nothing below themselves.
    let r = dir("r", vec![dir(".git", vec![file("HEAD"), file("config")]), file("x")]);
    let root = dir("root", vec![r, dir("d", vec![file("a"), file("b")]), file("f")]);
    let mut count: usize = 0;
    find_repositories(&root, true, &mut count).unwrap();
    assert_eq!(count, 5);
}

#[test]
fn counter_accumulates_from_starting_value() {
    let root = dir("root", vec![file("a")]);
    let mut count: usize = 7;
    find_repositories(&root, true, &mut count).unwrap();
    assert_eq!(count, 8);
}

#[test]
fn denied_subdirectory_is_skipped_but_counted() {
    let root = dir("root", vec![denied("locked"), repo("r")]);
    let mut count: usize = 0;
    let r = find_repositories(&root, true, &mut count).unwrap();
    assert_eq!(paths(&r), vec![vec!["r"]]);
    assert_eq!(count, 2);
}
