use venv_clean::{DirEntryInfo, Scanner, VenvCollection};

enum Tree {
    File,
    Dir(Vec<(String, Tree)>),
    Unreadable,
}

fn dir(entries: Vec<(&str, Tree)>) -> Tree {
    Tree::Dir(entries.into_iter().map(|(n, t)| (n.to_string(), t)).collect())
}

fn lookup<'a>(root: &'a Tree, path: &[String]) -> Option<&'a Tree> {
    let mut node = root;
    for name in path {
        match node {
            Tree::Dir(entries) => {
                node = &entries.iter().find(|(n, _)| n == name)?.1;
            }
            _ => return None,
        }
    }
    Some(node)
}

fn listing(root: &Tree, path: &[String]) -> Option<Vec<DirEntryInfo>> {
    match lookup(root, path)? {
        Tree::Dir(entries) => Some(
            entries
                .iter()
                .map(|(n, t)| DirEntryInfo {
                    name: n.clone(),
                    is_dir: !matches!(t, Tree::File),
                })
                .collect(),
        ),
        _ => None,
    }
}

fn run(root: &Tree, reserved: &[&str]) -> VenvCollection {
    let mut scanner = Scanner::new(reserved.iter().map(|s| s.to_string()).collect());
    while let Some(rel) = scanner.next_dir() {
        let l = listing(root, &rel);
        scanner.advance(l);
    }
    assert!(scanner.is_done());
    scanner.into_collection()
}

fn found(c: &VenvCollection) -> Vec<String> {
    c.data.iter().map(|d| d.path.join("/")).collect()
}

fn sorted(mut v: Vec<String>) -> Vec<String> {
    v.sort();
    v
}

fn venv() -> Tree {
    dir(vec![("bin", dir(vec![("python", Tree::File)])), ("pyvenv.cfg", Tree::File)])
}

#[test]
fn test_temp_dir() {
    let n_venv = 2;
    let root = dir(vec![
        ("test_dir_0", dir(vec![(".venv", dir(vec![]))])),
        ("test_dir_1", dir(vec![(".venv", dir(vec![]))])),
    ]);
    let mut venv_dirs = run(&root, &[]);
    assert!(venv_dirs.len() == n_venv);
}

#[test]
fn one_match_per_venv_at_any_depth() {
    let root = dir(vec![
        (".venv", venv()),
        ("a", dir(vec![("b", dir(vec![("c", dir(vec![(".venv", venv())]))]))])),
        ("d", dir(vec![(".venv", venv()), ("e", dir(vec![(".venv", venv())]))])),
        ("notes.txt", Tree::File),
    ]);
    let mut c = run(&root, &[]);
    assert_eq!(c.len(), 4);
    assert_eq!(
        sorted(found(&c)),
        vec![".venv", "a/b/c/.venv", "d/.venv", "d/e/.venv"]
    );
}

#[test]
fn nested_venv_is_not_reported() {
    let root = dir(vec![("a", dir(vec![(".venv", dir(vec![(".venv", dir(vec![]))]))]))]);
    let c = run(&root, &[]);
    assert_eq!(found(&c), vec!["a/.venv"]);
    assert_eq!(c.checked_files, 2);
}

#[test]
fn reserved_entry_is_neither_matched_nor_entered() {
    let root = dir(vec![("skip", dir(vec![(".venv", venv())]))]);
    let mut c = run(&root, &["skip"]);
    assert!(c.is_empty());
    assert_eq!(c.checked_files, 1);
}

#[test]
fn reserved_name_applies_at_any_depth_and_not_to_siblings() {
    let root = dir(vec![
        ("a", dir(vec![("skip", dir(vec![(".venv", venv())])), (".venv", venv())])),
        ("b", dir(vec![(".venv", venv())])),
    ]);
    let c = run(&root, &["skip"]);
    assert_eq!(sorted(found(&c)), vec!["a/.venv", "b/.venv"]);
    // a, a/skip, a/.venv, b, b/.venv
    assert_eq!(c.checked_files, 5);
}

#[test]
fn reserved_target_name_is_skipped() {
    let root = dir(vec![(".venv", venv()), ("x", dir(vec![(".venv", venv())]))]);
    let c = run(&root, &[".venv"]);
    assert!(found(&c).is_empty());
    assert_eq!(c.checked_files, 3);
}

#[test]
fn visited_count_is_the_number_of_entries() {
    // 3 files and 4 directories below the root, no match
    let root = dir(vec![
        ("a", dir(vec![("f1", Tree::File), ("b", dir(vec![("f2", Tree::File)]))])),
        ("c", dir(vec![])),
        ("d", dir(vec![("f3", Tree::File)])),
    ]);
    let c = run(&root, &[]);
    assert_eq!(c.checked_files, 7);
    assert!(c.data.is_empty());
}

#[test]
fn entries_inside_a_match_are_not_counted() {
    let root = dir(vec![(".venv", venv()), ("f", Tree::File)]);
    let c = run(&root, &[]);
    assert_eq!(c.checked_files, 2);
}

#[test]
fn unreadable_directory_does_not_stop_the_walk() {
    let root = dir(vec![
        ("bad", Tree::Unreadable),
        ("good", dir(vec![(".venv", venv())])),
    ]);
    let c = run(&root, &[]);
    assert_eq!(found(&c), vec!["good/.venv"]);
    assert_eq!(c.checked_files, 3);
}

#[test]
fn unreadable_root_gives_nothing() {
    let c = run(&Tree::Unreadable, &[]);
    assert!(c.data.is_empty());
    assert_eq!(c.checked_files, 0);
}

#[test]
fn scanning_twice_gives_the_same_result() {
    let root = dir(vec![
        ("p", dir(vec![(".venv", venv())])),
        ("q", dir(vec![("r", dir(vec![(".venv", venv())]))])),
        ("s", Tree::Unreadable),
    ]);
    let a = run(&root, &["s"]);
    let b = run(&root, &["s"]);
    assert_eq!(sorted(found(&a)), sorted(found(&b)));
    assert_eq!(a.checked_files, b.checked_files);
}

#[test]
fn end_to_end_three_projects() {
    let root = dir(vec![
        ("proj1", dir(vec![(".venv", dir(vec![]))])),
        ("proj2", dir(vec![(".venv", dir(vec![]))])),
        ("proj3", dir(vec![("src", dir(vec![]))])),
    ]);
    let c = run(&root, &[]);
    assert_eq!(sorted(found(&c)), vec!["proj1/.venv", "proj2/.venv"]);
    // proj1, proj1/.venv, proj2, proj2/.venv, proj3, proj3/src
    assert_eq!(c.checked_files, 6);
}

#[test]
fn matches_come_in_pre_order() {
    let root = dir(vec![
        ("a", dir(vec![(".venv", venv())])),
        (".venv", venv()),
        ("b", dir(vec![(".venv", venv())])),
    ]);
    let c = run(&root, &[]);
    assert_eq!(found(&c), vec!["a/.venv", ".venv", "b/.venv"]);
}

#[test]
fn file_named_like_the_target_is_not_a_match() {
    let root = dir(vec![(".venv", Tree::File), ("x", dir(vec![(".venv", Tree::File)]))]);
    let c = run(&root, &[]);
    assert!(c.data.is_empty());
    assert_eq!(c.checked_files, 3);
}

#[test]
fn target_name_is_case_sensitive() {
    let root = dir(vec![(".VENV", dir(vec![(".Venv", dir(vec![]))])), ("venv", dir(vec![]))]);
    let c = run(&root, &[]);
    assert!(c.data.is_empty());
    assert_eq!(c.checked_files, 3);
}

#[test]
fn scanner_asks_for_the_root_first() {
    let s = Scanner::new(vec![]);
    assert_eq!(s.next_dir(), Some(Vec::<String>::new()));
    assert!(!s.is_done());
}

#[test]
fn scanner_asks_for_subdirectories_by_relative_path() {
    let mut s = Scanner::new(vec![]);
    s.advance(Some(vec![
        DirEntryInfo { name: "f".to_string(), is_dir: false },
        DirEntryInfo { name: "sub".to_string(), is_dir: true },
    ]));
    assert_eq!(s.next_dir(), Some(vec!["sub".to_string()]));
    s.advance(Some(vec![DirEntryInfo { name: "deeper".to_string(), is_dir: true }]));
    assert_eq!(s.next_dir(), Some(vec!["sub".to_string(), "deeper".to_string()]));
    s.advance(None);
    assert!(s.is_done());
    assert_eq!(s.next_dir(), None);
    let c = s.into_collection();
    assert_eq!(c.checked_files, 3);
}

#[test]
fn advance_when_done_changes_nothing() {
    let mut s = Scanner::new(vec![]);
    s.advance(Some(vec![DirEntryInfo { name: ".venv".to_string(), is_dir: true }]));
    assert!(s.is_done());
    s.advance(Some(vec![DirEntryInfo { name: ".venv".to_string(), is_dir: true }]));
    let c = s.into_collection();
    assert_eq!(c.checked_files, 1);
    assert_eq!(found(&c), vec![".venv"]);
}
