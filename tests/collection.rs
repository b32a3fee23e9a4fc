use venv_clean::{VenvCollection, VenvDir};

fn path(s: &str) -> Vec<String> {
    s.split('/').map(|p| p.to_string()).collect()
}

#[test]
fn new_collection_is_empty() {
    let mut c = VenvCollection::new();
    assert_eq!(c.checked_files, 0);
    assert_eq!(c.len(), 0);
    assert!(c.is_empty());
}

#[test]
fn default_is_new() {
    let mut c = VenvCollection::default();
    assert_eq!(c.checked_files, 0);
    assert!(c.is_empty());
}

#[test]
fn push_appends_in_order() {
    let mut c = VenvCollection::new();
    c.push(path("a/.venv"));
    c.push(path("b/.venv"));
    assert_eq!(c.len(), 2);
    assert!(!c.is_empty());
    assert_eq!(c.data[0].path, path("a/.venv"));
    assert_eq!(c.data[1].path, path("b/.venv"));
    assert_eq!(c.checked_files, 0);
}

#[test]
fn total_size_sums_known_sizes() {
    let mut c = VenvCollection::new();
    c.push(path("a/.venv"));
    c.push(path("b/.venv"));
    c.push(path("c/.venv"));
    assert_eq!(c.get_total_size(&vec![Some(1024), None, Some(3 * 1024 * 1024)]), 3146752);
}

#[test]
fn total_size_of_nothing_is_zero() {
    let c = VenvCollection::new();
    assert_eq!(c.get_total_size(&vec![]), 0);
}

#[test]
fn total_size_saturates() {
    let c = VenvCollection {
        checked_files: 2,
        data: vec![VenvDir { path: path("a") }, VenvDir { path: path("b") }],
    };
    assert_eq!(c.get_total_size(&vec![Some(u64::MAX - 1), Some(5)]), u64::MAX);
}
