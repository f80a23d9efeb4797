use pathstore::{PathKey, PathStore, StorageError};

/// Builds a key from path text: a leading `/` makes it absolute, and the
/// remaining text is split into segments.
fn key(s: &str) -> PathKey {
    if let Some(rest) = s.strip_prefix('/') {
        let segments: Vec<String> = if rest.is_empty() {
            Vec::new()
        } else {
            rest.split('/').map(|t| t.to_string()).collect()
        };
        PathKey::absolute(segments)
    } else {
        let segments: Vec<String> = if s.is_empty() {
            Vec::new()
        } else {
            s.split('/').map(|t| t.to_string()).collect()
        };
        PathKey::relative(segments)
    }
}

fn sorted_walk(store: &PathStore<u32>) -> Vec<String> {
    let mut w = store.walk();
    w.sort();
    w
}

#[test]
fn root_store_push() {
    let mut store = PathStore::<u32>::new(None);
    assert_eq!(store.size(), 0);

    assert_eq!(store.add_path(&key("/f"), None), Ok(true));
    assert_eq!(store.add_path(&key("/g"), None), Ok(true));
    assert_eq!(store.add_path(&key("/f"), None), Ok(false));
    assert_eq!(store.add_path(&key("h"), None).is_err(), true);
    assert_eq!(store.size(), 2);
}

#[test]
fn root_store_push_double() {
    let mut store = PathStore::<u32>::new(None);
    assert_eq!(store.size(), 0);

    assert_eq!(store.add_path(&key("/f"), None), Ok(true));
    assert_eq!(store.add_path(&key("/g"), None), Ok(true));
    assert_eq!(store.add_path(&key("/f/FDrive/files"), None), Ok(true));
    assert_eq!(store.add_path(&key("/f/FDrive/hello"), None), Ok(true));
    assert_eq!(store.add_path(&key("/f"), None), Ok(false));
    assert_eq!(store.add_path(&key("h"), None).is_err(), true);
    assert_eq!(store.size(), 5);

    assert_eq!(
        sorted_walk(&store),
        vec![
            "/f/FDrive/files".to_string(),
            "/f/FDrive/hello".to_string(),
            "/g".to_string(),
        ]
    );
}

#[test]
fn walk_of_new_store_is_the_root() {
    let store = PathStore::<u32>::new(None);
    assert_eq!(store.walk(), vec!["/".to_string()]);
}

#[test]
fn inserting_the_bare_root_changes_nothing_structurally() {
    let mut store = PathStore::<u32>::new(None);
    assert_eq!(store.add_path(&key("/"), Some(7)), Ok(false));
    assert_eq!(store.size(), 0);
    assert_eq!(store.get_data(&key("/")), Some(&7));
}

#[test]
fn second_insert_returns_false_and_overwrites_payload() {
    let mut store = PathStore::<u32>::new(None);
    assert_eq!(store.add_path(&key("/a/b"), Some(1)), Ok(true));
    assert_eq!(store.size(), 2);
    assert_eq!(store.get_data(&key("/a/b")), Some(&1));

    assert_eq!(store.add_path(&key("/a/b"), Some(2)), Ok(false));
    assert_eq!(store.size(), 2);
    assert_eq!(store.get_data(&key("/a/b")), Some(&2));
}

#[test]
fn relative_path_is_rejected_and_store_is_unchanged() {
    let mut store = PathStore::<u32>::new(None);
    assert_eq!(store.add_path(&key("x"), Some(1)), Err(StorageError::InvalidPath));
    assert_eq!(store.size(), 0);
    assert_eq!(store.walk(), vec!["/".to_string()]);

    assert_eq!(store.add_path(&key("/a"), Some(2)), Ok(true));
    assert_eq!(store.add_path(&key("a/b"), Some(3)), Err(StorageError::InvalidPath));
    assert_eq!(store.size(), 1);
    assert_eq!(store.walk(), vec!["/a".to_string()]);
    assert_eq!(store.get_data(&key("/a")), Some(&2));
}

#[test]
fn shared_prefixes_are_counted_once() {
    let mut store = PathStore::<u32>::new(None);
    assert_eq!(store.add_path(&key("/a/b/c"), None), Ok(true));
    assert_eq!(store.size(), 3);
    assert_eq!(store.add_path(&key("/a/b/d"), None), Ok(true));
    assert_eq!(store.size(), 4);
    assert_eq!(store.add_path(&key("/a"), None), Ok(false));
    assert_eq!(store.size(), 4);
}

#[test]
fn interior_node_with_payload_is_not_reported_by_walk() {
    let mut store = PathStore::<u32>::new(None);
    assert_eq!(store.add_path(&key("/f"), Some(1)), Ok(true));
    assert_eq!(store.add_path(&key("/f/g"), Some(2)), Ok(true));
    assert_eq!(store.walk(), vec!["/f/g".to_string()]);
    assert_eq!(store.get_data(&key("/f")), Some(&1));
    assert_eq!(store.get_data(&key("/f/g")), Some(&2));
}

#[test]
fn walk_round_trips_a_prefix_free_set() {
    let mut store = PathStore::<u32>::new(None);
    let paths = ["/x/y", "/x/z", "/w"];
    for p in paths {
        assert_eq!(store.add_path(&key(p), None), Ok(true));
    }
    let mut expected: Vec<String> = paths.iter().map(|p| p.to_string()).collect();
    expected.sort();
    assert_eq!(sorted_walk(&store), expected);
}

#[test]
fn intermediate_nodes_carry_no_payload() {
    let mut store = PathStore::<u32>::new(None);
    assert_eq!(store.add_path(&key("/a/b"), Some(3)), Ok(true));
    assert_eq!(store.get_data(&key("/a")), None);
    assert_eq!(store.get_data(&key("/a/b")), Some(&3));
    assert_eq!(store.get_data(&key("/a/b/c")), None);
    assert_eq!(store.get_data(&key("a/b")), None);
}

#[test]
fn error_message_names_the_condition() {
    assert_eq!(
        StorageError::InvalidPath.message(),
        "path given to the store must be absolute".to_string()
    );
}
