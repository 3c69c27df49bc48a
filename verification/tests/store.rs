use jou::app::file::Directory;

fn empty_store() -> Directory {
    Directory::new(String::from("journal-dir"))
}

#[test]
fn fresh_store_is_empty() {
    let mut dir = empty_store();
    assert_eq!(dir.len(), 0);
    assert_eq!(dir.entries(), Vec::<String>::new());
    assert_eq!(dir.nth_path(0), None);
}

#[test]
fn listing_is_newest_first() {
    let mut dir = empty_store();
    dir.insert(String::from("2024-01-01-10-00-01"), vec![1]);
    dir.insert(String::from("2024-01-01-10-00-03"), vec![3]);
    dir.insert(String::from("2024-01-01-10-00-02"), vec![2]);
    let listing = dir.entries();
    assert_eq!(
        listing,
        vec![
            String::from("2024-01-01-10-00-03"),
            String::from("2024-01-01-10-00-02"),
            String::from("2024-01-01-10-00-01"),
        ]
    );
    assert_eq!(dir.nth_path(0), Some(String::from("2024-01-01-10-00-03")));
    assert_eq!(dir.nth_path(2), Some(String::from("2024-01-01-10-00-01")));
    assert_eq!(dir.nth_path(3), None);
}

#[test]
fn insert_under_same_identifier_overwrites() {
    let mut dir = empty_store();
    dir.insert(String::from("2024-01-01-10-00-01"), vec![1]);
    dir.insert(String::from("2024-01-01-10-00-01"), vec![9, 9]);
    assert_eq!(dir.len(), 1);
    assert_eq!(dir.get(&String::from("2024-01-01-10-00-01")), Some(vec![9, 9]));
}

#[test]
fn remove_deletes_exactly_the_named_entry() {
    let mut dir = empty_store();
    dir.insert(String::from("2024-01-01-10-00-01"), vec![1]);
    dir.insert(String::from("2024-01-01-10-00-02"), vec![2]);
    assert!(dir.remove(&String::from("2024-01-01-10-00-01")));
    assert!(!dir.remove(&String::from("2024-01-01-10-00-01")));
    assert_eq!(dir.len(), 1);
    assert_eq!(dir.get(&String::from("2024-01-01-10-00-01")), None);
    assert_eq!(dir.get(&String::from("2024-01-01-10-00-02")), Some(vec![2]));
}

#[test]
fn stale_listing_survives_a_masked_swap() {
    // A remove followed by an insert leaves the count unchanged, so the
    // cached listing goes stale without being noticed: the documented
    // limitation of the count-based staleness check.
    let mut dir = empty_store();
    dir.insert(String::from("2024-01-01-10-00-01"), vec![1]);
    assert_eq!(dir.entries().len(), 1);
    dir.remove(&String::from("2024-01-01-10-00-01"));
    dir.insert(String::from("2024-01-01-10-00-02"), vec![2]);
    assert_eq!(dir.entries(), vec![String::from("2024-01-01-10-00-01")]);
}

#[test]
fn current_string_looks_like_a_timestamp() {
    let id = jou::app::file::date::current_string();
    assert_eq!(id.len(), 19);
    let bytes = id.as_bytes();
    for (i, b) in bytes.iter().enumerate() {
        if i == 4 || i == 7 || i == 10 || i == 13 || i == 16 {
            assert_eq!(*b, b'-');
        } else {
            assert!(b.is_ascii_digit());
        }
    }
}

#[test]
fn default_directory_sits_under_home() {
    match jou::default_directory() {
        None => {}
        Some(path) => assert!(path.ends_with("/.local/share/jou")),
    }
}

#[test]
fn args_request_cli_mode_for_list_or_add() {
    let args = jou::Args {
        path: String::from("journal-dir"),
        passphrase: None,
        add: Vec::new(),
        list: false,
    };
    assert!(!args.is_cli());
    let args = jou::Args {
        path: String::from("journal-dir"),
        passphrase: None,
        add: vec![String::from("entry")],
        list: false,
    };
    assert!(args.is_cli());
    let args = jou::Args {
        path: String::from("journal-dir"),
        passphrase: None,
        add: Vec::new(),
        list: true,
    };
    assert!(args.is_cli());
}

#[test]
fn append_home_dir_joins_the_components() {
    match jou::append_home_dir(["a", "b", "c"]) {
        None => {}
        Some(path) => assert!(path.ends_with("/a/b/c")),
    }
}
