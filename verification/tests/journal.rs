use jou::app::encryption::Encryption;
use jou::app::file::Directory;
use jou::app::App;
use jou::app::AppError;

fn unlocked_app(passphrase: &str) -> App {
    let args = jou::Args {
        path: String::from("journal-dir"),
        passphrase: Some(String::from(passphrase)),
        add: Vec::new(),
        list: false,
    };
    App::new(args, Directory::new(String::from("journal-dir"))).unwrap()
}

#[test]
fn verify_on_empty_store_accepts_any_passphrase() {
    let mut app = unlocked_app("whatever the user typed");
    assert_eq!(app.test_passphrase(), Ok(()));
    let mut other = unlocked_app("an entirely different one");
    assert_eq!(other.test_passphrase(), Ok(()));
}

#[test]
fn verify_on_empty_locked_journal_succeeds() {
    let args = jou::Args {
        path: String::from("journal-dir"),
        passphrase: None,
        add: Vec::new(),
        list: false,
    };
    let mut app = App::new(args, Directory::new(String::from("journal-dir"))).unwrap();
    assert!(app.no_passphrase());
    assert_eq!(app.test_passphrase(), Ok(()));
}

#[test]
fn create_then_read_back_single_entry() {
    let mut app = unlocked_app("pw");
    assert!(app.empty());
    app.add_journal("hello").unwrap();
    assert_eq!(app.entries().len(), 1);
    assert_eq!(app.len(), 1);
    assert_eq!(app.nth_content(0).unwrap(), "hello");
}

#[test]
fn entries_come_back_newest_first() {
    let mut app = unlocked_app("pw");
    app.add_journal_as(String::from("2024-01-01-10-00-01"), "a").unwrap();
    app.add_journal_as(String::from("2024-01-01-10-00-02"), "b").unwrap();
    app.add_journal_as(String::from("2024-01-01-10-00-03"), "c").unwrap();
    assert_eq!(
        app.entries(),
        vec![
            String::from("2024-01-01-10-00-03"),
            String::from("2024-01-01-10-00-02"),
            String::from("2024-01-01-10-00-01"),
        ]
    );
    assert_eq!(app.nth_content(0).unwrap(), "c");
    assert_eq!(app.nth_content(1).unwrap(), "b");
    assert_eq!(app.nth_content(2).unwrap(), "a");
}

#[test]
fn deleting_the_newest_entry_shortens_the_listing() {
    let mut app = unlocked_app("pw");
    app.add_journal_as(String::from("2024-01-01-10-00-01"), "a").unwrap();
    app.add_journal_as(String::from("2024-01-01-10-00-02"), "b").unwrap();
    let before = app.entries();
    assert_eq!(before.len(), 2);
    let newest = before[0].clone();
    assert!(app.delete_nth(0));
    let after = app.entries();
    assert_eq!(after.len(), 1);
    assert!(!after.contains(&newest));
    assert_eq!(app.nth_content(0).unwrap(), "a");
}

#[test]
fn locked_journal_takes_no_entry_and_reads_empty() {
    let args = jou::Args {
        path: String::from("journal-dir"),
        passphrase: None,
        add: Vec::new(),
        list: false,
    };
    let mut app = App::new(args, Directory::new(String::from("journal-dir"))).unwrap();
    app.add_journal("never stored").unwrap();
    assert_eq!(app.len(), 0);
    assert_eq!(app.nth_content(0).unwrap(), "");
    let (texts, failures) = app.read();
    assert!(texts.is_empty());
    assert!(failures.is_empty());
}

#[test]
fn out_of_range_reads_come_back_empty() {
    let mut app = unlocked_app("pw");
    assert_eq!(app.nth_content(3).unwrap(), "");
    assert!(!app.delete_nth(5));
}

#[test]
fn garbage_file_makes_verification_fail() {
    let mut dir = Directory::new(String::from("journal-dir"));
    dir.insert(
        String::from("2024-01-01-10-00-01"),
        vec![0, 1, 2, 3, 4, 5, 6, 7, 8, 9],
    );
    let args = jou::Args {
        path: String::from("journal-dir"),
        passphrase: Some(String::from("x")),
        add: Vec::new(),
        list: false,
    };
    let mut app = App::new(args, dir).unwrap();
    assert_eq!(app.test_passphrase(), Err(AppError::IncorrectPassword));
}

#[test]
fn pending_entries_are_dropped_under_a_wrong_passphrase() {
    let good = Encryption::new(String::from("right"));
    let mut dir = Directory::new(String::from("journal-dir"));
    dir.insert(
        String::from("2024-01-01-10-00-01"),
        good.encrypt("existing").unwrap(),
    );
    let args = jou::Args {
        path: String::from("journal-dir"),
        passphrase: Some(String::from("wrong")),
        add: vec![String::from("should be dropped")],
        list: false,
    };
    let mut app = App::new(args, dir).unwrap();
    assert_eq!(app.len(), 1);
    assert_eq!(app.test_passphrase(), Err(AppError::IncorrectPassword));
}

#[test]
fn read_surfaces_entries_that_do_not_decrypt() {
    let codec = Encryption::new(String::from("pw"));
    let mut dir = Directory::new(String::from("journal-dir"));
    dir.insert(String::from("2024-01-01-10-00-01"), codec.encrypt("good").unwrap());
    dir.insert(String::from("2024-01-01-10-00-02"), vec![13, 37]);
    let args = jou::Args {
        path: String::from("journal-dir"),
        passphrase: Some(String::from("pw")),
        add: Vec::new(),
        list: false,
    };
    let app = App::new(args, dir).unwrap();
    let (texts, failures) = app.read();
    assert_eq!(texts, vec![String::from("good")]);
    assert_eq!(failures, vec![String::from("2024-01-01-10-00-02")]);
}

#[test]
fn edit_replaces_the_listed_entry() {
    let mut app = unlocked_app("pw");
    app.add_journal_as(String::from("2024-01-01-10-00-01"), "first wording").unwrap();
    app.edit_nth(0, String::from("second wording")).unwrap();
    assert_eq!(app.len(), 1);
    assert_eq!(app.nth_content(0).unwrap(), "second wording");
}

#[test]
fn passphrase_state_queries_follow_binding() {
    let args = jou::Args {
        path: String::from("journal-dir"),
        passphrase: None,
        add: Vec::new(),
        list: false,
    };
    let mut app = App::new(args, Directory::new(String::from("journal-dir"))).unwrap();
    assert!(app.no_passphrase());
    assert!(!app.has_passphrase());
    app.set_passphrase(String::from("pw"));
    assert!(app.has_passphrase());
    assert!(!app.no_passphrase());
    assert!(jou::app::encryption_from_option_passphrase(None).is_none());
    assert!(jou::app::encryption_from_option_passphrase(Some(String::from("pw"))).is_some());
}

#[test]
fn vanished_listed_entry_cannot_disprove_a_passphrase() {
    // A remove and an insert between listings leave the count unchanged, so
    // the stale listing still names the removed entry; trial-decrypting it
    // finds nothing to read, which deliberately counts as success.
    let mut dir = Directory::new(String::from("journal-dir"));
    dir.insert(String::from("2024-01-01-10-00-01"), vec![1, 2, 3]);
    dir.entries();
    dir.remove(&String::from("2024-01-01-10-00-01"));
    dir.insert(String::from("2024-01-01-10-00-02"), vec![4, 5, 6]);
    let args = jou::Args {
        path: String::from("journal-dir"),
        passphrase: Some(String::from("any")),
        add: Vec::new(),
        list: false,
    };
    let mut app = App::new(args, dir).unwrap();
    assert_eq!(app.test_passphrase(), Ok(()));
}

#[test]
fn locked_journal_deletes_nothing() {
    let codec = Encryption::new(String::from("pw"));
    let mut dir = Directory::new(String::from("journal-dir"));
    dir.insert(String::from("2024-01-01-10-00-01"), codec.encrypt("kept").unwrap());
    let args = jou::Args {
        path: String::from("journal-dir"),
        passphrase: None,
        add: Vec::new(),
        list: false,
    };
    let mut app = App::new(args, dir).unwrap();
    assert!(!app.delete_nth(0));
    assert_eq!(app.len(), 1);
}
