use jou::app::file::Directory;
use jou::app::App;
use jou::app::AppError;

fn app_with(passphrase: &str, dir: Directory) -> App {
    let args = jou::Args {
        path: String::from("journal-dir"),
        passphrase: Some(String::from(passphrase)),
        add: Vec::new(),
        list: false,
    };
    App::new(args, dir).unwrap()
}

#[test]
fn change_passphrase_switches_which_passphrase_verifies() {
    let mut app = app_with("old passphrase", Directory::new(String::from("journal-dir")));
    app.add_journal_as(String::from("2024-01-01-10-00-01"), "hello").unwrap();

    let failures = app.change_password(String::from("new passphrase"));
    assert!(failures.is_empty());

    // lock by rebinding, then unlock with the new passphrase
    app.set_passphrase(String::from("new passphrase"));
    assert_eq!(app.test_passphrase(), Ok(()));
    assert_eq!(app.nth_content(0).unwrap(), "hello");

    // the old passphrase no longer verifies
    app.set_passphrase(String::from("old passphrase"));
    assert_eq!(app.test_passphrase(), Err(AppError::IncorrectPassword));
}

#[test]
fn rotation_reports_entries_it_could_not_rotate() {
    let mut dir = Directory::new(String::from("journal-dir"));
    dir.insert(String::from("2024-01-01-10-00-01"), vec![1, 2, 3]);
    let mut app = app_with("pw", dir);
    let failures = app.change_password(String::from("other"));
    assert_eq!(failures, vec![String::from("2024-01-01-10-00-01")]);
    // the unrotatable entry was left untouched
    let (texts, unreadable) = app.read();
    assert!(texts.is_empty());
    assert_eq!(unreadable, vec![String::from("2024-01-01-10-00-01")]);
}

#[test]
fn locked_journal_rotates_nothing() {
    let args = jou::Args {
        path: String::from("journal-dir"),
        passphrase: None,
        add: Vec::new(),
        list: false,
    };
    let mut app = App::new(args, Directory::new(String::from("journal-dir"))).unwrap();
    assert!(app.change_password(String::from("new")).is_empty());
}
