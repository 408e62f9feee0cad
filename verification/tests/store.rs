use duckmail::Database;
use duckmail::StoreError;
use duckmail::format_email;

#[test]
fn format_email_appends_suffix() {
    assert_eq!(format_email("a"), "a@duck.com");
}

#[test]
fn format_email_keeps_suffix() {
    assert_eq!(format_email("a@duck.com"), "a@duck.com");
}

#[test]
fn format_email_idempotent() {
    let once = format_email("xyz987");
    let twice = format_email(&once);
    assert_eq!(once, twice);
    let empty_once = format_email("");
    assert_eq!(empty_once, "@duck.com");
    assert_eq!(format_email(&empty_once), empty_once);
}

#[test]
fn add_then_list() {
    let mut db = Database::new();
    assert!(db.add_email("a", "n1"));
    let listed = db.return_emails();
    assert_eq!(listed, vec![("a@duck.com".to_string(), "n1".to_string())]);
}

#[test]
fn duplicate_add_with_empty_note_is_noop() {
    let mut db = Database::new();
    assert!(db.add_email("a", "n1"));
    assert!(!db.add_email("a", ""));
    let listed = db.return_emails();
    assert_eq!(listed, vec![("a@duck.com".to_string(), "n1".to_string())]);
}

#[test]
fn duplicate_add_with_nonempty_note_overwrites() {
    let mut db = Database::new();
    assert!(db.add_email("a", "n1"));
    assert!(db.add_email("a", "n2"));
    let listed = db.return_emails();
    assert_eq!(listed, vec![("a@duck.com".to_string(), "n2".to_string())]);
}

#[test]
fn remove_then_list() {
    let mut db = Database::new();
    assert!(db.add_email("a", ""));
    assert!(db.remove_email("a"));
    assert!(db.return_emails().is_empty());
    assert!(!db.remove_email("a"));
}

#[test]
fn remove_accepts_suffixed_form() {
    let mut db = Database::new();
    assert!(db.add_email("a", "note"));
    assert!(db.remove_email("a@duck.com"));
    assert!(db.return_emails().is_empty());
}

#[test]
fn purge_empties_the_mapping() {
    let mut db = Database::new();
    db.set_token("keepme".to_string());
    for name in ["a", "b", "c", "d", "e"] {
        assert!(db.add_email(name, "note"));
    }
    assert_eq!(db.return_emails().len(), 5);
    db.purge();
    assert!(db.return_emails().is_empty());
    // the credential survives a purge
    assert_eq!(db.issue_credential(), Ok("keepme".to_string()));
}

#[test]
fn missing_token_blocks_creation() {
    let db = Database::new();
    assert_eq!(db.issue_credential(), Err(StoreError::MissingToken));
    assert!(db.return_emails().is_empty());
}

#[test]
fn end_to_end_create_with_stub_issuance() {
    let mut db = Database::new();
    db.set_token("tok123".to_string());
    let token = db.issue_credential();
    assert_eq!(token, Ok("tok123".to_string()));
    // the issuance service is stubbed: it would return the local part below
    let created = db.create_new_email("xyz987", "test note");
    assert_eq!(created, "xyz987@duck.com");
    let listed = db.return_emails();
    assert_eq!(listed, vec![("xyz987@duck.com".to_string(), "test note".to_string())]);
    // persisting and loading again preserves the result
    let text = db.write_config();
    let reloaded = match Database::load_config(&text) {
        Ok(d) => d,
        Err(_) => panic!("reload failed"),
    };
    assert_eq!(reloaded.return_emails(), listed);
    assert_eq!(reloaded.issue_credential(), Ok("tok123".to_string()));
}

#[test]
fn insertion_order_is_preserved() {
    let mut db = Database::new();
    assert!(db.add_email("b", "2"));
    assert!(db.add_email("a", "1"));
    assert!(db.add_email("c", "3"));
    let listed = db.return_emails();
    let keys: Vec<String> = listed.iter().map(|p| p.0.clone()).collect();
    assert_eq!(
        keys,
        vec![
            "b@duck.com".to_string(),
            "a@duck.com".to_string(),
            "c@duck.com".to_string()
        ]
    );
    // overwriting the middle key keeps its position
    assert!(db.add_email("a", "new"));
    let listed = db.return_emails();
    assert_eq!(listed[1], ("a@duck.com".to_string(), "new".to_string()));
}
