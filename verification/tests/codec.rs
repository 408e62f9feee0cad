use duckmail::Database;

#[test]
fn empty_store_canonical_text() {
    let db = Database::new();
    assert_eq!(db.write_config(), "{\"access_token\":\"\",\"emails\":{}}");
}

#[test]
fn one_entry_canonical_text() {
    let mut db = Database::new();
    db.set_token("tok".to_string());
    db.add_email("a", "n");
    assert_eq!(
        db.write_config(),
        "{\"access_token\":\"tok\",\"emails\":{\"a@duck.com\":\"n\"}}"
    );
}

#[test]
fn replace_after_load_is_a_no_op() {
    let mut db = Database::new();
    db.set_token("secret".to_string());
    db.add_email("first", "one");
    db.add_email("second", "");
    db.add_email("third", "three");
    let text = db.write_config();
    let reloaded = match Database::load_config(&text) {
        Ok(d) => d,
        Err(_) => panic!("canonical text must load"),
    };
    assert_eq!(reloaded.write_config(), text);
    assert_eq!(reloaded.return_emails(), db.return_emails());
}

#[test]
fn escapes_round_trip() {
    let mut db = Database::new();
    db.set_token("quote \" backslash \\ newline \n tab \t".to_string());
    db.add_email("odd \"alias\"", "note with \u{1} control and \r\n line break");
    let text = db.write_config();
    let reloaded = match Database::load_config(&text) {
        Ok(d) => d,
        Err(_) => panic!("canonical text must load"),
    };
    assert_eq!(reloaded.write_config(), text);
    assert_eq!(
        reloaded.return_emails(),
        vec![(
            "odd \"alias\"@duck.com".to_string(),
            "note with \u{1} control and \r\n line break".to_string()
        )]
    );
}

#[test]
fn control_characters_are_unicode_escaped() {
    let mut db = Database::new();
    db.set_token("a\nb".to_string());
    assert_eq!(db.write_config(), "{\"access_token\":\"a\\u000ab\",\"emails\":{}}");
}

#[test]
fn non_ascii_text_round_trips() {
    let mut db = Database::new();
    db.add_email("caf\u{e9}", "m\u{e9}mo \u{1f600}");
    let text = db.write_config();
    let reloaded = match Database::load_config(&text) {
        Ok(d) => d,
        Err(_) => panic!("canonical text must load"),
    };
    assert_eq!(reloaded.write_config(), text);
    assert_eq!(
        reloaded.return_emails(),
        vec![("caf\u{e9}@duck.com".to_string(), "m\u{e9}mo \u{1f600}".to_string())]
    );
}

#[test]
fn handwritten_canonical_text_loads() {
    let text = "{\"access_token\":\"t\",\"emails\":{\"a@duck.com\":\"n\",\"b@duck.com\":\"\"}}";
    let db = match Database::load_config(text) {
        Ok(d) => d,
        Err(_) => panic!("canonical text must load"),
    };
    assert_eq!(
        db.return_emails(),
        vec![
            ("a@duck.com".to_string(), "n".to_string()),
            ("b@duck.com".to_string(), "".to_string())
        ]
    );
    assert_eq!(db.write_config(), text);
}

#[test]
fn malformed_documents_are_rejected() {
    let bad = [
        "",
        "{}",
        "{\"access_token\":\"\"}",
        "{\"emails\":{},\"access_token\":\"\"}",
        "{ \"access_token\":\"\",\"emails\":{}}",
        "{\"access_token\":\"\",\"emails\":{},\"extra\":1}",
        "{\"access_token\":\"\",\"emails\":{}} ",
        "{\"access_token\":\"\",\"emails\":{\"a\":\"n\"}}",
        "{\"access_token\":\"\",\"emails\":{\"a@duck.com\":\"1\",\"a@duck.com\":\"2\"}}",
        "{\"access_token\":\"unterminated",
        "{\"access_token\":\"\",\"emails\":{\"a@duck.com\":\"n\",}}",
        "{\"access_token\":\"bad escape \\x\",\"emails\":{}}",
        "{\"access_token\":\"\\u0041\",\"emails\":{}}",
        "{\"access_token\":\"\\u00A1\",\"emails\":{}}",
        "{\"access_token\":\"raw \n control\",\"emails\":{}}",
        "{\"access_token\":\"\",\"emails\":{\"a@duck.com\":\"n\"}",
    ];
    for text in bad {
        assert!(Database::load_config(text).is_err(), "accepted: {}", text);
    }
}
