use passman::database::backup::{read_backup_line, read_backup_text, write_backup_text};
use passman::database::crypt::{decrypt, encrypt_with_nonce, CryptError};
use passman::database::queries::{
    get_all_passwords, insert_password, load_backup, save_backup, Password, RecordStore,
};
use passman::database::text::{chars_of, find_char, string_of};

fn entry(id: &str, service: &str, secret: &str, description: Option<&str>) -> Password {
    Password {
        id: id.to_string(),
        service: service.to_string(),
        encrypted_secret: secret.to_string(),
        description: description.map(|d| d.to_string()),
    }
}

fn line(text: &str) -> Option<Password> {
    let chars: Vec<char> = text.chars().collect();
    read_backup_line(&chars)
}

#[test]
fn find_char_gives_the_first_position_or_the_length() {
    let chars: Vec<char> = "a|b|c".chars().collect();
    assert_eq!(find_char(&chars, '|'), 1);
    assert_eq!(find_char(&chars, 'a'), 0);
    assert_eq!(find_char(&chars, 'c'), 4);
    assert_eq!(find_char(&chars, 'x'), 5);
    assert_eq!(find_char(&[], 'x'), 0);
}

#[test]
fn chars_and_strings_convert_both_ways() {
    assert_eq!(chars_of("aé🌍"), vec!['a', 'é', '🌍']);
    assert_eq!(chars_of(""), Vec::<char>::new());
    assert_eq!(string_of(&['a', 'é', '🌍']), "aé🌍");
    assert_eq!(string_of(&[]), "");
}

#[test]
fn write_backup_text_joins_lines_without_a_trailing_line_feed() {
    let rows = vec![
        entry("id1", "email", "blob1", Some("work")),
        entry("id2", "bank", "blob2", None),
        entry("id3", "shop", "blob3", Some("a|b")),
    ];
    assert_eq!(write_backup_text(&rows), "id1|email|blob1|work\nid2|bank|blob2|\nid3|shop|blob3|a|b");
    assert_eq!(write_backup_text(&rows[..1].to_vec()), "id1|email|blob1|work");
    assert_eq!(write_backup_text(&Vec::new()), "");
}

#[test]
fn read_backup_line_needs_three_fields() {
    assert_eq!(line(""), None);
    assert_eq!(line("only"), None);
    assert_eq!(line("id|service"), None);
    assert_eq!(line("id|service|secret"), Some(entry("id", "service", "secret", None)));
    assert_eq!(line("||"), Some(entry("", "", "", None)));
}

#[test]
fn read_backup_line_reads_the_description() {
    assert_eq!(line("id|service|secret|"), Some(entry("id", "service", "secret", None)));
    assert_eq!(line("id|service|secret|note"), Some(entry("id", "service", "secret", Some("note"))));
    assert_eq!(line("id|service|secret|a|b|"), Some(entry("id", "service", "secret", Some("a|b|"))));
    assert_eq!(line("id|service|secret||"), Some(entry("id", "service", "secret", Some("|"))));
}

#[test]
fn read_backup_text_skips_malformed_lines() {
    let text = "id1|email|blob1|work\n\nbroken line\nid2|bank|blob2|\nx|y\n";
    assert_eq!(
        read_backup_text(text),
        vec![entry("id1", "email", "blob1", Some("work")), entry("id2", "bank", "blob2", None)]
    );
    assert_eq!(read_backup_text(""), Vec::<Password>::new());
    assert_eq!(read_backup_text("\n\n"), Vec::<Password>::new());
}

#[test]
fn read_backup_text_keeps_a_carriage_return() {
    assert_eq!(
        read_backup_text("id1|email|blob1|note\r\nid2|bank|blob2|"),
        vec![entry("id1", "email", "blob1", Some("note\r")), entry("id2", "bank", "blob2", None)]
    );
}

#[test]
fn text_round_trip_of_portable_rows() {
    let rows = vec![
        entry("id1", "email", "blob1", Some("work")),
        entry("id2", "bank", "blob2", None),
        entry("id3", "shop", "blob3", Some("with | bar")),
        entry("", "", "", None),
    ];
    assert_eq!(read_backup_text(&write_backup_text(&rows)), rows);
}

#[test]
fn empty_description_comes_back_as_none() {
    let rows = vec![entry("id1", "email", "blob1", Some(""))];
    assert_eq!(read_backup_text(&write_backup_text(&rows)), vec![entry("id1", "email", "blob1", None)]);
}

#[test]
fn divider_in_a_service_shifts_the_fields() {
    let rows = vec![entry("id1", "e|mail", "blob1", Some("note"))];
    assert_eq!(
        read_backup_text(&write_backup_text(&rows)),
        vec![entry("id1", "e", "mail", Some("blob1|note"))]
    );
}

#[test]
fn backup_round_trip_into_an_empty_store() {
    let mut store = RecordStore::new();
    insert_password(&mut store, "first", "email", "p@ss!", Some("work account")).unwrap();
    insert_password(&mut store, "second", "bank", "1234", None).unwrap();
    let blob = save_backup(&store, "backup password").unwrap();
    assert!(blob
        .chars()
        .all(|c| c.is_ascii_alphanumeric() || c == '+' || c == '/' || c == '='));

    let mut restored = RecordStore::new();
    assert_eq!(load_backup(&mut restored, &blob, "backup password"), Ok(2));
    let before = get_all_passwords(&store);
    let after = get_all_passwords(&restored);
    assert_eq!(after, before);
    assert_eq!(after[0].decrypted_secret("first"), Ok("p@ss!".to_string()));
    assert_eq!(after[1].decrypted_secret("second"), Ok("1234".to_string()));
}

#[test]
fn backup_is_the_encrypted_text_of_the_rows() {
    let store = RecordStore::from_rows(&vec![
        entry("id1", "email", "blob1", Some("work")),
        entry("id2", "bank", "blob2", None),
    ]);
    let blob = save_backup(&store, "pw").unwrap();
    assert_eq!(decrypt("pw", &blob), Ok("id1|email|blob1|work\nid2|bank|blob2|".to_string()));
}

#[test]
fn backup_of_an_empty_store_restores_nothing() {
    let blob = save_backup(&RecordStore::new(), "pw").unwrap();
    assert_eq!(decrypt("pw", &blob), Ok(String::new()));
    let mut restored = RecordStore::new();
    assert_eq!(load_backup(&mut restored, &blob, "pw"), Ok(0));
    assert_eq!(restored.len(), 0);
}

#[test]
fn loading_leaves_existing_rows_untouched() {
    let source = RecordStore::from_rows(&vec![
        entry("id1", "email", "from backup", Some("from backup")),
        entry("id2", "bank", "blob2", None),
    ]);
    let blob = save_backup(&source, "pw").unwrap();

    let mut target = RecordStore::from_rows(&vec![
        entry("id0", "shop", "blob0", None),
        entry("id1", "email", "already here", Some("mine")),
    ]);
    assert_eq!(load_backup(&mut target, &blob, "pw"), Ok(1));
    assert_eq!(
        get_all_passwords(&target),
        vec![
            entry("id0", "shop", "blob0", None),
            entry("id1", "email", "already here", Some("mine")),
            entry("id2", "bank", "blob2", None),
        ]
    );
    // loading the same backup again adds nothing
    assert_eq!(load_backup(&mut target, &blob, "pw"), Ok(0));
    assert_eq!(target.len(), 3);
}

#[test]
fn loading_with_the_wrong_password_changes_nothing() {
    let source = RecordStore::from_rows(&vec![entry("id1", "email", "blob1", None)]);
    let blob = save_backup(&source, "right").unwrap();
    let mut target = RecordStore::from_rows(&vec![entry("id0", "shop", "blob0", None)]);
    assert_eq!(load_backup(&mut target, &blob, "wrong"), Err(CryptError::AuthenticationError));
    assert_eq!(get_all_passwords(&target), vec![entry("id0", "shop", "blob0", None)]);
}

#[test]
fn loading_what_is_not_a_backup_fails_with_the_reason() {
    let mut target = RecordStore::new();
    assert_eq!(load_backup(&mut target, "", "pw"), Err(CryptError::InvalidFormatError));
    assert_eq!(load_backup(&mut target, "short", "pw"), Err(CryptError::DecodeError));
    assert_eq!(target.len(), 0);
}

#[test]
fn loading_a_backup_with_malformed_lines_skips_them() {
    let text = "id1|email|blob1|work\nnot a record\nid1|twice|blob|\nid2|bank|blob2|";
    let blob = encrypt_with_nonce("pw", text, &[9u8; 12]).unwrap();
    let mut target = RecordStore::new();
    assert_eq!(load_backup(&mut target, &blob, "pw"), Ok(2));
    assert_eq!(
        get_all_passwords(&target),
        vec![entry("id1", "email", "blob1", Some("work")), entry("id2", "bank", "blob2", None)]
    );
}
