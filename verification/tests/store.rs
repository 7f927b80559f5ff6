use passman::database::crypt::{decrypt, encrypt_with_nonce, CryptError};
use passman::database::queries::{
    delete_password_by_id, get_all_passwords, get_password_by_id, get_password_by_service,
    insert_password, insert_with_id, is_storable_text, merge_rows, update_password_by_id,
    Password, RecordStore, StoreError,
};

fn row(id: &str, service: &str, secret: &str, description: Option<&str>) -> Password {
    Password {
        id: id.to_string(),
        service: service.to_string(),
        encrypted_secret: secret.to_string(),
        description: description.map(|d| d.to_string()),
    }
}

fn sample_store() -> RecordStore {
    RecordStore::from_rows(&vec![
        row("a", "email", "blobA", Some("work")),
        row("b", "bank", "blobB", None),
        row("c", "email", "blobC", Some("private")),
    ])
}

fn is_uuid(text: &str) -> bool {
    text.len() == 36
        && text.chars().enumerate().all(|(i, c)| {
            if i == 8 || i == 13 || i == 18 || i == 23 {
                c == '-'
            } else {
                c.is_ascii_digit() || ('a'..='f').contains(&c)
            }
        })
}

#[test]
fn new_store_is_empty() {
    let store = RecordStore::new();
    assert_eq!(store.len(), 0);
    assert!(get_all_passwords(&store).is_empty());
    assert!(get_password_by_id(&store, "a").is_empty());
    assert!(get_password_by_service(&store, "email").is_empty());
}

#[test]
fn from_rows_keeps_the_first_row_of_each_id() {
    let store = RecordStore::from_rows(&vec![
        row("a", "email", "blob1", None),
        row("b", "bank", "blob2", None),
        row("a", "other", "blob3", Some("late")),
    ]);
    assert_eq!(
        get_all_passwords(&store),
        vec![row("a", "email", "blob1", None), row("b", "bank", "blob2", None)]
    );
}

#[test]
fn inserted_row_is_found_by_service_and_opens() {
    let mut store = RecordStore::new();
    let id = insert_password(&mut store, "master", "email", "p@ss!", None).unwrap();
    let found = get_password_by_service(&store, "email");
    assert_eq!(found.len(), 1);
    assert_eq!(found[0].id, id);
    assert_eq!(found[0].service, "email");
    assert_eq!(found[0].description, None);
    assert_ne!(found[0].encrypted_secret, "p@ss!");
    assert_eq!(found[0].decrypted_secret("master"), Ok("p@ss!".to_string()));
    assert_eq!(decrypt("master", &found[0].encrypted_secret), Ok("p@ss!".to_string()));
}

#[test]
fn insert_returns_a_fresh_uuid_each_time() {
    let mut store = RecordStore::new();
    let first = insert_password(&mut store, "m", "one", "s1", Some("note")).unwrap();
    let second = insert_password(&mut store, "m", "two", "s2", None).unwrap();
    assert!(is_uuid(&first));
    assert!(is_uuid(&second));
    assert_ne!(first, second);
    let rows = get_all_passwords(&store);
    assert_eq!(rows.len(), 2);
    assert_eq!(rows[0].id, first);
    assert_eq!(rows[0].service, "one");
    assert_eq!(rows[0].description, Some("note".to_string()));
    assert_eq!(rows[1].id, second);
    assert_eq!(rows[1].description, None);
}

#[test]
fn insert_refuses_a_divider_in_service_or_description() {
    let mut store = RecordStore::new();
    for (service, description) in [
        ("e|mail", None),
        ("e\nmail", None),
        ("email", Some("a|b")),
        ("email", Some("two\nlines")),
    ] {
        assert_eq!(
            insert_password(&mut store, "m", service, "secret", description),
            Err(StoreError::InvalidFieldError)
        );
    }
    assert_eq!(store.len(), 0);
}

#[test]
fn insert_accepts_a_divider_in_the_secret() {
    let mut store = RecordStore::new();
    let id = insert_password(&mut store, "m", "email", "a|b\nc", Some("")).unwrap();
    let rows = get_password_by_id(&store, &id);
    assert_eq!(rows.len(), 1);
    assert_eq!(rows[0].description, Some(String::new()));
    assert_eq!(rows[0].decrypted_secret("m"), Ok("a|b\nc".to_string()));
}

#[test]
fn is_storable_text_knows_the_two_dividers() {
    assert!(is_storable_text(""));
    assert!(is_storable_text("plain text, with\ttab and \r return"));
    assert!(!is_storable_text("|"));
    assert!(!is_storable_text("end|"));
    assert!(!is_storable_text("line\n"));
    assert!(!is_storable_text("ünï|cödé"));
}

#[test]
fn insert_with_id_refuses_an_id_that_is_taken() {
    let mut store = sample_store();
    assert_eq!(
        insert_with_id(&mut store, "b".to_string(), "m", "shop", "s", None),
        Err(StoreError::DuplicateIdError)
    );
    assert_eq!(get_all_passwords(&store), get_all_passwords(&sample_store()));
    assert_eq!(
        insert_with_id(&mut store, "d".to_string(), "m", "shop", "s", None),
        Ok("d".to_string())
    );
    assert_eq!(store.len(), 4);
    assert_eq!(get_all_passwords(&store)[3].id, "d");
}

#[test]
fn insert_with_id_refuses_a_divider_in_the_id() {
    let mut store = RecordStore::new();
    for id in ["a|b", "a\nb", "|"] {
        assert_eq!(
            insert_with_id(&mut store, id.to_string(), "m", "shop", "s", None),
            Err(StoreError::InvalidFieldError)
        );
    }
    assert_eq!(store.len(), 0);
}

#[test]
fn invalid_field_is_reported_before_a_taken_id() {
    let mut store = sample_store();
    assert_eq!(
        insert_with_id(&mut store, "a".to_string(), "m", "sh|op", "s", None),
        Err(StoreError::InvalidFieldError)
    );
}

#[test]
fn get_all_returns_rows_in_table_order() {
    let store = sample_store();
    assert_eq!(
        get_all_passwords(&store),
        vec![
            row("a", "email", "blobA", Some("work")),
            row("b", "bank", "blobB", None),
            row("c", "email", "blobC", Some("private")),
        ]
    );
}

#[test]
fn get_by_id_finds_one_or_none() {
    let store = sample_store();
    assert_eq!(get_password_by_id(&store, "b"), vec![row("b", "bank", "blobB", None)]);
    assert!(get_password_by_id(&store, "B").is_empty());
    assert!(get_password_by_id(&store, "").is_empty());
    assert!(get_password_by_id(&store, "email").is_empty());
}

#[test]
fn get_by_service_finds_every_match_exactly() {
    let store = sample_store();
    assert_eq!(
        get_password_by_service(&store, "email"),
        vec![row("a", "email", "blobA", Some("work")), row("c", "email", "blobC", Some("private"))]
    );
    assert!(get_password_by_service(&store, "emai").is_empty());
    assert!(get_password_by_service(&store, "Email").is_empty());
}

#[test]
fn delete_removes_the_row_and_counts_it() {
    let mut store = sample_store();
    assert_eq!(delete_password_by_id(&mut store, "b"), 1);
    assert_eq!(
        get_all_passwords(&store),
        vec![row("a", "email", "blobA", Some("work")), row("c", "email", "blobC", Some("private"))]
    );
    assert_eq!(delete_password_by_id(&mut store, "b"), 0);
    assert_eq!(delete_password_by_id(&mut store, "zzz"), 0);
    assert_eq!(store.len(), 2);
    assert_eq!(delete_password_by_id(&mut store, "a"), 1);
    assert_eq!(delete_password_by_id(&mut store, "c"), 1);
    assert_eq!(store.len(), 0);
}

#[test]
fn updated_row_opens_under_the_new_password_only() {
    let mut store = RecordStore::new();
    let id = insert_password(&mut store, "oldPassword", "email", "oldSecret", Some("note")).unwrap();
    assert_eq!(update_password_by_id(&mut store, &id, "newSecret", "newPassword"), Ok(1));
    let rows = get_password_by_id(&store, &id);
    assert_eq!(rows.len(), 1);
    assert_eq!(rows[0].service, "email");
    assert_eq!(rows[0].description, Some("note".to_string()));
    assert_eq!(rows[0].decrypted_secret("newPassword"), Ok("newSecret".to_string()));
    assert_eq!(rows[0].decrypted_secret("oldPassword"), Err(CryptError::AuthenticationError));
}

#[test]
fn update_touches_only_the_row_with_the_id() {
    let mut store = sample_store();
    assert_eq!(update_password_by_id(&mut store, "c", "fresh", "pw"), Ok(1));
    let rows = get_all_passwords(&store);
    assert_eq!(rows[0], row("a", "email", "blobA", Some("work")));
    assert_eq!(rows[1], row("b", "bank", "blobB", None));
    assert_eq!(rows[2].id, "c");
    assert_eq!(rows[2].service, "email");
    assert_eq!(rows[2].description, Some("private".to_string()));
    assert_eq!(decrypt("pw", &rows[2].encrypted_secret), Ok("fresh".to_string()));
}

#[test]
fn update_of_a_missing_id_changes_nothing() {
    let mut store = sample_store();
    assert_eq!(update_password_by_id(&mut store, "nope", "fresh", "pw"), Ok(0));
    assert_eq!(get_all_passwords(&store), get_all_passwords(&sample_store()));
}

#[test]
fn rows_may_be_protected_by_different_passwords() {
    let mut store = RecordStore::new();
    let first = insert_password(&mut store, "alpha", "one", "secret one", None).unwrap();
    let second = insert_password(&mut store, "beta", "two", "secret two", None).unwrap();
    let rows = get_all_passwords(&store);
    assert_eq!(rows[0].id, first);
    assert_eq!(rows[1].id, second);
    assert_eq!(rows[0].decrypted_secret("alpha"), Ok("secret one".to_string()));
    assert_eq!(rows[1].decrypted_secret("beta"), Ok("secret two".to_string()));
    assert_eq!(rows[1].decrypted_secret("alpha"), Err(CryptError::AuthenticationError));
}

#[test]
fn merge_rows_ignores_ids_that_are_taken() {
    let mut store = sample_store();
    let added = merge_rows(
        &mut store,
        &vec![
            row("b", "changed", "other", Some("ignored")),
            row("d", "shop", "blobD", None),
            row("d", "again", "blobE", None),
        ],
    );
    assert_eq!(added, 1);
    assert_eq!(
        get_all_passwords(&store),
        vec![
            row("a", "email", "blobA", Some("work")),
            row("b", "bank", "blobB", None),
            row("c", "email", "blobC", Some("private")),
            row("d", "shop", "blobD", None),
        ]
    );
}

#[test]
fn decrypted_secret_opens_the_stored_blob() {
    let blob = encrypt_with_nonce("hunter2", "mySecret", &[0, 1, 2, 3, 4, 5, 6, 7, 8, 9, 10, 11]).unwrap();
    let entry = row("id", "service", &blob, None);
    assert_eq!(entry.decrypted_secret("hunter2"), Ok("mySecret".to_string()));
    assert_eq!(entry.decrypted_secret("hunter3"), Err(CryptError::AuthenticationError));
    assert_eq!(row("id", "service", "", None).decrypted_secret("x"), Err(CryptError::InvalidFormatError));
    assert_eq!(entry.duplicate(), entry);
}

#[test]
fn store_errors_have_messages() {
    assert_eq!(StoreError::InvalidFieldError.message(), "Field contains '|' or a line feed");
    assert_eq!(StoreError::DuplicateIdError.message(), "Id already exists");
    assert_eq!(
        StoreError::CryptError(CryptError::EncryptionError).message(),
        "Encryption error: Error"
    );
}
