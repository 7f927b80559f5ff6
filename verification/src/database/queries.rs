//! Stored credentials and the table that holds them.

use crate::database::backup::{
    all_portable, format_backup, lemma_backup_round_trip, lemma_parsed_backup_portable,
    parse_backup, portable, read_backup_text, write_backup_text, FIELD_SEPARATOR, LINE_SEPARATOR,
};
use crate::database::crypt::{
    decrypt, encrypt, encryptable, is_base64_text, spec_decrypt, spec_encrypt, text_result,
    CryptError, NONCE_SIZE,
};
use crate::database::text::{chars_of, find_char, lacks, lemma_index_of_bounds};
use uuid::Uuid;
use vstd::prelude::*;

verus! {

/// One stored credential. The secret is held only as an encrypted blob.
#[derive(Debug, Clone, PartialEq, Eq)]
pub struct Password {
    pub id: String,
    pub service: String,
    pub encrypted_secret: String,
    pub description: Option<String>,
}

/// A credential as plain text values.
pub struct PasswordView {
    pub id: Seq<char>,
    pub service: Seq<char>,
    pub encrypted_secret: Seq<char>,
    pub description: Option<Seq<char>>,
}

/// The characters of an optional string.
pub open spec fn option_text(text: Option<String>) -> Option<Seq<char>> {
    match text {
        Some(s) => Some(s@),
        None => None,
    }
}

impl View for Password {
    type V = PasswordView;

    open spec fn view(&self) -> PasswordView {
        PasswordView {
            id: self.id@,
            service: self.service@,
            encrypted_secret: self.encrypted_secret@,
            description: option_text(self.description),
        }
    }
}

/// The credentials of a sequence, each as plain text values.
pub open spec fn views(rows: Seq<Password>) -> Seq<PasswordView> {
    Seq::new(rows.len(), |i: int| rows[i]@)
}

impl Password {
    /// Opens the stored blob under `master_pass`.
    ///
    /// Whatever was encrypted into the blob under the same password comes
    /// back unchanged.
    pub fn decrypted_secret(&self, master_pass: &str) -> (secret: Result<String, CryptError>)
        ensures
            text_result(secret) == spec_decrypt(master_pass@, self.encrypted_secret@),
            forall|plaintext: Seq<char>, nonce: Seq<u8>|
                nonce.len() == NONCE_SIZE && #[trigger] spec_encrypt(master_pass@, plaintext, nonce)
                    == Ok::<Seq<char>, CryptError>(self.encrypted_secret@) ==> text_result(secret)
                    == Ok::<Seq<char>, CryptError>(plaintext),
    {
        decrypt(master_pass, self.encrypted_secret.as_str())
    }

    /// An independent copy with the same contents.
    pub fn duplicate(&self) -> (copy: Password)
        ensures
            copy@ == self@,
    {
        let description = match &self.description {
            Some(text) => Some(text.clone()),
            None => None,
        };
        Password {
            id: self.id.clone(),
            service: self.service.clone(),
            encrypted_secret: self.encrypted_secret.clone(),
            description,
        }
    }
}

/// Whether some credential of `rows` has the id `id`.
pub open spec fn has_id(rows: Seq<PasswordView>, id: Seq<char>) -> bool {
    exists|i: int| 0 <= i < rows.len() && (#[trigger] rows[i]).id == id
}

/// Whether no two credentials of `rows` share an id.
pub open spec fn distinct_ids(rows: Seq<PasswordView>) -> bool {
    forall|i: int, j: int|
        0 <= i < rows.len() && 0 <= j < rows.len() && i != j ==> (#[trigger] rows[i]).id != (
        #[trigger] rows[j]).id
}

/// The test "has this id".
pub open spec fn with_id(id: Seq<char>) -> spec_fn(PasswordView) -> bool {
    |row: PasswordView| row.id == id
}

/// The test "has another id than this".
pub open spec fn without_id(id: Seq<char>) -> spec_fn(PasswordView) -> bool {
    |row: PasswordView| row.id != id
}

/// The test "is filed under this service".
pub open spec fn with_service(service: Seq<char>) -> spec_fn(PasswordView) -> bool {
    |row: PasswordView| row.service == service
}

/// The table of credentials, keyed by id: no two rows share one.
pub struct RecordStore {
    rows: Vec<Password>,
}

impl View for RecordStore {
    type V = Seq<PasswordView>;

    closed spec fn view(&self) -> Seq<PasswordView> {
        views(self.rows@)
    }
}

impl RecordStore {
    /// The id is the key of the table.
    #[verifier::type_invariant]
    spec fn keyed(&self) -> bool {
        distinct_ids(views(self.rows@))
    }

    /// An empty table.
    pub fn new() -> (store: RecordStore)
        ensures
            store@ == Seq::<PasswordView>::empty(),
    {
        let store = RecordStore { rows: Vec::new() };
        assert(store@ =~= Seq::<PasswordView>::empty());
        store
    }

    /// Takes the rows out and leaves the table empty.
    fn take_rows(&mut self) -> (rows: Vec<Password>)
        ensures
            views(rows@) == old(self)@,
            distinct_ids(views(rows@)),
            final(self)@ == Seq::<PasswordView>::empty(),
    {
        proof {
            use_type_invariant(&*self);
        }
        let mut taken = RecordStore::new();
        core::mem::swap(self, &mut taken);
        taken.rows
    }

    /// Puts rows into the table, in place of what it held.
    fn put_rows(&mut self, rows: Vec<Password>)
        requires
            distinct_ids(views(rows@)),
        ensures
            final(self)@ == views(rows@),
    {
        *self = RecordStore { rows };
    }

    /// The number of rows.
    pub fn len(&self) -> (n: usize)
        ensures
            n == self@.len(),
            distinct_ids(self@),
    {
        proof {
            use_type_invariant(self);
        }
        self.rows.len()
    }
}

/// The test that a lookup applies: on the id, or on the service.
pub open spec fn with_key(by_id: bool, key: Seq<char>) -> spec_fn(PasswordView) -> bool {
    if by_id {
        with_id(key)
    } else {
        with_service(key)
    }
}

/// Copies of the rows whose id, or service, is `key`, in table order.
fn matching_rows(rows: &Vec<Password>, by_id: bool, key: &String) -> (found: Vec<Password>)
    ensures
        views(found@) == views(rows@).filter(with_key(by_id, key@)),
{
    let ghost all = views(rows@);
    let ghost test = with_key(by_id, key@);
    let mut found: Vec<Password> = Vec::new();
    let mut i: usize = 0;
    proof {
        reveal(Seq::filter);
        assert(all.take(0) =~= Seq::<PasswordView>::empty());
        assert(views(found@) =~= all.take(0).filter(test));
    }
    while i < rows.len()
        invariant
            i <= rows@.len(),
            all == views(rows@),
            test == with_key(by_id, key@),
            views(found@) == all.take(i as int).filter(test),
        decreases rows@.len() - i,
    {
        let row = &rows[i];
        let hit = if by_id {
            row.id == *key
        } else {
            row.service == *key
        };
        proof {
            assert(all.take(i + 1) =~= all.take(i as int).push(all[i as int]));
            all.take(i as int).lemma_filter_push(all[i as int], test);
            assert(hit == test(all[i as int]));
        }
        let ghost before = views(found@);
        if hit {
            found.push(row.duplicate());
            assert(views(found@) =~= before.push(all[i as int]));
        } else {
            assert(views(found@) =~= before);
        }
        i += 1;
    }
    assert(all.take(i as int) =~= all);
    found
}

/// All rows, in table order.
pub fn get_all_passwords(store: &RecordStore) -> (rows: Vec<Password>)
    ensures
        views(rows@) == store@,
        distinct_ids(store@),
{
    proof {
        use_type_invariant(store);
    }
    let mut rows: Vec<Password> = Vec::new();
    let mut i: usize = 0;
    while i < store.rows.len()
        invariant
            i <= store.rows@.len(),
            views(rows@) == views(store.rows@).take(i as int),
        decreases store.rows@.len() - i,
    {
        let ghost before = views(rows@);
        rows.push(store.rows[i].duplicate());
        assert(views(rows@) =~= before.push(views(store.rows@)[i as int]));
        assert(views(rows@) =~= views(store.rows@).take(i + 1));
        i += 1;
    }
    assert(views(store.rows@).take(i as int) =~= views(store.rows@));
    rows
}

/// The rows whose id is `id`: none or one.
pub fn get_password_by_id(store: &RecordStore, id: &str) -> (rows: Vec<Password>)
    ensures
        views(rows@) == store@.filter(with_id(id@)),
        rows@.len() <= 1,
        rows@.len() == 1 <==> has_id(store@, id@),
{
    proof {
        use_type_invariant(store);
        lemma_rows_with_id(store@, id@);
        lemma_one_row_with_id(store@, id@);
    }
    matching_rows(&store.rows, true, &id.to_owned())
}

/// The rows filed under `service`, in table order.
pub fn get_password_by_service(store: &RecordStore, service: &str) -> (rows: Vec<Password>)
    ensures
        views(rows@) == store@.filter(with_service(service@)),
{
    matching_rows(&store.rows, false, &service.to_owned())
}

/// Rows are found under an id exactly where some row has it, and each of
/// them has it.
pub proof fn lemma_rows_with_id(rows: Seq<PasswordView>, id: Seq<char>)
    ensures
        has_id(rows, id) <==> rows.filter(with_id(id)).len() > 0,
        forall|i: int|
            0 <= i < rows.filter(with_id(id)).len() ==> (#[trigger] rows.filter(with_id(id))[i]).id
                == id,
{
    let found = rows.filter(with_id(id));
    assert forall|i: int| 0 <= i < found.len() implies (#[trigger] found[i]).id == id by {
        rows.lemma_filter_pred(with_id(id), i);
    }
    if has_id(rows, id) {
        let i = choose|i: int| 0 <= i < rows.len() && (#[trigger] rows[i]).id == id;
        rows.lemma_filter_contains(with_id(id), i);
        assert(found.contains(rows[i]));
    }
    if found.len() > 0 {
        rows.lemma_filter_pred(with_id(id), 0);
        assert(found.contains(found[0]));
        rows.lemma_filter_contains_rev(with_id(id), found[0]);
        let k = choose|k: int| 0 <= k < rows.len() && rows[k] == found[0];
        assert(rows[k].id == id);
    }
}

/// A keyed table holds at most one row under an id.
pub proof fn lemma_one_row_with_id(rows: Seq<PasswordView>, id: Seq<char>)
    requires
        distinct_ids(rows),
    ensures
        rows.filter(with_id(id)).len() <= 1,
    decreases rows.len(),
{
    reveal(Seq::filter);
    if rows.len() > 0 {
        let front = rows.drop_last();
        assert(distinct_ids(front)) by {
            assert forall|i: int, j: int|
                0 <= i < front.len() && 0 <= j < front.len() && i != j implies (
            #[trigger] front[i]).id != (#[trigger] front[j]).id by {
                assert(front[i] == rows[i] && front[j] == rows[j]);
            }
        }
        lemma_one_row_with_id(front, id);
        if rows.last().id == id {
            lemma_rows_with_id(front, id);
            if has_id(front, id) {
                let i = choose|i: int| 0 <= i < front.len() && (#[trigger] front[i]).id == id;
                assert(rows[i].id == rows[rows.len() - 1].id);
            }
        }
    }
}

/// The position of the row whose id is `id`, if there is one.
fn position_of(rows: &Vec<Password>, id: &String) -> (at: Option<usize>)
    ensures
        match at {
            Some(k) => k < rows@.len() && rows@[k as int].id@ == id@,
            None => !has_id(views(rows@), id@),
        },
{
    let mut i: usize = 0;
    while i < rows.len()
        invariant
            i <= rows@.len(),
            forall|j: int| 0 <= j < i ==> (#[trigger] views(rows@)[j]).id != id@,
        decreases rows@.len() - i,
    {
        if rows[i].id == *id {
            return Some(i);
        }
        i += 1;
    }
    None
}

/// Removing nothing: where no row has the id, every row passes the test
/// "has another id".
pub proof fn lemma_filter_without_absent_id(rows: Seq<PasswordView>, id: Seq<char>)
    requires
        !has_id(rows, id),
    ensures
        rows.filter(without_id(id)) == rows,
    decreases rows.len(),
{
    reveal(Seq::filter);
    if rows.len() > 0 {
        let front = rows.drop_last();
        assert(!has_id(front, id)) by {
            if has_id(front, id) {
                let i = choose|i: int| 0 <= i < front.len() && (#[trigger] front[i]).id == id;
                assert(rows[i].id == id);
            }
        }
        lemma_filter_without_absent_id(front, id);
        assert(rows.last().id != id) by {
            assert(rows[rows.len() - 1] == rows.last());
        }
        assert(front.push(rows.last()) =~= rows);
    }
}

/// Deleting by key: in a keyed table, the rows with another id are the
/// table without the one row that has the id.
pub proof fn lemma_filter_without_id_removes(rows: Seq<PasswordView>, at: int, id: Seq<char>)
    requires
        distinct_ids(rows),
        0 <= at < rows.len(),
        rows[at].id == id,
    ensures
        rows.filter(without_id(id)) == rows.remove(at),
    decreases rows.len(),
{
    reveal(Seq::filter);
    let front = rows.drop_last();
    if at == rows.len() - 1 {
        assert(!has_id(front, id)) by {
            if has_id(front, id) {
                let i = choose|i: int| 0 <= i < front.len() && (#[trigger] front[i]).id == id;
                assert(rows[i].id == rows[at].id);
            }
        }
        lemma_filter_without_absent_id(front, id);
        assert(rows.remove(at) =~= front);
    } else {
        assert(distinct_ids(front)) by {
            assert forall|i: int, j: int|
                0 <= i < front.len() && 0 <= j < front.len() && i != j implies (
            #[trigger] front[i]).id != (#[trigger] front[j]).id by {
                assert(front[i] == rows[i] && front[j] == rows[j]);
            }
        }
        lemma_filter_without_id_removes(front, at, id);
        assert(rows.last().id != id) by {
            assert(rows[rows.len() - 1].id != rows[at].id);
        }
        assert(front.remove(at).push(rows.last()) =~= rows.remove(at));
    }
}

/// Deletes the row whose id is `id` and returns how many rows went: one
/// or none. The other rows stay, in their order, and a table of portable
/// rows stays one.
pub fn delete_password_by_id(store: &mut RecordStore, id: &str) -> (deleted: usize)
    ensures
        final(store)@ == old(store)@.filter(without_id(id@)),
        deleted == old(store)@.len() - final(store)@.len(),
        deleted == 1 <==> has_id(old(store)@, id@),
        deleted <= 1,
        all_portable(old(store)@) ==> all_portable(final(store)@),
{
    proof {
        use_type_invariant(&*store);
        if all_portable(store@) {
            lemma_delete_portable(store@, id@);
        }
    }
    let key = id.to_owned();
    let ghost before = store@;
    match position_of(&store.rows, &key) {
        None => {
            proof {
                lemma_filter_without_absent_id(before, id@);
            }
            0
        },
        Some(at) => {
            proof {
                lemma_filter_without_id_removes(before, at as int, id@);
            }
            let mut rows = store.take_rows();
            rows.remove(at);
            proof {
                assert(views(rows@) =~= before.remove(at as int));
                assert forall|i: int, j: int|
                    0 <= i < rows@.len() && 0 <= j < rows@.len() && i != j implies (
                #[trigger] views(rows@)[i]).id != (#[trigger] views(rows@)[j]).id by {
                    let oi = if i < at { i } else { i + 1 };
                    let oj = if j < at { j } else { j + 1 };
                    assert(views(rows@)[i] == before[oi] && views(rows@)[j] == before[oj]);
                }
            }
            store.put_rows(rows);
            1
        },
    }
}

/// Why a row could not be written.
#[derive(Debug, Clone, Copy, PartialEq, Eq)]
pub enum StoreError {
    /// The id, the service or the description holds a `|` or a line feed,
    /// which the backup format keeps for itself.
    InvalidFieldError,
    /// The table already holds a row with this id.
    DuplicateIdError,
    /// The secret could not be encrypted.
    CryptError(CryptError),
}

impl StoreError {
    /// The text that reports an error of this kind.
    pub open spec fn spec_message(self) -> Seq<char> {
        match self {
            StoreError::InvalidFieldError => "Field contains '|' or a line feed"@,
            StoreError::DuplicateIdError => "Id already exists"@,
            StoreError::CryptError(e) => e.spec_message(),
        }
    }

    /// The text that reports this error.
    pub fn message(&self) -> (text: String)
        ensures
            text@ == self.spec_message(),
    {
        match self {
            StoreError::InvalidFieldError => "Field contains '|' or a line feed".to_owned(),
            StoreError::DuplicateIdError => "Id already exists".to_owned(),
            StoreError::CryptError(e) => e.message(),
        }
    }
}

/// A digit of lower-case hexadecimal.
pub open spec fn is_lower_hex(c: char) -> bool {
    ('0' <= c && c <= '9') || ('a' <= c && c <= 'f')
}

/// The hyphenated lower-case text of a UUID: 36 characters, hyphens at
/// four fixed places and hexadecimal digits elsewhere.
pub open spec fn is_uuid_text(id: Seq<char>) -> bool {
    &&& id.len() == 36
    &&& forall|i: int|
        0 <= i < 36 ==> if i == 8 || i == 13 || i == 18 || i == 23 {
            #[trigger] id[i] == '-'
        } else {
            is_lower_hex(id[i])
        }
}

/// Calls `Uuid::new_v4().to_string()`. Trusted: the text is the
/// hyphenated lower-case form. Nothing is claimed of which UUID it is;
/// the outside function panics if the operating system supplies no
/// random bytes.
#[verifier::external_body]
fn fresh_id() -> (id: String)
    ensures
        is_uuid_text(id@),
{
    Uuid::new_v4().to_string()
}

/// Text that the backup format can carry in a field: no `|`, no line
/// feed.
pub open spec fn storable_text(text: Seq<char>) -> bool {
    lacks(text, FIELD_SEPARATOR) && lacks(text, LINE_SEPARATOR)
}

/// Whether a service and a description may be written to the table.
pub open spec fn storable_fields(service: Seq<char>, description: Option<Seq<char>>) -> bool {
    storable_text(service) && (description matches Some(note) ==> storable_text(note))
}

/// Whether a row with this id, service and description may be written
/// to the table.
pub open spec fn storable(id: Seq<char>, service: Seq<char>, description: Option<Seq<char>>) -> bool {
    storable_text(id) && storable_fields(service, description)
}

/// The text of a UUID holds no divider.
pub proof fn lemma_uuid_text_storable(id: Seq<char>)
    requires
        is_uuid_text(id),
    ensures
        storable_text(id),
{
    assert forall|i: int| 0 <= i < id.len() implies #[trigger] id[i] != FIELD_SEPARATOR && id[i]
        != LINE_SEPARATOR by {
        if i == 8 || i == 13 || i == 18 || i == 23 {
            assert(id[i] == '-');
        } else {
            assert(is_lower_hex(id[i]));
        }
    }
}

/// The characters of an optional string slice.
pub open spec fn option_str(text: Option<&str>) -> Option<Seq<char>> {
    match text {
        Some(s) => Some(s@),
        None => None,
    }
}

/// The view of an outcome whose success is an id.
pub open spec fn id_result(outcome: Result<String, StoreError>) -> Result<Seq<char>, StoreError> {
    match outcome {
        Ok(id) => Ok(id@),
        Err(e) => Err(e),
    }
}

/// Whether `text` holds neither `|` nor a line feed.
pub fn is_storable_text(text: &str) -> (ok: bool)
    ensures
        ok == storable_text(text@),
{
    let chars = chars_of(text);
    proof {
        lemma_index_of_bounds(chars@, FIELD_SEPARATOR);
        lemma_index_of_bounds(chars@, LINE_SEPARATOR);
    }
    find_char(chars.as_slice(), FIELD_SEPARATOR) == chars.len() && find_char(
        chars.as_slice(),
        LINE_SEPARATOR,
    ) == chars.len()
}

/// What inserting under a given id does to the table and returns.
///
/// Success appends one row that carries the id, the service and the
/// description as given and a blob that encrypts the secret under the
/// password. Each failure leaves the table as it was.
pub open spec fn insert_outcome(
    before: Seq<PasswordView>,
    after: Seq<PasswordView>,
    outcome: Result<Seq<char>, StoreError>,
    id: Seq<char>,
    master_pass: Seq<char>,
    service: Seq<char>,
    secret: Seq<char>,
    description: Option<Seq<char>>,
) -> bool {
    match outcome {
        Ok(new_id) => {
            &&& new_id == id
            &&& storable(id, service, description) && encryptable(secret) && !has_id(before, id)
            &&& after.len() == before.len() + 1 && after.drop_last() == before
            &&& after.last().id == id
            &&& after.last().service == service
            &&& after.last().description == description
            &&& is_base64_text(after.last().encrypted_secret)
            &&& exists|nonce: Seq<u8>|
                nonce.len() == NONCE_SIZE && #[trigger] spec_encrypt(master_pass, secret, nonce)
                    == Ok::<Seq<char>, CryptError>(after.last().encrypted_secret)
        },
        Err(StoreError::InvalidFieldError) => !storable(id, service, description) && after
            == before,
        Err(StoreError::CryptError(e)) => {
            &&& storable(id, service, description) && !encryptable(secret)
            &&& e == CryptError::EncryptionError
            &&& after == before
        },
        Err(StoreError::DuplicateIdError) => {
            &&& storable(id, service, description) && encryptable(secret) && has_id(before, id)
            &&& after == before
        },
    }
}

/// Encrypts `secret` under `master_pass` and appends a row with the given
/// id, unless a field is not storable, the secret cannot be encrypted or
/// the id is taken.
pub fn insert_with_id(
    store: &mut RecordStore,
    id: String,
    master_pass: &str,
    service: &str,
    secret: &str,
    description: Option<&str>,
) -> (outcome: Result<String, StoreError>)
    ensures
        insert_outcome(
            old(store)@,
            final(store)@,
            id_result(outcome),
            id@,
            master_pass@,
            service@,
            secret@,
            option_str(description),
        ),
        outcome is Ok && all_portable(old(store)@) && option_str(description) != Some(
            Seq::<char>::empty(),
        ) ==> all_portable(final(store)@),
{
    let note_ok = match description {
        Some(note) => is_storable_text(note),
        None => true,
    };
    if !is_storable_text(id.as_str()) || !is_storable_text(service) || !note_ok {
        return Err(StoreError::InvalidFieldError);
    }
    let encrypted_secret = match encrypt(master_pass, secret) {
        Ok(blob) => blob,
        Err(e) => {
            return Err(StoreError::CryptError(e));
        },
    };
    if position_of(&store.rows, &id).is_some() {
        assert(has_id(store@, id@)) by {
            let k = choose|k: int| 0 <= k < store.rows@.len() && store.rows@[k].id@ == id@;
            assert(store@[k].id == id@);
        }
        return Err(StoreError::DuplicateIdError);
    }
    let description = match description {
        Some(note) => Some(note.to_owned()),
        None => None,
    };
    let new_id = id.clone();
    let row = Password { id, service: service.to_owned(), encrypted_secret, description };
    let ghost before = store@;
    let mut rows = store.take_rows();
    rows.push(row);
    proof {
        assert(views(rows@) =~= before.push(row@));
        assert(views(rows@).drop_last() =~= before);
        if all_portable(before) && row@.description != Some(Seq::<char>::empty()) {
            lemma_inserted_row_portable(row@);
        }
        assert forall|i: int, j: int|
            0 <= i < rows@.len() && 0 <= j < rows@.len() && i != j implies (
        #[trigger] views(rows@)[i]).id != (#[trigger] views(rows@)[j]).id by {
            if i < before.len() {
                assert(views(rows@)[i] == before[i]);
            }
            if j < before.len() {
                assert(views(rows@)[j] == before[j]);
            }
        }
    }
    store.put_rows(rows);
    Ok(new_id)
}

/// Adds a credential under a freshly drawn id and returns the id.
///
/// The secret is stored only as a blob encrypted under `master_pass`. A
/// service or description that holds a `|` or a line feed is refused;
/// the id, being the text of a UUID, never holds one. So a table of
/// portable rows stays one, unless the description is the empty text,
/// which a backup cannot tell from no description.
pub fn insert_password(
    store: &mut RecordStore,
    master_pass: &str,
    service: &str,
    secret: &str,
    description: Option<&str>,
) -> (outcome: Result<String, StoreError>)
    ensures
        exists|id: Seq<char>|
            is_uuid_text(id) && #[trigger] insert_outcome(
                old(store)@,
                final(store)@,
                id_result(outcome),
                id,
                master_pass@,
                service@,
                secret@,
                option_str(description),
            ),
        outcome matches Err(StoreError::InvalidFieldError) <==> !storable_fields(
            service@,
            option_str(description),
        ),
        outcome matches Err(StoreError::CryptError(_)) <==> storable_fields(
            service@,
            option_str(description),
        ) && !encryptable(secret@),
        outcome is Ok && all_portable(old(store)@) && option_str(description) != Some(
            Seq::<char>::empty(),
        ) ==> all_portable(final(store)@),
{
    let id = fresh_id();
    proof {
        lemma_uuid_text_storable(id@);
    }
    insert_with_id(store, id, master_pass, service, secret, description)
}

/// The table in which the row with the given id, if any, carries
/// `blob` as its secret; all else stays.
pub open spec fn resealed(rows: Seq<PasswordView>, id: Seq<char>, blob: Seq<char>) -> Seq<
    PasswordView,
> {
    Seq::new(
        rows.len(),
        |i: int|
            if rows[i].id == id {
                PasswordView { encrypted_secret: blob, ..rows[i] }
            } else {
                rows[i]
            },
    )
}

/// Encrypts `secret` under `new_master_pass`, which need not be the
/// password the row was written with, and stores the blob in the row
/// whose id is `id`. Returns how many rows changed: one or none. A table
/// of portable rows stays one.
pub fn update_password_by_id(
    store: &mut RecordStore,
    id: &str,
    secret: &str,
    new_master_pass: &str,
) -> (outcome: Result<usize, CryptError>)
    ensures
        match outcome {
            Ok(updated) => {
                &&& encryptable(secret@)
                &&& updated == if has_id(old(store)@, id@) { 1usize } else { 0usize }
                &&& exists|nonce: Seq<u8>, blob: Seq<char>|
                    {
                        &&& nonce.len() == NONCE_SIZE
                        &&& #[trigger] spec_encrypt(new_master_pass@, secret@, nonce) == Ok::<
                            Seq<char>,
                            CryptError,
                        >(blob)
                        &&& is_base64_text(blob)
                        &&& final(store)@ == #[trigger] resealed(old(store)@, id@, blob)
                    }
            },
            Err(e) => {
                &&& e == CryptError::EncryptionError
                &&& !encryptable(secret@)
                &&& final(store)@ == old(store)@
            },
        },
        all_portable(old(store)@) ==> all_portable(final(store)@),
{
    let encrypted_secret = match encrypt(new_master_pass, secret) {
        Ok(blob) => blob,
        Err(e) => {
            return Err(e);
        },
    };
    let ghost blob = encrypted_secret@;
    let ghost before = store@;
    proof {
        if all_portable(before) {
            lemma_resealed_portable(before, id@, blob);
        }
    }
    let key = id.to_owned();
    match position_of(&store.rows, &key) {
        None => {
            assert(resealed(before, id@, blob) =~= before);
            Ok(0)
        },
        Some(at) => {
            proof {
                use_type_invariant(&*store);
            }
            let mut rows = store.take_rows();
            let old_row = &rows[at];
            let description = match &old_row.description {
                Some(note) => Some(note.clone()),
                None => None,
            };
            let new_row = Password {
                id: old_row.id.clone(),
                service: old_row.service.clone(),
                encrypted_secret,
                description,
            };
            rows.set(at, new_row);
            proof {
                assert(has_id(before, id@)) by {
                    assert(before[at as int].id == id@);
                }
                assert(views(rows@) =~= resealed(before, id@, blob)) by {
                    assert forall|i: int| 0 <= i < before.len() implies views(rows@)[i]
                        == resealed(before, id@, blob)[i] by {
                        if i != at {
                            assert(before[i].id != before[at as int].id);
                        }
                    }
                }
                assert forall|i: int, j: int|
                    0 <= i < rows@.len() && 0 <= j < rows@.len() && i != j implies (
                #[trigger] views(rows@)[i]).id != (#[trigger] views(rows@)[j]).id by {
                    assert(views(rows@)[i].id == before[i].id);
                    assert(views(rows@)[j].id == before[j].id);
                }
            }
            store.put_rows(rows);
            Ok(1)
        },
    }
}

/// The table after a row was offered to it: added at the end, or
/// ignored where its id is taken.
pub open spec fn insert_or_ignore(rows: Seq<PasswordView>, row: PasswordView) -> Seq<PasswordView> {
    if has_id(rows, row.id) {
        rows
    } else {
        rows.push(row)
    }
}

/// The table after a sequence of rows was offered to it, one by one.
pub open spec fn merge(rows: Seq<PasswordView>, incoming: Seq<PasswordView>) -> Seq<PasswordView>
    decreases incoming.len(),
{
    if incoming.len() == 0 {
        rows
    } else {
        merge(insert_or_ignore(rows, incoming[0]), incoming.drop_first())
    }
}

/// Offering rows never touches a row that is already there: the table
/// before is the front of the table after.
pub proof fn lemma_merge_keeps_existing(rows: Seq<PasswordView>, incoming: Seq<PasswordView>)
    ensures
        merge(rows, incoming).len() >= rows.len(),
        merge(rows, incoming).take(rows.len() as int) == rows,
    decreases incoming.len(),
{
    if incoming.len() == 0 {
        assert(rows.take(rows.len() as int) =~= rows);
    } else {
        let next = insert_or_ignore(rows, incoming[0]);
        lemma_merge_keeps_existing(next, incoming.drop_first());
        let all = merge(rows, incoming);
        assert(all.take(rows.len() as int) =~= all.take(next.len() as int).take(rows.len() as int));
        assert(next.take(rows.len() as int) =~= rows);
    }
}

/// Offering rows keeps the table keyed.
pub proof fn lemma_merge_distinct(rows: Seq<PasswordView>, incoming: Seq<PasswordView>)
    requires
        distinct_ids(rows),
    ensures
        distinct_ids(merge(rows, incoming)),
    decreases incoming.len(),
{
    if incoming.len() > 0 {
        let next = insert_or_ignore(rows, incoming[0]);
        assert(distinct_ids(next)) by {
            if !has_id(rows, incoming[0].id) {
                assert forall|i: int, j: int|
                    0 <= i < next.len() && 0 <= j < next.len() && i != j implies (
                #[trigger] next[i]).id != (#[trigger] next[j]).id by {
                    if i < rows.len() {
                        assert(next[i] == rows[i]);
                    }
                    if j < rows.len() {
                        assert(next[j] == rows[j]);
                    }
                }
            }
        }
        lemma_merge_distinct(next, incoming.drop_first());
    }
}

/// Offering rows whose ids are new and differ from each other appends
/// them all, in order.
pub proof fn lemma_merge_appends(rows: Seq<PasswordView>, incoming: Seq<PasswordView>)
    requires
        distinct_ids(rows + incoming),
    ensures
        merge(rows, incoming) == rows + incoming,
    decreases incoming.len(),
{
    let joined = rows + incoming;
    if incoming.len() == 0 {
        assert(joined =~= rows);
    } else {
        assert(!has_id(rows, incoming[0].id)) by {
            if has_id(rows, incoming[0].id) {
                let i = choose|i: int| 0 <= i < rows.len() && (#[trigger] rows[i]).id == incoming[0].id;
                assert(joined[i] == rows[i]);
                assert(joined[rows.len() as int] == incoming[0]);
            }
        }
        let next = rows.push(incoming[0]);
        assert(next + incoming.drop_first() =~= joined);
        lemma_merge_appends(next, incoming.drop_first());
    }
}

/// Offers every row of `incoming` to the table and returns how many were
/// added. Portable rows leave a table of portable rows as one.
pub fn merge_rows(store: &mut RecordStore, incoming: &Vec<Password>) -> (added: usize)
    ensures
        final(store)@ == merge(old(store)@, views(incoming@)),
        added == final(store)@.len() - old(store)@.len(),
        all_portable(old(store)@) && all_portable(views(incoming@)) ==> all_portable(
            final(store)@,
        ),
{
    let ghost before = store@;
    let ghost offered = views(incoming@);
    proof {
        if all_portable(before) && all_portable(offered) {
            lemma_merge_portable(before, offered);
        }
    }
    let mut rows = store.take_rows();
    let mut added: usize = 0;
    let mut i: usize = 0;
    assert(offered.skip(0) =~= offered);
    while i < incoming.len()
        invariant
            i <= incoming@.len(),
            offered == views(incoming@),
            distinct_ids(views(rows@)),
            merge(before, offered) == merge(views(rows@), offered.skip(i as int)),
            views(rows@).len() == before.len() + added,
            added <= i,
        decreases incoming@.len() - i,
    {
        let ghost current = views(rows@);
        proof {
            assert(offered.skip(i as int)[0] == offered[i as int]);
            assert(offered.skip(i as int).drop_first() =~= offered.skip(i + 1));
            lemma_merge_distinct(current, seq![offered[i as int]]);
            assert(seq![offered[i as int]].drop_first() =~= Seq::<PasswordView>::empty());
            assert(merge(current, seq![offered[i as int]]) == insert_or_ignore(
                current,
                offered[i as int],
            )) by {
                reveal_with_fuel(merge, 2);
            }
        }
        if position_of(&rows, &incoming[i].id).is_none() {
            rows.push(incoming[i].duplicate());
            added += 1;
            assert(views(rows@) =~= current.push(offered[i as int]));
        } else {
            assert(has_id(current, offered[i as int].id)) by {
                let k = choose|k: int|
                    0 <= k < rows@.len() && rows@[k].id@ == incoming@[i as int].id@;
                assert(current[k].id == offered[i as int].id);
            }
        }
        i += 1;
    }
    store.put_rows(rows);
    added
}

impl RecordStore {
    /// The table that holds the given rows; of rows that share an id the
    /// first one stays.
    pub fn from_rows(rows: &Vec<Password>) -> (store: RecordStore)
        ensures
            store@ == merge(Seq::<PasswordView>::empty(), views(rows@)),
    {
        let mut store = RecordStore::new();
        merge_rows(&mut store, rows);
        store
    }
}

/// Writing portable rows with distinct ids to a backup text and reading
/// the text into an empty table gives the same rows, in the same order.
pub proof fn lemma_restore_into_empty(rows: Seq<PasswordView>)
    requires
        all_portable(rows),
        distinct_ids(rows),
    ensures
        merge(Seq::<PasswordView>::empty(), parse_backup(format_backup(rows))) == rows,
{
    lemma_backup_round_trip(rows);
    assert(Seq::<PasswordView>::empty() + rows =~= rows);
    lemma_merge_appends(Seq::<PasswordView>::empty(), rows);
}

/// The backup of the whole table: its text, encrypted under
/// `master_password` as one blob.
pub fn save_backup(store: &RecordStore, master_password: &str) -> (blob: Result<String, CryptError>)
    ensures
        exists|nonce: Seq<u8>|
            nonce.len() == NONCE_SIZE && text_result(blob) == #[trigger] spec_encrypt(
                master_password@,
                format_backup(store@),
                nonce,
            ),
        blob is Ok <==> encryptable(format_backup(store@)),
        blob matches Err(e) ==> e == CryptError::EncryptionError,
        blob matches Ok(text) ==> is_base64_text(text@),
        distinct_ids(store@),
{
    proof {
        use_type_invariant(store);
    }
    let text = write_backup_text(&store.rows);
    let blob = encrypt(master_password, text.as_str());
    proof {
        let nonce = choose|nonce: Seq<u8>|
            nonce.len() == NONCE_SIZE && text_result(blob) == #[trigger] spec_encrypt(
                master_password@,
                text@,
                nonce,
            );
        assert(text_result(blob) == spec_encrypt(master_password@, format_backup(store@), nonce));
    }
    blob
}

/// Opens a backup under `master_password` and offers each of its rows to
/// the table; a row whose id the table already holds is ignored. Returns
/// how many rows were added.
///
/// A blob that does not open leaves the table as it was. Rows that were
/// in the table stay as they were, in front. A backup that `save_backup`
/// made of portable rows under the same password gives those rows back:
/// loaded into an empty table, it reproduces them exactly. Whatever is
/// read from a backup is portable, so a table of portable rows stays one.
pub fn load_backup(store: &mut RecordStore, blob: &str, master_password: &str) -> (outcome: Result<
    usize,
    CryptError,
>)
    ensures
        match outcome {
            Ok(added) => {
                &&& spec_decrypt(master_password@, blob@) matches Ok(text)
                &&& final(store)@ == merge(old(store)@, parse_backup(text))
                &&& added == final(store)@.len() - old(store)@.len()
            },
            Err(e) => {
                &&& spec_decrypt(master_password@, blob@) == Err::<Seq<char>, CryptError>(e)
                &&& final(store)@ == old(store)@
            },
        },
        final(store)@.len() >= old(store)@.len(),
        final(store)@.take(old(store)@.len() as int) == old(store)@,
        forall|rows: Seq<PasswordView>, nonce: Seq<u8>|
            nonce.len() == NONCE_SIZE && all_portable(rows) && #[trigger] spec_encrypt(
                master_password@,
                format_backup(rows),
                nonce,
            ) == Ok::<Seq<char>, CryptError>(blob@) ==> {
                &&& outcome is Ok
                &&& final(store)@ == merge(old(store)@, rows)
                &&& old(store)@.len() == 0 && distinct_ids(rows) ==> final(store)@ == rows
            },
        all_portable(old(store)@) ==> all_portable(final(store)@),
{
    let ghost before = store@;
    let text = match decrypt(master_password, blob) {
        Ok(text) => text,
        Err(e) => {
            proof {
                assert(before.take(before.len() as int) =~= before);
            }
            return Err(e);
        },
    };
    let rows = read_backup_text(text.as_str());
    proof {
        lemma_parsed_backup_portable(text@);
    }
    let added = merge_rows(store, &rows);
    proof {
        lemma_merge_keeps_existing(before, views(rows@));
        assert forall|offered: Seq<PasswordView>, nonce: Seq<u8>|
            nonce.len() == NONCE_SIZE && all_portable(offered) && #[trigger] spec_encrypt(
                master_password@,
                format_backup(offered),
                nonce,
            ) == Ok::<Seq<char>, CryptError>(blob@) implies {
            &&& store@ == merge(before, offered)
            &&& before.len() == 0 && distinct_ids(offered) ==> store@ == offered
        } by {
            lemma_backup_round_trip(offered);
            if before.len() == 0 && distinct_ids(offered) {
                assert(before + offered =~= offered);
                lemma_merge_appends(before, offered);
            }
        }
    }
    Ok(added)
}

/// A row as `insert_password` writes it is portable, unless its
/// description is the empty text: its id, service and description hold
/// no divider, and its secret is base64.
pub proof fn lemma_inserted_row_portable(row: PasswordView)
    requires
        storable(row.id, row.service, row.description),
        is_base64_text(row.encrypted_secret),
        row.description != Some(Seq::<char>::empty()),
    ensures
        portable(row),
{
    if row.description is Some && (row.description->0).len() == 0 {
        assert(row.description->0 =~= Seq::<char>::empty());
    }
}

/// Giving a row a base64 blob keeps a portable table portable.
pub proof fn lemma_resealed_portable(rows: Seq<PasswordView>, id: Seq<char>, blob: Seq<char>)
    requires
        all_portable(rows),
        is_base64_text(blob),
    ensures
        all_portable(resealed(rows, id, blob)),
{
    let after = resealed(rows, id, blob);
    assert forall|i: int| 0 <= i < after.len() implies portable(#[trigger] after[i]) by {
        assert(portable(rows[i]));
    }
}

/// Offering portable rows to a portable table keeps it portable.
pub proof fn lemma_merge_portable(rows: Seq<PasswordView>, incoming: Seq<PasswordView>)
    requires
        all_portable(rows),
        all_portable(incoming),
    ensures
        all_portable(merge(rows, incoming)),
    decreases incoming.len(),
{
    if incoming.len() > 0 {
        let next = insert_or_ignore(rows, incoming[0]);
        assert(all_portable(next)) by {
            assert forall|i: int| 0 <= i < next.len() implies portable(#[trigger] next[i]) by {
                if i < rows.len() {
                    assert(next[i] == rows[i]);
                } else {
                    assert(next[i] == incoming[0]);
                }
            }
        }
        assert(all_portable(incoming.drop_first())) by {
            assert forall|i: int| 0 <= i < incoming.drop_first().len() implies portable(
                #[trigger] incoming.drop_first()[i],
            ) by {
                assert(incoming.drop_first()[i] == incoming[i + 1]);
            }
        }
        lemma_merge_portable(next, incoming.drop_first());
    }
}

/// Deleting by id keeps a portable table portable.
pub proof fn lemma_delete_portable(rows: Seq<PasswordView>, id: Seq<char>)
    requires
        all_portable(rows),
    ensures
        all_portable(rows.filter(without_id(id))),
{
    let kept = rows.filter(without_id(id));
    assert forall|i: int| 0 <= i < kept.len() implies portable(#[trigger] kept[i]) by {
        assert(kept.contains(kept[i]));
        rows.lemma_filter_contains_rev(without_id(id), kept[i]);
        let k = choose|k: int| 0 <= k < rows.len() && rows[k] == kept[i];
        assert(portable(rows[k]));
    }
}

} // verus!
