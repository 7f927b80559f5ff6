//! The commands of the front end and the decisions behind them.
//!
//! Reading arguments, prompting and printing belong to the program. What
//! a command means for the table is decided here: which rows a lookup
//! selects, what a listing shows for a row that does not open, and that
//! nobody deletes or re-keys a row without opening it first.

use crate::database::crypt::{spec_decrypt, text_result, CryptError};
use crate::database::queries::{
    delete_password_by_id, get_all_passwords, get_password_by_id, get_password_by_service, has_id,
    option_str, option_text, views, with_id, with_service, without_id, Password, PasswordView,
    RecordStore,
};
use crate::database::text::{chars_of, string_of};
use vstd::prelude::*;
use vstd::slice::slice_subrange;

verus! {

/// The arguments of one run.
#[derive(Debug, Clone, PartialEq, Eq)]
pub struct Cli {
    /// What to do.
    pub command: Commands,
    /// Master password for encryption and decryption; asked for where it
    /// is not given.
    pub master_password: Option<String>,
}

/// What a run is asked to do.
#[derive(Debug, Clone, PartialEq, Eq)]
pub enum Commands {
    /// Add a new entry.
    Add {
        /// Name of the service.
        service: String,
        /// The secret itself, or `@` and the name of a file to read it
        /// from.
        secret: Option<String>,
        /// Generate a random secret instead.
        generate_secret: bool,
        /// Optional description of the entry.
        description: Option<String>,
    },
    /// List all entries, decrypted.
    List,
    /// Get entries by id or by service name, decrypted.
    Get {
        /// Either `id` or `service`.
        field: String,
        /// The value to search for.
        value: String,
    },
    /// Delete an entry by id.
    Delete { id: String },
    /// Put an entry under a new master password, by id.
    Update { id: String },
}

/// Length of a generated secret.
pub const GENERATED_SECRET_LENGTH: usize = 32;

/// Marks an argument that names a file.
pub const FILE_MARKER: char = '@';

/// Where the secret of a new entry comes from.
#[derive(Debug, Clone, PartialEq, Eq)]
pub enum SecretPlan {
    /// It is generated.
    Generate,
    /// The user is asked for it.
    Ask,
    /// It was given as an argument.
    Given(String),
}

/// What a secret argument, given or typed, stands for.
#[derive(Debug, Clone, PartialEq, Eq)]
pub enum SecretSource {
    /// The secret is the content of the named file.
    File(String),
    /// The secret is the text itself.
    Literal(String),
}

/// Whether `plan` is what the arguments of `add` ask for: generation
/// wins over a given secret, and without either the user is asked.
pub open spec fn plan_for(plan: SecretPlan, secret: Option<Seq<char>>, generate_secret: bool) -> bool {
    match plan {
        SecretPlan::Generate => generate_secret,
        SecretPlan::Ask => !generate_secret && secret is None,
        SecretPlan::Given(text) => !generate_secret && secret == Some(text@),
    }
}

/// The plan that the arguments of `add` ask for.
pub fn secret_plan(secret: Option<&str>, generate_secret: bool) -> (plan: SecretPlan)
    ensures
        plan_for(plan, option_str(secret), generate_secret),
{
    if generate_secret {
        SecretPlan::Generate
    } else {
        match secret {
            Some(text) => SecretPlan::Given(text.to_owned()),
            None => SecretPlan::Ask,
        }
    }
}

/// What a secret argument stands for: behind `@` the name of a file,
/// otherwise the secret itself.
pub fn secret_source(argument: &str) -> (source: SecretSource)
    ensures
        match source {
            SecretSource::File(path) => argument@.len() > 0 && argument@[0] == FILE_MARKER && path@
                == argument@.subrange(1, argument@.len() as int),
            SecretSource::Literal(text) => !(argument@.len() > 0 && argument@[0] == FILE_MARKER)
                && text@ == argument@,
        },
{
    let chars = chars_of(argument);
    if chars.len() > 0 && chars[0] == FILE_MARKER {
        SecretSource::File(string_of(slice_subrange(chars.as_slice(), 1, chars.len())))
    } else {
        SecretSource::Literal(argument.to_owned())
    }
}

/// White space as `char::is_whitespace` knows it: the characters with
/// the Unicode property `White_Space`.
pub open spec fn is_white_space(c: char) -> bool {
    ('\u{9}' <= c && c <= '\u{d}') || c == ' ' || c == '\u{85}' || c == '\u{a0}' || c == '\u{1680}'
        || ('\u{2000}' <= c && c <= '\u{200a}') || c == '\u{2028}' || c == '\u{2029}' || c
        == '\u{202f}' || c == '\u{205f}' || c == '\u{3000}'
}

/// A text without the white space at its end.
pub open spec fn spec_trim_end(text: Seq<char>) -> Seq<char>
    decreases text.len(),
{
    if text.len() > 0 && is_white_space(text.last()) {
        spec_trim_end(text.drop_last())
    } else {
        text
    }
}

/// Calls `str::trim_end`. Trusted: the result is the text without its
/// trailing white space, as the Unicode property `White_Space` defines
/// it.
#[verifier::external_body]
fn trim_end(text: &str) -> (trimmed: String)
    ensures
        trimmed@ == spec_trim_end(text@),
{
    text.trim_end().to_string()
}

/// The secret that the content of a secret file stands for: the content
/// without the white space at its end.
pub fn secret_from_file(content: &str) -> (secret: String)
    ensures
        secret@ == spec_trim_end(content@),
{
    trim_end(content)
}

/// A lookup named a field that is neither `id` nor `service`.
#[derive(Debug, Clone, Copy, PartialEq, Eq, Structural)]
pub struct InvalidLookupField;

/// Whether `found` is what `get` selects from `rows`: by id where
/// `field` is `id`, by service where it is `service`; any other field is
/// refused.
pub open spec fn selects(
    found: Result<Vec<Password>, InvalidLookupField>,
    rows: Seq<PasswordView>,
    field: Seq<char>,
    value: Seq<char>,
) -> bool {
    match found {
        Ok(hits) => {
            ||| field == "id"@ && views(hits@) == rows.filter(with_id(value))
            ||| field == "service"@ && views(hits@) == rows.filter(with_service(value))
        },
        Err(_) => field != "id"@ && field != "service"@,
    }
}

/// The rows that `get` selects.
pub fn lookup(store: &RecordStore, field: &str, value: &str) -> (found: Result<
    Vec<Password>,
    InvalidLookupField,
>)
    ensures
        selects(found, store@, field@, value@),
{
    proof {
        reveal_strlit("id");
        reveal_strlit("service");
    }
    let name = field.to_owned();
    if name == "id".to_owned() {
        Ok(get_password_by_id(store, value))
    } else if name == "service".to_owned() {
        Ok(get_password_by_service(store, value))
    } else {
        Err(InvalidLookupField)
    }
}

/// One line of a listing: the row's id and service, and its secret as
/// far as the password opened it.
#[derive(Debug, PartialEq, Eq)]
pub struct Listing {
    pub id: String,
    pub service: String,
    pub secret: Result<String, CryptError>,
}

/// What a listing shows in place of a secret that did not open.
pub open spec fn spec_mask() -> Seq<char> {
    "**********"@
}

impl Listing {
    /// The line that `row` gets under `master_password`.
    pub open spec fn describes(self, row: PasswordView, master_password: Seq<char>) -> bool {
        &&& self.id@ == row.id
        &&& self.service@ == row.service
        &&& text_result(self.secret) == spec_decrypt(master_password, row.encrypted_secret)
    }

    /// The text to show for the secret: the secret, or a mask where it
    /// did not open.
    pub fn shown_secret(&self) -> (text: String)
        ensures
            text@ == match self.secret {
                Ok(secret) => secret@,
                Err(_) => spec_mask(),
            },
    {
        match &self.secret {
            Ok(secret) => secret.clone(),
            Err(_) => "**********".to_owned(),
        }
    }
}

/// Whether `lines` is the listing of `rows` under one password: a line
/// for every row, in table order.
pub open spec fn lists(lines: Seq<Listing>, rows: Seq<PasswordView>, master_password: Seq<char>) -> bool {
    &&& lines.len() == rows.len()
    &&& forall|i: int|
        0 <= i < lines.len() ==> (#[trigger] lines[i]).describes(rows[i], master_password)
}

/// The listing of the whole table under one password. A row that does
/// not open is listed with the reason; the rows after it are listed all
/// the same.
pub fn list_entries(store: &RecordStore, master_password: &str) -> (lines: Vec<Listing>)
    ensures
        lists(lines@, store@, master_password@),
{
    let rows = get_all_passwords(store);
    let mut lines: Vec<Listing> = Vec::new();
    let mut i: usize = 0;
    while i < rows.len()
        invariant
            i <= rows@.len(),
            views(rows@) == store@,
            lines@.len() == i,
            forall|k: int|
                0 <= k < i ==> (#[trigger] lines@[k]).describes(store@[k], master_password@),
        decreases rows@.len() - i,
    {
        let row = &rows[i];
        assert(row@ == views(rows@)[i as int]);
        let secret = row.decrypted_secret(master_password);
        lines.push(Listing { id: row.id.clone(), service: row.service.clone(), secret });
        i += 1;
    }
    lines
}

/// The blob of the row whose id is `id`, where the table has one.
pub open spec fn stored_blob(rows: Seq<PasswordView>, id: Seq<char>) -> Seq<char> {
    rows.filter(with_id(id))[0].encrypted_secret
}

/// Whether a password gives access to a row.
#[derive(Debug, Clone, PartialEq, Eq)]
pub enum Access {
    /// No row has the id.
    Missing,
    /// The row does not open under the password.
    Denied,
    /// The row opens; this is its secret.
    Granted(String),
}

/// Whether `access` is what `master_password` gets for the id `id`.
pub open spec fn grants(
    access: Access,
    rows: Seq<PasswordView>,
    id: Seq<char>,
    master_password: Seq<char>,
) -> bool {
    match access {
        Access::Missing => !has_id(rows, id),
        Access::Denied => has_id(rows, id) && spec_decrypt(master_password, stored_blob(rows, id))
            is Err,
        Access::Granted(secret) => has_id(rows, id) && spec_decrypt(
            master_password,
            stored_blob(rows, id),
        ) == Ok::<Seq<char>, CryptError>(secret@),
    }
}

/// Tries `master_password` on the row whose id is `id`.
pub fn authorize(store: &RecordStore, id: &str, master_password: &str) -> (access: Access)
    ensures
        grants(access, store@, id@, master_password@),
{
    let rows = get_password_by_id(store, id);
    if rows.len() == 0 {
        return Access::Missing;
    }
    assert(rows@[0]@ == views(rows@)[0]);
    match rows[0].decrypted_secret(master_password) {
        Ok(secret) => Access::Granted(secret),
        Err(_) => Access::Denied,
    }
}

/// How a request to delete ended.
#[derive(Debug, Clone, Copy, PartialEq, Eq, Structural)]
pub enum DeleteOutcome {
    /// The row is gone.
    Deleted,
    /// No row has the id.
    NotFound,
    /// The row does not open under the password and stays.
    WrongPassword,
}

/// Whether `outcome` and the table `after` are what a request to delete
/// the id `id` under `master_password` makes of the table `before`: the
/// row goes only if the password opens it.
pub open spec fn deletes(
    outcome: DeleteOutcome,
    before: Seq<PasswordView>,
    after: Seq<PasswordView>,
    id: Seq<char>,
    master_password: Seq<char>,
) -> bool {
    match outcome {
        DeleteOutcome::Deleted => {
            &&& has_id(before, id)
            &&& spec_decrypt(master_password, stored_blob(before, id)) is Ok
            &&& after == before.filter(without_id(id))
        },
        DeleteOutcome::NotFound => !has_id(before, id) && after == before,
        DeleteOutcome::WrongPassword => {
            &&& has_id(before, id)
            &&& spec_decrypt(master_password, stored_blob(before, id)) is Err
            &&& after == before
        },
    }
}

/// Deletes the row whose id is `id`, provided that `master_password`
/// opens it. In every other case the table stays as it was.
pub fn delete_entry(store: &mut RecordStore, id: &str, master_password: &str) -> (outcome:
    DeleteOutcome)
    ensures
        deletes(outcome, old(store)@, final(store)@, id@, master_password@),
{
    match authorize(store, id, master_password) {
        Access::Missing => DeleteOutcome::NotFound,
        Access::Denied => DeleteOutcome::WrongPassword,
        Access::Granted(_) => {
            delete_password_by_id(store, id);
            DeleteOutcome::Deleted
        },
    }
}

/// What a command comes to, as far as it can be decided without asking
/// the user anything more.
#[derive(Debug, PartialEq, Eq)]
pub enum Reply {
    /// `add`: the secret is still to be had, in this way; then the row
    /// can be inserted.
    SecretWanted(SecretPlan),
    /// `list`: the lines to print.
    Listed(Vec<Listing>),
    /// `get`: the rows that were selected, or the refusal of the field.
    Looked(Result<Vec<Password>, InvalidLookupField>),
    /// `delete`: how it ended.
    Deletion(DeleteOutcome),
    /// `update`: whether the password opens the row. Where it does, the
    /// new password is still to be asked for; then the row can be re-keyed.
    Rekey(Access),
}

/// Whether `reply` and the table `after` are what `command` under
/// `master_password` makes of the table `before`. Only `delete` changes
/// the table.
pub open spec fn answers(
    reply: Reply,
    command: Commands,
    before: Seq<PasswordView>,
    after: Seq<PasswordView>,
    master_password: Seq<char>,
) -> bool {
    match command {
        Commands::Add { service, secret, generate_secret, description } => {
            &&& reply matches Reply::SecretWanted(plan)
            &&& plan_for(plan, option_text(secret), generate_secret)
            &&& after == before
        },
        Commands::List => {
            &&& reply matches Reply::Listed(lines)
            &&& lists(lines@, before, master_password)
            &&& after == before
        },
        Commands::Get { field, value } => {
            &&& reply matches Reply::Looked(found)
            &&& selects(found, before, field@, value@)
            &&& after == before
        },
        Commands::Delete { id } => {
            &&& reply matches Reply::Deletion(outcome)
            &&& deletes(outcome, before, after, id@, master_password)
        },
        Commands::Update { id } => {
            &&& reply matches Reply::Rekey(access)
            &&& grants(access, before, id@, master_password)
            &&& after == before
        },
    }
}

/// Carries a command as far as it goes without further input.
pub fn respond(store: &mut RecordStore, command: &Commands, master_password: &str) -> (reply: Reply)
    ensures
        answers(reply, *command, old(store)@, final(store)@, master_password@),
{
    match command {
        Commands::Add { service: _, secret, generate_secret, description: _ } => {
            let given = match secret {
                Some(text) => Some(text.as_str()),
                None => None,
            };
            Reply::SecretWanted(secret_plan(given, *generate_secret))
        },
        Commands::List => Reply::Listed(list_entries(store, master_password)),
        Commands::Get { field, value } => Reply::Looked(
            lookup(store, field.as_str(), value.as_str()),
        ),
        Commands::Delete { id } => Reply::Deletion(
            delete_entry(store, id.as_str(), master_password),
        ),
        Commands::Update { id } => Reply::Rekey(authorize(store, id.as_str(), master_password)),
    }
}

} // verus!
