//! The plain text of a backup: one line per credential, fields divided
//! by `|`, lines divided by a line feed.
//!
//! A line is `id|service|secret|description`, with nothing behind the last
//! divider where there is no description. Reading splits a line into at
//! most four fields, so a description may itself hold a `|`; a line with
//! fewer than three fields is skipped.

use crate::database::queries::{views, Password, PasswordView};
use crate::database::text::{
    chars_of, find_char, index_of, lacks, lemma_index_of, lemma_index_of_bounds, string_of,
};
use vstd::prelude::*;
use vstd::slice::slice_subrange;
use vstd::string::StringExecFns;

verus! {

/// Divides the fields of a line.
pub const FIELD_SEPARATOR: char = '|';

/// Divides the lines of a backup.
pub const LINE_SEPARATOR: char = '\n';

/// The pieces of `s` between occurrences of `c`.
pub open spec fn split(s: Seq<char>, c: char) -> Seq<Seq<char>>
    decreases s.len(),
{
    let at = index_of(s, c);
    if 0 <= at < s.len() {
        seq![s.subrange(0, at)] + split(s.subrange(at + 1, s.len() as int), c)
    } else {
        seq![s]
    }
}

/// The pieces of `s` between its first `limit - 1` occurrences of `c`;
/// the last piece holds whatever is left.
pub open spec fn splitn(s: Seq<char>, c: char, limit: nat) -> Seq<Seq<char>>
    decreases limit,
{
    let at = index_of(s, c);
    if limit > 1 && 0 <= at < s.len() {
        seq![s.subrange(0, at)] + splitn(s.subrange(at + 1, s.len() as int), c, (limit - 1) as nat)
    } else {
        seq![s]
    }
}

/// What stands in a line for an optional description.
pub open spec fn description_text(description: Option<Seq<char>>) -> Seq<char> {
    match description {
        Some(text) => text,
        None => Seq::empty(),
    }
}

/// The line that stands for a credential.
pub open spec fn format_record(row: PasswordView) -> Seq<char> {
    row.id + seq![FIELD_SEPARATOR] + row.service + seq![FIELD_SEPARATOR] + row.encrypted_secret
        + seq![FIELD_SEPARATOR] + description_text(row.description)
}

/// The text that stands for a sequence of credentials: their lines,
/// joined by line feeds.
pub open spec fn format_backup(rows: Seq<PasswordView>) -> Seq<char>
    decreases rows.len(),
{
    if rows.len() == 0 {
        Seq::empty()
    } else if rows.len() == 1 {
        format_record(rows[0])
    } else {
        format_record(rows[0]) + seq![LINE_SEPARATOR] + format_backup(rows.drop_first())
    }
}

/// The credential that a line stands for, if it has the fields of one.
pub open spec fn parse_record(line: Seq<char>) -> Option<PasswordView> {
    let fields = splitn(line, FIELD_SEPARATOR, 4);
    if fields.len() >= 3 {
        Some(
            PasswordView {
                id: fields[0],
                service: fields[1],
                encrypted_secret: fields[2],
                description: if fields.len() == 4 && fields[3].len() > 0 {
                    Some(fields[3])
                } else {
                    None
                },
            },
        )
    } else {
        None
    }
}

/// The credentials that a sequence of lines stands for, in order.
pub open spec fn parse_lines(lines: Seq<Seq<char>>) -> Seq<PasswordView>
    decreases lines.len(),
{
    if lines.len() == 0 {
        Seq::empty()
    } else {
        match parse_record(lines[0]) {
            Some(row) => seq![row] + parse_lines(lines.drop_first()),
            None => parse_lines(lines.drop_first()),
        }
    }
}

/// The credentials that a backup text stands for, in order.
pub open spec fn parse_backup(text: Seq<char>) -> Seq<PasswordView> {
    parse_lines(split(text, LINE_SEPARATOR))
}

/// Whether a credential survives being written to a line and read back:
/// no divider in its id, service or secret, no line feed anywhere, and a
/// description, where there is one, that is not empty.
pub open spec fn portable(row: PasswordView) -> bool {
    &&& lacks(row.id, FIELD_SEPARATOR) && lacks(row.id, LINE_SEPARATOR)
    &&& lacks(row.service, FIELD_SEPARATOR) && lacks(row.service, LINE_SEPARATOR)
    &&& lacks(row.encrypted_secret, FIELD_SEPARATOR) && lacks(row.encrypted_secret, LINE_SEPARATOR)
    &&& row.description matches Some(text) ==> text.len() > 0 && lacks(text, LINE_SEPARATOR)
}

/// Whether every credential of a sequence is portable.
pub open spec fn all_portable(rows: Seq<PasswordView>) -> bool {
    forall|i: int| 0 <= i < rows.len() ==> portable(#[trigger] rows[i])
}

/// A piece that holds no `c` and is followed by `c` is the first piece.
pub proof fn lemma_split_first(a: Seq<char>, b: Seq<char>, c: char)
    requires
        lacks(a, c),
    ensures
        split(a + seq![c] + b, c) == seq![a] + split(b, c),
{
    let s = a + seq![c] + b;
    lemma_index_of(s, c, a.len() as int);
    assert(s.subrange(0, a.len() as int) =~= a);
    assert(s.subrange(a.len() as int + 1, s.len() as int) =~= b);
}

/// A text that holds no `c` is its own single piece.
pub proof fn lemma_split_whole(a: Seq<char>, c: char)
    requires
        lacks(a, c),
    ensures
        split(a, c) == seq![a],
{
    lemma_index_of_bounds(a, c);
}

/// As `lemma_split_first`, while the limit allows another cut.
pub proof fn lemma_splitn_first(a: Seq<char>, b: Seq<char>, c: char, limit: nat)
    requires
        lacks(a, c),
        limit > 1,
    ensures
        splitn(a + seq![c] + b, c, limit) == seq![a] + splitn(b, c, (limit - 1) as nat),
{
    let s = a + seq![c] + b;
    lemma_index_of(s, c, a.len() as int);
    assert(s.subrange(0, a.len() as int) =~= a);
    assert(s.subrange(a.len() as int + 1, s.len() as int) =~= b);
}

/// A portable credential is read back from its own line.
pub proof fn lemma_record_round_trip(row: PasswordView)
    requires
        portable(row),
    ensures
        parse_record(format_record(row)) == Some(row),
        lacks(format_record(row), LINE_SEPARATOR),
{
    let sep = seq![FIELD_SEPARATOR];
    let tail = description_text(row.description);
    let after_secret = row.encrypted_secret + sep + tail;
    let after_service = row.service + sep + after_secret;
    let line = format_record(row);
    assert(line =~= row.id + sep + after_service);
    lemma_splitn_first(row.id, after_service, FIELD_SEPARATOR, 4);
    lemma_splitn_first(row.service, after_secret, FIELD_SEPARATOR, 3);
    lemma_splitn_first(row.encrypted_secret, tail, FIELD_SEPARATOR, 2);
    assert(splitn(tail, FIELD_SEPARATOR, 1) == seq![tail]);
    let fields = splitn(line, FIELD_SEPARATOR, 4);
    assert(fields =~= seq![row.id, row.service, row.encrypted_secret, tail]);
    assert(fields[3] == tail);
}

/// The text of a sequence that grew by one credential.
pub proof fn lemma_format_push(rows: Seq<PasswordView>, row: PasswordView)
    ensures
        format_backup(rows.push(row)) == if rows.len() == 0 {
            format_record(row)
        } else {
            format_backup(rows) + seq![LINE_SEPARATOR] + format_record(row)
        },
    decreases rows.len(),
{
    let grown = rows.push(row);
    if rows.len() == 0 {
    } else {
        assert(grown.drop_first() =~= rows.drop_first().push(row));
        lemma_format_push(rows.drop_first(), row);
        if rows.len() == 1 {
            assert(format_backup(rows.drop_first()) =~= Seq::<char>::empty());
        } else {
            assert(format_backup(grown) =~= format_backup(rows) + seq![LINE_SEPARATOR]
                + format_record(row));
        }
    }
}

/// Reading lines reads the first and then the others.
pub proof fn lemma_parse_lines_first(line: Seq<char>, others: Seq<Seq<char>>)
    ensures
        parse_lines(seq![line] + others) == match parse_record(line) {
            Some(row) => seq![row] + parse_lines(others),
            None => parse_lines(others),
        },
        parse_lines(Seq::<Seq<char>>::empty()) == Seq::<PasswordView>::empty(),
{
    let lines = seq![line] + others;
    assert(lines.drop_first() =~= others);
    assert(lines[0] == line);
}

/// Reading what was written gives back every portable credential, in
/// order and unchanged.
pub proof fn lemma_backup_round_trip(rows: Seq<PasswordView>)
    requires
        all_portable(rows),
    ensures
        parse_backup(format_backup(rows)) == rows,
    decreases rows.len(),
{
    let none = Seq::<Seq<char>>::empty();
    if rows.len() == 0 {
        let empty = Seq::<char>::empty();
        assert(split(empty, LINE_SEPARATOR) == seq![empty]);
        assert(splitn(empty, FIELD_SEPARATOR, 4) == seq![empty]);
        lemma_parse_lines_first(empty, none);
        assert(seq![empty] + none =~= seq![empty]);
        assert(parse_backup(format_backup(rows)) =~= rows);
    } else {
        let line = format_record(rows[0]);
        lemma_record_round_trip(rows[0]);
        if rows.len() == 1 {
            lemma_split_whole(line, LINE_SEPARATOR);
            lemma_parse_lines_first(line, none);
            assert(seq![line] + none =~= seq![line]);
            assert(parse_backup(format_backup(rows)) =~= rows);
        } else {
            let rest = rows.drop_first();
            assert(all_portable(rest)) by {
                assert forall|i: int| 0 <= i < rest.len() implies portable(#[trigger] rest[i]) by {
                    assert(rest[i] == rows[i + 1]);
                }
            }
            lemma_backup_round_trip(rest);
            lemma_split_first(line, format_backup(rest), LINE_SEPARATOR);
            lemma_parse_lines_first(line, split(format_backup(rest), LINE_SEPARATOR));
            assert(parse_backup(format_backup(rows)) =~= rows);
        }
    }
}

/// A piece cut off before the first `c` holds no `c`, and neither piece
/// holds a character that the whole does not hold.
proof fn lemma_cut_lacks(s: Seq<char>, c: char, other: char)
    requires
        0 <= index_of(s, c) < s.len(),
    ensures
        lacks(s.subrange(0, index_of(s, c)), c),
        lacks(s, other) ==> lacks(s.subrange(0, index_of(s, c)), other) && lacks(
            s.subrange(index_of(s, c) + 1, s.len() as int),
            other,
        ),
{
    lemma_index_of_bounds(s, c);
}

/// Whatever is read from a line that holds no line feed is portable.
pub proof fn lemma_parsed_record_portable(line: Seq<char>)
    requires
        lacks(line, LINE_SEPARATOR),
    ensures
        parse_record(line) matches Some(row) ==> portable(row),
{
    let bar = FIELD_SEPARATOR;
    let cut1 = index_of(line, bar);
    lemma_index_of_bounds(line, bar);
    if 0 <= cut1 < line.len() {
        lemma_cut_lacks(line, bar, LINE_SEPARATOR);
        let rest1 = line.subrange(cut1 + 1, line.len() as int);
        let cut2 = index_of(rest1, bar);
        lemma_index_of_bounds(rest1, bar);
        assert(splitn(line, bar, 4) == seq![line.subrange(0, cut1)] + splitn(rest1, bar, 3));
        if 0 <= cut2 < rest1.len() {
            lemma_cut_lacks(rest1, bar, LINE_SEPARATOR);
            let rest2 = rest1.subrange(cut2 + 1, rest1.len() as int);
            let cut3 = index_of(rest2, bar);
            lemma_index_of_bounds(rest2, bar);
            assert(splitn(rest1, bar, 3) == seq![rest1.subrange(0, cut2)] + splitn(rest2, bar, 2));
            if 0 <= cut3 < rest2.len() {
                lemma_cut_lacks(rest2, bar, LINE_SEPARATOR);
                let rest3 = rest2.subrange(cut3 + 1, rest2.len() as int);
                assert(splitn(rest3, bar, 1) == seq![rest3]);
                assert(splitn(rest2, bar, 2) == seq![rest2.subrange(0, cut3)] + splitn(
                    rest3,
                    bar,
                    1,
                ));
                assert(splitn(line, bar, 4) =~= seq![
                    line.subrange(0, cut1),
                    rest1.subrange(0, cut2),
                    rest2.subrange(0, cut3),
                    rest3,
                ]);
            } else {
                assert(splitn(rest2, bar, 2) == seq![rest2]);
                assert(splitn(line, bar, 4) =~= seq![
                    line.subrange(0, cut1),
                    rest1.subrange(0, cut2),
                    rest2,
                ]);
            }
        } else {
            assert(splitn(rest1, bar, 3) == seq![rest1]);
            assert(splitn(line, bar, 4) =~= seq![line.subrange(0, cut1), rest1]);
        }
    } else {
        assert(splitn(line, bar, 4) == seq![line]);
    }
}

/// No piece between line feeds holds a line feed.
pub proof fn lemma_split_pieces_lack(s: Seq<char>, c: char)
    ensures
        forall|i: int| 0 <= i < split(s, c).len() ==> lacks(#[trigger] split(s, c)[i], c),
    decreases s.len(),
{
    let at = index_of(s, c);
    lemma_index_of_bounds(s, c);
    if 0 <= at < s.len() {
        let rest = s.subrange(at + 1, s.len() as int);
        lemma_split_pieces_lack(rest, c);
        let pieces = split(s, c);
        assert forall|i: int| 0 <= i < pieces.len() implies lacks(#[trigger] pieces[i], c) by {
            if i > 0 {
                assert(pieces[i] == split(rest, c)[i - 1]);
            }
        }
    }
}

/// The rows read from lines that hold no line feed are portable.
pub proof fn lemma_parsed_lines_portable(lines: Seq<Seq<char>>)
    requires
        forall|i: int| 0 <= i < lines.len() ==> lacks(#[trigger] lines[i], LINE_SEPARATOR),
    ensures
        all_portable(parse_lines(lines)),
    decreases lines.len(),
{
    if lines.len() > 0 {
        let others = lines.drop_first();
        assert forall|i: int| 0 <= i < others.len() implies lacks(
            #[trigger] others[i],
            LINE_SEPARATOR,
        ) by {
            assert(others[i] == lines[i + 1]);
        }
        lemma_parsed_lines_portable(others);
        lemma_parsed_record_portable(lines[0]);
        let rows = parse_lines(lines);
        assert forall|i: int| 0 <= i < rows.len() implies portable(#[trigger] rows[i]) by {
            if parse_record(lines[0]) is Some && i > 0 {
                assert(rows[i] == parse_lines(others)[i - 1]);
            }
        }
    }
}

/// Every row read from a backup text is portable: what was loaded can
/// be saved again without loss.
pub proof fn lemma_parsed_backup_portable(text: Seq<char>)
    ensures
        all_portable(parse_backup(text)),
{
    lemma_split_pieces_lack(text, LINE_SEPARATOR);
    lemma_parsed_lines_portable(split(text, LINE_SEPARATOR));
}

/// Writes the backup text of the given credentials.
pub fn write_backup_text(rows: &Vec<Password>) -> (text: String)
    ensures
        text@ == format_backup(views(rows@)),
{
    let ghost all = views(rows@);
    let mut text = String::new();
    let mut i: usize = 0;
    assert(all.take(0) =~= Seq::<PasswordView>::empty());
    while i < rows.len()
        invariant
            i <= rows@.len(),
            all == views(rows@),
            text@ == format_backup(all.take(i as int)),
        decreases rows@.len() - i,
    {
        let row = &rows[i];
        proof {
            lemma_format_push(all.take(i as int), all[i as int]);
            assert(all.take(i + 1) =~= all.take(i as int).push(all[i as int]));
        }
        if i > 0 {
            text.push(LINE_SEPARATOR);
        }
        let ghost start = text@;
        text.append(row.id.as_str());
        text.push(FIELD_SEPARATOR);
        text.append(row.service.as_str());
        text.push(FIELD_SEPARATOR);
        text.append(row.encrypted_secret.as_str());
        text.push(FIELD_SEPARATOR);
        match &row.description {
            Some(note) => {
                text.append(note.as_str());
            },
            None => {},
        }
        assert(text@ =~= start + format_record(all[i as int]));
        i += 1;
    }
    assert(all.take(i as int) =~= all);
    text
}

/// The view of an optional credential.
pub open spec fn option_view(row: Option<Password>) -> Option<PasswordView> {
    match row {
        Some(r) => Some(r@),
        None => None,
    }
}

/// Reads one line: the credential that it stands for, or nothing where
/// it has fewer than three fields.
pub fn read_backup_line(line: &[char]) -> (row: Option<Password>)
    ensures
        option_view(row) == parse_record(line@),
{
    let cut1 = find_char(line, FIELD_SEPARATOR);
    if cut1 >= line.len() {
        return None;
    }
    let rest1 = slice_subrange(line, cut1 + 1, line.len());
    let cut2 = find_char(rest1, FIELD_SEPARATOR);
    if cut2 >= rest1.len() {
        assert(splitn(rest1@, FIELD_SEPARATOR, 3) == seq![rest1@]);
        assert(splitn(line@, FIELD_SEPARATOR, 4) =~= seq![line@.subrange(0, cut1 as int), rest1@]);
        return None;
    }
    let rest2 = slice_subrange(rest1, cut2 + 1, rest1.len());
    let cut3 = find_char(rest2, FIELD_SEPARATOR);
    let id = string_of(slice_subrange(line, 0, cut1));
    let service = string_of(slice_subrange(rest1, 0, cut2));
    assert(splitn(rest1@, FIELD_SEPARATOR, 3) == seq![rest1@.subrange(0, cut2 as int)] + splitn(
        rest2@,
        FIELD_SEPARATOR,
        2,
    ));
    if cut3 >= rest2.len() {
        assert(splitn(rest2@, FIELD_SEPARATOR, 2) == seq![rest2@]);
        assert(splitn(line@, FIELD_SEPARATOR, 4) =~= seq![
            line@.subrange(0, cut1 as int),
            rest1@.subrange(0, cut2 as int),
            rest2@,
        ]);
        let encrypted_secret = string_of(rest2);
        return Some(Password { id, service, encrypted_secret, description: None });
    }
    let rest3 = slice_subrange(rest2, cut3 + 1, rest2.len());
    assert(splitn(rest3@, FIELD_SEPARATOR, 1) == seq![rest3@]);
    assert(splitn(rest2@, FIELD_SEPARATOR, 2) == seq![rest2@.subrange(0, cut3 as int)] + splitn(
        rest3@,
        FIELD_SEPARATOR,
        1,
    ));
    assert(splitn(line@, FIELD_SEPARATOR, 4) =~= seq![
        line@.subrange(0, cut1 as int),
        rest1@.subrange(0, cut2 as int),
        rest2@.subrange(0, cut3 as int),
        rest3@,
    ]);
    let encrypted_secret = string_of(slice_subrange(rest2, 0, cut3));
    let description = if rest3.len() > 0 {
        Some(string_of(rest3))
    } else {
        None
    };
    Some(Password { id, service, encrypted_secret, description })
}

/// Reads a backup text: the credentials of its well-formed lines, in
/// order.
pub fn read_backup_text(text: &str) -> (rows: Vec<Password>)
    ensures
        views(rows@) == parse_backup(text@),
{
    let chars = chars_of(text);
    let mut rows: Vec<Password> = Vec::new();
    let mut rest: &[char] = chars.as_slice();
    let mut done = false;
    assert(views(rows@) =~= Seq::<PasswordView>::empty());
    while !done
        invariant
            !done ==> parse_backup(text@) == views(rows@) + parse_backup(rest@),
            done ==> parse_backup(text@) == views(rows@),
        decreases rest@.len() + if done { 0nat } else { 1nat },
    {
        let cut = find_char(rest, LINE_SEPARATOR);
        let line = slice_subrange(rest, 0, cut);
        let ghost before = views(rows@);
        match read_backup_line(line) {
            Some(row) => {
                rows.push(row);
                assert(views(rows@) =~= before + seq![row@]);
            },
            None => {
                assert(views(rows@) =~= before);
            },
        }
        if cut >= rest.len() {
            proof {
                assert(line@ =~= rest@);
                lemma_parse_lines_first(rest@, Seq::<Seq<char>>::empty());
                assert(seq![rest@] + Seq::<Seq<char>>::empty() =~= seq![rest@]);
                assert(parse_backup(text@) =~= views(rows@));
            }
            done = true;
        } else {
            let next = slice_subrange(rest, cut + 1, rest.len());
            proof {
                lemma_parse_lines_first(line@, split(next@, LINE_SEPARATOR));
                assert(parse_backup(text@) =~= views(rows@) + parse_backup(next@));
            }
            rest = next;
        }
    }
    rows
}

} // verus!
