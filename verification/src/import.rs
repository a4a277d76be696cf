//! The bulk-import feed: plain text, one credential per line, four fields
//! separated by white space: site, user, username, password.
//!
//! There is no escaping, so a field cannot hold white space. Fields after
//! the fourth are ignored. Every password is sealed as its line is read.

use crate::envelope::{encrypt, fits_envelope, open_envelope, CryptoError};
use crate::store::{holds, lemma_with_credential, with_credential, CredentialStore, StoreView};
use crate::structs::{Credential, CredentialView};
use vstd::prelude::*;
use vstd::std_specs::iter::IteratorSpec;
use vstd::string::StrSliceExecFns;

verus! {

/// Why a feed was refused. Lines are counted from one.
#[derive(Debug, Clone, Copy, PartialEq, Eq, Structural)]
pub enum ImportError {
    /// The line has fewer than four fields.
    MalformedLine { line_number: usize },
    /// The line's password is longer than one envelope can carry.
    PasswordTooLong { line_number: usize },
}

/// One line of the feed, split into its fields.
#[derive(Debug, Clone, PartialEq, Eq)]
pub struct ImportRecord {
    pub site: String,
    pub user: String,
    pub username: String,
    pub password: String,
}

/// What an `ImportRecord` holds, as plain text values.
pub ghost struct ImportRecordView {
    pub site: Seq<char>,
    pub user: Seq<char>,
    pub username: Seq<char>,
    pub password: Seq<char>,
}

impl View for ImportRecord {
    type V = ImportRecordView;

    open spec fn view(&self) -> ImportRecordView {
        ImportRecordView {
            site: self.site@,
            user: self.user@,
            username: self.username@,
            password: self.password@,
        }
    }
}

/// Whether `c` separates fields: the characters with Unicode's `White_Space`
/// property.
pub open spec fn is_space(c: char) -> bool {
    let code = c as u32;
    ||| 0x09 <= code <= 0x0d
    ||| code == 0x20
    ||| code == 0x85
    ||| code == 0xa0
    ||| code == 0x1680
    ||| 0x2000 <= code <= 0x200a
    ||| code == 0x2028
    ||| code == 0x2029
    ||| code == 0x202f
    ||| code == 0x205f
    ||| code == 0x3000
}

/// The first position at or after `i` that holds no white space, or the
/// length of `s`.
pub open spec fn spaces_end(s: Seq<char>, i: int) -> int
    decreases s.len() - i,
{
    if 0 <= i < s.len() && is_space(s[i]) {
        spaces_end(s, i + 1)
    } else {
        i
    }
}

/// The first position at or after `i` that holds white space, or the length
/// of `s`.
pub open spec fn word_end(s: Seq<char>, i: int) -> int
    decreases s.len() - i,
{
    if 0 <= i < s.len() && !is_space(s[i]) {
        word_end(s, i + 1)
    } else {
        i
    }
}

/// The first position at or after `i` that holds a line feed, or the length
/// of `s`.
pub open spec fn line_end(s: Seq<char>, i: int) -> int
    decreases s.len() - i,
{
    if 0 <= i < s.len() && s[i] != '\n' {
        line_end(s, i + 1)
    } else {
        i
    }
}

/// A scan from a position inside `s` stops between there and the end.
pub proof fn lemma_scan_bounds(s: Seq<char>, i: int)
    requires
        0 <= i <= s.len(),
    ensures
        i <= spaces_end(s, i) <= s.len(),
        i <= word_end(s, i) <= s.len(),
        i <= line_end(s, i) <= s.len(),
    decreases s.len() - i,
{
    if i < s.len() {
        lemma_scan_bounds(s, i + 1);
    }
}

/// The lines of `s` from position `i` on. Each line ends before a line feed
/// or at the end of `s`; a line feed at the very end opens no further line.
pub open spec fn lines_from(s: Seq<char>, i: int) -> Seq<Seq<char>>
    decreases s.len() - i,
{
    if 0 <= i < s.len() {
        proof {
            lemma_scan_bounds(s, i);
        }
        let end = line_end(s, i);
        if end < s.len() {
            seq![s.subrange(i, end)] + lines_from(s, end + 1)
        } else {
            seq![s.subrange(i, end)]
        }
    } else {
        Seq::empty()
    }
}

/// The lines of a feed.
pub open spec fn lines_of(feed: Seq<char>) -> Seq<Seq<char>> {
    lines_from(feed, 0)
}

/// The record that a line stands for: its first four fields, where it has
/// that many.
pub open spec fn parsed_line(line: Seq<char>) -> Option<ImportRecordView> {
    let site_start = spaces_end(line, 0);
    let site_end = word_end(line, site_start);
    let user_start = spaces_end(line, site_end);
    let user_end = word_end(line, user_start);
    let username_start = spaces_end(line, user_end);
    let username_end = word_end(line, username_start);
    let password_start = spaces_end(line, username_end);
    let password_end = word_end(line, password_start);
    if password_start < line.len() {
        Some(
            ImportRecordView {
                site: line.subrange(site_start, site_end),
                user: line.subrange(user_start, user_end),
                username: line.subrange(username_start, username_end),
                password: line.subrange(password_start, password_end),
            },
        )
    } else {
        None
    }
}

/// Whether `c` separates fields.
pub fn is_field_separator(c: char) -> (space: bool)
    ensures
        space == is_space(c),
{
    let code: u32 = c as u32;
    (0x09 <= code && code <= 0x0d) || code == 0x20 || code == 0x85 || code == 0xa0 || code
        == 0x1680 || (0x2000 <= code && code <= 0x200a) || code == 0x2028 || code == 0x2029
        || code == 0x202f || code == 0x205f || code == 0x3000
}

/// The characters of `text`, one by one.
fn chars_of(text: &str) -> (chars: Vec<char>)
    ensures
        chars@ == text@,
{
    broadcast use vstd::string::group_string_axioms;

    let mut rest = text.chars();
    let mut chars: Vec<char> = Vec::new();
    assert(chars@ + rest.remaining() =~= text@);
    loop
        invariant
            chars@ + rest.remaining() == text@,
            rest.decrease() is Some,
        ensures
            chars@ == text@,
        decreases rest.decrease()->0,
    {
        let ghost pending = rest.remaining();
        match rest.next() {
            Some(c) => {
                chars.push(c);
                assert(chars@ + rest.remaining() =~= text@);
            },
            None => {
                assert(pending.len() == 0);
                assert(chars@ =~= text@);
                break ;
            },
        }
    }
    chars
}

/// Skips white space from `from` on.
fn scan_spaces(chars: &Vec<char>, from: usize) -> (to: usize)
    requires
        from <= chars@.len(),
    ensures
        to == spaces_end(chars@, from as int),
        from <= to <= chars@.len(),
{
    let mut i: usize = from;
    while i < chars.len() && is_field_separator(chars[i])
        invariant
            from <= i <= chars@.len(),
            spaces_end(chars@, from as int) == spaces_end(chars@, i as int),
        decreases chars@.len() - i,
    {
        i = i + 1;
    }
    i
}

/// Skips one field from `from` on.
fn scan_word(chars: &Vec<char>, from: usize) -> (to: usize)
    requires
        from <= chars@.len(),
    ensures
        to == word_end(chars@, from as int),
        from <= to <= chars@.len(),
{
    let mut i: usize = from;
    while i < chars.len() && !is_field_separator(chars[i])
        invariant
            from <= i <= chars@.len(),
            word_end(chars@, from as int) == word_end(chars@, i as int),
        decreases chars@.len() - i,
    {
        i = i + 1;
    }
    i
}

/// Skips to the end of the line that `from` lies in.
fn scan_line(chars: &Vec<char>, from: usize) -> (to: usize)
    requires
        from <= chars@.len(),
    ensures
        to == line_end(chars@, from as int),
        from <= to <= chars@.len(),
{
    let mut i: usize = from;
    while i < chars.len() && chars[i] != '\n'
        invariant
            from <= i <= chars@.len(),
            line_end(chars@, from as int) == line_end(chars@, i as int),
        decreases chars@.len() - i,
    {
        i = i + 1;
    }
    i
}

/// Splits one line into its record, or finds that it has too few fields.
pub fn parse_line(line: &str) -> (record: Option<ImportRecord>)
    ensures
        record is Some <==> parsed_line(line@) is Some,
        record is Some ==> record->0@ == parsed_line(line@)->0,
{
    let chars = chars_of(line);
    let site_start = scan_spaces(&chars, 0);
    let site_end = scan_word(&chars, site_start);
    let user_start = scan_spaces(&chars, site_end);
    let user_end = scan_word(&chars, user_start);
    let username_start = scan_spaces(&chars, user_end);
    let username_end = scan_word(&chars, username_start);
    let password_start = scan_spaces(&chars, username_end);
    let password_end = scan_word(&chars, password_start);
    if password_start < chars.len() {
        Some(
            ImportRecord {
                site: line.substring_char(site_start, site_end).to_owned(),
                user: line.substring_char(user_start, user_end).to_owned(),
                username: line.substring_char(username_start, username_end).to_owned(),
                password: line.substring_char(password_start, password_end).to_owned(),
            },
        )
    } else {
        None
    }
}

/// Line `k` of `lines` is a record for `user` on `site`.
pub open spec fn names(lines: Seq<Seq<char>>, k: int, site: Seq<char>, user: Seq<char>) -> bool {
    &&& 0 <= k < lines.len()
    &&& parsed_line(lines[k]) is Some
    &&& parsed_line(lines[k])->0.site == site
    &&& parsed_line(lines[k])->0.user == user
}

/// Some line among the first `n` is a record for `user` on `site`.
pub open spec fn named_before(
    lines: Seq<Seq<char>>,
    n: int,
    site: Seq<char>,
    user: Seq<char>,
) -> bool {
    exists|k: int| k < n && names(lines, k, site, user)
}

/// Line `k` is the last among the first `n` that is a record for `user` on
/// `site`.
pub open spec fn is_latest(
    lines: Seq<Seq<char>>,
    n: int,
    k: int,
    site: Seq<char>,
    user: Seq<char>,
) -> bool {
    &&& k < n
    &&& names(lines, k, site, user)
    &&& forall|later: int| k < later < n ==> !names(lines, later, site, user)
}

/// `store` is what the first `n` lines import to under `key`: it keeps a
/// credential exactly for the sites and users that they name, and each is
/// that of the last line that names it, with its password sealed under `key`.
pub open spec fn imported(store: StoreView, lines: Seq<Seq<char>>, n: int, key: Seq<u8>) -> bool {
    &&& forall|site: Seq<char>, user: Seq<char>| #[trigger]
        holds(store, site, user) <==> named_before(lines, n, site, user)
    &&& forall|k: int, site: Seq<char>, user: Seq<char>| #[trigger]
        is_latest(lines, n, k, site, user) ==> store[site][user].username == parsed_line(
            lines[k],
        )->0.username && open_envelope(store[site][user].password, key) == Ok::<
            Seq<char>,
            CryptoError,
        >(parsed_line(lines[k])->0.password)
}

/// What is wrong with a line, if anything, given its number.
pub open spec fn line_fault(line: Seq<char>, line_number: usize) -> Option<ImportError> {
    match parsed_line(line) {
        None => Some(ImportError::MalformedLine { line_number }),
        Some(record) => if fits_envelope(record.password) {
            None
        } else {
            Some(ImportError::PasswordTooLong { line_number })
        },
    }
}

/// Line `k`, counted from zero, is the first with a fault, and `fault` is it.
pub open spec fn first_fault(lines: Seq<Seq<char>>, k: int, fault: ImportError) -> bool {
    &&& 0 <= k < lines.len()
    &&& line_fault(lines[k], (k + 1) as usize) == Some(fault)
    &&& forall|j: int| 0 <= j < k ==> line_fault(#[trigger] lines[j], (j + 1) as usize) is None
}

/// `fault` is the fault of the first faulty line of `lines`.
pub open spec fn stopped_by(lines: Seq<Seq<char>>, fault: ImportError) -> bool {
    exists|k: int| first_fault(lines, k, fault)
}

/// Importing one more line sets the credential that the line names.
pub proof fn lemma_import_step(
    store: StoreView,
    lines: Seq<Seq<char>>,
    n: int,
    key: Seq<u8>,
    credential: CredentialView,
)
    requires
        0 <= n < lines.len(),
        imported(store, lines, n, key),
        parsed_line(lines[n]) is Some,
        credential.username == parsed_line(lines[n])->0.username,
        open_envelope(credential.password, key) == Ok::<Seq<char>, CryptoError>(
            parsed_line(lines[n])->0.password,
        ),
    ensures
        imported(
            with_credential(
                store,
                parsed_line(lines[n])->0.site,
                parsed_line(lines[n])->0.user,
                credential,
            ),
            lines,
            n + 1,
            key,
        ),
{
    let record = parsed_line(lines[n])->0;
    let after = with_credential(store, record.site, record.user, credential);
    lemma_with_credential(store, record.site, record.user, credential);
    assert forall|site: Seq<char>, user: Seq<char>| #[trigger]
        holds(after, site, user) <==> named_before(lines, n + 1, site, user) by {
        if holds(after, site, user) {
            if site == record.site && user == record.user {
                assert(names(lines, n, site, user));
            } else {
                assert(holds(store, site, user));
                assert(named_before(lines, n, site, user));
                let k = choose|k: int| k < n && names(lines, k, site, user);
                assert(k < n + 1 && names(lines, k, site, user));
            }
        }
        if named_before(lines, n + 1, site, user) {
            let k = choose|k: int| k < n + 1 && names(lines, k, site, user);
            if k < n {
                assert(named_before(lines, n, site, user));
                assert(holds(store, site, user));
            }
        }
    }
    assert forall|k: int, site: Seq<char>, user: Seq<char>| #[trigger]
        is_latest(lines, n + 1, k, site, user) implies after[site][user].username == parsed_line(
        lines[k],
    )->0.username && open_envelope(after[site][user].password, key) == Ok::<
        Seq<char>,
        CryptoError,
    >(parsed_line(lines[k])->0.password) by {
        if k < n {
            assert(!names(lines, n, site, user));
            assert(is_latest(lines, n, k, site, user));
            assert(named_before(lines, n, site, user));
            assert(holds(store, site, user));
        }
    }
}

/// Builds a store from a feed, sealing every password under `master_key`.
/// Lines are taken in order, and a later line for the same site and user
/// replaces an earlier one. The first faulty line stops the import.
pub fn populate_db(feed: &str, master_key: &[u8; 32]) -> (outcome: Result<
    CredentialStore,
    ImportError,
>)
    ensures
        outcome is Ok <==> forall|k: int|
            0 <= k < lines_of(feed@).len() ==> line_fault(
                #[trigger] lines_of(feed@)[k],
                (k + 1) as usize,
            ) is None,
        outcome is Ok ==> outcome->Ok_0.wf() && imported(
            outcome->Ok_0@,
            lines_of(feed@),
            lines_of(feed@).len() as int,
            master_key@,
        ),
        outcome is Err ==> stopped_by(lines_of(feed@), outcome->Err_0),
{
    let chars = chars_of(feed);
    let length = chars.len();
    let ghost lines = lines_of(feed@);
    let mut store = CredentialStore::new();
    let mut position: usize = 0;
    let mut count: usize = 0;
    let ghost mut done: Seq<Seq<char>> = Seq::empty();
    assert(lines =~= done + lines_from(feed@, 0));
    while position < length
        invariant
            chars@ == feed@,
            length == chars@.len(),
            lines == lines_of(feed@),
            position <= length,
            count == done.len(),
            count <= position,
            lines == done + lines_from(feed@, position as int),
            store.wf(),
            imported(store@, lines, count as int, master_key@),
            forall|j: int|
                0 <= j < count ==> line_fault(#[trigger] lines[j], (j + 1) as usize) is None,
        decreases length - position,
    {
        let end = scan_line(&chars, position);
        let line = feed.substring_char(position, end);
        let line_number: usize = count + 1;
        proof {
            let rest = lines_from(feed@, position as int);
            assert(rest[0] == line@);
            assert(lines[count as int] == line@);
        }
        let parsed = parse_line(line);
        if parsed.is_none() {
            let fault = ImportError::MalformedLine { line_number };
            assert(first_fault(lines_of(feed@), count as int, fault));
            assert(stopped_by(lines_of(feed@), fault));
            return Err(fault);
        }
        let record = parsed.unwrap();
        let sealed = encrypt(record.password.as_str(), master_key);
        if sealed.is_err() {
            let fault = ImportError::PasswordTooLong { line_number };
            assert(first_fault(lines_of(feed@), count as int, fault));
            assert(stopped_by(lines_of(feed@), fault));
            return Err(fault);
        }
        let envelope = sealed.unwrap();
        let credential = Credential { username: record.username, password: envelope };
        proof {
            lemma_import_step(store@, lines, count as int, master_key@, credential@);
        }
        store.put(record.site, record.user, credential);
        proof {
            let next = if end < length {
                end + 1
            } else {
                length as int
            };
            assert(lines_from(feed@, length as int) =~= Seq::<Seq<char>>::empty());
            assert(lines =~= done.push(line@) + lines_from(feed@, next));
            done = done.push(line@);
        }
        count = count + 1;
        position = if end < length {
            end + 1
        } else {
            length
        };
    }
    proof {
        assert(lines_from(feed@, position as int) =~= Seq::<Seq<char>>::empty());
        assert(lines =~= done);
    }
    Ok(store)
}

} // verus!
