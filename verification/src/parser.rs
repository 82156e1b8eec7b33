//! Parsing of word books: plain text, CSV and (through `json`) JSON payloads.

use vstd::prelude::*;
use crate::json::{book_result_view, json_document, json_item_entry, json_items, json_payload_book, parse_json_book};
use crate::text::{is_ws, lemma_find_char_is, lemma_find_double_space_is, lemma_trim_keeps_first, is_trimmed, lemma_trim_is_trimmed, chars_of, find_char, find_char_in, find_double_space, find_double_space_in, string_of, trim, trim_range};

verus! {

broadcast use vstd::string::group_string_axioms;

/// One word of a book: the headword, its meaning and the source text it came from.
pub struct WordEntry {
    pub word: String,
    pub meaning: String,
    pub raw: String,
}

/// An entry as `(word, meaning, raw)` character sequences.
pub type EntryView = (Seq<char>, Seq<char>, Seq<char>);

impl View for WordEntry {
    type V = EntryView;

    open spec fn view(&self) -> EntryView {
        (self.word@, self.meaning@, self.raw@)
    }
}

impl WordEntry {
    pub fn new(word: String, meaning: String, raw: String) -> (e: WordEntry)
        ensures
            e.word == word,
            e.meaning == meaning,
            e.raw == raw,
    {
        WordEntry { word, meaning, raw }
    }
}

pub open spec fn entries_view(v: Seq<WordEntry>) -> Seq<EntryView> {
    v.map_values(|e: WordEntry| e@)
}

pub open spec fn opt_view(o: Option<WordEntry>) -> Option<EntryView> {
    match o {
        Some(e) => Some(e@),
        None => None,
    }
}

pub open spec fn opt_seq<A>(o: Option<A>) -> Seq<A> {
    match o {
        Some(a) => seq![a],
        None => Seq::empty(),
    }
}

/// Word and meaning of a trimmed, non-empty text line: split at the first tab,
/// else at the first two consecutive spaces, else at the first space; a line
/// without any of them is a word with an empty meaning.
pub open spec fn split_text_line(raw: Seq<char>) -> (Seq<char>, Seq<char>) {
    let t = find_char(raw, '\t');
    let d = find_double_space(raw);
    let p = find_char(raw, ' ');
    if t < raw.len() {
        (trim(raw.take(t as int)), trim(raw.skip(t + 1 as int)))
    } else if d < raw.len() {
        (trim(raw.take(d as int)), trim(raw.skip(d + 2 as int)))
    } else if p < raw.len() {
        (trim(raw.take(p as int)), trim(raw.skip(p + 1 as int)))
    } else {
        (raw, Seq::empty())
    }
}

/// The entry of one text line: blank lines and `#` comments give none, nor does an empty word.
pub open spec fn text_line_entry(line: Seq<char>) -> Option<EntryView> {
    let raw = trim(line);
    if raw.len() == 0 || raw[0] == '#' {
        None
    } else {
        let (w, m) = split_text_line(raw);
        if w.len() == 0 {
            None
        } else {
            Some((w, m, raw))
        }
    }
}

/// The entry of one CSV line: the word is the text before the first comma, the
/// meaning everything after it, both trimmed; blank lines and empty words give none.
pub open spec fn csv_line_entry(line: Seq<char>) -> Option<EntryView> {
    let t = trim(line);
    let c = find_char(t, ',');
    let w = trim(t.take(c as int));
    let m = if c < t.len() {
        trim(t.skip(c + 1 as int))
    } else {
        Seq::empty()
    };
    if t.len() == 0 || w.len() == 0 {
        None
    } else {
        Some((w, m, t))
    }
}

/// Entries of a text book: one per `'\n'`-separated line that yields one, in order.
pub open spec fn text_book(s: Seq<char>) -> Seq<EntryView>
    decreases s.len(),
{
    let i = find_char(s, '\n');
    let head = opt_seq(text_line_entry(s.take(i as int)));
    if i < s.len() {
        head + text_book(s.skip(i + 1 as int))
    } else {
        head
    }
}

/// Entries of a CSV book: one per `'\n'`-separated line that yields one, in order.
pub open spec fn csv_book(s: Seq<char>) -> Seq<EntryView>
    decreases s.len(),
{
    let i = find_char(s, '\n');
    let head = opt_seq(csv_line_entry(s.take(i as int)));
    if i < s.len() {
        head + csv_book(s.skip(i + 1 as int))
    } else {
        head
    }
}

/// The entry of the text line `cs[lo..hi]`.
fn text_line_entry_at(cs: &Vec<char>, lo: usize, hi: usize) -> (r: Option<WordEntry>)
    requires
        lo <= hi <= cs.len(),
    ensures
        opt_view(r) == text_line_entry(cs@.subrange(lo as int, hi as int)),
{
    let (a, b) = trim_range(cs, lo, hi);
    let ghost raw = cs@.subrange(a as int, b as int);
    if a == b || cs[a] == '#' {
        return None;
    }
    let t = find_char_in(cs, a, b, '\t');
    let d = find_double_space_in(cs, a, b);
    let p = find_char_in(cs, a, b, ' ');
    let (wa, wb, ma, mb) = if t < b {
        let (wa, wb) = trim_range(cs, a, t);
        let (ma, mb) = trim_range(cs, t + 1, b);
        proof {
            assert(raw.take(t - a) == cs@.subrange(a as int, t as int));
            assert(raw.skip(t - a + 1) == cs@.subrange(t + 1, b as int));
        }
        (wa, wb, ma, mb)
    } else if d < b {
        let (wa, wb) = trim_range(cs, a, d);
        let (ma, mb) = trim_range(cs, d + 2, b);
        proof {
            assert(raw.take(d - a) == cs@.subrange(a as int, d as int));
            assert(raw.skip(d - a + 2) == cs@.subrange(d + 2, b as int));
        }
        (wa, wb, ma, mb)
    } else if p < b {
        let (wa, wb) = trim_range(cs, a, p);
        let (ma, mb) = trim_range(cs, p + 1, b);
        proof {
            assert(raw.take(p - a) == cs@.subrange(a as int, p as int));
            assert(raw.skip(p - a + 1) == cs@.subrange(p + 1, b as int));
        }
        (wa, wb, ma, mb)
    } else {
        (a, b, b, b)
    };
    if wa == wb {
        return None;
    }
    Some(WordEntry::new(string_of(cs, wa, wb), string_of(cs, ma, mb), string_of(cs, a, b)))
}

/// The entry of the CSV line `cs[lo..hi]`.
fn csv_line_entry_at(cs: &Vec<char>, lo: usize, hi: usize) -> (r: Option<WordEntry>)
    requires
        lo <= hi <= cs.len(),
    ensures
        opt_view(r) == csv_line_entry(cs@.subrange(lo as int, hi as int)),
{
    let (a, b) = trim_range(cs, lo, hi);
    let ghost t = cs@.subrange(a as int, b as int);
    if a == b {
        return None;
    }
    let c = find_char_in(cs, a, b, ',');
    let (wa, wb) = trim_range(cs, a, c);
    assert(t.take(c - a) == cs@.subrange(a as int, c as int));
    let (ma, mb) = if c < b {
        assert(t.skip(c - a + 1) == cs@.subrange(c + 1, b as int));
        trim_range(cs, c + 1, b)
    } else {
        (b, b)
    };
    if wa == wb {
        return None;
    }
    Some(WordEntry::new(string_of(cs, wa, wb), string_of(cs, ma, mb), string_of(cs, a, b)))
}

proof fn lemma_book_step(s: Seq<char>, start: int, end: int)
    requires
        0 <= start <= end <= s.len(),
        end - start == find_char(s.skip(start), '\n'),
    ensures
        s.skip(start).take(end - start) == s.subrange(start, end),
        end < s.len() ==> s.skip(start).skip(end - start + 1) == s.skip(end + 1),
{
    assert(s.skip(start).take(end - start) =~= s.subrange(start, end));
    if end < s.len() {
        assert(s.skip(start).skip(end - start + 1) =~= s.skip(end + 1));
    }
}

/// Parses a plain-text book: one entry per non-blank line that is not a `#` comment.
pub fn parse_text_book(payload: &str) -> (res: Result<Vec<WordEntry>, String>)
    ensures
        res matches Ok(v) && entries_view(v@) == text_book(payload@),
{
    let cs = chars_of(payload);
    let n = cs.len();
    let mut rows: Vec<WordEntry> = Vec::new();
    let mut start: usize = 0;
    assert(cs@.skip(0) =~= cs@);
    loop
        invariant_except_break
            start <= n == cs.len(),
            entries_view(rows@) + text_book(cs@.skip(start as int)) == text_book(cs@),
        ensures
            entries_view(rows@) == text_book(cs@),
        decreases n - start,
    {
        let end = find_char_in(&cs, start, n, '\n');
        let ghost s = cs@.skip(start as int);
        let ghost old_rows = rows@;
        proof {
            assert(cs@.subrange(start as int, n as int) =~= s);
            lemma_book_step(cs@, start as int, end as int);
        }
        let e = text_line_entry_at(&cs, start, end);
        match e {
            Some(entry) => {
                rows.push(entry);
            },
            None => {},
        }
        assert(entries_view(rows@) =~= entries_view(old_rows) + opt_seq(text_line_entry(s.take(end - start))));
        if end == n {
            assert(entries_view(rows@) =~= text_book(cs@));
            break;
        }
        start = end + 1;
    }
    Ok(rows)
}

/// Parses a CSV book: one entry per non-blank line, the word before the first comma.
pub fn parse_csv_book(payload: &str) -> (res: Result<Vec<WordEntry>, String>)
    ensures
        res matches Ok(v) && entries_view(v@) == csv_book(payload@),
{
    let cs = chars_of(payload);
    let n = cs.len();
    let mut rows: Vec<WordEntry> = Vec::new();
    let mut start: usize = 0;
    assert(cs@.skip(0) =~= cs@);
    loop
        invariant_except_break
            start <= n == cs.len(),
            entries_view(rows@) + csv_book(cs@.skip(start as int)) == csv_book(cs@),
        ensures
            entries_view(rows@) == csv_book(cs@),
        decreases n - start,
    {
        let end = find_char_in(&cs, start, n, '\n');
        let ghost s = cs@.skip(start as int);
        let ghost old_rows = rows@;
        proof {
            assert(cs@.subrange(start as int, n as int) =~= s);
            lemma_book_step(cs@, start as int, end as int);
        }
        let e = csv_line_entry_at(&cs, start, end);
        match e {
            Some(entry) => {
                rows.push(entry);
            },
            None => {},
        }
        assert(entries_view(rows@) =~= entries_view(old_rows) + opt_seq(csv_line_entry(s.take(end - start))));
        if end == n {
            assert(entries_view(rows@) =~= csv_book(cs@));
            break;
        }
        start = end + 1;
    }
    Ok(rows)
}

} // verus!

verus! {

/// `e` spells `lower` with each letter in either case (`upper` holds the capitals).
pub open spec fn same_ignoring_case(e: Seq<char>, lower: Seq<char>, upper: Seq<char>) -> bool {
    &&& e.len() == lower.len()
    &&& forall|i: int| 0 <= i < e.len() ==> e[i] == lower[i] || e[i] == upper[i]
}

/// How a payload is read: by the extension of its file name, compared ignoring case.
pub enum BookFormat {
    Json,
    Csv,
    Text,
}

/// The format for a file whose extension is `ext` (none: plain text).
pub open spec fn extension_format(ext: Option<Seq<char>>) -> BookFormat {
    match ext {
        Some(e) => if same_ignoring_case(e, seq!['j', 's', 'o', 'n'], seq!['J', 'S', 'O', 'N']) {
            BookFormat::Json
        } else if same_ignoring_case(e, seq!['c', 's', 'v'], seq!['C', 'S', 'V']) {
            BookFormat::Csv
        } else {
            BookFormat::Text
        },
        None => BookFormat::Text,
    }
}

/// What any platform's `Path::extension` may give for `path`: nothing, or a
/// text without `.` that stands right after a `.` in the path.
pub open spec fn extension_fits(path: Seq<char>, ext: Option<Seq<char>>) -> bool {
    ext matches Some(e) ==> {
        &&& !e.contains('.')
        &&& exists|i: int|
            0 <= i && i + e.len() + 1 <= path.len() && #[trigger] path.subrange(i, i + e.len() + 1)
                == seq!['.'] + e
    }
}

/// What any platform's `Path::file_name` may give for `path`: nothing, or a
/// non-empty piece of the path.
pub open spec fn file_name_fits(path: Seq<char>, name: Option<Seq<char>>) -> bool {
    name matches Some(n) ==> {
        &&& n.len() > 0
        &&& exists|i: int|
            0 <= i && i + n.len() <= path.len() && #[trigger] path.subrange(i, i + n.len()) == n
    }
}

/// Index of the last `c` in `s`, or -1.
pub open spec fn rfind_char(s: Seq<char>, c: char) -> int
    decreases s.len(),
{
    if s.len() == 0 {
        -1
    } else if s.last() == c {
        s.len() - 1
    } else {
        rfind_char(s.drop_last(), c)
    }
}

/// The text after the last `/` of `p` (all of `p` when it has none).
pub open spec fn last_part(p: Seq<char>) -> Seq<char> {
    p.skip(rfind_char(p, '/') + 1)
}

/// A path that every platform reads alike: no `\`, no `:`, not starting
/// with `//`, and ending in a component that is neither empty, `.` nor `..`.
/// Its file name is its last `/`-separated part.
pub open spec fn plain_path(p: Seq<char>) -> bool {
    &&& !p.contains('\\')
    &&& !p.contains(':')
    &&& !(p.len() >= 2 && p[0] == '/' && p[1] == '/')
    &&& last_part(p).len() > 0
    &&& last_part(p) != seq!['.']
    &&& last_part(p) != seq!['.', '.']
}

/// The extension of the file name `n`: the text after its last `.`, unless
/// it has none, that `.` is its first character, or `n` is `..`.
pub open spec fn plain_extension(n: Seq<char>) -> Option<Seq<char>> {
    let k = rfind_char(n, '.');
    if k <= 0 || n == seq!['.', '.'] {
        None
    } else {
        Some(n.skip(k + 1))
    }
}

/// `Path::extension` (of `Path::new(path)`), as text. Claimed on every
/// platform: the extension has no `.` and follows a `.` in the path; for a
/// plain path, it is the extension of the path's last part. Which part of
/// another path it is taken from (that depends on the platform's
/// separators and prefixes) is left unsaid.
#[verifier::external_body]
fn path_extension(path: &str) -> (r: Option<String>)
    ensures
        extension_fits(path@, match r {
            Some(e) => Some(e@),
            None => None,
        }),
        plain_path(path@) ==> match r {
            Some(e) => plain_extension(last_part(path@)) == Some(e@),
            None => plain_extension(last_part(path@)) is None,
        },
{
    std::path::Path::new(path).extension().and_then(|e| e.to_str()).map(|e| e.to_string())
}

/// `Path::file_name` (of `Path::new(path)`), as text. Claimed on every
/// platform: the name is a non-empty piece of the path, and the empty path
/// has none; for a plain path, it is the path's last part. Which piece of
/// another path it is (that depends on the platform's separators and
/// prefixes) is left unsaid.
#[verifier::external_body]
fn path_file_name(path: &str) -> (r: Option<String>)
    ensures
        file_name_fits(path@, match r {
            Some(n) => Some(n@),
            None => None,
        }),
        match r {
            Some(n) => path@.len() > 0 && (plain_path(path@) ==> n@ == last_part(path@)),
            None => !plain_path(path@),
        },
{
    std::path::Path::new(path).file_name().and_then(|n| n.to_str()).map(|n| n.to_string())
}

/// The book that `payload`, read in `format`, holds, or the error message.
pub open spec fn book_payload(format: BookFormat, payload: Seq<char>) -> Result<
    Seq<EntryView>,
    Seq<char>,
> {
    match format {
        BookFormat::Json => json_payload_book(payload),
        BookFormat::Csv => Ok(csv_book(payload)),
        BookFormat::Text => Ok(text_book(payload)),
    }
}

fn text_is(e: &Vec<char>, lower: &[char], upper: &[char]) -> (r: bool)
    requires
        lower@.len() == upper@.len(),
    ensures
        r == same_ignoring_case(e@, lower@, upper@),
{
    if e.len() != lower.len() {
        return false;
    }
    let mut i: usize = 0;
    while i < lower.len()
        invariant
            0 <= i <= lower@.len() == upper@.len() == e@.len(),
            forall|k: int| 0 <= k < i ==> e@[k] == lower@[k] || e@[k] == upper@[k],
        decreases lower.len() - i,
    {
        if e[i] != lower[i] && e[i] != upper[i] {
            return false;
        }
        i = i + 1;
    }
    true
}

/// The format for a file whose extension is `ext`: JSON or CSV when the
/// extension says so, in either case; plain text otherwise.
pub fn format_for_extension(ext: Option<&str>) -> (f: BookFormat)
    ensures
        f == extension_format(match ext {
            Some(e) => Some(e@),
            None => None,
        }),
{
    match ext {
        Some(e) => {
            let cs = chars_of(e);
            let json_lower = ['j', 's', 'o', 'n'];
            let json_upper = ['J', 'S', 'O', 'N'];
            let csv_lower = ['c', 's', 'v'];
            let csv_upper = ['C', 'S', 'V'];
            assert(json_lower@ =~= seq!['j', 's', 'o', 'n']);
            assert(json_upper@ =~= seq!['J', 'S', 'O', 'N']);
            assert(csv_lower@ =~= seq!['c', 's', 'v']);
            assert(csv_upper@ =~= seq!['C', 'S', 'V']);
            if text_is(&cs, &json_lower, &json_upper) {
                BookFormat::Json
            } else if text_is(&cs, &csv_lower, &csv_upper) {
                BookFormat::Csv
            } else {
                BookFormat::Text
            }
        },
        None => BookFormat::Text,
    }
}

/// The format in which a book named `filename` is read: the one its
/// extension (as the platform's `Path::extension` finds it) calls for.
pub fn book_format_of(filename: &str) -> (f: BookFormat)
    ensures
        exists|ext: Option<Seq<char>>| extension_fits(filename@, ext) && f == extension_format(ext),
        plain_path(filename@) ==> f == extension_format(plain_extension(last_part(filename@))),
{
    let ext = path_extension(filename);
    let f = match &ext {
        Some(e) => format_for_extension(Some(e.as_str())),
        None => format_for_extension(None),
    };
    let ghost g = match ext {
        Some(e) => Some(e@),
        None => None,
    };
    assert(extension_fits(filename@, g) && f == extension_format(g));
    f
}

/// Reads a payload in the given format.
pub fn parse_book_as(format: BookFormat, payload: &str) -> (res: Result<Vec<WordEntry>, String>)
    ensures
        book_result_view(res) == book_payload(format, payload@),
{
    match format {
        BookFormat::Json => parse_json_book(payload),
        BookFormat::Csv => parse_csv_book(payload),
        BookFormat::Text => parse_text_book(payload),
    }
}

/// Parses the contents of a word-book file, choosing JSON, CSV or plain text
/// by the file name's extension (plain text when it has none).
pub fn parse_book_payload(filename: &str, payload: &str) -> (res: Result<Vec<WordEntry>, String>)
    ensures
        exists|ext: Option<Seq<char>>|
            extension_fits(filename@, ext) && book_result_view(res) == book_payload(
                extension_format(ext),
                payload@,
            ),
        plain_path(filename@) ==> book_result_view(res) == book_payload(
            extension_format(plain_extension(last_part(filename@))),
            payload@,
        ),
{
    let format = book_format_of(filename);
    parse_book_as(format, payload)
}

/// What importing a book read in `format` yields: its entries, or an error
/// when the payload cannot be read as a book or holds no word.
pub open spec fn import_result(format: BookFormat, payload: Seq<char>) -> Result<
    Seq<EntryView>,
    Seq<char>,
> {
    match book_payload(format, payload) {
        Ok(es) => if es.len() == 0 {
            Err("没有解析到任何单词"@)
        } else {
            Ok(es)
        },
        Err(e) => Err(e),
    }
}

/// Reads the contents of an imported book file; a file without any word is refused.
pub fn parse_import(filename: &str, payload: &str) -> (res: Result<Vec<WordEntry>, String>)
    ensures
        exists|ext: Option<Seq<char>>|
            extension_fits(filename@, ext) && book_result_view(res) == import_result(
                extension_format(ext),
                payload@,
            ),
        plain_path(filename@) ==> book_result_view(res) == import_result(
            extension_format(plain_extension(last_part(filename@))),
            payload@,
        ),
{
    let format = book_format_of(filename);
    match parse_book_as(format, payload) {
        Ok(entries) => {
            if entries.len() == 0 {
                Err(String::from_str("没有解析到任何单词"))
            } else {
                Ok(entries)
            }
        },
        Err(e) => Err(e),
    }
}

/// The file name under which a book file is read: that of `file_path` (as the
/// platform's `Path::file_name` finds it), or `unknown.txt` when the path names no file.
pub fn import_file_name(file_path: &str) -> (r: String)
    ensures
        exists|name: Option<Seq<char>>|
            file_name_fits(file_path@, name) && r@ == (match name {
                Some(n) => n,
                None => "unknown.txt"@,
            }),
        file_path@.len() == 0 ==> r@ == "unknown.txt"@,
        plain_path(file_path@) ==> r@ == last_part(file_path@),
{
    let name = path_file_name(file_path);
    let ghost g = match &name {
        Some(n) => Some(n@),
        None => None,
    };
    let r = match name {
        Some(n) => n,
        None => String::from_str("unknown.txt"),
    };
    assert(file_name_fits(file_path@, g));
    r
}

/// Every entry has a non-empty word, and neither its word nor its meaning has
/// whitespace at either end.
pub open spec fn entries_well_formed(es: Seq<EntryView>) -> bool {
    forall|i: int| 0 <= i < es.len() ==> {
        &&& (#[trigger] es[i]).0.len() > 0
        &&& is_trimmed(es[i].0)
        &&& is_trimmed(es[i].1)
    }
}

pub open spec fn entry_well_formed(o: Option<EntryView>) -> bool {
    o matches Some(e) ==> e.0.len() > 0 && is_trimmed(e.0) && is_trimmed(e.1)
}

proof fn lemma_well_formed_concat(a: Seq<EntryView>, b: Seq<EntryView>)
    requires
        entries_well_formed(a),
        entries_well_formed(b),
    ensures
        entries_well_formed(a + b),
{
    assert forall|i: int| 0 <= i < (a + b).len() implies {
        &&& (#[trigger] (a + b)[i]).0.len() > 0
        &&& is_trimmed((a + b)[i].0)
        &&& is_trimmed((a + b)[i].1)
    } by {
        if i < a.len() {
            assert((a + b)[i] == a[i]);
        } else {
            assert((a + b)[i] == b[i - a.len()]);
        }
    }
}

proof fn lemma_opt_well_formed(o: Option<EntryView>)
    requires
        entry_well_formed(o),
    ensures
        entries_well_formed(opt_seq(o)),
{
}

proof fn lemma_text_entry_well_formed(line: Seq<char>)
    ensures
        entry_well_formed(text_line_entry(line)),
{
    let raw = trim(line);
    lemma_trim_is_trimmed(line);
    let t = find_char(raw, '\t');
    let d = find_double_space(raw);
    let p = find_char(raw, ' ');
    lemma_trim_is_trimmed(raw.take(t as int));
    lemma_trim_is_trimmed(raw.skip(t + 1 as int));
    lemma_trim_is_trimmed(raw.take(d as int));
    lemma_trim_is_trimmed(raw.skip(d + 2 as int));
    lemma_trim_is_trimmed(raw.take(p as int));
    lemma_trim_is_trimmed(raw.skip(p + 1 as int));
}

proof fn lemma_csv_entry_well_formed(line: Seq<char>)
    ensures
        entry_well_formed(csv_line_entry(line)),
{
    let t = trim(line);
    let c = find_char(t, ',');
    lemma_trim_is_trimmed(t.take(c as int));
    lemma_trim_is_trimmed(t.skip(c + 1 as int));
}

proof fn lemma_text_book_well_formed(s: Seq<char>)
    ensures
        entries_well_formed(text_book(s)),
    decreases s.len(),
{
    let i = find_char(s, '\n');
    lemma_text_entry_well_formed(s.take(i as int));
    lemma_opt_well_formed(text_line_entry(s.take(i as int)));
    if i < s.len() {
        lemma_text_book_well_formed(s.skip(i + 1 as int));
        lemma_well_formed_concat(opt_seq(text_line_entry(s.take(i as int))), text_book(s.skip(i + 1 as int)));
    }
}

proof fn lemma_csv_book_well_formed(s: Seq<char>)
    ensures
        entries_well_formed(csv_book(s)),
    decreases s.len(),
{
    let i = find_char(s, '\n');
    lemma_csv_entry_well_formed(s.take(i as int));
    lemma_opt_well_formed(csv_line_entry(s.take(i as int)));
    if i < s.len() {
        lemma_csv_book_well_formed(s.skip(i + 1 as int));
        lemma_well_formed_concat(opt_seq(csv_line_entry(s.take(i as int))), csv_book(s.skip(i + 1 as int)));
    }
}

proof fn lemma_json_entries_well_formed(items: Seq<crate::json::JsonValue>)
    ensures
        entries_well_formed(items.filter_map(|v: crate::json::JsonValue| json_item_entry(v))),
    decreases items.len(),
{
    if items.len() > 0 {
        lemma_json_entries_well_formed(items.drop_last());
        let e = json_item_entry(items.last());
        match items.last() {
            crate::json::JsonValue::Object(o) => {
                lemma_trim_is_trimmed(crate::json::text_of(crate::json::first_member(o.fields@, crate::json::word_keys())));
                lemma_trim_is_trimmed(crate::json::text_of(crate::json::first_member(o.fields@, crate::json::meaning_keys())));
            },
            _ => {},
        }
        match e {
            Some(x) => {
                lemma_well_formed_concat(items.drop_last().filter_map(|v: crate::json::JsonValue| json_item_entry(v)), seq![x]);
            },
            None => {},
        }
    }
}

/// Whatever the format, every word read from a book is non-empty, and neither
/// a word nor a meaning keeps surrounding whitespace.
pub proof fn parsed_words_are_trimmed_and_non_empty(format: BookFormat, payload: Seq<char>)
    ensures
        book_payload(format, payload) matches Ok(es) ==> entries_well_formed(es),
{
    match format {
        BookFormat::Json => {
            match json_document(payload) {
                Ok(doc) => {
                    match json_items(doc) {
                        Some(items) => lemma_json_entries_well_formed(items),
                        None => {},
                    }
                },
                Err(_) => {},
            }
        },
        BookFormat::Csv => lemma_csv_book_well_formed(payload),
        BookFormat::Text => lemma_text_book_well_formed(payload),
    }
}

proof fn lemma_raw_starts_solid(line: Seq<char>)
    requires
        trim(line).len() > 0,
    ensures
        !is_ws(trim(line)[0]),
{
    lemma_trim_is_trimmed(line);
}

/// A text line with a tab: the word is the trimmed text before the first
/// tab, the meaning the trimmed text after it (further tabs included), and
/// the raw text the trimmed line.
pub proof fn text_line_tab_law(line: Seq<char>, t: int)
    requires
        trim(line).len() > 0,
        trim(line)[0] != '#',
        0 <= t < trim(line).len(),
        trim(line)[t] == '\t',
        forall|j: int| 0 <= j < t ==> #[trigger] trim(line)[j] != '\t',
    ensures
        text_line_entry(line) == Some(
            (trim(trim(line).take(t)), trim(trim(line).skip(t + 1)), trim(line)),
        ),
{
    let raw = trim(line);
    lemma_find_char_is(raw, '\t', t);
    lemma_raw_starts_solid(line);
    assert(t > 0);
    assert(raw.take(t)[0] == raw[0]);
    lemma_trim_keeps_first(raw.take(t));
}

/// A text line without a tab but with two consecutive spaces: the word is the
/// trimmed text before the first pair of spaces, the meaning the trimmed text after it.
pub proof fn text_line_double_space_law(line: Seq<char>, d: int)
    requires
        trim(line).len() > 0,
        trim(line)[0] != '#',
        !trim(line).contains('\t'),
        0 <= d && d + 1 < trim(line).len(),
        trim(line)[d] == ' ' && trim(line)[d + 1] == ' ',
        forall|j: int| 0 <= j < d ==> !(#[trigger] trim(line)[j] == ' ' && trim(line)[j + 1] == ' '),
    ensures
        text_line_entry(line) == Some(
            (trim(trim(line).take(d)), trim(trim(line).skip(d + 2)), trim(line)),
        ),
{
    let raw = trim(line);
    assert forall|j: int| 0 <= j < raw.len() implies #[trigger] raw[j] != '\t' by {
        if raw[j] == '\t' {
            assert(raw.contains('\t'));
        }
    }
    lemma_find_char_is(raw, '\t', raw.len() as int);
    lemma_find_double_space_is(raw, d);
    lemma_raw_starts_solid(line);
    assert(d > 0);
    assert(raw.take(d)[0] == raw[0]);
    lemma_trim_keeps_first(raw.take(d));
}

/// A text line without a tab or two consecutive spaces but with a space: the
/// word is the text before the first space, the meaning the trimmed text after it.
pub proof fn text_line_space_law(line: Seq<char>, p: int)
    requires
        trim(line).len() > 0,
        trim(line)[0] != '#',
        !trim(line).contains('\t'),
        forall|j: int| 0 <= j && j + 1 < trim(line).len() ==> !(#[trigger] trim(line)[j] == ' ' && trim(line)[j + 1] == ' '),
        0 <= p < trim(line).len(),
        trim(line)[p] == ' ',
        forall|j: int| 0 <= j < p ==> #[trigger] trim(line)[j] != ' ',
    ensures
        text_line_entry(line) == Some(
            (trim(trim(line).take(p)), trim(trim(line).skip(p + 1)), trim(line)),
        ),
{
    let raw = trim(line);
    assert forall|j: int| 0 <= j < raw.len() implies #[trigger] raw[j] != '\t' by {
        if raw[j] == '\t' {
            assert(raw.contains('\t'));
        }
    }
    lemma_find_char_is(raw, '\t', raw.len() as int);
    if raw.len() >= 2 {
        assert(!(raw[raw.len() - 2] == ' ' && raw[raw.len() - 1] == ' '));
    }
    lemma_find_double_space_is(raw, raw.len() as int);
    lemma_find_char_is(raw, ' ', p);
    lemma_raw_starts_solid(line);
    assert(p > 0);
    assert(raw.take(p)[0] == raw[0]);
    lemma_trim_keeps_first(raw.take(p));
}

/// A text line without tab or space is a word with an empty meaning.
pub proof fn text_line_bare_word_law(line: Seq<char>)
    requires
        trim(line).len() > 0,
        trim(line)[0] != '#',
        !trim(line).contains('\t'),
        !trim(line).contains(' '),
    ensures
        text_line_entry(line) == Some((trim(line), Seq::<char>::empty(), trim(line))),
{
    let raw = trim(line);
    assert forall|j: int| 0 <= j < raw.len() implies #[trigger] raw[j] != '\t' && raw[j] != ' ' by {
        if raw[j] == '\t' {
            assert(raw.contains('\t'));
        }
        if raw[j] == ' ' {
            assert(raw.contains(' '));
        }
    }
    lemma_find_char_is(raw, '\t', raw.len() as int);
    if raw.len() >= 2 {
        assert(raw[raw.len() - 2] != ' ');
    }
    lemma_find_double_space_is(raw, raw.len() as int);
    lemma_find_char_is(raw, ' ', raw.len() as int);
}

/// Blank lines and lines whose trimmed text starts with `#` give no entry.
pub proof fn text_line_skip_law(line: Seq<char>)
    requires
        trim(line).len() == 0 || trim(line)[0] == '#',
    ensures
        text_line_entry(line) is None,
{
}

/// A CSV line: the word is the trimmed text before the first comma, the
/// meaning the trimmed text after it (further commas included), the raw text
/// the trimmed line.
pub proof fn csv_line_comma_law(line: Seq<char>, c: int)
    requires
        0 <= c < trim(line).len(),
        trim(line)[c] == ',',
        forall|j: int| 0 <= j < c ==> #[trigger] trim(line)[j] != ',',
        trim(trim(line).take(c)).len() > 0,
    ensures
        csv_line_entry(line) == Some(
            (trim(trim(line).take(c)), trim(trim(line).skip(c + 1)), trim(line)),
        ),
{
    lemma_find_char_is(trim(line), ',', c);
}

/// A CSV line without a comma is a word with an empty meaning.
pub proof fn csv_line_no_comma_law(line: Seq<char>)
    requires
        trim(line).len() > 0,
        !trim(line).contains(','),
    ensures
        csv_line_entry(line) == Some((trim(line), Seq::<char>::empty(), trim(line))),
{
    let t = trim(line);
    assert forall|j: int| 0 <= j < t.len() implies #[trigger] t[j] != ',' by {
        if t[j] == ',' {
            assert(t.contains(','));
        }
    }
    lemma_find_char_is(t, ',', t.len() as int);
    assert(t.take(t.len() as int) =~= t);
    lemma_trim_is_trimmed(line);
    lemma_trim_keeps_first(t);
    lemma_trim_of_trimmed(t);
}

proof fn lemma_trim_of_trimmed(t: Seq<char>)
    requires
        t.len() > 0,
        !is_ws(t[0]),
        !is_ws(t.last()),
    ensures
        trim(t) == t,
{
    assert(t.skip(0) =~= t);
    assert(t.drop_last().len() < t.len());
    assert(t.take(t.len() as int) =~= t);
}

/// A blank CSV line gives no entry, nor does a line whose word is empty.
pub proof fn csv_line_skip_law(line: Seq<char>)
    requires
        trim(line).len() == 0 || trim(trim(line).take(find_char(trim(line), ',') as int)).len() == 0,
    ensures
        csv_line_entry(line) is None,
{
}

proof fn lemma_no_newline_find(a: Seq<char>, b: Seq<char>)
    requires
        !a.contains('\n'),
    ensures
        b.len() > 0 && b[0] == '\n' ==> find_char(a + b, '\n') == a.len(),
        find_char(a, '\n') == a.len(),
{
    assert forall|j: int| 0 <= j < a.len() implies #[trigger] a[j] != '\n' by {
        if a[j] == '\n' {
            assert(a.contains('\n'));
        }
    }
    lemma_find_char_is(a, '\n', a.len() as int);
    if b.len() > 0 && b[0] == '\n' {
        let s = a + b;
        assert forall|j: int| 0 <= j < a.len() implies #[trigger] s[j] != '\n' by {
            assert(s[j] == a[j]);
        }
        assert(s[a.len() as int] == '\n');
        lemma_find_char_is(s, '\n', a.len() as int);
    }
}

/// A book is read line by line: a payload without a line break gives the
/// entry of that one line (or none); a first line ended by `\n` gives its
/// entry, followed by the entries of the rest. So every line is read, in order.
pub proof fn books_read_line_by_line(line: Seq<char>, rest: Seq<char>)
    requires
        !line.contains('\n'),
    ensures
        text_book(line) == opt_seq(text_line_entry(line)),
        csv_book(line) == opt_seq(csv_line_entry(line)),
        text_book(line + seq!['\n'] + rest) == opt_seq(text_line_entry(line)) + text_book(rest),
        csv_book(line + seq!['\n'] + rest) == opt_seq(csv_line_entry(line)) + csv_book(rest),
{
    let s = line + seq!['\n'] + rest;
    lemma_no_newline_find(line, seq!['\n'] + rest);
    assert(line.take(line.len() as int) =~= line);
    assert(s =~= line + (seq!['\n'] + rest));
    assert(s.take(line.len() as int) =~= line);
    assert(s.skip(line.len() + 1 as int) =~= rest);
}

} // verus!
