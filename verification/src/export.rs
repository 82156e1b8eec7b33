//! CSV export of archived words.

use vstd::prelude::*;
use crate::num::{decimal, decimal_string};
use crate::rows::WordRow;
use crate::num::{digit_char, digits};
use crate::text::{chars_of, find_char, lemma_find_char_is, push_char};

verus! {

broadcast use vstd::string::group_string_axioms;

/// How one character is written inside a quoted CSV field: `"` doubled.
pub open spec fn csv_piece(c: char) -> Seq<char> {
    if c == '"' {
        seq!['"', '"']
    } else {
        seq![c]
    }
}

/// `s` with every `"` doubled, ready to stand between quotes in a CSV field.
pub open spec fn csv_quote(s: Seq<char>) -> Seq<char>
    decreases s.len(),
{
    if s.len() == 0 {
        Seq::empty()
    } else {
        csv_piece(s[0]) + csv_quote(s.drop_first())
    }
}

/// Reads back the text of a quoted CSV field: `""` stands for `"`.
pub open spec fn csv_unquote(t: Seq<char>) -> Seq<char>
    decreases t.len(),
{
    if t.len() == 0 {
        Seq::empty()
    } else if t.len() >= 2 && t[0] == '"' && t[1] == '"' {
        seq!['"'] + csv_unquote(t.skip(2))
    } else {
        seq![t[0]] + csv_unquote(t.skip(1))
    }
}

/// The archive time of a word, or nothing.
pub open spec fn opt_text(o: Option<String>) -> Seq<char> {
    match o {
        Some(s) => s@,
        None => Seq::empty(),
    }
}

/// One CSV line: `"word","meaning",seq,archived_at` and a newline.
pub open spec fn csv_record(w: WordRow) -> Seq<char> {
    seq!['"'] + csv_quote(w.word@) + seq!['"', ',', '"'] + csv_quote(w.meaning@) + seq!['"', ',']
        + decimal(w.seq as int) + seq![','] + opt_text(w.archived_at) + seq!['\n']
}

/// The CSV lines of `words`, in order.
pub open spec fn csv_records(words: Seq<WordRow>) -> Seq<char>
    decreases words.len(),
{
    if words.len() == 0 {
        Seq::empty()
    } else {
        csv_records(words.drop_last()) + csv_record(words.last())
    }
}

pub open spec fn csv_header() -> Seq<char> {
    "word,meaning,seq,archived_at\n"@
}

pub proof fn lemma_csv_quote_concat(a: Seq<char>, b: Seq<char>)
    ensures
        csv_quote(a + b) == csv_quote(a) + csv_quote(b),
    decreases a.len(),
{
    if a.len() == 0 {
        assert(a + b =~= b);
    } else {
        assert((a + b).drop_first() =~= a.drop_first() + b);
        lemma_csv_quote_concat(a.drop_first(), b);
        assert((a + b)[0] == a[0]);
    }
}

/// Reading a quoted field back gives the text that was written: the export
/// loses no character of a word or a meaning.
pub proof fn csv_unquote_undoes_quote(s: Seq<char>)
    ensures
        csv_unquote(csv_quote(s)) == s,
    decreases s.len(),
{
    if s.len() > 0 {
        let rest = csv_quote(s.drop_first());
        csv_unquote_undoes_quote(s.drop_first());
        let t = csv_piece(s[0]) + rest;
        if s[0] == '"' {
            assert(t[0] == '"' && t[1] == '"');
            assert(t.skip(2) =~= rest);
        } else {
            assert(t[0] == s[0]);
            assert(t.skip(1) =~= rest);
        }
        assert(s =~= seq![s[0]] + s.drop_first());
    }
}

/// Appends `csv_quote(s)` to `out`.
fn push_quoted(out: &mut String, s: &String)
    ensures
        final(out)@ == old(out)@ + csv_quote(s@),
{
    let cs = chars_of(s.as_str());
    let ghost start = out@;
    let mut i: usize = 0;
    while i < cs.len()
        invariant
            0 <= i <= cs.len(),
            cs@ == s@,
            out@ == start + csv_quote(cs@.take(i as int)),
        decreases cs.len() - i,
    {
        let c = cs[i];
        proof {
            lemma_csv_quote_concat(cs@.take(i as int), seq![c]);
            assert(cs@.take(i + 1) =~= cs@.take(i as int) + seq![c]);
            assert(seq![c].drop_first() =~= Seq::<char>::empty());
            assert(seq![c][0] == c);
            assert(csv_quote(Seq::<char>::empty()) =~= Seq::<char>::empty());
            assert(csv_quote(seq![c]) =~= csv_piece(c) + csv_quote(seq![c].drop_first()));
            assert(csv_quote(seq![c]) =~= csv_piece(c));
        }
        if c == '"' {
            push_char(out, '"');
            push_char(out, '"');
        } else {
            push_char(out, c);
        }
        assert(out@ =~= start + csv_quote(cs@.take(i + 1)));
        i = i + 1;
    }
    assert(cs@.take(cs.len() as int) =~= cs@);
}

/// Appends the CSV line of `w` to `out`.
fn push_record(out: &mut String, w: &WordRow)
    ensures
        final(out)@ == old(out)@ + csv_record(*w),
{
    let ghost start = out@;
    push_char(out, '"');
    push_quoted(out, &w.word);
    push_char(out, '"');
    push_char(out, ',');
    push_char(out, '"');
    let ghost mid = out@;
    assert(mid =~= start + seq!['"'] + csv_quote(w.word@) + seq!['"', ',', '"']);
    push_quoted(out, &w.meaning);
    push_char(out, '"');
    push_char(out, ',');
    let ghost mid2 = out@;
    assert(mid2 =~= mid + csv_quote(w.meaning@) + seq!['"', ',']);
    out.append(decimal_string(w.seq).as_str());
    push_char(out, ',');
    match &w.archived_at {
        Some(t) => out.append(t.as_str()),
        None => {},
    }
    push_char(out, '\n');
    assert(out@ =~= mid2 + decimal(w.seq as int) + seq![','] + opt_text(w.archived_at) + seq!['\n']);
    assert(out@ =~= start + csv_record(*w));
}

/// The CSV text of archived words: a header line, then one line per word with
/// the word and meaning quoted, the sequence number and the archive time.
pub fn archived_words_csv(words: &Vec<WordRow>) -> (csv: String)
    ensures
        csv@ == csv_header() + csv_records(words@),
{
    let mut csv = String::from_str("word,meaning,seq,archived_at\n");
    let mut i: usize = 0;
    while i < words.len()
        invariant
            0 <= i <= words.len(),
            csv@ == csv_header() + csv_records(words@.take(i as int)),
        decreases words.len() - i,
    {
        push_record(&mut csv, &words[i]);
        assert(words@.take(i + 1).drop_last() =~= words@.take(i as int));
        assert(csv@ =~= csv_header() + csv_records(words@.take(i + 1)));
        i = i + 1;
    }
    assert(words@.take(words.len() as int) =~= words@);
    csv
}

/// Reads a quoted field from `t`, the text after its opening quote: `""`
/// stands for `"` and a lone `"` closes the field. Gives the field's text and
/// what follows the closing quote.
pub open spec fn read_quoted(t: Seq<char>) -> (Seq<char>, Seq<char>)
    decreases t.len(),
{
    if t.len() == 0 {
        (Seq::empty(), Seq::empty())
    } else if t[0] == '"' {
        if t.len() >= 2 && t[1] == '"' {
            let r = read_quoted(t.skip(2));
            (seq!['"'] + r.0, r.1)
        } else {
            (Seq::empty(), t.skip(1))
        }
    } else {
        let r = read_quoted(t.skip(1));
        (seq![t[0]] + r.0, r.1)
    }
}

/// Reads an unquoted field from `t` up to `sep`: the field and what follows `sep`.
pub open spec fn read_plain(t: Seq<char>, sep: char) -> (Seq<char>, Seq<char>) {
    let i = find_char(t, sep);
    (t.take(i as int), t.skip(i + 1 as int))
}

/// Reads one exported line as a CSV reader does: a quoted field, a comma, a
/// quoted field, a comma, a field up to the next comma, and a field up to the
/// end of the line. Gives the four fields.
pub open spec fn read_record(line: Seq<char>) -> (Seq<char>, Seq<char>, Seq<char>, Seq<char>) {
    let (word, r1) = read_quoted(line.skip(1));
    let (meaning, r2) = read_quoted(r1.skip(2));
    let (seq_text, r3) = read_plain(r2.skip(1), ',');
    let (at, _rest) = read_plain(r3, '\n');
    (word, meaning, seq_text, at)
}

proof fn lemma_read_quoted(s: Seq<char>, rest: Seq<char>)
    requires
        rest.len() == 0 || rest[0] != '"',
    ensures
        read_quoted(csv_quote(s) + seq!['"'] + rest) == (s, rest),
    decreases s.len(),
{
    let t = csv_quote(s) + seq!['"'] + rest;
    if s.len() == 0 {
        assert(csv_quote(s) =~= Seq::<char>::empty());
        assert(t =~= seq!['"'] + rest);
        assert(t.skip(1) =~= rest);
        assert(s =~= Seq::<char>::empty());
    } else {
        let tail = csv_quote(s.drop_first()) + seq!['"'] + rest;
        lemma_read_quoted(s.drop_first(), rest);
        assert(s =~= seq![s[0]] + s.drop_first());
        if s[0] == '"' {
            assert(t =~= seq!['"', '"'] + tail);
            assert(t.skip(2) =~= tail);
        } else {
            assert(t =~= seq![s[0]] + tail);
            assert(t.skip(1) =~= tail);
        }
    }
}

proof fn lemma_digits_are_digits(n: nat)
    ensures
        forall|i: int| 0 <= i < digits(n).len() ==> '0' <= #[trigger] digits(n)[i] <= '9',
    decreases n,
{
    assert forall|d: int| 0 <= d < 10 implies '0' <= #[trigger] digit_char(d) <= '9' by {
        assert(seq!['0', '1', '2', '3', '4', '5', '6', '7', '8', '9'][d] == digit_char(d));
    }
    if n >= 10 {
        lemma_digits_are_digits(n / 10);
        let p = digits(n / 10);
        let c = digit_char((n % 10) as int);
        assert(digits(n) == p.push(c));
        assert('0' <= c <= '9');
        assert forall|i: int| 0 <= i < digits(n).len() implies '0' <= #[trigger] digits(n)[i]
            <= '9' by {
            if i < p.len() {
                assert(digits(n)[i] == p[i]);
            } else {
                assert(digits(n)[i] == c);
            }
        }
    } else {
        assert(digits(n) == seq![digit_char(n as int)]);
        assert('0' <= digit_char(n as int) <= '9');
    }
}

proof fn lemma_decimal_has_no_separator(n: int)
    ensures
        forall|i: int| 0 <= i < decimal(n).len() ==> #[trigger] decimal(n)[i] != ',' && decimal(n)[i]
            != '\n',
{
    if n < 0 {
        lemma_digits_are_digits((-n) as nat);
        assert forall|i: int| 0 <= i < decimal(n).len() implies #[trigger] decimal(n)[i] != ','
            && decimal(n)[i] != '\n' by {
            if i > 0 {
                assert(decimal(n)[i] == digits((-n) as nat)[i - 1]);
            }
        }
    } else {
        lemma_digits_are_digits(n as nat);
    }
}

/// An exported line reads back, field by field, as the word, the meaning,
/// the sequence number in decimal and the archive time (for an archive time
/// on one line).
pub proof fn csv_record_reads_back(w: WordRow)
    requires
        !opt_text(w.archived_at).contains('\n'),
    ensures
        read_record(csv_record(w)) == (
            w.word@,
            w.meaning@,
            decimal(w.seq as int),
            opt_text(w.archived_at),
        ),
{
    let at = opt_text(w.archived_at);
    let dec = decimal(w.seq as int);
    let tail2 = seq![','] + dec + seq![','] + at + seq!['\n'];
    let tail1 = seq![',', '"'] + csv_quote(w.meaning@) + seq!['"'] + tail2;
    let line = csv_record(w);
    assert(line =~= seq!['"'] + (csv_quote(w.word@) + seq!['"'] + tail1));
    assert(line.skip(1) =~= csv_quote(w.word@) + seq!['"'] + tail1);
    lemma_read_quoted(w.word@, tail1);
    assert(tail1.skip(2) =~= csv_quote(w.meaning@) + seq!['"'] + tail2);
    lemma_read_quoted(w.meaning@, tail2);
    let r = tail2.skip(1);
    assert(r =~= dec + seq![','] + (at + seq!['\n']));
    lemma_decimal_has_no_separator(w.seq as int);
    assert forall|j: int| 0 <= j < dec.len() implies #[trigger] r[j] != ',' by {
        assert(r[j] == dec[j]);
    }
    assert(r[dec.len() as int] == ',');
    lemma_find_char_is(r, ',', dec.len() as int);
    assert(r.take(dec.len() as int) =~= dec);
    let r3 = r.skip(dec.len() + 1 as int);
    assert(r3 =~= at + seq!['\n']);
    assert forall|j: int| 0 <= j < at.len() implies #[trigger] r3[j] != '\n' by {
        assert(r3[j] == at[j]);
        if at[j] == '\n' {
            assert(at.contains('\n'));
        }
    }
    assert(r3[at.len() as int] == '\n');
    lemma_find_char_is(r3, '\n', at.len() as int);
    assert(r3.take(at.len() as int) =~= at);
}

/// The export is its header followed by the lines of the words, in order: the
/// line of each word stands after those of the words before it.
pub proof fn csv_export_lines_in_order(words: Seq<WordRow>, i: int)
    requires
        0 <= i < words.len(),
    ensures
        csv_records(words.take(i + 1)) == csv_records(words.take(i)) + csv_record(words[i]),
{
    assert(words.take(i + 1).drop_last() =~= words.take(i));
}

} // verus!
