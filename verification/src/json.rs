//! JSON word books. The document is parsed by `serde_json`; the library reads
//! it through `JsonValue`, a mirror of `serde_json::Value` that keeps what the
//! book logic looks at.

use vstd::prelude::*;
use crate::parser::{EntryView, WordEntry, entries_view, opt_view};
use crate::text::{chars_of, string_of, trim, trim_range};

verus! {

broadcast use vstd::string::group_string_axioms;

/// `serde_json::Value`, known to Verus only as an opaque type.
#[verifier::external_type_specification]
#[verifier::external_body]
pub struct ExSerdeJsonValue(serde_json::Value);

/// A parsed JSON value. Numbers carry no payload: no book field is read from one.
pub enum JsonValue {
    Null,
    Bool(bool),
    Number,
    Str(String),
    Array(Vec<JsonValue>),
    Object(JsonObject),
}

/// A JSON object: its members in the order `serde_json` keeps them, and its
/// compact serialization as `serde_json::to_string` writes it.
pub struct JsonObject {
    pub fields: Vec<(String, JsonValue)>,
    pub text: String,
}

/// What `serde_json::from_str::<serde_json::Value>` makes of `payload`: the
/// document, or the text of its error.
pub uninterp spec fn json_document(payload: Seq<char>) -> Result<JsonValue, Seq<char>>;

/// Mirrors a `serde_json::Value` member by member; each object also records
/// its `serde_json::to_string` text.
#[verifier::external_body]
fn mirror_json(value: &serde_json::Value) -> JsonValue {
    match value {
        serde_json::Value::Null => JsonValue::Null,
        serde_json::Value::Bool(b) => JsonValue::Bool(*b),
        serde_json::Value::Number(_) => JsonValue::Number,
        serde_json::Value::String(s) => JsonValue::Str(s.clone()),
        serde_json::Value::Array(items) => JsonValue::Array(items.iter().map(mirror_json).collect()),
        serde_json::Value::Object(map) => JsonValue::Object(JsonObject {
            fields: map.iter().map(|(k, v)| (k.clone(), mirror_json(v))).collect(),
            text: serde_json::to_string(value).unwrap_or_default(),
        }),
    }
}

/// `serde_json::from_str::<serde_json::Value>`: parses `payload` as one JSON
/// document. Claimed: the result is `json_document(payload@)`, the error
/// carried as its `Display` text.
#[verifier::external_body]
fn parse_json_document(payload: &str) -> (res: Result<JsonValue, String>)
    ensures
        match res {
            Ok(v) => json_document(payload@) == Ok::<JsonValue, Seq<char>>(v),
            Err(e) => json_document(payload@) == Err::<JsonValue, Seq<char>>(e@),
        },
{
    match serde_json::from_str::<serde_json::Value>(payload) {
        Ok(value) => Ok(mirror_json(&value)),
        Err(e) => Err(e.to_string()),
    }
}

/// The value of the first member named `key`.
pub open spec fn member(fields: Seq<(String, JsonValue)>, key: Seq<char>) -> Option<JsonValue>
    decreases fields.len(),
{
    if fields.len() == 0 {
        None
    } else if fields[0].0@ == key {
        Some(fields[0].1)
    } else {
        member(fields.drop_first(), key)
    }
}

/// The value of the first of `keys` that names a member.
pub open spec fn first_member(fields: Seq<(String, JsonValue)>, keys: Seq<Seq<char>>) -> Option<
    JsonValue,
>
    decreases keys.len(),
{
    if keys.len() == 0 {
        None
    } else {
        match member(fields, keys[0]) {
            Some(v) => Some(v),
            None => first_member(fields, keys.drop_first()),
        }
    }
}

/// The text of a string value; any other value, or none, reads as empty.
pub open spec fn text_of(v: Option<JsonValue>) -> Seq<char> {
    match v {
        Some(JsonValue::Str(s)) => s@,
        _ => Seq::empty(),
    }
}

/// Member names that hold the word, by priority.
pub open spec fn word_keys() -> Seq<Seq<char>> {
    seq!["word"@, "english"@, "en"@, "headword"@, "term"@]
}

/// Member names that hold the meaning, by priority.
pub open spec fn meaning_keys() -> Seq<Seq<char>> {
    seq!["meaning"@, "chinese"@, "zh"@, "translation"@, "definition"@]
}

/// The entry of one item: only objects with a non-empty (trimmed) word give one.
pub open spec fn json_item_entry(item: JsonValue) -> Option<EntryView> {
    match item {
        JsonValue::Object(o) => {
            let w = trim(text_of(first_member(o.fields@, word_keys())));
            let m = trim(text_of(first_member(o.fields@, meaning_keys())));
            if w.len() == 0 {
                None
            } else {
                Some((w, m, o.text@))
            }
        },
        _ => None,
    }
}

/// The items of a book document: the `words` array of an object that has one,
/// else the object itself; the elements of a top-level array; none otherwise.
pub open spec fn json_items(doc: JsonValue) -> Option<Seq<JsonValue>> {
    match doc {
        JsonValue::Object(o) => match member(o.fields@, "words"@) {
            Some(JsonValue::Array(items)) => Some(items@),
            _ => Some(seq![doc]),
        },
        JsonValue::Array(items) => Some(items@),
        _ => None,
    }
}

/// The book a JSON document holds, or the message for a document of the wrong shape.
pub open spec fn json_book(doc: JsonValue) -> Result<Seq<EntryView>, Seq<char>> {
    match json_items(doc) {
        Some(items) => Ok(items.filter_map(|v: JsonValue| json_item_entry(v))),
        None => Err("JSON 词书格式不正确"@),
    }
}

/// The book a JSON payload holds, or the message for a payload that does not parse.
pub open spec fn json_payload_book(payload: Seq<char>) -> Result<Seq<EntryView>, Seq<char>> {
    match json_document(payload) {
        Ok(doc) => json_book(doc),
        Err(e) => Err("JSON 解析失败: "@ + e),
    }
}

pub open spec fn book_result_view(res: Result<Vec<WordEntry>, String>) -> Result<
    Seq<EntryView>,
    Seq<char>,
> {
    match res {
        Ok(v) => Ok(entries_view(v@)),
        Err(e) => Err(e@),
    }
}

/// The value of the first member of `fields` named `key`.
fn find_member<'a>(fields: &'a Vec<(String, JsonValue)>, key: &str) -> (r: Option<&'a JsonValue>)
    ensures
        match r {
            Some(v) => member(fields@, key@) == Some(*v),
            None => member(fields@, key@) is None,
        },
{
    let key_string = String::from_str(key);
    let mut i: usize = 0;
    assert(fields@.skip(0) =~= fields@);
    while i < fields.len()
        invariant
            0 <= i <= fields.len(),
            key_string@ == key@,
            member(fields@, key@) == member(fields@.skip(i as int), key@),
        decreases fields.len() - i,
    {
        assert(fields@.skip(i as int).drop_first() =~= fields@.skip(i + 1));
        if fields[i].0 == key_string {
            return Some(&fields[i].1);
        }
        i = i + 1;
    }
    None
}

/// The value of the first of `keys` that names a member of `fields`.
fn find_first_member<'a>(fields: &'a Vec<(String, JsonValue)>, keys: &[&str]) -> (r: Option<
    &'a JsonValue,
>)
    ensures
        match r {
            Some(v) => first_member(fields@, keys@.map_values(|k: &str| k@)) == Some(*v),
            None => first_member(fields@, keys@.map_values(|k: &str| k@)) is None,
        },
{
    let ghost all = keys@.map_values(|k: &str| k@);
    let mut i: usize = 0;
    assert(all.skip(0) =~= all);
    while i < keys.len()
        invariant
            0 <= i <= keys.len(),
            all == keys@.map_values(|k: &str| k@),
            first_member(fields@, all) == first_member(fields@, all.skip(i as int)),
        decreases keys.len() - i,
    {
        assert(all.skip(i as int).drop_first() =~= all.skip(i + 1));
        assert(all.skip(i as int)[0] == keys[i as int]@);
        match find_member(fields, keys[i]) {
            Some(v) => {
                return Some(v);
            },
            None => {},
        }
        i = i + 1;
    }
    None
}

/// The trimmed text of a string value; empty for any other value or none.
fn trimmed_text(v: Option<&JsonValue>) -> (r: String)
    ensures
        r@ == trim(text_of(
            match v {
                Some(x) => Some(*x),
                None => None,
            },
        )),
{
    match v {
        Some(JsonValue::Str(s)) => {
            let cs = chars_of(s.as_str());
            let (a, b) = trim_range(&cs, 0, cs.len());
            assert(cs@.subrange(0, cs@.len() as int) =~= cs@);
            string_of(&cs, a, b)
        },
        _ => {
            let r = String::new();
            assert(trim(Seq::<char>::empty()) =~= Seq::<char>::empty());
            r
        },
    }
}

/// The entry of one JSON item.
pub fn json_item_entry_of(item: &JsonValue) -> (r: Option<WordEntry>)
    ensures
        opt_view(r) == json_item_entry(*item),
{
    match item {
        JsonValue::Object(o) => {
            let wkeys = ["word", "english", "en", "headword", "term"];
            let mkeys = ["meaning", "chinese", "zh", "translation", "definition"];
            assert(wkeys@.map_values(|k: &str| k@) =~= word_keys());
            assert(mkeys@.map_values(|k: &str| k@) =~= meaning_keys());
            let word = trimmed_text(find_first_member(&o.fields, &wkeys));
            let meaning = trimmed_text(find_first_member(&o.fields, &mkeys));
            if word.as_str().unicode_len() == 0 {
                None
            } else {
                Some(WordEntry::new(word, meaning, o.text.clone()))
            }
        },
        _ => None,
    }
}

/// Entries of the given items, in order.
fn json_entries(items: &Vec<JsonValue>) -> (r: Vec<WordEntry>)
    ensures
        entries_view(r@) == items@.filter_map(|v: JsonValue| json_item_entry(v)),
{
    let mut rows: Vec<WordEntry> = Vec::new();
    let mut i: usize = 0;
    while i < items.len()
        invariant
            0 <= i <= items.len(),
            entries_view(rows@) == items@.take(i as int).filter_map(
                |v: JsonValue| json_item_entry(v),
            ),
        decreases items.len() - i,
    {
        let ghost old_rows = rows@;
        let e = json_item_entry_of(&items[i]);
        assert(items@.take(i + 1).drop_last() =~= items@.take(i as int));
        match e {
            Some(entry) => {
                rows.push(entry);
            },
            None => {},
        }
        assert(entries_view(rows@) =~= items@.take(i + 1).filter_map(
            |v: JsonValue| json_item_entry(v),
        ));
        i = i + 1;
    }
    assert(items@.take(items.len() as int) =~= items@);
    rows
}

/// The book a parsed JSON document holds.
pub fn json_book_entries(doc: &JsonValue) -> (res: Result<Vec<WordEntry>, String>)
    ensures
        book_result_view(res) == json_book(*doc),
{
    match doc {
        JsonValue::Object(o) => {
            match find_member(&o.fields, "words") {
                Some(JsonValue::Array(items)) => Ok(json_entries(items)),
                _ => {
                    let ghost one = seq![*doc];
                    let mut rows: Vec<WordEntry> = Vec::new();
                    match json_item_entry_of(doc) {
                        Some(entry) => {
                            rows.push(entry);
                        },
                        None => {},
                    }
                    reveal_with_fuel(Seq::filter_map, 2);
                    assert(one.drop_last() =~= Seq::<JsonValue>::empty());
                    assert(entries_view(rows@) =~= one.filter_map(
                        |v: JsonValue| json_item_entry(v),
                    ));
                    Ok(rows)
                },
            }
        },
        JsonValue::Array(items) => Ok(json_entries(items)),
        _ => Err(String::from_str("JSON 词书格式不正确")),
    }
}

/// Parses a JSON book: a `words` array, a single object, or an array of objects.
pub fn parse_json_book(payload: &str) -> (res: Result<Vec<WordEntry>, String>)
    ensures
        book_result_view(res) == json_payload_book(payload@),
{
    match parse_json_document(payload) {
        Ok(doc) => json_book_entries(&doc),
        Err(e) => {
            let mut msg = String::from_str("JSON 解析失败: ");
            msg.append(e.as_str());
            Err(msg)
        },
    }
}

/// The value of the first of `k0`..`k4` that names a member of `f`.
pub open spec fn first_of_five(
    f: Seq<(String, JsonValue)>,
    k0: Seq<char>,
    k1: Seq<char>,
    k2: Seq<char>,
    k3: Seq<char>,
    k4: Seq<char>,
) -> Option<JsonValue> {
    if member(f, k0) is Some {
        member(f, k0)
    } else if member(f, k1) is Some {
        member(f, k1)
    } else if member(f, k2) is Some {
        member(f, k2)
    } else if member(f, k3) is Some {
        member(f, k3)
    } else {
        member(f, k4)
    }
}

proof fn lemma_first_member_five(
    f: Seq<(String, JsonValue)>,
    k0: Seq<char>,
    k1: Seq<char>,
    k2: Seq<char>,
    k3: Seq<char>,
    k4: Seq<char>,
)
    ensures
        first_member(f, seq![k0, k1, k2, k3, k4]) == first_of_five(f, k0, k1, k2, k3, k4),
{
    let s = seq![k0, k1, k2, k3, k4];
    assert(s.drop_first() =~= seq![k1, k2, k3, k4]);
    assert(s.drop_first().drop_first() =~= seq![k2, k3, k4]);
    assert(s.drop_first().drop_first().drop_first() =~= seq![k3, k4]);
    assert(s.drop_first().drop_first().drop_first().drop_first() =~= seq![k4]);
    assert(seq![k4].drop_first() =~= Seq::<Seq<char>>::empty());
    reveal_with_fuel(first_member, 6);
}

/// The members an object's entry is read from, by name: the word from
/// `word`, else `english`, `en`, `headword`, `term`; the meaning from
/// `meaning`, else `chinese`, `zh`, `translation`, `definition`. The first of
/// these names present decides, and only a text value counts (any other
/// value reads as empty). The entry exists when the trimmed word is not
/// empty; its raw text is the object's serialization.
pub proof fn json_object_entry_law(o: JsonObject)
    ensures
        ({
            let f = o.fields@;
            let w = trim(text_of(first_of_five(f, "word"@, "english"@, "en"@, "headword"@, "term"@)));
            let m = trim(
                text_of(first_of_five(f, "meaning"@, "chinese"@, "zh"@, "translation"@, "definition"@)),
            );
            json_item_entry(JsonValue::Object(o)) == if w.len() == 0 {
                None
            } else {
                Some((w, m, o.text@))
            }
        }),
{
    let f = o.fields@;
    lemma_first_member_five(f, "word"@, "english"@, "en"@, "headword"@, "term"@);
    lemma_first_member_five(f, "meaning"@, "chinese"@, "zh"@, "translation"@, "definition"@);
}

/// Values other than objects give no entry.
pub proof fn json_non_object_law(v: JsonValue)
    requires
        !(v is Object),
    ensures
        json_item_entry(v) is None,
{
}

/// `member` finds the first field with the given name.
pub proof fn json_member_law(f: Seq<(String, JsonValue)>, key: Seq<char>, i: int)
    requires
        0 <= i < f.len(),
        f[i].0@ == key,
        forall|j: int| 0 <= j < i ==> (#[trigger] f[j]).0@ != key,
    ensures
        member(f, key) == Some(f[i].1),
    decreases i,
{
    if i > 0 {
        let g = f.drop_first();
        assert forall|j: int| 0 <= j < i - 1 implies (#[trigger] g[j]).0@ != key by {
            assert(g[j] == f[j + 1]);
        }
        assert(f[0].0@ != key);
        json_member_law(g, key, i - 1);
    }
}

/// `member` finds nothing when no field has the given name.
pub proof fn json_member_absent_law(f: Seq<(String, JsonValue)>, key: Seq<char>)
    requires
        forall|j: int| 0 <= j < f.len() ==> (#[trigger] f[j]).0@ != key,
    ensures
        member(f, key) is None,
    decreases f.len(),
{
    if f.len() > 0 {
        let g = f.drop_first();
        assert forall|j: int| 0 <= j < g.len() implies (#[trigger] g[j]).0@ != key by {
            assert(g[j] == f[j + 1]);
        }
        assert(f[0].0@ != key);
        json_member_absent_law(g, key);
    }
}

/// What a JSON document holds, by its shape: an object with a `words` array
/// holds the entries of that array's items; any other object holds its own
/// entry (or none); an array holds the entries of its items, in order; any
/// other value is refused as a book.
pub proof fn json_document_shape_law(doc: JsonValue)
    ensures
        doc matches JsonValue::Array(items) ==> json_book(doc) == Ok::<Seq<EntryView>, Seq<char>>(
            items@.filter_map(|v: JsonValue| json_item_entry(v)),
        ),
        doc matches JsonValue::Object(o) ==> match member(o.fields@, "words"@) {
            Some(JsonValue::Array(items)) => json_book(doc) == Ok::<Seq<EntryView>, Seq<char>>(
                items@.filter_map(|v: JsonValue| json_item_entry(v)),
            ),
            _ => json_book(doc) == Ok::<Seq<EntryView>, Seq<char>>(
                crate::parser::opt_seq(json_item_entry(doc)),
            ),
        },
        (doc is Null || doc is Bool || doc is Number || doc is Str) ==> json_book(doc) == Err::<
            Seq<EntryView>,
            Seq<char>,
        >("JSON 词书格式不正确"@),
{
    let one = seq![doc];
    reveal_with_fuel(Seq::filter_map, 2);
    assert(one.drop_last() =~= Seq::<JsonValue>::empty());
    assert(one.last() == doc);
    assert(one.filter_map(|v: JsonValue| json_item_entry(v)) =~= crate::parser::opt_seq(
        json_item_entry(doc),
    ));
}

} // verus!
