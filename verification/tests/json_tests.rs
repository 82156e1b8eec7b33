use moyu_words::json::{json_book_entries, json_item_entry_of, JsonObject, JsonValue};
use moyu_words::parser::{format_for_extension, parse_book_as, BookFormat};

fn text(s: &str) -> JsonValue {
    JsonValue::Str(s.to_string())
}

fn object(fields: Vec<(&str, JsonValue)>, raw: &str) -> JsonValue {
    JsonValue::Object(JsonObject {
        fields: fields.into_iter().map(|(k, v)| (k.to_string(), v)).collect(),
        text: raw.to_string(),
    })
}

#[test]
fn hand_built_object_with_words_text_reads_itself() {
    let doc = object(vec![("word", text("solo")), ("words", text("n/a"))], r#"{"word":"solo","words":"n/a"}"#);
    let rows = json_book_entries(&doc).unwrap();
    assert_eq!(rows.len(), 1);
    assert_eq!(rows[0].word, "solo");
    assert_eq!(rows[0].meaning, "");
    assert_eq!(rows[0].raw, r#"{"word":"solo","words":"n/a"}"#);
}

#[test]
fn hand_built_words_array_skips_non_objects_and_empty_words() {
    let items = vec![
        object(vec![("english", text(" pear ")), ("translation", text("梨"))], "P"),
        JsonValue::Number,
        object(vec![("word", JsonValue::Null), ("en", text("ignored"))], "N"),
        object(vec![("term", text("t")), ("meaning", JsonValue::Bool(true))], "T"),
    ];
    let doc = object(vec![("words", JsonValue::Array(items))], "D");
    let rows = json_book_entries(&doc).unwrap();
    let got: Vec<(String, String, String)> =
        rows.iter().map(|e| (e.word.clone(), e.meaning.clone(), e.raw.clone())).collect();
    assert_eq!(
        got,
        vec![
            ("pear".to_string(), "梨".to_string(), "P".to_string()),
            ("t".to_string(), String::new(), "T".to_string()),
        ]
    );
}

#[test]
fn hand_built_scalar_document_is_refused() {
    assert_eq!(json_book_entries(&text("x")).err().unwrap(), "JSON 词书格式不正确");
    assert_eq!(json_book_entries(&JsonValue::Null).err().unwrap(), "JSON 词书格式不正确");
    assert!(json_book_entries(&JsonValue::Array(vec![])).unwrap().is_empty());
    assert!(json_item_entry_of(&JsonValue::Bool(false)).is_none());
}

#[test]
fn extension_decides_format_ignoring_case() {
    assert!(matches!(format_for_extension(Some("JsOn")), BookFormat::Json));
    assert!(matches!(format_for_extension(Some("CSV")), BookFormat::Csv));
    assert!(matches!(format_for_extension(Some("")), BookFormat::Text));
    assert!(matches!(format_for_extension(Some("jsonl")), BookFormat::Text));
    assert!(matches!(format_for_extension(None), BookFormat::Text));
}

#[test]
fn parse_as_reads_each_format() {
    assert_eq!(parse_book_as(BookFormat::Csv, "a,b").unwrap()[0].meaning, "b");
    assert_eq!(parse_book_as(BookFormat::Text, "a,b").unwrap()[0].word, "a,b");
    assert_eq!(parse_book_as(BookFormat::Json, r#"{"word":"a"}"#).unwrap()[0].word, "a");
}
