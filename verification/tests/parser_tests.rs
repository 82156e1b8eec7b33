use moyu_words::parser::{
    book_format_of, import_file_name, parse_book_payload, parse_csv_book, parse_import,
    parse_text_book, BookFormat, WordEntry,
};

fn triples(v: &[WordEntry]) -> Vec<(String, String, String)> {
    v.iter().map(|e| (e.word.clone(), e.meaning.clone(), e.raw.clone())).collect()
}

fn t(w: &str, m: &str, r: &str) -> (String, String, String) {
    (w.to_string(), m.to_string(), r.to_string())
}

#[test]
fn text_book_splits_on_tab_double_space_and_space() {
    let payload = "apple\t苹果\nbanana  香蕉\ncherry 樱桃 红色\n# a comment\n\n   date   \n";
    let rows = parse_text_book(payload).unwrap();
    assert_eq!(
        triples(&rows),
        vec![
            t("apple", "苹果", "apple\t苹果"),
            t("banana", "香蕉", "banana  香蕉"),
            t("cherry", "樱桃 红色", "cherry 樱桃 红色"),
            t("date", "", "date"),
        ]
    );
}

#[test]
fn text_book_tab_wins_over_spaces() {
    let rows = parse_text_book("take  off\t起飞").unwrap();
    assert_eq!(triples(&rows), vec![t("take  off", "起飞", "take  off\t起飞")]);
}

#[test]
fn text_book_double_space_wins_over_single_space() {
    let rows = parse_text_book("look after  照顾 某人").unwrap();
    assert_eq!(triples(&rows), vec![t("look after", "照顾 某人", "look after  照顾 某人")]);
}

#[test]
fn text_book_handles_crlf_and_unicode_whitespace() {
    let rows = parse_text_book("\u{3000}word\t释义\u{a0}\r\nnext\r\n").unwrap();
    assert_eq!(
        triples(&rows),
        vec![t("word", "释义", "word\t释义"), t("next", "", "next")]
    );
}

#[test]
fn text_book_of_blank_payload_is_empty() {
    assert!(parse_text_book("").unwrap().is_empty());
    assert!(parse_text_book("\n\n  \n# only comments\n").unwrap().is_empty());
}

#[test]
fn csv_book_takes_word_before_first_comma() {
    let payload = "apple,苹果,水果\n , skipped\n\nbanana\n cherry , 樱桃 \n";
    let rows = parse_csv_book(payload).unwrap();
    assert_eq!(
        triples(&rows),
        vec![
            t("apple", "苹果,水果", "apple,苹果,水果"),
            t("banana", "", "banana"),
            t("cherry", "樱桃", "cherry , 樱桃"),
        ]
    );
}

#[test]
fn json_book_reads_words_array() {
    let payload = r#"{"title":"x","words":[{"word":" apple ","meaning":"苹果"},{"english":"pear","zh":"梨"},3,{"meaning":"no word"}]}"#;
    let rows = parse_book_payload("book.json", payload).unwrap();
    assert_eq!(
        triples(&rows),
        vec![
            t("apple", "苹果", r#"{"meaning":"苹果","word":" apple "}"#),
            t("pear", "梨", r#"{"english":"pear","zh":"梨"}"#),
        ]
    );
}

#[test]
fn json_book_reads_single_object_and_plain_array() {
    let one = parse_book_payload("one.JSON", r#"{"headword":"kiwi","definition":"猕猴桃"}"#).unwrap();
    assert_eq!(triples(&one), vec![t("kiwi", "猕猴桃", r#"{"definition":"猕猴桃","headword":"kiwi"}"#)]);
    let many = parse_book_payload("many.json", r#"[{"en":"a","chinese":"甲"},{"term":"b"}]"#).unwrap();
    assert_eq!(
        triples(&many),
        vec![t("a", "甲", r#"{"chinese":"甲","en":"a"}"#), t("b", "", r#"{"term":"b"}"#)]
    );
}

#[test]
fn json_book_first_present_key_decides_even_when_not_text() {
    let rows = parse_book_payload("b.json", r#"[{"word":1,"english":"ignored"}]"#).unwrap();
    assert!(rows.is_empty());
}

#[test]
fn json_book_with_words_that_is_not_an_array_reads_the_object() {
    let rows = parse_book_payload("b.json", r#"{"words":"none","word":"solo"}"#).unwrap();
    assert_eq!(triples(&rows), vec![t("solo", "", r#"{"word":"solo","words":"none"}"#)]);
}

#[test]
fn json_book_of_wrong_shape_is_refused() {
    let err = parse_book_payload("b.json", "42").err().unwrap();
    assert_eq!(err, "JSON 词书格式不正确");
}

#[test]
fn json_book_that_does_not_parse_is_refused() {
    let err = parse_book_payload("b.json", "{not json").err().unwrap();
    assert!(err.starts_with("JSON 解析失败: "));
    assert!(err.len() > "JSON 解析失败: ".len());
}

#[test]
fn format_follows_extension_ignoring_case() {
    assert!(matches!(book_format_of("Book.JSON"), BookFormat::Json));
    assert!(matches!(book_format_of("dir/a.CsV"), BookFormat::Csv));
    assert!(matches!(book_format_of("x.json/"), BookFormat::Json));
    assert!(matches!(book_format_of("words.txt"), BookFormat::Text));
    assert!(matches!(book_format_of("noext"), BookFormat::Text));
    assert!(matches!(book_format_of(".json"), BookFormat::Text));
    assert!(matches!(book_format_of("dir.json/file"), BookFormat::Text));
    assert!(matches!(book_format_of("a.json/.."), BookFormat::Text));
    assert!(matches!(book_format_of("book.json."), BookFormat::Text));
    assert!(matches!(book_format_of("..json"), BookFormat::Json));
}

#[test]
fn payload_dispatch_reads_csv_and_text() {
    let csv = parse_book_payload("a.csv", "x,y z").unwrap();
    assert_eq!(triples(&csv), vec![t("x", "y z", "x,y z")]);
    let text = parse_book_payload("a.txt", "x,y z").unwrap();
    assert_eq!(triples(&text), vec![t("x,y", "z", "x,y z")]);
}

#[test]
fn import_refuses_a_book_without_words() {
    assert_eq!(parse_import("a.txt", "# nothing\n").err().unwrap(), "没有解析到任何单词");
    assert_eq!(parse_import("a.json", "[1,2]").err().unwrap(), "没有解析到任何单词");
    assert_eq!(parse_import("a.json", "true").err().unwrap(), "JSON 词书格式不正确");
    assert_eq!(parse_import("a.txt", "hi").unwrap().len(), 1);
}

#[test]
fn import_file_name_takes_last_component() {
    assert_eq!(import_file_name("/home/me/books/cet4.csv"), "cet4.csv");
    assert_eq!(import_file_name("./list.txt"), "list.txt");
    assert_eq!(import_file_name("dir/sub/"), "sub");
    assert_eq!(import_file_name("/"), "unknown.txt");
    assert_eq!(import_file_name(""), "unknown.txt");
    assert_eq!(import_file_name("a/.."), "unknown.txt");
    assert_eq!(import_file_name("a/./"), "a");
}

#[test]
fn parsed_words_are_trimmed_and_non_empty_on_sample() {
    for (name, payload) in [
        ("a.txt", " x \t y \n\t\n  z"),
        ("a.csv", " , \n p , q \n"),
        ("a.json", r#"[{"word":"  ","meaning":"m"},{"word":" w ","meaning":" m "}]"#),
    ] {
        for e in parse_book_payload(name, payload).unwrap() {
            assert!(!e.word.is_empty());
            assert_eq!(e.word.trim(), e.word);
            assert_eq!(e.meaning.trim(), e.meaning);
        }
    }
}

#[test]
fn upper_case_csv_name_is_read_as_csv() {
    let rows = parse_book_payload("Words.CSV", "a, b c").unwrap();
    assert_eq!(triples(&rows), vec![t("a", "b c", "a, b c")]);
    let rows = parse_import("Words.CSV", "a, b c").unwrap();
    assert_eq!(triples(&rows), vec![t("a", "b c", "a, b c")]);
}

#[test]
fn only_json_files_can_fail() {
    assert!(parse_book_payload("a.json.txt", "{not json").is_ok());
    assert!(parse_book_payload("a.txt.json", "{not json").is_err());
    assert!(parse_book_payload("a.csv", "{not json").is_ok());
}
