use moyu_words::export::archived_words_csv;
use moyu_words::num::{decimal_string, trunc_div};
use moyu_words::rows::WordRow;
use moyu_words::summary::summarize_book;

fn archived(word: &str, meaning: &str, seq: i64, at: Option<&str>) -> WordRow {
    WordRow {
        id: seq,
        book_id: 1,
        seq,
        word: word.to_string(),
        meaning: meaning.to_string(),
        raw: word.to_string(),
        status: "archived".to_string(),
        archived_at: at.map(|s| s.to_string()),
    }
}

#[test]
fn decimal_matches_display() {
    for n in [0i64, 7, 10, 99, 100, -1, -42, 1234567890, i64::MAX, i64::MIN] {
        assert_eq!(decimal_string(n), n.to_string());
    }
}

#[test]
fn trunc_div_matches_rust_division() {
    for (a, b) in [(7i64, 2i64), (-7, 2), (7, -2), (-7, -2), (0, 5), (i64::MIN, 1), (i64::MAX, -1), (i64::MIN, 2)] {
        assert_eq!(trunc_div(a, b), a / b);
    }
}

#[test]
fn summary_counts_and_progress_text() {
    let s = summarize_book(3, Some("四级".to_string()), Some("builtin".to_string()), 10, 3, 4);
    assert_eq!(s.id, 3);
    assert_eq!(s.title, "四级");
    assert_eq!(s.source_type, "builtin");
    assert_eq!(s.total_words, 10);
    assert_eq!(s.active_words, 7);
    assert_eq!(s.archived_words, 3);
    assert_eq!(s.reviewed_words, 4);
    assert_eq!(s.progress_text, "4/10 (40%)");
}

#[test]
fn summary_rounds_percent_down_and_handles_empty_book() {
    assert_eq!(summarize_book(1, None, None, 3, 0, 1).progress_text, "1/3 (33%)");
    let empty = summarize_book(9, None, None, 0, 0, 0);
    assert_eq!(empty.title, "未命名词书");
    assert_eq!(empty.source_type, "local");
    assert_eq!(empty.progress_text, "0/0 (0%)");
}

#[test]
fn summary_active_plus_archived_is_total() {
    for (t, a) in [(0i64, 0i64), (5, 5), (12, 4)] {
        let s = summarize_book(1, None, None, t, a, 0);
        assert_eq!(s.active_words + s.archived_words, s.total_words);
    }
}

#[test]
fn csv_export_quotes_fields() {
    let words = vec![
        archived("say \"hi\"", "打招呼", 12, Some("2024-05-01T10:00:00")),
        archived("plain", "a,b", -3, None),
    ];
    assert_eq!(
        archived_words_csv(&words),
        "word,meaning,seq,archived_at\n\"say \"\"hi\"\"\",\"打招呼\",12,2024-05-01T10:00:00\n\"plain\",\"a,b\",-3,\n"
    );
    assert_eq!(archived_words_csv(&Vec::new()), "word,meaning,seq,archived_at\n");
}

#[test]
fn csv_field_reads_back_to_the_word() {
    let w = "\"\"a\"b\"";
    let csv = archived_words_csv(&vec![archived(w, "", 1, None)]);
    let line = csv.lines().nth(1).unwrap();
    let field = &line[1..line.find("\",\"").unwrap()];
    assert_eq!(field.replace("\"\"", "\""), w);
}
