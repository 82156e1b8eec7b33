use moyu_words::overlay::{current_word, go_next_word, go_prev_word, toggle_auto};
use moyu_words::rows::UnitWordRow;

fn pending(n: i64) -> Vec<UnitWordRow> {
    (1..=n)
        .map(|i| UnitWordRow {
            id: 50 + i,
            unit_id: 2,
            word_id: 500 + i,
            position: i,
            review_state: "pending".to_string(),
            studied_at: None,
            word: format!("w{}", i),
            meaning: format!("m{}", i),
            word_status: "active".to_string(),
            seq: i,
        })
        .collect()
}

#[test]
fn prev_and_next_wrap_around() {
    assert_eq!(go_next_word(3, 0), 1);
    assert_eq!(go_next_word(3, 2), 0);
    assert_eq!(go_prev_word(3, 0), 2);
    assert_eq!(go_prev_word(3, 2), 1);
    assert_eq!(go_next_word(0, 5), 0);
    assert_eq!(go_prev_word(0, 5), 0);
    assert_eq!(go_next_word(3, 7), 2);
}

#[test]
fn prev_undoes_next() {
    for len in 1..6usize {
        for i in 0..len {
            assert_eq!(go_prev_word(len, go_next_word(len, i)), i);
            assert_eq!(go_next_word(len, go_prev_word(len, i)), i);
        }
    }
}

#[test]
fn toggle_twice_restores_on_both_values() {
    assert!(!toggle_auto(true));
    assert!(toggle_auto(false));
    assert!(toggle_auto(toggle_auto(true)));
}

#[test]
fn current_word_reports_position_and_progress() {
    let p = pending(3);
    let c = current_word(&p, 5, 1).unwrap();
    assert_eq!(c.unit_word_id, 52);
    assert_eq!(c.word_id, 502);
    assert_eq!(c.word, "w2");
    assert_eq!(c.meaning, "m2");
    assert_eq!(c.position, 2);
    assert_eq!(c.total_words, 5);
    assert_eq!(c.reviewed_words, 2);
    assert!(!c.auto_running);
}

#[test]
fn current_word_clamps_index_and_reviewed_count() {
    let p = pending(3);
    let c = current_word(&p, 2, 99).unwrap();
    assert_eq!(c.position, 3);
    assert_eq!(c.word, "w3");
    assert_eq!(c.reviewed_words, 0);
    assert!(current_word(&Vec::new(), 4, 0).is_none());
}
