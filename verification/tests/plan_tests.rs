use moyu_words::plan::{ceil_div, plan_layout, PlanLayout};
use moyu_words::rows::WordRow;

fn words(n: i64) -> Vec<WordRow> {
    (1..=n)
        .map(|i| WordRow {
            id: 100 + i,
            book_id: 7,
            seq: i * 10,
            word: format!("w{}", i),
            meaning: String::new(),
            raw: format!("w{}", i),
            status: "active".to_string(),
            archived_at: None,
        })
        .collect()
}

fn shape(l: &PlanLayout) -> Vec<(i64, i64, i64, Vec<i64>)> {
    l.units.iter().map(|u| (u.unit_no, u.start_seq, u.end_seq, u.word_ids.clone())).collect()
}

#[test]
fn ceil_div_rounds_up() {
    assert_eq!(ceil_div(5, 2), 3);
    assert_eq!(ceil_div(4, 2), 2);
    assert_eq!(ceil_div(0, 3), 0);
    assert_eq!(ceil_div(1, 3), 1);
    assert_eq!(ceil_div(-5, 2), -2);
    assert_eq!(ceil_div(5, -2), -2);
    assert_eq!(ceil_div(-5, -2), 3);
    assert_eq!(ceil_div(i64::MAX, 1), i64::MAX);
    assert_eq!(ceil_div(i64::MIN, 1), i64::MIN);
    assert_eq!(ceil_div(i64::MIN, 2), i64::MIN / 2);
}

#[test]
fn plan_splits_words_over_days() {
    let l = plan_layout(&words(5), 2).unwrap();
    assert_eq!(l.days, 2);
    assert_eq!(l.words_per_day, 3);
    assert_eq!(
        shape(&l),
        vec![(1, 10, 30, vec![101, 102, 103]), (2, 40, 50, vec![104, 105])]
    );
}

#[test]
fn plan_keeps_empty_trailing_units() {
    let l = plan_layout(&words(5), 4).unwrap();
    assert_eq!(l.words_per_day, 2);
    assert_eq!(
        shape(&l),
        vec![
            (1, 10, 20, vec![101, 102]),
            (2, 30, 40, vec![103, 104]),
            (3, 50, 50, vec![105]),
            (4, 6, 5, vec![]),
        ]
    );
}

#[test]
fn plan_with_more_days_than_words() {
    let l = plan_layout(&words(2), 3).unwrap();
    assert_eq!(l.words_per_day, 1);
    assert_eq!(
        shape(&l),
        vec![(1, 10, 10, vec![101]), (2, 20, 20, vec![102]), (3, 3, 2, vec![])]
    );
}

#[test]
fn plan_of_fewer_than_one_day_is_one_day() {
    for days in [0, -3, i64::MIN] {
        let l = plan_layout(&words(3), days).unwrap();
        assert_eq!(l.days, 1);
        assert_eq!(l.words_per_day, 3);
        assert_eq!(shape(&l), vec![(1, 10, 30, vec![101, 102, 103])]);
    }
}

#[test]
fn plan_of_book_without_active_words_is_refused() {
    let e = plan_layout(&Vec::new(), 3).err().unwrap();
    assert_eq!(e, "这个词书还没有可学习的单词");
}

#[test]
fn plan_covers_every_word_once_on_sample() {
    for n in 1..12 {
        for days in 1..8 {
            let ws = words(n);
            let l = plan_layout(&ws, days).unwrap();
            assert_eq!(l.units.len() as i64, days);
            let all: Vec<i64> = l.units.iter().flat_map(|u| u.word_ids.clone()).collect();
            let expected: Vec<i64> = ws.iter().map(|w| w.id).collect();
            assert_eq!(all, expected);
            assert!(l.units.iter().all(|u| u.word_ids.len() as i64 <= l.words_per_day));
        }
    }
}
