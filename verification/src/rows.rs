//! Records exchanged with the user interface, one per database row or view.

use vstd::prelude::*;

verus! {

/// Counts and progress of one word book.
#[derive(Debug, Clone)]
pub struct BookSummary {
    pub id: i64,
    pub title: String,
    pub source_type: String,
    pub total_words: i64,
    pub active_words: i64,
    pub archived_words: i64,
    pub reviewed_words: i64,
    pub progress_text: String,
}

/// A word book, with the number of words it actually holds.
#[derive(Debug, Clone)]
pub struct BookRow {
    pub id: i64,
    pub title: String,
    pub source_type: String,
    pub source_ref: Option<String>,
    pub source_url: Option<String>,
    pub total_words: i64,
    pub created_at: String,
    pub updated_at: String,
    pub active: i64,
    pub actual_words: i64,
}

/// One word of a book; `status` is `active` or `archived`.
#[derive(Debug, Clone)]
pub struct WordRow {
    pub id: i64,
    pub book_id: i64,
    pub seq: i64,
    pub word: String,
    pub meaning: String,
    pub raw: String,
    pub status: String,
    pub archived_at: Option<String>,
}

/// A study plan: a book split over a number of days.
#[derive(Debug, Clone)]
pub struct PlanRow {
    pub id: i64,
    pub book_id: i64,
    pub days: i64,
    pub words_per_day: i64,
    pub created_at: String,
    pub active: i64,
}

/// One unit (day) of a plan, with its word counts.
#[derive(Debug, Clone)]
pub struct UnitRow {
    pub id: i64,
    pub plan_id: i64,
    pub unit_no: i64,
    pub start_seq: i64,
    pub end_seq: i64,
    pub status: String,
    pub completed_at: Option<String>,
    pub total_words: i64,
    pub pending_words: i64,
    pub reviewed_words: i64,
}

/// One word of a unit, with the word's text.
#[derive(Debug, Clone)]
pub struct UnitWordRow {
    pub id: i64,
    pub unit_id: i64,
    pub word_id: i64,
    pub position: i64,
    pub review_state: String,
    pub studied_at: Option<String>,
    pub word: String,
    pub meaning: String,
    pub word_status: String,
    pub seq: i64,
}

/// The word the overlay window shows, and where it stands in its unit.
#[derive(Debug, Clone)]
pub struct CurrentWord {
    pub unit_word_id: i64,
    pub word_id: i64,
    pub word: String,
    pub meaning: String,
    pub position: i64,
    pub total_words: i64,
    pub reviewed_words: i64,
    pub auto_running: bool,
}

/// The message that tells an overlay window which unit to show.
#[derive(Debug, Clone)]
pub struct OverlayInitPayload {
    pub unit_id: i64,
}

} // verus!
