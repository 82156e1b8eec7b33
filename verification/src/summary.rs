//! The progress summary of a word book.

use vstd::prelude::*;
use crate::num::{decimal, decimal_string, trunc_div, trunc_quot};
use crate::rows::BookSummary;

verus! {

broadcast use vstd::string::group_string_axioms;

/// Share of reviewed words, in whole percent rounded toward zero (an empty book counts as one word).
pub open spec fn progress_percent(reviewed: int, total: int) -> int {
    trunc_quot(reviewed * 100, if total == 0 { 1 } else { total })
}

/// `reviewed/total (percent%)`.
pub open spec fn progress_text(reviewed: int, total: int) -> Seq<char> {
    decimal(reviewed) + "/"@ + decimal(total) + " ("@ + decimal(progress_percent(reviewed, total))
        + "%)"@
}

/// The summary of book `book_id` from its word counts: `total` words, of which
/// `archived` are archived and `reviewed` have been archived or reviewed in a
/// unit. A book whose title or source type is unknown reads as an untitled
/// local book.
pub fn summarize_book(
    book_id: i64,
    title: Option<String>,
    source_type: Option<String>,
    total: i64,
    archived: i64,
    reviewed: i64,
) -> (s: BookSummary)
    requires
        i64::MIN <= total - archived <= i64::MAX,
        i64::MIN <= reviewed * 100 <= i64::MAX,
        !(reviewed * 100 == i64::MIN && total == -1),
    ensures
        s.id == book_id,
        s.title@ == (match title {
            Some(t) => t@,
            None => "未命名词书"@,
        }),
        s.source_type@ == (match source_type {
            Some(t) => t@,
            None => "local"@,
        }),
        s.total_words == total,
        s.archived_words == archived,
        s.active_words == total - archived,
        s.active_words + s.archived_words == s.total_words,
        s.reviewed_words == reviewed,
        s.progress_text@ == progress_text(reviewed as int, total as int),
{
    let title = match title {
        Some(t) => t,
        None => String::from_str("未命名词书"),
    };
    let source_type = match source_type {
        Some(t) => t,
        None => String::from_str("local"),
    };
    let total_max = if total == 0 {
        1
    } else {
        total
    };
    let percent = trunc_div(reviewed * 100, total_max);
    let mut text = decimal_string(reviewed);
    text.append("/");
    text.append(decimal_string(total).as_str());
    text.append(" (");
    text.append(decimal_string(percent).as_str());
    text.append("%)");
    BookSummary {
        id: book_id,
        title,
        source_type,
        total_words: total,
        active_words: total - archived,
        archived_words: archived,
        reviewed_words: reviewed,
        progress_text: text,
    }
}

/// The percentage is the whole part of `100 * reviewed / total`: for a
/// non-empty book and a non-negative count, `percent * total <= 100 * reviewed
/// < (percent + 1) * total`; an empty book counts as one word.
pub proof fn progress_percent_law(reviewed: int, total: int)
    requires
        reviewed >= 0,
        total >= 0,
    ensures
        total > 0 ==> progress_percent(reviewed, total) * total <= reviewed * 100 < (
        progress_percent(reviewed, total) + 1) * total,
        total == 0 ==> progress_percent(reviewed, total) == reviewed * 100,
{
    if total > 0 {
        let p = progress_percent(reviewed, total);
        assert(p == (reviewed * 100) / total);
        vstd::arithmetic::div_mod::lemma_fundamental_div_mod(reviewed * 100, total);
        vstd::arithmetic::div_mod::lemma_mod_bound(reviewed * 100, total);
        let m = (reviewed * 100) % total;
        assert(p * total <= reviewed * 100 < (p + 1) * total) by (nonlinear_arith)
            requires
                reviewed * 100 == total * p + m,
                0 <= m < total,
        ;
    } else {
        assert((reviewed * 100) / 1 == reviewed * 100);
    }
}

} // verus!
