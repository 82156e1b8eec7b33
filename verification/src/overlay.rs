//! Navigation in the overlay window: the word queue of a unit, moving
//! backwards and forwards around it, and the auto-advance switch.

use vstd::prelude::*;
use crate::rows::{CurrentWord, UnitWordRow};
use vstd::arithmetic::div_mod::{lemma_mod_add_multiples_vanish, lemma_mod_self_0, lemma_small_mod};

verus! {

/// The queue position before `current` in a queue of `len` words, wrapping around.
pub open spec fn prev_index(len: int, current: int) -> int {
    if len == 0 {
        0
    } else {
        (current + len - 1) % len
    }
}

/// The queue position after `current` in a queue of `len` words, wrapping around.
pub open spec fn next_index(len: int, current: int) -> int {
    if len == 0 {
        0
    } else {
        (current + 1) % len
    }
}

/// Steps back one word in a queue of `queue_len` words (to the last from the first).
pub fn go_prev_word(queue_len: usize, current_idx: usize) -> (r: usize)
    requires
        queue_len > 0 ==> current_idx + queue_len <= usize::MAX,
    ensures
        r == prev_index(queue_len as int, current_idx as int),
{
    if queue_len == 0 {
        0
    } else {
        (current_idx + queue_len - 1) % queue_len
    }
}

/// Steps forward one word in a queue of `queue_len` words (to the first from the last).
pub fn go_next_word(queue_len: usize, current_idx: usize) -> (r: usize)
    requires
        queue_len > 0 ==> current_idx + 1 <= usize::MAX,
    ensures
        r == next_index(queue_len as int, current_idx as int),
{
    if queue_len == 0 {
        0
    } else {
        (current_idx + 1) % queue_len
    }
}

/// The auto-advance switch after one toggle.
pub open spec fn toggled(current: bool) -> bool {
    !current
}

/// Switches automatic advancing on or off.
pub fn toggle_auto(current: bool) -> (r: bool)
    ensures
        r == toggled(current),
{
    !current
}

/// Moving stays inside the queue: from any position, both steps land on a
/// position of a non-empty queue.
pub proof fn steps_stay_in_queue(len: int, current: int)
    requires
        len > 0,
        current >= 0,
    ensures
        0 <= prev_index(len, current) < len,
        0 <= next_index(len, current) < len,
{
}

/// A step back undoes a step forward, and a step forward undoes a step back,
/// for every position of the queue.
pub proof fn steps_undo_each_other(len: int, current: int)
    requires
        0 <= current < len,
    ensures
        prev_index(len, next_index(len, current)) == current,
        next_index(len, prev_index(len, current)) == current,
{
    if current + 1 < len {
        lemma_small_mod((current + 1) as nat, len as nat);
        assert(next_index(len, current) == current + 1);
        lemma_mod_add_multiples_vanish(current, len);
        lemma_small_mod(current as nat, len as nat);
        assert((current + 1 + len - 1) == len + current);
    } else {
        lemma_mod_self_0(len);
        assert(next_index(len, current) == 0);
        lemma_small_mod((len - 1) as nat, len as nat);
    }
    if current > 0 {
        lemma_mod_add_multiples_vanish(current - 1, len);
        lemma_small_mod((current - 1) as nat, len as nat);
        assert(current + len - 1 == len + (current - 1));
        assert(prev_index(len, current) == current - 1);
        lemma_small_mod(current as nat, len as nat);
    } else {
        lemma_small_mod((len - 1) as nat, len as nat);
        assert(prev_index(len, current) == len - 1);
        lemma_mod_self_0(len);
    }
}

/// Switching twice leaves the switch as it was, and switching always changes it.
pub proof fn toggle_twice_restores(current: bool)
    ensures
        toggled(toggled(current)) == current,
        toggled(current) != current,
{
}

/// The queue position shown for `queue_index` in a queue of `len` words: the
/// last one when the index is past the end.
pub open spec fn shown_index(len: int, queue_index: int) -> int {
    if queue_index < len - 1 {
        queue_index
    } else {
        len - 1
    }
}

/// The word shown for the pending words of a unit, `pending` in queue order,
/// out of `total` words in the unit.
pub open spec fn current_word_is(
    c: CurrentWord,
    pending: Seq<UnitWordRow>,
    total: int,
    queue_index: int,
) -> bool {
    let idx = shown_index(pending.len() as int, queue_index);
    let row = pending[idx];
    &&& c.unit_word_id == row.id
    &&& c.word_id == row.word_id
    &&& c.word@ == row.word@
    &&& c.meaning@ == row.meaning@
    &&& c.position == idx + 1
    &&& c.total_words == total
    &&& c.reviewed_words == (if total - pending.len() > 0 {
        total - pending.len()
    } else {
        0
    })
    &&& !c.auto_running
}

/// The word the overlay shows at `queue_index` among the pending words of a
/// unit that holds `total_words` words; none when no word is pending.
pub fn current_word(pending: &Vec<UnitWordRow>, total_words: usize, queue_index: usize) -> (r:
    Option<CurrentWord>)
    requires
        pending.len() <= i64::MAX,
        total_words <= i64::MAX,
    ensures
        r is None <==> pending.len() == 0,
        r matches Some(c) ==> current_word_is(c, pending@, total_words as int, queue_index as int),
{
    if pending.len() == 0 {
        return None;
    }
    let idx = if queue_index < pending.len() - 1 {
        queue_index
    } else {
        pending.len() - 1
    };
    let row = &pending[idx];
    let total = total_words as i64;
    let left = pending.len() as i64;
    let reviewed = if total - left > 0 {
        total - left
    } else {
        0
    };
    Some(
        CurrentWord {
            unit_word_id: row.id,
            word_id: row.word_id,
            word: row.word.clone(),
            meaning: row.meaning.clone(),
            position: (idx + 1) as i64,
            total_words: total,
            reviewed_words: reviewed,
            auto_running: false,
        },
    )
}

/// The word shown is a pending word, and its position is its place in the
/// pending queue, counted from 1: the word at `queue_index`, or the last one
/// when the index is past the end. The unit's reviewed count is its total
/// less the pending words, never below zero.
pub proof fn current_word_position_law(
    c: CurrentWord,
    pending: Seq<UnitWordRow>,
    total: int,
    queue_index: int,
)
    requires
        pending.len() > 0,
        queue_index >= 0,
        current_word_is(c, pending, total, queue_index),
    ensures
        1 <= c.position <= pending.len(),
        c.position == (if queue_index < pending.len() {
            queue_index + 1
        } else {
            pending.len() as int
        }),
        pending[c.position - 1].id == c.unit_word_id,
        pending[c.position - 1].word_id == c.word_id,
        pending[c.position - 1].word@ == c.word@,
        pending[c.position - 1].meaning@ == c.meaning@,
        c.total_words == total,
        c.reviewed_words >= 0,
        total >= pending.len() ==> c.reviewed_words + pending.len() == total,
        !c.auto_running,
{
}

} // verus!
