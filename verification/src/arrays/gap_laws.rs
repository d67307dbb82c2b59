//! What holds of a gap buffer over whole editing sessions.
//!
//! Every operation of the buffer promises that its content afterwards is
//! the model's transition applied to its content before. The statements
//! here are about those transitions, so they hold of every buffer and every
//! sequence of calls.

use vstd::prelude::*;
use crate::arrays::gap_model::{
    alternates, count_inserts, least_doubling, only_typing, shortfall, Content, Edit,
    MIN_BUF_SIZE,
};

verus! {

/// One edit keeps the layout invariant: the gap stays inside the storage and
/// starts at the cursor, and the storage keeps its minimum size.
pub proof fn lemma_apply_wf(s: Content, e: Edit)
    requires
        s.wf(),
    ensures
        s.apply(e).wf(),
{
}

/// The layout invariant holds after every step of every sequence of edits.
pub proof fn lemma_every_step_wf(s: Content, edits: Seq<Edit>)
    requires
        s.wf(),
    ensures
        forall|k: int| 0 <= k <= edits.len() ==> (#[trigger] s.run(edits.take(k))).wf(),
{
    assert forall|k: int| 0 <= k <= edits.len() implies (#[trigger] s.run(edits.take(k))).wf() by {
        lemma_run_wf(s, edits.take(k));
    }
}

/// The layout invariant holds at the end of every sequence of edits.
pub proof fn lemma_run_wf(s: Content, edits: Seq<Edit>)
    requires
        s.wf(),
    ensures
        s.run(edits).wf(),
    decreases edits.len(),
{
    if edits.len() > 0 {
        lemma_run_wf(s, edits.drop_last());
        lemma_apply_wf(s.run(edits.drop_last()), edits.last());
    }
}

/// A buffer made for no more than the minimum size never has less storage
/// than was asked for, whatever is done to it.
pub proof fn lemma_capacity_floor(requested: nat, edits: Seq<Edit>)
    requires
        requested <= MIN_BUF_SIZE,
    ensures
        Content::fresh(requested).run(edits).capacity >= requested,
        Content::fresh(requested).run(edits).capacity >= MIN_BUF_SIZE,
{
    lemma_run_wf(Content::fresh(requested), edits);
}

/// The number of characters held is the number of slots outside the gap.
pub proof fn lemma_used_size(s: Content)
    ensures
        s.used_size() == s.cursor + (s.capacity - s.gap_end()),
{
}

/// A resize loses no character, repeats none and leaves the cursor alone.
pub proof fn lemma_resize_keeps_text(s: Content, new_capacity: nat)
    ensures
        s.resize(new_capacity).text == s.text,
        s.resize(new_capacity).used_size() == s.used_size(),
        s.resize(new_capacity).cursor == s.cursor,
        s.resize(new_capacity).capacity == new_capacity,
{
}

/// An insertion puts the character between the text before the cursor and
/// the text after it, moves the cursor one on and leaves the storage as it
/// is unless it is full; full storage, and no other, doubles, and all of the
/// text is copied over.
pub proof fn lemma_insert(s: Content, c: char)
    requires
        s.wf(),
    ensures
        s.insert(c).wf(),
        s.insert(c).text == s.text.subrange(0, s.cursor as int).push(c) + s.text.subrange(
            s.cursor as int,
            s.text.len() as int,
        ),
        s.insert(c).cursor == s.cursor + 1,
        s.insert(c).used_size() == s.used_size() + 1,
        s.insert(c).capacity == if s.used_size() < s.capacity {
            s.capacity
        } else {
            2 * s.capacity
        },
        s.insert(c).capacity >= s.insert(c).used_size(),
        s.resizes(Edit::Insert(c)) <==> s.used_size() == s.capacity,
        s.relocated(Edit::Insert(c)) == if s.used_size() == s.capacity {
            s.used_size()
        } else {
            0
        },
{
    assert(s.insert(c).text =~= s.text.subrange(0, s.cursor as int).push(c) + s.text.subrange(
        s.cursor as int,
        s.text.len() as int,
    ));
}

/// A forward deletion at the end of the text changes nothing, storage
/// included. Elsewhere it takes out the character at the cursor, and the
/// storage either stays or shrinks to its target.
pub proof fn lemma_delete(s: Content)
    requires
        s.wf(),
    ensures
        s.delete().wf(),
        s.delete().cursor == s.cursor,
        s.cursor == s.text.len() ==> s.delete() == s,
        s.cursor < s.text.len() ==> s.delete().text == s.text.remove(s.cursor as int)
            && s.delete().used_size() == s.used_size() - 1,
        s.delete().capacity <= s.capacity,
{
}

/// A backspace at the start of the text changes nothing. Elsewhere it takes
/// out the one character left of the cursor and keeps all text right of it;
/// the storage either stays or shrinks to its target.
pub proof fn lemma_backspace(s: Content)
    requires
        s.wf(),
    ensures
        s.backspace().wf(),
        s.cursor == 0 ==> s.backspace() == s,
        s.cursor > 0 ==> s.backspace().text == s.text.subrange(0, s.cursor - 1) + s.text.subrange(
            s.cursor as int,
            s.text.len() as int,
        ) && s.backspace().cursor == s.cursor - 1 && s.backspace().used_size() == s.used_size()
            - 1,
        s.backspace().capacity <= s.capacity,
{
    if s.cursor > 0 {
        assert(s.text.remove(s.cursor - 1) =~= s.text.subrange(0, s.cursor - 1) + s.text.subrange(
            s.cursor as int,
            s.text.len() as int,
        ));
    }
}

/// One edit does to the buffer's text and cursor what it does to a plain
/// sequence.
pub proof fn lemma_apply_flat(s: Content, e: Edit)
    requires
        s.wf(),
    ensures
        s.apply(e).flat() == s.flat().apply(e),
{
}

/// Round trip: after any sequence of edits the buffer holds the text, and
/// the cursor, that the same edits give on a plain sequence.
pub proof fn lemma_round_trip(s: Content, edits: Seq<Edit>)
    requires
        s.wf(),
    ensures
        s.run(edits).flat() == s.flat().run(edits),
    decreases edits.len(),
{
    if edits.len() > 0 {
        lemma_round_trip(s, edits.drop_last());
        lemma_run_wf(s, edits.drop_last());
        lemma_apply_flat(s.run(edits.drop_last()), edits.last());
    }
}

/// The least doubling holds what it is asked to hold and is no doubling too
/// many.
pub proof fn lemma_least_doubling(start: nat, n: nat)
    requires
        start > 0,
    ensures
        least_doubling(start, n) >= n,
        least_doubling(start, n) >= start,
        least_doubling(start, n) == start || least_doubling(start, n) < 2 * n,
    decreases shortfall(start, n),
{
    if start < n {
        lemma_least_doubling(2 * start, n);
    }
}

/// When one more character is to be held, the least doubling stays if it
/// has room and doubles once if it has not.
pub proof fn lemma_least_doubling_step(start: nat, n: nat)
    requires
        start > 0,
    ensures
        least_doubling(start, n + 1) == if least_doubling(start, n) >= n + 1 {
            least_doubling(start, n)
        } else {
            2 * least_doubling(start, n)
        },
    decreases shortfall(start, n),
{
    if start < n {
        lemma_least_doubling_step(2 * start, n);
    } else if start == n {
        assert(least_doubling(2 * start, n + 1) == 2 * start);
    }
}

/// Geometric growth: while a session only types and moves the cursor, the
/// storage is the initial one doubled as few times as it takes to hold the
/// text, the characters copied by all resizes together are exactly the
/// storage gained, and that is less than twice the text at the end.
pub proof fn lemma_growth_cost(s: Content, edits: Seq<Edit>)
    requires
        s.wf(),
        only_typing(edits),
    ensures
        s.run(edits).text.len() == s.text.len() + count_inserts(edits),
        s.run(edits).capacity == least_doubling(s.capacity, s.run(edits).text.len()),
        s.total_relocated(edits) == s.run(edits).capacity - s.capacity,
        s.run(edits).capacity == s.capacity || s.run(edits).capacity < 2 * s.run(edits).text.len(),
        s.total_relocated(edits) <= 2 * s.run(edits).text.len(),
        s.run(edits).text.len() > 0 ==> s.total_relocated(edits) < 2 * s.run(edits).text.len(),
    decreases edits.len(),
{
    if edits.len() > 0 {
        let init = edits.drop_last();
        assert(only_typing(init));
        lemma_growth_cost(s, init);
        lemma_run_wf(s, init);
        let before = s.run(init);
        lemma_least_doubling_step(s.capacity, before.text.len());
        if edits.last() is Insert {
            lemma_insert(before, edits.last()->Insert_0);
        }
    }
}

/// Amortised cost: after typing `n` characters into a new buffer, with any
/// cursor moves in between, the storage is the initial one doubled as few
/// times as it takes to hold `n`, and the resizes have copied fewer than
/// `2 * n` characters between them.
pub proof fn lemma_amortized_insert_cost(requested: nat, edits: Seq<Edit>)
    requires
        only_typing(edits),
    ensures
        Content::fresh(requested).run(edits).capacity == least_doubling(
            Content::initial_capacity(requested),
            count_inserts(edits),
        ),
        Content::fresh(requested).total_relocated(edits) <= 2 * count_inserts(edits),
        count_inserts(edits) > 0 ==> Content::fresh(requested).total_relocated(edits) < 2
            * count_inserts(edits),
{
    lemma_growth_cost(Content::fresh(requested), edits);
}

/// A shrink aims strictly below the storage size that set it off, at no
/// less than the minimum size, and leaves room for the text twice over.
pub proof fn lemma_shrink_target(s: Content)
    requires
        s.wf(),
        s.is_sparse(),
    ensures
        MIN_BUF_SIZE <= s.shrink_target() < s.capacity,
        2 * s.text.len() <= s.shrink_target(),
        !s.shrink_if_sparse().is_sparse(),
{
}

/// Hysteresis: a resize is never followed by another one at the next edit.
/// Storage that has just doubled is too full to shrink, and storage that has
/// just shrunk is at most half full.
pub proof fn lemma_no_consecutive_resizes(s: Content, first: Edit, second: Edit)
    requires
        s.wf(),
        s.resizes(first),
    ensures
        !s.apply(first).resizes(second),
{
}

/// Running a sequence with one more edit at its end is running the sequence
/// and then applying the edit.
pub proof fn lemma_run_push(s: Content, edits: Seq<Edit>, e: Edit)
    ensures
        s.run(edits.push(e)) == s.run(edits).apply(e),
        s.total_resizes(edits.push(e)) == s.total_resizes(edits) + if s.run(edits).resizes(e) {
            1nat
        } else {
            0nat
        },
{
    assert(edits.push(e).drop_last() =~= edits);
}

/// No churn: any number of insert-and-backspace pairs leaves text and cursor
/// as they were and resizes the storage at most once, however long the
/// typing goes on.
pub proof fn lemma_alternation_resizes(s: Content, edits: Seq<Edit>)
    requires
        s.wf(),
        alternates(edits),
    ensures
        s.run(edits).text == s.text,
        s.run(edits).cursor == s.cursor,
        s.total_resizes(edits) <= 1,
{
    lemma_alternation_settles(s, edits);
}

/// No churn at the capacity boundary: from full storage, insert-and-backspace
/// pairs double the storage at the first insertion and never resize it
/// again, neither at a backspace nor at a later insertion.
pub proof fn lemma_alternation_at_full(s: Content, edits: Seq<Edit>)
    requires
        s.wf(),
        s.used_size() == s.capacity,
        alternates(edits),
        edits.len() > 0,
    ensures
        s.resizes(edits[0]),
        s.total_resizes(edits) == 1,
        s.run(edits).capacity == 2 * s.capacity,
        s.run(edits).text == s.text,
        s.run(edits).cursor == s.cursor,
    decreases edits.len(),
{
    let typing = edits[edits.len() - 2];
    let erasing = edits[edits.len() - 1];
    let init = edits.drop_last().drop_last();
    assert(alternates(init));
    assert(edits =~= init.push(typing).push(erasing));
    lemma_run_push(s, init, typing);
    lemma_run_push(s, init.push(typing), erasing);
    lemma_alternation_settles(s, init);
    lemma_pair(s.run(init), typing, erasing);
    if init.len() == 0 {
        assert(s.total_resizes(init) == 0);
    } else {
        assert(init[0] == edits[0]);
        lemma_alternation_at_full(s, init);
    }
}

/// Whether the storage is neither full nor sparse.
spec fn settled(s: Content) -> bool {
    !s.is_sparse() && s.text.len() < s.capacity
}

/// Number of resizes over two edits in a row.
spec fn pair_resizes(s: Content, first: Edit, second: Edit) -> nat {
    (if s.resizes(first) {
        1nat
    } else {
        0nat
    }) + (if s.apply(first).resizes(second) {
        1nat
    } else {
        0nat
    })
}

/// One insert-and-backspace pair gives back the text and the cursor, resizes
/// at most once and leaves the storage settled; settled storage it does not
/// resize at all.
proof fn lemma_pair(s: Content, typing: Edit, erasing: Edit)
    requires
        s.wf(),
        typing is Insert,
        erasing is Backspace,
    ensures
        s.apply(typing).apply(erasing).wf(),
        s.apply(typing).apply(erasing).text == s.text,
        s.apply(typing).apply(erasing).cursor == s.cursor,
        settled(s.apply(typing).apply(erasing)),
        pair_resizes(s, typing, erasing) <= 1,
        settled(s) ==> pair_resizes(s, typing, erasing) == 0 && s.apply(typing).apply(erasing) == s,
        s.used_size() == s.capacity ==> s.resizes(typing) && !s.apply(typing).resizes(erasing)
            && s.apply(typing).apply(erasing).capacity == 2 * s.capacity,
{
    let t1 = s.apply(typing);
    assert(t1.wf());
    assert(t1.text.remove(t1.cursor - 1) =~= s.text);
    if s.resizes(typing) {
        lemma_no_consecutive_resizes(s, typing, erasing);
    }
}

/// After at least one insert-and-backspace pair the storage is settled, and
/// only the first pair can have resized it.
proof fn lemma_alternation_settles(s: Content, edits: Seq<Edit>)
    requires
        s.wf(),
        alternates(edits),
    ensures
        s.run(edits).wf(),
        s.run(edits).text == s.text,
        s.run(edits).cursor == s.cursor,
        s.total_resizes(edits) <= 1,
        edits.len() > 0 ==> settled(s.run(edits)),
    decreases edits.len(),
{
    if edits.len() > 0 {
        let typing = edits[edits.len() - 2];
        let erasing = edits[edits.len() - 1];
        let init = edits.drop_last().drop_last();
        assert(alternates(init));
        assert(edits =~= init.push(typing).push(erasing));
        lemma_alternation_settles(s, init);
        lemma_run_push(s, init, typing);
        lemma_run_push(s, init.push(typing), erasing);
        lemma_pair(s.run(init), typing, erasing);
        if init.len() == 0 {
            assert(s.total_resizes(init) == 0);
        }
    }
}

} // verus!
