//! Price-time priority: a walk touches a resting order only after every
//! order ahead of it holds nothing, and gives up only when the whole side
//! holds nothing.
use vstd::prelude::*;
use crate::book::{spent, BookEntry, LevelView};
use crate::laws::idle;
use crate::matching::{fill, filled_entry, walk_down, walk_queue, walk_up, with_queue, FillRule, Tape};
use crate::origin::Origin;
use crate::snapshot::total;

verus! {

/// The same order, with no more to fill than before.
pub open spec fn worn(before: BookEntry, after: BookEntry) -> bool {
    &&& after.client == before.client
    &&& after.id == before.id
    &&& after.cycles_present == before.cycles_present
    &&& after.amount <= before.amount
}

/// Within a queue a walk keeps time priority. Every order stays in its place
/// and is at most worn down; one that was touched has only spent orders ahead
/// of it, from where the walk set out; and a walk that ends with quantity
/// still open leaves nothing to fill from there on.
pub proof fn lemma_walk_queue_priority(
    rule: FillRule,
    taker: Origin,
    price: i64,
    queue: Seq<BookEntry>,
    i: int,
    t: Tape,
)
    requires
        0 <= i <= queue.len(),
    ensures
        ({
            let (after, end) = walk_queue(rule, taker, price, queue, i, t);
            &&& after.len() == queue.len()
            &&& end.remaining <= t.remaining
            &&& t.done ==> end.done
            &&& forall|k: int| 0 <= k < queue.len() ==> worn(queue[k], #[trigger] after[k])
            &&& forall|k: int| 0 <= k < i ==> (#[trigger] after[k]) == queue[k]
            &&& forall|m: int, k: int|
                i <= m < k < queue.len() && (#[trigger] after[k]) != queue[k] ==> (#[trigger] after[m]).amount == 0
            &&& !end.done ==> forall|k: int| i <= k < queue.len() ==> (#[trigger] after[k]).amount == 0
        }),
    decreases queue.len() - i,
{
    let (after, end) = walk_queue(rule, taker, price, queue, i, t);
    if i >= queue.len() || t.done {
    } else if queue[i].amount == 0 {
        lemma_walk_queue_priority(rule, taker, price, queue, i + 1, t);
        assert(after[i] == queue[i]);
    } else {
        let next = queue.update(i, filled_entry(queue[i], t.remaining));
        let tape = fill(rule, taker, price, queue[i], t);
        lemma_walk_queue_priority(rule, taker, price, next, i + 1, tape);
        assert(after[i] == next[i]);
        assert forall|k: int| 0 <= k < queue.len() implies worn(queue[k], #[trigger] after[k]) by {
            assert(worn(next[k], after[k]));
        }
        assert forall|k: int| 0 <= k < i implies (#[trigger] after[k]) == queue[k] by {
            assert(after[k] == next[k]);
        }
        assert forall|m: int, k: int|
            i <= m < k < queue.len() && (#[trigger] after[k]) != queue[k] implies (#[trigger] after[m]).amount
            == 0 by {
            assert(next[k] == queue[k]);
            if m == i {
                if tape.done {
                    assert(after == next);
                }
            }
        }
        if !end.done {
            assert forall|k: int| i <= k < queue.len() implies (#[trigger] after[k]).amount == 0 by {
                if k == i {
                    assert(!tape.done);
                }
            }
        }
    }
}

/// Across levels a walk down keeps price priority. Every level stays under
/// its price key with its orders at most worn down; a level that was touched
/// has only spent levels above it, up to where the walk set out; and a walk
/// that ends with quantity still open leaves nothing to fill below there.
pub proof fn lemma_walk_down_priority(rule: FillRule, taker: Origin, side: Seq<LevelView>, n: int, t: Tape)
    requires
        0 <= n <= side.len(),
    ensures
        ({
            let (after, end) = walk_down(rule, taker, side, n, t);
            &&& after.len() == side.len()
            &&& end.remaining <= t.remaining
            &&& t.done ==> end.done
            &&& forall|l: int| n <= l < side.len() ==> (#[trigger] after[l]) == side[l]
            &&& forall|l: int, j: int|
                0 <= l < j < n && (#[trigger] after[l]) != side[l] ==> spent((#[trigger] after[j]).entries)
            &&& !end.done ==> forall|l: int| 0 <= l < n ==> spent((#[trigger] after[l]).entries)
        }),
    decreases n,
{
    let (after, end) = walk_down(rule, taker, side, n, t);
    if n <= 0 || t.done {
    } else {
        let level = side[n - 1];
        let (queue, tape) = walk_queue(rule, taker, level.price, level.entries, 0, t);
        lemma_walk_queue_priority(rule, taker, level.price, level.entries, 0, t);
        let next = with_queue(side, n - 1, queue);
        lemma_walk_down_priority(rule, taker, next, n - 1, tape);
        assert(after[n - 1] == next[n - 1]);
        assert forall|l: int| n <= l < side.len() implies (#[trigger] after[l]) == side[l] by {
            assert(after[l] == next[l]);
        }
        assert forall|l: int, j: int| 0 <= l < j < n && (#[trigger] after[l]) != side[l] implies spent(
            (#[trigger] after[j]).entries,
        ) by {
            assert(next[l] == side[l]);
            if j == n - 1 {
                if tape.done {
                    assert(after == next);
                }
            }
        }
        if !end.done {
            assert forall|l: int| 0 <= l < n implies spent((#[trigger] after[l]).entries) by {
                if l == n - 1 {
                    assert(!tape.done);
                }
            }
        }
    }
}

/// Across levels a walk up keeps price priority. Every level stays under its
/// price key with its orders at most worn down; a level that was touched has
/// only spent levels below it, down to where the walk set out; and a walk that
/// ends with quantity still open leaves nothing to fill above there.
pub proof fn lemma_walk_up_priority(rule: FillRule, taker: Origin, side: Seq<LevelView>, i: int, t: Tape)
    requires
        0 <= i <= side.len(),
    ensures
        ({
            let (after, end) = walk_up(rule, taker, side, i, t);
            &&& after.len() == side.len()
            &&& end.remaining <= t.remaining
            &&& t.done ==> end.done
            &&& forall|l: int| 0 <= l < i ==> (#[trigger] after[l]) == side[l]
            &&& forall|j: int, l: int|
                i <= j < l < side.len() && (#[trigger] after[l]) != side[l] ==> spent((#[trigger] after[j]).entries)
            &&& !end.done ==> forall|l: int| i <= l < side.len() ==> spent((#[trigger] after[l]).entries)
        }),
    decreases side.len() - i,
{
    let (after, end) = walk_up(rule, taker, side, i, t);
    if i >= side.len() || t.done {
    } else {
        let level = side[i];
        let (queue, tape) = walk_queue(rule, taker, level.price, level.entries, 0, t);
        lemma_walk_queue_priority(rule, taker, level.price, level.entries, 0, t);
        let next = with_queue(side, i, queue);
        lemma_walk_up_priority(rule, taker, next, i + 1, tape);
        assert(after[i] == next[i]);
        assert forall|l: int| 0 <= l < i implies (#[trigger] after[l]) == side[l] by {
            assert(after[l] == next[l]);
        }
        assert forall|j: int, l: int| i <= j < l < side.len() && (#[trigger] after[l]) != side[l] implies spent(
            (#[trigger] after[j]).entries,
        ) by {
            assert(next[l] == side[l]);
            if j == i {
                if tape.done {
                    assert(after == next);
                }
            }
        }
        if !end.done {
            assert forall|l: int| i <= l < side.len() implies spent((#[trigger] after[l]).entries) by {
                if l == i {
                    assert(!tape.done);
                }
            }
        }
    }
}

/// A walk that could not fill the whole order has left the side with
/// nothing to fill.
pub proof fn lemma_open_walk_drains(rule: FillRule, taker: Origin, side: Seq<LevelView>, t: Tape)
    requires
        !t.done,
    ensures
        walk_down(rule, taker, side, side.len() as int, t).1.remaining != 0 ==> idle(
            walk_down(rule, taker, side, side.len() as int, t).0,
        ),
        walk_up(rule, taker, side, 0, t).1.remaining != 0 ==> idle(walk_up(rule, taker, side, 0, t).0),
{
    lemma_walk_down_priority(rule, taker, side, side.len() as int, t);
    lemma_walk_up_priority(rule, taker, side, 0, t);
    lemma_walk_down_done(rule, taker, side, side.len() as int, t);
    lemma_walk_up_done(rule, taker, side, 0, t);
}

/// A walk is over only when nothing of the order is open.
pub proof fn lemma_walk_queue_done(rule: FillRule, taker: Origin, price: i64, queue: Seq<BookEntry>, i: int, t: Tape)
    requires
        t.done ==> t.remaining == 0,
    ensures
        walk_queue(rule, taker, price, queue, i, t).1.done ==> walk_queue(rule, taker, price, queue, i, t).1.remaining
            == 0,
    decreases queue.len() - i,
{
    if i < 0 || i >= queue.len() || t.done {
    } else if queue[i].amount == 0 {
        lemma_walk_queue_done(rule, taker, price, queue, i + 1, t);
    } else {
        lemma_walk_queue_done(
            rule,
            taker,
            price,
            queue.update(i, filled_entry(queue[i], t.remaining)),
            i + 1,
            fill(rule, taker, price, queue[i], t),
        );
    }
}

/// A walk down is over only when nothing of the order is open.
pub proof fn lemma_walk_down_done(rule: FillRule, taker: Origin, side: Seq<LevelView>, n: int, t: Tape)
    requires
        t.done ==> t.remaining == 0,
    ensures
        walk_down(rule, taker, side, n, t).1.done ==> walk_down(rule, taker, side, n, t).1.remaining == 0,
    decreases n,
{
    if !(n <= 0 || n > side.len() || t.done) {
        let (queue, tape) = walk_queue(rule, taker, side[n - 1].price, side[n - 1].entries, 0, t);
        lemma_walk_queue_done(rule, taker, side[n - 1].price, side[n - 1].entries, 0, t);
        lemma_walk_down_done(rule, taker, with_queue(side, n - 1, queue), n - 1, tape);
    }
}

/// A walk up is over only when nothing of the order is open.
pub proof fn lemma_walk_up_done(rule: FillRule, taker: Origin, side: Seq<LevelView>, i: int, t: Tape)
    requires
        t.done ==> t.remaining == 0,
    ensures
        walk_up(rule, taker, side, i, t).1.done ==> walk_up(rule, taker, side, i, t).1.remaining == 0,
    decreases side.len() - i,
{
    if !(i < 0 || i >= side.len() || t.done) {
        let (queue, tape) = walk_queue(rule, taker, side[i].price, side[i].entries, 0, t);
        lemma_walk_queue_done(rule, taker, side[i].price, side[i].entries, 0, t);
        lemma_walk_up_done(rule, taker, with_queue(side, i, queue), i + 1, tape);
    }
}

/// What an incoming quantity `remaining` takes of a resting order that
/// holds `amount`, with `ahead` held by the orders that come before it:
/// whatever the orders ahead leave of the quantity, up to what the order
/// holds.
pub open spec fn reach(remaining: int, ahead: int, amount: int) -> int {
    if remaining - ahead <= 0 {
        0
    } else if remaining - ahead >= amount {
        amount
    } else {
        remaining - ahead
    }
}

/// What is left of an incoming quantity after orders that hold `ahead`.
pub open spec fn left_over(remaining: int, ahead: int) -> int {
    if remaining - ahead <= 0 {
        0
    } else {
        remaining - ahead
    }
}

/// The quantity at rest in a queue is that of its first order and that of
/// the rest, and is not negative.
pub proof fn lemma_total_front(queue: Seq<BookEntry>)
    ensures
        total(queue) >= 0,
        queue.len() > 0 ==> total(queue) == queue[0].amount + total(queue.drop_first()),
    decreases queue.len(),
{
    if queue.len() > 0 {
        lemma_total_front(queue.drop_last());
        if queue.len() > 1 {
            assert(queue.drop_last().drop_first() =~= queue.drop_first().drop_last());
            lemma_total_front(queue.drop_first());
        } else {
            assert(queue.drop_first().len() == 0);
            assert(queue.drop_last().len() == 0);
        }
    }
}

/// The quantity at rest from order `i` up to order `k`.
pub open spec fn total_between(queue: Seq<BookEntry>, i: int, k: int) -> int {
    total(queue.subrange(i, k))
}

/// The walk in closed form. Each resting order from `i` on gives what the
/// incoming quantity can still take after the orders between `i` and it, and
/// the quantity ends with what all of them leave of it.
pub proof fn lemma_walk_queue_amounts(
    rule: FillRule,
    taker: Origin,
    price: i64,
    queue: Seq<BookEntry>,
    i: int,
    t: Tape,
)
    requires
        0 <= i <= queue.len(),
        t.done ==> t.remaining == 0,
    ensures
        ({
            let (after, end) = walk_queue(rule, taker, price, queue, i, t);
            &&& after.len() == queue.len()
            &&& forall|k: int|
                i <= k < queue.len() ==> (#[trigger] after[k]).amount == queue[k].amount - reach(
                    t.remaining as int,
                    total_between(queue, i, k),
                    queue[k].amount as int,
                )
            &&& end.remaining == left_over(t.remaining as int, total_between(queue, i, queue.len() as int))
        }),
    decreases queue.len() - i,
{
    let (after, end) = walk_queue(rule, taker, price, queue, i, t);
    lemma_walk_queue_priority(rule, taker, price, queue, i, t);
    assert forall|k: int| i <= k <= queue.len() implies #[trigger] total_between(queue, i, k) >= 0 by {
        lemma_total_front(queue.subrange(i, k));
    }
    if i >= queue.len() {
        assert(queue.subrange(i, queue.len() as int).len() == 0);
    } else if t.done {
        assert(after == queue);
    } else {
        let first = queue[i];
        let (next, tape) = if first.amount == 0 {
            (queue, t)
        } else {
            (queue.update(i, filled_entry(first, t.remaining)), fill(rule, taker, price, first, t))
        };
        let j = i + 1;
        lemma_walk_queue_amounts(rule, taker, price, next, j, tape);
        lemma_walk_queue_priority(rule, taker, price, next, j, tape);
        assert(after[i] == next[i]);
        assert(queue.subrange(i, i).len() == 0);
        assert forall|k: int| i < k <= queue.len() implies #[trigger] total_between(queue, i, k) == first.amount
            + total_between(next, j, k) by {
            lemma_total_front(queue.subrange(i, k));
            assert(queue.subrange(i, k).drop_first() =~= next.subrange(j, k));
        }
        assert forall|k: int| j <= k <= queue.len() implies #[trigger] total_between(next, j, k) >= 0 by {
            lemma_total_front(next.subrange(j, k));
        }
        assert forall|k: int| i <= k < queue.len() implies (#[trigger] after[k]).amount == queue[k].amount - reach(
            t.remaining as int,
            total_between(queue, i, k),
            queue[k].amount as int,
        ) by {
            if k > i {
                assert(next[k] == queue[k]);
                assert(total_between(queue, i, k) == first.amount + total_between(next, j, k));
            }
        }
        assert(total_between(queue, i, queue.len() as int) == first.amount + total_between(
            next,
            j,
            queue.len() as int,
        ));
    }
}

/// The quantity at rest in the levels from `from` up to `to`.
pub open spec fn held(side: Seq<LevelView>, from: int, to: int) -> int
    decreases to - from,
{
    if to <= from {
        0
    } else {
        held(side, from, to - 1) + total(side[to - 1].entries)
    }
}

/// The quantity at rest in a run of levels is not negative, is that of the
/// first level and that of the rest, and depends on those levels alone.
pub proof fn lemma_held(side: Seq<LevelView>, other: Seq<LevelView>, from: int, to: int)
    requires
        forall|l: int| from <= l < to ==> (#[trigger] side[l]).entries == other[l].entries,
    ensures
        held(side, from, to) >= 0,
        held(side, from, to) == held(other, from, to),
        from < to ==> held(side, from, to) == total(side[from].entries) + held(side, from + 1, to),
    decreases to - from,
{
    if from < to {
        lemma_held(side, other, from, to - 1);
        lemma_total_front(side[to - 1].entries);
        assert(side[to - 1].entries == other[to - 1].entries);
        if from + 1 < to {
            lemma_held(side, other, from + 1, to);
            lemma_held(side, other, from + 1, to - 1);
        }
    }
}

/// The walk down in closed form. Each resting order below level `n` gives
/// what the incoming quantity can still take after the levels above its own,
/// up to level `n`, and the orders ahead of it in its queue.
pub proof fn lemma_walk_down_amounts(rule: FillRule, taker: Origin, side: Seq<LevelView>, n: int, t: Tape)
    requires
        0 <= n <= side.len(),
        t.done ==> t.remaining == 0,
    ensures
        ({
            let (after, end) = walk_down(rule, taker, side, n, t);
            &&& after.len() == side.len()
            &&& forall|l: int| 0 <= l < n ==> (#[trigger] after[l]).entries.len() == side[l].entries.len()
            &&& forall|l: int, k: int|
                0 <= l < n && 0 <= k < side[l].entries.len() ==> (#[trigger] after[l].entries[k]).amount
                    == side[l].entries[k].amount - reach(
                    t.remaining as int,
                    held(side, l + 1, n) + total(side[l].entries.take(k)),
                    side[l].entries[k].amount as int,
                )
            &&& end.remaining == left_over(t.remaining as int, held(side, 0, n))
        }),
    decreases n,
{
    let (after, end) = walk_down(rule, taker, side, n, t);
    lemma_walk_down_priority(rule, taker, side, n, t);
    lemma_held(side, side, 0, n);
    assert forall|l: int, k: int| 0 <= l < n && 0 <= k <= side[l].entries.len() implies held(side, l + 1, n) >= 0
        && #[trigger] total(side[l].entries.take(k)) >= 0 by {
        lemma_held(side, side, l + 1, n);
        lemma_total_front(side[l].entries.take(k));
    }
    if n <= 0 {
    } else if t.done {
        assert(after == side);
    } else {
        let m = n - 1;
        let level = side[m];
        let queue = level.entries;
        let (worked, tape) = walk_queue(rule, taker, level.price, queue, 0, t);
        lemma_walk_queue_amounts(rule, taker, level.price, queue, 0, t);
        lemma_walk_queue_done(rule, taker, level.price, queue, 0, t);
        let next = with_queue(side, m, worked);
        lemma_walk_down_amounts(rule, taker, next, m, tape);
        lemma_walk_down_priority(rule, taker, next, m, tape);
        lemma_total_front(queue);
        assert(queue.subrange(0, queue.len() as int) =~= queue);
        assert(tape.remaining == left_over(t.remaining as int, total(queue)));
        lemma_held(side, next, 0, m);
        assert(held(side, 0, n) == held(side, 0, m) + total(queue));
        assert(after[m] == next[m]);
        assert forall|l: int, k: int| 0 <= l < n && 0 <= k < side[l].entries.len() implies (
        #[trigger] after[l].entries[k]).amount == side[l].entries[k].amount - reach(
            t.remaining as int,
            held(side, l + 1, n) + total(side[l].entries.take(k)),
            side[l].entries[k].amount as int,
        ) by {
            if l == m {
                assert(held(side, n, n) == 0);
                assert(queue.take(k) == queue.subrange(0, k));
                assert(worked[k].amount == queue[k].amount - reach(
                    t.remaining as int,
                    total_between(queue, 0, k),
                    queue[k].amount as int,
                ));
            } else {
                assert(next[l] == side[l]);
                lemma_held(side, next, l + 1, m);
                assert(held(side, l + 1, n) == held(side, l + 1, m) + total(queue));
                lemma_held(side, side, l + 1, m);
                lemma_total_front(side[l].entries.take(k));
            }
        }
    }
}

/// The walk up in closed form. Each resting order from level `i` on gives
/// what the incoming quantity can still take after the levels below its own,
/// down to level `i`, and the orders ahead of it in its queue.
pub proof fn lemma_walk_up_amounts(rule: FillRule, taker: Origin, side: Seq<LevelView>, i: int, t: Tape)
    requires
        0 <= i <= side.len(),
        t.done ==> t.remaining == 0,
    ensures
        ({
            let (after, end) = walk_up(rule, taker, side, i, t);
            &&& after.len() == side.len()
            &&& forall|l: int| i <= l < side.len() ==> (#[trigger] after[l]).entries.len() == side[l].entries.len()
            &&& forall|l: int, k: int|
                i <= l < side.len() && 0 <= k < side[l].entries.len() ==> (#[trigger] after[l].entries[k]).amount
                    == side[l].entries[k].amount - reach(
                    t.remaining as int,
                    held(side, i, l) + total(side[l].entries.take(k)),
                    side[l].entries[k].amount as int,
                )
            &&& end.remaining == left_over(t.remaining as int, held(side, i, side.len() as int))
        }),
    decreases side.len() - i,
{
    let (after, end) = walk_up(rule, taker, side, i, t);
    let n = side.len() as int;
    lemma_walk_up_priority(rule, taker, side, i, t);
    lemma_held(side, side, i, n);
    assert forall|l: int, k: int| i <= l < n && 0 <= k <= side[l].entries.len() implies held(side, i, l) >= 0
        && #[trigger] total(side[l].entries.take(k)) >= 0 by {
        lemma_held(side, side, i, l);
        lemma_total_front(side[l].entries.take(k));
    }
    if i >= n {
    } else if t.done {
        assert(after == side);
    } else {
        let j = i + 1;
        let level = side[i];
        let queue = level.entries;
        let (worked, tape) = walk_queue(rule, taker, level.price, queue, 0, t);
        lemma_walk_queue_amounts(rule, taker, level.price, queue, 0, t);
        lemma_walk_queue_done(rule, taker, level.price, queue, 0, t);
        let next = with_queue(side, i, worked);
        lemma_walk_up_amounts(rule, taker, next, j, tape);
        lemma_walk_up_priority(rule, taker, next, j, tape);
        lemma_total_front(queue);
        assert(queue.subrange(0, queue.len() as int) =~= queue);
        assert(tape.remaining == left_over(t.remaining as int, total(queue)));
        lemma_held(side, next, j, n);
        assert(held(side, i, n) == total(queue) + held(side, j, n));
        assert(after[i] == next[i]);
        assert forall|l: int, k: int| i <= l < n && 0 <= k < side[l].entries.len() implies (
        #[trigger] after[l].entries[k]).amount == side[l].entries[k].amount - reach(
            t.remaining as int,
            held(side, i, l) + total(side[l].entries.take(k)),
            side[l].entries[k].amount as int,
        ) by {
            if l == i {
                assert(held(side, i, i) == 0);
                assert(queue.take(k) == queue.subrange(0, k));
                assert(worked[k].amount == queue[k].amount - reach(
                    t.remaining as int,
                    total_between(queue, 0, k),
                    queue[k].amount as int,
                ));
            } else {
                assert(next[l] == side[l]);
                lemma_held(side, next, j, l);
                lemma_held(side, side, i, l);
                assert(held(side, i, l) == total(queue) + held(side, j, l));
                lemma_held(side, side, j, l);
                lemma_total_front(side[l].entries.take(k));
            }
        }
    }
}

} // verus!
