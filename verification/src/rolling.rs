//! Rolling buffers: lists that keep the latest items only.

use vstd::prelude::*;

verus! {

/// A full buffer of `cap` items drops its oldest item before it takes a new one.
pub open spec fn roll<T>(items: Seq<T>, cap: nat, item: T) -> Seq<T> {
    if items.len() >= cap {
        items.drop_first().push(item)
    } else {
        items.push(item)
    }
}

/// The last `n` items, or all where there are fewer.
pub open spec fn last_n<T>(items: Seq<T>, n: nat) -> Seq<T> {
    if items.len() > n {
        items.skip(items.len() - n)
    } else {
        items
    }
}

/// The buffer after it took the given items, oldest first, starting empty.
pub open spec fn rolled<T>(items: Seq<T>, cap: nat) -> Seq<T>
    decreases items.len(),
{
    if items.len() == 0 {
        Seq::empty()
    } else {
        roll(rolled(items.drop_last(), cap), cap, items.last())
    }
}

/// Adds an item to a rolling buffer.
pub fn push_rolling<T>(buffer: &mut Vec<T>, cap: usize, item: T)
    requires
        cap > 0,
    ensures
        final(buffer)@ == roll(old(buffer)@, cap as nat, item),
        final(buffer)@.last() == item,
        old(buffer)@.len() < cap ==> final(buffer)@.drop_last() == old(buffer)@,
        old(buffer)@.len() >= cap ==> final(buffer)@.drop_last() == old(buffer)@.skip(1),
{
    if buffer.len() >= cap {
        let ghost before = buffer@;
        buffer.remove(0);
        assert(buffer@ =~= before.drop_first());
    }
    buffer.push(item);
    assert(buffer@.drop_last() =~= if old(buffer)@.len() >= cap {
        old(buffer)@.skip(1)
    } else {
        old(buffer)@
    });
}

/// A rolling buffer holds exactly the last `cap` items that it took, in order.
pub proof fn law_rolling_buffer_keeps_the_latest<T>(items: Seq<T>, cap: nat)
    requires
        cap > 0,
    ensures
        rolled(items, cap) == last_n(items, cap),
    decreases items.len(),
{
    if items.len() > 0 {
        law_rolling_buffer_keeps_the_latest(items.drop_last(), cap);
        assert(rolled(items, cap) =~= last_n(items, cap));
    }
}

/// A buffer within its capacity stays within it.
pub proof fn law_rolling_buffer_is_bounded<T>(items: Seq<T>, cap: nat, item: T)
    requires
        cap > 0,
        items.len() <= cap,
    ensures
        roll(items, cap, item).len() <= cap,
        roll(items, cap, item).last() == item,
{
}

/// A rolling buffer takes a new item at its end. It keeps all others at their places where there
/// is room; where it is full it drops the oldest one, and the others move up by one place.
pub proof fn law_rolling_moves_items_up<T>(items: Seq<T>, cap: nat, item: T)
    requires
        cap > 0,
    ensures
        items.len() < cap ==> {
            &&& roll(items, cap, item).len() == items.len() + 1
            &&& forall|i: int| 0 <= i < items.len() ==> #[trigger] roll(items, cap, item)[i] == items[i]
        },
        items.len() >= cap ==> {
            &&& roll(items, cap, item).len() == items.len()
            &&& forall|i: int|
                0 <= i < items.len() - 1 ==> #[trigger] roll(items, cap, item)[i] == items[i + 1]
        },
        roll(items, cap, item)[roll(items, cap, item).len() - 1] == item,
{
}

/// The last `n` items are the `n` items up to the end, each at its place counted from the end.
pub proof fn law_last_items_end_the_list<T>(items: Seq<T>, n: nat)
    ensures
        last_n(items, n).len() == if items.len() <= n {
            items.len()
        } else {
            n
        },
        forall|i: int|
            1 <= i <= last_n(items, n).len() ==> #[trigger] last_n(items, n)[last_n(items, n).len()
                - i] == items[items.len() - i],
{
}

} // verus!
