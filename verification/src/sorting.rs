//! Sorting of the hop table: columns, directions, keys, and the order of the rows.

use vstd::prelude::*;

use crate::ratio::{law_less_is_an_order, Ratio};

verus! {

/// Sorting column of the hop table.
#[derive(Clone, Copy, Debug, PartialEq, Eq, Structural)]
pub enum SortColumn {
    HopNumber,
    IpAddress,
    AvgRtt,
    MinRtt,
    MaxRtt,
    Jitter,
    Loss,
    PingCount,
}

/// Sorting direction of the hop table.
#[derive(Clone, Copy, Debug, PartialEq, Eq, Structural)]
pub enum SortDirection {
    Asc,
    Desc,
}

impl Default for SortColumn {
    /// The table is sorted by average RTT at first.
    fn default() -> (r: SortColumn)
        ensures
            r == SortColumn::AvgRtt,
    {
        SortColumn::AvgRtt
    }
}

impl Default for SortDirection {
    /// The table is sorted downwards at first.
    fn default() -> (r: SortDirection)
        ensures
            r == SortDirection::Desc,
    {
        SortDirection::Desc
    }
}

// ---------------------------------------------------------------------------------------------
// Column headers
// ---------------------------------------------------------------------------------------------

/// The opposite direction.
pub open spec fn reversed(direction: SortDirection) -> SortDirection {
    match direction {
        SortDirection::Asc => SortDirection::Desc,
        SortDirection::Desc => SortDirection::Asc,
    }
}

/// The sorting after a click on a column header: the current column changes its direction,
/// another one is sorted upwards.
pub open spec fn after_click(
    column: SortColumn,
    direction: SortDirection,
    clicked: SortColumn,
) -> (SortColumn, SortDirection) {
    if column == clicked {
        (column, reversed(direction))
    } else {
        (clicked, SortDirection::Asc)
    }
}

/// Changes the sorting after a click on a column header.
pub fn click_header(column: &mut SortColumn, direction: &mut SortDirection, clicked: SortColumn)
    ensures
        (*final(column), *final(direction)) == after_click(
            *old(column),
            *old(direction),
            clicked,
        ),
{
    if *column == clicked {
        *direction = match *direction {
            SortDirection::Asc => SortDirection::Desc,
            SortDirection::Desc => SortDirection::Asc,
        };
    } else {
        *column = clicked;
        *direction = SortDirection::Asc;
    }
}

/// The sort indicator beside a column header: an arrow at the current column only.
pub fn sort_indicator(
    column: SortColumn,
    direction: SortDirection,
    header: SortColumn,
) -> (r: Option<&'static str>)
    ensures
        r is Some <==> column == header,
        r matches Some(arrow) ==> arrow@ == match direction {
            SortDirection::Asc => " \u{25B2}"@,
            SortDirection::Desc => " \u{25BC}"@,
        },
{
    if column == header {
        Some(
            match direction {
                SortDirection::Asc => " \u{25B2}",
                SortDirection::Desc => " \u{25BC}",
            },
        )
    } else {
        None
    }
}

/// A clicked column is the current one afterwards. A second click on it reverses the direction,
/// and a third one restores it.
pub proof fn law_clicks_toggle_the_direction(
    column: SortColumn,
    direction: SortDirection,
    clicked: SortColumn,
)
    ensures
        ({
            let (c1, d1) = after_click(column, direction, clicked);
            let (c2, d2) = after_click(c1, d1, clicked);
            &&& c1 == clicked
            &&& column != clicked ==> d1 == SortDirection::Asc
            &&& column == clicked ==> d1 != direction
            &&& d2 != d1
            &&& c2 == clicked && d2 == reversed(d1)
            &&& after_click(c2, d2, clicked) == (c1, d1)
        }),
{
}

// ---------------------------------------------------------------------------------------------
// Keys
// ---------------------------------------------------------------------------------------------

/// What a row is sorted by.
#[derive(Clone, Copy, Debug, PartialEq, Eq, Structural)]
pub enum SortKey {
    Finite(Ratio),
    /// Greater than every finite key; keys beyond are ordered among themselves.
    Beyond(Ratio),
    /// Greater than every other key.
    Infinite,
}

impl SortKey {
    /// The quotient of a key has a positive denominator.
    pub open spec fn valid(self) -> bool {
        match self {
            SortKey::Finite(ratio) | SortKey::Beyond(ratio) => ratio.valid(),
            SortKey::Infinite => true,
        }
    }

    /// The order of the keys.
    pub open spec fn less(self, other: SortKey) -> bool {
        match (self, other) {
            (SortKey::Finite(a), SortKey::Finite(b)) => a.less(b),
            (SortKey::Finite(_), _) => true,
            (SortKey::Beyond(_), SortKey::Finite(_)) => false,
            (SortKey::Beyond(a), SortKey::Beyond(b)) => a.less(b),
            (SortKey::Beyond(_), SortKey::Infinite) => true,
            (SortKey::Infinite, _) => false,
        }
    }

    /// Whether a row with this key goes before one with the other key in the given direction.
    pub open spec fn goes_first(self, other: SortKey, direction: SortDirection) -> bool {
        match direction {
            SortDirection::Asc => self.less(other),
            SortDirection::Desc => other.less(self),
        }
    }

    fn is_less(&self, other: &SortKey) -> (r: bool)
        requires
            self.valid(),
            other.valid(),
        ensures
            r == self.less(*other),
    {
        match self {
            SortKey::Finite(a) => match other {
                SortKey::Finite(b) => a.is_less(b),
                SortKey::Beyond(_) | SortKey::Infinite => true,
            },
            SortKey::Beyond(a) => match other {
                SortKey::Finite(_) => false,
                SortKey::Beyond(b) => a.is_less(b),
                SortKey::Infinite => true,
            },
            SortKey::Infinite => false,
        }
    }

    /// Decides whether a row with this key goes before one with the other key.
    pub fn is_first(&self, other: &SortKey, direction: SortDirection) -> (r: bool)
        requires
            self.valid(),
            other.valid(),
        ensures
            r == self.goes_first(*other, direction),
    {
        match direction {
            SortDirection::Asc => self.is_less(other),
            SortDirection::Desc => other.is_less(self),
        }
    }
}

/// Going first is a strict weak order in either direction: it is irreflexive, and both it and
/// its negation are transitive.
pub proof fn law_going_first_is_an_order(
    a: SortKey,
    b: SortKey,
    c: SortKey,
    direction: SortDirection,
)
    requires
        a.valid(),
        b.valid(),
        c.valid(),
    ensures
        !a.goes_first(a, direction),
        a.goes_first(b, direction) && b.goes_first(c, direction) ==> a.goes_first(c, direction),
        !a.goes_first(b, direction) && !b.goes_first(c, direction) ==> !a.goes_first(c, direction),
{
    match (a, b, c) {
        (SortKey::Finite(x), SortKey::Finite(y), SortKey::Finite(z)) => {
            law_less_is_an_order(x, y, z);
            law_less_is_an_order(z, y, x);
        },
        (SortKey::Beyond(x), SortKey::Beyond(y), SortKey::Beyond(z)) => {
            law_less_is_an_order(x, y, z);
            law_less_is_an_order(z, y, x);
        },
        _ => {
            // Keys of different kinds are ordered by their kind
            if let SortKey::Finite(x) | SortKey::Beyond(x) = a {
                law_less_is_an_order(x, x, x);
            }
        },
    }
}

/// The order is reversed by the direction.
pub proof fn law_directions_are_opposite(a: SortKey, b: SortKey)
    ensures
        a.goes_first(b, SortDirection::Asc) <==> b.goes_first(a, SortDirection::Desc),
{
}

// ---------------------------------------------------------------------------------------------
// The order of the rows
// ---------------------------------------------------------------------------------------------

/// Whether row `a` stands before row `b`: its key goes first, or the keys tie and it was first
/// in the unsorted table.
pub open spec fn stands_before(
    keys: Seq<SortKey>,
    direction: SortDirection,
    a: int,
    b: int,
) -> bool {
    keys[a].goes_first(keys[b], direction) || (!keys[b].goes_first(keys[a], direction) && a < b)
}

/// `order` lists the rows of a table with the given keys, by their place in the unsorted table,
/// each of them once and every one before those that it stands before.
pub open spec fn is_row_order(
    order: Seq<usize>,
    keys: Seq<SortKey>,
    direction: SortDirection,
) -> bool {
    &&& order.len() == keys.len()
    &&& forall|i: int| 0 <= i < order.len() ==> (#[trigger] order[i]) < keys.len()
    &&& forall|i: int, j: int|
        0 <= i < j < order.len() ==> stands_before(
            keys,
            direction,
            #[trigger] order[i] as int,
            #[trigger] order[j] as int,
        )
}

/// `order` is a row order of the first `n` rows.
spec fn orders_first(
    order: Seq<usize>,
    keys: Seq<SortKey>,
    direction: SortDirection,
    n: nat,
) -> bool {
    &&& order.len() == n
    &&& forall|i: int| 0 <= i < order.len() ==> (#[trigger] order[i]) < n
    &&& forall|i: int, j: int|
        0 <= i < j < order.len() ==> stands_before(
            keys,
            direction,
            #[trigger] order[i] as int,
            #[trigger] order[j] as int,
        )
}

/// Row `n` belongs at place `p` of an order of the rows before it where its key goes before
/// those of all rows from there on, but not before that of the row just before.
proof fn lemma_insert_row(
    order: Seq<usize>,
    keys: Seq<SortKey>,
    direction: SortDirection,
    n: usize,
    p: int,
)
    requires
        n < keys.len(),
        forall|i: int| 0 <= i < keys.len() ==> (#[trigger] keys[i]).valid(),
        orders_first(order, keys, direction, n as nat),
        0 <= p <= n,
        forall|j: int|
            p <= j < n ==> keys[n as int].goes_first(
                keys[#[trigger] order[j] as int],
                direction,
            ),
        p > 0 ==> !keys[n as int].goes_first(keys[order[p - 1] as int], direction),
    ensures
        orders_first(order.insert(p, n), keys, direction, (n + 1) as nat),
{
    let longer = order.insert(p, n);
    assert forall|j: int| 0 <= j < p implies stands_before(
        keys,
        direction,
        #[trigger] order[j] as int,
        n as int,
    ) by {
        let last = order[p - 1] as int;
        let row = order[j] as int;
        if j < p - 1 {
            assert(stands_before(keys, direction, row, last));
            law_going_first_is_an_order(keys[last], keys[row], keys[last], direction);
            law_going_first_is_an_order(keys[row], keys[last], keys[row], direction);
            law_going_first_is_an_order(keys[n as int], keys[last], keys[row], direction);
        }
    }
    assert forall|i: int, j: int| 0 <= i < j < longer.len() implies stands_before(
        keys,
        direction,
        #[trigger] longer[i] as int,
        #[trigger] longer[j] as int,
    ) by {
        let oi = if i < p {
            i
        } else {
            i - 1
        };
        let oj = if j < p {
            j
        } else {
            j - 1
        };
        if i != p && j != p {
            assert(longer[i] == order[oi] && longer[j] == order[oj]);
        } else if i == p {
            assert(longer[j] == order[oj]);
        } else {
            assert(longer[i] == order[oi]);
        }
    }
}

/// Sorts the rows of a table by their keys; rows whose keys tie keep their order.
pub fn sort_rows(keys: &Vec<SortKey>, direction: SortDirection) -> (r: Vec<usize>)
    requires
        forall|i: int| 0 <= i < keys@.len() ==> (#[trigger] keys@[i]).valid(),
    ensures
        is_row_order(r@, keys@, direction),
{
    let mut order: Vec<usize> = Vec::new();
    let mut n: usize = 0;
    while n < keys.len()
        invariant
            n <= keys@.len(),
            forall|i: int| 0 <= i < keys@.len() ==> (#[trigger] keys@[i]).valid(),
            orders_first(order@, keys@, direction, n as nat),
        decreases keys@.len() - n,
    {
        // Row n goes before those at the end of the order that its key goes before
        let mut p: usize = n;
        while p > 0 && keys[n].is_first(&keys[order[p - 1]], direction)
            invariant
                p <= n < keys@.len(),
                forall|i: int| 0 <= i < keys@.len() ==> (#[trigger] keys@[i]).valid(),
                orders_first(order@, keys@, direction, n as nat),
                forall|j: int|
                    p <= j < n ==> keys@[n as int].goes_first(
                        keys@[#[trigger] order@[j] as int],
                        direction,
                    ),
            decreases p,
        {
            p = p - 1;
        }
        proof {
            lemma_insert_row(order@, keys@, direction, n, p as int);
        }
        order.insert(p, n);
        n = n + 1;
    }
    order
}

/// Where row `n` belongs among the first `p` rows of an order.
spec fn row_place(
    order: Seq<usize>,
    keys: Seq<SortKey>,
    direction: SortDirection,
    n: int,
    p: nat,
) -> nat
    decreases p,
{
    if p > 0 && keys[n].goes_first(keys[order[p - 1] as int], direction) {
        row_place(order, keys, direction, n, (p - 1) as nat)
    } else {
        p
    }
}

/// Row `n` goes before all rows from its place on, and not before the row just before.
proof fn lemma_row_place(
    order: Seq<usize>,
    keys: Seq<SortKey>,
    direction: SortDirection,
    n: int,
    p: nat,
)
    ensures
        row_place(order, keys, direction, n, p) <= p,
        forall|j: int|
            row_place(order, keys, direction, n, p) <= j < p ==> keys[n].goes_first(
                keys[#[trigger] order[j] as int],
                direction,
            ),
        row_place(order, keys, direction, n, p) > 0 ==> !keys[n].goes_first(
            keys[order[row_place(order, keys, direction, n, p) - 1] as int],
            direction,
        ),
    decreases p,
{
    if p > 0 && keys[n].goes_first(keys[order[p - 1] as int], direction) {
        lemma_row_place(order, keys, direction, n, (p - 1) as nat);
    }
}

/// The first `n` rows can be ordered.
proof fn lemma_rows_can_be_ordered(
    keys: Seq<SortKey>,
    direction: SortDirection,
    n: nat,
) -> (order: Seq<usize>)
    requires
        n <= keys.len() <= usize::MAX,
        forall|i: int| 0 <= i < keys.len() ==> (#[trigger] keys[i]).valid(),
    ensures
        orders_first(order, keys, direction, n),
    decreases n,
{
    if n == 0 {
        Seq::empty()
    } else {
        let row = (n - 1) as usize;
        let shorter = lemma_rows_can_be_ordered(keys, direction, (n - 1) as nat);
        let p = row_place(shorter, keys, direction, row as int, row as nat);
        lemma_row_place(shorter, keys, direction, row as int, row as nat);
        lemma_insert_row(shorter, keys, direction, row, p as int);
        shorter.insert(p as int, row)
    }
}

/// Every table has a row order, in either direction.
pub proof fn law_row_order_exists(keys: Seq<SortKey>, direction: SortDirection)
    requires
        keys.len() <= usize::MAX,
        forall|i: int| 0 <= i < keys.len() ==> (#[trigger] keys[i]).valid(),
    ensures
        exists|order: Seq<usize>| is_row_order(order, keys, direction),
{
    let order = lemma_rows_can_be_ordered(keys, direction, keys.len());
    assert(is_row_order(order, keys, direction));
}

/// A sorted table has every row: the order holds every place of the unsorted table.
pub proof fn law_row_order_is_complete(
    order: Seq<usize>,
    keys: Seq<SortKey>,
    direction: SortDirection,
)
    requires
        is_row_order(order, keys, direction),
        forall|i: int| 0 <= i < keys.len() ==> (#[trigger] keys[i]).valid(),
    ensures
        order.no_duplicates(),
        forall|k: usize| k < keys.len() ==> #[trigger] order.contains(k),
{
    assert forall|i: int, j: int| 0 <= i < j < order.len() implies order[i] != order[j] by {
        let a = order[i] as int;
        assert(stands_before(keys, direction, a, order[j] as int));
        law_going_first_is_an_order(keys[a], keys[a], keys[a], direction);
    }
    assert(order.no_duplicates());
    lemma_distinct_places_are_all(order, keys.len());
}

/// A list of `n` distinct numbers below `n` holds all of them.
proof fn lemma_distinct_places_are_all(order: Seq<usize>, n: nat)
    requires
        order.len() == n,
        order.no_duplicates(),
        forall|i: int| 0 <= i < order.len() ==> (#[trigger] order[i]) < n,
    ensures
        forall|k: usize| k < n ==> #[trigger] order.contains(k),
    decreases n,
{
    if n > 0 {
        let top = (n - 1) as usize;
        if order.contains(top) {
            let p = choose|p: int| 0 <= p < order.len() && order[p] == top;
            let rest = order.remove(p);
            assert forall|i: int| 0 <= i < rest.len() implies (#[trigger] rest[i]) < n - 1 by {
                let q = if i < p {
                    i
                } else {
                    i + 1
                };
                assert(rest[i] == order[q]);
            }
            assert(rest.no_duplicates()) by {
                assert forall|i: int, j: int|
                    0 <= i < rest.len() && 0 <= j < rest.len() && i != j implies rest[i]
                    != rest[j] by {
                    let qi = if i < p {
                        i
                    } else {
                        i + 1
                    };
                    let qj = if j < p {
                        j
                    } else {
                        j + 1
                    };
                    assert(rest[i] == order[qi] && rest[j] == order[qj]);
                }
            }
            lemma_distinct_places_are_all(rest, (n - 1) as nat);
            assert forall|k: usize| k < n implies #[trigger] order.contains(k) by {
                if k < n - 1 {
                    assert(rest.contains(k));
                    let i = choose|i: int| 0 <= i < rest.len() && rest[i] == k;
                    let q = if i < p {
                        i
                    } else {
                        i + 1
                    };
                    assert(order[q] == k);
                }
            }
        } else {
            // All of the n numbers are below n - 1: the first n - 1 of them are all of those,
            // so the last one repeats
            let rest = order.drop_last();
            assert forall|i: int| 0 <= i < order.len() implies (#[trigger] order[i]) < n - 1 by {
                assert(order.contains(order[i]));
            }
            assert forall|i: int| 0 <= i < rest.len() implies (#[trigger] rest[i]) < n - 1 by {
                assert(rest[i] == order[i]);
            }
            lemma_distinct_places_are_all(rest, (n - 1) as nat);
            let last = order[n - 1];
            assert(rest.contains(last));
            let i = choose|i: int| 0 <= i < rest.len() && rest[i] == last;
            assert(order[i] == order[n - 1]);
        }
    }
}

/// There is only one order of the rows for given keys and a given direction.
pub proof fn law_row_order_is_unique(
    a: Seq<usize>,
    b: Seq<usize>,
    keys: Seq<SortKey>,
    direction: SortDirection,
)
    requires
        is_row_order(a, keys, direction),
        is_row_order(b, keys, direction),
        forall|i: int| 0 <= i < keys.len() ==> (#[trigger] keys[i]).valid(),
    ensures
        a == b,
{
    law_row_order_is_complete(a, keys, direction);
    law_row_order_is_complete(b, keys, direction);
    assert forall|i: int| 0 <= i < a.len() implies a[i] == b[i] by {
        lemma_same_place(a, b, keys, direction, i);
    }
    assert(a =~= b);
}

/// Two orders of the same rows agree place by place.
proof fn lemma_same_place(
    a: Seq<usize>,
    b: Seq<usize>,
    keys: Seq<SortKey>,
    direction: SortDirection,
    i: int,
)
    requires
        is_row_order(a, keys, direction),
        is_row_order(b, keys, direction),
        forall|i: int| 0 <= i < keys.len() ==> (#[trigger] keys[i]).valid(),
        a.no_duplicates(),
        b.no_duplicates(),
        forall|k: usize| k < keys.len() ==> #[trigger] a.contains(k),
        forall|k: usize| k < keys.len() ==> #[trigger] b.contains(k),
        0 <= i < a.len(),
    ensures
        a[i] == b[i],
    decreases i,
{
    assert forall|j: int| 0 <= j < i implies a[j] == b[j] by {
        lemma_same_place(a, b, keys, direction, j);
    }
    if a[i] != b[i] {
        // Each of the two rows stands later in the other order, so each stands before the other
        assert(b.contains(a[i]));
        let p = choose|p: int| 0 <= p < b.len() && b[p] == a[i];
        assert(a.contains(b[i]));
        let q = choose|q: int| 0 <= q < a.len() && a[q] == b[i];
        assert(p > i) by {
            if p < i {
                assert(a[p] == b[p]);
            }
        }
        assert(q > i) by {
            if q < i {
                assert(a[q] == b[q]);
            }
        }
        let x = a[i] as int;
        let y = b[i] as int;
        assert(stands_before(keys, direction, a[i] as int, a[q] as int));
        assert(stands_before(keys, direction, b[i] as int, b[p] as int));
        law_going_first_is_an_order(keys[x], keys[y], keys[x], direction);
        assert(false);
    }
}

/// Keys compare as the numbers that they stand for: quotients by cross-multiplication, all finite
/// keys before those beyond, and these before the infinite one.
pub proof fn law_keys_compare_as_numbers(a: SortKey, b: SortKey)
    ensures
        a matches SortKey::Finite(x) ==> (b matches SortKey::Finite(y) ==> (a.less(b) <==> x.num
            * y.den < y.num * x.den)),
        a matches SortKey::Beyond(x) ==> (b matches SortKey::Beyond(y) ==> (a.less(b) <==> x.num
            * y.den < y.num * x.den)),
        a is Finite && !(b is Finite) ==> a.less(b) && !b.less(a),
        a is Beyond && b is Infinite ==> a.less(b) && !b.less(a),
        a is Infinite && b is Infinite ==> !a.less(b),
        a.goes_first(b, SortDirection::Asc) <==> a.less(b),
        a.goes_first(b, SortDirection::Desc) <==> b.less(a),
{
}

/// A sorted table is in order, and the sorting is stable: no row's key goes before that of a row
/// above it, and rows whose keys tie stand in the order of the unsorted table.
pub proof fn law_row_order_is_sorted_and_stable(
    order: Seq<usize>,
    keys: Seq<SortKey>,
    direction: SortDirection,
    i: int,
    j: int,
)
    requires
        is_row_order(order, keys, direction),
        forall|i: int| 0 <= i < keys.len() ==> (#[trigger] keys[i]).valid(),
        0 <= i < j < order.len(),
    ensures
        order.len() == keys.len(),
        order[i] < keys.len(),
        !keys[order[j] as int].goes_first(keys[order[i] as int], direction),
        keys[order[i] as int].goes_first(keys[order[j] as int], direction) || order[i] < order[j],
{
    let (a, b) = (keys[order[i] as int], keys[order[j] as int]);
    assert(stands_before(keys, direction, order[i] as int, order[j] as int));
    assert(order[j] < keys.len());
    law_going_first_is_an_order(a, b, a, direction);
}

} // verus!
