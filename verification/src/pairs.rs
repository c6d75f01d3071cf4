//! Pairs of numbers with a bounded count of digits, in descending order of
//! their product.
//!
//! The producer walks the lower triangle `j <= i <= max` from its corner
//! `(max, max)`. It keeps a frontier of cells that are known but not handed out
//! yet, gives out the frontier's largest cell, and then adds the two neighbours
//! of that cell, `(i - 1, j)` and `(i, j - 1)`, unless they are known already.
use vstd::prelude::*;
use vstd::multiset::Multiset;
use std::collections::HashSet;
use crate::frontier::{triple_le, triple_lt, Frontier};
use crate::generator::{Resumed, SuspendableProducer};

verus! {

/// The largest number with `digits` decimal digits: `digits` nines.
pub open spec fn all_nines(digits: nat) -> nat
    decreases digits,
{
    if digits == 0 {
        0
    } else {
        all_nines((digits - 1) as nat) * 10 + 9
    }
}

/// `digits` nines are one short of the power of ten with that exponent.
pub proof fn lemma_all_nines_is_power(digits: nat)
    ensures
        all_nines(digits) == vstd::arithmetic::power::pow(10, digits) - 1,
    decreases digits,
{
    reveal(vstd::arithmetic::power::pow);
    if digits > 0 {
        lemma_all_nines_is_power((digits - 1) as nat);
    }
}

/// The number of nines grows with the count of digits.
pub proof fn lemma_all_nines_monotonic(a: nat, b: nat)
    requires
        a <= b,
    ensures
        all_nines(a) <= all_nines(b),
    decreases b,
{
    if a < b {
        lemma_all_nines_monotonic(a, (b - 1) as nat);
    }
}

/// Four nines, and what fewer digits give.
pub proof fn lemma_all_nines_small()
    ensures
        all_nines(0) == 0,
        all_nines(1) == 9,
        all_nines(2) == 99,
        all_nines(3) == 999,
        all_nines(4) == 9999,
{
    reveal_with_fuel(all_nines, 5);
}

/// The cell `pair` belongs to the walk under `max`: it lies in the lower
/// triangle, and below a positive `max` both its coordinates are positive.
pub open spec fn in_domain(max: u32, pair: (u32, u32)) -> bool {
    &&& pair.1 <= pair.0 <= max
    &&& max >= 1 ==> pair.1 >= 1
}

/// The frontier entry of a cell: its product, then its coordinates.
pub open spec fn triple_of(pair: (u32, u32)) -> (u32, u32, u32) {
    ((pair.0 * pair.1) as u32, pair.0, pair.1)
}

/// The cell `a` is handed out before the cell `b`: it has the larger product,
/// or the same product and the larger first coordinate.
pub open spec fn precedes(a: (u32, u32), b: (u32, u32)) -> bool {
    triple_lt(triple_of(b), triple_of(a))
}

/// Neither coordinate of `b` exceeds that of `a`.
pub open spec fn dominates(a: (u32, u32), b: (u32, u32)) -> bool {
    b.0 <= a.0 && b.1 <= a.1
}

/// The key under which a cell is remembered as known.
pub open spec fn cell_key(pair: (u32, u32)) -> u64 {
    (pair.0 * 0x1_0000_0000 + pair.1) as u64
}

/// A cell that another one dominates is handed out no earlier than it.
pub proof fn lemma_dominated_is_later(a: (u32, u32), b: (u32, u32))
    requires
        dominates(a, b),
        a.0 <= 0xffff,
        a.1 <= 0xffff,
    ensures
        triple_le(triple_of(b), triple_of(a)),
{
    assert(b.0 * b.1 <= a.0 * a.1 <= 0xffff * 0xffff) by (nonlinear_arith)
        requires
            b.0 <= a.0 <= 0xffff,
            b.1 <= a.1 <= 0xffff,
            b.0 >= 0,
            b.1 >= 0,
    ;
    if b.0 * b.1 == a.0 * a.1 && b.0 == a.0 && b.1 < a.1 {
    }
}

/// The product of a cell fits the frontier's entries.
pub proof fn lemma_product_fits(max: u32, pair: (u32, u32))
    requires
        max <= 0xffff,
        pair.0 <= max,
        pair.1 <= max,
    ensures
        pair.0 * pair.1 <= 0xffff * 0xffff,
        0xffff * 0xffff < u32::MAX,
{
    assert(pair.0 * pair.1 <= 0xffff * 0xffff) by (nonlinear_arith)
        requires
            0 <= pair.0 <= 0xffff,
            0 <= pair.1 <= 0xffff,
    ;
}

/// Distinct cells have distinct keys.
pub proof fn lemma_cell_key_injective(a: (u32, u32), b: (u32, u32))
    requires
        cell_key(a) == cell_key(b),
    ensures
        a == b,
{
}

/// Every entry of the frontier is the entry of a cell of the walk, and is
/// held once.
pub open spec fn cells_ok(max: u32, f: Multiset<(u32, u32, u32)>) -> bool {
    forall|t: (u32, u32, u32)| #[trigger]
        f.count(t) > 0 ==> t == triple_of((t.1, t.2)) && in_domain(max, (t.1, t.2)) && f.count(t)
            == 1
}

/// What was handed out lies in the walk and came in strictly descending order.
pub open spec fn emitted_ok(max: u32, e: Seq<(u32, u32)>) -> bool {
    &&& forall|k: int| 0 <= k < e.len() ==> in_domain(max, #[trigger] e[k])
    &&& forall|k: int, l: int| 0 <= k < l < e.len() ==> precedes(e[k], e[l])
}

/// The known cells are those handed out and those in the frontier.
pub open spec fn seen_ok(
    max: u32,
    s: Set<u64>,
    e: Seq<(u32, u32)>,
    f: Multiset<(u32, u32, u32)>,
) -> bool {
    forall|a: (u32, u32)| #[trigger]
        in_domain(max, a) ==> (s.contains(cell_key(a)) <==> e.contains(a) || f.count(triple_of(a))
            > 0)
}

/// Every entry of the frontier comes after the cell handed out last.
pub open spec fn behind_last(e: Seq<(u32, u32)>, f: Multiset<(u32, u32, u32)>) -> bool {
    forall|t: (u32, u32, u32)| #[trigger]
        f.count(t) > 0 && e.len() > 0 ==> triple_lt(t, triple_of(e.last()))
}

/// Some entry of the frontier dominates the cell `a`.
pub open spec fn frontier_dominates(f: Multiset<(u32, u32, u32)>, a: (u32, u32)) -> bool {
    exists|t: (u32, u32, u32)| #[trigger] f.count(t) > 0 && dominates((t.1, t.2), a)
}

/// Every cell of the walk was handed out, or can still be reached: from an
/// entry of the frontier, or from the cell `pending` whose neighbours have not
/// been added yet.
pub open spec fn reachable(
    max: u32,
    e: Seq<(u32, u32)>,
    f: Multiset<(u32, u32, u32)>,
    pending: Option<(u32, u32)>,
) -> bool {
    forall|a: (u32, u32)| #[trigger]
        in_domain(max, a) ==> e.contains(a) || frontier_dominates(f, a) || (pending matches Some(
            l,
        ) && dominates(l, a))
}

/// `n` is a neighbour that the walk adds after the cell `a`: one down in the
/// first coordinate, where that stays in the triangle, or one down in the
/// second, where that stays positive.
pub open spec fn is_neighbour(a: (u32, u32), n: (u32, u32)) -> bool {
    ||| a.0 > 1 && a.1 <= a.0 - 1 && n == ((a.0 - 1) as u32, a.1)
    ||| a.1 > 1 && n == (a.0, (a.1 - 1) as u32)
}

/// `c` is a neighbour of a cell that was handed out.
pub open spec fn neighbour_of_emitted(e: Seq<(u32, u32)>, c: (u32, u32)) -> bool {
    exists|k: int| 0 <= k < e.len() && is_neighbour(#[trigger] e[k], c)
}

/// Every entry of the frontier is the corner or a neighbour of a cell that was
/// handed out.
pub open spec fn frontier_from_emitted(
    max: u32,
    e: Seq<(u32, u32)>,
    f: Multiset<(u32, u32, u32)>,
) -> bool {
    forall|t: (u32, u32, u32)| #[trigger]
        f.count(t) > 0 ==> (t.1, t.2) == (max, max) || neighbour_of_emitted(e, (t.1, t.2))
}

/// Every neighbour of a cell that was handed out, the cell `pending` left
/// aside, was handed out itself or waits in the frontier.
pub open spec fn neighbours_known(
    e: Seq<(u32, u32)>,
    f: Multiset<(u32, u32, u32)>,
    pending: Option<(u32, u32)>,
) -> bool {
    forall|k: int, n: (u32, u32)|
        0 <= k < e.len() && #[trigger] is_neighbour(e[k], n) && (pending is Some ==> k < e.len()
            - 1) ==> e.contains(n) || f.count(triple_of(n)) > 0
}

/// The invariant of the walk: of what was handed out, the frontier, the known
/// cells, and the cell still to be expanded.
pub open spec fn walk_inv(
    max: u32,
    e: Seq<(u32, u32)>,
    f: Multiset<(u32, u32, u32)>,
    s: Set<u64>,
    pending: Option<(u32, u32)>,
) -> bool {
    &&& max <= 0xffff
    &&& cells_ok(max, f)
    &&& emitted_ok(max, e)
    &&& seen_ok(max, s, e, f)
    &&& behind_last(e, f)
    &&& reachable(max, e, f, pending)
    &&& frontier_from_emitted(max, e, f)
    &&& neighbours_known(e, f, pending)
    &&& pending matches Some(l) ==> e.len() > 0 && e.last() == l
}

/// `pair` is the cell to hand out next: the first, in the order of the walk,
/// among the cells not handed out yet.
pub open spec fn is_next_pair(max: u32, e: Seq<(u32, u32)>, pair: (u32, u32)) -> bool {
    &&& in_domain(max, pair)
    &&& !e.contains(pair)
    &&& forall|other: (u32, u32)| #[trigger]
        in_domain(max, other) && !e.contains(other) ==> other == pair || precedes(pair, other)
}

/// Every cell of the walk was handed out.
pub open spec fn exhausted(max: u32, e: Seq<(u32, u32)>) -> bool {
    forall|a: (u32, u32)| #[trigger] in_domain(max, a) ==> e.contains(a)
}

/// A neighbour that is known already waits in the frontier.
pub proof fn lemma_known_neighbour_waits(
    max: u32,
    e: Seq<(u32, u32)>,
    f: Multiset<(u32, u32, u32)>,
    s: Set<u64>,
    last: (u32, u32),
    n: (u32, u32),
)
    requires
        walk_inv(max, e, f, s, Some(last)),
        in_domain(max, n),
        precedes(last, n),
        s.contains(cell_key(n)),
    ensures
        f.count(triple_of(n)) > 0,
{
    if e.contains(n) {
        let k = choose|k: int| 0 <= k < e.len() && e[k] == n;
        if k < e.len() - 1 {
            assert(precedes(e[k], e[e.len() - 1]));
        }
    }
}

/// Adding a neighbour that was not known keeps the invariant.
pub proof fn lemma_add_neighbour(
    max: u32,
    e: Seq<(u32, u32)>,
    f: Multiset<(u32, u32, u32)>,
    s: Set<u64>,
    last: (u32, u32),
    n: (u32, u32),
)
    requires
        walk_inv(max, e, f, s, Some(last)),
        in_domain(max, n),
        is_neighbour(last, n),
        precedes(last, n),
        !s.contains(cell_key(n)),
    ensures
        walk_inv(max, e, f.insert(triple_of(n)), s.insert(cell_key(n)), Some(last)),
{
    broadcast use vstd::multiset::group_multiset_axioms;

    let f2 = f.insert(triple_of(n));
    let s2 = s.insert(cell_key(n));
    assert(f.count(triple_of(n)) == 0);
    assert forall|t: (u32, u32, u32)| #[trigger] f2.count(t) > 0 implies (t.1, t.2) == (max, max)
        || neighbour_of_emitted(e, (t.1, t.2)) by {
        if t != triple_of(n) {
            assert(f.count(t) > 0);
        } else {
            assert(is_neighbour(e[e.len() - 1], n));
        }
    }
    assert forall|k: int, c: (u32, u32)|
        0 <= k < e.len() - 1 && #[trigger] is_neighbour(e[k], c) implies e.contains(c) || f2.count(
        triple_of(c),
    ) > 0 by {
        assert(e.contains(c) || f.count(triple_of(c)) > 0);
    }
    assert forall|t: (u32, u32, u32)| #[trigger] f2.count(t) > 0 implies t == triple_of(
        (t.1, t.2),
    ) && in_domain(max, (t.1, t.2)) && f2.count(t) == 1 by {
        if t != triple_of(n) {
            assert(f.count(t) > 0);
        }
    }
    assert forall|a: (u32, u32)| #[trigger] in_domain(max, a) implies (s2.contains(cell_key(a))
        <==> e.contains(a) || f2.count(triple_of(a)) > 0) by {
        if cell_key(a) == cell_key(n) {
            lemma_cell_key_injective(a, n);
        }
    }
    assert forall|t: (u32, u32, u32)| #[trigger] f2.count(t) > 0 && e.len() > 0 implies triple_lt(
        t,
        triple_of(e.last()),
    ) by {
        if t != triple_of(n) {
            assert(f.count(t) > 0);
        }
    }
    assert forall|a: (u32, u32)| #[trigger] in_domain(max, a) implies e.contains(a)
        || frontier_dominates(f2, a) || dominates(last, a) by {
        if frontier_dominates(f, a) {
            let t = choose|t: (u32, u32, u32)| #[trigger]
                f.count(t) > 0 && dominates((t.1, t.2), a);
            assert(f2.count(t) > 0);
        }
    }
}

/// Once both neighbours of the last cell wait in the frontier, where the walk
/// admits them, the last cell itself is needed no more to reach the rest.
pub proof fn lemma_expanded(
    max: u32,
    e: Seq<(u32, u32)>,
    f: Multiset<(u32, u32, u32)>,
    s: Set<u64>,
    last: (u32, u32),
)
    requires
        walk_inv(max, e, f, s, Some(last)),
        last.0 > 1 && last.1 <= last.0 - 1 ==> f.count(triple_of(((last.0 - 1) as u32, last.1)))
            > 0,
        last.1 > 1 ==> f.count(triple_of((last.0, (last.1 - 1) as u32))) > 0,
    ensures
        walk_inv(max, e, f, s, None),
{
    assert forall|k: int, c: (u32, u32)|
        0 <= k < e.len() && #[trigger] is_neighbour(e[k], c) implies e.contains(c) || f.count(
        triple_of(c),
    ) > 0 by {
        if k < e.len() - 1 {
            assert(e.contains(c) || f.count(triple_of(c)) > 0);
        }
    }
    assert(in_domain(max, e[e.len() - 1]));
    assert forall|a: (u32, u32)| #[trigger] in_domain(max, a) implies e.contains(a)
        || frontier_dominates(f, a) by {
        if !e.contains(a) && !frontier_dominates(f, a) {
            assert(dominates(last, a));
            assert(a != last);
            if a.0 < last.0 && last.1 <= last.0 - 1 {
                let t = triple_of(((last.0 - 1) as u32, last.1));
                assert(f.count(t) > 0 && dominates((t.1, t.2), a));
            } else {
                let t = triple_of((last.0, (last.1 - 1) as u32));
                assert(f.count(t) > 0 && dominates((t.1, t.2), a));
            }
        }
    }
}

/// The largest entry of the frontier is the cell to hand out next, and
/// handing it out keeps the invariant, its neighbours still to be added.
pub proof fn lemma_take_largest(
    max: u32,
    e: Seq<(u32, u32)>,
    f: Multiset<(u32, u32, u32)>,
    s: Set<u64>,
    top: (u32, u32, u32),
)
    requires
        walk_inv(max, e, f, s, None),
        f.count(top) > 0,
        forall|other: (u32, u32, u32)| #[trigger] f.count(other) > 0 ==> triple_le(other, top),
    ensures
        is_next_pair(max, e, (top.1, top.2)),
        walk_inv(max, e.push((top.1, top.2)), f.remove(top), s, Some((top.1, top.2))),
{
    broadcast use vstd::multiset::group_multiset_axioms;

    let pair = (top.1, top.2);
    let e2 = e.push(pair);
    let f2 = f.remove(top);
    assert(top == triple_of(pair));
    assert(f2.count(top) == 0);
    // the cell was not handed out before
    if e.contains(pair) {
        let k = choose|k: int| 0 <= k < e.len() && e[k] == pair;
        if k < e.len() - 1 {
            assert(precedes(e[k], e[e.len() - 1]));
        }
    }
    // nothing that is left comes before it
    assert forall|other: (u32, u32)| #[trigger]
        in_domain(max, other) && !e.contains(other) implies other == pair || precedes(
        pair,
        other,
    ) by {
        assert(frontier_dominates(f, other));
        let t = choose|t: (u32, u32, u32)| #[trigger]
            f.count(t) > 0 && dominates((t.1, t.2), other);
        lemma_dominated_is_later((t.1, t.2), other);
        assert(triple_le(t, top));
    }
    assert forall|t: (u32, u32, u32)| #[trigger] f2.count(t) > 0 implies t == triple_of(
        (t.1, t.2),
    ) && in_domain(max, (t.1, t.2)) && f2.count(t) == 1 by {
        assert(f.count(t) > 0);
    }
    assert forall|k: int, l: int| 0 <= k < l < e2.len() implies precedes(e2[k], e2[l]) by {
        if l == e.len() {
            if k < e.len() - 1 {
                assert(precedes(e[k], e[e.len() - 1]));
            }
        }
    }
    assert forall|a: (u32, u32)| #[trigger] in_domain(max, a) implies (s.contains(cell_key(a))
        <==> e2.contains(a) || f2.count(triple_of(a)) > 0) by {
        if a == pair {
            assert(e2[e.len() as int] == pair);
        } else {
            if e.contains(a) {
                let k = choose|k: int| 0 <= k < e.len() && e[k] == a;
                assert(e2[k] == a);
            }
            if e2.contains(a) {
                let k = choose|k: int| 0 <= k < e2.len() && e2[k] == a;
                assert(e[k] == a);
            }
        }
    }
    assert forall|t: (u32, u32, u32)| #[trigger] f2.count(t) > 0 && e2.len() > 0 implies triple_lt(
        t,
        triple_of(e2.last()),
    ) by {
        assert(f.count(t) > 0);
        assert(triple_le(t, top));
    }
    assert forall|t: (u32, u32, u32)| #[trigger] f2.count(t) > 0 implies (t.1, t.2) == (max, max)
        || neighbour_of_emitted(e2, (t.1, t.2)) by {
        assert(f.count(t) > 0);
        if (t.1, t.2) != (max, max) {
            let k = choose|k: int| 0 <= k < e.len() && is_neighbour(#[trigger] e[k], (t.1, t.2));
            assert(is_neighbour(e2[k], (t.1, t.2)));
        }
    }
    assert forall|k: int, c: (u32, u32)|
        0 <= k < e2.len() - 1 && #[trigger] is_neighbour(e2[k], c) implies e2.contains(c)
        || f2.count(triple_of(c)) > 0 by {
        assert(is_neighbour(e[k], c));
        if e.contains(c) {
            let l = choose|l: int| 0 <= l < e.len() && e[l] == c;
            assert(e2[l] == c);
        } else if triple_of(c) == top {
            assert(e2[e.len() as int] == c);
        }
    }
    assert forall|a: (u32, u32)| #[trigger] in_domain(max, a) implies e2.contains(a)
        || frontier_dominates(f2, a) || dominates(pair, a) by {
        if e.contains(a) {
            let k = choose|k: int| 0 <= k < e.len() && e[k] == a;
            assert(e2[k] == a);
        } else {
            assert(frontier_dominates(f, a));
            let t = choose|t: (u32, u32, u32)| #[trigger]
                f.count(t) > 0 && dominates((t.1, t.2), a);
            if t != top {
                assert(f2.count(t) > 0);
            }
        }
    }
}

/// With an empty frontier every cell of the walk was handed out.
pub proof fn lemma_frontier_empty(
    max: u32,
    e: Seq<(u32, u32)>,
    f: Multiset<(u32, u32, u32)>,
    s: Set<u64>,
)
    requires
        walk_inv(max, e, f, s, None),
        f.len() == 0,
    ensures
        exhausted(max, e),
{
    broadcast use vstd::multiset::group_multiset_axioms;

    assert forall|a: (u32, u32)| #[trigger] in_domain(max, a) implies e.contains(a) by {
        if frontier_dominates(f, a) {
            let t = choose|t: (u32, u32, u32)| #[trigger]
                f.count(t) > 0 && dominates((t.1, t.2), a);
            assert(f.contains(t));
        }
    }
}

/// Before anything is handed out, the corner alone is known and waits.
pub proof fn lemma_walk_start(max: u32)
    requires
        max <= 0xffff,
    ensures
        walk_inv(
            max,
            Seq::empty(),
            Multiset::empty().insert(triple_of((max, max))),
            Set::empty().insert(cell_key((max, max))),
            None,
        ),
{
    broadcast use vstd::multiset::group_multiset_axioms;

    let corner = (max, max);
    let e = Seq::<(u32, u32)>::empty();
    let f = Multiset::empty().insert(triple_of(corner));
    let s = Set::empty().insert(cell_key(corner));
    assert forall|a: (u32, u32)| #[trigger] in_domain(max, a) implies (s.contains(cell_key(a))
        <==> e.contains(a) || f.count(triple_of(a)) > 0) by {
        if cell_key(a) == cell_key(corner) {
            lemma_cell_key_injective(a, corner);
        }
    }
    assert forall|a: (u32, u32)| #[trigger] in_domain(max, a) implies e.contains(a)
        || frontier_dominates(f, a) by {
        let t = triple_of(corner);
        assert(f.count(t) > 0 && dominates((t.1, t.2), a));
    }
}

/// Where the walk was suspended.
#[derive(Clone, Copy)]
pub enum WalkPoint {
    /// Before the first resumption: the corner waits in the frontier.
    Start,
    /// At the yield of a cell, whose neighbours have not been added yet.
    AfterPair,
    /// After the completion signal.
    Done,
}

/// The walk over the lower triangle in descending order of the product.
pub struct DigitProductPairProducer {
    point: WalkPoint,
    max: u32,
    last: (u32, u32),
    heap: Frontier,
    seen: HashSet<u64>,
    emitted: Ghost<Seq<(u32, u32)>>,
}

/// Computes the key under which a cell is remembered as known.
fn key_of(i: u32, j: u32) -> (key: u64)
    ensures
        key == cell_key((i, j)),
{
    i as u64 * 0x1_0000_0000 + j as u64
}

impl DigitProductPairProducer {
    /// The largest coordinate of the walk.
    pub closed spec fn max(&self) -> u32 {
        self.max
    }

    /// The frontier: the entries of the cells that are known and not handed
    /// out yet.
    pub closed spec fn frontier(&self) -> Multiset<(u32, u32, u32)> {
        self.heap@
    }

    /// The keys of the cells that are known.
    pub closed spec fn known(&self) -> Set<u64> {
        self.seen@
    }

    /// The cell handed out last, while its neighbours have not been added.
    pub closed spec fn unexpanded(&self) -> Option<(u32, u32)> {
        match self.point {
            WalkPoint::AfterPair => Some(self.last),
            _ => None,
        }
    }

    /// A walk over the pairs of numbers of at most `digits` decimal digits that
    /// has handed out nothing yet.
    pub fn new(digits: u32) -> (producer: Self)
        requires
            digits <= 4,
        ensures
            producer.inv(),
            !producer.completed(),
            producer.emitted() == Seq::<(u32, u32)>::empty(),
            producer.max() == all_nines(digits as nat),
    {
        broadcast use vstd::std_specs::hash::group_hash_axioms;

        let mut max: u32 = 0;
        let mut d: u32 = 0;
        while d < digits
            invariant
                d <= digits <= 4,
                max == all_nines(d as nat),
            decreases digits - d,
        {
            proof {
                lemma_all_nines_monotonic(d as nat, 3);
                lemma_all_nines_small();
            }
            max = max * 10 + 9;
            d = d + 1;
        }
        proof {
            lemma_all_nines_monotonic(digits as nat, 4);
            lemma_all_nines_small();
            lemma_product_fits(max, (max, max));
            lemma_walk_start(max);
        }
        let mut heap = Frontier::new();
        let mut seen = HashSet::new();
        heap.push((max * max, max, max));
        seen.insert(key_of(max, max));
        DigitProductPairProducer {
            point: WalkPoint::Start,
            max,
            last: (max, max),
            heap,
            seen,
            emitted: Ghost(Seq::empty()),
        }
    }

    /// Adds a neighbour of the cell handed out last to the frontier, unless it
    /// is known already, and marks it as known.
    fn add_neighbour(&mut self, n: (u32, u32))
        requires
            old(self).heap.inv(),
            walk_inv(
                old(self).max,
                old(self).emitted@,
                old(self).heap@,
                old(self).seen@,
                Some(old(self).last),
            ),
            in_domain(old(self).max, n),
            is_neighbour(old(self).last, n),
            precedes(old(self).last, n),
        ensures
            final(self).heap.inv(),
            walk_inv(
                final(self).max,
                final(self).emitted@,
                final(self).heap@,
                final(self).seen@,
                Some(final(self).last),
            ),
            final(self).heap@.count(triple_of(n)) > 0,
            forall|t: (u32, u32, u32)| #[trigger]
                old(self).heap@.count(t) > 0 ==> final(self).heap@.count(t) > 0,
            final(self).max == old(self).max,
            final(self).emitted == old(self).emitted,
            final(self).last == old(self).last,
            final(self).point == old(self).point,
    {
        broadcast use vstd::std_specs::hash::group_hash_axioms;
        broadcast use vstd::multiset::group_multiset_axioms;

        let key = key_of(n.0, n.1);
        if !self.seen.contains(&key) {
            proof {
                lemma_add_neighbour(
                    self.max,
                    self.emitted@,
                    self.heap@,
                    self.seen@,
                    self.last,
                    n,
                );
                lemma_product_fits(self.max, n);
            }
            self.seen.insert(key);
            self.heap.push((n.0 * n.1, n.0, n.1));
        } else {
            proof {
                lemma_known_neighbour_waits(
                    self.max,
                    self.emitted@,
                    self.heap@,
                    self.seen@,
                    self.last,
                    n,
                );
            }
        }
    }
}

impl SuspendableProducer for DigitProductPairProducer {
    type Yield = (u32, u32);

    type Return = ();

    closed spec fn inv(&self) -> bool {
        &&& self.heap.inv()
        &&& match self.point {
            WalkPoint::Start => walk_inv(self.max, self.emitted@, self.heap@, self.seen@, None)
                && self.emitted@.len() == 0,
            WalkPoint::AfterPair => walk_inv(
                self.max,
                self.emitted@,
                self.heap@,
                self.seen@,
                Some(self.last),
            ),
            WalkPoint::Done => self.max <= 0xffff && emitted_ok(self.max, self.emitted@)
                && exhausted(self.max, self.emitted@),
        }
    }

    closed spec fn emitted(&self) -> Seq<(u32, u32)> {
        self.emitted@
    }

    closed spec fn completed(&self) -> bool {
        self.point is Done
    }

    /// The walk computes nothing that could leave the machine's range.
    open spec fn can_resume(&self) -> bool {
        true
    }

    /// One resumption hands out the first cell, in the order of the walk, that
    /// was not handed out yet, and completes when none is left.
    open spec fn resumes_to(&self, next: &Self, out: Resumed<(u32, u32), ()>) -> bool {
        &&& next.max() == self.max()
        &&& match out {
            Resumed::Yielded(pair) => is_next_pair(self.max(), self.emitted(), pair)
                && next.emitted() == self.emitted().push(pair),
            Resumed::Complete(_) => exhausted(self.max(), self.emitted()) && next.emitted()
                == self.emitted(),
        }
    }

    fn resume(&mut self) -> (out: Resumed<(u32, u32), ()>) {
        match self.point {
            WalkPoint::Start => {},
            WalkPoint::AfterPair => {
                let (i, j) = self.last;
                assert(in_domain(self.max, self.emitted@[self.emitted@.len() - 1]));
                proof {
                    lemma_product_fits(self.max, (i, j));
                }
                if i > 1 && j <= i - 1 {
                    proof {
                        lemma_product_fits(self.max, ((i - 1) as u32, j));
                        assert((i - 1) * j < i * j) by (nonlinear_arith)
                            requires
                                j >= 1,
                        ;
                    }
                    self.add_neighbour((i - 1, j));
                }
                if j > 1 {
                    proof {
                        lemma_product_fits(self.max, (i, (j - 1) as u32));
                        assert(i * (j - 1) < i * j) by (nonlinear_arith)
                            requires
                                i >= 1,
                        ;
                    }
                    self.add_neighbour((i, j - 1));
                }
                proof {
                    lemma_expanded(self.max, self.emitted@, self.heap@, self.seen@, self.last);
                }
            },
            WalkPoint::Done => {},
        }
        let ghost waiting = self.heap@;
        match self.heap.pop() {
            Some(top) => {
                proof {
                    lemma_take_largest(self.max, self.emitted@, waiting, self.seen@, top);
                }
                let pair = (top.1, top.2);
                self.emitted = Ghost(self.emitted@.push(pair));
                self.last = pair;
                self.point = WalkPoint::AfterPair;
                Resumed::Yielded(pair)
            },
            None => {
                proof {
                    lemma_frontier_empty(self.max, self.emitted@, self.heap@, self.seen@);
                }
                self.point = WalkPoint::Done;
                Resumed::Complete(())
            },
        }
    }
}

/// The product of a cell.
pub open spec fn product(pair: (u32, u32)) -> nat {
    (pair.0 * pair.1) as nat
}

/// Every cell that a walk has handed out lies in the triangle.
pub proof fn lemma_emitted_in_triangle(producer: &DigitProductPairProducer, k: int)
    requires
        producer.inv(),
        0 <= k < producer.emitted().len(),
    ensures
        in_domain(producer.max(), producer.emitted()[k]),
        producer.max() <= 0xffff,
{
    assert(emitted_ok(producer.max, producer.emitted@));
}

/// The place of a cell in the order of the walk, as one number: the larger
/// the number, the earlier the cell.
pub open spec fn rank(pair: (u32, u32)) -> nat {
    (product(pair) * 0x1_0000_0000_0000_0000 + pair.0 * 0x1_0000_0000 + pair.1) as nat
}

/// The rank of a cell whose product fits 32 bits fits 96 bits.
pub proof fn lemma_rank_bounded(a: (u32, u32))
    requires
        product(a) <= u32::MAX,
    ensures
        rank(a) < 0x1_0000_0000_0000_0000_0000_0000,
{
}

/// The earlier of two cells has the larger rank.
pub proof fn lemma_rank_descends(a: (u32, u32), b: (u32, u32))
    requires
        precedes(a, b),
        product(a) <= u32::MAX,
        product(b) <= u32::MAX,
    ensures
        rank(b) < rank(a),
{
}

/// Of two cells that a walk has handed out, the earlier comes first in the
/// order of the walk: it has no smaller a product, and the two differ.
pub proof fn lemma_emitted_descending(producer: &DigitProductPairProducer, k: int, l: int)
    requires
        producer.inv(),
        0 <= k < l < producer.emitted().len(),
    ensures
        precedes(producer.emitted()[k], producer.emitted()[l]),
        product(producer.emitted()[k]) >= product(producer.emitted()[l]),
        producer.emitted()[k] != producer.emitted()[l],
{
    let e = producer.emitted@;
    assert(emitted_ok(producer.max, e));
    assert(precedes(e[k], e[l]));
    lemma_emitted_in_triangle(producer, k);
    lemma_emitted_in_triangle(producer, l);
    lemma_product_fits(producer.max, e[k]);
    lemma_product_fits(producer.max, e[l]);
}

/// The first cell that a walk hands out is the corner `(max, max)`.
pub proof fn lemma_emitted_first(producer: &DigitProductPairProducer)
    requires
        producer.inv(),
        producer.emitted().len() > 0,
    ensures
        producer.emitted()[0] == (producer.max(), producer.max()),
{
    let e = producer.emitted@;
    let max = producer.max;
    let corner = (max, max);
    let last = e[e.len() - 1];
    assert(emitted_ok(max, e));
    if e[0] != corner {
        assert(in_domain(max, corner));
        assert(in_domain(max, e[0]));
        assert(in_domain(max, last));
        lemma_dominated_is_later(corner, e[0]);
        lemma_dominated_is_later(corner, last);
        if e.contains(corner) {
            let k = choose|k: int| 0 <= k < e.len() && e[k] == corner;
            assert(precedes(e[0], e[k]));
        } else {
            let f = producer.heap@;
            assert(producer.point is AfterPair);
            assert(frontier_dominates(f, corner));
            let t = choose|t: (u32, u32, u32)| #[trigger]
                f.count(t) > 0 && dominates((t.1, t.2), corner);
            assert(t == triple_of(corner));
        }
    }
}

/// Once a walk has completed, it has handed out every cell of the triangle.
pub proof fn lemma_emitted_all(producer: &DigitProductPairProducer, pair: (u32, u32))
    requires
        producer.inv(),
        producer.completed(),
        in_domain(producer.max(), pair),
    ensures
        producer.emitted().contains(pair),
{
}

/// The state of a walk between two resumptions, until it completes: the
/// frontier holds each of its cells once, and they are the neighbours, not
/// handed out yet, of the cells handed out; the known cells are those handed
/// out and those in the frontier; every entry of the frontier comes after the
/// cell handed out last; and every cell not handed out can be reached from the
/// frontier or from the cell whose neighbours are still to be added.
pub proof fn lemma_walk_in_order(producer: &DigitProductPairProducer)
    requires
        producer.inv(),
        !producer.completed(),
    ensures
        walk_inv(
            producer.max(),
            producer.emitted(),
            producer.frontier(),
            producer.known(),
            producer.unexpanded(),
        ),
{
}

} // verus!
