//! A max-ordered frontier of `(product, i, j)` triples: a binary heap laid out
//! in a vector, ordered by the triples' lexicographic order.
use vstd::prelude::*;
use vstd::multiset::Multiset;

verus! {

/// `a` comes before `b` in the lexicographic order of triples.
pub open spec fn triple_lt(a: (u32, u32, u32), b: (u32, u32, u32)) -> bool {
    a.0 < b.0 || (a.0 == b.0 && (a.1 < b.1 || (a.1 == b.1 && a.2 < b.2)))
}

/// `a` is `b` or comes before it.
pub open spec fn triple_le(a: (u32, u32, u32), b: (u32, u32, u32)) -> bool {
    a == b || triple_lt(a, b)
}

/// The entry at `i` is no larger than the entry at its parent.
pub open spec fn parent_ok(s: Seq<(u32, u32, u32)>, i: int) -> bool {
    triple_le(s[i], s[(i - 1) / 2])
}

/// Every entry but the root is no larger than its parent.
pub open spec fn heap_ordered(s: Seq<(u32, u32, u32)>) -> bool {
    forall|i: int| 1 <= i < s.len() ==> #[trigger] parent_ok(s, i)
}

/// In an ordered heap the root is the largest entry.
pub proof fn lemma_root_is_largest(s: Seq<(u32, u32, u32)>, i: int)
    requires
        heap_ordered(s),
        0 <= i < s.len(),
    ensures
        triple_le(s[i], s[0]),
    decreases i,
{
    if i > 0 {
        assert(parent_ok(s, i));
        lemma_root_is_largest(s, (i - 1) / 2);
    }
}

/// Exchanging two entries leaves the multiset of entries as it was.
pub proof fn lemma_swap_keeps_entries(s: Seq<(u32, u32, u32)>, i: int, j: int)
    requires
        0 <= i < s.len(),
        0 <= j < s.len(),
    ensures
        s.update(i, s[j]).update(j, s[i]).to_multiset() == s.to_multiset(),
{
    broadcast use vstd::multiset::group_multiset_axioms;

    let s1 = s.update(i, s[j]);
    vstd::seq_lib::to_multiset_update(s, i, s[j]);
    vstd::seq_lib::to_multiset_update(s1, j, s[i]);
    vstd::seq_lib::to_multiset_contains(s, s[i]);
    vstd::seq_lib::to_multiset_contains(s, s[j]);
    assert(s.contains(s[i]));
    assert(s.contains(s[j]));
    assert(s1.update(j, s[i]).to_multiset() =~= s.to_multiset());
}

/// Compares two triples lexicographically.
pub fn triple_less(a: (u32, u32, u32), b: (u32, u32, u32)) -> (r: bool)
    ensures
        r == triple_lt(a, b),
{
    a.0 < b.0 || (a.0 == b.0 && (a.1 < b.1 || (a.1 == b.1 && a.2 < b.2)))
}

/// The frontier: a multiset of triples that gives up its largest first.
pub struct Frontier {
    items: Vec<(u32, u32, u32)>,
}

impl Frontier {
    /// The triples that the frontier holds.
    pub closed spec fn view(&self) -> Multiset<(u32, u32, u32)> {
        self.items@.to_multiset()
    }

    /// The vector is laid out as an ordered heap.
    pub closed spec fn inv(&self) -> bool {
        heap_ordered(self.items@)
    }

    /// An empty frontier.
    pub fn new() -> (frontier: Self)
        ensures
            frontier.inv(),
            frontier@ == Multiset::<(u32, u32, u32)>::empty(),
    {
        let frontier = Frontier { items: Vec::new() };
        proof {
            broadcast use vstd::seq_lib::group_to_multiset_ensures;

            assert(frontier.items@.to_multiset() =~= Multiset::<(u32, u32, u32)>::empty());
        }
        frontier
    }

    /// Exchanges the entries at `i` and `j`.
    fn swap(&mut self, i: usize, j: usize)
        requires
            i < old(self).items@.len(),
            j < old(self).items@.len(),
        ensures
            final(self).items@ == old(self).items@.update(
                i as int,
                old(self).items@[j as int],
            ).update(j as int, old(self).items@[i as int]),
            final(self)@ == old(self)@,
    {
        proof {
            lemma_swap_keeps_entries(self.items@, i as int, j as int);
        }
        let a = self.items[i];
        let b = self.items[j];
        self.items[i] = b;
        self.items[j] = a;
    }

    /// Adds a triple.
    pub fn push(&mut self, item: (u32, u32, u32))
        requires
            old(self).inv(),
        ensures
            final(self).inv(),
            final(self)@ == old(self)@.insert(item),
    {
        proof {
            vstd::seq_lib::to_multiset_build(self.items@, item);
        }
        let ghost start = self.items@;
        self.items.push(item);
        let mut pos = self.items.len() - 1;
        assert forall|i: int| 1 <= i < self.items@.len() && i != pos implies #[trigger] parent_ok(
            self.items@,
            i,
        ) by {
            assert(parent_ok(start, i));
        }
        while pos > 0
            invariant
                pos < self.items@.len(),
                self@ == old(self)@.insert(item),
                forall|i: int| 1 <= i < self.items@.len() && i != pos ==> #[trigger] parent_ok(
                    self.items@,
                    i,
                ),
                forall|i: int|
                    1 <= i < self.items@.len() && (i - 1) / 2 == pos && pos >= 1 ==> triple_le(
                        #[trigger] self.items@[i],
                        self.items@[(pos - 1) / 2],
                    ),
            ensures
                heap_ordered(self.items@),
                self@ == old(self)@.insert(item),
            decreases pos,
        {
            let parent = (pos - 1) / 2;
            if !triple_less(self.items[parent], self.items[pos]) {
                assert(parent_ok(self.items@, pos as int));
                break ;
            }
            let ghost before = self.items@;
            self.swap(parent, pos);
            proof {
                let after = self.items@;
                assert forall|i: int|
                    1 <= i < after.len() && i != parent implies #[trigger] parent_ok(
                    after,
                    i,
                ) by {
                    if i != pos {
                        assert(parent_ok(before, i));
                    }
                }
                assert forall|i: int|
                    1 <= i < after.len() && (i - 1) / 2 == parent && parent >= 1 implies triple_le(
                    #[trigger] after[i],
                    after[(parent - 1) / 2],
                ) by {
                    assert(parent_ok(before, parent as int));
                    if i != pos {
                        assert(parent_ok(before, i));
                    }
                }
            }
            pos = parent;
        }
    }

    /// Takes out the largest triple, or answers `None` when there is none.
    pub fn pop(&mut self) -> (r: Option<(u32, u32, u32)>)
        requires
            old(self).inv(),
        ensures
            final(self).inv(),
            match r {
                None => old(self)@.len() == 0 && final(self)@ == old(self)@,
                Some(top) => {
                    &&& old(self)@.count(top) > 0
                    &&& final(self)@ == old(self)@.remove(top)
                    &&& forall|other: (u32, u32, u32)| #[trigger]
                        old(self)@.count(other) > 0 ==> triple_le(other, top)
                },
            },
    {
        proof {
            vstd::seq_lib::to_multiset_len(self.items@);
        }
        let len = self.items.len();
        if len == 0 {
            return None;
        }
        let ghost before = self.items@;
        let top = self.items[0];
        proof {
            assert forall|other: (u32, u32, u32)| #[trigger]
                before.to_multiset().count(other) > 0 implies triple_le(other, top) by {
                vstd::seq_lib::to_multiset_contains(before, other);
                let i = choose|i: int| 0 <= i < before.len() && before[i] == other;
                lemma_root_is_largest(before, i);
            }
            vstd::seq_lib::to_multiset_contains(before, top);
            assert(before.contains(top));
            lemma_swap_keeps_entries(before, 0, len - 1);
        }
        self.swap(0, len - 1);
        let ghost swapped = self.items@;
        self.items.pop();
        proof {
            vstd::seq_lib::to_multiset_remove(swapped, len - 1);
            assert(swapped.remove(len - 1) =~= self.items@);
        }
        let len = len - 1;
        let mut pos: usize = 0;
        assert forall|i: int|
            1 <= i < self.items@.len() && (i - 1) / 2 != 0 implies #[trigger] parent_ok(
            self.items@,
            i,
        ) by {
            assert(parent_ok(before, i));
        }
        while len >= 2 && pos <= (len - 2) / 2
            invariant
                len == self.items@.len(),
                pos < len || len == 0,
                self@ == old(self)@.remove(top),
                forall|i: int|
                    1 <= i < self.items@.len() && (i - 1) / 2 != pos ==> #[trigger] parent_ok(
                        self.items@,
                        i,
                    ),
                forall|i: int|
                    1 <= i < self.items@.len() && (i - 1) / 2 == pos && pos >= 1 ==> triple_le(
                        #[trigger] self.items@[i],
                        self.items@[(pos - 1) / 2],
                    ),
            ensures
                heap_ordered(self.items@),
                self@ == old(self)@.remove(top),
            decreases len - pos,
        {
            let left = 2 * pos + 1;
            let right = left + 1;
            let child = if right < len && triple_less(self.items[left], self.items[right]) {
                right
            } else {
                left
            };
            if !triple_less(self.items[pos], self.items[child]) {
                proof {
                    let s = self.items@;
                    assert forall|i: int| 1 <= i < s.len() implies #[trigger] parent_ok(s, i) by {
                        if (i - 1) / 2 == pos {
                            assert(i == left || i == right);
                        }
                    }
                }
                break ;
            }
            let ghost prior = self.items@;
            self.swap(pos, child);
            proof {
                let after = self.items@;
                assert forall|i: int|
                    1 <= i < after.len() && (i - 1) / 2 != child implies #[trigger] parent_ok(
                    after,
                    i,
                ) by {
                    if (i - 1) / 2 == pos {
                        assert(i == left || i == right);
                    } else if i != pos {
                        assert(parent_ok(prior, i));
                    }
                }
                assert forall|i: int|
                    1 <= i < after.len() && (i - 1) / 2 == child && child >= 1 implies triple_le(
                    #[trigger] after[i],
                    after[(child - 1) / 2],
                ) by {
                    assert(parent_ok(prior, i));
                }
            }
            pos = child;
        }
        Some(top)
    }
}

} // verus!
