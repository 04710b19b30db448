//! The exclusive range map: a red-black tree keyed by disjoint half-open
//! ranges, with overlap-checked insertion and point lookup.

use crate::node::black_height;
use crate::node::color_of;
use crate::node::covered;
use crate::node::entries;
use crate::node::entry_covers;
use crate::node::find_in;
use crate::node::has_overlap;
use crate::node::ins;
use crate::node::overlaps_any;
use crate::node::rb_near;
use crate::node::rb_valid;
use crate::node::wf_between;
use crate::node::Color;
use crate::node::ExclusiveRangeMapNode;
use std::ops::Range;
use vstd::prelude::*;

verus! {

/// Error returned by a rejected insertion. A candidate range that shares a
/// key with a stored range is an overlap; a degenerate candidate with
/// `start >= end` covers no key at all and is rejected as its own kind
/// rather than silently accepted.
#[derive(Clone, Copy, Debug, PartialEq, Eq, Structural)]
pub enum InsertError {
    Overlap,
    EmptyRange,
}

/// A map from disjoint half-open `usize` ranges to values of type `T`.
pub struct ExclusiveRangeMap<T> {
    pub head: Option<Box<ExclusiveRangeMapNode<T>>>,
    pub size: usize,
}

impl<T> ExclusiveRangeMap<T> {
    /// Well-formedness: the tree is an ordered search tree over nonempty
    /// ranges within the `usize` key space, satisfies the red-black balance
    /// invariants with a black root, and `size` counts the stored entries.
    pub open spec fn wf(self) -> bool {
        &&& wf_between(self.head, 0, usize::MAX as int + 1)
        &&& rb_valid(self.head)
        &&& color_of(self.head) == Color::Black
        &&& self.size == entries(self.head).len()
    }

    /// Creates an empty map.
    pub fn new() -> (map: Self)
        ensures
            map.wf(),
            map@ == Seq::<(int, int, T)>::empty(),
            map.size == 0,
    {
        Self { head: None, size: 0 }
    }

    /// Returns the number of stored ranges.
    pub fn len(&self) -> (n: usize)
        ensures
            n == self.size,
            self.wf() ==> n == self@.len(),
    {
        self.size
    }

    /// Inserts `(key_range, value)` if and only if `key_range` is nonempty
    /// and disjoint from every stored range; otherwise the map is left
    /// completely unchanged and the matching error kind is returned.
    /// The count of stored ranges must still fit in `usize` after the
    /// insertion, a machine limit the caller upholds.
    pub fn insert(&mut self, key_range: Range<usize>, value: T) -> (r: Result<(), InsertError>)
        requires
            old(self).wf(),
            old(self).size < usize::MAX,
        ensures
            final(self).wf(),
            key_range.start >= key_range.end ==> r == Err::<(), InsertError>(
                InsertError::EmptyRange,
            ) && *final(self) == *old(self),
            key_range.start < key_range.end && overlaps_any(
                old(self)@,
                key_range.start as int,
                key_range.end as int,
            ) ==> r == Err::<(), InsertError>(InsertError::Overlap) && *final(self) == *old(self),
            key_range.start < key_range.end && !overlaps_any(
                old(self)@,
                key_range.start as int,
                key_range.end as int,
            ) ==> r == Ok::<(), InsertError>(()) && final(self).size == old(self).size + 1 && (
            exists|k: int|
                0 <= k <= old(self)@.len() && final(self)@ == old(self)@.insert(
                    k,
                    (key_range.start as int, key_range.end as int, value),
                )),
    {
        if key_range.start >= key_range.end {
            return Err(InsertError::EmptyRange);
        }
        let a = key_range.start;
        let b = key_range.end;
        let ghost e = (a as int, b as int, value);
        let ghost s0 = entries(old(self).head);
        if has_overlap(&self.head, a, b, Ghost(0), Ghost(usize::MAX as int + 1)) {
            return Err(InsertError::Overlap);
        }
        let leaf = Box::new(ExclusiveRangeMapNode::new(key_range, value));
        match self.head.take() {
            None => {
                let mut root = leaf;
                root.color = Color::Black;
                proof {
                    assert(entries(Some(root)) =~= s0.insert(0, e));
                    assert(wf_between(root.child_left, 0, root.key_range.start as int));
                    assert(wf_between(
                        root.child_right,
                        root.key_range.end as int,
                        usize::MAX as int + 1,
                    ));
                    assert(rb_valid(root.child_left));
                    assert(rb_valid(root.child_right));
                    assert(black_height(root.child_left) == 0);
                    assert(black_height(root.child_right) == 0);
                    assert(wf_between(Some(root), 0, usize::MAX as int + 1));
                    assert(rb_valid(Some(root)));
                }
                self.head = Some(root);
            },
            Some(root) => {
                let mut new_root = ins(root, leaf, Ghost(0), Ghost(usize::MAX as int + 1));
                let ghost nr0 = new_root;
                new_root.color = Color::Black;
                proof {
                    assert(entries(Some(new_root)) == entries(Some(nr0)));
                    assert(wf_between(Some(nr0), 0, usize::MAX as int + 1));
                    assert(wf_between(Some(new_root), 0, usize::MAX as int + 1));
                    assert(rb_near(Some(nr0)));
                    assert(rb_valid(Some(new_root)));
                }
                self.head = Some(new_root);
            },
        }
        proof {
            let k = choose|k: int| 0 <= k <= s0.len() && entries(self.head) == s0.insert(k, e);
            s0.insert_ensures(k, e);
            assert(entries(self.head).len() == s0.len() + 1);
        }
        self.size = self.size + 1;
        Ok(())
    }

    /// Returns a reference to the value of the unique stored range that
    /// contains `point`, or nothing when no stored range covers it.
    pub fn find(&self, point: usize) -> (r: Option<&T>)
        requires
            self.wf(),
        ensures
            match r {
                Some(v) => exists|i: int|
                    0 <= i < self@.len() && #[trigger] entry_covers(self@[i], point as int)
                        && self@[i].2 == *v,
                None => !covered(self@, point as int),
            },
    {
        let r = find_in(&self.head, point, Ghost(0), Ghost(usize::MAX as int + 1));
        proof {
            assert(self@ == entries(self.head));
            match r {
                Some(v) => {
                    let i = choose|i: int|
                        0 <= i < entries(self.head).len() && #[trigger] entry_covers(
                            entries(self.head)[i],
                            point as int,
                        ) && entries(self.head)[i].2 == *v;
                    assert(entry_covers(self@[i], point as int));
                },
                None => {},
            }
        }
        r
    }
}

impl<T> View for ExclusiveRangeMap<T> {
    type V = Seq<(int, int, T)>;

    /// The in-order sequence of stored entries, each as `(start, end, value)`.
    open spec fn view(&self) -> Seq<(int, int, T)> {
        entries(self.head)
    }
}

} // verus!
