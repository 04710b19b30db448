//! Tree nodes and the specification functions that describe them.
//!
//! A node stores one half-open key range together with its value, a
//! red/black color used only for balance bookkeeping, and up to two owned
//! subtrees. The in-order sequence of entries is the mathematical model of
//! a subtree; well-formedness bounds every range between ghost limits, which
//! yields both the search-tree ordering and the disjointness of the stored
//! ranges.

use std::ops::Range;
use vstd::assert_seqs_equal;
use vstd::prelude::*;

verus! {

/// Balance bookkeeping tag for a node; it carries no domain meaning.
#[derive(Clone, Copy, Debug, PartialEq, Eq, Structural)]
pub enum Color {
    Red,
    Black,
}

/// One node of the range tree: a half-open key range, its value, a color,
/// and up to two exclusively owned subtrees.
pub struct ExclusiveRangeMapNode<T> {
    pub key_range: Range<usize>,
    pub value: T,
    pub color: Color,
    pub child_left: Option<Box<ExclusiveRangeMapNode<T>>>,
    pub child_right: Option<Box<ExclusiveRangeMapNode<T>>>,
}

impl<T> ExclusiveRangeMapNode<T> {
    /// Creates a detached red leaf node holding `key_range` and `value`.
    pub fn new(key_range: Range<usize>, value: T) -> (node: Self)
        ensures
            node.key_range.start == key_range.start,
            node.key_range.end == key_range.end,
            node.value == value,
            node.color == Color::Red,
            node.child_left is None,
            node.child_right is None,
    {
        Self {
            key_range,
            value,
            color: Color::Red,
            child_left: None,
            child_right: None,
        }
    }
}

/// In-order sequence of the entries stored in a subtree, each as
/// `(start, end, value)` of the half-open range `[start, end)`.
pub open spec fn entries<T>(n: Option<Box<ExclusiveRangeMapNode<T>>>) -> Seq<(int, int, T)>
    decreases n,
{
    match n {
        None => Seq::empty(),
        Some(node) => entries(node.child_left)
            + seq![(node.key_range.start as int, node.key_range.end as int, node.value)]
            + entries(node.child_right),
    }
}

/// Search-tree well-formedness: every range in the subtree is nonempty and
/// lies within `[lo, hi)`, ranges in the left subtree end at or before the
/// node's range starts, and ranges in the right subtree start at or after
/// the node's range ends.
pub open spec fn wf_between<T>(n: Option<Box<ExclusiveRangeMapNode<T>>>, lo: int, hi: int) -> bool
    decreases n,
{
    match n {
        None => true,
        Some(node) => {
            &&& lo <= node.key_range.start < node.key_range.end <= hi
            &&& wf_between(node.child_left, lo, node.key_range.start as int)
            &&& wf_between(node.child_right, node.key_range.end as int, hi)
        },
    }
}

/// The color of a subtree's root; an empty subtree counts as black.
pub open spec fn color_of<T>(n: Option<Box<ExclusiveRangeMapNode<T>>>) -> Color {
    match n {
        None => Color::Black,
        Some(node) => node.color,
    }
}

/// Number of black nodes on the path from the root of `n` to its leftmost
/// empty leaf; equal over all paths whenever `rb_valid` holds.
pub open spec fn black_height<T>(n: Option<Box<ExclusiveRangeMapNode<T>>>) -> nat
    decreases n,
{
    match n {
        None => 0,
        Some(node) => black_height(node.child_left) + if node.color == Color::Black {
            1nat
        } else {
            0nat
        },
    }
}

/// Red-black validity: both subtrees of every node are valid with equal
/// black heights, and a red node never has a red child. The root itself may
/// be either color.
pub open spec fn rb_valid<T>(n: Option<Box<ExclusiveRangeMapNode<T>>>) -> bool
    decreases n,
{
    match n {
        None => true,
        Some(node) => {
            &&& rb_valid(node.child_left)
            &&& rb_valid(node.child_right)
            &&& black_height(node.child_left) == black_height(node.child_right)
            &&& (node.color == Color::Red ==> color_of(node.child_left) == Color::Black
                && color_of(node.child_right) == Color::Black)
        },
    }
}

/// Weakening of `rb_valid` that tolerates a red root with a red child:
/// both subtrees are valid with equal black heights, but the root's own
/// color constraint is waived. Insertion passes such a transient state up
/// to the nearest black ancestor, whose rebalancing step repairs it.
pub open spec fn rb_near<T>(n: Option<Box<ExclusiveRangeMapNode<T>>>) -> bool {
    match n {
        None => true,
        Some(node) => {
            &&& rb_valid(node.child_left)
            &&& rb_valid(node.child_right)
            &&& black_height(node.child_left) == black_height(node.child_right)
        },
    }
}

/// Number of nodes on the longest root-to-leaf path of the subtree.
pub open spec fn height<T>(n: Option<Box<ExclusiveRangeMapNode<T>>>) -> nat
    decreases n,
{
    match n {
        None => 0,
        Some(node) => 1 + if height(node.child_left) >= height(node.child_right) {
            height(node.child_left)
        } else {
            height(node.child_right)
        },
    }
}

/// Whether the half-open ranges `[s1, e1)` and `[s2, e2)` share a key.
pub open spec fn ranges_overlap(s1: int, e1: int, s2: int, e2: int) -> bool {
    s1 < e2 && s2 < e1
}

/// Whether some entry of `s` overlaps the half-open range `[a, b)`.
pub open spec fn overlaps_any<T>(s: Seq<(int, int, T)>, a: int, b: int) -> bool {
    exists|i: int| 0 <= i < s.len() && #[trigger] ranges_overlap(s[i].0, s[i].1, a, b)
}

/// Whether the entry `e` covers the point `p`.
pub open spec fn entry_covers<T>(e: (int, int, T), p: int) -> bool {
    e.0 <= p < e.1
}

/// Whether some entry of `s` covers the point `p`.
pub open spec fn covered<T>(s: Seq<(int, int, T)>, p: int) -> bool {
    exists|i: int| 0 <= i < s.len() && #[trigger] entry_covers(s[i], p)
}

/// Reports whether the half-open range `[a, b)` overlaps any range stored
/// in the subtree, descending only the side the search-tree order selects.
pub(crate) fn has_overlap<T>(
    n: &Option<Box<ExclusiveRangeMapNode<T>>>,
    a: usize,
    b: usize,
    Ghost(lo): Ghost<int>,
    Ghost(hi): Ghost<int>,
) -> (r: bool)
    requires
        wf_between(*n, lo, hi),
        a < b,
    ensures
        r == overlaps_any(entries(*n), a as int, b as int),
    decreases n,
{
    match n {
        None => false,
        Some(node) => {
            let ghost s = entries(*n);
            let ghost sl = entries(node.child_left);
            let ghost sr = entries(node.child_right);
            let ghost mid = (
                node.key_range.start as int,
                node.key_range.end as int,
                node.value,
            );
            proof {
                assert(s[sl.len() as int] == mid);
            }
            if b <= node.key_range.start {
                let r = has_overlap(&node.child_left, a, b, Ghost(lo), Ghost(
                    node.key_range.start as int,
                ));
                proof {
                    crate::laws::lemma_entries_bounds(
                        node.child_right,
                        node.key_range.end as int,
                        hi,
                    );
                    if r {
                        let i = choose|i: int|
                            0 <= i < sl.len() && #[trigger] ranges_overlap(
                                sl[i].0,
                                sl[i].1,
                                a as int,
                                b as int,
                            );
                        assert(s[i] == sl[i]);
                        assert(ranges_overlap(s[i].0, s[i].1, a as int, b as int));
                    } else {
                        assert forall|i: int| 0 <= i < s.len() implies !(#[trigger] ranges_overlap(
                            s[i].0,
                            s[i].1,
                            a as int,
                            b as int,
                        )) by {
                            if i < sl.len() {
                                assert(s[i] == sl[i]);
                                assert(!ranges_overlap(sl[i].0, sl[i].1, a as int, b as int));
                            } else if i > sl.len() {
                                assert(s[i] == sr[i - sl.len() - 1]);
                            }
                        }
                    }
                }
                r
            } else if a >= node.key_range.end {
                let r = has_overlap(&node.child_right, a, b, Ghost(node.key_range.end as int), Ghost(
                    hi,
                ));
                proof {
                    crate::laws::lemma_entries_bounds(
                        node.child_left,
                        lo,
                        node.key_range.start as int,
                    );
                    if r {
                        let i = choose|i: int|
                            0 <= i < sr.len() && #[trigger] ranges_overlap(
                                sr[i].0,
                                sr[i].1,
                                a as int,
                                b as int,
                            );
                        assert(s[i + sl.len() + 1] == sr[i]);
                        assert(ranges_overlap(
                            s[i + sl.len() + 1].0,
                            s[i + sl.len() + 1].1,
                            a as int,
                            b as int,
                        ));
                    } else {
                        assert forall|i: int| 0 <= i < s.len() implies !(#[trigger] ranges_overlap(
                            s[i].0,
                            s[i].1,
                            a as int,
                            b as int,
                        )) by {
                            if i < sl.len() {
                                assert(s[i] == sl[i]);
                            } else if i > sl.len() {
                                assert(s[i] == sr[i - sl.len() - 1]);
                                assert(!ranges_overlap(
                                    sr[i - sl.len() - 1].0,
                                    sr[i - sl.len() - 1].1,
                                    a as int,
                                    b as int,
                                ));
                            }
                        }
                    }
                }
                r
            } else {
                proof {
                    assert(ranges_overlap(
                        s[sl.len() as int].0,
                        s[sl.len() as int].1,
                        a as int,
                        b as int,
                    ));
                }
                true
            }
        },
    }
}

/// Extracts the node of an option known to hold one.
pub(crate) fn unwrap_node<T>(o: Option<Box<ExclusiveRangeMapNode<T>>>) -> (r: Box<
    ExclusiveRangeMapNode<T>,
>)
    requires
        o is Some,
    ensures
        Some(r) == o,
{
    match o {
        Some(node) => node,
        None => vstd::pervasive::unreached(),
    }
}

/// Repairs a red-red violation at the root of the left subtree of a black
/// node by a single or double rotation, recoloring as the red-black scheme
/// prescribes; with no violation present it returns the node unchanged.
/// The in-order entries and the black height are preserved exactly.
pub(crate) fn balance_left<T>(
    mut node: Box<ExclusiveRangeMapNode<T>>,
    Ghost(lo): Ghost<int>,
    Ghost(hi): Ghost<int>,
) -> (r: Box<ExclusiveRangeMapNode<T>>)
    requires
        node.color == Color::Black,
        wf_between(Some(node), lo, hi),
        rb_near(node.child_left),
        rb_valid(node.child_right),
        black_height(node.child_left) == black_height(node.child_right),
    ensures
        wf_between(Some(r), lo, hi),
        rb_valid(Some(r)),
        black_height(Some(r)) == black_height(Some(node)),
        entries(Some(r)) == entries(Some(node)),
{
    let ghost n0 = node;
    let ghost ns = node.key_range.start as int;
    let ghost ne = node.key_range.end as int;
    match node.child_left.take() {
        None => {
            proof {
                assert(node == n0);
                assert(rb_valid(Some(n0)));
            }
            node
        },
        Some(mut l) => {
            let ghost l0 = l;
            let ghost ls = l.key_range.start as int;
            let ghost le = l.key_range.end as int;
            proof {
                assert(wf_between(Some(l0), lo, ns));
                assert(entries(Some(n0)) == entries(Some(l0)) + seq![(ns, ne, n0.value)]
                    + entries(n0.child_right));
                assert(entries(Some(l0)) == entries(l0.child_left) + seq![(ls, le, l0.value)]
                    + entries(l0.child_right));
            }
            let l_red = l.color == Color::Red;
            let l_left_red = match &l.child_left {
                Some(x) => x.color == Color::Red,
                None => false,
            };
            let l_right_red = match &l.child_right {
                Some(x) => x.color == Color::Red,
                None => false,
            };
            if l_red && l_left_red {
                let mut ll = unwrap_node(l.child_left.take());
                let ghost ll0 = ll;
                ll.color = Color::Black;
                node.child_left = l.child_right.take();
                l.child_left = Some(ll);
                l.child_right = Some(node);
                proof {
                    assert(entries(Some(ll)) == entries(Some(ll0)));
                    assert(entries(Some(node)) == entries(l0.child_right) + seq![(ns, ne, n0.value)]
                        + entries(n0.child_right));
                    assert(entries(Some(l)) == entries(Some(ll0)) + seq![(ls, le, l0.value)]
                        + entries(Some(node)));
                    assert_seqs_equal!(entries(Some(l)) == entries(Some(n0)));
                    assert(wf_between(Some(ll0), lo, ls));
                    assert(wf_between(Some(ll), lo, ls));
                    assert(wf_between(Some(node), le, hi));
                    assert(wf_between(Some(l), lo, hi));
                    assert(rb_valid(Some(ll0)));
                    assert(black_height(Some(ll)) == black_height(Some(ll0)) + 1);
                    assert(black_height(Some(node)) == black_height(n0.child_right) + 1);
                    assert(rb_valid(Some(ll)));
                    assert(rb_valid(Some(node)));
                    assert(rb_valid(Some(l)));
                    assert(black_height(Some(l)) == black_height(Some(n0)));
                }
                l
            } else if l_red && l_right_red {
                let mut lr = unwrap_node(l.child_right.take());
                let ghost lr0 = lr;
                let ghost lrs = lr.key_range.start as int;
                let ghost lre = lr.key_range.end as int;
                l.child_right = lr.child_left.take();
                l.color = Color::Black;
                node.child_left = lr.child_right.take();
                lr.child_left = Some(l);
                lr.child_right = Some(node);
                lr.color = Color::Red;
                proof {
                    assert(entries(Some(lr0)) == entries(lr0.child_left) + seq![
                        (lrs, lre, lr0.value),
                    ] + entries(lr0.child_right));
                    assert(entries(Some(l)) == entries(l0.child_left) + seq![(ls, le, l0.value)]
                        + entries(lr0.child_left));
                    assert(entries(Some(node)) == entries(lr0.child_right) + seq![
                        (ns, ne, n0.value),
                    ] + entries(n0.child_right));
                    assert(entries(Some(lr)) == entries(Some(l)) + seq![(lrs, lre, lr0.value)]
                        + entries(Some(node)));
                    assert_seqs_equal!(entries(Some(lr)) == entries(Some(n0)));
                    assert(wf_between(Some(lr0), le, ns));
                    assert(wf_between(Some(l), lo, lrs));
                    assert(wf_between(Some(node), lre, hi));
                    assert(wf_between(Some(lr), lo, hi));
                    assert(rb_valid(Some(lr0)));
                    assert(black_height(Some(l)) == black_height(l0.child_left) + 1);
                    assert(black_height(Some(node)) == black_height(n0.child_right) + 1);
                    assert(rb_valid(Some(l)));
                    assert(rb_valid(Some(node)));
                    assert(rb_valid(Some(lr)));
                    assert(black_height(Some(lr)) == black_height(Some(n0)));
                }
                lr
            } else {
                node.child_left = Some(l);
                proof {
                    assert(node == n0);
                    if l.color == Color::Red {
                        assert(color_of(l.child_left) == Color::Black);
                        assert(color_of(l.child_right) == Color::Black);
                    }
                    assert(rb_valid(Some(l)));
                    assert(rb_valid(Some(node)));
                }
                node
            }
        },
    }
}

/// Mirror image of `balance_left`: repairs a red-red violation at the root
/// of the right subtree of a black node.
pub(crate) fn balance_right<T>(
    mut node: Box<ExclusiveRangeMapNode<T>>,
    Ghost(lo): Ghost<int>,
    Ghost(hi): Ghost<int>,
) -> (r: Box<ExclusiveRangeMapNode<T>>)
    requires
        node.color == Color::Black,
        wf_between(Some(node), lo, hi),
        rb_valid(node.child_left),
        rb_near(node.child_right),
        black_height(node.child_left) == black_height(node.child_right),
    ensures
        wf_between(Some(r), lo, hi),
        rb_valid(Some(r)),
        black_height(Some(r)) == black_height(Some(node)),
        entries(Some(r)) == entries(Some(node)),
{
    let ghost n0 = node;
    let ghost ns = node.key_range.start as int;
    let ghost ne = node.key_range.end as int;
    match node.child_right.take() {
        None => {
            proof {
                assert(node == n0);
                assert(rb_valid(Some(n0)));
            }
            node
        },
        Some(mut h) => {
            let ghost h0 = h;
            let ghost hs = h.key_range.start as int;
            let ghost he = h.key_range.end as int;
            proof {
                assert(wf_between(Some(h0), ne, hi));
                assert(entries(Some(n0)) == entries(n0.child_left) + seq![(ns, ne, n0.value)]
                    + entries(Some(h0)));
                assert(entries(Some(h0)) == entries(h0.child_left) + seq![(hs, he, h0.value)]
                    + entries(h0.child_right));
            }
            let h_red = h.color == Color::Red;
            let h_left_red = match &h.child_left {
                Some(x) => x.color == Color::Red,
                None => false,
            };
            let h_right_red = match &h.child_right {
                Some(x) => x.color == Color::Red,
                None => false,
            };
            if h_red && h_right_red {
                let mut hr = unwrap_node(h.child_right.take());
                let ghost hr0 = hr;
                hr.color = Color::Black;
                node.child_right = h.child_left.take();
                h.child_left = Some(node);
                h.child_right = Some(hr);
                proof {
                    assert(entries(Some(hr)) == entries(Some(hr0)));
                    assert(entries(Some(node)) == entries(n0.child_left) + seq![(ns, ne, n0.value)]
                        + entries(h0.child_left));
                    assert(entries(Some(h)) == entries(Some(node)) + seq![(hs, he, h0.value)]
                        + entries(Some(hr0)));
                    assert_seqs_equal!(entries(Some(h)) == entries(Some(n0)));
                    assert(wf_between(Some(hr0), he, hi));
                    assert(wf_between(Some(hr), he, hi));
                    assert(wf_between(Some(node), lo, hs));
                    assert(wf_between(Some(h), lo, hi));
                    assert(rb_valid(Some(hr0)));
                    assert(black_height(Some(hr)) == black_height(Some(hr0)) + 1);
                    assert(black_height(Some(node)) == black_height(n0.child_left) + 1);
                    assert(rb_valid(Some(hr)));
                    assert(rb_valid(Some(node)));
                    assert(rb_valid(Some(h)));
                    assert(black_height(Some(h)) == black_height(Some(n0)));
                }
                h
            } else if h_red && h_left_red {
                let mut hl = unwrap_node(h.child_left.take());
                let ghost hl0 = hl;
                let ghost hls = hl.key_range.start as int;
                let ghost hle = hl.key_range.end as int;
                h.child_left = hl.child_right.take();
                h.color = Color::Black;
                node.child_right = hl.child_left.take();
                hl.child_left = Some(node);
                hl.child_right = Some(h);
                hl.color = Color::Red;
                proof {
                    assert(entries(Some(hl0)) == entries(hl0.child_left) + seq![
                        (hls, hle, hl0.value),
                    ] + entries(hl0.child_right));
                    assert(entries(Some(node)) == entries(n0.child_left) + seq![(ns, ne, n0.value)]
                        + entries(hl0.child_left));
                    assert(entries(Some(h)) == entries(hl0.child_right) + seq![(hs, he, h0.value)]
                        + entries(h0.child_right));
                    assert(entries(Some(hl)) == entries(Some(node)) + seq![(hls, hle, hl0.value)]
                        + entries(Some(h)));
                    assert_seqs_equal!(entries(Some(hl)) == entries(Some(n0)));
                    assert(wf_between(Some(hl0), ne, hs));
                    assert(wf_between(Some(node), lo, hls));
                    assert(wf_between(Some(h), hle, hi));
                    assert(wf_between(Some(hl), lo, hi));
                    assert(rb_valid(Some(hl0)));
                    assert(black_height(Some(node)) == black_height(n0.child_left) + 1);
                    assert(black_height(Some(h)) == black_height(h0.child_right) + 1);
                    assert(rb_valid(Some(node)));
                    assert(rb_valid(Some(h)));
                    assert(rb_valid(Some(hl)));
                    assert(black_height(Some(hl)) == black_height(Some(n0)));
                }
                hl
            } else {
                node.child_right = Some(h);
                proof {
                    assert(node == n0);
                    if h.color == Color::Red {
                        assert(color_of(h.child_left) == Color::Black);
                        assert(color_of(h.child_right) == Color::Black);
                    }
                    assert(rb_valid(Some(h)));
                    assert(rb_valid(Some(node)));
                }
                node
            }
        },
    }
}

/// Inserts the detached red leaf into the subtree at the position the
/// search order selects, rebalancing on the way back up. The result keeps
/// the black height of the input and is red-black valid except possibly for
/// a red root with one red child, a transient state the caller repairs; a
/// black input root rules even that out.
pub(crate) fn ins<T>(
    mut node: Box<ExclusiveRangeMapNode<T>>,
    leaf: Box<ExclusiveRangeMapNode<T>>,
    Ghost(lo): Ghost<int>,
    Ghost(hi): Ghost<int>,
) -> (r: Box<ExclusiveRangeMapNode<T>>)
    requires
        leaf.color == Color::Red,
        leaf.child_left is None,
        leaf.child_right is None,
        leaf.key_range.start < leaf.key_range.end,
        lo <= leaf.key_range.start as int,
        leaf.key_range.end as int <= hi,
        wf_between(Some(node), lo, hi),
        rb_valid(Some(node)),
        !overlaps_any(
            entries(Some(node)),
            leaf.key_range.start as int,
            leaf.key_range.end as int,
        ),
    ensures
        wf_between(Some(r), lo, hi),
        rb_near(Some(r)),
        black_height(Some(r)) == black_height(Some(node)),
        node.color == Color::Black ==> rb_valid(Some(r)),
        exists|k: int|
            0 <= k <= entries(Some(node)).len() && entries(Some(r)) == entries(Some(node)).insert(
                k,
                (leaf.key_range.start as int, leaf.key_range.end as int, leaf.value),
            ),
    decreases node,
{
    let ghost n0 = node;
    let ghost s = entries(Some(n0));
    let ghost sl = entries(n0.child_left);
    let ghost sr = entries(n0.child_right);
    let ghost e = (leaf.key_range.start as int, leaf.key_range.end as int, leaf.value);
    let ghost mid = (n0.key_range.start as int, n0.key_range.end as int, n0.value);
    let a = leaf.key_range.start;
    let b = leaf.key_range.end;
    proof {
        assert(s == (sl + seq![mid]) + sr);
        assert(s[sl.len() as int] == mid);
        assert(!ranges_overlap(s[sl.len() as int].0, s[sl.len() as int].1, e.0, e.1));
    }
    if b <= node.key_range.start {
        proof {
            assert forall|i: int| 0 <= i < sl.len() implies !(#[trigger] ranges_overlap(
                sl[i].0,
                sl[i].1,
                e.0,
                e.1,
            )) by {
                assert(s[i] == sl[i]);
                assert(!ranges_overlap(s[i].0, s[i].1, e.0, e.1));
            }
        }
        match node.child_left.take() {
            None => {
                node.child_left = Some(leaf);
                proof {
                    assert(entries(Some(leaf)) =~= sl.insert(0, e));
                    assert(wf_between(leaf.child_left, lo, leaf.key_range.start as int));
                    assert(wf_between(
                        leaf.child_right,
                        leaf.key_range.end as int,
                        n0.key_range.start as int,
                    ));
                    assert(rb_valid(leaf.child_left));
                    assert(rb_valid(leaf.child_right));
                    assert(black_height(leaf.child_left) == 0);
                    assert(black_height(leaf.child_right) == 0);
                    assert(wf_between(Some(leaf), lo, n0.key_range.start as int));
                    assert(rb_valid(Some(leaf)));
                    assert(black_height(Some(leaf)) == 0);
                }
            },
            Some(l) => {
                let new_l = ins(l, leaf, Ghost(lo), Ghost(node.key_range.start as int));
                node.child_left = Some(new_l);
            },
        }
        proof {
            let k = choose|k: int|
                0 <= k <= sl.len() && entries(node.child_left) == sl.insert(k, e);
            crate::laws::lemma_insert_concat_left(sl, seq![mid] + sr, k, e);
            vstd::seq_lib::lemma_concat_associative(sl.insert(k, e), seq![mid], sr);
            vstd::seq_lib::lemma_concat_associative(sl, seq![mid], sr);
            assert(entries(Some(node)) == (sl.insert(k, e) + seq![mid]) + sr);
            assert((sl.insert(k, e) + seq![mid]) + sr == sl.insert(k, e) + (seq![mid] + sr));
            assert(sl.insert(k, e) + (seq![mid] + sr) == (sl + (seq![mid] + sr)).insert(k, e));
            assert(sl + (seq![mid] + sr) == s);
            assert(entries(Some(node)) == s.insert(k, e));
            assert(exists|k: int|
                0 <= k <= s.len() && entries(Some(node)) == s.insert(k, e));
            assert(wf_between(Some(node), lo, hi));
            assert(black_height(Some(node)) == black_height(Some(n0)));
        }
        let ghost nmid = node;
        if node.color == Color::Black {
            let r = balance_left(node, Ghost(lo), Ghost(hi));
            proof {
                assert(rb_near(Some(r)));
                assert(entries(Some(r)) == entries(Some(nmid)));
            }
            r
        } else {
            proof {
                assert(color_of(n0.child_left) == Color::Black);
                assert(rb_valid(node.child_left));
                assert(rb_near(Some(node)));
            }
            node
        }
    } else {
        proof {
            assert(a >= n0.key_range.end);
            assert forall|i: int| 0 <= i < sr.len() implies !(#[trigger] ranges_overlap(
                sr[i].0,
                sr[i].1,
                e.0,
                e.1,
            )) by {
                assert(s[i + sl.len() + 1] == sr[i]);
                assert(!ranges_overlap(s[i + sl.len() + 1].0, s[i + sl.len() + 1].1, e.0, e.1));
            }
        }
        match node.child_right.take() {
            None => {
                node.child_right = Some(leaf);
                proof {
                    assert(entries(Some(leaf)) =~= sr.insert(0, e));
                    assert(wf_between(
                        leaf.child_left,
                        n0.key_range.end as int,
                        leaf.key_range.start as int,
                    ));
                    assert(wf_between(leaf.child_right, leaf.key_range.end as int, hi));
                    assert(rb_valid(leaf.child_left));
                    assert(rb_valid(leaf.child_right));
                    assert(black_height(leaf.child_left) == 0);
                    assert(black_height(leaf.child_right) == 0);
                    assert(wf_between(Some(leaf), n0.key_range.end as int, hi));
                    assert(rb_valid(Some(leaf)));
                    assert(black_height(Some(leaf)) == 0);
                }
            },
            Some(h) => {
                let new_h = ins(h, leaf, Ghost(node.key_range.end as int), Ghost(hi));
                node.child_right = Some(new_h);
            },
        }
        proof {
            let k = choose|k: int|
                0 <= k <= sr.len() && entries(node.child_right) == sr.insert(k, e);
            crate::laws::lemma_insert_concat_right(sl + seq![mid], sr, k, e);
            assert(entries(Some(node)) == (sl + seq![mid]) + sr.insert(k, e));
            assert((sl + seq![mid]) + sr.insert(k, e) == s.insert(k + sl.len() + 1, e));
            assert(entries(Some(node)) == s.insert(k + sl.len() + 1, e));
            assert(exists|k: int|
                0 <= k <= s.len() && entries(Some(node)) == s.insert(k, e));
            assert(wf_between(Some(node), lo, hi));
            assert(black_height(Some(node)) == black_height(Some(n0)));
        }
        let ghost nmid = node;
        if node.color == Color::Black {
            let r = balance_right(node, Ghost(lo), Ghost(hi));
            proof {
                assert(rb_near(Some(r)));
                assert(entries(Some(r)) == entries(Some(nmid)));
            }
            r
        } else {
            proof {
                assert(color_of(n0.child_right) == Color::Black);
                assert(rb_valid(node.child_right));
                assert(rb_near(Some(node)));
            }
            node
        }
    }
}

/// Looks up the value of the unique stored range containing `point`,
/// descending the tree by the search order.
pub(crate) fn find_in<'a, T>(
    n: &'a Option<Box<ExclusiveRangeMapNode<T>>>,
    point: usize,
    Ghost(lo): Ghost<int>,
    Ghost(hi): Ghost<int>,
) -> (r: Option<&'a T>)
    requires
        wf_between(*n, lo, hi),
    ensures
        match r {
            Some(v) => exists|i: int|
                0 <= i < entries(*n).len() && #[trigger] entry_covers(entries(*n)[i], point as int)
                    && entries(*n)[i].2 == *v,
            None => !covered(entries(*n), point as int),
        },
    decreases n,
{
    match n {
        None => None,
        Some(node) => {
            let ghost s = entries(*n);
            let ghost sl = entries(node.child_left);
            let ghost sr = entries(node.child_right);
            proof {
                assert(s[sl.len() as int]
                    == (node.key_range.start as int, node.key_range.end as int, node.value));
            }
            if point < node.key_range.start {
                let r = find_in(&node.child_left, point, Ghost(lo), Ghost(
                    node.key_range.start as int,
                ));
                proof {
                    crate::laws::lemma_entries_bounds(
                        node.child_right,
                        node.key_range.end as int,
                        hi,
                    );
                    match r {
                        Some(v) => {
                            let i = choose|i: int|
                                0 <= i < sl.len() && #[trigger] entry_covers(sl[i], point as int)
                                    && sl[i].2 == *v;
                            assert(s[i] == sl[i]);
                            assert(entry_covers(s[i], point as int));
                        },
                        None => {
                            assert forall|i: int| 0 <= i < s.len() implies !(
                            #[trigger] entry_covers(s[i], point as int)) by {
                                if i < sl.len() {
                                    assert(s[i] == sl[i]);
                                    assert(!entry_covers(sl[i], point as int));
                                } else if i > sl.len() {
                                    assert(s[i] == sr[i - sl.len() - 1]);
                                }
                            }
                        },
                    }
                }
                r
            } else if point >= node.key_range.end {
                let r = find_in(&node.child_right, point, Ghost(node.key_range.end as int), Ghost(
                    hi,
                ));
                proof {
                    crate::laws::lemma_entries_bounds(
                        node.child_left,
                        lo,
                        node.key_range.start as int,
                    );
                    match r {
                        Some(v) => {
                            let i = choose|i: int|
                                0 <= i < sr.len() && #[trigger] entry_covers(sr[i], point as int)
                                    && sr[i].2 == *v;
                            assert(s[i + sl.len() + 1] == sr[i]);
                            assert(entry_covers(s[i + sl.len() + 1], point as int));
                        },
                        None => {
                            assert forall|i: int| 0 <= i < s.len() implies !(
                            #[trigger] entry_covers(s[i], point as int)) by {
                                if i < sl.len() {
                                    assert(s[i] == sl[i]);
                                } else if i > sl.len() {
                                    assert(s[i] == sr[i - sl.len() - 1]);
                                    assert(!entry_covers(sr[i - sl.len() - 1], point as int));
                                }
                            }
                        },
                    }
                }
                r
            } else {
                proof {
                    assert(entry_covers(s[sl.len() as int], point as int));
                }
                Some(&node.value)
            }
        },
    }
}

} // verus!
