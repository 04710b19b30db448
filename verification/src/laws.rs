//! Laws of the range map: ordering and disjointness of the stored entries,
//! uniqueness of the entry covering a point, and the logarithmic height
//! bound that the red-black invariants give.

use crate::map::ExclusiveRangeMap;
use crate::node::black_height;
use crate::node::color_of;
use crate::node::covered;
use crate::node::entries;
use crate::node::entry_covers;
use crate::node::height;
use crate::node::ranges_overlap;
use crate::node::rb_valid;
use crate::node::wf_between;
use crate::node::Color;
use crate::node::ExclusiveRangeMapNode;
use vstd::prelude::*;

verus! {

/// Two to the power `e`.
pub open spec fn two_to(e: nat) -> nat
    decreases e,
{
    if e == 0 {
        1
    } else {
        2 * two_to((e - 1) as nat)
    }
}

/// Every entry of a well-formed subtree is a nonempty range within
/// `[lo, hi)`.
pub proof fn lemma_entries_bounds<T>(n: Option<Box<ExclusiveRangeMapNode<T>>>, lo: int, hi: int)
    requires
        wf_between(n, lo, hi),
    ensures
        forall|i: int|
            0 <= i < entries(n).len() ==> lo <= (#[trigger] entries(n)[i]).0
                && entries(n)[i].0 < entries(n)[i].1 && entries(n)[i].1 <= hi,
    decreases n,
{
    match n {
        None => {
            assert(entries(n).len() == 0);
        },
        Some(node) => {
            lemma_entries_bounds(node.child_left, lo, node.key_range.start as int);
            lemma_entries_bounds(node.child_right, node.key_range.end as int, hi);
            let s = entries(n);
            let sl = entries(node.child_left);
            let sr = entries(node.child_right);
            assert forall|i: int| 0 <= i < s.len() implies lo <= (#[trigger] s[i]).0
                && s[i].0 < s[i].1 && s[i].1 <= hi by {
                if i < sl.len() {
                    assert(s[i] == sl[i]);
                } else if i > sl.len() {
                    assert(s[i] == sr[i - sl.len() - 1]);
                }
            }
        },
    }
}

/// In a well-formed subtree the in-order entries are sorted and disjoint:
/// an earlier entry ends at or before a later one starts.
pub proof fn lemma_entries_sorted<T>(n: Option<Box<ExclusiveRangeMapNode<T>>>, lo: int, hi: int)
    requires
        wf_between(n, lo, hi),
    ensures
        forall|i: int, j: int|
            0 <= i < j < entries(n).len() ==> (#[trigger] entries(n)[i]).1
                <= (#[trigger] entries(n)[j]).0,
    decreases n,
{
    match n {
        None => {},
        Some(node) => {
            let s = entries(n);
            let sl = entries(node.child_left);
            let sr = entries(node.child_right);
            let mid = node.key_range.start as int;
            lemma_entries_sorted(node.child_left, lo, node.key_range.start as int);
            lemma_entries_sorted(node.child_right, node.key_range.end as int, hi);
            lemma_entries_bounds(node.child_left, lo, node.key_range.start as int);
            lemma_entries_bounds(node.child_right, node.key_range.end as int, hi);
            assert forall|i: int, j: int| 0 <= i < j < s.len() implies (#[trigger] s[i]).1
                <= (#[trigger] s[j]).0 by {
                if j < sl.len() {
                    assert(s[i] == sl[i] && s[j] == sl[j]);
                } else if j == sl.len() {
                    assert(s[i] == sl[i]);
                } else {
                    if i < sl.len() {
                        assert(s[i] == sl[i]);
                    } else if i == sl.len() {
                    } else {
                        assert(s[i] == sr[i - sl.len() - 1]);
                    }
                    assert(s[j] == sr[j - sl.len() - 1]);
                }
            }
        },
    }
}

/// Inserting into the left part of a concatenation and then concatenating
/// is inserting into the concatenation at the same position.
pub proof fn lemma_insert_concat_left<A>(s1: Seq<A>, s2: Seq<A>, k: int, e: A)
    requires
        0 <= k <= s1.len(),
    ensures
        s1.insert(k, e) + s2 == (s1 + s2).insert(k, e),
{
    s1.insert_ensures(k, e);
    (s1 + s2).insert_ensures(k, e);
    let lhs = s1.insert(k, e) + s2;
    let rhs = (s1 + s2).insert(k, e);
    assert forall|i: int| 0 <= i < lhs.len() implies lhs[i] == rhs[i] by {
        if i < k {
            assert(lhs[i] == s1.insert(k, e)[i]);
            assert(rhs[i] == (s1 + s2)[i]);
        } else if i == k {
            assert(lhs[i] == s1.insert(k, e)[k]);
        } else if i <= s1.len() {
            assert(lhs[i] == s1.insert(k, e)[(i - 1) + 1]);
            assert(s1.insert(k, e)[(i - 1) + 1] == s1[i - 1]);
            assert(rhs[(i - 1) + 1] == (s1 + s2)[i - 1]);
        } else {
            assert(lhs[i] == s2[i - (s1.len() + 1)]);
            assert(rhs[(i - 1) + 1] == (s1 + s2)[i - 1]);
            assert((s1 + s2)[i - 1] == s2[i - 1 - s1.len()]);
        }
    }
    assert(lhs =~= rhs);
}

/// Inserting into the right part of a concatenation and then concatenating
/// is inserting into the concatenation at the shifted position.
pub proof fn lemma_insert_concat_right<A>(s1: Seq<A>, s2: Seq<A>, k: int, e: A)
    requires
        0 <= k <= s2.len(),
    ensures
        s1 + s2.insert(k, e) == (s1 + s2).insert(k + s1.len(), e),
{
    s2.insert_ensures(k, e);
    (s1 + s2).insert_ensures(k + s1.len(), e);
    let lhs = s1 + s2.insert(k, e);
    let rhs = (s1 + s2).insert(k + s1.len(), e);
    assert forall|i: int| 0 <= i < lhs.len() implies lhs[i] == rhs[i] by {
        if i < s1.len() {
            assert(lhs[i] == s1[i]);
            assert(rhs[i] == (s1 + s2)[i]);
        } else if i < k + s1.len() {
            assert(lhs[i] == s2.insert(k, e)[i - s1.len()]);
            assert(s2.insert(k, e)[i - s1.len()] == s2[i - s1.len()]);
            assert(rhs[i] == (s1 + s2)[i]);
            assert((s1 + s2)[i] == s2[i - s1.len()]);
        } else if i == k + s1.len() {
            assert(lhs[i] == s2.insert(k, e)[k]);
        } else {
            assert(lhs[i] == s2.insert(k, e)[((i - s1.len()) - 1) + 1]);
            assert(s2.insert(k, e)[((i - s1.len()) - 1) + 1] == s2[i - s1.len() - 1]);
            assert(rhs[(i - 1) + 1] == (s1 + s2)[i - 1]);
            assert((s1 + s2)[i - 1] == s2[i - 1 - s1.len()]);
        }
    }
    assert(lhs =~= rhs);
}

/// Disjointness: no two distinct stored ranges of a well-formed map share
/// a key point.
pub proof fn lemma_disjointness<T>(m: ExclusiveRangeMap<T>)
    requires
        m.wf(),
    ensures
        forall|i: int, j: int|
            0 <= i < m@.len() && 0 <= j < m@.len() && i != j
                ==> !ranges_overlap(
                (#[trigger] m@[i]).0,
                m@[i].1,
                (#[trigger] m@[j]).0,
                m@[j].1,
            ),
{
    lemma_entries_sorted(m.head, 0, usize::MAX as int + 1);
}

/// Lookup is unambiguous: in a well-formed map at most one stored entry
/// covers any given point, so the value `find` returns is the value of
/// that entry.
pub proof fn lemma_covering_entry_unique<T>(m: ExclusiveRangeMap<T>, p: int, i: int, j: int)
    requires
        m.wf(),
        0 <= i < m@.len(),
        0 <= j < m@.len(),
        entry_covers(m@[i], p),
        entry_covers(m@[j], p),
    ensures
        i == j,
{
    lemma_entries_sorted(m.head, 0, usize::MAX as int + 1);
}

/// Lookup after insertion: splicing the entry `(a, b, v)` into a sequence
/// of entries makes every point of `[a, b)` covered with value `v`, keeps
/// every previously covered point covered with its value, and covers no
/// point outside `[a, b)` that was not covered before.
pub proof fn lemma_insert_lookup<T>(pre: Seq<(int, int, T)>, k: int, a: int, b: int, v: T, p: int)
    requires
        0 <= k <= pre.len(),
    ensures
        a <= p < b ==> exists|i: int|
            0 <= i < pre.insert(k, (a, b, v)).len() && #[trigger] entry_covers(
                pre.insert(k, (a, b, v))[i],
                p,
            ) && pre.insert(k, (a, b, v))[i].2 == v,
        covered(pre, p) ==> covered(pre.insert(k, (a, b, v)), p),
        covered(pre.insert(k, (a, b, v)), p) ==> covered(pre, p) || a <= p < b,
{
    let e = (a, b, v);
    let post = pre.insert(k, e);
    pre.insert_ensures(k, e);
    assert(post[k] == e);
    if a <= p < b {
        assert(entry_covers(post[k], p) && post[k].2 == v);
    }
    if covered(pre, p) {
        let i = choose|i: int| 0 <= i < pre.len() && #[trigger] entry_covers(pre[i], p);
        if i < k {
            assert(post[i] == pre[i]);
            assert(entry_covers(post[i], p));
        } else {
            assert(post[i + 1] == pre[i]);
            assert(entry_covers(post[i + 1], p));
        }
    }
    if covered(post, p) {
        let i = choose|i: int| 0 <= i < post.len() && #[trigger] entry_covers(post[i], p);
        if i == k {
            assert(a <= p < b);
        } else if i < k {
            assert(post[i] == pre[i]);
            assert(entry_covers(pre[i], p));
        } else {
            assert(post[(i - 1) + 1] == pre[i - 1]);
            assert(entry_covers(pre[i - 1], p));
        }
    }
}

/// In a red-black valid subtree the longest path is at most twice the
/// black height, plus one more node when the root itself is red.
pub proof fn lemma_rb_height<T>(n: Option<Box<ExclusiveRangeMapNode<T>>>)
    requires
        rb_valid(n),
    ensures
        height(n) <= 2 * black_height(n) + if color_of(n) == Color::Red {
            1int
        } else {
            0int
        },
    decreases n,
{
    match n {
        None => {},
        Some(node) => {
            lemma_rb_height(node.child_left);
            lemma_rb_height(node.child_right);
        },
    }
}

/// A red-black valid subtree of black height `h` stores at least
/// `two_to(h) - 1` entries.
pub proof fn lemma_rb_count<T>(n: Option<Box<ExclusiveRangeMapNode<T>>>)
    requires
        rb_valid(n),
    ensures
        entries(n).len() + 1 >= two_to(black_height(n)),
    decreases n,
{
    match n {
        None => {},
        Some(node) => {
            lemma_rb_count(node.child_left);
            lemma_rb_count(node.child_right);
            lemma_two_to_monotone(black_height(node.child_left), black_height(n));
            assert(entries(n).len() == entries(node.child_left).len() + 1 + entries(
                node.child_right,
            ).len());
        },
    }
}

/// `two_to` is monotone.
pub proof fn lemma_two_to_monotone(x: nat, y: nat)
    requires
        x <= y,
    ensures
        two_to(x) <= two_to(y),
    decreases y,
{
    if x < y {
        lemma_two_to_monotone(x, (y - 1) as nat);
    }
}

/// Balance bound: a well-formed map of `n` entries has height at most
/// `2 * log2(n + 1)` — stated as `two_to` of half the height, rounded up,
/// being at most `n + 1` — so every descent is logarithmic in the size.
pub proof fn lemma_height_bound<T>(m: ExclusiveRangeMap<T>)
    requires
        m.wf(),
    ensures
        height(m.head) <= 2 * black_height(m.head),
        m@.len() + 1 >= two_to(black_height(m.head)),
        two_to(((height(m.head) + 1) / 2) as nat) <= m@.len() + 1,
{
    lemma_rb_height(m.head);
    lemma_rb_count(m.head);
    lemma_two_to_monotone(((height(m.head) + 1) / 2) as nat, black_height(m.head));
}

} // verus!
