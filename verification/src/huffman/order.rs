//! The tree of a text does not depend on the order of its symbols.
//!
//! While a tree is built, the queue holds the leaves that are left, in some
//! order, and behind them the internal nodes in the order in which they
//! were made. Which node leaves next depends on the leaves as a set and on
//! the internal nodes as a list, not on the order of the leaves.
use vstd::prelude::*;
use vstd::utf8::char_u32_cast;
use crate::huffman::codes::{code_entries, count_of, leaves, lemma_symbols, symbols};
use crate::huffman::tree::{
    build, extracts_before, lemma_min_index_in_range, lemma_min_index_is_first_minimum,
    merge_step, merged, min_index, Node,
};

verus! {

/// Whether the nodes of `l` are leaves without children, of pairwise
/// different symbols.
pub open spec fn distinct_leaves(l: Seq<Node>) -> bool {
    &&& forall|k: int|
        0 <= k < l.len() ==> (#[trigger] l[k]).ch is Some && l[k].left is None && l[k].right
            is None
    &&& forall|j: int, k: int|
        0 <= j < l.len() && 0 <= k < l.len() && j != k ==> (#[trigger] l[j]).ch != (
        #[trigger] l[k]).ch
}

/// Whether every node of `a` is a node of `b`.
pub open spec fn all_within(a: Seq<Node>, b: Seq<Node>) -> bool {
    forall|k: int| 0 <= k < a.len() ==> b.contains(#[trigger] a[k])
}

/// Whether `a` and `b` hold the same leaves, each one once.
pub open spec fn same_leaves(a: Seq<Node>, b: Seq<Node>) -> bool {
    distinct_leaves(a) && distinct_leaves(b) && all_within(a, b) && all_within(b, a)
}

/// Whether the nodes of `i` are internal nodes.
pub open spec fn all_internal(i: Seq<Node>) -> bool {
    forall|k: int| 0 <= k < i.len() ==> (#[trigger] i[k]).ch is None
}

/// The leaves that are left when the next node has left the queue `l + i`.
pub open spec fn leaves_left(l: Seq<Node>, i: Seq<Node>) -> Seq<Node> {
    let m = min_index(l + i);
    if m < l.len() {
        l.remove(m)
    } else {
        l
    }
}

/// The internal nodes that are left when the next node has left the queue
/// `l + i`.
pub open spec fn internals_left(l: Seq<Node>, i: Seq<Node>) -> Seq<Node> {
    let m = min_index(l + i);
    if m < l.len() {
        i
    } else {
        i.remove(m - l.len())
    }
}

/// The node that leaves next, and what is left behind it, do not depend on
/// the order of the leaves.
pub proof fn lemma_same_next(l1: Seq<Node>, l2: Seq<Node>, i: Seq<Node>)
    requires
        same_leaves(l1, l2),
        all_internal(i),
        l1.len() + i.len() > 0,
    ensures
        l1.len() == l2.len(),
        (l1 + i)[min_index(l1 + i)] == (l2 + i)[min_index(l2 + i)],
        (l1 + i).remove(min_index(l1 + i)) == leaves_left(l1, i) + internals_left(l1, i),
        (l2 + i).remove(min_index(l2 + i)) == leaves_left(l2, i) + internals_left(l2, i),
        same_leaves(leaves_left(l1, i), leaves_left(l2, i)),
        internals_left(l1, i) == internals_left(l2, i),
        all_internal(internals_left(l1, i)),
        leaves_left(l1, i).len() + internals_left(l1, i).len() == l1.len() + i.len() - 1,
{
    lemma_same_leaves_len(l1, l2);
    let q1 = l1 + i;
    let q2 = l2 + i;
    let m1 = min_index(q1);
    let m2 = min_index(q2);
    lemma_min_index_in_range(q1);
    lemma_min_index_in_range(q2);
    lemma_min_index_is_first_minimum(q1);
    lemma_min_index_is_first_minimum(q2);
    let n1 = q1[m1];
    let n2 = q2[m2];
    if m1 < l1.len() {
        assert(n1 == l1[m1]);
        assert(l2.contains(n1));
        let j = choose|j: int| 0 <= j < l2.len() && l2[j] == n1;
        assert(q2[j] == n1);
        assert(!extracts_before(q2[j], n2));
        if m2 < l2.len() {
            assert(n2 == l2[m2]);
            assert(l1.contains(n2));
            let k = choose|k: int| 0 <= k < l1.len() && l1[k] == n2;
            assert(q1[k] == n2);
            assert(!extracts_before(q1[k], n1));
            assert(n1.ch is Some && n2.ch is Some);
            assert(n1.freq == n2.freq);
            char_u32_cast(n1.ch.unwrap(), n1.ch.unwrap() as u32);
            char_u32_cast(n2.ch.unwrap(), n2.ch.unwrap() as u32);
            assert(n1.ch.unwrap() == n2.ch.unwrap());
            assert(n1.ch == n2.ch);
            assert(k == m1);
            assert(j == m2);
        } else {
            assert(n2 == i[m2 - l2.len()]);
            assert(q1[l1.len() + (m2 - l2.len())] == n2);
            assert(!extracts_before(q1[l1.len() + (m2 - l2.len())], n1));
            assert(false);
        }
    } else {
        assert(n1 == i[m1 - l1.len()]);
        assert(q2[l2.len() + (m1 - l1.len())] == n1);
        assert(!extracts_before(q2[l2.len() + (m1 - l1.len())], n2));
        if m2 < l2.len() {
            assert(n2 == l2[m2]);
            assert(l1.contains(n2));
            let k = choose|k: int| 0 <= k < l1.len() && l1[k] == n2;
            assert(q1[k] == n2);
            assert(!extracts_before(q1[k], n1));
            assert(false);
        } else {
            assert(n2 == i[m2 - l2.len()]);
            assert(q1[l1.len() + (m2 - l2.len())] == n2);
            assert(!extracts_before(q1[l1.len() + (m2 - l2.len())], n1));
            if m1 - l1.len() < m2 - l2.len() {
                assert(extracts_before(n2, q2[l2.len() + (m1 - l1.len())]));
            }
            if m2 - l2.len() < m1 - l1.len() {
                assert(extracts_before(n1, q1[l1.len() + (m2 - l2.len())]));
            }
            assert(m1 - l1.len() == m2 - l2.len());
        }
    }
    assert(n1 == n2);
    assert(q1.remove(m1) =~= leaves_left(l1, i) + internals_left(l1, i));
    assert(q2.remove(m2) =~= leaves_left(l2, i) + internals_left(l2, i));
    if m1 < l1.len() {
        lemma_same_leaves_remove(l1, l2, m1, m2);
    }
}

/// Lists that hold the same leaves, each one once, are equally long.
pub proof fn lemma_same_leaves_len(a: Seq<Node>, b: Seq<Node>)
    requires
        same_leaves(a, b),
    ensures
        a.len() == b.len(),
    decreases a.len(),
{
    if a.len() == 0 {
        if b.len() > 0 {
            assert(a.contains(b[0]));
        }
    } else {
        let x = a.last();
        assert(x == a[a.len() - 1]);
        assert(b.contains(x));
        let j = choose|j: int| 0 <= j < b.len() && b[j] == x;
        lemma_same_leaves_remove(a, b, a.len() - 1, j);
        lemma_same_leaves_len(a.remove(a.len() - 1), b.remove(j));
    }
}

/// Taking the same leaf out of both lists leaves the same leaves.
pub proof fn lemma_same_leaves_remove(a: Seq<Node>, b: Seq<Node>, j: int, k: int)
    requires
        same_leaves(a, b),
        0 <= j < a.len(),
        0 <= k < b.len(),
        a[j] == b[k],
    ensures
        same_leaves(a.remove(j), b.remove(k)),
{
    let a2 = a.remove(j);
    let b2 = b.remove(k);
    assert forall|x: int| 0 <= x < a2.len() implies b2.contains(#[trigger] a2[x]) by {
        let xa = if x < j {
            x
        } else {
            x + 1
        };
        assert(a2[x] == a[xa]);
        assert(b.contains(a[xa]));
        let y = choose|y: int| 0 <= y < b.len() && b[y] == a[xa];
        assert(y != k) by {
            if y == k {
                assert(a[xa].ch == a[j].ch);
            }
        }
        let yb = if y < k {
            y
        } else {
            y - 1
        };
        assert(b2[yb] == a2[x]);
    }
    assert forall|x: int| 0 <= x < b2.len() implies a2.contains(#[trigger] b2[x]) by {
        let xb = if x < k {
            x
        } else {
            x + 1
        };
        assert(b2[x] == b[xb]);
        assert(a.contains(b[xb]));
        let y = choose|y: int| 0 <= y < a.len() && a[y] == b[xb];
        assert(y != j) by {
            if y == j {
                assert(b[xb].ch == b[k].ch);
            }
        }
        let ya = if y < j {
            y
        } else {
            y - 1
        };
        assert(a2[ya] == b2[x]);
    }
    assert(distinct_leaves(a2)) by {
        assert forall|x: int| 0 <= x < a2.len() implies (#[trigger] a2[x]).ch is Some
            && a2[x].left is None && a2[x].right is None by {
            let xa = if x < j { x } else { x + 1 };
            assert(a2[x] == a[xa]);
        }
        assert forall|x: int, y: int|
            0 <= x < a2.len() && 0 <= y < a2.len() && x != y implies (#[trigger] a2[x]).ch != (
        #[trigger] a2[y]).ch by {
            let xa = if x < j { x } else { x + 1 };
            let ya = if y < j { y } else { y + 1 };
            assert(a2[x] == a[xa] && a2[y] == a[ya]);
        }
    }
    assert(distinct_leaves(b2)) by {
        assert forall|x: int| 0 <= x < b2.len() implies (#[trigger] b2[x]).ch is Some
            && b2[x].left is None && b2[x].right is None by {
            let xb = if x < k { x } else { x + 1 };
            assert(b2[x] == b[xb]);
        }
        assert forall|x: int, y: int|
            0 <= x < b2.len() && 0 <= y < b2.len() && x != y implies (#[trigger] b2[x]).ch != (
        #[trigger] b2[y]).ch by {
            let xb = if x < k { x } else { x + 1 };
            let yb = if y < k { y } else { y + 1 };
            assert(b2[x] == b[xb] && b2[y] == b[yb]);
        }
    }
}

/// The tree does not depend on the order of the leaves in the queue.
pub proof fn lemma_build_any_order(l1: Seq<Node>, l2: Seq<Node>, i: Seq<Node>)
    requires
        same_leaves(l1, l2),
        all_internal(i),
        l1.len() + i.len() > 0,
    ensures
        build(l1 + i) == build(l2 + i),
    decreases l1.len() + i.len(),
{
    lemma_same_next(l1, l2, i);
    let q1 = l1 + i;
    let q2 = l2 + i;
    if q1.len() > 1 {
        let la = leaves_left(l1, i);
        let lb = leaves_left(l2, i);
        let ia = internals_left(l1, i);
        lemma_same_next(la, lb, ia);
        let first = q1[min_index(q1)];
        let second = (la + ia)[min_index(la + ia)];
        let parent = merged(first, second);
        let lc = leaves_left(la, ia);
        let ld = leaves_left(lb, ia);
        let ic = internals_left(la, ia).push(parent);
        assert(merge_step(q1) =~= lc + ic);
        assert(merge_step(q2) =~= ld + ic);
        assert(all_internal(ic)) by {
            assert forall|k: int| 0 <= k < ic.len() implies (#[trigger] ic[k]).ch is None by {
                if k < ic.len() - 1 {
                    assert(ic[k] == internals_left(la, ia)[k]);
                }
            }
        }
        lemma_build_any_order(lc, ld, ic);
    } else {
        assert(q1[0] == q1[min_index(q1)]);
        assert(q2[0] == q2[min_index(q2)]);
    }
}

/// Codes depend on the frequencies alone: two texts in which every symbol
/// occurs equally often have the same code table.
pub proof fn lemma_codes_depend_on_counts(a: Seq<char>, b: Seq<char>)
    requires
        forall|c: char| count_of(a, c) == count_of(b, c),
    ensures
        code_entries(a) == code_entries(b),
{
    lemma_symbols(a);
    lemma_symbols(b);
    if a.len() > 0 {
        assert(a.contains(a[0]));
        assert(symbols(b).contains(a[0]));
    }
    if b.len() > 0 {
        assert(b.contains(b[0]));
        assert(symbols(a).contains(b[0]));
    }
    if a.len() > 0 {
        let la = leaves(a);
        let lb = leaves(b);
        assert forall|k: int| 0 <= k < la.len() implies lb.contains(#[trigger] la[k]) by {
            let c = symbols(a)[k];
            assert(symbols(a).contains(c));
            assert(symbols(b).contains(c));
            let j = choose|j: int| 0 <= j < symbols(b).len() && symbols(b)[j] == c;
            assert(lb[j] == la[k]);
        }
        assert forall|k: int| 0 <= k < lb.len() implies la.contains(#[trigger] lb[k]) by {
            let c = symbols(b)[k];
            assert(symbols(b).contains(c));
            assert(symbols(a).contains(c));
            let j = choose|j: int| 0 <= j < symbols(a).len() && symbols(a)[j] == c;
            assert(la[j] == lb[k]);
        }
        assert(distinct_leaves(la));
        assert(distinct_leaves(lb));
        let none = Seq::<Node>::empty();
        assert(la + none =~= la);
        assert(lb + none =~= lb);
        lemma_build_any_order(la, lb, none);
    }
}

} // verus!
