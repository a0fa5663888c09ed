//! The Huffman tree and its construction from a queue of nodes.
//!
//! Nodes leave the queue by ascending frequency. Among nodes of equal
//! frequency a leaf leaves before an internal node, leaves leave by ascending
//! symbol, and internal nodes leave in the order in which they entered.
use vstd::prelude::*;

verus! {

/// A node of a Huffman tree: a leaf that holds one symbol, or an internal
/// node that holds none and owns two subtrees.
#[derive(Debug)]
pub struct Node {
    pub ch: Option<char>,
    pub freq: u64,
    pub left: Option<Box<Node>>,
    pub right: Option<Box<Node>>,
}

/// Whether `a` leaves the queue before `b` when both are present: lower
/// frequency first, then a leaf before an internal node, then the lower
/// symbol. Two internal nodes of equal frequency are not ordered by this.
pub open spec fn extracts_before(a: Node, b: Node) -> bool {
    a.freq < b.freq || (a.freq == b.freq && match (a.ch, b.ch) {
        (Some(x), Some(y)) => (x as u32) < (y as u32),
        (Some(_), None) => true,
        (None, _) => false,
    })
}

/// Index of the node that leaves `q` next: the first one that no other node
/// precedes.
pub open spec fn min_index(q: Seq<Node>) -> int
    decreases q.len(),
{
    if q.len() <= 1 {
        0
    } else {
        let m = min_index(q.drop_last());
        if extracts_before(q.last(), q[m]) {
            q.len() - 1
        } else {
            m
        }
    }
}

/// The internal node whose children are `a` (left) and `b` (right).
pub open spec fn merged(a: Node, b: Node) -> Node {
    Node {
        ch: None,
        freq: (a.freq + b.freq) as u64,
        left: Some(Box::new(a)),
        right: Some(Box::new(b)),
    }
}

/// The queue after one round: the two nodes that leave first are replaced by
/// their parent, which enters at the back.
pub open spec fn merge_step(q: Seq<Node>) -> Seq<Node> {
    let i = min_index(q);
    let rest = q.remove(i);
    let j = min_index(rest);
    rest.remove(j).push(merged(q[i], rest[j]))
}

/// The root that remains when rounds are repeated until one node is left.
pub open spec fn build(q: Seq<Node>) -> Node
    decreases q.len(),
{
    if q.len() <= 1 {
        q[0]
    } else {
        proof {
            lemma_min_index_in_range(q);
            lemma_min_index_in_range(q.remove(min_index(q)));
        }
        build(merge_step(q))
    }
}

/// Sum of the frequencies of the nodes of a queue.
pub open spec fn total_freq(q: Seq<Node>) -> nat
    decreases q.len(),
{
    if q.len() == 0 {
        0
    } else {
        total_freq(q.drop_last()) + q.last().freq as nat
    }
}

/// The node that leaves next is a node of the queue.
pub proof fn lemma_min_index_in_range(q: Seq<Node>)
    requires
        q.len() > 0,
    ensures
        0 <= min_index(q) < q.len(),
    decreases q.len(),
{
    if q.len() > 1 {
        lemma_min_index_in_range(q.drop_last());
    }
}

/// The node that leaves next is one that no node of the queue precedes, and
/// it precedes every node that stands before it in the queue.
pub proof fn lemma_min_index_is_first_minimum(q: Seq<Node>)
    requires
        q.len() > 0,
    ensures
        forall|k: int| 0 <= k < q.len() ==> !extracts_before(#[trigger] q[k], q[min_index(q)]),
        forall|k: int| 0 <= k < min_index(q) ==> extracts_before(q[min_index(q)], #[trigger] q[k]),
    decreases q.len(),
{
    if q.len() > 1 {
        let init = q.drop_last();
        lemma_min_index_in_range(init);
        lemma_min_index_is_first_minimum(init);
        let m = min_index(init);
        assert forall|k: int| 0 <= k < q.len() implies !extracts_before(
            #[trigger] q[k],
            q[min_index(q)],
        ) by {
            if k < q.len() - 1 {
                assert(q[k] == init[k]);
            }
        }
        assert forall|k: int| 0 <= k < min_index(q) implies extracts_before(
            q[min_index(q)],
            #[trigger] q[k],
        ) by {
            assert(q[k] == init[k]);
        }
    }
}

/// A node that enters the queue adds its frequency to the sum.
pub proof fn lemma_total_freq_push(q: Seq<Node>, n: Node)
    ensures
        total_freq(q.push(n)) == total_freq(q) + n.freq,
{
    assert(q.push(n).drop_last() == q);
}

/// A node that leaves the queue takes its frequency from the sum.
pub proof fn lemma_total_freq_remove(q: Seq<Node>, i: int)
    requires
        0 <= i < q.len(),
    ensures
        total_freq(q.remove(i)) + q[i].freq == total_freq(q),
    decreases q.len(),
{
    if i == q.len() - 1 {
        assert(q.remove(i) == q.drop_last());
    } else {
        lemma_total_freq_remove(q.drop_last(), i);
        assert(q.remove(i).drop_last() == q.drop_last().remove(i));
        assert(q.remove(i).last() == q.last());
    }
}

/// A node that takes the place of another changes the sum by the
/// difference of their frequencies.
pub proof fn lemma_total_freq_update(q: Seq<Node>, i: int, n: Node)
    requires
        0 <= i < q.len(),
    ensures
        total_freq(q.update(i, n)) + q[i].freq == total_freq(q) + n.freq,
    decreases q.len(),
{
    if i == q.len() - 1 {
        assert(q.update(i, n).drop_last() == q.drop_last());
    } else {
        lemma_total_freq_update(q.drop_last(), i, n);
        assert(q.update(i, n).drop_last() == q.drop_last().update(i, n));
    }
}

/// The root built from two or more nodes is an internal node.
pub proof fn lemma_root_is_internal(q: Seq<Node>)
    requires
        q.len() >= 2,
    ensures
        build(q).ch is None,
    decreases q.len(),
{
    lemma_min_index_in_range(q);
    lemma_min_index_in_range(q.remove(min_index(q)));
    let next = merge_step(q);
    if next.len() >= 2 {
        lemma_root_is_internal(next);
    } else {
        assert(next[0] == next.last());
        assert(build(next) == next[0]);
    }
}

/// Whether every node of the queue is a well-formed tree.
pub open spec fn all_wf(q: Seq<Node>) -> bool {
    forall|i: int| 0 <= i < q.len() ==> (#[trigger] q[i]).wf()
}

/// The tree built from well-formed trees is well formed: every internal
/// node has two children and the sum of their frequencies.
pub proof fn lemma_build_wf(q: Seq<Node>)
    requires
        q.len() > 0,
        all_wf(q),
        total_freq(q) <= u64::MAX,
    ensures
        build(q).wf(),
    decreases q.len(),
{
    if q.len() > 1 {
        let i = min_index(q);
        lemma_min_index_in_range(q);
        let rest = q.remove(i);
        let j = min_index(rest);
        lemma_min_index_in_range(rest);
        let last = rest.remove(j);
        let parent = merged(q[i], rest[j]);
        lemma_total_freq_remove(q, i);
        lemma_total_freq_remove(rest, j);
        lemma_total_freq_push(last, parent);
        assert(rest[j].wf());
        assert(parent.wf());
        let next = merge_step(q);
        assert forall|k: int| 0 <= k < next.len() implies (#[trigger] next[k]).wf() by {
            if k < last.len() {
                assert(next[k] == last[k]);
                if k < j {
                    assert(last[k] == rest[k]);
                } else {
                    assert(last[k] == rest[k + 1]);
                }
            }
        }
        lemma_build_wf(next);
    }
}

impl Node {
    /// Whether the tree below this node is well formed: a leaf holds a
    /// symbol, an internal node holds none, has both children, and its
    /// frequency is the sum of theirs.
    pub open spec fn wf(self) -> bool
        decreases self,
    {
        match (self.left, self.right) {
            (None, None) => self.ch is Some,
            (Some(l), Some(r)) => self.ch is None && l.wf() && r.wf() && self.freq == l.freq
                + r.freq,
            _ => false,
        }
    }

    /// A node without children.
    pub fn new(ch: Option<char>, freq: u64) -> (node: Node)
        ensures
            node == (Node { ch, freq, left: None, right: None }),
    {
        Node { ch, freq, left: None, right: None }
    }

    /// Whether this node leaves a queue before `other`.
    pub fn precedes(&self, other: &Node) -> (b: bool)
        ensures
            b == extracts_before(*self, *other),
    {
        if self.freq != other.freq {
            self.freq < other.freq
        } else {
            match (self.ch, other.ch) {
                (Some(x), Some(y)) => (x as u32) < (y as u32),
                (Some(_), None) => true,
                (None, _) => false,
            }
        }
    }

    /// Removes from `queue` the node that leaves next and returns it.
    pub fn pop_min(queue: &mut Vec<Node>) -> (node: Node)
        requires
            old(queue)@.len() > 0,
        ensures
            node == old(queue)@[min_index(old(queue)@)],
            final(queue)@ == old(queue)@.remove(min_index(old(queue)@)),
    {
        let mut best: usize = 0;
        let mut i: usize = 1;
        while i < queue.len()
            invariant
                1 <= i <= queue.len(),
                queue@ == old(queue)@,
                best < i,
                best as int == min_index(queue@.take(i as int)),
            decreases queue.len() - i,
        {
            assert(queue@.take(i + 1).drop_last() == queue@.take(i as int));
            if queue[i].precedes(&queue[best]) {
                best = i;
            }
            i += 1;
        }
        assert(queue@.take(queue@.len() as int) == queue@);
        queue.remove(best)
    }

    /// Builds the Huffman tree from a queue of nodes and leaves the queue
    /// empty. The two nodes that leave first become the left and the right
    /// child of a new internal node, which enters the queue, until a single
    /// node is left: the root.
    pub fn from_queue(queue: &mut Vec<Node>) -> (root: Node)
        requires
            old(queue)@.len() > 0,
            total_freq(old(queue)@) <= u64::MAX,
        ensures
            root == build(old(queue)@),
            final(queue)@.len() == 0,
            all_wf(old(queue)@) ==> root.wf(),
    {
        proof {
            if all_wf(queue@) {
                lemma_build_wf(queue@);
            }
        }
        while queue.len() > 1
            invariant
                queue@.len() > 0,
                total_freq(queue@) <= u64::MAX,
                build(queue@) == build(old(queue)@),
            decreases queue.len(),
        {
            let ghost q = queue@;
            proof {
                lemma_min_index_in_range(q);
                lemma_total_freq_remove(q, min_index(q));
            }
            let a = Node::pop_min(queue);
            let ghost rest = queue@;
            proof {
                lemma_min_index_in_range(rest);
                lemma_total_freq_remove(rest, min_index(rest));
            }
            let b = Node::pop_min(queue);

            let mut c = Node::new(None, a.freq + b.freq);
            c.left = Some(Box::new(a));
            c.right = Some(Box::new(b));

            proof {
                lemma_total_freq_push(queue@, c);
                assert(c == merged(a, b));
            }
            queue.push(c);
            assert(queue@ == merge_step(q));
        }
        Node::pop_min(queue)
    }
}

} // verus!
