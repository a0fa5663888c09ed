//! From a text to its code table: symbol frequencies, the leaves of the
//! tree, and the codes read off the finished tree.
use vstd::prelude::*;
use crate::huffman::table::{
    bind_all, keys_distinct, lemma_bind_all_concat, lemma_position_is, HuffmanTable,
};
use crate::huffman::tree::{
    build, lemma_min_index_in_range, lemma_total_freq_push, lemma_total_freq_update, merge_step,
    merged, min_index, total_freq, Node,
};
use crate::text::{chars_of, push_char};

verus! {

/// How often `c` occurs in `text`.
pub open spec fn count_of(text: Seq<char>, c: char) -> nat
    decreases text.len(),
{
    if text.len() == 0 {
        0
    } else {
        count_of(text.drop_last(), c) + if text.last() == c {
            1nat
        } else {
            0nat
        }
    }
}

/// The distinct symbols of `text`, in the order of their first occurrence.
pub open spec fn symbols(text: Seq<char>) -> Seq<char>
    decreases text.len(),
{
    if text.len() == 0 {
        Seq::empty()
    } else {
        let before = symbols(text.drop_last());
        if before.contains(text.last()) {
            before
        } else {
            before.push(text.last())
        }
    }
}

/// The leaf for symbol `c` with frequency `n`.
pub open spec fn leaf(c: char, n: nat) -> Node {
    Node { ch: Some(c), freq: n as u64, left: None, right: None }
}

/// One leaf per distinct symbol of `text`, with the number of its
/// occurrences as frequency, in the order of first occurrence.
pub open spec fn leaves(text: Seq<char>) -> Seq<Node> {
    Seq::new(symbols(text).len(), |i: int| leaf(symbols(text)[i], count_of(text, symbols(text)[i])))
}

/// A symbol occurs at most as often as the text is long.
pub proof fn lemma_count_le_len(text: Seq<char>, c: char)
    ensures
        count_of(text, c) <= text.len(),
    decreases text.len(),
{
    if text.len() > 0 {
        lemma_count_le_len(text.drop_last(), c);
    }
}

/// What a list holds after a push is what it held before, and the new
/// element.
proof fn lemma_contains_push(s: Seq<char>, x: char, c: char)
    ensures
        s.push(x).contains(c) <==> (s.contains(c) || x == c),
{
    let t = s.push(x);
    if s.contains(c) {
        let j = choose|j: int| 0 <= j < s.len() && s[j] == c;
        assert(t[j] == c);
    }
    if x == c {
        assert(t[s.len() as int] == c);
    }
    if t.contains(c) {
        let j = choose|j: int| 0 <= j < t.len() && t[j] == c;
        if j < s.len() {
            assert(s[j] == c);
        }
    }
}

/// `symbols` lists every character that occurs, and each one once.
pub proof fn lemma_symbols(text: Seq<char>)
    ensures
        symbols(text).no_duplicates(),
        forall|c: char| symbols(text).contains(c) <==> text.contains(c),
        forall|c: char| symbols(text).contains(c) <==> count_of(text, c) > 0,
    decreases text.len(),
{
    if text.len() > 0 {
        let init = text.drop_last();
        let last = text.last();
        let before = symbols(init);
        lemma_symbols(init);
        assert(text == init.push(last));
        assert forall|c: char| symbols(text).contains(c) <==> text.contains(c) by {
            lemma_contains_push(init, last, c);
            lemma_contains_push(before, last, c);
        }
        assert forall|c: char| symbols(text).contains(c) <==> count_of(text, c) > 0 by {
            lemma_contains_push(before, last, c);
        }
    } else {
        assert forall|c: char| symbols(text).contains(c) <==> count_of(text, c) > 0 by {
            assert(!symbols(text).contains(c));
        }
    }
}

/// The codes of the symbols below `node`, left to right, where `prefix` is
/// the code of `node` itself: a leaf has the code that leads to it, and the
/// way to a left child adds `'0'`, the way to a right child `'1'`.
pub open spec fn codes_of(node: Node, prefix: Seq<char>) -> Seq<(char, Seq<char>)>
    decreases node,
{
    match node.ch {
        Some(ch) => seq![(ch, prefix)],
        None => {
            let below_left = match node.left {
                Some(child) => codes_of(*child, prefix.push('0')),
                None => Seq::empty(),
            };
            let below_right = match node.right {
                Some(child) => codes_of(*child, prefix.push('1')),
                None => Seq::empty(),
            };
            below_left + below_right
        },
    }
}

/// The codes below a child that may be absent.
pub open spec fn codes_below(child: Option<Box<Node>>, prefix: Seq<char>) -> Seq<
    (char, Seq<char>),
> {
    match child {
        Some(node) => codes_of(*node, prefix),
        None => Seq::empty(),
    }
}

/// The entries of the code table of `text`: none for the empty text,
/// otherwise the codes read off the tree that is built from its leaves.
pub open spec fn code_entries(text: Seq<char>) -> Seq<(char, Seq<char>)> {
    if text.len() == 0 {
        Seq::empty()
    } else {
        codes_of(build(leaves(text)), Seq::empty())
    }
}

/// How many entries of `s` have the key `c`.
pub open spec fn key_count(s: Seq<(char, Seq<char>)>, c: char) -> nat
    decreases s.len(),
{
    if s.len() == 0 {
        0
    } else {
        key_count(s.drop_last(), c) + if s.last().0 == c {
            1nat
        } else {
            0nat
        }
    }
}

/// How many leaves below `node` hold the symbol `c`.
pub open spec fn occurrences(node: Node, c: char) -> nat
    decreases node,
{
    match node.ch {
        Some(ch) => if ch == c {
            1
        } else {
            0
        },
        None => {
            let below_left = match node.left {
                Some(child) => occurrences(*child, c),
                None => 0,
            };
            let below_right = match node.right {
                Some(child) => occurrences(*child, c),
                None => 0,
            };
            below_left + below_right
        },
    }
}

/// How many leaves of the trees of a queue hold the symbol `c`.
pub open spec fn queue_occurrences(q: Seq<Node>, c: char) -> nat
    decreases q.len(),
{
    if q.len() == 0 {
        0
    } else {
        queue_occurrences(q.drop_last(), c) + occurrences(q.last(), c)
    }
}

/// The entries for a key in two lists are those in their concatenation.
proof fn lemma_key_count_concat(a: Seq<(char, Seq<char>)>, b: Seq<(char, Seq<char>)>, c: char)
    ensures
        key_count(a + b, c) == key_count(a, c) + key_count(b, c),
    decreases b.len(),
{
    if b.len() == 0 {
        assert(a + b == a);
    } else {
        lemma_key_count_concat(a, b.drop_last(), c);
        assert((a + b).drop_last() == a + b.drop_last());
    }
}

/// A key is counted zero times exactly if no entry has it.
pub proof fn lemma_key_count_zero(s: Seq<(char, Seq<char>)>, c: char)
    ensures
        key_count(s, c) == 0 <==> forall|j: int| 0 <= j < s.len() ==> s[j].0 != c,
    decreases s.len(),
{
    if s.len() > 0 {
        lemma_key_count_zero(s.drop_last(), c);
        if key_count(s, c) == 0 {
            assert forall|j: int| 0 <= j < s.len() implies s[j].0 != c by {
                if j < s.len() - 1 {
                    assert(s.drop_last()[j] == s[j]);
                }
            }
        } else if s.last().0 != c {
            let j = choose|j: int| 0 <= j < s.len() - 1 && s.drop_last()[j].0 == c;
            assert(s[j].0 == c);
        }
    }
}

/// Entries of which no key is counted twice have distinct keys.
pub proof fn lemma_counted_once(s: Seq<(char, Seq<char>)>)
    requires
        forall|c: char| key_count(s, c) <= 1,
    ensures
        keys_distinct(s),
    decreases s.len(),
{
    if s.len() > 0 {
        let init = s.drop_last();
        let k = s.last().0;
        assert forall|c: char| key_count(init, c) <= 1 by {
            assert(key_count(s, c) <= 1);
        }
        lemma_counted_once(init);
        assert(key_count(s, k) <= 1);
        lemma_key_count_zero(init, k);
        assert forall|i: int, j: int| 0 <= i < s.len() && 0 <= j < s.len() && i != j implies (
        #[trigger] s[i]).0 != (#[trigger] s[j]).0 by {
            if i < init.len() {
                assert(init[i] == s[i]);
            }
            if j < init.len() {
                assert(init[j] == s[j]);
            }
        }
    }
}

/// Entries whose keys are all different are what binding them one after the
/// other to an empty table gives.
pub proof fn lemma_bind_all_fresh(s: Seq<(char, Seq<char>)>)
    requires
        forall|c: char| key_count(s, c) <= 1,
    ensures
        bind_all(Seq::empty(), s) == s,
    decreases s.len(),
{
    if s.len() > 0 {
        let init = s.drop_last();
        let k = s.last().0;
        assert forall|c: char| key_count(init, c) <= 1 by {
            assert(key_count(s, c) <= 1);
        }
        lemma_bind_all_fresh(init);
        assert(key_count(s, k) <= 1);
        lemma_key_count_zero(init, k);
        lemma_position_is(init, k, None);
        assert(init.push(s.last()) == s);
    }
}

/// The codes of a tree have one entry for each of its leaves.
proof fn lemma_codes_key_count(node: Node, prefix: Seq<char>, c: char)
    ensures
        key_count(codes_of(node, prefix), c) == occurrences(node, c),
    decreases node,
{
    match node.ch {
        Some(ch) => {
            assert(key_count(codes_of(node, prefix).drop_last(), c) == 0);
        },
        None => {
            let below_left = match node.left {
                Some(child) => codes_of(*child, prefix.push('0')),
                None => Seq::empty(),
            };
            let below_right = match node.right {
                Some(child) => codes_of(*child, prefix.push('1')),
                None => Seq::empty(),
            };
            if let Some(child) = node.left {
                lemma_codes_key_count(*child, prefix.push('0'), c);
            }
            if let Some(child) = node.right {
                lemma_codes_key_count(*child, prefix.push('1'), c);
            }
            lemma_key_count_concat(below_left, below_right, c);
        },
    }
}

/// A tree that leaves the queue takes its leaves with it.
proof fn lemma_queue_occurrences_remove(q: Seq<Node>, i: int, c: char)
    requires
        0 <= i < q.len(),
    ensures
        queue_occurrences(q.remove(i), c) + occurrences(q[i], c) == queue_occurrences(q, c),
    decreases q.len(),
{
    if i == q.len() - 1 {
        assert(q.remove(i) == q.drop_last());
    } else {
        lemma_queue_occurrences_remove(q.drop_last(), i, c);
        assert(q.remove(i).drop_last() == q.drop_last().remove(i));
        assert(q.remove(i).last() == q.last());
    }
}

/// Building the tree keeps every leaf: the root holds a symbol as often as
/// the trees of the queue did together.
proof fn lemma_build_occurrences(q: Seq<Node>, c: char)
    requires
        q.len() > 0,
    ensures
        occurrences(build(q), c) == queue_occurrences(q, c),
    decreases q.len(),
{
    if q.len() == 1 {
        assert(queue_occurrences(q.drop_last(), c) == 0);
    } else {
        let i = min_index(q);
        lemma_min_index_in_range(q);
        let rest = q.remove(i);
        let j = min_index(rest);
        lemma_min_index_in_range(rest);
        let parent = merged(q[i], rest[j]);
        lemma_queue_occurrences_remove(q, i, c);
        lemma_queue_occurrences_remove(rest, j, c);
        assert(merge_step(q).drop_last() == rest.remove(j));
        assert(merge_step(q).last() == parent);
        lemma_build_occurrences(merge_step(q), c);
    }
}

/// A queue of leaves holds a symbol as often as the list of their symbols.
proof fn lemma_leaves_occurrences(q: Seq<Node>, syms: Seq<char>, c: char)
    requires
        q.len() == syms.len(),
        forall|i: int| 0 <= i < q.len() ==> q[i].ch == Some(syms[i]),
    ensures
        queue_occurrences(q, c) == count_of(syms, c),
    decreases q.len(),
{
    if q.len() > 0 {
        lemma_leaves_occurrences(q.drop_last(), syms.drop_last(), c);
    }
}

/// In a list without duplicates each element occurs once.
proof fn lemma_count_no_duplicates(syms: Seq<char>, c: char)
    requires
        syms.no_duplicates(),
    ensures
        count_of(syms, c) == if syms.contains(c) {
            1nat
        } else {
            0nat
        },
    decreases syms.len(),
{
    if syms.len() > 0 {
        let init = syms.drop_last();
        lemma_count_no_duplicates(init, c);
        lemma_contains_push(init, syms.last(), c);
        assert(init.push(syms.last()) == syms);
        if syms.last() == c && init.contains(c) {
            let j = choose|j: int| 0 <= j < init.len() && init[j] == c;
            assert(syms[j] == syms[syms.len() - 1]);
        }
    }
}

/// In the code table of a text every symbol of the text has exactly one
/// entry, and no other symbol has any.
pub proof fn lemma_code_entries_keys(text: Seq<char>, c: char)
    ensures
        key_count(code_entries(text), c) == if text.contains(c) {
            1nat
        } else {
            0nat
        },
{
    if text.len() > 0 {
        let q = leaves(text);
        lemma_symbols(text);
        lemma_codes_key_count(build(q), Seq::empty(), c);
        lemma_build_occurrences(q, c);
        lemma_leaves_occurrences(q, symbols(text), c);
        lemma_count_no_duplicates(symbols(text), c);
    }
}

/// Enters the codes of the symbols below `node` into `table`, where `code`
/// is the code of `node` itself.
pub fn traverse(table: &mut HuffmanTable, node: &Node, code: String)
    ensures
        final(table).entries() == bind_all(old(table).entries(), codes_of(*node, code@)),
    decreases node,
{
    if let Some(ch) = node.ch {
        let ghost items = codes_of(*node, code@);
        assert(bind_all(table.entries(), items.drop_last()) == table.entries());
        table.insert(ch, code);
    } else {
        let ghost start = table.entries();
        let ghost below_left = codes_below(node.left, code@.push('0'));
        let ghost below_right = codes_below(node.right, code@.push('1'));
        if let Some(left) = &node.left {
            let mut left_code = code.clone();
            push_char(&mut left_code, '0');
            traverse(table, left, left_code);
        }
        if let Some(right) = &node.right {
            let mut right_code = code.clone();
            push_char(&mut right_code, '1');
            traverse(table, right, right_code);
        }
        proof {
            lemma_bind_all_concat(start, below_left, below_right);
        }
    }
}

/// The frequencies of the leaves of a text add up to its length.
pub proof fn lemma_leaves_total(text: Seq<char>)
    requires
        text.len() <= u64::MAX,
    ensures
        total_freq(leaves(text)) == text.len(),
    decreases text.len(),
{
    if text.len() == 0 {
        assert(leaves(text) =~= Seq::empty());
    } else {
        let init = text.drop_last();
        let c = text.last();
        lemma_leaves_total(init);
        lemma_symbols(init);
        let before = leaves(init);
        assert forall|x: char| count_of(text, x) <= text.len() by {
            lemma_count_le_len(text, x);
        }
        if symbols(init).contains(c) {
            let k = choose|k: int| 0 <= k < symbols(init).len() && symbols(init)[k] == c;
            lemma_total_freq_update(before, k, leaf(c, count_of(text, c)));
            lemma_count_le_len(init, c);
            assert(leaves(text) =~= before.update(k, leaf(c, count_of(text, c))));
        } else {
            lemma_total_freq_push(before, leaf(c, 1));
            assert(leaves(text) =~= before.push(leaf(c, 1)));
        }
    }
}

/// Counts the symbols of `text` and makes the leaf of each: the queue from
/// which the tree is built.
pub fn leaf_queue(text: &[char]) -> (queue: Vec<Node>)
    ensures
        queue@ == leaves(text@),
        total_freq(queue@) == text@.len(),
{
    let mut queue: Vec<Node> = Vec::new();
    let mut i: usize = 0;
    assert(queue@ =~= leaves(text@.take(0)));
    while i < text.len()
        invariant
            i <= text.len(),
            queue@ == leaves(text@.take(i as int)),
            total_freq(queue@) == i,
        decreases text.len() - i,
    {
        let c = text[i];
        let ghost seen = text@.take(i as int);
        let ghost next = text@.take(i + 1);
        proof {
            assert(next.drop_last() == seen);
            assert(next.last() == c);
            lemma_symbols(seen);
        }
        let mut j: usize = 0;
        let mut found: Option<usize> = None;
        while j < queue.len()
            invariant_except_break
                j <= queue.len(),
                found is None,
                forall|k: int| 0 <= k < j ==> symbols(seen)[k] != c,
            invariant
                queue@ == leaves(seen),
            ensures
                match found {
                    Some(k) => k < queue.len() && symbols(seen)[k as int] == c,
                    None => !symbols(seen).contains(c),
                },
            decreases queue.len() - j,
        {
            let hit = match queue[j].ch {
                Some(x) => x == c,
                None => false,
            };
            if hit {
                found = Some(j);
                break;
            }
            j += 1;
        }
        match found {
            Some(k) => {
                let n = queue[k].freq;
                proof {
                    lemma_count_le_len(seen, c);
                    lemma_total_freq_update(queue@, k as int, leaf(c, (n + 1) as nat));
                    assert(symbols(next) == symbols(seen));
                }
                queue.set(k, Node::new(Some(c), n + 1));
                assert(queue@ =~= leaves(next));
            },
            None => {
                proof {
                    lemma_total_freq_push(queue@, leaf(c, 1));
                    assert(symbols(next) == symbols(seen).push(c));
                }
                queue.push(Node::new(Some(c), 1));
                assert(queue@ =~= leaves(next));
            },
        }
        i += 1;
    }
    assert(text@.take(text@.len() as int) == text@);
    queue
}

impl HuffmanTable {
    /// Derives the code table of `text`: counts its symbols, builds the
    /// Huffman tree from their leaves and reads the codes off the tree. The
    /// empty text has the empty table.
    pub fn from_text(text: &str) -> (table: HuffmanTable)
        ensures
            table.entries() == code_entries(text@),
            keys_distinct(table.entries()),
    {
        proof {
            assert forall|c: char| key_count(code_entries(text@), c) <= 1 by {
                lemma_code_entries_keys(text@, c);
            }
            lemma_counted_once(code_entries(text@));
        }
        let chars = chars_of(text);
        let mut table = HuffmanTable::new();
        if chars.len() == 0 {
            return table;
        }
        let mut heap = leaf_queue(chars.as_slice());
        proof {
            lemma_symbols(text@);
            assert(text@.contains(text@[0]));
            assert(chars@.len() == chars.len());
        }
        let root = Node::from_queue(&mut heap);
        let code = String::new();
        traverse(&mut table, &root, code);
        proof {
            assert forall|c: char| key_count(code_entries(text@), c) <= 1 by {
                lemma_code_entries_keys(text@, c);
            }
            lemma_bind_all_fresh(code_entries(text@));
        }
        table
    }
}

impl From<&String> for HuffmanTable {
    /// The code table of a text, as `HuffmanTable::from_text` derives it.
    fn from(value: &String) -> (table: HuffmanTable)
        ensures
            table.entries() == code_entries(value@),
            keys_distinct(table.entries()),
    {
        HuffmanTable::from_text(value.as_str())
    }
}

impl vstd::std_specs::convert::FromSpecImpl<&String> for HuffmanTable {
    open spec fn obeys_from_spec() -> bool {
        false
    }

    open spec fn from_spec(value: &String) -> HuffmanTable {
        arbitrary()
    }
}

} // verus!
