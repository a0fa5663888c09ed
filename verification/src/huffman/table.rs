//! The code table, from symbol to code, and its inverse, from code to symbol.
//!
//! Both are kept as lists of entries in which the first entry with a given
//! key is the one that counts. The order of the entries of a code table is
//! the order in which the table is written to a container.
use vstd::prelude::*;
use crate::text::chars_of;

verus! {

/// The value of the first entry of `s` whose key is `k`, if there is one.
pub open spec fn lookup<K, V>(s: Seq<(K, V)>, k: K) -> Option<V>
    decreases s.len(),
{
    if s.len() == 0 {
        None
    } else if s[0].0 == k {
        Some(s[0].1)
    } else {
        lookup(s.drop_first(), k)
    }
}

/// The position of the first entry of `s` whose key is `k`, if there is one.
pub open spec fn position<K, V>(s: Seq<(K, V)>, k: K) -> Option<int>
    decreases s.len(),
{
    if s.len() == 0 {
        None
    } else if s[0].0 == k {
        Some(0)
    } else {
        match position(s.drop_first(), k) {
            Some(i) => Some(i + 1),
            None => None,
        }
    }
}

/// The map that a list of entries stands for.
pub open spec fn entries_map<K, V>(s: Seq<(K, V)>) -> Map<K, V> {
    Map::new(|k: K| lookup(s, k) is Some, |k: K| lookup(s, k).unwrap())
}

/// The entries after `k` is bound to `v`: the first entry for `k` is
/// replaced where there is one, otherwise a new entry is added at the end.
pub open spec fn bind<K, V>(s: Seq<(K, V)>, k: K, v: V) -> Seq<(K, V)> {
    match position(s, k) {
        Some(i) => s.update(i, (k, v)),
        None => s.push((k, v)),
    }
}

/// The entries `s` after each entry of `items` is bound in turn.
pub open spec fn bind_all<K, V>(s: Seq<(K, V)>, items: Seq<(K, V)>) -> Seq<(K, V)>
    decreases items.len(),
{
    if items.len() == 0 {
        s
    } else {
        bind(bind_all(s, items.drop_last()), items.last().0, items.last().1)
    }
}

/// What a list of stored entries holds: each symbol with the characters of
/// its code.
pub open spec fn entries_of(list: Seq<(char, String)>) -> Seq<(char, Seq<char>)> {
    Seq::new(list.len(), |i: int| (list[i].0, list[i].1@))
}

/// Whether no two entries of `s` have the same key.
pub open spec fn keys_distinct<K, V>(s: Seq<(K, V)>) -> bool {
    forall|i: int, j: int|
        0 <= i < s.len() && 0 <= j < s.len() && i != j ==> (#[trigger] s[i]).0 != (
        #[trigger] s[j]).0
}

/// The entries with key and value exchanged.
pub open spec fn swapped<K, V>(s: Seq<(K, V)>) -> Seq<(V, K)> {
    Seq::new(s.len(), |i: int| (s[i].1, s[i].0))
}

/// What `position` and `lookup` find: the first entry with the key, or that
/// no entry has it.
pub proof fn lemma_position<K, V>(s: Seq<(K, V)>, k: K)
    ensures
        match position(s, k) {
            Some(i) => 0 <= i < s.len() && s[i].0 == k && lookup(s, k) == Some(s[i].1) && forall|
                j: int,
            | 0 <= j < i ==> s[j].0 != k,
            None => lookup(s, k) is None && forall|j: int| 0 <= j < s.len() ==> s[j].0 != k,
        },
    decreases s.len(),
{
    if s.len() > 0 && s[0].0 != k {
        let rest = s.drop_first();
        lemma_position(rest, k);
        match position(rest, k) {
            Some(i) => {
                assert forall|j: int| 0 <= j < i + 1 implies s[j].0 != k by {
                    if j > 0 {
                        assert(s[j] == rest[j - 1]);
                    }
                }
            },
            None => {
                assert forall|j: int| 0 <= j < s.len() implies s[j].0 != k by {
                    if j > 0 {
                        assert(s[j] == rest[j - 1]);
                    }
                }
            },
        }
    }
}

/// An entry with key `k` that no entry with that key comes before is the
/// one that `position` finds; where no entry has the key it finds none.
pub proof fn lemma_position_is<K, V>(s: Seq<(K, V)>, k: K, found: Option<int>)
    requires
        match found {
            Some(i) => 0 <= i < s.len() && s[i].0 == k && forall|j: int|
                0 <= j < i ==> s[j].0 != k,
            None => forall|j: int| 0 <= j < s.len() ==> s[j].0 != k,
        },
    ensures
        position(s, k) == found,
{
    lemma_position(s, k);
}

/// Binding a key changes the map at that key and nowhere else.
pub proof fn lemma_bind_map<K, V>(s: Seq<(K, V)>, k: K, v: V)
    ensures
        entries_map(bind(s, k, v)) == entries_map(s).insert(k, v),
{
    assert forall|x: K| lookup(bind(s, k, v), x) == (if x == k {
        Some(v)
    } else {
        lookup(s, x)
    }) by {
        lemma_lookup_bind(s, k, v, x);
    }
    assert(entries_map(bind(s, k, v)) =~= entries_map(s).insert(k, v));
}

proof fn lemma_lookup_bind<K, V>(s: Seq<(K, V)>, k: K, v: V, x: K)
    ensures
        lookup(bind(s, k, v), x) == (if x == k {
            Some(v)
        } else {
            lookup(s, x)
        }),
    decreases s.len(),
{
    let b = bind(s, k, v);
    if s.len() == 0 {
        assert(b == seq![(k, v)]);
        assert(b.drop_first().len() == 0);
        assert(lookup(b.drop_first(), x) is None);
    } else if s[0].0 == k {
        assert(position(s, k) == Some(0int));
        assert(b == s.update(0, (k, v)));
        assert(b.drop_first() == s.drop_first());
    } else {
        let rest = s.drop_first();
        lemma_lookup_bind(rest, k, v, x);
        lemma_position(rest, k);
        match position(rest, k) {
            Some(i) => {
                assert(position(s, k) == Some(i + 1));
                assert(b == s.update(i + 1, (k, v)));
                assert(b.drop_first() == rest.update(i, (k, v)));
            },
            None => {
                assert(position(s, k) is None);
                assert(b == s.push((k, v)));
                assert(b.drop_first() == rest.push((k, v)));
            },
        }
        assert(b[0] == s[0]);
        assert(b.drop_first() == bind(rest, k, v));
    }
}

/// Binding two lists of entries in turn is binding their concatenation.
pub proof fn lemma_bind_all_concat<K, V>(s: Seq<(K, V)>, a: Seq<(K, V)>, b: Seq<(K, V)>)
    ensures
        bind_all(s, a + b) == bind_all(bind_all(s, a), b),
    decreases b.len(),
{
    if b.len() == 0 {
        assert(a + b == a);
    } else {
        lemma_bind_all_concat(s, a, b.drop_last());
        assert((a + b).drop_last() == a + b.drop_last());
    }
}

/// Binding a key leaves the keys of the entries distinct.
pub proof fn lemma_bind_keys_distinct<K, V>(s: Seq<(K, V)>, k: K, v: V)
    requires
        keys_distinct(s),
    ensures
        keys_distinct(bind(s, k, v)),
{
    lemma_position(s, k);
    let b = bind(s, k, v);
    assert forall|i: int, j: int| 0 <= i < b.len() && 0 <= j < b.len() && i != j implies (
    #[trigger] b[i]).0 != (#[trigger] b[j]).0 by {
        match position(s, k) {
            Some(p) => {
                assert(b[i].0 == s[i].0 && b[j].0 == s[j].0);
            },
            None => {
                if i < s.len() {
                    assert(b[i] == s[i]);
                }
                if j < s.len() {
                    assert(b[j] == s[j]);
                }
            },
        }
    }
}

/// Binding entries in turn leaves the keys of the entries distinct.
pub proof fn lemma_bind_all_keys_distinct<K, V>(s: Seq<(K, V)>, items: Seq<(K, V)>)
    requires
        keys_distinct(s),
    ensures
        keys_distinct(bind_all(s, items)),
    decreases items.len(),
{
    if items.len() > 0 {
        lemma_bind_all_keys_distinct(s, items.drop_last());
        lemma_bind_keys_distinct(bind_all(s, items.drop_last()), items.last().0, items.last().1);
    }
}

/// Inverting: where no two entries have the same key and no two the same
/// value, the entries with key and value exchanged lead from a value to a
/// key exactly if the entries lead from that key to that value.
pub proof fn lemma_inverse_lookup<K, V>(s: Seq<(K, V)>, k: K, v: V)
    requires
        keys_distinct(s),
        keys_distinct(swapped(s)),
    ensures
        lookup(swapped(s), v) == Some(k) <==> lookup(s, k) == Some(v),
{
    let t = swapped(s);
    lemma_position(s, k);
    lemma_position(t, v);
    if let Some(i) = position(s, k) {
        if s[i].1 == v {
            assert(t[i].0 == v);
            let j = position(t, v).unwrap();
            assert(t[j].0 == t[i].0);
        }
    }
    if let Some(j) = position(t, v) {
        if t[j].1 == k {
            assert(s[j].0 == k);
            let i = position(s, k).unwrap();
            assert(s[i].0 == s[j].0);
        }
    }
}

/// A code table: for each symbol the code that stands for it, a string of
/// `'0'` and `'1'`. No symbol has two entries.
#[derive(Debug)]
pub struct HuffmanTable {
    list: Vec<(char, String)>,
}

/// An inverted code table: for each code the symbol that it stands for.
#[derive(Debug)]
pub struct InvertedTable {
    list: Vec<(Vec<char>, char)>,
}

impl View for HuffmanTable {
    type V = Map<char, Seq<char>>;

    /// The table as a map from symbol to code.
    open spec fn view(&self) -> Map<char, Seq<char>> {
        entries_map(self.entries())
    }
}

impl View for InvertedTable {
    type V = Map<Seq<char>, char>;

    /// The table as a map from code to symbol.
    open spec fn view(&self) -> Map<Seq<char>, char> {
        entries_map(self.entries())
    }
}

impl HuffmanTable {
    /// The entries of the table, in the order in which they are stored.
    pub closed spec fn entries(&self) -> Seq<(char, Seq<char>)> {
        entries_of(self.list@)
    }

    #[verifier::type_invariant]
    spec fn one_entry_per_symbol(self) -> bool {
        keys_distinct(entries_of(self.list@))
    }

    /// The table in which the entries of `list` are bound in turn, so that
    /// of two entries for one symbol the later one counts.
    pub fn from_entries(list: &Vec<(char, String)>) -> (table: HuffmanTable)
        ensures
            table.entries() == bind_all(Seq::empty(), entries_of(list@)),
            keys_distinct(table.entries()),
    {
        let mut table = HuffmanTable::new();
        let mut i: usize = 0;
        while i < list.len()
            invariant
                i <= list@.len(),
                table.entries() == bind_all(Seq::empty(), entries_of(list@.take(i as int))),
            decreases list@.len() - i,
        {
            let ghost next = entries_of(list@.take(i + 1));
            assert(next.drop_last() == entries_of(list@.take(i as int)));
            table.insert(list[i].0, list[i].1.clone());
            i += 1;
        }
        assert(list@.take(list@.len() as int) == list@);
        proof {
            use_type_invariant(&table);
        }
        table
    }

    /// The stored entries, in order.
    pub fn as_entries(&self) -> (list: &Vec<(char, String)>)
        ensures
            entries_of(list@) == self.entries(),
            keys_distinct(self.entries()),
    {
        proof {
            use_type_invariant(self);
        }
        &self.list
    }

    /// The empty table.
    pub fn new() -> (table: HuffmanTable)
        ensures
            table.entries() == Seq::<(char, Seq<char>)>::empty(),
            keys_distinct(table.entries()),
    {
        let table = HuffmanTable { list: Vec::new() };
        assert(table.entries() =~= Seq::empty());
        table
    }

    /// Where the entry for `ch` stands, if the table has one.
    fn find(&self, ch: char) -> (found: Option<usize>)
        ensures
            match found {
                Some(i) => position(self.entries(), ch) == Some(i as int) && i < self.list@.len(),
                None => position(self.entries(), ch) is None,
            },
    {
        let mut i: usize = 0;
        while i < self.list.len()
            invariant
                i <= self.list@.len(),
                forall|j: int| 0 <= j < i ==> self.entries()[j].0 != ch,
            decreases self.list@.len() - i,
        {
            if self.list[i].0 == ch {
                proof {
                    lemma_position_is(self.entries(), ch, Some(i as int));
                }
                return Some(i);
            }
            i += 1;
        }
        proof {
            lemma_position_is(self.entries(), ch, None);
        }
        None
    }

    /// Binds `ch` to `code`, in place of the code that `ch` had, if any.
    pub fn insert(&mut self, ch: char, code: String)
        ensures
            final(self).entries() == bind(old(self).entries(), ch, code@),
            final(self)@ == old(self)@.insert(ch, code@),
            keys_distinct(old(self).entries()),
            keys_distinct(final(self).entries()),
    {
        let ghost before = self.entries();
        proof {
            use_type_invariant(&*self);
            lemma_bind_keys_distinct(before, ch, code@);
            lemma_position(before, ch);
            match position(before, ch) {
                Some(i) => {
                    assert(entries_of(self.list@.update(i, (ch, code))) =~= bind(
                        before,
                        ch,
                        code@,
                    ));
                },
                None => {
                    assert(entries_of(self.list@.push((ch, code))) =~= bind(before, ch, code@));
                },
            }
        }
        let found = self.find(ch);
        let mut list: Vec<(char, String)> = Vec::new();
        assert(entries_of(list@) =~= Seq::empty());
        std::mem::swap(&mut self.list, &mut list);
        match found {
            Some(i) => {
                list.set(i, (ch, code));
            },
            None => {
                list.push((ch, code));
            },
        }
        self.list = list;
        proof {
            lemma_bind_map(before, ch, code@);
        }
    }

    /// The code of `ch`, if the table has one.
    pub fn get(&self, ch: &char) -> (code: Option<&String>)
        ensures
            match code {
                Some(c) => self@.contains_key(*ch) && self@[*ch] == c@,
                None => !self@.contains_key(*ch),
            },
            keys_distinct(self.entries()),
    {
        proof {
            use_type_invariant(self);
            lemma_position(self.entries(), *ch);
        }
        match self.find(*ch) {
            Some(i) => Some(&self.list[i].1),
            None => None,
        }
    }

    /// The number of entries, which is the number of symbols that have a
    /// code.
    pub fn len(&self) -> (n: usize)
        ensures
            n == self.entries().len(),
            keys_distinct(self.entries()),
    {
        proof {
            use_type_invariant(self);
        }
        self.list.len()
    }

    /// The table from code to symbol, with the entries in the same order.
    /// Where no two symbols have the same code, it leads from a code to a
    /// symbol exactly if this table leads from that symbol to that code
    /// (`lemma_inverse_lookup`).
    pub fn invert(&self) -> (inverted: InvertedTable)
        ensures
            inverted.entries() == swapped(self.entries()),
            keys_distinct(self.entries()),
            keys_distinct(inverted.entries()) ==> forall|c: char, s: Seq<char>|
                #![trigger lookup(inverted.entries(), s), lookup(self.entries(), c)]
                lookup(inverted.entries(), s) == Some(c) <==> lookup(self.entries(), c) == Some(s),
    {
        proof {
            use_type_invariant(self);
            if keys_distinct(swapped(self.entries())) {
                assert forall|c: char, s: Seq<char>|
                    #![trigger lookup(swapped(self.entries()), s), lookup(self.entries(), c)]
                    lookup(swapped(self.entries()), s) == Some(c) <==> lookup(self.entries(), c)
                        == Some(s) by {
                    lemma_inverse_lookup(self.entries(), c, s);
                }
            }
        }
        let mut list: Vec<(Vec<char>, char)> = Vec::new();
        let mut i: usize = 0;
        while i < self.list.len()
            invariant
                i <= self.list@.len(),
                list@.len() == i,
                forall|j: int|
                    0 <= j < i ==> list@[j].0@ == self.list@[j].1@ && list@[j].1
                        == self.list@[j].0,
            decreases self.list@.len() - i,
        {
            let code = chars_of(self.list[i].1.as_str());
            list.push((code, self.list[i].0));
            i += 1;
        }
        let inverted = InvertedTable { list };
        assert(inverted.entries() =~= swapped(self.entries()));
        inverted
    }
}

impl InvertedTable {
    /// The entries of the table, in the order in which they are stored.
    pub closed spec fn entries(&self) -> Seq<(Seq<char>, char)> {
        Seq::new(self.list@.len(), |i: int| (self.list@[i].0@, self.list@[i].1))
    }

    /// The number of entries.
    pub fn len(&self) -> (n: usize)
        ensures
            n == self.entries().len(),
    {
        self.list.len()
    }

    /// The symbol that `code` stands for, if it is a code of the table.
    pub fn get(&self, code: &[char]) -> (symbol: Option<char>)
        ensures
            match symbol {
                Some(c) => self@.contains_key(code@) && self@[code@] == c,
                None => !self@.contains_key(code@),
            },
    {
        let mut i: usize = 0;
        while i < self.list.len()
            invariant
                i <= self.list@.len(),
                forall|j: int| 0 <= j < i ==> self.entries()[j].0 != code@,
            decreases self.list@.len() - i,
        {
            if same_chars(self.list[i].0.as_slice(), code) {
                proof {
                    assert(self.entries()[i as int].0 == code@);
                    lemma_position(self.entries(), code@);
                }
                return Some(self.list[i].1);
            }
            i += 1;
        }
        proof {
            lemma_position(self.entries(), code@);
        }
        None
    }
}

/// Whether two slices hold the same characters.
pub fn same_chars(a: &[char], b: &[char]) -> (same: bool)
    ensures
        same == (a@ == b@),
{
    if a.len() != b.len() {
        return false;
    }
    let mut i: usize = 0;
    while i < a.len()
        invariant
            a@.len() == b@.len(),
            i <= a@.len(),
            forall|j: int| 0 <= j < i ==> a@[j] == b@[j],
        decreases a@.len() - i,
    {
        if a[i] != b[i] {
            return false;
        }
        i += 1;
    }
    assert(a@ =~= b@);
    true
}

} // verus!
