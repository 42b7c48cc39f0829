//! A map that keeps its entries in the order of their keys.
use vstd::prelude::*;

use crate::primitives::{AccountId, NoteId, Nullifier, TransactionId, Word};

verus! {

/// A key type with a strict total order.
pub trait Key: Sized {
    spec fn precedes(self, other: Self) -> bool;

    proof fn lemma_irreflexive(x: Self)
        ensures
            !x.precedes(x),
    ;

    proof fn lemma_transitive(x: Self, y: Self, z: Self)
        requires
            x.precedes(y),
            y.precedes(z),
        ensures
            x.precedes(z),
    ;

    proof fn lemma_total(x: Self, y: Self)
        ensures
            x.precedes(y) || x == y || y.precedes(x),
    ;

    fn is_before(&self, other: &Self) -> (before: bool)
        ensures
            before == self.precedes(*other),
    ;
}

/// Whether the entries stand in strictly increasing key order.
pub open spec fn sorted<K: Key, V>(entries: Seq<(K, V)>) -> bool {
    forall|i: int, j: int|
        0 <= i < j < entries.len() ==> (#[trigger] entries[i]).0.precedes(
            (#[trigger] entries[j]).0,
        )
}

/// Whether some entry has the given key.
pub open spec fn has_key<K, V>(entries: Seq<(K, V)>, key: K) -> bool {
    exists|i: int| 0 <= i < entries.len() && (#[trigger] entries[i]).0 == key
}

/// The map that a sequence of entries with distinct keys stands for.
pub open spec fn as_map<K, V>(entries: Seq<(K, V)>) -> Map<K, V> {
    Map::new(
        |key: K| has_key(entries, key),
        |key: K|
            entries[choose|i: int| 0 <= i < entries.len() && (#[trigger] entries[i]).0 == key].1,
    )
}

/// In sorted entries, the position of a key is unique.
pub proof fn lemma_position_unique<K: Key, V>(entries: Seq<(K, V)>, i: int, j: int)
    requires
        sorted(entries),
        0 <= i < entries.len(),
        0 <= j < entries.len(),
        entries[i].0 == entries[j].0,
    ensures
        i == j,
{
    K::lemma_irreflexive(entries[i].0);
    if i < j {
        assert(entries[i].0.precedes(entries[j].0));
    } else if j < i {
        assert(entries[j].0.precedes(entries[i].0));
    }
}

/// An entry of sorted entries is what the map holds at its key.
pub proof fn lemma_entry_in_map<K: Key, V>(entries: Seq<(K, V)>, i: int)
    requires
        sorted(entries),
        0 <= i < entries.len(),
    ensures
        as_map(entries).contains_key(entries[i].0),
        as_map(entries)[entries[i].0] == entries[i].1,
{
    let key = entries[i].0;
    assert(has_key(entries, key));
    let j = choose|j: int| 0 <= j < entries.len() && (#[trigger] entries[j]).0 == key;
    lemma_position_unique(entries, i, j);
}

/// Sorted entries are determined by the map they stand for.
pub proof fn lemma_map_determines_entries<K: Key, V>(s: Seq<(K, V)>, t: Seq<(K, V)>)
    requires
        sorted(s),
        sorted(t),
        as_map(s) == as_map(t),
    ensures
        s == t,
    decreases s.len(),
{
    if s.len() == 0 {
        if t.len() > 0 {
            lemma_entry_in_map(t, 0);
            assert(has_key(s, t[0].0));
        }
        assert(s =~= t);
    } else {
        lemma_entry_in_map(s, s.len() - 1);
        let last = s.last();
        assert(as_map(t).contains_key(last.0));
        assert(has_key(t, last.0));
        let i = choose|i: int| 0 <= i < t.len() && (#[trigger] t[i]).0 == last.0;
        lemma_entry_in_map(t, i);
        let j = t.len() - 1;
        if i != j {
            lemma_entry_in_map(t, j);
            assert(has_key(s, t[j].0));
            let k = choose|k: int| 0 <= k < s.len() && (#[trigger] s[k]).0 == t[j].0;
            assert(last.0.precedes(t[j].0));
            K::lemma_irreflexive(last.0);
            if k < s.len() - 1 {
                assert(s[k].0.precedes(s[s.len() - 1].0));
                K::lemma_transitive(last.0, t[j].0, last.0);
            }
        }
        assert(t.last().0 == last.0);
        let s0 = s.drop_last();
        let t0 = t.drop_last();
        assert forall|key: K| has_key(s0, key) == has_key(t0, key) by {
            lemma_drop_last_key(s, key);
            lemma_drop_last_key(t, key);
            assert(as_map(s).contains_key(key) == has_key(s, key));
            assert(as_map(t).contains_key(key) == has_key(t, key));
        }
        assert forall|key: K| as_map(s0).contains_key(key) implies as_map(s0)[key] == as_map(
            t0,
        )[key] by {
            let a = choose|a: int| 0 <= a < s0.len() && (#[trigger] s0[a]).0 == key;
            assert(has_key(t0, key));
            let b = choose|b: int| 0 <= b < t0.len() && (#[trigger] t0[b]).0 == key;
            lemma_entry_in_map(s, a);
            lemma_entry_in_map(t, b);
            assert(s[a] == s0[a]);
            assert(t[b] == t0[b]);
        }
        assert(as_map(s0) =~= as_map(t0));
        lemma_map_determines_entries(s0, t0);
        assert(s =~= s0.push(last));
        assert(t =~= t0.push(last));
    }
}

/// The entries of a map in the order of their keys.
pub open spec fn ordered_entries<K: Key, V>(map: Map<K, V>) -> Seq<(K, V)> {
    choose|entries: Seq<(K, V)>| #[trigger] sorted(entries) && as_map(entries) == map
}

/// Sorted entries are the ordered entries of the map they stand for.
pub proof fn lemma_ordered_entries<K: Key, V>(entries: Seq<(K, V)>)
    requires
        sorted(entries),
    ensures
        ordered_entries(as_map(entries)) == entries,
{
    lemma_map_determines_entries(ordered_entries(as_map(entries)), entries);
}

/// Every finite map has ordered entries: they stand in the order of their keys, and they are the
/// entries of the map.
pub proof fn lemma_ordered_entries_exist<K: Key, V>(map: Map<K, V>)
    requires
        map.dom().finite(),
    ensures
        sorted(ordered_entries(map)),
        as_map(ordered_entries(map)) == map,
    decreases map.dom().len(),
{
    if map.dom().len() == 0 {
        let entries = Seq::<(K, V)>::empty();
        assert(map.dom() =~= Set::empty());
        assert(as_map(entries) =~= map);
        assert(sorted(entries));
    } else {
        let key = map.dom().choose();
        let rest = map.remove(key);
        assert(rest.dom() =~= map.dom().remove(key));
        lemma_ordered_entries_exist(rest);
        let entries = lemma_entry_joins(ordered_entries(rest), key, map[key]);
        assert(rest.insert(key, map[key]) =~= map);
    }
}

/// Sorted entries take in one with another key, and stay sorted.
proof fn lemma_entry_joins<K: Key, V>(before: Seq<(K, V)>, key: K, value: V) -> (after: Seq<(K, V)>)
    requires
        sorted(before),
        !has_key(before, key),
    ensures
        sorted(after),
        as_map(after) == as_map(before).insert(key, value),
    decreases before.len(),
{
    if before.len() == 0 || before.last().0.precedes(key) {
        let after = before.push((key, value));
        assert forall|i: int, j: int| 0 <= i < j < after.len() implies (
        #[trigger] after[i]).0.precedes((#[trigger] after[j]).0) by {
            if j == before.len() && i < before.len() - 1 {
                K::lemma_transitive(before[i].0, before.last().0, key);
            }
        }
        lemma_pushed_entry(before, key, value);
        after
    } else {
        let last = before.last();
        let shorter = before.drop_last();
        lemma_drop_last_key(before, key);
        let joined = lemma_entry_joins(shorter, key, value);
        let after = joined.push(last);
        K::lemma_total(last.0, key);
        assert(before[before.len() - 1].0 == last.0);
        assert forall|i: int, j: int| 0 <= i < j < after.len() implies (
        #[trigger] after[i]).0.precedes((#[trigger] after[j]).0) by {
            if j == joined.len() {
                lemma_entry_in_map(joined, i);
                if joined[i].0 != key {
                    assert(has_key(shorter, joined[i].0));
                    let k = choose|k: int|
                        0 <= k < shorter.len() && (#[trigger] shorter[k]).0 == joined[i].0;
                    assert(before[k].0.precedes(before[before.len() - 1].0));
                }
            }
        }
        lemma_pushed_entry(joined, last.0, last.1);
        lemma_pushed_entry(shorter, last.0, last.1);
        assert(before =~= shorter.push(last));
        assert(as_map(after) =~= as_map(before).insert(key, value));
        after
    }
}

/// An entry behind sorted ones is one more in the map.
proof fn lemma_pushed_entry<K: Key, V>(before: Seq<(K, V)>, key: K, value: V)
    requires
        sorted(before.push((key, value))),
    ensures
        as_map(before.push((key, value))) == as_map(before).insert(key, value),
{
    let after = before.push((key, value));
    assert forall|i: int, j: int| 0 <= i < j < before.len() implies (
    #[trigger] before[i]).0.precedes((#[trigger] before[j]).0) by {
        assert(after[i].0.precedes(after[j].0));
    }
    assert forall|k: K| has_key(after, k) == (has_key(before, k) || k == key) by {
        if has_key(before, k) {
            let i = choose|i: int| 0 <= i < before.len() && (#[trigger] before[i]).0 == k;
            assert(after[i].0 == k);
        }
        assert(after[before.len() as int].0 == key);
    }
    assert forall|k: K| has_key(after, k) implies #[trigger] as_map(after)[k] == as_map(
        before,
    ).insert(key, value)[k] by {
        let i = choose|i: int| 0 <= i < after.len() && (#[trigger] after[i]).0 == k;
        lemma_entry_in_map(after, i);
        if i < before.len() {
            lemma_entry_in_map(before, i);
        }
        if k == key {
            lemma_position_unique(after, i, before.len() as int);
        }
    }
    assert(as_map(after) =~= as_map(before).insert(key, value));
}

proof fn lemma_drop_last_key<K: Key, V>(s: Seq<(K, V)>, key: K)
    requires
        sorted(s),
        s.len() > 0,
    ensures
        has_key(s.drop_last(), key) == (has_key(s, key) && key != s.last().0),
{
    let s0 = s.drop_last();
    if has_key(s0, key) {
        let i = choose|i: int| 0 <= i < s0.len() && (#[trigger] s0[i]).0 == key;
        assert(s[i].0 == key);
        assert(s[i].0.precedes(s[s.len() - 1].0));
        K::lemma_irreflexive(key);
    }
    if has_key(s, key) && key != s.last().0 {
        let i = choose|i: int| 0 <= i < s.len() && (#[trigger] s[i]).0 == key;
        assert(s0[i] == s[i]);
    }
}

/// Entries kept sorted by key, with distinct keys.
#[derive(Debug)]
pub struct SortedMap<K: Key, V> {
    pub entries: Vec<(K, V)>,
}

impl<K: Key, V> View for SortedMap<K, V> {
    type V = Map<K, V>;

    open spec fn view(&self) -> Map<K, V> {
        as_map(self.entries@)
    }
}

impl<K: Key, V> SortedMap<K, V> {
    pub open spec fn wf(&self) -> bool {
        sorted(self.entries@)
    }

    pub fn new() -> (map: Self)
        ensures
            map.wf(),
            map.entries@.len() == 0,
            map@ == Map::<K, V>::empty(),
    {
        let map = SortedMap { entries: Vec::new() };
        assert(map@ =~= Map::<K, V>::empty());
        map
    }

    /// The position at which `key` stands, or would stand.
    fn position(&self, key: &K) -> (pos: usize)
        requires
            self.wf(),
        ensures
            pos <= self.entries.len(),
            forall|i: int| 0 <= i < pos ==> (#[trigger] self.entries@[i]).0.precedes(*key),
            forall|i: int|
                pos <= i < self.entries.len() ==> !(#[trigger] self.entries@[i]).0.precedes(*key),
    {
        let mut low: usize = 0;
        let mut high: usize = self.entries.len();
        while low < high
            invariant
                self.wf(),
                low <= high <= self.entries.len(),
                forall|i: int| 0 <= i < low ==> (#[trigger] self.entries@[i]).0.precedes(*key),
                forall|i: int|
                    high <= i < self.entries.len() ==> !(#[trigger] self.entries@[i]).0.precedes(
                        *key,
                    ),
            decreases high - low,
        {
            let mid: usize = low + (high - low) / 2;
            if self.entries[mid].0.is_before(key) {
                proof {
                    assert forall|i: int| 0 <= i <= mid implies (
                    #[trigger] self.entries@[i]).0.precedes(*key) by {
                        if i < mid {
                            K::lemma_transitive(self.entries@[i].0, self.entries@[mid as int].0, *key);
                        }
                    }
                }
                low = mid + 1;
            } else {
                proof {
                    assert forall|i: int| mid <= i < self.entries.len() implies !(
                    #[trigger] self.entries@[i]).0.precedes(*key) by {
                        if mid < i && self.entries@[i].0.precedes(*key) {
                            K::lemma_transitive(self.entries@[mid as int].0, self.entries@[i].0, *key);
                        }
                    }
                }
                high = mid;
            }
        }
        low
    }

    /// The position of `key`, when the map holds it.
    pub fn find(&self, key: &K) -> (found: Option<usize>)
        requires
            self.wf(),
        ensures
            found is Some <==> self@.contains_key(*key),
            found matches Some(i) ==> i < self.entries.len() && self.entries@[i as int].0 == *key
                && self@[*key] == self.entries@[i as int].1,
    {
        let pos: usize = self.position(key);
        if pos < self.entries.len() && !key.is_before(&self.entries[pos].0) {
            proof {
                K::lemma_total(*key, self.entries@[pos as int].0);
                lemma_entry_in_map(self.entries@, pos as int);
            }
            Some(pos)
        } else {
            proof {
                if has_key(self.entries@, *key) {
                    let i = choose|i: int|
                        0 <= i < self.entries@.len() && (#[trigger] self.entries@[i]).0 == *key;
                    K::lemma_irreflexive(*key);
                    assert(pos <= i);
                    if pos < i {
                        assert(self.entries@[pos as int].0.precedes(self.entries@[i].0));
                    }
                }
            }
            None
        }
    }

    pub fn contains_key(&self, key: &K) -> (found: bool)
        requires
            self.wf(),
        ensures
            found == self@.contains_key(*key),
    {
        self.find(key).is_some()
    }

    pub fn get(&self, key: &K) -> (value: Option<&V>)
        requires
            self.wf(),
        ensures
            value == (if self@.contains_key(*key) { Some(&self@[*key]) } else { None }),
    {
        match self.find(key) {
            Some(i) => Some(&self.entries[i].1),
            None => None,
        }
    }

    /// Holds `value` at `key`, replacing what was there.
    pub fn insert(&mut self, key: K, value: V)
        requires
            old(self).wf(),
        ensures
            final(self).wf(),
            final(self)@ == old(self)@.insert(key, value),
    {
        let pos: usize = self.position(&key);
        let ghost before = self.entries@;
        if pos < self.entries.len() && !key.is_before(&self.entries[pos].0) {
            proof {
                K::lemma_total(key, self.entries@[pos as int].0);
            }
            self.entries.set(pos, (key, value));
            proof {
                let after = self.entries@;
                assert forall|i: int, j: int| 0 <= i < j < after.len() implies (
                #[trigger] after[i]).0.precedes((#[trigger] after[j]).0) by {
                    assert(before[i].0.precedes(before[j].0));
                }
                assert forall|k: K| has_key(after, k) == (has_key(before, k) || k == key) by {
                    if has_key(after, k) {
                        let i = choose|i: int| 0 <= i < after.len() && (#[trigger] after[i]).0 == k;
                        assert(before[i].0 == k);
                    }
                    if has_key(before, k) {
                        let i = choose|i: int|
                            0 <= i < before.len() && (#[trigger] before[i]).0 == k;
                        assert(after[i].0 == k);
                    }
                    assert(after[pos as int].0 == key);
                }
                assert forall|k: K| has_key(after, k) implies #[trigger] as_map(after)[k] == as_map(
                    before,
                ).insert(key, value)[k] by {
                    let i = choose|i: int| 0 <= i < after.len() && (#[trigger] after[i]).0 == k;
                    lemma_entry_in_map(after, i);
                    lemma_entry_in_map(before, i);
                    if i == pos {
                    } else if k == key {
                        lemma_position_unique(after, i, pos as int);
                    }
                }
                assert(as_map(after) =~= as_map(before).insert(key, value));
            }
        } else {
            proof {
                if pos < before.len() {
                    K::lemma_total(key, before[pos as int].0);
                }
            }
            self.entries.insert(pos, (key, value));
            proof {
                let after = self.entries@;
                assert(after == before.insert(pos as int, (key, value)));
                assert forall|i: int, j: int| 0 <= i < j < after.len() implies (
                #[trigger] after[i]).0.precedes((#[trigger] after[j]).0) by {
                    if j < pos {
                        assert(before[i].0.precedes(before[j].0));
                    } else if j == pos {
                        assert(after[i] == before[i]);
                    } else if i < pos {
                        assert(before[i].0.precedes(before[j - 1].0));
                    } else if i == pos {
                        assert(after[j] == before[j - 1]);
                        if j - 1 > pos {
                            assert(before[pos as int].0.precedes(before[j - 1].0));
                            K::lemma_transitive(key, before[pos as int].0, before[j - 1].0);
                        }
                    } else {
                        assert(before[i - 1].0.precedes(before[j - 1].0));
                    }
                }
                assert forall|k: K| has_key(after, k) == (has_key(before, k) || k == key) by {
                    if has_key(after, k) {
                        let i = choose|i: int| 0 <= i < after.len() && (#[trigger] after[i]).0 == k;
                        if i < pos {
                            assert(before[i].0 == k);
                        } else if i > pos {
                            assert(before[i - 1].0 == k);
                        }
                    }
                    if has_key(before, k) {
                        let i = choose|i: int|
                            0 <= i < before.len() && (#[trigger] before[i]).0 == k;
                        if i < pos {
                            assert(after[i].0 == k);
                        } else {
                            assert(after[i + 1].0 == k);
                        }
                    }
                    assert(after[pos as int].0 == key);
                }
                assert forall|k: K| has_key(after, k) implies #[trigger] as_map(after)[k] == as_map(
                    before,
                ).insert(key, value)[k] by {
                    let i = choose|i: int| 0 <= i < after.len() && (#[trigger] after[i]).0 == k;
                    lemma_entry_in_map(after, i);
                    if i < pos {
                        lemma_entry_in_map(before, i);
                    } else if i > pos {
                        lemma_entry_in_map(before, i - 1);
                    }
                    if k == key {
                        lemma_position_unique(after, i, pos as int);
                    }
                }
                assert(as_map(after) =~= as_map(before).insert(key, value));
            }
        }
    }

    /// Drops the entry at `key`, if there is one.
    pub fn remove(&mut self, key: &K)
        requires
            old(self).wf(),
        ensures
            final(self).wf(),
            final(self)@ == old(self)@.remove(*key),
    {
        let ghost before = self.entries@;
        match self.find(key) {
            Some(pos) => {
                self.entries.remove(pos);
                proof {
                    let after = self.entries@;
                    assert(after == before.remove(pos as int));
                    assert forall|i: int, j: int| 0 <= i < j < after.len() implies (
                    #[trigger] after[i]).0.precedes((#[trigger] after[j]).0) by {
                        let bi = if i < pos { i } else { i + 1 };
                        let bj = if j < pos { j } else { j + 1 };
                        assert(after[i] == before[bi] && after[j] == before[bj]);
                        assert(before[bi].0.precedes(before[bj].0));
                    }
                    assert forall|k: K| has_key(after, k) == (has_key(before, k) && k != *key) by {
                        if has_key(after, k) {
                            let i = choose|i: int|
                                0 <= i < after.len() && (#[trigger] after[i]).0 == k;
                            let bi = if i < pos { i } else { i + 1 };
                            assert(before[bi].0 == k);
                            if k == *key {
                                lemma_position_unique(before, bi, pos as int);
                            }
                        }
                        if has_key(before, k) && k != *key {
                            let i = choose|i: int|
                                0 <= i < before.len() && (#[trigger] before[i]).0 == k;
                            if i < pos {
                                assert(after[i].0 == k);
                            } else {
                                assert(after[i - 1].0 == k);
                            }
                        }
                    }
                    assert forall|k: K| has_key(after, k) implies #[trigger] as_map(after)[k]
                        == as_map(before)[k] by {
                        let i = choose|i: int| 0 <= i < after.len() && (#[trigger] after[i]).0 == k;
                        let bi = if i < pos { i } else { i + 1 };
                        lemma_entry_in_map(after, i);
                        assert(after[i] == before[bi]);
                        lemma_entry_in_map(before, bi);
                    }
                    assert(as_map(after) =~= as_map(before).remove(*key));
                }
            },
            None => {
                assert(as_map(before) =~= as_map(before).remove(*key));
            },
        }
    }
}

// KEYS
// ================================================================================================

proof fn lemma_word_order(x: Word, y: Word, z: Word)
    ensures
        !x.precedes(x),
        x.precedes(y) && y.precedes(z) ==> x.precedes(z),
        x.precedes(y) || x == y || y.precedes(x),
{
}

impl Key for Word {
    open spec fn precedes(self, other: Word) -> bool {
        Word::precedes(self, other)
    }

    proof fn lemma_irreflexive(x: Word) {
        lemma_word_order(x, x, x);
    }

    proof fn lemma_transitive(x: Word, y: Word, z: Word) {
        lemma_word_order(x, y, z);
    }

    proof fn lemma_total(x: Word, y: Word) {
        lemma_word_order(x, y, x);
    }

    fn is_before(&self, other: &Word) -> bool {
        Word::is_before(self, other)
    }
}

impl Key for NoteId {
    open spec fn precedes(self, other: NoteId) -> bool {
        Word::precedes(self.word, other.word)
    }

    proof fn lemma_irreflexive(x: NoteId) {
        lemma_word_order(x.word, x.word, x.word);
    }

    proof fn lemma_transitive(x: NoteId, y: NoteId, z: NoteId) {
        lemma_word_order(x.word, y.word, z.word);
    }

    proof fn lemma_total(x: NoteId, y: NoteId) {
        lemma_word_order(x.word, y.word, x.word);
    }

    fn is_before(&self, other: &NoteId) -> bool {
        Word::is_before(&self.word, &other.word)
    }
}

impl Key for Nullifier {
    open spec fn precedes(self, other: Nullifier) -> bool {
        Word::precedes(self.word, other.word)
    }

    proof fn lemma_irreflexive(x: Nullifier) {
        lemma_word_order(x.word, x.word, x.word);
    }

    proof fn lemma_transitive(x: Nullifier, y: Nullifier, z: Nullifier) {
        lemma_word_order(x.word, y.word, z.word);
    }

    proof fn lemma_total(x: Nullifier, y: Nullifier) {
        lemma_word_order(x.word, y.word, x.word);
    }

    fn is_before(&self, other: &Nullifier) -> bool {
        Word::is_before(&self.word, &other.word)
    }
}

impl Key for TransactionId {
    open spec fn precedes(self, other: TransactionId) -> bool {
        Word::precedes(self.word, other.word)
    }

    proof fn lemma_irreflexive(x: TransactionId) {
        lemma_word_order(x.word, x.word, x.word);
    }

    proof fn lemma_transitive(x: TransactionId, y: TransactionId, z: TransactionId) {
        lemma_word_order(x.word, y.word, z.word);
    }

    proof fn lemma_total(x: TransactionId, y: TransactionId) {
        lemma_word_order(x.word, y.word, x.word);
    }

    fn is_before(&self, other: &TransactionId) -> bool {
        Word::is_before(&self.word, &other.word)
    }
}

impl Key for u32 {
    open spec fn precedes(self, other: u32) -> bool {
        self < other
    }

    proof fn lemma_irreflexive(x: u32) {
    }

    proof fn lemma_transitive(x: u32, y: u32, z: u32) {
    }

    proof fn lemma_total(x: u32, y: u32) {
    }

    fn is_before(&self, other: &u32) -> bool {
        *self < *other
    }
}

impl Key for usize {
    open spec fn precedes(self, other: usize) -> bool {
        self < other
    }

    proof fn lemma_irreflexive(x: usize) {
    }

    proof fn lemma_transitive(x: usize, y: usize, z: usize) {
    }

    proof fn lemma_total(x: usize, y: usize) {
    }

    fn is_before(&self, other: &usize) -> bool {
        *self < *other
    }
}

impl Key for AccountId {
    open spec fn precedes(self, other: AccountId) -> bool {
        self@ < other@
    }

    proof fn lemma_irreflexive(x: AccountId) {
    }

    proof fn lemma_transitive(x: AccountId, y: AccountId, z: AccountId) {
    }

    proof fn lemma_total(x: AccountId, y: AccountId) {
        broadcast use AccountId::lemma_of_view;

        assert(x@ == y@ ==> AccountId::of(x@) == AccountId::of(y@));
    }

    fn is_before(&self, other: &AccountId) -> bool {
        self.to_u128() < other.to_u128()
    }
}

/// An account in a block; accounts come before blocks in the order.
#[derive(Clone, Copy, Debug, PartialEq, Eq, Structural)]
pub struct AccountBlock {
    pub account_id: AccountId,
    pub block_num: u32,
}

impl Key for AccountBlock {
    open spec fn precedes(self, other: AccountBlock) -> bool {
        self.account_id@ < other.account_id@ || (self.account_id@ == other.account_id@
            && self.block_num < other.block_num)
    }

    proof fn lemma_irreflexive(x: AccountBlock) {
    }

    proof fn lemma_transitive(x: AccountBlock, y: AccountBlock, z: AccountBlock) {
    }

    proof fn lemma_total(x: AccountBlock, y: AccountBlock) {
        AccountId::lemma_total(x.account_id, y.account_id);
    }

    fn is_before(&self, other: &AccountBlock) -> bool {
        let left: u128 = self.account_id.to_u128();
        let right: u128 = other.account_id.to_u128();
        left < right || (left == right && self.block_num < other.block_num)
    }
}

/// Identifiers of notes, nullifiers and transactions stand in the order of their words, accounts in
/// that of their integers, and numbers in their own.
pub proof fn law_keys_stand_in_order(
    left: Word,
    right: Word,
    account: AccountId,
    other: AccountId,
    block: u32,
    later: u32,
    index: usize,
    further: usize,
)
    ensures
        Key::precedes(left, right) <==> Word::precedes(left, right),
        (NoteId { word: left }).precedes(NoteId { word: right }) <==> Word::precedes(left, right),
        (Nullifier { word: left }).precedes(Nullifier { word: right }) <==> Word::precedes(
            left,
            right,
        ),
        (TransactionId { word: left }).precedes(TransactionId { word: right }) <==> Word::precedes(
            left,
            right,
        ),
        account.precedes(other) <==> account@ < other@,
        block.precedes(later) <==> block < later,
        index.precedes(further) <==> index < further,
{
}

/// What happened to accounts stands in the order of the accounts, and for one account in the order
/// of the blocks.
pub proof fn law_accounts_come_before_blocks(left: AccountBlock, right: AccountBlock)
    ensures
        left.account_id@ < right.account_id@ ==> left.precedes(right),
        left.account_id == right.account_id ==> (left.precedes(right) <==> left.block_num
            < right.block_num),
{
}

} // verus!
