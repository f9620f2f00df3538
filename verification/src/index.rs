//! The index: for each live key, the offset of its latest `SetKey` record.
//!
//! The keys are kept in a vector in which no key occurs twice, next to a
//! vector of their offsets; to contracts the index is the finite map that
//! these pairs make up.
use vstd::prelude::*;
use vstd::utf8::*;

verus! {

/// No key occurs twice among the pairs.
pub open spec fn distinct_keys(es: Seq<(Seq<char>, u64)>) -> bool {
    forall|i: int, j: int| 0 <= i < j < es.len() ==> es[i].0 != es[j].0
}

/// The key `k` occurs among the pairs.
pub open spec fn has_key(es: Seq<(Seq<char>, u64)>, k: Seq<char>) -> bool {
    exists|i: int| 0 <= i < es.len() && (#[trigger] es[i]).0 == k
}

/// A place at which `k` occurs among the pairs.
pub open spec fn slot_of(es: Seq<(Seq<char>, u64)>, k: Seq<char>) -> int {
    choose|i: int| 0 <= i < es.len() && (#[trigger] es[i]).0 == k
}

/// The map that the pairs make up.
pub open spec fn entries_map(es: Seq<(Seq<char>, u64)>) -> Map<Seq<char>, u64> {
    Map::new(|k: Seq<char>| has_key(es, k), |k: Seq<char>| es[slot_of(es, k)].1)
}

/// Each pair is found in the map under its key.
pub proof fn lemma_entries_lookup(es: Seq<(Seq<char>, u64)>, i: int)
    requires
        distinct_keys(es),
        0 <= i < es.len(),
    ensures
        entries_map(es).contains_key(es[i].0),
        entries_map(es)[es[i].0] == es[i].1,
{
    assert(has_key(es, es[i].0));
}

/// A pair under a new key, added at the end, is an insertion into the map.
pub proof fn lemma_entries_push(es: Seq<(Seq<char>, u64)>, k: Seq<char>, v: u64)
    requires
        distinct_keys(es),
        !has_key(es, k),
    ensures
        distinct_keys(es.push((k, v))),
        entries_map(es.push((k, v))) == entries_map(es).insert(k, v),
{
    let after = es.push((k, v));
    assert forall|i: int, j: int| 0 <= i < j < after.len() implies after[i].0 != after[j].0 by {
        if j == es.len() {
            assert(es[i].0 != k);
        }
    }
    assert forall|x: Seq<char>| has_key(after, x) <==> (x == k || has_key(es, x)) by {
        if has_key(after, x) {
            let i = slot_of(after, x);
            if i < es.len() {
                assert(es[i].0 == x);
            }
        }
        if has_key(es, x) {
            let i = slot_of(es, x);
            assert(after[i].0 == x);
        }
        if x == k {
            assert(after[es.len() as int].0 == x);
        }
    }
    assert forall|x: Seq<char>| has_key(after, x) implies entries_map(after)[x] == entries_map(
        es,
    ).insert(k, v)[x] by {
        let i = slot_of(after, x);
        lemma_entries_lookup(after, i);
        if i < es.len() {
            assert(es[i] == after[i]);
            lemma_entries_lookup(es, i);
        }
    }
    assert(entries_map(after) =~= entries_map(es).insert(k, v));
}

/// A new offset for the key that stands at `i` is an insertion into the map.
pub proof fn lemma_entries_update(es: Seq<(Seq<char>, u64)>, i: int, v: u64)
    requires
        distinct_keys(es),
        0 <= i < es.len(),
    ensures
        distinct_keys(es.update(i, (es[i].0, v))),
        entries_map(es.update(i, (es[i].0, v))) == entries_map(es).insert(es[i].0, v),
{
    let k = es[i].0;
    let after = es.update(i, (k, v));
    assert forall|a: int, b: int| 0 <= a < b < after.len() implies after[a].0 != after[b].0 by {
        assert(after[a].0 == es[a].0);
        assert(after[b].0 == es[b].0);
    }
    assert forall|x: Seq<char>| has_key(after, x) <==> has_key(es, x) by {
        if has_key(after, x) {
            let j = slot_of(after, x);
            assert(es[j].0 == x);
        }
        if has_key(es, x) {
            let j = slot_of(es, x);
            assert(after[j].0 == x);
        }
    }
    assert(has_key(es, k));
    assert forall|x: Seq<char>| has_key(after, x) implies entries_map(after)[x] == entries_map(
        es,
    ).insert(k, v)[x] by {
        let j = slot_of(after, x);
        lemma_entries_lookup(after, j);
        if j != i {
            assert(es[j] == after[j]);
            lemma_entries_lookup(es, j);
        }
    }
    assert(entries_map(after) =~= entries_map(es).insert(k, v));
}

/// Moving the last pair into place `i` and dropping the end removes the key
/// that stood at `i` from the map.
pub proof fn lemma_entries_swap_remove(es: Seq<(Seq<char>, u64)>, i: int)
    requires
        distinct_keys(es),
        0 <= i < es.len(),
    ensures
        distinct_keys(es.update(i, es.last()).drop_last()),
        entries_map(es.update(i, es.last()).drop_last()) == entries_map(es).remove(es[i].0),
{
    let k = es[i].0;
    let last = es.len() - 1;
    let after = es.update(i, es.last()).drop_last();
    assert forall|a: int| 0 <= a < after.len() implies #[trigger] after[a] == es[if a == i {
        last
    } else {
        a
    }] by {}
    assert forall|a: int, b: int| 0 <= a < b < after.len() implies after[a].0 != after[b].0 by {
        let a0 = if a == i {
            last
        } else {
            a
        };
        let b0 = if b == i {
            last
        } else {
            b
        };
        assert(after[a] == es[a0]);
        assert(after[b] == es[b0]);
        if a0 < b0 {
            assert(es[a0].0 != es[b0].0);
        } else {
            assert(es[b0].0 != es[a0].0);
        }
    }
    assert forall|x: Seq<char>| has_key(after, x) <==> (x != k && has_key(es, x)) by {
        if has_key(after, x) {
            let j = slot_of(after, x);
            let j0 = if j == i {
                last
            } else {
                j
            };
            assert(after[j] == es[j0]);
            assert(es[j0].0 == x);
            if j0 < i {
                assert(es[j0].0 != es[i].0);
            } else {
                assert(es[i].0 != es[j0].0);
            }
        }
        if x != k && has_key(es, x) {
            let j = slot_of(es, x);
            if j == last {
                assert(after[i] == es[last]);
                assert(after[i].0 == x);
            } else {
                assert(after[j] == es[j]);
                assert(after[j].0 == x);
            }
        }
    }
    assert forall|x: Seq<char>| has_key(after, x) implies entries_map(after)[x] == entries_map(
        es,
    ).remove(k)[x] by {
        let j = slot_of(after, x);
        let j0 = if j == i {
            last
        } else {
            j
        };
        lemma_entries_lookup(after, j);
        assert(after[j] == es[j0]);
        lemma_entries_lookup(es, j0);
    }
    assert(entries_map(after) =~= entries_map(es).remove(k));
}

/// The map has as many keys as there are pairs.
pub proof fn lemma_entries_map_len(es: Seq<(Seq<char>, u64)>)
    requires
        distinct_keys(es),
    ensures
        entries_map(es).dom().finite(),
        entries_map(es).dom().len() == es.len(),
    decreases es.len(),
{
    if es.len() == 0 {
        assert(entries_map(es).dom() =~= Set::<Seq<char>>::empty());
    } else {
        let init = es.drop_last();
        let last = es.last();
        assert(distinct_keys(init)) by {
            assert forall|i: int, j: int| 0 <= i < j < init.len() implies init[i].0
                != init[j].0 by {
                assert(es[i].0 != es[j].0);
            }
        }
        lemma_entries_map_len(init);
        assert(!has_key(init, last.0)) by {
            if has_key(init, last.0) {
                let i = slot_of(init, last.0);
                assert(es[i].0 != es[es.len() - 1].0);
            }
        }
        lemma_entries_push(init, last.0, last.1);
        assert(init.push((last.0, last.1)) =~= es);
        assert(entries_map(es).dom() =~= entries_map(init).dom().insert(last.0));
    }
}

/// Whether two strings are the same text.
pub fn same_text(a: &str, b: &str) -> (same: bool)
    ensures
        same == (a@ == b@),
{
    let x = a.as_bytes();
    let y = b.as_bytes();
    proof {
        encode_utf8_decode_utf8(a@);
        encode_utf8_decode_utf8(b@);
    }
    if x.len() != y.len() {
        return false;
    }
    let mut i: usize = 0;
    while i < x.len()
        invariant
            i <= x.len(),
            x.len() == y.len(),
            x@ == encode_utf8(a@),
            y@ == encode_utf8(b@),
            forall|j: int| 0 <= j < i ==> x@[j] == y@[j],
        decreases x.len() - i,
    {
        if x[i] != y[i] {
            return false;
        }
        i += 1;
    }
    assert(x@ =~= y@);
    true
}

/// The index of the store: a finite map from keys to offsets in the log.
#[derive(Debug)]
pub struct KeyIndex {
    keys: Vec<String>,
    offsets: Vec<u64>,
}

impl View for KeyIndex {
    type V = Map<Seq<char>, u64>;

    open spec fn view(&self) -> Map<Seq<char>, u64> {
        entries_map(self.entries())
    }
}

impl KeyIndex {
    /// The pairs of the index, in the order in which they are kept.
    pub closed spec fn entries(&self) -> Seq<(Seq<char>, u64)> {
        Seq::new(self.keys@.len(), |i: int| (self.keys@[i]@, self.offsets@[i]))
    }

    /// The two vectors pair up.
    pub closed spec fn paired(&self) -> bool {
        self.keys@.len() == self.offsets@.len()
    }

    /// The index is well formed: its vectors pair up and no key occurs twice.
    pub open spec fn wf(&self) -> bool {
        self.paired() && distinct_keys(self.entries())
    }

    /// An index without keys.
    pub fn new() -> (index: KeyIndex)
        ensures
            index.wf(),
            index.entries() == Seq::<(Seq<char>, u64)>::empty(),
            index@ == Map::<Seq<char>, u64>::empty(),
    {
        let index = KeyIndex { keys: Vec::new(), offsets: Vec::new() };
        assert(index.entries() =~= Seq::<(Seq<char>, u64)>::empty());
        assert(index@ =~= Map::<Seq<char>, u64>::empty());
        index
    }

    /// How many keys the index holds.
    pub fn len(&self) -> (n: usize)
        requires
            self.wf(),
        ensures
            n == self.entries().len(),
            n == self@.dom().len(),
            self@.dom().finite(),
    {
        proof {
            lemma_entries_map_len(self.entries());
        }
        self.keys.len()
    }

    /// The key kept at place `i`.
    pub fn key_at(&self, i: usize) -> (key: &String)
        requires
            self.wf(),
            i < self.entries().len(),
        ensures
            key@ == self.entries()[i as int].0,
    {
        &self.keys[i]
    }

    /// The offset kept at place `i`.
    pub fn offset_at(&self, i: usize) -> (pos: u64)
        requires
            self.wf(),
            i < self.entries().len(),
        ensures
            pos == self.entries()[i as int].1,
    {
        self.offsets[i]
    }

    /// Gives the key at place `i` the offset `pos`.
    pub fn set_offset(&mut self, i: usize, pos: u64)
        requires
            old(self).wf(),
            i < old(self).entries().len(),
        ensures
            final(self).wf(),
            final(self).entries() == old(self).entries().update(
                i as int,
                (old(self).entries()[i as int].0, pos),
            ),
            final(self)@ == old(self)@.insert(old(self).entries()[i as int].0, pos),
    {
        proof {
            lemma_entries_update(self.entries(), i as int, pos);
        }
        self.offsets.set(i, pos);
        assert(self.entries() =~= old(self).entries().update(
            i as int,
            (old(self).entries()[i as int].0, pos),
        ));
    }

    /// The place at which `key` is kept, if it is in the index.
    fn find(&self, key: &str) -> (place: Option<usize>)
        requires
            self.wf(),
        ensures
            match place {
                Some(i) => i < self.entries().len() && self.entries()[i as int].0 == key@,
                None => !has_key(self.entries(), key@),
            },
    {
        let mut i: usize = 0;
        while i < self.keys.len()
            invariant
                self.wf(),
                i <= self.keys@.len(),
                forall|j: int| 0 <= j < i ==> (#[trigger] self.entries()[j]).0 != key@,
            decreases self.keys@.len() - i,
        {
            if same_text(self.keys[i].as_str(), key) {
                return Some(i);
            }
            i += 1;
        }
        None
    }

    /// The offset kept for `key`, if the key is in the index.
    pub fn get(&self, key: &str) -> (pos: Option<u64>)
        requires
            self.wf(),
        ensures
            pos == if self@.contains_key(key@) {
                Some(self@[key@])
            } else {
                None
            },
    {
        match self.find(key) {
            Some(i) => {
                proof {
                    lemma_entries_lookup(self.entries(), i as int);
                }
                Some(self.offsets[i])
            },
            None => None,
        }
    }

    /// Whether `key` is in the index.
    pub fn contains_key(&self, key: &str) -> (found: bool)
        requires
            self.wf(),
        ensures
            found == self@.contains_key(key@),
    {
        self.find(key).is_some()
    }

    /// Binds `key` to `pos`, and gives the offset the key had before.
    pub fn insert(&mut self, key: String, pos: u64) -> (before: Option<u64>)
        requires
            old(self).wf(),
        ensures
            final(self).wf(),
            final(self)@ == old(self)@.insert(key@, pos),
            before == if old(self)@.contains_key(key@) {
                Some(old(self)@[key@])
            } else {
                None
            },
    {
        match self.find(key.as_str()) {
            Some(i) => {
                proof {
                    lemma_entries_lookup(self.entries(), i as int);
                }
                let before = self.offsets[i];
                self.set_offset(i, pos);
                Some(before)
            },
            None => {
                proof {
                    lemma_entries_push(self.entries(), key@, pos);
                }
                self.keys.push(key);
                self.offsets.push(pos);
                assert(self.entries() =~= old(self).entries().push((key@, pos)));
                None
            },
        }
    }

    /// Unbinds `key`, and gives the offset it had.
    pub fn remove(&mut self, key: &str) -> (before: Option<u64>)
        requires
            old(self).wf(),
        ensures
            final(self).wf(),
            final(self)@ == old(self)@.remove(key@),
            before == if old(self)@.contains_key(key@) {
                Some(old(self)@[key@])
            } else {
                None
            },
    {
        match self.find(key) {
            Some(i) => {
                proof {
                    lemma_entries_lookup(self.entries(), i as int);
                    lemma_entries_swap_remove(self.entries(), i as int);
                }
                let _ = self.keys.swap_remove(i);
                let before = self.offsets.swap_remove(i);
                assert(self.entries() =~= old(self).entries().update(
                    i as int,
                    old(self).entries().last(),
                ).drop_last());
                Some(before)
            },
            None => {
                assert(old(self)@.remove(key@) =~= old(self)@);
                None
            },
        }
    }
}

} // verus!
