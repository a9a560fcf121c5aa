//! A small table from 64-bit keys to values.
//!
//! The tables of this protocol are short: calls in flight, open streams,
//! sealed tensor sets. A table keeps its entries in a vector, in the
//! order in which their keys were inserted, and never holds a key twice.

use vstd::prelude::*;

verus! {

/// A table from `u64` keys to values of type `V`.
pub struct Table<V> {
    entries: Vec<(u64, V)>,
}

/// Whether one of the entries has the key `k`.
spec fn has_key<V>(entries: Seq<(u64, V)>, k: u64) -> bool {
    exists|i: int| 0 <= i < entries.len() && (#[trigger] entries[i]).0 == k
}

/// The position of the entry with key `k`.
spec fn index_of<V>(entries: Seq<(u64, V)>, k: u64) -> int {
    choose|i: int| 0 <= i < entries.len() && (#[trigger] entries[i]).0 == k
}

/// No key occurs twice.
spec fn distinct_keys<V>(entries: Seq<(u64, V)>) -> bool {
    forall|i: int, j: int|
        0 <= i < j < entries.len() ==> (#[trigger] entries[i]).0 != (#[trigger] entries[j]).0
}

/// The mapping that a list of entries denotes.
spec fn as_map<V>(entries: Seq<(u64, V)>) -> Map<u64, V> {
    Map::new(|k: u64| has_key(entries, k), |k: u64| entries[index_of(entries, k)].1)
}

proof fn lemma_as_map_at<V>(entries: Seq<(u64, V)>, i: int)
    requires
        distinct_keys(entries),
        0 <= i < entries.len(),
    ensures
        as_map(entries).contains_key(entries[i].0),
        as_map(entries)[entries[i].0] == entries[i].1,
{
    let k = entries[i].0;
    assert(has_key(entries, k));
    assert(index_of(entries, k) == i);
}

proof fn lemma_as_map_push<V>(entries: Seq<(u64, V)>, k: u64, v: V)
    requires
        distinct_keys(entries),
        !has_key(entries, k),
    ensures
        distinct_keys(entries.push((k, v))),
        as_map(entries.push((k, v))) == as_map(entries).insert(k, v),
{
    let more = entries.push((k, v));
    assert forall|i: int, j: int| 0 <= i < j < more.len() implies (#[trigger] more[i]).0 != (
    #[trigger] more[j]).0 by {
        if j == entries.len() {
            assert(entries[i].0 != k);
        } else {
            assert(entries[i].0 != entries[j].0);
        }
    }
    assert forall|x: u64| #[trigger] has_key(more, x) <==> (x == k || has_key(entries, x)) by {
        if has_key(more, x) {
            let i = index_of(more, x);
            if i < entries.len() {
                assert(entries[i].0 == x);
            }
        }
        if x == k {
            assert(more[entries.len() as int].0 == k);
        }
        if has_key(entries, x) {
            let i = index_of(entries, x);
            assert(more[i].0 == x);
        }
    }
    assert forall|x: u64| has_key(more, x) implies #[trigger] as_map(more)[x] == as_map(
        entries,
    ).insert(k, v)[x] by {
        let i = index_of(more, x);
        lemma_as_map_at(more, i);
        if i < entries.len() {
            lemma_as_map_at(entries, i);
        }
    }
    assert(as_map(more) =~= as_map(entries).insert(k, v));
}

proof fn lemma_as_map_remove<V>(entries: Seq<(u64, V)>, i: int)
    requires
        distinct_keys(entries),
        0 <= i < entries.len(),
    ensures
        distinct_keys(entries.remove(i)),
        as_map(entries.remove(i)) == as_map(entries).remove(entries[i].0),
{
    let k = entries[i].0;
    let less = entries.remove(i);
    assert forall|a: int, b: int| 0 <= a < b < less.len() implies (#[trigger] less[a]).0 != (
    #[trigger] less[b]).0 by {
        let a0 = if a < i { a } else { a + 1 };
        let b0 = if b < i { b } else { b + 1 };
        assert(less[a] == entries[a0]);
        assert(less[b] == entries[b0]);
    }
    assert forall|x: u64| #[trigger] has_key(less, x) <==> (x != k && has_key(entries, x)) by {
        if has_key(less, x) {
            let a = index_of(less, x);
            let a0 = if a < i { a } else { a + 1 };
            assert(entries[a0].0 == x);
            if x == k {
                assert(entries[a0].0 == entries[i].0);
            }
        }
        if x != k && has_key(entries, x) {
            let a0 = index_of(entries, x);
            let a = if a0 < i { a0 } else { a0 - 1 };
            assert(less[a].0 == x);
        }
    }
    assert forall|x: u64| has_key(less, x) implies #[trigger] as_map(less)[x] == as_map(
        entries,
    ).remove(k)[x] by {
        let a = index_of(less, x);
        let a0 = if a < i { a } else { a + 1 };
        lemma_as_map_at(less, a);
        assert(less[a] == entries[a0]);
        lemma_as_map_at(entries, a0);
    }
    assert(as_map(less) =~= as_map(entries).remove(k));
}

impl<V> View for Table<V> {
    type V = Map<u64, V>;

    closed spec fn view(&self) -> Map<u64, V> {
        as_map(self.entries@)
    }
}

impl<V> Table<V> {
    /// The table holds no key twice. Every table that `new` made and the
    /// methods below changed is so.
    pub closed spec fn wf(&self) -> bool {
        distinct_keys(self.entries@)
    }

    /// The number of entries.
    pub closed spec fn spec_len(&self) -> nat {
        self.entries@.len()
    }

    /// The number of entries.
    pub fn len(&self) -> (n: usize)
        ensures
            n == self.spec_len(),
    {
        self.entries.len()
    }

    /// The empty table.
    pub fn new() -> (t: Self)
        ensures
            t.wf(),
            t.spec_len() == 0,
            t@ == Map::<u64, V>::empty(),
    {
        let t = Table { entries: Vec::new() };
        assert(t@ =~= Map::<u64, V>::empty());
        t
    }

    /// Whether the table holds nothing.
    pub fn is_empty(&self) -> (r: bool)
        ensures
            r <==> self@ == Map::<u64, V>::empty(),
            r <==> self.spec_len() == 0,
    {
        let r = self.entries.len() == 0;
        proof {
            if r {
                assert(self@ =~= Map::<u64, V>::empty());
            } else {
                assert(has_key(self.entries@, self.entries@[0].0));
                assert(self@.contains_key(self.entries@[0].0));
            }
        }
        r
    }

    fn position(&self, k: u64) -> (r: Option<usize>)
        ensures
            match r {
                Some(i) => i < self.entries@.len() && self.entries@[i as int].0 == k,
                None => !has_key(self.entries@, k),
            },
    {
        let mut i: usize = 0;
        while i < self.entries.len()
            invariant
                i <= self.entries@.len(),
                forall|j: int| 0 <= j < i ==> (#[trigger] self.entries@[j]).0 != k,
            decreases self.entries.len() - i,
        {
            if self.entries[i].0 == k {
                return Some(i);
            }
            i += 1;
        }
        None
    }

    /// Whether the table holds a value under `k`.
    pub fn contains_key(&self, k: u64) -> (r: bool)
        ensures
            r == self@.contains_key(k),
    {
        self.position(k).is_some()
    }

    /// The value under `k`.
    pub fn get(&self, k: u64) -> (r: Option<&V>)
        requires
            self.wf(),
        ensures
            match r {
                Some(v) => self@.contains_key(k) && self@[k] == *v,
                None => !self@.contains_key(k),
            },
    {
        match self.position(k) {
            Some(i) => {
                proof {
                    lemma_as_map_at(self.entries@, i as int);
                }
                Some(&self.entries[i].1)
            },
            None => None,
        }
    }

    /// Puts `v` under `k`, if nothing is there yet. Where the key is
    /// taken the table stays as it is and the value comes back.
    pub fn insert(&mut self, k: u64, v: V) -> (r: Result<(), V>)
        requires
            old(self).wf(),
        ensures
            final(self).wf(),
            match r {
                Ok(()) => !old(self)@.contains_key(k) && final(self)@ == old(self)@.insert(k, v)
                    && final(self).spec_len() == old(self).spec_len() + 1,
                Err(back) => old(self)@.contains_key(k) && back == v && final(self)@ == old(self)@ && final(self).spec_len() == old(self).spec_len(),
            },
    {
        match self.position(k) {
            Some(_) => Err(v),
            None => {
                proof {
                    lemma_as_map_push(self.entries@, k, v);
                }
                self.entries.push((k, v));
                Ok(())
            },
        }
    }

    /// Takes the value under `k` out of the table.
    pub fn remove(&mut self, k: u64) -> (r: Option<V>)
        requires
            old(self).wf(),
        ensures
            final(self).wf(),
            match r {
                Some(v) => old(self)@.contains_key(k) && old(self)@[k] == v && final(self)@
                    == old(self)@.remove(k) && final(self).spec_len() + 1 == old(self).spec_len(),
                None => !old(self)@.contains_key(k) && final(self)@ == old(self)@ && final(self).spec_len() == old(self).spec_len(),
            },
    {
        match self.position(k) {
            Some(i) => {
                proof {
                    lemma_as_map_at(self.entries@, i as int);
                    lemma_as_map_remove(self.entries@, i as int);
                }
                let e = self.entries.remove(i);
                Some(e.1)
            },
            None => None,
        }
    }

    /// Takes the entry that was inserted last out of the table, if the
    /// table holds any.
    pub fn pop(&mut self) -> (r: Option<(u64, V)>)
        requires
            old(self).wf(),
        ensures
            final(self).wf(),
            match r {
                Some((k, v)) => old(self)@.contains_key(k) && old(self)@[k] == v && final(self)@
                    == old(self)@.remove(k) && final(self).spec_len() + 1 == old(self).spec_len(),
                None => old(self)@ == Map::<u64, V>::empty() && final(self)@ == old(self)@
                    && old(self).spec_len() == 0,
            },
    {
        let n: usize = self.entries.len();
        if n == 0 {
            assert(self@ =~= Map::<u64, V>::empty());
            return None;
        }
        proof {
            lemma_as_map_at(self.entries@, n - 1);
            lemma_as_map_remove(self.entries@, n - 1);
            assert(self.entries@.remove(n - 1) =~= self.entries@.drop_last());
        }
        self.entries.pop()
    }
}

/// What a registry holds: the entries, and the key that the next entry
/// will get.
pub struct RegistryView<V> {
    pub entries: Map<u64, V>,
    pub next: u64,
}

/// A table that hands out its own keys: each new entry gets a key that
/// no entry had before, so a key that has been given up never comes to
/// stand for anything else.
pub struct Registry<V> {
    table: Table<V>,
    next: u64,
}

impl<V> View for Registry<V> {
    type V = RegistryView<V>;

    closed spec fn view(&self) -> RegistryView<V> {
        RegistryView { entries: self.table@, next: self.next }
    }
}

impl<V> Registry<V> {
    /// Every key in use is below the next key to be handed out.
    pub closed spec fn wf(&self) -> bool {
        &&& self.table.wf()
        &&& forall|k: u64| self.table@.contains_key(k) ==> k < self.next
    }

    /// In a registry that is in order, every key in use is below the
    /// next key.
    pub proof fn lemma_keys_below_next(&self, k: u64)
        requires
            self.wf(),
            self@.entries.contains_key(k),
        ensures
            k < self@.next,
    {
    }

    /// The empty registry. Its first key will be 0.
    pub fn new() -> (r: Self)
        ensures
            r.wf(),
            r@ == (RegistryView::<V> { entries: Map::empty(), next: 0 }),
    {
        Registry { table: Table::new(), next: 0 }
    }

    /// Stores `v` under a new key and returns the key. Only where all
    /// keys have been handed out the value comes back.
    pub fn register(&mut self, v: V) -> (r: Result<u64, V>)
        requires
            old(self).wf(),
        ensures
            final(self).wf(),
            match r {
                Ok(k) => old(self)@.next < u64::MAX && k == old(self)@.next && final(self)@ == (
                RegistryView { entries: old(self)@.entries.insert(k, v), next: (k + 1) as u64 }),
                Err(back) => old(self)@.next == u64::MAX && back == v && final(self)@ == old(
                    self,
                )@,
            },
    {
        if self.next == u64::MAX {
            return Err(v);
        }
        let k = self.next;
        let _kept = self.table.insert(k, v);
        self.next = k + 1;
        Ok(k)
    }

    /// The value under `k`.
    pub fn get(&self, k: u64) -> (r: Option<&V>)
        requires
            self.wf(),
        ensures
            match r {
                Some(v) => self@.entries.contains_key(k) && self@.entries[k] == *v,
                None => !self@.entries.contains_key(k),
            },
    {
        self.table.get(k)
    }

    /// Puts `v` under the key `k`, which was handed out before and holds
    /// nothing now.
    pub fn put_back(&mut self, k: u64, v: V)
        requires
            old(self).wf(),
            k < old(self)@.next,
            !old(self)@.entries.contains_key(k),
        ensures
            final(self).wf(),
            final(self)@ == (RegistryView {
                entries: old(self)@.entries.insert(k, v),
                next: old(self)@.next,
            }),
    {
        let _kept = self.table.insert(k, v);
    }

    /// Takes the value under `k` out. The key is not handed out again.
    pub fn remove(&mut self, k: u64) -> (r: Option<V>)
        requires
            old(self).wf(),
        ensures
            final(self).wf(),
            final(self)@.next == old(self)@.next,
            match r {
                Some(v) => old(self)@.entries.contains_key(k) && old(self)@.entries[k] == v
                    && final(self)@.entries == old(self)@.entries.remove(k),
                None => !old(self)@.entries.contains_key(k) && final(self)@ == old(self)@,
            },
    {
        self.table.remove(k)
    }
}

} // verus!
