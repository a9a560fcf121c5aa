//! Handles: small references to tensor payloads, and named sets of them.

use crate::ids::FdId;
use crate::tensor::{Tensor, TensorView};
use crate::text::{str_eq, text_len, text_wf};
use std::marker::PhantomData;
use vstd::prelude::*;

verus! {

/// What a handle stands for.
pub enum HandleView<V> {
    Shared { fd_id: FdId, size_bytes: u64 },
    Inline { inner: V },
}

/// A reference to a payload of type `T` that is cheap to pass around.
///
/// Where the two processes can share memory a handle names a region and its
/// length in bytes. Where they cannot, the handle carries the payload
/// itself. The type parameter only keeps handles of different payload
/// types apart; a shared handle stores nothing of it.
#[derive(Debug)]
pub enum Handle<T> {
    Shared { fd_id: FdId, size_bytes: u64, _pd: PhantomData<T> },
    Inline { inner: T },
}

impl<T: View> View for Handle<T> {
    type V = HandleView<T::V>;

    open spec fn view(&self) -> HandleView<T::V> {
        match self {
            Handle::Shared { fd_id, size_bytes, _pd } => HandleView::Shared {
                fd_id: *fd_id,
                size_bytes: *size_bytes,
            },
            Handle::Inline { inner } => HandleView::Inline { inner: inner@ },
        }
    }
}

impl<T> Handle<T> {
    /// A handle to a shared region of `size_bytes` bytes.
    pub fn shared(fd_id: FdId, size_bytes: u64) -> (h: Self)
        ensures
            h == (Handle::<T>::Shared { fd_id, size_bytes, _pd: PhantomData }),
    {
        Handle::Shared { fd_id, size_bytes, _pd: PhantomData }
    }

    /// A handle that carries its payload.
    pub fn inline(inner: T) -> (h: Self)
        ensures
            h == (Handle::Inline { inner }),
    {
        Handle::Inline { inner }
    }
}

/// Validity of a tensor handle: a payload carried inline is well formed.
pub open spec fn handle_wf(h: HandleView<TensorView>) -> bool {
    match h {
        HandleView::Shared { .. } => true,
        HandleView::Inline { inner } => inner.wf(),
    }
}

impl Handle<Tensor> {
    /// Whether the handle names a shared region. Every handle to a tensor
    /// is valid, as every tensor is.
    pub fn is_shared(&self) -> (r: bool)
        ensures
            r == self@ is Shared,
            handle_wf(self@),
    {
        match self {
            Handle::Shared { .. } => true,
            Handle::Inline { inner } => {
                let _numeric = inner.is_numeric();
                false
            },
        }
    }
}

/// One entry of a named tensor set: the name and the handle.
pub type NamedHandle = (Seq<char>, HandleView<TensorView>);

/// Whether some entry has the name `name`.
pub open spec fn has_name(entries: Seq<NamedHandle>, name: Seq<char>) -> bool {
    exists|i: int| 0 <= i < entries.len() && (#[trigger] entries[i]).0 == name
}

/// Validity of a named set: no name occurs twice, every handle is valid,
/// and all lengths fit in 64 bits.
pub open spec fn entries_wf(entries: Seq<NamedHandle>) -> bool {
    &&& entries.len() <= u64::MAX
    &&& forall|i: int| 0 <= i < entries.len() ==> text_wf((#[trigger] entries[i]).0)
    &&& forall|i: int, j: int|
        0 <= i < j < entries.len() ==> (#[trigger] entries[i]).0 != (#[trigger] entries[j]).0
    &&& forall|i: int| 0 <= i < entries.len() ==> handle_wf((#[trigger] entries[i]).1)
}

/// The mapping from name to handle that a valid list of entries denotes.
pub open spec fn entries_map(entries: Seq<NamedHandle>) -> Map<Seq<char>, HandleView<TensorView>> {
    Map::new(
        |name: Seq<char>| has_name(entries, name),
        |name: Seq<char>| entries[choose|i: int| 0 <= i < entries.len() && (#[trigger] entries[i]).0 == name].1,
    )
}

/// A set of tensor handles, each under a name of its own.
///
/// The entries keep the order in which their names were first inserted.
#[derive(Debug)]
pub struct TensorMap {
    entries: Vec<(String, Handle<Tensor>)>,
}

impl View for TensorMap {
    type V = Seq<NamedHandle>;

    closed spec fn view(&self) -> Seq<NamedHandle> {
        Seq::new(self.entries@.len(), |i: int| (self.entries@[i].0@, self.entries@[i].1@))
    }
}

impl TensorMap {
    /// No name occurs twice, every handle is valid, and all lengths fit
    /// in 64 bits. Every set that `new` made and `insert` changed is so.
    pub open spec fn wf(&self) -> bool {
        entries_wf(self@)
    }

    /// The mapping from name to handle.
    pub open spec fn spec_map(&self) -> Map<Seq<char>, HandleView<TensorView>> {
        entries_map(self@)
    }

    /// The set without any tensor.
    pub fn new() -> (m: Self)
        ensures
            m@ == Seq::<NamedHandle>::empty(),
            m.wf(),
    {
        let m = TensorMap { entries: Vec::new() };
        assert(m@ =~= Seq::<NamedHandle>::empty());
        m
    }

    /// The number of entries.
    pub fn len(&self) -> (n: usize)
        ensures
            n == self@.len(),
    {
        self.entries.len()
    }

    /// The name of the entry at position `i`.
    pub fn name_at(&self, i: usize) -> (name: &String)
        requires
            i < self@.len(),
        ensures
            name@ == self@[i as int].0,
    {
        &self.entries[i].0
    }

    /// The handle of the entry at position `i`.
    pub fn handle_at(&self, i: usize) -> (h: &Handle<Tensor>)
        requires
            i < self@.len(),
        ensures
            h@ == self@[i as int].1,
    {
        &self.entries[i].1
    }

    /// The position of the entry named `name`, if there is one.
    pub fn position(&self, name: &str) -> (r: Option<usize>)
        ensures
            match r {
                Some(i) => i < self@.len() && self@[i as int].0 == name@,
                None => !has_name(self@, name@),
            },
    {
        let mut i: usize = 0;
        while i < self.entries.len()
            invariant
                i <= self.entries@.len(),
                self@.len() == self.entries@.len(),
                forall|j: int| 0 <= j < i ==> (#[trigger] self@[j]).0 != name@,
            decreases self.entries.len() - i,
        {
            if str_eq(self.entries[i].0.as_str(), name) {
                return Some(i);
            }
            i += 1;
        }
        None
    }

    /// The handle stored under `name`.
    pub fn get(&self, name: &str) -> (r: Option<&Handle<Tensor>>)
        ensures
            match r {
                Some(h) => has_name(self@, name@) && (self.wf() ==> self.spec_map()[name@] == h@),
                None => !has_name(self@, name@),
            },
            r matches Some(h) ==> exists|i: int|
                0 <= i < self@.len() && #[trigger] self@[i] == (name@, h@),
    {
        match self.position(name) {
            Some(i) => {
                let h = &self.entries[i].1;
                proof {
                    assert(self@[i as int] == (name@, h@));
                    if self.wf() {
                        let k = choose|k: int|
                            0 <= k < self@.len() && (#[trigger] self@[k]).0 == name@;
                        assert(k == i);
                    }
                }
                Some(h)
            },
            None => None,
        }
    }

    /// Stores `handle` under `name`. A handle already stored under that
    /// name is replaced in place and handed back; a new name goes last.
    pub fn insert(&mut self, name: String, handle: Handle<Tensor>) -> (r: Option<Handle<Tensor>>)
        requires
            old(self).wf(),
        ensures
            final(self).wf(),
            match r {
                Some(prev) => exists|i: int|
                    0 <= i < old(self)@.len() && #[trigger] old(self)@[i] == (name@, prev@)
                        && final(self)@ == old(self)@.update(i, (name@, handle@)),
                None => !has_name(old(self)@, name@) && final(self)@ == old(self)@.push(
                    (name@, handle@),
                ),
            },
    {
        let ghost before = self@;
        let ghost entry = (name@, handle@);
        // The name is a string in memory, so its length fits in 64 bits,
        // and the handle is valid as every handle is.
        let _name_len: u64 = text_len(name.as_str());
        let _shared = handle.is_shared();
        match self.position(name.as_str()) {
            Some(i) => {
                let prev = self.entries.remove(i);
                self.entries.insert(i, (name, handle));
                proof {
                    assert(self@ =~= before.update(i as int, entry));
                    assert(before[i as int] == (name@, prev.1@));
                }
                Some(prev.1)
            },
            None => {
                self.entries.push((name, handle));
                let _count: usize = self.entries.len();
                proof {
                    assert(self@ =~= before.push(entry));
                    assert forall|a: int, b: int| 0 <= a < b < self@.len() implies (
                    #[trigger] self@[a]).0 != (#[trigger] self@[b]).0 by {
                        if b == before.len() {
                            assert(before[a].0 != name@);
                        } else {
                            assert(before[a].0 != before[b].0);
                        }
                    }
                }
                None
            },
        }
    }
}

/// In a valid set the mapping holds each entry under its name.
pub proof fn lemma_entries_map_index(entries: Seq<NamedHandle>, i: int)
    requires
        entries_wf(entries),
        0 <= i < entries.len(),
    ensures
        entries_map(entries).contains_key(entries[i].0),
        entries_map(entries)[entries[i].0] == entries[i].1,
{
    let name = entries[i].0;
    let k = choose|k: int| 0 <= k < entries.len() && (#[trigger] entries[k]).0 == name;
    assert(k == i);
}

} // verus!
