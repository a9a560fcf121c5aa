//! The runner's cache of sealed tensor sets.
//!
//! Sealing freezes a named set of tensors under a handle, so that
//! inference can be asked for again and again without sending the inputs
//! each time. A sealed set never changes. Each seal makes a new handle,
//! also where the same set was sealed before, and a handle that has been
//! released is not given out again.

use crate::handle::{NamedHandle, TensorMap};
use crate::ids::SealHandle;
use crate::message::{RPCRequestData, RPCRequestDataView};
use crate::table::Registry;
use vstd::prelude::*;

verus! {

/// Why the inputs of an inference could not be found. Neither harms the
/// connection: the caller gets an error response.
#[derive(Debug, PartialEq, Eq, Clone, Copy, Structural)]
pub enum SealError {
    /// No set is sealed under the handle: it was never given out by this
    /// runner, or it has been released.
    UnknownHandle,
    /// The request does not ask for inference.
    NotInference,
}

/// What a cache holds: the sealed sets, and the number of the next
/// handle.
pub struct SealCacheView {
    pub sets: Map<u64, Seq<NamedHandle>>,
    pub next: u64,
}

impl SealCacheView {
    /// Every handle in use is below the next one.
    pub open spec fn wf(self) -> bool {
        forall|k: u64| self.sets.contains_key(k) ==> k < self.next
    }
}

/// What sealing a set does: the set is stored under the next handle.
/// Nothing happens only where all handles have been given out.
pub open spec fn seal_spec(c: SealCacheView, tensors: Seq<NamedHandle>) -> (
    SealCacheView,
    Option<SealHandle>,
) {
    if c.next == u64::MAX {
        (c, None)
    } else {
        (
            SealCacheView { sets: c.sets.insert(c.next, tensors), next: (c.next + 1) as u64 },
            Some(SealHandle(c.next)),
        )
    }
}

/// What releasing a handle does.
pub open spec fn release_spec(c: SealCacheView, handle: SealHandle) -> SealCacheView {
    SealCacheView { sets: c.sets.remove(handle.0), ..c }
}

/// The inputs that an inference request stands for.
pub open spec fn input_of(c: SealCacheView, data: RPCRequestDataView) -> Result<
    Seq<NamedHandle>,
    SealError,
> {
    match data {
        RPCRequestDataView::InferWithTensors { tensors } => Ok(tensors),
        RPCRequestDataView::InferWithHandle { handle } => if c.sets.contains_key(handle.0) {
            Ok(c.sets[handle.0])
        } else {
            Err(SealError::UnknownHandle)
        },
        _ => Err(SealError::NotInference),
    }
}

/// What an inference request gives with a runner that computes `model`
/// from its inputs.
pub open spec fn infer_spec<R>(
    c: SealCacheView,
    data: RPCRequestDataView,
    model: spec_fn(Seq<NamedHandle>) -> R,
) -> Result<R, SealError> {
    match input_of(c, data) {
        Ok(tensors) => Ok(model(tensors)),
        Err(e) => Err(e),
    }
}

/// The sealed sets of one runner.
pub struct SealCache {
    sets: Registry<TensorMap>,
}

impl View for SealCache {
    type V = SealCacheView;

    closed spec fn view(&self) -> SealCacheView {
        SealCacheView {
            sets: Map::new(
                |k: u64| self.sets@.entries.contains_key(k),
                |k: u64| self.sets@.entries[k]@,
            ),
            next: self.sets@.next,
        }
    }
}

impl SealCache {
    /// The cache is in order. Every value that `new` made and the
    /// methods below changed is so.
    pub closed spec fn wf(&self) -> bool {
        self.sets.wf()
    }

    /// In a cache that is in order, every handle in use is below the
    /// next one.
    pub proof fn lemma_view_wf(&self)
        requires
            self.wf(),
        ensures
            self@.wf(),
    {
        assert forall|k: u64| self@.sets.contains_key(k) implies k < self@.next by {
            self.sets.lemma_keys_below_next(k);
        }
    }

    /// A cache that holds nothing.
    pub fn new() -> (c: Self)
        ensures
            c.wf(),
            c@ == (SealCacheView { sets: Map::empty(), next: 0 }),
    {
        let c = SealCache { sets: Registry::new() };
        assert(c@.sets =~= Map::<u64, Seq<NamedHandle>>::empty());
        c
    }

    /// Freezes `tensors` under a new handle. The set comes back only
    /// where all handles have been given out.
    pub fn seal(&mut self, tensors: TensorMap) -> (r: Result<SealHandle, TensorMap>)
        requires
            old(self).wf(),
        ensures
            final(self).wf(),
            final(self)@ == seal_spec(old(self)@, tensors@).0,
            match r {
                Ok(h) => seal_spec(old(self)@, tensors@).1 == Some(h),
                Err(back) => seal_spec(old(self)@, tensors@).1 is None && back == tensors,
            },
    {
        let ghost before = self@;
        let ghost t = tensors@;
        match self.sets.register(tensors) {
            Ok(k) => {
                assert(self@.sets =~= before.sets.insert(k, t));
                Ok(SealHandle(k))
            },
            Err(back) => {
                assert(self@.sets =~= before.sets);
                Err(back)
            },
        }
    }

    /// The set sealed under `handle`.
    pub fn get(&self, handle: SealHandle) -> (r: Option<&TensorMap>)
        requires
            self.wf(),
        ensures
            match r {
                Some(t) => self@.sets.contains_key(handle.0) && self@.sets[handle.0] == t@,
                None => !self@.sets.contains_key(handle.0),
            },
    {
        self.sets.get(handle.0)
    }

    /// Gives up the set sealed under `handle` and hands it out. The
    /// handle stands for nothing from now on.
    pub fn release(&mut self, handle: SealHandle) -> (r: Option<TensorMap>)
        requires
            old(self).wf(),
        ensures
            final(self).wf(),
            final(self)@ == release_spec(old(self)@, handle),
            match r {
                Some(t) => old(self)@.sets.contains_key(handle.0) && old(self)@.sets[handle.0]
                    == t@,
                None => !old(self)@.sets.contains_key(handle.0),
            },
    {
        let ghost before = self@;
        let r = self.sets.remove(handle.0);
        assert(self@.sets =~= before.sets.remove(handle.0));
        r
    }

    /// The inputs that an inference request stands for: the tensors it
    /// carries, or the set sealed under the handle it carries.
    pub fn input<'a>(&'a self, data: &'a RPCRequestData) -> (r: Result<&'a TensorMap, SealError>)
        requires
            self.wf(),
        ensures
            match r {
                Ok(t) => input_of(self@, data@) == Ok::<Seq<NamedHandle>, SealError>(t@),
                Err(e) => input_of(self@, data@) == Err::<Seq<NamedHandle>, SealError>(e),
            },
    {
        match data {
            RPCRequestData::InferWithTensors { tensors } => Ok(tensors),
            RPCRequestData::InferWithHandle { handle } => match self.sets.get(handle.0) {
                Some(t) => Ok(t),
                None => Err(SealError::UnknownHandle),
            },
            _ => Err(SealError::NotInference),
        }
    }
}

/// Sealing a set and inferring with the handle gives what inferring
/// with the set itself gives, whatever the model computes from its
/// inputs.
pub proof fn lemma_seal_then_infer_with_handle<R>(
    c: SealCacheView,
    tensors: Seq<NamedHandle>,
    model: spec_fn(Seq<NamedHandle>) -> R,
)
    requires
        seal_spec(c, tensors).1 is Some,
    ensures
        ({
            let (sealed, handle) = seal_spec(c, tensors);
            let by_handle = RPCRequestDataView::InferWithHandle { handle: handle->Some_0 };
            let by_tensors = RPCRequestDataView::InferWithTensors { tensors };
            &&& infer_spec(sealed, by_handle, model) == infer_spec(sealed, by_tensors, model)
            &&& infer_spec(sealed, by_handle, model) == Ok::<R, SealError>(model(tensors))
        }),
{
}

/// A sealed set stays as it is: sealing another set, or releasing
/// another handle, changes nothing of what a handle in use stands for.
pub proof fn lemma_sealed_set_never_changes(
    c: SealCacheView,
    handle: SealHandle,
    tensors: Seq<NamedHandle>,
    other: SealHandle,
)
    requires
        c.wf(),
        c.sets.contains_key(handle.0),
        other != handle,
    ensures
        seal_spec(c, tensors).0.sets.contains_key(handle.0),
        seal_spec(c, tensors).0.sets[handle.0] == c.sets[handle.0],
        seal_spec(c, tensors).0.wf(),
        release_spec(c, other).sets.contains_key(handle.0),
        release_spec(c, other).sets[handle.0] == c.sets[handle.0],
        release_spec(c, other).wf(),
{
}

/// Each seal gives a handle that stood for nothing before.
pub proof fn lemma_seal_gives_new_handle(c: SealCacheView, tensors: Seq<NamedHandle>)
    requires
        c.wf(),
        seal_spec(c, tensors).1 is Some,
    ensures
        !c.sets.contains_key(seal_spec(c, tensors).1->Some_0.0),
{
}

/// A handle that this cache does not know is refused.
pub proof fn lemma_unknown_handle_is_refused<R>(
    c: SealCacheView,
    handle: SealHandle,
    model: spec_fn(Seq<NamedHandle>) -> R,
)
    requires
        !c.sets.contains_key(handle.0),
    ensures
        infer_spec(c, RPCRequestDataView::InferWithHandle { handle }, model) == Err::<
            R,
            SealError,
        >(SealError::UnknownHandle),
{
}

} // verus!
