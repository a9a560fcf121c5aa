//! The entry point of a model that runs inside a sandboxed guest.
//!
//! A guest registers its inference function once, when it is set up, and
//! the host calls it for every inference. The slot below holds the
//! function. It can be filled once and never changes afterwards, so that
//! every call finds the function that was registered.

use crate::tensor::Tensor;
use vstd::prelude::*;

verus! {

/// The named tensors that go into an inference and come out of it.
pub type NamedTensors = Vec<(String, Tensor)>;

/// The place of the one inference function of a guest.
pub struct InferSlot<F> {
    f: Option<F>,
}

impl<F: Fn(NamedTensors) -> NamedTensors> InferSlot<F> {
    /// The function that has been registered, if any.
    pub closed spec fn registered(&self) -> Option<F> {
        self.f
    }

    /// A slot without a function.
    pub fn new() -> (s: Self)
        ensures
            s.registered() is None,
    {
        InferSlot { f: None }
    }

    /// Whether a function has been registered.
    pub fn is_set(&self) -> (r: bool)
        ensures
            r == self.registered() is Some,
    {
        self.f.is_some()
    }

    /// Calls the registered function on `input`.
    pub fn infer(&self, input: NamedTensors) -> (output: NamedTensors)
        requires
            self.registered() is Some,
            call_requires(self.registered()->Some_0, (input,)),
        ensures
            call_ensures(self.registered()->Some_0, (input,), output),
    {
        match &self.f {
            Some(f) => f(input),
            None => vstd::pervasive::unreached(),
        }
    }
}

/// Registers the inference function of a guest. The first registration
/// stands: where a function is registered already, the slot stays as it
/// is and the new function comes back.
pub fn set_infer_fn<F: Fn(NamedTensors) -> NamedTensors>(slot: &mut InferSlot<F>, f: F) -> (r:
    Result<(), F>)
    ensures
        match r {
            Ok(()) => old(slot).registered() is None && final(slot).registered() == Some(f),
            Err(back) => old(slot).registered() is Some && final(slot).registered() == old(
                slot,
            ).registered() && back == f,
        },
{
    if slot.f.is_some() {
        return Err(f);
    }
    slot.f = Some(f);
    Ok(())
}

} // verus!
