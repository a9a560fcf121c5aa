//! Tensors as they travel between processes: an element kind, a shape and
//! the dense element data.
//!
//! Numeric element data is kept as raw little-endian bytes, so the same
//! value serves every numeric kind and no arithmetic is ever done on the
//! elements here. String tensors hold one string per element.

use crate::text::{text_len, text_wf};
use vstd::prelude::*;

verus! {

/// The closed list of numeric element kinds.
#[derive(Debug, PartialEq, Eq, Clone, Copy, Structural)]
pub enum Dtype {
    Float,
    Double,
    I8,
    I16,
    I32,
    I64,
    U8,
    U16,
    U32,
    U64,
}

impl Dtype {
    /// The number of bytes one element of this kind occupies.
    pub open spec fn spec_size_bytes(self) -> nat {
        match self {
            Dtype::I8 | Dtype::U8 => 1,
            Dtype::I16 | Dtype::U16 => 2,
            Dtype::Float | Dtype::I32 | Dtype::U32 => 4,
            Dtype::Double | Dtype::I64 | Dtype::U64 => 8,
        }
    }

    /// The number of bytes one element of this kind occupies.
    pub fn size_bytes(self) -> (n: u64)
        ensures
            n == self.spec_size_bytes(),
    {
        match self {
            Dtype::I8 | Dtype::U8 => 1,
            Dtype::I16 | Dtype::U16 => 2,
            Dtype::Float | Dtype::I32 | Dtype::U32 => 4,
            Dtype::Double | Dtype::I64 | Dtype::U64 => 8,
        }
    }
}

/// The number of elements of a dense array with the given shape: the
/// product of its dimensions, which is 1 for the empty shape of a scalar.
pub open spec fn element_count(shape: Seq<u64>) -> nat
    decreases shape.len(),
{
    if shape.len() == 0 {
        1
    } else {
        element_count(shape.drop_last()) * (shape.last() as nat)
    }
}

/// A shape with a zero dimension holds no element.
pub proof fn lemma_element_count_zero(shape: Seq<u64>, k: int)
    requires
        0 <= k < shape.len(),
        shape[k] == 0,
    ensures
        element_count(shape) == 0,
    decreases shape.len(),
{
    if k == shape.len() - 1 {
        assert(element_count(shape.drop_last()) * 0 == 0) by (nonlinear_arith);
    } else {
        lemma_element_count_zero(shape.drop_last(), k);
        assert(0 * (shape.last() as nat) == 0) by (nonlinear_arith);
    }
}

/// With no zero dimension, a leading part of a shape never counts more
/// elements than the whole.
pub proof fn lemma_element_count_grows(shape: Seq<u64>, i: int)
    requires
        0 <= i <= shape.len(),
        forall|j: int| 0 <= j < shape.len() ==> shape[j] >= 1,
    ensures
        1 <= element_count(shape.take(i)) <= element_count(shape),
    decreases shape.len() - i,
{
    if i == shape.len() {
        assert(shape.take(i) =~= shape);
        lemma_element_count_positive(shape);
    } else {
        lemma_element_count_grows(shape, i + 1);
        let next = shape.take(i + 1);
        assert(next.drop_last() =~= shape.take(i));
        assert(next.last() == shape[i]);
        lemma_element_count_positive(shape.take(i));
        let a = element_count(shape.take(i));
        let d = shape[i] as nat;
        assert(a <= a * d) by (nonlinear_arith)
            requires
                d >= 1,
        ;
    }
}

proof fn lemma_element_count_positive(shape: Seq<u64>)
    requires
        forall|j: int| 0 <= j < shape.len() ==> shape[j] >= 1,
    ensures
        element_count(shape) >= 1,
    decreases shape.len(),
{
    if shape.len() > 0 {
        lemma_element_count_positive(shape.drop_last());
        let a = element_count(shape.drop_last());
        let d = shape.last() as nat;
        assert(a * d >= 1) by (nonlinear_arith)
            requires
                a >= 1,
                d >= 1,
        ;
    }
}

/// Computes `element_count`, or reports that it does not fit in 64 bits.
pub fn checked_element_count(shape: &Vec<u64>) -> (r: Option<u64>)
    ensures
        match r {
            Some(n) => n == element_count(shape@),
            None => element_count(shape@) > u64::MAX,
        },
{
    let mut i: usize = 0;
    while i < shape.len()
        invariant
            i <= shape.len(),
            forall|j: int| 0 <= j < i ==> shape@[j] >= 1,
        decreases shape.len() - i,
    {
        if shape[i] == 0 {
            proof {
                lemma_element_count_zero(shape@, i as int);
            }
            return Some(0);
        }
        i += 1;
    }
    let mut acc: u64 = 1;
    let mut k: usize = 0;
    while k < shape.len()
        invariant
            k <= shape.len(),
            forall|j: int| 0 <= j < shape.len() ==> shape@[j] >= 1,
            acc == element_count(shape@.take(k as int)),
        decreases shape.len() - k,
    {
        let ghost next = shape@.take(k + 1);
        proof {
            assert(next.drop_last() =~= shape@.take(k as int));
            assert(next.last() == shape@[k as int]);
        }
        match acc.checked_mul(shape[k]) {
            Some(n) => {
                acc = n;
            },
            None => {
                proof {
                    lemma_element_count_grows(shape@, k + 1);
                }
                return None;
            },
        }
        k += 1;
    }
    proof {
        assert(shape@.take(k as int) =~= shape@);
    }
    Some(acc)
}

/// What a numeric tensor holds.
pub struct TensorNumericView {
    pub dtype: Dtype,
    pub shape: Seq<u64>,
    pub buffer: Seq<u8>,
}

impl TensorNumericView {
    /// The buffer is exactly as long as the shape and element kind demand,
    /// and both lengths fit in 64 bits.
    pub open spec fn wf(self) -> bool {
        &&& self.shape.len() <= u64::MAX
        &&& self.buffer.len() <= u64::MAX
        &&& self.buffer.len() == element_count(self.shape) * self.dtype.spec_size_bytes()
    }
}

/// A dense numeric tensor. Its buffer holds the elements in row-major
/// order, each in little-endian byte order.
#[derive(Debug)]
pub struct TensorNumeric {
    dtype: Dtype,
    shape: Vec<u64>,
    buffer: Vec<u8>,
}

impl View for TensorNumeric {
    type V = TensorNumericView;

    closed spec fn view(&self) -> TensorNumericView {
        TensorNumericView { dtype: self.dtype, shape: self.shape@, buffer: self.buffer@ }
    }
}

impl TensorNumeric {
    /// Every numeric tensor is valid: `new` makes no other, and none is
    /// changed once it is made.
    #[verifier::type_invariant]
    pub closed spec fn inv(&self) -> bool {
        self@.wf()
    }

    /// What the tensor holds is valid.
    pub open spec fn wf(&self) -> bool {
        self@.wf()
    }

    /// Builds a tensor from its parts, if the buffer length matches the
    /// element count of the shape times the element size.
    pub fn new(dtype: Dtype, shape: Vec<u64>, buffer: Vec<u8>) -> (r: Option<TensorNumeric>)
        ensures
            r is Some <==> (TensorNumericView { dtype, shape: shape@, buffer: buffer@ }).wf(),
            r matches Some(t) ==> t.wf() && t@ == (TensorNumericView {
                dtype,
                shape: shape@,
                buffer: buffer@,
            }),
    {
        let size: u64 = dtype.size_bytes();
        // Both lengths are those of vectors, so they fit in 64 bits.
        let len: usize = buffer.len();
        let _rank: usize = shape.len();
        let ghost count = element_count(shape@);
        let n: u64 = match checked_element_count(&shape) {
            Some(n) => n,
            None => {
                proof {
                    assert(count * (size as nat) >= count) by (nonlinear_arith)
                        requires
                            size >= 1,
                    ;
                }
                return None;
            },
        };
        let total: u64 = match n.checked_mul(size) {
            Some(t) => t,
            None => {
                return None;
            },
        };
        if len as u64 == total {
            Some(TensorNumeric { dtype, shape, buffer })
        } else {
            None
        }
    }

    /// The element kind.
    pub fn dtype(&self) -> (d: Dtype)
        ensures
            d == self@.dtype,
            self.wf(),
    {
        proof {
            use_type_invariant(self);
        }
        self.dtype
    }

    /// The dimensions.
    pub fn shape(&self) -> (s: &Vec<u64>)
        ensures
            s@ == self@.shape,
            self.wf(),
    {
        proof {
            use_type_invariant(self);
        }
        &self.shape
    }

    /// The elements, as bytes.
    pub fn buffer(&self) -> (b: &Vec<u8>)
        ensures
            b@ == self@.buffer,
            self.wf(),
    {
        proof {
            use_type_invariant(self);
        }
        &self.buffer
    }
}

/// What a string tensor holds.
pub struct TensorStringView {
    pub shape: Seq<u64>,
    pub buffer: Seq<Seq<char>>,
}

impl TensorStringView {
    /// There is exactly one string for each element of the shape, and all
    /// lengths fit in 64 bits.
    pub open spec fn wf(self) -> bool {
        &&& self.shape.len() <= u64::MAX
        &&& self.buffer.len() <= u64::MAX
        &&& self.buffer.len() == element_count(self.shape)
        &&& forall|i: int| 0 <= i < self.buffer.len() ==> text_wf(#[trigger] self.buffer[i])
    }
}

/// A dense tensor of strings, in row-major order.
#[derive(Debug)]
pub struct TensorString {
    shape: Vec<u64>,
    buffer: Vec<String>,
}

impl View for TensorString {
    type V = TensorStringView;

    closed spec fn view(&self) -> TensorStringView {
        TensorStringView { shape: self.shape@, buffer: self.buffer.deep_view() }
    }
}

impl TensorString {
    /// Every string tensor is valid: `new` makes no other, and none is
    /// changed once it is made.
    #[verifier::type_invariant]
    pub closed spec fn inv(&self) -> bool {
        self@.wf()
    }

    /// What the tensor holds is valid.
    pub open spec fn wf(&self) -> bool {
        self@.wf()
    }

    /// Builds a tensor from its parts, if there is one string per element.
    pub fn new(shape: Vec<u64>, buffer: Vec<String>) -> (r: Option<TensorString>)
        ensures
            r is Some <==> (TensorStringView { shape: shape@, buffer: buffer.deep_view() }).wf(),
            r matches Some(t) ==> t.wf() && t@ == (TensorStringView {
                shape: shape@,
                buffer: buffer.deep_view(),
            }),
    {
        // The lengths of the vectors and of each string fit in 64 bits.
        let len: usize = buffer.len();
        let _rank: usize = shape.len();
        assert(buffer.deep_view().len() == len);
        let mut i: usize = 0;
        while i < len
            invariant
                i <= len == buffer@.len(),
                forall|j: int| 0 <= j < i ==> text_wf(#[trigger] buffer.deep_view()[j]),
            decreases len - i,
        {
            let _len: u64 = text_len(buffer[i].as_str());
            assert(buffer.deep_view()[i as int] == buffer@[i as int]@);
            i += 1;
        }
        match checked_element_count(&shape) {
            Some(n) => {
                if len as u64 == n {
                    Some(TensorString { shape, buffer })
                } else {
                    None
                }
            },
            None => None,
        }
    }

    /// The dimensions.
    pub fn shape(&self) -> (s: &Vec<u64>)
        ensures
            s@ == self@.shape,
            self.wf(),
    {
        proof {
            use_type_invariant(self);
        }
        &self.shape
    }

    /// The elements.
    pub fn buffer(&self) -> (b: &Vec<String>)
        ensures
            b.deep_view() == self@.buffer,
            self.wf(),
    {
        proof {
            use_type_invariant(self);
        }
        &self.buffer
    }
}

/// What a tensor holds, whatever its element kind.
pub enum TensorView {
    Numeric(TensorNumericView),
    String(TensorStringView),
}

impl TensorView {
    /// The tensor is valid for its kind.
    pub open spec fn wf(self) -> bool {
        match self {
            TensorView::Numeric(t) => t.wf(),
            TensorView::String(t) => t.wf(),
        }
    }
}

/// A tensor of any supported element kind.
#[derive(Debug)]
pub enum Tensor {
    Numeric(TensorNumeric),
    String(TensorString),
}

impl View for Tensor {
    type V = TensorView;

    open spec fn view(&self) -> TensorView {
        match self {
            Tensor::Numeric(t) => TensorView::Numeric(t@),
            Tensor::String(t) => TensorView::String(t@),
        }
    }
}

impl Tensor {
    /// What the tensor holds is valid.
    pub open spec fn wf(&self) -> bool {
        self@.wf()
    }

    /// Whether the tensor holds numbers. Every tensor is valid.
    pub fn is_numeric(&self) -> (r: bool)
        ensures
            r == self is Numeric,
            self.wf(),
    {
        match self {
            Tensor::Numeric(t) => {
                proof {
                    use_type_invariant(t);
                }
                true
            },
            Tensor::String(t) => {
                proof {
                    use_type_invariant(t);
                }
                false
            },
        }
    }
}

} // verus!
