//! The byte encoding of tensors, of handles to them, and of named sets of
//! handles.
//!
//! A tensor is a kind byte (0 numeric, 1 string) and its parts: for a
//! numeric tensor the element kind as one byte, the shape, and the buffer
//! as a byte string; for a string tensor the shape and the list of
//! strings. A handle is a byte that tells a shared region (0) from an
//! inline payload (1), and then either the region's id and length or the
//! tensor. A named set is the list of its entries, each the name and the
//! handle.

use crate::codec::{
    all_ok, blob_bytes, concat_all, lemma_assoc, lemma_blob_unambiguous, lemma_concat_all_push,
    lemma_dim_unambiguous, lemma_list_next_item, lemma_list_unambiguous, lemma_tag_unambiguous,
    lemma_text_enc_unambiguous, lemma_text_unambiguous, lemma_u64_bytes_len,
    lemma_u64_unambiguous, list_bytes, read_blob, read_shape, read_text, read_texts, read_u64,
    read_u8, shape_bytes, text_bytes, text_enc, text_ok, texts_bytes, dim_enc, dim_ok, u64_bytes,
    unambiguous, write_blob, write_shape, write_text, write_texts, write_u64, write_u8,
};
use crate::handle::{entries_wf, handle_wf, Handle, HandleView, NamedHandle, TensorMap};
use crate::ids::FdId;
use crate::tensor::{
    Dtype, Tensor, TensorNumeric, TensorNumericView, TensorString, TensorStringView, TensorView,
};
use crate::text::text_wf;
use vstd::prelude::*;

verus! {

/// The byte that stands for an element kind.
pub open spec fn dtype_tag(d: Dtype) -> u8 {
    match d {
        Dtype::Float => 0,
        Dtype::Double => 1,
        Dtype::I8 => 2,
        Dtype::I16 => 3,
        Dtype::I32 => 4,
        Dtype::I64 => 5,
        Dtype::U8 => 6,
        Dtype::U16 => 7,
        Dtype::U32 => 8,
        Dtype::U64 => 9,
    }
}

/// The byte that stands for `d`.
pub fn dtype_to_tag(d: Dtype) -> (tag: u8)
    ensures
        tag == dtype_tag(d),
{
    match d {
        Dtype::Float => 0,
        Dtype::Double => 1,
        Dtype::I8 => 2,
        Dtype::I16 => 3,
        Dtype::I32 => 4,
        Dtype::I64 => 5,
        Dtype::U8 => 6,
        Dtype::U16 => 7,
        Dtype::U32 => 8,
        Dtype::U64 => 9,
    }
}

/// The element kind that `tag` stands for, if it stands for one.
pub fn dtype_from_tag(tag: u8) -> (r: Option<Dtype>)
    ensures
        match r {
            Some(d) => dtype_tag(d) == tag,
            None => forall|d: Dtype| dtype_tag(d) != tag,
        },
{
    match tag {
        0 => Some(Dtype::Float),
        1 => Some(Dtype::Double),
        2 => Some(Dtype::I8),
        3 => Some(Dtype::I16),
        4 => Some(Dtype::I32),
        5 => Some(Dtype::I64),
        6 => Some(Dtype::U8),
        7 => Some(Dtype::U16),
        8 => Some(Dtype::U32),
        9 => Some(Dtype::U64),
        _ => None,
    }
}

/// The encoding of the parts of a numeric tensor.
pub open spec fn numeric_bytes(t: TensorNumericView) -> Seq<u8> {
    seq![dtype_tag(t.dtype)] + (shape_bytes(t.shape) + blob_bytes(t.buffer))
}

/// The encoding of the parts of a string tensor.
pub open spec fn strings_bytes(t: TensorStringView) -> Seq<u8> {
    shape_bytes(t.shape) + texts_bytes(t.buffer)
}

/// The encoding of a tensor.
pub open spec fn tensor_bytes(t: TensorView) -> Seq<u8> {
    match t {
        TensorView::Numeric(n) => seq![0u8] + numeric_bytes(n),
        TensorView::String(s) => seq![1u8] + strings_bytes(s),
    }
}

/// The encoding of a handle to a tensor.
pub open spec fn handle_bytes(h: HandleView<TensorView>) -> Seq<u8> {
    match h {
        HandleView::Shared { fd_id, size_bytes } => seq![0u8] + (u64_bytes(fd_id.0) + u64_bytes(
            size_bytes,
        )),
        HandleView::Inline { inner } => seq![1u8] + tensor_bytes(inner),
    }
}

/// How one entry of a named set is encoded.
pub open spec fn entry_enc() -> spec_fn(NamedHandle) -> Seq<u8> {
    |e: NamedHandle| text_bytes(e.0) + handle_bytes(e.1)
}

/// The entries that can be encoded.
pub open spec fn entry_ok() -> spec_fn(NamedHandle) -> bool {
    |e: NamedHandle| text_wf(e.0) && handle_wf(e.1)
}

/// The encoding of a named set of handles.
pub open spec fn entries_bytes(entries: Seq<NamedHandle>) -> Seq<u8> {
    list_bytes(entry_enc(), entries)
}

proof fn lemma_numeric_layout(t: TensorNumericView, rest: Seq<u8>)
    ensures
        numeric_bytes(t) + rest == seq![dtype_tag(t.dtype)] + (shape_bytes(t.shape) + (blob_bytes(
            t.buffer,
        ) + rest)),
{
    lemma_assoc(seq![dtype_tag(t.dtype)], shape_bytes(t.shape) + blob_bytes(t.buffer), rest);
    lemma_assoc(shape_bytes(t.shape), blob_bytes(t.buffer), rest);
}

proof fn lemma_shape_unambiguous(a: Seq<u64>, r1: Seq<u8>, b: Seq<u64>, r2: Seq<u8>)
    requires
        a.len() <= u64::MAX,
        b.len() <= u64::MAX,
        shape_bytes(a) + r1 == shape_bytes(b) + r2,
    ensures
        a == b,
        r1 == r2,
{
    lemma_dim_unambiguous();
    lemma_list_unambiguous(dim_enc(), dim_ok(), a, r1, b, r2);
}

proof fn lemma_texts_unambiguous(
    a: Seq<Seq<char>>,
    r1: Seq<u8>,
    b: Seq<Seq<char>>,
    r2: Seq<u8>,
)
    requires
        a.len() <= u64::MAX,
        b.len() <= u64::MAX,
        all_ok(text_ok(), a),
        all_ok(text_ok(), b),
        texts_bytes(a) + r1 == texts_bytes(b) + r2,
    ensures
        a == b,
        r1 == r2,
{
    lemma_text_enc_unambiguous();
    lemma_list_unambiguous(text_enc(), text_ok(), a, r1, b, r2);
}

/// Two valid numeric tensors whose parts give the same bytes, whatever
/// follows each, are the same tensor followed by the same bytes.
pub proof fn lemma_numeric_unambiguous(
    a: TensorNumericView,
    r1: Seq<u8>,
    b: TensorNumericView,
    r2: Seq<u8>,
)
    requires
        a.wf(),
        b.wf(),
        numeric_bytes(a) + r1 == numeric_bytes(b) + r2,
    ensures
        a == b,
        r1 == r2,
{
    lemma_numeric_layout(a, r1);
    lemma_numeric_layout(b, r2);
    lemma_tag_unambiguous(
        dtype_tag(a.dtype),
        shape_bytes(a.shape) + (blob_bytes(a.buffer) + r1),
        dtype_tag(b.dtype),
        shape_bytes(b.shape) + (blob_bytes(b.buffer) + r2),
    );
    lemma_shape_unambiguous(
        a.shape,
        blob_bytes(a.buffer) + r1,
        b.shape,
        blob_bytes(b.buffer) + r2,
    );
    lemma_blob_unambiguous(a.buffer, r1, b.buffer, r2);
}

/// Two valid string tensors whose parts give the same bytes, whatever
/// follows each, are the same tensor followed by the same bytes.
pub proof fn lemma_strings_unambiguous(
    a: TensorStringView,
    r1: Seq<u8>,
    b: TensorStringView,
    r2: Seq<u8>,
)
    requires
        a.wf(),
        b.wf(),
        strings_bytes(a) + r1 == strings_bytes(b) + r2,
    ensures
        a == b,
        r1 == r2,
{
    lemma_assoc(shape_bytes(a.shape), texts_bytes(a.buffer), r1);
    lemma_assoc(shape_bytes(b.shape), texts_bytes(b.buffer), r2);
    lemma_shape_unambiguous(
        a.shape,
        texts_bytes(a.buffer) + r1,
        b.shape,
        texts_bytes(b.buffer) + r2,
    );
    lemma_texts_unambiguous(a.buffer, r1, b.buffer, r2);
}

/// Two valid tensors that give the same bytes, whatever follows each, are
/// the same tensor followed by the same bytes.
pub proof fn lemma_tensor_unambiguous(a: TensorView, r1: Seq<u8>, b: TensorView, r2: Seq<u8>)
    requires
        a.wf(),
        b.wf(),
        tensor_bytes(a) + r1 == tensor_bytes(b) + r2,
    ensures
        a == b,
        r1 == r2,
{
    match (a, b) {
        (TensorView::Numeric(x), TensorView::Numeric(y)) => {
            lemma_assoc(seq![0u8], numeric_bytes(x), r1);
            lemma_assoc(seq![0u8], numeric_bytes(y), r2);
            lemma_tag_unambiguous(0u8, numeric_bytes(x) + r1, 0u8, numeric_bytes(y) + r2);
            lemma_numeric_unambiguous(x, r1, y, r2);
        },
        (TensorView::String(x), TensorView::String(y)) => {
            lemma_assoc(seq![1u8], strings_bytes(x), r1);
            lemma_assoc(seq![1u8], strings_bytes(y), r2);
            lemma_tag_unambiguous(1u8, strings_bytes(x) + r1, 1u8, strings_bytes(y) + r2);
            lemma_strings_unambiguous(x, r1, y, r2);
        },
        (TensorView::Numeric(x), TensorView::String(y)) => {
            lemma_assoc(seq![0u8], numeric_bytes(x), r1);
            lemma_assoc(seq![1u8], strings_bytes(y), r2);
            lemma_tag_unambiguous(0u8, numeric_bytes(x) + r1, 1u8, strings_bytes(y) + r2);
        },
        (TensorView::String(x), TensorView::Numeric(y)) => {
            lemma_assoc(seq![1u8], strings_bytes(x), r1);
            lemma_assoc(seq![0u8], numeric_bytes(y), r2);
            lemma_tag_unambiguous(1u8, strings_bytes(x) + r1, 0u8, numeric_bytes(y) + r2);
        },
    }
}

/// The byte a handle's encoding begins with, and what follows it.
pub open spec fn handle_tag(h: HandleView<TensorView>) -> u8 {
    match h {
        HandleView::Shared { .. } => 0,
        HandleView::Inline { .. } => 1,
    }
}

/// What follows the first byte of a handle's encoding.
pub open spec fn handle_body(h: HandleView<TensorView>) -> Seq<u8> {
    match h {
        HandleView::Shared { fd_id, size_bytes } => u64_bytes(fd_id.0) + u64_bytes(size_bytes),
        HandleView::Inline { inner } => tensor_bytes(inner),
    }
}

proof fn lemma_handle_layout(h: HandleView<TensorView>, rest: Seq<u8>)
    ensures
        handle_bytes(h) + rest == seq![handle_tag(h)] + (handle_body(h) + rest),
{
    lemma_assoc(seq![handle_tag(h)], handle_body(h), rest);
}

/// Two valid handles that give the same bytes, whatever follows each, are
/// the same handle followed by the same bytes.
pub proof fn lemma_handle_unambiguous(
    a: HandleView<TensorView>,
    r1: Seq<u8>,
    b: HandleView<TensorView>,
    r2: Seq<u8>,
)
    requires
        handle_wf(a),
        handle_wf(b),
        handle_bytes(a) + r1 == handle_bytes(b) + r2,
    ensures
        a == b,
        r1 == r2,
{
    lemma_handle_layout(a, r1);
    lemma_handle_layout(b, r2);
    lemma_tag_unambiguous(handle_tag(a), handle_body(a) + r1, handle_tag(b), handle_body(b) + r2);
    match (a, b) {
        (
            HandleView::Shared { fd_id: f1, size_bytes: n1 },
            HandleView::Shared { fd_id: f2, size_bytes: n2 },
        ) => {
            lemma_assoc(u64_bytes(f1.0), u64_bytes(n1), r1);
            lemma_assoc(u64_bytes(f2.0), u64_bytes(n2), r2);
            lemma_u64_unambiguous(f1.0, u64_bytes(n1) + r1, f2.0, u64_bytes(n2) + r2);
            lemma_u64_unambiguous(n1, r1, n2, r2);
        },
        (HandleView::Inline { inner: x }, HandleView::Inline { inner: y }) => {
            lemma_tensor_unambiguous(x, r1, y, r2);
        },
        _ => {},
    }
}

/// The encoding of an entry of a named set is unambiguous.
pub proof fn lemma_entry_unambiguous()
    ensures
        unambiguous(entry_enc(), entry_ok()),
{
    assert forall|x: NamedHandle, r1: Seq<u8>, y: NamedHandle, r2: Seq<u8>|
        entry_ok()(x) && entry_ok()(y) && #[trigger] (entry_enc()(x) + r1) == #[trigger] (
        entry_enc()(y) + r2) implies x == y && r1 == r2 by {
        lemma_assoc(text_bytes(x.0), handle_bytes(x.1), r1);
        lemma_assoc(text_bytes(y.0), handle_bytes(y.1), r2);
        lemma_text_unambiguous(x.0, handle_bytes(x.1) + r1, y.0, handle_bytes(y.1) + r2);
        lemma_handle_unambiguous(x.1, r1, y.1, r2);
    }
}

/// Two valid named sets that give the same bytes, whatever follows each,
/// are the same set followed by the same bytes.
pub proof fn lemma_entries_unambiguous(
    a: Seq<NamedHandle>,
    r1: Seq<u8>,
    b: Seq<NamedHandle>,
    r2: Seq<u8>,
)
    requires
        entries_wf(a),
        entries_wf(b),
        entries_bytes(a) + r1 == entries_bytes(b) + r2,
    ensures
        a == b,
        r1 == r2,
{
    lemma_entry_unambiguous();
    lemma_list_unambiguous(entry_enc(), entry_ok(), a, r1, b, r2);
}

/// Appends the encoding of a tensor.
pub fn write_tensor(out: &mut Vec<u8>, t: &Tensor)
    ensures
        final(out)@ == old(out)@ + tensor_bytes(t@),
{
    let ghost base = out@;
    match t {
        Tensor::Numeric(n) => {
            write_u8(out, 0);
            write_u8(out, dtype_to_tag(n.dtype()));
            write_shape(out, n.shape());
            write_blob(out, n.buffer().as_slice());
            proof {
                let v = n@;
                assert(out@ =~= base + (seq![0u8] + (seq![dtype_tag(v.dtype)] + (shape_bytes(
                    v.shape,
                ) + blob_bytes(v.buffer)))));
            }
        },
        Tensor::String(s) => {
            write_u8(out, 1);
            write_shape(out, s.shape());
            write_texts(out, s.buffer());
            proof {
                let v = s@;
                assert(out@ =~= base + (seq![1u8] + (shape_bytes(v.shape) + texts_bytes(
                    v.buffer,
                ))));
            }
        },
    }
}

/// Appends the encoding of a handle.
pub fn write_handle(out: &mut Vec<u8>, h: &Handle<Tensor>)
    ensures
        final(out)@ == old(out)@ + handle_bytes(h@),
{
    let ghost base = out@;
    match h {
        Handle::Shared { fd_id, size_bytes, _pd } => {
            write_u8(out, 0);
            write_u64(out, fd_id.0);
            write_u64(out, *size_bytes);
            proof {
                assert(out@ =~= base + (seq![0u8] + (u64_bytes(fd_id.0) + u64_bytes(
                    *size_bytes,
                ))));
            }
        },
        Handle::Inline { inner } => {
            write_u8(out, 1);
            write_tensor(out, inner);
            proof {
                assert(out@ =~= base + (seq![1u8] + tensor_bytes(inner@)));
            }
        },
    }
}

/// Appends the encoding of a named set of handles.
pub fn write_entries(out: &mut Vec<u8>, m: &TensorMap)
    ensures
        final(out)@ == old(out)@ + entries_bytes(m@),
{
    let n: usize = m.len();
    let ghost all = m@;
    write_u64(out, n as u64);
    let ghost base = out@;
    let mut i: usize = 0;
    while i < n
        invariant
            i <= n == m@.len(),
            all == m@,
            out@ == base + concat_all(entry_enc(), all.take(i as int)),
        decreases n - i,
    {
        write_text(out, m.name_at(i).as_str());
        write_handle(out, m.handle_at(i));
        proof {
            let done = all.take(i as int);
            let e = all[i as int];
            assert(all.take(i + 1) =~= done.push(e));
            lemma_concat_all_push(entry_enc(), done, e);
            assert(out@ =~= base + (concat_all(entry_enc(), done) + (text_bytes(e.0)
                + handle_bytes(e.1))));
        }
        i += 1;
    }
    proof {
        assert(all.take(n as int) =~= all);
        lemma_assoc(old(out)@, u64_bytes(n as u64), concat_all(entry_enc(), all));
    }
}

/// Takes the parts of a numeric tensor off the buffer at `pos`. There is
/// none exactly where no valid numeric tensor is encoded there.
pub fn read_numeric(bytes: &[u8], pos: usize) -> (r: Option<(TensorNumeric, usize)>)
    requires
        pos <= bytes@.len(),
    ensures
        match r {
            Some((t, end)) => pos <= end <= bytes@.len() && t.wf() && bytes@.skip(pos as int)
                == numeric_bytes(t@) + bytes@.skip(end as int),
            None => forall|x: TensorNumericView, rest: Seq<u8>|
                x.wf() ==> bytes@.skip(pos as int) != #[trigger] (numeric_bytes(x) + rest),
        },
{
    let ghost s = bytes@.skip(pos as int);
    let (tag, pos1) = match read_u8(bytes, pos) {
        Some(v) => v,
        None => {
            proof {
                assert forall|x: TensorNumericView, rest: Seq<u8>| x.wf() implies s
                    != #[trigger] (numeric_bytes(x) + rest) by {
                    assert((numeric_bytes(x) + rest).len() >= 1);
                }
            }
            return None;
        },
    };
    let ghost s1 = bytes@.skip(pos1 as int);
    let dtype = match dtype_from_tag(tag) {
        Some(d) => d,
        None => {
            proof {
                assert forall|x: TensorNumericView, rest: Seq<u8>| x.wf() implies s
                    != #[trigger] (numeric_bytes(x) + rest) by {
                    if s == numeric_bytes(x) + rest {
                        lemma_numeric_layout(x, rest);
                        lemma_tag_unambiguous(
                            tag,
                            s1,
                            dtype_tag(x.dtype),
                            shape_bytes(x.shape) + (blob_bytes(x.buffer) + rest),
                        );
                    }
                }
            }
            return None;
        },
    };
    let (shape, pos2) = match read_shape(bytes, pos1) {
        Some(v) => v,
        None => {
            proof {
                assert forall|x: TensorNumericView, rest: Seq<u8>| x.wf() implies s
                    != #[trigger] (numeric_bytes(x) + rest) by {
                    if s == numeric_bytes(x) + rest {
                        lemma_numeric_layout(x, rest);
                        lemma_tag_unambiguous(
                            tag,
                            s1,
                            dtype_tag(x.dtype),
                            shape_bytes(x.shape) + (blob_bytes(x.buffer) + rest),
                        );
                        assert(s1 == shape_bytes(x.shape) + (blob_bytes(x.buffer) + rest));
                    }
                }
            }
            return None;
        },
    };
    let ghost s2 = bytes@.skip(pos2 as int);
    let (buffer, pos3) = match read_blob(bytes, pos2) {
        Some(v) => v,
        None => {
            proof {
                assert forall|x: TensorNumericView, rest: Seq<u8>| x.wf() implies s
                    != #[trigger] (numeric_bytes(x) + rest) by {
                    if s == numeric_bytes(x) + rest {
                        lemma_numeric_layout(x, rest);
                        lemma_tag_unambiguous(
                            tag,
                            s1,
                            dtype_tag(x.dtype),
                            shape_bytes(x.shape) + (blob_bytes(x.buffer) + rest),
                        );
                        lemma_shape_unambiguous(
                            shape@,
                            s2,
                            x.shape,
                            blob_bytes(x.buffer) + rest,
                        );
                        assert(s2 == blob_bytes(x.buffer) + rest);
                    }
                }
            }
            return None;
        },
    };
    let ghost got = TensorNumericView { dtype, shape: shape@, buffer: buffer@ };
    proof {
        lemma_numeric_layout(got, bytes@.skip(pos3 as int));
    }
    match TensorNumeric::new(dtype, shape, buffer) {
        Some(t) => Some((t, pos3)),
        None => {
            proof {
                assert forall|x: TensorNumericView, rest: Seq<u8>| x.wf() implies s
                    != #[trigger] (numeric_bytes(x) + rest) by {
                    if s == numeric_bytes(x) + rest {
                        lemma_numeric_layout(x, rest);
                        lemma_tag_unambiguous(
                            tag,
                            s1,
                            dtype_tag(x.dtype),
                            shape_bytes(x.shape) + (blob_bytes(x.buffer) + rest),
                        );
                        lemma_shape_unambiguous(
                            got.shape,
                            s2,
                            x.shape,
                            blob_bytes(x.buffer) + rest,
                        );
                        lemma_blob_unambiguous(
                            got.buffer,
                            bytes@.skip(pos3 as int),
                            x.buffer,
                            rest,
                        );
                        assert(x == got);
                    }
                }
            }
            None
        },
    }
}

/// Takes the parts of a string tensor off the buffer at `pos`. There is
/// none exactly where no valid string tensor is encoded there.
pub fn read_strings(bytes: &[u8], pos: usize) -> (r: Option<(TensorString, usize)>)
    requires
        pos <= bytes@.len(),
    ensures
        match r {
            Some((t, end)) => pos <= end <= bytes@.len() && t.wf() && bytes@.skip(pos as int)
                == strings_bytes(t@) + bytes@.skip(end as int),
            None => forall|x: TensorStringView, rest: Seq<u8>|
                x.wf() ==> bytes@.skip(pos as int) != #[trigger] (strings_bytes(x) + rest),
        },
{
    let ghost s = bytes@.skip(pos as int);
    let (shape, pos1) = match read_shape(bytes, pos) {
        Some(v) => v,
        None => {
            proof {
                assert forall|x: TensorStringView, rest: Seq<u8>| x.wf() implies s
                    != #[trigger] (strings_bytes(x) + rest) by {
                    lemma_assoc(shape_bytes(x.shape), texts_bytes(x.buffer), rest);
                    assert(s != shape_bytes(x.shape) + (texts_bytes(x.buffer) + rest));
                }
            }
            return None;
        },
    };
    let ghost s1 = bytes@.skip(pos1 as int);
    let (buffer, pos2) = match read_texts(bytes, pos1) {
        Some(v) => v,
        None => {
            proof {
                assert forall|x: TensorStringView, rest: Seq<u8>| x.wf() implies s
                    != #[trigger] (strings_bytes(x) + rest) by {
                    if s == strings_bytes(x) + rest {
                        lemma_assoc(shape_bytes(x.shape), texts_bytes(x.buffer), rest);
                        lemma_shape_unambiguous(
                            shape@,
                            s1,
                            x.shape,
                            texts_bytes(x.buffer) + rest,
                        );
                        assert(all_ok(text_ok(), x.buffer));
                        assert(s1 == texts_bytes(x.buffer) + rest);
                    }
                }
            }
            return None;
        },
    };
    let ghost got = TensorStringView { shape: shape@, buffer: buffer.deep_view() };
    proof {
        lemma_assoc(shape_bytes(got.shape), texts_bytes(got.buffer), bytes@.skip(pos2 as int));
    }
    match TensorString::new(shape, buffer) {
        Some(t) => Some((t, pos2)),
        None => {
            proof {
                assert forall|x: TensorStringView, rest: Seq<u8>| x.wf() implies s
                    != #[trigger] (strings_bytes(x) + rest) by {
                    if s == strings_bytes(x) + rest {
                        lemma_assoc(shape_bytes(x.shape), texts_bytes(x.buffer), rest);
                        lemma_shape_unambiguous(
                            got.shape,
                            s1,
                            x.shape,
                            texts_bytes(x.buffer) + rest,
                        );
                        assert(all_ok(text_ok(), x.buffer));
                        lemma_texts_unambiguous(
                            got.buffer,
                            bytes@.skip(pos2 as int),
                            x.buffer,
                            rest,
                        );
                        assert(x == got);
                    }
                }
            }
            None
        },
    }
}

/// The byte a tensor's encoding begins with.
pub open spec fn tensor_tag(t: TensorView) -> u8 {
    match t {
        TensorView::Numeric(_) => 0,
        TensorView::String(_) => 1,
    }
}

/// What follows the first byte of a tensor's encoding.
pub open spec fn tensor_body(t: TensorView) -> Seq<u8> {
    match t {
        TensorView::Numeric(n) => numeric_bytes(n),
        TensorView::String(s) => strings_bytes(s),
    }
}

proof fn lemma_tensor_layout(t: TensorView, rest: Seq<u8>)
    ensures
        tensor_bytes(t) + rest == seq![tensor_tag(t)] + (tensor_body(t) + rest),
{
    lemma_assoc(seq![tensor_tag(t)], tensor_body(t), rest);
}

/// Takes a tensor off the buffer at `pos`. There is none exactly where
/// no valid tensor is encoded there.
pub fn read_tensor(bytes: &[u8], pos: usize) -> (r: Option<(Tensor, usize)>)
    requires
        pos <= bytes@.len(),
    ensures
        match r {
            Some((t, end)) => pos <= end <= bytes@.len() && t.wf() && bytes@.skip(pos as int)
                == tensor_bytes(t@) + bytes@.skip(end as int),
            None => forall|x: TensorView, rest: Seq<u8>|
                x.wf() ==> bytes@.skip(pos as int) != #[trigger] (tensor_bytes(x) + rest),
        },
{
    let ghost s = bytes@.skip(pos as int);
    let (kind, pos1) = match read_u8(bytes, pos) {
        Some(v) => v,
        None => {
            proof {
                assert forall|x: TensorView, rest: Seq<u8>| x.wf() implies s != #[trigger] (
                tensor_bytes(x) + rest) by {
                    lemma_tensor_layout(x, rest);
                    assert((seq![tensor_tag(x)] + (tensor_body(x) + rest)).len() >= 1);
                }
            }
            return None;
        },
    };
    let ghost s1 = bytes@.skip(pos1 as int);
    proof {
        assert forall|x: TensorView, rest: Seq<u8>| s == #[trigger] (tensor_bytes(x)
            + rest) implies tensor_tag(x) == kind && s1 == tensor_body(x) + rest by {
            lemma_tensor_layout(x, rest);
            lemma_tag_unambiguous(kind, s1, tensor_tag(x), tensor_body(x) + rest);
        }
    }
    if kind == 0 {
        match read_numeric(bytes, pos1) {
            Some((t, end)) => {
                proof {
                    lemma_assoc(seq![0u8], numeric_bytes(t@), bytes@.skip(end as int));
                }
                Some((Tensor::Numeric(t), end))
            },
            None => {
                proof {
                    assert forall|x: TensorView, rest: Seq<u8>| x.wf() implies s != #[trigger] (
                    tensor_bytes(x) + rest) by {
                        if s == tensor_bytes(x) + rest {
                            assert(s1 == numeric_bytes(x->Numeric_0) + rest);
                        }
                    }
                }
                None
            },
        }
    } else if kind == 1 {
        match read_strings(bytes, pos1) {
            Some((t, end)) => {
                proof {
                    lemma_assoc(seq![1u8], strings_bytes(t@), bytes@.skip(end as int));
                }
                Some((Tensor::String(t), end))
            },
            None => {
                proof {
                    assert forall|x: TensorView, rest: Seq<u8>| x.wf() implies s != #[trigger] (
                    tensor_bytes(x) + rest) by {
                        if s == tensor_bytes(x) + rest {
                            assert(s1 == strings_bytes(x->String_0) + rest);
                        }
                    }
                }
                None
            },
        }
    } else {
        None
    }
}

/// Takes a handle off the buffer at `pos`. There is none exactly where
/// no valid handle is encoded there.
pub fn read_handle(bytes: &[u8], pos: usize) -> (r: Option<(Handle<Tensor>, usize)>)
    requires
        pos <= bytes@.len(),
    ensures
        match r {
            Some((h, end)) => pos <= end <= bytes@.len() && handle_wf(h@) && bytes@.skip(
                pos as int,
            ) == handle_bytes(h@) + bytes@.skip(end as int),
            None => forall|x: HandleView<TensorView>, rest: Seq<u8>|
                handle_wf(x) ==> bytes@.skip(pos as int) != #[trigger] (handle_bytes(x) + rest),
        },
{
    let ghost s = bytes@.skip(pos as int);
    let (kind, pos1) = match read_u8(bytes, pos) {
        Some(v) => v,
        None => {
            proof {
                assert forall|x: HandleView<TensorView>, rest: Seq<u8>| handle_wf(x) implies s
                    != #[trigger] (handle_bytes(x) + rest) by {
                    lemma_handle_layout(x, rest);
                    assert((seq![handle_tag(x)] + (handle_body(x) + rest)).len() >= 1);
                }
            }
            return None;
        },
    };
    let ghost s1 = bytes@.skip(pos1 as int);
    proof {
        assert forall|x: HandleView<TensorView>, rest: Seq<u8>| s == #[trigger] (handle_bytes(x)
            + rest) implies handle_tag(x) == kind && s1 == handle_body(x) + rest by {
            lemma_handle_layout(x, rest);
            lemma_tag_unambiguous(kind, s1, handle_tag(x), handle_body(x) + rest);
        }
    }
    if kind == 0 {
        let (fd, pos2) = match read_u64(bytes, pos1) {
            Some(v) => v,
            None => {
                proof {
                    assert forall|x: HandleView<TensorView>, rest: Seq<u8>|
                        handle_wf(x) implies s != #[trigger] (handle_bytes(x) + rest) by {
                        if s == handle_bytes(x) + rest {
                            lemma_u64_bytes_len(x->Shared_fd_id.0);
                            assert(s1.len() == bytes@.len() - pos1);
                            assert((handle_body(x) + rest).len() >= 8);
                        }
                    }
                }
                return None;
            },
        };
        let ghost s2 = bytes@.skip(pos2 as int);
        let (size, pos3) = match read_u64(bytes, pos2) {
            Some(v) => v,
            None => {
                proof {
                    assert forall|x: HandleView<TensorView>, rest: Seq<u8>|
                        handle_wf(x) implies s != #[trigger] (handle_bytes(x) + rest) by {
                        if s == handle_bytes(x) + rest {
                            let f = x->Shared_fd_id.0;
                            let n = x->Shared_size_bytes;
                            lemma_assoc(u64_bytes(f), u64_bytes(n), rest);
                            lemma_u64_unambiguous(fd, s2, f, u64_bytes(n) + rest);
                            lemma_u64_bytes_len(n);
                            assert(s2.len() == bytes@.len() - pos2);
                            assert((u64_bytes(n) + rest).len() >= 8);
                        }
                    }
                }
                return None;
            },
        };
        let h: Handle<Tensor> = Handle::shared(FdId(fd), size);
        proof {
            lemma_assoc(u64_bytes(fd), u64_bytes(size), bytes@.skip(pos3 as int));
            lemma_assoc(seq![0u8], u64_bytes(fd) + u64_bytes(size), bytes@.skip(pos3 as int));
        }
        Some((h, pos3))
    } else if kind == 1 {
        match read_tensor(bytes, pos1) {
            Some((t, end)) => {
                proof {
                    lemma_assoc(seq![1u8], tensor_bytes(t@), bytes@.skip(end as int));
                }
                Some((Handle::inline(t), end))
            },
            None => {
                proof {
                    assert forall|x: HandleView<TensorView>, rest: Seq<u8>|
                        handle_wf(x) implies s != #[trigger] (handle_bytes(x) + rest) by {
                        if s == handle_bytes(x) + rest {
                            assert(s1 == tensor_bytes(x->Inline_inner) + rest);
                        }
                    }
                }
                None
            },
        }
    } else {
        None
    }
}

/// Takes a named set of handles off the buffer at `pos`. There is none
/// exactly where no valid set is encoded there: also where a name
/// occurs twice.
pub fn read_entries(bytes: &[u8], pos: usize) -> (r: Option<(TensorMap, usize)>)
    requires
        pos <= bytes@.len(),
    ensures
        match r {
            Some((m, end)) => pos <= end <= bytes@.len() && m.wf() && bytes@.skip(pos as int)
                == entries_bytes(m@) + bytes@.skip(end as int),
            None => forall|x: Seq<NamedHandle>, rest: Seq<u8>|
                entries_wf(x) ==> bytes@.skip(pos as int) != #[trigger] (entries_bytes(x) + rest),
        },
{
    let ghost s = bytes@.skip(pos as int);
    let (n, start) = match read_u64(bytes, pos) {
        Some(v) => v,
        None => {
            proof {
                assert forall|x: Seq<NamedHandle>, rest: Seq<u8>| entries_wf(x) implies s
                    != #[trigger] (entries_bytes(x) + rest) by {
                    lemma_u64_bytes_len(x.len() as u64);
                    assert((entries_bytes(x) + rest).len() >= 8);
                    assert(s.len() == bytes@.len() - pos);
                }
            }
            return None;
        },
    };
    let ghost s1 = bytes@.skip(start as int);
    let mut m = TensorMap::new();
    let mut at: usize = start;
    let mut i: u64 = 0;
    proof {
        assert(concat_all(entry_enc(), m@) + s1 =~= s1);
        lemma_entry_unambiguous();
        assert forall|x: Seq<NamedHandle>, rest: Seq<u8>| entries_wf(x) && s == #[trigger] (
        entries_bytes(x) + rest) implies x.len() == n && s1 == concat_all(entry_enc(), x)
            + rest by {
            lemma_assoc(u64_bytes(x.len() as u64), concat_all(entry_enc(), x), rest);
            lemma_u64_unambiguous(n, s1, x.len() as u64, concat_all(entry_enc(), x) + rest);
        }
    }
    while i < n
        invariant
            i <= n,
            m@.len() == i,
            m.wf(),
            start <= at <= bytes@.len(),
            s == u64_bytes(n) + s1,
            s == bytes@.skip(pos as int),
            s1 == concat_all(entry_enc(), m@) + bytes@.skip(at as int),
            unambiguous(entry_enc(), entry_ok()),
            forall|x: Seq<NamedHandle>, rest: Seq<u8>|
                entries_wf(x) && s == #[trigger] (entries_bytes(x) + rest) ==> x.len() == n && s1
                    == concat_all(entry_enc(), x) + rest,
        decreases n - i,
    {
        let ghost done = m@;
        let ghost here = bytes@.skip(at as int);
        let (name, pos1) = match read_text(bytes, at) {
            Some(v) => v,
            None => {
                proof {
                    assert forall|x: Seq<NamedHandle>, rest: Seq<u8>| entries_wf(x) implies s
                        != #[trigger] (entries_bytes(x) + rest) by {
                        if s == entries_bytes(x) + rest {
                            lemma_list_next_item(entry_enc(), entry_ok(), done, here, x, rest);
                            let e = x[i as int];
                            let after = concat_all(entry_enc(), x.skip(i as int + 1)) + rest;
                            lemma_assoc(text_bytes(e.0), handle_bytes(e.1), after);
                            assert(here == text_bytes(e.0) + (handle_bytes(e.1) + after));
                        }
                    }
                }
                return None;
            },
        };
        let ghost mid = bytes@.skip(pos1 as int);
        let (handle, pos2) = match read_handle(bytes, pos1) {
            Some(v) => v,
            None => {
                proof {
                    assert forall|x: Seq<NamedHandle>, rest: Seq<u8>| entries_wf(x) implies s
                        != #[trigger] (entries_bytes(x) + rest) by {
                        if s == entries_bytes(x) + rest {
                            lemma_list_next_item(entry_enc(), entry_ok(), done, here, x, rest);
                            let e = x[i as int];
                            let after = concat_all(entry_enc(), x.skip(i as int + 1)) + rest;
                            lemma_assoc(text_bytes(e.0), handle_bytes(e.1), after);
                            lemma_text_unambiguous(
                                name@,
                                mid,
                                e.0,
                                handle_bytes(e.1) + after,
                            );
                            assert(mid == handle_bytes(e.1) + after);
                        }
                    }
                }
                return None;
            },
        };
        let ghost entry = (name@, handle@);
        proof {
            lemma_assoc(text_bytes(entry.0), handle_bytes(entry.1), bytes@.skip(pos2 as int));
        }
        match m.insert(name, handle) {
            None => {},
            Some(_) => {
                proof {
                    assert forall|x: Seq<NamedHandle>, rest: Seq<u8>| entries_wf(x) implies s
                        != #[trigger] (entries_bytes(x) + rest) by {
                        if s == entries_bytes(x) + rest {
                            lemma_list_next_item(entry_enc(), entry_ok(), done, here, x, rest);
                            let e = x[i as int];
                            let after = concat_all(entry_enc(), x.skip(i as int + 1)) + rest;
                            lemma_assoc(text_bytes(e.0), handle_bytes(e.1), after);
                            lemma_text_unambiguous(
                                entry.0,
                                mid,
                                e.0,
                                handle_bytes(e.1) + after,
                            );
                            let k = choose|k: int|
                                0 <= k < done.len() && (#[trigger] done[k]).0 == entry.0;
                            assert(x.take(i as int)[k] == x[k]);
                            assert(x[k].0 == x[i as int].0);
                        }
                    }
                }
                return None;
            },
        }
        proof {
            lemma_concat_all_push(entry_enc(), done, entry);
            assert(s1 =~= concat_all(entry_enc(), done.push(entry)) + bytes@.skip(pos2 as int));
        }
        at = pos2;
        i += 1;
    }
    proof {
        lemma_assoc(u64_bytes(n), concat_all(entry_enc(), m@), bytes@.skip(at as int));
    }
    Some((m, at))
}

} // verus!
