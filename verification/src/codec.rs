//! The building blocks of the byte encoding: single bytes, 64-bit
//! integers, byte strings, text, and lists of items.
//!
//! Every integer is written as eight bytes, least significant first. A byte
//! string is its length as such an integer and the bytes; text is the byte
//! string of its UTF-8 encoding. A list is its items one after another.
//!
//! Each encoding here is unambiguous: where two encoded values, each
//! followed by any bytes whatever, give the same byte sequence, the two
//! values are the same and so is what follows them. A reader can therefore
//! take one value off the front of a buffer without looking ahead, and
//! where it finds none, no value begins there.

use crate::text::{lemma_utf8_injective, text_from_utf8, text_wf};
use vstd::bytes::{
    lemma_auto_spec_u64_to_from_le_bytes, spec_u64_from_le_bytes, spec_u64_to_le_bytes,
    u64_from_le_bytes, u64_to_le_bytes,
};
use vstd::prelude::*;
use vstd::slice::{slice_subrange, slice_to_vec};
use vstd::utf8::encode_utf8;

verus! {

/// Two sequences of one length, each followed by a rest: where the wholes
/// are equal, so are the parts.
pub proof fn lemma_split_same_length(a: Seq<u8>, r1: Seq<u8>, b: Seq<u8>, r2: Seq<u8>)
    requires
        a + r1 == b + r2,
        a.len() == b.len(),
    ensures
        a == b,
        r1 == r2,
{
    let s = a + r1;
    assert(a =~= s.subrange(0, a.len() as int));
    assert(b =~= (b + r2).subrange(0, b.len() as int));
    assert(r1 =~= s.subrange(a.len() as int, s.len() as int));
    assert(r2 =~= (b + r2).subrange(b.len() as int, s.len() as int));
}

/// Joining byte strings does not depend on how they are grouped.
pub proof fn lemma_assoc(a: Seq<u8>, b: Seq<u8>, c: Seq<u8>)
    ensures
        (a + b) + c == a + (b + c),
{
    assert((a + b) + c =~= a + (b + c));
}

/// What is left of a buffer from `pos` on begins with the bytes up to
/// `end`.
pub proof fn lemma_skip_split(s: Seq<u8>, pos: int, end: int)
    requires
        0 <= pos <= end <= s.len(),
    ensures
        s.skip(pos) == s.subrange(pos, end) + s.skip(end),
{
    assert(s.skip(pos) =~= s.subrange(pos, end) + s.skip(end));
}

/// A single byte is unambiguous.
pub proof fn lemma_tag_unambiguous(a: u8, r1: Seq<u8>, b: u8, r2: Seq<u8>)
    requires
        seq![a] + r1 == seq![b] + r2,
    ensures
        a == b,
        r1 == r2,
{
    assert((seq![a] + r1)[0] == a);
    assert((seq![b] + r2)[0] == b);
    lemma_split_same_length(seq![a], r1, seq![b], r2);
}

/// The encoding of a 64-bit integer: eight bytes, least significant first.
pub open spec fn u64_bytes(x: u64) -> Seq<u8> {
    spec_u64_to_le_bytes(x)
}

/// Every integer takes eight bytes.
pub proof fn lemma_u64_bytes_len(x: u64)
    ensures
        u64_bytes(x).len() == 8,
{
    lemma_auto_spec_u64_to_from_le_bytes();
}

/// Two integers that give the same bytes, whatever follows each, are the
/// same integer followed by the same bytes.
pub proof fn lemma_u64_unambiguous(x: u64, r1: Seq<u8>, y: u64, r2: Seq<u8>)
    requires
        u64_bytes(x) + r1 == u64_bytes(y) + r2,
    ensures
        x == y,
        r1 == r2,
{
    lemma_auto_spec_u64_to_from_le_bytes();
    lemma_split_same_length(u64_bytes(x), r1, u64_bytes(y), r2);
    assert(spec_u64_from_le_bytes(spec_u64_to_le_bytes(x)) == x);
    assert(spec_u64_from_le_bytes(spec_u64_to_le_bytes(y)) == y);
}

/// The encoding of a byte string: its length, and the bytes.
pub open spec fn blob_bytes(b: Seq<u8>) -> Seq<u8> {
    u64_bytes(b.len() as u64) + b
}

/// Two byte strings that give the same bytes, whatever follows each,
/// are the same byte string followed by the same bytes.
pub proof fn lemma_blob_unambiguous(x: Seq<u8>, r1: Seq<u8>, y: Seq<u8>, r2: Seq<u8>)
    requires
        x.len() <= u64::MAX,
        y.len() <= u64::MAX,
        blob_bytes(x) + r1 == blob_bytes(y) + r2,
    ensures
        x == y,
        r1 == r2,
{
    lemma_assoc(u64_bytes(x.len() as u64), x, r1);
    lemma_assoc(u64_bytes(y.len() as u64), y, r2);
    lemma_u64_unambiguous(x.len() as u64, x + r1, y.len() as u64, y + r2);
    lemma_split_same_length(x, r1, y, r2);
}

/// The encoding of text: the byte string of its UTF-8 encoding.
pub open spec fn text_bytes(s: Seq<char>) -> Seq<u8> {
    blob_bytes(encode_utf8(s))
}

/// Two texts that give the same bytes, whatever follows each, are the
/// same text followed by the same bytes.
pub proof fn lemma_text_unambiguous(x: Seq<char>, r1: Seq<u8>, y: Seq<char>, r2: Seq<u8>)
    requires
        text_wf(x),
        text_wf(y),
        text_bytes(x) + r1 == text_bytes(y) + r2,
    ensures
        x == y,
        r1 == r2,
{
    lemma_blob_unambiguous(encode_utf8(x), r1, encode_utf8(y), r2);
    lemma_utf8_injective(x, y);
}

/// The encoding of optional text: a zero byte for none, else a one byte
/// and the text.
pub open spec fn opt_text_bytes(t: Option<Seq<char>>) -> Seq<u8> {
    match t {
        None => seq![0u8],
        Some(s) => seq![1u8] + text_bytes(s),
    }
}

/// Two optional texts that give the same bytes, whatever follows each,
/// are the same followed by the same bytes.
pub proof fn lemma_opt_text_unambiguous(
    x: Option<Seq<char>>,
    r1: Seq<u8>,
    y: Option<Seq<char>>,
    r2: Seq<u8>,
)
    requires
        x matches Some(s) ==> text_wf(s),
        y matches Some(s) ==> text_wf(s),
        opt_text_bytes(x) + r1 == opt_text_bytes(y) + r2,
    ensures
        x == y,
        r1 == r2,
{
    let a = opt_text_bytes(x) + r1;
    let b = opt_text_bytes(y) + r2;
    assert(a[0] == b[0]);
    match (x, y) {
        (Some(s), Some(t)) => {
            lemma_assoc(seq![1u8], text_bytes(s), r1);
            lemma_assoc(seq![1u8], text_bytes(t), r2);
            lemma_split_same_length(seq![1u8], text_bytes(s) + r1, seq![1u8], text_bytes(t) + r2);
            lemma_text_unambiguous(s, r1, t, r2);
        },
        (None, None) => {
            lemma_split_same_length(seq![0u8], r1, seq![0u8], r2);
        },
        _ => {
            assert(opt_text_bytes(x)[0] != opt_text_bytes(y)[0]);
        },
    }
}

/// Appends one byte.
pub fn write_u8(out: &mut Vec<u8>, b: u8)
    ensures
        final(out)@ == old(out)@ + seq![b],
{
    out.push(b);
    assert(out@ =~= old(out)@ + seq![b]);
}

/// Appends the encoding of a 64-bit integer.
pub fn write_u64(out: &mut Vec<u8>, x: u64)
    ensures
        final(out)@ == old(out)@ + u64_bytes(x),
{
    let mut b = u64_to_le_bytes(x);
    out.append(&mut b);
}

/// Appends the encoding of a byte string.
pub fn write_blob(out: &mut Vec<u8>, b: &[u8])
    ensures
        final(out)@ == old(out)@ + blob_bytes(b@),
        b@.len() <= u64::MAX,
{
    write_u64(out, b.len() as u64);
    out.extend_from_slice(b);
    proof {
        lemma_assoc(old(out)@, u64_bytes(b@.len() as u64), b@);
    }
}

/// Appends the encoding of text.
pub fn write_text(out: &mut Vec<u8>, s: &str)
    ensures
        final(out)@ == old(out)@ + text_bytes(s@),
        text_wf(s@),
{
    write_blob(out, s.as_bytes());
}

/// Appends the encoding of optional text.
pub fn write_opt_text(out: &mut Vec<u8>, t: &Option<String>)
    ensures
        final(out)@ == old(out)@ + opt_text_bytes(t.deep_view()),
        t matches Some(s) ==> text_wf(s@),
{
    match t {
        None => {
            write_u8(out, 0);
        },
        Some(s) => {
            write_u8(out, 1);
            write_text(out, s.as_str());
            proof {
                lemma_assoc(old(out)@, seq![1u8], text_bytes(s@));
            }
        },
    }
}

/// Takes one byte off the buffer at `pos`, if one is left.
pub fn read_u8(bytes: &[u8], pos: usize) -> (r: Option<(u8, usize)>)
    requires
        pos <= bytes@.len(),
    ensures
        match r {
            Some((b, end)) => end == pos + 1 && end <= bytes@.len() && bytes@.skip(pos as int)
                == seq![b] + bytes@.skip(end as int),
            None => pos == bytes@.len(),
        },
{
    if pos < bytes.len() {
        let b = bytes[pos];
        proof {
            lemma_skip_split(bytes@, pos as int, pos + 1);
            assert(bytes@.subrange(pos as int, pos + 1) =~= seq![b]);
        }
        Some((b, pos + 1))
    } else {
        None
    }
}

/// Takes a 64-bit integer off the buffer at `pos`, if eight bytes are
/// left.
pub fn read_u64(bytes: &[u8], pos: usize) -> (r: Option<(u64, usize)>)
    requires
        pos <= bytes@.len(),
    ensures
        match r {
            Some((x, end)) => end == pos + 8 && end <= bytes@.len() && bytes@.skip(pos as int)
                == u64_bytes(x) + bytes@.skip(end as int),
            None => bytes@.len() - pos < 8,
        },
{
    if bytes.len() - pos < 8 {
        return None;
    }
    let part = slice_subrange(bytes, pos, pos + 8);
    let x = u64_from_le_bytes(part);
    proof {
        lemma_auto_spec_u64_to_from_le_bytes();
        lemma_skip_split(bytes@, pos as int, pos + 8);
        assert(spec_u64_to_le_bytes(spec_u64_from_le_bytes(part@)) == part@);
    }
    Some((x, pos + 8))
}

/// Takes a byte string off the buffer at `pos`. There is none exactly
/// where the length is cut short or promises more bytes than are left.
pub fn read_blob(bytes: &[u8], pos: usize) -> (r: Option<(Vec<u8>, usize)>)
    requires
        pos <= bytes@.len(),
    ensures
        match r {
            Some((b, end)) => pos <= end <= bytes@.len() && b@.len() <= u64::MAX && bytes@.skip(
                pos as int,
            ) == blob_bytes(b@) + bytes@.skip(end as int),
            None => forall|x: Seq<u8>, rest: Seq<u8>|
                x.len() <= u64::MAX ==> bytes@.skip(pos as int) != #[trigger] (blob_bytes(x)
                    + rest),
        },
{
    let ghost s = bytes@.skip(pos as int);
    let (n, start) = match read_u64(bytes, pos) {
        Some(v) => v,
        None => {
            proof {
                assert forall|x: Seq<u8>, rest: Seq<u8>| x.len() <= u64::MAX implies s
                    != #[trigger] (blob_bytes(x) + rest) by {
                    lemma_u64_bytes_len(x.len() as u64);
                    assert((blob_bytes(x) + rest).len() >= 8);
                    assert(s.len() == bytes@.len() - pos);
                }
            }
            return None;
        },
    };
    if n > (bytes.len() - start) as u64 {
        proof {
            assert forall|x: Seq<u8>, rest: Seq<u8>| x.len() <= u64::MAX implies s
                != #[trigger] (blob_bytes(x) + rest) by {
                if s == blob_bytes(x) + rest {
                    lemma_assoc(u64_bytes(x.len() as u64), x, rest);
                    lemma_u64_unambiguous(
                        n,
                        bytes@.skip(start as int),
                        x.len() as u64,
                        x + rest,
                    );
                    assert(bytes@.skip(start as int).len() == bytes@.len() - start);
                    assert((x + rest).len() == x.len() + rest.len());
                }
            }
        }
        return None;
    }
    let end: usize = start + n as usize;
    let b = slice_to_vec(slice_subrange(bytes, start, end));
    proof {
        lemma_skip_split(bytes@, start as int, end as int);
        lemma_assoc(u64_bytes(n), b@, bytes@.skip(end as int));
    }
    Some((b, end))
}

/// Takes text off the buffer at `pos`. There is none exactly where no
/// byte string is, or where its bytes are not UTF-8.
pub fn read_text(bytes: &[u8], pos: usize) -> (r: Option<(String, usize)>)
    requires
        pos <= bytes@.len(),
    ensures
        match r {
            Some((t, end)) => pos <= end <= bytes@.len() && text_wf(t@) && bytes@.skip(pos as int)
                == text_bytes(t@) + bytes@.skip(end as int),
            None => forall|x: Seq<char>, rest: Seq<u8>|
                text_wf(x) ==> bytes@.skip(pos as int) != #[trigger] (text_bytes(x) + rest),
        },
{
    let ghost s = bytes@.skip(pos as int);
    let (b, end) = match read_blob(bytes, pos) {
        Some(v) => v,
        None => {
            proof {
                assert forall|x: Seq<char>, rest: Seq<u8>| text_wf(x) implies s != #[trigger] (
                text_bytes(x) + rest) by {
                    assert(s != blob_bytes(encode_utf8(x)) + rest);
                }
            }
            return None;
        },
    };
    let ghost raw = b@;
    match text_from_utf8(b) {
        Some(t) => Some((t, end)),
        None => {
            proof {
                assert forall|x: Seq<char>, rest: Seq<u8>| text_wf(x) implies s != #[trigger] (
                text_bytes(x) + rest) by {
                    if s == text_bytes(x) + rest {
                        lemma_blob_unambiguous(
                            raw,
                            bytes@.skip(end as int),
                            encode_utf8(x),
                            rest,
                        );
                    }
                }
            }
            None
        },
    }
}

/// Takes optional text off the buffer at `pos`.
pub fn read_opt_text(bytes: &[u8], pos: usize) -> (r: Option<(Option<String>, usize)>)
    requires
        pos <= bytes@.len(),
    ensures
        match r {
            Some((t, end)) => pos <= end <= bytes@.len() && (t matches Some(x) ==> text_wf(x@))
                && bytes@.skip(pos as int) == opt_text_bytes(t.deep_view()) + bytes@.skip(
                end as int,
            ),
            None => forall|x: Option<Seq<char>>, rest: Seq<u8>|
                (x matches Some(t) ==> text_wf(t)) ==> bytes@.skip(pos as int) != #[trigger] (
                opt_text_bytes(x) + rest),
        },
{
    let ghost s = bytes@.skip(pos as int);
    let (tag, start) = match read_u8(bytes, pos) {
        Some(v) => v,
        None => {
            proof {
                assert forall|x: Option<Seq<char>>, rest: Seq<u8>|
                    (x matches Some(t) ==> text_wf(t)) implies s != #[trigger] (opt_text_bytes(x)
                    + rest) by {
                    assert((opt_text_bytes(x) + rest).len() >= 1);
                }
            }
            return None;
        },
    };
    if tag == 0 {
        return Some((None, start));
    }
    if tag != 1 {
        proof {
            assert forall|x: Option<Seq<char>>, rest: Seq<u8>|
                (x matches Some(t) ==> text_wf(t)) implies s != #[trigger] (opt_text_bytes(x)
                + rest) by {
                assert((opt_text_bytes(x) + rest)[0] == opt_text_bytes(x)[0]);
                assert(s[0] == tag);
            }
        }
        return None;
    }
    match read_text(bytes, start) {
        Some((t, end)) => {
            proof {
                lemma_assoc(seq![1u8], text_bytes(t@), bytes@.skip(end as int));
            }
            Some((Some(t), end))
        },
        None => {
            proof {
                assert forall|x: Option<Seq<char>>, rest: Seq<u8>|
                    (x matches Some(t) ==> text_wf(t)) implies s != #[trigger] (opt_text_bytes(x)
                    + rest) by {
                    if s == opt_text_bytes(x) + rest {
                        assert((opt_text_bytes(x) + rest)[0] == opt_text_bytes(x)[0]);
                        assert(s[0] == tag);
                        let t = x->Some_0;
                        lemma_assoc(seq![1u8], text_bytes(t), rest);
                        lemma_split_same_length(
                            seq![1u8],
                            bytes@.skip(start as int),
                            seq![1u8],
                            text_bytes(t) + rest,
                        );
                    }
                }
            }
            None
        },
    }
}

/// The encodings of the items of a list, one after another.
pub open spec fn concat_all<T>(enc: spec_fn(T) -> Seq<u8>, items: Seq<T>) -> Seq<u8>
    decreases items.len(),
{
    if items.len() == 0 {
        Seq::empty()
    } else {
        enc(items.first()) + concat_all(enc, items.drop_first())
    }
}

/// Whether every item of the list meets `ok`.
pub open spec fn all_ok<T>(ok: spec_fn(T) -> bool, items: Seq<T>) -> bool {
    forall|i: int| 0 <= i < items.len() ==> ok(#[trigger] items[i])
}

/// An encoding is unambiguous on the values that meet `ok` if two encoded
/// values that give the same bytes, whatever follows each, are the same
/// value followed by the same bytes.
pub open spec fn unambiguous<T>(enc: spec_fn(T) -> Seq<u8>, ok: spec_fn(T) -> bool) -> bool {
    forall|x: T, r1: Seq<u8>, y: T, r2: Seq<u8>|
        ok(x) && ok(y) && #[trigger] (enc(x) + r1) == #[trigger] (enc(y) + r2) ==> x == y && r1
            == r2
}

/// The encoding of a list: the number of its items, and the items.
pub open spec fn list_bytes<T>(enc: spec_fn(T) -> Seq<u8>, items: Seq<T>) -> Seq<u8> {
    u64_bytes(items.len() as u64) + concat_all(enc, items)
}

/// The items of a list with one more item are the items of the list and
/// that item.
pub proof fn lemma_concat_all_push<T>(enc: spec_fn(T) -> Seq<u8>, items: Seq<T>, x: T)
    ensures
        concat_all(enc, items.push(x)) == concat_all(enc, items) + enc(x),
    decreases items.len(),
{
    let more = items.push(x);
    if items.len() == 0 {
        assert(more.drop_first() =~= Seq::<T>::empty());
        assert(concat_all(enc, more.drop_first()) =~= Seq::<u8>::empty());
        assert(enc(x) + Seq::<u8>::empty() =~= Seq::<u8>::empty() + enc(x));
    } else {
        assert(more.drop_first() =~= items.drop_first().push(x));
        lemma_concat_all_push(enc, items.drop_first(), x);
        lemma_assoc(enc(items.first()), concat_all(enc, items.drop_first()), enc(x));
    }
}

/// Lists of one length with unambiguous items are unambiguous.
pub proof fn lemma_concat_all_unambiguous<T>(
    enc: spec_fn(T) -> Seq<u8>,
    ok: spec_fn(T) -> bool,
    a: Seq<T>,
    r1: Seq<u8>,
    b: Seq<T>,
    r2: Seq<u8>,
)
    requires
        unambiguous(enc, ok),
        a.len() == b.len(),
        all_ok(ok, a),
        all_ok(ok, b),
        concat_all(enc, a) + r1 == concat_all(enc, b) + r2,
    ensures
        a == b,
        r1 == r2,
    decreases a.len(),
{
    if a.len() == 0 {
        assert(concat_all(enc, a) + r1 =~= r1);
        assert(concat_all(enc, b) + r2 =~= r2);
        assert(a =~= b);
    } else {
        let ta = a.drop_first();
        let tb = b.drop_first();
        lemma_assoc(enc(a.first()), concat_all(enc, ta), r1);
        lemma_assoc(enc(b.first()), concat_all(enc, tb), r2);
        assert(ok(a[0]) && ok(b[0]));
        assert(enc(a.first()) + (concat_all(enc, ta) + r1) == enc(b.first()) + (concat_all(
            enc,
            tb,
        ) + r2));
        assert(a.first() == b.first());
        assert(concat_all(enc, ta) + r1 == concat_all(enc, tb) + r2);
        assert forall|i: int| 0 <= i < ta.len() implies ok(#[trigger] ta[i]) by {
            assert(ta[i] == a[i + 1]);
        }
        assert forall|i: int| 0 <= i < tb.len() implies ok(#[trigger] tb[i]) by {
            assert(tb[i] == b[i + 1]);
        }
        lemma_concat_all_unambiguous(enc, ok, ta, r1, tb, r2);
        assert(a =~= seq![a.first()] + ta);
        assert(b =~= seq![b.first()] + tb);
    }
}

/// A list is its first `i` items followed by the others.
pub proof fn lemma_concat_all_split<T>(enc: spec_fn(T) -> Seq<u8>, items: Seq<T>, i: int)
    requires
        0 <= i <= items.len(),
    ensures
        concat_all(enc, items) == concat_all(enc, items.take(i)) + concat_all(enc, items.skip(i)),
    decreases i,
{
    if i == 0 {
        assert(items.take(0) =~= Seq::<T>::empty());
        assert(items.skip(0) =~= items);
        assert(Seq::<u8>::empty() + concat_all(enc, items) =~= concat_all(enc, items));
    } else {
        let tail = items.drop_first();
        lemma_concat_all_split(enc, tail, i - 1);
        assert(items.take(i).drop_first() =~= tail.take(i - 1));
        assert(items.skip(i) =~= tail.skip(i - 1));
        assert(items.take(i).first() == items.first());
        lemma_assoc(
            enc(items.first()),
            concat_all(enc, tail.take(i - 1)),
            concat_all(enc, tail.skip(i - 1)),
        );
    }
}

/// Where the first items of a list have been read and bytes are left,
/// the next item of any list that the bytes hold begins there.
pub proof fn lemma_list_next_item<T>(
    enc: spec_fn(T) -> Seq<u8>,
    ok: spec_fn(T) -> bool,
    done: Seq<T>,
    here: Seq<u8>,
    whole: Seq<T>,
    rest: Seq<u8>,
)
    requires
        unambiguous(enc, ok),
        done.len() < whole.len(),
        all_ok(ok, done),
        all_ok(ok, whole),
        concat_all(enc, done) + here == concat_all(enc, whole) + rest,
    ensures
        done == whole.take(done.len() as int),
        here == enc(whole[done.len() as int]) + (concat_all(
            enc,
            whole.skip(done.len() as int + 1),
        ) + rest),
{
    let i = done.len() as int;
    let head = whole.take(i);
    let tail = whole.skip(i);
    lemma_concat_all_split(enc, whole, i);
    lemma_assoc(concat_all(enc, head), concat_all(enc, tail), rest);
    assert forall|k: int| 0 <= k < head.len() implies ok(#[trigger] head[k]) by {
        assert(head[k] == whole[k]);
    }
    lemma_concat_all_unambiguous(enc, ok, done, here, head, concat_all(enc, tail) + rest);
    assert(tail.first() == whole[i]);
    assert(tail.drop_first() =~= whole.skip(i + 1));
    lemma_assoc(enc(whole[i]), concat_all(enc, whole.skip(i + 1)), rest);
}

/// Where all items of a list have been read, any list of that length
/// that the bytes hold is the list read.
pub proof fn lemma_list_unambiguous<T>(
    enc: spec_fn(T) -> Seq<u8>,
    ok: spec_fn(T) -> bool,
    a: Seq<T>,
    r1: Seq<u8>,
    b: Seq<T>,
    r2: Seq<u8>,
)
    requires
        unambiguous(enc, ok),
        a.len() <= u64::MAX,
        b.len() <= u64::MAX,
        all_ok(ok, a),
        all_ok(ok, b),
        list_bytes(enc, a) + r1 == list_bytes(enc, b) + r2,
    ensures
        a == b,
        r1 == r2,
{
    lemma_assoc(u64_bytes(a.len() as u64), concat_all(enc, a), r1);
    lemma_assoc(u64_bytes(b.len() as u64), concat_all(enc, b), r2);
    lemma_u64_unambiguous(
        a.len() as u64,
        concat_all(enc, a) + r1,
        b.len() as u64,
        concat_all(enc, b) + r2,
    );
    lemma_concat_all_unambiguous(enc, ok, a, r1, b, r2);
}

/// How one dimension of a shape is encoded.
pub open spec fn dim_enc() -> spec_fn(u64) -> Seq<u8> {
    |d: u64| u64_bytes(d)
}

/// Every dimension can be encoded.
pub open spec fn dim_ok() -> spec_fn(u64) -> bool {
    |d: u64| true
}

/// How one string of a list of strings is encoded.
pub open spec fn text_enc() -> spec_fn(Seq<char>) -> Seq<u8> {
    |s: Seq<char>| text_bytes(s)
}

/// The strings that can be encoded.
pub open spec fn text_ok() -> spec_fn(Seq<char>) -> bool {
    |s: Seq<char>| text_wf(s)
}

/// The encoding of a dimension is unambiguous.
pub proof fn lemma_dim_unambiguous()
    ensures
        unambiguous(dim_enc(), dim_ok()),
{
    assert forall|x: u64, r1: Seq<u8>, y: u64, r2: Seq<u8>|
        #[trigger] (dim_enc()(x) + r1) == #[trigger] (dim_enc()(y) + r2) implies x == y && r1
        == r2 by {
        lemma_u64_unambiguous(x, r1, y, r2);
    }
}

/// The encoding of a string in a list is unambiguous.
pub proof fn lemma_text_enc_unambiguous()
    ensures
        unambiguous(text_enc(), text_ok()),
{
    assert forall|x: Seq<char>, r1: Seq<u8>, y: Seq<char>, r2: Seq<u8>|
        text_ok()(x) && text_ok()(y) && #[trigger] (text_enc()(x) + r1) == #[trigger] (
        text_enc()(y) + r2) implies x == y && r1 == r2 by {
        lemma_text_unambiguous(x, r1, y, r2);
    }
}

/// The encoding of a shape: the list of its dimensions.
pub open spec fn shape_bytes(shape: Seq<u64>) -> Seq<u8> {
    list_bytes(dim_enc(), shape)
}

/// The encoding of a list of strings.
pub open spec fn texts_bytes(texts: Seq<Seq<char>>) -> Seq<u8> {
    list_bytes(text_enc(), texts)
}

/// Appends the encoding of a shape.
pub fn write_shape(out: &mut Vec<u8>, shape: &Vec<u64>)
    ensures
        final(out)@ == old(out)@ + shape_bytes(shape@),
        shape@.len() <= u64::MAX,
{
    let n: usize = shape.len();
    write_u64(out, n as u64);
    let ghost base = out@;
    let mut i: usize = 0;
    while i < n
        invariant
            i <= n == shape@.len(),
            out@ == base + concat_all(dim_enc(), shape@.take(i as int)),
        decreases n - i,
    {
        write_u64(out, shape[i]);
        proof {
            let done = shape@.take(i as int);
            assert(shape@.take(i + 1) =~= done.push(shape@[i as int]));
            lemma_concat_all_push(dim_enc(), done, shape@[i as int]);
            lemma_assoc(base, concat_all(dim_enc(), done), u64_bytes(shape@[i as int]));
        }
        i += 1;
    }
    proof {
        assert(shape@.take(n as int) =~= shape@);
        lemma_assoc(old(out)@, u64_bytes(n as u64), concat_all(dim_enc(), shape@));
    }
}

/// Appends the encoding of a list of strings.
pub fn write_texts(out: &mut Vec<u8>, texts: &Vec<String>)
    ensures
        final(out)@ == old(out)@ + texts_bytes(texts.deep_view()),
        texts@.len() <= u64::MAX,
        all_ok(text_ok(), texts.deep_view()),
{
    let n: usize = texts.len();
    let ghost all = texts.deep_view();
    write_u64(out, n as u64);
    let ghost base = out@;
    let mut i: usize = 0;
    while i < n
        invariant
            i <= n == texts@.len(),
            all == texts.deep_view(),
            out@ == base + concat_all(text_enc(), all.take(i as int)),
            forall|j: int| 0 <= j < i ==> text_wf(#[trigger] all[j]),
        decreases n - i,
    {
        write_text(out, texts[i].as_str());
        proof {
            let done = all.take(i as int);
            assert(all[i as int] == texts@[i as int]@);
            assert(all.take(i + 1) =~= done.push(all[i as int]));
            lemma_concat_all_push(text_enc(), done, all[i as int]);
            lemma_assoc(base, concat_all(text_enc(), done), text_bytes(all[i as int]));
        }
        i += 1;
    }
    proof {
        assert(all.take(n as int) =~= all);
        lemma_assoc(old(out)@, u64_bytes(n as u64), concat_all(text_enc(), all));
    }
}

/// Takes a shape off the buffer at `pos`. There is none exactly where
/// the count is cut short or fewer dimensions follow than it promises.
pub fn read_shape(bytes: &[u8], pos: usize) -> (r: Option<(Vec<u64>, usize)>)
    requires
        pos <= bytes@.len(),
    ensures
        match r {
            Some((shape, end)) => pos <= end <= bytes@.len() && shape@.len() <= u64::MAX
                && bytes@.skip(pos as int) == shape_bytes(shape@) + bytes@.skip(end as int),
            None => forall|x: Seq<u64>, rest: Seq<u8>|
                x.len() <= u64::MAX ==> bytes@.skip(pos as int) != #[trigger] (shape_bytes(x)
                    + rest),
        },
{
    let ghost s = bytes@.skip(pos as int);
    let (n, start) = match read_u64(bytes, pos) {
        Some(v) => v,
        None => {
            proof {
                assert forall|x: Seq<u64>, rest: Seq<u8>| x.len() <= u64::MAX implies s
                    != #[trigger] (shape_bytes(x) + rest) by {
                    lemma_u64_bytes_len(x.len() as u64);
                    assert((shape_bytes(x) + rest).len() >= 8);
                    assert(s.len() == bytes@.len() - pos);
                }
            }
            return None;
        },
    };
    let ghost s1 = bytes@.skip(start as int);
    let mut shape: Vec<u64> = Vec::new();
    let mut at: usize = start;
    let mut i: u64 = 0;
    proof {
        assert(concat_all(dim_enc(), shape@) + s1 =~= s1);
    }
    while i < n
        invariant
            i <= n,
            shape@.len() == i,
            start <= at <= bytes@.len(),
            s == u64_bytes(n) + s1,
            s == bytes@.skip(pos as int),
            s1 == concat_all(dim_enc(), shape@) + bytes@.skip(at as int),
        decreases n - i,
    {
        let ghost done = shape@;
        match read_u64(bytes, at) {
            Some((d, next)) => {
                shape.push(d);
                proof {
                    lemma_concat_all_push(dim_enc(), done, d);
                    lemma_assoc(
                        concat_all(dim_enc(), done),
                        u64_bytes(d),
                        bytes@.skip(next as int),
                    );
                }
                at = next;
            },
            None => {
                proof {
                    lemma_dim_unambiguous();
                    assert forall|x: Seq<u64>, rest: Seq<u8>| x.len() <= u64::MAX implies s
                        != #[trigger] (shape_bytes(x) + rest) by {
                        if s == shape_bytes(x) + rest {
                            lemma_assoc(
                                u64_bytes(x.len() as u64),
                                concat_all(dim_enc(), x),
                                rest,
                            );
                            lemma_u64_unambiguous(
                                n,
                                s1,
                                x.len() as u64,
                                concat_all(dim_enc(), x) + rest,
                            );
                            lemma_list_next_item(
                                dim_enc(),
                                dim_ok(),
                                done,
                                bytes@.skip(at as int),
                                x,
                                rest,
                            );
                            lemma_u64_bytes_len(x[i as int]);
                            assert(bytes@.skip(at as int).len() == bytes@.len() - at);
                        }
                    }
                }
                return None;
            },
        }
        i += 1;
    }
    proof {
        lemma_assoc(u64_bytes(n), concat_all(dim_enc(), shape@), bytes@.skip(at as int));
    }
    Some((shape, at))
}

/// Takes a list of strings off the buffer at `pos`. There is none exactly
/// where the count is cut short or fewer strings follow than it promises.
pub fn read_texts(bytes: &[u8], pos: usize) -> (r: Option<(Vec<String>, usize)>)
    requires
        pos <= bytes@.len(),
    ensures
        match r {
            Some((texts, end)) => pos <= end <= bytes@.len() && texts@.len() <= u64::MAX
                && all_ok(text_ok(), texts.deep_view()) && bytes@.skip(pos as int) == texts_bytes(
                texts.deep_view(),
            ) + bytes@.skip(end as int),
            None => forall|x: Seq<Seq<char>>, rest: Seq<u8>|
                x.len() <= u64::MAX && all_ok(text_ok(), x) ==> bytes@.skip(pos as int)
                    != #[trigger] (texts_bytes(x) + rest),
        },
{
    let ghost s = bytes@.skip(pos as int);
    let (n, start) = match read_u64(bytes, pos) {
        Some(v) => v,
        None => {
            proof {
                assert forall|x: Seq<Seq<char>>, rest: Seq<u8>|
                    x.len() <= u64::MAX && all_ok(text_ok(), x) implies s != #[trigger] (
                texts_bytes(x) + rest) by {
                    lemma_u64_bytes_len(x.len() as u64);
                    assert((texts_bytes(x) + rest).len() >= 8);
                    assert(s.len() == bytes@.len() - pos);
                }
            }
            return None;
        },
    };
    let ghost s1 = bytes@.skip(start as int);
    let mut texts: Vec<String> = Vec::new();
    let mut at: usize = start;
    let mut i: u64 = 0;
    proof {
        assert(texts.deep_view() =~= Seq::<Seq<char>>::empty());
        assert(concat_all(text_enc(), texts.deep_view()) + s1 =~= s1);
    }
    while i < n
        invariant
            i <= n,
            texts@.len() == i,
            start <= at <= bytes@.len(),
            s == u64_bytes(n) + s1,
            s == bytes@.skip(pos as int),
            all_ok(text_ok(), texts.deep_view()),
            s1 == concat_all(text_enc(), texts.deep_view()) + bytes@.skip(at as int),
        decreases n - i,
    {
        let ghost done = texts.deep_view();
        match read_text(bytes, at) {
            Some((t, next)) => {
                let ghost tv = t@;
                texts.push(t);
                proof {
                    assert(texts.deep_view() =~= done.push(tv));
                    lemma_concat_all_push(text_enc(), done, tv);
                    lemma_assoc(
                        concat_all(text_enc(), done),
                        text_bytes(tv),
                        bytes@.skip(next as int),
                    );
                }
                at = next;
            },
            None => {
                proof {
                    lemma_text_enc_unambiguous();
                    assert forall|x: Seq<Seq<char>>, rest: Seq<u8>|
                        x.len() <= u64::MAX && all_ok(text_ok(), x) implies s != #[trigger] (
                    texts_bytes(x) + rest) by {
                        if s == texts_bytes(x) + rest {
                            lemma_assoc(
                                u64_bytes(x.len() as u64),
                                concat_all(text_enc(), x),
                                rest,
                            );
                            lemma_u64_unambiguous(
                                n,
                                s1,
                                x.len() as u64,
                                concat_all(text_enc(), x) + rest,
                            );
                            lemma_list_next_item(
                                text_enc(),
                                text_ok(),
                                done,
                                bytes@.skip(at as int),
                                x,
                                rest,
                            );
                            let next_rest = concat_all(text_enc(), x.skip(i as int + 1)) + rest;
                            assert(text_wf(x[i as int]));
                            assert(bytes@.skip(at as int) == text_bytes(x[i as int]) + next_rest);
                        }
                    }
                }
                return None;
            },
        }
        i += 1;
    }
    proof {
        lemma_assoc(
            u64_bytes(n),
            concat_all(text_enc(), texts.deep_view()),
            bytes@.skip(at as int),
        );
    }
    Some((texts, at))
}

} // verus!
