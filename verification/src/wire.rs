//! The byte encoding of requests and responses.
//!
//! A message is its id as a 64-bit integer and its payload. A payload is
//! one byte that names the variant, in the order of declaration from 0,
//! and the fields of the variant in the order of declaration. A device is
//! a byte (0 for the CPU, 1 for a GPU) and, for a GPU, the optional
//! identifier.
//!
//! Decoding is the exact inverse of encoding on valid messages: it
//! succeeds on the encodings of valid messages and on nothing else.

use crate::codec::{
    lemma_assoc, lemma_opt_text_unambiguous, lemma_tag_unambiguous, lemma_text_unambiguous,
    lemma_u64_bytes_len, lemma_u64_unambiguous, opt_text_bytes, read_opt_text, read_text,
    read_u64, read_u8, text_bytes, u64_bytes, write_opt_text, write_text, write_u64, write_u8,
};
use crate::error::ConnectionError;
use crate::ids::{FsToken, SealHandle, StreamID};
use crate::message::{
    Device, DeviceView, RPCRequest, RPCRequestData, RPCRequestDataView,
    RPCRequestView, RPCResponse, RPCResponseData, RPCResponseDataView, RPCResponseView,
};
use crate::tensor_wire::{
    entries_bytes, lemma_entries_unambiguous, read_entries, write_entries,
};
use vstd::prelude::*;

verus! {

/// The encoding of a device.
pub open spec fn device_bytes(d: DeviceView) -> Seq<u8> {
    match d {
        DeviceView::CPU => seq![0u8],
        DeviceView::GPU { uuid } => seq![1u8] + opt_text_bytes(uuid),
    }
}

/// The byte that names the variant of a request payload.
pub open spec fn request_tag(d: RPCRequestDataView) -> u8 {
    match d {
        RPCRequestDataView::Load { .. } => 0,
        RPCRequestDataView::Pack { .. } => 1,
        RPCRequestDataView::Seal { .. } => 2,
        RPCRequestDataView::InferWithTensors { .. } => 3,
        RPCRequestDataView::InferWithHandle { .. } => 4,
    }
}

/// The encoding of the fields of a request payload.
pub open spec fn request_body(d: RPCRequestDataView) -> Seq<u8> {
    match d {
        RPCRequestDataView::Load {
            fs,
            runner_name,
            required_framework_version,
            runner_compat_version,
            runner_opts,
            visible_device,
            carton_manifest_hash,
        } => u64_bytes(fs.0.0) + (opt_text_bytes(runner_name) + (opt_text_bytes(
            required_framework_version,
        ) + (u64_bytes(runner_compat_version) + (opt_text_bytes(runner_opts) + (device_bytes(
            visible_device,
        ) + text_bytes(carton_manifest_hash)))))),
        RPCRequestDataView::Pack { fs, input_path, temp_folder } => u64_bytes(fs.0.0) + (
        text_bytes(input_path) + text_bytes(temp_folder)),
        RPCRequestDataView::Seal { tensors } => entries_bytes(tensors),
        RPCRequestDataView::InferWithTensors { tensors } => entries_bytes(tensors),
        RPCRequestDataView::InferWithHandle { handle } => u64_bytes(handle.0),
    }
}

/// The encoding of a request payload.
pub open spec fn request_data_bytes(d: RPCRequestDataView) -> Seq<u8> {
    seq![request_tag(d)] + request_body(d)
}

/// The encoding of a request.
pub open spec fn request_bytes(r: RPCRequestView) -> Seq<u8> {
    u64_bytes(r.id) + request_data_bytes(r.data)
}

/// The byte that names the variant of a response payload.
pub open spec fn response_tag(d: RPCResponseDataView) -> u8 {
    match d {
        RPCResponseDataView::Load { .. } => 0,
        RPCResponseDataView::Pack { .. } => 1,
        RPCResponseDataView::Seal { .. } => 2,
        RPCResponseDataView::Infer { .. } => 3,
        RPCResponseDataView::Error { .. } => 4,
        RPCResponseDataView::SlowLog { .. } => 5,
    }
}

/// The encoding of the fields of a response payload.
pub open spec fn response_body(d: RPCResponseDataView) -> Seq<u8> {
    match d {
        RPCResponseDataView::Load { name, runner } => text_bytes(name) + text_bytes(runner),
        RPCResponseDataView::Pack { output_path } => text_bytes(output_path),
        RPCResponseDataView::Seal { handle } => u64_bytes(handle.0),
        RPCResponseDataView::Infer { tensors } => entries_bytes(tensors),
        RPCResponseDataView::Error { e } => text_bytes(e),
        RPCResponseDataView::SlowLog { e } => text_bytes(e),
    }
}

/// The encoding of a response payload.
pub open spec fn response_data_bytes(d: RPCResponseDataView) -> Seq<u8> {
    seq![response_tag(d)] + response_body(d)
}

/// The encoding of a response.
pub open spec fn response_bytes(r: RPCResponseView) -> Seq<u8> {
    u64_bytes(r.id) + response_data_bytes(r.data)
}

/// Two valid devices that give the same bytes, whatever follows each, are
/// the same device followed by the same bytes.
pub proof fn lemma_device_unambiguous(a: DeviceView, r1: Seq<u8>, b: DeviceView, r2: Seq<u8>)
    requires
        a.wf(),
        b.wf(),
        device_bytes(a) + r1 == device_bytes(b) + r2,
    ensures
        a == b,
        r1 == r2,
{
    match (a, b) {
        (DeviceView::CPU, DeviceView::CPU) => {
            lemma_tag_unambiguous(0u8, r1, 0u8, r2);
        },
        (DeviceView::GPU { uuid: x }, DeviceView::GPU { uuid: y }) => {
            lemma_assoc(seq![1u8], opt_text_bytes(x), r1);
            lemma_assoc(seq![1u8], opt_text_bytes(y), r2);
            lemma_tag_unambiguous(1u8, opt_text_bytes(x) + r1, 1u8, opt_text_bytes(y) + r2);
            lemma_opt_text_unambiguous(x, r1, y, r2);
        },
        (DeviceView::CPU, DeviceView::GPU { uuid: y }) => {
            lemma_assoc(seq![1u8], opt_text_bytes(y), r2);
            lemma_tag_unambiguous(0u8, r1, 1u8, opt_text_bytes(y) + r2);
        },
        (DeviceView::GPU { uuid: x }, DeviceView::CPU) => {
            lemma_assoc(seq![1u8], opt_text_bytes(x), r1);
            lemma_tag_unambiguous(1u8, opt_text_bytes(x) + r1, 0u8, r2);
        },
    }
}

/// What is left of the fields of a `Load` request after the filesystem
/// token, the runner name, and so on in turn.
spec fn load_after_opts(d: RPCRequestDataView) -> Seq<u8> {
    device_bytes(d->visible_device) + text_bytes(d->carton_manifest_hash)
}

spec fn load_after_compat(d: RPCRequestDataView) -> Seq<u8> {
    opt_text_bytes(d->runner_opts) + load_after_opts(d)
}

spec fn load_after_version(d: RPCRequestDataView) -> Seq<u8> {
    u64_bytes(d->runner_compat_version) + load_after_compat(d)
}

spec fn load_after_name(d: RPCRequestDataView) -> Seq<u8> {
    opt_text_bytes(d->required_framework_version) + load_after_version(d)
}

spec fn load_after_fs(d: RPCRequestDataView) -> Seq<u8> {
    opt_text_bytes(d->runner_name) + load_after_name(d)
}

/// Where the bytes of two valid `Load` payloads agree, so do the fields.
proof fn lemma_load_unambiguous(
    a: RPCRequestDataView,
    r1: Seq<u8>,
    b: RPCRequestDataView,
    r2: Seq<u8>,
)
    requires
        a is Load,
        b is Load,
        a.wf(),
        b.wf(),
        request_body(a) + r1 == request_body(b) + r2,
    ensures
        a == b,
        r1 == r2,
{
    lemma_assoc(u64_bytes(a->Load_fs.0.0), load_after_fs(a), r1);
    lemma_assoc(u64_bytes(b->Load_fs.0.0), load_after_fs(b), r2);
    lemma_u64_unambiguous(
        a->Load_fs.0.0,
        load_after_fs(a) + r1,
        b->Load_fs.0.0,
        load_after_fs(b) + r2,
    );
    lemma_assoc(opt_text_bytes(a->runner_name), load_after_name(a), r1);
    lemma_assoc(opt_text_bytes(b->runner_name), load_after_name(b), r2);
    lemma_opt_text_unambiguous(
        a->runner_name,
        load_after_name(a) + r1,
        b->runner_name,
        load_after_name(b) + r2,
    );
    lemma_assoc(opt_text_bytes(a->required_framework_version), load_after_version(a), r1);
    lemma_assoc(opt_text_bytes(b->required_framework_version), load_after_version(b), r2);
    lemma_opt_text_unambiguous(
        a->required_framework_version,
        load_after_version(a) + r1,
        b->required_framework_version,
        load_after_version(b) + r2,
    );
    lemma_assoc(u64_bytes(a->runner_compat_version), load_after_compat(a), r1);
    lemma_assoc(u64_bytes(b->runner_compat_version), load_after_compat(b), r2);
    lemma_u64_unambiguous(
        a->runner_compat_version,
        load_after_compat(a) + r1,
        b->runner_compat_version,
        load_after_compat(b) + r2,
    );
    lemma_assoc(opt_text_bytes(a->runner_opts), load_after_opts(a), r1);
    lemma_assoc(opt_text_bytes(b->runner_opts), load_after_opts(b), r2);
    lemma_opt_text_unambiguous(
        a->runner_opts,
        load_after_opts(a) + r1,
        b->runner_opts,
        load_after_opts(b) + r2,
    );
    lemma_assoc(device_bytes(a->visible_device), text_bytes(a->carton_manifest_hash), r1);
    lemma_assoc(device_bytes(b->visible_device), text_bytes(b->carton_manifest_hash), r2);
    lemma_device_unambiguous(
        a->visible_device,
        text_bytes(a->carton_manifest_hash) + r1,
        b->visible_device,
        text_bytes(b->carton_manifest_hash) + r2,
    );
    lemma_text_unambiguous(a->carton_manifest_hash, r1, b->carton_manifest_hash, r2);
    assert(a->Load_fs == b->Load_fs);
}

/// Two valid request payloads that give the same bytes, whatever follows
/// each, are the same payload followed by the same bytes.
pub proof fn lemma_request_data_unambiguous(
    a: RPCRequestDataView,
    r1: Seq<u8>,
    b: RPCRequestDataView,
    r2: Seq<u8>,
)
    requires
        a.wf(),
        b.wf(),
        request_data_bytes(a) + r1 == request_data_bytes(b) + r2,
    ensures
        a == b,
        r1 == r2,
{
    lemma_assoc(seq![request_tag(a)], request_body(a), r1);
    lemma_assoc(seq![request_tag(b)], request_body(b), r2);
    lemma_tag_unambiguous(request_tag(a), request_body(a) + r1, request_tag(b), request_body(b) + r2);
    match a {
        RPCRequestDataView::Load { .. } => {
            lemma_load_unambiguous(a, r1, b, r2);
        },
        RPCRequestDataView::Pack { fs, input_path, temp_folder } => {
            let after_a = text_bytes(input_path) + text_bytes(temp_folder);
            let after_b = text_bytes(b->input_path) + text_bytes(b->temp_folder);
            lemma_assoc(u64_bytes(fs.0.0), after_a, r1);
            lemma_assoc(u64_bytes(b->Pack_fs.0.0), after_b, r2);
            lemma_u64_unambiguous(fs.0.0, after_a + r1, b->Pack_fs.0.0, after_b + r2);
            lemma_assoc(text_bytes(input_path), text_bytes(temp_folder), r1);
            lemma_assoc(text_bytes(b->input_path), text_bytes(b->temp_folder), r2);
            lemma_text_unambiguous(
                input_path,
                text_bytes(temp_folder) + r1,
                b->input_path,
                text_bytes(b->temp_folder) + r2,
            );
            lemma_text_unambiguous(temp_folder, r1, b->temp_folder, r2);
            assert(fs == b->Pack_fs);
        },
        RPCRequestDataView::Seal { tensors } => {
            lemma_entries_unambiguous(tensors, r1, b->Seal_tensors, r2);
        },
        RPCRequestDataView::InferWithTensors { tensors } => {
            lemma_entries_unambiguous(tensors, r1, b->InferWithTensors_tensors, r2);
        },
        RPCRequestDataView::InferWithHandle { handle } => {
            lemma_u64_unambiguous(handle.0, r1, b->InferWithHandle_handle.0, r2);
        },
    }
}

/// Two valid response payloads that give the same bytes, whatever follows
/// each, are the same payload followed by the same bytes.
pub proof fn lemma_response_data_unambiguous(
    a: RPCResponseDataView,
    r1: Seq<u8>,
    b: RPCResponseDataView,
    r2: Seq<u8>,
)
    requires
        a.wf(),
        b.wf(),
        response_data_bytes(a) + r1 == response_data_bytes(b) + r2,
    ensures
        a == b,
        r1 == r2,
{
    lemma_assoc(seq![response_tag(a)], response_body(a), r1);
    lemma_assoc(seq![response_tag(b)], response_body(b), r2);
    lemma_tag_unambiguous(
        response_tag(a),
        response_body(a) + r1,
        response_tag(b),
        response_body(b) + r2,
    );
    match a {
        RPCResponseDataView::Load { name, runner } => {
            lemma_assoc(text_bytes(name), text_bytes(runner), r1);
            lemma_assoc(text_bytes(b->name), text_bytes(b->runner), r2);
            lemma_text_unambiguous(
                name,
                text_bytes(runner) + r1,
                b->name,
                text_bytes(b->runner) + r2,
            );
            lemma_text_unambiguous(runner, r1, b->runner, r2);
        },
        RPCResponseDataView::Pack { output_path } => {
            lemma_text_unambiguous(output_path, r1, b->output_path, r2);
        },
        RPCResponseDataView::Seal { handle } => {
            lemma_u64_unambiguous(handle.0, r1, b->handle.0, r2);
        },
        RPCResponseDataView::Infer { tensors } => {
            lemma_entries_unambiguous(tensors, r1, b->tensors, r2);
        },
        RPCResponseDataView::Error { e } => {
            lemma_text_unambiguous(e, r1, b->Error_e, r2);
        },
        RPCResponseDataView::SlowLog { e } => {
            lemma_text_unambiguous(e, r1, b->SlowLog_e, r2);
        },
    }
}

/// No two valid requests have the same encoding.
pub proof fn lemma_request_bytes_injective(a: RPCRequestView, b: RPCRequestView)
    requires
        a.wf(),
        b.wf(),
        request_bytes(a) == request_bytes(b),
    ensures
        a == b,
{
    let e = Seq::<u8>::empty();
    lemma_assoc(u64_bytes(a.id), request_data_bytes(a.data), e);
    lemma_assoc(u64_bytes(b.id), request_data_bytes(b.data), e);
    lemma_u64_unambiguous(
        a.id,
        request_data_bytes(a.data) + e,
        b.id,
        request_data_bytes(b.data) + e,
    );
    lemma_request_data_unambiguous(a.data, e, b.data, e);
}

/// No two valid responses have the same encoding.
pub proof fn lemma_response_bytes_injective(a: RPCResponseView, b: RPCResponseView)
    requires
        a.wf(),
        b.wf(),
        response_bytes(a) == response_bytes(b),
    ensures
        a == b,
{
    let e = Seq::<u8>::empty();
    lemma_assoc(u64_bytes(a.id), response_data_bytes(a.data), e);
    lemma_assoc(u64_bytes(b.id), response_data_bytes(b.data), e);
    lemma_u64_unambiguous(
        a.id,
        response_data_bytes(a.data) + e,
        b.id,
        response_data_bytes(b.data) + e,
    );
    lemma_response_data_unambiguous(a.data, e, b.data, e);
}

/// Appends the encoding of a device.
pub fn write_device(out: &mut Vec<u8>, d: &Device)
    ensures
        final(out)@ == old(out)@ + device_bytes(d@),
{
    match d {
        Device::CPU => {
            write_u8(out, 0);
        },
        Device::GPU { uuid } => {
            write_u8(out, 1);
            write_opt_text(out, uuid);
            proof {
                lemma_assoc(old(out)@, seq![1u8], opt_text_bytes(uuid.deep_view()));
            }
        },
    }
}

/// Appends the encoding of the fields of a `Load` request.
fn write_load(out: &mut Vec<u8>, d: &RPCRequestData)
    requires
        d is Load,
    ensures
        final(out)@ == old(out)@ + request_body(d@),
{
    let ghost v = d@;
    let ghost o0 = out@;
    match d {
        RPCRequestData::Load {
            fs,
            runner_name,
            required_framework_version,
            runner_compat_version,
            runner_opts,
            visible_device,
            carton_manifest_hash,
        } => {
            write_u64(out, fs.0.0);
            let ghost o1 = out@;
            write_opt_text(out, runner_name);
            let ghost o2 = out@;
            write_opt_text(out, required_framework_version);
            let ghost o3 = out@;
            write_u64(out, *runner_compat_version);
            let ghost o4 = out@;
            write_opt_text(out, runner_opts);
            let ghost o5 = out@;
            write_device(out, visible_device);
            write_text(out, carton_manifest_hash.as_str());
            proof {
                lemma_assoc(
                    o5,
                    device_bytes(v->visible_device),
                    text_bytes(v->carton_manifest_hash),
                );
                lemma_assoc(o4, opt_text_bytes(v->runner_opts), load_after_opts(v));
                lemma_assoc(o3, u64_bytes(v->runner_compat_version), load_after_compat(v));
                lemma_assoc(
                    o2,
                    opt_text_bytes(v->required_framework_version),
                    load_after_version(v),
                );
                lemma_assoc(o1, opt_text_bytes(v->runner_name), load_after_name(v));
                lemma_assoc(o0, u64_bytes(v->Load_fs.0.0), load_after_fs(v));
            }
        },
        _ => {},
    }
}

/// Appends the encoding of a request payload.
pub fn write_request_data(out: &mut Vec<u8>, d: &RPCRequestData)
    ensures
        final(out)@ == old(out)@ + request_data_bytes(d@),
{
    let ghost base = out@;
    match d {
        RPCRequestData::Load { .. } => {
            write_u8(out, 0);
            write_load(out, d);
        },
        RPCRequestData::Pack { fs, input_path, temp_folder } => {
            write_u8(out, 1);
            let ghost o0 = out@;
            write_u64(out, fs.0.0);
            let ghost o1 = out@;
            write_text(out, input_path.as_str());
            write_text(out, temp_folder.as_str());
            proof {
                lemma_assoc(o1, text_bytes(input_path@), text_bytes(temp_folder@));
                lemma_assoc(
                    o0,
                    u64_bytes(fs.0.0),
                    text_bytes(input_path@) + text_bytes(temp_folder@),
                );
            }
        },
        RPCRequestData::Seal { tensors } => {
            write_u8(out, 2);
            write_entries(out, tensors);
        },
        RPCRequestData::InferWithTensors { tensors } => {
            write_u8(out, 3);
            write_entries(out, tensors);
        },
        RPCRequestData::InferWithHandle { handle } => {
            write_u8(out, 4);
            write_u64(out, handle.0);
        },
    }
    proof {
        lemma_assoc(base, seq![request_tag(d@)], request_body(d@));
    }
}

/// Appends the encoding of a response payload.
pub fn write_response_data(out: &mut Vec<u8>, d: &RPCResponseData)
    ensures
        final(out)@ == old(out)@ + response_data_bytes(d@),
{
    let ghost base = out@;
    match d {
        RPCResponseData::Load { name, runner } => {
            write_u8(out, 0);
            let ghost o0 = out@;
            write_text(out, name.as_str());
            write_text(out, runner.as_str());
            proof {
                lemma_assoc(o0, text_bytes(name@), text_bytes(runner@));
            }
        },
        RPCResponseData::Pack { output_path } => {
            write_u8(out, 1);
            write_text(out, output_path.as_str());
        },
        RPCResponseData::Seal { handle } => {
            write_u8(out, 2);
            write_u64(out, handle.0);
        },
        RPCResponseData::Infer { tensors } => {
            write_u8(out, 3);
            write_entries(out, tensors);
        },
        RPCResponseData::Error { e } => {
            write_u8(out, 4);
            write_text(out, e.as_str());
        },
        RPCResponseData::SlowLog { e } => {
            write_u8(out, 5);
            write_text(out, e.as_str());
        },
    }
    proof {
        lemma_assoc(base, seq![response_tag(d@)], response_body(d@));
    }
}

/// Encodes a request.
pub fn encode_request(req: &RPCRequest) -> (out: Vec<u8>)
    ensures
        out@ == request_bytes(req@),
{
    let mut out: Vec<u8> = Vec::new();
    write_u64(&mut out, req.id);
    write_request_data(&mut out, &req.data);
    assert(out@ =~= request_bytes(req@));
    out
}

/// Encodes a response.
pub fn encode_response(resp: &RPCResponse) -> (out: Vec<u8>)
    ensures
        out@ == response_bytes(resp@),
{
    let mut out: Vec<u8> = Vec::new();
    write_u64(&mut out, resp.id);
    write_response_data(&mut out, &resp.data);
    assert(out@ =~= response_bytes(resp@));
    out
}

/// Takes a device off the buffer at `pos`. There is none exactly where
/// no valid device is encoded there.
pub fn read_device(bytes: &[u8], pos: usize) -> (r: Option<(Device, usize)>)
    requires
        pos <= bytes@.len(),
    ensures
        match r {
            Some((d, end)) => pos <= end <= bytes@.len() && d@.wf() && bytes@.skip(pos as int)
                == device_bytes(d@) + bytes@.skip(end as int),
            None => forall|x: DeviceView, rest: Seq<u8>|
                x.wf() ==> bytes@.skip(pos as int) != #[trigger] (device_bytes(x) + rest),
        },
{
    let ghost s = bytes@.skip(pos as int);
    let (tag, pos1) = match read_u8(bytes, pos) {
        Some(v) => v,
        None => {
            proof {
                assert forall|x: DeviceView, rest: Seq<u8>| x.wf() implies s != #[trigger] (
                device_bytes(x) + rest) by {
                    assert((device_bytes(x) + rest).len() >= 1);
                }
            }
            return None;
        },
    };
    let ghost s1 = bytes@.skip(pos1 as int);
    proof {
        assert forall|x: DeviceView, rest: Seq<u8>| s == #[trigger] (device_bytes(x)
            + rest) implies match x {
            DeviceView::CPU => tag == 0 && s1 == rest,
            DeviceView::GPU { uuid } => tag == 1 && s1 == opt_text_bytes(uuid) + rest,
        } by {
            match x {
                DeviceView::CPU => {
                    lemma_tag_unambiguous(tag, s1, 0u8, rest);
                },
                DeviceView::GPU { uuid } => {
                    lemma_assoc(seq![1u8], opt_text_bytes(uuid), rest);
                    lemma_tag_unambiguous(tag, s1, 1u8, opt_text_bytes(uuid) + rest);
                },
            }
        }
    }
    if tag == 0 {
        Some((Device::CPU, pos1))
    } else if tag == 1 {
        let (uuid, end) = match read_opt_text(bytes, pos1) {
            Some(v) => v,
            None => {
                return None;
            },
        };
        let d = Device::GPU { uuid };
        proof {
            lemma_assoc(seq![1u8], opt_text_bytes(d@->uuid), bytes@.skip(end as int));
        }
        if d.is_valid() {
            Some((d, end))
        } else {
            proof {
                assert forall|x: DeviceView, rest: Seq<u8>| x.wf() implies s != #[trigger] (
                device_bytes(x) + rest) by {
                    if s == device_bytes(x) + rest {
                        lemma_opt_text_unambiguous(
                            d@->uuid,
                            bytes@.skip(end as int),
                            x->uuid,
                            rest,
                        );
                    }
                }
            }
            None
        }
    } else {
        None
    }
}

/// The bytes `s` begin with the fields of the valid payload `x`, of the
/// variant numbered `tag`, and go on with `rest`.
spec fn request_fields_at(s: Seq<u8>, tag: u8, x: RPCRequestDataView, rest: Seq<u8>) -> bool {
    x.wf() && request_tag(x) == tag && s == request_body(x) + rest
}

/// Takes the fields of a `Load` request off the buffer at `pos`.
fn read_load(bytes: &[u8], pos: usize) -> (r: Option<(RPCRequestData, usize)>)
    requires
        pos <= bytes@.len(),
    ensures
        match r {
            Some((d, end)) => pos <= end <= bytes@.len() && request_fields_at(
                bytes@.skip(pos as int),
                0,
                d@,
                bytes@.skip(end as int),
            ),
            None => forall|x: RPCRequestDataView, rest: Seq<u8>|
                !#[trigger] request_fields_at(bytes@.skip(pos as int), 0, x, rest),
        },
{
    let ghost s0 = bytes@.skip(pos as int);
    proof {
        assert forall|x: RPCRequestDataView, rest: Seq<u8>| #[trigger]
            request_fields_at(s0, 0, x, rest) implies s0 == u64_bytes(x->Load_fs.0.0) + (
        load_after_fs(x) + rest) by {
            lemma_assoc(u64_bytes(x->Load_fs.0.0), load_after_fs(x), rest);
        }
    }
    let (fs, pos1) = match read_u64(bytes, pos) {
        Some(v) => v,
        None => {
            proof {
                assert forall|x: RPCRequestDataView, rest: Seq<u8>|
                    !#[trigger] request_fields_at(s0, 0, x, rest) by {
                    if request_fields_at(s0, 0, x, rest) {
                        lemma_u64_bytes_len(x->Load_fs.0.0);
                        assert(s0.len() == bytes@.len() - pos);
                        assert((u64_bytes(x->Load_fs.0.0) + (load_after_fs(x) + rest)).len()
                            >= 8);
                    }
                }
            }
            return None;
        },
    };
    let ghost s1 = bytes@.skip(pos1 as int);
    proof {
        assert forall|x: RPCRequestDataView, rest: Seq<u8>| #[trigger]
            request_fields_at(s0, 0, x, rest) implies x->Load_fs.0.0 == fs && s1
            == opt_text_bytes(x->runner_name) + (load_after_name(x) + rest) by {
            lemma_u64_unambiguous(fs, s1, x->Load_fs.0.0, load_after_fs(x) + rest);
            lemma_assoc(opt_text_bytes(x->runner_name), load_after_name(x), rest);
        }
    }
    let (runner_name, pos2) = match read_opt_text(bytes, pos1) {
        Some(v) => v,
        None => {
            return None;
        },
    };
    let ghost s2 = bytes@.skip(pos2 as int);
    proof {
        assert forall|x: RPCRequestDataView, rest: Seq<u8>| #[trigger]
            request_fields_at(s0, 0, x, rest) implies x->runner_name == runner_name.deep_view()
            && s2 == opt_text_bytes(x->required_framework_version) + (load_after_version(x)
            + rest) by {
            lemma_opt_text_unambiguous(
                runner_name.deep_view(),
                s2,
                x->runner_name,
                load_after_name(x) + rest,
            );
            lemma_assoc(
                opt_text_bytes(x->required_framework_version),
                load_after_version(x),
                rest,
            );
        }
    }
    let (required_framework_version, pos3) = match read_opt_text(bytes, pos2) {
        Some(v) => v,
        None => {
            return None;
        },
    };
    let ghost s3 = bytes@.skip(pos3 as int);
    proof {
        assert forall|x: RPCRequestDataView, rest: Seq<u8>| #[trigger]
            request_fields_at(s0, 0, x, rest) implies x->required_framework_version
            == required_framework_version.deep_view() && s3 == u64_bytes(
            x->runner_compat_version,
        ) + (load_after_compat(x) + rest) by {
            lemma_opt_text_unambiguous(
                required_framework_version.deep_view(),
                s3,
                x->required_framework_version,
                load_after_version(x) + rest,
            );
            lemma_assoc(u64_bytes(x->runner_compat_version), load_after_compat(x), rest);
        }
    }
    let (runner_compat_version, pos4) = match read_u64(bytes, pos3) {
        Some(v) => v,
        None => {
            proof {
                assert forall|x: RPCRequestDataView, rest: Seq<u8>|
                    !#[trigger] request_fields_at(s0, 0, x, rest) by {
                    if request_fields_at(s0, 0, x, rest) {
                        lemma_u64_bytes_len(x->runner_compat_version);
                        assert(s3.len() == bytes@.len() - pos3);
                        assert((u64_bytes(x->runner_compat_version) + (load_after_compat(x)
                            + rest)).len() >= 8);
                    }
                }
            }
            return None;
        },
    };
    let ghost s4 = bytes@.skip(pos4 as int);
    proof {
        assert forall|x: RPCRequestDataView, rest: Seq<u8>| #[trigger]
            request_fields_at(s0, 0, x, rest) implies x->runner_compat_version
            == runner_compat_version && s4 == opt_text_bytes(x->runner_opts) + (load_after_opts(
            x,
        ) + rest) by {
            lemma_u64_unambiguous(
                runner_compat_version,
                s4,
                x->runner_compat_version,
                load_after_compat(x) + rest,
            );
            lemma_assoc(opt_text_bytes(x->runner_opts), load_after_opts(x), rest);
        }
    }
    let (runner_opts, pos5) = match read_opt_text(bytes, pos4) {
        Some(v) => v,
        None => {
            return None;
        },
    };
    let ghost s5 = bytes@.skip(pos5 as int);
    proof {
        assert forall|x: RPCRequestDataView, rest: Seq<u8>| #[trigger]
            request_fields_at(s0, 0, x, rest) implies x->runner_opts == runner_opts.deep_view()
            && s5 == device_bytes(x->visible_device) + (text_bytes(x->carton_manifest_hash)
            + rest) by {
            lemma_opt_text_unambiguous(
                runner_opts.deep_view(),
                s5,
                x->runner_opts,
                load_after_opts(x) + rest,
            );
            lemma_assoc(
                device_bytes(x->visible_device),
                text_bytes(x->carton_manifest_hash),
                rest,
            );
        }
    }
    let (visible_device, pos6) = match read_device(bytes, pos5) {
        Some(v) => v,
        None => {
            return None;
        },
    };
    let ghost s6 = bytes@.skip(pos6 as int);
    proof {
        assert forall|x: RPCRequestDataView, rest: Seq<u8>| #[trigger]
            request_fields_at(s0, 0, x, rest) implies x->visible_device == visible_device@ && s6
            == text_bytes(x->carton_manifest_hash) + rest by {
            lemma_device_unambiguous(
                visible_device@,
                s6,
                x->visible_device,
                text_bytes(x->carton_manifest_hash) + rest,
            );
        }
    }
    let (carton_manifest_hash, pos7) = match read_text(bytes, pos6) {
        Some(v) => v,
        None => {
            return None;
        },
    };
    let d = RPCRequestData::Load {
        fs: FsToken(StreamID(fs)),
        runner_name,
        required_framework_version,
        runner_compat_version,
        runner_opts,
        visible_device,
        carton_manifest_hash,
    };
    proof {
        let v = d@;
        let s7 = bytes@.skip(pos7 as int);
        lemma_assoc(device_bytes(v->visible_device), text_bytes(v->carton_manifest_hash), s7);
        lemma_assoc(opt_text_bytes(v->runner_opts), load_after_opts(v), s7);
        lemma_assoc(u64_bytes(v->runner_compat_version), load_after_compat(v), s7);
        lemma_assoc(opt_text_bytes(v->required_framework_version), load_after_version(v), s7);
        lemma_assoc(opt_text_bytes(v->runner_name), load_after_name(v), s7);
        lemma_assoc(u64_bytes(v->Load_fs.0.0), load_after_fs(v), s7);
    }
    Some((d, pos7))
}

/// Takes the fields of a `Pack` request off the buffer at `pos`.
fn read_pack(bytes: &[u8], pos: usize) -> (r: Option<(RPCRequestData, usize)>)
    requires
        pos <= bytes@.len(),
    ensures
        match r {
            Some((d, end)) => pos <= end <= bytes@.len() && request_fields_at(
                bytes@.skip(pos as int),
                1,
                d@,
                bytes@.skip(end as int),
            ),
            None => forall|x: RPCRequestDataView, rest: Seq<u8>|
                !#[trigger] request_fields_at(bytes@.skip(pos as int), 1, x, rest),
        },
{
    let ghost s0 = bytes@.skip(pos as int);
    proof {
        assert forall|x: RPCRequestDataView, rest: Seq<u8>| #[trigger]
            request_fields_at(s0, 1, x, rest) implies s0 == u64_bytes(x->Pack_fs.0.0) + (
        text_bytes(x->input_path) + (text_bytes(x->temp_folder) + rest)) by {
            lemma_assoc(
                u64_bytes(x->Pack_fs.0.0),
                text_bytes(x->input_path) + text_bytes(x->temp_folder),
                rest,
            );
            lemma_assoc(text_bytes(x->input_path), text_bytes(x->temp_folder), rest);
        }
    }
    let (fs, pos1) = match read_u64(bytes, pos) {
        Some(v) => v,
        None => {
            proof {
                assert forall|x: RPCRequestDataView, rest: Seq<u8>|
                    !#[trigger] request_fields_at(s0, 1, x, rest) by {
                    if request_fields_at(s0, 1, x, rest) {
                        lemma_u64_bytes_len(x->Pack_fs.0.0);
                        assert(s0.len() == bytes@.len() - pos);
                        assert((u64_bytes(x->Pack_fs.0.0) + (text_bytes(x->input_path) + (
                        text_bytes(x->temp_folder) + rest))).len() >= 8);
                    }
                }
            }
            return None;
        },
    };
    let ghost s1 = bytes@.skip(pos1 as int);
    proof {
        assert forall|x: RPCRequestDataView, rest: Seq<u8>| #[trigger]
            request_fields_at(s0, 1, x, rest) implies x->Pack_fs.0.0 == fs && s1 == text_bytes(
            x->input_path,
        ) + (text_bytes(x->temp_folder) + rest) by {
            lemma_u64_unambiguous(
                fs,
                s1,
                x->Pack_fs.0.0,
                text_bytes(x->input_path) + (text_bytes(x->temp_folder) + rest),
            );
        }
    }
    let (input_path, pos2) = match read_text(bytes, pos1) {
        Some(v) => v,
        None => {
            return None;
        },
    };
    let ghost s2 = bytes@.skip(pos2 as int);
    proof {
        assert forall|x: RPCRequestDataView, rest: Seq<u8>| #[trigger]
            request_fields_at(s0, 1, x, rest) implies x->input_path == input_path@ && s2
            == text_bytes(x->temp_folder) + rest by {
            lemma_text_unambiguous(
                input_path@,
                s2,
                x->input_path,
                text_bytes(x->temp_folder) + rest,
            );
        }
    }
    let (temp_folder, pos3) = match read_text(bytes, pos2) {
        Some(v) => v,
        None => {
            return None;
        },
    };
    let d = RPCRequestData::Pack { fs: FsToken(StreamID(fs)), input_path, temp_folder };
    proof {
        let v = d@;
        let s3 = bytes@.skip(pos3 as int);
        lemma_assoc(text_bytes(v->input_path), text_bytes(v->temp_folder), s3);
        lemma_assoc(
            u64_bytes(v->Pack_fs.0.0),
            text_bytes(v->input_path) + text_bytes(v->temp_folder),
            s3,
        );
    }
    Some((d, pos3))
}

/// Takes a request payload off the buffer at `pos`. There is none
/// exactly where no valid payload is encoded there.
pub fn read_request_data(bytes: &[u8], pos: usize) -> (r: Option<(RPCRequestData, usize)>)
    requires
        pos <= bytes@.len(),
    ensures
        match r {
            Some((d, end)) => pos <= end <= bytes@.len() && d@.wf() && bytes@.skip(pos as int)
                == request_data_bytes(d@) + bytes@.skip(end as int),
            None => forall|x: RPCRequestDataView, rest: Seq<u8>|
                x.wf() ==> bytes@.skip(pos as int) != #[trigger] (request_data_bytes(x) + rest),
        },
{
    let ghost s = bytes@.skip(pos as int);
    let (tag, pos1) = match read_u8(bytes, pos) {
        Some(v) => v,
        None => {
            proof {
                assert forall|x: RPCRequestDataView, rest: Seq<u8>| x.wf() implies s
                    != #[trigger] (request_data_bytes(x) + rest) by {
                    assert((request_data_bytes(x) + rest).len() >= 1);
                }
            }
            return None;
        },
    };
    let ghost s1 = bytes@.skip(pos1 as int);
    proof {
        assert forall|x: RPCRequestDataView, rest: Seq<u8>|
            x.wf() && s == #[trigger] (request_data_bytes(x) + rest) implies request_fields_at(
            s1,
            tag,
            x,
            rest,
        ) by {
            lemma_assoc(seq![request_tag(x)], request_body(x), rest);
            lemma_tag_unambiguous(tag, s1, request_tag(x), request_body(x) + rest);
        }
    }
    let r = if tag == 0 {
        read_load(bytes, pos1)
    } else if tag == 1 {
        read_pack(bytes, pos1)
    } else if tag == 2 {
        match read_entries(bytes, pos1) {
            Some((tensors, end)) => Some((RPCRequestData::Seal { tensors }, end)),
            None => {
                proof {
                    assert forall|x: RPCRequestDataView, rest: Seq<u8>|
                        !#[trigger] request_fields_at(s1, tag, x, rest) by {
                        if request_fields_at(s1, tag, x, rest) {
                            assert(s1 == entries_bytes(x->Seal_tensors) + rest);
                        }
                    }
                }
                None
            },
        }
    } else if tag == 3 {
        match read_entries(bytes, pos1) {
            Some((tensors, end)) => Some((RPCRequestData::InferWithTensors { tensors }, end)),
            None => {
                proof {
                    assert forall|x: RPCRequestDataView, rest: Seq<u8>|
                        !#[trigger] request_fields_at(s1, tag, x, rest) by {
                        if request_fields_at(s1, tag, x, rest) {
                            assert(s1 == entries_bytes(x->InferWithTensors_tensors) + rest);
                        }
                    }
                }
                None
            },
        }
    } else if tag == 4 {
        match read_u64(bytes, pos1) {
            Some((h, end)) => Some(
                (RPCRequestData::InferWithHandle { handle: SealHandle(h) }, end),
            ),
            None => {
                proof {
                    assert forall|x: RPCRequestDataView, rest: Seq<u8>|
                        !#[trigger] request_fields_at(s1, tag, x, rest) by {
                        if request_fields_at(s1, tag, x, rest) {
                            lemma_u64_bytes_len(x->InferWithHandle_handle.0);
                            assert(s1.len() == bytes@.len() - pos1);
                            assert((request_body(x) + rest).len() >= 8);
                        }
                    }
                }
                None
            },
        }
    } else {
        None
    };
    match r {
        Some((d, end)) => {
            proof {
                lemma_assoc(seq![tag], request_body(d@), bytes@.skip(end as int));
            }
            Some((d, end))
        },
        None => None,
    }
}

/// The bytes `s` begin with the fields of the valid payload `x`, of the
/// variant numbered `tag`, and go on with `rest`.
spec fn response_fields_at(s: Seq<u8>, tag: u8, x: RPCResponseDataView, rest: Seq<u8>) -> bool {
    x.wf() && response_tag(x) == tag && s == response_body(x) + rest
}

/// Takes the fields of a `Load` response off the buffer at `pos`.
fn read_loaded(bytes: &[u8], pos: usize) -> (r: Option<(RPCResponseData, usize)>)
    requires
        pos <= bytes@.len(),
    ensures
        match r {
            Some((d, end)) => pos <= end <= bytes@.len() && response_fields_at(
                bytes@.skip(pos as int),
                0,
                d@,
                bytes@.skip(end as int),
            ),
            None => forall|x: RPCResponseDataView, rest: Seq<u8>|
                !#[trigger] response_fields_at(bytes@.skip(pos as int), 0, x, rest),
        },
{
    let ghost s0 = bytes@.skip(pos as int);
    proof {
        assert forall|x: RPCResponseDataView, rest: Seq<u8>| #[trigger]
            response_fields_at(s0, 0, x, rest) implies s0 == text_bytes(x->name) + (text_bytes(
            x->runner,
        ) + rest) by {
            lemma_assoc(text_bytes(x->name), text_bytes(x->runner), rest);
        }
    }
    let (name, pos1) = match read_text(bytes, pos) {
        Some(v) => v,
        None => {
            return None;
        },
    };
    let ghost s1 = bytes@.skip(pos1 as int);
    proof {
        assert forall|x: RPCResponseDataView, rest: Seq<u8>| #[trigger]
            response_fields_at(s0, 0, x, rest) implies x->name == name@ && s1 == text_bytes(
            x->runner,
        ) + rest by {
            lemma_text_unambiguous(name@, s1, x->name, text_bytes(x->runner) + rest);
        }
    }
    let (runner, pos2) = match read_text(bytes, pos1) {
        Some(v) => v,
        None => {
            return None;
        },
    };
    let d = RPCResponseData::Load { name, runner };
    proof {
        lemma_assoc(text_bytes(d@->name), text_bytes(d@->runner), bytes@.skip(pos2 as int));
    }
    Some((d, pos2))
}

/// Takes a response payload off the buffer at `pos`. There is none
/// exactly where no valid payload is encoded there.
pub fn read_response_data(bytes: &[u8], pos: usize) -> (r: Option<(RPCResponseData, usize)>)
    requires
        pos <= bytes@.len(),
    ensures
        match r {
            Some((d, end)) => pos <= end <= bytes@.len() && d@.wf() && bytes@.skip(pos as int)
                == response_data_bytes(d@) + bytes@.skip(end as int),
            None => forall|x: RPCResponseDataView, rest: Seq<u8>|
                x.wf() ==> bytes@.skip(pos as int) != #[trigger] (response_data_bytes(x) + rest),
        },
{
    let ghost s = bytes@.skip(pos as int);
    let (tag, pos1) = match read_u8(bytes, pos) {
        Some(v) => v,
        None => {
            proof {
                assert forall|x: RPCResponseDataView, rest: Seq<u8>| x.wf() implies s
                    != #[trigger] (response_data_bytes(x) + rest) by {
                    assert((response_data_bytes(x) + rest).len() >= 1);
                }
            }
            return None;
        },
    };
    let ghost s1 = bytes@.skip(pos1 as int);
    proof {
        assert forall|x: RPCResponseDataView, rest: Seq<u8>|
            x.wf() && s == #[trigger] (response_data_bytes(x) + rest) implies response_fields_at(
            s1,
            tag,
            x,
            rest,
        ) by {
            lemma_assoc(seq![response_tag(x)], response_body(x), rest);
            lemma_tag_unambiguous(tag, s1, response_tag(x), response_body(x) + rest);
        }
    }
    let r = if tag == 0 {
        read_loaded(bytes, pos1)
    } else if tag == 1 {
        match read_text(bytes, pos1) {
            Some((output_path, end)) => Some((RPCResponseData::Pack { output_path }, end)),
            None => {
                proof {
                    assert forall|x: RPCResponseDataView, rest: Seq<u8>|
                        !#[trigger] response_fields_at(s1, tag, x, rest) by {
                        if response_fields_at(s1, tag, x, rest) {
                            assert(s1 == text_bytes(x->output_path) + rest);
                        }
                    }
                }
                None
            },
        }
    } else if tag == 2 {
        match read_u64(bytes, pos1) {
            Some((h, end)) => Some((RPCResponseData::Seal { handle: SealHandle(h) }, end)),
            None => {
                proof {
                    assert forall|x: RPCResponseDataView, rest: Seq<u8>|
                        !#[trigger] response_fields_at(s1, tag, x, rest) by {
                        if response_fields_at(s1, tag, x, rest) {
                            lemma_u64_bytes_len(x->handle.0);
                            assert(s1.len() == bytes@.len() - pos1);
                            assert((response_body(x) + rest).len() >= 8);
                        }
                    }
                }
                None
            },
        }
    } else if tag == 3 {
        match read_entries(bytes, pos1) {
            Some((tensors, end)) => Some((RPCResponseData::Infer { tensors }, end)),
            None => {
                proof {
                    assert forall|x: RPCResponseDataView, rest: Seq<u8>|
                        !#[trigger] response_fields_at(s1, tag, x, rest) by {
                        if response_fields_at(s1, tag, x, rest) {
                            assert(s1 == entries_bytes(x->tensors) + rest);
                        }
                    }
                }
                None
            },
        }
    } else if tag == 4 {
        match read_text(bytes, pos1) {
            Some((e, end)) => Some((RPCResponseData::Error { e }, end)),
            None => {
                proof {
                    assert forall|x: RPCResponseDataView, rest: Seq<u8>|
                        !#[trigger] response_fields_at(s1, tag, x, rest) by {
                        if response_fields_at(s1, tag, x, rest) {
                            assert(s1 == text_bytes(x->Error_e) + rest);
                        }
                    }
                }
                None
            },
        }
    } else if tag == 5 {
        match read_text(bytes, pos1) {
            Some((e, end)) => Some((RPCResponseData::SlowLog { e }, end)),
            None => {
                proof {
                    assert forall|x: RPCResponseDataView, rest: Seq<u8>|
                        !#[trigger] response_fields_at(s1, tag, x, rest) by {
                        if response_fields_at(s1, tag, x, rest) {
                            assert(s1 == text_bytes(x->SlowLog_e) + rest);
                        }
                    }
                }
                None
            },
        }
    } else {
        None
    };
    match r {
        Some((d, end)) => {
            proof {
                lemma_assoc(seq![tag], response_body(d@), bytes@.skip(end as int));
            }
            Some((d, end))
        },
        None => None,
    }
}

/// What decoding `bytes` as a request must give: the valid request that
/// they encode, or else the news that they encode none.
pub open spec fn request_decoding(
    bytes: Seq<u8>,
    r: Result<RPCRequestView, ConnectionError>,
) -> bool {
    match r {
        Ok(v) => v.wf() && request_bytes(v) == bytes,
        Err(e) => e == ConnectionError::MalformedMessage && forall|v: RPCRequestView|
            v.wf() ==> #[trigger] request_bytes(v) != bytes,
    }
}

/// What decoding `bytes` as a response must give: the valid response that
/// they encode, or else the news that they encode none.
pub open spec fn response_decoding(
    bytes: Seq<u8>,
    r: Result<RPCResponseView, ConnectionError>,
) -> bool {
    match r {
        Ok(v) => v.wf() && response_bytes(v) == bytes,
        Err(e) => e == ConnectionError::MalformedMessage && forall|v: RPCResponseView|
            v.wf() ==> #[trigger] response_bytes(v) != bytes,
    }
}

/// Decodes a request from exactly the bytes given.
pub fn decode_request(bytes: &[u8]) -> (r: Result<RPCRequest, ConnectionError>)
    ensures
        request_decoding(
            bytes@,
            match r {
                Ok(q) => Ok(q@),
                Err(e) => Err(e),
            },
        ),
{
    let ghost s = bytes@;
    let ghost e = Seq::<u8>::empty();
    proof {
        assert(s.skip(0) =~= s);
        assert forall|v: RPCRequestView| s == #[trigger] request_bytes(v) implies s == u64_bytes(
            v.id,
        ) + (request_data_bytes(v.data) + e) by {
            assert(request_data_bytes(v.data) + e =~= request_data_bytes(v.data));
        }
    }
    let (id, pos1) = match read_u64(bytes, 0) {
        Some(v) => v,
        None => {
            proof {
                assert forall|v: RPCRequestView| v.wf() implies #[trigger] request_bytes(v)
                    != s by {
                    lemma_u64_bytes_len(v.id);
                }
            }
            return Err(ConnectionError::MalformedMessage);
        },
    };
    let ghost s1 = s.skip(pos1 as int);
    proof {
        assert forall|v: RPCRequestView| s == #[trigger] request_bytes(v) implies v.id == id
            && s1 == request_data_bytes(v.data) + e by {
            lemma_u64_unambiguous(id, s1, v.id, request_data_bytes(v.data) + e);
        }
    }
    let (data, end) = match read_request_data(bytes, pos1) {
        Some(v) => v,
        None => {
            return Err(ConnectionError::MalformedMessage);
        },
    };
    if end != bytes.len() {
        proof {
            assert forall|v: RPCRequestView| v.wf() implies #[trigger] request_bytes(v) != s by {
                if request_bytes(v) == s {
                    lemma_request_data_unambiguous(data@, s.skip(end as int), v.data, e);
                    assert(s.skip(end as int).len() == s.len() - end);
                }
            }
        }
        return Err(ConnectionError::MalformedMessage);
    }
    proof {
        assert(s.skip(end as int) =~= e);
        assert(request_data_bytes(data@) + e =~= request_data_bytes(data@));
    }
    Ok(RPCRequest { id, data })
}

/// Decodes a response from exactly the bytes given.
pub fn decode_response(bytes: &[u8]) -> (r: Result<RPCResponse, ConnectionError>)
    ensures
        response_decoding(
            bytes@,
            match r {
                Ok(q) => Ok(q@),
                Err(e) => Err(e),
            },
        ),
{
    let ghost s = bytes@;
    let ghost e = Seq::<u8>::empty();
    proof {
        assert(s.skip(0) =~= s);
        assert forall|v: RPCResponseView| s == #[trigger] response_bytes(v) implies s
            == u64_bytes(v.id) + (response_data_bytes(v.data) + e) by {
            assert(response_data_bytes(v.data) + e =~= response_data_bytes(v.data));
        }
    }
    let (id, pos1) = match read_u64(bytes, 0) {
        Some(v) => v,
        None => {
            proof {
                assert forall|v: RPCResponseView| v.wf() implies #[trigger] response_bytes(v)
                    != s by {
                    lemma_u64_bytes_len(v.id);
                }
            }
            return Err(ConnectionError::MalformedMessage);
        },
    };
    let ghost s1 = s.skip(pos1 as int);
    proof {
        assert forall|v: RPCResponseView| s == #[trigger] response_bytes(v) implies v.id == id
            && s1 == response_data_bytes(v.data) + e by {
            lemma_u64_unambiguous(id, s1, v.id, response_data_bytes(v.data) + e);
        }
    }
    let (data, end) = match read_response_data(bytes, pos1) {
        Some(v) => v,
        None => {
            return Err(ConnectionError::MalformedMessage);
        },
    };
    if end != bytes.len() {
        proof {
            assert forall|v: RPCResponseView| v.wf() implies #[trigger] response_bytes(v)
                != s by {
                if response_bytes(v) == s {
                    lemma_response_data_unambiguous(data@, s.skip(end as int), v.data, e);
                    assert(s.skip(end as int).len() == s.len() - end);
                }
            }
        }
        return Err(ConnectionError::MalformedMessage);
    }
    proof {
        assert(s.skip(end as int) =~= e);
        assert(response_data_bytes(data@) + e =~= response_data_bytes(data@));
    }
    Ok(RPCResponse { id, data })
}

/// Decoding undoes encoding: whatever decoding gives for the encoding of
/// a valid request, it is that request.
pub proof fn lemma_request_round_trip(
    v: RPCRequestView,
    r: Result<RPCRequestView, ConnectionError>,
)
    requires
        v.wf(),
        request_decoding(request_bytes(v), r),
    ensures
        r == Ok::<RPCRequestView, ConnectionError>(v),
{
    match r {
        Ok(w) => {
            lemma_request_bytes_injective(v, w);
        },
        Err(_) => {},
    }
}

/// Decoding undoes encoding: whatever decoding gives for the encoding of
/// a valid response, it is that response.
pub proof fn lemma_response_round_trip(
    v: RPCResponseView,
    r: Result<RPCResponseView, ConnectionError>,
)
    requires
        v.wf(),
        response_decoding(response_bytes(v), r),
    ensures
        r == Ok::<RPCResponseView, ConnectionError>(v),
{
    match r {
        Ok(w) => {
            lemma_response_bytes_injective(v, w);
        },
        Err(_) => {},
    }
}

} // verus!
