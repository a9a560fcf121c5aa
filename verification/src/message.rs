//! The requests an orchestrator sends to a runner and the responses that
//! come back.

use crate::handle::{entries_wf, NamedHandle, TensorMap};
use crate::ids::{FsToken, RpcId, SealHandle};
use crate::text::{bytes_start_with, text_len, text_wf};
use vstd::prelude::*;
use vstd::utf8::encode_utf8;

verus! {

/// The bytes of `GPU-`, with which the identifier of a whole device begins.
pub open spec fn gpu_prefix() -> Seq<u8> {
    seq![0x47u8, 0x50u8, 0x55u8, 0x2du8]
}

/// The bytes of `MIG-GPU-`, with which the identifier of a device
/// partition begins.
pub open spec fn mig_prefix() -> Seq<u8> {
    seq![0x4du8, 0x49u8, 0x47u8, 0x2du8, 0x47u8, 0x50u8, 0x55u8, 0x2du8]
}

/// Whether `uuid` names a device: its UTF-8 encoding begins with one of
/// the two prefixes.
pub open spec fn is_device_uuid(uuid: Seq<char>) -> bool {
    gpu_prefix().is_prefix_of(encode_utf8(uuid)) || mig_prefix().is_prefix_of(encode_utf8(uuid))
}

/// Whether the text names a device.
pub fn check_device_uuid(uuid: &str) -> (r: bool)
    ensures
        r == is_device_uuid(uuid@),
{
    let gpu: [u8; 4] = [0x47, 0x50, 0x55, 0x2d];
    let mig: [u8; 8] = [0x4d, 0x49, 0x47, 0x2d, 0x47, 0x50, 0x55, 0x2d];
    assert(gpu@ =~= gpu_prefix());
    assert(mig@ =~= mig_prefix());
    let bytes = uuid.as_bytes();
    bytes_start_with(bytes, gpu.as_slice()) || bytes_start_with(bytes, mig.as_slice())
}

/// What a `Device` stands for.
pub enum DeviceView {
    CPU,
    GPU { uuid: Option<Seq<char>> },
}

impl DeviceView {
    /// A device identifier, where one is given, carries a device prefix.
    pub open spec fn wf(self) -> bool {
        match self {
            DeviceView::CPU => true,
            DeviceView::GPU { uuid: None } => true,
            DeviceView::GPU { uuid: Some(u) } => text_wf(u) && is_device_uuid(u),
        }
    }
}

/// Where a model is to run.
#[derive(Debug)]
#[non_exhaustive]
pub enum Device {
    CPU,
    GPU {
        /// The identifier of the device. It must begin with `GPU-` or
        /// `MIG-GPU-`.
        uuid: Option<String>,
    },
}

impl View for Device {
    type V = DeviceView;

    open spec fn view(&self) -> DeviceView {
        match self {
            Device::CPU => DeviceView::CPU,
            Device::GPU { uuid } => DeviceView::GPU { uuid: uuid.deep_view() },
        }
    }
}

impl Device {
    /// Whether the device is validly named.
    pub fn is_valid(&self) -> (r: bool)
        ensures
            r == self@.wf(),
    {
        match self {
            Device::CPU => true,
            Device::GPU { uuid: None } => true,
            Device::GPU { uuid: Some(u) } => {
                // The identifier is a string in memory: its length fits.
                let _len: u64 = text_len(u.as_str());
                check_device_uuid(u.as_str())
            },
        }
    }
}

/// What a request asks for, as plain values.
pub enum RPCRequestDataView {
    Load {
        fs: FsToken,
        runner_name: Option<Seq<char>>,
        required_framework_version: Option<Seq<char>>,
        runner_compat_version: u64,
        runner_opts: Option<Seq<char>>,
        visible_device: DeviceView,
        carton_manifest_hash: Seq<char>,
    },
    Pack { fs: FsToken, input_path: Seq<char>, temp_folder: Seq<char> },
    Seal { tensors: Seq<NamedHandle> },
    InferWithTensors { tensors: Seq<NamedHandle> },
    InferWithHandle { handle: SealHandle },
}

/// An optional text is within bounds if the text is.
pub open spec fn opt_text_wf(t: Option<Seq<char>>) -> bool {
    match t {
        Some(s) => text_wf(s),
        None => true,
    }
}

impl RPCRequestDataView {
    /// Every text is within bounds, the device is validly named, and a
    /// set of tensors is valid.
    pub open spec fn wf(self) -> bool {
        match self {
            RPCRequestDataView::Load {
                fs,
                runner_name,
                required_framework_version,
                runner_compat_version,
                runner_opts,
                visible_device,
                carton_manifest_hash,
            } => {
                &&& opt_text_wf(runner_name)
                &&& opt_text_wf(required_framework_version)
                &&& opt_text_wf(runner_opts)
                &&& visible_device.wf()
                &&& text_wf(carton_manifest_hash)
            },
            RPCRequestDataView::Pack { fs, input_path, temp_folder } => {
                &&& text_wf(input_path)
                &&& text_wf(temp_folder)
            },
            RPCRequestDataView::Seal { tensors } => entries_wf(tensors),
            RPCRequestDataView::InferWithTensors { tensors } => entries_wf(tensors),
            RPCRequestDataView::InferWithHandle { handle } => true,
        }
    }
}

/// The operation a request asks for.
///
/// From a runner's side, packing a model and loading the result is how a
/// model that was never packaged gets loaded: `Load` always sees a folder
/// laid out as `Pack` leaves it.
#[derive(Debug)]
pub enum RPCRequestData {
    Load {
        /// A read-only filesystem that holds the packed model.
        fs: FsToken,
        runner_name: Option<String>,
        required_framework_version: Option<String>,
        runner_compat_version: u64,
        runner_opts: Option<String>,
        visible_device: Device,
        /// The hash of the model's manifest.
        carton_manifest_hash: String,
    },
    Pack {
        /// A read/write filesystem that the two paths below refer to.
        fs: FsToken,
        /// The user's input data. If this is a folder, the runner may
        /// place data in a `.carton` subfolder of it.
        input_path: String,
        /// A temporary folder that the runner may fill. The caller owns
        /// it and deletes it.
        temp_folder: String,
    },
    Seal { tensors: TensorMap },
    InferWithTensors { tensors: TensorMap },
    InferWithHandle { handle: SealHandle },
}

impl View for RPCRequestData {
    type V = RPCRequestDataView;

    open spec fn view(&self) -> RPCRequestDataView {
        match self {
            RPCRequestData::Load {
                fs,
                runner_name,
                required_framework_version,
                runner_compat_version,
                runner_opts,
                visible_device,
                carton_manifest_hash,
            } => RPCRequestDataView::Load {
                fs: *fs,
                runner_name: runner_name.deep_view(),
                required_framework_version: required_framework_version.deep_view(),
                runner_compat_version: *runner_compat_version,
                runner_opts: runner_opts.deep_view(),
                visible_device: visible_device@,
                carton_manifest_hash: carton_manifest_hash@,
            },
            RPCRequestData::Pack { fs, input_path, temp_folder } => RPCRequestDataView::Pack {
                fs: *fs,
                input_path: input_path@,
                temp_folder: temp_folder@,
            },
            RPCRequestData::Seal { tensors } => RPCRequestDataView::Seal { tensors: tensors@ },
            RPCRequestData::InferWithTensors { tensors } => RPCRequestDataView::InferWithTensors {
                tensors: tensors@,
            },
            RPCRequestData::InferWithHandle { handle } => RPCRequestDataView::InferWithHandle {
                handle: *handle,
            },
        }
    }
}

/// What a response reports, as plain values.
pub enum RPCResponseDataView {
    Load { name: Seq<char>, runner: Seq<char> },
    Pack { output_path: Seq<char> },
    Seal { handle: SealHandle },
    Infer { tensors: Seq<NamedHandle> },
    Error { e: Seq<char> },
    SlowLog { e: Seq<char> },
}

impl RPCResponseDataView {
    /// Every text is within bounds, and a set of tensors is valid.
    pub open spec fn wf(self) -> bool {
        match self {
            RPCResponseDataView::Load { name, runner } => text_wf(name) && text_wf(runner),
            RPCResponseDataView::Pack { output_path } => text_wf(output_path),
            RPCResponseDataView::Seal { handle } => true,
            RPCResponseDataView::Infer { tensors } => entries_wf(tensors),
            RPCResponseDataView::Error { e } => text_wf(e),
            RPCResponseDataView::SlowLog { e } => text_wf(e),
        }
    }

    /// Whether the response ends its call. A slow-log note never does:
    /// it only says that the runner is still at work.
    pub open spec fn is_terminal(self) -> bool {
        !(self is SlowLog)
    }
}

/// The outcome a response reports.
#[derive(Debug)]
pub enum RPCResponseData {
    Load { name: String, runner: String },
    Pack {
        /// The folder that holds the packed model. It is a folder even
        /// where the input was a single file, and lies on the filesystem
        /// that the request passed in.
        output_path: String,
    },
    Seal { handle: SealHandle },
    Infer { tensors: TensorMap },
    /// Something went wrong.
    Error { e: String },
    /// A note on work that takes long. The true response follows later.
    SlowLog { e: String },
}

impl View for RPCResponseData {
    type V = RPCResponseDataView;

    open spec fn view(&self) -> RPCResponseDataView {
        match self {
            RPCResponseData::Load { name, runner } => RPCResponseDataView::Load {
                name: name@,
                runner: runner@,
            },
            RPCResponseData::Pack { output_path } => RPCResponseDataView::Pack {
                output_path: output_path@,
            },
            RPCResponseData::Seal { handle } => RPCResponseDataView::Seal { handle: *handle },
            RPCResponseData::Infer { tensors } => RPCResponseDataView::Infer { tensors: tensors@ },
            RPCResponseData::Error { e } => RPCResponseDataView::Error { e: e@ },
            RPCResponseData::SlowLog { e } => RPCResponseDataView::SlowLog { e: e@ },
        }
    }
}

impl RPCResponseData {
    /// Whether this response ends its call.
    pub fn is_terminal(&self) -> (r: bool)
        ensures
            r == self@.is_terminal(),
    {
        match self {
            RPCResponseData::SlowLog { .. } => false,
            _ => true,
        }
    }
}

/// A request, as plain values.
pub struct RPCRequestView {
    pub id: RpcId,
    pub data: RPCRequestDataView,
}

impl RPCRequestView {
    /// The payload is valid.
    pub open spec fn wf(self) -> bool {
        self.data.wf()
    }
}

/// One call of a runner.
#[derive(Debug)]
pub struct RPCRequest {
    pub id: RpcId,
    pub data: RPCRequestData,
}

impl View for RPCRequest {
    type V = RPCRequestView;

    open spec fn view(&self) -> RPCRequestView {
        RPCRequestView { id: self.id, data: self.data@ }
    }
}

/// A response, as plain values.
pub struct RPCResponseView {
    pub id: RpcId,
    pub data: RPCResponseDataView,
}

impl RPCResponseView {
    /// The payload is valid.
    pub open spec fn wf(self) -> bool {
        self.data.wf()
    }
}

/// One reply of a runner.
#[derive(Debug)]
pub struct RPCResponse {
    pub id: RpcId,
    pub data: RPCResponseData,
}

impl View for RPCResponse {
    type V = RPCResponseView;

    open spec fn view(&self) -> RPCResponseView {
        RPCResponseView { id: self.id, data: self.data@ }
    }
}

} // verus!
