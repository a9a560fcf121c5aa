use carton_runner_interface::wire::{
    decode_request, decode_response, encode_request, encode_response,
};
use carton_runner_interface::{
    ConnectionError, Device, Dtype, FdId, FsToken, Handle, RPCRequest, RPCRequestData,
    RPCResponse, RPCResponseData, SealHandle, StreamID, Tensor, TensorMap, TensorNumeric,
    TensorString,
};

fn numeric(dtype: Dtype, shape: Vec<u64>, bytes: usize) -> Handle<Tensor> {
    let buffer: Vec<u8> = (0..bytes).map(|i| (i % 251) as u8).collect();
    Handle::inline(Tensor::Numeric(TensorNumeric::new(dtype, shape, buffer).unwrap()))
}

fn sample_tensors() -> TensorMap {
    let mut m = TensorMap::new();
    m.insert("a".to_string(), numeric(Dtype::U16, vec![2, 3], 12));
    let s = TensorString::new(vec![2], vec!["x".to_string(), "yz".to_string()]).unwrap();
    m.insert("s".to_string(), Handle::inline(Tensor::String(s)));
    m.insert("shared".to_string(), Handle::shared(FdId(7), 4096));
    m
}

fn check_request(req: RPCRequest) {
    let bytes = encode_request(&req);
    let back = decode_request(&bytes).unwrap();
    assert_eq!(format!("{:?}", back), format!("{:?}", req));
    assert_eq!(encode_request(&back), bytes);
}

fn check_response(resp: RPCResponse) {
    let bytes = encode_response(&resp);
    let back = decode_response(&bytes).unwrap();
    assert_eq!(format!("{:?}", back), format!("{:?}", resp));
    assert_eq!(encode_response(&back), bytes);
}

#[test]
fn seal_handle_new_keeps_value() {
    assert_eq!(SealHandle::new(42), SealHandle(42));
}

#[test]
fn load_request_round_trips() {
    check_request(RPCRequest {
        id: 9,
        data: RPCRequestData::Load {
            fs: FsToken(StreamID(3)),
            runner_name: None,
            required_framework_version: Some("*".to_string()),
            runner_compat_version: 1,
            runner_opts: Some("{\"k\":\"v\"}".to_string()),
            visible_device: Device::GPU { uuid: Some("GPU-1234".to_string()) },
            carton_manifest_hash: "abc".to_string(),
        },
    });
}

#[test]
fn load_request_for_cpu_round_trips() {
    check_request(RPCRequest {
        id: u64::MAX,
        data: RPCRequestData::Load {
            fs: FsToken(StreamID(0)),
            runner_name: Some("torchscript".to_string()),
            required_framework_version: None,
            runner_compat_version: u64::MAX,
            runner_opts: None,
            visible_device: Device::CPU,
            carton_manifest_hash: String::new(),
        },
    });
}

#[test]
fn pack_request_round_trips() {
    check_request(RPCRequest {
        id: 2,
        data: RPCRequestData::Pack {
            fs: FsToken(StreamID(11)),
            input_path: "model/weights.bin".to_string(),
            temp_folder: "tmp/\u{00e9}t\u{00e9}".to_string(),
        },
    });
}

#[test]
fn seal_request_round_trips() {
    check_request(RPCRequest { id: 3, data: RPCRequestData::Seal { tensors: sample_tensors() } });
}

#[test]
fn infer_request_round_trips() {
    check_request(RPCRequest {
        id: 1,
        data: RPCRequestData::InferWithTensors { tensors: sample_tensors() },
    });
}

#[test]
fn infer_with_handle_request_round_trips() {
    check_request(RPCRequest {
        id: 4,
        data: RPCRequestData::InferWithHandle { handle: SealHandle(77) },
    });
}

#[test]
fn every_response_variant_round_trips() {
    check_response(RPCResponse {
        id: 1,
        data: RPCResponseData::Load { name: "m".to_string(), runner: "r".to_string() },
    });
    check_response(RPCResponse {
        id: 2,
        data: RPCResponseData::Pack { output_path: "out".to_string() },
    });
    check_response(RPCResponse { id: 3, data: RPCResponseData::Seal { handle: SealHandle(9) } });
    check_response(RPCResponse { id: 4, data: RPCResponseData::Infer { tensors: sample_tensors() } });
    check_response(RPCResponse { id: 5, data: RPCResponseData::Error { e: "boom".to_string() } });
    check_response(RPCResponse { id: 6, data: RPCResponseData::SlowLog { e: "wait".to_string() } });
}

#[test]
fn every_element_kind_round_trips() {
    let kinds = [
        (Dtype::Float, 4),
        (Dtype::Double, 8),
        (Dtype::I8, 1),
        (Dtype::I16, 2),
        (Dtype::I32, 4),
        (Dtype::I64, 8),
        (Dtype::U8, 1),
        (Dtype::U16, 2),
        (Dtype::U32, 4),
        (Dtype::U64, 8),
    ];
    for (dtype, size) in kinds {
        let mut m = TensorMap::new();
        m.insert("t".to_string(), numeric(dtype, vec![3, 2], 6 * size));
        m.insert("scalar".to_string(), numeric(dtype, vec![], size));
        m.insert("none".to_string(), numeric(dtype, vec![4, 0], 0));
        check_response(RPCResponse { id: 1, data: RPCResponseData::Infer { tensors: m } });
    }
    let mut m = TensorMap::new();
    let s = TensorString::new(vec![1, 2], vec!["".to_string(), "\u{1f600}".to_string()]).unwrap();
    m.insert("words".to_string(), Handle::inline(Tensor::String(s)));
    check_response(RPCResponse { id: 1, data: RPCResponseData::Infer { tensors: m } });
}

#[test]
fn encoding_is_the_documented_bytes() {
    let req = RPCRequest { id: 1, data: RPCRequestData::InferWithHandle { handle: SealHandle(5) } };
    assert_eq!(
        encode_request(&req),
        vec![1, 0, 0, 0, 0, 0, 0, 0, 4, 5, 0, 0, 0, 0, 0, 0, 0]
    );
    let resp = RPCResponse { id: 0x0102, data: RPCResponseData::Error { e: "hi".to_string() } };
    assert_eq!(
        encode_response(&resp),
        vec![2, 1, 0, 0, 0, 0, 0, 0, 4, 2, 0, 0, 0, 0, 0, 0, 0, b'h', b'i']
    );
    let mut m = TensorMap::new();
    m.insert("n".to_string(), Handle::shared(FdId(3), 16));
    let seal = RPCRequest { id: 0, data: RPCRequestData::Seal { tensors: m } };
    let mut want = vec![0u8; 8];
    want.push(2);
    want.extend_from_slice(&[1, 0, 0, 0, 0, 0, 0, 0]);
    want.extend_from_slice(&[1, 0, 0, 0, 0, 0, 0, 0, b'n']);
    want.push(0);
    want.extend_from_slice(&[3, 0, 0, 0, 0, 0, 0, 0]);
    want.extend_from_slice(&[16, 0, 0, 0, 0, 0, 0, 0]);
    assert_eq!(encode_request(&seal), want);
}

#[test]
fn device_encoding_is_the_documented_bytes() {
    let req = RPCRequest {
        id: 0,
        data: RPCRequestData::Load {
            fs: FsToken(StreamID(1)),
            runner_name: None,
            required_framework_version: None,
            runner_compat_version: 2,
            runner_opts: None,
            visible_device: Device::GPU { uuid: None },
            carton_manifest_hash: "h".to_string(),
        },
    };
    let mut want = vec![0u8; 8];
    want.push(0);
    want.extend_from_slice(&[1, 0, 0, 0, 0, 0, 0, 0]);
    want.push(0);
    want.push(0);
    want.extend_from_slice(&[2, 0, 0, 0, 0, 0, 0, 0]);
    want.push(0);
    want.extend_from_slice(&[1, 0]);
    want.extend_from_slice(&[1, 0, 0, 0, 0, 0, 0, 0, b'h']);
    assert_eq!(encode_request(&req), want);
}

#[test]
fn trailing_byte_is_rejected() {
    let resp = RPCResponse { id: 5, data: RPCResponseData::Seal { handle: SealHandle(1) } };
    let mut bytes = encode_response(&resp);
    bytes.push(0);
    assert_eq!(decode_response(&bytes).unwrap_err(), ConnectionError::MalformedMessage);
}

#[test]
fn every_cut_short_message_is_rejected() {
    let req = RPCRequest { id: 1, data: RPCRequestData::Seal { tensors: sample_tensors() } };
    let bytes = encode_request(&req);
    for n in 0..bytes.len() {
        assert_eq!(decode_request(&bytes[..n]).unwrap_err(), ConnectionError::MalformedMessage);
    }
    assert!(decode_request(&bytes).is_ok());
}

#[test]
fn unknown_variant_is_rejected() {
    let mut bytes = vec![0u8; 8];
    bytes.push(5);
    bytes.extend_from_slice(&[0; 8]);
    assert!(decode_request(&bytes).is_err());
    let mut bytes = vec![0u8; 8];
    bytes.push(6);
    bytes.extend_from_slice(&[0; 8]);
    assert!(decode_response(&bytes).is_err());
}

#[test]
fn text_that_is_not_utf8_is_rejected() {
    let mut bytes = vec![0u8; 8];
    bytes.push(4);
    bytes.extend_from_slice(&[2, 0, 0, 0, 0, 0, 0, 0, 0xff, 0xfe]);
    assert!(decode_response(&bytes).is_err());
    let mut good = vec![0u8; 8];
    good.push(4);
    good.extend_from_slice(&[2, 0, 0, 0, 0, 0, 0, 0, 0xc3, 0xa9]);
    match decode_response(&good).unwrap().data {
        RPCResponseData::Error { e } => assert_eq!(e, "\u{00e9}"),
        other => panic!("unexpected {:?}", other),
    }
}

#[test]
fn a_name_that_occurs_twice_is_rejected() {
    let mut bytes = vec![0u8; 8];
    bytes.push(3);
    bytes.extend_from_slice(&[2, 0, 0, 0, 0, 0, 0, 0]);
    for _ in 0..2 {
        bytes.extend_from_slice(&[1, 0, 0, 0, 0, 0, 0, 0, b'n']);
        bytes.push(0);
        bytes.extend_from_slice(&[3, 0, 0, 0, 0, 0, 0, 0]);
        bytes.extend_from_slice(&[16, 0, 0, 0, 0, 0, 0, 0]);
    }
    assert!(decode_response(&bytes).is_err());
    bytes[8 + 1 + 8 + 8] = b'm';
    assert!(decode_response(&bytes).is_ok());
}

#[test]
fn a_buffer_that_does_not_fit_the_shape_is_rejected() {
    let mut m = TensorMap::new();
    m.insert("t".to_string(), numeric(Dtype::U16, vec![2], 4));
    let resp = RPCResponse { id: 0, data: RPCResponseData::Infer { tensors: m } };
    let good = encode_response(&resp);
    assert!(decode_response(&good).is_ok());
    // The single dimension stands 8 bytes before the length of the buffer.
    let at = good.len() - 4 - 8 - 8;
    assert_eq!(good[at], 2);
    let mut bad = good.clone();
    bad[at] = 3;
    assert!(decode_response(&bad).is_err());
}

#[test]
fn a_device_without_its_prefix_is_rejected() {
    let req = RPCRequest {
        id: 0,
        data: RPCRequestData::Load {
            fs: FsToken(StreamID(1)),
            runner_name: None,
            required_framework_version: None,
            runner_compat_version: 2,
            runner_opts: None,
            visible_device: Device::GPU { uuid: Some("gpu-0".to_string()) },
            carton_manifest_hash: "h".to_string(),
        },
    };
    assert!(decode_request(&encode_request(&req)).is_err());
}
