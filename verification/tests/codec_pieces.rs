use carton_runner_interface::codec::{
    read_blob, read_opt_text, read_shape, read_text, read_texts, read_u64, read_u8, write_blob,
    write_opt_text, write_shape, write_text, write_texts, write_u64, write_u8,
};
use carton_runner_interface::tensor_wire::{
    dtype_from_tag, dtype_to_tag, read_entries, read_handle, read_tensor, write_entries,
    write_handle, write_tensor,
};
use carton_runner_interface::wire::{read_device, write_device};
use carton_runner_interface::{
    Device, Dtype, FdId, Handle, Tensor, TensorMap, TensorNumeric, TensorString,
};

#[test]
fn integers_are_eight_bytes_least_significant_first() {
    let mut out = vec![0xee];
    write_u64(&mut out, 0x0102_0304_0506_0708);
    write_u8(&mut out, 0x7f);
    assert_eq!(out, vec![0xee, 8, 7, 6, 5, 4, 3, 2, 1, 0x7f]);
    assert_eq!(read_u64(&out, 1), Some((0x0102_0304_0506_0708, 9)));
    assert_eq!(read_u8(&out, 9), Some((0x7f, 10)));
    assert_eq!(read_u8(&out, 10), None);
    assert_eq!(read_u64(&out, 3), None);
    assert_eq!(read_u64(&out, 2), Some((0x7f01_0203_0405_0607, 10)));
}

#[test]
fn byte_strings_and_text_carry_their_length() {
    let mut out = Vec::new();
    write_blob(&mut out, &[9, 8]);
    write_text(&mut out, "h\u{00e9}");
    write_opt_text(&mut out, &None);
    write_opt_text(&mut out, &Some("x".to_string()));
    let want = vec![
        2, 0, 0, 0, 0, 0, 0, 0, 9, 8, 3, 0, 0, 0, 0, 0, 0, 0, b'h', 0xc3, 0xa9, 0, 1, 1, 0, 0, 0,
        0, 0, 0, 0, b'x',
    ];
    assert_eq!(out, want);
    assert_eq!(read_blob(&out, 0), Some((vec![9, 8], 10)));
    assert_eq!(read_text(&out, 10), Some(("h\u{00e9}".to_string(), 21)));
    assert_eq!(read_opt_text(&out, 21), Some((None, 22)));
    assert_eq!(read_opt_text(&out, 22), Some((Some("x".to_string()), 32)));
    assert_eq!(read_opt_text(&out, 32), None);
    // A length that promises more than is left.
    assert_eq!(read_blob(&out, 2), None);
    // Two bytes that are no text.
    assert_eq!(read_text(&[2, 0, 0, 0, 0, 0, 0, 0, 0xc3, 0x28], 0), None);
    // A marker that is neither none nor some.
    assert_eq!(read_opt_text(&[2, 0], 0), None);
    // A length near the top of the range must not wrap around.
    let mut huge = u64::MAX.to_le_bytes().to_vec();
    huge.extend_from_slice(&[1, 2, 3]);
    assert_eq!(read_blob(&huge, 0), None);
}

#[test]
fn lists_carry_their_count() {
    let mut out = Vec::new();
    write_shape(&mut out, &vec![3, 1 << 40]);
    write_texts(&mut out, &vec!["a".to_string(), "".to_string()]);
    let mut want = vec![2, 0, 0, 0, 0, 0, 0, 0, 3, 0, 0, 0, 0, 0, 0, 0, 0, 0, 0, 0, 0, 1, 0, 0];
    want.extend_from_slice(&[2, 0, 0, 0, 0, 0, 0, 0]);
    want.extend_from_slice(&[1, 0, 0, 0, 0, 0, 0, 0, b'a']);
    want.extend_from_slice(&[0, 0, 0, 0, 0, 0, 0, 0]);
    assert_eq!(out, want);
    assert_eq!(read_shape(&out, 0), Some((vec![3, 1 << 40], 24)));
    assert_eq!(read_texts(&out, 24), Some((vec!["a".to_string(), "".to_string()], out.len())));
    assert_eq!(read_shape(&out[..23], 0), None);
    assert_eq!(read_texts(&out[..out.len() - 1], 24), None);
    assert_eq!(read_shape(&[0, 0, 0, 0, 0, 0, 0, 0], 0), Some((vec![], 8)));
    let huge = u64::MAX.to_le_bytes().to_vec();
    assert_eq!(read_shape(&huge, 0), None);
    assert_eq!(read_texts(&huge, 0), None);
}

#[test]
fn element_kinds_have_their_bytes() {
    let kinds = [
        Dtype::Float,
        Dtype::Double,
        Dtype::I8,
        Dtype::I16,
        Dtype::I32,
        Dtype::I64,
        Dtype::U8,
        Dtype::U16,
        Dtype::U32,
        Dtype::U64,
    ];
    for (i, k) in kinds.iter().enumerate() {
        assert_eq!(dtype_to_tag(*k), i as u8);
        assert_eq!(dtype_from_tag(i as u8), Some(*k));
    }
    assert_eq!(dtype_from_tag(10), None);
    assert_eq!(dtype_from_tag(255), None);
}

#[test]
fn tensors_and_handles_are_read_back() {
    let t = Tensor::Numeric(TensorNumeric::new(Dtype::U8, vec![2], vec![7, 8]).unwrap());
    assert!(t.is_numeric());
    let mut out = Vec::new();
    write_tensor(&mut out, &t);
    let (back, end) = read_tensor(&out, 0).unwrap();
    assert_eq!(end, out.len());
    assert_eq!(format!("{:?}", back), format!("{:?}", t));
    assert!(read_tensor(&out[..out.len() - 1], 0).is_none());
    assert!(read_tensor(&[2], 0).is_none());
    assert!(read_tensor(&[0, 10], 0).is_none());

    let s = Tensor::String(TensorString::new(vec![1], vec!["w".to_string()]).unwrap());
    assert!(!s.is_numeric());
    let inline = Handle::inline(s);
    assert!(!inline.is_shared());
    let shared: Handle<Tensor> = Handle::shared(FdId(2), 5);
    assert!(shared.is_shared());
    let mut out = Vec::new();
    write_handle(&mut out, &inline);
    let at = out.len();
    write_handle(&mut out, &shared);
    let (a, mid) = read_handle(&out, 0).unwrap();
    let (b, end) = read_handle(&out, mid).unwrap();
    assert_eq!((mid, end), (at, out.len()));
    assert_eq!(format!("{:?}", a), format!("{:?}", inline));
    assert_eq!(format!("{:?}", b), format!("{:?}", shared));
    assert!(read_handle(&[2], 0).is_none());
    assert!(read_handle(&out[..out.len() - 1], mid).is_none());

    let mut m = TensorMap::new();
    m.insert("k".to_string(), shared);
    let mut out = Vec::new();
    write_entries(&mut out, &m);
    let (back, end) = read_entries(&out, 0).unwrap();
    assert_eq!(end, out.len());
    assert_eq!(format!("{:?}", back), format!("{:?}", m));
}

#[test]
fn devices_are_read_back() {
    for d in [
        Device::CPU,
        Device::GPU { uuid: None },
        Device::GPU { uuid: Some("GPU-0".to_string()) },
    ] {
        let mut out = Vec::new();
        write_device(&mut out, &d);
        let (back, end) = read_device(&out, 0).unwrap();
        assert_eq!(end, out.len());
        assert_eq!(format!("{:?}", back), format!("{:?}", d));
    }
    assert!(read_device(&[2], 0).is_none());
    assert!(read_device(&[], 0).is_none());
    let mut out = Vec::new();
    write_device(&mut out, &Device::GPU { uuid: Some("cpu".to_string()) });
    assert!(read_device(&out, 0).is_none());
}
