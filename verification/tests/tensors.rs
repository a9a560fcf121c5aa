use carton_runner_interface::handle::Handle;
use carton_runner_interface::message::check_device_uuid;
use carton_runner_interface::tensor::checked_element_count;
use carton_runner_interface::text::{bytes_eq, bytes_start_with, str_eq, text_from_utf8, text_len};
use carton_runner_interface::{
    ChannelId, Device, Dtype, FdId, Tensor, TensorMap, TensorNumeric, TensorString,
};

#[test]
fn element_count_is_the_product_of_the_shape() {
    assert_eq!(checked_element_count(&vec![]), Some(1));
    assert_eq!(checked_element_count(&vec![7]), Some(7));
    assert_eq!(checked_element_count(&vec![2, 3, 4]), Some(24));
    assert_eq!(checked_element_count(&vec![5, 0, 9]), Some(0));
    assert_eq!(checked_element_count(&vec![1 << 32, 1 << 31]), Some(1 << 63));
}

#[test]
fn element_count_reports_overflow() {
    assert_eq!(checked_element_count(&vec![1 << 32, 1 << 32]), None);
    assert_eq!(checked_element_count(&vec![u64::MAX, 2]), None);
    assert_eq!(checked_element_count(&vec![u64::MAX, 1]), Some(u64::MAX));
    assert_eq!(checked_element_count(&vec![u64::MAX, u64::MAX, 0]), Some(0));
}

#[test]
fn element_sizes() {
    assert_eq!(Dtype::I8.size_bytes(), 1);
    assert_eq!(Dtype::U8.size_bytes(), 1);
    assert_eq!(Dtype::I16.size_bytes(), 2);
    assert_eq!(Dtype::U16.size_bytes(), 2);
    assert_eq!(Dtype::Float.size_bytes(), 4);
    assert_eq!(Dtype::I32.size_bytes(), 4);
    assert_eq!(Dtype::U32.size_bytes(), 4);
    assert_eq!(Dtype::Double.size_bytes(), 8);
    assert_eq!(Dtype::I64.size_bytes(), 8);
    assert_eq!(Dtype::U64.size_bytes(), 8);
}

#[test]
fn numeric_tensor_needs_a_fitting_buffer() {
    let t = TensorNumeric::new(Dtype::I32, vec![2, 2], vec![0; 16]).unwrap();
    assert_eq!(t.dtype(), Dtype::I32);
    assert_eq!(t.shape(), &vec![2, 2]);
    assert_eq!(t.buffer().len(), 16);
    assert!(TensorNumeric::new(Dtype::I32, vec![2, 2], vec![0; 15]).is_none());
    assert!(TensorNumeric::new(Dtype::I32, vec![2, 2], vec![0; 17]).is_none());
    assert!(TensorNumeric::new(Dtype::I32, vec![], vec![0; 4]).is_some());
    assert!(TensorNumeric::new(Dtype::I32, vec![0], vec![]).is_some());
    assert!(TensorNumeric::new(Dtype::U8, vec![u64::MAX, u64::MAX], vec![]).is_none());
    assert!(TensorNumeric::new(Dtype::U64, vec![1 << 62], vec![]).is_none());
}

#[test]
fn string_tensor_needs_one_string_per_element() {
    let t = TensorString::new(vec![2], vec!["a".to_string(), "b".to_string()]).unwrap();
    assert_eq!(t.shape(), &vec![2]);
    assert_eq!(t.buffer(), &vec!["a".to_string(), "b".to_string()]);
    assert!(TensorString::new(vec![3], vec!["a".to_string()]).is_none());
    assert!(TensorString::new(vec![], vec![]).is_none());
    assert!(TensorString::new(vec![], vec!["one".to_string()]).is_some());
}

#[test]
fn channel_numbers_are_fixed() {
    assert_eq!(ChannelId::Rpc.id(), 0);
    assert_eq!(ChannelId::FileSystem.id(), 1);
    assert_eq!(ChannelId::CartonData.id(), 2);
    assert_eq!(ChannelId::NUM_RESERVED_IDS.id(), 3);
    assert_eq!(ChannelId::from_id(0), Some(ChannelId::Rpc));
    assert_eq!(ChannelId::from_id(1), Some(ChannelId::FileSystem));
    assert_eq!(ChannelId::from_id(2), Some(ChannelId::CartonData));
    assert_eq!(ChannelId::from_id(3), None);
    assert_eq!(ChannelId::from_id(255), None);
}

#[test]
fn device_identifiers_carry_a_prefix() {
    assert!(check_device_uuid("GPU-8932f937-d72c-4106-c12f-20bd9faed9f6"));
    assert!(check_device_uuid("MIG-GPU-8932f937/1/2"));
    assert!(check_device_uuid("GPU-"));
    assert!(!check_device_uuid("GPU"));
    assert!(!check_device_uuid("gpu-1"));
    assert!(!check_device_uuid("MIG-1"));
    assert!(!check_device_uuid(""));
    assert!(Device::CPU.is_valid());
    assert!(Device::GPU { uuid: None }.is_valid());
    assert!(Device::GPU { uuid: Some("MIG-GPU-x".to_string()) }.is_valid());
    assert!(!Device::GPU { uuid: Some("x".to_string()) }.is_valid());
}

#[test]
fn tensor_map_holds_each_name_once() {
    let mut m = TensorMap::new();
    assert_eq!(m.len(), 0);
    assert!(m.insert("a".to_string(), Handle::shared(FdId(1), 10)).is_none());
    assert!(m.insert("b".to_string(), Handle::shared(FdId(2), 20)).is_none());
    assert_eq!(m.len(), 2);
    assert_eq!(m.position("b"), Some(1));
    assert_eq!(m.position("c"), None);
    let old = m.insert("a".to_string(), Handle::shared(FdId(3), 30)).unwrap();
    assert!(matches!(old, Handle::Shared { fd_id: FdId(1), size_bytes: 10, .. }));
    assert_eq!(m.len(), 2);
    assert_eq!(m.name_at(0), "a");
    assert_eq!(m.name_at(1), "b");
    assert!(matches!(m.get("a"), Some(Handle::Shared { fd_id: FdId(3), size_bytes: 30, .. })));
    assert!(matches!(m.handle_at(1), Handle::Shared { fd_id: FdId(2), .. }));
    assert!(m.get("zz").is_none());
}

#[test]
fn inline_handle_carries_its_tensor() {
    let t = TensorNumeric::new(Dtype::U8, vec![1], vec![9]).unwrap();
    match Handle::inline(Tensor::Numeric(t)) {
        Handle::Inline { inner: Tensor::Numeric(n) } => assert_eq!(n.buffer(), &vec![9]),
        _ => panic!("not inline"),
    }
}

#[test]
fn text_helpers() {
    assert!(bytes_eq(b"abc", b"abc"));
    assert!(!bytes_eq(b"abc", b"abd"));
    assert!(!bytes_eq(b"abc", b"ab"));
    assert!(bytes_eq(b"", b""));
    assert!(bytes_start_with(b"abc", b"ab"));
    assert!(bytes_start_with(b"abc", b""));
    assert!(!bytes_start_with(b"ab", b"abc"));
    assert!(!bytes_start_with(b"abc", b"bc"));
    assert!(str_eq("x", "x"));
    assert!(!str_eq("x", "y"));
    assert_eq!(text_len("\u{00e9}a"), 3);
    assert_eq!(text_from_utf8(vec![0xc3, 0xa9, b'a']), Some("\u{00e9}a".to_string()));
    assert_eq!(text_from_utf8(vec![0xc3]), None);
    assert_eq!(text_from_utf8(vec![]), Some(String::new()));
}
