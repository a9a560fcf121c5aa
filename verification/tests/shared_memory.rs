use carton_runner_interface::shm::{
    export_tensor, import_tensor, read_region, tensor_from_region, tensor_to_region, HandleError,
    Peer, Region, RegionTable, Release, TransportKind,
};
use carton_runner_interface::{Dtype, FdId, Handle, Tensor, TensorNumeric, TensorString};

fn tensor() -> Tensor {
    Tensor::Numeric(TensorNumeric::new(Dtype::I16, vec![2, 2], vec![1, 2, 3, 4, 5, 6, 7, 8]).unwrap())
}

#[test]
fn a_read_within_the_declared_length_gives_the_bytes() {
    let region: Vec<u8> = (0..10).collect();
    let h: Handle<Tensor> = Handle::shared(FdId(1), 10);
    assert_eq!(read_region(&h, &region, 0, 10), Ok(region.clone()));
    assert_eq!(read_region(&h, &region, 3, 4), Ok(vec![3, 4, 5, 6]));
    assert_eq!(read_region(&h, &region, 10, 0), Ok(vec![]));
    assert_eq!(read_region(&h, &region, 9, 1), Ok(vec![9]));
}

#[test]
fn a_read_past_the_declared_length_fails() {
    let region: Vec<u8> = (0..10).collect();
    let h: Handle<Tensor> = Handle::shared(FdId(1), 10);
    assert_eq!(read_region(&h, &region, 0, 11), Err(HandleError::OutOfBounds));
    assert_eq!(read_region(&h, &region, 9, 2), Err(HandleError::OutOfBounds));
    assert_eq!(read_region(&h, &region, 11, 0), Err(HandleError::OutOfBounds));
    assert_eq!(read_region(&h, &region, u64::MAX, 1), Err(HandleError::OutOfBounds));
    assert_eq!(read_region(&h, &region, 1, u64::MAX), Err(HandleError::OutOfBounds));
    assert_eq!(read_region(&h, &region, u64::MAX, u64::MAX), Err(HandleError::OutOfBounds));
}

#[test]
fn a_region_of_another_length_is_not_read() {
    let region: Vec<u8> = (0..10).collect();
    let short: Handle<Tensor> = Handle::shared(FdId(1), 8);
    let long: Handle<Tensor> = Handle::shared(FdId(1), 12);
    assert_eq!(read_region(&short, &region, 0, 4), Err(HandleError::SizeMismatch));
    assert_eq!(read_region(&long, &region, 0, 4), Err(HandleError::SizeMismatch));
    assert_eq!(read_region(&long, &region, 0, 12), Err(HandleError::SizeMismatch));
    let inline = Handle::inline(tensor());
    assert_eq!(read_region(&inline, &region, 0, 1), Err(HandleError::NotShared));
}

#[test]
fn a_tensor_comes_back_out_of_its_region() {
    let t = tensor();
    let bytes = tensor_to_region(&t);
    let mut want = vec![0u8, 3];
    want.extend_from_slice(&[2, 0, 0, 0, 0, 0, 0, 0]);
    want.extend_from_slice(&[2, 0, 0, 0, 0, 0, 0, 0]);
    want.extend_from_slice(&[2, 0, 0, 0, 0, 0, 0, 0]);
    want.extend_from_slice(&[8, 0, 0, 0, 0, 0, 0, 0]);
    want.extend_from_slice(&[1, 2, 3, 4, 5, 6, 7, 8]);
    assert_eq!(bytes, want);
    let h: Handle<Tensor> = Handle::shared(FdId(4), bytes.len() as u64);
    let back = tensor_from_region(&h, &bytes).unwrap();
    assert_eq!(format!("{:?}", back), format!("{:?}", t));
}

#[test]
fn a_region_that_holds_no_tensor_is_refused() {
    let bytes = tensor_to_region(&tensor());
    let h: Handle<Tensor> = Handle::shared(FdId(4), bytes.len() as u64);
    let mut longer = bytes.clone();
    longer.push(0);
    assert_eq!(tensor_from_region(&h, &longer).unwrap_err(), HandleError::SizeMismatch);
    let h2: Handle<Tensor> = Handle::shared(FdId(4), longer.len() as u64);
    assert_eq!(tensor_from_region(&h2, &longer).unwrap_err(), HandleError::Malformed);
    let h3: Handle<Tensor> = Handle::shared(FdId(4), 3);
    assert_eq!(tensor_from_region(&h3, &bytes[..3]).unwrap_err(), HandleError::Malformed);
    assert_eq!(
        tensor_from_region(&Handle::inline(tensor()), &bytes).unwrap_err(),
        HandleError::NotShared
    );
}

#[test]
fn both_transports_carry_the_same_tensor() {
    for kind in [TransportKind::Inline, TransportKind::SharedMemory] {
        let mut regions = RegionTable::new();
        let s = TensorString::new(vec![2], vec!["a".to_string(), "bc".to_string()]).unwrap();
        for t in [tensor(), Tensor::String(s)] {
            let shown = format!("{:?}", t);
            let out = export_tensor(kind, &mut regions, t).unwrap();
            assert_eq!(out.region.is_some(), kind == TransportKind::SharedMemory);
            let back = import_tensor(out.handle, out.region.as_deref()).unwrap();
            assert_eq!(format!("{:?}", back), shown);
        }
    }
}

#[test]
fn a_shared_export_enters_a_region() {
    let mut regions = RegionTable::new();
    let out = export_tensor(TransportKind::SharedMemory, &mut regions, tensor()).unwrap();
    let len = out.region.as_ref().unwrap().len() as u64;
    assert!(matches!(out.handle, Handle::Shared { fd_id: FdId(0), size_bytes, .. } if size_bytes == len));
    assert_eq!(
        regions.get(FdId(0)),
        Some(Region { size_bytes: len, held_by_orchestrator: true, held_by_runner: true })
    );
    let shared: Handle<Tensor> = Handle::shared(FdId(0), len);
    assert_eq!(import_tensor(shared, None).unwrap_err(), HandleError::NotMapped);
    let mut inline_only = RegionTable::new();
    let out = export_tensor(TransportKind::Inline, &mut inline_only, tensor()).unwrap();
    assert!(matches!(out.handle, Handle::Inline { .. }));
    assert_eq!(inline_only.get(FdId(0)), None);
}

#[test]
fn a_region_is_closed_when_its_last_holder_lets_go() {
    let mut regions = RegionTable::new();
    let a: Handle<Tensor> = regions.open(100).unwrap();
    let b: Handle<Tensor> = regions.open(200).unwrap();
    assert!(matches!(a, Handle::Shared { fd_id: FdId(0), size_bytes: 100, .. }));
    assert!(matches!(b, Handle::Shared { fd_id: FdId(1), size_bytes: 200, .. }));
    assert_eq!(regions.release(FdId(0), Peer::Runner), Release::StillHeld);
    assert_eq!(
        regions.get(FdId(0)),
        Some(Region { size_bytes: 100, held_by_orchestrator: true, held_by_runner: false })
    );
    assert_eq!(regions.release(FdId(0), Peer::Runner), Release::StillHeld);
    assert_eq!(regions.release(FdId(0), Peer::Orchestrator), Release::Close);
    assert_eq!(regions.get(FdId(0)), None);
    assert_eq!(regions.release(FdId(0), Peer::Orchestrator), Release::Unknown);
    assert_eq!(regions.release(FdId(9), Peer::Runner), Release::Unknown);
    assert_eq!(regions.release(FdId(1), Peer::Orchestrator), Release::StillHeld);
    assert_eq!(regions.release(FdId(1), Peer::Runner), Release::Close);
    let c: Handle<Tensor> = regions.open(1).unwrap();
    assert!(matches!(c, Handle::Shared { fd_id: FdId(2), .. }));
}
