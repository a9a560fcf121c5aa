use carton_runner_interface::seal::{SealCache, SealError};
use carton_runner_interface::{
    Dtype, FdId, FsToken, Handle, RPCRequestData, SealHandle, StreamID, Tensor, TensorMap,
    TensorNumeric,
};

fn tensors(seed: u8) -> TensorMap {
    let mut m = TensorMap::new();
    let t = TensorNumeric::new(Dtype::U8, vec![3], vec![seed, seed + 1, seed + 2]).unwrap();
    m.insert("x".to_string(), Handle::inline(Tensor::Numeric(t)));
    m.insert("y".to_string(), Handle::shared(FdId(seed as u64), 64));
    m
}

// A stand-in for a model: what it gives depends on its inputs alone.
fn model(inputs: &TensorMap) -> String {
    format!("{:?}", inputs)
}

#[test]
fn sealing_and_inferring_by_handle_is_inferring_with_the_tensors() {
    let mut cache = SealCache::new();
    let handle = cache.seal(tensors(1)).unwrap();
    let by_handle = RPCRequestData::InferWithHandle { handle };
    let by_tensors = RPCRequestData::InferWithTensors { tensors: tensors(1) };
    let a = model(cache.input(&by_handle).unwrap());
    let b = model(cache.input(&by_tensors).unwrap());
    assert_eq!(a, b);
    assert_eq!(a, model(&tensors(1)));
    assert_eq!(model(cache.input(&by_handle).unwrap()), a);
}

#[test]
fn every_seal_gives_a_new_handle() {
    let mut cache = SealCache::new();
    assert_eq!(cache.seal(tensors(1)).unwrap(), SealHandle(0));
    assert_eq!(cache.seal(tensors(1)).unwrap(), SealHandle(1));
    assert_eq!(cache.seal(tensors(2)).unwrap(), SealHandle(2));
    assert!(cache.release(SealHandle(1)).is_some());
    assert_eq!(cache.seal(tensors(1)).unwrap(), SealHandle(3));
}

#[test]
fn a_sealed_set_stays_as_it_is() {
    let mut cache = SealCache::new();
    let first = cache.seal(tensors(1)).unwrap();
    let shown = model(cache.get(first).unwrap());
    let second = cache.seal(tensors(9)).unwrap();
    assert_eq!(model(cache.get(first).unwrap()), shown);
    cache.release(second);
    assert_eq!(model(cache.get(first).unwrap()), shown);
    assert_eq!(shown, model(&tensors(1)));
}

#[test]
fn an_unknown_handle_is_refused() {
    let mut cache = SealCache::new();
    let stranger = RPCRequestData::InferWithHandle { handle: SealHandle(0) };
    assert_eq!(cache.input(&stranger).unwrap_err(), SealError::UnknownHandle);
    let handle = cache.seal(tensors(1)).unwrap();
    assert!(cache.input(&RPCRequestData::InferWithHandle { handle }).is_ok());
    let released = cache.release(handle).unwrap();
    assert_eq!(model(&released), model(&tensors(1)));
    assert!(cache.release(handle).is_none());
    assert!(cache.get(handle).is_none());
    assert_eq!(
        cache.input(&RPCRequestData::InferWithHandle { handle }).unwrap_err(),
        SealError::UnknownHandle
    );
}

#[test]
fn only_inference_has_inputs() {
    let cache = SealCache::new();
    let seal = RPCRequestData::Seal { tensors: tensors(1) };
    assert_eq!(cache.input(&seal).unwrap_err(), SealError::NotInference);
    let pack = RPCRequestData::Pack {
        fs: FsToken(StreamID(0)),
        input_path: "a".to_string(),
        temp_folder: "b".to_string(),
    };
    assert_eq!(cache.input(&pack).unwrap_err(), SealError::NotInference);
}
