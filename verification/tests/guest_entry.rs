use carton_runner_interface::component::NamedTensors;
use carton_runner_interface::{set_infer_fn, Dtype, InferSlot, Tensor, TensorNumeric};

fn echo(mut input: NamedTensors) -> NamedTensors {
    input.reverse();
    input
}

fn nothing(_input: NamedTensors) -> NamedTensors {
    Vec::new()
}

fn named(name: &str, byte: u8) -> (String, Tensor) {
    let t = TensorNumeric::new(Dtype::U8, vec![1], vec![byte]).unwrap();
    (name.to_string(), Tensor::Numeric(t))
}

#[test]
fn the_registered_function_is_called() {
    let mut slot: InferSlot<fn(NamedTensors) -> NamedTensors> = InferSlot::new();
    assert!(!slot.is_set());
    assert!(set_infer_fn(&mut slot, echo).is_ok());
    assert!(slot.is_set());
    let out = slot.infer(vec![named("a", 1), named("b", 2)]);
    let names: Vec<&str> = out.iter().map(|(n, _)| n.as_str()).collect();
    assert_eq!(names, vec!["b", "a"]);
}

#[test]
fn the_first_registration_stands() {
    let mut slot: InferSlot<fn(NamedTensors) -> NamedTensors> = InferSlot::new();
    assert!(set_infer_fn(&mut slot, echo).is_ok());
    assert!(set_infer_fn(&mut slot, nothing).is_err());
    assert_eq!(slot.infer(vec![named("a", 1)]).len(), 1);
}
