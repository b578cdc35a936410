use patchouly::single::{SingleArg, SingleError, SingleSignature};

fn arg(name: &str) -> SingleArg {
    SingleArg::Typed { name: Some(name.to_string()), hole: false }
}

fn hole(name: &str) -> SingleArg {
    SingleArg::Typed { name: Some(name.to_string()), hole: true }
}

fn strs(v: &[String]) -> Vec<&str> {
    v.iter().map(|s| s.as_str()).collect()
}

#[test]
fn test() {
    // pub fn foo(a: usize, #[hole] b: usize) -> (usize, usize)
    let sig = SingleSignature::parse(&vec![arg("a"), hole("b")], Some(2)).unwrap();
    assert_eq!(strs(&sig.inputs), vec!["a"]);
    assert_eq!(strs(&sig.holes), vec!["b"]);
    assert_eq!(sig.outputs, 2);
    let plan = sig.plan();
    assert_eq!(strs(&plan.output_names), vec!["in0", "in1"]);
    assert_eq!(strs(&plan.impl_args), vec!["in0", "b"]);
    let statics: Vec<(&str, &str)> = plan.hole_statics.iter().map(|(a, b)| (a.as_str(), b.as_str())).collect();
    assert_eq!(statics, vec![("b", "HOLE0")]);
}

#[test]
fn more_arguments_than_returns_pass_only_as_many() {
    let sig = SingleSignature::parse(&vec![arg("a"), arg("b"), arg("c")], Some(1)).unwrap();
    let plan = sig.plan();
    assert_eq!(strs(&plan.output_names), vec!["in0"]);
    assert_eq!(strs(&plan.impl_args), vec!["in0"]);
    let sig = SingleSignature::parse(&vec![hole("x"), hole("y")], Some(0)).unwrap();
    let plan = sig.plan();
    assert!(plan.output_names.is_empty());
    assert_eq!(strs(&plan.impl_args), vec!["x", "y"]);
    let statics: Vec<&str> = plan.hole_statics.iter().map(|(_, s)| s.as_str()).collect();
    assert_eq!(statics, vec!["HOLE0", "HOLE1"]);
}

#[test]
fn single_signature_errors() {
    assert_eq!(
        SingleSignature::parse(&vec![SingleArg::Receiver], Some(1)).err(),
        Some(SingleError::UnsupportedArgType)
    );
    let nameless = SingleArg::Typed { name: None, hole: false };
    assert_eq!(SingleSignature::parse(&vec![nameless], Some(1)).err(), Some(SingleError::UnsupportedArgPattern));
    let e = SingleSignature::parse(&vec![hole("h"), arg("a")], Some(1)).err().unwrap();
    assert_eq!(e, SingleError::InputsAfterHoles);
    assert_eq!(e.message(), "input args must come before holes");
    assert_eq!(SingleSignature::parse(&vec![arg("a")], None).err(), Some(SingleError::ReturnTypeExpected));
    // An argument refused comes before a missing return type.
    assert_eq!(
        SingleSignature::parse(&vec![hole("h"), arg("a")], None).err(),
        Some(SingleError::InputsAfterHoles)
    );
}
