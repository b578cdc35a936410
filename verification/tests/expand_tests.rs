use patchouly::expand::{
    ArgKind, ArgSpec, FamilyOptions, FnSignature, HoleInit, NextStep, ReturnShape, Rets, SignatureError,
    StencilFamily, StencilPlan, check_family_name,
};
use patchouly::extract::{Metadata, PatchType, get_patch_type, parse_name};
use patchouly::stencils::Location;

fn arg(name: &str) -> ArgSpec {
    ArgSpec::Typed { kind: ArgKind::Arg, name: Some(name.to_string()) }
}

fn typed(kind: ArgKind, name: &str) -> ArgSpec {
    ArgSpec::Typed { kind, name: Some(name.to_string()) }
}

fn family(name: &str, args: Vec<ArgSpec>, ret: ReturnShape, registers: u16, returning: bool) -> StencilFamily {
    let sig = FnSignature::parse(name, &args, ret).unwrap();
    StencilFamily { name: name.to_string(), options: FamilyOptions { returning, abi: None, registers }, sig }
}

fn strs(v: &[String]) -> Vec<&str> {
    v.iter().map(|s| s.as_str()).collect()
}

fn inits(p: &StencilPlan) -> Vec<String> {
    p.hole_inits
        .iter()
        .map(|h| match h {
            HoleInit::Address { var, symbol } => format!("{var} = &{symbol}"),
            HoleInit::StackGet { var, symbol } => format!("{var} = stack[&{symbol}]"),
            HoleInit::Target { name } => format!("{name} = target"),
        })
        .collect()
}

fn rets(p: &StencilPlan) -> String {
    match &p.rets {
        Rets::Target => "target".to_string(),
        Rets::Single(s) => s.clone(),
        Rets::Tuple(v) => format!("({})", v.join(", ")),
    }
}

fn outputs(p: &StencilPlan) -> Vec<String> {
    p.hole_outputs.iter().map(|o| format!("stack[&{}] = {}", o.symbol, o.var)).collect()
}

fn is_next(p: &StencilPlan) -> bool {
    matches!(p.next, NextStep::Next)
}

#[test]
fn test_simple() {
    let f = family("add1", vec![arg("a")], ReturnShape::Path, 1, false);
    let plan = f.plan();
    assert_eq!(plan.meta_symbol, "__patchouly__add1__meta");
    assert_eq!(plan.meta, *b"\x01\0\x01\0\x01\0\0\0\x01\0");
    assert_eq!(plan.stencils.len(), 1);
    let p = &plan.stencils[0];
    assert_eq!(p.symbol, "__patchouly__add1__0__0");
    assert!(p.reg_names.is_empty());
    assert_eq!(strs(&p.hole_defs), vec!["add1__stack0", "add1__stack1"]);
    assert_eq!(inits(p), vec!["stack0 = stack[&add1__stack0]"]);
    assert_eq!(strs(&p.call_args), vec!["stack0"]);
    assert_eq!(rets(p), "stack1");
    assert_eq!(outputs(p), vec!["stack[&add1__stack1] = stack1"]);
    assert!(is_next(p));
}

#[test]
fn stencil_test_two_args() {
    let f = family("add2", vec![arg("a"), arg("b")], ReturnShape::Path, 1, false);
    let plan = f.plan();
    assert_eq!(plan.meta, *b"\x02\0\x01\0\x01\0\0\0\x01\0");
    assert_eq!(plan.stencils.len(), 1);
    let p = &plan.stencils[0];
    assert_eq!(p.symbol, "__patchouly__add2__0_0__0");
    assert_eq!(strs(&p.hole_defs), vec!["add2__stack0", "add2__stack1", "add2__stack2"]);
    assert_eq!(inits(p), vec!["stack0 = stack[&add2__stack0]", "stack1 = stack[&add2__stack1]"]);
    assert_eq!(strs(&p.call_args), vec!["stack0", "stack1"]);
    assert_eq!(rets(p), "stack2");
    assert_eq!(outputs(p), vec!["stack[&add2__stack2] = stack2"]);
    assert!(is_next(p));
}

#[test]
fn test_one_reg_in() {
    let f = family("consume", vec![arg("_a")], ReturnShape::Unit, 2, false);
    let plan = f.plan();
    assert_eq!(plan.meta, *b"\x01\0\0\0\x02\0\0\0\x01\0");
    assert_eq!(plan.stencils.len(), 2);
    let p = &plan.stencils[0];
    assert_eq!(p.symbol, "__patchouly__consume__0__");
    assert!(p.reg_names.is_empty());
    assert_eq!(strs(&p.hole_defs), vec!["consume__stack0"]);
    assert_eq!(inits(p), vec!["stack0 = stack[&consume__stack0]"]);
    assert_eq!(strs(&p.call_args), vec!["stack0"]);
    assert_eq!(rets(p), "()");
    assert!(outputs(p).is_empty());
    assert!(is_next(p));
    let p = &plan.stencils[1];
    assert_eq!(p.symbol, "__patchouly__consume__1__");
    assert_eq!(strs(&p.reg_names), vec!["in0"]);
    assert!(p.hole_defs.is_empty());
    assert!(inits(p).is_empty());
    assert_eq!(strs(&p.call_args), vec!["in0"]);
    assert_eq!(rets(p), "()");
    assert!(is_next(p));
}

#[test]
fn test_one_reg_out() {
    let f = family("zero", vec![], ReturnShape::Path, 2, false);
    let plan = f.plan();
    assert_eq!(plan.meta, *b"\0\0\x01\0\x02\0\0\0\x01\0");
    assert_eq!(plan.stencils.len(), 2);
    let p = &plan.stencils[0];
    assert_eq!(p.symbol, "__patchouly__zero____0");
    assert_eq!(strs(&p.hole_defs), vec!["zero__stack0"]);
    assert!(inits(p).is_empty());
    assert!(p.call_args.is_empty());
    assert_eq!(rets(p), "stack0");
    assert_eq!(outputs(p), vec!["stack[&zero__stack0] = stack0"]);
    let p = &plan.stencils[1];
    assert_eq!(p.symbol, "__patchouly__zero____1");
    assert_eq!(strs(&p.reg_names), vec!["out0"]);
    assert!(p.hole_defs.is_empty());
    assert_eq!(rets(p), "out0");
    assert!(outputs(p).is_empty());
    assert!(is_next(p));
}

#[test]
fn test_hole_out() {
    let f = family("iconst", vec![typed(ArgKind::Hole, "c")], ReturnShape::Path, 1, false);
    let plan = f.plan();
    assert_eq!(plan.meta, *b"\0\0\x01\0\x01\0\x01\0\x01\0");
    assert_eq!(plan.stencils.len(), 1);
    let p = &plan.stencils[0];
    assert_eq!(p.symbol, "__patchouly__iconst____0");
    assert_eq!(strs(&p.hole_defs), vec!["iconst__hole0", "iconst__stack0"]);
    assert_eq!(inits(p), vec!["hole0 = &iconst__hole0"]);
    assert_eq!(strs(&p.call_args), vec!["hole0"]);
    assert_eq!(rets(p), "stack0");
    assert_eq!(outputs(p), vec!["stack[&iconst__stack0] = stack0"]);
    assert!(is_next(p));
}

#[test]
fn test_if_else() {
    let args = vec![arg("a"), typed(ArgKind::Target, "then"), typed(ArgKind::Target, "or_else")];
    let f = family("if_else", args, ReturnShape::Other, 1, false);
    assert_eq!(f.sig.target_enum.as_deref(), Some("if_else__targets"));
    assert_eq!(strs(&f.sig.target_names), vec!["target0_then", "target1_or_else"]);
    let plan = f.plan();
    assert_eq!(plan.meta, *b"\x01\0\0\0\x01\0\0\0\x02\0");
    assert_eq!(plan.stencils.len(), 1);
    let p = &plan.stencils[0];
    assert_eq!(p.symbol, "__patchouly__if_else__0__");
    assert_eq!(strs(&p.hole_defs), vec!["if_else__stack0"]);
    assert_eq!(
        inits(p),
        vec!["stack0 = stack[&if_else__stack0]", "target0_then = target", "target1_or_else = target"]
    );
    assert_eq!(strs(&p.call_args), vec!["stack0", "target0_then", "target1_or_else"]);
    assert_eq!(rets(p), "target");
    match &p.next {
        NextStep::Targets(v) => {
            let v: Vec<(&str, &str)> = v.iter().map(|(a, b)| (a.as_str(), b.as_str())).collect();
            assert_eq!(
                v,
                vec![("target0_then", "if_else__target0_then"), ("target1_or_else", "if_else__target1_or_else")]
            );
        }
        _ => panic!("expected a jump to the picked target"),
    }
}

#[test]
fn test_returns() {
    let f = family("returns", vec![arg("a")], ReturnShape::Path, 2, true);
    let plan = f.plan();
    assert_eq!(plan.meta, *b"\x01\0\x01\0\x02\0\0\0\0\0");
    let symbols: Vec<&str> = plan.stencils.iter().map(|p| p.symbol.as_str()).collect();
    assert_eq!(
        symbols,
        vec!["__patchouly__returns__0__0", "__patchouly__returns__0__1", "__patchouly__returns__1__0", "__patchouly__returns__1__1"]
    );
    let regs: Vec<Vec<&str>> = plan.stencils.iter().map(|p| strs(&p.reg_names)).collect();
    assert_eq!(regs, vec![vec![], vec!["out0"], vec!["in0"], vec!["in0_out0"]]);
    let defs: Vec<Vec<&str>> = plan.stencils.iter().map(|p| strs(&p.hole_defs)).collect();
    assert_eq!(
        defs,
        vec![vec!["returns__stack0", "returns__stack1"], vec!["returns__stack0"], vec!["returns__stack0"], vec![]]
    );
    let calls: Vec<Vec<&str>> = plan.stencils.iter().map(|p| strs(&p.call_args)).collect();
    assert_eq!(calls, vec![vec!["stack0"], vec!["stack0"], vec!["in0"], vec!["in0_out0"]]);
    let r: Vec<String> = plan.stencils.iter().map(rets).collect();
    assert_eq!(r, vec!["stack1", "out0", "stack0", "in0_out0"]);
    assert_eq!(outputs(&plan.stencils[0]), vec!["stack[&returns__stack1] = stack1"]);
    assert_eq!(outputs(&plan.stencils[2]), vec!["stack[&returns__stack0] = stack0"]);
    assert!(plan.stencils.iter().all(|p| matches!(p.next, NextStep::Return)));
}

#[test]
fn generated_symbols_read_back_in_extraction() {
    let f = family("add", vec![arg("a"), arg("b")], ReturnShape::Path, 3, false);
    let plan = f.plan();
    assert_eq!(plan.stencils.len(), 7 * 3);
    let distinct: std::collections::HashSet<&str> = plan.stencils.iter().map(|p| p.symbol.as_str()).collect();
    assert_eq!(distinct.len(), plan.stencils.len());
    for p in &plan.stencils {
        let rest = p.symbol.strip_prefix("__patchouly__").unwrap();
        let (name, args) = parse_name(rest).unwrap();
        assert_eq!(name, "add");
        assert_eq!(args.inputs.as_slice().len(), 2);
        assert_eq!(args.outputs.as_slice().len(), 1);
    }
    let (_, args) = parse_name(plan.stencils[7].symbol.strip_prefix("__patchouly__").unwrap()).unwrap();
    // The eighth placement is [0, 2, 1]: the first argument on the stack,
    // the second in register 1, the return in register 0.
    assert_eq!(plan.stencils[7].symbol, "__patchouly__add__0_2__1");
    assert_eq!(args.inputs.as_slice(), &[Location::Stack(0), Location::Register(1)]);
    assert_eq!(args.outputs.as_slice(), &[Location::Register(0)]);
}

#[test]
fn generated_holes_resolve_in_extraction() {
    let args = vec![typed(ArgKind::Hole, "x"), typed(ArgKind::Hole, "y"), typed(ArgKind::Target, "done")];
    let f = family("k", args, ReturnShape::Other, 1, false);
    let plan = f.plan();
    let p = &plan.stencils[0];
    assert_eq!(strs(&p.hole_defs), vec!["k__hole0", "k__hole1"]);
    assert_eq!(get_patch_type("k", &p.hole_defs[0]), Some(PatchType::Hole(0)));
    assert_eq!(get_patch_type("k", &p.hole_defs[1]), Some(PatchType::Hole(1)));
    match &p.next {
        NextStep::Targets(v) => assert_eq!(get_patch_type("k", &v[0].1), Some(PatchType::Target(0))),
        _ => panic!("expected a jump to the picked target"),
    }
    let g = family("s", vec![arg("a")], ReturnShape::Unit, 1, false);
    let q = &g.plan().stencils[0];
    assert_eq!(get_patch_type("s", &q.hole_defs[0]), Some(PatchType::Stack(0)));
}

#[test]
fn metadata_reads_back() {
    let f = family("iconst", vec![typed(ArgKind::Hole, "c")], ReturnShape::Path, 0, false);
    let m = Metadata::unpack(&f.meta_bytes()).unwrap();
    assert_eq!(m, Metadata { inputs: 0, outputs: 1, max_regs: 10, holes: 1, jumps: 1 });
    assert_eq!(f.metadata(), m);
}

#[test]
fn signature_errors() {
    let e = FnSignature::parse("f", &vec![ArgSpec::Receiver], ReturnShape::Unit).err().unwrap();
    assert_eq!(e, SignatureError::ExpectedType);
    assert_eq!(e.message(), "expected type");
    let nameless = ArgSpec::Typed { kind: ArgKind::Target, name: None };
    let e = FnSignature::parse("f", &vec![arg("a"), nameless], ReturnShape::Other).err().unwrap();
    assert_eq!(e, SignatureError::ExpectedName);
    let e = FnSignature::parse("f", &vec![], ReturnShape::Tuple(70000)).err().unwrap();
    assert_eq!(e, SignatureError::TooManyArguments);
    assert!(FnSignature::parse("f", &vec![], ReturnShape::Tuple(65534)).is_ok());
    assert!(FnSignature::parse("f", &vec![], ReturnShape::Tuple(65535)).is_err());
}

#[test]
fn signature_reading() {
    let args = vec![
        typed(ArgKind::Stack, "stack"),
        arg("a"),
        typed(ArgKind::Hole, "h"),
        arg("b"),
        typed(ArgKind::Target, "t"),
    ];
    let s = FnSignature::parse("g", &args, ReturnShape::Other).unwrap();
    assert_eq!(s.inputs, 2);
    assert_eq!(s.outputs, 0);
    assert_eq!(strs(&s.hole_names), vec!["hole0"]);
    assert_eq!(strs(&s.target_names), vec!["target0_t"]);
    assert_eq!(s.target_enum.as_deref(), Some("g__targets"));
    let f = family("h", vec![arg("a")], ReturnShape::Tuple(3), 1, false);
    assert_eq!((f.sig.inputs, f.sig.outputs), (1, 3));
}

#[test]
fn return_types_that_cannot_be_read() {
    assert!(!FnSignature::return_supported(&vec![arg("a")], ReturnShape::Other));
    assert!(FnSignature::return_supported(&vec![arg("a")], ReturnShape::Path));
    assert!(FnSignature::return_supported(&vec![typed(ArgKind::Target, "t")], ReturnShape::Other));
    assert!(FnSignature::return_supported(&vec![ArgSpec::Receiver], ReturnShape::Other));
}

#[test]
fn family_names() {
    assert!(check_family_name("add1"));
    assert!(check_family_name("__empty"));
    assert!(!check_family_name("add__1"));
    assert!(!check_family_name("__move"));
}

#[test]
fn options_defaults() {
    let o = FamilyOptions { returning: false, abi: None, registers: 0 };
    assert_eq!(o.registers(), 10);
    assert_eq!(o.abi(), "rust-preserve-none");
    let o = FamilyOptions { returning: false, abi: Some("C".to_string()), registers: 4 };
    assert_eq!(o.registers(), 4);
    assert_eq!(o.abi(), "C");
}
