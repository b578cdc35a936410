use patchouly::extract::{
    BuildError, Metadata, ObjectEncoding, ObjectKind, PatchType, StencilArgs, StencilFamilyBuilder,
    StencilSetup, get_patch_type, new_relocation, parse_args, parse_name,
};
use patchouly::relocation::{PatchKind, Relocation, RelocationEncoding};
use patchouly::stencils::{Location, io_to_index};

#[test]
fn test_parse_name() {
    let max_args = 10;
    let assertions = [("add_const__1__0", "add_const", 10), ("add_const__9__0", "add_const", 90)];
    for (input, name, index) in assertions {
        let (n, args) = parse_name(input).unwrap();
        assert_eq!(n, name);
        assert_eq!(io_to_index(args.inputs.as_slice(), args.outputs.as_slice(), max_args, false), index);
    }
}

#[test]
fn test_parse_args() {
    let assertions = [("1", "0", 10, 10), ("9", "0", 10, 90)];
    for (inputs, outputs, max_args, index) in assertions {
        let args = StencilArgs::parse(inputs, outputs).unwrap();
        assert_eq!(io_to_index(args.inputs.as_slice(), args.outputs.as_slice(), max_args, false), index);
    }
}

#[test]
fn argument_lists() {
    assert_eq!(parse_args("").unwrap().as_slice(), &[]);
    assert_eq!(
        parse_args("0_3_+12").unwrap().as_slice(),
        &[Location::Stack(0), Location::Register(2), Location::Register(11)]
    );
    assert!(parse_args("1_x").is_none());
    assert!(parse_args("70000").is_none());
    assert!(parse_args("1__2").is_none());
}

#[test]
fn stencil_names() {
    let (n, args) = parse_name("__empty____").unwrap();
    assert_eq!(n, "__empty");
    assert!(args.inputs.as_slice().is_empty() && args.outputs.as_slice().is_empty());
    assert!(parse_name("add").is_none());
    assert!(parse_name("add__1").is_none());
    assert!(parse_name("add__1__2__3").is_none());
    let (n, args) = parse_name("a__1__").unwrap();
    assert_eq!(n, "a");
    assert_eq!(args.inputs.as_slice(), &[Location::Register(0)]);
    assert!(args.outputs.as_slice().is_empty());
    assert!(parse_name("a___1__").is_none());
    assert!(parse_name("x__1_y__0").is_none());
}

#[test]
fn patch_types() {
    assert_eq!(get_patch_type("add", "copy_and_patch_next"), Some(PatchType::Next));
    assert_eq!(get_patch_type("add", "add__hole12x"), Some(PatchType::Hole(12)));
    assert_eq!(get_patch_type("add", "add__stack3"), Some(PatchType::Stack(3)));
    assert_eq!(get_patch_type("add", "add__target0"), Some(PatchType::Target(0)));
    assert_eq!(get_patch_type("add", "add__target"), None);
    assert_eq!(get_patch_type("add", "add__other1"), None);
    assert_eq!(get_patch_type("add", "add__hole99999"), None);
}

#[test]
fn metadata_roundtrip() {
    let m = Metadata { inputs: 1, outputs: 2, max_regs: 300, holes: 0, jumps: 65535 };
    let bytes = m.pack();
    assert_eq!(bytes, [1, 0, 2, 0, 44, 1, 0, 0, 255, 255]);
    assert_eq!(Metadata::unpack(&bytes), Some(m));
    assert_eq!(Metadata::unpack(&bytes[..9]), None);
    assert_eq!(
        Metadata::unpack(b"\x01\0\x01\0\x01\0\0\0\x01\0"),
        Some(Metadata { inputs: 1, outputs: 1, max_regs: 1, holes: 0, jumps: 1 })
    );
}

#[test]
fn relocations_from_object_entries() {
    let r = new_relocation(7, ObjectEncoding::X86Signed, ObjectKind::PltRelative, 32, -4, PatchType::Next).unwrap();
    assert_eq!(r.offset(), 7);
    assert_eq!(r.encoding(), RelocationEncoding::X86Signed);
    assert!(r.relative());
    assert_eq!(r.size(), 32);
    assert_eq!(r.addend(), -4);
    assert_eq!(r.patch_kind(), PatchKind::Target);
    assert_eq!(r.patch_id(), 0);
    let r = new_relocation(1, ObjectEncoding::Generic, ObjectKind::Absolute, 64, 0, PatchType::Hole(3)).unwrap();
    assert_eq!(r.patch_kind(), PatchKind::Hole);
    assert_eq!(r.patch_id(), 3);
    assert!(!r.relative());
    assert_eq!(
        new_relocation(0x10000, ObjectEncoding::Generic, ObjectKind::Absolute, 8, 0, PatchType::Next).err(),
        Some(BuildError::IntConversion)
    );
    assert_eq!(
        new_relocation(0, ObjectEncoding::Other, ObjectKind::Absolute, 8, 0, PatchType::Next).err(),
        Some(BuildError::UnsupportedEncoding)
    );
    assert_eq!(
        new_relocation(0, ObjectEncoding::Generic, ObjectKind::Other, 8, 0, PatchType::Next).err(),
        Some(BuildError::UnsupportedKind)
    );
    assert_eq!(
        new_relocation(0, ObjectEncoding::Generic, ObjectKind::Absolute, 8, 5000, PatchType::Next).err(),
        Some(BuildError::FieldOverflow)
    );
    assert_eq!(
        new_relocation(0, ObjectEncoding::Generic, ObjectKind::Absolute, 8, 1 << 20, PatchType::Next).err(),
        Some(BuildError::IntConversion)
    );
}

#[test]
fn family_builder_shares_relocation_lists() {
    let m = Metadata { inputs: 1, outputs: 0, max_regs: 3, holes: 1, jumps: 0 };
    let mut b = StencilFamilyBuilder::new(m);
    let hole = new_relocation(2, ObjectEncoding::Generic, ObjectKind::Absolute, 32, 0, PatchType::Hole(0)).unwrap();
    let args = StencilArgs::parse("1", "").unwrap();
    b.add_stencil(0..4, args, &[hole]).unwrap();
    let args = StencilArgs::parse("2", "").unwrap();
    b.add_stencil(4..10, args, &[hole]).unwrap();
    let args = StencilArgs::parse("0", "").unwrap();
    assert_eq!(b.add_stencil(10..12, args, &[]), Err(BuildError::FamilyMismatch));
    let f = b.finalize();
    assert_eq!(f.relocation_data.len(), 2);
    assert_eq!(f.relocation_data[0].into_bits(), hole.into_bits());
    assert_eq!(f.relocation_data[1].into_bits(), Relocation::new().into_bits());
    assert_eq!(f.stencils.len(), 3);
    assert_eq!(f.stencils[0].into_bits(), 0);
    assert_eq!((f.stencils[1].code_index, f.stencils[1].code_len, f.stencils[1].relocation_index), (0, 4, 0));
    assert_eq!((f.stencils[2].code_index, f.stencils[2].code_len, f.stencils[2].relocation_index), (4, 6, 0));
}

#[test]
fn setup_refuses_blank_env_names() {
    let s = StencilSetup::new("calc-stencils");
    assert_eq!(s.include_env(), "PATCHOULY_STENCILS_RS");
    assert_eq!(s.clone().with_include_env(" \t\n").err(), Some(BuildError::EmptyIncludeEnv));
    let t = s.with_include_env("OTHER").unwrap();
    assert_eq!(t.include_env(), "OTHER");
    assert_eq!(t.rel_stencils_dir(), "calc-stencils");
    assert_eq!(BuildError::EmptyIncludeEnv.message(), "include env var name must not be empty");
}

#[test]
fn rlib_names_from_manifests() {
    let m = "[package]\nname = \"calc-stencils\"\nversion = \"0.1.0\"\n";
    assert_eq!(patchouly::extract::manifest_rlib_name(m).as_deref(), Some("libcalc_stencils.rlib"));
    let m = "[package]\r\n  name = bf \r\nname = \"other\"\n";
    assert_eq!(patchouly::extract::manifest_rlib_name(m).as_deref(), Some("libbf.rlib"));
    assert_eq!(patchouly::extract::manifest_rlib_name("[package]\nversion = \"1\"\n"), None);
    assert_eq!(patchouly::extract::manifest_rlib_name(""), None);
    assert_eq!(patchouly::extract::manifest_rlib_name("name=\"x\"\nname = \"\"\"a-b\"\"").as_deref(), Some("liba_b.rlib"));
}
