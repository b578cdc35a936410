use patchouly::extract::{BuildError, Metadata, ObjectEncoding, ObjectKind, PatchType, new_relocation};
use patchouly::objects::{
    ExtractErrorKind, HaltReason, ObjectFile, ObjectRelocation, ObjectSymbol, SymbolClass, TargetSymbol,
    checked_extract_symbols, extract_symbols,
};
use patchouly::relocation::Relocation;
use patchouly::stencils::{Location, io_to_index};

fn data(name: &str, bytes: &[u8]) -> ObjectSymbol {
    ObjectSymbol {
        class: SymbolClass::Data,
        name: Some(name.to_string()),
        data: Some(bytes.to_vec()),
        relocations: vec![],
    }
}

fn meta(family: &str, m: Metadata) -> ObjectSymbol {
    data(&format!("__patchouly__{family}__meta"), &m.pack())
}

fn reloc(target: TargetSymbol) -> ObjectRelocation {
    ObjectRelocation { offset: 0, target, encoding: ObjectEncoding::Generic, kind: ObjectKind::Absolute, size: 32, addend: 0 }
}

fn text(name: &str, code: &[u8], relocations: Vec<ObjectRelocation>) -> ObjectSymbol {
    ObjectSymbol { class: SymbolClass::Text, name: Some(name.to_string()), data: Some(code.to_vec()), relocations }
}

fn hole0(family: &str) -> ObjectRelocation {
    reloc(TargetSymbol::Undefined(format!("{family}__hole0")))
}

const ADD: Metadata = Metadata { inputs: 1, outputs: 0, max_regs: 3, holes: 1, jumps: 0 };

#[test]
fn families_are_collected_from_symbols() {
    let file = ObjectFile {
        symbols: vec![
            data("__STENCIL_API_NAME", b"calc"),
            meta("add", ADD),
            text("__patchouly__add__1__", &[0x90, 0x90], vec![hole0("add")]),
            text("unrelated", &[0xcc], vec![]),
            text("__patchouly__add__2__", &[0xc3], vec![hole0("add")]),
        ],
    };
    let x = extract_symbols(&vec![file]).unwrap();
    assert_eq!(x.lib_name, "calc");
    assert_eq!(x.all_code, vec![0x90, 0x90, 0xc3]);
    assert_eq!(x.max_regs, 3);
    assert_eq!(x.families.len(), 1);
    let (name, f) = &x.families[0];
    assert_eq!(name, "add");
    assert_eq!((f.inputs, f.outputs, f.max_regs, f.holes, f.jumps), (1, 0, 3, 1, 0));
    let hole = new_relocation(0, ObjectEncoding::Generic, ObjectKind::Absolute, 32, 0, PatchType::Hole(0)).unwrap();
    // Both stencils patch the same hole, so they share one list.
    assert_eq!(f.relocation_data, vec![hole, Relocation::new()]);
    let i1 = io_to_index(&[Location::Register(0)], &[], 3, false);
    let i2 = io_to_index(&[Location::Register(1)], &[], 3, false);
    assert_eq!((f.stencils[i1].code_index, f.stencils[i1].code_len, f.stencils[i1].relocation_index), (0, 2, 0));
    assert_eq!((f.stencils[i2].code_index, f.stencils[i2].code_len, f.stencils[i2].relocation_index), (2, 1, 0));
}

#[test]
fn families_keep_the_order_first_met() {
    let sub = Metadata { inputs: 0, outputs: 0, max_regs: 3, holes: 0, jumps: 0 };
    let file = ObjectFile {
        symbols: vec![
            meta("add", ADD),
            meta("sub", sub),
            text("__patchouly__sub____", &[1], vec![]),
            text("__patchouly__add__1__", &[2], vec![hole0("add")]),
            data("__STENCIL_API_NAME", b"x"),
        ],
    };
    let x = extract_symbols(&vec![file]).unwrap();
    let names: Vec<&str> = x.families.iter().map(|(n, _)| n.as_str()).collect();
    assert_eq!(names, vec!["sub", "add"]);
    assert_eq!(x.all_code, vec![1, 2]);
}

#[test]
fn unreadable_relocation_targets_leave_the_stencil_out() {
    let file = ObjectFile {
        symbols: vec![
            data("__STENCIL_API_NAME", b"calc"),
            text("__patchouly__add__1__", &[0x90], vec![reloc(TargetSymbol::Skip)]),
            text("__patchouly__add__2__", &[0x90], vec![reloc(TargetSymbol::Undefined("add__other".to_string()))]),
        ],
    };
    let x = extract_symbols(&vec![file]).unwrap();
    assert!(x.families.is_empty());
    assert!(x.all_code.is_empty());
    assert_eq!(x.max_regs, 0);
}

#[test]
fn calls_into_defined_symbols_are_refused() {
    let file = ObjectFile {
        symbols: vec![
            data("__STENCIL_API_NAME", b"calc"),
            meta("add", ADD),
            text("__patchouly__add__1__", &[0x90], vec![reloc(TargetSymbol::Defined)]),
        ],
    };
    let e = extract_symbols(&vec![file]).err().unwrap();
    assert_eq!(e.kind, ExtractErrorKind::NotInlined);
    assert_eq!(e.stencil, "add");
    assert_eq!(e.message(), "all function calls/data in stencils must be inlined");
}

#[test]
fn a_family_without_metadata_is_refused() {
    let file = ObjectFile {
        symbols: vec![data("__STENCIL_API_NAME", b"calc"), text("__patchouly__add__1__", &[0x90], vec![hole0("add")])],
    };
    let e = extract_symbols(&vec![file]).err().unwrap();
    assert_eq!(e.kind, ExtractErrorKind::NoMeta);
    assert_eq!(e.stencil, "add");
    assert_eq!(e.message(), "no meta symbol for");
}

#[test]
fn families_must_agree_on_max_regs() {
    let sub = Metadata { inputs: 0, outputs: 0, max_regs: 4, holes: 0, jumps: 0 };
    let file = ObjectFile {
        symbols: vec![
            data("__STENCIL_API_NAME", b"calc"),
            meta("add", ADD),
            meta("sub", sub),
            text("__patchouly__add__1__", &[0x90], vec![hole0("add")]),
            text("__patchouly__sub____", &[0x90], vec![]),
        ],
    };
    let e = extract_symbols(&vec![file]).err().unwrap();
    assert_eq!(e.kind, ExtractErrorKind::MaxRegsMismatch);
    assert_eq!(e.stencil, "sub");
}

#[test]
fn a_stencil_that_does_not_fit_its_family_is_refused() {
    let file = ObjectFile {
        symbols: vec![
            data("__STENCIL_API_NAME", b"calc"),
            meta("add", ADD),
            text("__patchouly__add__1__", &[0x90], vec![]),
        ],
    };
    let e = extract_symbols(&vec![file]).err().unwrap();
    assert_eq!(e.kind, ExtractErrorKind::Build(BuildError::FamilyMismatch));
    assert_eq!(e.stencil, "add");
}

#[test]
fn relocations_against_other_stencils_halt() {
    let file = ObjectFile {
        symbols: vec![
            data("__STENCIL_API_NAME", b"calc"),
            meta("add", ADD),
            text("__patchouly__add__1__", &[0x90], vec![hole0("sub")]),
        ],
    };
    let e = checked_extract_symbols(&vec![file]).err().unwrap();
    assert_eq!(e.kind, ExtractErrorKind::Halted(HaltReason::ForeignRelocation));
}

#[test]
fn register_minus_one_halts() {
    let file = ObjectFile {
        symbols: vec![data("__STENCIL_API_NAME", b"calc"), text("__patchouly__add__00__", &[0x90], vec![])],
    };
    let e = checked_extract_symbols(&vec![file]).err().unwrap();
    assert_eq!(e.kind, ExtractErrorKind::Halted(HaltReason::NegativeRegister));
    assert_eq!(e.stencil, "add__00__");
    assert_eq!(e.message(), "attempt to subtract with overflow");
}

#[test]
fn a_missing_library_name_halts() {
    let e = checked_extract_symbols(&vec![ObjectFile { symbols: vec![] }]).err().unwrap();
    assert_eq!(e.kind, ExtractErrorKind::Halted(HaltReason::NoLibName));
}

#[test]
fn the_library_name_is_read_lossily() {
    let file = ObjectFile { symbols: vec![data("__STENCIL_API_NAME", &[b'a', 0xff, b'b'])] };
    let x = extract_symbols(&vec![file]).unwrap();
    assert_eq!(x.lib_name, "a\u{fffd}b");
}

#[test]
fn relocations_are_sorted_by_offset() {
    let m = Metadata { inputs: 0, outputs: 0, max_regs: 1, holes: 2, jumps: 0 };
    let at = |offset: u64, hole: &str| ObjectRelocation {
        offset,
        target: TargetSymbol::Undefined(format!("k__{hole}")),
        encoding: ObjectEncoding::Generic,
        kind: ObjectKind::Absolute,
        size: 32,
        addend: 0,
    };
    let file = ObjectFile {
        symbols: vec![
            data("__STENCIL_API_NAME", b"calc"),
            meta("k", m),
            text("__patchouly__k____", &[0; 12], vec![at(8, "hole1"), at(2, "hole0")]),
        ],
    };
    let x = extract_symbols(&vec![file]).unwrap();
    let f = &x.families[0].1;
    let offsets: Vec<u16> = f.relocation_data.iter().map(|r| r.offset()).collect();
    assert_eq!(offsets, vec![2, 8, 0]);
    assert_eq!(f.relocation_data[0].patch_id(), 0);
    assert_eq!(f.relocation_data[1].patch_id(), 1);
}
