use patchouly::archive::read_object;
use patchouly::objects::{ExtractErrorKind, HaltReason, extract_archive};

/// A GNU-style archive holding `members` (name, data).
fn archive(members: &[(&str, &[u8])]) -> Vec<u8> {
    let mut out = b"!<arch>\n".to_vec();
    for (name, data) in members {
        let header = format!("{:<16}{:<12}{:<6}{:<6}{:<8}{:<10}`\n", format!("{name}/"), 0, 0, 0, 644, data.len());
        assert_eq!(header.len(), 60);
        out.extend_from_slice(header.as_bytes());
        out.extend_from_slice(data);
        if data.len() % 2 == 1 {
            out.push(b'\n');
        }
    }
    out
}

#[test]
fn bytes_that_are_no_archive_are_a_read_error() {
    let e = extract_archive(b"not an archive").err().unwrap();
    assert_eq!(e.kind, ExtractErrorKind::Read);
    assert!(!e.stencil.is_empty());
}

#[test]
fn an_archive_without_object_files_has_no_library_name() {
    let ar = archive(&[("notes.txt", b"hello")]);
    let e = extract_archive(&ar).err().unwrap();
    assert_eq!(e.kind, ExtractErrorKind::Halted(HaltReason::NoLibName));
}

#[test]
fn members_not_named_o_are_not_read() {
    let ar = archive(&[("lib.rmeta", b"garbage"), ("readme", b"more garbage")]);
    let e = extract_archive(&ar).err().unwrap();
    assert_eq!(e.kind, ExtractErrorKind::Halted(HaltReason::NoLibName));
}

#[test]
fn an_object_file_that_cannot_be_read_is_a_read_error() {
    let ar = archive(&[("notes.txt", b"hello"), ("stencils.o", b"garbage")]);
    let e = extract_archive(&ar).err().unwrap();
    assert_eq!(e.kind, ExtractErrorKind::Read);
    assert!(!e.stencil.is_empty());
    assert_eq!(e.message(), "failed to read the stencils archive");
}

#[test]
fn garbage_is_no_object_file() {
    assert!(read_object(b"garbage").is_err());
}

#[test]
fn an_empty_archive_has_no_library_name() {
    let e = extract_archive(b"!<arch>\n").err().unwrap();
    assert_eq!(e.kind, ExtractErrorKind::Halted(HaltReason::NoLibName));
}

use patchouly::extract::{Metadata, ObjectEncoding, ObjectKind, PatchType, new_relocation};
use patchouly::objects::SymbolClass;
use patchouly::relocation::Relocation;
use patchouly::stencils::{Location, io_to_index};

const ADD: Metadata = Metadata { inputs: 1, outputs: 0, max_regs: 3, holes: 1, jumps: 0 };
const CODE: [u8; 6] = [0xb8, 0, 0, 0, 0, 0xc3];

fn pad8(v: &mut Vec<u8>) {
    while v.len() % 8 != 0 {
        v.push(0);
    }
}

/// Adds `s` to a string table, returning its offset.
fn add_str(table: &mut Vec<u8>, s: &str) -> u32 {
    let at = table.len() as u32;
    table.extend_from_slice(s.as_bytes());
    table.push(0);
    at
}

fn sym(out: &mut Vec<u8>, name: u32, info: u8, shndx: u16, value: u64, size: u64) {
    out.extend_from_slice(&name.to_le_bytes());
    out.push(info);
    out.push(0);
    out.extend_from_slice(&shndx.to_le_bytes());
    out.extend_from_slice(&value.to_le_bytes());
    out.extend_from_slice(&size.to_le_bytes());
}

/// A relocatable x86-64 ELF object holding the library name `calc`, the
/// metadata of family `add`, and stencil `add__1__` (`mov eax, hole0; ret`)
/// whose immediate is patched from `add__hole0`.
fn elf_object() -> Vec<u8> {
    let mut data = b"calc".to_vec();
    data.extend_from_slice(&ADD.pack());
    let mut strtab = vec![0u8];
    let api = add_str(&mut strtab, "__STENCIL_API_NAME");
    let meta = add_str(&mut strtab, "__patchouly__add__meta");
    let text = add_str(&mut strtab, "__patchouly__add__1__");
    let hole = add_str(&mut strtab, "add__hole0");
    let mut symtab = vec![0u8; 24];
    sym(&mut symtab, api, 0x11, 2, 0, 4);
    sym(&mut symtab, meta, 0x11, 2, 4, 10);
    sym(&mut symtab, text, 0x12, 1, 0, CODE.len() as u64);
    sym(&mut symtab, hole, 0x10, 0, 0, 0);
    let mut rela = Vec::new();
    rela.extend_from_slice(&1u64.to_le_bytes());
    rela.extend_from_slice(&((4u64 << 32) | 10).to_le_bytes());
    rela.extend_from_slice(&0i64.to_le_bytes());
    let mut shstrtab = vec![0u8];
    let names: Vec<u32> = [".text", ".data", ".rela.text", ".symtab", ".strtab", ".shstrtab"]
        .iter()
        .map(|n| add_str(&mut shstrtab, n))
        .collect();
    // (name, type, flags, contents, link, info, align, entsize)
    let sections: Vec<(u32, u32, u64, Vec<u8>, u32, u32, u64, u64)> = vec![
        (names[0], 1, 6, CODE.to_vec(), 0, 0, 16, 0),
        (names[1], 1, 3, data, 0, 0, 8, 0),
        (names[2], 4, 0x40, rela, 4, 1, 8, 24),
        (names[3], 2, 0, symtab, 5, 1, 8, 24),
        (names[4], 3, 0, strtab, 0, 0, 1, 0),
        (names[5], 3, 0, shstrtab, 0, 0, 1, 0),
    ];
    let mut out = vec![0u8; 64];
    let mut headers = vec![0u8; 64];
    for (name, ty, flags, contents, link, info, align, entsize) in &sections {
        pad8(&mut out);
        let offset = out.len() as u64;
        out.extend_from_slice(contents);
        headers.extend_from_slice(&name.to_le_bytes());
        headers.extend_from_slice(&ty.to_le_bytes());
        headers.extend_from_slice(&flags.to_le_bytes());
        headers.extend_from_slice(&0u64.to_le_bytes());
        headers.extend_from_slice(&offset.to_le_bytes());
        headers.extend_from_slice(&(contents.len() as u64).to_le_bytes());
        headers.extend_from_slice(&link.to_le_bytes());
        headers.extend_from_slice(&info.to_le_bytes());
        headers.extend_from_slice(&align.to_le_bytes());
        headers.extend_from_slice(&entsize.to_le_bytes());
    }
    pad8(&mut out);
    let shoff = out.len() as u64;
    out.extend_from_slice(&headers);
    let mut h = vec![0x7f, b'E', b'L', b'F', 2, 1, 1, 0, 0, 0, 0, 0, 0, 0, 0, 0];
    h.extend_from_slice(&1u16.to_le_bytes());
    h.extend_from_slice(&0x3eu16.to_le_bytes());
    h.extend_from_slice(&1u32.to_le_bytes());
    h.extend_from_slice(&0u64.to_le_bytes());
    h.extend_from_slice(&0u64.to_le_bytes());
    h.extend_from_slice(&shoff.to_le_bytes());
    h.extend_from_slice(&0u32.to_le_bytes());
    h.extend_from_slice(&64u16.to_le_bytes());
    h.extend_from_slice(&0u16.to_le_bytes());
    h.extend_from_slice(&0u16.to_le_bytes());
    h.extend_from_slice(&64u16.to_le_bytes());
    h.extend_from_slice(&7u16.to_le_bytes());
    h.extend_from_slice(&6u16.to_le_bytes());
    out[..64].copy_from_slice(&h);
    out
}

#[test]
fn an_object_file_reads_as_its_symbols() {
    let f = read_object(&elf_object()).unwrap();
    let named: Vec<_> = f.symbols.iter().filter(|s| s.name.as_deref().is_some_and(|n| !n.is_empty())).collect();
    assert_eq!(named.len(), 4);
    assert_eq!(named[0].class, SymbolClass::Data);
    assert_eq!(named[0].name.as_deref(), Some("__STENCIL_API_NAME"));
    assert_eq!(named[0].data.as_deref(), Some(&b"calc"[..]));
    assert_eq!(named[2].class, SymbolClass::Text);
    assert_eq!(named[2].data.as_deref(), Some(&CODE[..]));
    assert_eq!(named[2].relocations.len(), 1);
    let r = &named[2].relocations[0];
    assert_eq!((r.offset, r.encoding, r.kind, r.size, r.addend), (1, ObjectEncoding::Generic, ObjectKind::Absolute, 32, 0));
    assert!(matches!(&r.target, patchouly::objects::TargetSymbol::Undefined(n) if n == "add__hole0"));
    assert_eq!(named[3].data, None);
    assert!(named[3].relocations.is_empty());
}

#[test]
fn stencils_are_extracted_from_an_archive() {
    let obj = elf_object();
    let ar = archive(&[("lib.rmeta", b"not an object"), ("calc-0.o", &obj)]);
    let x = extract_archive(&ar).unwrap();
    assert_eq!(x.lib_name, "calc");
    assert_eq!(x.all_code, CODE.to_vec());
    assert_eq!(x.max_regs, 3);
    assert_eq!(x.families.len(), 1);
    let (name, f) = &x.families[0];
    assert_eq!(name, "add");
    let hole = new_relocation(1, ObjectEncoding::Generic, ObjectKind::Absolute, 32, 0, PatchType::Hole(0)).unwrap();
    assert_eq!(f.relocation_data, vec![hole, Relocation::new()]);
    let i = io_to_index(&[Location::Register(0)], &[], 3, false);
    assert_eq!((f.stencils[i].code_index, f.stencils[i].code_len, f.stencils[i].relocation_index), (0, 6, 0));
}

#[test]
fn errors_of_files_read_come_before_a_later_read_error() {
    let mut obj = elf_object();
    // Make the stencil call a defined symbol: the metadata.
    let at = obj.windows(8).position(|w| w == ((4u64 << 32) | 10).to_le_bytes()).unwrap();
    obj[at..at + 8].copy_from_slice(&((2u64 << 32) | 10).to_le_bytes());
    let ar = archive(&[("a.o", &obj), ("b.o", b"garbage")]);
    let e = extract_archive(&ar).err().unwrap();
    assert_eq!(e.kind, ExtractErrorKind::NotInlined);
    assert_eq!(e.stencil, "add");
}
