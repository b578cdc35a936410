use patchouly::relocation::{PatchKind, Relocation, RelocationEncoding};

fn reloc(offset: u16, encoding: RelocationEncoding, size: u8, addend: i16) -> Relocation {
    let mut r = Relocation::new();
    r.set_offset(offset);
    r.set_encoding(encoding);
    r.set_relative(false);
    r.set_size(size);
    r.set_addend(addend);
    r.set_patch_kind(PatchKind::Hole);
    r.set_patch_id(0);
    r
}

#[test]
fn patched_bytes_read_back_as_the_written_value() {
    let r = reloc(2, RelocationEncoding::Generic, 32, 0);
    let mut code = [0xaau8; 8];
    r.apply_raw(&mut code, 0x1234_5678);
    assert_eq!(code, [0xaa, 0xaa, 0x78, 0x56, 0x34, 0x12, 0xaa, 0xaa]);
    assert_eq!(u32::from_le_bytes(code[2..6].try_into().unwrap()), 0x1234_5678);
}

#[test]
fn the_addend_is_added_before_writing() {
    let r = reloc(0, RelocationEncoding::X86Signed, 32, -4);
    let mut code = [0u8; 4];
    r.apply_raw(&mut code, 100);
    assert_eq!(i32::from_le_bytes(code), 96);
    // Only the width of the relocation is written: the value wraps.
    let r = reloc(1, RelocationEncoding::Generic, 8, 0);
    let mut code = [0u8; 3];
    r.apply_raw(&mut code, 0x1ff);
    assert_eq!(code, [0, 0xff, 0]);
}

#[test]
fn supported_values_fit_the_width() {
    let r = reloc(0, RelocationEncoding::Generic, 8, 0);
    assert!(r.supports_value(255));
    assert!(!r.supports_value(256));
    let r = reloc(0, RelocationEncoding::X86Signed, 8, 0);
    assert!(r.supports_value((-128isize) as usize));
    assert!(!r.supports_value(128));
}
