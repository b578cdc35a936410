use patchouly::extract::{ObjectEncoding, ObjectKind, PatchType, new_relocation};
use patchouly::patch::{PatchBlock, ProgramBlocks};
use patchouly::relocation::Relocation;
use patchouly::stencils::{Stencil, StencilFamily, StencilLibrary};

fn leak<T>(v: T) -> &'static T {
    Box::leak(Box::new(v))
}

/// `mov eax, hole0; …` in the plain half, and `mov rax, [rip + hole0]` in
/// the wide half.
const CODE: [u8; 12] = [0xb8, 0, 0, 0, 0, 0x48, 0x8b, 0x05, 0, 0, 0, 0];

fn library() -> &'static StencilLibrary<1> {
    leak(StencilLibrary {
        code: &CODE,
        empty: b"",
        moves: leak(StencilFamily { relocation_data: &[], stencils: leak([Stencil::default()]) }),
        long_jump: leak(StencilFamily { relocation_data: &[], stencils: leak([Stencil::default()]) }),
        rt_symbols: &[],
    })
}

fn load() -> &'static StencilFamily<0, 0, 1, 1, 0> {
    let plain = new_relocation(1, ObjectEncoding::Generic, ObjectKind::Absolute, 32, 0, PatchType::Hole(0)).unwrap();
    let wide = new_relocation(3, ObjectEncoding::X86Signed, ObjectKind::Relative, 32, -4, PatchType::Hole(0)).unwrap();
    leak(StencilFamily {
        relocation_data: leak([plain, Relocation::new(), wide, Relocation::new()]),
        stencils: leak([
            Stencil { code_index: 0, code_len: 5, relocation_index: 0 },
            Stencil { code_index: 5, code_len: 7, relocation_index: 2 },
        ]),
    })
}

#[test]
fn wide_constants_are_stored_in_the_targets_byte_order() {
    let mut block = PatchBlock::new(library());
    let value: usize = usize::MAX - 0x1234;
    block.ret(load(), &[], &[value]).unwrap();
    let len = block.measure().unwrap();
    let w = core::mem::size_of::<usize>();
    assert_eq!(len, 8 + w);
    let mut map = vec![0u8; len];
    block.finalize_into(&mut map, 0, 0, &ProgramBlocks::default()).unwrap();
    assert_eq!(&map[..3], &CODE[5..8]);
    assert_eq!(&map[8..], &value.to_ne_bytes()[..]);
    // The load reads the constant: rip (7) plus the displacement gives 8.
    assert_eq!(i32::from_le_bytes(map[3..7].try_into().unwrap()), 1);
}

#[test]
fn small_holes_are_patched_inline() {
    let mut block = PatchBlock::new(library());
    block.ret(load(), &[], &[0x1234]).unwrap();
    let len = block.measure().unwrap();
    assert_eq!(len, 5);
    let mut map = vec![0u8; len];
    block.finalize_into(&mut map, 0, 0, &ProgramBlocks::default()).unwrap();
    assert_eq!(map, vec![0xb8, 0x34, 0x12, 0, 0]);
}
