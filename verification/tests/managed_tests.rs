use patchouly::PatchError;
use patchouly::managed::{JumpScope, PatchFunctionBuilder};
use patchouly::relocation::Relocation;
use patchouly::stencils::{Stencil, StencilFamily, StencilLibrary};

fn leak<T>(v: T) -> &'static T {
    Box::leak(Box::new(v))
}

fn library() -> &'static StencilLibrary<1> {
    leak(StencilLibrary {
        code: b"\0",
        empty: b"",
        moves: leak(StencilFamily { relocation_data: &[], stencils: leak([Stencil::default()]) }),
        long_jump: leak(StencilFamily { relocation_data: &[], stencils: leak([Stencil::default()]) }),
        rt_symbols: &[],
    })
}

fn jmp() -> &'static StencilFamily<0, 0, 1, 0, 1> {
    leak(StencilFamily {
        relocation_data: leak([Relocation::new()]),
        stencils: leak([Stencil { code_index: 0, code_len: 1, relocation_index: 0 }]),
    })
}

fn ret() -> &'static StencilFamily<0, 0, 1, 0, 0> {
    leak(StencilFamily {
        relocation_data: leak([Relocation::new()]),
        stencils: leak([Stencil { code_index: 0, code_len: 1, relocation_index: 0 }]),
    })
}

#[test]
fn test_lifetime_rules() {
    let mut builder = PatchFunctionBuilder::new(library());
    let end = builder.create_block();
    let mut block = builder.switch_to_entry().unwrap();
    block.new_variable().unwrap();
    block.new_variable().unwrap();
    block.end_branch(jmp(), &[], &[], &[], &[JumpScope::Child(end)], end).unwrap();
    block.ret(ret(), &[], &[]).unwrap();

    let (code, stack_slots) = builder.finalize_into_vec(Some(0)).unwrap();
    assert_eq!(stack_slots, 2);
    assert_eq!(code, vec![0u8, 0u8]);
}

#[test]
fn a_block_is_entered_only_through_a_jump() {
    let mut builder = PatchFunctionBuilder::new(library());
    let other = builder.create_block();
    assert_eq!(builder.switch_to_block(other).err(), Some(PatchError::BlockOutOfScope));
    assert_eq!(builder.switch_to_block(patchouly::regs::BlockId(7)).err(), Some(PatchError::UnresolvedBlockTarget));
}

#[test]
fn parameters_only_in_blocks_without_parent() {
    let mut builder = PatchFunctionBuilder::new(library());
    let child = builder.create_block();
    let mut block = builder.switch_to_entry().unwrap();
    assert!(block.new_param().is_ok());
    block.branch(jmp(), &[], &[], &[], &[JumpScope::Child(child)]).unwrap();
    block.end_branch(jmp(), &[], &[], &[], &[JumpScope::Next], child).unwrap();
    assert_eq!(block.id(), child);
    assert_eq!(block.new_param().err(), Some(PatchError::InvalidParams));
}

#[test]
fn variables_die_with_their_scope() {
    let mut builder = PatchFunctionBuilder::new(library());
    let a = builder.create_block();
    let b = builder.create_block();
    let mut block = builder.switch_to_entry().unwrap();
    block.new_variable().unwrap();
    block.end_branch(jmp(), &[], &[], &[], &[JumpScope::Child(a)], a).unwrap();
    let inner = block.new_variable().unwrap();
    block.end_branch(jmp(), &[], &[], &[], &[JumpScope::Same(b)], b).unwrap();
    // `b` is a sibling of `a`: entering it leaves `a`'s scope.
    let again = block.new_variable().unwrap();
    assert_eq!(again.slot(), inner.slot());
    assert_eq!(block.ret(ret(), &[], &[]).err(), None);
    let (_, slots) = builder.finalize_into_vec(Some(0x1000)).unwrap();
    assert_eq!(slots, 2);
}

#[test]
fn unended_blocks_are_refused() {
    let mut builder = PatchFunctionBuilder::new(library());
    builder.create_block();
    let block = builder.switch_to_entry().unwrap();
    block.ret(ret(), &[], &[]).unwrap();
    assert_eq!(builder.finalize_into_vec(None).err(), Some(PatchError::NotEnded));
}
