use patchouly::regs::{Allocator, BlockId, Value};
use patchouly::stencils::Location;

#[test]
fn test_lifetime() {
    let mut alloc = Allocator::new(10);
    let reg = alloc.allocate(BlockId(0)).unwrap();
    assert_eq!(reg.slot(), 0);
    assert_eq!(alloc.location(&reg), Location::Register(0));
    assert_eq!(1, alloc.live_values());
    assert_eq!(1, alloc.registers_in_use());
}

#[test]
fn test_greedy() {
    let mut alloc = Allocator::new(4);
    let regs: Vec<Value> = (0..4).map(|_| alloc.allocate(BlockId(0)).unwrap()).collect();
    for (i, reg) in regs.iter().enumerate() {
        assert_eq!(reg.slot() as usize, i);
        assert_eq!(alloc.location(reg), Location::Register(i as u16));
    }
    assert_eq!(alloc.live_values(), 4);
    assert_eq!(alloc.registers_in_use(), 4);
    let reg = &alloc.allocate(BlockId(0)).unwrap();
    assert_eq!(alloc.location(reg), Location::Stack(0));
}

#[test]
fn dropped_locations_are_reused_first() {
    let mut alloc = Allocator::new(1);
    let a = alloc.allocate(BlockId(0)).unwrap();
    let b = alloc.allocate(BlockId(0)).unwrap();
    let c = alloc.allocate(BlockId(0)).unwrap();
    assert_eq!(alloc.location(&b), Location::Stack(0));
    assert_eq!(alloc.location(&c), Location::Stack(1));
    assert_eq!(alloc.stack_size(), 2);
    alloc.drop(b);
    let d = alloc.allocate(BlockId(1)).unwrap();
    assert_eq!(d.slot(), b.slot());
    assert_eq!(d.scope, BlockId(1));
    assert_eq!(alloc.location(&d), Location::Stack(0));
    alloc.drop(a);
    let e = alloc.allocate(BlockId(0)).unwrap();
    assert_eq!(alloc.location(&e), Location::Register(0));
    assert_eq!(alloc.stack_size(), 2);
}
