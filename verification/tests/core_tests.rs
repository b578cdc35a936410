use patchouly::stencils::{Location, Stencil, index_to_io_lossy, io_to_index, stencils_len};

type TestStencil = Stencil<0, 0, 0, 0>;

#[test]
fn test_stencil_bits() {
    let mut i = 1u64;
    for _ in 0..10000 {
        i = i.wrapping_mul(31);
        assert_eq!(TestStencil::from_bits(i).into_bits(), i);
    }
}

#[test]
fn test_io_to_index() {
    let mut i = 1usize;
    let len = stencils_len(4, 4, 10);
    for _ in 0..10000 {
        i = i.wrapping_mul(31);
        let mut inputs = [Location::Stack(0); 4];
        let mut outputs = [Location::Stack(0); 4];
        index_to_io_lossy(i % len, 10, &mut inputs, &mut outputs);
        assert_eq!(io_to_index(&inputs, &outputs, 10, false), i % len);
    }
}

#[test]
fn io_to_index_counts_registers_from_one() {
    let inputs = [Location::Register(0)];
    let outputs = [Location::Stack(7)];
    assert_eq!(io_to_index(&inputs, &outputs, 10, false), 10);
    assert_eq!(io_to_index(&inputs, &outputs, 10, true), 110);
    assert_eq!(stencils_len(1, 1, 10), 100);
}

#[test]
fn index_to_io_reports_the_wide_half() {
    let mut inputs = [Location::Stack(0); 1];
    let mut outputs = [Location::Stack(0); 1];
    assert!(index_to_io_lossy(110, 10, &mut inputs, &mut outputs));
    assert_eq!(inputs[0], Location::Register(0));
    assert_eq!(outputs[0], Location::Stack(0));
    assert!(!index_to_io_lossy(23, 10, &mut inputs, &mut outputs));
    assert_eq!(inputs[0], Location::Register(1));
    assert_eq!(outputs[0], Location::Register(2));
}

#[test]
fn location_bits_roundtrip() {
    for l in [Location::Stack(0), Location::Register(0), Location::Register(7)] {
        assert_eq!(Location::from_bits(l.into_bits()), l);
    }
    // Stack slots all read back as slot 0.
    assert_eq!(Location::from_bits(Location::Stack(513).into_bits()), Location::Stack(0));
    for b in [0u16, 1, 2, 65535] {
        assert_eq!(Location::from_bits(b).into_bits(), b);
    }
}
