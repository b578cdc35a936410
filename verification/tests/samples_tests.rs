use patchouly::samples::{add_int1_int2, load_int_reg1, load_int_reg2, return_int1, test_abi};

#[test]
fn sample_stencils() {
    assert_eq!(load_int_reg1(5), 5);
    assert_eq!(load_int_reg2(1, 2), (1, 2));
    assert_eq!(add_int1_int2(3, 4), (7, 4));
    assert_eq!(add_int1_int2(usize::MAX, 2), (1, 2));
    assert_eq!(return_int1(9), 9);
    let r = test_abi(1, 2, 3, 4, 5, 6, 7, 8, 9, 10, 11, 12, 13, 14, 15, 16);
    assert_eq!(r.0, 16);
    assert_eq!(r.1, 1);
    assert_eq!(r.15, 15);
}
