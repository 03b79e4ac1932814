use idl_poc::{AndNot, IDLBitRange, IDLSimple};

#[test]
fn test_simple_intersection_1() {
    let idl_a = IDLSimple::from_iter(vec![1, 2, 3]);
    let idl_b = IDLSimple::from_iter(vec![2]);
    let idl_expect = IDLSimple::from_iter(vec![2]);

    let idl_result = idl_a & idl_b;
    assert_eq!(idl_result, idl_expect);
}

#[test]
fn test_range_intersection_1() {
    let idl_a = IDLBitRange::from_iter(vec![1, 2, 3]);
    let idl_b = IDLBitRange::from_iter(vec![2]);
    let idl_expect = IDLBitRange::from_iter(vec![2]);

    let idl_result = idl_a & idl_b;
    assert_eq!(idl_result, idl_expect);
}

#[test]
fn test_simple_intersection_2() {
    let idl_a = IDLSimple::from_iter(vec![1, 2, 3]);
    let idl_b = IDLSimple::from_iter(vec![4, 67]);
    let idl_expect = IDLSimple::new();

    let idl_result = idl_a & idl_b;
    assert_eq!(idl_result, idl_expect);
}

#[test]
fn test_range_intersection_2() {
    let idl_a = IDLBitRange::from_iter(vec![1, 2, 3]);
    let idl_b = IDLBitRange::from_iter(vec![4, 67]);
    let idl_expect = IDLBitRange::new();


    let idl_result = idl_a & idl_b;
    assert_eq!(idl_result, idl_expect);
}

#[test]
fn test_range_intersection_3() {
    let idl_a = IDLBitRange::from_iter(vec![1, 2, 3, 4, 35, 64, 65, 128, 150]);
    let idl_b = IDLBitRange::from_iter(vec![2, 3, 8, 35, 64, 128, 130, 150, 152, 180]);
    let idl_expect = IDLBitRange::from_iter(vec![2, 3, 35, 64, 128, 150]);

    let idl_result = idl_a & idl_b;
    assert_eq!(idl_result, idl_expect);
}

#[test]
fn test_simple_intersection_4() {
    let idl_a = IDLSimple::from_iter(vec![2, 3, 8, 35, 64, 128, 130, 150, 152, 180, 256, 800, 900]);
    let idl_b = IDLSimple::from_iter((1..1024).collect());
    let idl_expect = IDLSimple::from_iter(vec![2, 3, 8, 35, 64, 128, 130, 150, 152, 180, 256, 800, 900]);

    let idl_result = idl_a & idl_b;
    assert_eq!(idl_result, idl_expect);
}

#[test]
fn test_range_intersection_4() {
    let idl_a = IDLBitRange::from_iter(vec![2, 3, 8, 35, 64, 128, 130, 150, 152, 180, 256, 800, 900]);
    let idl_b = IDLBitRange::from_iter((1..1024).collect());
    let idl_expect = IDLBitRange::from_iter(vec![2, 3, 8, 35, 64, 128, 130, 150, 152, 180, 256, 800, 900]);

    let idl_result = idl_a & idl_b;
    assert_eq!(idl_result, idl_expect);
}

#[test]
fn test_simple_intersection_5() {
    let idl_a = IDLSimple::from_iter((1..204800).collect());
    let idl_b = IDLSimple::from_iter((102400..307200).collect());
    let idl_expect = IDLSimple::from_iter((102400..204800).collect());

    let idl_result = idl_a & idl_b;
    assert_eq!(idl_result, idl_expect);
}

#[test]
fn test_range_intersection_5() {
    let idl_a = IDLBitRange::from_iter((1..204800).collect());
    let idl_b = IDLBitRange::from_iter((102400..307200).collect());
    let idl_expect = IDLBitRange::from_iter((102400..204800).collect());

    let idl_result = idl_a & idl_b;
    assert_eq!(idl_result, idl_expect);
}

#[test]
fn test_simple_intersection_6() {
    let idl_a = IDLSimple::from_iter(vec![307199]);
    let idl_b = IDLSimple::from_iter((102400..307200).collect());
    let idl_expect = IDLSimple::from_iter(vec![307199]);

    let idl_result = idl_a & idl_b;
    assert_eq!(idl_result, idl_expect);
}

#[test]
fn test_range_intersection_6() {
    let idl_a = IDLBitRange::from_iter(vec![307199]);
    let idl_b = IDLBitRange::from_iter((102400..307200).collect());
    let idl_expect = IDLBitRange::from_iter(vec![307199]);

    let idl_result = idl_a & idl_b;
    assert_eq!(idl_result, idl_expect);
}

#[test]
fn test_simple_union_1() {
    let idl_a = IDLSimple::from_iter(vec![1,2,3]);
    let idl_b = IDLSimple::from_iter(vec![2]);
    let idl_expect = IDLSimple::from_iter(vec![1,2,3]);

    let idl_result = idl_a | idl_b;
    assert_eq!(idl_result, idl_expect);
}

#[test]
fn test_range_union_1() {
    let idl_a = IDLBitRange::from_iter(vec![1,2,3]);
    let idl_b = IDLBitRange::from_iter(vec![2]);
    let idl_expect = IDLBitRange::from_iter(vec![1, 2, 3]);

    let idl_result = idl_a | idl_b;
    assert_eq!(idl_result, idl_expect);
}

#[test]
fn test_simple_union_2() {
    let idl_a = IDLSimple::from_iter(vec![1,2,3]);
    let idl_b = IDLSimple::from_iter(vec![4,67]);
    let idl_expect = IDLSimple::from_iter(vec![1,2,3,4,67]);

    let idl_result = idl_a | idl_b;
    assert_eq!(idl_result, idl_expect);
}

#[test]
fn test_range_union_2() {
    let idl_a = IDLBitRange::from_iter(vec![1,2,3]);
    let idl_b = IDLBitRange::from_iter(vec![4,67]);
    let idl_expect = IDLBitRange::from_iter(vec![1,2,3,4,67]);

    let idl_result = idl_a | idl_b;
    assert_eq!(idl_result, idl_expect);
}

#[test]
fn test_simple_union_3() {
    let idl_a = IDLSimple::from_iter(vec![2, 3, 8, 35, 64, 128, 130, 150, 152, 180, 256, 800, 900]);
    let idl_b = IDLSimple::from_iter((1..1024).collect());
    let idl_expect = IDLSimple::from_iter((1..1024).collect());

    let idl_result = idl_a | idl_b;
    assert_eq!(idl_result, idl_expect);
}

#[test]
fn test_range_union_3() {
    let idl_a = IDLBitRange::from_iter(vec![2, 3, 8, 35, 64, 128, 130, 150, 152, 180, 256, 800, 900]);
    let idl_b = IDLBitRange::from_iter((1..1024).collect());
    let idl_expect = IDLBitRange::from_iter((1..1024).collect());

    let idl_result = idl_a | idl_b;
    assert_eq!(idl_result, idl_expect);
}

#[test]
fn test_simple_not_1() {
    let idl_a = IDLSimple::from_iter(vec![1,2,3,4,5,6]);
    let idl_b = IDLSimple::from_iter(vec![3,4]);
    let idl_expect = IDLSimple::from_iter(vec![1,2,5,6]);

    let idl_result = idl_a.andnot(idl_b);
    assert_eq!(idl_result, idl_expect);
}

#[test]
fn test_simple_not_2() {
    let idl_a = IDLSimple::from_iter(vec![1,2,3,4,5,6]);
    let idl_b = IDLSimple::from_iter(vec![10]);
    let idl_expect = IDLSimple::from_iter(vec![1,2,3,4,5,6]);

    let idl_result = idl_a.andnot(idl_b);
    assert_eq!(idl_result, idl_expect);
}

#[test]
fn test_simple_not_3() {
    let idl_a = IDLSimple::from_iter(vec![2,3,4,5,6]);
    let idl_b = IDLSimple::from_iter(vec![1]);
    let idl_expect = IDLSimple::from_iter(vec![2,3,4,5,6]);

    let idl_result = idl_a.andnot(idl_b);
    assert_eq!(idl_result, idl_expect);
}

#[test]
fn test_range_not_1() {
    let idl_a = IDLBitRange::from_iter(vec![1,2,3,4,5,6]);
    let idl_b = IDLBitRange::from_iter(vec![3,4]);
    let idl_expect = IDLBitRange::from_iter(vec![1,2,5,6]);

    let idl_result = idl_a.andnot(idl_b);
    assert_eq!(idl_result, idl_expect);
}

#[test]
fn test_range_not_2() {
    let idl_a = IDLBitRange::from_iter(vec![1,2,3,4,5,6]);
    let idl_b = IDLBitRange::from_iter(vec![10]);
    let idl_expect = IDLBitRange::from_iter(vec![1,2,3,4,5,6]);

    let idl_result = idl_a.andnot(idl_b);
    assert_eq!(idl_result, idl_expect);
}

#[test]
fn test_range_not_3() {
    let idl_a = IDLBitRange::from_iter(vec![2,3,4,5,6]);
    let idl_b = IDLBitRange::from_iter(vec![1]);
    let idl_expect = IDLBitRange::from_iter(vec![2,3,4,5,6]);

    let idl_result = idl_a.andnot(idl_b);
    assert_eq!(idl_result, idl_expect);
}
