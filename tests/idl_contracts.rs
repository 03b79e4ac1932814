use idl_poc::{AndNot, IDLBitRange, IDLSimple, IDL};

fn simple_ids(idl: &IDLSimple) -> Vec<u64> {
    let mut it = idl.iter();
    let mut out = Vec::new();
    while let Some(id) = it.next() {
        out.push(id);
    }
    out
}

fn range_ids(idl: &IDLBitRange) -> Vec<u64> {
    let mut it = idl.iter();
    let mut out = Vec::new();
    while let Some(id) = it.next() {
        out.push(id);
    }
    out
}

#[test]
fn simple_from_u64_and_push() {
    let mut a = IDLSimple::from_u64(9);
    assert_eq!(a.len(), 1);
    a.push_id(12);
    assert_eq!(a.len(), 2);
    assert_eq!(simple_ids(&a), vec![9, 12]);
    assert_eq!(IDLSimple::new().len(), 0);
}

#[test]
fn simple_empty_operands() {
    let a = IDLSimple::from_iter(vec![1, 5, 9]);
    assert_eq!(a & IDLSimple::new(), IDLSimple::new());
    let a = IDLSimple::from_iter(vec![1, 5, 9]);
    assert_eq!(IDLSimple::new() | a, IDLSimple::from_iter(vec![1, 5, 9]));
    let a = IDLSimple::from_iter(vec![1, 5, 9]);
    assert_eq!(a.andnot(IDLSimple::new()), IDLSimple::from_iter(vec![1, 5, 9]));
    assert_eq!(IDLSimple::new().andnot(IDLSimple::from_u64(3)), IDLSimple::new());
}

#[test]
fn simple_single_element_intersections() {
    let big = IDLSimple::from_iter((0..100).map(|i| i * 3).collect());
    assert_eq!(IDLSimple::from_u64(27) & big, IDLSimple::from_u64(27));
    let big = IDLSimple::from_iter((0..100).map(|i| i * 3).collect());
    assert_eq!(big & IDLSimple::from_u64(28), IDLSimple::new());
    let big = IDLSimple::from_iter((0..100).map(|i| i * 3).collect());
    assert_eq!(big & IDLSimple::from_u64(297), IDLSimple::from_u64(297));
}

#[test]
fn simple_largest_ids() {
    let a = IDLSimple::from_iter(vec![0, u64::MAX - 1, u64::MAX]);
    let b = IDLSimple::from_iter(vec![u64::MAX]);
    assert_eq!(a & b, IDLSimple::from_u64(u64::MAX));
    let a = IDLSimple::from_iter(vec![0, u64::MAX]);
    let b = IDLSimple::from_iter(vec![u64::MAX - 1]);
    assert_eq!(a | b, IDLSimple::from_iter(vec![0, u64::MAX - 1, u64::MAX]));
}

#[test]
fn simple_iter_walks_in_order() {
    let a = IDLSimple::from_iter(vec![3, 4, 70]);
    assert_eq!(simple_ids(&a), vec![3, 4, 70]);
    assert_eq!(simple_ids(&IDLSimple::new()), Vec::<u64>::new());
}

#[test]
fn range_from_u64_layout() {
    let a = IDLBitRange::from_u64(130);
    assert_eq!(range_ids(&a), vec![130]);
    assert_eq!(a, IDLBitRange::from_iter(vec![130]));
    assert_ne!(a, IDLBitRange::from_iter(vec![131]));
}

#[test]
fn range_push_same_id_twice_flips_it_off() {
    let mut a = IDLBitRange::new();
    a.push_id(5);
    a.push_id(7);
    a.push_id(5);
    assert_eq!(range_ids(&a), vec![7]);
    assert_eq!(a.len(), 0);
}

#[test]
fn range_iter_crosses_ranges() {
    let ids = vec![0, 1, 63, 64, 127, 128, 1000, u64::MAX - 64, u64::MAX];
    let a = IDLBitRange::from_iter(ids.clone());
    assert_eq!(range_ids(&a), ids);
    assert_eq!(range_ids(&IDLBitRange::new()), Vec::<u64>::new());
}

#[test]
fn range_set_algebra_by_ids() {
    let a = IDLBitRange::from_iter(vec![1, 2, 64, 65, 200, 300]);
    let b = IDLBitRange::from_iter(vec![2, 65, 66, 300, 5000]);
    assert_eq!(range_ids(&(a & b)), vec![2, 65, 300]);
    let a = IDLBitRange::from_iter(vec![1, 2, 64, 65, 200, 300]);
    let b = IDLBitRange::from_iter(vec![2, 65, 66, 300, 5000]);
    assert_eq!(range_ids(&(a | b)), vec![1, 2, 64, 65, 66, 200, 300, 5000]);
    let a = IDLBitRange::from_iter(vec![1, 2, 64, 65, 200, 300]);
    let b = IDLBitRange::from_iter(vec![2, 65, 66, 300, 5000]);
    assert_eq!(range_ids(&a.andnot(b)), vec![1, 64, 200]);
}

#[test]
fn range_andnot_drops_emptied_range() {
    let a = IDLBitRange::from_iter(vec![64, 65, 128]);
    let b = IDLBitRange::from_iter(vec![64, 65]);
    assert_eq!(a.andnot(b), IDLBitRange::from_iter(vec![128]));
}

#[test]
fn range_single_range_operand() {
    let a = IDLBitRange::from_iter(vec![3, 9]);
    let b = IDLBitRange::from_iter(vec![1, 9, 70, 140]);
    assert_eq!(a & b, IDLBitRange::from_u64(9));
    let a = IDLBitRange::from_iter(vec![1, 9, 70, 140]);
    let b = IDLBitRange::from_iter(vec![200]);
    assert_eq!(a & b, IDLBitRange::new());
}
