use mergesort::decompose;

#[test]
fn even_grid() {
    assert_eq!(decompose(204), vec![20808u64]);
}

#[test]
fn odd_grid() {
    assert_eq!(decompose(807), vec![651249u64, 2u64]);
}

#[test]
fn even_grid_large() {
    assert_eq!(decompose(5014), vec![12570098u64]);
}

#[test]
fn odd_grid_large() {
    assert_eq!(decompose(750001), vec![562501500001u64, 2u64]);
}

#[test]
fn zero_grid() {
    assert_eq!(decompose(0), vec![0u64]);
}

#[test]
fn unit_grid() {
    assert_eq!(decompose(1), vec![1u64, 2u64]);
}

#[test]
fn deterministic() {
    let first = decompose(807);
    let second = decompose(807);
    assert_eq!(first, second);
    let third = decompose(204);
    let fourth = decompose(204);
    assert_eq!(third, fourth);
}
