use minigpt::dims::Dims;

#[test]
fn dims_strides_row_major() {
    let d = Dims([2, 3, 4, 0]);
    assert_eq!(d.strides().0, [12, 4, 1, 0]);
    assert_eq!(Dims([5, 0, 0, 0]).strides().0, [1, 0, 0, 0]);
    assert_eq!(Dims([0, 0, 0, 0]).strides().0, [0, 0, 0, 0]);
}

#[test]
fn dims_dot_sums_products() {
    let a = Dims([1, 2, 3, 0]);
    let b = Dims([12, 4, 1, 0]);
    assert_eq!(a.dot(b), 12 + 8 + 3);
}

#[test]
fn dims_add_fills_zero_entries() {
    let d = Dims([2, 0, 0, 0]);
    assert_eq!(d.add(&[3, 4]).0, [2, 3, 4, 0]);
    assert_eq!(Dims([1, 2, 3, 0]).add(&[7, 8]).0, [1, 2, 3, 7]);
    assert_eq!(Dims([0, 0, 0, 0]).add(&[]).0, [0, 0, 0, 0]);
}

#[test]
fn dims_insert_shifts_later_entries() {
    let d = Dims([2, 3, 4, 0]);
    assert_eq!(d.insert(1, 9).0, [2, 9, 3, 4]);
    assert_eq!(d.insert(0, 1).0, [1, 2, 3, 4]);
    assert_eq!(d.insert(3, 5).0, [2, 3, 4, 5]);
}

#[test]
fn dims_product_stops_at_zero() {
    assert_eq!(Dims::product(&[2, 3, 4, 0]), 24);
    assert_eq!(Dims::product(&[2, 0, 4, 5]), 2);
    assert_eq!(Dims::product(&[]), 1);
}

#[test]
fn dims_rank_counts_leading_nonzero() {
    assert_eq!(Dims([2, 3, 0, 0]).rank(), 2);
    assert_eq!(Dims([0, 3, 0, 0]).rank(), 0);
    assert_eq!(Dims([1, 1, 1, 1]).rank(), 4);
}

#[test]
fn dims_default_is_all_zero() {
    let d = Dims::default();
    assert_eq!(d.0, [0, 0, 0, 0]);
}
