use minigpt::shape::Shape;

#[test]
fn test_rank() {
    let rank_0 = Shape::new(&[0, 0, 0, 0]);
    let rank_1 = Shape::new(&[7, 0, 0, 0]);
    let rank_2 = Shape::new(&[8, 1, 0, 0]);
    let rank_4 = Shape::new(&[9, 5, 4, 2]);

    assert_eq!(rank_0.rank(), 0);
    assert_eq!(rank_1.rank(), 1);
    assert_eq!(rank_2.rank(), 2);
    assert_eq!(rank_4.rank(), 4);
}

#[test]
fn test_real_index() {
    let shape = Shape::new(&[9, 5, 4, 2]);
    let neg = shape.real_index(-3);
    let pos = shape.real_index(2);

    assert_eq!(neg, 1);
    assert_eq!(pos, 2);
}

#[test]
fn test_unravel_index() {
    let shape = Shape::new(&[4, 2, 2, 1]);
    let index = shape.unravel_index(13);

    assert_eq!(index.0, [3, 0, 1, 0])
}

#[test]
fn test_expand() {
    let shape = Shape::new(&[2, 8, 0, 0]);
    let expanded = shape.expand(3);

    assert_eq!(expanded.dims.0, [1, 2, 8, 0]);
    assert_eq!(expanded.strides.0, [0, 8, 1, 0]);
}

#[test]
fn test_get_dim() {
    let shape = Shape::new(&[2, 8, 7, 0]);

    assert_eq!(shape.get_dim(0), 2);
    assert_eq!(shape.get_dim(2), 7);
}

#[test]
fn test_get_stride() {
    let shape = Shape::new(&[2, 8, 7, 0]);

    assert_eq!(shape.get_stride(0), 56);
    assert_eq!(shape.get_stride(2), 1);
}

#[test]
fn test_squeeze() {
    let shape = Shape::new(&[3, 1, 7, 0]);
    let squeezed = shape.squeeze(1);

    assert_eq!(squeezed.dims.0, [3, 7, 0, 0]);
}

#[test]
fn test_broadcast() {
    let a = Shape::new(&[3, 1, 7, 0]);
    let b = Shape::new(&[2, 7, 0, 0]);
    let broadcast = a.broadcast(b);

    assert_eq!(broadcast.0, [3, 2, 7, 0]);
}

#[test]
fn test_batches() {
    let a = Shape::new(&[3, 1, 7, 8]);
    let b = Shape::new(&[1, 7, 8, 0]);
    let c = Shape::new(&[7, 8, 0, 0]);

    assert_eq!(a.batches().dims.0, [3, 1, 0, 0]);
    assert_eq!(b.batches().dims.0, [1, 0, 0, 0]);
    assert_eq!(c.batches().dims.0, [0, 0, 0, 0]);
}

#[test]
fn test_drop() {
    let shape = Shape::new(&[3, 7, 8, 1]);

    assert_eq!(shape.drop(1).dims.0, [3, 8, 1, 0]);
}

#[test]
fn test_nditer() {
    let mut shape = Shape::new(&[3, 2, 0, 0]);
    shape.strides.0[1] = 0; // Make it non-contiguous
    let mut iter = shape.nditer(0);

    assert_eq!(iter.next().unwrap(), 0);
    assert_eq!(iter.next().unwrap(), 0);
    assert_eq!(iter.next().unwrap(), 2);
    assert_eq!(iter.next().unwrap(), 2);
    assert_eq!(iter.next().unwrap(), 4);
    assert_eq!(iter.next().unwrap(), 4);
}
