use minigpt::gpu::{Launch, Uniforms};
use minigpt::shape::Shape;
use minigpt::tape::Tensor;

fn tensor(dims: &[usize], contiguous: bool) -> Tensor<f32> {
    Tensor::new(0, Shape::new(dims), None, None, contiguous)
}

#[test]
fn uniforms_read_both_operands() {
    let a = tensor(&[2, 3, 4], true);
    let b = tensor(&[2, 4, 5], false);
    let u = Uniforms::new(&a, &b);
    assert_eq!(u.a.dims, [2, 3, 4, 0]);
    assert_eq!(u.a.strides, [12, 4, 1, 0]);
    assert_eq!(u.a.is_contiguous, 1);
    assert_eq!(u.a.rank, 3);
    assert_eq!(u.b.dims, [2, 4, 5, 0]);
    assert_eq!(u.b.strides, [20, 5, 1, 0]);
    assert_eq!(u.b.is_contiguous, 0);
    assert_eq!(u.k, 4);
}

#[test]
fn launch_covers_the_output_with_workgroups_of_64() {
    let a = tensor(&[2, 3, 4], true);
    let b = tensor(&[2, 4, 5], true);
    let l = Launch::new(&a, &b);
    assert_eq!(l.output_len, 30);
    assert_eq!(l.output_size, 120);
    assert_eq!(l.workgroups, 1);

    let a = tensor(&[130, 1], true);
    let b = tensor(&[1, 1], true);
    assert_eq!(Launch::new(&a, &b).workgroups, 3);

    let a = tensor(&[128, 1], true);
    assert_eq!(Launch::new(&a, &b).workgroups, 2);
}
