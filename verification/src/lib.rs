pub mod dims;
pub mod shape;
pub mod laws;
pub mod tokenizer;
pub mod scalar;
pub mod tape;
pub mod tape_elems;
pub mod tape_views;
pub mod tape_reduce;
pub mod tape_ops;
pub mod tape_matmul;
pub mod tape_grad;
pub mod gpt;
pub mod gpu;
