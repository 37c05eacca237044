pub mod kernel;
pub mod l1s;
