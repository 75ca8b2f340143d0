pub mod util;
pub mod store;
pub mod ops;
pub mod container;
pub mod bitmap;
pub mod iter;
pub mod operators;
pub mod forms;
