pub mod board;
pub mod master;
pub mod node;
pub mod tag;
pub mod task;
pub mod value;
pub mod worker;
