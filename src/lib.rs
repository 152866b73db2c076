pub mod laws;
pub mod linked_list;
pub mod model;

pub use linked_list::{Iter, LinkedList};
