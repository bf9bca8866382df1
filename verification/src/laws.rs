//! What the operations of the codec are for, said of their results: how results
//! relate to inputs, and results of related inputs to each other.

pub mod chunk;
pub mod field;
pub mod head;
pub mod number;
pub mod position;
pub mod response;
pub mod stream;
pub mod text;
pub mod view;
