pub mod codec;
pub mod counter;
pub mod indexed_map;
pub mod laws;
pub mod order;
pub mod records;
