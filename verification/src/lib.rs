pub mod lob;
pub mod skiplist;
pub mod types;
