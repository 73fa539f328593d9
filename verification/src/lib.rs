pub mod ann_buf;
pub mod ann_class;
pub mod ann_store;
pub mod difficulty;
pub mod prooftree;
pub mod types;
