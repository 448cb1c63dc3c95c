pub mod key_node;
pub mod mismatch;
