pub mod json;
pub mod kv;
pub mod log;
pub mod message;
pub mod node;
pub mod guarantees;
pub mod store;
pub mod text;
