pub mod store;
pub mod types;
