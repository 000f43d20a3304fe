pub mod cas;
pub mod error;
pub mod keys;
pub mod laws;
pub mod manager;
pub mod node;
pub mod store;
