//! Leases: model, store, allocation policy.
pub mod model;
pub mod store;

pub use store::LeaseStore;
pub mod allocator;
