pub mod cycle;
pub mod registry;
pub mod slot;
