//! The built-in driver log formats.

pub mod dm_provider;
pub mod jdbc;
