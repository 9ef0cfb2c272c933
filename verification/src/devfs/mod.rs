//! Devices that appear as files.
pub mod block;
pub mod device;
pub mod registry;
