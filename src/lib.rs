//! Inventory parsing, mount-state checks and pass planning for a drive wiper.

pub mod text;
pub mod mounts;
pub mod inventory;
pub mod blocks;
