//! An object-caching slab allocator engine.
//!
//! The engine hands out fixed-size object slots carved from whole backing
//! regions ("slabs"). It works purely on addresses: the caller obtains regions
//! from a backing allocator, hands their base addresses to the engine, and gets
//! back the addresses of object slots together with the cached-construction
//! state of each slot. Regions that the reclamation policy decides to give up
//! are returned to the caller as plain addresses.

pub mod aligned;
pub mod allocator;
pub mod builder;
pub mod dispatch;
pub mod init;
pub mod large;
pub mod layout;
pub mod list;
pub mod page;
pub mod pool;
pub mod ptr_map;
pub mod sized;
pub mod slab;
pub mod stack;
pub mod system;
pub mod workingset;
