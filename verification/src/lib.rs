//! A library for reliable communication between the processes of a group.
pub mod wire;
pub mod addr;
pub mod relcomm;
pub mod hashmap;
pub mod harness;
pub mod base;
pub mod text;
