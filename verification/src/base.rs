//! A single-object variant of the communication layer: one header format of
//! 19 bytes, one of 27 bytes with an origin, a message queue, and the
//! decisions of its sender and listener.
pub mod config;
pub mod flags;
pub mod header;
pub mod packet;
pub mod message_queue;
pub mod debug;
pub mod failure_detection;
pub mod reliable_communication;
