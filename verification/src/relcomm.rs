//! The reliable-communication layer: packet formats, the listener's and the
//! sender's decisions, failure detection and the broadcast algorithms.
pub mod flags;
pub mod node;
pub mod header;
pub mod packet;
pub mod rec_aux;
pub mod rec_listener;
pub mod config;
pub mod rec_sender;
pub mod failure_detection;
pub mod channels;
pub mod reliable_communication;
pub mod types_header;
pub mod types_packet;
