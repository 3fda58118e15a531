//! The checks a channel makes on what it receives.
use vstd::prelude::*;
use crate::relcomm::packet::{is_valid, Packet};

verus! {

/// A received packet is accepted when its checksum matches its contents.
pub fn validate_message(packet: &Packet) -> (ok: bool)
    ensures
        ok == is_valid(*packet),
{
    packet.header.checksum == Packet::checksum(&packet.header, &packet.data)
}

} // verus!
