//! The flag byte of a header.
use vstd::prelude::*;
use vstd::std_specs::ops::{BitAndSpecImpl, BitOrSpecImpl, NotSpecImpl};
use vstd::std_specs::convert::FromSpecImpl;

verus! {

/// No flag set.
pub const EMP: u8 = 0;
/// The packet acknowledges a data packet.
pub const ACK: u8 = 1;
/// The packet is the last one of its message.
pub const LST: u8 = 2;
/// The packet belongs to a broadcast.
pub const BRD: u8 = 4;
/// The packet is a heartbeat.
pub const HB: u8 = 8;
/// The packet must be gossiped (the broadcast bit).
pub const GSP: u8 = 4;
/// The packet opens a connection (the bit that heartbeats also use).
pub const SYN: u8 = 8;
/// The packet closes a connection.
pub const FIN: u8 = 16;

/// A set of flags packed in one byte: ack 1, last 2, broadcast 4, heartbeat 8.
#[derive(Debug, Clone, Copy, PartialEq, Eq, Structural)]
pub struct Flags {
    pub value: u8,
}

/// The text of one flag when `set`.
pub open spec fn flag_text(set: bool, text: Seq<char>) -> Seq<char> {
    if set {
        text
    } else {
        Seq::empty()
    }
}

/// The names of the set flags, each followed by a space, in the order ACK, LST, BRD, HB.
pub open spec fn flags_text(v: u8) -> Seq<char> {
    flag_text(v & ACK != 0, "ACK "@) + flag_text(v & LST != 0, "LST "@) + flag_text(
        v & BRD != 0,
        "BRD "@,
    ) + flag_text(v & HB != 0, "HB "@)
}

impl Flags {
    /// True when some bit of `flag` is set in `self`.
    pub fn is_set(&self, flag: Flags) -> (res: bool)
        ensures
            res == (self.value & flag.value != 0),
    {
        self.value & flag.value != 0
    }

    /// The names of the set flags, as `Display` shows them.
    pub fn to_string(&self) -> (res: String)
        ensures
            res@ == flags_text(self.value),
    {
        let mut result = String::new();
        if self.is_set(Flags { value: ACK }) {
            result.append("ACK ");
        }
        if self.is_set(Flags { value: LST }) {
            result.append("LST ");
        }
        if self.is_set(Flags { value: BRD }) {
            result.append("BRD ");
        }
        if self.is_set(Flags { value: HB }) {
            result.append("HB ");
        }
        proof {
            assert(result@ =~= flags_text(self.value));
        }
        result
    }
}

impl core::ops::BitOr for Flags {
    type Output = Flags;

    fn bitor(self, rhs: Flags) -> (res: Flags)
        ensures
            res.value == self.value | rhs.value,
    {
        Flags { value: self.value | rhs.value }
    }
}

impl BitOrSpecImpl for Flags {
    open spec fn obeys_bitor_spec() -> bool {
        true
    }

    open spec fn bitor_req(self, rhs: Flags) -> bool {
        true
    }

    open spec fn bitor_spec(self, rhs: Flags) -> Flags {
        Flags { value: self.value | rhs.value }
    }
}

impl core::ops::BitOr<u8> for Flags {
    type Output = Flags;

    fn bitor(self, rhs: u8) -> (res: Flags)
        ensures
            res.value == self.value | rhs,
    {
        Flags { value: self.value | rhs }
    }
}

impl BitOrSpecImpl<u8> for Flags {
    open spec fn obeys_bitor_spec() -> bool {
        true
    }

    open spec fn bitor_req(self, rhs: u8) -> bool {
        true
    }

    open spec fn bitor_spec(self, rhs: u8) -> Flags {
        Flags { value: self.value | rhs }
    }
}

impl core::ops::BitAnd for Flags {
    type Output = Flags;

    fn bitand(self, rhs: Flags) -> (res: Flags)
        ensures
            res.value == self.value & rhs.value,
    {
        Flags { value: self.value & rhs.value }
    }
}

impl BitAndSpecImpl for Flags {
    open spec fn obeys_bitand_spec() -> bool {
        true
    }

    open spec fn bitand_req(self, rhs: Flags) -> bool {
        true
    }

    open spec fn bitand_spec(self, rhs: Flags) -> Flags {
        Flags { value: self.value & rhs.value }
    }
}

impl core::ops::BitAnd<u8> for Flags {
    type Output = Flags;

    fn bitand(self, rhs: u8) -> (res: Flags)
        ensures
            res.value == self.value & rhs,
    {
        Flags { value: self.value & rhs }
    }
}

impl BitAndSpecImpl<u8> for Flags {
    open spec fn obeys_bitand_spec() -> bool {
        true
    }

    open spec fn bitand_req(self, rhs: u8) -> bool {
        true
    }

    open spec fn bitand_spec(self, rhs: u8) -> Flags {
        Flags { value: self.value & rhs }
    }
}

/// `flags & condition` keeps the flags when the condition holds and clears them otherwise.
impl core::ops::BitAnd<bool> for Flags {
    type Output = Flags;

    fn bitand(self, rhs: bool) -> (res: Flags)
        ensures
            res.value == (if rhs { self.value } else { 0 }),
    {
        Flags { value: if rhs { self.value } else { 0 } }
    }
}

impl BitAndSpecImpl<bool> for Flags {
    open spec fn obeys_bitand_spec() -> bool {
        true
    }

    open spec fn bitand_req(self, rhs: bool) -> bool {
        true
    }

    open spec fn bitand_spec(self, rhs: bool) -> Flags {
        Flags { value: if rhs { self.value } else { 0 } }
    }
}

/// `condition & flags` keeps the flags when the condition holds and clears them otherwise.
impl core::ops::BitAnd<Flags> for bool {
    type Output = Flags;

    fn bitand(self, rhs: Flags) -> (res: Flags)
        ensures
            res.value == (if self { rhs.value } else { 0 }),
    {
        Flags { value: if self { rhs.value } else { 0 } }
    }
}

impl BitAndSpecImpl<Flags> for bool {
    open spec fn obeys_bitand_spec() -> bool {
        true
    }

    open spec fn bitand_req(self, rhs: Flags) -> bool {
        true
    }

    open spec fn bitand_spec(self, rhs: Flags) -> Flags {
        Flags { value: if self { rhs.value } else { 0 } }
    }
}

impl core::ops::Not for Flags {
    type Output = Flags;

    fn not(self) -> (res: Flags)
        ensures
            res.value == !self.value,
    {
        Flags { value: !self.value }
    }
}

impl NotSpecImpl for Flags {
    open spec fn obeys_not_spec() -> bool {
        true
    }

    open spec fn not_req(self) -> bool {
        true
    }

    open spec fn not_spec(self) -> Flags {
        Flags { value: !self.value }
    }
}

impl From<u8> for Flags {
    fn from(value: u8) -> (res: Flags)
        ensures
            res.value == value,
    {
        Flags { value }
    }
}

impl FromSpecImpl<u8> for Flags {
    open spec fn obeys_from_spec() -> bool {
        true
    }

    open spec fn from_spec(value: u8) -> Flags {
        Flags { value }
    }
}

} // verus!
