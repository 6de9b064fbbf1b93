//! Classification of LZVN opcode bytes.

use vstd::prelude::*;

verus! {

/// The instruction family selected by an LZVN opcode byte.
#[derive(Debug, Clone, Copy, PartialEq, Eq, Structural)]
pub enum OpcodeKind {
    /// Up to 3 literals, a match of 3..=10 bytes and an 11-bit distance.
    SmallDistance,
    /// Up to 3 literals, a match of 3..=34 bytes and a 14-bit distance.
    MediumDistance,
    /// Up to 3 literals, a match of 3..=10 bytes and a 16-bit distance.
    LargeDistance,
    /// Up to 3 literals and a match of 3..=10 bytes at the previous distance.
    PreviousDistance,
    /// 1..=15 literals.
    SmallLiteral,
    /// 16..=271 literals, the count held in the next byte.
    LargeLiteral,
    /// A match of 1..=15 bytes at the previous distance.
    SmallMatch,
    /// A match of 16..=271 bytes at the previous distance.
    LargeMatch,
    /// A one-byte instruction that does nothing.
    Nop,
    /// The end-of-stream marker.
    Eos,
}

/// Opcodes below 0x70, in 0x80..=0x9F and in 0xC0..=0xCF: the three low
/// bits select the family.
pub open spec fn distance_family(op: u8) -> Option<OpcodeKind> {
    if op % 8 == 7 {
        Some(OpcodeKind::LargeDistance)
    } else if op % 8 == 6 {
        if op >= 0x40 {
            Some(OpcodeKind::PreviousDistance)
        } else if op == 0x06 {
            Some(OpcodeKind::Eos)
        } else if op == 0x0E || op == 0x16 {
            Some(OpcodeKind::Nop)
        } else {
            None
        }
    } else {
        Some(OpcodeKind::SmallDistance)
    }
}

/// The instruction family of every opcode byte; `None` for undefined opcodes.
pub open spec fn opcode_kind(op: u8) -> Option<OpcodeKind> {
    if op >= 0xF0 {
        if op == 0xF0 { Some(OpcodeKind::LargeMatch) } else { Some(OpcodeKind::SmallMatch) }
    } else if op >= 0xE0 {
        if op == 0xE0 { Some(OpcodeKind::LargeLiteral) } else { Some(OpcodeKind::SmallLiteral) }
    } else if op >= 0xD0 {
        None
    } else if 0x70 <= op && op < 0x80 {
        None
    } else if 0xA0 <= op && op < 0xC0 {
        Some(OpcodeKind::MediumDistance)
    } else {
        distance_family(op)
    }
}

/// Classify an opcode byte.
pub fn classify(opcode: u8) -> (kind: Option<OpcodeKind>)
    ensures
        kind == opcode_kind(opcode),
{
    if opcode >= 0xF0 {
        if opcode == 0xF0 { Some(OpcodeKind::LargeMatch) } else { Some(OpcodeKind::SmallMatch) }
    } else if opcode >= 0xE0 {
        if opcode == 0xE0 { Some(OpcodeKind::LargeLiteral) } else { Some(OpcodeKind::SmallLiteral) }
    } else if opcode >= 0xD0 {
        None
    } else if 0x70 <= opcode && opcode < 0x80 {
        None
    } else if 0xA0 <= opcode && opcode < 0xC0 {
        Some(OpcodeKind::MediumDistance)
    } else {
        let low = opcode % 8;
        if low == 7 {
            Some(OpcodeKind::LargeDistance)
        } else if low == 6 {
            if opcode >= 0x40 {
                Some(OpcodeKind::PreviousDistance)
            } else if opcode == 0x06 {
                Some(OpcodeKind::Eos)
            } else if opcode == 0x0E || opcode == 0x16 {
                Some(OpcodeKind::Nop)
            } else {
                None
            }
        } else {
            Some(OpcodeKind::SmallDistance)
        }
    }
}

} // verus!
