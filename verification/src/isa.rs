//! The opcode table: the one description of the binary instruction format,
//! read by the assembler when it encodes and by the emulator when it decodes.
//!
//! An instruction is two bytes, seen as four nibbles `n0 n1 n2 n3`. `X` and
//! `Y` are register indices, `NN` an address or a slot, `AA` a constant.
//!
//! | bytes   | instruction  | effect                               |
//! |---------|--------------|--------------------------------------|
//! | `00 NN` | `jump NN`    | PC := NN                             |
//! | `10 XY` | `ifeq VX VY` | skip the next slot if VX == VY       |
//! | `20 XY` | `ifneq VX VY`| skip the next slot if VX != VY       |
//! | `30 XY` | `ifle VX VY` | skip the next slot if VX <= VY       |
//! | `40 XY` | `setrr VX VY`| VX := VY                             |
//! | `41 0X` | `setrpc VX`  | VX := PC                             |
//! | `5X NN` | `setrm VX NN`| VX := memory\[NN\]                   |
//! | `6X AA` | `setrc VX AA`| VX := AA                             |
//! | `70 0X` | `setpcr VX`  | PC := VX                             |
//! | `8X NN` | `setmr NN VX`| memory\[NN\] := VX                   |
//! | `90 XY` | `add VX VY`  | VX := VX + VY, VF := carry           |
//! | `91 XY` | `sub VX VY`  | VX := VX - VY, VF := borrow          |
//! | `A0 XY` | `and VX VY`  | VX := VX & VY                        |
//! | `A1 XY` | `or VX VY`   | VX := VX \| VY                       |
//! | `A2 XY` | `xor VX VY`  | VX := VX ^ VY                        |
//! | `A3 X_` | `not VX`     | VX := !VX                            |

use vstd::prelude::*;

verus! {

/// Index of the flag register VF, written by `add` and `sub`.
pub const FLAG_REGISTER: u8 = 15;

/// One instruction of the machine, with its operands as bytes.
///
/// The decoder only ever produces register indices below sixteen; the
/// assembler builds instructions from whatever bytes the source names.
#[derive(Clone, Copy, Debug, PartialEq, Eq, Structural)]
pub enum Instruction {
    Jump { target: u8 },
    IfEq { x: u8, y: u8 },
    IfNeq { x: u8, y: u8 },
    IfLe { x: u8, y: u8 },
    SetRr { x: u8, y: u8 },
    SetRpc { x: u8 },
    SetRm { x: u8, addr: u8 },
    SetRc { x: u8, value: u8 },
    SetPcr { x: u8 },
    SetMr { x: u8, addr: u8 },
    Add { x: u8, y: u8 },
    Sub { x: u8, y: u8 },
    And { x: u8, y: u8 },
    Or { x: u8, y: u8 },
    Xor { x: u8, y: u8 },
    Not { x: u8 },
}

/// The byte whose high nibble is the low nibble of `high` and whose other
/// bits are those of `low` or-ed in: `(high << 4) | low`, in eight bits.
pub open spec fn pack_nibbles(high: u8, low: u8) -> u8 {
    (high << 4u8) | low
}

/// The opcode byte `opcode` with a register index folded into it by a plain
/// or; for an index below sixteen it fills the low nibble.
pub open spec fn fold_register(opcode: u8, x: u8) -> u8 {
    opcode | x
}

/// The four nibbles of an instruction, most significant first.
pub open spec fn nibbles(b0: u8, b1: u8) -> Seq<u8> {
    seq![b0 / 16, b0 % 16, b1 / 16, b1 % 16]
}

impl Instruction {
    /// Every register index of the instruction names one of the sixteen
    /// registers.
    pub open spec fn well_formed(self) -> bool {
        match self {
            Instruction::Jump { target } => true,
            Instruction::IfEq { x, y } => x < 16 && y < 16,
            Instruction::IfNeq { x, y } => x < 16 && y < 16,
            Instruction::IfLe { x, y } => x < 16 && y < 16,
            Instruction::SetRr { x, y } => x < 16 && y < 16,
            Instruction::SetRpc { x } => x < 16,
            Instruction::SetRm { x, addr } => x < 16,
            Instruction::SetRc { x, value } => x < 16,
            Instruction::SetPcr { x } => x < 16,
            Instruction::SetMr { x, addr } => x < 16,
            Instruction::Add { x, y } => x < 16 && y < 16,
            Instruction::Sub { x, y } => x < 16 && y < 16,
            Instruction::And { x, y } => x < 16 && y < 16,
            Instruction::Or { x, y } => x < 16 && y < 16,
            Instruction::Xor { x, y } => x < 16 && y < 16,
            Instruction::Not { x } => x < 16,
        }
    }

    /// The two bytes that stand for the instruction, by the opcode table.
    /// Operands are packed as they are, without a range check.
    pub open spec fn encoding(self) -> (u8, u8) {
        match self {
            Instruction::Jump { target } => (0x00, target),
            Instruction::IfEq { x, y } => (0x10, pack_nibbles(x, y)),
            Instruction::IfNeq { x, y } => (0x20, pack_nibbles(x, y)),
            Instruction::IfLe { x, y } => (0x30, pack_nibbles(x, y)),
            Instruction::SetRr { x, y } => (0x40, pack_nibbles(x, y)),
            Instruction::SetRpc { x } => (0x41, x),
            Instruction::SetRm { x, addr } => (fold_register(0x50, x), addr),
            Instruction::SetRc { x, value } => (fold_register(0x60, x), value),
            Instruction::SetPcr { x } => (0x70, x),
            Instruction::SetMr { x, addr } => (fold_register(0x80, x), addr),
            Instruction::Add { x, y } => (0x90, pack_nibbles(x, y)),
            Instruction::Sub { x, y } => (0x91, pack_nibbles(x, y)),
            Instruction::And { x, y } => (0xA0, pack_nibbles(x, y)),
            Instruction::Or { x, y } => (0xA1, pack_nibbles(x, y)),
            Instruction::Xor { x, y } => (0xA2, pack_nibbles(x, y)),
            Instruction::Not { x } => (0xA3, pack_nibbles(x, 0)),
        }
    }

    /// Encodes the instruction into its two bytes.
    pub fn encode(&self) -> (bytes: (u8, u8))
        ensures
            bytes == self.encoding(),
    {
        match *self {
            Instruction::Jump { target } => (0x00, target),
            Instruction::IfEq { x, y } => (0x10, u4u4_to_u8(x, y)),
            Instruction::IfNeq { x, y } => (0x20, u4u4_to_u8(x, y)),
            Instruction::IfLe { x, y } => (0x30, u4u4_to_u8(x, y)),
            Instruction::SetRr { x, y } => (0x40, u4u4_to_u8(x, y)),
            Instruction::SetRpc { x } => (0x41, x),
            Instruction::SetRm { x, addr } => (0x50 | x, addr),
            Instruction::SetRc { x, value } => (0x60 | x, value),
            Instruction::SetPcr { x } => (0x70, x),
            Instruction::SetMr { x, addr } => (0x80 | x, addr),
            Instruction::Add { x, y } => (0x90, u4u4_to_u8(x, y)),
            Instruction::Sub { x, y } => (0x91, u4u4_to_u8(x, y)),
            Instruction::And { x, y } => (0xA0, u4u4_to_u8(x, y)),
            Instruction::Or { x, y } => (0xA1, u4u4_to_u8(x, y)),
            Instruction::Xor { x, y } => (0xA2, u4u4_to_u8(x, y)),
            Instruction::Not { x } => (0xA3, u4u4_to_u8(x, 0)),
        }
    }
}

/// The instruction that two bytes stand for, or `None` where the pair
/// `(n0, n1)` is not in the opcode table. The first nibble selects the
/// instruction; the second tells apart those that share a first nibble
/// (`4`, `9`, `A`) and is the register of `5`, `6` and `8`; elsewhere it is
/// not looked at.
pub open spec fn decoding(b0: u8, b1: u8) -> Option<Instruction> {
    let n0 = b0 / 16;
    let n1 = (b0 % 16) as u8;
    let n2 = b1 / 16;
    let n3 = (b1 % 16) as u8;
    if n0 == 0x0 {
        Some(Instruction::Jump { target: b1 })
    } else if n0 == 0x1 {
        Some(Instruction::IfEq { x: n2, y: n3 })
    } else if n0 == 0x2 {
        Some(Instruction::IfNeq { x: n2, y: n3 })
    } else if n0 == 0x3 {
        Some(Instruction::IfLe { x: n2, y: n3 })
    } else if n0 == 0x4 && n1 == 0x0 {
        Some(Instruction::SetRr { x: n2, y: n3 })
    } else if n0 == 0x4 && n1 == 0x1 {
        Some(Instruction::SetRpc { x: n3 })
    } else if n0 == 0x5 {
        Some(Instruction::SetRm { x: n1, addr: b1 })
    } else if n0 == 0x6 {
        Some(Instruction::SetRc { x: n1, value: b1 })
    } else if n0 == 0x7 {
        Some(Instruction::SetPcr { x: n3 })
    } else if n0 == 0x8 {
        Some(Instruction::SetMr { x: n1, addr: b1 })
    } else if n0 == 0x9 && n1 == 0x0 {
        Some(Instruction::Add { x: n2, y: n3 })
    } else if n0 == 0x9 && n1 == 0x1 {
        Some(Instruction::Sub { x: n2, y: n3 })
    } else if n0 == 0xA && n1 == 0x0 {
        Some(Instruction::And { x: n2, y: n3 })
    } else if n0 == 0xA && n1 == 0x1 {
        Some(Instruction::Or { x: n2, y: n3 })
    } else if n0 == 0xA && n1 == 0x2 {
        Some(Instruction::Xor { x: n2, y: n3 })
    } else if n0 == 0xA && n1 == 0x3 {
        Some(Instruction::Not { x: n2 })
    } else {
        None
    }
}

/// Packs two four-bit operands into one byte, the first in the high nibble.
/// Bits of `u41` above the fourth are shifted out; bits of `u42` above the
/// fourth are or-ed into the high nibble.
pub fn u4u4_to_u8(u41: u8, u42: u8) -> (packed: u8)
    ensures
        packed == pack_nibbles(u41, u42),
        u41 < 16 && u42 < 16 ==> packed == u41 * 16 + u42,
{
    proof {
        lemma_pack_nibbles(u41, u42);
    }
    u41 << 4 | u42
}

/// Splits the two bytes of an instruction into its four nibbles
/// `[n0, n1, n2, n3]`.
pub fn split_nibbles(b0: u8, b1: u8) -> (n: [u8; 4])
    ensures
        n@ == nibbles(b0, b1),
{
    proof {
        lemma_nibble_bits(b0);
        lemma_nibble_bits(b1);
    }
    let n: [u8; 4] = [(b0 & 0xF0) >> 4, b0 & 0x0F, (b1 & 0xF0) >> 4, b1 & 0x0F];
    assert(n@ =~= nibbles(b0, b1));
    n
}

/// Decodes the two bytes of an instruction slot.
pub fn decode(b0: u8, b1: u8) -> (instruction: Option<Instruction>)
    ensures
        instruction == decoding(b0, b1),
        instruction matches Some(i) ==> i.well_formed(),
{
    let n = split_nibbles(b0, b1);
    let n0 = n[0];
    let n1 = n[1];
    let n2 = n[2];
    let n3 = n[3];
    match n0 {
        0x0 => Some(Instruction::Jump { target: b1 }),
        0x1 => Some(Instruction::IfEq { x: n2, y: n3 }),
        0x2 => Some(Instruction::IfNeq { x: n2, y: n3 }),
        0x3 => Some(Instruction::IfLe { x: n2, y: n3 }),
        0x4 => match n1 {
            0x0 => Some(Instruction::SetRr { x: n2, y: n3 }),
            0x1 => Some(Instruction::SetRpc { x: n3 }),
            _ => None,
        },
        0x5 => Some(Instruction::SetRm { x: n1, addr: b1 }),
        0x6 => Some(Instruction::SetRc { x: n1, value: b1 }),
        0x7 => Some(Instruction::SetPcr { x: n3 }),
        0x8 => Some(Instruction::SetMr { x: n1, addr: b1 }),
        0x9 => match n1 {
            0x0 => Some(Instruction::Add { x: n2, y: n3 }),
            0x1 => Some(Instruction::Sub { x: n2, y: n3 }),
            _ => None,
        },
        0xA => match n1 {
            0x0 => Some(Instruction::And { x: n2, y: n3 }),
            0x1 => Some(Instruction::Or { x: n2, y: n3 }),
            0x2 => Some(Instruction::Xor { x: n2, y: n3 }),
            0x3 => Some(Instruction::Not { x: n2 }),
            _ => None,
        },
        _ => None,
    }
}

/// For operands below sixteen, packing is `16 * high + low`, and both
/// nibbles can be read back.
pub proof fn lemma_pack_nibbles(high: u8, low: u8)
    ensures
        high < 16 && low < 16 ==> pack_nibbles(high, low) == high * 16 + low,
        high < 16 && low < 16 ==> pack_nibbles(high, low) / 16 == high,
        high < 16 && low < 16 ==> pack_nibbles(high, low) % 16 == low,
{
    assert(high < 16 && low < 16 ==> ((high << 4u8) | low) == high * 16 + low) by (bit_vector);
}

/// For a register index below sixteen and an opcode byte with an empty low
/// nibble, folding is addition: the opcode keeps the high nibble and the
/// index fills the low one.
pub proof fn lemma_fold_register(opcode: u8, x: u8)
    ensures
        x < 16 && opcode % 16 == 0 ==> fold_register(opcode, x) == opcode + x,
        x < 16 && opcode % 16 == 0 ==> fold_register(opcode, x) / 16 == opcode / 16,
        x < 16 && opcode % 16 == 0 ==> fold_register(opcode, x) % 16 == x,
{
    assert(x < 16 && opcode % 16 == 0 ==> (opcode | x) == opcode + x) by (bit_vector);
}

/// Masks and shifts read the same nibbles as division and remainder.
proof fn lemma_nibble_bits(b: u8)
    ensures
        (b & 0xF0) >> 4u8 == b / 16,
        b & 0x0F == b % 16,
{
    assert((b & 0xF0) >> 4u8 == b / 16 && b & 0x0F == b % 16) by (bit_vector);
}

/// The decoder undoes the encoder: an instruction whose register indices
/// are below sixteen is read back from its two bytes as it was.
pub proof fn lemma_decode_encode(instruction: Instruction)
    requires
        instruction.well_formed(),
    ensures
        decoding(instruction.encoding().0, instruction.encoding().1) == Some(instruction),
{
    match instruction {
        Instruction::Jump { target } => {},
        Instruction::IfEq { x, y } => {
            lemma_pack_nibbles(x, y);
        },
        Instruction::IfNeq { x, y } => {
            lemma_pack_nibbles(x, y);
        },
        Instruction::IfLe { x, y } => {
            lemma_pack_nibbles(x, y);
        },
        Instruction::SetRr { x, y } => {
            lemma_pack_nibbles(x, y);
        },
        Instruction::SetRpc { x } => {},
        Instruction::SetRm { x, addr } => {
            lemma_fold_register(0x50, x);
        },
        Instruction::SetRc { x, value } => {
            lemma_fold_register(0x60, x);
        },
        Instruction::SetPcr { x } => {},
        Instruction::SetMr { x, addr } => {
            lemma_fold_register(0x80, x);
        },
        Instruction::Add { x, y } => {
            lemma_pack_nibbles(x, y);
        },
        Instruction::Sub { x, y } => {
            lemma_pack_nibbles(x, y);
        },
        Instruction::And { x, y } => {
            lemma_pack_nibbles(x, y);
        },
        Instruction::Or { x, y } => {
            lemma_pack_nibbles(x, y);
        },
        Instruction::Xor { x, y } => {
            lemma_pack_nibbles(x, y);
        },
        Instruction::Not { x } => {
            lemma_pack_nibbles(x, 0);
        },
    }
}

/// Whatever two bytes the decoder accepts, the instruction it gives names
/// only registers that exist.
pub proof fn lemma_decoding_well_formed(b0: u8, b1: u8)
    ensures
        decoding(b0, b1) matches Some(i) ==> i.well_formed(),
{
}

} // verus!
