//! Cells, and the three bytes that each becomes.

use crate::song::{EffectId, Note, PatternCell, SubpatternCell, PATTERN_LENGTH};
use vstd::prelude::*;

verus! {

/// One row of one channel, as the playback routine reads it: three bytes once encoded.
#[derive(Debug, Clone, Copy, Eq)]
pub struct Cell(pub CellFirstHalf, pub Effect);

/// What a cell holds besides its effect. The two kinds of pattern use the same two bytes
/// differently; two halves are equal when their raw bytes are.
#[derive(Debug, Clone, Copy, Eq)]
pub enum CellFirstHalf {
    Pattern { note: Note, instrument: u8 },
    Subpattern { offset: u8, next_row_idx: u8 },
}

#[derive(Debug, Clone, Copy, PartialEq, Eq, Hash, Structural)]
pub struct Effect {
    pub id: EffectId,
    pub param: u8,
}

impl CellFirstHalf {
    /// The two bytes that this half stands for: first the note (or the offset, shifted, with the
    /// jump target's bit 4 in bit 0), then the instrument (or the jump target's low four bits).
    pub open spec fn spec_as_raw(&self) -> (u8, u8) {
        match *self {
            CellFirstHalf::Pattern { note, instrument } => (note.spec_value(), instrument),
            CellFirstHalf::Subpattern { offset, next_row_idx } => (
                offset << 1 | (next_row_idx & 0x10) >> 4,
                next_row_idx & 0x0F,
            ),
        }
    }

    #[verifier::when_used_as_spec(spec_as_raw)]
    pub fn as_raw(&self) -> (raw: (u8, u8))
        ensures
            raw == self.spec_as_raw(),
    {
        match *self {
            CellFirstHalf::Pattern { note, instrument } => (note.value(), instrument),
            CellFirstHalf::Subpattern { offset, next_row_idx } => (
                offset << 1 | (next_row_idx & 0x10) >> 4,
                next_row_idx & 0x0F,
            ),
        }
    }
}

impl PartialEq for CellFirstHalf {
    fn eq(&self, other: &Self) -> (equal: bool) {
        let a = self.as_raw();
        let b = other.as_raw();
        a.0 == b.0 && a.1 == b.1
    }
}

impl vstd::std_specs::cmp::PartialEqSpecImpl for CellFirstHalf {
    open spec fn obeys_eq_spec() -> bool {
        true
    }

    open spec fn eq_spec(&self, other: &Self) -> bool {
        self.spec_as_raw() == other.spec_as_raw()
    }
}

impl PartialEq for Cell {
    fn eq(&self, other: &Self) -> (equal: bool) {
        self.0 == other.0 && self.1 == other.1
    }
}

impl vstd::std_specs::cmp::PartialEqSpecImpl for Cell {
    open spec fn obeys_eq_spec() -> bool {
        true
    }

    open spec fn eq_spec(&self, other: &Self) -> bool {
        self.same_as(*other)
    }
}

impl Cell {
    /// Whether two cells are the same to the playback routine: same raw first half, same effect.
    /// This is what `==` computes.
    pub open spec fn same_as(self, other: Cell) -> bool {
        self.0.spec_as_raw() == other.0.spec_as_raw() && self.1 == other.1
    }

    /// The cells whose first byte is defined: a pattern break names a row, counted from 1.
    pub open spec fn encodable(&self) -> bool {
        self.1.id == EffectId::PatternBreak ==> 1 <= self.1.param <= PATTERN_LENGTH
    }

    /// First byte: the effect's parameter, as the playback routine wants it.
    pub open spec fn spec_first_byte(&self) -> u8 {
        let param = self.1.param;
        match self.1.id {
            EffectId::PosJump => (((param - 2) * 2) % 256) as u8,
            EffectId::SetVol => {
                let envelope = param >> 4;
                let volume = param & 0x0F;
                if envelope >= 1 && volume == 0 && envelope & 8 == 0 {
                    0x08
                } else {
                    volume << 4 | envelope
                }
            },
            EffectId::PatternBreak => ((param - 1) as u8) | ((256 - PATTERN_LENGTH) as u8),
            _ => param,
        }
    }

    /// Second byte: instrument (or low four bits of the jump target) above the effect's code.
    pub open spec fn spec_second_byte(&self) -> u8 {
        self.0.spec_as_raw().1 << 4 | self.1.id.spec_code()
    }

    /// Third byte: the note, or the offset with the jump target's bit 4.
    pub open spec fn spec_third_byte(&self) -> u8 {
        self.0.spec_as_raw().0
    }

    /// The three bytes of a cell.
    pub open spec fn spec_encode(&self) -> (u8, u8, u8) {
        (self.spec_first_byte(), self.spec_second_byte(), self.spec_third_byte())
    }

    pub fn is_encodable(&self) -> (ok: bool)
        ensures
            ok == self.encodable(),
    {
        match self.1.id {
            EffectId::PatternBreak => 1 <= self.1.param && self.1.param <= PATTERN_LENGTH,
            _ => true,
        }
    }

    #[verifier::when_used_as_spec(spec_first_byte)]
    pub fn first_byte(&self) -> (byte: u8)
        requires
            self.encodable(),
        ensures
            byte == self.spec_first_byte(),
    {
        let param = self.1.param;
        match self.1.id {
            EffectId::PosJump => {
                // The tracker counts orders from 1; the routine counts from 0, steps once more
                // after a jump, and wants a byte offset.
                let target = param.wrapping_sub(1).wrapping_sub(1).wrapping_mul(2);
                assert(target == (((param - 2) * 2) % 256) as u8);
                target
            },
            EffectId::SetVol => {
                let envelope = param >> 4;
                let volume = param & 0x0F;
                if envelope >= 1 && volume == 0 && envelope & 8 == 0 {
                    // This would kill the channel: mute it, but keep the DAC on.
                    0x08
                } else {
                    volume << 4 | envelope
                }
            },
            EffectId::PatternBreak => (param - 1) | (0u8.wrapping_sub(PATTERN_LENGTH)),
            _ => param,
        }
    }

    #[verifier::when_used_as_spec(spec_second_byte)]
    pub fn second_byte(&self) -> (byte: u8)
        ensures
            byte == self.spec_second_byte(),
    {
        let high = match self.0 {
            CellFirstHalf::Pattern { instrument, .. } => instrument,
            CellFirstHalf::Subpattern { next_row_idx, .. } => next_row_idx & 0x0F,
        };
        high << 4 | self.1.id.code()
    }

    #[verifier::when_used_as_spec(spec_third_byte)]
    pub fn third_byte(&self) -> (byte: u8)
        ensures
            byte == self.spec_third_byte(),
    {
        match self.0 {
            CellFirstHalf::Pattern { note, .. } => note.value(),
            CellFirstHalf::Subpattern { offset, next_row_idx } => offset << 1 | (next_row_idx
                & 0x10) >> 4,
        }
    }

    #[verifier::when_used_as_spec(spec_encode)]
    pub fn encode(&self) -> (bytes: (u8, u8, u8))
        requires
            self.encodable(),
        ensures
            bytes == self.spec_encode(),
    {
        (self.first_byte(), self.second_byte(), self.third_byte())
    }

    /// The cell that a row of a pattern of the main grid becomes.
    pub open spec fn of_pattern_cell(value: PatternCell) -> Cell {
        Cell(
            CellFirstHalf::Pattern { note: value.note, instrument: value.instrument },
            Effect { id: value.effect_code, param: value.effect_param },
        )
    }

    /// The cell that a row of a subpattern becomes.
    pub open spec fn of_subpattern_cell(value: SubpatternCell) -> Cell {
        Cell(
            CellFirstHalf::Subpattern { offset: value.offset, next_row_idx: value.next_row_idx },
            Effect { id: value.effect_code, param: value.effect_param },
        )
    }
}

impl From<&PatternCell> for Cell {
    fn from(value: &PatternCell) -> (cell: Cell) {
        Cell(
            CellFirstHalf::Pattern { note: value.note, instrument: value.instrument },
            Effect { id: value.effect_code, param: value.effect_param },
        )
    }
}

impl vstd::std_specs::convert::FromSpecImpl<&PatternCell> for Cell {
    open spec fn obeys_from_spec() -> bool {
        true
    }

    open spec fn from_spec(value: &PatternCell) -> Cell {
        Cell::of_pattern_cell(*value)
    }
}

impl From<&SubpatternCell> for Cell {
    fn from(value: &SubpatternCell) -> (cell: Cell) {
        Cell(
            CellFirstHalf::Subpattern { offset: value.offset, next_row_idx: value.next_row_idx },
            Effect { id: value.effect_code, param: value.effect_param },
        )
    }
}

impl vstd::std_specs::convert::FromSpecImpl<&SubpatternCell> for Cell {
    open spec fn obeys_from_spec() -> bool {
        true
    }

    open spec fn from_spec(value: &SubpatternCell) -> Cell {
        Cell::of_subpattern_cell(*value)
    }
}

/// The encoding sees a cell only through its raw first half and its effect: cells that `==`
/// holds equal have the same three bytes.
pub proof fn lemma_encoding_follows_equality(a: Cell, b: Cell)
    requires
        a.same_as(b),
    ensures
        a.spec_encode() == b.spec_encode(),
{
}

} // verus!
