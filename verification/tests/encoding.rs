use tenor::optimise::{Cell, CellFirstHalf, Effect};
use tenor::song::{EffectId, Note, PatternCell, SubpatternCell};

fn main_cell(id: EffectId, param: u8) -> Cell {
    Cell(CellFirstHalf::Pattern { note: Note::C_3, instrument: 0 }, Effect { id, param })
}

#[test]
fn pos_jump_to_second_order_is_offset_zero() {
    assert_eq!(main_cell(EffectId::PosJump, 2).first_byte(), 0);
}

#[test]
fn pos_jump_to_first_order_wraps() {
    assert_eq!(main_cell(EffectId::PosJump, 1).first_byte(), 254);
}

#[test]
fn pos_jump_counts_in_byte_offsets() {
    assert_eq!(main_cell(EffectId::PosJump, 3).first_byte(), 2);
    assert_eq!(main_cell(EffectId::PosJump, 130).first_byte(), 0);
    assert_eq!(main_cell(EffectId::PosJump, 0).first_byte(), 252);
}

#[test]
fn pattern_break_to_first_row() {
    assert_eq!(main_cell(EffectId::PatternBreak, 1).first_byte(), 0xC0);
}

#[test]
fn pattern_break_to_last_row() {
    assert_eq!(main_cell(EffectId::PatternBreak, 64).first_byte(), 0xFF);
    assert!(main_cell(EffectId::PatternBreak, 64).is_encodable());
    assert!(!main_cell(EffectId::PatternBreak, 65).is_encodable());
    assert!(!main_cell(EffectId::PatternBreak, 0).is_encodable());
    assert!(main_cell(EffectId::PosJump, 0).is_encodable());
}

#[test]
fn set_vol_that_would_kill_the_channel_only_mutes() {
    assert_eq!(main_cell(EffectId::SetVol, 0x30).first_byte(), 0x08);
}

#[test]
fn set_vol_swaps_the_nibbles() {
    assert_eq!(main_cell(EffectId::SetVol, 0x24).first_byte(), 0x42);
    // No envelope at all: nothing to save the channel from.
    assert_eq!(main_cell(EffectId::SetVol, 0x00).first_byte(), 0x00);
    // An envelope that goes up keeps the channel alive by itself.
    assert_eq!(main_cell(EffectId::SetVol, 0x90).first_byte(), 0x09);
    assert_eq!(main_cell(EffectId::SetVol, 0x0F).first_byte(), 0xF0);
}

#[test]
fn other_effects_keep_their_parameter() {
    for id in [
        EffectId::Arpeggio,
        EffectId::PortaUp,
        EffectId::PortaDown,
        EffectId::TonePorta,
        EffectId::Vibrato,
        EffectId::SetMasterVol,
        EffectId::CallRoutine,
        EffectId::NoteDelay,
        EffectId::SetPanning,
        EffectId::ChangeTimbre,
        EffectId::VolSlide,
        EffectId::NoteCut,
        EffectId::SetTempo,
    ] {
        assert_eq!(main_cell(id, 0xA7).first_byte(), 0xA7);
    }
}

#[test]
fn second_byte_holds_instrument_and_effect() {
    let cell = Cell(
        CellFirstHalf::Pattern { note: Note::C_3, instrument: 0xA },
        Effect { id: EffectId::SetVol, param: 0 },
    );
    assert_eq!(cell.second_byte(), 0xAC);
    let cell = Cell(
        CellFirstHalf::Subpattern { offset: 3, next_row_idx: 0x1B },
        Effect { id: EffectId::SetTempo, param: 0 },
    );
    assert_eq!(cell.second_byte(), 0xBF);
}

#[test]
fn third_byte_holds_note_or_offset_with_jump_bit() {
    let cell = Cell(
        CellFirstHalf::Pattern { note: Note::B_8, instrument: 1 },
        Effect { id: EffectId::Arpeggio, param: 0 },
    );
    assert_eq!(cell.third_byte(), 71);
    let cell = Cell(
        CellFirstHalf::Pattern { note: Note::NoNote, instrument: 1 },
        Effect { id: EffectId::Arpeggio, param: 0 },
    );
    assert_eq!(cell.third_byte(), 90);
    let cell = Cell(
        CellFirstHalf::Subpattern { offset: 36, next_row_idx: 0x1B },
        Effect { id: EffectId::Arpeggio, param: 0 },
    );
    assert_eq!(cell.third_byte(), 73);
    let cell = Cell(
        CellFirstHalf::Subpattern { offset: 36, next_row_idx: 0x0B },
        Effect { id: EffectId::Arpeggio, param: 0 },
    );
    assert_eq!(cell.third_byte(), 72);
}

#[test]
fn encode_gives_the_three_bytes() {
    let cell = Cell(
        CellFirstHalf::Pattern { note: Note::D_4, instrument: 2 },
        Effect { id: EffectId::PatternBreak, param: 3 },
    );
    assert_eq!(cell.encode(), (0xC2, 0x2D, 14));
    assert_eq!(cell.encode(), (cell.first_byte(), cell.second_byte(), cell.third_byte()));
}

#[test]
fn cells_are_equal_by_their_raw_bytes() {
    let effect = Effect { id: EffectId::Arpeggio, param: 0 };
    let pattern = Cell(CellFirstHalf::Pattern { note: Note::D_3, instrument: 1 }, effect);
    let subpattern = Cell(CellFirstHalf::Subpattern { offset: 1, next_row_idx: 1 }, effect);
    assert_eq!(pattern.0.as_raw(), (2, 1));
    assert_eq!(subpattern.0.as_raw(), (2, 1));
    assert!(pattern == subpattern);
    assert_eq!(pattern.encode(), subpattern.encode());
    // The offset's top bit falls off.
    let wrapped = Cell(CellFirstHalf::Subpattern { offset: 0x81, next_row_idx: 1 }, effect);
    assert!(wrapped == subpattern);
    let other = Cell(CellFirstHalf::Subpattern { offset: 1, next_row_idx: 2 }, effect);
    assert!(other != subpattern);
    let other = Cell(
        CellFirstHalf::Subpattern { offset: 1, next_row_idx: 1 },
        Effect { id: EffectId::Arpeggio, param: 1 },
    );
    assert!(other != subpattern);
}

#[test]
fn cells_come_from_the_cells_of_the_song() {
    let cell = Cell::from(&PatternCell {
        note: Note::E_5,
        instrument: 9,
        effect_code: EffectId::Vibrato,
        effect_param: 0x12,
    });
    assert!(matches!(cell.0, CellFirstHalf::Pattern { note: Note::E_5, instrument: 9 }));
    assert_eq!(cell.1, Effect { id: EffectId::Vibrato, param: 0x12 });
    let cell = Cell::from(&SubpatternCell {
        offset: 40,
        next_row_idx: 7,
        effect_code: EffectId::NoteCut,
        effect_param: 3,
    });
    assert!(matches!(cell.0, CellFirstHalf::Subpattern { offset: 40, next_row_idx: 7 }));
    assert_eq!(cell.1, Effect { id: EffectId::NoteCut, param: 3 });
}

#[test]
fn notes_and_effects_have_their_numbers() {
    assert_eq!(Note::C_3.value(), 0);
    assert_eq!(Note::B_8.value(), 71);
    assert_eq!(Note::NoNote.value(), 90);
    for value in 0..=255u32 {
        match Note::from_value(value) {
            Some(note) => assert_eq!(u32::from(note.value()), value),
            None => assert!(value > 71 && value != 90),
        }
    }
    assert_eq!(EffectId::PosJump.code(), 0xB);
    for code in 0..32u32 {
        match EffectId::from_code(code) {
            Some(effect) => assert_eq!(u32::from(effect.code()), code),
            None => assert!(code >= 16),
        }
    }
}
