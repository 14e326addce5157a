use tenor::song::{
    DutyType, EffectId, EnvelopeDirection, InstrumentKind, LfsrWidth, Note, PatternCell,
    SweepDirection, WaveOutputLevel,
};
use tenor::uge::{parse_song, InnerErrorKind, ParseContext, ParseError, ParseErrorKind, RawCell};

const CELL_SIZE: usize = 17;
const INSTRUMENT_SIZE: usize = 4 + 256 + 4 + 1 + 1 + 4 + 1 + 4 + 4 + 4 + 1 + 4 + 4 + 4 + 1 + 64 * CELL_SIZE;
const TEXTS_AT: usize = 4;
const INSTRUMENTS_AT: usize = TEXTS_AT + 3 * 256;
const WAVES_AT: usize = INSTRUMENTS_AT + 45 * INSTRUMENT_SIZE;
const TEMPO_AT: usize = WAVES_AT + 16 * 32;
const PATTERNS_AT: usize = TEMPO_AT + 4 + 1 + 4;

fn integer(bytes: &mut Vec<u8>, value: u32) {
    bytes.extend_from_slice(&value.to_le_bytes());
}

fn short_string(bytes: &mut Vec<u8>, text: &[u8]) {
    bytes.push(text.len() as u8);
    bytes.extend_from_slice(text);
    bytes.resize(bytes.len() + 255 - text.len(), 0);
}

fn cell(bytes: &mut Vec<u8>, note: u32, instrument: u32, jump: u32, effect: u32, param: u8) {
    integer(bytes, note);
    integer(bytes, instrument);
    integer(bytes, jump);
    integer(bytes, effect);
    bytes.push(param);
}

fn instrument(bytes: &mut Vec<u8>, kind: u32, name: &[u8], with_subpattern: bool) {
    integer(bytes, kind);
    short_string(bytes, name);
    integer(bytes, 20); // length
    bytes.push(1); // length enabled
    bytes.push(11); // initial volume
    integer(bytes, 1); // envelope direction
    bytes.push(3); // envelope pace
    integer(bytes, 4); // sweep time
    integer(bytes, 0); // sweep direction
    integer(bytes, 5); // sweep shift
    bytes.push(2); // duty
    integer(bytes, 3); // output level
    integer(bytes, 7); // waveform
    integer(bytes, 1); // LFSR width
    bytes.push(with_subpattern as u8);
    for row in 0..64u32 {
        // Row 2 jumps to row 1, row 5 jumps beyond the end; the others go on.
        let jump = match row {
            2 => 1,
            5 => 40,
            _ => 0,
        };
        cell(bytes, 36 + row, 0, jump, 9, row as u8);
    }
}

fn song_bytes() -> Vec<u8> {
    let mut bytes = Vec::new();
    integer(&mut bytes, 6);
    short_string(&mut bytes, b"A song");
    short_string(&mut bytes, b"Somebody");
    short_string(&mut bytes, b"");
    for kind in 0..3 {
        for index in 0..15 {
            instrument(&mut bytes, kind, format!("i{index}").as_bytes(), index == 1);
        }
    }
    for wave in 0..16u8 {
        for sample in 0..32u8 {
            bytes.push((wave + sample) & 0x0F);
        }
    }
    integer(&mut bytes, 7); // ticks per row
    bytes.push(1); // timer enabled
    integer(&mut bytes, 0x80); // timer divider
    integer(&mut bytes, 2); // patterns
    for id in [2u32, 0] {
        integer(&mut bytes, id);
        for row in 0..64u32 {
            cell(&mut bytes, if row == 0 { 90 } else { row }, id + 1, 0, 0xB, row as u8);
        }
    }
    for channel in 0..4u32 {
        integer(&mut bytes, 3);
        for order in [2u32, 0, 0] {
            integer(&mut bytes, order + channel * 0);
        }
    }
    for index in 0..16u32 {
        let text = format!("routine {index}");
        integer(&mut bytes, text.len() as u32);
        bytes.extend_from_slice(text.as_bytes());
    }
    bytes
}

fn trail_of(bytes: &[u8]) -> Vec<(usize, InnerErrorKind)> {
    match parse_song(bytes) {
        Err(ParseError(ParseErrorKind::BadData { trail })) => trail,
        other => panic!("no broken data: {:?}", other.map(|song| song.name)),
    }
}

#[test]
fn whole_song_is_read() {
    let bytes = song_bytes();
    let song = parse_song(&bytes).unwrap();
    assert_eq!(song.name, "A song");
    assert_eq!(song.artist, "Somebody");
    assert_eq!(song.comment, "");
    assert_eq!(song.ticks_per_row, 7);
    assert_eq!(song.timer_divider, Some(0x80));
    assert_eq!(song.order_matrix, vec![[2, 2, 2, 2], [0, 0, 0, 0]]);
    assert_eq!(song.routines[0], "routine 0");
    assert_eq!(song.routines[15], "routine 15");
    // Two samples to a byte, the first in the high half.
    assert_eq!(song.waves[0][0], 0x01);
    assert_eq!(song.waves[0][15], 0xEF);
    assert_eq!(song.waves[3][7], 0x12);
    // Pattern 1 is not in the file, so it is blank.
    assert_eq!(song.patterns.len(), 3);
    assert_eq!(song.patterns[1], [PatternCell::default(); 64]);
    assert_eq!(
        song.patterns[2][5],
        PatternCell {
            note: Note::F_3,
            instrument: 3,
            effect_code: EffectId::PosJump,
            effect_param: 5
        }
    );
    assert_eq!(song.patterns[0][0].note, Note::NoNote);
    assert_eq!(song.patterns[0][0].instrument, 1);
}

#[test]
fn instruments_are_read_by_their_kind() {
    let song = parse_song(&song_bytes()).unwrap();
    let duty = &song.instruments.duty[4];
    assert_eq!(duty.name, "i4");
    assert_eq!(duty.length, Some(20));
    assert_eq!(
        duty.kind,
        InstrumentKind::Square {
            initial_volume: 11,
            envelope_dir: EnvelopeDirection::Down,
            envelope_pace: 3,
            sweep_time: 4,
            sweep_dir: SweepDirection::Up,
            sweep_shift: 5,
            duty: DutyType::Percent50,
        }
    );
    assert!(duty.subpattern.is_none());
    assert_eq!(
        song.instruments.wave[0].kind,
        InstrumentKind::Wave { output_level: WaveOutputLevel::Quarter, wave_id: 7 }
    );
    assert_eq!(
        song.instruments.noise[14].kind,
        InstrumentKind::Noise {
            initial_volume: 11,
            envelope_dir: EnvelopeDirection::Down,
            envelope_pace: 3,
            lfsr_width: LfsrWidth::Seven,
        }
    );
    assert_eq!(song.instruments.noise[14].kind.data_size(), 4);
    assert_eq!(song.instruments.wave[0].kind.data_size(), 6);
    assert_eq!(duty.kind.data_size(), 6);
}

#[test]
fn rows_of_a_subpattern_always_jump() {
    let song = parse_song(&song_bytes()).unwrap();
    let subpattern = song.instruments.wave[1].subpattern.unwrap();
    assert_eq!(subpattern[0].next_row_idx, 1);
    assert_eq!(subpattern[1].next_row_idx, 2);
    // A jump to row 1, counted from 1, is a jump to row 0.
    assert_eq!(subpattern[2].next_row_idx, 0);
    // A jump beyond the end is one to the last row.
    assert_eq!(subpattern[5].next_row_idx, 31);
    assert_eq!(subpattern[31].next_row_idx, 0);
    assert_eq!(subpattern[4].offset, 40);
    assert_eq!(subpattern[4].effect_code, EffectId::ChangeTimbre);
    assert_eq!(subpattern[4].effect_param, 4);
}

#[test]
fn text_that_is_no_text_gets_a_mark() {
    let mut bytes = song_bytes();
    bytes[TEXTS_AT + 1] = 0xFF;
    let song = parse_song(&bytes).unwrap();
    assert_eq!(song.name, "\u{FFFD} song");
}

#[test]
fn short_file_is_no_song() {
    assert_eq!(parse_song(&[]).unwrap_err(), ParseError(ParseErrorKind::NotUge));
    assert_eq!(parse_song(&[6, 0, 0]).unwrap_err(), ParseError(ParseErrorKind::NotUge));
}

#[test]
fn other_versions_are_refused() {
    for version in 0..=5u32 {
        let mut bytes = song_bytes();
        bytes[0] = version as u8;
        assert_eq!(
            parse_song(&bytes).unwrap_err(),
            ParseError(ParseErrorKind::UnsupportedVersion(version))
        );
    }
    let mut bytes = song_bytes();
    bytes[0] = 7;
    assert_eq!(parse_song(&bytes).unwrap_err(), ParseError(ParseErrorKind::TooNew(7)));
    bytes[3] = 1;
    assert_eq!(parse_song(&bytes).unwrap_err(), ParseError(ParseErrorKind::TooNew(0x0100_0007)));
    assert_eq!(
        parse_song(&[5, 0, 0, 0]).unwrap_err(),
        ParseError(ParseErrorKind::UnsupportedVersion(5))
    );
}

#[test]
fn file_that_goes_on_is_refused() {
    let mut bytes = song_bytes();
    let end = bytes.len();
    bytes.push(0);
    assert_eq!(trail_of(&bytes), vec![(end, InnerErrorKind::Eof)]);
}

#[test]
fn file_that_ends_early_is_refused() {
    let bytes = song_bytes();
    // In the middle of the last routine.
    let last_routine_at = bytes.len() - 4 - "routine 15".len();
    assert_eq!(
        trail_of(&bytes[..bytes.len() - 1]),
        vec![
            (last_routine_at + 4, InnerErrorKind::Eof),
            (last_routine_at, InnerErrorKind::Context(ParseContext::AnsiString)),
            (last_routine_at, InnerErrorKind::Context(ParseContext::Routine)),
            (bytes.len() - routines_len(), InnerErrorKind::Count),
            (bytes.len() - routines_len(), InnerErrorKind::Context(ParseContext::RoutineBank)),
            (TEXTS_AT, InnerErrorKind::Context(ParseContext::SongV6)),
        ]
    );
    // Right after the version.
    assert_eq!(
        trail_of(&bytes[..4]),
        vec![
            (4, InnerErrorKind::Eof),
            (4, InnerErrorKind::Context(ParseContext::ShortString)),
            (4, InnerErrorKind::Context(ParseContext::SongV6)),
        ]
    );
    // In the middle of the first text.
    assert_eq!(
        trail_of(&bytes[..100]),
        vec![
            (5, InnerErrorKind::Eof),
            (4, InnerErrorKind::Context(ParseContext::ShortString)),
            (4, InnerErrorKind::Context(ParseContext::SongV6)),
        ]
    );
    // In the middle of the ticks.
    assert_eq!(
        trail_of(&bytes[..TEMPO_AT + 2]),
        vec![
            (TEMPO_AT, InnerErrorKind::Eof),
            (TEMPO_AT, InnerErrorKind::Context(ParseContext::Integer)),
            (TEXTS_AT, InnerErrorKind::Context(ParseContext::SongV6)),
        ]
    );
}

fn routines_len() -> usize {
    (0..16).map(|index| 4 + format!("routine {index}").len()).sum()
}

#[test]
fn broken_cell_leaves_a_trail_through_the_file() {
    let mut bytes = song_bytes();
    // The instrument of row 3 of the second pattern of the file.
    let pattern_at = PATTERNS_AT + 4 + (4 + 64 * CELL_SIZE) + 4;
    let entry_at = pattern_at - 4;
    let cell_at = pattern_at + 3 * CELL_SIZE;
    bytes[cell_at + 4] = 16;
    assert_eq!(
        trail_of(&bytes),
        vec![
            (cell_at + CELL_SIZE, InnerErrorKind::BadInstrument(16)),
            (cell_at, InnerErrorKind::Context(ParseContext::CellV2)),
            (pattern_at, InnerErrorKind::Count),
            (pattern_at, InnerErrorKind::Context(ParseContext::PatternV2)),
            (entry_at, InnerErrorKind::Context(ParseContext::PatternMapEntryV2)),
            (PATTERNS_AT, InnerErrorKind::Context(ParseContext::PatternMapV2)),
            (TEXTS_AT, InnerErrorKind::Context(ParseContext::SongV6)),
        ]
    );
    // Its note.
    let mut bytes = song_bytes();
    bytes[cell_at] = 72;
    assert_eq!(
        trail_of(&bytes)[..2],
        [(cell_at, InnerErrorKind::BadNote(72)), (pattern_at, InnerErrorKind::Count)]
    );
    bytes[cell_at + 1] = 1;
    assert_eq!(
        trail_of(&bytes)[..2],
        [
            (cell_at, InnerErrorKind::NumOutOfRange),
            (cell_at, InnerErrorKind::Context(ParseContext::CellV2))
        ]
    );
    // Its effect.
    let mut bytes = song_bytes();
    bytes[cell_at + 12] = 16;
    assert_eq!(
        trail_of(&bytes)[..2],
        [
            (cell_at + 12, InnerErrorKind::BadEffectId(16)),
            (cell_at, InnerErrorKind::Context(ParseContext::CellV2))
        ]
    );
}

#[test]
fn broken_instrument_leaves_a_trail() {
    let first_wave_instr = INSTRUMENTS_AT + 15 * INSTRUMENT_SIZE;
    let at = first_wave_instr + 2 * INSTRUMENT_SIZE;
    let check = |offset: usize, value: u8, at_fault: usize, fault: InnerErrorKind| {
        let mut bytes = song_bytes();
        bytes[at + offset] = value;
        let trail = trail_of(&bytes);
        assert_eq!(trail[0], (at_fault, fault));
        let rest: Vec<(usize, InnerErrorKind)> = trail
            .into_iter()
            .filter(|(_, kind)| {
                !matches!(
                    kind,
                    InnerErrorKind::Context(ParseContext::Integer | ParseContext::Boolean)
                )
            })
            .skip(1)
            .collect();
        assert_eq!(
            rest,
            vec![
                (at, InnerErrorKind::Context(ParseContext::InstrumentV3)),
                (first_wave_instr, InnerErrorKind::Count),
                (first_wave_instr, InnerErrorKind::Context(ParseContext::InstrBankV3)),
                (INSTRUMENTS_AT, InnerErrorKind::Context(ParseContext::InstrCollectionV3)),
                (TEXTS_AT, InnerErrorKind::Context(ParseContext::SongV6)),
            ]
        );
    };
    check(0, 3, at, InnerErrorKind::BadInstrType(3));
    check(260 + 1, 1, at + 260, InnerErrorKind::NumOutOfRange);
    check(264, 2, at + 265, InnerErrorKind::BadBool(2));
    check(266, 2, at + 266, InnerErrorKind::BadEnvDir(2));
    check(271 + 2, 1, at + 271, InnerErrorKind::NumOutOfRange);
    check(275, 9, at + 275, InnerErrorKind::BadSweepDir(9));
    check(283, 4, at + 283, InnerErrorKind::BadDutyType(4));
    check(284, 4, at + 284, InnerErrorKind::BadWaveOutLevel(4));
    check(292, 2, at + 292, InnerErrorKind::BadLfsrWidth(2));
    check(296, 0x80, at + 297, InnerErrorKind::BadBool(0x80));
}

#[test]
fn unused_cells_of_a_subpattern_are_read_all_the_same() {
    let at = INSTRUMENTS_AT + 297 + 40 * CELL_SIZE;
    let mut bytes = song_bytes();
    bytes[at + 12] = 0xFF;
    let trail = trail_of(&bytes);
    assert_eq!(trail[0], (at + 12, InnerErrorKind::BadEffectId(0xFF)));
    assert_eq!(trail[1], (at, InnerErrorKind::Context(ParseContext::CellV2)));
    assert_eq!(
        trail[2],
        (INSTRUMENTS_AT + 297, InnerErrorKind::Context(ParseContext::SubpatternV2))
    );
}

#[test]
fn sample_of_more_than_four_bits_is_refused() {
    let mut bytes = song_bytes();
    let wave_at = WAVES_AT + 5 * 32;
    bytes[wave_at + 9] = 0x10;
    assert_eq!(
        trail_of(&bytes),
        vec![
            (wave_at + 9, InnerErrorKind::BadWave(0x10)),
            (wave_at, InnerErrorKind::Context(ParseContext::WaveV2)),
            (WAVES_AT, InnerErrorKind::Count),
            (WAVES_AT, InnerErrorKind::Context(ParseContext::WaveBankV2)),
            (TEXTS_AT, InnerErrorKind::Context(ParseContext::SongV6)),
        ]
    );
}

#[test]
fn tempo_has_to_fit() {
    let mut bytes = song_bytes();
    bytes[TEMPO_AT + 1] = 1;
    assert_eq!(
        trail_of(&bytes),
        vec![
            (TEMPO_AT, InnerErrorKind::NumOutOfRange),
            (TEXTS_AT, InnerErrorKind::Context(ParseContext::SongV6)),
        ]
    );
    let mut bytes = song_bytes();
    bytes[TEMPO_AT + 5 + 2] = 1;
    assert_eq!(
        trail_of(&bytes),
        vec![
            (TEMPO_AT + 5, InnerErrorKind::BadTimerDivider(0x1_0080)),
            (TEXTS_AT, InnerErrorKind::Context(ParseContext::SongV6)),
        ]
    );
    let mut bytes = song_bytes();
    bytes[TEMPO_AT + 4] = 0;
    assert_eq!(parse_song(&bytes).unwrap().timer_divider, None);
}

#[test]
fn columns_of_the_order_matrix_have_to_match() {
    let mut bytes = song_bytes();
    let order_at = PATTERNS_AT + 4 + 2 * (4 + 64 * CELL_SIZE);
    // One entry more in the third column.
    let third_at = order_at + 2 * 16;
    bytes[third_at] = 4;
    bytes.splice(third_at + 16..third_at + 16, [0, 0, 0, 0]);
    assert_eq!(
        trail_of(&bytes),
        vec![
            (order_at + 4 * 16 + 4, InnerErrorKind::OrderNotMatrix(3, 3, 4, 3)),
            (order_at, InnerErrorKind::Context(ParseContext::OrderMatrix)),
            (TEXTS_AT, InnerErrorKind::Context(ParseContext::SongV6)),
        ]
    );
}

#[test]
fn order_matrix_without_rows_is_refused() {
    let mut bytes = song_bytes();
    let order_at = PATTERNS_AT + 4 + 2 * (4 + 64 * CELL_SIZE);
    bytes.splice(order_at..order_at + 4 * 16, [0u8; 16]);
    assert_eq!(
        trail_of(&bytes),
        vec![
            (order_at + 16, InnerErrorKind::OrderNotMatrix(0, 0, 0, 0)),
            (order_at, InnerErrorKind::Context(ParseContext::OrderMatrix)),
            (TEXTS_AT, InnerErrorKind::Context(ParseContext::SongV6)),
        ]
    );
}

#[test]
fn column_that_ends_early_is_miscounted() {
    let bytes = song_bytes();
    let order_at = PATTERNS_AT + 4 + 2 * (4 + 64 * CELL_SIZE);
    assert_eq!(
        trail_of(&bytes[..order_at + 16 + 4 + 6]),
        vec![
            (order_at + 16 + 8, InnerErrorKind::Eof),
            (order_at + 16 + 8, InnerErrorKind::Context(ParseContext::Integer)),
            (order_at + 16 + 4, InnerErrorKind::Count),
            (order_at + 16, InnerErrorKind::Context(ParseContext::OrderColumn)),
            (order_at, InnerErrorKind::Count),
            (order_at, InnerErrorKind::Context(ParseContext::OrderMatrix)),
            (TEXTS_AT, InnerErrorKind::Context(ParseContext::SongV6)),
        ]
    );
}

#[test]
fn raw_cell_names_no_instrument_beyond_the_fifteenth() {
    assert_eq!(
        RawCell::try_new(1, 15, 2, EffectId::Arpeggio, 3),
        Ok(RawCell {
            note: 1,
            instrument: 15,
            jump_index: 2,
            effect_code: EffectId::Arpeggio,
            effect_params: 3
        })
    );
    assert_eq!(
        RawCell::try_new(1, 16, 2, EffectId::Arpeggio, 3),
        Err(InnerErrorKind::BadInstrument(16))
    );
    let raw = RawCell::try_new(90, 1, 33, EffectId::NoteCut, 4).unwrap();
    assert_eq!(raw.pattern_cell().unwrap().note, Note::NoNote);
    assert_eq!(raw.subpattern_cell().next_row_idx, 32);
    assert_eq!(raw.subpattern_cell().offset, 90);
    let raw = RawCell::try_new(89, 1, 3, EffectId::NoteCut, 4).unwrap();
    assert_eq!(raw.pattern_cell(), Err(InnerErrorKind::BadNote(89)));
}
