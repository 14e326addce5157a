use tenor::optimise::{
    check_song, collect_patterns, mark_reachable_pattern_rows, mark_reachable_subpattern_rows,
    optimise, trim_trailing_unreachable_rows, AnnotatedCell, Cell, CellFirstHalf, Effect,
    InstrKind, OptimisedPattern, OutputCell, PatternId, SongFault,
};
use tenor::song::{
    EffectId, InstrCollection, Instrument, Note, PatternCell, Song, SubpatternCell,
};

fn empty_pattern() -> [PatternCell; 64] {
    [PatternCell::default(); 64]
}

fn empty_bank() -> [Instrument; 15] {
    std::array::from_fn(|_| Instrument::default())
}

fn song_with(patterns: Vec<[PatternCell; 64]>, order_matrix: Vec<[usize; 4]>) -> Song {
    Song {
        name: String::from("song"),
        artist: String::from("artist"),
        comment: String::new(),
        instruments: InstrCollection { duty: empty_bank(), wave: empty_bank(), noise: empty_bank() },
        waves: [[0; 16]; 16],
        ticks_per_row: 6,
        timer_divider: None,
        patterns,
        order_matrix,
        routines: std::array::from_fn(|_| String::new()),
    }
}

fn effect(code: EffectId, param: u8) -> PatternCell {
    PatternCell { note: Note::NoNote, instrument: 0, effect_code: code, effect_param: param }
}

#[test]
fn single_pattern_song_keeps_one_row_per_family() {
    let mut pattern = empty_pattern();
    pattern[0] = effect(EffectId::PosJump, 1);
    let song = song_with(vec![pattern], vec![[0, 0, 0, 0]]);
    assert_eq!(check_song(&song), Ok(()));
    let (results, stats) = optimise(&song);
    assert_eq!(stats.pruned_patterns, 0);
    assert_eq!(stats.pruned_pattern_rows, 0);
    assert_eq!(stats.trimmed_rows, 63 * 3);
    assert_eq!(stats.duplicated_patterns, 2);
    assert_eq!(stats.overlapped_rows, 2);
    assert_eq!(results.main_cell_catalog.len(), 1);
    assert_eq!(results.subpat_cell_catalog.len(), 0);
    assert!(results.subpat_row_pool.is_empty());
    let labels: Vec<PatternId> = results
        .main_row_pool
        .iter()
        .filter_map(|entry| match entry {
            OutputCell::Label(id) => Some(*id),
            _ => None,
        })
        .collect();
    assert_eq!(labels.len(), 3);
    for kind in [InstrKind::Duty, InstrKind::Wave, InstrKind::Noise] {
        assert!(labels.contains(&PatternId::Pattern(kind, 0)));
    }
    let cells: Vec<u8> = results
        .main_row_pool
        .iter()
        .filter_map(|entry| match entry {
            OutputCell::Cell(id) => Some(*id),
            _ => None,
        })
        .collect();
    assert_eq!(cells, vec![0]);
    // All three labels stand before the one row.
    assert_eq!(results.main_row_pool.last(), Some(&OutputCell::Cell(0)));
}

#[test]
fn pattern_break_sends_playback_back_to_the_start() {
    let mut second = empty_pattern();
    second[0] = effect(EffectId::PatternBreak, 1);
    let song = song_with(vec![empty_pattern(), second], vec![[0, 0, 0, 0], [1, 1, 1, 1]]);
    let mut patterns = collect_patterns(&song);
    let _ = mark_reachable_pattern_rows(&song, &mut patterns);
    for entry in &patterns.entries {
        let reached: Vec<bool> = entry.pattern.0.iter().map(|row| row.reachable).collect();
        match entry.id {
            PatternId::Pattern(_, 0) => assert!(reached.iter().all(|&r| r)),
            _ => {
                assert!(reached[0]);
                assert!(reached[1..].iter().all(|&r| !r));
            }
        }
    }
    let (mut pruned, mut pruned_rows, mut trimmed) = (0, 0, 0);
    trim_trailing_unreachable_rows(&mut patterns, &mut pruned, &mut pruned_rows, &mut trimmed);
    assert_eq!((pruned, pruned_rows, trimmed), (0, 0, 63 * 3));
    for entry in &patterns.entries {
        match entry.id {
            PatternId::Pattern(_, 0) => assert_eq!(entry.pattern.0.len(), 64),
            _ => assert_eq!(entry.pattern.0.len(), 1),
        }
    }
}

#[test]
fn pos_jump_cuts_the_pattern_short() {
    let mut pattern = empty_pattern();
    pattern[0] = PatternCell {
        note: Note::C_5,
        instrument: 3,
        effect_code: EffectId::PosJump,
        effect_param: 1,
    };
    pattern[1].instrument = 7;
    let song = song_with(vec![pattern], vec![[0, 0, 0, 0]]);
    let mut patterns = collect_patterns(&song);
    let (duty, wave, noise, waves) = mark_reachable_pattern_rows(&song, &mut patterns);
    // Bit 2 stands for instrument 3.
    assert_eq!((duty, wave, noise, waves), (0b100, 0b100, 0b100, 0));
    let (mut pruned, mut pruned_rows, mut trimmed) = (0, 0, 0);
    trim_trailing_unreachable_rows(&mut patterns, &mut pruned, &mut pruned_rows, &mut trimmed);
    assert_eq!(trimmed, 63 * 3);
    assert!(patterns.entries.iter().all(|entry| entry.pattern.0.len() == 1));
}

#[test]
fn wave_effect_marks_the_wave_and_is_renumbered() {
    let mut pattern = empty_pattern();
    pattern[0] = effect(EffectId::ChangeTimbre, 5);
    pattern[1] = effect(EffectId::PosJump, 1);
    let song = song_with(vec![pattern], vec![[0, 0, 0, 0]]);
    let mut patterns = collect_patterns(&song);
    let (_, _, _, waves) = mark_reachable_pattern_rows(&song, &mut patterns);
    assert_eq!(waves, 1 << 5);
    let (results, stats) = optimise(&song);
    // Wave 5 is the only one in use, so it becomes wave 0.
    assert_eq!(results.wave_usage.iter(), vec![5]);
    assert_eq!(results.wave_usage.get_remapped_id(5), 0);
    assert_eq!(stats.trimmed_waves, 15);
    // The wave family's copy has the new number, the other families keep the old one.
    let firsts: Vec<u8> =
        results.main_cell_catalog.cells.iter().map(|cell| cell.first_byte()).collect();
    assert!(firsts.contains(&0));
    assert!(firsts.contains(&5));
}

#[test]
fn song_without_orders_is_refused() {
    let song = song_with(vec![empty_pattern()], vec![]);
    assert_eq!(check_song(&song), Err(SongFault::BadOrderMatrix));
    let song = song_with(vec![empty_pattern()], vec![[0, 0, 1, 0]]);
    assert_eq!(check_song(&song), Err(SongFault::BadOrderMatrix));
}

#[test]
fn faults_are_found_where_playback_meets_them() {
    let mut pattern = empty_pattern();
    pattern[2] = effect(EffectId::PosJump, 0);
    let song = song_with(vec![pattern], vec![[0, 0, 0, 0]]);
    assert_eq!(check_song(&song), Err(SongFault::JumpToOrderZero { pattern: 0, row: 2 }));

    let mut pattern = empty_pattern();
    pattern[2] = effect(EffectId::PatternBreak, 65);
    let song = song_with(vec![pattern], vec![[0, 0, 0, 0]]);
    assert_eq!(
        check_song(&song),
        Err(SongFault::BreakOutOfBounds { pattern: 0, row: 2, param: 65 })
    );

    let mut pattern = empty_pattern();
    pattern[3] = effect(EffectId::PosJump, 2);
    let song = song_with(vec![pattern], vec![[0, 0, 0, 0]]);
    assert_eq!(
        check_song(&song),
        Err(SongFault::JumpOutOfBounds { order: 0, row: 3, target: 1 })
    );

    // Only the wave channel's timbre names a wave.
    let mut wave_pattern = empty_pattern();
    wave_pattern[1] = effect(EffectId::ChangeTimbre, 16);
    let song = song_with(vec![empty_pattern(), wave_pattern], vec![[1, 1, 0, 1]]);
    assert_eq!(check_song(&song), Ok(()));
    let song = song_with(vec![empty_pattern(), wave_pattern], vec![[0, 0, 1, 0]]);
    assert_eq!(
        check_song(&song),
        Err(SongFault::WaveOutOfBounds { pattern: 1, row: 1, param: 16 })
    );

    let mut pattern = empty_pattern();
    pattern[0].instrument = 16;
    let song = song_with(vec![pattern], vec![[0, 0, 0, 0]]);
    assert_eq!(
        check_song(&song),
        Err(SongFault::InstrumentOutOfBounds { pattern: 0, row: 0, instrument: 16 })
    );
}

#[test]
fn fault_behind_a_jump_is_never_met() {
    let mut pattern = empty_pattern();
    pattern[0] = effect(EffectId::PosJump, 1);
    pattern[1] = effect(EffectId::PatternBreak, 0);
    let song = song_with(vec![pattern], vec![[0, 0, 0, 0]]);
    assert_eq!(check_song(&song), Ok(()));
}

#[test]
fn subpattern_of_used_instrument_is_played() {
    let mut pattern = empty_pattern();
    pattern[0] = PatternCell {
        note: Note::C_4,
        instrument: 2,
        effect_code: EffectId::PosJump,
        effect_param: 1,
    };
    let mut song = song_with(vec![pattern], vec![[0, 0, 0, 0]]);
    let mut subpattern = [SubpatternCell::default(); 32];
    // Rows 0, 1, 2, and back to row 1.
    subpattern[0].next_row_idx = 1;
    subpattern[1].next_row_idx = 2;
    subpattern[2].next_row_idx = 1;
    subpattern[1].effect_code = EffectId::ChangeTimbre;
    subpattern[1].effect_param = 9;
    song.instruments.wave[1].subpattern = Some(subpattern);
    song.instruments.wave[1].kind =
        tenor::song::InstrumentKind::Wave { output_level: tenor::song::WaveOutputLevel::Full, wave_id: 3 };
    song.instruments.wave[4].subpattern = Some(subpattern);
    let (results, stats) = optimise(&song);
    let labels: Vec<PatternId> = results
        .subpat_row_pool
        .iter()
        .filter_map(|entry| match entry {
            OutputCell::Label(id) => Some(*id),
            _ => None,
        })
        .collect();
    // Instrument 5 is not in use, so its subpattern is left out.
    assert_eq!(labels, vec![PatternId::Subpattern(InstrKind::Wave, 2)]);
    let cells = results.subpat_row_pool.iter().filter(|e| matches!(e, OutputCell::Cell(_))).count();
    assert_eq!(cells, 3);
    // The timbre's wave 9 and the instrument's wave 3 are in use: 3 stays below 9's new place.
    assert_eq!(results.wave_usage.iter(), vec![9, 3]);
    assert_eq!(stats.trimmed_waves, 14);
    assert_eq!(results.wave_instr_usage.iter(), vec![1]);
    assert_eq!(results.duty_instr_usage.iter(), vec![1]);
    // The catalogs of a song that the passes take can be laid out.
    assert!(tenor::export::catalog_columns(&results.main_cell_catalog).is_some());
    assert!(tenor::export::catalog_columns(&results.subpat_cell_catalog).is_some());
    // Of the 42 instruments left out, each of 6 bytes, one has a subpattern of 32 rows.
    assert_eq!(stats.pruned_instrs, 42);
    assert_eq!(stats.pruned_instrs_bytes, 42 * 6 + 32 * 3);
}

#[test]
fn song_that_is_reached_everywhere_keeps_every_row() {
    let mut first = empty_pattern();
    let mut second = empty_pattern();
    for row in 0..64 {
        first[row].effect_param = row as u8;
        second[row].effect_param = 100 + row as u8;
    }
    let song = song_with(vec![first, second], vec![[0, 0, 0, 0], [1, 1, 1, 1]]);
    let (results, stats) = optimise(&song);
    assert_eq!(stats.pruned_patterns, 0);
    assert_eq!(stats.pruned_pattern_rows, 0);
    assert_eq!(stats.trimmed_rows, 0);
    assert_eq!(stats.saved_bytes_pruned_patterns(), 0);
    assert_eq!(stats.saved_bytes_trimmed_rows(), 0);
    assert_eq!(stats.duplicated_patterns, 4);
    // Each pattern has a copy for each of the three families, and the copies are the same.
    let rows = results.main_row_pool.iter().filter(|e| matches!(e, OutputCell::Cell(_))).count();
    assert_eq!(rows + stats.overlapped_rows, 6 * 64);
    assert_eq!(stats.overlapped_rows, 4 * 64);
    assert_eq!(results.main_cell_catalog.len(), 128);
    assert_eq!(stats.saved_bytes_catalog, 128 * 2 - 128 * 3 - 128 * 2 - 512);
    // No instrument and no wave is in use.
    assert_eq!(stats.pruned_instrs, 45);
    assert_eq!(stats.pruned_instrs_bytes, 45 * 6);
    assert_eq!(stats.trimmed_waves, 16);
}

#[test]
fn pattern_that_playback_never_reaches_is_dropped() {
    let mut first = empty_pattern();
    first[63] = effect(EffectId::PosJump, 1);
    let song = song_with(vec![first, empty_pattern()], vec![[0, 0, 0, 0], [1, 1, 0, 1]]);
    let (results, stats) = optimise(&song);
    assert_eq!(stats.pruned_patterns, 2);
    assert_eq!(stats.pruned_pattern_rows, 128);
    assert_eq!(stats.trimmed_rows, 0);
    let labels = results
        .main_row_pool
        .iter()
        .filter(|entry| matches!(entry, OutputCell::Label(_)))
        .count();
    assert_eq!(labels, 3);
}

#[test]
fn more_orders_than_can_be_counted_are_refused() {
    let song = song_with(vec![empty_pattern()], vec![[0, 0, 0, 0]; 1_000_001]);
    assert_eq!(check_song(&song), Err(SongFault::TooManyOrders));
}

#[test]
fn faults_of_instruments_in_use_are_found() {
    let mut pattern = empty_pattern();
    pattern[0] = PatternCell {
        note: Note::C_4,
        instrument: 2,
        effect_code: EffectId::PosJump,
        effect_param: 1,
    };
    let song = song_with(vec![pattern], vec![[0, 0, 0, 0]]);
    // The wave bank holds wave instruments by default, and they play wave 0.
    assert_eq!(check_song(&song), Ok(()));

    let mut broken = song.clone();
    broken.instruments.wave[1].kind = tenor::song::InstrumentKind::Noise {
        initial_volume: 0,
        envelope_dir: tenor::song::EnvelopeDirection::Down,
        envelope_pace: 0,
        lfsr_width: tenor::song::LfsrWidth::Seven,
    };
    assert_eq!(check_song(&broken), Err(SongFault::NotAWaveInstrument { slot: 2 }));
    // An instrument that is not in use may be anything.
    let mut unused = song.clone();
    unused.instruments.wave[5].kind = broken.instruments.wave[1].kind;
    assert_eq!(check_song(&unused), Ok(()));

    let mut broken = song.clone();
    broken.instruments.wave[1].kind = tenor::song::InstrumentKind::Wave {
        output_level: tenor::song::WaveOutputLevel::Full,
        wave_id: 16,
    };
    assert_eq!(
        check_song(&broken),
        Err(SongFault::InstrumentWaveOutOfBounds { slot: 2, wave_id: 16 })
    );

    let mut subpattern = [SubpatternCell::default(); 32];
    subpattern[0].next_row_idx = 4;
    subpattern[4].next_row_idx = 32;
    let mut broken = song.clone();
    broken.instruments.noise[1].subpattern = Some(subpattern);
    assert_eq!(
        check_song(&broken),
        Err(SongFault::SubpatternJumpOutOfBounds { row: 4, next_row_idx: 32 })
    );

    let mut subpattern = [SubpatternCell::default(); 32];
    subpattern[1].effect_code = EffectId::PatternBreak;
    subpattern[1].effect_param = 0;
    let mut broken = song.clone();
    broken.instruments.duty[1].subpattern = Some(subpattern);
    // Row 0 plays over and over, so the break in row 1 is never met.
    assert_eq!(check_song(&broken), Ok(()));
    subpattern[0].next_row_idx = 1;
    broken.instruments.duty[1].subpattern = Some(subpattern);
    assert_eq!(
        check_song(&broken),
        Err(SongFault::BreakOutOfBounds { pattern: 2, row: 1, param: 0 })
    );

    let mut subpattern = [SubpatternCell::default(); 32];
    subpattern[0].effect_code = EffectId::ChangeTimbre;
    subpattern[0].effect_param = 200;
    let mut broken = song.clone();
    // Only the subpattern of a wave instrument names a wave.
    broken.instruments.duty[1].subpattern = Some(subpattern);
    assert_eq!(check_song(&broken), Ok(()));
    broken.instruments.wave[1].subpattern = Some(subpattern);
    assert_eq!(
        check_song(&broken),
        Err(SongFault::WaveOutOfBounds { pattern: 2, row: 0, param: 200 })
    );
}

#[test]
fn subpattern_is_marked_where_it_plays() {
    let row = |next_row_idx, id, param| AnnotatedCell {
        reachable: false,
        cell: Cell(CellFirstHalf::Subpattern { offset: 0, next_row_idx }, Effect { id, param }),
    };
    let rows = || {
        OptimisedPattern(vec![
            row(2, EffectId::ChangeTimbre, 1),
            row(0, EffectId::ChangeTimbre, 2),
            row(3, EffectId::Arpeggio, 3),
            row(2, EffectId::ChangeTimbre, 4),
        ])
    };
    let mut subpattern = rows();
    let mut used_waves = 1 << 9;
    mark_reachable_subpattern_rows(
        PatternId::Subpattern(InstrKind::Wave, 1),
        &mut subpattern,
        &mut used_waves,
    );
    let reached: Vec<bool> = subpattern.0.iter().map(|row| row.reachable).collect();
    assert_eq!(reached, vec![true, false, true, true]);
    assert_eq!(used_waves, 1 << 9 | 1 << 1 | 1 << 4);
    // The subpattern of another family changes no wave.
    let mut subpattern = rows();
    let mut used_waves = 0;
    mark_reachable_subpattern_rows(
        PatternId::Subpattern(InstrKind::Duty, 1),
        &mut subpattern,
        &mut used_waves,
    );
    assert_eq!(used_waves, 0);
    assert!(subpattern.0[3].reachable);
}

#[test]
fn last_jump_of_a_row_wins() {
    // The first channel breaks to row 3, the second jumps to order 2: playback goes to row 2
    // of order row 1.
    let mut breaking = empty_pattern();
    breaking[0] = effect(EffectId::PatternBreak, 3);
    let mut jumping = empty_pattern();
    jumping[0] = effect(EffectId::PosJump, 2);
    let mut landing = empty_pattern();
    landing[2] = effect(EffectId::PosJump, 1);
    let song = song_with(
        vec![breaking, jumping, landing, empty_pattern()],
        vec![[0, 1, 3, 3], [2, 2, 2, 2]],
    );
    let mut patterns = collect_patterns(&song);
    let _ = mark_reachable_pattern_rows(&song, &mut patterns);
    let reached_rows = |id: PatternId| -> Vec<usize> {
        patterns
            .get(id)
            .unwrap()
            .0
            .iter()
            .enumerate()
            .filter(|(_, row)| row.reachable)
            .map(|(r, _)| r)
            .collect()
    };
    assert_eq!(reached_rows(PatternId::Pattern(InstrKind::Duty, 0)), vec![0]);
    assert_eq!(reached_rows(PatternId::Pattern(InstrKind::Duty, 1)), vec![0]);
    assert_eq!(reached_rows(PatternId::Pattern(InstrKind::Duty, 2)), vec![2]);
    assert_eq!(reached_rows(PatternId::Pattern(InstrKind::Wave, 2)), vec![2]);
    // A break alone goes to the next order row.
    let song = song_with(vec![breaking, landing], vec![[0, 0, 0, 0], [1, 1, 1, 1]]);
    let mut patterns = collect_patterns(&song);
    let _ = mark_reachable_pattern_rows(&song, &mut patterns);
    let landing_rows: Vec<usize> = patterns
        .get(PatternId::Pattern(InstrKind::Noise, 1))
        .unwrap()
        .0
        .iter()
        .enumerate()
        .filter(|(_, row)| row.reachable)
        .map(|(r, _)| r)
        .collect();
    assert_eq!(landing_rows, vec![2]);
}
