use tenor::optimise::{
    compacted_mapping_from_mask, remap_instrs, remap_waves, AnnotatedCell, Cell, CellFirstHalf,
    CompactedMapping, Effect, InstrKind, OptimisedPattern, PatternId, PatternStore,
};
use tenor::song::{EffectId, Note};

#[test]
fn nothing_in_use_leaves_everything_in_place() {
    let mapping: CompactedMapping<15> = compacted_mapping_from_mask(0);
    assert_eq!(mapping.0, [0, 1, 2, 3, 4, 5, 6, 7, 8, 9, 10, 11, 12, 13, 14]);
    assert_eq!(mapping.1, 0);
    assert_eq!(mapping.iter(), Vec::<u8>::new());
    assert_eq!(mapping.nb_saved(), 15);
}

#[test]
fn everything_in_use_leaves_everything_in_place() {
    let mapping: CompactedMapping<16> = compacted_mapping_from_mask(0xFFFF);
    assert_eq!(mapping.0, [0, 1, 2, 3, 4, 5, 6, 7, 8, 9, 10, 11, 12, 13, 14, 15]);
    assert_eq!(mapping.1, 16);
    assert_eq!(mapping.nb_saved(), 0);
    let mapping: CompactedMapping<15> = compacted_mapping_from_mask(0x7FFF);
    assert_eq!(mapping.1, 15);
    assert_eq!(mapping.nb_saved(), 0);
}

#[test]
fn highest_id_moves_to_lowest_free_slot() {
    // Ids 1, 4 and 6 are in use.
    let mapping: CompactedMapping<15> = compacted_mapping_from_mask(0b101_0010);
    assert_eq!(mapping.0, [6, 1, 4, 3, 2, 5, 0, 7, 8, 9, 10, 11, 12, 13, 14]);
    assert_eq!(mapping.1, 3);
    assert_eq!(mapping.iter(), vec![6, 1, 4]);
    assert_eq!(mapping.nb_saved(), 12);
    assert_eq!(mapping.get_remapped_id(6), 0);
    assert_eq!(mapping.get_remapped_id(1), 1);
    assert_eq!(mapping.get_remapped_id(4), 2);
}

fn check_compaction<const N: usize>(mask: u16) {
    let mapping: CompactedMapping<N> = compacted_mapping_from_mask(mask);
    let used: Vec<usize> = (0..N).filter(|i| mask & (1 << i) != 0).collect();
    assert_eq!(mapping.1, used.len());
    // The live slots hold the ids in use, each once.
    let mut live: Vec<usize> = mapping.iter().iter().map(|&id| usize::from(id)).collect();
    live.sort();
    assert_eq!(live, used);
    for i in 0..N {
        let to = usize::from(mapping.0[i]);
        assert!(to < N);
        // The table is its own inverse.
        assert_eq!(usize::from(mapping.0[to]), i);
        // What is where it belongs stays.
        if (i < mapping.1) == (mask & (1 << i) != 0) {
            assert_eq!(to, i);
        }
    }
    // The free slots, upwards, get the displaced ids, downwards.
    let holes: Vec<usize> = (0..mapping.1).filter(|i| mask & (1 << i) == 0).collect();
    for pair in holes.windows(2) {
        assert!(mapping.0[pair[0]] > mapping.0[pair[1]]);
    }
}

#[test]
fn every_mask_of_fifteen_ids_compacts() {
    for mask in 0..=0x7FFFu16 {
        check_compaction::<15>(mask);
    }
}

#[test]
fn every_mask_of_sixteen_ids_compacts() {
    for mask in 0..=0xFFFFu16 {
        check_compaction::<16>(mask);
    }
}

fn row(reachable: bool, instrument: u8, id: EffectId, param: u8) -> AnnotatedCell {
    AnnotatedCell {
        reachable,
        cell: Cell(CellFirstHalf::Pattern { note: Note::C_4, instrument }, Effect { id, param }),
    }
}

fn instrument_of(row: &AnnotatedCell) -> u8 {
    match row.cell.0 {
        CellFirstHalf::Pattern { instrument, .. } => instrument,
        CellFirstHalf::Subpattern { .. } => unreachable!(),
    }
}

#[test]
fn instruments_of_reached_rows_get_their_new_numbers() {
    let mapping: CompactedMapping<15> = compacted_mapping_from_mask(0b101_0010);
    let mut pattern = OptimisedPattern(vec![
        row(true, 7, EffectId::Arpeggio, 0),
        row(true, 0, EffectId::Arpeggio, 0),
        row(false, 7, EffectId::Arpeggio, 0),
        row(true, 2, EffectId::Arpeggio, 0),
        row(true, 5, EffectId::Arpeggio, 0),
    ]);
    remap_instrs(&mut pattern, &mapping.0);
    let instruments: Vec<u8> = pattern.0.iter().map(instrument_of).collect();
    // Instrument 7 is id 6, which goes to slot 0: instrument 1. No instrument stays none, and
    // a row that playback never reaches stays as it is.
    assert_eq!(instruments, vec![1, 0, 7, 2, 3]);
    assert!(pattern.0.iter().all(|row| matches!(
        row.cell.0,
        CellFirstHalf::Pattern { note: Note::C_4, .. }
    )));
}

#[test]
fn waves_of_reached_rows_of_the_wave_family_get_their_new_numbers() {
    let mapping: CompactedMapping<16> = compacted_mapping_from_mask(1 << 5 | 1 << 9);
    assert_eq!(mapping.iter(), vec![9, 5]);
    let rows = || {
        OptimisedPattern(vec![
            row(true, 0, EffectId::ChangeTimbre, 5),
            row(true, 0, EffectId::ChangeTimbre, 9),
            row(false, 0, EffectId::ChangeTimbre, 5),
            row(true, 0, EffectId::SetVol, 5),
        ])
    };
    let mut patterns = PatternStore::new();
    patterns.insert(PatternId::Pattern(InstrKind::Duty, 0), rows());
    patterns.insert(PatternId::Pattern(InstrKind::Wave, 0), rows());
    patterns.insert(PatternId::Subpattern(InstrKind::Wave, 3), rows());
    patterns.insert(PatternId::Subpattern(InstrKind::Noise, 3), rows());
    remap_waves(&mut patterns, &mapping.0);
    for entry in &patterns.entries {
        let params: Vec<u8> = entry.pattern.0.iter().map(|row| row.cell.1.param).collect();
        match entry.id {
            PatternId::Pattern(InstrKind::Wave, _) | PatternId::Subpattern(InstrKind::Wave, _) => {
                assert_eq!(params, vec![1, 0, 5, 5])
            }
            _ => assert_eq!(params, vec![5, 9, 5, 5]),
        }
    }
}
