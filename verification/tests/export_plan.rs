use tenor::export::{
    catalog_columns, check_catalogs, check_playback_method, decode_len, order_labels,
    subpattern_label, CatalogKind, CatalogOverflow, PlaybackMismatch, PlaybackRequirement,
    CATALOG_CAPACITY,
};
use tenor::optimise::{
    optimise, Cell, CellCatalog, CellFirstHalf, Effect, InstrKind, OptimStats, PatternId,
};
use tenor::song::{
    EffectId, InstrCollection, Instrument, Note, PatternCell, Song, SubpatternCell,
};

fn song_with(patterns: Vec<[PatternCell; 64]>, order_matrix: Vec<[usize; 4]>) -> Song {
    Song {
        name: String::new(),
        artist: String::new(),
        comment: String::new(),
        instruments: InstrCollection {
            duty: std::array::from_fn(|_| Instrument::default()),
            wave: std::array::from_fn(|_| Instrument::default()),
            noise: std::array::from_fn(|_| Instrument::default()),
        },
        waves: [[0; 16]; 16],
        ticks_per_row: 6,
        timer_divider: None,
        patterns,
        order_matrix,
        routines: std::array::from_fn(|_| String::new()),
    }
}

#[test]
fn any_playback_suits_where_none_is_asked_for() {
    assert_eq!(check_playback_method(None, PlaybackRequirement::Any), Ok(()));
    assert_eq!(check_playback_method(Some(3), PlaybackRequirement::Any), Ok(()));
}

#[test]
fn vblank_playback_wants_no_timer() {
    assert_eq!(check_playback_method(None, PlaybackRequirement::VBlank), Ok(()));
    assert_eq!(
        check_playback_method(Some(0), PlaybackRequirement::VBlank),
        Err(PlaybackMismatch::ExpectedVBlank)
    );
}

#[test]
fn timer_playback_wants_its_divider() {
    assert_eq!(check_playback_method(Some(0x80), PlaybackRequirement::Timer(0x80)), Ok(()));
    assert_eq!(
        check_playback_method(None, PlaybackRequirement::Timer(0x80)),
        Err(PlaybackMismatch::ExpectedTimer { divider: 0x80 })
    );
    assert_eq!(
        check_playback_method(Some(0x81), PlaybackRequirement::Timer(0x80)),
        Err(PlaybackMismatch::WrongDivider { expected: 0x80, found: 0x81 })
    );
}

fn catalog_of(nb_cells: usize) -> CellCatalog {
    let mut catalog = CellCatalog::new();
    for i in 0..nb_cells {
        catalog.cells.push(Cell(
            CellFirstHalf::Pattern { note: Note::C_3, instrument: (i / 256) as u8 },
            Effect { id: EffectId::Arpeggio, param: i as u8 },
        ));
    }
    catalog
}

#[test]
fn catalogs_have_a_place_for_256_cells_each() {
    assert_eq!(CATALOG_CAPACITY, 256);
    let mut pattern = [PatternCell::default(); 64];
    pattern[0].effect_code = EffectId::PosJump;
    pattern[0].effect_param = 1;
    let (mut results, _) = optimise(&song_with(vec![pattern], vec![[0, 0, 0, 0]]));
    assert_eq!(check_catalogs(&results), Ok(()));
    results.main_cell_catalog = catalog_of(256);
    results.subpat_cell_catalog = catalog_of(256);
    assert_eq!(check_catalogs(&results), Ok(()));
    results.subpat_cell_catalog = catalog_of(257);
    assert_eq!(
        check_catalogs(&results),
        Err(CatalogOverflow { catalog: CatalogKind::Subpattern, nb_unique_cells: 257 })
    );
    results.main_cell_catalog = catalog_of(300);
    assert_eq!(
        check_catalogs(&results),
        Err(CatalogOverflow { catalog: CatalogKind::Main, nb_unique_cells: 300 })
    );
}

#[test]
fn catalog_is_laid_out_in_three_columns() {
    let mut catalog = CellCatalog::new();
    catalog.cells.push(Cell(
        CellFirstHalf::Pattern { note: Note::D_4, instrument: 2 },
        Effect { id: EffectId::PatternBreak, param: 3 },
    ));
    catalog.cells.push(Cell(
        CellFirstHalf::Subpattern { offset: 36, next_row_idx: 0x1B },
        Effect { id: EffectId::SetVol, param: 0x24 },
    ));
    let columns = catalog_columns(&catalog).unwrap();
    assert_eq!(columns.first, vec![0xC2, 0x42]);
    assert_eq!(columns.second, vec![0x2D, 0xBC]);
    assert_eq!(columns.third, vec![14, 73]);
    assert_eq!(columns.padding, 254);
    assert_eq!(catalog_columns(&CellCatalog::new()).unwrap().padding, 256);
    assert_eq!(catalog_columns(&catalog_of(256)).unwrap().padding, 0);
}

#[test]
fn catalog_that_cannot_be_laid_out_gives_nothing() {
    assert!(catalog_columns(&catalog_of(257)).is_none());
    let mut catalog = catalog_of(3);
    catalog.cells.push(Cell(
        CellFirstHalf::Pattern { note: Note::D_4, instrument: 2 },
        Effect { id: EffectId::PatternBreak, param: 0 },
    ));
    assert!(catalog_columns(&catalog).is_none());
}

#[test]
fn each_channel_plays_the_copy_of_its_family() {
    let blank = [PatternCell::default(); 64];
    let song = song_with(vec![blank; 8], vec![[0, 1, 2, 3], [4, 5, 6, 7], [0, 0, 0, 0]]);
    assert_eq!(
        order_labels(&song, 0),
        vec![
            PatternId::Pattern(InstrKind::Duty, 0),
            PatternId::Pattern(InstrKind::Duty, 4),
            PatternId::Pattern(InstrKind::Duty, 0)
        ]
    );
    assert_eq!(order_labels(&song, 1)[1], PatternId::Pattern(InstrKind::Duty, 5));
    assert_eq!(order_labels(&song, 2)[1], PatternId::Pattern(InstrKind::Wave, 6));
    assert_eq!(order_labels(&song, 3)[0], PatternId::Pattern(InstrKind::Noise, 3));
    assert_eq!(InstrKind::from_channel_id(0), InstrKind::Duty);
    assert_eq!(InstrKind::from_channel_id(1), InstrKind::Duty);
    assert_eq!(InstrKind::from_channel_id(2), InstrKind::Wave);
    assert_eq!(InstrKind::from_channel_id(3), InstrKind::Noise);
}

#[test]
fn length_is_counted_from_zero() {
    let mut instrument = Instrument::default();
    assert_eq!(decode_len(&instrument), 0);
    instrument.length = Some(1);
    assert_eq!(decode_len(&instrument), 0);
    instrument.length = Some(64);
    assert_eq!(decode_len(&instrument), 63);
}

#[test]
fn instrument_with_a_subpattern_points_to_it() {
    let mut instrument = Instrument::default();
    assert_eq!(subpattern_label(&instrument, InstrKind::Noise, 4), None);
    instrument.subpattern = Some([SubpatternCell::default(); 32]);
    assert_eq!(
        subpattern_label(&instrument, InstrKind::Noise, 4),
        Some(PatternId::Subpattern(InstrKind::Noise, 4))
    );
}

#[test]
fn stats_count_the_bytes() {
    let stats = OptimStats {
        duplicated_patterns: 2,
        overlapped_rows: 10,
        pruned_patterns: 1,
        pruned_pattern_rows: 64,
        trimmed_rows: 7,
        pruned_instrs: 40,
        pruned_instrs_bytes: 250,
        trimmed_waves: 15,
        saved_bytes_catalog: -100,
    };
    assert_eq!(stats.wasted_bytes_duplicated_patterns(), 384);
    assert_eq!(stats.saved_bytes_overlapped_rows(), 30);
    assert_eq!(stats.saved_bytes_pruned_patterns(), 192);
    assert_eq!(stats.saved_bytes_trimmed_rows(), 21);
    assert_eq!(stats.saved_bytes_trimmed_waves(), 240);
    assert_eq!(stats.total_saved_bytes(), 30 + 192 + 21 + 250 + 240 - 384 - 100);
    let loss = OptimStats {
        duplicated_patterns: 2,
        overlapped_rows: 0,
        pruned_patterns: 0,
        pruned_pattern_rows: 0,
        trimmed_rows: 0,
        pruned_instrs: 0,
        pruned_instrs_bytes: 0,
        trimmed_waves: 0,
        saved_bytes_catalog: -4,
    };
    assert_eq!(loss.total_saved_bytes(), -388);
}
