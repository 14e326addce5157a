use tenor::optimise::{
    find_overlap_in_group, find_pattern_overlap, generate_row_pool, trim_trailing_unreachable_rows,
    AnnotatedCell, Cell, CellFirstHalf, Effect, InstrKind, OptimisedPattern, OutputCell, PatternId,
    PatternStore, RowPoolBuilder,
};
use tenor::song::{EffectId, Note};

fn cell(param: u8) -> Cell {
    Cell(
        CellFirstHalf::Pattern { note: Note::C_4, instrument: 1 },
        Effect { id: EffectId::Arpeggio, param },
    )
}

fn reached(param: u8) -> AnnotatedCell {
    AnnotatedCell { reachable: true, cell: cell(param) }
}

fn skipped(param: u8) -> AnnotatedCell {
    AnnotatedCell { reachable: false, cell: cell(param) }
}

fn pattern(params: &[u8]) -> OptimisedPattern {
    OptimisedPattern(params.iter().map(|&param| reached(param)).collect())
}

fn duty(index: usize) -> PatternId {
    PatternId::Pattern(InstrKind::Duty, index)
}

fn store(patterns: Vec<(PatternId, OptimisedPattern)>) -> PatternStore {
    let mut store = PatternStore::new();
    for (id, pattern) in patterns {
        store.insert(id, pattern);
    }
    store
}

fn rows_of(builder: &RowPoolBuilder) -> Vec<AnnotatedCell> {
    let mut rows = builder.rows();
    let mut all = Vec::new();
    while let Some(row) = rows.next() {
        all.push(row);
    }
    all
}

#[test]
fn rows_overlap_unless_both_are_reached_and_differ() {
    assert!(reached(1).can_overlap_with(&reached(1)));
    assert!(!reached(1).can_overlap_with(&reached(2)));
    assert!(skipped(1).can_overlap_with(&reached(2)));
    assert!(reached(1).can_overlap_with(&skipped(2)));
    assert!(skipped(1).can_overlap_with(&skipped(2)));
}

#[test]
fn store_keeps_its_patterns_in_the_order_of_their_ids() {
    let patterns = store(vec![
        (PatternId::Subpattern(InstrKind::Duty, 1), pattern(&[1])),
        (PatternId::Pattern(InstrKind::Noise, 0), pattern(&[2])),
        (PatternId::Pattern(InstrKind::Duty, 7), pattern(&[3])),
        (PatternId::Pattern(InstrKind::Wave, 9), pattern(&[4])),
        (PatternId::Pattern(InstrKind::Duty, 2), pattern(&[5])),
    ]);
    assert_eq!(
        patterns.keys(),
        vec![
            PatternId::Pattern(InstrKind::Duty, 2),
            PatternId::Pattern(InstrKind::Duty, 7),
            PatternId::Pattern(InstrKind::Wave, 9),
            PatternId::Pattern(InstrKind::Noise, 0),
            PatternId::Subpattern(InstrKind::Duty, 1),
        ]
    );
    assert_eq!(patterns.len(), 5);
    assert!(patterns.contains_key(duty(7)));
    assert!(!patterns.contains_key(duty(8)));
    assert_eq!(patterns.position(PatternId::Pattern(InstrKind::Noise, 0)), Some(3));
    assert_eq!(patterns.get(duty(2)).map(|pattern| pattern.0.len()), Some(1));
    assert!(patterns.get(duty(3)).is_none());
}

#[test]
fn store_replaces_and_removes() {
    let mut patterns = store(vec![(duty(1), pattern(&[1])), (duty(0), pattern(&[2, 3]))]);
    patterns.insert(duty(1), pattern(&[7, 8, 9]));
    assert_eq!(patterns.len(), 2);
    assert_eq!(patterns.get(duty(1)).map(|pattern| pattern.0.len()), Some(3));
    patterns.truncate_at(1, 2);
    assert_eq!(patterns.get(duty(1)).map(|pattern| pattern.0.len()), Some(2));
    let removed = patterns.remove_at(0);
    assert_eq!(removed.id, duty(0));
    assert_eq!(patterns.keys(), vec![duty(1)]);
}

#[test]
fn builder_starts_with_one_pattern() {
    let patterns = store(vec![(duty(0), pattern(&[1, 2, 3])), (duty(1), pattern(&[3, 4]))]);
    let builder = RowPoolBuilder::new(&patterns, duty(0));
    assert_eq!(builder.ordering, vec![(duty(0), 0)]);
    assert_eq!(builder.score, 0);
    assert!(builder.contains(duty(0)));
    assert!(!builder.contains(duty(1)));
    let params: Vec<u8> = rows_of(&builder).iter().map(|row| row.cell.1.param).collect();
    assert_eq!(params, vec![1, 2, 3]);
}

#[test]
fn pattern_goes_where_it_first_fits() {
    let patterns = store(vec![
        (duty(0), pattern(&[1, 2, 3, 4])),
        (duty(1), pattern(&[3, 4, 5])),
        (duty(2), pattern(&[2, 3])),
        (duty(3), pattern(&[9])),
    ]);
    let mut builder = RowPoolBuilder::new(&patterns, duty(0));
    // The end of the pool is the start of the pattern.
    assert_eq!(builder.score_with(duty(1)), (2, 2));
    // The pattern lies within the pool.
    assert_eq!(builder.score_with(duty(2)), (2, 1));
    // The pattern fits nowhere, so it goes to the end.
    assert_eq!(builder.score_with(duty(3)), (0, 4));
    builder.add(duty(1), 2, 2);
    assert_eq!(builder.ordering, vec![(duty(0), 0), (duty(1), 2)]);
    assert_eq!(builder.score, 2);
    let params: Vec<u8> = rows_of(&builder).iter().map(|row| row.cell.1.param).collect();
    assert_eq!(params, vec![1, 2, 3, 4, 5]);
    assert_eq!(builder.score_with(duty(2)), (4, 1));
    builder.add(duty(2), 1, 4);
    // It stands before the pattern that starts later.
    assert_eq!(builder.ordering, vec![(duty(0), 0), (duty(2), 1), (duty(1), 2)]);
    let params: Vec<u8> = rows_of(&builder).iter().map(|row| row.cell.1.param).collect();
    assert_eq!(params, vec![1, 2, 3, 4, 5]);
    let copy = builder.duplicate();
    assert_eq!(copy.ordering, builder.ordering);
    assert_eq!(copy.score, 4);
}

#[test]
fn pattern_that_starts_where_another_does_stands_before_it() {
    let patterns = store(vec![(duty(0), pattern(&[1, 2])), (duty(1), pattern(&[1, 2, 3]))]);
    let mut builder = RowPoolBuilder::new(&patterns, duty(0));
    assert_eq!(builder.score_with(duty(1)), (2, 0));
    builder.add(duty(1), 0, 2);
    assert_eq!(builder.ordering, vec![(duty(1), 0), (duty(0), 0)]);
    let params: Vec<u8> = rows_of(&builder).iter().map(|row| row.cell.1.param).collect();
    assert_eq!(params, vec![1, 2, 3]);
}

#[test]
fn unreached_row_takes_the_cell_of_a_reached_row_over_it() {
    let first = OptimisedPattern(vec![reached(1), skipped(0), reached(3)]);
    let patterns = store(vec![(duty(0), first), (duty(1), pattern(&[2, 3, 4]))]);
    let mut builder = RowPoolBuilder::new(&patterns, duty(0));
    assert_eq!(builder.score_with(duty(1)), (2, 1));
    builder.add(duty(1), 1, 2);
    let rows = rows_of(&builder);
    let params: Vec<u8> = rows.iter().map(|row| row.cell.1.param).collect();
    assert_eq!(params, vec![1, 2, 3, 4]);
    assert!(rows.iter().all(|row| row.reachable));
    // A third pattern has to suit the reached row, not the unreached one.
    let patterns = store(vec![
        (duty(0), OptimisedPattern(vec![reached(1), skipped(0), reached(3)])),
        (duty(1), pattern(&[2, 3, 4])),
        (duty(2), pattern(&[1, 0])),
        (duty(3), pattern(&[1, 2])),
    ]);
    let mut builder = RowPoolBuilder::new(&patterns, duty(0));
    builder.add(duty(1), 1, 2);
    assert_eq!(builder.score_with(duty(2)), (2, 4));
    assert_eq!(builder.score_with(duty(3)), (4, 0));
}

#[test]
fn short_pattern_within_a_long_one_ends_before_it() {
    let long = OptimisedPattern(vec![reached(1), reached(2), skipped(0), reached(4)]);
    let patterns = store(vec![(duty(0), long), (duty(1), pattern(&[2]))]);
    let mut builder = RowPoolBuilder::new(&patterns, duty(0));
    assert_eq!(builder.score_with(duty(1)), (1, 1));
    builder.add(duty(1), 1, 1);
    let rows = rows_of(&builder);
    let reached: Vec<bool> = rows.iter().map(|row| row.reachable).collect();
    assert_eq!(reached, vec![true, true, false, true]);
    let (output, catalog, _) = generate_row_pool(builder);
    assert_eq!(
        output,
        vec![
            OutputCell::Label(duty(0)),
            OutputCell::Cell(0),
            OutputCell::OverlapMarker { nb_rows: 3, pattern_id: duty(0) },
            OutputCell::Label(duty(1)),
            OutputCell::Cell(1),
            OutputCell::Cell(255),
            OutputCell::Cell(2),
        ]
    );
    assert_eq!(catalog.len(), 3);
}

#[test]
fn overlapping_patterns_follow_one_another() {
    // The last two rows of the first pattern are the first two of the second.
    let patterns = store(vec![
        (duty(0), pattern(&[10, 11, 12, 13])),
        (duty(1), pattern(&[12, 13, 14, 15])),
    ]);
    let (builder, score) = find_overlap_in_group(&patterns, &vec![duty(0), duty(1)]);
    assert_eq!(score, 2);
    assert_eq!(builder.score, 2);
    assert_eq!(builder.ordering, vec![(duty(0), 0), (duty(1), 2)]);
    // The other way round, the same order is found.
    let (builder, score) = find_overlap_in_group(&patterns, &vec![duty(1), duty(0)]);
    assert_eq!(score, 2);
    assert_eq!(builder.ordering, vec![(duty(0), 0), (duty(1), 2)]);
}

#[test]
fn search_places_every_pattern_once_in_the_order_of_the_starts() {
    let patterns = store(vec![
        (duty(0), pattern(&[1, 2, 3])),
        (duty(1), pattern(&[3, 4, 5])),
        (duty(2), pattern(&[5, 6, 1])),
        (duty(3), pattern(&[7, 7])),
        (duty(4), pattern(&[2, 3, 4])),
    ]);
    let ids = patterns.keys();
    let (builder, score) = find_overlap_in_group(&patterns, &ids);
    assert_eq!(builder.ordering.len(), 5);
    for id in &ids {
        assert_eq!(builder.ordering.iter().filter(|(placed, _)| placed == id).count(), 1);
    }
    assert!(builder.ordering.windows(2).all(|pair| pair[0].1 <= pair[1].1));
    assert_eq!(builder.ordering[0].1, 0);
    let rows = rows_of(&builder);
    // The score is the number of rows that the pool spares.
    assert_eq!(rows.len() + score, 14);
    // Every row of every pattern can overlap with the row of the pool that it stands on.
    for &(id, start) in &builder.ordering {
        let pattern = patterns.get(id).unwrap();
        for (i, row) in pattern.0.iter().enumerate() {
            assert!(row.can_overlap_with(&rows[start + i]));
        }
    }
    assert!(score >= 4);
}

#[test]
fn of_equal_scores_the_first_wins() {
    let patterns = store(vec![(duty(0), pattern(&[1])), (duty(1), pattern(&[2]))]);
    let (builder, score) = find_overlap_in_group(&patterns, &vec![duty(0), duty(1)]);
    assert_eq!(score, 0);
    assert_eq!(builder.ordering, vec![(duty(1), 0), (duty(0), 1)]);
}

#[test]
fn search_of_nothing_finds_the_empty_pool() {
    let patterns = store(vec![(duty(0), pattern(&[1]))]);
    let (builder, score) = find_overlap_in_group(&patterns, &vec![]);
    assert_eq!(score, 0);
    assert!(builder.ordering.is_empty());
    let (output, catalog, saved) = generate_row_pool(builder);
    assert!(output.is_empty());
    assert_eq!(catalog.len(), 0);
    assert_eq!(saved, -512);
    let (main, sub, overlapped) = find_pattern_overlap(&patterns);
    assert_eq!(main.ordering, vec![(duty(0), 0)]);
    assert!(sub.ordering.is_empty());
    assert_eq!(overlapped, 0);
}

#[test]
fn main_patterns_and_subpatterns_are_searched_apart() {
    let sub = |index| PatternId::Subpattern(InstrKind::Wave, index);
    let patterns = store(vec![
        (duty(0), pattern(&[1, 2])),
        (sub(1), pattern(&[1, 2])),
        (duty(1), pattern(&[2, 3])),
        (sub(2), pattern(&[9, 1])),
    ]);
    let (main, subs, overlapped) = find_pattern_overlap(&patterns);
    assert_eq!(main.ordering, vec![(duty(0), 0), (duty(1), 1)]);
    assert_eq!(subs.ordering, vec![(sub(2), 0), (sub(1), 1)]);
    assert_eq!(overlapped, 2);
}

#[test]
fn identical_patterns_share_their_rows_and_cells() {
    let patterns = store(vec![
        (duty(0), pattern(&[1, 1, 2, 1])),
        (PatternId::Pattern(InstrKind::Wave, 0), pattern(&[1, 1, 2, 1])),
    ]);
    let (main, _, overlapped) = find_pattern_overlap(&patterns);
    assert_eq!(overlapped, 4);
    let (output, catalog, saved) = generate_row_pool(main);
    assert_eq!(catalog.len(), 2);
    assert_eq!(catalog.cells[0].1.param, 1);
    assert_eq!(catalog.cells[1].1.param, 2);
    assert_eq!(catalog.find(&cell(2)), Some(1));
    assert_eq!(catalog.find(&cell(3)), None);
    let cells: Vec<&OutputCell> =
        output.iter().filter(|entry| matches!(entry, OutputCell::Cell(_))).collect();
    assert_eq!(
        cells,
        vec![
            &OutputCell::Cell(0),
            &OutputCell::Cell(0),
            &OutputCell::Cell(1),
            &OutputCell::Cell(0)
        ]
    );
    // Four rows of one byte in place of three, less two cells of three bytes, less the 254
    // empty places of two bytes.
    assert_eq!(saved, 4 * 2 - 2 * 3 - 254 * 2);
    // Without the empty places the catalog is no loss.
    assert!(saved + 254 * 2 >= 0);
}

#[test]
fn ids_wrap_when_the_catalog_overflows() {
    let rows: Vec<AnnotatedCell> = (0..64).map(|param| reached(param)).collect();
    let mut patterns = PatternStore::new();
    for index in 0..5u8 {
        let rows = rows
            .iter()
            .map(|row| AnnotatedCell {
                reachable: true,
                cell: Cell(
                    CellFirstHalf::Pattern { note: Note::C_4, instrument: index },
                    row.cell.1,
                ),
            })
            .collect();
        patterns.insert(duty(usize::from(index)), OptimisedPattern(rows));
    }
    let (main, _, overlapped) = find_pattern_overlap(&patterns);
    assert_eq!(overlapped, 0);
    let (output, catalog, saved) = generate_row_pool(main);
    assert_eq!(catalog.len(), 320);
    let cells: Vec<u8> = output
        .iter()
        .filter_map(|entry| match entry {
            OutputCell::Cell(id) => Some(*id),
            _ => None,
        })
        .collect();
    assert_eq!(cells.len(), 320);
    assert_eq!(cells[255], 255);
    assert_eq!(cells[256], 0);
    assert_eq!(cells[319], 63);
    assert_eq!(saved, 320 * 2 - 320 * 3 + 64 * 2);
}

#[test]
fn trimmed_patterns_end_with_a_reached_row() {
    let mut patterns = store(vec![
        (duty(0), OptimisedPattern(vec![reached(1), skipped(2), reached(3), skipped(4)])),
        (duty(1), OptimisedPattern(vec![skipped(1), skipped(2)])),
        (duty(2), OptimisedPattern(vec![reached(1)])),
        (duty(3), OptimisedPattern(vec![])),
    ]);
    let (mut pruned, mut pruned_rows, mut trimmed) = (1, 10, 100);
    trim_trailing_unreachable_rows(&mut patterns, &mut pruned, &mut pruned_rows, &mut trimmed);
    assert_eq!((pruned, pruned_rows, trimmed), (3, 12, 101));
    assert_eq!(patterns.keys(), vec![duty(0), duty(2)]);
    for entry in &patterns.entries {
        assert!(entry.pattern.0.last().unwrap().reachable);
    }
    assert_eq!(patterns.get(duty(0)).unwrap().0.len(), 3);
}
