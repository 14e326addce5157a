//! The passes in their order, from the song to what the playback routine needs.

use crate::bits::{bit16, lemma_bit16_set, lemma_bit16_values};
use crate::optimise::cell::Cell;
use crate::optimise::collect::{
    collect_patterns, collect_subpatterns, collected, fresh_rows, fresh_sub_rows,
    is_used_subpattern, named_in_grid, orders_in_range,
};
use crate::optimise::overlapping::{
    all_encodable, catalog_savings, catalog_upto, find_pattern_overlap, generate_row_pool,
    ids_of_group, lemma_catalog_is_encodable, lemma_group_ok, lemma_ids_of_group,
    lemma_total_rows_bound, overlap_plan, pool_len, pool_output, reached_rows_encodable, store_ok,
    total_rows, CellCatalog, OutputCell,
};
use crate::optimise::reachability::{
    cell_fault, ends_reachable, grid_id, grid_pattern, grid_reaches, grid_uses_instr,
    grid_uses_wave, grid_wf, is_first_fault, is_first_sub_fault, is_instr_usage,
    is_subpattern_rows, is_trimmed, is_wave_usage, last_reachable, lemma_last_reachable,
    marks_grid, marks_subpattern, nb_orders, pruned_patterns_upto, pruned_rows_upto, row_touches,
    row_uses_instr, step_ok, sub_reaches, sub_row_fault, sub_step_ok, sub_uses_wave, sub_walk_at,
    sub_walk_safe, trim_trailing_unreachable_rows, trimmed_rows_upto, walk_at, walk_grid,
    walk_safe, walk_subpattern, SongFault,
};
use crate::optimise::remapping::{
    compacted_mapping_from_mask, has_new_instr, has_new_wave, is_compaction, remap_instrs,
    remap_waves, with_new_instr, with_new_wave, CompactedMapping,
};
use crate::optimise::store::{AnnotatedCell, InstrKind, PatternEntry, PatternId, PatternStore};
use crate::song::{EffectId, Instrument, InstrumentKind, Song};
use vstd::prelude::*;

verus! {

/// The most order rows that a song can have for the passes to be able to count its rows.
pub const MAX_ORDERS: usize = 1_000_000;

/// The bank of the instruments of a family.
pub open spec fn bank(song: &Song, kind: InstrKind) -> Seq<Instrument> {
    match kind {
        InstrKind::Duty => song.instruments.duty@,
        InstrKind::Wave => song.instruments.wave@,
        InstrKind::Noise => song.instruments.noise@,
    }
}

/// Playback reaches a cell that plays instrument `number`, counted from 1, of a family.
pub open spec fn instr_in_use(song: &Song, kind: InstrKind, number: int) -> bool {
    1 <= number <= 15 && grid_uses_instr(song, kind, number)
}

/// The pattern `id` is the subpattern of an instrument that is in use.
pub open spec fn is_song_subpattern(song: &Song, id: PatternId) -> bool {
    id matches PatternId::Subpattern(kind, number) && instr_in_use(song, kind, number as int)
        && bank(song, kind)[number - 1].subpattern is Some
}

/// The rows of the subpattern `id`, none reached yet.
pub open spec fn sub_rows_of(song: &Song, id: PatternId) -> Seq<AnnotatedCell> {
    fresh_sub_rows(bank(song, id.spec_kind())[id.spec_index() - 1].subpattern->0)
}

/// The pattern `id` is one that the passes work on: a pattern that the order matrix names, or
/// the subpattern of an instrument that is in use.
pub open spec fn is_song_pattern(song: &Song, id: PatternId) -> bool {
    named_in_grid(song, id) || is_song_subpattern(song, id)
}

/// The rows of the pattern `id`, each marked if playback reaches it: a row of a pattern of the
/// main grid for the family of `id`, a row of a subpattern when the subpattern plays.
pub open spec fn marked_rows(song: &Song, id: PatternId) -> Seq<AnnotatedCell> {
    match id {
        PatternId::Pattern(_, index) => Seq::new(
            64,
            |r: int|
                AnnotatedCell {
                    reachable: grid_reaches(song, id, r),
                    cell: Cell::of_pattern_cell(song.patterns[index as int][r]),
                },
        ),
        PatternId::Subpattern(..) => Seq::new(
            32,
            |r: int|
                AnnotatedCell {
                    reachable: sub_reaches(sub_rows_of(song, id), r),
                    cell: sub_rows_of(song, id)[r].cell,
                },
        ),
    }
}

/// The rows of the pattern `id` up to the last that playback reaches.
pub open spec fn kept_rows(song: &Song, id: PatternId) -> Seq<AnnotatedCell> {
    marked_rows(song, id).take(last_reachable(marked_rows(song, id)) + 1)
}

/// The pattern `id` is one that the passes keep: playback reaches one of its rows.
pub open spec fn is_kept(song: &Song, id: PatternId) -> bool {
    is_song_pattern(song, id) && last_reachable(marked_rows(song, id)) >= 0
}

/// The store holds the patterns of the main grid that the order matrix names, with all their
/// rows, each marked if playback reaches it.
pub open spec fn is_marked_grid(song: &Song, store: PatternStore) -> bool {
    &&& store.wf()
    &&& forall|id: PatternId| #[trigger] store.contains(id) == named_in_grid(song, id)
    &&& forall|id: PatternId| store.contains(id) ==> #[trigger] store.rows(id) == marked_rows(song, id)
}

/// The store holds the patterns of the main grid that playback reaches, cut after the last row
/// that it reaches, and the subpatterns of the instruments in use, with all their rows; each
/// row is marked if playback reaches it.
pub open spec fn is_marked_song(song: &Song, store: PatternStore) -> bool {
    &&& store.wf()
    &&& forall|id: PatternId| #[trigger]
        store.contains(id) == (if id is Pattern {
            is_kept(song, id)
        } else {
            is_song_subpattern(song, id)
        })
    &&& forall|id: PatternId|
        store.contains(id) ==> #[trigger] store.rows(id) == (if id is Pattern {
            kept_rows(song, id)
        } else {
            marked_rows(song, id)
        })
}

/// The store holds the patterns that playback reaches, each cut after the last row that
/// playback reaches, and each row marked if playback reaches it.
pub open spec fn is_prepared_store(song: &Song, store: PatternStore) -> bool {
    &&& store.wf()
    &&& forall|id: PatternId| #[trigger] store.contains(id) == is_kept(song, id)
    &&& forall|id: PatternId| store.contains(id) ==> #[trigger] store.rows(id) == kept_rows(song, id)
}

/// The wave that an instrument of the wave family plays, if it is one.
pub open spec fn wave_of(instrument: Instrument) -> Option<u8> {
    match instrument.kind {
        InstrumentKind::Wave { wave_id, .. } => Some(wave_id),
        _ => None,
    }
}

/// Playback uses wave `wave`: a cell of the wave channel, or a row of the subpattern of a wave
/// instrument in use, changes the timbre to it, or a wave instrument in use plays it.
pub open spec fn wave_in_use(song: &Song, wave: int) -> bool {
    ||| grid_uses_wave(song, wave)
    ||| exists|number: int| #[trigger]
        sub_in_use_has_wave(song, number, wave)
    ||| exists|number: int| #[trigger]
        instr_in_use_plays(song, number, wave)
}

/// The subpattern of wave instrument `number`, which is in use, changes the timbre to `wave`.
pub open spec fn sub_in_use_has_wave(song: &Song, number: int, wave: int) -> bool {
    let id = PatternId::Subpattern(InstrKind::Wave, number as usize);
    1 <= number <= 15 && is_song_subpattern(song, id) && sub_uses_wave(
        id,
        sub_rows_of(song, id),
        wave,
    )
}

/// Wave instrument `number`, which is in use, plays wave `wave`.
pub open spec fn instr_in_use_plays(song: &Song, number: int, wave: int) -> bool {
    instr_in_use(song, InstrKind::Wave, number) && wave_of(song.instruments.wave[number - 1])
        == Some(wave as u8) && 0 <= wave < 256
}

/// The passes can work on the song: playback never runs into anything wrong, in the main grid
/// or in the subpattern of an instrument in use, so that each cell that it reaches can be
/// encoded; the instruments of the wave bank that are in use are wave instruments and play
/// waves of the bank; and the song is not too long.
pub open spec fn song_playable(song: &Song) -> bool {
    &&& walk_safe(song)
    &&& nb_orders(song) <= MAX_ORDERS
    &&& forall|id: PatternId| #[trigger]
        is_song_subpattern(song, id) ==> sub_walk_safe(id, sub_rows_of(song, id))
    &&& forall|number: int| #[trigger]
        instr_in_use(song, InstrKind::Wave, number) ==> (wave_of(
            song.instruments.wave[number - 1],
        ) matches Some(wave) && wave < 16)
}

/// The subpattern `id` is the first, in the order of the store, of the subpatterns of the
/// instruments in use that runs into something wrong, and `fault` is what it runs into first.
pub open spec fn is_first_subpattern_fault(song: &Song, id: PatternId, fault: SongFault) -> bool {
    &&& is_song_subpattern(song, id)
    &&& is_first_sub_fault(id, sub_rows_of(song, id), fault)
    &&& forall|other: PatternId|
        is_song_subpattern(song, other) && #[trigger] other.precedes(id) ==> sub_walk_safe(
            other,
            sub_rows_of(song, other),
        )
}

/// Instrument `number` is the first of the instruments of the wave bank that are in use with
/// something wrong with it, and `fault` is what is wrong with it.
pub open spec fn is_first_wave_instr_fault(song: &Song, number: int, fault: SongFault) -> bool {
    &&& instr_in_use(song, InstrKind::Wave, number)
    &&& is_wave_instr_fault(song, number, fault)
    &&& forall|earlier: int|
        earlier < number && #[trigger] instr_in_use(song, InstrKind::Wave, earlier) ==> (wave_of(
            song.instruments.wave[earlier - 1],
        ) matches Some(wave) && wave < 16)
}

/// `fault` is the first thing wrong with the song that keeps the passes from working on it:
/// with the order matrix, or else with the number of its rows, or else with the main grid, or
/// else with a subpattern, or else with an instrument of the wave bank.
pub open spec fn is_song_fault(song: &Song, fault: SongFault) -> bool {
    ||| !grid_wf(song) && fault == SongFault::BadOrderMatrix
    ||| grid_wf(song) && nb_orders(song) > MAX_ORDERS && fault == SongFault::TooManyOrders
    ||| grid_wf(song) && nb_orders(song) <= MAX_ORDERS && is_first_fault(song, fault)
    ||| walk_safe(song) && nb_orders(song) <= MAX_ORDERS && exists|id: PatternId| #[trigger]
        is_first_subpattern_fault(song, id, fault)
    ||| walk_safe(song) && nb_orders(song) <= MAX_ORDERS && (forall|id: PatternId| #[trigger]
        is_song_subpattern(song, id) ==> sub_walk_safe(id, sub_rows_of(song, id))) && exists|
        number: int,
    | #[trigger] is_first_wave_instr_fault(song, number, fault)
}

/// `fault` is what is wrong with instrument `number` of the wave bank.
pub open spec fn is_wave_instr_fault(song: &Song, number: int, fault: SongFault) -> bool {
    match wave_of(song.instruments.wave[number - 1]) {
        Some(wave_id) => wave_id >= 16 && fault == (SongFault::InstrumentWaveOutOfBounds {
            slot: number as usize,
            wave_id,
        }),
        None => fault == (SongFault::NotAWaveInstrument { slot: number as usize }),
    }
}

proof fn lemma_last_reachable_take(rows: Seq<AnnotatedCell>)
    requires
        last_reachable(rows) >= 0,
    ensures
        last_reachable(rows.take(last_reachable(rows) + 1)) == last_reachable(rows),
        rows.take(last_reachable(rows) + 1).take(last_reachable(rows) + 1) == rows.take(
            last_reachable(rows) + 1,
        ),
{
    lemma_last_reachable(rows);
    let last = last_reachable(rows);
    let kept = rows.take(last + 1);
    assert(kept.last() == rows[last]);
    assert(kept.take(last + 1) =~= kept);
}

proof fn lemma_trim_sums_bound(entries: Seq<PatternEntry>, upto: int)
    requires
        0 <= upto <= entries.len(),
        forall|i: int| 0 <= i < entries.len() ==> (#[trigger] entries[i]).pattern.0.len() <= 64,
    ensures
        pruned_patterns_upto(entries, upto) <= upto,
        pruned_rows_upto(entries, upto) <= 64 * upto,
        trimmed_rows_upto(entries, upto) <= 64 * upto,
    decreases upto,
{
    if upto > 0 {
        lemma_trim_sums_bound(entries, upto - 1);
        lemma_last_reachable(entries[upto - 1].pattern.0@);
        assert(entries[upto - 1].pattern.0.len() <= 64);
    }
}

/// A store of fresh copies with the rows marked that playback reaches is the marked grid.
proof fn lemma_marked_grid(song: &Song, fresh: PatternStore, marked: PatternStore)
    requires
        collected(song, fresh),
        marks_grid(song, fresh, marked),
    ensures
        is_marked_grid(song, marked),
        forall|i: int|
            0 <= i < marked.entries.len() ==> (#[trigger] marked.entries[i]).pattern.0.len() == 64,
{
    crate::optimise::reachability::lemma_same_cells_keeps_shape(fresh, marked, song);
    assert forall|id: PatternId| marked.contains(id) implies #[trigger] marked.rows(id)
        == marked_rows(song, id) by {
        let k = marked.index_of(id);
        marked.lemma_index_of(k);
        fresh.lemma_index_of(k);
        assert(fresh.entries[k].id == id);
        let rows = marked.entries[k].pattern.0@;
        assert(rows.len() == 64);
        assert forall|r: int| 0 <= r < 64 implies rows[r] == marked_rows(song, id)[r] by {
            assert(marked.entries[k].pattern.0[r].cell == fresh.entries[k].pattern.0[r].cell);
            assert(marked.entries[k].pattern.0[r].reachable == (
            fresh.entries[k].pattern.0[r].reachable || grid_reaches(
                song,
                fresh.entries[k].id,
                r,
            )));
        }
        assert(rows =~= marked_rows(song, id));
    }
    assert forall|i: int| 0 <= i < marked.entries.len() implies (
    #[trigger] marked.entries[i]).pattern.0.len() == 64 by {
        assert(fresh.entries[i].pattern.0@ == fresh_rows(
            song.patterns[fresh.entries[i].id.spec_index() as int],
        ));
    }
}

/// What the passes have after the main grid: the patterns of the main grid that playback
/// reaches, the instruments and waves that the reached cells use, and the count of what was
/// dropped.
struct GridStage {
    patterns: PatternStore,
    usage: (u16, u16, u16, u16),
    pruned_patterns: usize,
    pruned_pattern_rows: usize,
    trimmed_rows: usize,
}

/// The store holds the patterns of the main grid that playback reaches, cut after the last
/// row that it reaches.
spec fn is_kept_grid(song: &Song, store: PatternStore) -> bool {
    &&& store.wf()
    &&& forall|id: PatternId| #[trigger]
        store.contains(id) == (id is Pattern && is_kept(song, id))
    &&& forall|id: PatternId| store.contains(id) ==> #[trigger] store.rows(id) == kept_rows(song, id)
    &&& ends_reachable(store)
    &&& store.entries.len() <= 4 * nb_orders(song)
}

fn prepare_grid(song: &Song) -> (result: (Result<GridStage, SongFault>, Ghost<PatternStore>))
    requires
        grid_wf(song),
        nb_orders(song) <= MAX_ORDERS,
    ensures
        result.0 is Ok <==> walk_safe(song),
        result.0 matches Ok(stage) ==> {
            &&& is_marked_grid(song, result.1@)
            &&& is_kept_grid(song, stage.patterns)
            &&& is_instr_usage(song, InstrKind::Duty, stage.usage.0)
            &&& is_instr_usage(song, InstrKind::Wave, stage.usage.1)
            &&& is_instr_usage(song, InstrKind::Noise, stage.usage.2)
            &&& is_wave_usage(song, stage.usage.3)
            &&& stage.pruned_patterns == pruned_patterns_upto(
                result.1@.entries@,
                result.1@.entries.len() as int,
            )
            &&& stage.pruned_pattern_rows == pruned_rows_upto(
                result.1@.entries@,
                result.1@.entries.len() as int,
            )
            &&& stage.trimmed_rows == trimmed_rows_upto(
                result.1@.entries@,
                result.1@.entries.len() as int,
            )
            &&& stage.pruned_patterns <= 4 * nb_orders(song)
            &&& stage.pruned_pattern_rows <= 256 * nb_orders(song)
            &&& stage.trimmed_rows <= 256 * nb_orders(song)
        },
        result.0 matches Err(fault) ==> is_first_fault(song, fault),
{
    let mut patterns = collect_patterns(song);
    let ghost fresh = patterns;
    let usage = match walk_grid(song, &mut patterns) {
        Ok(usage) => usage,
        Err(fault) => {
            return (Err(fault), Ghost(patterns));
        },
    };
    let ghost marked = patterns;
    proof {
        lemma_marked_grid(song, fresh, marked);
        lemma_trim_sums_bound(marked.entries@, marked.entries.len() as int);
    }
    let mut pruned_patterns: usize = 0;
    let mut pruned_pattern_rows: usize = 0;
    let mut trimmed_rows: usize = 0;
    trim_trailing_unreachable_rows(
        &mut patterns,
        &mut pruned_patterns,
        &mut pruned_pattern_rows,
        &mut trimmed_rows,
    );
    proof {
        assert forall|id: PatternId| #[trigger]
            patterns.contains(id) == (id is Pattern && is_kept(song, id)) by {
            assert(patterns.contains(id) == (marked.contains(id) && last_reachable(
                marked.rows(id),
            ) >= 0));
            assert(marked.contains(id) == named_in_grid(song, id));
            if marked.contains(id) {
                marked.lemma_index_of(marked.index_of(id));
                assert(fresh.entries[marked.index_of(id)].id is Pattern);
            }
        }
        lemma_trimmed_len(marked, patterns);
    }
    (
        Ok(GridStage { patterns, usage, pruned_patterns, pruned_pattern_rows, trimmed_rows }),
        Ghost(marked),
    )
}

/// A trimmed store has no more patterns than the store that it was trimmed from.
proof fn lemma_trimmed_len(before: PatternStore, after: PatternStore)
    requires
        before.wf(),
        is_trimmed(before, after),
    ensures
        after.entries.len() <= before.entries.len(),
{
    let ids = after.ids();
    let all = before.ids();
    assert(ids.no_duplicates()) by {
        assert forall|a: int, b: int|
            0 <= a < ids.len() && 0 <= b < ids.len() && a != b implies ids[a] != ids[b] by {
            if a < b {
                assert(after.entries[a].id.precedes(after.entries[b].id));
            } else {
                assert(after.entries[b].id.precedes(after.entries[a].id));
            }
        }
    }
    assert(ids.to_set().subset_of(all.to_set())) by {
        assert forall|id: PatternId| ids.to_set().contains(id) implies all.to_set().contains(id) by {
            let k = choose|k: int| 0 <= k < ids.len() && ids[k] == id;
            assert(after.entries[k].id == id);
            assert(after.contains(id));
            assert(before.contains(id));
            assert(all[before.index_of(id)] == id);
        }
    }
    ids.unique_seq_to_set();
    all.lemma_cardinality_of_set();
    vstd::seq_lib::seq_to_set_is_finite(all);
    vstd::set_lib::lemma_len_subset(ids.to_set(), all.to_set());
}

/// The store holds the patterns of the main grid that playback reaches, cut after the last row
/// that it reaches, and a fresh copy of the subpattern of each instrument in use.
spec fn is_fresh_song(song: &Song, store: PatternStore) -> bool {
    &&& store.wf()
    &&& forall|id: PatternId| #[trigger]
        store.contains(id) == (if id is Pattern {
            is_kept(song, id)
        } else {
            is_song_subpattern(song, id)
        })
    &&& forall|id: PatternId|
        store.contains(id) ==> #[trigger] store.rows(id) == (if id is Pattern {
            kept_rows(song, id)
        } else {
            sub_rows_of(song, id)
        })
    &&& store.entries.len() <= 4 * nb_orders(song) + 45
}

proof fn lemma_used_subpattern(song: &Song, kind: InstrKind, mask: u16, id: PatternId)
    requires
        is_instr_usage(song, kind, mask),
    ensures
        is_used_subpattern(bank(song, kind), mask, kind, id, 15) == (is_song_subpattern(song, id)
            && id.spec_kind() == kind),
{
    match id {
        PatternId::Subpattern(id_kind, number) => {
            if 1 <= number <= 15 {
                assert(bit16(mask, number - 1) == grid_uses_instr(song, kind, (number - 1) + 1));
            }
        },
        PatternId::Pattern(..) => {},
    }
}

/// Copies into the store the subpatterns of the instruments that playback reaches.
fn collect_song_subpatterns(song: &Song, patterns: &mut PatternStore, usage: (u16, u16, u16, u16))
    requires
        is_kept_grid(song, *old(patterns)),
        is_instr_usage(song, InstrKind::Duty, usage.0),
        is_instr_usage(song, InstrKind::Wave, usage.1),
        is_instr_usage(song, InstrKind::Noise, usage.2),
    ensures
        is_fresh_song(song, *final(patterns)),
{
    let ghost grid = *patterns;
    collect_subpatterns(patterns, &song.instruments.duty, usage.0, InstrKind::Duty);
    let ghost with_duty = *patterns;
    collect_subpatterns(patterns, &song.instruments.wave, usage.1, InstrKind::Wave);
    let ghost with_wave = *patterns;
    collect_subpatterns(patterns, &song.instruments.noise, usage.2, InstrKind::Noise);
    proof {
        assert forall|id: PatternId| #[trigger]
            patterns.contains(id) == (if id is Pattern {
                is_kept(song, id)
            } else {
                is_song_subpattern(song, id)
            }) by {
            lemma_used_subpattern(song, InstrKind::Duty, usage.0, id);
            lemma_used_subpattern(song, InstrKind::Wave, usage.1, id);
            lemma_used_subpattern(song, InstrKind::Noise, usage.2, id);
            assert(grid.contains(id) == (id is Pattern && is_kept(song, id)));
            assert(with_duty.contains(id) == (grid.contains(id) || is_used_subpattern(
                bank(song, InstrKind::Duty),
                usage.0,
                InstrKind::Duty,
                id,
                15,
            )));
            assert(with_wave.contains(id) == (with_duty.contains(id) || is_used_subpattern(
                bank(song, InstrKind::Wave),
                usage.1,
                InstrKind::Wave,
                id,
                15,
            )));
        }
        assert forall|id: PatternId| patterns.contains(id) implies #[trigger] patterns.rows(id)
            == (if id is Pattern {
            kept_rows(song, id)
        } else {
            sub_rows_of(song, id)
        }) by {
            lemma_used_subpattern(song, InstrKind::Duty, usage.0, id);
            lemma_used_subpattern(song, InstrKind::Wave, usage.1, id);
            lemma_used_subpattern(song, InstrKind::Noise, usage.2, id);
            assert(grid.contains(id) == (id is Pattern && is_kept(song, id)));
            assert(with_duty.contains(id) == (grid.contains(id) || is_used_subpattern(
                bank(song, InstrKind::Duty),
                usage.0,
                InstrKind::Duty,
                id,
                15,
            )));
            assert(with_wave.contains(id) == (with_duty.contains(id) || is_used_subpattern(
                bank(song, InstrKind::Wave),
                usage.1,
                InstrKind::Wave,
                id,
                15,
            )));
            if with_wave.contains(id) {
                assert(with_wave.rows(id) == (if is_used_subpattern(
                    bank(song, InstrKind::Wave),
                    usage.1,
                    InstrKind::Wave,
                    id,
                    15,
                ) {
                    fresh_sub_rows(bank(song, InstrKind::Wave)[id.spec_index() - 1].subpattern->0)
                } else {
                    with_duty.rows(id)
                }));
            }
            if with_duty.contains(id) {
                assert(with_duty.rows(id) == (if is_used_subpattern(
                    bank(song, InstrKind::Duty),
                    usage.0,
                    InstrKind::Duty,
                    id,
                    15,
                ) {
                    fresh_sub_rows(bank(song, InstrKind::Duty)[id.spec_index() - 1].subpattern->0)
                } else {
                    grid.rows(id)
                }));
            }
            if grid.contains(id) {
                assert(grid.rows(id) == kept_rows(song, id));
            }
        }
    }
}

/// One of the first `upto` patterns of the store changes the timbre to wave `wave`.
spec fn subs_use_before(store: PatternStore, upto: int, wave: int) -> bool {
    exists|j: int|
        0 <= j < upto && sub_uses_wave(
            (#[trigger] store.entries[j]).id,
            store.entries[j].pattern.0@,
            wave,
        )
}

proof fn lemma_subs_use_step(store: PatternStore, upto: int)
    requires
        0 <= upto < store.entries.len(),
    ensures
        forall|wave: int| #[trigger]
            subs_use_before(store, upto + 1, wave) == (subs_use_before(store, upto, wave)
                || sub_uses_wave(store.entries[upto].id, store.entries[upto].pattern.0@, wave)),
{
    assert forall|wave: int| #[trigger]
        subs_use_before(store, upto + 1, wave) == (subs_use_before(store, upto, wave)
            || sub_uses_wave(store.entries[upto].id, store.entries[upto].pattern.0@, wave)) by {
        if subs_use_before(store, upto, wave) {
            let j = choose|j: int|
                0 <= j < upto && sub_uses_wave(
                    (#[trigger] store.entries[j]).id,
                    store.entries[j].pattern.0@,
                    wave,
                );
            assert(0 <= j < upto + 1 && sub_uses_wave(
                store.entries[j].id,
                store.entries[j].pattern.0@,
                wave,
            ));
        }
        if sub_uses_wave(store.entries[upto].id, store.entries[upto].pattern.0@, wave) {
            assert(0 <= upto < upto + 1 && sub_uses_wave(
                store.entries[upto].id,
                store.entries[upto].pattern.0@,
                wave,
            ));
        }
    }
}

/// What holds while the subpatterns are being played: the first `done` patterns of the store
/// are through, and the others are as they were.
spec fn subs_marked_before(start: PatternStore, now: PatternStore, done: int) -> bool {
    &&& now.wf()
    &&& now.entries.len() == start.entries.len()
    &&& forall|j: int|
        0 <= j < start.entries.len() ==> (#[trigger] now.entries[j]).id == start.entries[j].id
    &&& forall|j: int|
        0 <= j < start.entries.len() && (j >= done || start.entries[j].id is Pattern)
            ==> (#[trigger] now.entries[j]).pattern.0@ == start.entries[j].pattern.0@
    &&& forall|j: int|
        0 <= j < done && j < start.entries.len() && start.entries[j].id is Subpattern ==> {
            &&& marks_subpattern(
                start.entries[j].pattern.0@,
                (#[trigger] now.entries[j]).pattern.0@,
            )
            &&& sub_walk_safe(start.entries[j].id, start.entries[j].pattern.0@)
        }
}

proof fn lemma_fresh_sub_rows(song: &Song, id: PatternId)
    requires
        id is Subpattern,
    ensures
        sub_rows_of(song, id).len() == 32,
        is_subpattern_rows(sub_rows_of(song, id)),
        forall|r: int| 0 <= r < 32 ==> !(#[trigger] sub_rows_of(song, id)[r]).reachable,
{
}

proof fn lemma_marked_song(song: &Song, start: PatternStore, now: PatternStore)
    requires
        is_fresh_song(song, start),
        subs_marked_before(start, now, start.entries.len() as int),
    ensures
        is_marked_song(song, now),
        forall|id: PatternId| #[trigger]
            is_song_subpattern(song, id) ==> sub_walk_safe(id, sub_rows_of(song, id)),
        forall|wave: int| #[trigger]
            subs_use_before(start, start.entries.len() as int, wave) == (exists|number: int| #[trigger]
                sub_in_use_has_wave(song, number, wave)),
        forall|i: int|
            0 <= i < now.entries.len() ==> (#[trigger] now.entries[i]).pattern.0.len() <= 64,
{
    assert forall|id: PatternId| #[trigger]
        now.contains(id) == (if id is Pattern {
            is_kept(song, id)
        } else {
            is_song_subpattern(song, id)
        }) by {
        if start.contains(id) {
            assert(now.entries[start.index_of(id)].id == id);
        }
        if now.contains(id) {
            assert(start.entries[now.index_of(id)].id == id);
        }
    }
    assert forall|id: PatternId| now.contains(id) implies #[trigger] now.rows(id) == (if id
        is Pattern {
        kept_rows(song, id)
    } else {
        marked_rows(song, id)
    }) by {
        let k = now.index_of(id);
        now.lemma_index_of(k);
        start.lemma_index_of(k);
        assert(start.rows(id) == (if id is Pattern {
            kept_rows(song, id)
        } else {
            sub_rows_of(song, id)
        }));
        if id is Subpattern {
            lemma_fresh_sub_rows(song, id);
            assert(now.rows(id) =~= marked_rows(song, id));
        }
    }
    assert forall|id: PatternId| #[trigger] is_song_subpattern(song, id) implies sub_walk_safe(
        id,
        sub_rows_of(song, id),
    ) by {
        assert(start.contains(id));
        let k = start.index_of(id);
        start.lemma_index_of(k);
        assert(start.rows(id) == sub_rows_of(song, id));
        assert(now.entries[k].id == id);
    }
    assert forall|wave: int| #[trigger]
        subs_use_before(start, start.entries.len() as int, wave) == (exists|number: int| #[trigger]
            sub_in_use_has_wave(song, number, wave)) by {
        if subs_use_before(start, start.entries.len() as int, wave) {
            let j = choose|j: int|
                0 <= j < start.entries.len() && sub_uses_wave(
                    (#[trigger] start.entries[j]).id,
                    start.entries[j].pattern.0@,
                    wave,
                );
            let id = start.entries[j].id;
            start.lemma_index_of(j);
            assert(start.contains(id));
            assert(start.rows(id) == sub_rows_of(song, id));
            assert(sub_in_use_has_wave(song, id.spec_index() as int, wave));
        }
        if exists|number: int| #[trigger] sub_in_use_has_wave(song, number, wave) {
            let number = choose|number: int| #[trigger] sub_in_use_has_wave(song, number, wave);
            let id = PatternId::Subpattern(InstrKind::Wave, number as usize);
            assert(start.contains(id));
            let k = start.index_of(id);
            start.lemma_index_of(k);
            assert(start.rows(id) == sub_rows_of(song, id));
            assert(sub_uses_wave(start.entries[k].id, start.entries[k].pattern.0@, wave));
        }
    }
    assert forall|i: int| 0 <= i < now.entries.len() implies (
    #[trigger] now.entries[i]).pattern.0.len() <= 64 by {
        let id = now.entries[i].id;
        now.lemma_index_of(i);
        assert(now.contains(id));
        if id is Pattern {
            lemma_last_reachable(marked_rows(song, id));
        }
    }
}

/// Plays the subpattern of each instrument in use, marking the rows that it plays and
/// gathering the waves that it changes the timbre to.
fn mark_song_subpatterns(song: &Song, patterns: &mut PatternStore, used_waves: &mut u16) -> (fault: Option<
    SongFault,
>)
    requires
        is_fresh_song(song, *old(patterns)),
    ensures
        final(patterns).wf(),
        final(patterns).entries.len() == old(patterns).entries.len(),
        fault is None <==> (forall|id: PatternId| #[trigger]
            is_song_subpattern(song, id) ==> sub_walk_safe(id, sub_rows_of(song, id))),
        fault is None ==> is_marked_song(song, *final(patterns)),
        fault is None ==> forall|i: int|
            0 <= i < final(patterns).entries.len() ==> (
            #[trigger] final(patterns).entries[i]).pattern.0.len() <= 64,
        fault is None ==> forall|wave: int| #[trigger]
            bit16(*final(used_waves), wave) == (bit16(*old(used_waves), wave) || exists|
                number: int,
            | #[trigger] sub_in_use_has_wave(song, number, wave)),
        fault matches Some(f) ==> exists|id: PatternId| #[trigger]
            is_first_subpattern_fault(song, id, f),
{
    let ghost start = *patterns;
    let total = patterns.entries.len();
    let mut i: usize = 0;
    while i < total
        invariant
            start == *old(patterns),
            is_fresh_song(song, start),
            total == start.entries.len(),
            i <= total,
            subs_marked_before(start, *patterns, i as int),
            forall|wave: int| #[trigger]
                bit16(*used_waves, wave) == (bit16(*old(used_waves), wave) || subs_use_before(
                    start,
                    i as int,
                    wave,
                )),
        decreases total - i,
    {
        let id = patterns.entries[i].id;
        let ghost before = *patterns;
        proof {
            start.lemma_index_of(i as int);
            lemma_subs_use_step(start, i as int);
            assert(patterns.entries[i as int].pattern.0@ == start.entries[i as int].pattern.0@);
        }
        if !id.is_main() {
            proof {
                lemma_fresh_sub_rows(song, id);
                assert(start.rows(id) == sub_rows_of(song, id));
            }
            let fault = walk_subpattern(id, &mut patterns.entries[i].pattern, used_waves);
            if fault.is_some() {
                proof {
                    assert(is_song_subpattern(song, id));
                    assert(is_first_sub_fault(id, sub_rows_of(song, id), fault->0));
                    assert(!sub_walk_safe(id, sub_rows_of(song, id)));
                    assert forall|other: PatternId|
                        is_song_subpattern(song, other) && #[trigger] other.precedes(
                            id,
                        ) implies sub_walk_safe(other, sub_rows_of(song, other)) by {
                        assert(start.contains(other));
                        let k = start.index_of(other);
                        start.lemma_index_of(k);
                        if k > i {
                            assert(start.entries[i as int].id.precedes(start.entries[k].id));
                        }
                        assert(start.rows(other) == sub_rows_of(song, other));
                        assert(before.entries[k].id == other);
                    }
                    assert(is_first_subpattern_fault(song, id, fault->0));
                    assert forall|a: int, b: int|
                        0 <= a < b < patterns.entries.len() implies (
                    #[trigger] patterns.entries[a]).id.precedes((#[trigger] patterns.entries[b]).id) by {
                        assert(before.entries[a].id.precedes(before.entries[b].id));
                    }
                }
                return fault;
            }
        } else {
            proof {
                assert(!crate::optimise::reachability::sets_timbre(id));
            }
        }
        proof {
            assert forall|a: int, b: int| 0 <= a < b < patterns.entries.len() implies (
            #[trigger] patterns.entries[a]).id.precedes((#[trigger] patterns.entries[b]).id) by {
                assert(before.entries[a].id.precedes(before.entries[b].id));
            }
            assert forall|j: int|
                0 <= j < start.entries.len() && (j >= i + 1 || start.entries[j].id
                    is Pattern) implies (#[trigger] patterns.entries[j]).pattern.0@
                == start.entries[j].pattern.0@ by {
                assert(before.entries[j].pattern.0@ == start.entries[j].pattern.0@);
            }
            assert forall|j: int|
                0 <= j < i + 1 && j < start.entries.len() && start.entries[j].id
                    is Subpattern implies {
                &&& marks_subpattern(
                    start.entries[j].pattern.0@,
                    (#[trigger] patterns.entries[j]).pattern.0@,
                )
                &&& sub_walk_safe(start.entries[j].id, start.entries[j].pattern.0@)
            } by {
                if j < i {
                    assert(marks_subpattern(
                        start.entries[j].pattern.0@,
                        before.entries[j].pattern.0@,
                    ));
                    assert(patterns.entries[j] == before.entries[j]);
                }
            }
        }
        i += 1;
    }
    proof {
        lemma_marked_song(song, start, *patterns);
    }
    None
}

/// One of the wave instruments up to number `upto`, which is in use, plays wave `wave`.
spec fn plays_before(song: &Song, upto: int, wave: int) -> bool {
    exists|number: int| number <= upto && #[trigger] instr_in_use_plays(song, number, wave)
}

/// Adds to the waves in use those that the wave instruments in use play.
fn add_instrument_waves(song: &Song, used_wave_instrs: u16, used_waves: &mut u16) -> (fault: Option<
    SongFault,
>)
    requires
        is_instr_usage(song, InstrKind::Wave, used_wave_instrs),
    ensures
        fault is None <==> (forall|number: int| #[trigger]
            instr_in_use(song, InstrKind::Wave, number) ==> (wave_of(
                song.instruments.wave[number - 1],
            ) matches Some(wave) && wave < 16)),
        fault is None ==> forall|wave: int| #[trigger]
            bit16(*final(used_waves), wave) == (bit16(*old(used_waves), wave) || exists|
                number: int,
            | #[trigger] instr_in_use_plays(song, number, wave)),
        fault matches Some(f) ==> exists|number: int| #[trigger]
            is_first_wave_instr_fault(song, number, f),
{
    let mut index: usize = 0;
    while index < 15
        invariant
            index <= 15,
            is_instr_usage(song, InstrKind::Wave, used_wave_instrs),
            forall|number: int|
                number <= index && #[trigger] instr_in_use(song, InstrKind::Wave, number) ==> (
                wave_of(song.instruments.wave[number - 1]) matches Some(wave) && wave < 16),
            forall|wave: int| #[trigger]
                bit16(*used_waves, wave) == (bit16(*old(used_waves), wave) || plays_before(
                    song,
                    index as int,
                    wave,
                )),
        decreases 15 - index,
    {
        let ghost number = index + 1;
        let ghost waves_before = *used_waves;
        proof {
            lemma_bit16_values(used_wave_instrs, index as u16);
            assert(bit16(used_wave_instrs, index as int) == grid_uses_instr(
                song,
                InstrKind::Wave,
                index + 1,
            ));
        }
        if used_wave_instrs & (1u16 << index) != 0 {
            assert(instr_in_use(song, InstrKind::Wave, number));
            match song.instruments.wave[index].kind {
                InstrumentKind::Wave { wave_id, .. } => {
                    if wave_id >= 16 {
                        let fault = SongFault::InstrumentWaveOutOfBounds { slot: index + 1, wave_id };
                        assert(is_first_wave_instr_fault(song, number, fault));
                        return Some(fault);
                    }
                    proof {
                        lemma_bit16_set(*used_waves, wave_id as u16);
                    }
                    *used_waves = *used_waves | (1u16 << wave_id);
                },
                _ => {
                    let fault = SongFault::NotAWaveInstrument { slot: index + 1 };
                    assert(is_first_wave_instr_fault(song, number, fault));
                    return Some(fault);
                },
            }
        }
        proof {
            assert forall|wave: int| #[trigger]
                bit16(*used_waves, wave) == (bit16(*old(used_waves), wave) || plays_before(
                    song,
                    index + 1,
                    wave,
                )) by {
                assert(bit16(waves_before, wave) == (bit16(*old(used_waves), wave)
                    || plays_before(song, index as int, wave)));
                if plays_before(song, index as int, wave) {
                    let n = choose|n: int|
                        n <= index && #[trigger] instr_in_use_plays(song, n, wave);
                    assert(n <= index + 1 && instr_in_use_plays(song, n, wave));
                }
                if plays_before(song, index + 1, wave) {
                    let n = choose|n: int|
                        n <= index + 1 && #[trigger] instr_in_use_plays(song, n, wave);
                    if n <= index {
                        assert(n <= index && instr_in_use_plays(song, n, wave));
                    }
                }
                if instr_in_use_plays(song, number, wave) {
                    assert(number <= index + 1 && instr_in_use_plays(song, number, wave));
                }
            }
        }
        index += 1;
    }
    proof {
        assert forall|wave: int| #[trigger]
            bit16(*used_waves, wave) == (bit16(*old(used_waves), wave) || exists|number: int| #[trigger]
                instr_in_use_plays(song, number, wave)) by {
            if plays_before(song, 15, wave) {
                let n = choose|n: int| n <= 15 && #[trigger] instr_in_use_plays(song, n, wave);
                assert(instr_in_use_plays(song, n, wave));
            }
            if exists|number: int| #[trigger] instr_in_use_plays(song, number, wave) {
                let n = choose|n: int| #[trigger] instr_in_use_plays(song, n, wave);
                assert(n <= 15 && instr_in_use_plays(song, n, wave));
            }
        }
    }
    None
}

/// What the passes have once they know what playback reaches: the patterns that it reaches,
/// each cut after the last row that it reaches; for each family the instruments in use, bit
/// `i` standing for instrument `i + 1`, and the waves in use; and the count of what was dropped.
struct Prepared {
    patterns: PatternStore,
    used_duty_instrs: u16,
    used_wave_instrs: u16,
    used_noise_instrs: u16,
    used_waves: u16,
    pruned_patterns: usize,
    pruned_pattern_rows: usize,
    trimmed_rows: usize,
}

/// Bit `w` of `mask` says whether playback uses wave `w`.
pub open spec fn is_song_waves(song: &Song, mask: u16) -> bool {
    forall|wave: int| 0 <= wave < 16 ==> #[trigger] bit16(mask, wave) == wave_in_use(song, wave)
}

/// `prepared` is what the passes have for the song once they know what playback reaches.
/// `grid` is the marked grid and `all` the marked song, as the passes had them when they
/// dropped what playback does not reach.
spec fn prepares(song: &Song, grid: PatternStore, all: PatternStore, prepared: Prepared) -> bool {
    &&& is_marked_grid(song, grid)
    &&& is_marked_song(song, all)
    &&& is_prepared_store(song, prepared.patterns)
    &&& ends_reachable(prepared.patterns)
    &&& forall|i: int|
        0 <= i < prepared.patterns.entries.len() ==> (
        #[trigger] prepared.patterns.entries[i]).pattern.0.len() <= 64
    &&& prepared.patterns.entries.len() <= 4 * nb_orders(song) + 45
    &&& is_instr_usage(song, InstrKind::Duty, prepared.used_duty_instrs)
    &&& is_instr_usage(song, InstrKind::Wave, prepared.used_wave_instrs)
    &&& is_instr_usage(song, InstrKind::Noise, prepared.used_noise_instrs)
    &&& is_song_waves(song, prepared.used_waves)
    &&& prepared.pruned_patterns == pruned_patterns_upto(grid.entries@, grid.entries.len() as int)
        + pruned_patterns_upto(all.entries@, all.entries.len() as int)
    &&& prepared.pruned_pattern_rows == pruned_rows_upto(grid.entries@, grid.entries.len() as int)
        + pruned_rows_upto(all.entries@, all.entries.len() as int)
    &&& prepared.trimmed_rows == trimmed_rows_upto(grid.entries@, grid.entries.len() as int)
        + trimmed_rows_upto(all.entries@, all.entries.len() as int)
    &&& prepared.trimmed_rows <= 64 * (8 * nb_orders(song) + 45)
}

/// The marked song, with what playback does not reach dropped, is the prepared store.
proof fn lemma_prepared_store(song: &Song, all: PatternStore, kept: PatternStore)
    requires
        is_marked_song(song, all),
        is_trimmed(all, kept),
    ensures
        is_prepared_store(song, kept),
{
    assert forall|id: PatternId| #[trigger] kept.contains(id) == is_kept(song, id) by {
        assert(kept.contains(id) == (all.contains(id) && last_reachable(all.rows(id)) >= 0));
        assert(all.contains(id) == (if id is Pattern {
            is_kept(song, id)
        } else {
            is_song_subpattern(song, id)
        }));
        if all.contains(id) {
            assert(all.rows(id) == (if id is Pattern {
                kept_rows(song, id)
            } else {
                marked_rows(song, id)
            }));
            if id is Pattern {
                lemma_last_reachable_take(marked_rows(song, id));
            }
        }
    }
    assert forall|id: PatternId| kept.contains(id) implies #[trigger] kept.rows(id) == kept_rows(
        song,
        id,
    ) by {
        assert(kept.contains(id) == (all.contains(id) && last_reachable(all.rows(id)) >= 0));
        assert(all.rows(id) == (if id is Pattern {
            kept_rows(song, id)
        } else {
            marked_rows(song, id)
        }));
        assert(kept.rows(id) == all.rows(id).take(last_reachable(all.rows(id)) + 1));
        if id is Pattern {
            lemma_last_reachable_take(marked_rows(song, id));
        }
    }
}

fn orders_ok(song: &Song) -> (ok: bool)
    ensures
        ok == grid_wf(song),
{
    if song.order_matrix.len() == 0 {
        return false;
    }
    let mut order: usize = 0;
    while order < song.order_matrix.len()
        invariant
            order <= nb_orders(song),
            forall|o: int, channel: int|
                0 <= o < order && 0 <= channel < 4 ==> #[trigger] grid_pattern(song, o, channel)
                    < song.patterns.len(),
        decreases nb_orders(song) - order,
    {
        let row = &song.order_matrix[order];
        let nb_patterns = song.patterns.len();
        if row[0] >= nb_patterns || row[1] >= nb_patterns || row[2] >= nb_patterns || row[3]
            >= nb_patterns {
            proof {
                let channel: int = if row[0] >= nb_patterns {
                    0
                } else if row[1] >= nb_patterns {
                    1
                } else if row[2] >= nb_patterns {
                    2
                } else {
                    3
                };
                assert(!(grid_pattern(song, order as int, channel) < song.patterns.len()));
            }
            return false;
        }
        assert forall|o: int, channel: int|
            0 <= o < order + 1 && 0 <= channel < 4 implies #[trigger] grid_pattern(
            song,
            o,
            channel,
        ) < song.patterns.len() by {
            if o == order {
                assert(channel == 0 || channel == 1 || channel == 2 || channel == 3);
            }
        }
        order += 1;
    }
    true
}

/// Finds what playback reaches: collects the patterns, plays the main grid and then the
/// subpatterns of the instruments in use, and drops what playback does not reach.
fn prepare(song: &Song) -> (result: (Result<Prepared, SongFault>, Ghost<(PatternStore, PatternStore)>))
    ensures
        result.0 is Ok <==> song_playable(song),
        result.0 matches Ok(prepared) ==> prepares(song, result.1@.0, result.1@.1, prepared),
        result.0 matches Err(fault) ==> is_song_fault(song, fault),
{
    let ghost nothing: (PatternStore, PatternStore) = arbitrary();
    if !orders_ok(song) {
        return (Err(SongFault::BadOrderMatrix), Ghost(nothing));
    }
    if song.order_matrix.len() > MAX_ORDERS {
        return (Err(SongFault::TooManyOrders), Ghost(nothing));
    }
    let (grid_stage, Ghost(grid)) = prepare_grid(song);
    let GridStage { mut patterns, usage, mut pruned_patterns, mut pruned_pattern_rows, mut trimmed_rows } =
        match grid_stage {
        Ok(stage) => stage,
        Err(fault) => {
            return (Err(fault), Ghost(nothing));
        },
    };
    let mut used_waves = usage.3;
    collect_song_subpatterns(song, &mut patterns, usage);
    if let Some(fault) = mark_song_subpatterns(song, &mut patterns, &mut used_waves) {
        return (Err(fault), Ghost(nothing));
    }
    let ghost all = patterns;
    proof {
        lemma_trim_sums_bound(all.entries@, all.entries.len() as int);
    }
    trim_trailing_unreachable_rows(
        &mut patterns,
        &mut pruned_patterns,
        &mut pruned_pattern_rows,
        &mut trimmed_rows,
    );
    proof {
        lemma_prepared_store(song, all, patterns);
        lemma_trimmed_len(all, patterns);
        assert forall|i: int| 0 <= i < patterns.entries.len() implies (
        #[trigger] patterns.entries[i]).pattern.0.len() <= 64 by {
            let id = patterns.entries[i].id;
            patterns.lemma_index_of(i);
            assert(patterns.contains(id));
            assert(patterns.rows(id) == kept_rows(song, id));
            lemma_last_reachable(marked_rows(song, id));
        }
    }
    // The instruments bring their waves with them.
    if let Some(fault) = add_instrument_waves(song, usage.1, &mut used_waves) {
        return (Err(fault), Ghost(nothing));
    }
    let prepared = Prepared {
        patterns,
        used_duty_instrs: usage.0,
        used_wave_instrs: usage.1,
        used_noise_instrs: usage.2,
        used_waves,
        pruned_patterns,
        pruned_pattern_rows,
        trimmed_rows,
    };
    (Ok(prepared), Ghost((grid, all)))
}

/// Says whether the passes can work on the song, and if not, what is wrong with it.
pub fn check_song(song: &Song) -> (result: Result<(), SongFault>)
    ensures
        result is Ok <==> song_playable(song),
        result matches Err(fault) ==> is_song_fault(song, fault),
{
    match prepare(song).0 {
        Ok(_) => Ok(()),
        Err(fault) => Err(fault),
    }
}

/// What the passes make of a song: for the main grid and for the subpatterns a row pool and
/// the catalog of its cells, and the renumbering of the instruments of each family and of the
/// waves.
#[derive(Debug)]
pub struct OptimResults {
    pub main_row_pool: Vec<OutputCell>,
    pub main_cell_catalog: CellCatalog,
    pub subpat_row_pool: Vec<OutputCell>,
    pub subpat_cell_catalog: CellCatalog,
    pub duty_instr_usage: CompactedMapping<15>,
    pub wave_instr_usage: CompactedMapping<15>,
    pub noise_instr_usage: CompactedMapping<15>,
    pub wave_usage: CompactedMapping<16>,
}

/// What the passes spared, in numbers.
#[derive(Debug, Clone)]
pub struct OptimStats {
    pub duplicated_patterns: usize,
    pub overlapped_rows: usize,
    pub pruned_patterns: usize,
    pub pruned_pattern_rows: usize,
    pub trimmed_rows: usize,
    pub pruned_instrs: usize,
    pub pruned_instrs_bytes: usize,
    pub trimmed_waves: usize,
    pub saved_bytes_catalog: isize,
}

impl OptimStats {
    /// Bytes that the copies of patterns for several families cost: a pattern's 64 rows of 3
    /// bytes for each copy.
    pub fn wasted_bytes_duplicated_patterns(&self) -> (bytes: usize)
        requires
            self.duplicated_patterns * 192 <= usize::MAX,
        ensures
            bytes == self.duplicated_patterns * 192,
    {
        self.duplicated_patterns * 64 * 3
    }

    /// Bytes that the overlaps spare: 3 for each row.
    pub fn saved_bytes_overlapped_rows(&self) -> (bytes: usize)
        requires
            self.overlapped_rows * 3 <= usize::MAX,
        ensures
            bytes == self.overlapped_rows * 3,
    {
        self.overlapped_rows * 3
    }

    /// Bytes that the patterns dropped spare: 3 for each of their rows.
    pub fn saved_bytes_pruned_patterns(&self) -> (bytes: usize)
        requires
            self.pruned_pattern_rows * 3 <= usize::MAX,
        ensures
            bytes == self.pruned_pattern_rows * 3,
    {
        self.pruned_pattern_rows * 3
    }

    /// Bytes that the rows cut off spare: 3 for each.
    pub fn saved_bytes_trimmed_rows(&self) -> (bytes: usize)
        requires
            self.trimmed_rows * 3 <= usize::MAX,
        ensures
            bytes == self.trimmed_rows * 3,
    {
        self.trimmed_rows * 3
    }

    /// Bytes that the waves left out spare: 16 for each.
    pub fn saved_bytes_trimmed_waves(&self) -> (bytes: usize)
        requires
            self.trimmed_waves * 16 <= usize::MAX,
        ensures
            bytes == self.trimmed_waves * 16,
    {
        self.trimmed_waves * 16
    }

    /// The bytes spared in all, as a number that may be negative: what was spared less what
    /// the copies of patterns cost, and with what the catalogs save.
    pub open spec fn spec_total_saved_bytes(&self) -> int {
        self.overlapped_rows * 3 + self.pruned_pattern_rows * 3 + self.trimmed_rows * 3
            + self.pruned_instrs_bytes + self.trimmed_waves * 16 - self.duplicated_patterns * 192
            + self.saved_bytes_catalog
    }

    /// The numbers are small enough for the total to be a number of the machine.
    pub open spec fn countable(&self) -> bool {
        &&& self.overlapped_rows * 3 + self.pruned_pattern_rows * 3 + self.trimmed_rows * 3
            + self.pruned_instrs_bytes + self.trimmed_waves * 16 <= isize::MAX
        &&& self.duplicated_patterns * 192 <= isize::MAX
        &&& isize::MIN <= self.spec_total_saved_bytes() <= isize::MAX
    }

    pub fn total_saved_bytes(&self) -> (bytes: isize)
        requires
            self.countable(),
        ensures
            bytes == self.spec_total_saved_bytes(),
    {
        let saved = self.saved_bytes_overlapped_rows() + self.saved_bytes_pruned_patterns()
            + self.saved_bytes_trimmed_rows() + self.pruned_instrs_bytes
            + self.saved_bytes_trimmed_waves();
        let wasted = self.wasted_bytes_duplicated_patterns();
        let without_catalog = if saved >= wasted {
            (saved - wasted) as isize
        } else {
            -((wasted - saved) as isize)
        };
        without_catalog + self.saved_bytes_catalog
    }
}

/// The bytes that an instrument takes: its own, and with a subpattern the 32 rows of 3 bytes.
pub open spec fn instr_bytes(instrument: Instrument) -> int {
    instrument.kind.spec_data_size() + (if instrument.subpattern is Some {
        96int
    } else {
        0int
    })
}

/// The bytes that the instruments take which the table has in its slots from `from` up to
/// `upto`.
pub open spec fn freed_bytes(instruments: Seq<Instrument>, table: Seq<u8>, from: int, upto: int) -> int
    decreases upto - from,
{
    if upto <= from {
        0
    } else {
        freed_bytes(instruments, table, from, upto - 1) + instr_bytes(
            instruments[table[upto - 1] as int],
        )
    }
}

/// The bytes that the instruments left out spare.
fn saved_bytes_instrs(instruments: &[Instrument; 15], mapping: &CompactedMapping<15>) -> (bytes: usize)
    requires
        mapping.wf(),
    ensures
        bytes == freed_bytes(instruments@, mapping.0@, mapping.watermark(), 15),
        bytes <= 102 * 15,
{
    let mut bytes: usize = 0;
    let mut slot: usize = mapping.1;
    while slot < 15
        invariant
            mapping.wf(),
            mapping.1 <= slot <= 15,
            bytes == freed_bytes(instruments@, mapping.0@, mapping.watermark(), slot as int),
            bytes <= 102 * slot,
        decreases 15 - slot,
    {
        let instrument = &instruments[mapping.0[slot] as usize];
        let subpattern_bytes: usize = match &instrument.subpattern {
            Some(_) => 96,
            None => 0,
        };
        bytes = bytes + instrument.kind.data_size() + subpattern_bytes;
        slot += 1;
    }
    bytes
}

/// The pattern at place `i` is a copy of a pattern of the main grid of which the store has a
/// copy at an earlier place.
pub open spec fn is_duplicate(entries: Seq<PatternEntry>, i: int) -> bool {
    entries[i].id is Pattern && exists|j: int|
        0 <= j < i && (#[trigger] entries[j]).id is Pattern && entries[j].id.spec_index()
            == entries[i].id.spec_index()
}

/// The number of such copies among the first `upto` patterns.
pub open spec fn duplicates_upto(entries: Seq<PatternEntry>, upto: int) -> int
    decreases upto,
{
    if upto <= 0 {
        0
    } else {
        duplicates_upto(entries, upto - 1) + (if is_duplicate(entries, upto - 1) {
            1int
        } else {
            0int
        })
    }
}

/// Counts the copies of patterns of the main grid beyond the first of each.
fn count_duplicates(patterns: &PatternStore, nb_patterns: usize) -> (count: usize)
    requires
        forall|i: int|
            0 <= i < patterns.entries.len() && (#[trigger] patterns.entries[i]).id is Pattern
                ==> patterns.entries[i].id.spec_index() < nb_patterns,
    ensures
        count == duplicates_upto(patterns.entries@, patterns.entries.len() as int),
        count <= patterns.entries.len(),
{
    let mut seen: Vec<bool> = Vec::new();
    while seen.len() < nb_patterns
        invariant
            seen.len() <= nb_patterns,
            forall|x: int| 0 <= x < seen.len() ==> !#[trigger] seen[x],
        decreases nb_patterns - seen.len(),
    {
        seen.push(false);
    }
    let mut count: usize = 0;
    let mut i: usize = 0;
    while i < patterns.entries.len()
        invariant
            i <= patterns.entries.len(),
            seen.len() == nb_patterns,
            forall|k: int|
                0 <= k < patterns.entries.len() && (#[trigger] patterns.entries[k]).id is Pattern
                    ==> patterns.entries[k].id.spec_index() < nb_patterns,
            forall|x: int|
                0 <= x < nb_patterns ==> #[trigger] seen[x] == (exists|j: int|
                    0 <= j < i && (#[trigger] patterns.entries[j]).id is Pattern
                        && patterns.entries[j].id.spec_index() == x),
            count == duplicates_upto(patterns.entries@, i as int),
            count <= i,
        decreases patterns.entries.len() - i,
    {
        let ghost seen_before = seen@;
        match patterns.entries[i].id {
            PatternId::Pattern(_, index) => {
                if seen[index] {
                    count += 1;
                } else {
                    seen.set(index, true);
                }
                proof {
                    assert forall|x: int| 0 <= x < nb_patterns implies #[trigger] seen[x] == (
                    exists|j: int|
                        0 <= j < i + 1 && (#[trigger] patterns.entries[j]).id is Pattern
                            && patterns.entries[j].id.spec_index() == x) by {
                        if seen_before[x] {
                            let j = choose|j: int|
                                0 <= j < i && (#[trigger] patterns.entries[j]).id is Pattern
                                    && patterns.entries[j].id.spec_index() == x;
                            assert(0 <= j < i + 1 && patterns.entries[j].id is Pattern
                                && patterns.entries[j].id.spec_index() == x);
                        }
                        if x == index {
                            assert(0 <= i < i + 1 && patterns.entries[i as int].id is Pattern
                                && patterns.entries[i as int].id.spec_index() == x);
                        }
                    }
                }
            },
            PatternId::Subpattern(..) => {
                proof {
                    assert forall|x: int| 0 <= x < nb_patterns implies #[trigger] seen[x] == (
                    exists|j: int|
                        0 <= j < i + 1 && (#[trigger] patterns.entries[j]).id is Pattern
                            && patterns.entries[j].id.spec_index() == x) by {
                        if seen_before[x] {
                            let j = choose|j: int|
                                0 <= j < i && (#[trigger] patterns.entries[j]).id is Pattern
                                    && patterns.entries[j].id.spec_index() == x;
                            assert(0 <= j < i + 1 && patterns.entries[j].id is Pattern
                                && patterns.entries[j].id.spec_index() == x);
                        }
                    }
                }
            },
        }
        i += 1;
    }
    count
}

/// The table by which the instruments of a family are renumbered.
pub open spec fn instr_table(tables: (Seq<u8>, Seq<u8>, Seq<u8>, Seq<u8>), kind: InstrKind) -> Seq<u8> {
    match kind {
        InstrKind::Duty => tables.0,
        InstrKind::Wave => tables.1,
        InstrKind::Noise => tables.2,
    }
}

/// A row of the pattern `id` after the renumbering: in a pattern of the main grid the
/// instrument goes by its new number, and in a pattern of the wave family the wave that the
/// timbre changes to goes by its new number.
pub open spec fn renumbered_row(
    row: AnnotatedCell,
    id: PatternId,
    tables: (Seq<u8>, Seq<u8>, Seq<u8>, Seq<u8>),
) -> AnnotatedCell {
    with_new_wave(
        if id is Pattern {
            with_new_instr(row, instr_table(tables, id.spec_kind()))
        } else {
            row
        },
        id,
        tables.3,
    )
}

/// The store holds the patterns that playback reaches, each cut after the last row that
/// playback reaches, each row marked if playback reaches it, and renumbered by the tables.
pub open spec fn is_final_store(
    song: &Song,
    store: PatternStore,
    tables: (Seq<u8>, Seq<u8>, Seq<u8>, Seq<u8>),
) -> bool {
    &&& store.wf()
    &&& forall|id: PatternId| #[trigger] store.contains(id) == is_kept(song, id)
    &&& forall|id: PatternId|
        store.contains(id) ==> (#[trigger] store.rows(id)).len() == kept_rows(song, id).len()
    &&& forall|id: PatternId, r: int|
        store.contains(id) && 0 <= r < kept_rows(song, id).len() ==> #[trigger] store.rows(id)[r]
            == renumbered_row(kept_rows(song, id)[r], id, tables)
}

/// The store can be renumbered: the tables have a new number for each instrument and each
/// wave that a reached row names.
spec fn can_renumber(store: PatternStore, tables: (Seq<u8>, Seq<u8>, Seq<u8>, Seq<u8>)) -> bool {
    &&& forall|i: int, r: int|
        0 <= i < store.entries.len() && 0 <= r < store.entries[i].pattern.0.len()
            && store.entries[i].id is Pattern ==> has_new_instr(
            #[trigger] store.entries[i].pattern.0[r],
            instr_table(tables, store.entries[i].id.spec_kind()),
        )
    &&& forall|i: int, r: int|
        0 <= i < store.entries.len() && 0 <= r < store.entries[i].pattern.0.len()
            ==> has_new_wave(
            #[trigger] store.entries[i].pattern.0[r],
            store.entries[i].id,
            tables.3,
        )
}

/// `after` is `before` renumbered by the tables.
spec fn is_renumbered(
    before: PatternStore,
    after: PatternStore,
    tables: (Seq<u8>, Seq<u8>, Seq<u8>, Seq<u8>),
) -> bool {
    &&& after.entries.len() == before.entries.len()
    &&& forall|i: int|
        0 <= i < before.entries.len() ==> (#[trigger] after.entries[i]).id == before.entries[i].id
            && after.entries[i].pattern.0.len() == before.entries[i].pattern.0.len()
    &&& forall|i: int, r: int|
        0 <= i < before.entries.len() && 0 <= r < before.entries[i].pattern.0.len()
            ==> #[trigger] after.entries[i].pattern.0[r] == renumbered_row(
            before.entries[i].pattern.0[r],
            before.entries[i].id,
            tables,
        )
}

/// Rewrites, in the patterns of the main grid, the instruments that the reached rows name.
fn renumber_instruments(
    patterns: &mut PatternStore,
    duty: &[u8; 15],
    wave: &[u8; 15],
    noise: &[u8; 15],
    Ghost(tables): Ghost<(Seq<u8>, Seq<u8>, Seq<u8>, Seq<u8>)>,
)
    requires
        tables.0 == duty@,
        tables.1 == wave@,
        tables.2 == noise@,
        can_renumber(*old(patterns), tables),
    ensures
        final(patterns).entries.len() == old(patterns).entries.len(),
        forall|i: int|
            0 <= i < old(patterns).entries.len() ==> (#[trigger] final(patterns).entries[i]).id
                == old(patterns).entries[i].id && final(patterns).entries[i].pattern.0.len()
                == old(patterns).entries[i].pattern.0.len(),
        forall|i: int, r: int|
            0 <= i < old(patterns).entries.len() && 0 <= r < old(
                patterns,
            ).entries[i].pattern.0.len() ==> #[trigger] final(patterns).entries[i].pattern.0[r]
                == (if old(patterns).entries[i].id is Pattern {
                with_new_instr(
                    old(patterns).entries[i].pattern.0[r],
                    instr_table(tables, old(patterns).entries[i].id.spec_kind()),
                )
            } else {
                old(patterns).entries[i].pattern.0[r]
            }),
{
    let total = patterns.entries.len();
    let mut i: usize = 0;
    while i < total
        invariant
            i <= total,
            total == old(patterns).entries.len(),
            patterns.entries.len() == total,
            tables.0 == duty@,
            tables.1 == wave@,
            tables.2 == noise@,
            can_renumber(*old(patterns), tables),
            forall|k: int|
                0 <= k < total ==> (#[trigger] patterns.entries[k]).id == old(
                    patterns,
                ).entries[k].id && patterns.entries[k].pattern.0.len() == old(
                    patterns,
                ).entries[k].pattern.0.len(),
            forall|k: int, r: int|
                0 <= k < i && 0 <= r < old(patterns).entries[k].pattern.0.len()
                    ==> #[trigger] patterns.entries[k].pattern.0[r] == (if old(
                    patterns,
                ).entries[k].id is Pattern {
                    with_new_instr(
                        old(patterns).entries[k].pattern.0[r],
                        instr_table(tables, old(patterns).entries[k].id.spec_kind()),
                    )
                } else {
                    old(patterns).entries[k].pattern.0[r]
                }),
            forall|k: int| i <= k < total ==> #[trigger] patterns.entries[k] == old(
                patterns,
            ).entries[k],
        decreases total - i,
    {
        let ghost before = *patterns;
        match patterns.entries[i].id {
            PatternId::Pattern(kind, _) => {
                let table = match kind {
                    InstrKind::Duty => duty,
                    InstrKind::Wave => wave,
                    InstrKind::Noise => noise,
                };
                assert(table@ == instr_table(tables, kind));
                assert forall|r: int|
                    0 <= r < patterns.entries[i as int].pattern.0.len() implies has_new_instr(
                    #[trigger] patterns.entries[i as int].pattern.0[r],
                    table@,
                ) by {
                    assert(has_new_instr(
                        old(patterns).entries[i as int].pattern.0[r],
                        instr_table(tables, old(patterns).entries[i as int].id.spec_kind()),
                    ));
                }
                remap_instrs(&mut patterns.entries[i].pattern, table);
            },
            PatternId::Subpattern(..) => {},
        }
        proof {
            assert forall|k: int| 0 <= k < total implies (#[trigger] patterns.entries[k]).id
                == old(patterns).entries[k].id && patterns.entries[k].pattern.0.len() == old(
                patterns,
            ).entries[k].pattern.0.len() by {
                assert(before.entries[k].id == old(patterns).entries[k].id);
            }
            assert forall|k: int, r: int|
                0 <= k < i + 1 && 0 <= r < old(
                    patterns,
                ).entries[k].pattern.0.len() implies #[trigger] patterns.entries[k].pattern.0[r]
                == (if old(patterns).entries[k].id is Pattern {
                with_new_instr(
                    old(patterns).entries[k].pattern.0[r],
                    instr_table(tables, old(patterns).entries[k].id.spec_kind()),
                )
            } else {
                old(patterns).entries[k].pattern.0[r]
            }) by {
                if k < i {
                    assert(patterns.entries[k] == before.entries[k]);
                    assert(before.entries[k].pattern.0[r] == (if old(patterns).entries[k].id
                        is Pattern {
                        with_new_instr(
                            old(patterns).entries[k].pattern.0[r],
                            instr_table(tables, old(patterns).entries[k].id.spec_kind()),
                        )
                    } else {
                        old(patterns).entries[k].pattern.0[r]
                    }));
                }
            }
            assert forall|k: int| i + 1 <= k < total implies #[trigger] patterns.entries[k] == old(
                patterns,
            ).entries[k] by {
                assert(patterns.entries[k] == before.entries[k]);
            }
        }
        i += 1;
    }
}

/// Rewrites the instruments and the waves that the reached rows name.
fn renumber(
    patterns: &mut PatternStore,
    duty: &[u8; 15],
    wave: &[u8; 15],
    noise: &[u8; 15],
    waves: &[u8; 16],
    Ghost(tables): Ghost<(Seq<u8>, Seq<u8>, Seq<u8>, Seq<u8>)>,
)
    requires
        tables == (duty@, wave@, noise@, waves@),
        can_renumber(*old(patterns), tables),
    ensures
        is_renumbered(*old(patterns), *final(patterns), tables),
{
    renumber_instruments(patterns, duty, wave, noise, Ghost(tables));
    let ghost with_instrs = *patterns;
    proof {
        assert forall|i: int, r: int|
            0 <= i < patterns.entries.len() && 0 <= r
                < patterns.entries[i].pattern.0.len() implies has_new_wave(
            #[trigger] patterns.entries[i].pattern.0[r],
            patterns.entries[i].id,
            waves@,
        ) by {
            assert(has_new_wave(
                old(patterns).entries[i].pattern.0[r],
                old(patterns).entries[i].id,
                tables.3,
            ));
        }
    }
    remap_waves(patterns, waves);
    proof {
        assert forall|i: int, r: int|
            0 <= i < old(patterns).entries.len() && 0 <= r < old(
                patterns,
            ).entries[i].pattern.0.len() implies #[trigger] patterns.entries[i].pattern.0[r]
            == renumbered_row(
            old(patterns).entries[i].pattern.0[r],
            old(patterns).entries[i].id,
            tables,
        ) by {
            assert(with_instrs.entries[i].id == old(patterns).entries[i].id);
            assert(patterns.entries[i].pattern.0[r] == with_new_wave(
                with_instrs.entries[i].pattern.0[r],
                with_instrs.entries[i].id,
                waves@,
            ));
        }
    }
}

/// The tables of the renumberings: those of the duty, wave and noise instruments, and that of
/// the waves.
pub open spec fn tables_of(results: OptimResults) -> (Seq<u8>, Seq<u8>, Seq<u8>, Seq<u8>) {
    (
        results.duty_instr_usage.0@,
        results.wave_instr_usage.0@,
        results.noise_instr_usage.0@,
        results.wave_usage.0@,
    )
}

/// `results` and `stats` are what the passes make of the song. `grid` is the marked grid and
/// `all` the marked song, from which the passes dropped what playback does not reach; `store`
/// holds the patterns that they kept, renumbered; and the masks of `usage` say which
/// instruments of the duty, wave and noise family and which waves are in use.
pub open spec fn optimises(
    song: &Song,
    grid: PatternStore,
    all: PatternStore,
    store: PatternStore,
    usage: (u16, u16, u16, u16),
    results: OptimResults,
    stats: OptimStats,
) -> bool {
    let main = overlap_plan(store, ids_of_group(store.ids(), true));
    let sub = overlap_plan(store, ids_of_group(store.ids(), false));
    &&& is_marked_grid(song, grid)
    &&& is_marked_song(song, all)
    &&& is_instr_usage(song, InstrKind::Duty, usage.0)
    &&& is_instr_usage(song, InstrKind::Wave, usage.1)
    &&& is_instr_usage(song, InstrKind::Noise, usage.2)
    &&& is_song_waves(song, usage.3)
    &&& is_compaction(results.duty_instr_usage.0@, results.duty_instr_usage.watermark(), usage.0)
    &&& is_compaction(results.wave_instr_usage.0@, results.wave_instr_usage.watermark(), usage.1)
    &&& is_compaction(
        results.noise_instr_usage.0@,
        results.noise_instr_usage.watermark(),
        usage.2,
    )
    &&& is_compaction(results.wave_usage.0@, results.wave_usage.watermark(), usage.3)
    &&& is_final_store(song, store, tables_of(results))
    &&& results.main_row_pool@ == pool_output(store, main.0, pool_len(store, main.0))
    &&& results.main_cell_catalog.cells@ == catalog_upto(store, main.0, pool_len(store, main.0))
    &&& results.subpat_row_pool@ == pool_output(store, sub.0, pool_len(store, sub.0))
    &&& results.subpat_cell_catalog.cells@ == catalog_upto(store, sub.0, pool_len(store, sub.0))
    &&& stats.duplicated_patterns == duplicates_upto(store.entries@, store.entries.len() as int)
    &&& stats.overlapped_rows == main.1 + sub.1
    &&& pool_len(store, main.0) + main.1 == total_rows(store, main.0)
    &&& pool_len(store, sub.0) + sub.1 == total_rows(store, sub.0)
    &&& stats.pruned_patterns == pruned_patterns_upto(grid.entries@, grid.entries.len() as int)
        + pruned_patterns_upto(all.entries@, all.entries.len() as int)
    &&& stats.pruned_pattern_rows == pruned_rows_upto(grid.entries@, grid.entries.len() as int)
        + pruned_rows_upto(all.entries@, all.entries.len() as int)
    &&& stats.trimmed_rows == trimmed_rows_upto(grid.entries@, grid.entries.len() as int)
        + trimmed_rows_upto(all.entries@, all.entries.len() as int)
    &&& stats.pruned_instrs == (15 - results.duty_instr_usage.watermark()) + (15
        - results.wave_instr_usage.watermark()) + (15 - results.noise_instr_usage.watermark())
    &&& stats.pruned_instrs_bytes == freed_bytes(
        song.instruments.duty@,
        results.duty_instr_usage.0@,
        results.duty_instr_usage.watermark(),
        15,
    ) + freed_bytes(
        song.instruments.wave@,
        results.wave_instr_usage.0@,
        results.wave_instr_usage.watermark(),
        15,
    ) + freed_bytes(
        song.instruments.noise@,
        results.noise_instr_usage.0@,
        results.noise_instr_usage.watermark(),
        15,
    )
    &&& stats.trimmed_waves == 16 - results.wave_usage.watermark()
    &&& stats.saved_bytes_catalog == catalog_savings(store, main.0) + catalog_savings(store, sub.0)
}

/// `results` and `stats` are what the passes make of the song.
pub open spec fn optimised(song: &Song, results: OptimResults, stats: OptimStats) -> bool {
    exists|grid: PatternStore, all: PatternStore, store: PatternStore, usage: (u16, u16, u16, u16)| #[trigger]
        optimises(song, grid, all, store, usage, results, stats)
}

/// A cell of the main grid that playback reaches is one that playback can take.
pub proof fn lemma_reached_cell(song: &Song, id: PatternId, row: int)
    requires
        walk_safe(song),
        id is Pattern,
        grid_reaches(song, id, row),
    ensures
        0 <= row < 64,
        id.spec_index() < song.patterns.len(),
        song.patterns[id.spec_index() as int][row].instrument < 16,
        song.patterns[id.spec_index() as int][row].effect_code == EffectId::PatternBreak ==> 1
            <= song.patterns[id.spec_index() as int][row].effect_param <= 64,
        id.spec_kind() == InstrKind::Wave && song.patterns[id.spec_index() as int][row].effect_code
            == EffectId::ChangeTimbre ==> song.patterns[id.spec_index() as int][row].effect_param
            < 16,
{
    let steps = choose|steps: nat|
        row_touches(song, (#[trigger] walk_at(song, steps)).0, walk_at(song, steps).1, id, row);
    assert(step_ok(song, steps));
    let at = walk_at(song, steps);
    let channel: int = if grid_id(song, at.0, 0) == id {
        0
    } else if grid_id(song, at.0, 1) == id {
        1
    } else if grid_id(song, at.0, 2) == id {
        2
    } else {
        3
    };
    assert(grid_id(song, at.0, channel) == id);
    assert(cell_fault(song, at.0, channel, row) is None);
    assert(grid_pattern(song, at.0, channel) < song.patterns.len());
}

/// No cell that playback reaches plays an instrument beyond the fifteenth.
proof fn lemma_no_sixteenth(song: &Song, kind: InstrKind, mask: u16)
    requires
        walk_safe(song),
        is_instr_usage(song, kind, mask),
    ensures
        forall|i: int| 15 <= i < 16 ==> !bit16(mask, i),
{
    if grid_uses_instr(song, kind, 16) {
        let steps = choose|steps: nat|
            row_uses_instr(
                song,
                (#[trigger] walk_at(song, steps)).0,
                walk_at(song, steps).1,
                kind,
                16,
            );
        assert(step_ok(song, steps));
        let at = walk_at(song, steps);
        assert(cell_fault(song, at.0, 0, at.1) is None);
        assert(cell_fault(song, at.0, 1, at.1) is None);
        assert(cell_fault(song, at.0, 2, at.1) is None);
        assert(cell_fault(song, at.0, 3, at.1) is None);
    }
    assert(bit16(mask, 15) == grid_uses_instr(song, kind, 15int + 1));
}

/// The store of the patterns that playback reaches can be renumbered by the tables of
/// compactions.
proof fn lemma_can_renumber(
    song: &Song,
    store: PatternStore,
    tables: (Seq<u8>, Seq<u8>, Seq<u8>, Seq<u8>),
)
    requires
        song_playable(song),
        is_prepared_store(song, store),
        tables.0.len() == 15 && tables.1.len() == 15 && tables.2.len() == 15 && tables.3.len()
            == 16,
        forall|i: int| 0 <= i < 15 ==> (#[trigger] tables.0[i]) < 15,
        forall|i: int| 0 <= i < 15 ==> (#[trigger] tables.1[i]) < 15,
        forall|i: int| 0 <= i < 15 ==> (#[trigger] tables.2[i]) < 15,
    ensures
        can_renumber(store, tables),
{
    assert forall|i: int, r: int|
        0 <= i < store.entries.len() && 0 <= r < store.entries[i].pattern.0.len()
            && store.entries[i].id is Pattern implies has_new_instr(
        #[trigger] store.entries[i].pattern.0[r],
        instr_table(tables, store.entries[i].id.spec_kind()),
    ) by {
        let id = store.entries[i].id;
        store.lemma_index_of(i);
        assert(store.rows(id) == kept_rows(song, id));
        lemma_last_reachable(marked_rows(song, id));
        let row = store.entries[i].pattern.0[r];
        assert(row == marked_rows(song, id)[r]);
        if row.reachable {
            lemma_reached_cell(song, id, r);
            let table = instr_table(tables, id.spec_kind());
            let instrument = song.patterns[id.spec_index() as int][r].instrument;
            if instrument != 0 {
                assert(table[instrument - 1] < 15);
            }
        }
    }
    assert forall|i: int, r: int|
        0 <= i < store.entries.len() && 0 <= r
            < store.entries[i].pattern.0.len() implies has_new_wave(
        #[trigger] store.entries[i].pattern.0[r],
        store.entries[i].id,
        tables.3,
    ) by {
        let id = store.entries[i].id;
        store.lemma_index_of(i);
        assert(store.rows(id) == kept_rows(song, id));
        lemma_last_reachable(marked_rows(song, id));
        let row = store.entries[i].pattern.0[r];
        assert(row == marked_rows(song, id)[r]);
        if row.reachable && id.spec_kind() == InstrKind::Wave {
            if id is Pattern {
                lemma_reached_cell(song, id, r);
            } else {
                assert(is_kept(song, id));
                assert(is_song_subpattern(song, id));
                let rows = sub_rows_of(song, id);
                assert(sub_walk_safe(id, rows));
                let steps = choose|steps: nat| #[trigger] sub_walk_at(rows, steps) == r;
                assert(sub_step_ok(id, rows, steps));
                assert(sub_row_fault(id, rows, r) is None);
            }
        }
    }
}

/// The prepared store, renumbered, is the final store.
proof fn lemma_final_store(
    song: &Song,
    before: PatternStore,
    after: PatternStore,
    tables: (Seq<u8>, Seq<u8>, Seq<u8>, Seq<u8>),
)
    requires
        grid_wf(song),
        is_prepared_store(song, before),
        is_renumbered(before, after, tables),
        ends_reachable(before),
        forall|i: int|
            0 <= i < before.entries.len() ==> (#[trigger] before.entries[i]).pattern.0.len() <= 64,
        before.entries.len() * 64 <= usize::MAX,
    ensures
        is_final_store(song, after, tables),
        store_ok(after),
        forall|i: int|
            0 <= i < after.entries.len() && (#[trigger] after.entries[i]).id is Pattern ==> (
            after.entries[i].id.spec_index() < song.patterns.len()),
{
    assert forall|i: int, j: int| 0 <= i < j < after.entries.len() implies (
    #[trigger] after.entries[i]).id.precedes((#[trigger] after.entries[j]).id) by {
        assert(before.entries[i].id.precedes(before.entries[j].id));
    }
    assert forall|id: PatternId| #[trigger] after.contains(id) == is_kept(song, id) by {
        assert(before.contains(id) == is_kept(song, id));
        if before.contains(id) {
            assert(after.entries[before.index_of(id)].id == id);
        }
        if after.contains(id) {
            assert(before.entries[after.index_of(id)].id == id);
        }
    }
    assert forall|id: PatternId| after.contains(id) implies (#[trigger] after.rows(id)).len()
        == kept_rows(song, id).len() by {
        let k = after.index_of(id);
        after.lemma_index_of(k);
        before.lemma_index_of(k);
        assert(before.rows(id) == kept_rows(song, id));
    }
    assert forall|id: PatternId, r: int|
        after.contains(id) && 0 <= r < kept_rows(song, id).len() implies #[trigger] after.rows(
        id,
    )[r] == renumbered_row(kept_rows(song, id)[r], id, tables) by {
        let k = after.index_of(id);
        after.lemma_index_of(k);
        before.lemma_index_of(k);
        assert(before.rows(id) == kept_rows(song, id));
        assert(after.entries[k].pattern.0[r] == renumbered_row(
            before.entries[k].pattern.0[r],
            before.entries[k].id,
            tables,
        ));
    }
    assert forall|i: int| 0 <= i < after.entries.len() implies 1 <= (
    #[trigger] after.entries[i]).pattern.0.len() <= 64 by {
        assert(before.entries[i].pattern.0.len() >= 1);
    }
    assert forall|i: int|
        0 <= i < after.entries.len() && (#[trigger] after.entries[i]).id is Pattern implies (
    after.entries[i].id.spec_index() < song.patterns.len()) by {
        let id = after.entries[i].id;
        after.lemma_index_of(i);
        assert(after.contains(id));
        assert(is_kept(song, id));
        assert(named_in_grid(song, id));
        lemma_named_is_in_range(song, id);
    }
}

/// Each row of the final store that playback reaches has a cell with a first byte.
proof fn lemma_final_rows_encodable(
    song: &Song,
    store: PatternStore,
    tables: (Seq<u8>, Seq<u8>, Seq<u8>, Seq<u8>),
)
    requires
        song_playable(song),
        is_final_store(song, store, tables),
    ensures
        reached_rows_encodable(store),
{
    assert forall|i: int, r: int|
        0 <= i < store.entries.len() && 0 <= r < store.entries[i].pattern.0.len() && (
        #[trigger] store.entries[i].pattern.0[r]).reachable implies store.entries[i].pattern.0[r].cell.encodable() by {
        let id = store.entries[i].id;
        store.lemma_index_of(i);
        assert(store.contains(id));
        assert(is_kept(song, id));
        lemma_last_reachable(marked_rows(song, id));
        let before = kept_rows(song, id)[r];
        assert(store.rows(id)[r] == renumbered_row(before, id, tables));
        assert(before == marked_rows(song, id)[r]);
        if id is Pattern {
            lemma_reached_cell(song, id, r);
        } else {
            assert(is_song_subpattern(song, id));
            let rows = sub_rows_of(song, id);
            assert(sub_walk_safe(id, rows));
            let steps = choose|steps: nat| #[trigger] sub_walk_at(rows, steps) == r;
            assert(sub_step_ok(id, rows, steps));
            assert(sub_row_fault(id, rows, r) is None);
        }
    }
}

proof fn lemma_named_is_in_range(song: &Song, id: PatternId)
    requires
        named_in_grid(song, id),
        orders_in_range(song) || grid_wf(song),
    ensures
        id is Pattern,
        id.spec_index() < song.patterns.len(),
{
    let (order, channel) = choose|order: int, channel: int|
        0 <= order < nb_orders(song) && 0 <= channel < 4 && #[trigger] grid_id(
            song,
            order,
            channel,
        ) == id;
    assert(grid_pattern(song, order, channel) < song.patterns.len());
}

/// The renumberings of the instruments of each family and of the waves.
struct Renumberings {
    duty: CompactedMapping<15>,
    wave: CompactedMapping<15>,
    noise: CompactedMapping<15>,
    waves: CompactedMapping<16>,
}

impl Renumberings {
    spec fn tables(&self) -> (Seq<u8>, Seq<u8>, Seq<u8>, Seq<u8>) {
        (self.duty.0@, self.wave.0@, self.noise.0@, self.waves.0@)
    }
}

/// Leaves out the instruments and the waves that playback never reaches, and closes the ranks.
fn compact_usage(song: &Song, usage: (u16, u16, u16, u16)) -> (renumberings: Renumberings)
    requires
        walk_safe(song),
        is_instr_usage(song, InstrKind::Duty, usage.0),
        is_instr_usage(song, InstrKind::Wave, usage.1),
        is_instr_usage(song, InstrKind::Noise, usage.2),
    ensures
        is_compaction(renumberings.duty.0@, renumberings.duty.watermark(), usage.0),
        is_compaction(renumberings.wave.0@, renumberings.wave.watermark(), usage.1),
        is_compaction(renumberings.noise.0@, renumberings.noise.watermark(), usage.2),
        is_compaction(renumberings.waves.0@, renumberings.waves.watermark(), usage.3),
        renumberings.duty.wf(),
        renumberings.wave.wf(),
        renumberings.noise.wf(),
        renumberings.waves.wf(),
{
    proof {
        lemma_no_sixteenth(song, InstrKind::Duty, usage.0);
        lemma_no_sixteenth(song, InstrKind::Wave, usage.1);
        lemma_no_sixteenth(song, InstrKind::Noise, usage.2);
    }
    Renumberings {
        duty: compacted_mapping_from_mask::<15>(usage.0),
        wave: compacted_mapping_from_mask::<15>(usage.1),
        noise: compacted_mapping_from_mask::<15>(usage.2),
        waves: compacted_mapping_from_mask::<16>(usage.3),
    }
}

/// Rewrites the instruments and the waves that the reached rows of the prepared store name.
fn renumber_song(song: &Song, patterns: &mut PatternStore, renumberings: &Renumberings)
    requires
        song_playable(song),
        is_prepared_store(song, *old(patterns)),
        ends_reachable(*old(patterns)),
        forall|i: int|
            0 <= i < old(patterns).entries.len() ==> (
            #[trigger] old(patterns).entries[i]).pattern.0.len() <= 64,
        old(patterns).entries.len() <= 4 * nb_orders(song) + 45,
        renumberings.duty.wf(),
        renumberings.wave.wf(),
        renumberings.noise.wf(),
    ensures
        is_final_store(song, *final(patterns), renumberings.tables()),
        store_ok(*final(patterns)),
        reached_rows_encodable(*final(patterns)),
        final(patterns).entries.len() == old(patterns).entries.len(),
        forall|i: int|
            0 <= i < final(patterns).entries.len() && (
            #[trigger] final(patterns).entries[i]).id is Pattern ==> (
            final(patterns).entries[i].id.spec_index() < song.patterns.len()),
{
    let ghost kept = *patterns;
    let ghost tables = renumberings.tables();
    proof {
        lemma_can_renumber(song, kept, tables);
    }
    renumber(
        patterns,
        &renumberings.duty.0,
        &renumberings.wave.0,
        &renumberings.noise.0,
        &renumberings.waves.0,
        Ghost(tables),
    );
    proof {
        lemma_final_store(song, kept, *patterns, tables);
        lemma_final_rows_encodable(song, *patterns, tables);
    }
}

/// The two row pools and their catalogs, with the number of rows that the pools spare and the
/// number of bytes that the catalogs save.
struct Layout {
    main_row_pool: Vec<OutputCell>,
    main_cell_catalog: CellCatalog,
    subpat_row_pool: Vec<OutputCell>,
    subpat_cell_catalog: CellCatalog,
    overlapped_rows: usize,
    saved_bytes_catalog: isize,
}

/// `layout` is what the search and the laying out make of the store.
spec fn lays_out(store: PatternStore, layout: Layout) -> bool {
    let main = overlap_plan(store, ids_of_group(store.ids(), true));
    let sub = overlap_plan(store, ids_of_group(store.ids(), false));
    &&& layout.main_row_pool@ == pool_output(store, main.0, pool_len(store, main.0))
    &&& layout.main_cell_catalog.cells@ == catalog_upto(store, main.0, pool_len(store, main.0))
    &&& layout.subpat_row_pool@ == pool_output(store, sub.0, pool_len(store, sub.0))
    &&& layout.subpat_cell_catalog.cells@ == catalog_upto(store, sub.0, pool_len(store, sub.0))
    &&& layout.overlapped_rows == main.1 + sub.1
    &&& pool_len(store, main.0) + main.1 == total_rows(store, main.0)
    &&& pool_len(store, sub.0) + sub.1 == total_rows(store, sub.0)
    &&& layout.saved_bytes_catalog == catalog_savings(store, main.0) + catalog_savings(store, sub.0)
    &&& layout.main_cell_catalog.wf()
    &&& layout.subpat_cell_catalog.wf()
    &&& reached_rows_encodable(store) ==> all_encodable(layout.main_cell_catalog.cells@)
        && all_encodable(layout.subpat_cell_catalog.cells@)
}

/// Overlaps the patterns of the store into two row pools, and catalogs the cells of each.
fn lay_out(patterns: &PatternStore) -> (layout: Layout)
    requires
        store_ok(*patterns),
        patterns.entries.len() <= 4 * MAX_ORDERS + 45,
    ensures
        lays_out(*patterns, layout),
{
    let (main_row_pool_builder, subpat_row_pool_builder, overlapped_rows) = find_pattern_overlap(
        patterns,
    );
    proof {
        lemma_ids_of_group(patterns.ids(), true);
        lemma_ids_of_group(patterns.ids(), false);
        lemma_group_ok(*patterns, true);
        lemma_group_ok(*patterns, false);
        lemma_total_rows_bound(
            *patterns,
            ids_of_group(patterns.ids(), true),
            main_row_pool_builder.ordering@,
        );
        lemma_total_rows_bound(
            *patterns,
            ids_of_group(patterns.ids(), false),
            subpat_row_pool_builder.ordering@,
        );
    }
    let (main_row_pool, main_cell_catalog, main_saved_bytes_catalog) = generate_row_pool(
        main_row_pool_builder,
    );
    let (subpat_row_pool, subpat_cell_catalog, subpat_saved_bytes_catalog) = generate_row_pool(
        subpat_row_pool_builder,
    );
    proof {
        let main = overlap_plan(*patterns, ids_of_group(patterns.ids(), true));
        let sub = overlap_plan(*patterns, ids_of_group(patterns.ids(), false));
        crate::optimise::overlapping::lemma_catalog_savings_bound(*patterns, main.0);
        crate::optimise::overlapping::lemma_catalog_savings_bound(*patterns, sub.0);
        if reached_rows_encodable(*patterns) {
            lemma_catalog_is_encodable(*patterns, main.0, pool_len(*patterns, main.0));
            lemma_catalog_is_encodable(*patterns, sub.0, pool_len(*patterns, sub.0));
        }
    }
    Layout {
        main_row_pool,
        main_cell_catalog,
        subpat_row_pool,
        subpat_cell_catalog,
        overlapped_rows,
        saved_bytes_catalog: main_saved_bytes_catalog + subpat_saved_bytes_catalog,
    }
}

/// Makes of the song what the playback routine needs: finds what playback reaches, drops the
/// rest, renumbers the instruments and the waves in use, overlaps the patterns into two row
/// pools, and catalogs the cells of each.
pub fn optimise(song: &Song) -> (result: (OptimResults, OptimStats))
    requires
        song_playable(song),
    ensures
        optimised(song, result.0, result.1),
        result.0.main_cell_catalog.wf(),
        result.0.subpat_cell_catalog.wf(),
        all_encodable(result.0.main_cell_catalog.cells@),
        all_encodable(result.0.subpat_cell_catalog.cells@),
        result.0.duty_instr_usage.wf(),
        result.0.wave_instr_usage.wf(),
        result.0.noise_instr_usage.wf(),
        result.0.wave_usage.wf(),
{
    let (prepared, Ghost(witness)) = prepare(song);
    let prepared = match prepared {
        Ok(prepared) => prepared,
        Err(_) => vstd::pervasive::unreached(),
    };
    let ghost grid = witness.0;
    let ghost all = witness.1;
    let ghost usage = (
        prepared.used_duty_instrs,
        prepared.used_wave_instrs,
        prepared.used_noise_instrs,
        prepared.used_waves,
    );
    let renumberings = compact_usage(
        song,
        (
            prepared.used_duty_instrs,
            prepared.used_wave_instrs,
            prepared.used_noise_instrs,
            prepared.used_waves,
        ),
    );
    let mut patterns = prepared.patterns;
    renumber_song(song, &mut patterns, &renumberings);
    let duplicated_patterns = count_duplicates(&patterns, song.patterns.len());
    let layout = lay_out(&patterns);
    let pruned_instrs_bytes = saved_bytes_instrs(&song.instruments.duty, &renumberings.duty)
        + saved_bytes_instrs(&song.instruments.wave, &renumberings.wave) + saved_bytes_instrs(
        &song.instruments.noise,
        &renumberings.noise,
    );
    let stats = OptimStats {
        duplicated_patterns,
        overlapped_rows: layout.overlapped_rows,
        pruned_patterns: prepared.pruned_patterns,
        pruned_pattern_rows: prepared.pruned_pattern_rows,
        trimmed_rows: prepared.trimmed_rows,
        pruned_instrs: renumberings.duty.nb_saved() + renumberings.wave.nb_saved()
            + renumberings.noise.nb_saved(),
        pruned_instrs_bytes,
        trimmed_waves: renumberings.waves.nb_saved(),
        saved_bytes_catalog: layout.saved_bytes_catalog,
    };
    let results = OptimResults {
        main_row_pool: layout.main_row_pool,
        main_cell_catalog: layout.main_cell_catalog,
        subpat_row_pool: layout.subpat_row_pool,
        subpat_cell_catalog: layout.subpat_cell_catalog,
        duty_instr_usage: renumberings.duty,
        wave_instr_usage: renumberings.wave,
        noise_instr_usage: renumberings.noise,
        wave_usage: renumberings.waves,
    };
    proof {
        assert(optimises(song, grid, all, patterns, usage, results, stats));
    }
    (results, stats)
}

/// Playback reaches every row of every pattern that the passes work on.
pub open spec fn fully_reached(song: &Song) -> bool {
    &&& forall|id: PatternId, r: int|
        named_in_grid(song, id) && 0 <= r < 64 ==> #[trigger] grid_reaches(song, id, r)
    &&& forall|id: PatternId, r: int|
        is_song_subpattern(song, id) && 0 <= r < 32 ==> #[trigger] sub_reaches(
            sub_rows_of(song, id),
            r,
        )
}

proof fn lemma_nothing_to_trim(entries: Seq<PatternEntry>, upto: int)
    requires
        0 <= upto <= entries.len(),
        forall|i: int|
            0 <= i < entries.len() ==> (#[trigger] entries[i]).pattern.0.len() >= 1
                && entries[i].pattern.0@.last().reachable,
    ensures
        pruned_patterns_upto(entries, upto) == 0,
        pruned_rows_upto(entries, upto) == 0,
        trimmed_rows_upto(entries, upto) == 0,
    decreases upto,
{
    if upto > 0 {
        lemma_nothing_to_trim(entries, upto - 1);
        assert(entries[upto - 1].pattern.0.len() >= 1);
    }
}

proof fn lemma_fully_marked(song: &Song, id: PatternId)
    requires
        fully_reached(song),
        is_song_pattern(song, id),
        named_in_grid(song, id) ==> id is Pattern,
    ensures
        marked_rows(song, id).len() == (if id is Pattern {
            64int
        } else {
            32int
        }),
        marked_rows(song, id).last().reachable,
        last_reachable(marked_rows(song, id)) == marked_rows(song, id).len() - 1,
        kept_rows(song, id) == marked_rows(song, id),
{
    let rows = marked_rows(song, id);
    if id is Pattern {
        assert(rows[63].reachable == grid_reaches(song, id, 63));
    } else {
        assert(rows[31].reachable == sub_reaches(sub_rows_of(song, id), 31));
    }
    assert(rows.take(rows.len() as int) =~= rows);
}

/// Where playback reaches every row of every pattern, the passes drop nothing and cut
/// nothing: every pattern keeps all its rows, and the rows of the two pools and the rows that
/// the overlaps spare are, together, the rows of the patterns.
pub proof fn lemma_fully_reached_song_keeps_every_row(
    song: &Song,
    grid: PatternStore,
    all: PatternStore,
    store: PatternStore,
    usage: (u16, u16, u16, u16),
    results: OptimResults,
    stats: OptimStats,
)
    requires
        grid_wf(song),
        optimises(song, grid, all, store, usage, results, stats),
        fully_reached(song),
    ensures
        stats.pruned_patterns == 0,
        stats.pruned_pattern_rows == 0,
        stats.trimmed_rows == 0,
        forall|id: PatternId|
            store.contains(id) ==> (#[trigger] store.rows(id)).len() == (if id is Pattern {
                64int
            } else {
                32int
            }),
        pool_len(store, overlap_plan(store, ids_of_group(store.ids(), true)).0) + pool_len(
            store,
            overlap_plan(store, ids_of_group(store.ids(), false)).0,
        ) + stats.overlapped_rows == total_rows(
            store,
            overlap_plan(store, ids_of_group(store.ids(), true)).0,
        ) + total_rows(store, overlap_plan(store, ids_of_group(store.ids(), false)).0),
{
    assert forall|i: int| 0 <= i < grid.entries.len() implies (
    #[trigger] grid.entries[i]).pattern.0.len() >= 1
        && grid.entries[i].pattern.0@.last().reachable by {
        let id = grid.entries[i].id;
        grid.lemma_index_of(i);
        assert(grid.contains(id));
        assert(named_in_grid(song, id));
        lemma_named_is_in_range(song, id);
        lemma_fully_marked(song, id);
        assert(grid.rows(id) == marked_rows(song, id));
    }
    lemma_nothing_to_trim(grid.entries@, grid.entries.len() as int);
    assert forall|i: int| 0 <= i < all.entries.len() implies (
    #[trigger] all.entries[i]).pattern.0.len() >= 1
        && all.entries[i].pattern.0@.last().reachable by {
        let id = all.entries[i].id;
        all.lemma_index_of(i);
        assert(all.contains(id));
        if id is Pattern {
            assert(is_kept(song, id));
        } else {
            assert(is_song_subpattern(song, id));
        }
        lemma_fully_marked(song, id);
        assert(all.rows(id) == marked_rows(song, id));
    }
    lemma_nothing_to_trim(all.entries@, all.entries.len() as int);
    assert forall|id: PatternId| store.contains(id) implies (#[trigger] store.rows(id)).len() == (
    if id is Pattern {
        64int
    } else {
        32int
    }) by {
        assert(is_kept(song, id));
        if named_in_grid(song, id) {
            lemma_named_is_in_range(song, id);
        }
        lemma_fully_marked(song, id);
    }
}

} // verus!
