//! Which rows playback reaches, and what it uses on its way.

use crate::bits::{
    bit16, bit64, lemma_bit16_set, lemma_bit16_shift_down, lemma_bit16_zero, lemma_bit64_set,
    lemma_bit64_test, lemma_bit64_zero,
};
use crate::optimise::cell::CellFirstHalf;
use crate::optimise::store::{
    AnnotatedCell, InstrKind, OptimisedPattern, PatternEntry, PatternId, PatternStore,
};
use crate::song::{EffectId, PatternCell, Song};
use vstd::prelude::*;

verus! {

/// What makes a song unplayable, found where playback would run into it.
#[derive(Debug, Clone, Copy, PartialEq, Eq, Structural)]
pub enum SongFault {
    /// The song has no order row, or an order row names a pattern that the song does not have.
    BadOrderMatrix,
    /// A position jump to order 0: orders are counted from 1.
    JumpToOrderZero { pattern: usize, row: usize },
    /// A pattern break to a row that is not one of the rows 1 to 64; in a subpattern,
    /// `pattern` is the number of its instrument.
    BreakOutOfBounds { pattern: usize, row: usize, param: u8 },
    /// A change of timbre on the wave channel, or in the subpattern of a wave instrument, to a
    /// wave that the bank does not have; in a subpattern, `pattern` is the number of its
    /// instrument.
    WaveOutOfBounds { pattern: usize, row: usize, param: u8 },
    /// A cell names an instrument beyond the fifteenth.
    InstrumentOutOfBounds { pattern: usize, row: usize, instrument: u8 },
    /// Playback leaves this row for an order row that the song does not have.
    JumpOutOfBounds { order: usize, row: usize, target: usize },
    /// A row of a subpattern jumps to a row that a subpattern does not have.
    SubpatternJumpOutOfBounds { row: usize, next_row_idx: u8 },
    /// The song has more order rows than the passes can count the rows of.
    TooManyOrders,
    /// An instrument of the wave bank that playback reaches is no wave instrument.
    NotAWaveInstrument { slot: usize },
    /// An instrument of the wave bank that playback reaches plays a wave that the bank does
    /// not have.
    InstrumentWaveOutOfBounds { slot: usize, wave_id: u8 },
}

/// The number of order rows of the song.
pub open spec fn nb_orders(song: &Song) -> int {
    song.order_matrix.len() as int
}

/// The number of the pattern that plays on `channel` at order row `order`.
pub open spec fn grid_pattern(song: &Song, order: int, channel: int) -> usize {
    song.order_matrix[order][channel]
}

/// The store's name for the copy of that pattern which belongs to the channel's family.
pub open spec fn grid_id(song: &Song, order: int, channel: int) -> PatternId {
    PatternId::Pattern(InstrKind::of_channel(channel), grid_pattern(song, order, channel))
}

/// The cell that plays on `channel` at row `row` of order row `order`.
pub open spec fn grid_cell(song: &Song, order: int, channel: int, row: int) -> PatternCell {
    song.patterns[grid_pattern(song, order, channel) as int][row]
}

/// The order matrix has a row, and names patterns of the song only.
pub open spec fn grid_wf(song: &Song) -> bool {
    &&& nb_orders(song) >= 1
    &&& forall|order: int, channel: int|
        0 <= order < nb_orders(song) && 0 <= channel < 4 ==> #[trigger] grid_pattern(
            song,
            order,
            channel,
        ) < song.patterns.len()
}

/// What a cell does to the destination that the row has set so far: the order row to go to, and
/// the row to start at, still counted from 1.
pub open spec fn control_step(
    before: (Option<int>, Option<int>),
    cell: PatternCell,
    order: int,
    nb_orders: int,
) -> (Option<int>, Option<int>) {
    if cell.effect_code == EffectId::PatternBreak {
        (
            if before.0 is None {
                Some((order + 1) % nb_orders)
            } else {
                before.0
            },
            Some(cell.effect_param as int),
        )
    } else if cell.effect_code == EffectId::PosJump {
        (Some(cell.effect_param - 1), before.1)
    } else {
        before
    }
}

/// The destination that the first `channels` channels of a row set.
pub open spec fn row_control(song: &Song, order: int, row: int, channels: int) -> (
    Option<int>,
    Option<int>,
)
    decreases channels,
{
    if channels <= 0 {
        (None, None)
    } else {
        control_step(
            row_control(song, order, row, channels - 1),
            grid_cell(song, order, channels - 1, row),
            order,
            nb_orders(song),
        )
    }
}

/// Where playback goes after the row: to the destination that the row's four cells set, or
/// else one row on, and from the last row of a pattern to the next order row.
pub open spec fn next_position(song: &Song, order: int, row: int) -> (int, int) {
    let control = row_control(song, order, row, 4);
    match control.0 {
        Some(next_order) => (
            next_order,
            match control.1 {
                Some(next_row) => next_row - 1,
                None => 0,
            },
        ),
        None => if row + 1 == 64 {
            ((order + 1) % nb_orders(song), 0)
        } else {
            (order, row + 1)
        },
    }
}

/// The order row and the row that playback is at after `steps` rows, from the song's start.
pub open spec fn walk_at(song: &Song, steps: nat) -> (int, int)
    decreases steps,
{
    if steps == 0 {
        (0, 0)
    } else {
        let before = walk_at(song, (steps - 1) as nat);
        next_position(song, before.0, before.1)
    }
}

/// The first thing wrong with a cell of the grid, if anything is.
pub open spec fn cell_fault(song: &Song, order: int, channel: int, row: int) -> Option<
    SongFault,
> {
    let cell = grid_cell(song, order, channel, row);
    let pattern = grid_pattern(song, order, channel);
    if cell.effect_code == EffectId::PosJump && cell.effect_param == 0 {
        Some(SongFault::JumpToOrderZero { pattern, row: row as usize })
    } else if cell.effect_code == EffectId::PatternBreak && !(1 <= cell.effect_param <= 64) {
        Some(SongFault::BreakOutOfBounds { pattern, row: row as usize, param: cell.effect_param })
    } else if channel == 2 && cell.effect_code == EffectId::ChangeTimbre && cell.effect_param
        >= 16 {
        Some(SongFault::WaveOutOfBounds { pattern, row: row as usize, param: cell.effect_param })
    } else if cell.instrument >= 16 {
        Some(
            SongFault::InstrumentOutOfBounds {
                pattern,
                row: row as usize,
                instrument: cell.instrument,
            },
        )
    } else {
        None
    }
}

/// The first thing wrong with the four cells of a row, if anything is.
pub open spec fn row_cells_fault(song: &Song, order: int, row: int) -> Option<SongFault> {
    if cell_fault(song, order, 0, row) is Some {
        cell_fault(song, order, 0, row)
    } else if cell_fault(song, order, 1, row) is Some {
        cell_fault(song, order, 1, row)
    } else if cell_fault(song, order, 2, row) is Some {
        cell_fault(song, order, 2, row)
    } else {
        cell_fault(song, order, 3, row)
    }
}

/// The first thing wrong with a row, if anything is: with its cells, or with where it sends
/// playback.
pub open spec fn row_fault(song: &Song, order: int, row: int) -> Option<SongFault> {
    if row_cells_fault(song, order, row) is Some {
        row_cells_fault(song, order, row)
    } else if next_position(song, order, row).0 >= nb_orders(song) {
        Some(
            SongFault::JumpOutOfBounds {
                order: order as usize,
                row: row as usize,
                target: next_position(song, order, row).0 as usize,
            },
        )
    } else {
        None
    }
}

/// Playback is at a row of the grid after `steps` rows, and nothing is wrong with that row.
pub open spec fn step_ok(song: &Song, steps: nat) -> bool {
    let at = walk_at(song, steps);
    &&& 0 <= at.0 < nb_orders(song)
    &&& 0 <= at.1 < 64
    &&& row_fault(song, at.0, at.1) is None
}

/// Playback never runs into anything wrong.
pub open spec fn walk_safe(song: &Song) -> bool {
    &&& grid_wf(song)
    &&& forall|steps: nat| #[trigger] step_ok(song, steps)
}

/// The row at `(order, row)` plays row `pattern_row` of the pattern that the store calls `id`.
pub open spec fn row_touches(song: &Song, order: int, row: int, id: PatternId, pattern_row: int) -> bool {
    pattern_row == row && (grid_id(song, order, 0) == id || grid_id(song, order, 1) == id
        || grid_id(song, order, 2) == id || grid_id(song, order, 3) == id)
}

/// The row at `(order, row)` plays instrument `instrument` on a channel of family `kind`.
pub open spec fn row_uses_instr(
    song: &Song,
    order: int,
    row: int,
    kind: InstrKind,
    instrument: int,
) -> bool {
    match kind {
        InstrKind::Duty => grid_cell(song, order, 0, row).instrument == instrument || grid_cell(
            song,
            order,
            1,
            row,
        ).instrument == instrument,
        InstrKind::Wave => grid_cell(song, order, 2, row).instrument == instrument,
        InstrKind::Noise => grid_cell(song, order, 3, row).instrument == instrument,
    }
}

/// The row at `(order, row)` changes the wave channel's timbre to wave `wave`.
pub open spec fn row_uses_wave(song: &Song, order: int, row: int, wave: int) -> bool {
    grid_cell(song, order, 2, row).effect_code == EffectId::ChangeTimbre && grid_cell(
        song,
        order,
        2,
        row,
    ).effect_param == wave
}

/// Playback reaches row `pattern_row` of the pattern that the store calls `id`.
pub open spec fn grid_reaches(song: &Song, id: PatternId, pattern_row: int) -> bool {
    exists|steps: nat|
        row_touches(
            song,
            (#[trigger] walk_at(song, steps)).0,
            walk_at(song, steps).1,
            id,
            pattern_row,
        )
}

/// Playback reaches a cell that plays instrument `instrument` on a channel of family `kind`.
pub open spec fn grid_uses_instr(song: &Song, kind: InstrKind, instrument: int) -> bool {
    exists|steps: nat|
        row_uses_instr(
            song,
            (#[trigger] walk_at(song, steps)).0,
            walk_at(song, steps).1,
            kind,
            instrument,
        )
}

/// Playback reaches a cell of the wave channel that changes the timbre to wave `wave`.
pub open spec fn grid_uses_wave(song: &Song, wave: int) -> bool {
    exists|steps: nat|
        row_uses_wave(song, (#[trigger] walk_at(song, steps)).0, walk_at(song, steps).1, wave)
}

/// The store has, with all its 64 rows, the copy of each pattern that the order matrix names
/// for each channel's family.
pub open spec fn covers_grid(store: PatternStore, song: &Song) -> bool {
    &&& forall|order: int, channel: int|
        0 <= order < nb_orders(song) && 0 <= channel < 4 ==> store.contains(
            #[trigger] grid_id(song, order, channel),
        )
    &&& forall|i: int|
        0 <= i < store.entries.len() && (#[trigger] store.entries[i]).id is Pattern
            ==> store.entries[i].pattern.0.len() == 64
}

/// Two stores hold the same patterns with the same cells; which rows are marked reachable may
/// differ.
pub open spec fn same_cells(before: PatternStore, after: PatternStore) -> bool {
    &&& after.entries.len() == before.entries.len()
    &&& forall|i: int|
        0 <= i < before.entries.len() ==> (#[trigger] after.entries[i]).id
            == before.entries[i].id && after.entries[i].pattern.0.len()
            == before.entries[i].pattern.0.len()
    &&& forall|i: int, r: int|
        0 <= i < before.entries.len() && 0 <= r < before.entries[i].pattern.0.len() ==> (
        #[trigger] after.entries[i].pattern.0[r]).cell == before.entries[i].pattern.0[r].cell
}

pub proof fn lemma_same_cells_keeps_shape(before: PatternStore, after: PatternStore, song: &Song)
    requires
        same_cells(before, after),
    ensures
        before.wf() ==> after.wf(),
        forall|id: PatternId| before.contains(id) == after.contains(id),
        covers_grid(before, song) ==> covers_grid(after, song),
{
    if before.wf() {
        assert forall|i: int, j: int| 0 <= i < j < after.entries.len() implies (
        #[trigger] after.entries[i]).id.precedes((#[trigger] after.entries[j]).id) by {
            assert(before.entries[i].id.precedes(before.entries[j].id));
        }
    }
    assert forall|id: PatternId| before.contains(id) == after.contains(id) by {
        if before.contains(id) {
            let k = before.index_of(id);
            assert(after.entries[k].id == id);
        }
        if after.contains(id) {
            let k = after.index_of(id);
            assert(before.entries[k].id == id);
        }
    }
    if covers_grid(before, song) {
        assert forall|i: int|
            0 <= i < after.entries.len() && (#[trigger] after.entries[i]).id is Pattern implies after.entries[i].pattern.0.len()
            == 64 by {
            assert(before.entries[i].id is Pattern);
        }
    }
}

/// Once playback comes back to a row, it has been everywhere that it will ever be.
pub proof fn lemma_walk_cycles(song: &Song, first: nat, again: nat, steps: nat)
    requires
        first < again,
        walk_at(song, first) == walk_at(song, again),
    ensures
        exists|earlier: nat| earlier < again && walk_at(song, earlier) == walk_at(song, steps),
    decreases steps,
{
    if steps < again {
        assert(walk_at(song, steps) == walk_at(song, steps));
    } else {
        let back = (steps - (again - first)) as nat;
        lemma_walk_repeats(song, first, again, (steps - again) as nat);
        assert(walk_at(song, back) == walk_at(song, steps));
        lemma_walk_cycles(song, first, again, back);
    }
}

proof fn lemma_walk_repeats(song: &Song, first: nat, again: nat, more: nat)
    requires
        walk_at(song, first) == walk_at(song, again),
    ensures
        walk_at(song, first + more) == walk_at(song, again + more),
    decreases more,
{
    if more > 0 {
        lemma_walk_repeats(song, first, again, (more - 1) as nat);
        assert(walk_at(song, (first + more - 1) as nat) == walk_at(
            song,
            (again + more - 1) as nat,
        ));
    }
}

/// Within the first `steps` rows, playback reaches row `pattern_row` of the pattern `id`.
pub open spec fn reaches_before(song: &Song, steps: nat, id: PatternId, pattern_row: int) -> bool {
    exists|j: nat|
        j < steps && row_touches(
            song,
            (#[trigger] walk_at(song, j)).0,
            walk_at(song, j).1,
            id,
            pattern_row,
        )
}

pub open spec fn uses_instr_before(song: &Song, steps: nat, kind: InstrKind, instrument: int) -> bool {
    exists|j: nat|
        j < steps && row_uses_instr(
            song,
            (#[trigger] walk_at(song, j)).0,
            walk_at(song, j).1,
            kind,
            instrument,
        )
}

pub open spec fn uses_wave_before(song: &Song, steps: nat, wave: int) -> bool {
    exists|j: nat|
        j < steps && row_uses_wave(song, (#[trigger] walk_at(song, j)).0, walk_at(song, j).1, wave)
}

pub open spec fn visited_before(song: &Song, steps: nat, order: int, row: int) -> bool {
    exists|j: nat| j < steps && #[trigger] walk_at(song, j) == (order, row)
}

proof fn lemma_one_more_step(song: &Song, steps: nat)
    ensures
        forall|id: PatternId, pattern_row: int| #[trigger]
            reaches_before(song, steps + 1, id, pattern_row) == (reaches_before(
                song,
                steps,
                id,
                pattern_row,
            ) || row_touches(
                song,
                walk_at(song, steps).0,
                walk_at(song, steps).1,
                id,
                pattern_row,
            )),
        forall|kind: InstrKind, instrument: int| #[trigger]
            uses_instr_before(song, steps + 1, kind, instrument) == (uses_instr_before(
                song,
                steps,
                kind,
                instrument,
            ) || row_uses_instr(
                song,
                walk_at(song, steps).0,
                walk_at(song, steps).1,
                kind,
                instrument,
            )),
        forall|wave: int| #[trigger]
            uses_wave_before(song, steps + 1, wave) == (uses_wave_before(song, steps, wave)
                || row_uses_wave(song, walk_at(song, steps).0, walk_at(song, steps).1, wave)),
        forall|order: int, row: int| #[trigger]
            visited_before(song, steps + 1, order, row) == (visited_before(
                song,
                steps,
                order,
                row,
            ) || walk_at(song, steps) == (order, row)),
{
    let at = walk_at(song, steps);
    assert forall|id: PatternId, pattern_row: int| #[trigger]
        reaches_before(song, steps + 1, id, pattern_row) == (reaches_before(
            song,
            steps,
            id,
            pattern_row,
        ) || row_touches(song, at.0, at.1, id, pattern_row)) by {
        if reaches_before(song, steps, id, pattern_row) {
            let j = choose|j: nat|
                j < steps && row_touches(
                    song,
                    (#[trigger] walk_at(song, j)).0,
                    walk_at(song, j).1,
                    id,
                    pattern_row,
                );
            assert(j < steps + 1 && row_touches(
                song,
                walk_at(song, j).0,
                walk_at(song, j).1,
                id,
                pattern_row,
            ));
        }
    }
    assert forall|kind: InstrKind, instrument: int| #[trigger]
        uses_instr_before(song, steps + 1, kind, instrument) == (uses_instr_before(
            song,
            steps,
            kind,
            instrument,
        ) || row_uses_instr(song, at.0, at.1, kind, instrument)) by {
        if uses_instr_before(song, steps, kind, instrument) {
            let j = choose|j: nat|
                j < steps && row_uses_instr(
                    song,
                    (#[trigger] walk_at(song, j)).0,
                    walk_at(song, j).1,
                    kind,
                    instrument,
                );
            assert(j < steps + 1 && row_uses_instr(
                song,
                walk_at(song, j).0,
                walk_at(song, j).1,
                kind,
                instrument,
            ));
        }
    }
    assert forall|wave: int| #[trigger]
        uses_wave_before(song, steps + 1, wave) == (uses_wave_before(song, steps, wave)
            || row_uses_wave(song, at.0, at.1, wave)) by {
        if uses_wave_before(song, steps, wave) {
            let j = choose|j: nat|
                j < steps && row_uses_wave(
                    song,
                    (#[trigger] walk_at(song, j)).0,
                    walk_at(song, j).1,
                    wave,
                );
            assert(j < steps + 1 && row_uses_wave(
                song,
                walk_at(song, j).0,
                walk_at(song, j).1,
                wave,
            ));
        }
    }
    assert forall|order: int, row: int| #[trigger]
        visited_before(song, steps + 1, order, row) == (visited_before(song, steps, order, row)
            || at == (order, row)) by {
        if visited_before(song, steps, order, row) {
            let j = choose|j: nat| j < steps && #[trigger] walk_at(song, j) == (order, row);
            assert(j < steps + 1 && walk_at(song, j) == (order, row));
        }
    }
}

/// Once playback has come back to a row, what it reached so far is all that it ever reaches.
proof fn lemma_walk_complete(song: &Song, steps: nat)
    requires
        visited_before(song, steps, walk_at(song, steps).0, walk_at(song, steps).1),
    ensures
        forall|id: PatternId, pattern_row: int| #[trigger]
            grid_reaches(song, id, pattern_row) == reaches_before(song, steps, id, pattern_row),
        forall|kind: InstrKind, instrument: int| #[trigger]
            grid_uses_instr(song, kind, instrument) == uses_instr_before(
                song,
                steps,
                kind,
                instrument,
            ),
        forall|wave: int| #[trigger]
            grid_uses_wave(song, wave) == uses_wave_before(song, steps, wave),
        forall|later: nat|
            exists|earlier: nat|
                earlier < steps && walk_at(song, earlier) == #[trigger] walk_at(song, later),
{
    let first = choose|j: nat| j < steps && #[trigger] walk_at(song, j) == walk_at(song, steps);
    assert forall|later: nat|
        exists|earlier: nat|
            earlier < steps && walk_at(song, earlier) == #[trigger] walk_at(song, later) by {
        lemma_walk_cycles(song, first, steps, later);
    }
    assert forall|id: PatternId, pattern_row: int| #[trigger]
        grid_reaches(song, id, pattern_row) == reaches_before(
            song,
            steps,
            id,
            pattern_row,
        ) by {
        if grid_reaches(song, id, pattern_row) {
            let m = choose|m: nat|
                row_touches(
                    song,
                    (#[trigger] walk_at(song, m)).0,
                    walk_at(song, m).1,
                    id,
                    pattern_row,
                );
            lemma_walk_cycles(song, first, steps, m);
            let e = choose|e: nat| e < steps && walk_at(song, e) == walk_at(song, m);
            assert(e < steps && row_touches(
                song,
                walk_at(song, e).0,
                walk_at(song, e).1,
                id,
                pattern_row,
            ));
        }
    }
    assert forall|kind: InstrKind, instrument: int| #[trigger]
        grid_uses_instr(song, kind, instrument) == uses_instr_before(
            song,
            steps,
            kind,
            instrument,
        ) by {
        if grid_uses_instr(song, kind, instrument) {
            let m = choose|m: nat|
                row_uses_instr(
                    song,
                    (#[trigger] walk_at(song, m)).0,
                    walk_at(song, m).1,
                    kind,
                    instrument,
                );
            lemma_walk_cycles(song, first, steps, m);
            let e = choose|e: nat| e < steps && walk_at(song, e) == walk_at(song, m);
            assert(e < steps && row_uses_instr(
                song,
                walk_at(song, e).0,
                walk_at(song, e).1,
                kind,
                instrument,
            ));
        }
    }
    assert forall|wave: int| #[trigger]
        grid_uses_wave(song, wave) == uses_wave_before(song, steps, wave) by {
        if grid_uses_wave(song, wave) {
            let m = choose|m: nat|
                row_uses_wave(song, (#[trigger] walk_at(song, m)).0, walk_at(song, m).1, wave);
            lemma_walk_cycles(song, first, steps, m);
            let e = choose|e: nat| e < steps && walk_at(song, e) == walk_at(song, m);
            assert(e < steps && row_uses_wave(
                song,
                walk_at(song, e).0,
                walk_at(song, e).1,
                wave,
            ));
        }
    }
}

/// What the walk has gathered so far: for each family the instruments in use, bit 0 standing
/// for "no instrument"; the waves in use; and the destination that the current row has set.
struct WalkState {
    duty: u16,
    wave: u16,
    noise: u16,
    waves: u16,
    next_order: Option<usize>,
    next_row: Option<usize>,
}

spec fn widen(value: Option<usize>) -> Option<int> {
    match value {
        Some(v) => Some(v as int),
        None => None,
    }
}

impl WalkState {
    spec fn control(&self) -> (Option<int>, Option<int>) {
        (widen(self.next_order), widen(self.next_row))
    }

    spec fn instrs(&self, kind: InstrKind) -> u16 {
        match kind {
            InstrKind::Duty => self.duty,
            InstrKind::Wave => self.wave,
            InstrKind::Noise => self.noise,
        }
    }
}

/// The store after marking row `row` of the pattern `id`: nothing else changes.
spec fn marked(before: PatternStore, after: PatternStore, id: PatternId, row: int) -> bool {
    &&& same_cells(before, after)
    &&& forall|i: int, r: int|
        0 <= i < before.entries.len() && 0 <= r < before.entries[i].pattern.0.len() ==> (
        #[trigger] after.entries[i].pattern.0[r]).reachable == (
        before.entries[i].pattern.0[r].reachable || (before.entries[i].id == id && r == row))
}

fn visit_cell(
    song: &Song,
    patterns: &mut PatternStore,
    order: usize,
    channel: usize,
    row: usize,
    state: &mut WalkState,
) -> (fault: Option<SongFault>)
    requires
        grid_wf(song),
        old(patterns).wf(),
        covers_grid(*old(patterns), song),
        order < nb_orders(song),
        channel < 4,
        row < 64,
    ensures
        final(patterns).wf(),
        covers_grid(*final(patterns), song),
        marked(*old(patterns), *final(patterns), grid_id(song, order as int, channel as int), row as int),
        fault == cell_fault(song, order as int, channel as int, row as int),
        fault is None ==> final(state).control() == control_step(
            old(state).control(),
            grid_cell(song, order as int, channel as int, row as int),
            order as int,
            nb_orders(song),
        ),
        fault is None ==> forall|kind: InstrKind, b: int| #[trigger]
            bit16(final(state).instrs(kind), b) == (bit16(old(state).instrs(kind), b) || (kind
                == InstrKind::of_channel(channel as int) && grid_cell(
                song,
                order as int,
                channel as int,
                row as int,
            ).instrument == b)),
        fault is None ==> forall|w: int| #[trigger]
            bit16(final(state).waves, w) == (bit16(old(state).waves, w) || (channel == 2
                && grid_cell(song, order as int, channel as int, row as int).effect_code
                == EffectId::ChangeTimbre && grid_cell(
                song,
                order as int,
                channel as int,
                row as int,
            ).effect_param == w)),
{
    let ghost before = *patterns;
    let index = song.order_matrix[order][channel];
    assert(index == grid_pattern(song, order as int, channel as int));
    let kind = InstrKind::from_channel_id(channel);
    let id = PatternId::Pattern(kind, index);
    assert(id == grid_id(song, order as int, channel as int));
    let at = match patterns.position(id) {
        Some(at) => at,
        None => vstd::pervasive::unreached(),
    };
    patterns.entries[at].pattern.0[row].reachable = true;
    proof {
        before.lemma_index_of(at as int);
        assert(same_cells(before, *patterns));
        lemma_same_cells_keeps_shape(before, *patterns, song);
        assert forall|i: int, r: int|
            0 <= i < before.entries.len() && 0 <= r < before.entries[i].pattern.0.len() implies (
        #[trigger] patterns.entries[i].pattern.0[r]).reachable == (
        before.entries[i].pattern.0[r].reachable || (before.entries[i].id == id && r
            == row)) by {
            if before.entries[i].id == id {
                before.lemma_index_of(i);
            }
        }
    }
    let cell = song.patterns[index][row];
    assert(cell == grid_cell(song, order as int, channel as int, row as int));
    match cell.effect_code {
        EffectId::PosJump => {
            if cell.effect_param == 0 {
                return Some(SongFault::JumpToOrderZero { pattern: index, row });
            }
        },
        EffectId::PatternBreak => {
            if !(1 <= cell.effect_param && cell.effect_param <= 64) {
                return Some(
                    SongFault::BreakOutOfBounds { pattern: index, row, param: cell.effect_param },
                );
            }
        },
        EffectId::ChangeTimbre => {
            if channel == 2 && cell.effect_param >= 16 {
                return Some(
                    SongFault::WaveOutOfBounds { pattern: index, row, param: cell.effect_param },
                );
            }
        },
        _ => {},
    }
    if cell.instrument >= 16 {
        return Some(
            SongFault::InstrumentOutOfBounds { pattern: index, row, instrument: cell.instrument },
        );
    }
    match cell.effect_code {
        EffectId::PatternBreak => {
            state.next_row = Some(cell.effect_param as usize);
            if state.next_order.is_none() {
                state.next_order = Some((order + 1) % song.order_matrix.len());
            }
        },
        EffectId::PosJump => {
            state.next_order = Some((cell.effect_param - 1) as usize);
        },
        EffectId::ChangeTimbre => {
            if channel == 2 {
                proof {
                    lemma_bit16_set(state.waves, cell.effect_param as u16);
                }
                state.waves = state.waves | (1u16 << cell.effect_param);
            }
        },
        _ => {},
    }
    proof {
        lemma_bit16_set(state.duty, cell.instrument as u16);
        lemma_bit16_set(state.wave, cell.instrument as u16);
        lemma_bit16_set(state.noise, cell.instrument as u16);
    }
    match kind {
        InstrKind::Duty => {
            state.duty = state.duty | (1u16 << cell.instrument);
        },
        InstrKind::Wave => {
            state.wave = state.wave | (1u16 << cell.instrument);
        },
        InstrKind::Noise => {
            state.noise = state.noise | (1u16 << cell.instrument);
        },
    }
    None
}

/// Marks the four cells of a row, and gathers what they use and where they send playback.
fn visit_row(song: &Song, patterns: &mut PatternStore, order: usize, row: usize, state: &mut WalkState) -> (fault: Option<SongFault>)
    requires
        grid_wf(song),
        old(patterns).wf(),
        covers_grid(*old(patterns), song),
        order < nb_orders(song),
        row < 64,
    ensures
        final(patterns).wf(),
        covers_grid(*final(patterns), song),
        same_cells(*old(patterns), *final(patterns)),
        forall|i: int, r: int|
            0 <= i < old(patterns).entries.len() && 0 <= r < old(
                patterns,
            ).entries[i].pattern.0.len() ==> (
            #[trigger] final(patterns).entries[i].pattern.0[r]).reachable ==> (old(
                patterns,
            ).entries[i].pattern.0[r].reachable || row_touches(
                song,
                order as int,
                row as int,
                old(patterns).entries[i].id,
                r,
            )),
        fault == row_cells_fault(song, order as int, row as int),
        fault is None ==> forall|i: int, r: int|
            0 <= i < old(patterns).entries.len() && 0 <= r < old(
                patterns,
            ).entries[i].pattern.0.len() ==> (
            #[trigger] final(patterns).entries[i].pattern.0[r]).reachable == (old(
                patterns,
            ).entries[i].pattern.0[r].reachable || row_touches(
                song,
                order as int,
                row as int,
                old(patterns).entries[i].id,
                r,
            )),
        fault is None ==> final(state).control() == row_control(song, order as int, row as int, 4),
        fault is None ==> forall|kind: InstrKind, b: int| #[trigger]
            bit16(final(state).instrs(kind), b) == (bit16(old(state).instrs(kind), b)
                || row_uses_instr(song, order as int, row as int, kind, b)),
        fault is None ==> forall|w: int| #[trigger]
            bit16(final(state).waves, w) == (bit16(old(state).waves, w) || row_uses_wave(
                song,
                order as int,
                row as int,
                w,
            )),
{
    state.next_order = None;
    state.next_row = None;
    proof {
        reveal_with_fuel(row_control, 5);
    }
    let ghost s0 = *state;
    let fault = visit_cell(song, patterns, order, 0, row, state);
    if fault.is_some() {
        return fault;
    }
    let ghost s1 = *state;
    let fault = visit_cell(song, patterns, order, 1, row, state);
    if fault.is_some() {
        return fault;
    }
    let ghost s2 = *state;
    let fault = visit_cell(song, patterns, order, 2, row, state);
    if fault.is_some() {
        return fault;
    }
    let ghost s3 = *state;
    let fault = visit_cell(song, patterns, order, 3, row, state);
    if fault.is_some() {
        return fault;
    }
    proof {
        assert forall|kind: InstrKind, b: int| #[trigger]
            bit16(state.instrs(kind), b) == (bit16(s0.instrs(kind), b) || row_uses_instr(
                song,
                order as int,
                row as int,
                kind,
                b,
            )) by {
            assert(bit16(s1.instrs(kind), b) == (bit16(s0.instrs(kind), b) || (kind
                == InstrKind::of_channel(0) && grid_cell(
                song,
                order as int,
                0,
                row as int,
            ).instrument == b)));
            assert(bit16(s2.instrs(kind), b) == (bit16(s1.instrs(kind), b) || (kind
                == InstrKind::of_channel(1) && grid_cell(
                song,
                order as int,
                1,
                row as int,
            ).instrument == b)));
            assert(bit16(s3.instrs(kind), b) == (bit16(s2.instrs(kind), b) || (kind
                == InstrKind::of_channel(2) && grid_cell(
                song,
                order as int,
                2,
                row as int,
            ).instrument == b)));
        }
        assert forall|w: int| #[trigger]
            bit16(state.waves, w) == (bit16(s0.waves, w) || row_uses_wave(
                song,
                order as int,
                row as int,
                w,
            )) by {
            assert(bit16(s1.waves, w) == bit16(s0.waves, w));
            assert(bit16(s2.waves, w) == bit16(s1.waves, w));
            assert(bit16(s3.waves, w) == (bit16(s2.waves, w) || row_uses_wave(
                song,
                order as int,
                row as int,
                w,
            )));
        }
    }
    None
}

/// Nothing is wrong with any of the first `steps` rows of playback.
pub open spec fn ok_before(song: &Song, steps: nat) -> bool {
    forall|j: nat| j < steps ==> #[trigger] step_ok(song, j)
}

/// `fault` is what playback runs into first.
pub open spec fn is_first_fault(song: &Song, fault: SongFault) -> bool {
    exists|steps: nat|
        ok_before(song, steps) && row_fault(
            song,
            (#[trigger] walk_at(song, steps)).0,
            walk_at(song, steps).1,
        ) == Some(fault)
}

/// `after` is `before` with the rows marked that playback reaches.
pub open spec fn marks_grid(song: &Song, before: PatternStore, after: PatternStore) -> bool {
    &&& same_cells(before, after)
    &&& forall|i: int, r: int|
        0 <= i < before.entries.len() && 0 <= r < before.entries[i].pattern.0.len() ==> (
        #[trigger] after.entries[i].pattern.0[r]).reachable == (
        before.entries[i].pattern.0[r].reachable || grid_reaches(song, before.entries[i].id, r))
}

/// Bit `b` of `mask` says whether playback reaches a cell that plays instrument `b + 1` on a
/// channel of family `kind`.
pub open spec fn is_instr_usage(song: &Song, kind: InstrKind, mask: u16) -> bool {
    forall|b: int| 0 <= b < 16 ==> #[trigger] bit16(mask, b) == grid_uses_instr(song, kind, b + 1)
}

/// Bit `w` of `mask` says whether playback reaches a cell of the wave channel that changes the
/// timbre to wave `w`.
pub open spec fn is_wave_usage(song: &Song, mask: u16) -> bool {
    forall|w: int| 0 <= w < 16 ==> #[trigger] bit16(mask, w) == grid_uses_wave(song, w)
}

spec fn marked_walk(song: &Song, before: PatternStore, after: PatternStore, steps: nat) -> bool {
    &&& same_cells(before, after)
    &&& forall|i: int, r: int|
        0 <= i < before.entries.len() && 0 <= r < before.entries[i].pattern.0.len() ==> (
        #[trigger] after.entries[i].pattern.0[r]).reachable == (
        before.entries[i].pattern.0[r].reachable || reaches_before(
            song,
            steps,
            before.entries[i].id,
            r,
        ))
}

proof fn lemma_row_control_bounds(song: &Song, order: int, row: int)
    requires
        0 <= order < nb_orders(song),
        row_cells_fault(song, order, row) is None,
    ensures
        row_control(song, order, row, 4).0 matches Some(target) ==> target >= 0,
        row_control(song, order, row, 4).1 matches Some(next_row) ==> 1 <= next_row <= 64,
{
    reveal_with_fuel(row_control, 5);
}

spec fn masks_track(song: &Song, state: WalkState, steps: nat) -> bool {
    &&& forall|kind: InstrKind, b: int| #[trigger]
        bit16(state.instrs(kind), b) == uses_instr_before(song, steps, kind, b)
    &&& forall|w: int| #[trigger] bit16(state.waves, w) == uses_wave_before(song, steps, w)
}

/// The bitmaps say where playback has been: bit `r` of bitmap `o` for row `r` of order row `o`.
/// `seen` holds the same rows, each as one number, so that they can be counted.
spec fn reached_tracks(song: &Song, reached: Seq<u64>, seen: Set<int>, steps: nat) -> bool {
    &&& reached.len() == nb_orders(song)
    &&& forall|o: int, r: int|
        0 <= o < nb_orders(song) && #[trigger] bit64(reached[o], r) ==> visited_before(
            song,
            steps,
            o,
            r,
        )
    &&& forall|o: int, r: int|
        0 <= o < nb_orders(song) && 0 <= r < 64 ==> #[trigger] bit64(reached[o], r)
            == seen.contains(o * 64 + r)
    &&& seen.finite()
    &&& seen.len() == steps
    &&& forall|code: int| #[trigger] seen.contains(code) ==> 0 <= code < nb_orders(song) * 64
    &&& steps <= nb_orders(song) * 64
}

proof fn lemma_reached_step(
    song: &Song,
    reached: Seq<u64>,
    marks: u64,
    seen: Set<int>,
    steps: nat,
    order: int,
    row: int,
)
    requires
        reached_tracks(song, reached, seen, steps),
        0 <= order < nb_orders(song),
        0 <= row < 64,
        !bit64(reached[order], row),
        walk_at(song, steps) == (order, row),
        forall|r: int| #[trigger] bit64(marks, r) == (r == row || bit64(reached[order], r)),
    ensures
        reached_tracks(song, reached.update(order, marks), seen.insert(order * 64 + row), steps + 1),
{
    let code = order * 64 + row;
    let grown = seen.insert(code);
    let after = reached.update(order, marks);
    let nb = nb_orders(song);
    assert(!seen.contains(code));
    vstd::set_lib::lemma_int_range(0, nb * 64);
    assert(grown.subset_of(vstd::set_lib::set_int_range(0, nb * 64)));
    vstd::set_lib::lemma_len_subset(grown, vstd::set_lib::set_int_range(0, nb * 64));
    lemma_one_more_step(song, steps);
    assert forall|o: int, r: int| 0 <= o < nb && 0 <= r < 64 implies #[trigger] bit64(
        after[o],
        r,
    ) == grown.contains(o * 64 + r) by {
        if o == order {
            assert(bit64(marks, r) == (r == row || bit64(reached[o], r)));
        }
    }
    assert forall|o: int, r: int| 0 <= o < nb && #[trigger] bit64(after[o], r) implies visited_before(
        song,
        steps + 1,
        o,
        r,
    ) by {
        if o == order {
            assert(bit64(marks, r) == (r == row || bit64(reached[o], r)));
        }
        if bit64(reached[o], r) {
            assert(visited_before(song, steps, o, r));
        }
    }
}

proof fn lemma_masks_step(
    song: &Song,
    before: WalkState,
    after: WalkState,
    steps: nat,
    order: int,
    row: int,
)
    requires
        masks_track(song, before, steps),
        walk_at(song, steps) == (order, row),
        forall|kind: InstrKind, b: int| #[trigger]
            bit16(after.instrs(kind), b) == (bit16(before.instrs(kind), b) || row_uses_instr(
                song,
                order,
                row,
                kind,
                b,
            )),
        forall|w: int| #[trigger]
            bit16(after.waves, w) == (bit16(before.waves, w) || row_uses_wave(song, order, row, w)),
    ensures
        masks_track(song, after, steps + 1),
{
    lemma_one_more_step(song, steps);
    assert forall|kind: InstrKind, b: int| #[trigger]
        bit16(after.instrs(kind), b) == uses_instr_before(song, steps + 1, kind, b) by {
        assert(bit16(before.instrs(kind), b) == uses_instr_before(song, steps, kind, b));
    }
    assert forall|w: int| #[trigger]
        bit16(after.waves, w) == uses_wave_before(song, steps + 1, w) by {
        assert(bit16(before.waves, w) == uses_wave_before(song, steps, w));
    }
}

proof fn lemma_flags_step(
    song: &Song,
    start: PatternStore,
    before: PatternStore,
    after: PatternStore,
    steps: nat,
    order: int,
    row: int,
)
    requires
        marked_walk(song, start, before, steps),
        same_cells(before, after),
        walk_at(song, steps) == (order, row),
        forall|i: int, r: int|
            0 <= i < before.entries.len() && 0 <= r < before.entries[i].pattern.0.len() ==> (
            #[trigger] after.entries[i].pattern.0[r]).reachable == (
            before.entries[i].pattern.0[r].reachable || row_touches(
                song,
                order,
                row,
                before.entries[i].id,
                r,
            )),
    ensures
        marked_walk(song, start, after, steps + 1),
{
    lemma_one_more_step(song, steps);
    lemma_same_cells_trans(start, before, after);
    assert forall|i: int, r: int|
        0 <= i < start.entries.len() && 0 <= r < start.entries[i].pattern.0.len() implies (
    #[trigger] after.entries[i].pattern.0[r]).reachable == (
    start.entries[i].pattern.0[r].reachable || reaches_before(
        song,
        steps + 1,
        start.entries[i].id,
        r,
    )) by {
        assert(before.entries[i].id == start.entries[i].id);
        assert(before.entries[i].pattern.0[r].reachable == (
        start.entries[i].pattern.0[r].reachable || reaches_before(
            song,
            steps,
            start.entries[i].id,
            r,
        )));
    }
}

proof fn lemma_walk_done(
    song: &Song,
    start: PatternStore,
    after: PatternStore,
    state: WalkState,
    steps: nat,
)
    requires
        grid_wf(song),
        ok_before(song, steps),
        visited_before(song, steps, walk_at(song, steps).0, walk_at(song, steps).1),
        marked_walk(song, start, after, steps),
        masks_track(song, state, steps),
    ensures
        walk_safe(song),
        marks_grid(song, start, after),
        is_instr_usage(song, InstrKind::Duty, state.duty >> 1),
        is_instr_usage(song, InstrKind::Wave, state.wave >> 1),
        is_instr_usage(song, InstrKind::Noise, state.noise >> 1),
        is_wave_usage(song, state.waves),
{
    lemma_walk_complete(song, steps);
    assert forall|later: nat| #[trigger] step_ok(song, later) by {
        let earlier = choose|earlier: nat|
            earlier < steps && walk_at(song, earlier) == walk_at(song, later);
        assert(step_ok(song, earlier));
    }
    lemma_bit16_shift_down(state.duty);
    lemma_bit16_shift_down(state.wave);
    lemma_bit16_shift_down(state.noise);
    assert(state.instrs(InstrKind::Duty) == state.duty);
    assert(state.instrs(InstrKind::Wave) == state.wave);
    assert(state.instrs(InstrKind::Noise) == state.noise);
    assert forall|b: int| 0 <= b < 16 implies #[trigger] bit16(state.duty >> 1, b)
        == grid_uses_instr(song, InstrKind::Duty, b + 1) by {
        assert(bit16(state.instrs(InstrKind::Duty), b + 1) == uses_instr_before(
            song,
            steps,
            InstrKind::Duty,
            b + 1,
        ));
    }
    assert forall|b: int| 0 <= b < 16 implies #[trigger] bit16(state.wave >> 1, b)
        == grid_uses_instr(song, InstrKind::Wave, b + 1) by {
        assert(bit16(state.instrs(InstrKind::Wave), b + 1) == uses_instr_before(
            song,
            steps,
            InstrKind::Wave,
            b + 1,
        ));
    }
    assert forall|b: int| 0 <= b < 16 implies #[trigger] bit16(state.noise >> 1, b)
        == grid_uses_instr(song, InstrKind::Noise, b + 1) by {
        assert(bit16(state.instrs(InstrKind::Noise), b + 1) == uses_instr_before(
            song,
            steps,
            InstrKind::Noise,
            b + 1,
        ));
    }
}

fn already_reached(reached: &Vec<u64>, order: usize, row: usize) -> (been: bool)
    requires
        order < reached.len(),
        row < 64,
    ensures
        been == bit64(reached[order as int], row as int),
{
    proof {
        lemma_bit64_test(reached[order as int], row as u64);
    }
    reached[order] & (1u64 << row) != 0
}

fn mark_reached(reached: &mut Vec<u64>, order: usize, row: usize)
    requires
        order < old(reached).len(),
        row < 64,
    ensures
        final(reached)@ == old(reached)@.update(order as int, final(reached)[order as int]),
        forall|r: int| #[trigger]
            bit64(final(reached)[order as int], r) == (r == row || bit64(
                old(reached)[order as int],
                r,
            )),
{
    proof {
        lemma_bit64_set(reached[order as int], row as u64);
    }
    let marks = reached[order] | (1u64 << row);
    reached.set(order, marks);
}

/// Plays the song from its start until it comes back to a row, marking each row of the store
/// that it reaches and gathering the instruments and waves in use; or until it runs into
/// something wrong, and then the rows that it came by stay marked.
pub(crate) fn walk_grid(song: &Song, patterns: &mut PatternStore) -> (result: Result<
    (u16, u16, u16, u16),
    SongFault,
>)
    requires
        grid_wf(song),
        old(patterns).wf(),
        covers_grid(*old(patterns), song),
    ensures
        final(patterns).wf(),
        covers_grid(*final(patterns), song),
        same_cells(*old(patterns), *final(patterns)),
        result is Ok <==> walk_safe(song),
        result matches Ok(usage) ==> {
            &&& marks_grid(song, *old(patterns), *final(patterns))
            &&& is_instr_usage(song, InstrKind::Duty, usage.0)
            &&& is_instr_usage(song, InstrKind::Wave, usage.1)
            &&& is_instr_usage(song, InstrKind::Noise, usage.2)
            &&& is_wave_usage(song, usage.3)
        },
        result matches Err(fault) ==> is_first_fault(song, fault),
{
    let nb_orders = song.order_matrix.len();
    let mut state = WalkState {
        duty: 0,
        wave: 0,
        noise: 0,
        waves: 0,
        next_order: None,
        next_row: None,
    };
    let mut order_idx: usize = 0;
    let mut row_index: usize = 0;
    // Patterns may play at several places, so their marks cannot tell where playback has been.
    let mut reached: Vec<u64> = Vec::new();
    while reached.len() < nb_orders
        invariant
            reached.len() <= nb_orders,
            forall|o: int| 0 <= o < reached.len() ==> #[trigger] reached[o] == 0,
        decreases nb_orders - reached.len(),
    {
        reached.push(0u64);
    }
    let ghost mut steps: nat = 0;
    let ghost mut seen: Set<int> = Set::empty();
    proof {
        lemma_bit16_zero();
        lemma_bit64_zero();
    }
    loop
        invariant
            grid_wf(song),
            nb_orders == song.order_matrix.len(),
            patterns.wf(),
            covers_grid(*patterns, song),
            order_idx < nb_orders,
            row_index < 64,
            walk_at(song, steps) == (order_idx as int, row_index as int),
            ok_before(song, steps),
            marked_walk(song, *old(patterns), *patterns, steps),
            masks_track(song, state, steps),
            reached_tracks(song, reached@, seen, steps),
        ensures
            visited_before(song, steps, order_idx as int, row_index as int),
        decreases nb_orders * 64 - steps,
    {
        // No jump depends on anything but the row, so playback ends where it has been before.
        if already_reached(&reached, order_idx, row_index) {
            break ;
        }
        let ghost reached_before = reached@;
        mark_reached(&mut reached, order_idx, row_index);
        proof {
            lemma_reached_step(
                song,
                reached_before,
                reached[order_idx as int],
                seen,
                steps,
                order_idx as int,
                row_index as int,
            );
            seen = seen.insert(order_idx as int * 64 + row_index as int);
        }
        let ghost patterns_before = *patterns;
        let ghost state_before = state;
        let fault = visit_row(song, patterns, order_idx, row_index, &mut state);
        if let Some(fault) = fault {
            proof {
                lemma_same_cells_trans(*old(patterns), patterns_before, *patterns);
                assert(!step_ok(song, steps));
            }
            return Err(fault);
        }
        proof {
            lemma_row_control_bounds(song, order_idx as int, row_index as int);
        }
        let (next_order, next_row) = match state.next_order {
            Some(next_order) => (
                next_order,
                match state.next_row {
                    Some(next_row) => next_row - 1,
                    None => 0,
                },
            ),
            None => if row_index + 1 == 64 {
                ((order_idx + 1) % nb_orders, 0)
            } else {
                (order_idx, row_index + 1)
            },
        };
        assert((next_order as int, next_row as int) == next_position(
            song,
            order_idx as int,
            row_index as int,
        ));
        if next_order >= nb_orders {
            proof {
                lemma_same_cells_trans(*old(patterns), patterns_before, *patterns);
                assert(!step_ok(song, steps));
            }
            return Err(
                SongFault::JumpOutOfBounds { order: order_idx, row: row_index, target: next_order },
            );
        }
        proof {
            assert(step_ok(song, steps));
            lemma_flags_step(
                song,
                *old(patterns),
                patterns_before,
                *patterns,
                steps,
                order_idx as int,
                row_index as int,
            );
            lemma_masks_step(
                song,
                state_before,
                state,
                steps,
                order_idx as int,
                row_index as int,
            );
            assert(walk_at(song, steps + 1) == next_position(
                song,
                walk_at(song, steps).0,
                walk_at(song, steps).1,
            ));
            steps = steps + 1;
        }
        order_idx = next_order;
        row_index = next_row;
    }
    proof {
        lemma_walk_done(song, *old(patterns), *patterns, state, steps);
    }
    Ok((state.duty >> 1, state.wave >> 1, state.noise >> 1, state.waves))
}

pub proof fn lemma_same_cells_trans(a: PatternStore, b: PatternStore, c: PatternStore)
    requires
        same_cells(a, b),
        same_cells(b, c),
    ensures
        same_cells(a, c),
{
    assert forall|i: int| 0 <= i < a.entries.len() implies (#[trigger] c.entries[i]).id
        == a.entries[i].id && c.entries[i].pattern.0.len() == a.entries[i].pattern.0.len() by {
        assert(b.entries[i].id == a.entries[i].id);
    }
    assert forall|i: int, r: int|
        0 <= i < a.entries.len() && 0 <= r < a.entries[i].pattern.0.len() implies (
    #[trigger] c.entries[i].pattern.0[r]).cell == a.entries[i].pattern.0[r].cell by {
        assert(b.entries[i].id == a.entries[i].id);
        assert(b.entries[i].pattern.0[r].cell == a.entries[i].pattern.0[r].cell);
    }
}

/// Marks every row of the store that playback reaches, and says which instruments of each
/// family and which waves the reached cells use: bit `i` of the first three masks stands for
/// instrument `i + 1` of the duty, wave and noise family, and bit `w` of the fourth for wave `w`.
pub fn mark_reachable_pattern_rows(song: &Song, patterns: &mut PatternStore) -> (usage: (
    u16,
    u16,
    u16,
    u16,
))
    requires
        walk_safe(song),
        old(patterns).wf(),
        covers_grid(*old(patterns), song),
    ensures
        final(patterns).wf(),
        covers_grid(*final(patterns), song),
        marks_grid(song, *old(patterns), *final(patterns)),
        is_instr_usage(song, InstrKind::Duty, usage.0),
        is_instr_usage(song, InstrKind::Wave, usage.1),
        is_instr_usage(song, InstrKind::Noise, usage.2),
        is_wave_usage(song, usage.3),
{
    match walk_grid(song, patterns) {
        Ok(usage) => usage,
        Err(_) => vstd::pervasive::unreached(),
    }
}

/// The rows are those of a subpattern: each names the row that plays after it.
pub open spec fn is_subpattern_rows(rows: Seq<AnnotatedCell>) -> bool {
    forall|r: int| 0 <= r < rows.len() ==> (#[trigger] rows[r]).cell.0 is Subpattern
}

/// The row that plays after row `row` of a subpattern.
pub open spec fn sub_next(rows: Seq<AnnotatedCell>, row: int) -> int {
    match rows[row].cell.0 {
        CellFirstHalf::Subpattern { next_row_idx, .. } => next_row_idx as int,
        CellFirstHalf::Pattern { .. } => 0,
    }
}

/// The row that a subpattern is at after `steps` rows, from its first row.
pub open spec fn sub_walk_at(rows: Seq<AnnotatedCell>, steps: nat) -> int
    decreases steps,
{
    if steps == 0 {
        0
    } else {
        sub_next(rows, sub_walk_at(rows, (steps - 1) as nat))
    }
}

/// Whether the subpattern named `id` can change the wave channel's timbre at all: only that of
/// a wave instrument can.
pub open spec fn sets_timbre(id: PatternId) -> bool {
    id is Subpattern && id.spec_kind() == InstrKind::Wave
}

/// Row `row` of the subpattern named `id` changes the timbre to wave `wave`.
pub open spec fn sub_row_uses_wave(id: PatternId, rows: Seq<AnnotatedCell>, row: int, wave: int) -> bool {
    sets_timbre(id) && rows[row].cell.1.id == EffectId::ChangeTimbre && rows[row].cell.1.param
        == wave
}

/// The first thing wrong with a row of the subpattern named `id`, if anything is.
pub open spec fn sub_row_fault(id: PatternId, rows: Seq<AnnotatedCell>, row: int) -> Option<
    SongFault,
> {
    let cell = rows[row].cell;
    if sets_timbre(id) && cell.1.id == EffectId::ChangeTimbre && cell.1.param >= 16 {
        Some(
            SongFault::WaveOutOfBounds {
                pattern: id.spec_index(),
                row: row as usize,
                param: cell.1.param,
            },
        )
    } else if cell.1.id == EffectId::PatternBreak && !(1 <= cell.1.param <= 64) {
        Some(
            SongFault::BreakOutOfBounds {
                pattern: id.spec_index(),
                row: row as usize,
                param: cell.1.param,
            },
        )
    } else if sub_next(rows, row) >= rows.len() {
        Some(
            SongFault::SubpatternJumpOutOfBounds {
                row: row as usize,
                next_row_idx: sub_next(rows, row) as u8,
            },
        )
    } else {
        None
    }
}

/// The subpattern is at one of its rows after `steps` rows, and nothing is wrong with that row.
pub open spec fn sub_step_ok(id: PatternId, rows: Seq<AnnotatedCell>, steps: nat) -> bool {
    let at = sub_walk_at(rows, steps);
    0 <= at < rows.len() && sub_row_fault(id, rows, at) is None
}

/// The subpattern never runs into anything wrong.
pub open spec fn sub_walk_safe(id: PatternId, rows: Seq<AnnotatedCell>) -> bool {
    &&& rows.len() >= 1
    &&& is_subpattern_rows(rows)
    &&& forall|steps: nat| #[trigger] sub_step_ok(id, rows, steps)
}

/// Nothing is wrong with any of the first `steps` rows that the subpattern plays.
pub open spec fn sub_ok_before(id: PatternId, rows: Seq<AnnotatedCell>, steps: nat) -> bool {
    forall|j: nat| j < steps ==> #[trigger] sub_step_ok(id, rows, j)
}

/// `fault` is what the subpattern runs into first.
pub open spec fn is_first_sub_fault(id: PatternId, rows: Seq<AnnotatedCell>, fault: SongFault) -> bool {
    exists|steps: nat|
        sub_ok_before(id, rows, steps) && sub_row_fault(
            id,
            rows,
            #[trigger] sub_walk_at(rows, steps),
        ) == Some(fault)
}

/// The subpattern plays its row `row`.
pub open spec fn sub_reaches(rows: Seq<AnnotatedCell>, row: int) -> bool {
    exists|steps: nat| #[trigger] sub_walk_at(rows, steps) == row
}

/// The subpattern named `id` plays a row that changes the timbre to wave `wave`.
pub open spec fn sub_uses_wave(id: PatternId, rows: Seq<AnnotatedCell>, wave: int) -> bool {
    exists|steps: nat| sub_row_uses_wave(id, rows, #[trigger] sub_walk_at(rows, steps), wave)
}

/// `after` has the cells of `before`, and has those rows marked that the subpattern plays.
pub open spec fn marks_subpattern(before: Seq<AnnotatedCell>, after: Seq<AnnotatedCell>) -> bool {
    &&& after.len() == before.len()
    &&& forall|r: int|
        0 <= r < before.len() ==> (#[trigger] after[r]).cell == before[r].cell && after[r].reachable
            == sub_reaches(before, r)
}

spec fn sub_reaches_before(rows: Seq<AnnotatedCell>, steps: nat, row: int) -> bool {
    exists|j: nat| j < steps && #[trigger] sub_walk_at(rows, j) == row
}

spec fn sub_uses_wave_before(id: PatternId, rows: Seq<AnnotatedCell>, steps: nat, wave: int) -> bool {
    exists|j: nat| j < steps && sub_row_uses_wave(id, rows, #[trigger] sub_walk_at(rows, j), wave)
}

proof fn lemma_sub_walk_repeats(rows: Seq<AnnotatedCell>, first: nat, again: nat, more: nat)
    requires
        sub_walk_at(rows, first) == sub_walk_at(rows, again),
    ensures
        sub_walk_at(rows, first + more) == sub_walk_at(rows, again + more),
    decreases more,
{
    if more > 0 {
        lemma_sub_walk_repeats(rows, first, again, (more - 1) as nat);
        assert(sub_walk_at(rows, (first + more - 1) as nat) == sub_walk_at(
            rows,
            (again + more - 1) as nat,
        ));
    }
}

proof fn lemma_sub_walk_cycles(rows: Seq<AnnotatedCell>, first: nat, again: nat, steps: nat)
    requires
        first < again,
        sub_walk_at(rows, first) == sub_walk_at(rows, again),
    ensures
        exists|earlier: nat|
            earlier < again && #[trigger] sub_walk_at(rows, earlier) == sub_walk_at(rows, steps),
    decreases steps,
{
    if steps < again {
        assert(sub_walk_at(rows, steps) == sub_walk_at(rows, steps));
    } else {
        let back = (steps - (again - first)) as nat;
        lemma_sub_walk_repeats(rows, first, again, (steps - again) as nat);
        assert(sub_walk_at(rows, back) == sub_walk_at(rows, steps));
        lemma_sub_walk_cycles(rows, first, again, back);
    }
}

proof fn lemma_sub_one_more_step(id: PatternId, rows: Seq<AnnotatedCell>, steps: nat)
    ensures
        forall|row: int| #[trigger]
            sub_reaches_before(rows, steps + 1, row) == (sub_reaches_before(rows, steps, row)
                || sub_walk_at(rows, steps) == row),
        forall|wave: int| #[trigger]
            sub_uses_wave_before(id, rows, steps + 1, wave) == (sub_uses_wave_before(
                id,
                rows,
                steps,
                wave,
            ) || sub_row_uses_wave(id, rows, sub_walk_at(rows, steps), wave)),
{
    assert forall|row: int| #[trigger]
        sub_reaches_before(rows, steps + 1, row) == (sub_reaches_before(rows, steps, row)
            || sub_walk_at(rows, steps) == row) by {
        if sub_reaches_before(rows, steps, row) {
            let j = choose|j: nat| j < steps && #[trigger] sub_walk_at(rows, j) == row;
            assert(j < steps + 1 && sub_walk_at(rows, j) == row);
        }
    }
    assert forall|wave: int| #[trigger]
        sub_uses_wave_before(id, rows, steps + 1, wave) == (sub_uses_wave_before(
            id,
            rows,
            steps,
            wave,
        ) || sub_row_uses_wave(id, rows, sub_walk_at(rows, steps), wave)) by {
        if sub_uses_wave_before(id, rows, steps, wave) {
            let j = choose|j: nat|
                j < steps && sub_row_uses_wave(id, rows, #[trigger] sub_walk_at(rows, j), wave);
            assert(j < steps + 1 && sub_row_uses_wave(id, rows, sub_walk_at(rows, j), wave));
        }
    }
}

proof fn lemma_sub_walk_done(id: PatternId, rows: Seq<AnnotatedCell>, steps: nat)
    requires
        sub_ok_before(id, rows, steps),
        sub_reaches_before(rows, steps, sub_walk_at(rows, steps)),
    ensures
        forall|later: nat| #[trigger] sub_step_ok(id, rows, later),
        forall|row: int| #[trigger] sub_reaches(rows, row) == sub_reaches_before(rows, steps, row),
        forall|wave: int| #[trigger]
            sub_uses_wave(id, rows, wave) == sub_uses_wave_before(id, rows, steps, wave),
{
    let first = choose|j: nat| j < steps && #[trigger] sub_walk_at(rows, j) == sub_walk_at(
        rows,
        steps,
    );
    assert forall|later: nat| #[trigger] sub_step_ok(id, rows, later) by {
        lemma_sub_walk_cycles(rows, first, steps, later);
        let e = choose|e: nat| e < steps && #[trigger] sub_walk_at(rows, e) == sub_walk_at(rows, later);
        assert(sub_step_ok(id, rows, e));
    }
    assert forall|row: int| #[trigger]
        sub_reaches(rows, row) == sub_reaches_before(rows, steps, row) by {
        if sub_reaches(rows, row) {
            let m = choose|m: nat| #[trigger] sub_walk_at(rows, m) == row;
            lemma_sub_walk_cycles(rows, first, steps, m);
            let e = choose|e: nat| e < steps && #[trigger] sub_walk_at(rows, e) == sub_walk_at(rows, m);
            assert(e < steps && sub_walk_at(rows, e) == row);
        }
    }
    assert forall|wave: int| #[trigger]
        sub_uses_wave(id, rows, wave) == sub_uses_wave_before(id, rows, steps, wave) by {
        if sub_uses_wave(id, rows, wave) {
            let m = choose|m: nat|
                sub_row_uses_wave(id, rows, #[trigger] sub_walk_at(rows, m), wave);
            lemma_sub_walk_cycles(rows, first, steps, m);
            let e = choose|e: nat| e < steps && #[trigger] sub_walk_at(rows, e) == sub_walk_at(rows, m);
            assert(e < steps && sub_row_uses_wave(id, rows, sub_walk_at(rows, e), wave));
        }
    }
}

/// Plays the subpattern from its first row until it comes back to a row, marking each row that
/// it plays and gathering the waves that it changes the timbre to; or until it runs into
/// something wrong, and then the rows that it came by stay marked.
pub(crate) fn walk_subpattern(id: PatternId, subpattern: &mut OptimisedPattern, used_waves: &mut u16) -> (fault: Option<SongFault>)
    requires
        old(subpattern).0.len() >= 1,
        is_subpattern_rows(old(subpattern).0@),
        forall|r: int| 0 <= r < old(subpattern).0.len() ==> !(#[trigger] old(subpattern).0[r]).reachable,
    ensures
        final(subpattern).0.len() == old(subpattern).0.len(),
        forall|r: int|
            0 <= r < old(subpattern).0.len() ==> (#[trigger] final(subpattern).0[r]).cell == old(
                subpattern,
            ).0[r].cell,
        fault is None <==> sub_walk_safe(id, old(subpattern).0@),
        fault is None ==> marks_subpattern(old(subpattern).0@, final(subpattern).0@),
        fault is None ==> forall|w: int| #[trigger]
            bit16(*final(used_waves), w) == (bit16(*old(used_waves), w) || sub_uses_wave(
                id,
                old(subpattern).0@,
                w,
            )),
        fault matches Some(f) ==> is_first_sub_fault(id, old(subpattern).0@, f),
{
    let len = subpattern.0.len();
    let wave_kind = match id {
        PatternId::Subpattern(InstrKind::Wave, _) => true,
        _ => false,
    };
    let mut row_index: usize = 0;
    let ghost rows = subpattern.0@;
    let ghost mut steps: nat = 0;
    let ghost mut seen: Set<int> = Set::empty();
    loop
        invariant
            rows == old(subpattern).0@,
            len == rows.len(),
            is_subpattern_rows(rows),
            wave_kind == sets_timbre(id),
            subpattern.0.len() == len,
            row_index < len,
            sub_walk_at(rows, steps) == row_index,
            sub_ok_before(id, rows, steps),
            forall|r: int|
                0 <= r < len ==> (#[trigger] subpattern.0[r]).cell == rows[r].cell
                    && subpattern.0[r].reachable == sub_reaches_before(rows, steps, r),
            forall|w: int| #[trigger]
                bit16(*used_waves, w) == (bit16(*old(used_waves), w) || sub_uses_wave_before(
                    id,
                    rows,
                    steps,
                    w,
                )),
            seen.finite(),
            seen.len() == steps,
            forall|r: int| #[trigger] seen.contains(r) ==> 0 <= r < len && subpattern.0[r].reachable,
            steps <= len,
        ensures
            sub_reaches_before(rows, steps, row_index as int),
        decreases len - steps,
    {
        // A subpattern is a world of its own: the rows that are marked are those that it played.
        if subpattern.0[row_index].reachable {
            break ;
        }
        subpattern.0[row_index].reachable = true;
        let cell = subpattern.0[row_index].cell;
        assert(cell == rows[row_index as int].cell);
        proof {
            lemma_sub_one_more_step(id, rows, steps);
            let grown = seen.insert(row_index as int);
            vstd::set_lib::lemma_int_range(0, len as int);
            assert(grown.subset_of(vstd::set_lib::set_int_range(0, len as int)));
            vstd::set_lib::lemma_len_subset(grown, vstd::set_lib::set_int_range(0, len as int));
            seen = grown;
        }
        if wave_kind {
            match cell.1.id {
                EffectId::ChangeTimbre => {
                    if cell.1.param >= 16 {
                        assert(!sub_step_ok(id, rows, steps));
                        return Some(
                            SongFault::WaveOutOfBounds {
                                pattern: id.index(),
                                row: row_index,
                                param: cell.1.param,
                            },
                        );
                    }
                    proof {
                        lemma_bit16_set(*used_waves, cell.1.param as u16);
                    }
                    *used_waves = *used_waves | (1u16 << cell.1.param);
                },
                _ => {},
            }
        }
        match cell.1.id {
            EffectId::PatternBreak => {
                if !(1 <= cell.1.param && cell.1.param <= 64) {
                    assert(!sub_step_ok(id, rows, steps));
                    return Some(
                        SongFault::BreakOutOfBounds {
                            pattern: id.index(),
                            row: row_index,
                            param: cell.1.param,
                        },
                    );
                }
            },
            _ => {},
        }
        let next_row_idx = match cell.0 {
            CellFirstHalf::Subpattern { next_row_idx, .. } => next_row_idx,
            CellFirstHalf::Pattern { .. } => vstd::pervasive::unreached(),
        };
        if next_row_idx as usize >= len {
            assert(!sub_step_ok(id, rows, steps));
            return Some(SongFault::SubpatternJumpOutOfBounds { row: row_index, next_row_idx });
        }
        proof {
            assert(sub_step_ok(id, rows, steps));
            assert(sub_walk_at(rows, steps + 1) == sub_next(rows, sub_walk_at(rows, steps)));
            steps = steps + 1;
        }
        row_index = next_row_idx as usize;
    }
    proof {
        lemma_sub_walk_done(id, rows, steps);
    }
    None
}

/// Marks the rows that the subpattern named `id` plays, and adds to `used_waves` the waves
/// that it changes the timbre to.
pub fn mark_reachable_subpattern_rows(
    id: PatternId,
    subpattern: &mut OptimisedPattern,
    used_waves: &mut u16,
)
    requires
        sub_walk_safe(id, old(subpattern).0@),
        forall|r: int| 0 <= r < old(subpattern).0.len() ==> !(#[trigger] old(subpattern).0[r]).reachable,
    ensures
        marks_subpattern(old(subpattern).0@, final(subpattern).0@),
        forall|w: int| #[trigger]
            bit16(*final(used_waves), w) == (bit16(*old(used_waves), w) || sub_uses_wave(
                id,
                old(subpattern).0@,
                w,
            )),
{
    if walk_subpattern(id, subpattern, used_waves).is_some() {
        vstd::pervasive::unreached()
    }
}

/// The last row that playback reaches, or -1 where it reaches none.
pub open spec fn last_reachable(rows: Seq<AnnotatedCell>) -> int
    decreases rows.len(),
{
    if rows.len() == 0 {
        -1
    } else if rows.last().reachable {
        rows.len() - 1
    } else {
        last_reachable(rows.drop_last())
    }
}

pub proof fn lemma_last_reachable(rows: Seq<AnnotatedCell>)
    ensures
        -1 <= last_reachable(rows) < rows.len(),
        last_reachable(rows) >= 0 ==> rows[last_reachable(rows)].reachable,
        forall|r: int| last_reachable(rows) < r < rows.len() ==> !(#[trigger] rows[r]).reachable,
    decreases rows.len(),
{
    if rows.len() > 0 && !rows.last().reachable {
        lemma_last_reachable(rows.drop_last());
        assert forall|r: int| last_reachable(rows) < r < rows.len() implies !(
        #[trigger] rows[r]).reachable by {
            if r < rows.len() - 1 {
                assert(rows.drop_last()[r] == rows[r]);
            }
        }
    }
}

/// Among the first `upto` patterns, the number of those that playback never reaches.
pub open spec fn pruned_patterns_upto(entries: Seq<PatternEntry>, upto: int) -> nat
    decreases upto,
{
    if upto <= 0 {
        0
    } else {
        pruned_patterns_upto(entries, upto - 1) + (if last_reachable(entries[upto - 1].pattern.0@)
            < 0 {
            1nat
        } else {
            0nat
        })
    }
}

/// Among the first `upto` patterns, the number of rows of those that playback never reaches.
pub open spec fn pruned_rows_upto(entries: Seq<PatternEntry>, upto: int) -> nat
    decreases upto,
{
    if upto <= 0 {
        0
    } else {
        pruned_rows_upto(entries, upto - 1) + (if last_reachable(entries[upto - 1].pattern.0@) < 0 {
            entries[upto - 1].pattern.0@.len()
        } else {
            0nat
        })
    }
}

/// Among the first `upto` patterns, the number of rows that follow the last row that playback
/// reaches, in the patterns that it reaches.
pub open spec fn trimmed_rows_upto(entries: Seq<PatternEntry>, upto: int) -> nat
    decreases upto,
{
    if upto <= 0 {
        0
    } else {
        trimmed_rows_upto(entries, upto - 1) + (if last_reachable(entries[upto - 1].pattern.0@)
            >= 0 {
            (entries[upto - 1].pattern.0@.len() - 1 - last_reachable(
                entries[upto - 1].pattern.0@,
            )) as nat
        } else {
            0nat
        })
    }
}

proof fn lemma_trim_sums_grow(entries: Seq<PatternEntry>, upto: int, end: int)
    requires
        0 <= upto <= end,
    ensures
        pruned_patterns_upto(entries, upto) <= pruned_patterns_upto(entries, end),
        pruned_rows_upto(entries, upto) <= pruned_rows_upto(entries, end),
        trimmed_rows_upto(entries, upto) <= trimmed_rows_upto(entries, end),
    decreases end - upto,
{
    if upto < end {
        lemma_trim_sums_grow(entries, upto, end - 1);
    }
}

/// `after` holds the patterns of `before` that playback reaches, each cut after the last row
/// that playback reaches.
pub open spec fn is_trimmed(before: PatternStore, after: PatternStore) -> bool {
    &&& after.wf()
    &&& forall|id: PatternId| #[trigger]
        after.contains(id) == (before.contains(id) && last_reachable(before.rows(id)) >= 0)
    &&& forall|id: PatternId|
        after.contains(id) ==> #[trigger] after.rows(id) == before.rows(id).take(
            last_reachable(before.rows(id)) + 1,
        )
}

/// Every pattern of the store ends with a row that playback reaches.
pub open spec fn ends_reachable(store: PatternStore) -> bool {
    forall|i: int|
        0 <= i < store.entries.len() ==> (#[trigger] store.entries[i]).pattern.0.len() >= 1
            && store.entries[i].pattern.0@.last().reachable
}

fn find_last_reachable(rows: &Vec<AnnotatedCell>) -> (found: Option<usize>)
    ensures
        match found {
            Some(last) => last == last_reachable(rows@),
            None => last_reachable(rows@) == -1,
        },
{
    let mut end = rows.len();
    assert(rows@.take(end as int) == rows@);
    while end > 0
        invariant
            end <= rows.len(),
            last_reachable(rows@) == last_reachable(rows@.take(end as int)),
        decreases end,
    {
        if rows[end - 1].reachable {
            return Some(end - 1);
        }
        assert(rows@.take(end as int).drop_last() == rows@.take(end - 1));
        end -= 1;
    }
    None
}

/// Drops from each pattern the rows that follow the last row that playback reaches, and drops
/// the patterns that playback never reaches. The three counters grow by the number of
/// patterns dropped, the number of their rows, and the number of rows cut off.
pub fn trim_trailing_unreachable_rows(
    patterns: &mut PatternStore,
    pruned_patterns: &mut usize,
    pruned_pattern_rows: &mut usize,
    trimmed_rows: &mut usize,
)
    requires
        old(patterns).wf(),
        *old(pruned_patterns) + pruned_patterns_upto(
            old(patterns).entries@,
            old(patterns).entries.len() as int,
        ) <= usize::MAX,
        *old(pruned_pattern_rows) + pruned_rows_upto(
            old(patterns).entries@,
            old(patterns).entries.len() as int,
        ) <= usize::MAX,
        *old(trimmed_rows) + trimmed_rows_upto(
            old(patterns).entries@,
            old(patterns).entries.len() as int,
        ) <= usize::MAX,
    ensures
        is_trimmed(*old(patterns), *final(patterns)),
        ends_reachable(*final(patterns)),
        *final(pruned_patterns) == *old(pruned_patterns) + pruned_patterns_upto(
            old(patterns).entries@,
            old(patterns).entries.len() as int,
        ),
        *final(pruned_pattern_rows) == *old(pruned_pattern_rows) + pruned_rows_upto(
            old(patterns).entries@,
            old(patterns).entries.len() as int,
        ),
        *final(trimmed_rows) == *old(trimmed_rows) + trimmed_rows_upto(
            old(patterns).entries@,
            old(patterns).entries.len() as int,
        ),
{
    let ghost before = *patterns;
    let total = patterns.entries.len();
    let mut done: usize = 0;
    let mut at: usize = 0;
    while done < total
        invariant
            before == *old(patterns),
            before.wf(),
            total == before.entries.len(),
            patterns.wf(),
            done <= total,
            at <= patterns.entries.len(),
            patterns.entries.len() - at == total - done,
            forall|j: int|
                at <= j < patterns.entries.len() ==> #[trigger] patterns.entries[j]
                    == before.entries[done + j - at],
            forall|j: int|
                0 <= j < at ==> (#[trigger] patterns.entries[j]).pattern.0.len() >= 1
                    && patterns.entries[j].pattern.0@.last().reachable,
            forall|id: PatternId| #[trigger]
                patterns.contains(id) == (before.contains(id) && (before.index_of(id) < done
                    ==> last_reachable(before.rows(id)) >= 0)),
            forall|id: PatternId|
                patterns.contains(id) ==> #[trigger] patterns.rows(id) == (if before.index_of(id)
                    < done {
                    before.rows(id).take(last_reachable(before.rows(id)) + 1)
                } else {
                    before.rows(id)
                }),
            *pruned_patterns == *old(pruned_patterns) + pruned_patterns_upto(
                before.entries@,
                done as int,
            ),
            *pruned_pattern_rows == *old(pruned_pattern_rows) + pruned_rows_upto(
                before.entries@,
                done as int,
            ),
            *trimmed_rows == *old(trimmed_rows) + trimmed_rows_upto(before.entries@, done as int),
            *old(pruned_patterns) + pruned_patterns_upto(before.entries@, total as int)
                <= usize::MAX,
            *old(pruned_pattern_rows) + pruned_rows_upto(before.entries@, total as int)
                <= usize::MAX,
            *old(trimmed_rows) + trimmed_rows_upto(before.entries@, total as int) <= usize::MAX,
        decreases total - done,
    {
        let ghost current = *patterns;
        let ghost id = before.entries[done as int].id;
        proof {
            assert(patterns.entries[at as int] == before.entries[done as int]);
            before.lemma_index_of(done as int);
            current.lemma_index_of(at as int);
            lemma_trim_sums_grow(before.entries@, done + 1, total as int);
            lemma_last_reachable(before.rows(id));
        }
        let len = patterns.entries[at].pattern.0.len();
        match find_last_reachable(&patterns.entries[at].pattern.0) {
            Some(last) => {
                *trimmed_rows = *trimmed_rows + (len - (last + 1));
                patterns.truncate_at(at, last + 1);
                proof {
                    assert forall|j: int| at + 1 <= j < patterns.entries.len() implies #[trigger] patterns.entries[j]
                        == before.entries[done + 1 + j - (at + 1)] by {
                        assert(patterns.entries[j] == current.entries[j]);
                    }
                    assert forall|j: int| 0 <= j < at + 1 implies (
                    #[trigger] patterns.entries[j]).pattern.0.len() >= 1
                        && patterns.entries[j].pattern.0@.last().reachable by {
                        if j < at {
                            assert(patterns.entries[j] == current.entries[j]);
                        }
                    }
                    assert forall|other: PatternId| #[trigger]
                        patterns.contains(other) == (before.contains(other) && (before.index_of(
                            other,
                        ) < done + 1 ==> last_reachable(before.rows(other)) >= 0)) by {
                        assert(current.contains(other) == (before.contains(other) && (
                        before.index_of(other) < done ==> last_reachable(before.rows(other))
                            >= 0)));
                        if before.contains(other) && other != id {
                            before.lemma_index_of(before.index_of(other));
                        }
                    }
                    assert forall|other: PatternId|
                        patterns.contains(other) implies #[trigger] patterns.rows(other) == (
                    if before.index_of(other) < done + 1 {
                        before.rows(other).take(last_reachable(before.rows(other)) + 1)
                    } else {
                        before.rows(other)
                    }) by {
                        assert(current.contains(other));
                        assert(current.rows(other) == (if before.index_of(other) < done {
                            before.rows(other).take(last_reachable(before.rows(other)) + 1)
                        } else {
                            before.rows(other)
                        }));
                        if other != id {
                            before.lemma_index_of(before.index_of(other));
                        }
                    }
                }
                at += 1;
            },
            None => {
                *pruned_patterns = *pruned_patterns + 1;
                *pruned_pattern_rows = *pruned_pattern_rows + len;
                let _ = patterns.remove_at(at);
                proof {
                    assert forall|j: int| at <= j < patterns.entries.len() implies #[trigger] patterns.entries[j]
                        == before.entries[done + 1 + j - at] by {
                        assert(patterns.entries[j] == current.entries[j + 1]);
                    }
                    assert forall|j: int| 0 <= j < at implies (
                    #[trigger] patterns.entries[j]).pattern.0.len() >= 1
                        && patterns.entries[j].pattern.0@.last().reachable by {
                        assert(patterns.entries[j] == current.entries[j]);
                    }
                    assert forall|other: PatternId| #[trigger]
                        patterns.contains(other) == (before.contains(other) && (before.index_of(
                            other,
                        ) < done + 1 ==> last_reachable(before.rows(other)) >= 0)) by {
                        assert(current.contains(other) == (before.contains(other) && (
                        before.index_of(other) < done ==> last_reachable(before.rows(other))
                            >= 0)));
                        if before.contains(other) && other != id {
                            before.lemma_index_of(before.index_of(other));
                        }
                    }
                    assert forall|other: PatternId|
                        patterns.contains(other) implies #[trigger] patterns.rows(other) == (
                    if before.index_of(other) < done + 1 {
                        before.rows(other).take(last_reachable(before.rows(other)) + 1)
                    } else {
                        before.rows(other)
                    }) by {
                        assert(current.contains(other));
                        assert(current.rows(other) == (if before.index_of(other) < done {
                            before.rows(other).take(last_reachable(before.rows(other)) + 1)
                        } else {
                            before.rows(other)
                        }));
                        before.lemma_index_of(before.index_of(other));
                    }
                }
            },
        }
        done += 1;
    }
    proof {
        assert forall|id: PatternId| #[trigger]
            patterns.contains(id) == (before.contains(id) && last_reachable(before.rows(id))
                >= 0) by {
            assert(patterns.contains(id) == (before.contains(id) && (before.index_of(id) < done
                ==> last_reachable(before.rows(id)) >= 0)));
        }
        assert forall|id: PatternId| patterns.contains(id) implies #[trigger] patterns.rows(id)
            == before.rows(id).take(last_reachable(before.rows(id)) + 1) by {
            assert(patterns.contains(id) == (before.contains(id) && (before.index_of(id) < done
                ==> last_reachable(before.rows(id)) >= 0)));
        }
    }
}

} // verus!
