//! The renumbering of the instruments and of the waves that are in use.

use crate::bits::{bit16, lemma_bit16_clear, lemma_bit16_set, lemma_bit16_zero};
use crate::optimise::cell::{Cell, CellFirstHalf, Effect};
use crate::optimise::store::{AnnotatedCell, InstrKind, OptimisedPattern, PatternId, PatternStore};
use crate::song::EffectId;
use vstd::prelude::*;

verus! {

/// A renumbering of `N` ids that brings the ids in use to the front: slot `i` of the table
/// holds the old id that takes the new id `i`, and, as the table is its own inverse, also the
/// new id of the old id `i`. The second field is the watermark: the number of ids in use.
#[derive(Debug, Clone)]
pub struct CompactedMapping<const N: usize>(pub [u8; N], pub usize);

/// What makes a table and a watermark the compaction of the ids whose bits are set in `mask`.
pub open spec fn is_compaction(table: Seq<u8>, watermark: int, mask: u16) -> bool {
    &&& 0 <= watermark <= table.len() <= 16
    &&& forall|i: int| 0 <= i < table.len() ==> (#[trigger] table[i]) < table.len()
    // The table is its own inverse.
    &&& forall|i: int| 0 <= i < table.len() ==> table[(#[trigger] table[i]) as int] == i
    // The slots below the watermark hold ids in use, and every id in use is in such a slot.
    &&& forall|i: int| 0 <= i < watermark ==> bit16(mask, (#[trigger] table[i]) as int)
    &&& forall|i: int| 0 <= i < table.len() && bit16(mask, i) ==> (#[trigger] table[i]) < watermark
    // An id that is where it belongs stays there.
    &&& forall|i: int|
        0 <= i < table.len() && (i < watermark) == bit16(mask, i) ==> (#[trigger] table[i]) == i
    // The free slots below the watermark, taken upwards, get the ids in use above it, taken
    // downwards.
    &&& forall|i: int, j: int|
        0 <= i < j < watermark && !bit16(mask, i) && !bit16(mask, j) ==> (#[trigger] table[i]) > (
        #[trigger] table[j])
}

impl<const N: usize> CompactedMapping<N> {
    /// The number of ids in use.
    pub open spec fn watermark(&self) -> int {
        self.1 as int
    }

    /// The table is that of a compaction of some ids: its own inverse, and the watermark within
    /// it.
    pub open spec fn wf(&self) -> bool {
        &&& self.1 <= N
        &&& forall|i: int| 0 <= i < N ==> (#[trigger] self.0[i]) < N
        &&& forall|i: int| 0 <= i < N ==> self.0[(#[trigger] self.0[i]) as int] == i
    }

    /// The ids in use, each at the place of its new id.
    pub fn iter(&self) -> (ids: Vec<u8>)
        requires
            self.1 <= N,
        ensures
            ids@ == self.0@.take(self.1 as int),
    {
        let mut ids: Vec<u8> = Vec::new();
        let mut i: usize = 0;
        while i < self.1
            invariant
                i <= self.1 <= N,
                ids@ == self.0@.take(i as int),
            decreases self.1 - i,
        {
            ids.push(self.0[i]);
            assert(self.0@.take(i + 1) == self.0@.take(i as int).push(self.0[i as int]));
            i += 1;
        }
        ids
    }

    /// The number of ids not in use.
    pub fn nb_saved(&self) -> (saved: usize)
        requires
            self.1 <= N,
        ensures
            saved == N - self.1,
    {
        N - self.1
    }

    /// The new id of the id `original`, which is in use.
    pub fn get_remapped_id(&self, original: usize) -> (id: u8)
        requires
            original < N,
            self.0[original as int] < self.1,
        ensures
            id == self.0[original as int],
    {
        self.0[original]
    }
}

proof fn lemma_mask_ends(mask: u16)
    requires
        mask != 0,
    ensures
        mask.trailing_ones() <= 16,
        mask.leading_zeros() < 16,
        !bit16(mask, mask.trailing_ones() as int),
        forall|j: int| 0 <= j < mask.trailing_ones() ==> bit16(mask, j),
        bit16(mask, 15 - mask.leading_zeros()),
        forall|j: int| 15 - mask.leading_zeros() < j ==> !bit16(mask, j),
{
    vstd::std_specs::bits::axiom_u16_trailing_ones(mask);
    vstd::std_specs::bits::axiom_u16_leading_zeros(mask);
    let ones = mask.trailing_ones();
    let zeros = mask.leading_zeros();
    assert forall|j: int| 0 <= j < ones implies bit16(mask, j) by {
        let s = j as u16;
        assert((mask >> s) & 1u16 == 1u16);
    }
    let top = (15u16 - zeros as u16) as u16;
    assert((mask >> top) & 1u16 != 0u16);
    assert((mask >> top) & 1u16 == 0u16 || (mask >> top) & 1u16 == 1u16) by (bit_vector);
    assert forall|j: int| 15 - zeros < j implies !bit16(mask, j) by {
        if j < 16 {
            let s = j as u16;
            assert((mask >> s) & 1u16 == 0u16);
        }
    }
}

/// What holds while the ids are being compacted. The ids from `low` to `high` have not been
/// looked at; below `low` every slot is taken and above `high` every slot is free.
spec fn compacting(table: Seq<u8>, current: u16, mask: u16, low: int, high: int) -> bool {
    &&& table.len() <= 16
    &&& 0 <= low <= high + 1 <= table.len()
    &&& forall|i: int| table.len() <= i ==> !#[trigger] bit16(mask, i)
    &&& forall|i: int| low <= i <= high ==> #[trigger] bit16(current, i) == bit16(mask, i)
    &&& forall|i: int| 0 <= i < low ==> #[trigger] bit16(current, i)
    &&& forall|i: int| high < i ==> !#[trigger] bit16(current, i)
    &&& forall|i: int| low <= i <= high ==> (#[trigger] table[i]) == i
    &&& forall|i: int| 0 <= i < table.len() ==> (#[trigger] table[i]) < table.len()
    &&& forall|i: int| 0 <= i < table.len() ==> table[(#[trigger] table[i]) as int] == i
    &&& forall|i: int|
        0 <= i < low ==> (if bit16(mask, i) {
            (#[trigger] table[i]) == i
        } else {
            table[i] > high && bit16(mask, table[i] as int)
        })
    &&& forall|i: int|
        high < i < table.len() ==> (if bit16(mask, i) {
            (#[trigger] table[i]) < low && !bit16(mask, table[i] as int)
        } else {
            table[i] == i
        })
    &&& forall|i: int, j: int|
        0 <= i < j < low && !bit16(mask, i) && !bit16(mask, j) ==> (#[trigger] table[i]) > (
        #[trigger] table[j])
}

proof fn lemma_compacting_swap(
    table: Seq<u8>,
    current: u16,
    mask: u16,
    low: int,
    high: int,
    available: int,
    displaced: int,
)
    requires
        compacting(table, current, mask, low, high),
        current != 0,
        available == current.trailing_ones(),
        displaced == 15 - current.leading_zeros(),
        available <= displaced,
    ensures
        low <= available < displaced <= high,
        (current & !(1u16 << (displaced as u16))) | (1u16 << (available as u16)) != 0,
        compacting(
            table.update(available, table[displaced]).update(displaced, table[available]),
            (current & !(1u16 << (displaced as u16))) | (1u16 << (available as u16)),
            mask,
            available + 1,
            displaced - 1,
        ),
{
    lemma_mask_ends(current);
    let cleared = current & !(1u16 << (displaced as u16));
    let next = cleared | (1u16 << (available as u16));
    lemma_bit16_clear(current, displaced as u16);
    lemma_bit16_set(cleared, available as u16);
    let swapped = table.update(available, table[displaced]).update(displaced, table[available]);
    assert(next != 0) by {
        lemma_bit16_zero();
        assert(bit16(next, available));
    }
    assert(bit16(current, displaced));
    assert(!bit16(current, available));
    assert(available != displaced);
    assert(low <= available) by {
        if available < low {
            assert(bit16(current, available));
        }
    }
    assert(displaced <= high) by {
        if displaced > high {
            assert(!bit16(current, displaced));
        }
    }
    assert(bit16(mask, displaced));
    assert(!bit16(mask, available));
    assert forall|i: int| available + 1 <= i <= displaced - 1 implies #[trigger] bit16(next, i)
        == bit16(mask, i) by {
        assert(bit16(cleared, i) == (i != displaced && bit16(current, i)));
        assert(bit16(next, i) == (i == available || bit16(cleared, i)));
        assert(bit16(current, i) == bit16(mask, i));
    }
    assert forall|i: int| 0 <= i < available + 1 implies #[trigger] bit16(next, i) by {
        assert(bit16(cleared, i) == (i != displaced && bit16(current, i)));
        assert(bit16(next, i) == (i == available || bit16(cleared, i)));
    }
    assert forall|i: int| displaced - 1 < i implies !#[trigger] bit16(next, i) by {
        assert(bit16(cleared, i) == (i != displaced && bit16(current, i)));
        assert(bit16(next, i) == (i == available || bit16(cleared, i)));
    }
    assert forall|i: int| 0 <= i < swapped.len() implies swapped[(#[trigger] swapped[i]) as int]
        == i by {
        assert(table[table[i] as int] == i);
        assert(table[available] == available);
        assert(table[displaced] == displaced);
    }
    assert forall|i: int| 0 <= i < available + 1 implies (if bit16(mask, i) {
        (#[trigger] swapped[i]) == i
    } else {
        swapped[i] > displaced - 1 && bit16(mask, swapped[i] as int)
    }) by {
        if i < low {
            assert(if bit16(mask, i) {
                table[i] == i
            } else {
                table[i] > high && bit16(mask, table[i] as int)
            });
        } else if i < available {
            assert(bit16(current, i) == bit16(mask, i));
            assert(table[i] == i);
        }
    }
    assert forall|i: int| displaced - 1 < i < swapped.len() implies (if bit16(mask, i) {
        (#[trigger] swapped[i]) < available + 1 && !bit16(mask, swapped[i] as int)
    } else {
        swapped[i] == i
    }) by {
        if i > high {
            assert(if bit16(mask, i) {
                table[i] < low && !bit16(mask, table[i] as int)
            } else {
                table[i] == i
            });
        } else if i > displaced {
            assert(bit16(current, i) == bit16(mask, i));
            assert(table[i] == i);
        }
    }
    assert forall|i: int, j: int|
        0 <= i < j < available + 1 && !bit16(mask, i) && !bit16(mask, j) implies (
    #[trigger] swapped[i]) > (#[trigger] swapped[j]) by {
        assert(i < low) by {
            if i >= low {
                assert(bit16(current, i) == bit16(mask, i));
            }
        }
        assert(table[i] > high && bit16(mask, table[i] as int));
        if j < low {
            assert(table[i] > table[j]);
        } else {
            assert(j == available) by {
                if j < available {
                    assert(bit16(current, j) == bit16(mask, j));
                }
            }
        }
    }
}

proof fn lemma_compacting_done(table: Seq<u8>, current: u16, mask: u16, low: int, high: int)
    requires
        compacting(table, current, mask, low, high),
        current == 0 || current.trailing_ones() > 15 - current.leading_zeros(),
    ensures
        is_compaction(table, 16 - current.leading_zeros(), mask),
{
    let watermark = 16 - current.leading_zeros();
    if current == 0 {
        vstd::std_specs::bits::axiom_u16_leading_zeros(current);
        lemma_bit16_zero();
        assert(watermark == 0);
        assert(low == 0) by {
            if low > 0 {
                assert(bit16(current, 0));
            }
        }
    } else {
        lemma_mask_ends(current);
        let ones = current.trailing_ones() as int;
        assert(ones == watermark) by {
            if ones > watermark {
                assert(bit16(current, watermark));
            }
        }
        assert(low <= watermark) by {
            if watermark < low {
                assert(bit16(current, watermark));
            }
        }
        assert(watermark - 1 <= high) by {
            if watermark - 1 > high {
                assert(!bit16(current, watermark - 1));
            }
        }
    }
    assert forall|i: int| 0 <= i < watermark implies bit16(mask, (#[trigger] table[i]) as int) by {
        if i < low {
            assert(if bit16(mask, i) {
                table[i] == i
            } else {
                table[i] > high && bit16(mask, table[i] as int)
            });
        } else {
            assert(bit16(current, i) == bit16(mask, i));
            assert(table[i] == i);
        }
    }
    assert forall|i: int| 0 <= i < table.len() && bit16(mask, i) implies (#[trigger] table[i])
        < watermark by {
        if i < low {
            assert(if bit16(mask, i) {
                table[i] == i
            } else {
                table[i] > high && bit16(mask, table[i] as int)
            });
        } else if i <= high {
            assert(bit16(current, i) == bit16(mask, i));
            assert(table[i] == i);
        } else {
            assert(if bit16(mask, i) {
                table[i] < low && !bit16(mask, table[i] as int)
            } else {
                table[i] == i
            });
        }
    }
    assert forall|i: int|
        0 <= i < table.len() && (i < watermark) == bit16(mask, i) implies (#[trigger] table[i])
        == i by {
        if i < low {
            assert(if bit16(mask, i) {
                table[i] == i
            } else {
                table[i] > high && bit16(mask, table[i] as int)
            });
        } else if i <= high {
            assert(table[i] == i);
        } else {
            assert(if bit16(mask, i) {
                table[i] < low && !bit16(mask, table[i] as int)
            } else {
                table[i] == i
            });
        }
    }
    assert forall|i: int, j: int|
        0 <= i < j < watermark && !bit16(mask, i) && !bit16(mask, j) implies (#[trigger] table[i])
        > (#[trigger] table[j]) by {
        assert(j < low) by {
            if j >= low {
                assert(bit16(current, j) == bit16(mask, j));
            }
        }
    }
}

/// Renumbers the ids so that those in use, whose bits are set in `mask`, come first: as long
/// as an id in use stands above a free slot, the highest such id moves to the lowest free slot.
pub fn compacted_mapping_from_mask<const N: usize>(mask: u16) -> (mapping: CompactedMapping<N>)
    requires
        N <= 16,
        forall|i: int| N <= i < 16 ==> !bit16(mask, i),
    ensures
        is_compaction(mapping.0@, mapping.watermark(), mask),
        mapping.wf(),
{
    // At first every id keeps its number.
    let mut table: [u8; N] = [0u8; N];
    let mut i: usize = 0;
    while i < N
        invariant
            i <= N <= 16,
            forall|j: int| 0 <= j < i ==> (#[trigger] table[j]) == j,
        decreases N - i,
    {
        table[i] = i as u8;
        i += 1;
    }
    let mut current = mask;
    let ghost mut low: int = 0;
    let ghost mut high: int = N - 1;
    if current != 0 {
        loop
            invariant
                compacting(table@, current, mask, low, high),
                current != 0,
                N <= 16,
            ensures
                current.trailing_ones() > 15 - current.leading_zeros(),
            decreases high + 1 - low,
        {
            // The lowest free slot, and the highest id in use.
            let available = current.trailing_ones() as usize;
            proof {
                lemma_mask_ends(current);
            }
            let displaced = 15 - (current.leading_zeros() as usize);
            if available > displaced {
                break ;
            }
            proof {
                lemma_compacting_swap(
                    table@,
                    current,
                    mask,
                    low,
                    high,
                    available as int,
                    displaced as int,
                );
            }
            let moved = table[available];
            table[available] = table[displaced];
            table[displaced] = moved;
            current = current & !(1u16 << displaced);
            current = current | (1u16 << available);
            proof {
                low = available + 1;
                high = displaced - 1;
            }
        }
    }
    proof {
        lemma_compacting_done(table@, current, mask, low, high);
        vstd::std_specs::bits::axiom_u16_leading_zeros(current);
    }
    CompactedMapping(table, 16 - (current.leading_zeros() as usize))
}

/// The ids in the slots below the watermark are the ids in use, and no others.
pub proof fn lemma_live_slots_hold_the_used_ids(table: Seq<u8>, watermark: int, mask: u16)
    requires
        is_compaction(table, watermark, mask),
    ensures
        forall|id: int|
            0 <= id < table.len() ==> (bit16(mask, id) <==> exists|i: int|
                0 <= i < watermark && #[trigger] table[i] == id),
        forall|i: int| 0 <= i < table.len() ==> table[(#[trigger] table[i]) as int] == i,
{
    assert forall|id: int| 0 <= id < table.len() implies (bit16(mask, id) <==> exists|i: int|
        0 <= i < watermark && #[trigger] table[i] == id) by {
        if bit16(mask, id) {
            let i = table[id] as int;
            assert(table[id] < watermark);
            assert(table[table[id] as int] == id);
            assert(0 <= i < watermark && table[i] == id);
        }
        if exists|i: int| 0 <= i < watermark && #[trigger] table[i] == id {
            let i = choose|i: int| 0 <= i < watermark && #[trigger] table[i] == id;
            assert(bit16(mask, table[i] as int));
        }
    }
}

/// A row after the renumbering of its family's instruments: a row that playback reaches and
/// that names an instrument names it by its new number, counted from 1 as the old one was.
pub open spec fn with_new_instr(row: AnnotatedCell, table: Seq<u8>) -> AnnotatedCell {
    match row.cell.0 {
        CellFirstHalf::Pattern { note, instrument } => if row.reachable && instrument != 0 {
            AnnotatedCell {
                reachable: true,
                cell: Cell(
                    CellFirstHalf::Pattern {
                        note,
                        instrument: (table[instrument - 1] + 1) as u8,
                    },
                    row.cell.1,
                ),
            }
        } else {
            row
        },
        CellFirstHalf::Subpattern { .. } => row,
    }
}

/// The row can be renumbered: if playback reaches it, it is a row of the main grid, and the
/// table has a new number for its instrument.
pub open spec fn has_new_instr(row: AnnotatedCell, table: Seq<u8>) -> bool {
    row.reachable ==> (row.cell.0 matches CellFirstHalf::Pattern { instrument, .. } && (instrument
        != 0 ==> instrument <= table.len() && table[instrument - 1] < 255))
}

/// Rewrites the instruments that the reached rows of a pattern of the main grid name, after
/// the renumbering of its family's instruments.
pub fn remap_instrs(pattern: &mut OptimisedPattern, mapping: &[u8; 15])
    requires
        forall|r: int|
            0 <= r < old(pattern).0.len() ==> has_new_instr(
                #[trigger] old(pattern).0[r],
                mapping@,
            ),
    ensures
        final(pattern).0.len() == old(pattern).0.len(),
        forall|r: int|
            0 <= r < old(pattern).0.len() ==> #[trigger] final(pattern).0[r] == with_new_instr(
                old(pattern).0[r],
                mapping@,
            ),
{
    let len = pattern.0.len();
    let mut r: usize = 0;
    while r < len
        invariant
            r <= len,
            pattern.0.len() == len,
            len == old(pattern).0.len(),
            forall|k: int|
                0 <= k < len ==> has_new_instr(#[trigger] old(pattern).0[k], mapping@),
            forall|k: int|
                0 <= k < r ==> #[trigger] pattern.0[k] == with_new_instr(
                    old(pattern).0[k],
                    mapping@,
                ),
            forall|k: int| r <= k < len ==> #[trigger] pattern.0[k] == old(pattern).0[k],
        decreases len - r,
    {
        let row = pattern.0[r];
        assert(has_new_instr(old(pattern).0[r as int], mapping@));
        // An unreachable row plays nothing, and instrument 0 is no instrument.
        if row.reachable {
            match row.cell.0 {
                CellFirstHalf::Pattern { note, instrument } => {
                    if instrument != 0 {
                        let renumbered = mapping[instrument as usize - 1] + 1;
                        pattern.0[r].cell.0 = CellFirstHalf::Pattern {
                            note,
                            instrument: renumbered,
                        };
                    }
                },
                CellFirstHalf::Subpattern { .. } => {},
            }
        }
        r += 1;
    }
}

/// A row after the renumbering of the waves: in a pattern of the wave family, a row that
/// playback reaches and that changes the timbre names the wave by its new number.
pub open spec fn with_new_wave(row: AnnotatedCell, id: PatternId, table: Seq<u8>) -> AnnotatedCell {
    if id.spec_kind() == InstrKind::Wave && row.reachable && row.cell.1.id
        == EffectId::ChangeTimbre {
        AnnotatedCell {
            reachable: true,
            cell: Cell(
                row.cell.0,
                Effect { id: EffectId::ChangeTimbre, param: table[row.cell.1.param as int] },
            ),
        }
    } else {
        row
    }
}

/// The row can be renumbered: if it names a wave, the table has a new number for it.
pub open spec fn has_new_wave(row: AnnotatedCell, id: PatternId, table: Seq<u8>) -> bool {
    id.spec_kind() == InstrKind::Wave && row.reachable && row.cell.1.id == EffectId::ChangeTimbre
        ==> row.cell.1.param < table.len()
}

fn remap_pattern_waves(pattern: &mut OptimisedPattern, id: PatternId, mapping: &[u8; 16])
    requires
        forall|r: int|
            0 <= r < old(pattern).0.len() ==> has_new_wave(
                #[trigger] old(pattern).0[r],
                id,
                mapping@,
            ),
    ensures
        final(pattern).0.len() == old(pattern).0.len(),
        forall|r: int|
            0 <= r < old(pattern).0.len() ==> #[trigger] final(pattern).0[r] == with_new_wave(
                old(pattern).0[r],
                id,
                mapping@,
            ),
{
    let wave_kind = match id.kind() {
        InstrKind::Wave => true,
        _ => false,
    };
    if !wave_kind {
        return ;
    }
    let len = pattern.0.len();
    let mut r: usize = 0;
    while r < len
        invariant
            r <= len,
            pattern.0.len() == len,
            len == old(pattern).0.len(),
            id.spec_kind() == InstrKind::Wave,
            forall|k: int|
                0 <= k < len ==> has_new_wave(#[trigger] old(pattern).0[k], id, mapping@),
            forall|k: int|
                0 <= k < r ==> #[trigger] pattern.0[k] == with_new_wave(
                    old(pattern).0[k],
                    id,
                    mapping@,
                ),
            forall|k: int| r <= k < len ==> #[trigger] pattern.0[k] == old(pattern).0[k],
        decreases len - r,
    {
        let row = pattern.0[r];
        assert(has_new_wave(old(pattern).0[r as int], id, mapping@));
        if row.reachable {
            match row.cell.1.id {
                EffectId::ChangeTimbre => {
                    pattern.0[r].cell.1.param = mapping[row.cell.1.param as usize];
                },
                _ => {},
            }
        }
        r += 1;
    }
}

/// Rewrites the waves that the reached rows of the wave family's patterns and subpatterns
/// change the timbre to, after the renumbering of the waves.
pub fn remap_waves(patterns: &mut PatternStore, mapping: &[u8; 16])
    requires
        forall|i: int, r: int|
            0 <= i < old(patterns).entries.len() && 0 <= r < old(
                patterns,
            ).entries[i].pattern.0.len() ==> has_new_wave(
                #[trigger] old(patterns).entries[i].pattern.0[r],
                old(patterns).entries[i].id,
                mapping@,
            ),
    ensures
        final(patterns).entries.len() == old(patterns).entries.len(),
        forall|i: int|
            0 <= i < old(patterns).entries.len() ==> (#[trigger] final(patterns).entries[i]).id
                == old(patterns).entries[i].id && final(patterns).entries[i].pattern.0.len()
                == old(patterns).entries[i].pattern.0.len(),
        forall|i: int, r: int|
            0 <= i < old(patterns).entries.len() && 0 <= r < old(
                patterns,
            ).entries[i].pattern.0.len() ==> #[trigger] final(patterns).entries[i].pattern.0[r]
                == with_new_wave(
                old(patterns).entries[i].pattern.0[r],
                old(patterns).entries[i].id,
                mapping@,
            ),
{
    let total = patterns.entries.len();
    let mut i: usize = 0;
    while i < total
        invariant
            i <= total,
            total == old(patterns).entries.len(),
            patterns.entries.len() == total,
            forall|k: int, r: int|
                0 <= k < total && 0 <= r < old(patterns).entries[k].pattern.0.len()
                    ==> has_new_wave(
                    #[trigger] old(patterns).entries[k].pattern.0[r],
                    old(patterns).entries[k].id,
                    mapping@,
                ),
            forall|k: int|
                0 <= k < total ==> (#[trigger] patterns.entries[k]).id == old(
                    patterns,
                ).entries[k].id && patterns.entries[k].pattern.0.len() == old(
                    patterns,
                ).entries[k].pattern.0.len(),
            forall|k: int, r: int|
                0 <= k < i && 0 <= r < old(patterns).entries[k].pattern.0.len()
                    ==> #[trigger] patterns.entries[k].pattern.0[r] == with_new_wave(
                    old(patterns).entries[k].pattern.0[r],
                    old(patterns).entries[k].id,
                    mapping@,
                ),
            forall|k: int| i <= k < total ==> #[trigger] patterns.entries[k] == old(
                patterns,
            ).entries[k],
        decreases total - i,
    {
        let id = patterns.entries[i].id;
        let ghost before = *patterns;
        assert forall|r: int| 0 <= r < patterns.entries[i as int].pattern.0.len() implies has_new_wave(
            #[trigger] patterns.entries[i as int].pattern.0[r],
            id,
            mapping@,
        ) by {
            assert(has_new_wave(
                old(patterns).entries[i as int].pattern.0[r],
                old(patterns).entries[i as int].id,
                mapping@,
            ));
        }
        remap_pattern_waves(&mut patterns.entries[i].pattern, id, mapping);
        proof {
            assert forall|k: int| 0 <= k < total implies (#[trigger] patterns.entries[k]).id
                == old(patterns).entries[k].id && patterns.entries[k].pattern.0.len() == old(
                patterns,
            ).entries[k].pattern.0.len() by {
                assert(before.entries[k].id == old(patterns).entries[k].id);
            }
            assert forall|k: int, r: int|
                0 <= k < i + 1 && 0 <= r < old(
                    patterns,
                ).entries[k].pattern.0.len() implies #[trigger] patterns.entries[k].pattern.0[r]
                == with_new_wave(
                old(patterns).entries[k].pattern.0[r],
                old(patterns).entries[k].id,
                mapping@,
            ) by {
                if k < i {
                    assert(patterns.entries[k] == before.entries[k]);
                    assert(before.entries[k].pattern.0[r] == with_new_wave(
                        old(patterns).entries[k].pattern.0[r],
                        old(patterns).entries[k].id,
                        mapping@,
                    ));
                }
            }
            assert forall|k: int| i + 1 <= k < total implies #[trigger] patterns.entries[k] == old(
                patterns,
            ).entries[k] by {
                assert(patterns.entries[k] == before.entries[k]);
            }
        }
        i += 1;
    }
}

} // verus!
