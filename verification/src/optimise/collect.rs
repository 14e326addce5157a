//! The patterns that the passes work on, copied out of the song.

use crate::bits::{bit16, lemma_bit16_values};
use crate::optimise::cell::Cell;
use crate::optimise::reachability::{covers_grid, grid_id, grid_pattern, nb_orders};
use crate::optimise::store::{
    AnnotatedCell, InstrKind, OptimisedPattern, PatternId, PatternStore,
};
use crate::song::{Instrument, Pattern, Song, Subpattern};
use vstd::prelude::*;

verus! {

/// The rows of a pattern of the main grid as the passes first see them: none reached yet.
pub open spec fn fresh_rows(pattern: Pattern) -> Seq<AnnotatedCell> {
    Seq::new(
        64,
        |r: int| AnnotatedCell { reachable: false, cell: Cell::of_pattern_cell(pattern[r]) },
    )
}

/// The rows of a subpattern as the passes first see them: none reached yet.
pub open spec fn fresh_sub_rows(subpattern: Subpattern) -> Seq<AnnotatedCell> {
    Seq::new(
        32,
        |r: int| AnnotatedCell { reachable: false, cell: Cell::of_subpattern_cell(subpattern[r]) },
    )
}

/// Every entry of the order matrix names a pattern of the song.
pub open spec fn orders_in_range(song: &Song) -> bool {
    forall|order: int, channel: int|
        0 <= order < nb_orders(song) && 0 <= channel < 4 ==> #[trigger] grid_pattern(
            song,
            order,
            channel,
        ) < song.patterns.len()
}

/// The order matrix names the pattern `id` within its first `orders` rows: as a pattern of
/// the main grid, for the family of the channel that plays it.
pub open spec fn named_before(song: &Song, id: PatternId, orders: int) -> bool {
    exists|order: int, channel: int|
        0 <= order < orders && 0 <= channel < 4 && #[trigger] grid_id(song, order, channel) == id
}

/// The order matrix names the pattern `id`.
pub open spec fn named_in_grid(song: &Song, id: PatternId) -> bool {
    named_before(song, id, nb_orders(song))
}

/// Row `order` of the order matrix names the pattern `id`.
pub open spec fn row_names(song: &Song, order: int, id: PatternId) -> bool {
    grid_id(song, order, 0) == id || grid_id(song, order, 1) == id || grid_id(song, order, 2)
        == id || grid_id(song, order, 3) == id
}

/// The store holds a fresh copy of each pattern that the first `orders` rows of the order
/// matrix name, and nothing else.
pub open spec fn collected_before(song: &Song, store: PatternStore, orders: int) -> bool {
    &&& store.wf()
    &&& forall|id: PatternId| #[trigger] store.contains(id) == named_before(song, id, orders)
    &&& forall|i: int|
        0 <= i < store.entries.len() ==> ((#[trigger] store.entries[i]).id matches PatternId::Pattern(
            _,
            index,
        ) && index < song.patterns.len() && store.entries[i].pattern.0@ == fresh_rows(
            song.patterns[index as int],
        ))
    &&& store.entries.len() <= 4 * orders
}

/// The store holds a fresh copy of each pattern that the order matrix names, for the family of
/// each channel that plays it, and nothing else.
pub open spec fn collected(song: &Song, store: PatternStore) -> bool {
    collected_before(song, store, nb_orders(song))
}

fn fresh_pattern(pattern: &Pattern) -> (fresh: OptimisedPattern)
    ensures
        fresh.0@ == fresh_rows(*pattern),
{
    let mut rows: Vec<AnnotatedCell> = Vec::new();
    let mut r: usize = 0;
    while r < 64
        invariant
            r <= 64,
            rows.len() == r,
            forall|k: int| 0 <= k < r ==> #[trigger] rows[k] == fresh_rows(*pattern)[k],
        decreases 64 - r,
    {
        rows.push(AnnotatedCell { reachable: false, cell: Cell::from(&pattern[r]) });
        r += 1;
    }
    assert(rows@ =~= fresh_rows(*pattern));
    OptimisedPattern(rows)
}

fn fresh_subpattern(subpattern: &Subpattern) -> (fresh: OptimisedPattern)
    ensures
        fresh.0@ == fresh_sub_rows(*subpattern),
{
    let mut rows: Vec<AnnotatedCell> = Vec::new();
    let mut r: usize = 0;
    while r < 32
        invariant
            r <= 32,
            rows.len() == r,
            forall|k: int| 0 <= k < r ==> #[trigger] rows[k] == fresh_sub_rows(*subpattern)[k],
        decreases 32 - r,
    {
        rows.push(
            AnnotatedCell { reachable: false, cell: Cell::from(&subpattern[r]) },
        );
        r += 1;
    }
    assert(rows@ =~= fresh_sub_rows(*subpattern));
    OptimisedPattern(rows)
}

/// What the entries of a store of fresh copies hold.
spec fn holds_fresh_copies(song: &Song, store: PatternStore) -> bool {
    forall|i: int|
        0 <= i < store.entries.len() ==> ((#[trigger] store.entries[i]).id matches PatternId::Pattern(
            _,
            index,
        ) && index < song.patterns.len() && store.entries[i].pattern.0@ == fresh_rows(
            song.patterns[index as int],
        ))
}

/// Puts into the store a fresh copy of the pattern that plays on a channel at an order row,
/// unless the store has that copy.
fn collect_one(song: &Song, patterns: &mut PatternStore, order: usize, channel: usize)
    requires
        orders_in_range(song),
        order < nb_orders(song),
        channel < 4,
        old(patterns).wf(),
        holds_fresh_copies(song, *old(patterns)),
    ensures
        final(patterns).wf(),
        holds_fresh_copies(song, *final(patterns)),
        forall|id: PatternId| #[trigger]
            final(patterns).contains(id) == (old(patterns).contains(id) || id == grid_id(
                song,
                order as int,
                channel as int,
            )),
        final(patterns).entries.len() <= old(patterns).entries.len() + 1,
{
    let pattern_id = song.order_matrix[order][channel];
    assert(pattern_id == grid_pattern(song, order as int, channel as int));
    let id = PatternId::Pattern(InstrKind::from_channel_id(channel), pattern_id);
    if !patterns.contains_key(id) {
        let ghost before = *patterns;
        patterns.insert(id, fresh_pattern(&song.patterns[pattern_id]));
        proof {
            assert forall|i: int| 0 <= i < patterns.entries.len() implies ((
            #[trigger] patterns.entries[i]).id matches PatternId::Pattern(_, index) && index
                < song.patterns.len() && patterns.entries[i].pattern.0@ == fresh_rows(
                song.patterns[index as int],
            )) by {
                patterns.lemma_index_of(i);
                let other = patterns.entries[i].id;
                if other != id {
                    assert(before.contains(other));
                    let k = before.index_of(other);
                    before.lemma_index_of(k);
                }
            }
        }
    }
}

/// Copies the patterns that the order matrix names into a store, once for each family of
/// channels that plays them: the instruments of each family are renumbered apart, so each
/// family has to have its own copy.
pub fn collect_patterns(song: &Song) -> (patterns: PatternStore)
    requires
        orders_in_range(song),
    ensures
        collected(song, patterns),
        covers_grid(patterns, song),
{
    let mut patterns = PatternStore::new();
    let mut order: usize = 0;
    while order < song.order_matrix.len()
        invariant
            orders_in_range(song),
            order <= nb_orders(song),
            holds_fresh_copies(song, patterns),
            collected_before(song, patterns, order as int),
        decreases nb_orders(song) - order,
    {
        let ghost before = patterns;
        collect_one(song, &mut patterns, order, 0);
        let ghost after0 = patterns;
        collect_one(song, &mut patterns, order, 1);
        let ghost after1 = patterns;
        collect_one(song, &mut patterns, order, 2);
        let ghost after2 = patterns;
        collect_one(song, &mut patterns, order, 3);
        proof {
            assert forall|id: PatternId| #[trigger]
                patterns.contains(id) == named_before(song, id, order + 1) by {
                assert(after0.contains(id) == (before.contains(id) || id == grid_id(
                    song,
                    order as int,
                    0,
                )));
                assert(after1.contains(id) == (after0.contains(id) || id == grid_id(
                    song,
                    order as int,
                    1,
                )));
                assert(after2.contains(id) == (after1.contains(id) || id == grid_id(
                    song,
                    order as int,
                    2,
                )));
                assert(before.contains(id) == named_before(song, id, order as int));
                lemma_named_before(song, id, order as int);
            }
        }
        order += 1;
    }
    proof {
        assert forall|order: int, channel: int|
            0 <= order < nb_orders(song) && 0 <= channel < 4 implies patterns.contains(
            #[trigger] grid_id(song, order, channel),
        ) by {
            assert(named_before(song, grid_id(song, order, channel), nb_orders(song)));
        }
        assert forall|i: int|
            0 <= i < patterns.entries.len() && (
            #[trigger] patterns.entries[i]).id is Pattern implies patterns.entries[i].pattern.0.len()
            == 64 by {}
    }
    patterns
}

proof fn lemma_named_before(song: &Song, id: PatternId, orders: int)
    requires
        0 <= orders,
    ensures
        named_before(song, id, orders + 1) == (named_before(song, id, orders) || row_names(
            song,
            orders,
            id,
        )),
{
    if named_before(song, id, orders) {
        let (order, channel) = choose|order: int, channel: int|
            0 <= order < orders && 0 <= channel < 4 && #[trigger] grid_id(song, order, channel)
                == id;
        assert(0 <= order < orders + 1 && 0 <= channel < 4 && grid_id(song, order, channel) == id);
    }
    if row_names(song, orders, id) {
        let channel: int = if grid_id(song, orders, 0) == id {
            0
        } else if grid_id(song, orders, 1) == id {
            1
        } else if grid_id(song, orders, 2) == id {
            2
        } else {
            3
        };
        assert(0 <= orders < orders + 1 && 0 <= channel < 4 && grid_id(song, orders, channel)
            == id);
    }
}

/// The subpattern of instrument `index + 1` of the bank is to be collected: the instrument is
/// in use and has one.
pub open spec fn has_used_subpattern(instruments: Seq<Instrument>, mask: u16, index: int) -> bool {
    0 <= index < instruments.len() && bit16(mask, index) && instruments[index].subpattern is Some
}

/// The pattern `id` is the subpattern, to be collected, of an instrument among the first
/// `upto` of the bank.
pub open spec fn is_used_subpattern(
    instruments: Seq<Instrument>,
    mask: u16,
    kind: InstrKind,
    id: PatternId,
    upto: int,
) -> bool {
    id matches PatternId::Subpattern(id_kind, number) && id_kind == kind && 1 <= number <= upto
        && has_used_subpattern(instruments, mask, number - 1)
}

/// `after` is `before` with a fresh copy of the subpattern of each instrument, among the
/// first `upto` of the bank, that is in use and has one.
pub open spec fn subpatterns_collected(
    before: PatternStore,
    after: PatternStore,
    instruments: Seq<Instrument>,
    mask: u16,
    kind: InstrKind,
    upto: int,
) -> bool {
    &&& after.wf()
    &&& forall|id: PatternId| #[trigger]
        after.contains(id) == (before.contains(id) || is_used_subpattern(
            instruments,
            mask,
            kind,
            id,
            upto,
        ))
    &&& forall|id: PatternId|
        after.contains(id) ==> #[trigger] after.rows(id) == (if is_used_subpattern(
            instruments,
            mask,
            kind,
            id,
            upto,
        ) {
            fresh_sub_rows(instruments[id.spec_index() - 1].subpattern->0)
        } else {
            before.rows(id)
        })
    &&& after.entries.len() <= before.entries.len() + upto
}

/// Copies into the store the subpatterns of the instruments of a bank that are in use: bit `i`
/// of the mask stands for instrument `i + 1`, which is the number that its subpattern goes by.
pub fn collect_subpatterns(
    patterns: &mut PatternStore,
    instruments: &[Instrument; 15],
    used_instrs_mask: u16,
    kind: InstrKind,
)
    requires
        old(patterns).wf(),
    ensures
        subpatterns_collected(
            *old(patterns),
            *final(patterns),
            instruments@,
            used_instrs_mask,
            kind,
            15,
        ),
{
    let mut index: usize = 0;
    while index < 15
        invariant
            index <= 15,
            subpatterns_collected(
                *old(patterns),
                *patterns,
                instruments@,
                used_instrs_mask,
                kind,
                index as int,
            ),
        decreases 15 - index,
    {
        let ghost before = *patterns;
        proof {
            lemma_bit16_values(used_instrs_mask, index as u16);
        }
        // Only the instruments that playback reaches.
        if used_instrs_mask & (1u16 << index) != 0 {
            match &instruments[index].subpattern {
                Some(subpattern) => {
                    patterns.insert(
                        PatternId::Subpattern(kind, index + 1),
                        fresh_subpattern(subpattern),
                    );
                },
                None => {},
            }
        }
        proof {
            let id_now = PatternId::Subpattern(kind, (index + 1) as usize);
            let taken = has_used_subpattern(instruments@, used_instrs_mask, index as int);
            assert forall|id: PatternId| #[trigger]
                patterns.contains(id) == (old(patterns).contains(id) || is_used_subpattern(
                    instruments@,
                    used_instrs_mask,
                    kind,
                    id,
                    index + 1,
                )) by {
                assert(before.contains(id) == (old(patterns).contains(id) || is_used_subpattern(
                    instruments@,
                    used_instrs_mask,
                    kind,
                    id,
                    index as int,
                )));
            }
            assert forall|id: PatternId| patterns.contains(id) implies #[trigger] patterns.rows(id)
                == (if is_used_subpattern(instruments@, used_instrs_mask, kind, id, index + 1) {
                fresh_sub_rows(instruments@[id.spec_index() - 1].subpattern->0)
            } else {
                old(patterns).rows(id)
            }) by {
                assert(before.contains(id) == (old(patterns).contains(id) || is_used_subpattern(
                    instruments@,
                    used_instrs_mask,
                    kind,
                    id,
                    index as int,
                )));
                if !(taken && id == id_now) {
                    assert(before.contains(id));
                    assert(before.rows(id) == (if is_used_subpattern(
                        instruments@,
                        used_instrs_mask,
                        kind,
                        id,
                        index as int,
                    ) {
                        fresh_sub_rows(instruments@[id.spec_index() - 1].subpattern->0)
                    } else {
                        old(patterns).rows(id)
                    }));
                }
            }
        }
        index += 1;
    }
}

} // verus!
