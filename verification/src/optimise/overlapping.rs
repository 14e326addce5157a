//! Row pools: the search for an order in which the rows of the patterns overlap, and the
//! laying out of the order that it finds.

use crate::optimise::cell::Cell;
use crate::optimise::store::{AnnotatedCell, PatternId, PatternStore};
use vstd::prelude::*;

verus! {

/// A pattern and the row of the pool at which it starts.
pub type Placement = (PatternId, usize);

impl AnnotatedCell {
    /// Two rows can share a place in the pool unless playback reaches both and finds
    /// different cells.
    pub open spec fn spec_can_overlap_with(&self, other: &AnnotatedCell) -> bool {
        !self.reachable || !other.reachable || self.cell.same_as(other.cell)
    }

    #[verifier::when_used_as_spec(spec_can_overlap_with)]
    pub fn can_overlap_with(&self, other: &AnnotatedCell) -> (can: bool)
        ensures
            can == self.spec_can_overlap_with(other),
    {
        !self.reachable || !other.reachable || self.cell == other.cell
    }
}

/// The row of the pool that follows the last row of the placed pattern.
pub open spec fn end_of(store: PatternStore, placement: Placement) -> int {
    placement.1 + store.rows(placement.0).len()
}

/// The placed pattern has a row at row `at` of the pool.
pub open spec fn covers(store: PatternStore, placement: Placement, at: int) -> bool {
    placement.1 <= at < end_of(store, placement)
}

/// The row of the placed pattern that stands at row `at` of the pool.
pub open spec fn row_at(store: PatternStore, placement: Placement, at: int) -> AnnotatedCell {
    store.rows(placement.0)[at - placement.1]
}

/// The number of rows of the pool: the patterns reach up to there and no further.
pub open spec fn pool_len(store: PatternStore, ordering: Seq<Placement>) -> int
    decreases ordering.len(),
{
    if ordering.len() == 0 {
        0
    } else {
        let rest = pool_len(store, ordering.drop_last());
        let end = end_of(store, ordering.last());
        if end > rest {
            end
        } else {
            rest
        }
    }
}

/// Some placed pattern has a row at row `at` of the pool.
pub open spec fn covered(store: PatternStore, ordering: Seq<Placement>, at: int) -> bool {
    exists|k: int| 0 <= k < ordering.len() && covers(store, #[trigger] ordering[k], at)
}

/// The pattern named `id` is among the placed ones.
pub open spec fn placed(ordering: Seq<Placement>, id: PatternId) -> bool {
    exists|k: int| 0 <= k < ordering.len() && (#[trigger] ordering[k]).0 == id
}

/// The patterns stand in the order of the rows of the pool at which they start.
pub open spec fn starts_ascend(ordering: Seq<Placement>) -> bool {
    forall|a: int, b: int|
        0 <= a < b < ordering.len() ==> (#[trigger] ordering[a]).1 <= (#[trigger] ordering[b]).1
}

/// No pattern is placed twice.
pub open spec fn placed_once(ordering: Seq<Placement>) -> bool {
    forall|a: int, b: int|
        0 <= a < b < ordering.len() ==> (#[trigger] ordering[a]).0 != (#[trigger] ordering[b]).0
}

/// What makes a sequence of placements a pool: the patterns are in the store and not empty,
/// none is placed twice, they stand in the order of their starts, they leave no row of the pool
/// bare, and wherever two of them share a row of the pool, their rows can overlap.
pub open spec fn ordering_wf(store: PatternStore, ordering: Seq<Placement>) -> bool {
    &&& store.wf()
    &&& forall|k: int|
        0 <= k < ordering.len() ==> store.contains((#[trigger] ordering[k]).0) && store.rows(
            ordering[k].0,
        ).len() >= 1
    &&& placed_once(ordering)
    &&& starts_ascend(ordering)
    &&& forall|at: int|
        0 <= at < pool_len(store, ordering) ==> #[trigger] covered(store, ordering, at)
    &&& forall|a: int, b: int, at: int|
        #![trigger row_at(store, ordering[a], at), row_at(store, ordering[b], at)]
        0 <= a < ordering.len() && 0 <= b < ordering.len() && covers(store, ordering[a], at)
            && covers(store, ordering[b], at) ==> row_at(
            store,
            ordering[a],
            at,
        ).spec_can_overlap_with(&row_at(store, ordering[b], at))
}

pub proof fn lemma_pool_len(store: PatternStore, ordering: Seq<Placement>)
    ensures
        pool_len(store, ordering) >= 0,
        forall|k: int|
            0 <= k < ordering.len() ==> end_of(store, #[trigger] ordering[k]) <= pool_len(
                store,
                ordering,
            ),
        ordering.len() > 0 ==> exists|k: int|
            0 <= k < ordering.len() && end_of(store, #[trigger] ordering[k]) == pool_len(
                store,
                ordering,
            ),
    decreases ordering.len(),
{
    if ordering.len() > 0 {
        let rest = ordering.drop_last();
        lemma_pool_len(store, rest);
        assert forall|k: int| 0 <= k < ordering.len() implies end_of(
            store,
            #[trigger] ordering[k],
        ) <= pool_len(store, ordering) by {
            if k < rest.len() {
                assert(rest[k] == ordering[k]);
            }
        }
        if end_of(store, ordering.last()) > pool_len(store, rest) || rest.len() == 0 {
            assert(end_of(store, ordering[ordering.len() - 1]) == pool_len(store, ordering));
        } else {
            let k = choose|k: int|
                0 <= k < rest.len() && end_of(store, #[trigger] rest[k]) == pool_len(store, rest);
            assert(end_of(store, ordering[k]) == pool_len(store, ordering));
        }
    }
}

/// No pattern reaches beyond `bound`, so the pool does not either.
pub proof fn lemma_pool_len_bound(store: PatternStore, ordering: Seq<Placement>, bound: int)
    requires
        bound >= 0,
        forall|k: int| 0 <= k < ordering.len() ==> end_of(store, #[trigger] ordering[k]) <= bound,
    ensures
        pool_len(store, ordering) <= bound,
{
    lemma_pool_len(store, ordering);
}

/// The first placement from `from` on that has a row at row `at` of the pool; the number of
/// placements where none has.
pub open spec fn first_cover(store: PatternStore, ordering: Seq<Placement>, at: int, from: int) -> int
    decreases ordering.len() - from,
{
    if from >= ordering.len() {
        ordering.len() as int
    } else if covers(store, ordering[from], at) {
        from
    } else {
        first_cover(store, ordering, at, from + 1)
    }
}

/// The first placement from `from` on that has at row `at` of the pool a row that playback
/// reaches; the number of placements where none has.
pub open spec fn first_live(store: PatternStore, ordering: Seq<Placement>, at: int, from: int) -> int
    decreases ordering.len() - from,
{
    if from >= ordering.len() {
        ordering.len() as int
    } else if covers(store, ordering[from], at) && row_at(store, ordering[from], at).reachable {
        from
    } else {
        first_live(store, ordering, at, from + 1)
    }
}

/// The row that stands for row `at` of the pool: that of the first pattern that has there a
/// row that playback reaches, and where no pattern has one, that of the first pattern that has
/// a row there.
pub open spec fn pool_row(store: PatternStore, ordering: Seq<Placement>, at: int) -> AnnotatedCell {
    let live = first_live(store, ordering, at, 0);
    if live < ordering.len() {
        row_at(store, ordering[live], at)
    } else {
        row_at(store, ordering[first_cover(store, ordering, at, 0)], at)
    }
}

pub proof fn lemma_first_cover(store: PatternStore, ordering: Seq<Placement>, at: int, from: int)
    requires
        0 <= from,
    ensures
        from <= first_cover(store, ordering, at, from) || first_cover(store, ordering, at, from)
            == ordering.len(),
        first_cover(store, ordering, at, from) <= ordering.len() || from > ordering.len(),
        first_cover(store, ordering, at, from) < ordering.len() ==> covers(
            store,
            ordering[first_cover(store, ordering, at, from)],
            at,
        ),
        forall|k: int|
            from <= k < first_cover(store, ordering, at, from) && k < ordering.len() ==> !covers(
                store,
                #[trigger] ordering[k],
                at,
            ),
    decreases ordering.len() - from,
{
    if from < ordering.len() && !covers(store, ordering[from], at) {
        lemma_first_cover(store, ordering, at, from + 1);
    }
}

pub proof fn lemma_first_live(store: PatternStore, ordering: Seq<Placement>, at: int, from: int)
    requires
        0 <= from,
    ensures
        from <= first_live(store, ordering, at, from) || first_live(store, ordering, at, from)
            == ordering.len(),
        first_live(store, ordering, at, from) <= ordering.len() || from > ordering.len(),
        first_live(store, ordering, at, from) < ordering.len() ==> covers(
            store,
            ordering[first_live(store, ordering, at, from)],
            at,
        ) && row_at(store, ordering[first_live(store, ordering, at, from)], at).reachable,
        forall|k: int|
            from <= k < first_live(store, ordering, at, from) && k < ordering.len() ==> !(covers(
                store,
                #[trigger] ordering[k],
                at,
            ) && row_at(store, ordering[k], at).reachable),
    decreases ordering.len() - from,
{
    if from < ordering.len() && !(covers(store, ordering[from], at) && row_at(
        store,
        ordering[from],
        at,
    ).reachable) {
        lemma_first_live(store, ordering, at, from + 1);
    }
}

/// A search for the first placement with a given property may skip the placements that lack it.
proof fn lemma_first_skip(store: PatternStore, ordering: Seq<Placement>, at: int, from: int, to: int)
    requires
        0 <= from <= to <= ordering.len(),
    ensures
        (forall|k: int| from <= k < to ==> !covers(store, #[trigger] ordering[k], at))
            ==> first_cover(store, ordering, at, from) == first_cover(store, ordering, at, to),
        (forall|k: int|
            from <= k < to ==> !(covers(store, #[trigger] ordering[k], at) && row_at(
                store,
                ordering[k],
                at,
            ).reachable)) ==> first_live(store, ordering, at, from) == first_live(
            store,
            ordering,
            at,
            to,
        ),
    decreases to - from,
{
    if from < to {
        lemma_first_skip(store, ordering, at, from + 1, to);
    }
}

/// Where every placement before `next` ends by row `at`, the placement at `next` starts by then:
/// a pool has no bare row.
proof fn lemma_next_starts(store: PatternStore, ordering: Seq<Placement>, next: int, at: int)
    requires
        ordering_wf(store, ordering),
        0 <= next < ordering.len(),
        0 <= at,
        forall|k: int| 0 <= k < next ==> end_of(store, #[trigger] ordering[k]) <= at,
    ensures
        ordering[next].1 <= at,
{
    lemma_pool_len(store, ordering);
    if at < pool_len(store, ordering) {
        assert(covered(store, ordering, at));
        let k = choose|k: int| 0 <= k < ordering.len() && covers(store, #[trigger] ordering[k], at);
        assert(k >= next);
        if k > next {
            assert(ordering[next].1 <= ordering[k].1);
        }
    } else {
        assert(end_of(store, ordering[next]) <= pool_len(store, ordering));
        assert(store.rows(ordering[next].0).len() >= 1);
    }
}

/// The patterns of an ordering of the patterns of a store, placed one by one so that their
/// rows overlap, and the number of rows that the overlaps spare.
#[derive(Debug)]
pub struct RowPoolBuilder<'patterns> {
    pub patterns: &'patterns PatternStore,
    pub ordering: Vec<Placement>,
    pub score: usize,
}

impl<'patterns> RowPoolBuilder<'patterns> {
    /// The placements form a pool, whose rows and spared rows can be counted.
    pub open spec fn wf(&self) -> bool {
        &&& ordering_wf(*self.patterns, self.ordering@)
        &&& pool_len(*self.patterns, self.ordering@) + self.score <= usize::MAX
    }

    pub open spec fn spec_len(&self) -> int {
        pool_len(*self.patterns, self.ordering@)
    }

    /// A pool of one pattern.
    pub fn new(patterns: &'patterns PatternStore, initial_pattern_id: PatternId) -> (builder: Self)
        ensures
            builder.patterns == patterns,
            builder.ordering@ == seq![(initial_pattern_id, 0usize)],
            builder.score == 0,
    {
        let mut ordering: Vec<Placement> = Vec::new();
        ordering.push((initial_pattern_id, 0));
        RowPoolBuilder { patterns, ordering, score: 0 }
    }

    /// Whether the pattern named `pattern_id` is placed already.
    pub fn contains(&self, pattern_id: PatternId) -> (found: bool)
        ensures
            found == placed(self.ordering@, pattern_id),
    {
        let mut k: usize = 0;
        while k < self.ordering.len()
            invariant
                k <= self.ordering.len(),
                forall|j: int| 0 <= j < k ==> (#[trigger] self.ordering[j]).0 != pattern_id,
            decreases self.ordering.len() - k,
        {
            if self.ordering[k].0 == pattern_id {
                return true;
            }
            k += 1;
        }
        false
    }

    /// The rows of the pool, from the first.
    pub fn rows(&self) -> (rows: RowsIter<'_, 'patterns>)
        requires
            self.wf(),
        ensures
            rows.wf(),
            rows.builder == self,
            rows.row_idx == 0,
    {
        proof {
            lemma_pool_len(*self.patterns, self.ordering@);
            if self.ordering.len() > 0 {
                lemma_next_starts(*self.patterns, self.ordering@, 0, 0);
            }
        }
        RowsIter { builder: self, ordering_idx: 0, row_idx: 0 }
    }
}

/// A walk along the rows of a pool.
#[derive(Debug, Clone, Copy)]
pub struct RowsIter<'builder, 'patterns> {
    pub builder: &'builder RowPoolBuilder<'patterns>,
    pub ordering_idx: usize,
    pub row_idx: usize,
}

impl<'builder, 'patterns> RowsIter<'builder, 'patterns> {
    /// The walk is at a row of the pool or at its end, and `ordering_idx` is the first pattern
    /// that has a row there.
    pub open spec fn wf(&self) -> bool {
        let store = *self.builder.patterns;
        let ordering = self.builder.ordering@;
        &&& self.builder.wf()
        &&& self.ordering_idx <= ordering.len()
        &&& forall|k: int|
            0 <= k < self.ordering_idx ==> end_of(store, #[trigger] ordering[k]) <= self.row_idx
        &&& self.ordering_idx < ordering.len() ==> covers(
            store,
            ordering[self.ordering_idx as int],
            self.row_idx as int,
        )
        &&& self.ordering_idx == ordering.len() ==> self.row_idx == pool_len(store, ordering)
    }

    /// The next row of the pool, if the walk is not at the end.
    pub fn next(&mut self) -> (row: Option<AnnotatedCell>)
        requires
            old(self).wf(),
        ensures
            final(self).wf(),
            final(self).builder == old(self).builder,
            match row {
                Some(row) => {
                    &&& old(self).row_idx < old(self).builder.spec_len()
                    &&& final(self).row_idx == old(self).row_idx + 1
                    &&& row == pool_row(
                        *old(self).builder.patterns,
                        old(self).builder.ordering@,
                        old(self).row_idx as int,
                    )
                },
                None => {
                    &&& old(self).row_idx == old(self).builder.spec_len()
                    &&& *final(self) == *old(self)
                },
            },
    {
        let builder = self.builder;
        let ghost store = *builder.patterns;
        let ghost ordering = builder.ordering@;
        let at = self.row_idx;
        let first = self.ordering_idx;
        proof {
            lemma_pool_len(store, ordering);
        }
        if first >= builder.ordering.len() {
            return None;
        }
        let (pattern_id, start_ofs) = builder.ordering[first];
        let pattern = builder.patterns.pattern(pattern_id);
        let mut row = pattern.0[at - start_ofs];
        proof {
            lemma_first_skip(store, ordering, at as int, 0, first as int);
            lemma_first_cover(store, ordering, at as int, first as int);
            lemma_first_live(store, ordering, at as int, first as int);
            assert(first_cover(store, ordering, at as int, 0) == first);
        }
        if !row.reachable {
            // Stand in for it a row that lies over it and that playback reaches, if there is one.
            let mut k = first + 1;
            let mut found = false;
            while k < builder.ordering.len() && !found
                invariant
                    builder.wf(),
                    store == *builder.patterns,
                    ordering == builder.ordering@,
                    first < k <= ordering.len(),
                    !found ==> first_live(store, ordering, at as int, 0) == first_live(
                        store,
                        ordering,
                        at as int,
                        k as int,
                    ),
                    !found ==> row == row_at(store, ordering[first as int], at as int),
                    found ==> first_live(store, ordering, at as int, 0) < ordering.len() && row
                        == row_at(
                        store,
                        ordering[first_live(store, ordering, at as int, 0)],
                        at as int,
                    ),
                decreases ordering.len() - k + (if found { 0int } else { 1int }),
            {
                let (other_id, other_start) = builder.ordering[k];
                // The patterns stand in the order of their starts: none starts by here from now on.
                if other_start > at {
                    proof {
                        assert forall|j: int| k <= j < ordering.len() implies !covers(
                            store,
                            #[trigger] ordering[j],
                            at as int,
                        ) by {
                            if j > k {
                                assert(ordering[k as int].1 <= ordering[j].1);
                            }
                        }
                        lemma_first_skip(
                            store,
                            ordering,
                            at as int,
                            k as int,
                            ordering.len() as int,
                        );
                    }
                    k = builder.ordering.len();
                } else {
                    let other = builder.patterns.pattern(other_id);
                    // A pattern may lie within another, and end before it.
                    if at - other_start < other.0.len() && other.0[at - other_start].reachable {
                        row = other.0[at - other_start];
                        found = true;
                    } else {
                        k += 1;
                    }
                }
            }
        }
        // On to the next row, and to the first pattern that has a row there.
        self.row_idx = at + 1;
        let mut next = first;
        while next < builder.ordering.len()
            invariant
                builder.wf(),
                store == *builder.patterns,
                ordering == builder.ordering@,
                first <= next <= ordering.len(),
                at + 1 <= pool_len(store, ordering),
                forall|k: int| 0 <= k < next ==> end_of(store, #[trigger] ordering[k]) <= at + 1,
            ensures
                next < ordering.len() ==> covers(store, ordering[next as int], at + 1),
            decreases ordering.len() - next,
        {
            let (next_id, next_start) = builder.ordering[next];
            let next_pattern = builder.patterns.pattern(next_id);
            proof {
                lemma_next_starts(store, ordering, next as int, at + 1);
            }
            if at + 1 - next_start < next_pattern.0.len() {
                break ;
            }
            next += 1;
        }
        proof {
            if next == ordering.len() {
                lemma_pool_len_bound(store, ordering, at + 1);
            }
        }
        self.ordering_idx = next;
        Some(row)
    }
}

/// Every row of the candidate that falls on a row of the pool can overlap with it, when the
/// candidate starts at row `start` of the pool.
pub open spec fn fits_at(
    store: PatternStore,
    ordering: Seq<Placement>,
    candidate: Seq<AnnotatedCell>,
    start: int,
) -> bool {
    forall|i: int|
        0 <= i < candidate.len() && start + i < pool_len(store, ordering) ==> (
        #[trigger] candidate[i]).spec_can_overlap_with(&pool_row(store, ordering, start + i))
}

/// The first row of the pool from `from` on at which the candidate fits; the length of the
/// pool where it fits nowhere, for there it can always go.
pub open spec fn first_fit(
    store: PatternStore,
    ordering: Seq<Placement>,
    candidate: Seq<AnnotatedCell>,
    from: int,
) -> int
    decreases pool_len(store, ordering) - from,
{
    if from >= pool_len(store, ordering) {
        pool_len(store, ordering)
    } else if fits_at(store, ordering, candidate, from) {
        from
    } else {
        first_fit(store, ordering, candidate, from + 1)
    }
}

/// The number of rows that the candidate shares with the pool when it starts at row `start`.
pub open spec fn overlap_at(
    store: PatternStore,
    ordering: Seq<Placement>,
    candidate: Seq<AnnotatedCell>,
    start: int,
) -> int {
    if start + candidate.len() <= pool_len(store, ordering) {
        candidate.len() as int
    } else {
        pool_len(store, ordering) - start
    }
}

/// The score that the pool has with the candidate in it, and the row at which the candidate
/// goes: the first at which it fits.
pub open spec fn score_with_candidate(
    store: PatternStore,
    ordering: Seq<Placement>,
    score: int,
    candidate: Seq<AnnotatedCell>,
) -> (int, int) {
    let start = first_fit(store, ordering, candidate, 0);
    (score + overlap_at(store, ordering, candidate, start), start)
}

/// The place in the ordering of a pattern that starts at row `start`: before the first, from
/// `from` on, that does not start earlier.
pub open spec fn insert_index(ordering: Seq<Placement>, start: int, from: int) -> int
    decreases ordering.len() - from,
{
    if from >= ordering.len() {
        ordering.len() as int
    } else if ordering[from].1 >= start {
        from
    } else {
        insert_index(ordering, start, from + 1)
    }
}

/// The ordering with the pattern named `id` placed at row `start`.
pub open spec fn with_placement(ordering: Seq<Placement>, id: PatternId, start: usize) -> Seq<
    Placement,
> {
    ordering.insert(insert_index(ordering, start as int, 0), (id, start))
}

pub proof fn lemma_insert_index(ordering: Seq<Placement>, start: int, from: int)
    requires
        0 <= from <= ordering.len(),
    ensures
        from <= insert_index(ordering, start, from) <= ordering.len(),
        forall|k: int| from <= k < insert_index(ordering, start, from) ==> (#[trigger] ordering[k]).1 < start,
        insert_index(ordering, start, from) < ordering.len() ==> ordering[insert_index(
            ordering,
            start,
            from,
        )].1 >= start,
    decreases ordering.len() - from,
{
    if from < ordering.len() && ordering[from].1 < start {
        lemma_insert_index(ordering, start, from + 1);
    }
}

proof fn lemma_first_fit(
    store: PatternStore,
    ordering: Seq<Placement>,
    candidate: Seq<AnnotatedCell>,
    from: int,
)
    requires
        0 <= from <= pool_len(store, ordering),
    ensures
        from <= first_fit(store, ordering, candidate, from) <= pool_len(store, ordering),
        first_fit(store, ordering, candidate, from) < pool_len(store, ordering) ==> fits_at(
            store,
            ordering,
            candidate,
            first_fit(store, ordering, candidate, from),
        ),
    decreases pool_len(store, ordering) - from,
{
    if from < pool_len(store, ordering) && !fits_at(store, ordering, candidate, from) {
        lemma_first_fit(store, ordering, candidate, from + 1);
    }
}

/// The pool's length is the furthest end of its patterns.
proof fn lemma_pool_len_is(store: PatternStore, ordering: Seq<Placement>, len: int)
    requires
        len >= 0,
        forall|k: int| 0 <= k < ordering.len() ==> end_of(store, #[trigger] ordering[k]) <= len,
        ordering.len() == 0 ==> len == 0,
        ordering.len() > 0 ==> exists|k: int|
            0 <= k < ordering.len() && end_of(store, #[trigger] ordering[k]) == len,
    ensures
        pool_len(store, ordering) == len,
{
    lemma_pool_len(store, ordering);
    if ordering.len() > 0 {
        let k = choose|k: int| 0 <= k < ordering.len() && end_of(store, #[trigger] ordering[k]) == len;
        assert(end_of(store, ordering[k]) <= pool_len(store, ordering));
        let j = choose|j: int|
            0 <= j < ordering.len() && end_of(store, #[trigger] ordering[j]) == pool_len(
                store,
                ordering,
            );
        assert(end_of(store, ordering[j]) <= len);
    }
}

/// The row that stands for a row of the pool suits every pattern that has a row there: it is
/// the row of one of them, each of their rows can overlap with it, and playback reaches it if
/// it reaches the row of any of them.
pub proof fn lemma_pool_row(store: PatternStore, ordering: Seq<Placement>, at: int)
    requires
        ordering_wf(store, ordering),
        0 <= at < pool_len(store, ordering),
    ensures
        forall|k: int|
            0 <= k < ordering.len() && covers(store, #[trigger] ordering[k], at) ==> {
                &&& row_at(store, ordering[k], at).reachable ==> pool_row(
                    store,
                    ordering,
                    at,
                ).reachable
                &&& row_at(store, ordering[k], at).spec_can_overlap_with(
                    &pool_row(store, ordering, at),
                )
            },
        exists|k: int|
            0 <= k < ordering.len() && covers(store, #[trigger] ordering[k], at) && pool_row(
                store,
                ordering,
                at,
            ) == row_at(store, ordering[k], at),
{
    lemma_first_live(store, ordering, at, 0);
    lemma_first_cover(store, ordering, at, 0);
    assert(covered(store, ordering, at));
    let live = first_live(store, ordering, at, 0);
    let cover = first_cover(store, ordering, at, 0);
    let some = choose|k: int| 0 <= k < ordering.len() && covers(store, #[trigger] ordering[k], at);
    assert(cover < ordering.len()) by {
        if cover >= ordering.len() {
            assert(!covers(store, ordering[some], at));
        }
    }
    let chosen = if live < ordering.len() {
        live
    } else {
        cover
    };
    assert(covers(store, ordering[chosen], at) && pool_row(store, ordering, at) == row_at(
        store,
        ordering[chosen],
        at,
    ));
    assert forall|k: int|
        0 <= k < ordering.len() && covers(store, #[trigger] ordering[k], at) implies {
        &&& row_at(store, ordering[k], at).reachable ==> pool_row(store, ordering, at).reachable
        &&& row_at(store, ordering[k], at).spec_can_overlap_with(&pool_row(store, ordering, at))
    } by {
        if row_at(store, ordering[k], at).reachable {
            assert(live <= k);
        }
        assert(row_at(store, ordering[k], at).spec_can_overlap_with(
            &row_at(store, ordering[chosen], at),
        ));
    }
}

/// `after` is `ordering` with `placement` put in at place `at_index`.
spec fn is_insertion(
    ordering: Seq<Placement>,
    after: Seq<Placement>,
    at_index: int,
    placement: Placement,
) -> bool {
    &&& 0 <= at_index <= ordering.len()
    &&& after.len() == ordering.len() + 1
    &&& after[at_index] == placement
    &&& forall|k: int| 0 <= k < at_index ==> #[trigger] after[k] == ordering[k]
    &&& forall|k: int| at_index < k < after.len() ==> #[trigger] after[k] == ordering[k - 1]
}

proof fn lemma_is_insertion(ordering: Seq<Placement>, at_index: int, placement: Placement)
    requires
        0 <= at_index <= ordering.len(),
    ensures
        is_insertion(ordering, ordering.insert(at_index, placement), at_index, placement),
{
    let after = ordering.insert(at_index, placement);
    ordering.insert_ensures(at_index, placement);
    assert forall|k: int| at_index < k < after.len() implies #[trigger] after[k] == ordering[k
        - 1] by {
        assert(after[(k - 1) + 1] == ordering[k - 1]);
    }
}

proof fn lemma_insertion_pool_len(
    store: PatternStore,
    ordering: Seq<Placement>,
    after: Seq<Placement>,
    at_index: int,
    placement: Placement,
)
    requires
        is_insertion(ordering, after, at_index, placement),
        store.rows(placement.0).len() >= 1,
    ensures
        pool_len(store, after) == (if end_of(store, placement) > pool_len(store, ordering) {
            end_of(store, placement)
        } else {
            pool_len(store, ordering)
        }),
{
    let len = pool_len(store, ordering);
    let new_len = if end_of(store, placement) > len {
        end_of(store, placement)
    } else {
        len
    };
    lemma_pool_len(store, ordering);
    assert forall|k: int| 0 <= k < after.len() implies end_of(store, #[trigger] after[k])
        <= new_len by {
        if k < at_index {
            assert(end_of(store, ordering[k]) <= len);
        } else if k > at_index {
            assert(end_of(store, ordering[k - 1]) <= len);
        }
    }
    assert(exists|k: int| 0 <= k < after.len() && end_of(store, #[trigger] after[k]) == new_len) by {
        if end_of(store, placement) > len {
            assert(end_of(store, after[at_index]) == new_len);
        } else {
            assert(ordering.len() > 0);
            let k = choose|k: int|
                0 <= k < ordering.len() && end_of(store, #[trigger] ordering[k]) == len;
            if k < at_index {
                assert(end_of(store, after[k]) == new_len);
            } else {
                assert(after[k + 1] == ordering[k]);
                assert(end_of(store, after[k + 1]) == new_len);
            }
        }
    }
    lemma_pool_len_is(store, after, new_len);
}

proof fn lemma_insertion_order(
    store: PatternStore,
    ordering: Seq<Placement>,
    after: Seq<Placement>,
    at_index: int,
    placement: Placement,
)
    requires
        ordering_wf(store, ordering),
        is_insertion(ordering, after, at_index, placement),
        store.contains(placement.0),
        store.rows(placement.0).len() >= 1,
        !placed(ordering, placement.0),
        forall|k: int| 0 <= k < at_index ==> (#[trigger] ordering[k]).1 < placement.1,
        at_index < ordering.len() ==> ordering[at_index].1 >= placement.1,
    ensures
        forall|k: int|
            0 <= k < after.len() ==> store.contains((#[trigger] after[k]).0) && store.rows(
                after[k].0,
            ).len() >= 1,
        forall|a: int, b: int|
            0 <= a < b < after.len() ==> (#[trigger] after[a]).0 != (#[trigger] after[b]).0,
        forall|a: int, b: int|
            0 <= a < b < after.len() ==> (#[trigger] after[a]).1 <= (#[trigger] after[b]).1,
{
    let source = |k: int|
        if k < at_index {
            k
        } else {
            k - 1
        };
    assert forall|k: int| 0 <= k < after.len() implies store.contains((#[trigger] after[k]).0)
        && store.rows(after[k].0).len() >= 1 by {
        if k != at_index {
            assert(store.contains(ordering[source(k)].0));
        }
    }
    assert forall|a: int, b: int| 0 <= a < b < after.len() implies (#[trigger] after[a]).0 != (
    #[trigger] after[b]).0 by {
        if a != at_index && b != at_index {
            assert(ordering[source(a)].0 != ordering[source(b)].0);
        } else if a == at_index {
            assert(ordering[source(b)].0 != placement.0);
        } else {
            assert(ordering[source(a)].0 != placement.0);
        }
    }
    assert forall|a: int, b: int| 0 <= a < b < after.len() implies (#[trigger] after[a]).1 <= (
    #[trigger] after[b]).1 by {
        if a != at_index && b != at_index {
            if source(a) < source(b) {
                assert(ordering[source(a)].1 <= ordering[source(b)].1);
            }
        } else if a == at_index {
            if source(b) > at_index {
                assert(ordering[at_index].1 <= ordering[source(b)].1);
            }
        } else {
            assert(ordering[source(a)].1 < placement.1);
        }
    }
}

proof fn lemma_insertion_covered(
    store: PatternStore,
    ordering: Seq<Placement>,
    after: Seq<Placement>,
    at_index: int,
    placement: Placement,
    new_len: int,
)
    requires
        ordering_wf(store, ordering),
        is_insertion(ordering, after, at_index, placement),
        placement.1 <= pool_len(store, ordering),
        new_len == (if end_of(store, placement) > pool_len(store, ordering) {
            end_of(store, placement)
        } else {
            pool_len(store, ordering)
        }),
    ensures
        forall|at: int| 0 <= at < new_len ==> #[trigger] covered(store, after, at),
{
    assert forall|at: int| 0 <= at < new_len implies #[trigger] covered(store, after, at) by {
        if at < pool_len(store, ordering) {
            assert(covered(store, ordering, at));
            let k = choose|k: int|
                0 <= k < ordering.len() && covers(store, #[trigger] ordering[k], at);
            if k < at_index {
                assert(covers(store, after[k], at));
            } else {
                assert(after[k + 1] == ordering[k]);
                assert(covers(store, after[k + 1], at));
            }
        } else {
            assert(covers(store, after[at_index], at));
        }
    }
}

proof fn lemma_insertion_overlaps(
    store: PatternStore,
    ordering: Seq<Placement>,
    after: Seq<Placement>,
    at_index: int,
    placement: Placement,
)
    requires
        ordering_wf(store, ordering),
        is_insertion(ordering, after, at_index, placement),
        fits_at(store, ordering, store.rows(placement.0), placement.1 as int),
    ensures
        forall|a: int, b: int, at: int|
            #![trigger row_at(store, after[a], at), row_at(store, after[b], at)]
            0 <= a < after.len() && 0 <= b < after.len() && covers(store, after[a], at) && covers(
                store,
                after[b],
                at,
            ) ==> row_at(store, after[a], at).spec_can_overlap_with(&row_at(store, after[b], at)),
{
    let source = |k: int|
        if k < at_index {
            k
        } else {
            k - 1
        };
    lemma_pool_len(store, ordering);
    assert forall|a: int, b: int, at: int|
        #![trigger row_at(store, after[a], at), row_at(store, after[b], at)]
        0 <= a < after.len() && 0 <= b < after.len() && covers(store, after[a], at) && covers(
            store,
            after[b],
            at,
        ) implies row_at(store, after[a], at).spec_can_overlap_with(
        &row_at(store, after[b], at),
    ) by {
        if a != at_index && b != at_index {
            assert(row_at(store, ordering[source(a)], at).spec_can_overlap_with(
                &row_at(store, ordering[source(b)], at),
            ));
        } else if a == at_index && b == at_index {
        } else {
            let other = if a == at_index {
                source(b)
            } else {
                source(a)
            };
            assert(covers(store, ordering[other], at));
            assert(end_of(store, ordering[other]) <= pool_len(store, ordering));
            lemma_pool_row(store, ordering, at);
            let row = store.rows(placement.0)[at - placement.1];
            let pooled = pool_row(store, ordering, at);
            assert(row.spec_can_overlap_with(&pooled));
            assert(row_at(store, ordering[other], at).spec_can_overlap_with(&pooled));
            assert(row_at(store, ordering[other], at).reachable ==> pooled.reachable);
        }
    }
}

/// A pool with one more pattern, placed where it fits, is a pool; it is longer by the rows of
/// the pattern that reach beyond it.
pub proof fn lemma_placing_keeps_pool(
    store: PatternStore,
    ordering: Seq<Placement>,
    id: PatternId,
    start: usize,
)
    requires
        ordering_wf(store, ordering),
        store.contains(id),
        store.rows(id).len() >= 1,
        !placed(ordering, id),
        start <= pool_len(store, ordering),
        fits_at(store, ordering, store.rows(id), start as int),
    ensures
        ordering_wf(store, with_placement(ordering, id, start)),
        pool_len(store, with_placement(ordering, id, start)) == (if start + store.rows(id).len()
            > pool_len(store, ordering) {
            start + store.rows(id).len()
        } else {
            pool_len(store, ordering)
        }),
{
    let at_index = insert_index(ordering, start as int, 0);
    let placement = (id, start);
    let after = with_placement(ordering, id, start);
    lemma_insert_index(ordering, start as int, 0);
    lemma_is_insertion(ordering, at_index, placement);
    lemma_insertion_pool_len(store, ordering, after, at_index, placement);
    lemma_insertion_order(store, ordering, after, at_index, placement);
    lemma_insertion_covered(store, ordering, after, at_index, placement, pool_len(store, after));
    lemma_insertion_overlaps(store, ordering, after, at_index, placement);
}

impl<'patterns> RowPoolBuilder<'patterns> {
    /// The score that the pool would have with the pattern named `pattern_id` in it, and the
    /// row at which the pattern would start: the first row of the pool from which on its rows
    /// overlap with those of the pool, or else the end of the pool.
    pub fn score_with(&self, pattern_id: PatternId) -> (result: (usize, usize))
        requires
            self.wf(),
            self.patterns.contains(pattern_id),
            self.patterns.rows(pattern_id).len() >= 1,
            self.score + self.patterns.rows(pattern_id).len() <= usize::MAX,
        ensures
            (result.0 as int, result.1 as int) == score_with_candidate(
                *self.patterns,
                self.ordering@,
                self.score as int,
                self.patterns.rows(pattern_id),
            ),
    {
        let ghost store = *self.patterns;
        let ghost ordering = self.ordering@;
        let ghost candidate = store.rows(pattern_id);
        let pattern = self.patterns.pattern(pattern_id);
        let first_row = pattern.0[0];
        let mut rows = self.rows();
        let mut start_row_idx: usize = 0;
        proof {
            lemma_pool_len(store, ordering);
        }
        loop
            invariant
                self.wf(),
                store == *self.patterns,
                ordering == self.ordering@,
                candidate == store.rows(pattern_id),
                pattern.0@ == candidate,
                candidate.len() >= 1,
                first_row == candidate[0],
                self.score + candidate.len() <= usize::MAX,
                rows.wf(),
                rows.builder == self,
                rows.row_idx == start_row_idx,
                start_row_idx <= pool_len(store, ordering),
                first_fit(store, ordering, candidate, 0) == first_fit(
                    store,
                    ordering,
                    candidate,
                    start_row_idx as int,
                ),
            ensures
                start_row_idx == pool_len(store, ordering),
            decreases pool_len(store, ordering) - start_row_idx,
        {
            let cell = match rows.next() {
                Some(cell) => cell,
                None => {
                    break ;
                },
            };
            let mut fits = cell.can_overlap_with(&first_row);
            if fits {
                // The search goes on from here if the pattern does not fit.
                let mut overlappable_rows = rows;
                let mut row_idx: usize = 1;
                while row_idx < pattern.0.len()
                    invariant_except_break
                        overlappable_rows.row_idx == start_row_idx + row_idx,
                        fits,
                    invariant
                        store == *self.patterns,
                        ordering == self.ordering@,
                        pattern.0@ == candidate,
                        overlappable_rows.wf(),
                        overlappable_rows.builder == self,
                        1 <= row_idx <= candidate.len(),
                        start_row_idx + row_idx <= pool_len(store, ordering),
                        forall|i: int|
                            0 <= i < row_idx ==> (
                            #[trigger] candidate[i]).spec_can_overlap_with(
                                &pool_row(store, ordering, start_row_idx + i),
                            ),
                    ensures
                        1 <= row_idx <= candidate.len(),
                        start_row_idx + row_idx <= pool_len(store, ordering),
                        fits == fits_at(store, ordering, candidate, start_row_idx as int),
                        fits ==> row_idx == overlap_at(
                            store,
                            ordering,
                            candidate,
                            start_row_idx as int,
                        ),
                    decreases candidate.len() - row_idx,
                {
                    match overlappable_rows.next() {
                        None => {
                            break ;
                        },
                        Some(row) => {
                            if !pattern.0[row_idx].can_overlap_with(&row) {
                                fits = false;
                                break ;
                            }
                            row_idx += 1;
                        },
                    }
                }
                if fits {
                    return (self.score + row_idx, start_row_idx);
                }
            }
            assert(!fits_at(store, ordering, candidate, start_row_idx as int));
            start_row_idx += 1;
        }
        (self.score, start_row_idx)
    }

    /// Places the pattern named `pattern_id` at row `start_row_idx` of the pool, before the
    /// patterns that do not start earlier, and sets the score.
    pub fn add(&mut self, pattern_id: PatternId, start_row_idx: usize, new_score: usize)
        ensures
            final(self).patterns == old(self).patterns,
            final(self).ordering@ == with_placement(old(self).ordering@, pattern_id, start_row_idx),
            final(self).score == new_score,
    {
        let mut insert_idx: usize = 0;
        while insert_idx < self.ordering.len() && self.ordering[insert_idx].1 < start_row_idx
            invariant
                insert_idx <= self.ordering.len(),
                insert_index(self.ordering@, start_row_idx as int, 0) == insert_index(
                    self.ordering@,
                    start_row_idx as int,
                    insert_idx as int,
                ),
            decreases self.ordering.len() - insert_idx,
        {
            insert_idx += 1;
        }
        self.ordering.insert(insert_idx, (pattern_id, start_row_idx));
        self.score = new_score;
    }
}

/// A pool in the making, as the search sees it: the placements and the score.
pub type Plan = (Seq<Placement>, int);

/// The number of rows of the placed patterns, counted one pattern after the other.
pub open spec fn total_rows(store: PatternStore, ordering: Seq<Placement>) -> int
    decreases ordering.len(),
{
    if ordering.len() == 0 {
        0
    } else {
        total_rows(store, ordering.drop_last()) + store.rows(ordering.last().0).len()
    }
}

/// The plan with the pattern named `id` placed at the first row at which it fits.
pub open spec fn plan_with(store: PatternStore, plan: Plan, id: PatternId) -> Plan {
    let scored = score_with_candidate(store, plan.0, plan.1, store.rows(id));
    (with_placement(plan.0, id, scored.1 as usize), scored.0)
}

/// The plan is there and the pattern named `id` is not in it yet.
pub open spec fn can_take(plan: Option<Plan>, id: PatternId) -> bool {
    plan matches Some(p) && !placed(p.0, id)
}

/// The score that the plan has with the pattern named `id` in it.
pub open spec fn score_taking(store: PatternStore, plan: Option<Plan>, id: PatternId) -> int {
    score_with_candidate(store, plan.unwrap().0, plan.unwrap().1, store.rows(id)).0
}

/// Among the first `upto` plans, the one that takes the pattern named `id` with the highest
/// score, and of several such the first.
pub open spec fn best_source(
    store: PatternStore,
    plans: Seq<Option<Plan>>,
    id: PatternId,
    upto: int,
) -> Option<int>
    decreases upto,
{
    if upto <= 0 {
        None
    } else {
        let before = best_source(store, plans, id, upto - 1);
        if can_take(plans[upto - 1], id) && (before is None || score_taking(
            store,
            plans[before->0],
            id,
        ) < score_taking(store, plans[upto - 1], id)) {
            Some(upto - 1)
        } else {
            before
        }
    }
}

/// The plan that ends with the pattern named `id`: the best of the plans extended by it.
pub open spec fn best_extension(store: PatternStore, plans: Seq<Option<Plan>>, id: PatternId) -> Option<
    Plan,
> {
    match best_source(store, plans, id, plans.len() as int) {
        Some(k) => Some(plan_with(store, plans[k]->0, id)),
        None => None,
    }
}

/// The plans of the next round: for each pattern the best plan that gains it.
pub open spec fn next_plans(store: PatternStore, plans: Seq<Option<Plan>>, ids: Seq<PatternId>) -> Seq<
    Option<Plan>,
> {
    Seq::new(ids.len(), |i: int| best_extension(store, plans, ids[i]))
}

/// The plans after `rounds` rounds: at first each pattern alone, and then in each round, for
/// each pattern, the best plan of the round before that gains it.
pub open spec fn plans_after(store: PatternStore, ids: Seq<PatternId>, rounds: nat) -> Seq<
    Option<Plan>,
>
    decreases rounds,
{
    if rounds == 0 {
        Seq::new(ids.len(), |i: int| Some((seq![(ids[i], 0usize)], 0int)))
    } else {
        next_plans(store, plans_after(store, ids, (rounds - 1) as nat), ids)
    }
}

/// Among the first `upto` plans, the one with the highest score, and of several such the first.
pub open spec fn best_plan(plans: Seq<Option<Plan>>, upto: int) -> Option<int>
    decreases upto,
{
    if upto <= 0 {
        None
    } else {
        let before = best_plan(plans, upto - 1);
        if plans[upto - 1] is Some && (before is None || plans[before->0].unwrap().1 < plans[upto
            - 1].unwrap().1) {
            Some(upto - 1)
        } else {
            before
        }
    }
}

/// The pool that the search finds for the patterns named by `ids`: the best plan after as many
/// rounds as it takes to place them all. It is empty where there is no pattern.
pub open spec fn overlap_plan(store: PatternStore, ids: Seq<PatternId>) -> Plan {
    let plans = plans_after(store, ids, (ids.len() - 1) as nat);
    match best_plan(plans, plans.len() as int) {
        Some(k) => plans[k]->0,
        None => (Seq::empty(), 0),
    }
}

/// The patterns named by `ids` can be searched: each is in the store once, with at least one
/// row and no more than a pattern has, and their rows can be counted.
pub open spec fn group_ok(store: PatternStore, ids: Seq<PatternId>) -> bool {
    &&& store.wf()
    &&& ids.no_duplicates()
    &&& forall|i: int|
        0 <= i < ids.len() ==> store.contains(#[trigger] ids[i]) && 1 <= store.rows(ids[i]).len()
            <= 64
    &&& ids.len() * 64 <= usize::MAX
}

/// The plan is a pool of `size` of the patterns named by `ids`, and its score is the number of
/// rows that the pool spares.
pub open spec fn plan_ok(store: PatternStore, ids: Seq<PatternId>, plan: Plan, size: int) -> bool {
    &&& ordering_wf(store, plan.0)
    &&& plan.0.len() == size
    &&& plan.1 >= 0
    &&& pool_len(store, plan.0) + plan.1 == total_rows(store, plan.0)
    &&& forall|k: int| 0 <= k < plan.0.len() ==> ids.contains((#[trigger] plan.0[k]).0)
}

pub open spec fn plans_ok(
    store: PatternStore,
    ids: Seq<PatternId>,
    plans: Seq<Option<Plan>>,
    size: int,
) -> bool {
    &&& plans.len() == ids.len()
    &&& forall|i: int|
        0 <= i < plans.len() && (#[trigger] plans[i]) is Some ==> plan_ok(
            store,
            ids,
            plans[i]->0,
            size,
        )
    &&& ids.len() > 0 ==> exists|i: int| 0 <= i < plans.len() && (#[trigger] plans[i]) is Some
}

pub proof fn lemma_total_rows_bound(store: PatternStore, ids: Seq<PatternId>, ordering: Seq<Placement>)
    requires
        group_ok(store, ids),
        forall|k: int| 0 <= k < ordering.len() ==> ids.contains((#[trigger] ordering[k]).0),
    ensures
        0 <= total_rows(store, ordering) <= 64 * ordering.len(),
    decreases ordering.len(),
{
    if ordering.len() > 0 {
        let rest = ordering.drop_last();
        assert forall|k: int| 0 <= k < rest.len() implies ids.contains((#[trigger] rest[k]).0) by {
            assert(rest[k] == ordering[k]);
        }
        lemma_total_rows_bound(store, ids, rest);
        let id = ordering[ordering.len() - 1].0;
        assert(ids.contains(id));
        let i = choose|i: int| 0 <= i < ids.len() && ids[i] == id;
        assert(store.rows(ids[i]).len() <= 64);
    }
}

proof fn lemma_total_rows_insert(
    store: PatternStore,
    ordering: Seq<Placement>,
    at: int,
    placement: Placement,
)
    requires
        0 <= at <= ordering.len(),
    ensures
        total_rows(store, ordering.insert(at, placement)) == total_rows(store, ordering)
            + store.rows(placement.0).len(),
    decreases ordering.len(),
{
    let after = ordering.insert(at, placement);
    ordering.insert_ensures(at, placement);
    if at == ordering.len() {
        assert(after.drop_last() =~= ordering);
    } else {
        let rest = ordering.drop_last();
        rest.insert_ensures(at, placement);
        assert(after.drop_last() =~= rest.insert(at, placement)) by {
            assert forall|k: int| 0 <= k < ordering.len() implies after.drop_last()[k]
                == rest.insert(at, placement)[k] by {
                if k < at {
                } else if k == at {
                } else {
                    assert(after[(k - 1) + 1] == ordering[k - 1]);
                    assert(rest.insert(at, placement)[(k - 1) + 1] == rest[k - 1]);
                }
            }
        }
        assert(after.last() == ordering.last()) by {
            assert(after[(ordering.len() - 1) + 1] == ordering[ordering.len() - 1]);
        }
        lemma_total_rows_insert(store, rest, at, placement);
    }
}

/// A pool of one pattern is a pool.
proof fn lemma_single_plan(store: PatternStore, ids: Seq<PatternId>, i: int)
    requires
        group_ok(store, ids),
        0 <= i < ids.len(),
    ensures
        plan_ok(store, ids, (seq![(ids[i], 0usize)], 0int), 1),
{
    let ordering = seq![(ids[i], 0usize)];
    assert(ordering.drop_last() =~= Seq::<Placement>::empty());
    assert(pool_len(store, ordering.drop_last()) == 0);
    assert(total_rows(store, ordering.drop_last()) == 0);
    assert(ordering.last() == (ids[i], 0usize));
    assert(pool_len(store, ordering) == store.rows(ids[i]).len());
    assert forall|at: int| 0 <= at < pool_len(store, ordering) implies #[trigger] covered(
        store,
        ordering,
        at,
    ) by {
        assert(covers(store, ordering[0], at));
    }
    assert(ids.contains(ordering[0].0));
}

/// A plan that gains a pattern where the pattern first fits is a plan still, of one pattern
/// more.
proof fn lemma_plan_with(store: PatternStore, ids: Seq<PatternId>, plan: Plan, size: int, id: PatternId)
    requires
        group_ok(store, ids),
        plan_ok(store, ids, plan, size),
        size < ids.len(),
        ids.contains(id),
        !placed(plan.0, id),
    ensures
        plan_ok(store, ids, plan_with(store, plan, id), size + 1),
        0 <= score_with_candidate(store, plan.0, plan.1, store.rows(id)).1 <= pool_len(
            store,
            plan.0,
        ),
        plan.1 <= score_with_candidate(store, plan.0, plan.1, store.rows(id)).0 <= plan.1
            + store.rows(id).len(),
{
    let candidate = store.rows(id);
    let i = choose|i: int| 0 <= i < ids.len() && ids[i] == id;
    assert(store.contains(ids[i]) && 1 <= store.rows(ids[i]).len() <= 64);
    lemma_pool_len(store, plan.0);
    lemma_total_rows_bound(store, ids, plan.0);
    lemma_first_fit(store, plan.0, candidate, 0);
    let start = first_fit(store, plan.0, candidate, 0);
    assert(0 <= start <= pool_len(store, plan.0) <= usize::MAX);
    assert(fits_at(store, plan.0, candidate, start));
    let at = insert_index(plan.0, start, 0);
    lemma_insert_index(plan.0, start, 0);
    plan.0.insert_ensures(at, (id, start as usize));
    lemma_placing_keeps_pool(store, plan.0, id, start as usize);
    lemma_total_rows_insert(store, plan.0, at, (id, start as usize));
    let after = plan_with(store, plan, id);
    assert forall|k: int| 0 <= k < after.0.len() implies ids.contains((#[trigger] after.0[k]).0) by {
        if k < at {
            assert(after.0[k] == plan.0[k]);
        } else if k > at {
            assert(after.0[(k - 1) + 1] == plan.0[k - 1]);
        }
    }
}

/// If some of the first `upto` plans can take the pattern, one of them is the best; and the
/// best is one that can take it.
proof fn lemma_best_source(store: PatternStore, plans: Seq<Option<Plan>>, id: PatternId, upto: int)
    requires
        0 <= upto <= plans.len(),
    ensures
        best_source(store, plans, id, upto) matches Some(k) ==> 0 <= k < upto && can_take(
            plans[k],
            id,
        ),
        (exists|k: int| 0 <= k < upto && can_take(#[trigger] plans[k], id)) ==> best_source(
            store,
            plans,
            id,
            upto,
        ) is Some,
    decreases upto,
{
    if upto > 0 {
        lemma_best_source(store, plans, id, upto - 1);
        if exists|k: int| 0 <= k < upto && can_take(#[trigger] plans[k], id) {
            let k = choose|k: int| 0 <= k < upto && can_take(#[trigger] plans[k], id);
            if k < upto - 1 {
                assert(can_take(plans[k], id));
            }
        }
    }
}

proof fn lemma_best_plan(plans: Seq<Option<Plan>>, upto: int)
    requires
        0 <= upto <= plans.len(),
    ensures
        best_plan(plans, upto) matches Some(k) ==> 0 <= k < upto && plans[k] is Some,
        (exists|k: int| 0 <= k < upto && (#[trigger] plans[k]) is Some) ==> best_plan(plans, upto)
            is Some,
    decreases upto,
{
    if upto > 0 {
        lemma_best_plan(plans, upto - 1);
        if exists|k: int| 0 <= k < upto && (#[trigger] plans[k]) is Some {
            let k = choose|k: int| 0 <= k < upto && (#[trigger] plans[k]) is Some;
            if k < upto - 1 {
                assert(plans[k] is Some);
            }
        }
    }
}

/// A plan that lacks one of the patterns can take one.
proof fn lemma_some_pattern_left(store: PatternStore, ids: Seq<PatternId>, plan: Plan, size: int)
    requires
        group_ok(store, ids),
        plan_ok(store, ids, plan, size),
        size < ids.len(),
    ensures
        exists|i: int| 0 <= i < ids.len() && !placed(plan.0, #[trigger] ids[i]),
{
    if forall|i: int| 0 <= i < ids.len() ==> placed(plan.0, #[trigger] ids[i]) {
        let placed_ids = Seq::new(plan.0.len(), |k: int| plan.0[k].0);
        assert(ids.to_set().subset_of(placed_ids.to_set())) by {
            assert forall|id: PatternId| ids.to_set().contains(id) implies placed_ids.to_set().contains(
                id,
            ) by {
                let i = choose|i: int| 0 <= i < ids.len() && ids[i] == id;
                assert(placed(plan.0, ids[i]));
                let k = choose|k: int| 0 <= k < plan.0.len() && (#[trigger] plan.0[k]).0 == id;
                assert(placed_ids[k] == id);
            }
        }
        ids.unique_seq_to_set();
        placed_ids.lemma_cardinality_of_set();
        vstd::seq_lib::seq_to_set_is_finite(placed_ids);
        vstd::set_lib::lemma_len_subset(ids.to_set(), placed_ids.to_set());
        assert(false);
    }
}

/// A plan of all the patterns has each of them.
proof fn lemma_all_patterns_placed(store: PatternStore, ids: Seq<PatternId>, plan: Plan)
    requires
        group_ok(store, ids),
        plan_ok(store, ids, plan, ids.len() as int),
    ensures
        forall|id: PatternId| placed(plan.0, id) <==> ids.contains(id),
{
    let placed_ids = Seq::new(plan.0.len(), |k: int| plan.0[k].0);
    assert(placed_ids.no_duplicates()) by {
        assert forall|a: int, b: int|
            0 <= a < placed_ids.len() && 0 <= b < placed_ids.len() && a != b implies placed_ids[a]
            != placed_ids[b] by {
            if a < b {
                assert(plan.0[a].0 != plan.0[b].0);
            } else {
                assert(plan.0[b].0 != plan.0[a].0);
            }
        }
    }
    placed_ids.unique_seq_to_set();
    ids.unique_seq_to_set();
    vstd::seq_lib::seq_to_set_is_finite(placed_ids);
    vstd::seq_lib::seq_to_set_is_finite(ids);
    assert(placed_ids.to_set().subset_of(ids.to_set())) by {
        assert forall|id: PatternId| placed_ids.to_set().contains(id) implies ids.to_set().contains(
            id,
        ) by {
            let k = choose|k: int| 0 <= k < placed_ids.len() && placed_ids[k] == id;
            assert(ids.contains(plan.0[k].0));
        }
    }
    vstd::set_lib::lemma_subset_equality(placed_ids.to_set(), ids.to_set());
    assert forall|id: PatternId| placed(plan.0, id) <==> ids.contains(id) by {
        if placed(plan.0, id) {
            let k = choose|k: int| 0 <= k < plan.0.len() && (#[trigger] plan.0[k]).0 == id;
            assert(ids.contains(plan.0[k].0));
        }
        if ids.contains(id) {
            assert(ids.to_set().contains(id));
            assert(placed_ids.to_set().contains(id));
            let k = choose|k: int| 0 <= k < placed_ids.len() && placed_ids[k] == id;
            assert(plan.0[k].0 == id);
        }
    }
}

/// Each round of the search leaves plans that are pools, of one pattern more than before, and
/// leaves at least one.
pub proof fn lemma_plans_after(store: PatternStore, ids: Seq<PatternId>, rounds: nat)
    requires
        group_ok(store, ids),
        rounds < ids.len(),
    ensures
        plans_ok(store, ids, plans_after(store, ids, rounds), rounds as int + 1),
    decreases rounds,
{
    let plans = plans_after(store, ids, rounds);
    if rounds == 0 {
        assert forall|i: int| 0 <= i < plans.len() && (#[trigger] plans[i]) is Some implies plan_ok(
            store,
            ids,
            plans[i]->0,
            1,
        ) by {
            lemma_single_plan(store, ids, i);
        }
        assert(plans[0] is Some);
    } else {
        let before = plans_after(store, ids, (rounds - 1) as nat);
        lemma_plans_after(store, ids, (rounds - 1) as nat);
        lemma_next_plans(store, ids, before, rounds as int);
    }
}

proof fn lemma_next_plans(store: PatternStore, ids: Seq<PatternId>, before: Seq<Option<Plan>>, size: int)
    requires
        group_ok(store, ids),
        plans_ok(store, ids, before, size),
        1 <= size < ids.len(),
    ensures
        plans_ok(store, ids, next_plans(store, before, ids), size + 1),
{
    let plans = next_plans(store, before, ids);
    assert forall|i: int| 0 <= i < plans.len() && (#[trigger] plans[i]) is Some implies plan_ok(
        store,
        ids,
        plans[i]->0,
        size + 1,
    ) by {
        lemma_best_source(store, before, ids[i], before.len() as int);
        let k = best_source(store, before, ids[i], before.len() as int)->0;
        assert(before[k] is Some);
        lemma_plan_with(store, ids, before[k]->0, size, ids[i]);
    }
    let j = choose|j: int| 0 <= j < before.len() && (#[trigger] before[j]) is Some;
    lemma_some_pattern_left(store, ids, before[j]->0, size);
    let i = choose|i: int| 0 <= i < ids.len() && !placed(before[j].unwrap().0, #[trigger] ids[i]);
    assert(can_take(before[j], ids[i]));
    lemma_best_source(store, before, ids[i], before.len() as int);
    assert(plans[i] is Some);
}

/// The model of a pool in the making.
pub open spec fn plan_of(builder: Option<RowPoolBuilder>) -> Option<Plan> {
    match builder {
        Some(builder) => Some((builder.ordering@, builder.score as int)),
        None => None,
    }
}

/// The pools in the making are, over the store, those of the plans.
pub open spec fn builders_match(
    store: &PatternStore,
    builders: Seq<Option<RowPoolBuilder>>,
    plans: Seq<Option<Plan>>,
) -> bool {
    &&& builders.len() == plans.len()
    &&& forall|k: int|
        0 <= k < builders.len() ==> plan_of(#[trigger] builders[k]) == plans[k] && (
        builders[k] matches Some(builder) ==> builder.patterns == store)
}

impl<'patterns> RowPoolBuilder<'patterns> {
    /// A pool like this one.
    pub fn duplicate(&self) -> (copy: Self)
        ensures
            copy.patterns == self.patterns,
            copy.ordering@ == self.ordering@,
            copy.score == self.score,
    {
        let mut ordering: Vec<Placement> = Vec::new();
        let mut k: usize = 0;
        while k < self.ordering.len()
            invariant
                k <= self.ordering.len(),
                ordering@ == self.ordering@.take(k as int),
            decreases self.ordering.len() - k,
        {
            ordering.push(self.ordering[k]);
            assert(self.ordering@.take(k + 1) == self.ordering@.take(k as int).push(
                self.ordering[k as int],
            ));
            k += 1;
        }
        assert(self.ordering@.take(self.ordering.len() as int) == self.ordering@);
        RowPoolBuilder { patterns: self.patterns, ordering, score: self.score }
    }
}

/// The best of the pools extended by the pattern named `pattern_id`, if any can take it.
fn extend_best<'patterns>(
    patterns: &'patterns PatternStore,
    builders: &Vec<Option<RowPoolBuilder<'patterns>>>,
    pattern_ids: &Vec<PatternId>,
    pattern_id: PatternId,
    Ghost(plans): Ghost<Seq<Option<Plan>>>,
    Ghost(size): Ghost<int>,
) -> (extended: Option<RowPoolBuilder<'patterns>>)
    requires
        group_ok(*patterns, pattern_ids@),
        plans_ok(*patterns, pattern_ids@, plans, size),
        builders_match(patterns, builders@, plans),
        pattern_ids@.contains(pattern_id),
        size < pattern_ids.len(),
    ensures
        plan_of(extended) == best_extension(*patterns, plans, pattern_id),
        extended matches Some(builder) ==> builder.patterns == patterns,
{
    let ghost store = *patterns;
    let ghost ids = pattern_ids@;
    let mut best: Option<(usize, usize, usize)> = None;
    let mut k: usize = 0;
    while k < builders.len()
        invariant
            store == *patterns,
            ids == pattern_ids@,
            group_ok(store, ids),
            plans_ok(store, ids, plans, size),
            builders_match(patterns, builders@, plans),
            ids.contains(pattern_id),
            size < ids.len(),
            k <= builders.len(),
            match best {
                Some((source, score, start)) => {
                    &&& best_source(store, plans, pattern_id, k as int) == Some(source as int)
                    &&& source < k
                    &&& can_take(plans[source as int], pattern_id)
                    &&& (score as int, start as int) == score_with_candidate(
                        store,
                        plans[source as int].unwrap().0,
                        plans[source as int].unwrap().1,
                        store.rows(pattern_id),
                    )
                },
                None => best_source(store, plans, pattern_id, k as int) is None,
            },
        decreases builders.len() - k,
    {
        assert(plan_of(builders[k as int]) == plans[k as int]);
        match &builders[k] {
            Some(builder) => {
                if !builder.contains(pattern_id) {
                    proof {
                        let i = choose|i: int| 0 <= i < ids.len() && ids[i] == pattern_id;
                        assert(store.contains(ids[i]) && 1 <= store.rows(ids[i]).len() <= 64);
                        assert(plan_ok(store, ids, plans[k as int]->0, size));
                        lemma_total_rows_bound(store, ids, plans[k as int].unwrap().0);
                        lemma_pool_len(store, builder.ordering@);
                    }
                    let (score, start) = builder.score_with(pattern_id);
                    let better = match best {
                        Some((_, best_score, _)) => best_score < score,
                        None => true,
                    };
                    if better {
                        best = Some((k, score, start));
                    }
                }
            },
            None => {},
        }
        k += 1;
    }
    match best {
        Some((source, score, start)) => {
            assert(plan_of(builders[source as int]) == plans[source as int]);
            match &builders[source] {
                Some(builder) => {
                    let mut extended = builder.duplicate();
                    extended.add(pattern_id, start, score);
                    Some(extended)
                },
                None => vstd::pervasive::unreached(),
            }
        },
        None => None,
    }
}

/// For each pattern a pool of that pattern alone.
fn seed_builders<'patterns>(patterns: &'patterns PatternStore, pattern_ids: &Vec<PatternId>) -> (builders: Vec<
    Option<RowPoolBuilder<'patterns>>,
>)
    ensures
        builders_match(patterns, builders@, plans_after(*patterns, pattern_ids@, 0)),
{
    let ghost store = *patterns;
    let ghost ids = pattern_ids@;
    let mut builders: Vec<Option<RowPoolBuilder<'patterns>>> = Vec::new();
    let mut i: usize = 0;
    while i < pattern_ids.len()
        invariant
            store == *patterns,
            ids == pattern_ids@,
            i <= ids.len(),
            builders.len() == i,
            forall|k: int|
                0 <= k < i ==> plan_of(#[trigger] builders[k]) == plans_after(store, ids, 0)[k] && (
                builders[k] matches Some(builder) ==> builder.patterns == patterns),
        decreases ids.len() - i,
    {
        builders.push(Some(RowPoolBuilder::new(patterns, pattern_ids[i])));
        i += 1;
    }
    builders
}

/// For each pattern the best of the pools extended by it.
fn next_round<'patterns>(
    patterns: &'patterns PatternStore,
    builders: &Vec<Option<RowPoolBuilder<'patterns>>>,
    pattern_ids: &Vec<PatternId>,
    Ghost(plans): Ghost<Seq<Option<Plan>>>,
    Ghost(size): Ghost<int>,
) -> (next: Vec<Option<RowPoolBuilder<'patterns>>>)
    requires
        group_ok(*patterns, pattern_ids@),
        plans_ok(*patterns, pattern_ids@, plans, size),
        builders_match(patterns, builders@, plans),
        size < pattern_ids.len(),
    ensures
        builders_match(patterns, next@, next_plans(*patterns, plans, pattern_ids@)),
{
    let ghost store = *patterns;
    let ghost ids = pattern_ids@;
    let mut next: Vec<Option<RowPoolBuilder<'patterns>>> = Vec::new();
    let mut i: usize = 0;
    while i < pattern_ids.len()
        invariant
            store == *patterns,
            ids == pattern_ids@,
            group_ok(store, ids),
            plans_ok(store, ids, plans, size),
            builders_match(patterns, builders@, plans),
            size < ids.len(),
            i <= ids.len(),
            next.len() == i,
            forall|k: int|
                0 <= k < i ==> plan_of(#[trigger] next[k]) == next_plans(store, plans, ids)[k] && (
                next[k] matches Some(builder) ==> builder.patterns == patterns),
        decreases ids.len() - i,
    {
        let extended = extend_best(
            patterns,
            builders,
            pattern_ids,
            pattern_ids[i],
            Ghost(plans),
            Ghost(size),
        );
        next.push(extended);
        i += 1;
    }
    next
}

/// The pool with the highest score, and of several such the first.
fn pick_best<'patterns>(
    patterns: &'patterns PatternStore,
    builders: &Vec<Option<RowPoolBuilder<'patterns>>>,
    Ghost(plans): Ghost<Seq<Option<Plan>>>,
) -> (best_builder: RowPoolBuilder<'patterns>)
    requires
        builders_match(patterns, builders@, plans),
        exists|k: int| 0 <= k < plans.len() && (#[trigger] plans[k]) is Some,
    ensures
        best_builder.patterns == patterns,
        best_plan(plans, plans.len() as int) matches Some(found) && 0 <= found < plans.len()
            && plans[found] == Some((best_builder.ordering@, best_builder.score as int)),
{
    let mut best: Option<usize> = None;
    let mut k: usize = 0;
    while k < builders.len()
        invariant
            builders_match(patterns, builders@, plans),
            k <= builders.len(),
            match best {
                Some(found) => best_plan(plans, k as int) == Some(found as int) && found < k
                    && plans[found as int] is Some,
                None => best_plan(plans, k as int) is None,
            },
        decreases builders.len() - k,
    {
        assert(plan_of(builders[k as int]) == plans[k as int]);
        match &builders[k] {
            Some(builder) => {
                let better = match best {
                    Some(found) => {
                        assert(plan_of(builders[found as int]) == plans[found as int]);
                        match &builders[found] {
                            Some(best_builder) => best_builder.score < builder.score,
                            None => vstd::pervasive::unreached(),
                        }
                    },
                    None => true,
                };
                if better {
                    best = Some(k);
                }
            },
            None => {},
        }
        k += 1;
    }
    proof {
        lemma_best_plan(plans, plans.len() as int);
    }
    let found = match best {
        Some(found) => found,
        None => vstd::pervasive::unreached(),
    };
    assert(plan_of(builders[found as int]) == plans[found as int]);
    match &builders[found] {
        Some(builder) => builder.duplicate(),
        None => vstd::pervasive::unreached(),
    }
}

/// Searches for an order of the patterns named by `pattern_ids`, and for a row of the pool for
/// each to start at, such that rows of several patterns fall on the same row of the pool.
/// Returns the pool, and its score: the number of rows that it spares.
pub fn find_overlap_in_group<'patterns>(
    patterns: &'patterns PatternStore,
    pattern_ids: &Vec<PatternId>,
) -> (result: (RowPoolBuilder<'patterns>, usize))
    requires
        group_ok(*patterns, pattern_ids@),
    ensures
        result.0.patterns == patterns,
        (result.0.ordering@, result.0.score as int) == overlap_plan(*patterns, pattern_ids@),
        result.1 == result.0.score,
        result.0.wf(),
        starts_ascend(result.0.ordering@),
        placed_once(result.0.ordering@),
        plan_ok(
            *patterns,
            pattern_ids@,
            (result.0.ordering@, result.0.score as int),
            pattern_ids.len() as int,
        ),
        forall|id: PatternId| placed(result.0.ordering@, id) <==> pattern_ids@.contains(id),
{
    let ghost store = *patterns;
    let ghost ids = pattern_ids@;
    let nb_patterns = pattern_ids.len();
    if nb_patterns == 0 {
        let empty = RowPoolBuilder { patterns, ordering: Vec::new(), score: 0 };
        proof {
            lemma_no_pattern(store, ids, empty.ordering@);
        }
        return (empty, 0);
    }
    // At first each pattern stands alone, and nothing overlaps.
    let mut builders = seed_builders(patterns, pattern_ids);
    let mut round: usize = 1;
    while round < nb_patterns
        invariant
            store == *patterns,
            ids == pattern_ids@,
            nb_patterns == ids.len(),
            group_ok(store, ids),
            1 <= round <= nb_patterns,
            builders_match(patterns, builders@, plans_after(store, ids, (round - 1) as nat)),
        decreases nb_patterns - round,
    {
        proof {
            lemma_plans_after(store, ids, (round - 1) as nat);
        }
        builders =
        next_round(
            patterns,
            &builders,
            pattern_ids,
            Ghost(plans_after(store, ids, (round - 1) as nat)),
            Ghost(round as int),
        );
        round += 1;
    }
    let ghost plans = plans_after(store, ids, (nb_patterns - 1) as nat);
    proof {
        lemma_plans_after(store, ids, (nb_patterns - 1) as nat);
    }
    // Of the orders that are left, the one that spares most rows.
    let best_builder = pick_best(patterns, &builders, Ghost(plans));
    proof {
        let found = best_plan(plans, plans.len() as int).unwrap();
        let plan = plans[found].unwrap();
        assert(plan_ok(store, ids, plan, nb_patterns as int));
        lemma_total_rows_bound(store, ids, plan.0);
        lemma_pool_len(store, plan.0);
        lemma_all_patterns_placed(store, ids, plan);
    }
    let score = best_builder.score;
    (best_builder, score)
}

/// Where there is no pattern, the search finds the empty pool.
proof fn lemma_no_pattern(store: PatternStore, ids: Seq<PatternId>, ordering: Seq<Placement>)
    requires
        group_ok(store, ids),
        ids.len() == 0,
        ordering.len() == 0,
    ensures
        (ordering, 0int) == overlap_plan(store, ids),
        ordering_wf(store, ordering),
        pool_len(store, ordering) == 0,
        plan_ok(store, ids, (ordering, 0int), 0),
        forall|id: PatternId| placed(ordering, id) <==> ids.contains(id),
{
    assert(ordering =~= Seq::<Placement>::empty());
    let plans = plans_after(store, ids, 0);
    assert(plans.len() == 0);
}

/// An entry of a row pool.
#[derive(Debug, Clone, Copy, PartialEq, Eq, Structural)]
pub enum OutputCell {
    /// The pattern starts at the next row.
    Label(PatternId),
    /// A row: the id of its cell in the catalog.
    Cell(u8),
    /// The pattern named here, which started earlier, goes on for `nb_rows` rows under the
    /// label that follows.
    OverlapMarker { nb_rows: usize, pattern_id: PatternId },
}

/// The cells of a row pool, each once, in the order in which the pool first has them. The id of
/// a cell is its place, as far as a byte can tell.
#[derive(Debug)]
pub struct CellCatalog {
    pub cells: Vec<Cell>,
}

/// The place of the first cell from `from` on that is the same as `cell`; the number of cells
/// where none is.
pub open spec fn catalog_index(cells: Seq<Cell>, cell: Cell, from: int) -> int
    decreases cells.len() - from,
{
    if from >= cells.len() {
        cells.len() as int
    } else if cells[from].same_as(cell) {
        from
    } else {
        catalog_index(cells, cell, from + 1)
    }
}

pub proof fn lemma_catalog_index(cells: Seq<Cell>, cell: Cell, from: int)
    requires
        0 <= from <= cells.len(),
    ensures
        from <= catalog_index(cells, cell, from) <= cells.len(),
        catalog_index(cells, cell, from) < cells.len() ==> cells[catalog_index(
            cells,
            cell,
            from,
        )].same_as(cell),
        forall|k: int|
            from <= k < catalog_index(cells, cell, from) ==> !(#[trigger] cells[k]).same_as(cell),
    decreases cells.len() - from,
{
    if from < cells.len() && !cells[from].same_as(cell) {
        lemma_catalog_index(cells, cell, from + 1);
    }
}

/// Each of the cells has a first byte.
pub open spec fn all_encodable(cells: Seq<Cell>) -> bool {
    forall|i: int| 0 <= i < cells.len() ==> (#[trigger] cells[i]).encodable()
}

/// Each row of the store that playback reaches has a cell with a first byte.
pub open spec fn reached_rows_encodable(store: PatternStore) -> bool {
    forall|i: int, r: int|
        0 <= i < store.entries.len() && 0 <= r < store.entries[i].pattern.0.len() && (
        #[trigger] store.entries[i].pattern.0[r]).reachable
            ==> store.entries[i].pattern.0[r].cell.encodable()
}

impl CellCatalog {
    /// No cell is in the catalog twice.
    pub open spec fn wf(&self) -> bool {
        forall|i: int, j: int|
            0 <= i < j < self.cells.len() ==> !(#[trigger] self.cells[i]).same_as(
                #[trigger] self.cells[j],
            )
    }

    pub fn new() -> (catalog: Self)
        ensures
            catalog.cells@.len() == 0,
            catalog.wf(),
    {
        CellCatalog { cells: Vec::new() }
    }

    /// The number of cells in the catalog.
    pub fn len(&self) -> (n: usize)
        ensures
            n == self.cells.len(),
    {
        self.cells.len()
    }

    /// The place of `cell` in the catalog, if it is there.
    pub fn find(&self, cell: &Cell) -> (found: Option<usize>)
        ensures
            match found {
                Some(at) => at < self.cells.len() && at == catalog_index(self.cells@, *cell, 0),
                None => catalog_index(self.cells@, *cell, 0) == self.cells.len(),
            },
    {
        let mut at: usize = 0;
        while at < self.cells.len()
            invariant
                at <= self.cells.len(),
                catalog_index(self.cells@, *cell, 0) == catalog_index(
                    self.cells@,
                    *cell,
                    at as int,
                ),
            decreases self.cells.len() - at,
        {
            if self.cells[at] == *cell {
                return Some(at);
            }
            at += 1;
        }
        None
    }
}

/// The cells of the first `upto` rows of the pool, each once, in the order in which the pool
/// first has them. A row that playback never reaches has no cell.
pub open spec fn catalog_upto(store: PatternStore, ordering: Seq<Placement>, upto: int) -> Seq<Cell>
    decreases upto,
{
    if upto <= 0 {
        Seq::empty()
    } else {
        let before = catalog_upto(store, ordering, upto - 1);
        let row = pool_row(store, ordering, upto - 1);
        if row.reachable && catalog_index(before, row.cell, 0) >= before.len() {
            before.push(row.cell)
        } else {
            before
        }
    }
}

/// The number of rows among the first `upto` rows of the pool that playback reaches.
pub open spec fn live_rows_upto(store: PatternStore, ordering: Seq<Placement>, upto: int) -> int
    decreases upto,
{
    if upto <= 0 {
        0
    } else {
        live_rows_upto(store, ordering, upto - 1) + (if pool_row(
            store,
            ordering,
            upto - 1,
        ).reachable {
            1int
        } else {
            0int
        })
    }
}

/// The id that stands for row `at` of the pool: the place of its cell in the catalog, as far as
/// a byte can tell; and 255 for a row that playback never reaches.
pub open spec fn cell_id_at(store: PatternStore, ordering: Seq<Placement>, at: int) -> u8 {
    let row = pool_row(store, ordering, at);
    if row.reachable {
        (catalog_index(catalog_upto(store, ordering, at + 1), row.cell, 0) % 256) as u8
    } else {
        255
    }
}

/// What marks the start of the pattern at place `index` of the ordering, at row `at` of the
/// pool: its label, and before the label, where an earlier pattern still has rows from there
/// on, the number of those rows.
pub open spec fn label_at(store: PatternStore, ordering: Seq<Placement>, at: int, index: int) -> Seq<
    OutputCell,
> {
    let first = first_cover(store, ordering, at, 0);
    if index == first {
        seq![OutputCell::Label(ordering[index].0)]
    } else {
        seq![
            OutputCell::OverlapMarker {
                nb_rows: (end_of(store, ordering[first]) - at) as usize,
                pattern_id: ordering[first].0,
            },
            OutputCell::Label(ordering[index].0),
        ]
    }
}

/// What marks the starts of the patterns, from place `from` of the ordering on, that start at
/// row `at` of the pool.
pub open spec fn labels_at(store: PatternStore, ordering: Seq<Placement>, at: int, from: int) -> Seq<
    OutputCell,
>
    decreases ordering.len() - from,
{
    if from >= ordering.len() {
        Seq::empty()
    } else if ordering[from].1 == at {
        label_at(store, ordering, at, from) + labels_at(store, ordering, at, from + 1)
    } else {
        labels_at(store, ordering, at, from + 1)
    }
}

/// The entries of the row pool for the first `upto` rows: for each row the labels of the
/// patterns that start there, and then the id of its cell.
pub open spec fn pool_output(store: PatternStore, ordering: Seq<Placement>, upto: int) -> Seq<
    OutputCell,
>
    decreases upto,
{
    if upto <= 0 {
        Seq::empty()
    } else {
        pool_output(store, ordering, upto - 1) + labels_at(store, ordering, upto - 1, 0)
            + seq![OutputCell::Cell(cell_id_at(store, ordering, upto - 1))]
    }
}

/// The bytes that the catalog saves: two for each row that is an id in place of a cell, less
/// three for each cell of the catalog, and less two for each of the 256 places of the catalog
/// that stay empty.
pub open spec fn catalog_savings(store: PatternStore, ordering: Seq<Placement>) -> int {
    let rows = pool_len(store, ordering);
    let cells = catalog_upto(store, ordering, rows).len();
    2 * live_rows_upto(store, ordering, rows) - 3 * cells - (256 - cells) * 2
}

proof fn lemma_no_labels(store: PatternStore, ordering: Seq<Placement>, at: int, from: int)
    requires
        0 <= from <= ordering.len(),
        forall|k: int| from <= k < ordering.len() ==> (#[trigger] ordering[k]).1 != at,
    ensures
        labels_at(store, ordering, at, from) == Seq::<OutputCell>::empty(),
    decreases ordering.len() - from,
{
    if from < ordering.len() {
        lemma_no_labels(store, ordering, at, from + 1);
    }
}

proof fn lemma_skip_labels(store: PatternStore, ordering: Seq<Placement>, at: int, from: int, to: int)
    requires
        0 <= from <= to <= ordering.len(),
        forall|k: int| from <= k < to ==> (#[trigger] ordering[k]).1 != at,
    ensures
        labels_at(store, ordering, at, from) == labels_at(store, ordering, at, to),
    decreases to - from,
{
    if from < to {
        lemma_skip_labels(store, ordering, at, from + 1, to);
    }
}

proof fn lemma_catalog_upto(store: PatternStore, ordering: Seq<Placement>, upto: int)
    requires
        0 <= upto,
    ensures
        0 <= catalog_upto(store, ordering, upto).len() <= live_rows_upto(store, ordering, upto)
            <= upto,
        forall|i: int, j: int|
            0 <= i < j < catalog_upto(store, ordering, upto).len() ==> !(#[trigger] catalog_upto(
                store,
                ordering,
                upto,
            )[i]).same_as(#[trigger] catalog_upto(store, ordering, upto)[j]),
    decreases upto,
{
    if upto > 0 {
        lemma_catalog_upto(store, ordering, upto - 1);
        let before = catalog_upto(store, ordering, upto - 1);
        let row = pool_row(store, ordering, upto - 1);
        lemma_catalog_index(before, row.cell, 0);
        let now = catalog_upto(store, ordering, upto);
        assert forall|i: int, j: int| 0 <= i < j < now.len() implies !(#[trigger] now[i]).same_as(
            #[trigger] now[j],
        ) by {
            if j < before.len() {
                assert(!before[i].same_as(before[j]));
            } else {
                assert(!before[i].same_as(row.cell));
            }
        }
    }
}

/// Lays out the pool: returns its entries, the catalog of its cells, and the number of bytes
/// that the catalog saves.
pub fn generate_row_pool(builder: RowPoolBuilder) -> (result: (Vec<OutputCell>, CellCatalog, isize))
    requires
        builder.wf(),
        3 * builder.spec_len() + 512 <= isize::MAX,
    ensures
        result.0@ == pool_output(*builder.patterns, builder.ordering@, builder.spec_len()),
        result.1.cells@ == catalog_upto(*builder.patterns, builder.ordering@, builder.spec_len()),
        result.1.wf(),
        result.2 == catalog_savings(*builder.patterns, builder.ordering@),
{
    let ghost store = *builder.patterns;
    let ghost ordering = builder.ordering@;
    let mut output: Vec<OutputCell> = Vec::new();
    let mut cell_catalog = CellCatalog::new();
    let mut nb_saved_bytes: isize = 0;
    let mut rows = builder.rows();
    // The next pattern to get its label.
    let mut next_idx: usize = 0;
    proof {
        lemma_pool_len(store, ordering);
    }
    loop
        invariant
            builder.wf(),
            store == *builder.patterns,
            ordering == builder.ordering@,
            3 * pool_len(store, ordering) + 512 <= isize::MAX,
            rows.wf(),
            rows.builder == &builder,
            rows.row_idx <= pool_len(store, ordering),
            next_idx <= ordering.len(),
            forall|k: int| 0 <= k < next_idx ==> (#[trigger] ordering[k]).1 < rows.row_idx,
            next_idx < ordering.len() ==> ordering[next_idx as int].1 >= rows.row_idx,
            output@ == pool_output(store, ordering, rows.row_idx as int),
            cell_catalog.cells@ == catalog_upto(store, ordering, rows.row_idx as int),
            nb_saved_bytes == 2 * live_rows_upto(store, ordering, rows.row_idx as int) - 3
                * cell_catalog.cells@.len(),
        ensures
            rows.row_idx == pool_len(store, ordering),
            output@ == pool_output(store, ordering, rows.row_idx as int),
            cell_catalog.cells@ == catalog_upto(store, ordering, rows.row_idx as int),
            nb_saved_bytes == 2 * live_rows_upto(store, ordering, rows.row_idx as int) - 3
                * cell_catalog.cells@.len(),
        decreases pool_len(store, ordering) - rows.row_idx,
    {
        let at = rows.row_idx;
        let current = rows.ordering_idx;
        if current >= builder.ordering.len() {
            break ;
        }
        let ghost base = output@;
        proof {
            lemma_first_skip(store, ordering, at as int, 0, current as int);
            lemma_first_cover(store, ordering, at as int, current as int);
            assert(first_cover(store, ordering, at as int, 0) == current);
            lemma_skip_labels(store, ordering, at as int, 0, next_idx as int);
            lemma_catalog_upto(store, ordering, at as int);
        }
        while next_idx < builder.ordering.len() && builder.ordering[next_idx].1 == at
            invariant
                builder.wf(),
                store == *builder.patterns,
                ordering == builder.ordering@,
                current < ordering.len(),
                first_cover(store, ordering, at as int, 0) == current,
                covers(store, ordering[current as int], at as int),
                next_idx <= ordering.len(),
                forall|k: int| 0 <= k < next_idx ==> (#[trigger] ordering[k]).1 <= at,
                next_idx < ordering.len() ==> ordering[next_idx as int].1 >= at,
                output@ + labels_at(store, ordering, at as int, next_idx as int) == base
                    + labels_at(store, ordering, at as int, 0),
            decreases ordering.len() - next_idx,
        {
            let ghost before = output@;
            let (next_pattern_id, _) = builder.ordering[next_idx];
            if next_idx != current {
                let (prior_id, prior_start) = builder.ordering[current];
                let prior_len = builder.patterns.pattern(prior_id).0.len();
                output.push(
                    OutputCell::OverlapMarker {
                        nb_rows: prior_len - (at - prior_start),
                        pattern_id: prior_id,
                    },
                );
            }
            output.push(OutputCell::Label(next_pattern_id));
            proof {
                assert(output@ =~= before + label_at(store, ordering, at as int, next_idx as int));
                assert(before + (label_at(store, ordering, at as int, next_idx as int)
                    + labels_at(store, ordering, at as int, next_idx + 1)) =~= (before + label_at(
                    store,
                    ordering,
                    at as int,
                    next_idx as int,
                )) + labels_at(store, ordering, at as int, next_idx + 1));
                if next_idx + 1 < ordering.len() {
                    assert(ordering[next_idx as int].1 <= ordering[next_idx + 1].1);
                }
            }
            next_idx += 1;
        }
        proof {
            assert forall|k: int| next_idx <= k < ordering.len() implies (#[trigger] ordering[k]).1
                != at by {
                if k > next_idx {
                    assert(ordering[next_idx as int].1 <= ordering[k].1);
                }
            }
            lemma_no_labels(store, ordering, at as int, next_idx as int);
            assert(output@ =~= base + labels_at(store, ordering, at as int, 0));
        }
        let ghost labelled = output@;
        proof {
            lemma_pool_len(store, ordering);
        }
        let row = match rows.next() {
            Some(row) => row,
            None => vstd::pervasive::unreached(),
        };
        if row.reachable {
            // An id of one byte stands for a cell of three, and a cell new to the catalog costs
            // its three bytes.
            nb_saved_bytes = nb_saved_bytes + 2;
            let place = match cell_catalog.find(&row.cell) {
                Some(place) => place,
                None => {
                    nb_saved_bytes = nb_saved_bytes - 3;
                    cell_catalog.cells.push(row.cell);
                    cell_catalog.cells.len() - 1
                },
            };
            proof {
                let before = catalog_upto(store, ordering, at as int);
                lemma_catalog_index(before, row.cell, 0);
                let now = catalog_upto(store, ordering, at + 1);
                lemma_catalog_index(now, row.cell, 0);
                if catalog_index(before, row.cell, 0) >= before.len() {
                    assert(now == before.push(row.cell));
                    assert(now[before.len() as int].same_as(row.cell));
                    assert(catalog_index(now, row.cell, 0) == before.len()) by {
                        if catalog_index(now, row.cell, 0) < before.len() {
                            assert(now[catalog_index(now, row.cell, 0)] == before[catalog_index(
                                now,
                                row.cell,
                                0,
                            )]);
                        }
                    }
                } else {
                    assert(now == before);
                }
                assert(place == catalog_index(now, row.cell, 0));
            }
            output.push(OutputCell::Cell(#[verifier::truncate] (place as u8)));
            proof {
                assert(place as u8 == (place as int % 256) as u8) by {
                    assert(place as u8 == (place as int % 256) as u8) by (bit_vector);
                }
            }
        } else {
            // No pattern has a row here that playback reaches: whatever stands here is never read.
            output.push(OutputCell::Cell(255));
        }
        proof {
            assert(output@ =~= labelled + seq![
                OutputCell::Cell(cell_id_at(store, ordering, at as int)),
            ]);
            lemma_catalog_upto(store, ordering, at + 1);
        }
    }
    proof {
        lemma_catalog_upto(store, ordering, pool_len(store, ordering));
    }
    let nb_unique_cells = cell_catalog.len() as isize;
    (output, cell_catalog, nb_saved_bytes - (256 - nb_unique_cells) * 2)
}

/// Those of the ids that name patterns of the main grid, or those that name subpatterns, in
/// their order.
pub open spec fn ids_of_group(ids: Seq<PatternId>, main: bool) -> Seq<PatternId>
    decreases ids.len(),
{
    if ids.len() == 0 {
        Seq::empty()
    } else if ids.last().spec_is_main() == main {
        ids_of_group(ids.drop_last(), main).push(ids.last())
    } else {
        ids_of_group(ids.drop_last(), main)
    }
}

pub proof fn lemma_ids_of_group(ids: Seq<PatternId>, main: bool)
    ensures
        ids_of_group(ids, main).len() <= ids.len(),
        forall|id: PatternId| #[trigger]
            ids_of_group(ids, main).contains(id) ==> ids.contains(id) && id.spec_is_main()
                == main,
        forall|id: PatternId| #[trigger]
            ids.contains(id) && id.spec_is_main() == main ==> ids_of_group(ids, main).contains(
                id,
            ),
        ids.no_duplicates() ==> ids_of_group(ids, main).no_duplicates(),
        ids_of_group(ids, true).len() + ids_of_group(ids, false).len() == ids.len(),
    decreases ids.len(),
{
    let group = ids_of_group(ids, main);
    if ids.len() > 0 {
        let rest = ids.drop_last();
        let last = ids.last();
        lemma_ids_of_group(rest, main);
        lemma_ids_of_group(rest, !main);
        let before = ids_of_group(rest, main);
        assert forall|id: PatternId| #[trigger] group.contains(id) implies ids.contains(id)
            && id.spec_is_main() == main by {
            let k = choose|k: int| 0 <= k < group.len() && group[k] == id;
            if k < before.len() {
                assert(before[k] == id);
                assert(before.contains(id));
                assert(rest.contains(id));
                let j = choose|j: int| 0 <= j < rest.len() && rest[j] == id;
                assert(ids[j] == id);
            } else {
                assert(ids[ids.len() - 1] == id);
            }
        }
        assert forall|id: PatternId| #[trigger]
            ids.contains(id) && id.spec_is_main() == main implies group.contains(id) by {
            let j = choose|j: int| 0 <= j < ids.len() && ids[j] == id;
            if j < rest.len() {
                assert(rest[j] == id);
                assert(rest.contains(id));
                assert(before.contains(id));
                let k = choose|k: int| 0 <= k < before.len() && before[k] == id;
                assert(group[k] == id);
            } else {
                assert(group[group.len() - 1] == id);
            }
        }
        if ids.no_duplicates() {
            assert(rest.no_duplicates());
            assert forall|a: int, b: int|
                0 <= a < group.len() && 0 <= b < group.len() && a != b implies group[a]
                != group[b] by {
                if a < before.len() && b < before.len() {
                } else {
                    let inner = if a < before.len() {
                        a
                    } else {
                        b
                    };
                    assert(before.contains(before[inner]));
                    assert(rest.contains(before[inner]));
                    let j = choose|j: int| 0 <= j < rest.len() && rest[j] == before[inner];
                    assert(ids[j] != ids[ids.len() - 1]);
                }
            }
        }
    }
}

/// The store can be searched: each of its patterns has at least one row and no more than a
/// pattern has, and their rows can be counted.
pub open spec fn store_ok(store: PatternStore) -> bool {
    &&& store.wf()
    &&& forall|i: int|
        0 <= i < store.entries.len() ==> 1 <= (#[trigger] store.entries[i]).pattern.0.len() <= 64
    &&& store.entries.len() * 64 <= usize::MAX
}

pub proof fn lemma_group_ok(store: PatternStore, main: bool)
    requires
        store_ok(store),
    ensures
        group_ok(store, ids_of_group(store.ids(), main)),
{
    let ids = store.ids();
    lemma_ids_of_group(ids, main);
    let group = ids_of_group(ids, main);
    assert(ids.no_duplicates()) by {
        assert forall|a: int, b: int|
            0 <= a < ids.len() && 0 <= b < ids.len() && a != b implies ids[a] != ids[b] by {
            if a < b {
                assert(store.entries[a].id.precedes(store.entries[b].id));
            } else {
                assert(store.entries[b].id.precedes(store.entries[a].id));
            }
        }
    }
    assert forall|i: int| 0 <= i < group.len() implies store.contains(#[trigger] group[i]) && 1
        <= store.rows(group[i]).len() <= 64 by {
        assert(group.contains(group[i]));
        assert(ids.contains(group[i]));
        let k = choose|k: int| 0 <= k < ids.len() && ids[k] == group[i];
        store.lemma_index_of(k);
    }
}

/// Searches, for the patterns of the main grid and for the subpatterns apart, for an order in
/// which the rows of the patterns overlap. Returns the two pools, and the number of rows that
/// they spare together.
pub fn find_pattern_overlap(patterns: &PatternStore) -> (result: (
    RowPoolBuilder<'_>,
    RowPoolBuilder<'_>,
    usize,
))
    requires
        store_ok(*patterns),
    ensures
        result.0.patterns == patterns,
        result.1.patterns == patterns,
        (result.0.ordering@, result.0.score as int) == overlap_plan(
            *patterns,
            ids_of_group(patterns.ids(), true),
        ),
        (result.1.ordering@, result.1.score as int) == overlap_plan(
            *patterns,
            ids_of_group(patterns.ids(), false),
        ),
        result.2 == result.0.score + result.1.score,
        result.0.wf(),
        result.1.wf(),
        starts_ascend(result.0.ordering@) && placed_once(result.0.ordering@),
        starts_ascend(result.1.ordering@) && placed_once(result.1.ordering@),
        plan_ok(
            *patterns,
            ids_of_group(patterns.ids(), true),
            (result.0.ordering@, result.0.score as int),
            ids_of_group(patterns.ids(), true).len() as int,
        ),
        plan_ok(
            *patterns,
            ids_of_group(patterns.ids(), false),
            (result.1.ordering@, result.1.score as int),
            ids_of_group(patterns.ids(), false).len() as int,
        ),
        forall|id: PatternId|
            placed(result.0.ordering@, id) <==> patterns.contains(id) && id.spec_is_main(),
        forall|id: PatternId|
            placed(result.1.ordering@, id) <==> patterns.contains(id) && !id.spec_is_main(),
{
    let ids = patterns.keys();
    let mut main_pattern_ids: Vec<PatternId> = Vec::new();
    let mut sub_pattern_ids: Vec<PatternId> = Vec::new();
    let mut i: usize = 0;
    while i < ids.len()
        invariant
            i <= ids.len(),
            main_pattern_ids@ == ids_of_group(ids@.take(i as int), true),
            sub_pattern_ids@ == ids_of_group(ids@.take(i as int), false),
        decreases ids.len() - i,
    {
        assert(ids@.take(i + 1).drop_last() == ids@.take(i as int));
        if ids[i].is_main() {
            main_pattern_ids.push(ids[i]);
        } else {
            sub_pattern_ids.push(ids[i]);
        }
        i += 1;
    }
    proof {
        assert(ids@.take(ids.len() as int) == ids@);
        lemma_group_ok(*patterns, true);
        lemma_group_ok(*patterns, false);
        lemma_ids_of_group(patterns.ids(), true);
        lemma_ids_of_group(patterns.ids(), false);
        assert forall|id: PatternId| patterns.ids().contains(id) <==> patterns.contains(id) by {
            if patterns.ids().contains(id) {
                let k = choose|k: int| 0 <= k < patterns.ids().len() && patterns.ids()[k] == id;
                assert(patterns.entries[k].id == id);
            }
            if patterns.contains(id) {
                let k = patterns.index_of(id);
                assert(patterns.ids()[k] == id);
            }
        }
    }
    let (main_builder, main_score) = find_overlap_in_group(patterns, &main_pattern_ids);
    let (sub_builder, sub_score) = find_overlap_in_group(patterns, &sub_pattern_ids);
    proof {
        lemma_total_rows_bound(*patterns, main_pattern_ids@, main_builder.ordering@);
        lemma_total_rows_bound(*patterns, sub_pattern_ids@, sub_builder.ordering@);
        lemma_pool_len(*patterns, main_builder.ordering@);
        lemma_pool_len(*patterns, sub_builder.ordering@);
    }
    (main_builder, sub_builder, main_score + sub_score)
}

/// The catalog saves no more than two bytes for each row, and costs no more than one byte for
/// each row and the 512 bytes of its places.
pub proof fn lemma_catalog_savings_bound(store: PatternStore, ordering: Seq<Placement>)
    ensures
        -(pool_len(store, ordering) + 512) <= catalog_savings(store, ordering) <= 2 * pool_len(
            store,
            ordering,
        ),
{
    lemma_pool_len(store, ordering);
    lemma_catalog_upto(store, ordering, pool_len(store, ordering));
}

/// The id that the row pool has for a row names, in the catalog, the cell of the row that
/// stands for that row of the pool, as long as the catalog has no more cells than ids; and for
/// a row that playback never reaches the id is 255.
pub proof fn lemma_pool_ids_name_the_cells(store: PatternStore, ordering: Seq<Placement>, at: int)
    requires
        0 <= at < pool_len(store, ordering),
    ensures
        !pool_row(store, ordering, at).reachable ==> cell_id_at(store, ordering, at) == 255,
        pool_row(store, ordering, at).reachable && catalog_upto(
            store,
            ordering,
            pool_len(store, ordering),
        ).len() <= 256 ==> cell_id_at(store, ordering, at) < catalog_upto(
            store,
            ordering,
            pool_len(store, ordering),
        ).len() && catalog_upto(store, ordering, pool_len(store, ordering))[cell_id_at(
            store,
            ordering,
            at,
        ) as int].same_as(pool_row(store, ordering, at).cell),
{
    let row = pool_row(store, ordering, at);
    if row.reachable {
        let now = catalog_upto(store, ordering, at + 1);
        let before = catalog_upto(store, ordering, at);
        lemma_catalog_index(before, row.cell, 0);
        lemma_catalog_index(now, row.cell, 0);
        let index = catalog_index(now, row.cell, 0);
        assert(index < now.len()) by {
            if catalog_index(before, row.cell, 0) >= before.len() {
                assert(now == before.push(row.cell));
                assert(now[before.len() as int].same_as(row.cell));
            }
        }
        lemma_catalog_grows(store, ordering, at + 1, pool_len(store, ordering));
    }
}

/// The catalog only grows: its cells stay where they are.
proof fn lemma_catalog_grows(store: PatternStore, ordering: Seq<Placement>, upto: int, end: int)
    requires
        0 <= upto <= end,
    ensures
        catalog_upto(store, ordering, upto).len() <= catalog_upto(store, ordering, end).len(),
        forall|i: int|
            0 <= i < catalog_upto(store, ordering, upto).len() ==> #[trigger] catalog_upto(
                store,
                ordering,
                end,
            )[i] == catalog_upto(store, ordering, upto)[i],
    decreases end - upto,
{
    if upto < end {
        lemma_catalog_grows(store, ordering, upto, end - 1);
    }
}

/// The cells of the catalog are cells of rows that playback reaches: if each such row of the
/// store has a cell with a first byte, each cell of the catalog has one.
pub proof fn lemma_catalog_is_encodable(store: PatternStore, ordering: Seq<Placement>, upto: int)
    requires
        ordering_wf(store, ordering),
        reached_rows_encodable(store),
        0 <= upto <= pool_len(store, ordering),
    ensures
        all_encodable(catalog_upto(store, ordering, upto)),
    decreases upto,
{
    if upto > 0 {
        lemma_catalog_is_encodable(store, ordering, upto - 1);
        let at = upto - 1;
        let row = pool_row(store, ordering, at);
        if row.reachable {
            lemma_pool_row(store, ordering, at);
            let k = choose|k: int|
                0 <= k < ordering.len() && covers(store, #[trigger] ordering[k], at) && pool_row(
                    store,
                    ordering,
                    at,
                ) == row_at(store, ordering[k], at);
            let id = ordering[k].0;
            assert(store.contains(id));
            let i = store.index_of(id);
            store.lemma_index_of(i);
            assert(store.entries[i].pattern.0[at - ordering[k].1].reachable);
        }
    }
}

} // verus!
