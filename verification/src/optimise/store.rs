//! The store of the patterns that the passes work on.

use crate::optimise::cell::Cell;
use vstd::prelude::*;

verus! {

/// The family of channels that an instrument, and a copy of a pattern, belongs to.
#[derive(Debug, Clone, Copy, PartialEq, Eq, Hash, Structural)]
pub enum InstrKind {
    Duty,
    Wave,
    Noise,
}

impl InstrKind {
    /// The family of each of the four channels: two duty channels, then wave, then noise.
    pub open spec fn of_channel(channel_id: int) -> InstrKind {
        if channel_id <= 1 {
            InstrKind::Duty
        } else if channel_id == 2 {
            InstrKind::Wave
        } else {
            InstrKind::Noise
        }
    }

    pub fn from_channel_id(channel_id: usize) -> (kind: Self)
        requires
            channel_id < 4,
        ensures
            kind == Self::of_channel(channel_id as int),
    {
        if channel_id <= 1 {
            InstrKind::Duty
        } else if channel_id == 2 {
            InstrKind::Wave
        } else {
            InstrKind::Noise
        }
    }

    /// Place of the family in the order in which the store keeps its patterns.
    pub open spec fn spec_rank(self) -> u8 {
        match self {
            InstrKind::Duty => 0,
            InstrKind::Wave => 1,
            InstrKind::Noise => 2,
        }
    }

    #[verifier::when_used_as_spec(spec_rank)]
    pub fn rank(self) -> (r: u8)
        ensures
            r == self.spec_rank(),
    {
        match self {
            InstrKind::Duty => 0,
            InstrKind::Wave => 1,
            InstrKind::Noise => 2,
        }
    }
}

/// Names a pattern in the store: a copy of a pattern of the main grid for one family, or the
/// subpattern of an instrument (numbered from 1) of one family.
#[derive(Debug, Clone, Copy, PartialEq, Eq, Hash, Structural)]
pub enum PatternId {
    Pattern(InstrKind, usize),
    Subpattern(InstrKind, usize),
}

impl PatternId {
    pub open spec fn spec_kind(self) -> InstrKind {
        match self {
            PatternId::Pattern(kind, _) => kind,
            PatternId::Subpattern(kind, _) => kind,
        }
    }

    pub open spec fn spec_index(self) -> usize {
        match self {
            PatternId::Pattern(_, index) => index,
            PatternId::Subpattern(_, index) => index,
        }
    }

    pub open spec fn spec_is_main(self) -> bool {
        self is Pattern
    }

    #[verifier::when_used_as_spec(spec_kind)]
    pub fn kind(self) -> (kind: InstrKind)
        ensures
            kind == self.spec_kind(),
    {
        match self {
            PatternId::Pattern(kind, _) => kind,
            PatternId::Subpattern(kind, _) => kind,
        }
    }

    #[verifier::when_used_as_spec(spec_index)]
    pub fn index(self) -> (index: usize)
        ensures
            index == self.spec_index(),
    {
        match self {
            PatternId::Pattern(_, index) => index,
            PatternId::Subpattern(_, index) => index,
        }
    }

    #[verifier::when_used_as_spec(spec_is_main)]
    pub fn is_main(self) -> (main: bool)
        ensures
            main == self.spec_is_main(),
    {
        match self {
            PatternId::Pattern(..) => true,
            PatternId::Subpattern(..) => false,
        }
    }

    /// The order in which the store keeps, and every pass walks, the patterns: those of the
    /// main grid before the subpatterns, then by family, then by number.
    pub open spec fn precedes(self, other: PatternId) -> bool {
        if self.spec_is_main() != other.spec_is_main() {
            self.spec_is_main()
        } else if self.spec_kind() != other.spec_kind() {
            self.spec_kind().spec_rank() < other.spec_kind().spec_rank()
        } else {
            self.spec_index() < other.spec_index()
        }
    }

    pub fn comes_before(self, other: PatternId) -> (before: bool)
        ensures
            before == self.precedes(other),
    {
        if self.is_main() != other.is_main() {
            self.is_main()
        } else if self.kind().rank() != other.kind().rank() {
            self.kind().rank() < other.kind().rank()
        } else {
            self.index() < other.index()
        }
    }
}

/// A cell and whether playback can reach it.
#[derive(Debug, Clone, Copy)]
pub struct AnnotatedCell {
    pub reachable: bool,
    pub cell: Cell,
}

/// The rows of a pattern, as the passes work on them.
#[derive(Debug, Clone)]
pub struct OptimisedPattern(pub Vec<AnnotatedCell>);

#[derive(Debug, Clone)]
pub struct PatternEntry {
    pub id: PatternId,
    pub pattern: OptimisedPattern,
}

/// The patterns that the passes work on, each under its id, kept in the order of the ids.
#[derive(Debug, Clone)]
pub struct PatternStore {
    pub entries: Vec<PatternEntry>,
}

impl PatternStore {
    /// The ids ascend strictly, so none occurs twice.
    pub open spec fn wf(&self) -> bool {
        forall|i: int, j: int|
            0 <= i < j < self.entries.len() ==> (#[trigger] self.entries[i]).id.precedes(
                (#[trigger] self.entries[j]).id,
            )
    }

    /// The ids of the patterns in the store, in the store's order.
    pub open spec fn ids(&self) -> Seq<PatternId> {
        Seq::new(self.entries.len() as nat, |i: int| self.entries[i].id)
    }

    pub open spec fn contains(&self, id: PatternId) -> bool {
        exists|i: int| 0 <= i < self.entries.len() && (#[trigger] self.entries[i]).id == id
    }

    /// Where the pattern named `id` stands in the store; meaningful when the store contains it.
    pub open spec fn index_of(&self, id: PatternId) -> int {
        choose|i: int| 0 <= i < self.entries.len() && (#[trigger] self.entries[i]).id == id
    }

    /// The rows of the pattern named `id`; meaningful when the store contains it.
    pub open spec fn rows(&self, id: PatternId) -> Seq<AnnotatedCell> {
        self.entries[self.index_of(id)].pattern.0@
    }

    /// In a well-formed store an id is found at one place only.
    pub proof fn lemma_index_of(&self, i: int)
        requires
            self.wf(),
            0 <= i < self.entries.len(),
        ensures
            self.contains(self.entries[i].id),
            self.index_of(self.entries[i].id) == i,
            self.rows(self.entries[i].id) == self.entries[i].pattern.0@,
    {
        let id = self.entries[i].id;
        let j = self.index_of(id);
        assert(0 <= j < self.entries.len() && self.entries[j].id == id);
        if j < i {
            assert(self.entries[j].id.precedes(self.entries[i].id));
        } else if i < j {
            assert(self.entries[i].id.precedes(self.entries[j].id));
        }
    }

    pub fn new() -> (store: Self)
        ensures
            store.wf(),
            store.entries.len() == 0,
    {
        PatternStore { entries: Vec::new() }
    }

    pub fn len(&self) -> (n: usize)
        ensures
            n == self.entries.len(),
    {
        self.entries.len()
    }

    /// The first place whose id does not come before `id`: where `id` stands, or would.
    pub fn lower_bound(&self, id: PatternId) -> (at: usize)
        requires
            self.wf(),
        ensures
            at <= self.entries.len(),
            forall|i: int| 0 <= i < at ==> (#[trigger] self.entries[i]).id.precedes(id),
            forall|i: int|
                at <= i < self.entries.len() ==> !(#[trigger] self.entries[i]).id.precedes(id),
    {
        let mut low: usize = 0;
        let mut high: usize = self.entries.len();
        while low < high
            invariant
                self.wf(),
                low <= high <= self.entries.len(),
                forall|i: int| 0 <= i < low ==> (#[trigger] self.entries[i]).id.precedes(id),
                forall|i: int|
                    high <= i < self.entries.len() ==> !(#[trigger] self.entries[i]).id.precedes(
                        id,
                    ),
            decreases high - low,
        {
            let mid = low + (high - low) / 2;
            if self.entries[mid].id.comes_before(id) {
                assert forall|i: int| 0 <= i < mid + 1 implies (#[trigger] self.entries[i]).id.precedes(
                    id,
                ) by {
                    if i < mid {
                        assert(self.entries[i].id.precedes(self.entries[mid as int].id));
                    }
                }
                low = mid + 1;
            } else {
                assert forall|i: int| mid <= i < self.entries.len() implies !(
                #[trigger] self.entries[i]).id.precedes(id) by {
                    if mid < i {
                        assert(self.entries[mid as int].id.precedes(self.entries[i].id));
                    }
                }
                high = mid;
            }
        }
        low
    }

    /// Where the pattern named `id` stands in the store, if it is there.
    pub fn position(&self, id: PatternId) -> (found: Option<usize>)
        requires
            self.wf(),
        ensures
            match found {
                Some(i) => i < self.entries.len() && self.entries[i as int].id == id
                    && self.contains(id) && self.index_of(id) == i,
                None => !self.contains(id),
            },
    {
        let at = self.lower_bound(id);
        if at < self.entries.len() && self.entries[at].id == id {
            proof {
                self.lemma_index_of(at as int);
            }
            Some(at)
        } else {
            assert forall|i: int| 0 <= i < self.entries.len() implies (
            #[trigger] self.entries[i]).id != id by {
                if i > at {
                    assert(self.entries[at as int].id.precedes(self.entries[i].id));
                }
            }
            None
        }
    }

    pub fn contains_key(&self, id: PatternId) -> (present: bool)
        requires
            self.wf(),
        ensures
            present == self.contains(id),
    {
        self.position(id).is_some()
    }

    /// The pattern named `id`, if the store has it.
    pub fn get(&self, id: PatternId) -> (found: Option<&OptimisedPattern>)
        requires
            self.wf(),
        ensures
            match found {
                Some(pattern) => self.contains(id) && pattern.0@ == self.rows(id),
                None => !self.contains(id),
            },
    {
        match self.position(id) {
            Some(i) => Some(&self.entries[i].pattern),
            None => None,
        }
    }

    /// The pattern named `id`, which the store has.
    pub fn pattern(&self, id: PatternId) -> (pattern: &OptimisedPattern)
        requires
            self.wf(),
            self.contains(id),
        ensures
            pattern.0@ == self.rows(id),
    {
        match self.position(id) {
            Some(i) => &self.entries[i].pattern,
            None => vstd::pervasive::unreached(),
        }
    }

    /// The ids of the patterns in the store, in the store's order.
    pub fn keys(&self) -> (ids: Vec<PatternId>)
        ensures
            ids@ == self.ids(),
    {
        let mut ids: Vec<PatternId> = Vec::new();
        let mut i: usize = 0;
        while i < self.entries.len()
            invariant
                i <= self.entries.len(),
                ids@.len() == i,
                forall|j: int| 0 <= j < i ==> ids@[j] == self.entries[j].id,
            decreases self.entries.len() - i,
        {
            ids.push(self.entries[i].id);
            i += 1;
        }
        assert(ids@ =~= self.ids());
        ids
    }

    /// Puts `pattern` under `id`, in place of the pattern that was there if there was one.
    pub fn insert(&mut self, id: PatternId, pattern: OptimisedPattern)
        requires
            old(self).wf(),
        ensures
            final(self).wf(),
            final(self).contains(id),
            final(self).rows(id) == pattern.0@,
            forall|other: PatternId|
                other != id ==> final(self).contains(other) == old(self).contains(other),
            forall|other: PatternId|
                other != id && old(self).contains(other) ==> final(self).rows(other) == old(
                    self,
                ).rows(other),
            final(self).entries.len() == old(self).entries.len() + (if old(self).contains(id) {
                0int
            } else {
                1int
            }),
    {
        let at = self.lower_bound(id);
        let ghost before = *self;
        if at < self.entries.len() && self.entries[at].id == id {
            self.entries[at].pattern = pattern;
            proof {
                assert(self.entries@.len() == before.entries@.len());
                assert forall|i: int| 0 <= i < self.entries.len() implies (
                #[trigger] self.entries[i]).id == before.entries[i].id by {}
                assert(self.wf());
                self.lemma_index_of(at as int);
                before.lemma_index_of(at as int);
                assert forall|other: PatternId| other != id implies self.contains(other)
                    == before.contains(other) by {
                    if before.contains(other) {
                        let k = before.index_of(other);
                        assert(self.entries[k].id == other);
                    }
                    if self.contains(other) {
                        let k = self.index_of(other);
                        assert(before.entries[k].id == other);
                    }
                }
                assert forall|other: PatternId|
                    other != id && before.contains(other) implies self.rows(other) == before.rows(
                    other,
                ) by {
                    let k = before.index_of(other);
                    before.lemma_index_of(k);
                    self.lemma_index_of(k);
                }
            }
        } else {
            self.entries.insert(at, PatternEntry { id, pattern });
            proof {
                assert forall|i: int, j: int| 0 <= i < j < self.entries.len() implies (
                #[trigger] self.entries[i]).id.precedes((#[trigger] self.entries[j]).id) by {
                    let bi = if i < at { i } else { i - 1 };
                    let bj = if j < at { j } else { j - 1 };
                    if i == at {
                        assert(!before.entries[bj + 1 - 1].id.precedes(id));
                        assert(before.entries[j - 1].id != id) by {
                            if j - 1 > at {
                                assert(before.entries[at as int].id.precedes(
                                    before.entries[j - 1].id,
                                ));
                            }
                        }
                    } else if j == at {
                        assert(before.entries[i].id.precedes(id));
                    } else {
                        assert(before.entries[bi].id.precedes(before.entries[bj].id));
                    }
                }
                self.lemma_index_of(at as int);
                assert(!before.contains(id)) by {
                    assert forall|i: int| 0 <= i < before.entries.len() implies (
                    #[trigger] before.entries[i]).id != id by {
                        if i > at {
                            assert(before.entries[at as int].id.precedes(before.entries[i].id));
                        }
                    }
                }
                assert forall|other: PatternId| other != id implies self.contains(other)
                    == before.contains(other) by {
                    if before.contains(other) {
                        let k = before.index_of(other);
                        let k2 = if k < at { k } else { k + 1 };
                        assert(self.entries[k2].id == other);
                    }
                    if self.contains(other) {
                        let k = self.index_of(other);
                        let k2 = if k < at { k } else { k - 1 };
                        assert(before.entries[k2].id == other);
                    }
                }
                assert forall|other: PatternId|
                    other != id && before.contains(other) implies self.rows(other) == before.rows(
                    other,
                ) by {
                    let k = before.index_of(other);
                    let k2 = if k < at { k } else { k + 1 };
                    before.lemma_index_of(k);
                    self.lemma_index_of(k2);
                }
            }
        }
    }

    /// Takes the pattern at place `at` out of the store.
    pub fn remove_at(&mut self, at: usize) -> (removed: PatternEntry)
        requires
            old(self).wf(),
            at < old(self).entries.len(),
        ensures
            final(self).wf(),
            removed == old(self).entries[at as int],
            final(self).entries@ == old(self).entries@.remove(at as int),
            !final(self).contains(removed.id),
            forall|other: PatternId|
                other != removed.id ==> final(self).contains(other) == old(self).contains(other),
            forall|other: PatternId|
                other != removed.id && old(self).contains(other) ==> final(self).rows(other)
                    == old(self).rows(other),
    {
        let ghost before = *self;
        let removed = self.entries.remove(at);
        proof {
            assert forall|i: int, j: int| 0 <= i < j < self.entries.len() implies (
            #[trigger] self.entries[i]).id.precedes((#[trigger] self.entries[j]).id) by {
                let bi = if i < at { i } else { i + 1 };
                let bj = if j < at { j } else { j + 1 };
                assert(before.entries[bi].id.precedes(before.entries[bj].id));
            }
            before.lemma_index_of(at as int);
            assert forall|i: int| 0 <= i < self.entries.len() implies (
            #[trigger] self.entries[i]).id != removed.id by {
                let bi = if i < at { i } else { i + 1 };
                before.lemma_index_of(bi);
            }
            assert forall|other: PatternId| other != removed.id implies self.contains(other)
                == before.contains(other) by {
                if before.contains(other) {
                    let k = before.index_of(other);
                    let k2 = if k < at { k } else { k - 1 };
                    assert(self.entries[k2].id == other);
                }
                if self.contains(other) {
                    let k = self.index_of(other);
                    let k2 = if k < at { k } else { k + 1 };
                    assert(before.entries[k2].id == other);
                }
            }
            assert forall|other: PatternId|
                other != removed.id && before.contains(other) implies self.rows(other)
                == before.rows(other) by {
                let k = before.index_of(other);
                let k2 = if k < at { k } else { k - 1 };
                before.lemma_index_of(k);
                self.lemma_index_of(k2);
            }
        }
        removed
    }

    /// Keeps the first `len` rows of the pattern at place `at`, and drops the rest.
    pub fn truncate_at(&mut self, at: usize, len: usize)
        requires
            old(self).wf(),
            at < old(self).entries.len(),
            len <= old(self).entries[at as int].pattern.0.len(),
        ensures
            final(self).wf(),
            final(self).entries.len() == old(self).entries.len(),
            forall|i: int|
                0 <= i < old(self).entries.len() ==> (#[trigger] final(self).entries[i]).id == old(
                    self,
                ).entries[i].id,
            forall|i: int|
                0 <= i < old(self).entries.len() && i != at ==> #[trigger] final(self).entries[i]
                    == old(self).entries[i],
            final(self).entries[at as int].pattern.0@ == old(self).entries[at as int].pattern.0@.take(
                len as int,
            ),
            forall|id: PatternId| final(self).contains(id) == old(self).contains(id),
            forall|id: PatternId|
                old(self).contains(id) ==> #[trigger] final(self).rows(id) == (if id == old(
                    self,
                ).entries[at as int].id {
                    old(self).rows(id).take(len as int)
                } else {
                    old(self).rows(id)
                }),
    {
        let ghost before = *self;
        self.entries[at].pattern.0.truncate(len);
        proof {
            assert forall|i: int, j: int| 0 <= i < j < self.entries.len() implies (
            #[trigger] self.entries[i]).id.precedes((#[trigger] self.entries[j]).id) by {
                assert(before.entries[i].id.precedes(before.entries[j].id));
            }
            assert forall|id: PatternId| self.contains(id) == before.contains(id) by {
                if before.contains(id) {
                    let k = before.index_of(id);
                    assert(self.entries[k].id == id);
                }
                if self.contains(id) {
                    let k = self.index_of(id);
                    assert(before.entries[k].id == id);
                }
            }
            assert forall|id: PatternId| before.contains(id) implies #[trigger] self.rows(id) == (
            if id == before.entries[at as int].id {
                before.rows(id).take(len as int)
            } else {
                before.rows(id)
            }) by {
                let k = before.index_of(id);
                before.lemma_index_of(k);
                self.lemma_index_of(k);
                before.lemma_index_of(at as int);
            }
        }
    }
}

} // verus!
