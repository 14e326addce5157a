//! What the writer of the assembly file needs besides the row pools: the checks that come before
//! the writing, and the tables laid out as the playback routine reads them.

use crate::optimise::overlapping::{all_encodable, CellCatalog};
use crate::optimise::pipeline::OptimResults;
use crate::optimise::reachability::{grid_id, nb_orders};
use crate::optimise::store::{InstrKind, PatternId};
use crate::song::{Instrument, Song};
use vstd::prelude::*;

verus! {

/// The number of places of a cell catalog: an id is one byte.
pub const CATALOG_CAPACITY: usize = 256;

/// How the caller wants the song to be played.
#[derive(Debug, Clone, Copy, PartialEq, Eq, Structural)]
pub enum PlaybackRequirement {
    /// Either way.
    Any,
    /// By the vertical blank.
    VBlank,
    /// By the timer, with this divider.
    Timer(u8),
}

/// How the song is at odds with the way in which the caller wants it to be played.
#[derive(Debug, Clone, Copy, PartialEq, Eq, Structural)]
pub enum PlaybackMismatch {
    /// The song plays by the timer.
    ExpectedVBlank,
    /// The song plays by the vertical blank.
    ExpectedTimer { divider: u8 },
    /// The song plays by the timer with another divider.
    WrongDivider { expected: u8, found: u8 },
}

/// The song, which plays by the timer with the divider `timer_divider` or else by the vertical
/// blank, is played as it is required to be.
pub open spec fn spec_check_playback_method(
    timer_divider: Option<u8>,
    required: PlaybackRequirement,
) -> Result<(), PlaybackMismatch> {
    match required {
        PlaybackRequirement::Any => Ok(()),
        PlaybackRequirement::VBlank => match timer_divider {
            Some(_) => Err(PlaybackMismatch::ExpectedVBlank),
            None => Ok(()),
        },
        PlaybackRequirement::Timer(divider) => match timer_divider {
            None => Err(PlaybackMismatch::ExpectedTimer { divider }),
            Some(found) => if found == divider {
                Ok(())
            } else {
                Err(PlaybackMismatch::WrongDivider { expected: divider, found })
            },
        },
    }
}

#[verifier::when_used_as_spec(spec_check_playback_method)]
pub fn check_playback_method(timer_divider: Option<u8>, required: PlaybackRequirement) -> (result: Result<
    (),
    PlaybackMismatch,
>)
    ensures
        result == spec_check_playback_method(timer_divider, required),
{
    match required {
        PlaybackRequirement::Any => Ok(()),
        PlaybackRequirement::VBlank => match timer_divider {
            Some(_) => Err(PlaybackMismatch::ExpectedVBlank),
            None => Ok(()),
        },
        PlaybackRequirement::Timer(divider) => match timer_divider {
            None => Err(PlaybackMismatch::ExpectedTimer { divider }),
            Some(found) => if found == divider {
                Ok(())
            } else {
                Err(PlaybackMismatch::WrongDivider { expected: divider, found })
            },
        },
    }
}

/// One of the two cell catalogs.
#[derive(Debug, Clone, Copy, PartialEq, Eq, Structural)]
pub enum CatalogKind {
    Main,
    Subpattern,
}

/// A catalog has more cells than it has places.
#[derive(Debug, Clone, Copy, PartialEq, Eq, Structural)]
pub struct CatalogOverflow {
    pub catalog: CatalogKind,
    pub nb_unique_cells: usize,
}

/// The song can be written out if and only if each catalog has a place for each of its cells;
/// if not, the first catalog that has none is named, the main one before that of the
/// subpatterns.
pub fn check_catalogs(results: &OptimResults) -> (result: Result<(), CatalogOverflow>)
    ensures
        result is Ok <==> results.main_cell_catalog.cells.len() <= CATALOG_CAPACITY
            && results.subpat_cell_catalog.cells.len() <= CATALOG_CAPACITY,
        result matches Err(overflow) ==> overflow == (if results.main_cell_catalog.cells.len()
            > CATALOG_CAPACITY {
            CatalogOverflow {
                catalog: CatalogKind::Main,
                nb_unique_cells: results.main_cell_catalog.cells.len(),
            }
        } else {
            CatalogOverflow {
                catalog: CatalogKind::Subpattern,
                nb_unique_cells: results.subpat_cell_catalog.cells.len(),
            }
        }),
{
    if results.main_cell_catalog.len() > CATALOG_CAPACITY {
        Err(
            CatalogOverflow {
                catalog: CatalogKind::Main,
                nb_unique_cells: results.main_cell_catalog.len(),
            },
        )
    } else if results.subpat_cell_catalog.len() > CATALOG_CAPACITY {
        Err(
            CatalogOverflow {
                catalog: CatalogKind::Subpattern,
                nb_unique_cells: results.subpat_cell_catalog.len(),
            },
        )
    } else {
        Ok(())
    }
}

/// The three bytes of each cell of a catalog, as three columns: the first bytes, the second
/// bytes, and the third bytes.
pub struct CatalogColumns {
    pub first: Vec<u8>,
    pub second: Vec<u8>,
    pub third: Vec<u8>,
    /// The number of places of the catalog that stay empty.
    pub padding: usize,
}

/// Lays out the catalog as the playback routine reads it; nothing where the catalog has more
/// cells than places, or a cell without a first byte. The catalogs that the passes make have
/// no such cell.
pub fn catalog_columns(catalog: &CellCatalog) -> (columns: Option<CatalogColumns>)
    ensures
        columns is Some <==> catalog.cells.len() <= CATALOG_CAPACITY && all_encodable(
            catalog.cells@,
        ),
        columns matches Some(columns) ==> {
            &&& columns.first.len() == catalog.cells.len()
            &&& columns.second.len() == catalog.cells.len()
            &&& columns.third.len() == catalog.cells.len()
            &&& columns.padding == CATALOG_CAPACITY - catalog.cells.len()
            &&& forall|i: int|
                0 <= i < catalog.cells.len() ==> (#[trigger] catalog.cells[i]).spec_encode() == (
                    columns.first[i],
                    columns.second[i],
                    columns.third[i],
                )
        },
{
    if catalog.len() > CATALOG_CAPACITY {
        return None;
    }
    let mut first: Vec<u8> = Vec::new();
    let mut second: Vec<u8> = Vec::new();
    let mut third: Vec<u8> = Vec::new();
    let mut i: usize = 0;
    while i < catalog.cells.len()
        invariant
            i <= catalog.cells.len(),
            first.len() == i,
            second.len() == i,
            third.len() == i,
            forall|k: int| 0 <= k < i ==> (#[trigger] catalog.cells[k]).encodable(),
            forall|k: int|
                0 <= k < i ==> (#[trigger] catalog.cells[k]).spec_encode() == (
                    first[k],
                    second[k],
                    third[k],
                ),
        decreases catalog.cells.len() - i,
    {
        let cell = catalog.cells[i];
        if !cell.is_encodable() {
            return None;
        }
        first.push(cell.first_byte());
        second.push(cell.second_byte());
        third.push(cell.third_byte());
        i += 1;
    }
    Some(CatalogColumns { first, second, third, padding: CATALOG_CAPACITY - catalog.len() })
}

/// The labels of the patterns that a channel plays, one for each order row.
pub fn order_labels(song: &Song, channel: usize) -> (labels: Vec<PatternId>)
    requires
        channel < 4,
    ensures
        labels.len() == nb_orders(song),
        forall|order: int|
            0 <= order < nb_orders(song) ==> #[trigger] labels[order] == grid_id(
                song,
                order,
                channel as int,
            ),
{
    let kind = InstrKind::from_channel_id(channel);
    let mut labels: Vec<PatternId> = Vec::new();
    let mut order: usize = 0;
    while order < song.order_matrix.len()
        invariant
            channel < 4,
            kind == InstrKind::of_channel(channel as int),
            order <= nb_orders(song),
            labels.len() == order,
            forall|k: int|
                0 <= k < order ==> #[trigger] labels[k] == grid_id(song, k, channel as int),
        decreases nb_orders(song) - order,
    {
        labels.push(PatternId::Pattern(kind, song.order_matrix[order][channel]));
        order += 1;
    }
    labels
}

/// The length of an instrument as the sound chip counts it: from 0, and 0 where the
/// instrument has none.
pub fn decode_len(instrument: &Instrument) -> (len: u8)
    requires
        instrument.length != Some(0u8),
    ensures
        len == (match instrument.length {
            Some(length) => (length - 1) as u8,
            None => 0u8,
        }),
{
    match instrument.length {
        Some(length) => length - 1,
        None => 0,
    }
}

/// The label of the subpattern of instrument `number` of a family, if the instrument has one.
pub fn subpattern_label(instrument: &Instrument, kind: InstrKind, number: usize) -> (label: Option<
    PatternId,
>)
    ensures
        label == (if instrument.subpattern is Some {
            Some(PatternId::Subpattern(kind, number))
        } else {
            None
        }),
{
    match &instrument.subpattern {
        Some(_) => Some(PatternId::Subpattern(kind, number)),
        None => None,
    }
}

} // verus!
