//! The optimisation pipeline: from a song to row pools, cell catalogs and renumbering tables.

pub mod cell;
pub mod collect;
pub mod overlapping;
pub mod pipeline;
pub mod reachability;
pub mod remapping;
pub mod store;

pub use cell::{Cell, CellFirstHalf, Effect};
pub use collect::{collect_patterns, collect_subpatterns};
pub use overlapping::{
    find_overlap_in_group, find_pattern_overlap, generate_row_pool, CellCatalog, OutputCell,
    Placement, RowPoolBuilder, RowsIter,
};
pub use pipeline::{check_song, optimise, OptimResults, OptimStats, MAX_ORDERS};
pub use reachability::{
    mark_reachable_pattern_rows, mark_reachable_subpattern_rows, trim_trailing_unreachable_rows,
    SongFault,
};
pub use remapping::{compacted_mapping_from_mask, remap_instrs, remap_waves, CompactedMapping};
pub use store::{AnnotatedCell, InstrKind, OptimisedPattern, PatternEntry, PatternId, PatternStore};
