//! The H3 grid as the converter sees it: cells are 64-bit indexes, and what is known of
//! them is what the grid library computes.

use vstd::prelude::*;

verus! {

/// Whether a 64-bit value is the index of a cell of the grid.
pub uninterp spec fn valid_cell(cell: u64) -> bool;

/// The cells within grid distance one of a cell, the cell itself among them, in the
/// order in which the grid library yields them.
pub uninterp spec fn disk_cells(cell: u64) -> Seq<u64>;

/// What the grid library's compaction makes of a sequence of cells of one resolution.
pub uninterp spec fn compacted_cells(cells: Seq<u64>) -> Seq<u64>;

/// The resolution that the bits of a cell index encode.
pub open spec fn cell_resolution(cell: u64) -> int {
    ((cell >> 52) & 0xf) as int
}

/// The finest resolution of the grid.
pub const MAX_RESOLUTION: u8 = 15;

/// Whether the grid library can compact cells of this resolution on this machine: it
/// counts the children of a coarsest cell in a machine word, and from resolution 12 on
/// that count needs more than 32 bits.
pub open spec fn compaction_fits(resolution: int) -> bool {
    resolution < 12 || usize::MAX > 0xffff_ffff
}

/// Whether `cell` is the index of a cell of the grid.
///
/// Calls `h3o::CellIndex::try_from` and reports whether it accepted the value; the grid
/// library alone says which values are cells.
#[verifier::external_body]
pub(crate) fn is_cell(cell: u64) -> (valid: bool)
    ensures
        valid == valid_cell(cell),
{
    h3o::CellIndex::try_from(cell).is_ok()
}

/// Whether `cell` is the index of a cell of the grid.
pub fn is_valid_cell(cell: u64) -> (valid: bool)
    ensures
        valid == valid_cell(cell),
{
    is_cell(cell)
}

/// The cells within grid distance one of `cell`.
///
/// Calls `h3o::CellIndex::grid_disk` with distance 1. The result is named, not
/// described; claimed of it is only that the library hands out cells, and that they
/// have the resolution of the cell they surround.
#[verifier::external_body]
pub(crate) fn grid_disk(cell: u64) -> (cells: Vec<u64>)
    requires
        valid_cell(cell),
    ensures
        cells@ == disk_cells(cell),
        forall|i: int|
            0 <= i < cells@.len() ==> valid_cell(#[trigger] cells@[i]) && cell_resolution(
                cells@[i],
            ) == cell_resolution(cell),
{
    let origin = h3o::CellIndex::try_from(cell).expect("a cell index");
    origin.grid_disk::<Vec<_>>(1).into_iter().map(u64::from).collect()
}

/// Replaces complete sets of children by their parent, over and over.
///
/// Calls `h3o::CellIndex::compact`, which refuses cells of several resolutions and
/// cells that occur twice; both are excluded here. The result is named, not described;
/// claimed of it is only that the library hands out cells, none finer than those it
/// was given.
#[verifier::external_body]
pub(crate) fn compact_cells(cells: Vec<u64>) -> (compacted: Vec<u64>)
    requires
        cells@.len() > 0,
        cells@.no_duplicates(),
        forall|i: int| 0 <= i < cells@.len() ==> valid_cell(#[trigger] cells@[i]),
        forall|i: int|
            0 <= i < cells@.len() ==> cell_resolution(#[trigger] cells@[i]) == cell_resolution(
                cells@[0],
            ),
        compaction_fits(cell_resolution(cells@[0])),
    ensures
        compacted@ == compacted_cells(cells@),
        forall|i: int|
            0 <= i < compacted@.len() ==> valid_cell(#[trigger] compacted@[i]) && cell_resolution(
                compacted@[i],
            ) <= cell_resolution(cells@[0]),
{
    let mut indexes: Vec<h3o::CellIndex> =
        cells.into_iter().map(|cell| h3o::CellIndex::try_from(cell).expect("a cell index")).collect();
    h3o::CellIndex::compact(&mut indexes).expect("distinct cells of one resolution");
    indexes.into_iter().map(u64::from).collect()
}

/// The resolution of a cell, read from the bits of its index.
pub fn resolution_of(cell: u64) -> (resolution: u8)
    ensures
        resolution == cell_resolution(cell),
        resolution <= MAX_RESOLUTION,
{
    let bits = (cell >> 52) & 0xf;
    assert(bits <= 15) by (bit_vector)
        requires
            bits == (cell >> 52) & 0xf,
    ;
    bits as u8
}

} // verus!
