//! A stack of H3 cells of mixed resolutions that can be compacted: complete sets of
//! children are replaced by their parent, from a resolution up to the coarsest.

use crate::cells::{
    cell_resolution, compact_cells, compacted_cells, compaction_fits, is_cell, resolution_of,
    valid_cell, MAX_RESOLUTION,
};
use crate::error::Error;
use std::collections::HashSet;
use vstd::prelude::*;

verus! {

broadcast use vstd::std_specs::hash::group_hash_axioms;

/// The cells of `cells` that are (`keep`) or are not (`!keep`) of the given
/// resolution, in their order.
pub open spec fn select(cells: Seq<u64>, resolution: int, keep: bool) -> Seq<u64>
    decreases cells.len(),
{
    if cells.len() == 0 {
        Seq::empty()
    } else {
        let front = select(cells.drop_last(), resolution, keep);
        if (cell_resolution(cells.last()) == resolution) == keep {
            front.push(cells.last())
        } else {
            front
        }
    }
}

/// The cells of `cells` without repetition, each where it occurs first.
pub open spec fn without_repeats(cells: Seq<u64>) -> Seq<u64>
    decreases cells.len(),
{
    if cells.len() == 0 {
        Seq::empty()
    } else {
        let front = without_repeats(cells.drop_last());
        if front.contains(cells.last()) {
            front
        } else {
            front.push(cells.last())
        }
    }
}

/// Compaction of one resolution: the cells of that resolution are taken out, freed of
/// repetitions and compacted, and what comes of them is put behind the other cells.
pub open spec fn compact_level(cells: Seq<u64>, resolution: int) -> Seq<u64> {
    let level = without_repeats(select(cells, resolution, true));
    if level.len() > 0 && compaction_fits(resolution) {
        select(cells, resolution, false) + compacted_cells(level)
    } else {
        cells
    }
}

/// Compaction of `resolution` and every coarser resolution, the finest first.
pub open spec fn compact_from(cells: Seq<u64>, resolution: int) -> Seq<u64>
    decreases resolution + 1,
{
    if resolution < 0 {
        cells
    } else {
        compact_from(compact_level(cells, resolution), resolution - 1)
    }
}

/// Every value of the sequence is a cell.
pub open spec fn all_cells(cells: Seq<u64>) -> bool {
    forall|i: int| 0 <= i < cells.len() ==> valid_cell(#[trigger] cells[i])
}

/// Every value of the sequence is a cell of the given resolution.
pub open spec fn all_cells_of(cells: Seq<u64>, resolution: int) -> bool {
    forall|i: int|
        0 <= i < cells.len() ==> valid_cell(#[trigger] cells[i]) && cell_resolution(cells[i])
            == resolution
}

/// What is selected from a sequence stands in it, and is of the resolution or not as
/// was asked for.
proof fn lemma_select_members(cells: Seq<u64>, resolution: int, keep: bool)
    ensures
        forall|i: int|
            0 <= i < select(cells, resolution, keep).len() ==> cells.contains(
                #[trigger] select(cells, resolution, keep)[i],
            ) && (cell_resolution(select(cells, resolution, keep)[i]) == resolution) == keep,
    decreases cells.len(),
{
    if cells.len() > 0 {
        lemma_select_members(cells.drop_last(), resolution, keep);
        let front = select(cells.drop_last(), resolution, keep);
        let whole = select(cells, resolution, keep);
        assert forall|i: int| 0 <= i < whole.len() implies cells.contains(#[trigger] whole[i]) && (
        cell_resolution(whole[i]) == resolution) == keep by {
            if i < front.len() {
                let k = choose|k: int|
                    0 <= k < cells.drop_last().len() && cells.drop_last()[k] == front[i];
                assert(cells[k] == whole[i]);
            } else {
                assert(cells[cells.len() - 1] == whole[i]);
            }
        }
    }
}

/// A sequence freed of repetitions holds the same cells, each once.
proof fn lemma_without_repeats(cells: Seq<u64>)
    ensures
        without_repeats(cells).no_duplicates(),
        forall|cell: u64|
            #![trigger without_repeats(cells).contains(cell)]
            #![trigger cells.contains(cell)]
            without_repeats(cells).contains(cell) <==> cells.contains(cell),
    decreases cells.len(),
{
    if cells.len() > 0 {
        lemma_without_repeats(cells.drop_last());
        let front = without_repeats(cells.drop_last());
        let whole = without_repeats(cells);
        assert forall|cell: u64|
            #![trigger whole.contains(cell)]
            #![trigger cells.contains(cell)]
            whole.contains(cell) <==> cells.contains(cell) by {
            if whole.contains(cell) {
                let i = choose|i: int| 0 <= i < whole.len() && whole[i] == cell;
                if i < front.len() {
                    assert(front[i] == cell);
                    assert(front.contains(cell));
                    let k = choose|k: int|
                        0 <= k < cells.drop_last().len() && cells.drop_last()[k] == cell;
                    assert(cells[k] == cell);
                } else {
                    assert(cells[cells.len() - 1] == cell);
                }
            }
            if cells.contains(cell) {
                let k = choose|k: int| 0 <= k < cells.len() && cells[k] == cell;
                if k < cells.len() - 1 {
                    assert(cells.drop_last()[k] == cell);
                    assert(front.contains(cell));
                    let i = choose|i: int| 0 <= i < front.len() && front[i] == cell;
                    assert(whole[i] == cell);
                } else if front.contains(cell) {
                } else {
                    assert(whole[whole.len() - 1] == cell);
                }
            }
        }
    }
}

/// A stack of cells of the H3 grid.
pub struct H3IndexStack {
    cells: Vec<u64>,
}

impl View for H3IndexStack {
    type V = Seq<u64>;

    /// The cells of the stack, in the order in which it holds them.
    closed spec fn view(&self) -> Seq<u64> {
        self.cells@
    }
}

impl H3IndexStack {
    /// What every stack keeps to: each value it holds is a cell of the grid.
    pub open spec fn wf(&self) -> bool {
        all_cells(self@)
    }

    /// An empty stack.
    pub fn new() -> (stack: Self)
        ensures
            stack.wf(),
            stack@ == Seq::<u64>::empty(),
    {
        H3IndexStack { cells: Vec::new() }
    }

    /// The number of cells in the stack.
    pub fn len(&self) -> (n: usize)
        ensures
            n == self@.len(),
    {
        self.cells.len()
    }

    /// Whether the stack holds no cell.
    pub fn is_empty(&self) -> (empty: bool)
        ensures
            empty == (self@.len() == 0),
    {
        self.cells.len() == 0
    }

    /// The cells of the stack.
    pub fn cells(&self) -> (cells: &Vec<u64>)
        ensures
            cells@ == self@,
    {
        &self.cells
    }

    /// Compacts the cells of one resolution.
    fn compact_resolution(&mut self, resolution: u8)
        requires
            old(self).wf(),
            resolution <= MAX_RESOLUTION,
        ensures
            final(self).wf(),
            final(self)@ == compact_level(old(self)@, resolution as int),
    {
        if resolution >= 12 && usize::MAX <= 0xffff_ffff {
            return ;
        }
        let ghost before = self.cells@;
        let mut level: Vec<u64> = Vec::new();
        let mut others: Vec<u64> = Vec::new();
        let mut seen: HashSet<u64> = HashSet::new();
        let mut i: usize = 0;
        while i < self.cells.len()
            invariant
                i <= self.cells.len(),
                self.cells@ == before,
                all_cells(before),
                others@ == select(before.take(i as int), resolution as int, false),
                level@ == without_repeats(select(before.take(i as int), resolution as int, true)),
                forall|cell: u64| seen@.contains(cell) <==> level@.contains(cell),
            decreases self.cells.len() - i,
        {
            let cell = self.cells[i];
            proof {
                assert(before.take(i + 1).drop_last() =~= before.take(i as int));
                assert(before.take(i + 1).last() == cell);
            }
            if resolution_of(cell) == resolution {
                let ghost listed = level@;
                proof {
                    let picked = select(before.take(i as int), resolution as int, true);
                    assert(picked.push(cell).drop_last() =~= picked);
                    assert(picked.push(cell).last() == cell);
                }
                if !seen.contains(&cell) {
                    seen.insert(cell);
                    level.push(cell);
                    proof {
                        assert(level@[listed.len() as int] == cell);
                        assert forall|other: u64| seen@.contains(other) <==> level@.contains(
                            other,
                        ) by {
                            if listed.contains(other) {
                                let k = choose|k: int| 0 <= k < listed.len() && listed[k] == other;
                                assert(level@[k] == other);
                            }
                            if level@.contains(other) && other != cell {
                                let k = choose|k: int|
                                    0 <= k < level@.len() && level@[k] == other;
                                assert(listed[k] == other);
                            }
                        }
                    }
                }
            } else {
                others.push(cell);
            }
            i = i + 1;
        }
        proof {
            assert(before.take(before.len() as int) =~= before);
            lemma_select_members(before, resolution as int, true);
            lemma_select_members(before, resolution as int, false);
            lemma_without_repeats(select(before, resolution as int, true));
        }
        if level.len() == 0 {
            return ;
        }
        proof {
            let picked = select(before, resolution as int, true);
            assert forall|k: int| 0 <= k < level@.len() implies valid_cell(#[trigger] level@[k])
                && cell_resolution(level@[k]) == resolution by {
                assert(level@.contains(level@[k]));
                assert(picked.contains(level@[k]));
                let j = choose|j: int| 0 <= j < picked.len() && picked[j] == level@[k];
                assert(before.contains(picked[j]));
            }
            assert forall|k: int| 0 <= k < others@.len() implies valid_cell(
                #[trigger] others@[k],
            ) by {
                assert(before.contains(others@[k]));
            }
        }
        let mut compacted = compact_cells(level);
        others.append(&mut compacted);
        self.cells = others;
    }

    /// Compacts the stack from the given resolution up to the coarsest: complete sets of
    /// children are replaced by their parent, the finest resolution first. Cells finer
    /// than `resolution` are left as they are.
    pub fn compact_from_resolution_up(&mut self, resolution: u8)
        requires
            old(self).wf(),
            resolution <= MAX_RESOLUTION,
        ensures
            final(self).wf(),
            final(self)@ == compact_from(old(self)@, resolution as int),
    {
        let mut next: u8 = resolution + 1;
        while next > 0
            invariant
                self.wf(),
                next <= resolution + 1,
                resolution <= MAX_RESOLUTION,
                compact_from(self@, next - 1) == compact_from(old(self)@, resolution as int),
            decreases next,
        {
            next = next - 1;
            self.compact_resolution(next);
        }
    }

    /// Compacts the whole stack.
    pub fn compact(&mut self)
        requires
            old(self).wf(),
        ensures
            final(self).wf(),
            final(self)@ == compact_from(old(self)@, MAX_RESOLUTION as int),
    {
        self.compact_from_resolution_up(MAX_RESOLUTION)
    }

    /// Moves `h3indexes` onto the stack, and compacts it from `resolution` up where
    /// `compact` is set. The cells must be cells of the grid of that resolution;
    /// otherwise nothing is moved.
    pub fn append_to_resolution(
        &mut self,
        resolution: u8,
        h3indexes: &mut Vec<u64>,
        compact: bool,
    ) -> (outcome: Result<(), Error>)
        requires
            old(self).wf(),
        ensures
            final(self).wf(),
            match outcome {
                Ok(_) => {
                    &&& resolution <= MAX_RESOLUTION
                    &&& all_cells_of(old(h3indexes)@, resolution as int)
                    &&& final(h3indexes)@ == Seq::<u64>::empty()
                    &&& final(self)@ == if compact {
                        compact_from(old(self)@ + old(h3indexes)@, resolution as int)
                    } else {
                        old(self)@ + old(h3indexes)@
                    }
                },
                Err(error) => {
                    &&& final(self)@ == old(self)@
                    &&& final(h3indexes)@ == old(h3indexes)@
                    &&& error == append_error(old(h3indexes)@, resolution as int)
                    &&& !(resolution <= MAX_RESOLUTION && all_cells_of(
                        old(h3indexes)@,
                        resolution as int,
                    ))
                },
            },
    {
        if resolution > MAX_RESOLUTION {
            return Err(Error::H3ResolutionOutOfRange);
        }
        let mut mixed = false;
        let mut i: usize = 0;
        while i < h3indexes.len()
            invariant
                i <= h3indexes.len(),
                self.wf(),
                self@ == old(self)@,
                resolution <= MAX_RESOLUTION,
                h3indexes@ == old(h3indexes)@,
                all_cells(h3indexes@.take(i as int)),
                mixed == !all_cells_of(h3indexes@.take(i as int), resolution as int),
            decreases h3indexes.len() - i,
        {
            let cell = h3indexes[i];
            let ghost checked = h3indexes@.take(i as int);
            let ghost grown = h3indexes@.take(i + 1);
            proof {
                assert(grown.drop_last() =~= checked);
                assert(grown[i as int] == cell);
                assert forall|k: int| 0 <= k < checked.len() implies grown[k] == checked[k] by {}
            }
            if !is_cell(cell) {
                proof {
                    assert(!valid_cell(h3indexes@[i as int]));
                }
                return Err(Error::InvalidCellIndex);
            }
            if resolution_of(cell) != resolution {
                mixed = true;
            }
            proof {
                if all_cells_of(grown, resolution as int) {
                    assert forall|k: int| 0 <= k < checked.len() implies valid_cell(
                        #[trigger] checked[k],
                    ) && cell_resolution(checked[k]) == resolution by {
                        assert(grown[k] == checked[k]);
                    }
                    assert(cell_resolution(grown[i as int]) == resolution);
                }
            }
            i = i + 1;
        }
        proof {
            assert(h3indexes@.take(h3indexes@.len() as int) =~= h3indexes@);
        }
        if mixed {
            return Err(Error::InvalidResolution);
        }
        self.cells.append(h3indexes);
        if compact {
            self.compact_from_resolution_up(resolution);
        }
        Ok(())
    }

    /// Moves the cells of `other` onto the stack, and compacts the whole stack where
    /// `compact` is set.
    pub fn append(&mut self, other: &mut H3IndexStack, compact: bool)
        requires
            old(self).wf(),
            old(other).wf(),
        ensures
            final(self).wf(),
            final(other).wf(),
            final(other)@ == Seq::<u64>::empty(),
            final(self)@ == if compact {
                compact_from(old(self)@ + old(other)@, MAX_RESOLUTION as int)
            } else {
                old(self)@ + old(other)@
            },
    {
        self.cells.append(&mut other.cells);
        if compact {
            self.compact();
        }
    }
}

/// The error with which cells are refused that are not all cells of the resolution
/// under which they are to be stacked: the resolution is checked first, then that each
/// value is a cell, then the resolution of the cells.
pub open spec fn append_error(cells: Seq<u64>, resolution: int) -> Error {
    if resolution > MAX_RESOLUTION {
        Error::H3ResolutionOutOfRange
    } else if !all_cells(cells) {
        Error::InvalidCellIndex
    } else {
        Error::InvalidResolution
    }
}

} // verus!
