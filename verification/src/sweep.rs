//! Conversion of a tile by sweeping the grid: starting from the cell in the middle of
//! the tile, every cell whose centre lies within the tile is visited, and is kept where
//! the pixel under its centre carries a value.

use crate::cells::{
    cell_resolution, disk_cells, grid_disk, is_cell, resolution_of, valid_cell, MAX_RESOLUTION,
};
use crate::error::Error;
use crate::grouped::GroupedH3Indexes;
use crate::record::{
    holds_emitted, is_record, lemma_record_complete, lemma_record_grows, lemma_record_stays,
};
use crate::sink::CellSink;
use crate::subset::{attributes_at, is_function, pixel_attributes, value_of, ConversionSubset};
use crate::value::{has_value, is_present, AttributeSeq};
use crate::walk::{lemma_closed_set_holds_reach, lemma_reaches_itself, lemma_reaches_next, reaches};
use std::collections::{HashSet, VecDeque};
use vstd::prelude::*;

verus! {

broadcast use vstd::std_specs::hash::group_hash_axioms;

/// The number of cells beyond which the sweep empties a bucket into its stack.
pub const FLUSH_LIMIT: usize = 20_000;

/// The steps of the sweep: from a cell whose centre is located within the tile to each
/// cell of its disk.
pub open spec fn sweep_step<L: Fn(u64) -> Option<(usize, usize)>>(locate: L) -> spec_fn(
    u64,
    u64,
) -> bool {
    |from: u64, to: u64| value_of(locate, from) is Some && disk_cells(from).contains(to)
}

/// The attribute vector of the pixel under the centre of a cell that is located within
/// the tile.
pub open spec fn cell_attributes<L: Fn(u64) -> Option<(usize, usize)>>(
    subset: ConversionSubset,
    locate: L,
    cell: u64,
) -> AttributeSeq {
    attributes_at(subset.banddata@, subset.tile.position_of(value_of(locate, cell)->0))
}

/// The cell is located within the tile, and the pixel under its centre carries the
/// attribute vector `key`, which is present.
pub open spec fn carries<L: Fn(u64) -> Option<(usize, usize)>>(
    subset: ConversionSubset,
    locate: L,
    cell: u64,
    key: AttributeSeq,
) -> bool {
    &&& value_of(locate, cell) is Some
    &&& key == cell_attributes(subset, locate, cell)
    &&& is_present(key)
}

/// What a cell emits wherever the sweep comes by it: the present attribute vector that
/// it carries.
pub open spec fn sweep_carries<L: Fn(u64) -> Option<(usize, usize)>>(
    subset: ConversionSubset,
    locate: L,
) -> spec_fn(u64, AttributeSeq) -> bool {
    |cell: u64, key: AttributeSeq| carries(subset, locate, cell, key)
}

/// What the sweep from `seed` emits: the cells it reaches that carry a present
/// attribute vector, each under that vector.
pub open spec fn sweep_emits<L: Fn(u64) -> Option<(usize, usize)>>(
    subset: ConversionSubset,
    locate: L,
    seed: u64,
) -> spec_fn(u64, AttributeSeq) -> bool {
    |cell: u64, key: AttributeSeq|
        reaches(sweep_step(locate), seed, cell) && carries(subset, locate, cell, key)
}

/// What the sweep of a tile comes to: the grouping that holds what the sweep emits,
/// with buckets emptied beyond `FLUSH_LIMIT` cells, or the error for which it could
/// not start.
pub open spec fn is_swept<C: Fn((usize, usize)) -> u64, L: Fn(u64) -> Option<(usize, usize)>>(
    outcome: Result<GroupedH3Indexes, Error>,
    subset: ConversionSubset,
    cell_at: C,
    locate: L,
    compact: bool,
) -> bool {
    match outcome {
        Ok(grouped) => {
            &&& grouped.wf()
            &&& seed_error(subset.h3_resolution, sweep_seed(subset, cell_at)) is None
            &&& holds_emitted(
                grouped@,
                sweep_emits(subset, locate, sweep_seed(subset, cell_at)),
                FLUSH_LIMIT as int,
                subset.h3_resolution as int,
                compact,
            )
        },
        Err(error) => seed_error(subset.h3_resolution, sweep_seed(subset, cell_at)) == Some(error),
    }
}

/// Every cell that the sweep emits is located within the tile, stands under the
/// attribute vector of the pixel under its centre, and that vector is present: no cell
/// is emitted for a pixel without data.
pub proof fn lemma_swept_cells<L: Fn(u64) -> Option<(usize, usize)>>(
    subset: ConversionSubset,
    locate: L,
    seed: u64,
    cell: u64,
    key: AttributeSeq,
)
    requires
        sweep_emits(subset, locate, seed)(cell, key),
    ensures
        value_of(locate, cell) is Some,
        key == attributes_at(subset.banddata@, subset.tile.position_of(value_of(locate, cell)->0)),
        is_present(key),
{
}

/// Why no conversion can start from `seed`: the resolution is checked first, then that
/// the seed is a cell, then that it is a cell of the resolution.
pub open spec fn seed_error(resolution: u8, seed: u64) -> Option<Error> {
    if resolution > MAX_RESOLUTION {
        Some(Error::H3ResolutionOutOfRange)
    } else if !valid_cell(seed) {
        Some(Error::InvalidCellIndex)
    } else if cell_resolution(seed) != resolution {
        Some(Error::InvalidResolution)
    } else {
        None
    }
}

/// The cells are cells of the grid, of the given resolution, and reached from `seed`.
pub open spec fn all_reached(
    cells: Set<u64>,
    step: spec_fn(u64, u64) -> bool,
    seed: u64,
    resolution: int,
) -> bool {
    forall|cell: u64| #[trigger]
        cells.contains(cell) ==> valid_cell(cell) && cell_resolution(cell) == resolution && reaches(
            step,
            seed,
            cell,
        )
}

/// Every cell that a step leads to from a visited cell is visited or scheduled.
pub open spec fn closed_up_to(
    visited: Set<u64>,
    scheduled: Set<u64>,
    step: spec_fn(u64, u64) -> bool,
) -> bool {
    forall|from: u64, to: u64|
        visited.contains(from) && #[trigger] step(from, to) ==> visited.contains(to)
            || scheduled.contains(to)
}

/// The queue and the set of scheduled cells hold the same cells, each once, and none
/// of them is visited.
pub open spec fn is_frontier(queue: Seq<u64>, scheduled: Set<u64>, visited: Set<u64>) -> bool {
    &&& queue.no_duplicates()
    &&& forall|cell: u64| scheduled.contains(cell) <==> queue.contains(cell)
    &&& forall|cell: u64| scheduled.contains(cell) ==> !visited.contains(cell)
}

/// Schedules the cells of `neighbors` that are neither visited nor scheduled.
pub(crate) fn schedule_neighbors(
    neighbors: &Vec<u64>,
    visited: &HashSet<u64>,
    scheduled: &mut HashSet<u64>,
    queue: &mut VecDeque<u64>,
)
    requires
        is_frontier(old(queue)@, old(scheduled)@, visited@),
    ensures
        is_frontier(final(queue)@, final(scheduled)@, visited@),
        forall|cell: u64|
            final(scheduled)@.contains(cell) <==> old(scheduled)@.contains(cell) || (
            neighbors@.contains(cell) && !visited@.contains(cell)),
{
    let mut i: usize = 0;
    while i < neighbors.len()
        invariant
            i <= neighbors.len(),
            is_frontier(queue@, scheduled@, visited@),
            forall|cell: u64|
                scheduled@.contains(cell) <==> old(scheduled)@.contains(cell) || (exists|k: int|
                    0 <= k < i && neighbors@[k] == cell && !visited@.contains(cell)),
        decreases neighbors.len() - i,
    {
        let neighbor = neighbors[i];
        let ghost waiting = queue@;
        let ghost planned = scheduled@;
        if !(visited.contains(&neighbor) || scheduled.contains(&neighbor)) {
            queue.push_back(neighbor);
            scheduled.insert(neighbor);
            proof {
                assert(queue@[waiting.len() as int] == neighbor);
                assert forall|cell: u64| scheduled@.contains(cell) <==> queue@.contains(cell) by {
                    if waiting.contains(cell) {
                        let k = choose|k: int| 0 <= k < waiting.len() && waiting[k] == cell;
                        assert(queue@[k] == cell);
                    }
                    if queue@.contains(cell) && cell != neighbor {
                        let k = choose|k: int| 0 <= k < queue@.len() && queue@[k] == cell;
                        assert(waiting[k] == cell);
                    }
                }
                assert forall|a: int, b: int|
                    0 <= a < queue@.len() && 0 <= b < queue@.len() && a != b implies queue@[a]
                    != queue@[b] by {
                    if a < waiting.len() && b < waiting.len() {
                        assert(waiting[a] != waiting[b]);
                    } else if a < waiting.len() {
                        assert(waiting.contains(waiting[a]));
                    } else if b < waiting.len() {
                        assert(waiting.contains(waiting[b]));
                    }
                }
            }
        }
        proof {
            assert forall|cell: u64|
                scheduled@.contains(cell) <==> old(scheduled)@.contains(cell) || (exists|k: int|
                    0 <= k < i + 1 && neighbors@[k] == cell && !visited@.contains(cell)) by {
                if scheduled@.contains(cell) && !planned.contains(cell) {
                    assert(neighbors@[i as int] == cell);
                }
                if exists|k: int| 0 <= k < i + 1 && neighbors@[k] == cell && !visited@.contains(cell) {
                    let k = choose|k: int|
                        0 <= k < i + 1 && neighbors@[k] == cell && !visited@.contains(cell);
                    if k < i {
                        assert(planned.contains(cell));
                    }
                }
            }
        }
        i = i + 1;
    }
}

/// Converts a tile by checking the pixels under the centres of the cells of the grid.
///
/// `cell_at` gives the cell that a raster pixel lies in, `locate` the raster pixel
/// under the centre of a cell, or `None` where the centre lies outside the bounds of
/// the tile. The walk starts at the cell of the pixel in the middle of the tile and
/// goes on from every cell that is located within the tile to the cells around it;
/// it crosses pixels without data. Each cell reached whose pixel carries a present
/// attribute vector is kept under that vector. The pixel's array position is counted
/// from the origin of the tile; where a band holds no value at that position, the
/// value is no-data.
pub fn convert_subset_by_checking_index_positions<
    C: Fn((usize, usize)) -> u64,
    L: Fn(u64) -> Option<(usize, usize)>,
>(subset: &ConversionSubset, cell_at: &C, locate: &L, compact: bool) -> (outcome: Result<
    GroupedH3Indexes,
    Error,
>)
    requires
        subset.tile.wf(),
        is_function(*cell_at),
        is_function(*locate),
    ensures
        is_swept(outcome, *subset, *cell_at, *locate, compact),
{
    let resolution = subset.h3_resolution;
    let seed = cell_at(subset.tile.center_pixel());
    if resolution > MAX_RESOLUTION {
        return Err(Error::H3ResolutionOutOfRange);
    }
    if !is_cell(seed) {
        return Err(Error::InvalidCellIndex);
    }
    if resolution_of(seed) != resolution {
        return Err(Error::InvalidResolution);
    }
    let ghost step = sweep_step(*locate);
    let mut indexes_to_check: VecDeque<u64> = VecDeque::new();
    let mut indexes_scheduled: HashSet<u64> = HashSet::new();
    let mut indexes_visited: HashSet<u64> = HashSet::new();
    let mut sink = CellSink::new(resolution, FLUSH_LIMIT, compact);
    indexes_to_check.push_back(seed);
    indexes_scheduled.insert(seed);
    proof {
        lemma_reaches_itself(step, seed);
        assert(indexes_to_check@[0] == seed);
        assert forall|cell: u64|
            indexes_scheduled@.contains(cell) <==> indexes_to_check@.contains(cell) by {
            if indexes_to_check@.contains(cell) {
                let k = choose|k: int|
                    0 <= k < indexes_to_check@.len() && indexes_to_check@[k] == cell;
                assert(k == 0);
            }
        }
    }
    while indexes_to_check.len() > 0
        invariant
            is_function(*locate),
            resolution == subset.h3_resolution,
            step == sweep_step(*locate),
            sink.wf(),
            sink.limit() == FLUSH_LIMIT,
            sink.resolution() == resolution,
            sink.compact() == compact,
            indexes_visited@.finite(),
            is_frontier(indexes_to_check@, indexes_scheduled@, indexes_visited@),
            all_reached(indexes_visited@, step, seed, resolution as int),
            all_reached(indexes_scheduled@, step, seed, resolution as int),
            closed_up_to(indexes_visited@, indexes_scheduled@, step),
            indexes_visited@.contains(seed) || indexes_scheduled@.contains(seed),
            is_record(sink.keys(), sink.logs(), indexes_visited@, sweep_carries(*subset, *locate)),
        decreases usize::MAX - indexes_visited@.len(),
    {
        let ghost waiting = indexes_to_check@;
        let ghost seen = indexes_visited@;
        let ghost planned = indexes_scheduled@;
        let ghost keys = sink.keys();
        let ghost logs = sink.logs();
        let visits = indexes_visited.len();
        let this_h3index = indexes_to_check.pop_front().unwrap();
        proof {
            assert(waiting[0] == this_h3index);
            assert(waiting.contains(this_h3index));
            assert(planned.contains(this_h3index));
            assert(!seen.contains(this_h3index));
        }
        indexes_visited.insert(this_h3index);
        indexes_scheduled.remove(&this_h3index);
        proof {
            assert forall|cell: u64|
                indexes_scheduled@.contains(cell) <==> indexes_to_check@.contains(cell) by {
                if indexes_to_check@.contains(cell) {
                    let k = choose|k: int|
                        0 <= k < indexes_to_check@.len() && indexes_to_check@[k] == cell;
                    assert(waiting[k + 1] == cell);
                    assert(waiting[0] != waiting[k + 1]);
                }
                if planned.contains(cell) && cell != this_h3index {
                    let k = choose|k: int| 0 <= k < waiting.len() && waiting[k] == cell;
                    assert(indexes_to_check@[k - 1] == cell);
                }
            }
            assert forall|a: int, b: int|
                0 <= a < indexes_to_check@.len() && 0 <= b < indexes_to_check@.len() && a
                    != b implies indexes_to_check@[a] != indexes_to_check@[b] by {
                assert(waiting[a + 1] != waiting[b + 1]);
            }
        }
        let located = locate(this_h3index);
        proof {
            sink.lemma_shape();
            assert(value_of(*locate, this_h3index) == located);
        }
        match located {
            Some(pixel) => {
                let attributes = pixel_attributes(subset, pixel);
                if has_value(&attributes) {
                    sink.emit(&attributes, this_h3index);
                    proof {
                        lemma_record_grows(
                            keys,
                            logs,
                            seen,
                            sweep_carries(*subset, *locate),
                            this_h3index,
                            attributes@,
                        );
                    }
                } else {
                    proof {
                        lemma_record_stays(keys, logs, seen, sweep_carries(*subset, *locate), this_h3index);
                    }
                }
                let neighbors = grid_disk(this_h3index);
                let ghost trimmed = indexes_scheduled@;
                schedule_neighbors(
                    &neighbors,
                    &indexes_visited,
                    &mut indexes_scheduled,
                    &mut indexes_to_check,
                );
                proof {
                    assert forall|cell: u64| #[trigger]
                        indexes_scheduled@.contains(cell) implies valid_cell(cell)
                        && cell_resolution(cell) == resolution && reaches(step, seed, cell) by {
                        if !trimmed.contains(cell) {
                            let k = choose|k: int|
                                0 <= k < neighbors@.len() && neighbors@[k] == cell;
                            assert(valid_cell(neighbors@[k]));
                            assert(step(this_h3index, cell));
                            lemma_reaches_next(step, seed, this_h3index, cell);
                        } else {
                            assert(planned.contains(cell));
                        }
                    }
                    assert forall|from: u64, to: u64|
                        indexes_visited@.contains(from) && #[trigger] step(
                            from,
                            to,
                        ) implies indexes_visited@.contains(to) || indexes_scheduled@.contains(
                        to,
                    ) by {
                        if from == this_h3index {
                            assert(neighbors@.contains(to));
                        } else {
                            assert(seen.contains(from));
                            assert(seen.contains(to) || planned.contains(to));
                        }
                    }
                }
            },
            None => {
                proof {
                    lemma_record_stays(keys, logs, seen, sweep_carries(*subset, *locate), this_h3index);
                    assert forall|cell: u64| #[trigger]
                        indexes_scheduled@.contains(cell) implies valid_cell(cell)
                        && cell_resolution(cell) == resolution && reaches(step, seed, cell) by {
                        assert(planned.contains(cell));
                    }
                    assert forall|from: u64, to: u64|
                        indexes_visited@.contains(from) && #[trigger] step(
                            from,
                            to,
                        ) implies indexes_visited@.contains(to) || indexes_scheduled@.contains(
                        to,
                    ) by {
                        if from != this_h3index {
                            assert(seen.contains(from));
                            assert(seen.contains(to) || planned.contains(to));
                        }
                    }
                }
            },
        }
        proof {
            assert forall|cell: u64| #[trigger]
                indexes_visited@.contains(cell) implies valid_cell(cell) && cell_resolution(cell)
                == resolution && reaches(step, seed, cell) by {
                if cell != this_h3index {
                    assert(seen.contains(cell));
                }
            }
            assert(indexes_visited@.len() == seen.len() + 1);
            assert(indexes_visited.len() == indexes_visited@.len());
        }
    }
    let ghost keys = sink.keys();
    let ghost logs = sink.logs();
    proof {
        sink.lemma_shape();
    }
    let grouped = sink.finish();
    proof {
        let emits = sweep_emits(*subset, *locate, seed);
        let carried = sweep_carries(*subset, *locate);
        let visited = indexes_visited@;
        assert(indexes_to_check@ =~= Seq::<u64>::empty());
        assert forall|to: u64| !indexes_scheduled@.contains(to) by {
            assert(!indexes_to_check@.contains(to));
        }
        assert forall|cell: u64| reaches(step, seed, cell) implies visited.contains(cell) by {
            lemma_closed_set_holds_reach(step, seed, cell, visited);
        }
        assert(is_record(keys, logs, visited, emits)) by {
            assert forall|i: int, j: int|
                0 <= i < logs.len() && 0 <= j < logs[i].len() implies visited.contains(
                #[trigger] logs[i][j],
            ) && emits(logs[i][j], keys[i]) by {
                assert(carried(logs[i][j], keys[i]));
            }
            assert forall|cell: u64, key: AttributeSeq|
                visited.contains(cell) && #[trigger] emits(cell, key) implies exists|k: int|
                0 <= k < keys.len() && keys[k] == key && logs[k].contains(cell) by {
                assert(carried(cell, key));
            }
        }
        lemma_record_complete(
            grouped@,
            keys,
            logs,
            visited,
            emits,
            FLUSH_LIMIT as int,
            resolution as int,
            compact,
        );
    }
    Ok(grouped)
}

/// The cell from which the sweep of a tile starts: that of the pixel in the middle of
/// the tile.
pub open spec fn sweep_seed<C: Fn((usize, usize)) -> u64>(subset: ConversionSubset, cell_at: C) -> u64 {
    value_of(
        cell_at,
        (
            (subset.tile.offset_origin.0 + subset.tile.size.0 / 2) as usize,
            (subset.tile.offset_origin.1 + subset.tile.size.1 / 2) as usize,
        ),
    )
}

} // verus!
