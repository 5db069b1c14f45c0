//! Conversion of a tile cluster by cluster: the pixels that carry a value are grouped
//! into clusters of neighbouring pixels, and each cluster is filled with cells from one
//! cell found inside it.

use crate::cells::{
    cell_resolution, disk_cells, grid_disk, is_cell, resolution_of, valid_cell, MAX_RESOLUTION,
};
use crate::error::Error;
use crate::grouped::GroupedH3Indexes;
use crate::record::{
    holds_emitted, is_record, lemma_record_complete, lemma_record_grows, lemma_record_widens,
};
use crate::region::{
    grow_region_members, in_tile, is_path, joins, lemma_region_is_component,
    lemma_seed_connected, lemma_walk_stays_connected, region,
};
use crate::sink::CellSink;
use crate::subset::{attributes_at, is_function, read_attributes, value_of, ConversionSubset};
use crate::sweep::{all_reached, cell_attributes, closed_up_to, is_frontier, schedule_neighbors};
use crate::tile::{array_position_to_pixel, position_column, position_row};
use crate::value::{has_value, is_present, AttributeSeq, Attributes, Value};
use crate::walk::{lemma_closed_set_holds_reach, lemma_reaches_itself, lemma_reaches_next, reaches};
use std::collections::{HashMap, HashSet, VecDeque};
use vstd::arithmetic::div_mod::lemma_fundamental_div_mod;
use vstd::prelude::*;

verus! {

broadcast use vstd::std_specs::hash::group_hash_axioms;

/// A position is occupied where every band holds a value at it and the attribute vector
/// of these values is present.
pub open spec fn is_occupied(banddata: Seq<Vec<Option<Value>>>, position: int) -> bool {
    &&& 0 <= position
    &&& forall|band: int| 0 <= band < banddata.len() ==> position < (#[trigger] banddata[band])@.len()
    &&& is_present(attributes_at(banddata, Some(position)))
}

/// The occupied positions of the bands.
pub open spec fn occupied(banddata: Seq<Vec<Option<Value>>>) -> Set<usize> {
    Set::new(|position: usize| is_occupied(banddata, position as int))
}

/// The length of the shortest band: the number of positions at which every band holds
/// a value. It is 0 where there is no band.
pub fn shortest_band(banddata: &Vec<Vec<Option<Value>>>) -> (extent: usize)
    ensures
        forall|band: int| 0 <= band < banddata@.len() ==> extent <= (#[trigger] banddata@[band])@.len(),
        banddata@.len() == 0 ==> extent == 0,
        banddata@.len() > 0 ==> exists|band: int|
            0 <= band < banddata@.len() && (#[trigger] banddata@[band])@.len() == extent,
{
    if banddata.len() == 0 {
        return 0;
    }
    let mut extent = banddata[0].len();
    let mut band: usize = 1;
    while band < banddata.len()
        invariant
            1 <= band <= banddata.len(),
            forall|b: int| 0 <= b < band ==> extent <= (#[trigger] banddata@[b])@.len(),
            exists|b: int| 0 <= b < band && (#[trigger] banddata@[b])@.len() == extent,
        decreases banddata.len() - band,
    {
        if banddata[band].len() < extent {
            extent = banddata[band].len();
        }
        band = band + 1;
    }
    extent
}

/// The attribute vectors of the occupied positions, by position.
pub fn attributes_by_position(banddata: &Vec<Vec<Option<Value>>>) -> (found: HashMap<
    usize,
    Attributes,
>)
    ensures
        found@.dom() == occupied(banddata@),
        forall|position: usize| #[trigger]
            found@.contains_key(position) ==> found@[position]@ == attributes_at(
                banddata@,
                Some(position as int),
            ),
{
    let extent = shortest_band(banddata);
    let mut found: HashMap<usize, Attributes> = HashMap::new();
    let mut position: usize = 0;
    while position < extent
        invariant
            position <= extent,
            forall|band: int|
                0 <= band < banddata@.len() ==> extent <= (#[trigger] banddata@[band])@.len(),
            forall|at: usize|
                #![trigger found@.contains_key(at)]
                found@.contains_key(at) <==> at < position && is_occupied(banddata@, at as int),
            forall|at: usize| #[trigger]
                found@.contains_key(at) ==> found@[at]@ == attributes_at(banddata@, Some(at as int)),
        decreases extent - position,
    {
        let attributes = read_attributes(banddata, Some(position));
        proof {
            assert forall|band: int| 0 <= band < banddata@.len() implies position < (
            #[trigger] banddata@[band])@.len() by {}
            assert(is_occupied(banddata@, position as int) == is_present(attributes@));
        }
        let ghost before = found@;
        let present = has_value(&attributes);
        if present {
            found.insert(position, attributes);
        }
        proof {
            assert(present == is_occupied(banddata@, position as int));
            assert(found@.contains_key(position) == present);
            assert forall|at: usize|
                #![trigger found@.contains_key(at)]
                found@.contains_key(at) <==> at < position + 1 && is_occupied(
                    banddata@,
                    at as int,
                ) by {
                if at != position {
                    assert(found@.contains_key(at) == before.contains_key(at));
                    assert(before.contains_key(at) <==> at < position && is_occupied(
                        banddata@,
                        at as int,
                    ));
                } else {
                    assert(found@.contains_key(at) == present);
                    assert(is_occupied(banddata@, at as int) == present);
                }
            }
            assert forall|at: usize| #[trigger] found@.contains_key(at) implies found@[at]@
                == attributes_at(banddata@, Some(at as int)) by {
                if at != position {
                    assert(before.contains_key(at));
                }
            }
        }
        position = position + 1;
    }
    proof {
        assert forall|at: usize| found@.contains_key(at) <==> occupied(banddata@).contains(at) by {
            if is_occupied(banddata@, at as int) && at >= extent {
                if banddata@.len() > 0 {
                    let band = choose|band: int|
                        0 <= band < banddata@.len() && (#[trigger] banddata@[band])@.len() == extent;
                    assert(at < banddata@[band]@.len());
                } else {
                    assert(attributes_at(banddata@, Some(at as int)).len() == 0);
                }
            }
        }
        assert(found@.dom() =~= occupied(banddata@));
    }
    found
}

/// The raster pixel of an array position of the tile.
pub open spec fn position_pixel(subset: ConversionSubset, position: usize) -> (usize, usize) {
    (
        (subset.tile.offset_origin.0 + position_column(position as int, subset.tile.size.0 as int)) as usize,
        (subset.tile.offset_origin.1 + position_row(position as int, subset.tile.size.0 as int)) as usize,
    )
}

/// The centre of the cell is located within the tile, on a pixel whose array position
/// is one of `positions`.
pub open spec fn lies_in<L: Fn(u64) -> Option<(usize, usize)>>(
    subset: ConversionSubset,
    locate: L,
    cell: u64,
    positions: Set<usize>,
) -> bool {
    match value_of(locate, cell) {
        Some(pixel) => match subset.tile.position_of(pixel) {
            Some(at) => at <= usize::MAX && positions.contains(at as usize),
            None => false,
        },
        None => false,
    }
}

/// The cells whose centre lies on one of the positions.
pub open spec fn settled<L: Fn(u64) -> Option<(usize, usize)>>(
    subset: ConversionSubset,
    locate: L,
    positions: Set<usize>,
) -> Set<u64> {
    Set::new(|cell: u64| lies_in(subset, locate, cell, positions))
}

/// The cell that the pixel of a position lies in.
pub open spec fn entry_cell<C: Fn((usize, usize)) -> u64>(
    subset: ConversionSubset,
    cell_at: C,
    position: usize,
) -> u64 {
    value_of(cell_at, position_pixel(subset, position))
}

/// The cell of the position can serve as the entry into the cluster: it is a cell of
/// the resolution of the conversion, and its centre lies on a pixel of the cluster.
pub open spec fn accepts<C: Fn((usize, usize)) -> u64, L: Fn(u64) -> Option<(usize, usize)>>(
    subset: ConversionSubset,
    cell_at: C,
    locate: L,
    cluster: Set<usize>,
    position: usize,
) -> bool {
    let cell = entry_cell(subset, cell_at, position);
    &&& valid_cell(cell)
    &&& cell_resolution(cell) == subset.h3_resolution
    &&& lies_in(subset, locate, cell, cluster)
}

/// `position` is the first position of the cluster whose cell is accepted.
pub open spec fn is_entry<C: Fn((usize, usize)) -> u64, L: Fn(u64) -> Option<(usize, usize)>>(
    subset: ConversionSubset,
    cell_at: C,
    locate: L,
    cluster: Set<usize>,
    position: usize,
) -> bool {
    &&& cluster.contains(position)
    &&& accepts(subset, cell_at, locate, cluster, position)
    &&& forall|earlier: usize|
        earlier < position && cluster.contains(earlier) ==> !#[trigger] accepts(
            subset,
            cell_at,
            locate,
            cluster,
            earlier,
        )
}

/// The steps by which a cluster is filled: from a cell whose centre lies in the
/// cluster to each cell of its disk.
pub open spec fn cluster_step<L: Fn(u64) -> Option<(usize, usize)>>(
    subset: ConversionSubset,
    locate: L,
    cluster: Set<usize>,
) -> spec_fn(u64, u64) -> bool {
    |from: u64, to: u64| lies_in(subset, locate, from, cluster) && disk_cells(from).contains(to)
}

/// The cell is emitted under `key` when the cluster of `seed` is filled from the cell
/// of `position`: the position is the entry of the cluster, the cell is reached from
/// there, its centre lies in the cluster, and `key` is the attribute vector of the
/// pixel under its centre.
pub open spec fn emits_from<C: Fn((usize, usize)) -> u64, L: Fn(u64) -> Option<(usize, usize)>>(
    subset: ConversionSubset,
    cell_at: C,
    locate: L,
    seed: usize,
    position: usize,
    cell: u64,
    key: AttributeSeq,
) -> bool {
    let cluster = region(
        occupied(subset.banddata@),
        seed,
        subset.tile.size.0 as int,
        subset.tile.size.1 as int,
    );
    &&& occupied(subset.banddata@).contains(seed)
    &&& is_entry(subset, cell_at, locate, cluster, position)
    &&& reaches(
        cluster_step(subset, locate, cluster),
        entry_cell(subset, cell_at, position),
        cell,
    )
    &&& lies_in(subset, locate, cell, cluster)
    &&& key == cell_attributes(subset, locate, cell)
}

/// What the conversion by clusters emits: for each cluster of occupied pixels that has
/// an entry, the cells reached from the entry whose centre lies in the cluster, each
/// under the attribute vector of the pixel under its centre.
pub open spec fn cluster_emits<C: Fn((usize, usize)) -> u64, L: Fn(u64) -> Option<(usize, usize)>>(
    subset: ConversionSubset,
    cell_at: C,
    locate: L,
) -> spec_fn(u64, AttributeSeq) -> bool {
    |cell: u64, key: AttributeSeq|
        exists|seed: usize, position: usize| #[trigger]
            emits_from(subset, cell_at, locate, seed, position, cell, key)
}

/// What the conversion by clusters comes to: the grouping that holds what it emits,
/// each bucket emptied once, at the end; or the error that the resolution is none of
/// the grid.
pub open spec fn is_filled<C: Fn((usize, usize)) -> u64, L: Fn(u64) -> Option<(usize, usize)>>(
    outcome: Result<GroupedH3Indexes, Error>,
    subset: ConversionSubset,
    cell_at: C,
    locate: L,
    compact: bool,
) -> bool {
    match outcome {
        Ok(grouped) => {
            &&& subset.h3_resolution <= MAX_RESOLUTION
            &&& grouped.wf()
            &&& holds_emitted(
                grouped@,
                cluster_emits(subset, cell_at, locate),
                usize::MAX as int,
                subset.h3_resolution as int,
                compact,
            )
        },
        Err(error) => subset.h3_resolution > MAX_RESOLUTION && error
            == Error::H3ResolutionOutOfRange,
    }
}

/// Every cell that the conversion by clusters emits is located within the tile,
/// stands under the attribute vector of the pixel under its centre, and that pixel is
/// occupied, so that the vector is present: no cell is emitted for a pixel without
/// data.
pub proof fn lemma_filled_cells<
    C: Fn((usize, usize)) -> u64,
    L: Fn(u64) -> Option<(usize, usize)>,
>(subset: ConversionSubset, cell_at: C, locate: L, cell: u64, key: AttributeSeq)
    requires
        cluster_emits(subset, cell_at, locate)(cell, key),
    ensures
        value_of(locate, cell) is Some,
        key == attributes_at(subset.banddata@, subset.tile.position_of(value_of(locate, cell)->0)),
        lies_in(subset, locate, cell, occupied(subset.banddata@)),
        is_present(key),
{
    let (seed, position) = choose|seed: usize, position: usize| #[trigger]
        emits_from(subset, cell_at, locate, seed, position, cell, key);
    let at = subset.tile.position_of(value_of(locate, cell)->0)->0 as usize;
    lemma_region_is_subset(
        occupied(subset.banddata@),
        seed,
        at,
        subset.tile.size.0 as int,
        subset.tile.size.1 as int,
    );
}

/// A position below the number of pixels of a tile lies on one of its rows.
proof fn lemma_position_in_tile(position: int, width: int, height: int)
    requires
        0 <= position < width * height,
        0 <= width,
        0 <= height,
    ensures
        width > 0,
        in_tile(position, width, height),
        0 <= position_column(position, width) < width,
        0 <= position_row(position, width) < height,
{
    assert(width > 0) by (nonlinear_arith)
        requires
            0 <= position < width * height,
            0 <= width,
    ;
    lemma_fundamental_div_mod(position, width);
    let row = position / width;
    assert(row < height) by (nonlinear_arith)
        requires
            position == width * row + position % width,
            0 <= position % width < width,
            position < width * height,
            width > 0,
    ;
    assert(row >= 0) by (nonlinear_arith)
        requires
            position == width * row + position % width,
            0 <= position % width < width,
            position >= 0,
            width > 0,
    ;
}

/// The occupied positions of a well-formed subset lie within its tile.
proof fn lemma_occupied_in_tile(subset: ConversionSubset, position: usize)
    requires
        subset.wf(),
        occupied(subset.banddata@).contains(position),
    ensures
        position < subset.tile.size.0 * subset.tile.size.1,
        subset.tile.size.0 > 0,
        in_tile(position as int, subset.tile.size.0 as int, subset.tile.size.1 as int),
{
    let key = attributes_at(subset.banddata@, Some(position as int));
    let band = choose|band: int| 0 <= band < key.len() && (#[trigger] key[band]) is Some;
    assert(position < subset.banddata@[band]@.len());
    lemma_position_in_tile(
        position as int,
        subset.tile.size.0 as int,
        subset.tile.size.1 as int,
    );
}

/// Among remaining positions that hold whole clusters, the cluster of a position is
/// the cluster it has among all occupied positions.
proof fn lemma_region_of_remaining(
    field: Set<usize>,
    remaining: Set<usize>,
    seed: usize,
    width: int,
    height: int,
)
    requires
        remaining.subset_of(field),
        remaining.contains(seed),
        forall|from: usize, to: usize|
            remaining.contains(from) && #[trigger] region(field, from, width, height).contains(to)
                ==> remaining.contains(to),
    ensures
        region(remaining, seed, width, height) == region(field, seed, width, height),
{
    let small = region(remaining, seed, width, height);
    let big = region(field, seed, width, height);
    assert forall|position: usize| small.contains(position) implies big.contains(position) by {
        let path = choose|path: Seq<usize>|
            joins(path, remaining, seed, position, width, height);
        assert(is_path(path, field, width, height));
        assert(joins(path, field, seed, position, width, height));
    }
    assert forall|position: usize| big.contains(position) implies small.contains(position) by {
        let path = choose|path: Seq<usize>| joins(path, field, seed, position, width, height);
        assert forall|i: int| 0 <= i < path.len() implies remaining.contains(#[trigger] path[i]) by {
            lemma_walk_stays_connected(field, path, width, height, i);
            assert(region(field, seed, width, height).contains(path[i]));
        }
        assert(joins(path, remaining, seed, position, width, height));
    }
    assert(small =~= big);
}

/// Two clusters that share a position are one cluster.
proof fn lemma_clusters_meet(subset: ConversionSubset, one: usize, other: usize, shared: usize)
    requires
        subset.wf(),
        region(
            occupied(subset.banddata@),
            one,
            subset.tile.size.0 as int,
            subset.tile.size.1 as int,
        ).contains(shared),
        region(
            occupied(subset.banddata@),
            other,
            subset.tile.size.0 as int,
            subset.tile.size.1 as int,
        ).contains(shared),
    ensures
        region(
            occupied(subset.banddata@),
            one,
            subset.tile.size.0 as int,
            subset.tile.size.1 as int,
        ) == region(
            occupied(subset.banddata@),
            other,
            subset.tile.size.0 as int,
            subset.tile.size.1 as int,
        ),
{
    let field = occupied(subset.banddata@);
    let width = subset.tile.size.0 as int;
    let height = subset.tile.size.1 as int;
    assert forall|position: usize| field.contains(position) implies in_tile(
        position as int,
        width,
        height,
    ) by {
        lemma_occupied_in_tile(subset, position);
    }
    lemma_region_is_component(field, one, shared, width, height);
    lemma_region_is_component(field, other, shared, width, height);
}

/// The cell found first among the positions of a cluster whose centre lies in the
/// cluster: the positions from `seed` to `last` are tried in their order.
fn find_entry<C: Fn((usize, usize)) -> u64, L: Fn(u64) -> Option<(usize, usize)>>(
    subset: &ConversionSubset,
    cluster: &HashSet<usize>,
    seed: usize,
    last: usize,
    cell_at: &C,
    locate: &L,
) -> (found: Option<u64>)
    requires
        subset.wf(),
        subset.h3_resolution <= MAX_RESOLUTION,
        is_function(*cell_at),
        is_function(*locate),
        forall|position: usize| #[trigger]
            cluster@.contains(position) ==> seed <= position <= last && position
                < subset.tile.size.0 * subset.tile.size.1,
    ensures
        match found {
            Some(cell) => exists|position: usize|
                is_entry(*subset, *cell_at, *locate, cluster@, position) && cell == entry_cell(
                    *subset,
                    *cell_at,
                    position,
                ),
            None => forall|position: usize|
                cluster@.contains(position) ==> !#[trigger] accepts(
                    *subset,
                    *cell_at,
                    *locate,
                    cluster@,
                    position,
                ),
        },
{
    let mut position = seed;
    loop
        invariant
            subset.wf(),
            is_function(*cell_at),
            is_function(*locate),
            seed <= position,
            forall|at: usize| #[trigger]
                cluster@.contains(at) ==> seed <= at <= last && at < subset.tile.size.0
                    * subset.tile.size.1,
            forall|earlier: usize|
                earlier < position && cluster@.contains(earlier) ==> !#[trigger] accepts(
                    *subset,
                    *cell_at,
                    *locate,
                    cluster@,
                    earlier,
                ),
        decreases last + 1 - position,
    {
        if position > last {
            return None;
        }
        if cluster.contains(&position) {
            proof {
                lemma_position_in_tile(
                    position as int,
                    subset.tile.size.0 as int,
                    subset.tile.size.1 as int,
                );
            }
            let pixel_in_tile = array_position_to_pixel(position, subset.tile.size);
            let pixel = (
                subset.tile.offset_origin.0 + pixel_in_tile.1,
                subset.tile.offset_origin.1 + pixel_in_tile.0,
            );
            let cell = cell_at(pixel);
            proof {
                assert(pixel == position_pixel(*subset, position));
                assert(cell == entry_cell(*subset, *cell_at, position));
            }
            if is_cell(cell) && resolution_of(cell) == subset.h3_resolution {
                let located = locate(cell);
                proof {
                    assert(value_of(*locate, cell) == located);
                }
                match located {
                    Some(center) => {
                        match subset.tile.array_position_of(center) {
                            Some(index_pos) => {
                                if cluster.contains(&index_pos) {
                                    proof {
                                        assert(is_entry(
                                            *subset,
                                            *cell_at,
                                            *locate,
                                            cluster@,
                                            position,
                                        ));
                                    }
                                    return Some(cell);
                                }
                            },
                            None => {},
                        }
                    },
                    None => {},
                }
            }
        }
        if position == last {
            return None;
        }
        position = position + 1;
    }
}

/// Fills a cluster with cells from its entry cell: every cell reached from the entry
/// whose centre lies on a pixel of the cluster is put into the sink, under the
/// attribute vector of that pixel.
fn grow_cells<L: Fn(u64) -> Option<(usize, usize)>>(
    subset: &ConversionSubset,
    cluster: &HashSet<usize>,
    entry: u64,
    locate: &L,
    attributes_by_pos: &HashMap<usize, Attributes>,
    sink: &mut CellSink,
    Ghost(emits): Ghost<spec_fn(u64, AttributeSeq) -> bool>,
    Ghost(done): Ghost<Set<u64>>,
)
    requires
        is_function(*locate),
        old(sink).wf(),
        old(sink).resolution() == subset.h3_resolution,
        valid_cell(entry),
        cell_resolution(entry) == subset.h3_resolution,
        forall|position: usize| #[trigger]
            cluster@.contains(position) ==> attributes_by_pos@.contains_key(position)
                && attributes_by_pos@[position]@ == attributes_at(
                subset.banddata@,
                Some(position as int),
            ),
        is_record(old(sink).keys(), old(sink).logs(), done, emits),
        forall|cell: u64| done.contains(cell) ==> !lies_in(*subset, *locate, cell, cluster@),
        forall|cell: u64, key: AttributeSeq|
            lies_in(*subset, *locate, cell, cluster@) ==> (#[trigger] emits(cell, key) <==> reaches(
                cluster_step(*subset, *locate, cluster@),
                entry,
                cell,
            ) && key == cell_attributes(*subset, *locate, cell)),
    ensures
        final(sink).wf(),
        final(sink).limit() == old(sink).limit(),
        final(sink).resolution() == old(sink).resolution(),
        final(sink).compact() == old(sink).compact(),
        is_record(
            final(sink).keys(),
            final(sink).logs(),
            done.union(settled(*subset, *locate, cluster@)),
            emits,
        ),
{
    let ghost step = cluster_step(*subset, *locate, cluster@);
    let ghost resolution = subset.h3_resolution;
    let mut indexes_to_check: VecDeque<u64> = VecDeque::new();
    let mut indexes_scheduled: HashSet<u64> = HashSet::new();
    let mut indexes_visited: HashSet<u64> = HashSet::new();
    indexes_to_check.push_back(entry);
    indexes_scheduled.insert(entry);
    proof {
        lemma_reaches_itself(step, entry);
        assert(indexes_to_check@[0] == entry);
        assert forall|cell: u64|
            indexes_scheduled@.contains(cell) <==> indexes_to_check@.contains(cell) by {
            if indexes_to_check@.contains(cell) {
                let k = choose|k: int|
                    0 <= k < indexes_to_check@.len() && indexes_to_check@[k] == cell;
                assert(k == 0);
            }
        }
        assert(done.union(inside(*subset, *locate, cluster@, indexes_visited@)) =~= done);
    }
    while indexes_to_check.len() > 0
        invariant
            is_function(*locate),
            resolution == subset.h3_resolution,
            step == cluster_step(*subset, *locate, cluster@),
            sink.wf(),
            sink.limit() == old(sink).limit(),
            sink.resolution() == resolution,
            sink.compact() == old(sink).compact(),
            indexes_visited@.finite(),
            is_frontier(indexes_to_check@, indexes_scheduled@, indexes_visited@),
            all_reached(indexes_visited@, step, entry, resolution as int),
            all_reached(indexes_scheduled@, step, entry, resolution as int),
            closed_up_to(indexes_visited@, indexes_scheduled@, step),
            indexes_visited@.contains(entry) || indexes_scheduled@.contains(entry),
            forall|position: usize| #[trigger]
                cluster@.contains(position) ==> attributes_by_pos@.contains_key(position)
                    && attributes_by_pos@[position]@ == attributes_at(
                    subset.banddata@,
                    Some(position as int),
                ),
            forall|cell: u64| done.contains(cell) ==> !lies_in(*subset, *locate, cell, cluster@),
            forall|cell: u64, key: AttributeSeq|
                lies_in(*subset, *locate, cell, cluster@) ==> (#[trigger] emits(cell, key)
                    <==> reaches(step, entry, cell) && key == cell_attributes(
                    *subset,
                    *locate,
                    cell,
                )),
            is_record(
                sink.keys(),
                sink.logs(),
                done.union(inside(*subset, *locate, cluster@, indexes_visited@)),
                emits,
            ),
        decreases usize::MAX - indexes_visited@.len(),
    {
        let ghost waiting = indexes_to_check@;
        let ghost seen = indexes_visited@;
        let ghost planned = indexes_scheduled@;
        let ghost keys = sink.keys();
        let ghost logs = sink.logs();
        let ghost settled_before = done.union(inside(*subset, *locate, cluster@, seen));
        let visits = indexes_visited.len();
        let this_h3index = indexes_to_check.pop_front().unwrap();
        proof {
            assert(waiting[0] == this_h3index);
            assert(waiting.contains(this_h3index));
            assert(planned.contains(this_h3index));
            assert(!seen.contains(this_h3index));
        }
        indexes_visited.insert(this_h3index);
        indexes_scheduled.remove(&this_h3index);
        proof {
            assert forall|cell: u64|
                indexes_scheduled@.contains(cell) <==> indexes_to_check@.contains(cell) by {
                if indexes_to_check@.contains(cell) {
                    let k = choose|k: int|
                        0 <= k < indexes_to_check@.len() && indexes_to_check@[k] == cell;
                    assert(waiting[k + 1] == cell);
                    assert(waiting[0] != waiting[k + 1]);
                }
                if planned.contains(cell) && cell != this_h3index {
                    let k = choose|k: int| 0 <= k < waiting.len() && waiting[k] == cell;
                    assert(indexes_to_check@[k - 1] == cell);
                }
            }
            assert forall|a: int, b: int|
                0 <= a < indexes_to_check@.len() && 0 <= b < indexes_to_check@.len() && a
                    != b implies indexes_to_check@[a] != indexes_to_check@[b] by {
                assert(waiting[a + 1] != waiting[b + 1]);
            }
            sink.lemma_shape();
        }
        let located = locate(this_h3index);
        proof {
            assert(value_of(*locate, this_h3index) == located);
        }
        let this_index_pos = match located {
            Some(pixel) => subset.tile.array_position_of(pixel),
            None => None,
        };
        let attributes = match this_index_pos {
            Some(position) => if cluster.contains(&position) {
                attributes_by_pos.get(&position)
            } else {
                None
            },
            None => None,
        };
        proof {
            assert(attributes is Some <==> lies_in(*subset, *locate, this_h3index, cluster@));
        }
        match attributes {
            Some(attributes) => {
                proof {
                    assert(attributes@ == cell_attributes(*subset, *locate, this_h3index));
                    assert(emits(this_h3index, attributes@));
                    assert(!settled_before.contains(this_h3index));
                    lemma_record_grows(
                        keys,
                        logs,
                        settled_before,
                        emits,
                        this_h3index,
                        attributes@,
                    );
                    assert(done.union(inside(*subset, *locate, cluster@, indexes_visited@))
                        =~= settled_before.insert(this_h3index));
                }
                sink.emit(attributes, this_h3index);
                let neighbors = grid_disk(this_h3index);
                let ghost trimmed = indexes_scheduled@;
                schedule_neighbors(
                    &neighbors,
                    &indexes_visited,
                    &mut indexes_scheduled,
                    &mut indexes_to_check,
                );
                proof {
                    assert forall|cell: u64| #[trigger]
                        indexes_scheduled@.contains(cell) implies valid_cell(cell)
                        && cell_resolution(cell) == resolution && reaches(step, entry, cell) by {
                        if !trimmed.contains(cell) {
                            let k = choose|k: int|
                                0 <= k < neighbors@.len() && neighbors@[k] == cell;
                            assert(valid_cell(neighbors@[k]));
                            assert(step(this_h3index, cell));
                            lemma_reaches_next(step, entry, this_h3index, cell);
                        } else {
                            assert(planned.contains(cell));
                        }
                    }
                    assert forall|from: u64, to: u64|
                        indexes_visited@.contains(from) && #[trigger] step(
                            from,
                            to,
                        ) implies indexes_visited@.contains(to) || indexes_scheduled@.contains(
                        to,
                    ) by {
                        if from == this_h3index {
                            assert(neighbors@.contains(to));
                        } else {
                            assert(seen.contains(from));
                            assert(seen.contains(to) || planned.contains(to));
                        }
                    }
                }
            },
            None => {
                proof {
                    assert(done.union(inside(*subset, *locate, cluster@, indexes_visited@))
                        =~= settled_before);
                    assert forall|cell: u64| #[trigger]
                        indexes_scheduled@.contains(cell) implies valid_cell(cell)
                        && cell_resolution(cell) == resolution && reaches(step, entry, cell) by {
                        assert(planned.contains(cell));
                    }
                    assert forall|from: u64, to: u64|
                        indexes_visited@.contains(from) && #[trigger] step(
                            from,
                            to,
                        ) implies indexes_visited@.contains(to) || indexes_scheduled@.contains(
                        to,
                    ) by {
                        if from != this_h3index {
                            assert(seen.contains(from));
                            assert(seen.contains(to) || planned.contains(to));
                        }
                    }
                }
            },
        }
        proof {
            assert forall|cell: u64| #[trigger]
                indexes_visited@.contains(cell) implies valid_cell(cell) && cell_resolution(cell)
                == resolution && reaches(step, entry, cell) by {
                if cell != this_h3index {
                    assert(seen.contains(cell));
                }
            }
            assert(indexes_visited@.len() == seen.len() + 1);
            assert(indexes_visited.len() == indexes_visited@.len());
        }
    }
    proof {
        let visited = indexes_visited@;
        assert(indexes_to_check@ =~= Seq::<u64>::empty());
        assert forall|to: u64| !indexes_scheduled@.contains(to) by {
            assert(!indexes_to_check@.contains(to));
        }
        assert forall|cell: u64| reaches(step, entry, cell) implies visited.contains(cell) by {
            lemma_closed_set_holds_reach(step, entry, cell, visited);
        }
        let narrow = done.union(inside(*subset, *locate, cluster@, visited));
        let wide = done.union(settled(*subset, *locate, cluster@));
        lemma_record_widens(sink.keys(), sink.logs(), narrow, wide, emits);
    }
}

/// The visited cells whose centre lies on one of the positions.
pub open spec fn inside<L: Fn(u64) -> Option<(usize, usize)>>(
    subset: ConversionSubset,
    locate: L,
    positions: Set<usize>,
    visited: Set<u64>,
) -> Set<u64> {
    Set::new(|cell: u64| visited.contains(cell) && lies_in(subset, locate, cell, positions))
}

/// The greatest of the positions.
fn last_position(positions: &Vec<usize>) -> (last: usize)
    ensures
        forall|i: int| 0 <= i < positions@.len() ==> (#[trigger] positions@[i]) <= last,
{
    let mut last: usize = 0;
    let mut i: usize = 0;
    while i < positions.len()
        invariant
            i <= positions.len(),
            forall|k: int| 0 <= k < i ==> (#[trigger] positions@[k]) <= last,
        decreases positions.len() - i,
    {
        if positions[i] > last {
            last = positions[i];
        }
        i = i + 1;
    }
    last
}

/// Takes the positions out of the map.
fn retire(attributes_by_pos: &mut HashMap<usize, Attributes>, positions: &Vec<usize>)
    ensures
        forall|position: usize|
            final(attributes_by_pos)@.contains_key(position) <==> old(
                attributes_by_pos,
            )@.contains_key(position) && !positions@.contains(position),
        forall|position: usize| #[trigger]
            final(attributes_by_pos)@.contains_key(position) ==> final(attributes_by_pos)@[position]
                == old(attributes_by_pos)@[position],
{
    let mut i: usize = 0;
    while i < positions.len()
        invariant
            i <= positions.len(),
            forall|position: usize|
                attributes_by_pos@.contains_key(position) <==> old(attributes_by_pos)@.contains_key(
                    position,
                ) && !(exists|k: int| 0 <= k < i && positions@[k] == position),
            forall|position: usize| #[trigger]
                attributes_by_pos@.contains_key(position) ==> attributes_by_pos@[position] == old(
                    attributes_by_pos,
                )@[position],
        decreases positions.len() - i,
    {
        let ghost before = attributes_by_pos@;
        attributes_by_pos.remove(&positions[i]);
        proof {
            assert(attributes_by_pos@ == before.remove(positions@[i as int]));
            assert forall|position: usize|
                attributes_by_pos@.contains_key(position) <==> old(attributes_by_pos)@.contains_key(
                    position,
                ) && !(exists|k: int| 0 <= k < i + 1 && positions@[k] == position) by {
                if exists|k: int| 0 <= k < i + 1 && positions@[k] == position {
                    let k = choose|k: int| 0 <= k < i + 1 && positions@[k] == position;
                    if k < i {
                        assert(!before.contains_key(position));
                    }
                }
            }
        }
        i = i + 1;
    }
}

/// Converts a tile by finding the clusters of its occupied pixels and filling each of
/// them with cells.
///
/// `cell_at` gives the cell that a raster pixel lies in, `locate` the raster pixel
/// under the centre of a cell, or `None` where the centre lies outside the bounds of
/// the tile. A pixel is occupied where its attribute vector is present. The clusters
/// are taken in the order of their first position. Within a cluster the positions are
/// tried in their order until the cell of one is a cell of the resolution whose centre
/// lies on a pixel of the cluster; from that cell the walk goes on to the cells around
/// every cell whose centre lies on a pixel of the cluster, and each such cell is kept
/// under the attribute vector of its pixel. A cluster without such a cell gives nothing.
pub fn convert_subset_by_filtering_and_region_growing<
    C: Fn((usize, usize)) -> u64,
    L: Fn(u64) -> Option<(usize, usize)>,
>(subset: &ConversionSubset, cell_at: &C, locate: &L, compact: bool) -> (outcome: Result<
    GroupedH3Indexes,
    Error,
>)
    requires
        subset.wf(),
        is_function(*cell_at),
        is_function(*locate),
    ensures
        is_filled(outcome, *subset, *cell_at, *locate, compact),
{
    let resolution = subset.h3_resolution;
    if resolution > MAX_RESOLUTION {
        return Err(Error::H3ResolutionOutOfRange);
    }
    let ghost emits = cluster_emits(*subset, *cell_at, *locate);
    let ghost field = occupied(subset.banddata@);
    let ghost width = subset.tile.size.0 as int;
    let ghost height = subset.tile.size.1 as int;
    let mut attributes_by_pos = attributes_by_position(&subset.banddata);
    let mut sink = CellSink::new(resolution, usize::MAX, compact);
    let mut next: usize = 0;
    proof {
        assert(settled(*subset, *locate, field.difference(attributes_by_pos@.dom()))
            =~= Set::<u64>::empty());
    }
    while !attributes_by_pos.is_empty()
        invariant
            subset.wf(),
            is_function(*cell_at),
            is_function(*locate),
            resolution == subset.h3_resolution,
            resolution <= MAX_RESOLUTION,
            emits == cluster_emits(*subset, *cell_at, *locate),
            field == occupied(subset.banddata@),
            width == subset.tile.size.0,
            height == subset.tile.size.1,
            sink.wf(),
            sink.limit() == usize::MAX,
            sink.resolution() == resolution,
            sink.compact() == compact,
            attributes_by_pos@.dom().finite(),
            attributes_by_pos@.dom().subset_of(field),
            forall|position: usize| #[trigger]
                attributes_by_pos@.contains_key(position) ==> attributes_by_pos@[position]@
                    == attributes_at(subset.banddata@, Some(position as int)),
            forall|from: usize, to: usize|
                attributes_by_pos@.contains_key(from) && #[trigger] region(
                    field,
                    from,
                    width,
                    height,
                ).contains(to) ==> attributes_by_pos@.contains_key(to),
            forall|position: usize| position < next ==> !attributes_by_pos@.contains_key(position),
            is_record(
                sink.keys(),
                sink.logs(),
                settled(*subset, *locate, field.difference(attributes_by_pos@.dom())),
                emits,
            ),
        decreases attributes_by_pos@.dom().len(),
    {
        let ghost remaining = attributes_by_pos@.dom();
        let ghost retired = field.difference(remaining);
        let ghost done = settled(*subset, *locate, retired);
        proof {
            let some = remaining.choose();
            assert(remaining.contains(some));
            lemma_occupied_in_tile(*subset, some);
        }
        while !attributes_by_pos.contains_key(&next)
            invariant
                subset.wf(),
                field == occupied(subset.banddata@),
                attributes_by_pos@.dom() == remaining,
                remaining.subset_of(field),
                remaining.len() > 0,
                remaining.finite(),
                forall|position: usize|
                    position < next ==> !attributes_by_pos@.contains_key(position),
            decreases subset.tile.size.0 * subset.tile.size.1 - next,
        {
            proof {
                let some = remaining.choose();
                assert(remaining.contains(some));
                lemma_occupied_in_tile(*subset, some);
                assert(some > next);
            }
            next = next + 1;
        }
        let seed = next;
        proof {
            lemma_occupied_in_tile(*subset, seed);
            lemma_region_of_remaining(field, remaining, seed, width, height);
        }
        let found = grow_region_members(&attributes_by_pos, seed, subset.tile.size);
        let members = found.0;
        let cluster = found.1;
        let ghost group = cluster@;
        proof {
            assert(group == region(field, seed, width, height));
            lemma_seed_connected(field, seed, width, height);
            assert(group.contains(seed));
            assert forall|position: usize| #[trigger] group.contains(position) implies remaining.contains(
                position,
            ) && seed <= position && position < subset.tile.size.0 * subset.tile.size.1 by {
                assert(region(field, seed, width, height).contains(position));
                lemma_occupied_in_tile(*subset, position);
            }
        }
        let last = last_position(&members);
        proof {
            assert forall|position: usize| #[trigger] group.contains(position) implies position
                <= last by {
                assert(members@.contains(position));
                let i = choose|i: int| 0 <= i < members@.len() && members@[i] == position;
                assert(members@[i] <= last);
            }
            assert forall|cell: u64| done.contains(cell) implies !lies_in(
                *subset,
                *locate,
                cell,
                group,
            ) by {}
        }
        match find_entry(subset, &cluster, seed, last, cell_at, locate) {
            Some(entry) => {
                proof {
                    let position = choose|position: usize|
                        is_entry(*subset, *cell_at, *locate, group, position) && entry
                            == entry_cell(*subset, *cell_at, position);
                    assert forall|cell: u64, key: AttributeSeq|
                        lies_in(*subset, *locate, cell, group) implies (#[trigger] emits(cell, key)
                        <==> reaches(cluster_step(*subset, *locate, group), entry, cell) && key
                        == cell_attributes(*subset, *locate, cell)) by {
                        if emits(cell, key) {
                            let (other_seed, other_position) = choose|
                                other_seed: usize,
                                other_position: usize,
                            | #[trigger]
                                emits_from(
                                    *subset,
                                    *cell_at,
                                    *locate,
                                    other_seed,
                                    other_position,
                                    cell,
                                    key,
                                );
                            let at = subset.tile.position_of(value_of(*locate, cell)->0)->0 as usize;
                            lemma_clusters_meet(*subset, seed, other_seed, at);
                            if other_position < position {
                                assert(!accepts(*subset, *cell_at, *locate, group, other_position));
                            }
                            if position < other_position {
                                assert(!accepts(*subset, *cell_at, *locate, group, position));
                            }
                        }
                        if reaches(cluster_step(*subset, *locate, group), entry, cell) && key
                            == cell_attributes(*subset, *locate, cell) {
                            assert(emits_from(
                                *subset,
                                *cell_at,
                                *locate,
                                seed,
                                position,
                                cell,
                                key,
                            ));
                        }
                    }
                }
                grow_cells(
                    subset,
                    &cluster,
                    entry,
                    locate,
                    &attributes_by_pos,
                    &mut sink,
                    Ghost(emits),
                    Ghost(done),
                );
            },
            None => {
                proof {
                    assert forall|cell: u64, key: AttributeSeq|
                        lies_in(*subset, *locate, cell, group) implies !#[trigger] emits(
                        cell,
                        key,
                    ) by {
                        if emits(cell, key) {
                            let (other_seed, other_position) = choose|
                                other_seed: usize,
                                other_position: usize,
                            | #[trigger]
                                emits_from(
                                    *subset,
                                    *cell_at,
                                    *locate,
                                    other_seed,
                                    other_position,
                                    cell,
                                    key,
                                );
                            let at = subset.tile.position_of(value_of(*locate, cell)->0)->0 as usize;
                            lemma_clusters_meet(*subset, seed, other_seed, at);
                            assert(accepts(*subset, *cell_at, *locate, group, other_position));
                        }
                    }
                    lemma_record_widens(
                        sink.keys(),
                        sink.logs(),
                        done,
                        done.union(settled(*subset, *locate, group)),
                        emits,
                    );
                }
            },
        }
        retire(&mut attributes_by_pos, &members);
        proof {
            let left = attributes_by_pos@.dom();
            assert forall|position: usize| left.contains(position) <==> remaining.contains(position)
                && !group.contains(position) by {
                assert(left.contains(position) == attributes_by_pos@.contains_key(position));
                assert(members@.contains(position) <==> group.contains(position));
            }
            assert(left.subset_of(remaining));
            vstd::set_lib::lemma_len_subset(left, remaining);
            assert(left.len() < remaining.len()) by {
                assert(left.subset_of(remaining.remove(seed)));
                vstd::set_lib::lemma_len_subset(left, remaining.remove(seed));
            }
            assert forall|from: usize, to: usize|
                left.contains(from) && #[trigger] region(field, from, width, height).contains(
                    to,
                ) implies left.contains(to) by {
                assert(remaining.contains(to));
                if group.contains(to) {
                    lemma_seed_connected(field, from, width, height);
                    lemma_clusters_meet(*subset, seed, from, to);
                }
            }
            assert(settled(*subset, *locate, field.difference(left)) =~= done.union(
                settled(*subset, *locate, group),
            ));
        }
    }
    let ghost keys = sink.keys();
    let ghost logs = sink.logs();
    proof {
        sink.lemma_shape();
    }
    let grouped = sink.finish();
    proof {
        let done = settled(*subset, *locate, field.difference(attributes_by_pos@.dom()));
        assert forall|cell: u64, key: AttributeSeq| #[trigger] emits(cell, key) implies done.contains(
            cell,
        ) by {
            let (seed, position) = choose|seed: usize, position: usize| #[trigger]
                emits_from(*subset, *cell_at, *locate, seed, position, cell, key);
            let at = subset.tile.position_of(value_of(*locate, cell)->0)->0 as usize;
            assert(region(field, seed, width, height).contains(at));
            lemma_region_is_subset(field, seed, at, width, height);
            assert(!attributes_by_pos@.dom().contains(at));
        }
        lemma_record_complete(
            grouped@,
            keys,
            logs,
            done,
            emits,
            usize::MAX as int,
            resolution as int,
            compact,
        );
    }
    Ok(grouped)
}

/// A cluster holds occupied positions only.
proof fn lemma_region_is_subset(
    field: Set<usize>,
    seed: usize,
    position: usize,
    width: int,
    height: int,
)
    requires
        region(field, seed, width, height).contains(position),
    ensures
        field.contains(position),
{
    let path = choose|path: Seq<usize>| joins(path, field, seed, position, width, height);
    assert(field.contains(path[path.len() - 1]));
}

} // verus!
