//! Region growing over the occupied pixels of a tile: the pixels that can be reached
//! from a seed by steps between neighbouring occupied pixels, diagonals included.

use crate::tile::{array_position, array_position_to_pixel, position_column, position_row};
use std::collections::{HashMap, HashSet};
use vstd::arithmetic::div_mod::{lemma_fundamental_div_mod, lemma_fundamental_div_mod_converse};
use vstd::prelude::*;
use vstd::set_lib::lemma_len_subset;

verus! {

broadcast use vstd::std_specs::hash::group_hash_axioms;

/// The position lies on one of the rows of a tile of the given size.
pub open spec fn in_tile(position: int, width: int, height: int) -> bool {
    0 <= position && position_row(position, width) < height
}

/// A step of the region grower: `to` lies within the tile, and neither its row nor its
/// column differs by more than one from that of `from`.
pub open spec fn adjacent(from: int, to: int, width: int, height: int) -> bool {
    &&& in_tile(to, width, height)
    &&& -1 <= position_row(to, width) - position_row(from, width) <= 1
    &&& -1 <= position_column(to, width) - position_column(from, width) <= 1
}

/// A non-empty walk over occupied positions in which every step is `adjacent`.
pub open spec fn is_path(path: Seq<usize>, occupied: Set<usize>, width: int, height: int) -> bool {
    &&& path.len() > 0
    &&& forall|i: int| 0 <= i < path.len() ==> occupied.contains(#[trigger] path[i])
    &&& forall|i: int|
        0 <= i < path.len() - 1 ==> adjacent(
            #[trigger] path[i] as int,
            path[i + 1] as int,
            width,
            height,
        )
}

/// `path` is a walk over occupied positions from `seed` to `position`.
pub open spec fn joins(
    path: Seq<usize>,
    occupied: Set<usize>,
    seed: usize,
    position: usize,
    width: int,
    height: int,
) -> bool {
    &&& is_path(path, occupied, width, height)
    &&& path[0] == seed
    &&& path[path.len() - 1] == position
}

/// `position` can be reached from `seed` by a walk over occupied positions.
pub open spec fn connected(
    occupied: Set<usize>,
    seed: usize,
    position: usize,
    width: int,
    height: int,
) -> bool {
    exists|path: Seq<usize>| joins(path, occupied, seed, position, width, height)
}

/// The cluster of `seed`: every position connected to it. It is empty when the seed
/// itself is not occupied.
pub open spec fn region(occupied: Set<usize>, seed: usize, width: int, height: int) -> Set<usize> {
    Set::new(|position: usize| connected(occupied, seed, position, width, height))
}

/// Every occupied neighbour of a member of `cluster` is a member of `cluster` or waits
/// in `pending`.
pub open spec fn closed_up_to(
    cluster: Set<usize>,
    pending: Seq<usize>,
    occupied: Set<usize>,
    width: int,
    height: int,
) -> bool {
    forall|from: usize, to: usize|
        cluster.contains(from) && occupied.contains(to) && #[trigger] adjacent(
            from as int,
            to as int,
            width,
            height,
        ) ==> cluster.contains(to) || pending.contains(to)
}

/// An occupied seed is connected to itself.
pub proof fn lemma_seed_connected(occupied: Set<usize>, seed: usize, width: int, height: int)
    requires
        occupied.contains(seed),
    ensures
        connected(occupied, seed, seed, width, height),
{
    let path = seq![seed];
    assert(joins(path, occupied, seed, seed, width, height));
}

/// A walk can be extended by one step to an occupied neighbour of its end.
pub proof fn lemma_connected_step(
    occupied: Set<usize>,
    seed: usize,
    from: usize,
    to: usize,
    width: int,
    height: int,
)
    requires
        connected(occupied, seed, from, width, height),
        occupied.contains(to),
        adjacent(from as int, to as int, width, height),
    ensures
        connected(occupied, seed, to, width, height),
{
    let path = choose|path: Seq<usize>| joins(path, occupied, seed, from, width, height);
    let longer = path.push(to);
    assert forall|i: int| 0 <= i < longer.len() implies occupied.contains(
        #[trigger] longer[i],
    ) by {
        if i < path.len() {
            assert(longer[i] == path[i]);
        }
    }
    assert forall|i: int| 0 <= i < longer.len() - 1 implies adjacent(
        #[trigger] longer[i] as int,
        longer[i + 1] as int,
        width,
        height,
    ) by {
        if i < path.len() - 1 {
            assert(longer[i] == path[i]);
            assert(longer[i + 1] == path[i + 1]);
        }
    }
    assert(joins(longer, occupied, seed, to, width, height));
}

/// A set that holds the start of a walk and is closed under steps to occupied
/// neighbours holds every position of the walk.
proof fn lemma_closed_holds_walk(
    cluster: Set<usize>,
    occupied: Set<usize>,
    path: Seq<usize>,
    width: int,
    height: int,
    i: int,
)
    requires
        is_path(path, occupied, width, height),
        cluster.contains(path[0]),
        closed_up_to(cluster, Seq::empty(), occupied, width, height),
        0 <= i < path.len(),
    ensures
        cluster.contains(path[i]),
    decreases i,
{
    if i > 0 {
        lemma_closed_holds_walk(cluster, occupied, path, width, height, i - 1);
        assert(adjacent(path[i - 1] as int, path[i - 1 + 1] as int, width, height));
        assert(occupied.contains(path[i]));
    }
}

/// Two walks that meet can be joined into one.
pub proof fn lemma_connected_transitive(
    occupied: Set<usize>,
    a: usize,
    b: usize,
    c: usize,
    width: int,
    height: int,
)
    requires
        connected(occupied, a, b, width, height),
        connected(occupied, b, c, width, height),
    ensures
        connected(occupied, a, c, width, height),
{
    let first = choose|path: Seq<usize>| joins(path, occupied, a, b, width, height);
    let second = choose|path: Seq<usize>| joins(path, occupied, b, c, width, height);
    let tail = second.subrange(1, second.len() as int);
    let whole = first + tail;
    assert forall|i: int| 0 <= i < whole.len() implies occupied.contains(#[trigger] whole[i]) by {
        if i < first.len() {
            assert(whole[i] == first[i]);
        } else {
            assert(whole[i] == second[i - first.len() + 1]);
        }
    }
    assert forall|i: int| 0 <= i < whole.len() - 1 implies adjacent(
        #[trigger] whole[i] as int,
        whole[i + 1] as int,
        width,
        height,
    ) by {
        if i < first.len() - 1 {
            assert(whole[i] == first[i]);
            assert(whole[i + 1] == first[i + 1]);
        } else if i == first.len() - 1 {
            assert(whole[i] == second[0]);
            assert(whole[i + 1] == second[1]);
            assert(adjacent(second[0] as int, second[0 + 1int] as int, width, height));
        } else {
            let j = i - first.len() + 1;
            assert(whole[i] == second[j]);
            assert(whole[i + 1] == second[j + 1]);
        }
    }
    if tail.len() == 0 {
        assert(whole[whole.len() - 1] == first[first.len() - 1]);
    } else {
        assert(whole[whole.len() - 1] == second[second.len() - 1]);
    }
    assert(joins(whole, occupied, a, c, width, height));
}

/// Where every occupied position lies within the tile, a walk can be walked backwards.
pub proof fn lemma_connected_symmetric(
    occupied: Set<usize>,
    a: usize,
    b: usize,
    width: int,
    height: int,
)
    requires
        forall|position: usize|
            occupied.contains(position) ==> in_tile(position as int, width, height),
        connected(occupied, a, b, width, height),
    ensures
        connected(occupied, b, a, width, height),
{
    let path = choose|path: Seq<usize>| joins(path, occupied, a, b, width, height);
    let back = path.reverse();
    assert forall|i: int| 0 <= i < back.len() implies occupied.contains(#[trigger] back[i]) by {
        assert(back[i] == path[path.len() - 1 - i]);
    }
    assert forall|i: int| 0 <= i < back.len() - 1 implies adjacent(
        #[trigger] back[i] as int,
        back[i + 1] as int,
        width,
        height,
    ) by {
        let j = path.len() - 2 - i;
        assert(back[i] == path[j + 1]);
        assert(back[i + 1] == path[j]);
        assert(adjacent(path[j] as int, path[j + 1] as int, width, height));
        assert(occupied.contains(path[j]));
    }
    assert(joins(back, occupied, b, a, width, height));
}

/// The cluster of a seed is the connected component of the seed among the occupied
/// positions: it holds occupied positions only, it holds the seed where the seed is
/// occupied, and, where every occupied position lies within the tile, growing from any
/// of its members gives the same cluster.
pub proof fn lemma_region_is_component(
    occupied: Set<usize>,
    seed: usize,
    member: usize,
    width: int,
    height: int,
)
    requires
        forall|position: usize|
            occupied.contains(position) ==> in_tile(position as int, width, height),
        region(occupied, seed, width, height).contains(member),
    ensures
        region(occupied, seed, width, height).subset_of(occupied),
        region(occupied, seed, width, height).contains(seed),
        region(occupied, member, width, height) == region(occupied, seed, width, height),
{
    let cluster = region(occupied, seed, width, height);
    let other = region(occupied, member, width, height);
    assert forall|position: usize| cluster.contains(position) implies occupied.contains(
        position,
    ) by {
        let path = choose|path: Seq<usize>| joins(path, occupied, seed, position, width, height);
        assert(occupied.contains(path[path.len() - 1]));
    }
    let to_member = choose|path: Seq<usize>| joins(path, occupied, seed, member, width, height);
    assert(occupied.contains(to_member[0]));
    lemma_seed_connected(occupied, seed, width, height);
    lemma_connected_symmetric(occupied, seed, member, width, height);
    assert forall|position: usize| cluster.contains(position) <==> other.contains(position) by {
        if cluster.contains(position) {
            lemma_connected_transitive(occupied, member, seed, position, width, height);
        }
        if other.contains(position) {
            lemma_connected_transitive(occupied, seed, member, position, width, height);
        }
    }
    assert(other =~= cluster);
}

/// The grower never leaves the tile: every position of a cluster but the seed itself
/// lies on one of the rows of the tile.
pub proof fn lemma_region_within_tile(
    occupied: Set<usize>,
    seed: usize,
    position: usize,
    width: int,
    height: int,
)
    requires
        region(occupied, seed, width, height).contains(position),
    ensures
        position == seed || in_tile(position as int, width, height),
{
    let path = choose|path: Seq<usize>| joins(path, occupied, seed, position, width, height);
    if path.len() > 1 {
        let i = path.len() - 2;
        assert(adjacent(path[i] as int, path[i + 1] as int, width, height));
    }
}

/// A seed that is not occupied has an empty cluster.
pub proof fn lemma_region_of_free_seed(occupied: Set<usize>, seed: usize, width: int, height: int)
    requires
        !occupied.contains(seed),
    ensures
        region(occupied, seed, width, height) == Set::<usize>::empty(),
{
    assert forall|position: usize| !region(occupied, seed, width, height).contains(position) by {
        if connected(occupied, seed, position, width, height) {
            let path = choose|path: Seq<usize>|
                joins(path, occupied, seed, position, width, height);
            assert(occupied.contains(path[0]));
        }
    }
    assert(region(occupied, seed, width, height) =~= Set::<usize>::empty());
}

/// Every position of a walk from the seed is connected to the seed.
pub proof fn lemma_walk_stays_connected(
    occupied: Set<usize>,
    path: Seq<usize>,
    width: int,
    height: int,
    i: int,
)
    requires
        is_path(path, occupied, width, height),
        0 <= i < path.len(),
    ensures
        connected(occupied, path[0], path[i], width, height),
    decreases i,
{
    if i == 0 {
        assert(occupied.contains(path[0]));
        lemma_seed_connected(occupied, path[0], width, height);
    } else {
        lemma_walk_stays_connected(occupied, path, width, height, i - 1);
        assert(adjacent(path[i - 1] as int, path[i - 1 + 1] as int, width, height));
        assert(occupied.contains(path[i]));
        lemma_connected_step(occupied, path[0], path[i - 1], path[i], width, height);
    }
}

/// Growing is idempotent: the cluster grown from the seed within a cluster is that
/// cluster again.
pub proof fn lemma_region_idempotent(occupied: Set<usize>, seed: usize, width: int, height: int)
    ensures
        region(region(occupied, seed, width, height), seed, width, height) == region(
            occupied,
            seed,
            width,
            height,
        ),
{
    let cluster = region(occupied, seed, width, height);
    let again = region(cluster, seed, width, height);
    assert forall|position: usize| again.contains(position) implies cluster.contains(position) by {
        let path = choose|path: Seq<usize>| joins(path, cluster, seed, position, width, height);
        assert(cluster.contains(path[path.len() - 1]));
    }
    assert forall|position: usize| cluster.contains(position) implies again.contains(position) by {
        let path = choose|path: Seq<usize>| joins(path, occupied, seed, position, width, height);
        assert forall|i: int| 0 <= i < path.len() implies cluster.contains(#[trigger] path[i]) by {
            lemma_walk_stays_connected(occupied, path, width, height, i);
        }
        assert(joins(path, cluster, seed, position, width, height));
    }
    assert(again =~= cluster);
}

/// `base + offset - 1`, where that is a `usize`.
fn shifted(base: usize, offset: usize) -> (moved: Option<usize>)
    requires
        offset <= 2,
    ensures
        match moved {
            Some(value) => value == base + offset - 1,
            None => base + offset - 1 < 0 || base + offset - 1 > usize::MAX,
        },
{
    if offset == 0 {
        base.checked_sub(1)
    } else {
        base.checked_add(offset - 1)
    }
}

/// The array position of `(column, row)`, where the pixel lies in the tile and the
/// position is a `usize`.
fn position_in_tile(row: Option<usize>, column: Option<usize>, tile_size: (usize, usize)) -> (found:
    Option<usize>)
    ensures
        match found {
            Some(position) => row is Some && column is Some && row->0 < tile_size.1 && column->0
                < tile_size.0 && position == array_position(
                column->0 as int,
                row->0 as int,
                tile_size.0 as int,
            ),
            None => row is None || column is None || row->0 >= tile_size.1 || column->0
                >= tile_size.0 || array_position(
                column->0 as int,
                row->0 as int,
                tile_size.0 as int,
            ) > usize::MAX,
        },
{
    match (row, column) {
        (Some(row), Some(column)) => {
            if row < tile_size.1 && column < tile_size.0 {
                match row.checked_mul(tile_size.0) {
                    Some(start) => start.checked_add(column),
                    None => None,
                }
            } else {
                None
            }
        },
        _ => None,
    }
}

/// The in-tile positions around `position`, itself included where it lies in the tile:
/// exactly the positions that are `adjacent` to it.
pub fn in_tile_neighbors(position: usize, tile_size: (usize, usize)) -> (neighbors: Vec<usize>)
    requires
        tile_size.0 > 0,
    ensures
        forall|to: usize|
            neighbors@.contains(to) <==> adjacent(
                position as int,
                to as int,
                tile_size.0 as int,
                tile_size.1 as int,
            ),
{
    let pixel = array_position_to_pixel(position, tile_size);
    let row = pixel.0;
    let column = pixel.1;
    let ghost width = tile_size.0 as int;
    let ghost height = tile_size.1 as int;
    let mut neighbors: Vec<usize> = Vec::new();
    let mut step: usize = 0;
    while step < 9
        invariant
            step <= 9,
            tile_size.0 > 0,
            width == tile_size.0,
            height == tile_size.1,
            row == position_row(position as int, width),
            column == position_column(position as int, width),
            forall|to: usize|
                neighbors@.contains(to) ==> adjacent(position as int, to as int, width, height),
            forall|to: usize|
                adjacent(position as int, to as int, width, height) && 3 * (position_row(
                    to as int,
                    width,
                ) - row + 1) + (position_column(to as int, width) - column + 1) < step
                    ==> neighbors@.contains(to),
        decreases 9 - step,
    {
        let down = step / 3;
        let right = step % 3;
        let ghost before = neighbors@;
        let found = position_in_tile(shifted(row, down), shifted(column, right), tile_size);
        proof {
            assert forall|to: usize|
                adjacent(position as int, to as int, width, height) && 3 * (position_row(
                    to as int,
                    width,
                ) - row + 1) + (position_column(to as int, width) - column + 1)
                    == step implies found == Some(to) by {
                let to_row = position_row(to as int, width);
                let to_column = position_column(to as int, width);
                assert(to_row - row + 1 == down && to_column - column + 1 == right);
                lemma_fundamental_div_mod(to as int, width);
                assert(width * to_row == to_row * width) by (nonlinear_arith);
                assert(to as int == array_position(to_column, to_row, width));
                assert(0 <= to_row <= to as int) by (nonlinear_arith)
                    requires
                        to as int == to_row * width + to_column,
                        0 <= to_column < width,
                        to as int >= 0,
                ;
            }
            if let Some(to) = found {
                lemma_fundamental_div_mod_converse(
                    to as int,
                    width,
                    row + down - 1,
                    column + right - 1,
                );
                assert(adjacent(position as int, to as int, width, height));
            }
        }
        match found {
            Some(to) => {
                neighbors.push(to);
                proof {
                    assert(neighbors@[neighbors@.len() - 1] == to);
                    assert forall|other: usize| before.contains(other) implies neighbors@.contains(
                        other,
                    ) by {
                        let k = choose|k: int| 0 <= k < before.len() && before[k] == other;
                        assert(neighbors@[k] == other);
                    }
                    assert forall|other: usize| neighbors@.contains(other) implies before.contains(
                        other,
                    ) || other == to by {
                        let k = choose|k: int| 0 <= k < neighbors@.len() && neighbors@[k] == other;
                        if k < before.len() {
                            assert(before[k] == other);
                        }
                    }
                }
            },
            None => {},
        }
        proof {
            assert forall|to: usize| neighbors@.contains(to) implies adjacent(
                position as int,
                to as int,
                width,
                height,
            ) by {
                if !before.contains(to) {
                    assert(found == Some(to));
                }
            }
            assert forall|to: usize|
                adjacent(position as int, to as int, width, height) && 3 * (position_row(
                    to as int,
                    width,
                ) - row + 1) + (position_column(to as int, width) - column + 1) < step
                    + 1 implies neighbors@.contains(to) by {
                if 3 * (position_row(to as int, width) - row + 1) + (position_column(
                    to as int,
                    width,
                ) - column + 1) == step {
                    assert(found == Some(to));
                } else {
                    assert(before.contains(to));
                }
            }
        }
        step = step + 1;
    }
    neighbors
}

/// The cluster of occupied positions around `start_index`: every key of
/// `index_hashmap` that a walk over keys joins to `start_index`, where each step leads
/// to one of the up to eight neighbours within the tile.
pub fn grow_region_starting_with_index<T>(
    index_hashmap: &HashMap<usize, T>,
    start_index: usize,
    tile_size: (usize, usize),
) -> (cluster: HashSet<usize>)
    requires
        tile_size.0 > 0,
    ensures
        cluster@ == region(
            index_hashmap@.dom(),
            start_index,
            tile_size.0 as int,
            tile_size.1 as int,
        ),
{
    grow_region_members(index_hashmap, start_index, tile_size).1
}

/// The cluster of occupied positions around `start_index`, as a list of its positions
/// in the order in which they were found, and as a set.
pub fn grow_region_members<T>(
    index_hashmap: &HashMap<usize, T>,
    start_index: usize,
    tile_size: (usize, usize),
) -> (found: (Vec<usize>, HashSet<usize>))
    requires
        tile_size.0 > 0,
    ensures
        found.1@ == region(
            index_hashmap@.dom(),
            start_index,
            tile_size.0 as int,
            tile_size.1 as int,
        ),
        found.0@.no_duplicates(),
        forall|position: usize| found.0@.contains(position) <==> found.1@.contains(position),
{
    let ghost occupied = index_hashmap@.dom();
    let ghost width = tile_size.0 as int;
    let ghost height = tile_size.1 as int;
    let mut indexes_of_cluster: HashSet<usize> = HashSet::new();
    let mut positions: Vec<usize> = Vec::new();
    let mut indexes_to_check: Vec<usize> = Vec::new();
    indexes_to_check.push(start_index);
    proof {
        assert(indexes_to_check@[0] == start_index);
        if occupied.contains(start_index) {
            lemma_seed_connected(occupied, start_index, width, height);
        }
    }
    while indexes_to_check.len() > 0
        invariant
            tile_size.0 > 0,
            width == tile_size.0,
            height == tile_size.1,
            occupied == index_hashmap@.dom(),
            occupied.finite(),
            positions@.no_duplicates(),
            forall|position: usize|
                positions@.contains(position) <==> indexes_of_cluster@.contains(position),
            indexes_of_cluster@.subset_of(occupied),
            forall|position: usize|
                indexes_of_cluster@.contains(position) ==> connected(
                    occupied,
                    start_index,
                    position,
                    width,
                    height,
                ),
            forall|k: int|
                0 <= k < indexes_to_check@.len() && occupied.contains(
                    #[trigger] indexes_to_check@[k],
                ) ==> connected(occupied, start_index, indexes_to_check@[k], width, height),
            closed_up_to(indexes_of_cluster@, indexes_to_check@, occupied, width, height),
            occupied.contains(start_index) ==> indexes_of_cluster@.contains(start_index)
                || indexes_to_check@.contains(start_index),
        decreases occupied.len() - indexes_of_cluster@.len(), indexes_to_check@.len(),
    {
        let ghost pending = indexes_to_check@;
        let ghost members = indexes_of_cluster@;
        proof {
            lemma_len_subset(members, occupied);
        }
        let next_index = indexes_to_check.pop().unwrap();
        proof {
            assert forall|other: usize| pending.contains(other) && other != next_index implies (
            #[trigger] indexes_to_check@.contains(other)) by {
                let k = choose|k: int| 0 <= k < pending.len() && pending[k] == other;
                assert(indexes_to_check@[k] == other);
            }
            assert(pending[pending.len() - 1] == next_index);
        }
        if index_hashmap.contains_key(&next_index) && !indexes_of_cluster.contains(&next_index) {
            indexes_of_cluster.insert(next_index);
            let ghost listed = positions@;
            positions.push(next_index);
            proof {
                assert(positions@[listed.len() as int] == next_index);
                assert forall|position: usize|
                    positions@.contains(position) <==> indexes_of_cluster@.contains(position) by {
                    if listed.contains(position) {
                        let i = choose|i: int| 0 <= i < listed.len() && listed[i] == position;
                        assert(positions@[i] == position);
                    }
                    if positions@.contains(position) && position != next_index {
                        let i = choose|i: int| 0 <= i < positions@.len() && positions@[i] == position;
                        assert(listed[i] == position);
                    }
                }
                assert forall|a: int, b: int|
                    0 <= a < positions@.len() && 0 <= b < positions@.len() && a != b implies positions@[a]
                    != positions@[b] by {
                    if a < listed.len() && b < listed.len() {
                        assert(listed[a] != listed[b]);
                    } else if a < listed.len() {
                        assert(listed.contains(listed[a]));
                    } else if b < listed.len() {
                        assert(listed.contains(listed[b]));
                    }
                }
            }
            let neighbors = in_tile_neighbors(next_index, tile_size);
            let ghost grown = indexes_of_cluster@;
            let ghost rest = indexes_to_check@;
            proof {
                lemma_len_subset(grown, occupied);
            }
            let mut k: usize = 0;
            while k < neighbors.len()
                invariant
                    k <= neighbors.len(),
                    positions@.no_duplicates(),
                    forall|position: usize|
                        positions@.contains(position) <==> indexes_of_cluster@.contains(position),
                    grown == indexes_of_cluster@,
                    grown.contains(next_index),
                    connected(occupied, start_index, next_index, width, height),
                    forall|to: usize|
                        neighbors@.contains(to) <==> adjacent(
                            next_index as int,
                            to as int,
                            width,
                            height,
                        ),
                    forall|other: usize|
                        rest.contains(other) ==> #[trigger] indexes_to_check@.contains(other),
                    forall|i: int|
                        0 <= i < indexes_to_check@.len() && occupied.contains(
                            #[trigger] indexes_to_check@[i],
                        ) ==> connected(
                            occupied,
                            start_index,
                            indexes_to_check@[i],
                            width,
                            height,
                        ),
                    forall|i: int|
                        0 <= i < k ==> grown.contains(#[trigger] neighbors@[i])
                            || indexes_to_check@.contains(neighbors@[i]),
                decreases neighbors.len() - k,
            {
                let map_key = neighbors[k];
                let ghost stacked = indexes_to_check@;
                if !indexes_of_cluster.contains(&map_key) {
                    indexes_to_check.push(map_key);
                    proof {
                        assert(indexes_to_check@[stacked.len() as int] == map_key);
                        assert forall|other: usize| stacked.contains(other) implies (
                        #[trigger] indexes_to_check@.contains(other)) by {
                            let i = choose|i: int| 0 <= i < stacked.len() && stacked[i] == other;
                            assert(indexes_to_check@[i] == other);
                        }
                        assert(neighbors@.contains(map_key));
                        if occupied.contains(map_key) {
                            lemma_connected_step(
                                occupied,
                                start_index,
                                next_index,
                                map_key,
                                width,
                                height,
                            );
                        }
                    }
                }
                k = k + 1;
            }
            proof {
                assert forall|from: usize, to: usize|
                    grown.contains(from) && occupied.contains(to) && #[trigger] adjacent(
                        from as int,
                        to as int,
                        width,
                        height,
                    ) implies grown.contains(to) || indexes_to_check@.contains(to) by {
                    if from == next_index {
                        assert(neighbors@.contains(to));
                        let i = choose|i: int| 0 <= i < neighbors@.len() && neighbors@[i] == to;
                        assert(grown.contains(neighbors@[i]) || indexes_to_check@.contains(
                            neighbors@[i],
                        ));
                    } else {
                        assert(members.contains(from));
                        if !members.contains(to) {
                            assert(pending.contains(to));
                            if to != next_index {
                                assert(rest.contains(to));
                            }
                        }
                    }
                }
                if occupied.contains(start_index) && !grown.contains(start_index) {
                    assert(pending.contains(start_index));
                    assert(rest.contains(start_index));
                }
            }
        } else {
            proof {
                assert forall|from: usize, to: usize|
                    members.contains(from) && occupied.contains(to) && #[trigger] adjacent(
                        from as int,
                        to as int,
                        width,
                        height,
                    ) implies members.contains(to) || indexes_to_check@.contains(to) by {
                    if !members.contains(to) {
                        assert(pending.contains(to));
                    }
                }
                if occupied.contains(start_index) && !members.contains(start_index) {
                    assert(pending.contains(start_index));
                }
            }
        }
    }
    proof {
        let grown = indexes_of_cluster@;
        let target = region(occupied, start_index, width, height);
        assert(indexes_to_check@ =~= Seq::<usize>::empty());
        assert forall|position: usize| target.contains(position) implies grown.contains(
            position,
        ) by {
            let path = choose|path: Seq<usize>|
                joins(path, occupied, start_index, position, width, height);
            assert(occupied.contains(path[0]));
            assert(!indexes_to_check@.contains(start_index));
            lemma_closed_holds_walk(grown, occupied, path, width, height, path.len() - 1);
        }
        assert(grown =~= target);
    }
    (positions, indexes_of_cluster)
}

} // verus!
