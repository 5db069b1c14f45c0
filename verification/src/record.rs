//! The bookkeeping of a conversion: which cells were emitted under which attribute
//! vector, and what that says of the grouping that comes out.

use crate::grouped::GroupedCells;
use crate::sink::{holds_key, key_index, keys_with, logs_with, stacked_log};
use crate::value::AttributeSeq;
use vstd::prelude::*;

verus! {

/// `log` lists the cells emitted under `key`, each once.
pub open spec fn is_log_of(
    log: Seq<u64>,
    emits: spec_fn(u64, AttributeSeq) -> bool,
    key: AttributeSeq,
) -> bool {
    &&& log.no_duplicates()
    &&& forall|cell: u64| #[trigger] log.contains(cell) <==> emits(cell, key)
}

/// The grouping holds what was emitted: its keys are the attribute vectors under which
/// a cell was emitted, and under each key stands what a log of the cells emitted under
/// it ends up as when it is stacked in runs of `limit + 1` cells.
pub open spec fn holds_emitted(
    groups: GroupedCells,
    emits: spec_fn(u64, AttributeSeq) -> bool,
    limit: int,
    resolution: int,
    compact: bool,
) -> bool {
    &&& forall|key: AttributeSeq| #[trigger]
        groups.contains_key(key) <==> exists|cell: u64| #[trigger] emits(cell, key)
    &&& forall|key: AttributeSeq| #[trigger]
        groups.contains_key(key) ==> exists|log: Seq<u64>|
            is_log_of(log, emits, key) && groups[key] == stacked_log(
                log,
                limit,
                resolution,
                compact,
            )
}

/// The logs record what the cells of `done` emit: every cell of a log is one of them
/// and is emitted under the key of the log, every one of them that is emitted under a
/// key stands in the log of that key, and no cell stands twice in a log.
pub open spec fn is_record(
    keys: Seq<AttributeSeq>,
    logs: Seq<Seq<u64>>,
    done: Set<u64>,
    emits: spec_fn(u64, AttributeSeq) -> bool,
) -> bool {
    &&& keys.len() == logs.len()
    &&& forall|i: int, j: int|
        0 <= i < logs.len() && 0 <= j < logs[i].len() ==> done.contains(#[trigger] logs[i][j])
            && emits(logs[i][j], keys[i])
    &&& forall|cell: u64, key: AttributeSeq|
        done.contains(cell) && #[trigger] emits(cell, key) ==> exists|k: int|
            0 <= k < keys.len() && keys[k] == key && logs[k].contains(cell)
    &&& forall|i: int| 0 <= i < logs.len() ==> (#[trigger] logs[i]).no_duplicates()
}

/// A cell that emits nothing can be counted as done without a change to the record.
pub proof fn lemma_record_stays(
    keys: Seq<AttributeSeq>,
    logs: Seq<Seq<u64>>,
    done: Set<u64>,
    emits: spec_fn(u64, AttributeSeq) -> bool,
    cell: u64,
)
    requires
        is_record(keys, logs, done, emits),
        forall|key: AttributeSeq| !#[trigger] emits(cell, key),
    ensures
        is_record(keys, logs, done.insert(cell), emits),
{
    assert forall|other: u64, key: AttributeSeq|
        done.insert(cell).contains(other) && #[trigger] emits(other, key) implies exists|k: int|
        0 <= k < keys.len() && keys[k] == key && logs[k].contains(other) by {
        assert(done.contains(other));
    }
}

/// Cells that emit nothing can be counted as done without a change to the record.
pub proof fn lemma_record_widens(
    keys: Seq<AttributeSeq>,
    logs: Seq<Seq<u64>>,
    done: Set<u64>,
    wider: Set<u64>,
    emits: spec_fn(u64, AttributeSeq) -> bool,
)
    requires
        is_record(keys, logs, done, emits),
        done.subset_of(wider),
        forall|cell: u64, key: AttributeSeq|
            wider.contains(cell) && !done.contains(cell) ==> !#[trigger] emits(cell, key),
    ensures
        is_record(keys, logs, wider, emits),
{
    assert forall|i: int, j: int| 0 <= i < logs.len() && 0 <= j < logs[i].len() implies wider.contains(
        #[trigger] logs[i][j],
    ) && emits(logs[i][j], keys[i]) by {
        assert(done.contains(logs[i][j]));
    }
    assert forall|cell: u64, key: AttributeSeq|
        wider.contains(cell) && #[trigger] emits(cell, key) implies exists|k: int|
        0 <= k < keys.len() && keys[k] == key && logs[k].contains(cell) by {
        assert(done.contains(cell));
    }
}

/// A cell that was not done yet and is emitted under one key is recorded by putting
/// it under that key.
pub proof fn lemma_record_grows(
    keys: Seq<AttributeSeq>,
    logs: Seq<Seq<u64>>,
    done: Set<u64>,
    emits: spec_fn(u64, AttributeSeq) -> bool,
    cell: u64,
    key: AttributeSeq,
)
    requires
        is_record(keys, logs, done, emits),
        forall|i: int, j: int| 0 <= i < j < keys.len() ==> #[trigger] keys[i] != #[trigger] keys[j],
        !done.contains(cell),
        emits(cell, key),
        forall|other: AttributeSeq| #[trigger] emits(cell, other) ==> other == key,
    ensures
        is_record(keys_with(keys, key), logs_with(keys, logs, key, cell), done.insert(cell), emits),
{
    let grown_keys = keys_with(keys, key);
    let grown_logs = logs_with(keys, logs, key, cell);
    let slot = if holds_key(keys, key) {
        key_index(keys, key)
    } else {
        keys.len() as int
    };
    let log = if holds_key(keys, key) {
        logs[slot]
    } else {
        Seq::<u64>::empty()
    };
    assert(grown_logs[slot] =~= log.push(cell));
    assert(grown_keys[slot] == key);
    assert forall|i: int, j: int| 0 <= i < grown_logs.len() && 0 <= j < grown_logs[i].len() implies done.insert(
        cell,
    ).contains(#[trigger] grown_logs[i][j]) && emits(grown_logs[i][j], grown_keys[i]) by {
        if i != slot {
            assert(grown_logs[i] == logs[i]);
            assert(done.contains(logs[i][j]));
        } else if j < log.len() {
            assert(grown_logs[i][j] == logs[i][j]);
            assert(done.contains(logs[i][j]));
        }
    }
    assert forall|other: u64, other_key: AttributeSeq|
        done.insert(cell).contains(other) && #[trigger] emits(other, other_key) implies exists|
        k: int,
    | 0 <= k < grown_keys.len() && grown_keys[k] == other_key && grown_logs[k].contains(other) by {
        if other == cell {
            assert(other_key == key);
            assert(grown_logs[slot][log.len() as int] == cell);
        } else {
            let k = choose|k: int|
                0 <= k < keys.len() && keys[k] == other_key && logs[k].contains(other);
            if k == slot {
                let j = choose|j: int| 0 <= j < logs[k].len() && logs[k][j] == other;
                assert(grown_logs[k][j] == other);
            } else {
                assert(grown_logs[k] == logs[k]);
            }
            assert(grown_keys[k] == other_key);
        }
    }
    assert forall|i: int| 0 <= i < grown_logs.len() implies (#[trigger] grown_logs[i]).no_duplicates() by {
        if i == slot {
            assert forall|a: int, b: int|
                0 <= a < grown_logs[i].len() && 0 <= b < grown_logs[i].len() && a != b implies grown_logs[i][a]
                != grown_logs[i][b] by {
                if a < log.len() && b < log.len() {
                    assert(logs[i].no_duplicates());
                } else if a < log.len() {
                    assert(done.contains(logs[i][a]));
                } else if b < log.len() {
                    assert(done.contains(logs[i][b]));
                }
            }
        } else {
            assert(grown_logs[i] == logs[i]);
        }
    }
}

/// Once every cell that is emitted is done, the grouping made of the logs holds what
/// was emitted.
pub proof fn lemma_record_complete(
    groups: GroupedCells,
    keys: Seq<AttributeSeq>,
    logs: Seq<Seq<u64>>,
    done: Set<u64>,
    emits: spec_fn(u64, AttributeSeq) -> bool,
    limit: int,
    resolution: int,
    compact: bool,
)
    requires
        is_record(keys, logs, done, emits),
        forall|i: int, j: int| 0 <= i < j < keys.len() ==> #[trigger] keys[i] != #[trigger] keys[j],
        forall|i: int| 0 <= i < logs.len() ==> (#[trigger] logs[i]).len() > 0,
        forall|cell: u64, key: AttributeSeq| #[trigger] emits(cell, key) ==> done.contains(cell),
        forall|key: AttributeSeq| groups.contains_key(key) <==> holds_key(keys, key),
        forall|i: int|
            0 <= i < keys.len() ==> groups[#[trigger] keys[i]] == stacked_log(
                logs[i],
                limit,
                resolution,
                compact,
            ),
    ensures
        holds_emitted(groups, emits, limit, resolution, compact),
{
    assert forall|i: int| 0 <= i < keys.len() implies is_log_of(#[trigger] logs[i], emits, keys[i]) by {
        assert forall|cell: u64| #[trigger] logs[i].contains(cell) <==> emits(cell, keys[i]) by {
            if logs[i].contains(cell) {
                let j = choose|j: int| 0 <= j < logs[i].len() && logs[i][j] == cell;
                assert(done.contains(logs[i][j]));
            }
            if emits(cell, keys[i]) {
                assert(done.contains(cell));
                let k = choose|k: int|
                    0 <= k < keys.len() && keys[k] == keys[i] && logs[k].contains(cell);
                assert(k == i);
            }
        }
    }
    assert forall|key: AttributeSeq| #[trigger]
        groups.contains_key(key) <==> exists|cell: u64| #[trigger] emits(cell, key) by {
        if groups.contains_key(key) {
            assert(holds_key(keys, key));
            let i = choose|i: int| 0 <= i < keys.len() && keys[i] == key;
            assert(logs[i].len() > 0);
            assert(logs[i].contains(logs[i][0]));
            assert(emits(logs[i][0], key));
        }
        if exists|cell: u64| #[trigger] emits(cell, key) {
            let cell = choose|cell: u64| #[trigger] emits(cell, key);
            assert(done.contains(cell));
            let k = choose|k: int| 0 <= k < keys.len() && keys[k] == key && logs[k].contains(cell);
            assert(holds_key(keys, key));
        }
    }
    assert forall|key: AttributeSeq| #[trigger]
        groups.contains_key(key) implies exists|log: Seq<u64>|
        is_log_of(log, emits, key) && groups[key] == stacked_log(
            log,
            limit,
            resolution,
            compact,
        ) by {
        assert(holds_key(keys, key));
        let i = choose|i: int| 0 <= i < keys.len() && keys[i] == key;
        assert(is_log_of(logs[i], emits, key));
        assert(groups[keys[i]] == stacked_log(logs[i], limit, resolution, compact));
    }
}

} // verus!
