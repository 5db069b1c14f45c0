//! Where a conversion puts the cells it finds: a bucket per attribute vector, emptied
//! into the stack of that vector whenever it grows beyond a limit, and at the end.

use crate::cells::{cell_resolution, valid_cell, MAX_RESOLUTION};
use crate::grouped::GroupedH3Indexes;
use crate::stack::{all_cells_of, compact_from};
use crate::value::{copy_attributes, same_attributes, AttributeSeq, Attributes};
use vstd::arithmetic::div_mod::{lemma_fundamental_div_mod, lemma_fundamental_div_mod_converse};
use vstd::prelude::*;

verus! {

/// A stack after cells were put on it: compacted from `resolution` up where `compact`
/// is set.
pub open spec fn after_append(stack: Seq<u64>, cells: Seq<u64>, resolution: int, compact: bool) -> Seq<
    u64,
> {
    if compact {
        compact_from(stack + cells, resolution)
    } else {
        stack + cells
    }
}

/// The cells at the end of a log that wait in the bucket: those that came after the
/// bucket was last emptied, which happens whenever it holds `limit + 1` cells.
pub open spec fn pending(log: Seq<u64>, limit: int) -> Seq<u64> {
    log.subrange(log.len() - (log.len() as int) % (limit + 1), log.len() as int)
}

/// The stack that the emptied buckets of a log have made so far.
pub open spec fn flushed(log: Seq<u64>, limit: int, resolution: int, compact: bool) -> Seq<u64>
    decreases log.len(),
{
    if log.len() == 0 {
        Seq::empty()
    } else if (log.len() as int) % (limit + 1) == 0 {
        after_append(
            flushed(log.drop_last(), limit, resolution, compact),
            log.subrange(log.len() - (limit + 1), log.len() as int),
            resolution,
            compact,
        )
    } else {
        flushed(log.drop_last(), limit, resolution, compact)
    }
}

/// The stack that a log of cells ends up as: the log is stacked in runs of `limit + 1`
/// cells, then what is left of it, the last run even where it is empty.
pub open spec fn stacked_log(log: Seq<u64>, limit: int, resolution: int, compact: bool) -> Seq<u64> {
    after_append(
        flushed(log, limit, resolution, compact),
        pending(log, limit),
        resolution,
        compact,
    )
}

/// A log that never filled a bucket has made no stack yet.
pub proof fn lemma_flushed_short(log: Seq<u64>, limit: int, resolution: int, compact: bool)
    requires
        0 <= limit,
        log.len() <= limit,
    ensures
        flushed(log, limit, resolution, compact) == Seq::<u64>::empty(),
        pending(log, limit) == log,
    decreases log.len(),
{
    if log.len() > 0 {
        lemma_flushed_short(log.drop_last(), limit, resolution, compact);
        lemma_fundamental_div_mod_converse(log.len() as int, limit + 1, 0, log.len() as int);
    } else {
        lemma_fundamental_div_mod_converse(0, limit + 1, 0, 0);
    }
    assert(pending(log, limit) =~= log);
}

/// Stacked without compaction, a log ends up as itself.
pub proof fn lemma_stacked_log_plain(log: Seq<u64>, limit: int, resolution: int)
    requires
        0 <= limit,
    ensures
        stacked_log(log, limit, resolution, false) == log,
{
    lemma_flushed_plain(log, limit, resolution);
    lemma_step_of_count(log.len() as int, limit + 1);
    assert(log.subrange(0, log.len() - (log.len() as int) % (limit + 1)) + pending(log, limit)
        =~= log);
}

/// Without compaction, the emptied buckets of a log have made the log up to the cells
/// that still wait.
proof fn lemma_flushed_plain(log: Seq<u64>, limit: int, resolution: int)
    requires
        0 <= limit,
    ensures
        0 <= (log.len() as int) % (limit + 1) <= limit,
        flushed(log, limit, resolution, false) == log.subrange(
            0,
            log.len() - (log.len() as int) % (limit + 1),
        ),
    decreases log.len(),
{
    let m = limit + 1;
    let n = log.len() as int;
    lemma_fundamental_div_mod(n, m);
    if n == 0 {
        lemma_fundamental_div_mod_converse(0, m, 0, 0);
        assert(flushed(log, limit, resolution, false) =~= log.subrange(0, 0));
    } else {
        let front = log.drop_last();
        lemma_flushed_plain(front, limit, resolution);
        lemma_step_of_count(n - 1, m);
        lemma_step_of_count(n, m);
        lemma_count_above(n - 1, m);
        if n % m == 0 {
            assert((n - 1) - (n - 1) % m == n - m);
            assert(front.subrange(0, n - m) + log.subrange(n - m, n) =~= log.subrange(0, n));
        } else {
            assert(front.subrange(0, (n - 1) - (n - 1) % m) =~= log.subrange(0, n - n % m));
        }
    }
}

/// For a log that never fills a bucket, stacking with compaction gives the compaction
/// of what stacking without compaction gives.
pub proof fn lemma_compact_flag(log: Seq<u64>, limit: int, resolution: int)
    requires
        0 <= limit,
        log.len() <= limit,
    ensures
        stacked_log(log, limit, resolution, false) == log,
        stacked_log(log, limit, resolution, true) == compact_from(
            stacked_log(log, limit, resolution, false),
            resolution,
        ),
{
    lemma_flushed_short(log, limit, resolution, true);
    lemma_flushed_short(log, limit, resolution, false);
    assert(Seq::<u64>::empty() + log =~= log);
}

/// Counting up by one moves the remainder up by one, or back to zero.
pub proof fn lemma_step_of_count(count: int, modulus: int)
    requires
        0 <= count,
        0 < modulus,
    ensures
        0 <= count % modulus < modulus,
        count % modulus <= count,
        (count + 1) % modulus == if count % modulus + 1 == modulus {
            0
        } else {
            count % modulus + 1
        },
{
    lemma_fundamental_div_mod(count, modulus);
    let q = count / modulus;
    let r = count % modulus;
    assert(q >= 0 && modulus * q >= 0) by (nonlinear_arith)
        requires
            count == modulus * q + r,
            0 <= r < modulus,
            count >= 0,
    ;
    if r + 1 == modulus {
        assert((q + 1) * modulus == modulus * q + modulus) by (nonlinear_arith);
        lemma_fundamental_div_mod_converse(count + 1, modulus, q + 1, 0);
    } else {
        assert(q * modulus == modulus * q) by (nonlinear_arith);
        lemma_fundamental_div_mod_converse(count + 1, modulus, q, r + 1);
    }
}

/// The buckets of a conversion and the stacks they are emptied into.
pub struct CellSink {
    keys: Vec<Attributes>,
    buckets: Vec<Vec<u64>>,
    grouped: GroupedH3Indexes,
    limit: usize,
    resolution: u8,
    compact: bool,
    logs: Ghost<Seq<Seq<u64>>>,
}

impl CellSink {
    /// The attribute vectors under which cells were put, in the order in which they
    /// first came.
    pub closed spec fn keys(&self) -> Seq<AttributeSeq> {
        Seq::new(self.keys@.len(), |i: int| self.keys@[i]@)
    }

    /// For each attribute vector, in the order of `keys`, the cells that were put
    /// under it, in the order in which they came.
    pub closed spec fn logs(&self) -> Seq<Seq<u64>> {
        self.logs@
    }

    /// The number of cells beyond which a bucket is emptied.
    pub closed spec fn limit(&self) -> int {
        self.limit as int
    }

    /// The resolution of the cells that the sink takes.
    pub closed spec fn resolution(&self) -> int {
        self.resolution as int
    }

    /// Whether the stacks are compacted whenever a bucket is emptied into them.
    pub closed spec fn compact(&self) -> bool {
        self.compact
    }

    /// What every sink keeps to.
    pub closed spec fn wf(&self) -> bool {
        &&& self.resolution <= MAX_RESOLUTION
        &&& self.grouped.wf()
        &&& self.keys@.len() == self.buckets@.len()
        &&& self.keys@.len() == self.logs@.len()
        &&& forall|i: int, j: int|
            0 <= i < j < self.keys@.len() ==> (#[trigger] self.keys@[i])@ != (
            #[trigger] self.keys@[j])@
        &&& forall|i: int|
            0 <= i < self.logs@.len() ==> {
                let log = #[trigger] self.logs@[i];
                &&& log.len() > 0
                &&& all_cells_of(log, self.resolution as int)
                &&& self.buckets@[i]@ == pending(log, self.limit as int)
                &&& self.grouped@.contains_key(self.keys@[i]@) <==> log.len() > self.limit
                &&& self.grouped@.contains_key(self.keys@[i]@) ==> self.grouped@[self.keys@[i]@]
                    == flushed(log, self.limit as int, self.resolution as int, self.compact)
            }
        &&& forall|key: AttributeSeq| #[trigger]
            self.grouped@.contains_key(key) ==> exists|i: int|
                0 <= i < self.keys@.len() && (#[trigger] self.keys@[i])@ == key
    }

    /// The keys of a sink differ from each other, and under each of them stands at
    /// least one cell; all of them are cells of the resolution of the sink.
    pub proof fn lemma_shape(&self)
        requires
            self.wf(),
        ensures
            self.keys().len() == self.logs().len(),
            forall|i: int, j: int|
                0 <= i < j < self.keys().len() ==> #[trigger] self.keys()[i] != #[trigger] self.keys()[j],
            forall|i: int|
                0 <= i < self.logs().len() ==> (#[trigger] self.logs()[i]).len() > 0
                    && all_cells_of(self.logs()[i], self.resolution()),
    {
        assert forall|i: int, j: int| 0 <= i < j < self.keys().len() implies #[trigger] self.keys()[i]
            != #[trigger] self.keys()[j] by {
            assert(self.keys@[i]@ != self.keys@[j]@);
        }
    }

    /// A sink without cells, which will compact as `compact` says whenever a bucket
    /// holds more than `limit` cells, and at the end.
    pub fn new(resolution: u8, limit: usize, compact: bool) -> (sink: Self)
        requires
            resolution <= MAX_RESOLUTION,
        ensures
            sink.wf(),
            sink.keys() == Seq::<AttributeSeq>::empty(),
            sink.logs() == Seq::<Seq<u64>>::empty(),
            sink.limit() == limit,
            sink.resolution() == resolution,
            sink.compact() == compact,
    {
        let sink = CellSink {
            keys: Vec::new(),
            buckets: Vec::new(),
            grouped: GroupedH3Indexes::new(),
            limit,
            resolution,
            compact,
            logs: Ghost(Seq::empty()),
        };
        assert(sink.keys() =~= Seq::<AttributeSeq>::empty());
        sink
    }

    /// Where the attribute vector stands among the keys.
    fn position(&self, attributes: &Attributes) -> (found: Option<usize>)
        ensures
            match found {
                Some(i) => i < self.keys@.len() && self.keys@[i as int]@ == attributes@,
                None => forall|i: int|
                    0 <= i < self.keys@.len() ==> (#[trigger] self.keys@[i])@ != attributes@,
            },
    {
        let mut i: usize = 0;
        while i < self.keys.len()
            invariant
                i <= self.keys.len(),
                forall|k: int| 0 <= k < i ==> (#[trigger] self.keys@[k])@ != attributes@,
            decreases self.keys.len() - i,
        {
            if same_attributes(&self.keys[i], attributes) {
                return Some(i);
            }
            i = i + 1;
        }
        None
    }

    /// Puts a cell under an attribute vector.
    pub fn emit(&mut self, attributes: &Attributes, cell: u64)
        requires
            old(self).wf(),
            valid_cell(cell),
            cell_resolution(cell) == old(self).resolution(),
        ensures
            final(self).wf(),
            final(self).limit() == old(self).limit(),
            final(self).resolution() == old(self).resolution(),
            final(self).compact() == old(self).compact(),
            final(self).keys() == keys_with(old(self).keys(), attributes@),
            final(self).logs() == logs_with(old(self).keys(), old(self).logs(), attributes@, cell),
    {
        let ghost before = *self;
        let ghost m = self.limit as int + 1;
        let slot = match self.position(attributes) {
            Some(slot) => slot,
            None => {
                self.keys.push(copy_attributes(attributes));
                self.buckets.push(Vec::new());
                self.keys.len() - 1
            },
        };
        let ghost log = if slot < before.logs@.len() {
            before.logs@[slot as int]
        } else {
            Seq::<u64>::empty()
        };
        let ghost longer = log.push(cell);
        proof {
            lemma_step_of_count(log.len() as int, m);
            if slot == before.logs@.len() {
                lemma_fundamental_div_mod_converse(0, m, 0, 0);
                assert(pending(log, self.limit as int) =~= Seq::<u64>::empty());
            } else {
                assert(before.buckets@[slot as int]@ == pending(log, self.limit as int));
            }
            assert(self.buckets@[slot as int]@ == pending(log, self.limit as int));
            assert(longer.drop_last() =~= log);
        }
        self.buckets[slot].push(cell);
        proof {
            assert(self.buckets@[slot as int]@ =~= longer.subrange(
                log.len() - (log.len() as int) % m,
                longer.len() as int,
            ));
            assert forall|k: int| 0 <= k < longer.len() implies valid_cell(#[trigger] longer[k])
                && cell_resolution(longer[k]) == self.resolution by {
                if k < log.len() {
                    assert(longer[k] == log[k]);
                }
            }
        }
        if self.buckets[slot].len() > self.limit {
            let ghost held = self.grouped@;
            let ghost run = self.buckets@[slot as int]@;
            proof {
                assert forall|k: int| 0 <= k < run.len() implies valid_cell(#[trigger] run[k])
                    && cell_resolution(run[k]) == self.resolution by {
                    assert(run[k] == longer[log.len() - (log.len() as int) % m + k]);
                }
            }
            let outcome = self.grouped.append_to_resolution(
                attributes,
                self.resolution,
                &mut self.buckets[slot],
                self.compact,
            );
            proof {
                assert(outcome is Ok);
                assert((longer.len() as int) % m == 0);
                assert(run == longer.subrange(longer.len() - m, longer.len() as int));
                if held.contains_key(attributes@) {
                    assert(held[attributes@] == flushed(
                        log,
                        self.limit as int,
                        self.resolution as int,
                        self.compact,
                    ));
                } else {
                    lemma_flushed_short(
                        log,
                        self.limit as int,
                        self.resolution as int,
                        self.compact,
                    );
                }
                assert(self.grouped@[attributes@] == flushed(
                    longer,
                    self.limit as int,
                    self.resolution as int,
                    self.compact,
                ));
                assert(pending(longer, self.limit as int) =~= Seq::<u64>::empty());
            }
        } else {
            proof {
                assert((longer.len() as int) % m != 0);
                assert(self.buckets@[slot as int]@ == pending(longer, self.limit as int));
            }
        }
        proof {
            self.logs@ =
            if slot < before.logs@.len() {
                before.logs@.update(slot as int, longer)
            } else {
                before.logs@.push(longer)
            };
        }
        proof {
            assert(self.keys() =~= keys_with(before.keys(), attributes@)) by {
                if slot < before.logs@.len() {
                    assert(before.keys()[slot as int] == attributes@);
                    assert(holds_key(before.keys(), attributes@));
                } else {
                    assert(!holds_key(before.keys(), attributes@)) by {
                        if holds_key(before.keys(), attributes@) {
                            let i = choose|i: int|
                                0 <= i < before.keys().len() && before.keys()[i] == attributes@;
                            assert(before.keys@[i]@ == attributes@);
                        }
                    }
                }
            }
            assert(self.logs@ =~= logs_with(before.keys(), before.logs(), attributes@, cell)) by {
                if slot < before.logs@.len() {
                    assert(before.keys()[slot as int] == attributes@);
                    let i = key_index(before.keys(), attributes@);
                    assert(before.keys@[i]@ == attributes@);
                    assert(i == slot);
                } else {
                    assert(!holds_key(before.keys(), attributes@)) by {
                        if holds_key(before.keys(), attributes@) {
                            let i = choose|i: int|
                                0 <= i < before.keys().len() && before.keys()[i] == attributes@;
                            assert(before.keys@[i]@ == attributes@);
                        }
                    }
                    assert(seq![cell] =~= longer);
                }
            }
            assert forall|i: int, j: int| 0 <= i < j < self.keys@.len() implies (
            #[trigger] self.keys@[i])@ != (#[trigger] self.keys@[j])@ by {
                if j < before.keys@.len() {
                    assert(before.keys@[i]@ != before.keys@[j]@);
                }
            }
            assert forall|i: int| 0 <= i < self.logs@.len() implies {
                let log = #[trigger] self.logs@[i];
                &&& log.len() > 0
                &&& all_cells_of(log, self.resolution as int)
                &&& self.buckets@[i]@ == pending(log, self.limit as int)
                &&& self.grouped@.contains_key(self.keys@[i]@) <==> log.len() > self.limit
                &&& self.grouped@.contains_key(self.keys@[i]@) ==> self.grouped@[self.keys@[i]@]
                    == flushed(log, self.limit as int, self.resolution as int, self.compact)
            } by {
                if i != slot {
                    assert(self.logs@[i] == before.logs@[i]);
                    assert(self.keys@[i] == before.keys@[i]);
                    assert(self.buckets@[i] == before.buckets@[i]);
                    assert(self.keys@[i]@ != attributes@);
                } else {
                    assert(self.logs@[i] == longer);
                    if (longer.len() as int) % m != 0 {
                        assert(flushed(
                            longer,
                            self.limit as int,
                            self.resolution as int,
                            self.compact,
                        ) == flushed(
                            log,
                            self.limit as int,
                            self.resolution as int,
                            self.compact,
                        ));
                        lemma_count_above(log.len() as int, m);
                    } else {
                        lemma_count_above(log.len() as int, m);
                    }
                }
            }
            assert forall|key: AttributeSeq| #[trigger]
                self.grouped@.contains_key(key) implies exists|i: int|
                0 <= i < self.keys@.len() && (#[trigger] self.keys@[i])@ == key by {
                if key == attributes@ {
                    assert(self.keys@[slot as int]@ == key);
                } else {
                    assert(before.grouped@.contains_key(key));
                    let i = choose|i: int|
                        0 <= i < before.keys@.len() && (#[trigger] before.keys@[i])@ == key;
                    assert(self.keys@[i]@ == key);
                }
            }
        }
    }

    /// Empties every bucket and hands out the stacks: under each attribute vector stands
    /// what its log of cells ends up as.
    pub fn finish(self) -> (grouped: GroupedH3Indexes)
        requires
            self.wf(),
        ensures
            grouped.wf(),
            forall|key: AttributeSeq|
                grouped@.contains_key(key) <==> holds_key(self.keys(), key),
            forall|i: int|
                0 <= i < self.keys().len() ==> grouped@[#[trigger] self.keys()[i]] == stacked_log(
                    self.logs()[i],
                    self.limit(),
                    self.resolution(),
                    self.compact(),
                ),
    {
        let ghost start = self;
        let CellSink { keys, mut buckets, mut grouped, limit, resolution, compact, logs } = self;
        let mut i: usize = 0;
        while i < keys.len()
            invariant
                start.wf(),
                i <= keys.len(),
                keys == start.keys,
                logs == start.logs,
                limit == start.limit,
                resolution == start.resolution,
                compact == start.compact,
                buckets@.len() == keys@.len(),
                grouped.wf(),
                forall|k: int| i <= k < keys@.len() ==> #[trigger] buckets@[k] == start.buckets@[k],
                forall|k: int|
                    0 <= k < i ==> grouped@.contains_key(#[trigger] keys@[k]@) && grouped@[keys@[k]@]
                        == stacked_log(logs@[k], limit as int, resolution as int, compact),
                forall|k: int|
                    i <= k < keys@.len() ==> (grouped@.contains_key(#[trigger] keys@[k]@)
                        <==> start.grouped@.contains_key(keys@[k]@)) && (grouped@.contains_key(
                        keys@[k]@,
                    ) ==> grouped@[keys@[k]@] == start.grouped@[keys@[k]@]),
                forall|key: AttributeSeq| #[trigger]
                    grouped@.contains_key(key) ==> exists|k: int|
                        0 <= k < keys@.len() && (#[trigger] keys@[k])@ == key,
            decreases keys.len() - i,
        {
            let ghost held = grouped@;
            let ghost log = logs@[i as int];
            proof {
                assert(buckets@[i as int] == start.buckets@[i as int]);
                assert(start.logs@[i as int].len() > 0);
                let run = pending(log, limit as int);
                assert forall|k: int| 0 <= k < run.len() implies valid_cell(#[trigger] run[k])
                    && cell_resolution(run[k]) == resolution by {
                    lemma_step_of_count(log.len() as int, limit as int + 1);
                    assert(run[k] == log[log.len() - (log.len() as int) % (limit as int + 1) + k]);
                }
            }
            let outcome = grouped.append_to_resolution(&keys[i], resolution, &mut buckets[i], compact);
            proof {
                assert(outcome is Ok);
                if !held.contains_key(keys@[i as int]@) {
                    lemma_count_above(log.len() as int - 1, limit as int + 1);
                    lemma_flushed_short(log, limit as int, resolution as int, compact);
                }
                assert forall|k: int| 0 <= k < i + 1 implies grouped@.contains_key(
                    #[trigger] keys@[k]@,
                ) && grouped@[keys@[k]@] == stacked_log(
                    logs@[k],
                    limit as int,
                    resolution as int,
                    compact,
                ) by {
                    if k < i {
                        assert(keys@[k]@ != keys@[i as int]@);
                    }
                }
                assert forall|k: int| i + 1 <= k < keys@.len() implies (grouped@.contains_key(
                    #[trigger] keys@[k]@,
                ) <==> start.grouped@.contains_key(keys@[k]@)) && (grouped@.contains_key(keys@[k]@)
                    ==> grouped@[keys@[k]@] == start.grouped@[keys@[k]@]) by {
                    assert(keys@[k]@ != keys@[i as int]@);
                }
                assert forall|key: AttributeSeq| #[trigger]
                    grouped@.contains_key(key) implies exists|k: int|
                    0 <= k < keys@.len() && (#[trigger] keys@[k])@ == key by {
                    if key == keys@[i as int]@ {
                    } else {
                        assert(held.contains_key(key));
                    }
                }
            }
            i = i + 1;
        }
        proof {
            assert forall|key: AttributeSeq|
                grouped@.contains_key(key) <==> holds_key(start.keys(), key) by {
                if grouped@.contains_key(key) {
                    let k = choose|k: int| 0 <= k < keys@.len() && (#[trigger] keys@[k])@ == key;
                    assert(start.keys()[k] == key);
                }
                if holds_key(start.keys(), key) {
                    let k = choose|k: int| 0 <= k < start.keys().len() && start.keys()[k] == key;
                    assert(keys@[k]@ == key);
                }
            }
            assert forall|k: int| 0 <= k < start.keys().len() implies grouped@[
                #[trigger] start.keys()[k]] == stacked_log(
                start.logs()[k],
                start.limit(),
                start.resolution(),
                start.compact(),
            ) by {
                assert(grouped@.contains_key(keys@[k]@));
            }
        }
        grouped
    }
}

/// A remainder of a count is the count itself exactly where the count is below the
/// modulus.
proof fn lemma_count_above(count: int, modulus: int)
    requires
        0 <= count,
        0 < modulus,
    ensures
        count % modulus == count <==> count < modulus,
        (count + 1) % modulus == 0 ==> count + 1 >= modulus,
{
    lemma_fundamental_div_mod(count, modulus);
    lemma_fundamental_div_mod(count + 1, modulus);
    if count < modulus {
        lemma_fundamental_div_mod_converse(count, modulus, 0, count);
    }
    let q = (count + 1) / modulus;
    if (count + 1) % modulus == 0 {
        assert(q >= 1) by (nonlinear_arith)
            requires
                count + 1 == modulus * q,
                count + 1 > 0,
                modulus > 0,
        ;
        assert(modulus * q >= modulus) by (nonlinear_arith)
            requires
                q >= 1,
                modulus > 0,
        ;
    }
}

/// Whether the key stands in the list.
pub open spec fn holds_key(keys: Seq<AttributeSeq>, key: AttributeSeq) -> bool {
    exists|i: int| 0 <= i < keys.len() && keys[i] == key
}

/// Where the key stands in the list.
pub open spec fn key_index(keys: Seq<AttributeSeq>, key: AttributeSeq) -> int {
    choose|i: int| 0 <= i < keys.len() && keys[i] == key
}

/// The keys after a cell was put under `key`: a new key goes to the end.
pub open spec fn keys_with(keys: Seq<AttributeSeq>, key: AttributeSeq) -> Seq<AttributeSeq> {
    if holds_key(keys, key) {
        keys
    } else {
        keys.push(key)
    }
}

/// The logs after `cell` was put under `key`: the cell goes to the end of the log of
/// the key, and a new key starts a log of its own.
pub open spec fn logs_with(
    keys: Seq<AttributeSeq>,
    logs: Seq<Seq<u64>>,
    key: AttributeSeq,
    cell: u64,
) -> Seq<Seq<u64>> {
    if holds_key(keys, key) {
        logs.update(key_index(keys, key), logs[key_index(keys, key)].push(cell))
    } else {
        logs.push(seq![cell])
    }
}

} // verus!
