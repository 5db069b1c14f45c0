//! Cells grouped by the attribute vector of the pixels they were found on.

use crate::cells::MAX_RESOLUTION;
use crate::error::Error;
use crate::stack::{all_cells_of, append_error, compact_from, H3IndexStack};
use crate::value::{copy_attributes, same_attributes, AttributeSeq, Attributes};
use vstd::prelude::*;

verus! {

/// What a grouping holds: for each attribute vector the cells stacked under it.
pub type GroupedCells = Map<AttributeSeq, Seq<u64>>;

/// The grouping that holds under each key what `left` holds there, followed by what
/// `right` holds there.
pub open spec fn merged(left: GroupedCells, right: GroupedCells) -> GroupedCells {
    Map::new(
        |key: AttributeSeq| left.contains_key(key) || right.contains_key(key),
        |key: AttributeSeq|
            if left.contains_key(key) && right.contains_key(key) {
                left[key] + right[key]
            } else if left.contains_key(key) {
                left[key]
            } else {
                right[key]
            },
    )
}

/// The grouping in which the cells under every key are compacted.
pub open spec fn compacted(groups: GroupedCells) -> GroupedCells {
    Map::new(
        |key: AttributeSeq| groups.contains_key(key),
        |key: AttributeSeq| compact_from(groups[key], MAX_RESOLUTION as int),
    )
}

/// Merging is associative: it does not matter how partial results are bracketed.
pub proof fn lemma_merged_associative(a: GroupedCells, b: GroupedCells, c: GroupedCells)
    ensures
        merged(merged(a, b), c) == merged(a, merged(b, c)),
{
    assert forall|key: AttributeSeq| #[trigger]
        merged(merged(a, b), c).contains_key(key) implies merged(merged(a, b), c)[key] == merged(
        a,
        merged(b, c),
    )[key] by {
        if a.contains_key(key) && b.contains_key(key) && c.contains_key(key) {
            assert((a[key] + b[key]) + c[key] =~= a[key] + (b[key] + c[key]));
        }
    }
    assert(merged(merged(a, b), c) =~= merged(a, merged(b, c)));
}

/// Merging in another order gives the same result up to the order within the stacks:
/// the same keys, and under each key the same cells, each as often.
pub proof fn lemma_merged_any_order(a: GroupedCells, b: GroupedCells, key: AttributeSeq)
    ensures
        merged(a, b).dom() == merged(b, a).dom(),
        merged(a, b).contains_key(key) ==> merged(a, b)[key].to_multiset() == merged(
            b,
            a,
        )[key].to_multiset(),
{
    assert(merged(a, b).dom() =~= merged(b, a).dom());
    if a.contains_key(key) && b.contains_key(key) {
        vstd::seq_lib::lemma_multiset_commutative(a[key], b[key]);
        vstd::seq_lib::lemma_multiset_commutative(b[key], a[key]);
        assert(merged(a, b)[key].to_multiset() =~= merged(b, a)[key].to_multiset());
    }
}

/// A map from attribute vectors to stacks of cells. Two attribute vectors are the same
/// key where they are equal position by position.
pub struct GroupedH3Indexes {
    keys: Vec<Attributes>,
    stacks: Vec<H3IndexStack>,
}

impl View for GroupedH3Indexes {
    type V = GroupedCells;

    /// For each attribute vector of the map, the cells of its stack.
    closed spec fn view(&self) -> GroupedCells {
        Map::new(
            |key: AttributeSeq| self.index_of(key) is Some,
            |key: AttributeSeq| self.stacks@[self.index_of(key)->0]@,
        )
    }
}

impl GroupedH3Indexes {
    /// Where the key stands in the list of entries.
    closed spec fn index_of(&self, key: AttributeSeq) -> Option<int> {
        if exists|i: int| 0 <= i < self.keys@.len() && (#[trigger] self.keys@[i])@ == key {
            Some(choose|i: int| 0 <= i < self.keys@.len() && (#[trigger] self.keys@[i])@ == key)
        } else {
            None
        }
    }

    /// What every grouping keeps to: no key stands twice, and every stack is well
    /// formed.
    pub closed spec fn wf(&self) -> bool {
        &&& self.keys@.len() == self.stacks@.len()
        &&& forall|i: int, j: int|
            0 <= i < j < self.keys@.len() ==> (#[trigger] self.keys@[i])@ != (
            #[trigger] self.keys@[j])@
        &&& forall|i: int| 0 <= i < self.stacks@.len() ==> (#[trigger] self.stacks@[i]).wf()
    }

    /// The `i`-th key of a well-formed grouping is found at `i`.
    proof fn lemma_index_of(&self, i: int)
        requires
            self.wf(),
            0 <= i < self.keys@.len(),
        ensures
            self.index_of(self.keys@[i]@) == Some(i),
            self@.contains_key(self.keys@[i]@),
            self@[self.keys@[i]@] == self.stacks@[i]@,
    {
        let key = self.keys@[i]@;
        let found = choose|k: int| 0 <= k < self.keys@.len() && (#[trigger] self.keys@[k])@ == key;
        assert(found == i);
    }

    /// An empty grouping.
    pub fn new() -> (groups: Self)
        ensures
            groups.wf(),
            groups@ == GroupedCells::empty(),
    {
        let groups = GroupedH3Indexes { keys: Vec::new(), stacks: Vec::new() };
        assert(groups@ =~= GroupedCells::empty());
        groups
    }

    /// The number of attribute vectors in the grouping.
    pub fn len(&self) -> (n: usize)
        requires
            self.wf(),
        ensures
            n == self@.dom().len(),
            self@.dom().finite(),
    {
        proof {
            self.lemma_count(self.keys@.len() as int);
            assert(self@.dom() =~= self.first_keys(self.keys@.len() as int));
        }
        self.keys.len()
    }

    /// The keys that stand among the first `count` entries.
    closed spec fn first_keys(&self, count: int) -> Set<AttributeSeq> {
        Set::new(|key: AttributeSeq| self.index_of(key) is Some && self.index_of(key)->0 < count)
    }

    /// The first `count` entries stand under as many keys.
    proof fn lemma_count(&self, count: int)
        requires
            self.wf(),
            0 <= count <= self.keys@.len(),
        ensures
            self.first_keys(count).finite(),
            self.first_keys(count).len() == count,
        decreases count,
    {
        if count == 0 {
            assert(self.first_keys(0) =~= Set::empty());
        } else {
            self.lemma_count(count - 1);
            self.lemma_index_of(count - 1);
            let key = self.keys@[count - 1]@;
            assert forall|other: AttributeSeq|
                self.first_keys(count).contains(other) <==> self.first_keys(count - 1).insert(
                    key,
                ).contains(other) by {
                if self.index_of(other) is Some {
                    let i = self.index_of(other)->0;
                    self.lemma_index_of(i);
                }
            }
            assert(self.first_keys(count) =~= self.first_keys(count - 1).insert(key));
        }
    }

    /// Whether the grouping holds no attribute vector.
    pub fn is_empty(&self) -> (empty: bool)
        requires
            self.wf(),
        ensures
            empty == (self@ == GroupedCells::empty()),
    {
        proof {
            if self.keys@.len() > 0 {
                self.lemma_index_of(0);
            } else {
                assert(self@ =~= GroupedCells::empty());
            }
        }
        self.keys.len() == 0
    }

    /// Where the attribute vector stands among the entries.
    fn position(&self, attributes: &Attributes) -> (found: Option<usize>)
        requires
            self.wf(),
        ensures
            match found {
                Some(i) => i < self.keys@.len() && self.keys@[i as int]@ == attributes@,
                None => forall|i: int|
                    0 <= i < self.keys@.len() ==> (#[trigger] self.keys@[i])@ != attributes@,
            },
            found is Some == self@.contains_key(attributes@),
    {
        let mut i: usize = 0;
        while i < self.keys.len()
            invariant
                self.wf(),
                i <= self.keys.len(),
                forall|k: int| 0 <= k < i ==> (#[trigger] self.keys@[k])@ != attributes@,
            decreases self.keys.len() - i,
        {
            if same_attributes(&self.keys[i], attributes) {
                proof {
                    self.lemma_index_of(i as int);
                }
                return Some(i);
            }
            i = i + 1;
        }
        None
    }

    /// The stack of the attribute vector, where the grouping holds one.
    pub fn get(&self, attributes: &Attributes) -> (stack: Option<&H3IndexStack>)
        requires
            self.wf(),
        ensures
            match stack {
                Some(found) => found.wf() && self@.contains_key(attributes@) && found@
                    == self@[attributes@],
                None => !self@.contains_key(attributes@),
            },
    {
        match self.position(attributes) {
            Some(i) => {
                proof {
                    self.lemma_index_of(i as int);
                }
                Some(&self.stacks[i])
            },
            None => None,
        }
    }

    /// The `i`-th attribute vector of the grouping, in the order in which they came.
    pub fn key(&self, i: usize) -> (attributes: &Attributes)
        requires
            self.wf(),
            i < self@.dom().len(),
        ensures
            self@.contains_key(attributes@),
    {
        proof {
            self.lemma_count(self.keys@.len() as int);
            assert(self@.dom() =~= self.first_keys(self.keys@.len() as int));
            self.lemma_index_of(i as int);
        }
        &self.keys[i]
    }

    /// Moves `h3indexes` onto the stack of the attribute vector, which is made where
    /// the grouping has none, and compacts that stack from `resolution` up where
    /// `compact` is set. The cells must be cells of the grid of that resolution;
    /// otherwise nothing changes.
    pub fn append_to_resolution(
        &mut self,
        attributes: &Attributes,
        resolution: u8,
        h3indexes: &mut Vec<u64>,
        compact: bool,
    ) -> (outcome: Result<(), Error>)
        requires
            old(self).wf(),
        ensures
            final(self).wf(),
            match outcome {
                Ok(_) => {
                    &&& resolution <= MAX_RESOLUTION
                    &&& all_cells_of(old(h3indexes)@, resolution as int)
                    &&& final(h3indexes)@ == Seq::<u64>::empty()
                    &&& final(self)@ == stacked(
                        old(self)@,
                        attributes@,
                        old(h3indexes)@,
                        resolution as int,
                        compact,
                    )
                },
                Err(error) => {
                    &&& final(self)@ == old(self)@
                    &&& final(h3indexes)@ == old(h3indexes)@
                    &&& error == append_error(old(h3indexes)@, resolution as int)
                    &&& !(resolution <= MAX_RESOLUTION && all_cells_of(
                        old(h3indexes)@,
                        resolution as int,
                    ))
                },
            },
    {
        let ghost before = *self;
        match self.position(attributes) {
            Some(i) => {
                proof {
                    before.lemma_index_of(i as int);
                }
                let outcome = self.stacks[i].append_to_resolution(resolution, h3indexes, compact);
                proof {
                    self.lemma_changed_at(before, i as int);
                    if outcome is Err {
                        assert(self@ =~= before@);
                    } else {
                        assert(self@ =~= stacked(
                            before@,
                            attributes@,
                            old(h3indexes)@,
                            resolution as int,
                            compact,
                        ));
                    }
                }
                outcome
            },
            None => {
                let mut stack = H3IndexStack::new();
                match stack.append_to_resolution(resolution, h3indexes, compact) {
                    Ok(_) => {
                        self.keys.push(copy_attributes(attributes));
                        self.stacks.push(stack);
                        proof {
                            assert(Seq::<u64>::empty() + old(h3indexes)@ =~= old(h3indexes)@);
                            assert(self.keys@.subrange(0, before.keys@.len() as int)
                                =~= before.keys@);
                            assert(self.stacks@.subrange(0, before.stacks@.len() as int)
                                =~= before.stacks@);
                            self.lemma_pushed(before);
                            assert(self@ =~= stacked(
                                before@,
                                attributes@,
                                old(h3indexes)@,
                                resolution as int,
                                compact,
                            ));
                        }
                        Ok(())
                    },
                    Err(error) => Err(error),
                }
            },
        }
    }

    /// Between `before` and `self` only the stack at `i` differs: the two hold the same
    /// keys, and the same cells under every key but that at `i`.
    proof fn lemma_changed_at(&self, before: Self, i: int)
        requires
            before.wf(),
            0 <= i < before.keys@.len(),
            self.keys@ == before.keys@,
            self.stacks@.len() == before.stacks@.len(),
            self.stacks@[i].wf(),
            forall|k: int|
                0 <= k < before.stacks@.len() && k != i ==> #[trigger] self.stacks@[k]
                    == before.stacks@[k],
        ensures
            self.wf(),
            self@.dom() == before@.dom(),
            self@[before.keys@[i]@] == self.stacks@[i]@,
            forall|key: AttributeSeq|
                before@.contains_key(key) && key != before.keys@[i]@ ==> #[trigger] self@[key]
                    == before@[key],
    {
        assert forall|k: int| 0 <= k < self.stacks@.len() implies (#[trigger] self.stacks@[k]).wf() by {
            if k != i {
                assert(before.stacks@[k].wf());
            }
        }
        assert forall|key: AttributeSeq| self.index_of(key) == before.index_of(key) by {}
        assert(self@.dom() =~= before@.dom());
        self.lemma_index_of(i);
        assert forall|key: AttributeSeq|
            before@.contains_key(key) && key != before.keys@[i]@ implies #[trigger] self@[key]
                == before@[key] by {
            let k = before.index_of(key)->0;
            before.lemma_index_of(k);
        }
    }

    /// `self` is `before` with one more entry, under a key that `before` does not hold.
    proof fn lemma_pushed(&self, before: Self)
        requires
            before.wf(),
            self.keys@.len() == before.keys@.len() + 1,
            self.stacks@.len() == before.stacks@.len() + 1,
            self.keys@.subrange(0, before.keys@.len() as int) == before.keys@,
            self.stacks@.subrange(0, before.stacks@.len() as int) == before.stacks@,
            self.stacks@[before.stacks@.len() as int].wf(),
            !before@.contains_key(self.keys@[before.keys@.len() as int]@),
        ensures
            self.wf(),
            self@ == before@.insert(
                self.keys@[before.keys@.len() as int]@,
                self.stacks@[before.stacks@.len() as int]@,
            ),
    {
        let n = before.keys@.len() as int;
        assert forall|k: int| 0 <= k < n implies self.keys@[k] == before.keys@[k]
            && self.stacks@[k] == before.stacks@[k] by {
            assert(self.keys@.subrange(0, n)[k] == self.keys@[k]);
            assert(self.stacks@.subrange(0, n)[k] == self.stacks@[k]);
        }
        assert forall|i: int, j: int| 0 <= i < j < self.keys@.len() implies (
        #[trigger] self.keys@[i])@ != (#[trigger] self.keys@[j])@ by {
            if j == n {
                before.lemma_index_of(i);
            } else {
                assert(before.keys@[i]@ != before.keys@[j]@);
            }
        }
        assert forall|k: int| 0 <= k < self.stacks@.len() implies (#[trigger] self.stacks@[k]).wf() by {
            if k < n {
                assert(before.stacks@[k].wf());
            }
        }
        let target = before@.insert(self.keys@[n]@, self.stacks@[n]@);
        assert forall|key: AttributeSeq| self@.contains_key(key) <==> target.contains_key(key) by {
            if before@.contains_key(key) {
                let k = before.index_of(key)->0;
                before.lemma_index_of(k);
                self.lemma_index_of(k);
            }
            if self@.contains_key(key) {
                let k = self.index_of(key)->0;
                self.lemma_index_of(k);
                if k < n {
                    before.lemma_index_of(k);
                }
            }
            if key == self.keys@[n]@ {
                self.lemma_index_of(n);
            }
        }
        assert forall|key: AttributeSeq| self@.contains_key(key) implies self@[key]
            == target[key] by {
            let k = self.index_of(key)->0;
            self.lemma_index_of(k);
            if k < n {
                before.lemma_index_of(k);
            }
        }
        assert(self@ =~= target);
    }

    /// Moves the cells of `partial` behind those that the grouping holds under the same
    /// attribute vector. Nothing is compacted.
    pub fn merge(&mut self, partial: GroupedH3Indexes)
        requires
            old(self).wf(),
            partial.wf(),
        ensures
            final(self).wf(),
            final(self)@ == merged(old(self)@, partial@),
    {
        let ghost start = *self;
        let GroupedH3Indexes { keys, mut stacks } = partial;
        let mut i: usize = 0;
        while i < keys.len()
            invariant
                i <= keys.len(),
                keys@ == partial.keys@,
                partial.wf(),
                stacks@.len() == keys@.len(),
                forall|k: int| i <= k < keys@.len() ==> #[trigger] stacks@[k] == partial.stacks@[k],
                self.wf(),
                forall|key: AttributeSeq|
                    #![trigger self@.contains_key(key)]
                    self@.contains_key(key) <==> start@.contains_key(key) || (
                    partial.index_of(key) is Some && partial.index_of(key)->0 < i),
                forall|key: AttributeSeq| #[trigger]
                    self@.contains_key(key) ==> self@[key] == if partial.index_of(key) is Some
                        && partial.index_of(key)->0 < i {
                        merged(start@, partial@)[key]
                    } else {
                        start@[key]
                    },
            decreases keys.len() - i,
        {
            let ghost before = *self;
            proof {
                partial.lemma_index_of(i as int);
                assert(stacks@[i as int] == partial.stacks@[i as int]);
                assert(partial.stacks@[i as int].wf());
            }
            match self.position(&keys[i]) {
                Some(at) => {
                    proof {
                        before.lemma_index_of(at as int);
                    }
                    self.stacks[at].append(&mut stacks[i], false);
                    proof {
                        self.lemma_changed_at(before, at as int);
                    }
                },
                None => {
                    let mut stack = H3IndexStack::new();
                    stack.append(&mut stacks[i], false);
                    self.keys.push(copy_attributes(&keys[i]));
                    self.stacks.push(stack);
                    proof {
                        assert(Seq::<u64>::empty() + partial.stacks@[i as int]@
                            =~= partial.stacks@[i as int]@);
                        assert(self.keys@.subrange(0, before.keys@.len() as int) =~= before.keys@);
                        assert(self.stacks@.subrange(0, before.stacks@.len() as int)
                            =~= before.stacks@);
                        self.lemma_pushed(before);
                    }
                },
            }
            proof {
                let added = keys@[i as int]@;
                assert forall|key: AttributeSeq|
                    #![trigger self@.contains_key(key)]
                    self@.contains_key(key) <==> start@.contains_key(key) || (partial.index_of(
                        key,
                    ) is Some && partial.index_of(key)->0 < i + 1) by {
                    if partial.index_of(key) is Some {
                        partial.lemma_index_of(partial.index_of(key)->0);
                    }
                }
                assert forall|key: AttributeSeq| #[trigger]
                    self@.contains_key(key) implies self@[key] == if partial.index_of(key) is Some
                    && partial.index_of(key)->0 < i + 1 {
                    merged(start@, partial@)[key]
                } else {
                    start@[key]
                } by {
                    if partial.index_of(key) is Some {
                        partial.lemma_index_of(partial.index_of(key)->0);
                    }
                    if key != added {
                        assert(before@.contains_key(key));
                    }
                }
            }
            i = i + 1;
        }
        proof {
            assert forall|key: AttributeSeq|
                self@.contains_key(key) <==> merged(start@, partial@).contains_key(key) by {
                if partial.index_of(key) is Some {
                    partial.lemma_index_of(partial.index_of(key)->0);
                }
            }
            assert(self@ =~= merged(start@, partial@));
        }
    }

    /// Compacts the stack of every attribute vector.
    pub fn compact(&mut self)
        requires
            old(self).wf(),
        ensures
            final(self).wf(),
            final(self)@ == compacted(old(self)@),
    {
        let ghost start = *self;
        let mut i: usize = 0;
        while i < self.stacks.len()
            invariant
                i <= self.stacks@.len(),
                start.wf(),
                self.wf(),
                self.keys@ == start.keys@,
                self.stacks@.len() == start.stacks@.len(),
                forall|k: int|
                    0 <= k < i ==> (#[trigger] self.stacks@[k])@ == compact_from(
                        start.stacks@[k]@,
                        MAX_RESOLUTION as int,
                    ),
                forall|k: int|
                    i <= k < self.stacks@.len() ==> #[trigger] self.stacks@[k] == start.stacks@[k],
            decreases self.stacks@.len() - i,
        {
            let ghost before = *self;
            self.stacks[i].compact();
            proof {
                self.lemma_changed_at(before, i as int);
            }
            i = i + 1;
        }
        proof {
            assert forall|key: AttributeSeq| self.index_of(key) == start.index_of(key) by {}
            assert forall|key: AttributeSeq| self@.contains_key(key) implies self@[key]
                == compacted(start@)[key] by {
                let k = self.index_of(key)->0;
                self.lemma_index_of(k);
                start.lemma_index_of(k);
            }
            assert(self@ =~= compacted(start@));
        }
    }
}

/// The grouping after cells were stacked under a key: they stand behind what the key
/// held, and the stack of the key is compacted from `resolution` up where `compact` is
/// set.
pub open spec fn stacked(
    groups: GroupedCells,
    key: AttributeSeq,
    cells: Seq<u64>,
    resolution: int,
    compact: bool,
) -> GroupedCells {
    let held = if groups.contains_key(key) {
        groups[key]
    } else {
        Seq::empty()
    };
    groups.insert(
        key,
        if compact {
            compact_from(held + cells, resolution)
        } else {
            held + cells
        },
    )
}

} // verus!
