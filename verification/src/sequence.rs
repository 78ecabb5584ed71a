//! An ordered collection of operations, keyed by their names, with summaries of its stretches.
use crate::digest::{digest_of, lemma_digest_count, Digest};
use crate::history::{clip, lemma_rank, lemma_upsert, rank, sorted, upsert, upsert_all};
use crate::ids::OperationId;
use crate::messages::Operation;
use crate::sync::OperationSummary;
use vstd::prelude::*;

verus! {

/// What a sequence holds: a value that can be summarized.
pub trait Item {
    type Summary;

    /// The summary of this item alone.
    fn summary(&self) -> Self::Summary;
}

/// An item with a key, by which a sequence orders its items.
pub trait KeyedItem: Item {
    type Key;

    /// The key of this item.
    fn key(&self) -> Self::Key;
}

/// What sums up a stretch of items.
pub trait Summary: Sized {
    /// The summary of two adjoining stretches.
    spec fn joined(self, summary: Self) -> Self;

    /// The two can be added without a count running over.
    spec fn joinable(self, summary: Self) -> bool;

    /// Extends the stretch that this sums up by the one that `summary` sums up.
    fn add_summary(&mut self, summary: &Self)
        requires
            old(self).joinable(*summary),
        ensures
            *final(self) == old(self).joined(*summary),
    ;
}

/// A measure of how far into a sequence a position lies.
pub trait Dimension<S>: Sized {
    /// This position, moved past a stretch that `summary` sums up.
    spec fn moved(self, summary: S) -> Self;

    /// The move can be made without a count running over.
    spec fn movable(self, summary: S) -> bool;

    /// Moves past a stretch that `summary` sums up.
    fn add_summary(&mut self, summary: &S)
        requires
            old(self).movable(*summary),
        ensures
            *final(self) == old(self).moved(*summary),
    ;
}

/// Operations in the order of their names, each name at most once.
#[derive(Debug)]
pub struct Sequence {
    items: Vec<Operation>,
}

impl View for Sequence {
    type V = Seq<Operation>;

    closed spec fn view(&self) -> Seq<Operation> {
        self.items@
    }
}

impl Sequence {
    #[verifier::type_invariant]
    pub open spec fn ordered(self) -> bool {
        sorted(self@) && self@.len() <= usize::MAX
    }

    /// A sequence without operations.
    pub fn new() -> (sequence: Self)
        ensures
            sequence@ == Seq::<Operation>::empty(),
    {
        Sequence { items: Vec::new() }
    }

    /// A sequence of `operations`. Of several with one name the last stays.
    pub fn from_operations(operations: Vec<Operation>) -> (sequence: Self)
        ensures
            sequence@ == upsert_all(Seq::empty(), operations@),
            sorted(sequence@),
    {
        let mut sequence = Sequence::new();
        sequence.edit(operations);
        sequence
    }

    /// The operations, first to last.
    pub fn operations(&self) -> (operations: &Vec<Operation>)
        ensures
            operations@ == self@,
            sorted(operations@),
    {
        proof {
            use_type_invariant(self);
        }
        &self.items
    }

    /// What sums up all the operations.
    pub fn summary(&self) -> (summary: OperationSummary)
        ensures
            summary.digest == digest_of(self@),
            summary.digest.count == self@.len(),
    {
        let mut summary = OperationSummary::default();
        let mut i: usize = 0;
        while i < self.items.len()
            invariant
                i <= self.items.len(),
                summary.digest == digest_of(self.items@.take(i as int)),
            decreases self.items.len() - i,
        {
            proof {
                lemma_digest_count(self.items@.take(i as int));
                assert(self.items@.take(i + 1).drop_last() =~= self.items@.take(i as int));
            }
            summary.add_summary(&self.items[i].summary());
            i = i + 1;
        }
        proof {
            assert(self.items@.take(i as int) =~= self.items@);
            lemma_digest_count(self.items@);
        }
        summary
    }

    fn rank(items: &Vec<Operation>, id: &OperationId) -> (place: usize)
        requires
            sorted(items@),
        ensures
            place == rank(items@, *id),
            place <= items@.len(),
    {
        proof {
            lemma_rank(items@, *id);
        }
        let mut low: usize = 0;
        let mut high: usize = items.len();
        while low < high
            invariant
                low <= rank(items@, *id) <= high <= items@.len(),
                forall|i: int|
                    #![trigger items@[i]]
                    0 <= i < rank(items@, *id) ==> items@[i].id().before(*id),
                forall|i: int|
                    #![trigger items@[i]]
                    rank(items@, *id) <= i < items@.len() ==> !items@[i].id().before(*id),
            decreases high - low,
        {
            let middle: usize = low + (high - low) / 2;
            let key = items[middle].key();
            assert(key == items@[middle as int].id());
            if key.is_before(id) {
                low = middle + 1;
            } else {
                high = middle;
            }
        }
        low
    }

    fn upsert(items: &mut Vec<Operation>, operation: Operation)
        requires
            sorted(old(items)@),
        ensures
            final(items)@ == upsert(old(items)@, operation),
            sorted(final(items)@),
    {
        proof {
            lemma_upsert(items@, operation);
        }
        let id = operation.key();
        let place = Sequence::rank(items, &id);
        if place < items.len() && items[place].key() == id {
            items.set(place, operation);
        } else {
            items.insert(place, operation);
        }
    }

    /// Puts `operation` at its place, in the stead of the one of the same name if there is one.
    pub fn insert_or_replace(&mut self, operation: Operation)
        ensures
            final(self)@ == upsert(old(self)@, operation),
            sorted(final(self)@),
    {
        let mut operations: Vec<Operation> = Vec::new();
        operations.push(operation);
        self.edit(operations);
        proof {
            let inserts = seq![operation];
            assert(operations@ =~= inserts);
            assert(inserts.drop_last() =~= Seq::<Operation>::empty());
            reveal_with_fuel(upsert_all, 2);
        }
    }

    /// Puts each of `operations` at its place, first to last, in the stead of the one of the same
    /// name if there is one.
    pub fn edit(&mut self, operations: Vec<Operation>)
        ensures
            final(self)@ == upsert_all(old(self)@, operations@),
            sorted(final(self)@),
    {
        proof {
            use_type_invariant(&*self);
        }
        let mut items: Vec<Operation> = Vec::new();
        std::mem::swap(&mut items, &mut self.items);
        for operation in rest: operations
            invariant
                sorted(items@),
                rest.seq() == operations@,
                items@ == upsert_all(old(self)@, operations@.take(rest.index())),
        {
            proof {
                assert(operations@.take(rest.index() + 1).drop_last() =~= operations@.take(
                    rest.index(),
                ));
            }
            Sequence::upsert(&mut items, operation);
        }
        assert(operations@.take(operations@.len() as int) =~= operations@);
        assert(items.len() <= usize::MAX);
        self.items = items;
    }

    /// A cursor on the first operation.
    pub fn cursor(&self) -> (cursor: Cursor<'_>)
        ensures
            cursor.operations() == self@,
            cursor.position() == 0,
    {
        Cursor { operations: &self.items, start: 0 }
    }
}

/// A position in a sequence, counted in operations.
pub struct Cursor<'a> {
    operations: &'a Vec<Operation>,
    start: usize,
}

impl<'a> Cursor<'a> {
    /// The operations that the cursor walks over.
    pub closed spec fn operations(self) -> Seq<Operation> {
        self.operations@
    }

    /// How many operations the cursor has passed.
    pub closed spec fn position(self) -> int {
        self.start as int
    }

    #[verifier::type_invariant]
    pub open spec fn within(self) -> bool {
        0 <= self.position() <= self.operations().len()
    }

    /// How many operations the cursor has passed.
    pub fn start(&self) -> (start: usize)
        ensures
            start == self.position(),
            start <= self.operations().len(),
    {
        proof {
            use_type_invariant(self);
        }
        self.start
    }

    /// The operation under the cursor, unless it has passed them all.
    pub fn item(&self) -> (item: Option<&'a Operation>)
        ensures
            item == (if self.position() < self.operations().len() {
                Some(&self.operations()[self.position()])
            } else {
                None::<&Operation>
            }),
    {
        if self.start < self.operations.len() {
            Some(&self.operations[self.start])
        } else {
            None
        }
    }

    /// Moves past the operation under the cursor, if there is one.
    pub fn next(&mut self)
        ensures
            final(self).operations() == old(self).operations(),
            final(self).position() == (if old(self).position() < old(self).operations().len() {
                old(self).position() + 1
            } else {
                old(self).position()
            }),
    {
        if self.start < self.operations.len() {
            let mut start: usize = self.start;
            Dimension::add_summary(&mut start, &self.operations[self.start].summary());
            self.start = start;
        }
    }

    /// Moves to where `target` operations are passed, or to the end if there are fewer.
    pub fn seek(&mut self, target: usize)
        ensures
            final(self).operations() == old(self).operations(),
            final(self).position() == (if target < old(self).operations().len() {
                target as int
            } else {
                old(self).operations().len() as int
            }),
    {
        self.start = 0;
        while self.start < target && self.start < self.operations.len()
            invariant
                self.operations() == old(self).operations(),
                self.start <= target,
                self.start <= self.operations.len(),
            decreases self.operations.len() - self.start,
        {
            self.next();
        }
    }

    /// Moves to where `end` operations are passed, unless more are passed already, or to the end
    /// if there are fewer, and digests what it passes on the way.
    pub fn summary(&mut self, end: usize) -> (digest: Digest)
        ensures
            final(self).operations() == old(self).operations(),
            digest == digest_of(
                clip(old(self).operations(), old(self).position(), end as int),
            ),
            final(self).position() == old(self).position() + clip(
                old(self).operations(),
                old(self).position(),
                end as int,
            ).len(),
    {
        proof {
            use_type_invariant(&*self);
        }
        let first = self.start;
        let mut digest = Digest::default();
        assert(self.operations@.subrange(first as int, first as int) =~= Seq::empty());
        while self.start < end && self.start < self.operations.len()
            invariant
                self.operations() == old(self).operations(),
                first == old(self).position(),
                first <= self.start <= self.operations.len(),
                self.start <= end || self.start == first,
                digest == digest_of(
                    self.operations@.subrange(first as int, self.start as int),
                ),
            decreases self.operations.len() - self.start,
        {
            proof {
                let passed = self.operations@.subrange(first as int, self.start as int);
                lemma_digest_count(passed);
                assert(self.operations@.subrange(first as int, self.start + 1).drop_last()
                    =~= passed);
            }
            Dimension::add_summary(&mut digest, &self.operations[self.start].summary());
            self.next();
        }
        digest
    }
}

} // verus!
