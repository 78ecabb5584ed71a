//! Digests of stretches of a history, and sequences of them.
use crate::history::{same_ids, sorted};
use crate::ids::OperationId;
use crate::messages::Operation;
use std::ops::Range;
use vstd::arithmetic::div_mod::{lemma_mul_mod_noop_left, lemma_mul_mod_noop_right, lemma_small_mod};
use vstd::arithmetic::mul::lemma_mul_is_associative;
use vstd::prelude::*;

verus! {

/// Spreads the bits of `x` over the whole word.
pub open spec fn mixed(x: u64) -> u64 {
    let y = (x ^ (x >> 30u64)).wrapping_mul(0xbf58_476d_1ce4_e5b9);
    let z = (y ^ (y >> 27u64)).wrapping_mul(0x94d0_49bb_1331_11eb);
    z ^ (z >> 31u64)
}

fn mix(x: u64) -> (result: u64)
    ensures
        result == mixed(x),
{
    let y: u64 = (x ^ (x >> 30u64)).wrapping_mul(0xbf58_476d_1ce4_e5b9);
    let z: u64 = (y ^ (y >> 27u64)).wrapping_mul(0x94d0_49bb_1331_11eb);
    z ^ (z >> 31u64)
}

/// The hash of one name.
pub open spec fn id_hash(id: OperationId) -> u64 {
    let replica = mixed((id.replica_id.0 as u64).wrapping_add(0x9e37_79b9_7f4a_7c15));
    mixed(replica.wrapping_add(id.operation_count.0 as u64))
}

/// What stands for a stretch of a history: how many operations it has, the last of their names,
/// and a hash of all the names.
#[derive(Clone, Copy, Debug, PartialEq, Eq, Structural)]
pub struct Digest {
    pub count: usize,
    pub max_op_id: OperationId,
    pub hash: u64,
}

impl Digest {
    /// The digest of no operations.
    pub open spec fn empty() -> Digest {
        Digest { count: 0, max_op_id: OperationId::first(), hash: 0 }
    }

    /// The digest of two stretches, one after the other.
    pub open spec fn plus(self, other: Digest) -> Digest {
        Digest {
            count: (self.count + other.count) as usize,
            max_op_id: self.max_op_id.later(other.max_op_id),
            hash: self.hash.wrapping_add(other.hash),
        }
    }

    /// The digest of one operation.
    pub open spec fn of(op: Operation) -> Digest {
        Digest { count: 1, max_op_id: op.id(), hash: id_hash(op.id()) }
    }

    /// Extends the stretch that this digest stands for by the one that `summary` stands for.
    pub fn add_summary(&mut self, summary: &Digest)
        requires
            old(self).count + summary.count <= usize::MAX,
        ensures
            *final(self) == old(self).plus(*summary),
    {
        self.count = self.count + summary.count;
        if self.max_op_id.is_before(&summary.max_op_id) {
            self.max_op_id = summary.max_op_id;
        }
        self.hash = self.hash.wrapping_add(summary.hash);
    }
}

impl Default for Digest {
    fn default() -> (digest: Self)
        ensures
            digest == Digest::empty(),
    {
        Digest { count: 0, max_op_id: Default::default(), hash: 0 }
    }
}

impl From<&Operation> for Digest {
    fn from(operation: &Operation) -> (digest: Self) {
        let id = operation.id();
        let replica: u64 = mix((id.replica_id.0 as u64).wrapping_add(0x9e37_79b9_7f4a_7c15));
        Digest {
            count: 1,
            max_op_id: id,
            hash: mix(replica.wrapping_add(id.operation_count.0 as u64)),
        }
    }
}

impl vstd::std_specs::convert::FromSpecImpl<&Operation> for Digest {
    open spec fn obeys_from_spec() -> bool {
        true
    }

    open spec fn from_spec(operation: &Operation) -> Digest {
        Digest::of(*operation)
    }
}

/// The digest of a stretch of operations.
pub open spec fn digest_of(ops: Seq<Operation>) -> Digest
    decreases ops.len(),
{
    if ops.len() == 0 {
        Digest::empty()
    } else {
        digest_of(ops.drop_last()).plus(Digest::of(ops.last()))
    }
}

/// A digest counts the operations of its stretch.
pub proof fn lemma_digest_count(ops: Seq<Operation>)
    requires
        ops.len() <= usize::MAX,
    ensures
        digest_of(ops).count == ops.len(),
    decreases ops.len(),
{
    if ops.len() > 0 {
        lemma_digest_count(ops.drop_last());
    }
}

proof fn lemma_plus(a: Digest, b: Digest, c: Digest)
    requires
        a.count + b.count + c.count <= usize::MAX,
    ensures
        a.plus(b).plus(c) == a.plus(b.plus(c)),
        a.plus(Digest::empty()) == a,
        Digest::empty().plus(a) == a,
{
}

/// The digest of two adjoining stretches is made of the digests of the two.
pub proof fn law_digest_of_adjoining(a: Seq<Operation>, b: Seq<Operation>)
    requires
        a.len() + b.len() <= usize::MAX,
    ensures
        digest_of(a + b) == digest_of(a).plus(digest_of(b)),
    decreases b.len(),
{
    lemma_digest_count(a);
    lemma_digest_count(b);
    if b.len() == 0 {
        assert(a + b =~= a);
        lemma_plus(digest_of(a), Digest::empty(), Digest::empty());
    } else {
        let shorter = b.drop_last();
        assert((a + b).drop_last() =~= a + shorter);
        law_digest_of_adjoining(a, shorter);
        lemma_digest_count(shorter);
        lemma_plus(digest_of(a), digest_of(shorter), Digest::of(b.last()));
    }
}

/// A digest tells nothing of a stretch but its names: stretches of the same names have the same
/// digest, whatever else the operations hold.
pub proof fn law_digest_of_same_ids(a: Seq<Operation>, b: Seq<Operation>)
    requires
        same_ids(a, b),
    ensures
        digest_of(a) == digest_of(b),
    decreases a.len(),
{
    if a.len() > 0 {
        let c = a.drop_last();
        let d = b.drop_last();
        assert forall|i: int| #![trigger c[i]] #![trigger d[i]] 0 <= i < c.len() implies c[i].id()
            == d[i].id() by {
            assert(c[i] == a[i] && d[i] == b[i]);
        }
        law_digest_of_same_ids(c, d);
        assert(a[a.len() - 1].id() == b[b.len() - 1].id());
    }
}

proof fn lemma_factor_undone(x: u64, factor: u64, inverse: u64)
    requires
        (factor * inverse) % 0x1_0000_0000_0000_0000 == 1,
    ensures
        (x.wrapping_mul(factor) * inverse) % 0x1_0000_0000_0000_0000 == x,
{
    let modulus: int = 0x1_0000_0000_0000_0000;
    let product = x * factor;
    assert(0 <= product) by (nonlinear_arith)
        requires
            product == x * factor,
            0 <= x,
            0 <= factor,
    ;
    assert(x.wrapping_mul(factor) == product % modulus);
    lemma_mul_mod_noop_left(product, inverse as int, modulus);
    lemma_mul_is_associative(x as int, factor as int, inverse as int);
    lemma_mul_mod_noop_right(x as int, factor * inverse, modulus);
    assert(x * 1 == x);
    lemma_small_mod(x as nat, modulus as nat);
}

/// No two words are mixed to the same one.
pub proof fn law_mixed_apart(x: u64, y: u64)
    requires
        mixed(x) == mixed(y),
    ensures
        x == y,
{
    let a = x ^ (x >> 30u64);
    let b = y ^ (y >> 30u64);
    let c = a.wrapping_mul(0xbf58_476d_1ce4_e5b9);
    let d = b.wrapping_mul(0xbf58_476d_1ce4_e5b9);
    let e = c ^ (c >> 27u64);
    let f = d ^ (d >> 27u64);
    let g = e.wrapping_mul(0x94d0_49bb_1331_11eb);
    let h = f.wrapping_mul(0x94d0_49bb_1331_11eb);
    assert(g ^ (g >> 31u64) == h ^ (h >> 31u64) ==> g == h) by (bit_vector);
    lemma_factor_undone(e, 0x94d0_49bb_1331_11eb, 0x3196_42b2_d24d_8ec3);
    lemma_factor_undone(f, 0x94d0_49bb_1331_11eb, 0x3196_42b2_d24d_8ec3);
    assert(c ^ (c >> 27u64) == d ^ (d >> 27u64) ==> c == d) by (bit_vector);
    lemma_factor_undone(a, 0xbf58_476d_1ce4_e5b9, 0x96de_1b17_3f11_9089);
    lemma_factor_undone(b, 0xbf58_476d_1ce4_e5b9, 0x96de_1b17_3f11_9089);
    assert(x ^ (x >> 30u64) == y ^ (y >> 30u64) ==> x == y) by (bit_vector);
}

/// Different names of one replica have different hashes, and so have names of different replicas
/// with the same count.
pub proof fn law_names_hash_apart(a: OperationId, b: OperationId)
    requires
        a.replica_id == b.replica_id || a.operation_count == b.operation_count,
    ensures
        id_hash(a) == id_hash(b) <==> a == b,
        id_hash(a) == id_hash(b) <==> a.replica_id.0 == b.replica_id.0 && a.operation_count.0
            == b.operation_count.0,
{
    if id_hash(a) == id_hash(b) {
        let r = (a.replica_id.0 as u64).wrapping_add(0x9e37_79b9_7f4a_7c15);
        let s = (b.replica_id.0 as u64).wrapping_add(0x9e37_79b9_7f4a_7c15);
        law_mixed_apart(
            mixed(r).wrapping_add(a.operation_count.0 as u64),
            mixed(s).wrapping_add(b.operation_count.0 as u64),
        );
        if a.operation_count == b.operation_count {
            assert(mixed(r) == mixed(s));
            law_mixed_apart(r, s);
        }
    }
}

/// Names of two replicas have the same hash at no more than one distance of their counts.
pub proof fn law_names_of_two_replicas(
    a: OperationId,
    b: OperationId,
    c: OperationId,
    d: OperationId,
)
    requires
        a.replica_id == c.replica_id,
        b.replica_id == d.replica_id,
        id_hash(a) == id_hash(b),
        id_hash(c) == id_hash(d),
    ensures
        ({
            let shift = (a.operation_count.0 - b.operation_count.0) - (c.operation_count.0
                - d.operation_count.0);
            shift == 0 || shift == 0x1_0000_0000_0000_0000 || shift == -0x1_0000_0000_0000_0000
        }),
{
    let r = mixed((a.replica_id.0 as u64).wrapping_add(0x9e37_79b9_7f4a_7c15));
    let s = mixed((b.replica_id.0 as u64).wrapping_add(0x9e37_79b9_7f4a_7c15));
    law_mixed_apart(
        r.wrapping_add(a.operation_count.0 as u64),
        s.wrapping_add(b.operation_count.0 as u64),
    );
    law_mixed_apart(
        r.wrapping_add(c.operation_count.0 as u64),
        s.wrapping_add(d.operation_count.0 as u64),
    );
}

/// Joining two stretches adds up what they count, keeps the later of the two last names, and
/// nothing is joined with an empty stretch but what there was.
pub proof fn law_plus(a: Digest, b: Digest)
    requires
        a.count + b.count <= usize::MAX,
    ensures
        a.plus(b).count == a.count + b.count,
        a.plus(b).max_op_id == a.max_op_id || a.plus(b).max_op_id == b.max_op_id,
        !a.plus(b).max_op_id.before(a.max_op_id),
        !a.plus(b).max_op_id.before(b.max_op_id),
        a.plus(b).hash == b.plus(a).hash,
        a.plus(digest_of(Seq::empty())) == a,
        digest_of(Seq::empty()).plus(a) == a,
{
    lemma_plus(a, b, digest_of(Seq::empty()));
}

/// The digest of one operation counts one, and holds its name and the hash of it.
pub proof fn law_digest_of_one(op: Operation)
    ensures
        digest_of(seq![op]) == Digest::of(op),
        Digest::of(op).count == 1,
        Digest::of(op).max_op_id == op.id(),
        Digest::of(op).hash == id_hash(op.id()),
{
    let one = seq![op];
    assert(one.drop_last() =~= Seq::<Operation>::empty());
    assert(digest_of(one.drop_last()) == Digest::empty());
    lemma_plus(Digest::of(op), Digest::empty(), Digest::empty());
}

/// Digests combine one after the other.
pub proof fn law_combined(digests: Seq<Digest>, digest: Digest)
    ensures
        combined(Seq::<Digest>::empty()) == digest_of(Seq::empty()),
        combined(digests.push(digest)) == combined(digests).plus(digest),
{
    assert(digests.push(digest).drop_last() =~= digests);
}

/// In the hash of two stretches neither hides the other: with one of them fixed, the other's hash
/// shows.
pub proof fn law_hash_cancels(a: Digest, b: Digest, c: Digest)
    ensures
        a.plus(b).hash == a.plus(c).hash <==> b.hash == c.hash,
        b.plus(a).hash == c.plus(a).hash <==> b.hash == c.hash,
{
}

/// One more operation, wherever it stands in a stretch, moves the hash by that of its name.
pub proof fn law_hash_of_one_more(a: Seq<Operation>, x: Operation, b: Seq<Operation>)
    requires
        a.len() + b.len() + 1 <= usize::MAX,
    ensures
        digest_of(a + seq![x] + b).hash == digest_of(a + b).hash.wrapping_add(id_hash(x.id())),
        digest_of(a + seq![x] + b).count == digest_of(a + b).count + 1,
{
    let one = seq![x];
    assert(one.drop_last() =~= Seq::<Operation>::empty());
    assert(digest_of(one.drop_last()) == Digest::empty());
    assert(digest_of(one) == Digest::empty().plus(Digest::of(x)));
    law_digest_of_adjoining(a + one, b);
    law_digest_of_adjoining(a, one);
    law_digest_of_adjoining(a, b);
    lemma_digest_count(a + b);
    lemma_digest_count(a + one + b);
}

/// The digest of a stretch depends on each of its names: two stretches that differ in the name of
/// one operation have the same hash only if the two names have, and so never where the names are of
/// one replica.
pub proof fn law_digest_tells_names(
    a: Seq<Operation>,
    x: Operation,
    y: Operation,
    b: Seq<Operation>,
)
    requires
        a.len() + b.len() + 1 <= usize::MAX,
    ensures
        digest_of(a + seq![x] + b).hash == digest_of(a + seq![y] + b).hash <==> id_hash(x.id())
            == id_hash(y.id()),
        x.id().replica_id == y.id().replica_id || x.id().operation_count
            == y.id().operation_count ==> (digest_of(a + seq![x] + b) == digest_of(
            a + seq![y] + b,
        ) <==> x.id() == y.id()),
{
    law_hash_of_one_more(a, x, b);
    law_hash_of_one_more(a, y, b);
    if x.id().replica_id == y.id().replica_id || x.id().operation_count == y.id().operation_count {
        law_names_hash_apart(x.id(), y.id());
        if x.id() == y.id() {
            law_digest_of_same_ids(a + seq![x] + b, a + seq![y] + b);
        }
    }
}

/// A digest counts the operations of its stretch and holds the last of their names, which is that
/// of the last operation where they are in order. That of no operations holds the least name.
pub proof fn law_digest_counts_and_names(ops: Seq<Operation>)
    requires
        ops.len() <= usize::MAX,
    ensures
        digest_of(ops).count == ops.len(),
        forall|i: int|
            #![trigger ops[i]]
            0 <= i < ops.len() ==> !digest_of(ops).max_op_id.before(ops[i].id()),
        ops.len() > 0 ==> exists|i: int|
            #![trigger ops[i]]
            0 <= i < ops.len() && digest_of(ops).max_op_id == ops[i].id(),
        ops.len() > 0 && sorted(ops) ==> digest_of(ops).max_op_id == ops.last().id(),
        ops.len() == 0 ==> digest_of(ops).max_op_id.replica_id.0 == 0 && digest_of(
            ops,
        ).max_op_id.operation_count.0 == 0 && digest_of(ops).hash == 0,
    decreases ops.len(),
{
    lemma_digest_count(ops);
    if ops.len() > 0 {
        let shorter = ops.drop_last();
        let last = ops[ops.len() - 1];
        law_digest_counts_and_names(shorter);
        let before = digest_of(shorter).max_op_id;
        assert(digest_of(ops).max_op_id == before.later(last.id()));
        assert forall|i: int| #![trigger ops[i]] 0 <= i < ops.len() implies !digest_of(
            ops,
        ).max_op_id.before(ops[i].id()) by {
            if i < shorter.len() {
                assert(shorter[i] == ops[i]);
            }
        }
        if shorter.len() > 0 {
            let i = choose|i: int|
                #![trigger shorter[i]]
                0 <= i < shorter.len() && before == shorter[i].id();
            assert(ops[i].id() == before);
            if sorted(ops) {
                assert(ops[i].id().before(last.id()));
            }
        } else {
            assert(!OperationId::first().before(last.id()) ==> last.id()
                == OperationId::first());
        }
    }
}

/// How many operations the digests stand for, all together.
pub open spec fn total(digests: Seq<Digest>) -> int
    decreases digests.len(),
{
    if digests.len() == 0 {
        0
    } else {
        total(digests.drop_last()) + digests.last().count
    }
}

/// One digest in place of several adjoining ones.
pub open spec fn combined(digests: Seq<Digest>) -> Digest
    decreases digests.len(),
{
    if digests.len() == 0 {
        Digest::empty()
    } else {
        combined(digests.drop_last()).plus(digests.last())
    }
}

/// How many of the leading digests it takes to reach `position`: all of them if they do not
/// reach it.
pub open spec fn reach(digests: Seq<Digest>, position: int) -> int
    decreases digests.len(),
{
    if digests.len() == 0 {
        0
    } else if total(digests.drop_last()) >= position {
        reach(digests.drop_last(), position)
    } else {
        digests.len() as int
    }
}

/// The index past the last digest that a range of positions touches, whose first one is the
/// digest at `reach(digests, start)`.
pub open spec fn reach_from(digests: Seq<Digest>, start: int, end: int) -> int {
    if end < start {
        reach(digests, start)
    } else {
        reach(digests, end)
    }
}

/// The digests that a range of positions touches.
pub open spec fn touched(digests: Seq<Digest>, start: int, end: int) -> Seq<Digest> {
    digests.subrange(reach(digests, start), reach_from(digests, start, end))
}

/// `digests` with `inserts` in place of those that a range of positions touches.
pub open spec fn spliced(
    digests: Seq<Digest>,
    start: int,
    end: int,
    inserts: Seq<Digest>,
) -> Seq<Digest> {
    digests.take(reach(digests, start)) + inserts + digests.skip(reach_from(digests, start, end))
}

pub proof fn lemma_total_concat(a: Seq<Digest>, b: Seq<Digest>)
    ensures
        total(a + b) == total(a) + total(b),
    decreases b.len(),
{
    if b.len() == 0 {
        assert(a + b =~= a);
    } else {
        assert((a + b).drop_last() =~= a + b.drop_last());
        lemma_total_concat(a, b.drop_last());
    }
}

pub proof fn lemma_total_nonnegative(digests: Seq<Digest>)
    ensures
        total(digests) >= 0,
    decreases digests.len(),
{
    if digests.len() > 0 {
        lemma_total_nonnegative(digests.drop_last());
    }
}

pub proof fn lemma_total_split(digests: Seq<Digest>, i: int)
    requires
        0 <= i <= digests.len(),
    ensures
        total(digests) == total(digests.take(i)) + total(digests.skip(i)),
        0 <= total(digests.take(i)) <= total(digests),
{
    assert(digests.take(i) + digests.skip(i) =~= digests);
    lemma_total_concat(digests.take(i), digests.skip(i));
    lemma_total_nonnegative(digests.take(i));
    lemma_total_nonnegative(digests.skip(i));
}

pub proof fn lemma_total_next(digests: Seq<Digest>, i: int)
    requires
        0 <= i < digests.len(),
    ensures
        total(digests.take(i + 1)) == total(digests.take(i)) + digests[i].count,
        combined(digests.take(i + 1)) == combined(digests.take(i)).plus(digests[i]),
{
    assert(digests.take(i + 1).drop_last() =~= digests.take(i));
}

/// The index up to which the digests fall short of a position by one, and then reach it, is
/// `reach`.
pub proof fn lemma_reach_is(digests: Seq<Digest>, position: int, i: int)
    requires
        0 <= i <= digests.len(),
        i == 0 || total(digests.take(i - 1)) < position,
        i == digests.len() || total(digests.take(i)) >= position,
    ensures
        reach(digests, position) == i,
    decreases digests.len(),
{
    if digests.len() > 0 {
        let shorter = digests.drop_last();
        assert(shorter =~= digests.take(digests.len() - 1));
        if i < digests.len() {
            assert(shorter.take(i) =~= digests.take(i));
            if i > 0 {
                assert(shorter.take(i - 1) =~= digests.take(i - 1));
            }
            lemma_total_split(shorter, i);
            lemma_reach_is(shorter, position, i);
        }
    }
}

/// What `reach` is.
pub proof fn lemma_reach(digests: Seq<Digest>, position: int)
    ensures
        0 <= reach(digests, position) <= digests.len(),
        reach(digests, position) == 0 || total(digests.take(reach(digests, position) - 1))
            < position,
        reach(digests, position) == digests.len() || total(
            digests.take(reach(digests, position)),
        ) >= position,
    decreases digests.len(),
{
    if digests.len() > 0 {
        let shorter = digests.drop_last();
        assert(shorter =~= digests.take(digests.len() - 1));
        lemma_reach(shorter, position);
        let i = reach(shorter, position);
        if total(shorter) >= position {
            assert(shorter.take(i) =~= digests.take(i));
            if i > 0 {
                assert(shorter.take(i - 1) =~= digests.take(i - 1));
            }
        }
    }
}

pub proof fn lemma_reach_monotonic(digests: Seq<Digest>, a: int, b: int)
    requires
        a <= b,
    ensures
        0 <= reach(digests, a) <= reach(digests, b) <= digests.len(),
    decreases digests.len(),
{
    lemma_reach(digests, a);
    lemma_reach(digests, b);
    if digests.len() > 0 {
        lemma_reach_monotonic(digests.drop_last(), a, b);
    }
}

pub proof fn lemma_combined_count(digests: Seq<Digest>)
    requires
        total(digests) <= usize::MAX,
    ensures
        combined(digests).count == total(digests),
    decreases digests.len(),
{
    if digests.len() > 0 {
        lemma_total_nonnegative(digests.drop_last());
        lemma_combined_count(digests.drop_last());
    }
}

/// The digests stand for adjoining stretches, none of them empty, which together are `ops`.
pub open spec fn describes(digests: Seq<Digest>, ops: Seq<Operation>) -> bool
    decreases digests.len(),
{
    if digests.len() == 0 {
        ops.len() == 0
    } else {
        let rest = ops.len() - digests.last().count;
        &&& 0 <= rest < ops.len()
        &&& digests.last() == digest_of(ops.skip(rest))
        &&& describes(digests.drop_last(), ops.take(rest))
    }
}

/// Digests that describe operations count them, and combine to their digest.
pub proof fn law_described(digests: Seq<Digest>, ops: Seq<Operation>)
    requires
        describes(digests, ops),
        ops.len() <= usize::MAX,
    ensures
        total(digests) == ops.len(),
        combined(digests) == digest_of(ops),
    decreases digests.len(),
{
    if digests.len() > 0 {
        let rest = ops.len() - digests.last().count;
        law_described(digests.drop_last(), ops.take(rest));
        law_digest_of_adjoining(ops.take(rest), ops.skip(rest));
        assert(ops.take(rest) + ops.skip(rest) =~= ops);
    }
}

/// Descriptions of adjoining stretches adjoin.
pub proof fn lemma_describes_concat(
    a: Seq<Digest>,
    ops_a: Seq<Operation>,
    b: Seq<Digest>,
    ops_b: Seq<Operation>,
)
    requires
        describes(a, ops_a),
        describes(b, ops_b),
    ensures
        describes(a + b, ops_a + ops_b),
    decreases b.len(),
{
    if b.len() == 0 {
        assert(a + b =~= a);
        assert(ops_a + ops_b =~= ops_a);
    } else {
        let rest = ops_b.len() - b.last().count;
        let shorter = b.drop_last();
        lemma_describes_concat(a, ops_a, shorter, ops_b.take(rest));
        assert((a + b).drop_last() =~= a + shorter);
        assert((ops_a + ops_b).skip(ops_a.len() + rest) =~= ops_b.skip(rest));
        assert((ops_a + ops_b).take(ops_a.len() + rest) =~= ops_a + ops_b.take(rest));
    }
}

/// A description falls apart between any two digests.
pub proof fn lemma_describes_split(digests: Seq<Digest>, ops: Seq<Operation>, i: int)
    requires
        describes(digests, ops),
        0 <= i <= digests.len(),
    ensures
        0 <= total(digests.take(i)) <= ops.len(),
        describes(digests.take(i), ops.take(total(digests.take(i)))),
        describes(digests.skip(i), ops.skip(total(digests.take(i)))),
        i > 0 ==> total(digests.take(i - 1)) < total(digests.take(i)),
    decreases digests.len(),
{
    if digests.len() == 0 {
        assert(digests.take(i) =~= digests);
        assert(digests.skip(i) =~= digests);
        assert(ops.take(0) =~= ops);
        assert(ops.skip(0) =~= ops);
    } else {
        let shorter = digests.drop_last();
        let rest = ops.len() - digests.last().count;
        if i < digests.len() {
            lemma_describes_split(shorter, ops.take(rest), i);
            assert(shorter.take(i) =~= digests.take(i));
            if i > 0 {
                assert(shorter.take(i - 1) =~= digests.take(i - 1));
            }
            let t = total(digests.take(i));
            assert(ops.take(rest).take(t) =~= ops.take(t));
            assert(digests.skip(i).drop_last() =~= shorter.skip(i));
            assert(digests.skip(i).last() == digests.last());
            assert(ops.skip(t).skip(rest - t) =~= ops.skip(rest));
            assert(ops.skip(t).take(rest - t) =~= ops.take(rest).skip(t));
        } else {
            lemma_describes_split(shorter, ops.take(rest), shorter.len() as int);
            assert(shorter.take(shorter.len() as int) =~= shorter);
            assert(shorter.skip(shorter.len() as int) =~= Seq::<Digest>::empty());
            assert(digests.take(i) =~= digests);
            assert(digests.take(i - 1) =~= shorter);
            assert(total(shorter) == rest);
            assert(digests.skip(i) =~= Seq::<Digest>::empty());
            assert(ops.take(ops.len() as int) =~= ops);
            assert(ops.skip(ops.len() as int) =~= Seq::<Operation>::empty());
        }
    }
}

/// The digests of single operations describe them.
pub proof fn lemma_describes_singly(digests: Seq<Digest>, ops: Seq<Operation>)
    requires
        digests.len() == ops.len(),
        forall|i: int|
            #![trigger digests[i]]
            0 <= i < digests.len() ==> digests[i] == Digest::of(ops[i]),
    ensures
        describes(digests, ops),
    decreases digests.len(),
{
    if digests.len() > 0 {
        let rest = ops.len() - 1;
        lemma_describes_singly(digests.drop_last(), ops.take(rest));
        let last = ops.skip(rest);
        assert(last.drop_last() =~= Seq::<Operation>::empty());
        lemma_plus(Digest::of(ops.last()), Digest::empty(), Digest::empty());
        assert(digest_of(last.drop_last()) == Digest::empty());
        assert(digests[digests.len() - 1] == Digest::of(ops[rest]));
    }
}

/// Digests of adjoining ranges of positions describe what stands there.
pub proof fn lemma_describes_ranges(
    digests: Seq<Digest>,
    ranges: Seq<Range<usize>>,
    ops: Seq<Operation>,
    start: int,
)
    requires
        digests.len() == ranges.len(),
        ranges.len() > 0 ==> ranges[0].start == start,
        0 <= start <= ops.len() <= usize::MAX,
        forall|i: int|
            #![trigger ranges[i]]
            0 <= i < ranges.len() ==> ranges[i].start < ranges[i].end <= ops.len() && digests[i]
                == digest_of(ops.subrange(ranges[i].start as int, ranges[i].end as int)),
        forall|i: int, j: int|
            #![trigger ranges[i], ranges[j]]
            0 <= i && j == i + 1 && j < ranges.len() ==> ranges[i].end == ranges[j].start,
    ensures
        start <= (if ranges.len() > 0 {
            ranges.last().end as int
        } else {
            start
        }),
        describes(
            digests,
            ops.subrange(
                start,
                if ranges.len() > 0 {
                    ranges.last().end as int
                } else {
                    start
                },
            ),
        ),
    decreases ranges.len(),
{
    if ranges.len() > 0 {
        let fewer = ranges.drop_last();
        let last = ranges[ranges.len() - 1];
        assert forall|i: int| #![trigger fewer[i]] 0 <= i < fewer.len() implies fewer[i].start
            < fewer[i].end <= ops.len() && digests.drop_last()[i] == digest_of(
            ops.subrange(fewer[i].start as int, fewer[i].end as int),
        ) by {
            assert(fewer[i] == ranges[i]);
        }
        assert forall|i: int, j: int|
            #![trigger fewer[i], fewer[j]]
            0 <= i && j == i + 1 && j < fewer.len() implies fewer[i].end == fewer[j].start by {
            assert(fewer[i] == ranges[i] && fewer[j] == ranges[j]);
        }
        if fewer.len() > 0 {
            assert(fewer[0] == ranges[0]);
            assert(ranges[ranges.len() - 2].end == last.start);
            assert(fewer[fewer.len() - 1] == ranges[ranges.len() - 2]);
        }
        lemma_describes_ranges(digests.drop_last(), fewer, ops, start);
        let whole = ops.subrange(start, last.end as int);
        let rest = last.start - start;
        let piece = ops.subrange(last.start as int, last.end as int);
        lemma_digest_count(piece);
        assert(whole.skip(rest) =~= piece);
        assert(whole.take(rest) =~= ops.subrange(start, last.start as int));
        assert(digests[digests.len() - 1] == digest_of(piece));
    }
}

/// A range of positions touches the digests from the first at which those before it reach the
/// range's start, to the last before they reach its end. Those are the ones that others take the
/// place of.
pub proof fn law_spliced(
    digests: Seq<Digest>,
    start: int,
    end: int,
    inserts: Seq<Digest>,
    first: int,
    last: int,
)
    requires
        start <= end,
        0 <= first <= digests.len(),
        first == 0 || total(digests.take(first - 1)) < start,
        first == digests.len() || total(digests.take(first)) >= start,
        0 <= last <= digests.len(),
        last == 0 || total(digests.take(last - 1)) < end,
        last == digests.len() || total(digests.take(last)) >= end,
    ensures
        first <= last,
        touched(digests, start, end) == digests.subrange(first, last),
        spliced(digests, start, end, inserts) == digests.take(first) + inserts + digests.skip(last),
        digests.take(reach(digests, start)) == digests.take(first),
        digests.take(reach_from(digests, start, end)) == digests.take(last),
{
    lemma_reach_is(digests, start, first);
    lemma_reach_is(digests, end, last);
    lemma_reach_monotonic(digests, start, end);
}

/// Where digests describe operations, the digest of a range of positions is that of the operations
/// between two joints: the first joint at or past the range's start, and the first at or past its
/// end. What takes its place describes what takes the place of those operations.
pub proof fn law_described_range(
    digests: Seq<Digest>,
    ops: Seq<Operation>,
    start: int,
    end: int,
    inserts: Seq<Digest>,
    new: Seq<Operation>,
)
    requires
        describes(digests, ops),
        ops.len() <= usize::MAX,
        0 <= start <= end,
        describes(inserts, new),
    ensures
        ({
            let a = total(digests.take(reach(digests, start)));
            let b = total(digests.take(reach_from(digests, start, end)));
            &&& 0 <= a <= b <= ops.len()
            &&& start <= a || a == ops.len()
            &&& end <= b || b == ops.len()
            &&& forall|k: int|
                #![trigger digests.take(k)]
                0 <= k <= digests.len() ==> {
                    &&& start <= total(digests.take(k)) ==> a <= total(digests.take(k))
                    &&& end <= total(digests.take(k)) ==> b <= total(digests.take(k))
                }
            &&& combined(touched(digests, start, end)) == digest_of(ops.subrange(a, b))
            &&& combined(digests.take(reach(digests, start))) == digest_of(ops.take(a))
            &&& combined(digests.take(reach_from(digests, start, end))) == digest_of(ops.take(b))
            &&& describes(
                spliced(digests, start, end, inserts),
                ops.take(a) + new + ops.skip(b),
            )
        }),
{
    let first = reach(digests, start);
    let last = reach(digests, end);
    lemma_reach(digests, start);
    lemma_reach(digests, end);
    lemma_reach_monotonic(digests, start, end);
    let a = total(digests.take(first));
    let b = total(digests.take(last));
    law_described(digests, ops);
    assert(digests.take(digests.len() as int) =~= digests);
    lemma_describes_split(digests, ops, first);
    lemma_describes_split(digests, ops, last);
    lemma_describes_split(digests.take(last), ops.take(b), first);
    assert(digests.take(last).take(first) =~= digests.take(first));
    assert(digests.take(last).skip(first) =~= digests.subrange(first, last));
    assert(ops.take(b).take(a) =~= ops.take(a));
    assert(ops.take(b).skip(a) =~= ops.subrange(a, b));
    law_described(digests.subrange(first, last), ops.subrange(a, b));
    law_described(digests.take(first), ops.take(a));
    law_described(digests.take(last), ops.take(b));
    lemma_describes_concat(digests.take(first), ops.take(a), inserts, new);
    lemma_describes_concat(
        digests.take(first) + inserts,
        ops.take(a) + new,
        digests.skip(last),
        ops.skip(b),
    );
    assert forall|k: int| #![trigger digests.take(k)] 0 <= k <= digests.len() implies {
        &&& start <= total(digests.take(k)) ==> a <= total(digests.take(k))
        &&& end <= total(digests.take(k)) ==> b <= total(digests.take(k))
    } by {
        lemma_takes_monotonic(digests, k, first);
        lemma_takes_monotonic(digests, k, last);
    }
}

proof fn lemma_takes_monotonic(digests: Seq<Digest>, i: int, j: int)
    requires
        0 <= i <= digests.len(),
        0 <= j <= digests.len(),
    ensures
        i >= j ==> total(digests.take(i)) >= total(digests.take(j)),
        i < j ==> total(digests.take(i)) <= total(digests.take(j - 1)),
{
    if i >= j {
        lemma_total_split(digests.take(i), j);
        assert(digests.take(i).take(j) =~= digests.take(j));
    } else {
        lemma_total_split(digests.take(j - 1), i);
        assert(digests.take(j - 1).take(i) =~= digests.take(i));
    }
}

/// Digests count together what each of them counts: none count nothing, and one more adds its
/// count.
pub proof fn law_total(digests: Seq<Digest>, digest: Digest)
    ensures
        total(Seq::<Digest>::empty()) == 0,
        total(digests.push(digest)) == total(digests) + digest.count,
        total(digests) >= 0,
{
    assert(digests.push(digest).drop_last() =~= digests);
    lemma_total_nonnegative(digests);
}

/// Digests of adjoining stretches of a history, in order, which a client may hold instead of the
/// operations. A position counts operations, not digests.
pub struct DigestSequence {
    digests: Vec<Digest>,
}

impl View for DigestSequence {
    type V = Seq<Digest>;

    closed spec fn view(&self) -> Seq<Digest> {
        self.digests@
    }
}

impl DigestSequence {
    #[verifier::type_invariant]
    pub open spec fn countable(self) -> bool {
        total(self@) <= usize::MAX
    }

    /// A sequence that stands for no operations.
    pub fn new() -> (sequence: Self)
        ensures
            sequence@ == Seq::<Digest>::empty(),
    {
        DigestSequence { digests: Vec::new() }
    }

    /// How many operations the digests stand for.
    pub fn operation_count(&self) -> (count: usize)
        ensures
            count == total(self@),
    {
        proof {
            use_type_invariant(self);
        }
        let mut count: usize = 0;
        let mut i: usize = 0;
        while i < self.digests.len()
            invariant
                i <= self.digests.len(),
                count == total(self.digests@.take(i as int)),
                total(self.digests@) <= usize::MAX,
            decreases self.digests.len() - i,
        {
            proof {
                lemma_total_next(self.digests@, i as int);
                lemma_total_split(self.digests@, i + 1);
            }
            count = count + self.digests[i].count;
            i = i + 1;
        }
        assert(self.digests@.take(i as int) =~= self.digests@);
        count
    }

    fn reach(&self, position: usize) -> (index: usize)
        ensures
            index == reach(self@, position as int),
            index <= self@.len(),
    {
        proof {
            use_type_invariant(self);
        }
        let mut count: usize = 0;
        let mut i: usize = 0;
        while i < self.digests.len() && count < position
            invariant
                i <= self.digests.len(),
                count == total(self.digests@.take(i as int)),
                i == 0 || total(self.digests@.take(i - 1)) < position,
                total(self.digests@) <= usize::MAX,
            decreases self.digests.len() - i,
        {
            proof {
                lemma_total_next(self.digests@, i as int);
                lemma_total_split(self.digests@, i + 1);
            }
            count = count + self.digests[i].count;
            i = i + 1;
        }
        proof {
            lemma_reach_is(self.digests@, position as int, i as int);
        }
        i
    }

    /// One digest for all that a range of positions touches. The names that it brings lie past the
    /// first of the two names returned with it and reach up to the second.
    pub fn digest(&self, range: Range<usize>) -> (result: (Range<OperationId>, Digest))
        ensures
            result.0.start == combined(self@.take(reach(self@, range.start as int))).max_op_id,
            result.0.end == combined(
                self@.take(reach_from(self@, range.start as int, range.end as int)),
            ).max_op_id,
            result.1 == combined(touched(self@, range.start as int, range.end as int)),
    {
        let first = self.reach(range.start);
        let last = if range.end < range.start {
            first
        } else {
            self.reach(range.end)
        };
        proof {
            use_type_invariant(self);
            lemma_reach_monotonic(
                self@,
                range.start as int,
                if range.end < range.start {
                    range.start as int
                } else {
                    range.end as int
                },
            );
        }
        let mut before = Digest::default();
        let mut i: usize = 0;
        while i < first
            invariant
                i <= first <= self.digests.len(),
                before == combined(self.digests@.take(i as int)),
                total(self.digests@) <= usize::MAX,
            decreases first - i,
        {
            proof {
                lemma_total_next(self.digests@, i as int);
                lemma_total_split(self.digests@, i as int);
                lemma_total_split(self.digests@, i + 1);
                lemma_combined_count(self.digests@.take(i as int));
            }
            before.add_summary(&self.digests[i]);
            i = i + 1;
        }
        let mut upto = before;
        let mut within = Digest::default();
        assert(self.digests@.subrange(first as int, first as int) =~= Seq::<Digest>::empty());
        while i < last
            invariant
                first <= i <= last <= self.digests.len(),
                upto == combined(self.digests@.take(i as int)),
                within == combined(self.digests@.subrange(first as int, i as int)),
                total(self.digests@) <= usize::MAX,
            decreases last - i,
        {
            proof {
                let stretch = self.digests@.subrange(first as int, i as int);
                lemma_total_next(self.digests@, i as int);
                lemma_total_split(self.digests@, i as int);
                lemma_total_split(self.digests@, i + 1);
                lemma_combined_count(self.digests@.take(i as int));
                lemma_total_split(self.digests@.take(i as int), first as int);
                assert(self.digests@.take(i as int).skip(first as int) =~= stretch);
                lemma_total_nonnegative(self.digests@.take(i as int).take(first as int));
                lemma_combined_count(stretch);
                assert(self.digests@.subrange(first as int, i + 1).drop_last() =~= stretch);
            }
            upto.add_summary(&self.digests[i]);
            within.add_summary(&self.digests[i]);
            i = i + 1;
        }
        (before.max_op_id..upto.max_op_id, within)
    }

    /// Puts `digests` in place of those that a range of positions touches.
    pub fn splice(&mut self, range: Range<usize>, digests: Vec<Digest>)
        requires
            total(spliced(old(self)@, range.start as int, range.end as int, digests@))
                <= usize::MAX,
        ensures
            final(self)@ == spliced(old(self)@, range.start as int, range.end as int, digests@),
    {
        let ghost inserts = digests@;
        let first = self.reach(range.start);
        let last = if range.end < range.start {
            first
        } else {
            self.reach(range.end)
        };
        let mut result: Vec<Digest> = Vec::new();
        let mut i: usize = 0;
        while i < first
            invariant
                i <= first <= self.digests.len(),
                result@ == self.digests@.take(i as int),
            decreases first - i,
        {
            result.push(self.digests[i]);
            assert(result@ =~= self.digests@.take(i + 1));
            i = i + 1;
        }
        let mut digests = digests;
        result.append(&mut digests);
        let mut j: usize = last;
        let ghost kept = result@;
        assert(result@ =~= kept + self.digests@.subrange(last as int, j as int));
        while j < self.digests.len()
            invariant
                last <= j <= self.digests.len(),
                result@ == kept + self.digests@.subrange(last as int, j as int),
            decreases self.digests.len() - j,
        {
            result.push(self.digests[j]);
            assert(result@ =~= kept + self.digests@.subrange(last as int, j + 1));
            j = j + 1;
        }
        assert(result@ =~= spliced(old(self)@, range.start as int, range.end as int, inserts));
        self.digests = result;
    }
}

} // verus!
