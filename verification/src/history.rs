//! Histories: sequences of operations in the order of their names, as the contracts see them.
use crate::ids::OperationId;
use crate::messages::Operation;
use vstd::prelude::*;

verus! {

/// The names strictly ascend, so no name occurs twice.
pub open spec fn sorted(ops: Seq<Operation>) -> bool {
    forall|i: int, j: int|
        #![trigger ops[i], ops[j]]
        0 <= i < j < ops.len() ==> ops[i].id().before(ops[j].id())
}

/// An operation of this name is among `ops`.
pub open spec fn contains_id(ops: Seq<Operation>, id: OperationId) -> bool {
    exists|i: int| #![trigger ops[i]] 0 <= i < ops.len() && ops[i].id() == id
}

/// The two hold operations of the same names, in the same order.
pub open spec fn same_ids(a: Seq<Operation>, b: Seq<Operation>) -> bool {
    &&& a.len() == b.len()
    &&& forall|i: int| #![trigger a[i]] #![trigger b[i]] 0 <= i < a.len() ==> a[i].id() == b[i].id()
}

/// What stands at the positions from `start` up to `end`, as far as there are that many.
pub open spec fn clip(ops: Seq<Operation>, start: int, end: int) -> Seq<Operation> {
    let from = if start < ops.len() {
        start
    } else {
        ops.len() as int
    };
    let upto = if end < ops.len() {
        end
    } else {
        ops.len() as int
    };
    if from < upto {
        ops.subrange(from, upto)
    } else {
        Seq::empty()
    }
}

/// A stretch holds what stands at the positions from `start` to `end`, in order, as far as there
/// are any.
pub proof fn law_clip(ops: Seq<Operation>, start: int, end: int)
    requires
        0 <= start,
    ensures
        forall|i: int|
            #![trigger clip(ops, start, end)[i]]
            0 <= i < clip(ops, start, end).len() ==> clip(ops, start, end)[i] == ops[start + i],
        forall|position: int|
            #![trigger ops[position]]
            0 <= position < ops.len() ==> (start <= position < end <==> start <= position < start
                + clip(ops, start, end).len()),
        clip(ops, start, end).len() > 0 ==> start + clip(ops, start, end).len() <= ops.len(),
{
    let stretch = clip(ops, start, end);
    if stretch.len() > 0 {
        assert(start < ops.len());
    }
    assert forall|position: int| #![trigger ops[position]] 0 <= position < ops.len() implies (start
        <= position < end <==> start <= position < start + stretch.len()) by {}
}

/// How many operations stand below `id`, counted up to the last one that does.
pub open spec fn rank(ops: Seq<Operation>, id: OperationId) -> int
    decreases ops.len(),
{
    if ops.len() == 0 {
        0
    } else if ops.last().id().before(id) {
        ops.len() as int
    } else {
        rank(ops.drop_last(), id)
    }
}

/// `ops` with `op` at its place: in the stead of the operation of the same name if there is one,
/// else between its neighbours.
pub open spec fn upsert(ops: Seq<Operation>, op: Operation) -> Seq<Operation> {
    let place = rank(ops, op.id());
    if place < ops.len() && ops[place].id() == op.id() {
        ops.update(place, op)
    } else {
        ops.insert(place, op)
    }
}

/// `ops` after each of `inserts` was put at its place, first to last.
pub open spec fn upsert_all(ops: Seq<Operation>, inserts: Seq<Operation>) -> Seq<Operation>
    decreases inserts.len(),
{
    if inserts.len() == 0 {
        ops
    } else {
        upsert(upsert_all(ops, inserts.drop_last()), inserts.last())
    }
}

/// In a history, `rank` parts the names below `id` from the others.
pub proof fn lemma_rank(ops: Seq<Operation>, id: OperationId)
    requires
        sorted(ops),
    ensures
        0 <= rank(ops, id) <= ops.len(),
        forall|i: int| #![trigger ops[i]] 0 <= i < rank(ops, id) ==> ops[i].id().before(id),
        forall|i: int|
            #![trigger ops[i]]
            rank(ops, id) <= i < ops.len() ==> !ops[i].id().before(id),
    decreases ops.len(),
{
    if ops.len() > 0 && !ops.last().id().before(id) {
        let shorter = ops.drop_last();
        lemma_rank(shorter, id);
        assert forall|i: int| #![trigger ops[i]] 0 <= i < rank(ops, id) implies ops[i].id().before(
            id,
        ) by {
            assert(shorter[i] == ops[i]);
        }
        assert forall|i: int|
            #![trigger ops[i]]
            rank(ops, id) <= i < ops.len() implies !ops[i].id().before(id) by {
            if i < shorter.len() {
                assert(shorter[i] == ops[i]);
            }
        }
    }
}

/// Putting one operation at its place leaves a history, adds at most that operation, and drops at
/// most the one of the same name.
pub proof fn lemma_upsert(ops: Seq<Operation>, op: Operation)
    requires
        sorted(ops),
    ensures
        sorted(upsert(ops, op)),
        forall|x: Operation|
            #![trigger upsert(ops, op).contains(x)]
            upsert(ops, op).contains(x) <==> x == op || (ops.contains(x) && x.id() != op.id()),
        forall|id: OperationId|
            #![trigger contains_id(upsert(ops, op), id)]
            contains_id(upsert(ops, op), id) <==> id == op.id() || contains_id(ops, id),
        ops.len() <= upsert(ops, op).len() <= ops.len() + 1,
{
    let place = rank(ops, op.id());
    let result = upsert(ops, op);
    lemma_rank(ops, op.id());
    if place < ops.len() && ops[place].id() == op.id() {
        assert forall|x: Operation| #![trigger result.contains(x)]
            result.contains(x) <==> x == op || (ops.contains(x) && x.id() != op.id()) by {
            if result.contains(x) {
                let i = choose|i: int| 0 <= i < result.len() && result[i] == x;
                if i != place {
                    assert(ops[i] == x);
                }
            }
            if x == op {
                assert(result[place] == x);
            }
            if ops.contains(x) && x.id() != op.id() {
                let i = choose|i: int| 0 <= i < ops.len() && ops[i] == x;
                assert(result[i] == x);
            }
        }
        assert forall|id: OperationId| #![trigger contains_id(result, id)]
            contains_id(result, id) <==> id == op.id() || contains_id(ops, id) by {
            if contains_id(result, id) {
                let i = choose|i: int| 0 <= i < result.len() && result[i].id() == id;
                assert(ops[i].id() == id);
            }
            if id == op.id() {
                assert(result[place].id() == id);
            }
            if contains_id(ops, id) {
                let i = choose|i: int| 0 <= i < ops.len() && ops[i].id() == id;
                assert(result[i].id() == id);
            }
        }
    } else {
        assert forall|i: int, j: int|
            #![trigger result[i], result[j]]
            0 <= i < j < result.len() implies result[i].id().before(result[j].id()) by {
            if i < place {
                assert(result[i] == ops[i]);
            } else if i > place {
                assert(result[i] == ops[i - 1]);
            }
            if j < place {
                assert(result[j] == ops[j]);
            } else if j > place {
                assert(result[j] == ops[j - 1]);
                assert(ops[j - 1].id() != op.id());
            }
        }
        assert forall|x: Operation| #![trigger result.contains(x)]
            result.contains(x) <==> x == op || (ops.contains(x) && x.id() != op.id()) by {
            if result.contains(x) {
                let i = choose|i: int| 0 <= i < result.len() && result[i] == x;
                if i < place {
                    assert(ops[i] == x);
                } else if i > place {
                    assert(ops[i - 1] == x);
                }
            }
            if x == op {
                assert(result[place] == x);
            }
            if ops.contains(x) && x.id() != op.id() {
                let i = choose|i: int| 0 <= i < ops.len() && ops[i] == x;
                if i < place {
                    assert(result[i] == x);
                } else {
                    assert(result[i + 1] == x);
                }
            }
        }
        assert forall|id: OperationId| #![trigger contains_id(result, id)]
            contains_id(result, id) <==> id == op.id() || contains_id(ops, id) by {
            if contains_id(result, id) {
                let i = choose|i: int| 0 <= i < result.len() && result[i].id() == id;
                if i < place {
                    assert(ops[i].id() == id);
                } else if i > place {
                    assert(ops[i - 1].id() == id);
                }
            }
            if id == op.id() {
                assert(result[place].id() == id);
            }
            if contains_id(ops, id) {
                let i = choose|i: int| 0 <= i < ops.len() && ops[i].id() == id;
                if i < place {
                    assert(result[i].id() == id);
                } else {
                    assert(result[i + 1].id() == id);
                }
            }
        }
    }
}

/// Putting operations at their places leaves a history that holds the names of both, and no
/// operation that neither held.
pub proof fn lemma_upsert_all(ops: Seq<Operation>, inserts: Seq<Operation>)
    requires
        sorted(ops),
    ensures
        sorted(upsert_all(ops, inserts)),
        forall|id: OperationId|
            #![trigger contains_id(upsert_all(ops, inserts), id)]
            contains_id(upsert_all(ops, inserts), id) <==> contains_id(ops, id) || contains_id(
                inserts,
                id,
            ),
        forall|x: Operation|
            #![trigger upsert_all(ops, inserts).contains(x)]
            upsert_all(ops, inserts).contains(x) ==> ops.contains(x) || inserts.contains(x),
        forall|x: Operation|
            #![trigger upsert_all(ops, inserts).contains(x)]
            ops.contains(x) && !contains_id(inserts, x.id()) ==> upsert_all(ops, inserts).contains(
                x,
            ),
        ops.len() <= upsert_all(ops, inserts).len() <= ops.len() + inserts.len(),
    decreases inserts.len(),
{
    if inserts.len() > 0 {
        let fewer = inserts.drop_last();
        let last = inserts.last();
        let partial = upsert_all(ops, fewer);
        let result = upsert_all(ops, inserts);
        lemma_upsert_all(ops, fewer);
        lemma_upsert(partial, last);
        assert forall|id: OperationId| contains_id(inserts, id) <==> contains_id(fewer, id) || id
            == last.id() by {
            if contains_id(inserts, id) {
                let i = choose|i: int| 0 <= i < inserts.len() && inserts[i].id() == id;
                if i < fewer.len() {
                    assert(fewer[i].id() == id);
                }
            }
            if contains_id(fewer, id) {
                let i = choose|i: int| 0 <= i < fewer.len() && fewer[i].id() == id;
                assert(inserts[i].id() == id);
            }
            if id == last.id() {
                assert(inserts[inserts.len() - 1].id() == id);
            }
        }
        assert forall|x: Operation| fewer.contains(x) || x == last implies inserts.contains(x) by {
            if fewer.contains(x) {
                let i = choose|i: int| 0 <= i < fewer.len() && fewer[i] == x;
                assert(inserts[i] == x);
            } else {
                assert(inserts[inserts.len() - 1] == x);
            }
        }
        assert forall|id: OperationId| #![trigger contains_id(result, id)]
            contains_id(result, id) <==> contains_id(ops, id) || contains_id(inserts, id) by {
            assert(contains_id(upsert(partial, last), id) <==> id == last.id() || contains_id(
                partial,
                id,
            ));
        }
        assert forall|x: Operation| #![trigger result.contains(x)] result.contains(x) implies
            ops.contains(x) || inserts.contains(x) by {
            assert(upsert(partial, last).contains(x));
            assert(x == last || partial.contains(x));
        }
        assert forall|x: Operation| #![trigger result.contains(x)] ops.contains(x) && !contains_id(
            inserts,
            x.id(),
        ) implies result.contains(x) by {
            assert(partial.contains(x));
            assert(upsert(partial, last).contains(x));
        }
    }
}

/// What is put in replaces what has the same name, and of several with the same name the last one
/// stays. What has no name in common with it stays, and all of it is in order.
pub proof fn law_upsert_all(ops: Seq<Operation>, inserts: Seq<Operation>)
    requires
        sorted(ops),
    ensures
        sorted(upsert_all(ops, inserts)),
        forall|x: Operation|
            #![trigger upsert_all(ops, inserts).contains(x)]
            upsert_all(ops, inserts).contains(x) <==> {
                ||| ops.contains(x) && forall|i: int|
                    #![trigger inserts[i]]
                    0 <= i < inserts.len() ==> inserts[i].id() != x.id()
                ||| exists|i: int|
                    #![trigger inserts[i]]
                    0 <= i < inserts.len() && inserts[i] == x && forall|j: int|
                        #![trigger inserts[j]]
                        i < j < inserts.len() ==> inserts[j].id() != x.id()
            },
    decreases inserts.len(),
{
    if inserts.len() > 0 {
        let fewer = inserts.drop_last();
        let last = inserts[inserts.len() - 1];
        law_upsert_all(ops, fewer);
        lemma_upsert(upsert_all(ops, fewer), last);
        assert forall|x: Operation|
            #![trigger upsert_all(ops, inserts).contains(x)]
            upsert_all(ops, inserts).contains(x) <==> {
                ||| ops.contains(x) && forall|i: int|
                    #![trigger inserts[i]]
                    0 <= i < inserts.len() ==> inserts[i].id() != x.id()
                ||| exists|i: int|
                    #![trigger inserts[i]]
                    0 <= i < inserts.len() && inserts[i] == x && forall|j: int|
                        #![trigger inserts[j]]
                        i < j < inserts.len() ==> inserts[j].id() != x.id()
            } by {
            assert(upsert_all(ops, inserts).contains(x) <==> x == last || (upsert_all(
                ops,
                fewer,
            ).contains(x) && x.id() != last.id()));
            assert forall|i: int| #![trigger inserts[i]] 0 <= i < fewer.len() implies fewer[i]
                == inserts[i] by {}
            assert forall|i: int| #![trigger fewer[i]] 0 <= i < fewer.len() implies fewer[i]
                == inserts[i] by {}
            if x != last && upsert_all(ops, inserts).contains(x) && !(ops.contains(x) && forall|
                i: int,
            |
                #![trigger fewer[i]]
                0 <= i < fewer.len() ==> fewer[i].id() != x.id()) {
                let i = choose|i: int|
                    #![trigger fewer[i]]
                    0 <= i < fewer.len() && fewer[i] == x && forall|j: int|
                        #![trigger fewer[j]]
                        i < j < fewer.len() ==> fewer[j].id() != x.id();
                assert(inserts[i] == x);
            }
            if exists|i: int|
                #![trigger inserts[i]]
                0 <= i < inserts.len() && inserts[i] == x && forall|j: int|
                    #![trigger inserts[j]]
                    i < j < inserts.len() ==> inserts[j].id() != x.id() {
                let i = choose|i: int|
                    #![trigger inserts[i]]
                    0 <= i < inserts.len() && inserts[i] == x && forall|j: int|
                        #![trigger inserts[j]]
                        i < j < inserts.len() ==> inserts[j].id() != x.id();
                if i < fewer.len() {
                    assert(fewer[i] == x);
                    assert(inserts[inserts.len() - 1].id() != x.id());
                }
            }
        }
    }
}

/// Operations of new names, each of them once, are all added.
pub proof fn lemma_upsert_all_adds(ops: Seq<Operation>, inserts: Seq<Operation>)
    requires
        sorted(ops),
        sorted(inserts),
        forall|i: int|
            #![trigger inserts[i]]
            0 <= i < inserts.len() ==> !contains_id(ops, inserts[i].id()),
    ensures
        upsert_all(ops, inserts).len() == ops.len() + inserts.len(),
    decreases inserts.len(),
{
    if inserts.len() > 0 {
        let fewer = inserts.drop_last();
        let last = inserts[inserts.len() - 1];
        let partial = upsert_all(ops, fewer);
        assert forall|i: int| #![trigger fewer[i]] 0 <= i < fewer.len() implies !contains_id(
            ops,
            fewer[i].id(),
        ) by {
            assert(fewer[i] == inserts[i]);
        }
        assert forall|i: int, j: int|
            #![trigger fewer[i], fewer[j]]
            0 <= i < j < fewer.len() implies fewer[i].id().before(fewer[j].id()) by {
            assert(fewer[i] == inserts[i] && fewer[j] == inserts[j]);
        }
        lemma_upsert_all_adds(ops, fewer);
        lemma_upsert_all(ops, fewer);
        assert(!contains_id(partial, last.id())) by {
            if contains_id(fewer, last.id()) {
                let i = choose|i: int| 0 <= i < fewer.len() && fewer[i].id() == last.id();
                assert(inserts[i].id().before(last.id()));
            }
        }
        let place = rank(partial, last.id());
        lemma_rank(partial, last.id());
        if place < partial.len() && partial[place].id() == last.id() {
            assert(contains_id(partial, last.id()));
        }
    }
}

/// What was put at its place under a name of its own is there afterwards.
pub proof fn lemma_upsert_all_keeps(ops: Seq<Operation>, inserts: Seq<Operation>, x: Operation)
    requires
        sorted(ops),
        sorted(inserts),
        inserts.contains(x),
    ensures
        upsert_all(ops, inserts).contains(x),
    decreases inserts.len(),
{
    let fewer = inserts.drop_last();
    let last = inserts.last();
    lemma_upsert_all(ops, fewer);
    lemma_upsert(upsert_all(ops, fewer), last);
    let i = choose|i: int| 0 <= i < inserts.len() && inserts[i] == x;
    if i < fewer.len() {
        assert(fewer[i] == x);
        assert(sorted(fewer)) by {
            assert forall|a: int, b: int|
                #![trigger fewer[a], fewer[b]]
                0 <= a < b < fewer.len() implies fewer[a].id().before(fewer[b].id()) by {
                assert(fewer[a] == inserts[a] && fewer[b] == inserts[b]);
            }
        }
        lemma_upsert_all_keeps(ops, fewer, x);
        assert(inserts[i].id().before(inserts[inserts.len() - 1].id()));
    }
}

/// Two histories that hold the same names hold them at the same positions.
pub proof fn lemma_same_ids(a: Seq<Operation>, b: Seq<Operation>)
    requires
        sorted(a),
        sorted(b),
        forall|id: OperationId| contains_id(a, id) <==> contains_id(b, id),
    ensures
        same_ids(a, b),
    decreases a.len(),
{
    if a.len() == 0 {
        if b.len() > 0 {
            assert(contains_id(b, b[0].id()));
        }
    } else {
        assert(contains_id(a, a[0].id()));
        let a_last = a[a.len() - 1];
        assert(contains_id(a, a_last.id()));
        let k = choose|k: int| 0 <= k < b.len() && b[k].id() == a_last.id();
        let b_last = b[b.len() - 1];
        assert(contains_id(b, b_last.id()));
        let l = choose|l: int| 0 <= l < a.len() && a[l].id() == b_last.id();
        assert(k == b.len() - 1) by {
            if k < b.len() - 1 {
                assert(b[k].id().before(b_last.id()));
                if l < a.len() - 1 {
                    assert(a[l].id().before(a_last.id()));
                }
            }
        }
        let c = a.drop_last();
        let d = b.drop_last();
        assert forall|i: int, j: int| #![trigger c[i], c[j]] 0 <= i < j < c.len() implies
            c[i].id().before(c[j].id()) by {
            assert(c[i] == a[i] && c[j] == a[j]);
        }
        assert forall|i: int, j: int| #![trigger d[i], d[j]] 0 <= i < j < d.len() implies
            d[i].id().before(d[j].id()) by {
            assert(d[i] == b[i] && d[j] == b[j]);
        }
        assert forall|id: OperationId| contains_id(c, id) <==> contains_id(d, id) by {
            if contains_id(c, id) {
                let i = choose|i: int| 0 <= i < c.len() && c[i].id() == id;
                assert(a[i].id().before(a[a.len() - 1].id()));
                assert(contains_id(a, id));
                let j = choose|j: int| 0 <= j < b.len() && b[j].id() == id;
                assert(d[j].id() == id);
            }
            if contains_id(d, id) {
                let i = choose|i: int| 0 <= i < d.len() && d[i].id() == id;
                assert(b[i].id().before(b[b.len() - 1].id()));
                assert(contains_id(b, id));
                let j = choose|j: int| 0 <= j < a.len() && a[j].id() == id;
                assert(c[j].id() == id);
            }
        }
        lemma_same_ids(c, d);
        assert forall|i: int| #![trigger a[i]] #![trigger b[i]] 0 <= i < a.len() implies a[i].id()
            == b[i].id() by {
            if i < c.len() {
                assert(c[i] == a[i] && d[i] == b[i]);
            }
        }
    }
}

/// Two histories that hold the same operations are equal.
pub proof fn lemma_same_operations(a: Seq<Operation>, b: Seq<Operation>)
    requires
        sorted(a),
        sorted(b),
        forall|x: Operation| a.contains(x) <==> b.contains(x),
    ensures
        a == b,
{
    assert forall|id: OperationId| contains_id(a, id) <==> contains_id(b, id) by {
        if contains_id(a, id) {
            let i = choose|i: int| 0 <= i < a.len() && a[i].id() == id;
            assert(a.contains(a[i]));
            let j = choose|j: int| 0 <= j < b.len() && b[j] == a[i];
            assert(b[j].id() == id);
        }
        if contains_id(b, id) {
            let i = choose|i: int| 0 <= i < b.len() && b[i].id() == id;
            assert(b.contains(b[i]));
            let j = choose|j: int| 0 <= j < a.len() && a[j] == b[i];
            assert(a[j].id() == id);
        }
    }
    lemma_same_ids(a, b);
    assert forall|i: int| 0 <= i < a.len() implies a[i] == b[i] by {
        assert(a.contains(a[i]));
        let j = choose|j: int| 0 <= j < b.len() && b[j] == a[i];
        assert(b[j].id() == b[i].id());
        if i < j {
            assert(b[i].id().before(b[j].id()));
        } else if j < i {
            assert(b[j].id().before(b[i].id()));
        }
    }
    assert(a =~= b);
}

} // verus!
