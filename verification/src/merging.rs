//! What a merge keeps while it goes on.
use crate::digest::{
    lemma_describes_split, lemma_reach, lemma_reach_is, lemma_total_next, reach, spliced, total,
    Digest,
};
use crate::history::{
    contains_id, lemma_same_operations, lemma_upsert_all, lemma_upsert_all_keeps, sorted,
    upsert_all,
};
use crate::ids::OperationId;
use crate::messages::Operation;
use crate::progress::describes_from;
use crate::protocol::{merge_after, merge_next, Merge};
use vstd::prelude::*;

verus! {

/// What a merge keeps that began at `position`, where `rest` is what the server has from there on.
pub open spec fn merge_valid(
    m: Merge,
    client: Seq<Operation>,
    server: Seq<Operation>,
    position: int,
    rest: Seq<Operation>,
) -> bool {
    let here = reach(m.digests, position + m.merged.len());
    &&& 0 <= m.from_client <= client.len()
    &&& 0 <= m.from_server <= server.len()
    &&& m.gained.len() <= m.from_server
    &&& m.merged.len() == m.missed.len() + m.from_server
    &&& m.from_client == m.missed.len() + m.from_server - m.gained.len()
    &&& describes_from(m.digests, position + m.merged.len(), rest.skip(m.from_server))
    &&& here + (server.len() - m.from_server) <= m.digests.len()
    &&& forall|i: int|
        #![trigger m.digests[i]]
        here <= i < here + (server.len() - m.from_server) ==> m.digests[i].count == 1
    &&& forall|i: int|
        #![trigger m.gained[i]]
        0 <= i < m.gained.len() ==> server.contains(m.gained[i])
    &&& forall|i: int|
        #![trigger m.missed[i]]
        0 <= i < m.missed.len() ==> client.contains(m.missed[i])
}

/// The digest after those up to `position` stands for one operation, and the walk passes it.
proof fn lemma_pass_one(digests: Seq<Digest>, position: int, rest: Seq<Operation>)
    requires
        describes_from(digests, position, rest),
        reach(digests, position) < digests.len(),
        digests[reach(digests, position)].count == 1,
    ensures
        rest.len() > 0,
        reach(digests, position + 1) == reach(digests, position) + 1,
        describes_from(digests, position + 1, rest.skip(1)),
{
    let here = reach(digests, position);
    let tail = digests.skip(here);
    lemma_reach(digests, position);
    lemma_total_next(digests, here);
    lemma_reach_is(digests, position + 1, here + 1);
    lemma_describes_split(tail, rest, 1);
    assert(tail.take(1).drop_last() =~= Seq::<Digest>::empty());
    assert(total(tail.take(1)) == 1) by {
        reveal_with_fuel(total, 2);
    }
    assert(tail.skip(1) =~= digests.skip(here + 1));
}

/// A digest of one operation put in at `position` moves the others on.
proof fn lemma_put_one(digests: Seq<Digest>, position: int, rest: Seq<Operation>, one: Digest)
    requires
        describes_from(digests, position, rest),
        one.count == 1,
    ensures
        ({
            let here = reach(digests, position);
            let result = spliced(digests, position, position, seq![one]);
            &&& 0 <= here <= digests.len()
            &&& reach(result, position + 1) == here + 1
            &&& describes_from(result, position + 1, rest)
            &&& result.len() == digests.len() + 1
            &&& forall|i: int|
                #![trigger result[i]]
                here < i < result.len() ==> result[i] == digests[i - 1]
        }),
{
    let here = reach(digests, position);
    let result = spliced(digests, position, position, seq![one]);
    lemma_reach(digests, position);
    assert(result.take(here) =~= digests.take(here));
    assert(result[here] == one);
    lemma_total_next(result, here);
    lemma_reach_is(result, position + 1, here + 1);
    assert(result.skip(here + 1) =~= digests.skip(here));
}

/// Each step keeps a merge valid, and takes an operation as long as there is one.
pub proof fn lemma_merge_next(
    m: Merge,
    client: Seq<Operation>,
    server: Seq<Operation>,
    position: int,
    rest: Seq<Operation>,
)
    requires
        merge_valid(m, client, server, position, rest),
        server.len() <= rest.len(),
        server == rest.take(server.len() as int),
    ensures
        merge_valid(merge_next(m, client, server, position), client, server, position, rest),
        m.from_client < client.len() || m.from_server < server.len() ==> merge_next(
            m,
            client,
            server,
            position,
        ).merged.len() == m.merged.len() + 1,
{
    let next = merge_next(m, client, server, position);
    let c = client[m.from_client];
    let s = server[m.from_server];
    let here = position + m.merged.len();
    if m.from_client < client.len() && (m.from_server >= server.len() || c.id().before(s.id())) {
        lemma_put_one(m.digests, here, rest.skip(m.from_server), Digest::of(c));
        assert forall|i: int|
            #![trigger next.missed[i]]
            0 <= i < next.missed.len() implies client.contains(next.missed[i]) by {
            if i < m.missed.len() {
                assert(next.missed[i] == m.missed[i]);
            }
        }
    } else if m.from_server < server.len() {
        lemma_pass_one(m.digests, here, rest.skip(m.from_server));
        assert(rest.skip(m.from_server).skip(1) =~= rest.skip(m.from_server + 1));
        assert forall|i: int|
            #![trigger next.gained[i]]
            0 <= i < next.gained.len() implies server.contains(next.gained[i]) by {
            if i < m.gained.len() {
                assert(next.gained[i] == m.gained[i]);
            }
        }
    }
}

/// A merge is valid after any number of steps. It takes an operation with each of them, until
/// there is none.
pub proof fn lemma_merge_after(
    client: Seq<Operation>,
    server: Seq<Operation>,
    position: int,
    digests: Seq<Digest>,
    rest: Seq<Operation>,
    steps: nat,
)
    requires
        describes_from(digests, position, rest),
        server.len() <= rest.len(),
        server == rest.take(server.len() as int),
        reach(digests, position) + server.len() <= digests.len(),
        forall|i: int|
            #![trigger digests[i]]
            reach(digests, position) <= i < reach(digests, position) + server.len()
                ==> digests[i].count == 1,
    ensures
        ({
            let m = merge_after(client, server, position, digests, steps);
            &&& merge_valid(m, client, server, position, rest)
            &&& m.merged.len() <= steps
            &&& m.merged.len() == steps || (m.from_client == client.len() && m.from_server
                == server.len())
        }),
    decreases steps,
{
    if steps == 0 {
        assert(rest.skip(0) =~= rest);
    } else {
        let before = (steps - 1) as nat;
        lemma_merge_after(client, server, position, digests, rest, before);
        lemma_merge_next(
            merge_after(client, server, position, digests, before),
            client,
            server,
            position,
            rest,
        );
    }
}

/// A merge that has taken all stays as it is.
pub proof fn lemma_merge_exhausted(
    client: Seq<Operation>,
    server: Seq<Operation>,
    position: int,
    digests: Seq<Digest>,
    steps: nat,
    more: nat,
)
    requires
        merge_after(client, server, position, digests, steps).from_client >= client.len(),
        merge_after(client, server, position, digests, steps).from_server >= server.len(),
    ensures
        merge_after(client, server, position, digests, steps + more) == merge_after(
            client,
            server,
            position,
            digests,
            steps,
        ),
    decreases more,
{
    if more > 0 {
        lemma_merge_exhausted(client, server, position, digests, steps, (more - 1) as nat);
    }
}

/// What a merge keeps where the names ascend: `synced` is what the client has up to where the merge
/// began, `unsynced` what it has from there on, and `rest` what the server has from there on.
pub open spec fn merge_sound(
    m: Merge,
    synced: Seq<Operation>,
    unsynced: Seq<Operation>,
    rest: Seq<Operation>,
) -> bool {
    let passed = synced + m.merged;
    &&& 0 <= m.from_client <= unsynced.len()
    &&& 0 <= m.from_server <= rest.len()
    &&& sorted(passed)
    &&& sorted(m.gained)
    &&& forall|i: int, j: int|
        #![trigger passed[i], unsynced[j]]
        0 <= i < passed.len() && m.from_client <= j < unsynced.len() ==> passed[i].id().before(
            unsynced[j].id(),
        )
    &&& forall|i: int, j: int|
        #![trigger passed[i], rest[j]]
        0 <= i < passed.len() && m.from_server <= j < rest.len() ==> passed[i].id().before(
            rest[j].id(),
        )
    &&& forall|j: int|
        #![trigger rest[j]]
        0 <= j < m.from_server ==> contains_id(m.merged, rest[j].id())
    &&& forall|j: int|
        #![trigger unsynced[j]]
        0 <= j < m.from_client ==> m.merged.contains(unsynced[j])
    &&& forall|i: int|
        #![trigger m.gained[i]]
        0 <= i < m.gained.len() ==> m.merged.contains(m.gained[i])
    &&& forall|i: int|
        #![trigger m.merged[i]]
        0 <= i < m.merged.len() ==> {
            &&& unsynced.contains(m.merged[i]) || m.gained.contains(m.merged[i])
            &&& contains_id(rest, m.merged[i].id()) || contains_id(m.missed, m.merged[i].id())
        }
    &&& forall|i: int, j: int|
        #![trigger m.gained[i], unsynced[j]]
        0 <= i < m.gained.len() && 0 <= j < unsynced.len() ==> m.gained[i].id() != unsynced[j].id()
    &&& forall|i: int, j: int|
        #![trigger m.gained[i], synced[j]]
        0 <= i < m.gained.len() && 0 <= j < synced.len() ==> m.gained[i].id() != synced[j].id()
}

proof fn lemma_push_contains(ops: Seq<Operation>, x: Operation)
    ensures
        forall|y: Operation|
            #![trigger ops.push(x).contains(y)]
            ops.push(x).contains(y) <==> ops.contains(y) || y == x,
        forall|id: OperationId|
            #![trigger contains_id(ops.push(x), id)]
            contains_id(ops.push(x), id) <==> contains_id(ops, id) || id == x.id(),
{
    let longer = ops.push(x);
    assert(longer[ops.len() as int] == x);
    assert forall|y: Operation| #![trigger longer.contains(y)] longer.contains(y) <==> ops.contains(
        y,
    ) || y == x by {
        if longer.contains(y) {
            let i = choose|i: int| 0 <= i < longer.len() && longer[i] == y;
            if i < ops.len() {
                assert(ops[i] == y);
            }
        }
        if ops.contains(y) {
            let i = choose|i: int| 0 <= i < ops.len() && ops[i] == y;
            assert(longer[i] == y);
        }
    }
    assert forall|id: OperationId| #![trigger contains_id(longer, id)] contains_id(longer, id)
        <==> contains_id(ops, id) || id == x.id() by {
        if contains_id(longer, id) {
            let i = choose|i: int| 0 <= i < longer.len() && longer[i].id() == id;
            if i < ops.len() {
                assert(ops[i].id() == id);
            }
        }
        if contains_id(ops, id) {
            let i = choose|i: int| 0 <= i < ops.len() && ops[i].id() == id;
            assert(longer[i].id() == id);
        }
    }
}

proof fn lemma_push_sorted(ops: Seq<Operation>, x: Operation)
    requires
        sorted(ops),
        forall|i: int| #![trigger ops[i]] 0 <= i < ops.len() ==> ops[i].id().before(x.id()),
    ensures
        sorted(ops.push(x)),
{
}

/// Each step keeps a merge sound that has not gone on to the end of its window.
pub proof fn lemma_merge_next_sound(
    m: Merge,
    client: Seq<Operation>,
    server: Seq<Operation>,
    position: int,
    synced: Seq<Operation>,
    unsynced: Seq<Operation>,
    rest: Seq<Operation>,
)
    requires
        merge_sound(m, synced, unsynced, rest),
        sorted(unsynced),
        sorted(rest),
        client.len() <= unsynced.len(),
        client == unsynced.take(client.len() as int),
        server.len() <= rest.len(),
        server == rest.take(server.len() as int),
        m.from_client < client.len() || m.from_client == unsynced.len(),
        m.from_server < server.len() || m.from_server == rest.len(),
    ensures
        merge_sound(merge_next(m, client, server, position), synced, unsynced, rest),
{
    let next = merge_next(m, client, server, position);
    if m.from_client < client.len() || m.from_server < server.len() {
        let x = next.merged.last();
        let passed = synced + m.merged;
        let longer = synced + next.merged;
        assert(longer =~= passed.push(x));
        lemma_push_contains(m.merged, x);
        lemma_push_contains(m.gained, x);
        lemma_push_contains(m.missed, x);
        if m.from_client < client.len() {
            assert(client[m.from_client] == unsynced[m.from_client]);
        }
        if m.from_server < server.len() {
            assert(server[m.from_server] == rest[m.from_server]);
        }
        lemma_push_sorted(passed, x);
        assert forall|i: int, j: int|
            #![trigger longer[i], unsynced[j]]
            0 <= i < longer.len() && next.from_client <= j
                < unsynced.len() implies longer[i].id().before(unsynced[j].id()) by {
            if i < passed.len() {
                assert(longer[i] == passed[i]);
            } else {
                assert(longer[i] == x);
                assert(x == unsynced[m.from_client] || x.id().before(unsynced[m.from_client].id()));
            }
        }
        assert forall|i: int, j: int|
            #![trigger longer[i], rest[j]]
            0 <= i < longer.len() && next.from_server <= j
                < rest.len() implies longer[i].id().before(rest[j].id()) by {
            if i < passed.len() {
                assert(longer[i] == passed[i]);
            } else {
                assert(longer[i] == x);
                assert(x.id() == rest[m.from_server].id() || x.id().before(
                    rest[m.from_server].id(),
                ));
            }
        }
        assert forall|j: int|
            #![trigger rest[j]]
            0 <= j < next.from_server implies contains_id(next.merged, rest[j].id()) by {
            if j < m.from_server {
                assert(contains_id(m.merged, rest[j].id()));
            }
        }
        assert forall|i: int| #![trigger next.merged[i]] 0 <= i < next.merged.len() implies {
            &&& unsynced.contains(next.merged[i]) || next.gained.contains(next.merged[i])
            &&& contains_id(rest, next.merged[i].id()) || contains_id(
                next.missed,
                next.merged[i].id(),
            )
        } by {
            if i < m.merged.len() {
                assert(next.merged[i] == m.merged[i]);
            } else if next.from_server > m.from_server {
                assert(rest[m.from_server].id() == x.id());
            }
        }
        if next.gained.len() > m.gained.len() {
            assert forall|i: int| #![trigger m.gained[i]] 0 <= i < m.gained.len() implies
                m.gained[i].id().before(x.id()) by {
                assert(m.merged.contains(m.gained[i]));
                let k = choose|k: int| 0 <= k < m.merged.len() && m.merged[k] == m.gained[i];
                assert(passed[synced.len() + k] == m.gained[i]);
            }
            lemma_push_sorted(m.gained, x);
            assert forall|j: int| 0 <= j < unsynced.len() implies x.id()
                != #[trigger] unsynced[j].id() by {
                if j < m.from_client {
                    assert(m.merged.contains(unsynced[j]));
                    let k = choose|k: int| 0 <= k < m.merged.len() && m.merged[k] == unsynced[j];
                    assert(passed[synced.len() + k] == unsynced[j]);
                } else {
                    assert(x.id().before(unsynced[m.from_client].id()));
                }
            }
            assert forall|j: int| 0 <= j < synced.len() implies x.id()
                != #[trigger] synced[j].id() by {
                assert(passed[j] == synced[j]);
            }
        }
        assert forall|i: int| #![trigger next.gained[i]] 0 <= i < next.gained.len() implies
            next.merged.contains(next.gained[i]) by {
            if i < m.gained.len() {
                assert(next.gained[i] == m.gained[i]);
            }
        }
    }
}

/// A merge is sound after as many steps as its window has positions, and before.
pub proof fn lemma_merge_after_sound(
    client: Seq<Operation>,
    server: Seq<Operation>,
    position: int,
    digests: Seq<Digest>,
    synced: Seq<Operation>,
    unsynced: Seq<Operation>,
    rest: Seq<Operation>,
    steps: nat,
    len: int,
)
    requires
        describes_from(digests, position, rest),
        reach(digests, position) + server.len() <= digests.len(),
        forall|i: int|
            #![trigger digests[i]]
            reach(digests, position) <= i < reach(digests, position) + server.len()
                ==> digests[i].count == 1,
        sorted(synced),
        sorted(unsynced),
        sorted(rest),
        forall|i: int, j: int|
            #![trigger synced[i], unsynced[j]]
            0 <= i < synced.len() && 0 <= j < unsynced.len() ==> synced[i].id().before(
                unsynced[j].id(),
            ),
        forall|i: int, j: int|
            #![trigger synced[i], rest[j]]
            0 <= i < synced.len() && 0 <= j < rest.len() ==> synced[i].id().before(rest[j].id()),
        client.len() <= unsynced.len(),
        client == unsynced.take(client.len() as int),
        client.len() >= len || client.len() == unsynced.len(),
        server.len() <= rest.len(),
        server == rest.take(server.len() as int),
        server.len() >= len || server.len() == rest.len(),
        steps <= len,
    ensures
        merge_sound(
            merge_after(client, server, position, digests, steps),
            synced,
            unsynced,
            rest,
        ),
    decreases steps,
{
    if steps == 0 {
        assert(synced + Seq::<Operation>::empty() =~= synced);
    } else {
        let before = (steps - 1) as nat;
        lemma_merge_after_sound(
            client,
            server,
            position,
            digests,
            synced,
            unsynced,
            rest,
            before,
            len,
        );
        lemma_merge_after(client, server, position, digests, rest, before);
        lemma_merge_next_sound(
            merge_after(client, server, position, digests, before),
            client,
            server,
            position,
            synced,
            unsynced,
            rest,
        );
    }
}

/// Once the client has taken over what it gained in a merge, what was merged stands where the merge
/// began, and what was not follows.
pub proof fn lemma_merge_taken_over(
    m: Merge,
    synced: Seq<Operation>,
    unsynced: Seq<Operation>,
    rest: Seq<Operation>,
)
    requires
        merge_sound(m, synced, unsynced, rest),
        sorted(synced + unsynced),
    ensures
        upsert_all(synced + unsynced, m.gained) == synced + m.merged + unsynced.skip(m.from_client),
{
    let before = synced + unsynced;
    let after = upsert_all(before, m.gained);
    let left = unsynced.skip(m.from_client);
    let passed = synced + m.merged;
    let expected = passed + left;
    lemma_upsert_all(before, m.gained);
    assert forall|i: int, j: int|
        #![trigger expected[i], expected[j]]
        0 <= i < j < expected.len() implies expected[i].id().before(expected[j].id()) by {
        let n = passed.len();
        if j < n {
            assert(expected[i] == passed[i] && expected[j] == passed[j]);
        } else {
            let b = m.from_client + (j - n);
            assert(expected[j] == unsynced[b]);
            if i < n {
                assert(expected[i] == passed[i]);
            } else {
                let a = m.from_client + (i - n);
                assert(expected[i] == unsynced[a]);
                assert(before[synced.len() + a] == unsynced[a]);
                assert(before[synced.len() + b] == unsynced[b]);
            }
        }
    }
    assert forall|x: Operation| after.contains(x) implies expected.contains(x) by {
        if before.contains(x) {
            let i = choose|i: int| 0 <= i < before.len() && before[i] == x;
            if i < synced.len() {
                assert(expected[i] == x);
            } else {
                let j = i - synced.len();
                assert(unsynced[j] == x);
                if j < m.from_client {
                    assert(m.merged.contains(unsynced[j]));
                    let k = choose|k: int| 0 <= k < m.merged.len() && m.merged[k] == x;
                    assert(expected[synced.len() + k] == x);
                } else {
                    assert(expected[passed.len() + (j - m.from_client)] == x);
                }
            }
        } else {
            let i = choose|i: int| 0 <= i < m.gained.len() && m.gained[i] == x;
            assert(m.merged.contains(m.gained[i]));
            let k = choose|k: int| 0 <= k < m.merged.len() && m.merged[k] == x;
            assert(expected[synced.len() + k] == x);
        }
    }
    assert forall|x: Operation| expected.contains(x) implies after.contains(x) by {
        let i = choose|i: int| 0 <= i < expected.len() && expected[i] == x;
        if i < synced.len() {
            assert(synced[i] == x);
            assert(before[i] == x);
            assert(before.contains(x));
            assert(!contains_id(m.gained, x.id()));
        } else if i < passed.len() {
            let k = i - synced.len();
            assert(m.merged[k] == x);
            if m.gained.contains(x) {
                lemma_upsert_all_keeps(before, m.gained, x);
            } else {
                let j = choose|j: int| 0 <= j < unsynced.len() && unsynced[j] == x;
                assert(before[synced.len() + j] == x);
                assert(before.contains(x));
                assert(!contains_id(m.gained, x.id()));
            }
        } else {
            let j = m.from_client + (i - passed.len());
            assert(unsynced[j] == x);
            assert(before[synced.len() + j] == x);
            assert(before.contains(x));
            assert(!contains_id(m.gained, x.id()));
        }
    }
    lemma_same_operations(after, expected);
}

} // verus!
