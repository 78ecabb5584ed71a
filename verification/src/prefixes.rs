//! Prefixes of a history, as a client and a server compare them.
use crate::convergence::{
    agree, comes_from, joins, keeps_ids, law_exchange_converges, law_sync_converges,
    law_sync_loses_nothing, law_told_apart_is_undeceived, lemma_agreeing, lemma_exchange_comes_from,
    prefixes_told_apart, told_apart,
};
use crate::digest::{digest_of, law_digest_of_same_ids, lemma_digest_count, Digest};
use crate::history::{
    clip, contains_id, lemma_same_ids, lemma_upsert_all, same_ids, sorted, upsert_all,
};
use crate::ids::OperationId;
use crate::messages::Operation;
use crate::protocol::sync_start;
use vstd::prelude::*;

verus! {

/// How many leading operations of `ops` the first of `digests` stands for that stands for leading
/// operations of `ops`, or none if none of them does.
pub open spec fn shared_prefix(ops: Seq<Operation>, digests: Seq<Digest>) -> int
    decreases digests.len(),
{
    if digests.len() == 0 {
        0
    } else if digest_of(clip(ops, 0, digests[0].count as int)) == digests[0] {
        digests[0].count as int
    } else {
        shared_prefix(ops, digests.skip(1))
    }
}

/// How many of the leading lengths are above `bound`.
pub open spec fn leading_above(lens: Seq<usize>, bound: usize) -> int
    decreases lens.len(),
{
    if lens.len() == 0 {
        0
    } else if leading_above(lens.drop_last(), bound) == lens.len() - 1 && lens.last() > bound {
        lens.len() as int
    } else {
        leading_above(lens.drop_last(), bound)
    }
}

/// The lengths of the prefixes whose digests a client sends: `len`, then those of `shorter`, up to
/// the first that is not above `min_digest_delta`, and at most `max_digest_count` of them.
pub open spec fn probed(
    len: int,
    shorter: Seq<usize>,
    min_digest_delta: usize,
    max_digest_count: usize,
) -> Seq<usize> {
    let lens = seq![len as usize] + shorter;
    let count = leading_above(lens, min_digest_delta);
    lens.take(
        if count < max_digest_count {
            count
        } else {
            max_digest_count as int
        },
    )
}

/// The digests of prefixes of `ops`.
pub open spec fn prefix_digests(ops: Seq<Operation>, lens: Seq<usize>) -> Seq<Digest> {
    lens.map_values(|len: usize| digest_of(clip(ops, 0, len as int)))
}

/// The lengths before the first that is not above `bound` are those that lead.
pub proof fn lemma_leading_above(lens: Seq<usize>, bound: usize, count: int)
    requires
        0 <= count <= lens.len(),
        forall|i: int| #![trigger lens[i]] 0 <= i < count ==> lens[i] > bound,
    ensures
        count <= leading_above(lens, bound) <= lens.len(),
        count < lens.len() && lens[count] <= bound ==> leading_above(lens, bound) == count,
    decreases lens.len(),
{
    if lens.len() > 0 {
        let shorter = lens.drop_last();
        if count < lens.len() {
            assert forall|i: int| #![trigger shorter[i]] 0 <= i < count implies shorter[i]
                > bound by {
                assert(shorter[i] == lens[i]);
            }
            lemma_leading_above(shorter, bound, count);
        } else {
            assert forall|i: int| #![trigger shorter[i]] 0 <= i < count - 1 implies shorter[i]
                > bound by {
                assert(shorter[i] == lens[i]);
            }
            lemma_leading_above(shorter, bound, count - 1);
            assert(lens[count - 1] > bound);
        }
    }
}

/// A client sends digests of prefixes in the order given, of all that it has first, and stops only
/// at the end, at `max_digest_count`, or before the first length that is not above
/// `min_digest_delta`.
pub proof fn law_probed(
    ops: Seq<Operation>,
    shorter: Seq<usize>,
    min_digest_delta: usize,
    max_digest_count: usize,
)
    requires
        ops.len() <= usize::MAX,
    ensures
        ({
            let lens = seq![ops.len() as usize] + shorter;
            let digests = prefix_digests(
                ops,
                probed(ops.len() as int, shorter, min_digest_delta, max_digest_count),
            );
            let k = digests.len() as int;
            &&& k <= max_digest_count
            &&& k <= lens.len()
            &&& k == max_digest_count || k == lens.len() || lens[k] <= min_digest_delta
            &&& forall|i: int|
                #![trigger digests[i]]
                0 <= i < k ==> {
                    &&& lens[i] > min_digest_delta
                    &&& digests[i] == digest_of(
                        ops.take(
                            if lens[i] < ops.len() {
                                lens[i] as int
                            } else {
                                ops.len() as int
                            },
                        ),
                    )
                }
            &&& max_digest_count > 0 && ops.len() > min_digest_delta ==> k > 0 && digests[0]
                == digest_of(ops)
        }),
{
    let lens = seq![ops.len() as usize] + shorter;
    lemma_leading_above_leads(lens, min_digest_delta);
    let digests = prefix_digests(
        ops,
        probed(ops.len() as int, shorter, min_digest_delta, max_digest_count),
    );
    assert forall|i: int| #![trigger digests[i]] 0 <= i < digests.len() implies {
        &&& lens[i] > min_digest_delta
        &&& digests[i] == digest_of(
            ops.take(
                if lens[i] < ops.len() {
                    lens[i] as int
                } else {
                    ops.len() as int
                },
            ),
        )
    } by {
        assert(clip(ops, 0, lens[i] as int) =~= ops.take(
            if lens[i] < ops.len() {
                lens[i] as int
            } else {
                ops.len() as int
            },
        ));
    }
    assert(lens[0] == ops.len());
    assert(ops.take(ops.len() as int) =~= ops);
}

proof fn lemma_leading_above_leads(lens: Seq<usize>, bound: usize)
    ensures
        0 <= leading_above(lens, bound) <= lens.len(),
        forall|i: int|
            #![trigger lens[i]]
            0 <= i < leading_above(lens, bound) ==> lens[i] > bound,
        leading_above(lens, bound) < lens.len() ==> lens[leading_above(lens, bound)] <= bound,
    decreases lens.len(),
{
    if lens.len() > 0 {
        let shorter = lens.drop_last();
        lemma_leading_above_leads(shorter, bound);
        assert forall|i: int| #![trigger lens[i]] 0 <= i < leading_above(
            lens,
            bound,
        ) implies lens[i] > bound by {
            if i < shorter.len() {
                assert(shorter[i] == lens[i]);
            }
        }
        let k = leading_above(shorter, bound);
        if k < shorter.len() {
            assert(shorter[k] == lens[k]);
        }
    }
}

/// A server answers with the first of the digests that is that of as many of its own leading
/// operations as the digest counts, and with none if there is no such digest. So the digest of all
/// that the server has, in front of the request, is answered with all of it as shared.
pub proof fn law_shared_prefix(ops: Seq<Operation>, digests: Seq<Digest>)
    requires
        ops.len() <= usize::MAX,
    ensures
        forall|i: int|
            #![trigger digests[i]]
            0 <= i < digests.len() && digests[i].count <= ops.len() && digests[i] == digest_of(
                ops.take(digests[i].count as int),
            ) && (forall|j: int|
                #![trigger digests[j]]
                0 <= j < i && digests[j].count <= ops.len() ==> digests[j] != digest_of(
                    ops.take(digests[j].count as int),
                )) ==> shared_prefix(ops, digests) == digests[i].count,
        (forall|j: int|
            #![trigger digests[j]]
            0 <= j < digests.len() && digests[j].count <= ops.len() ==> digests[j] != digest_of(
                ops.take(digests[j].count as int),
            )) ==> shared_prefix(ops, digests) == 0,
        digests.len() > 0 && digests[0] == digest_of(ops) ==> shared_prefix(ops, digests)
            == ops.len(),
    decreases digests.len(),
{
    lemma_digest_count(ops);
    assert(ops.take(ops.len() as int) =~= ops);
    if digests.len() > 0 {
        let rest = digests.skip(1);
        let n = digests[0].count as int;
        law_shared_prefix(ops, rest);
        lemma_digest_count(clip(ops, 0, n));
        if n <= ops.len() {
            assert(clip(ops, 0, n) =~= ops.take(n));
        } else {
            assert(clip(ops, 0, n) =~= ops);
        }
        assert forall|i: int|
            #![trigger digests[i]]
            0 <= i < digests.len() && digests[i].count <= ops.len() && digests[i] == digest_of(
                ops.take(digests[i].count as int),
            ) && (forall|j: int|
                #![trigger digests[j]]
                0 <= j < i && digests[j].count <= ops.len() ==> digests[j] != digest_of(
                    ops.take(digests[j].count as int),
                )) implies shared_prefix(ops, digests) == digests[i].count by {
            if i > 0 {
                assert(digests[0] == digests[0]);
                assert(rest[i - 1] == digests[i]);
                assert forall|j: int|
                    #![trigger rest[j]]
                    0 <= j < i - 1 && rest[j].count <= ops.len() implies rest[j] != digest_of(
                    ops.take(rest[j].count as int),
                ) by {
                    assert(rest[j] == digests[j + 1]);
                }
            }
        }
        if forall|j: int|
            #![trigger digests[j]]
            0 <= j < digests.len() && digests[j].count <= ops.len() ==> digests[j] != digest_of(
                ops.take(digests[j].count as int),
            ) {
            assert(digests[0] == digests[0]);
            assert forall|j: int|
                #![trigger rest[j]]
                0 <= j < rest.len() && rest[j].count <= ops.len() implies rest[j] != digest_of(
                ops.take(rest[j].count as int),
            ) by {
                assert(rest[j] == digests[j + 1]);
            }
        }
    }
}

/// A client and a server with the same names exchange nothing in the protocol with one request,
/// where the client sends the digest of all that it has.
pub proof fn law_prefix_exchange_of_equals_is_free(
    client: Seq<Operation>,
    server: Seq<Operation>,
    shorter: Seq<usize>,
    min_digest_delta: usize,
    max_digest_count: usize,
)
    requires
        client.len() == server.len(),
        forall|i: int|
            #![trigger client[i]]
            0 <= i < client.len() ==> client[i].id() == server[i].id(),
        min_digest_delta < client.len() <= usize::MAX,
        max_digest_count > 0,
    ensures
        ({
            let shared = shared_prefix(
                server,
                prefix_digests(
                    client,
                    probed(client.len() as int, shorter, min_digest_delta, max_digest_count),
                ),
            );
            &&& shared == client.len()
            &&& shared == server.len()
            &&& client.skip(shared).len() == 0
            &&& server.skip(shared).len() == 0
            &&& upsert_all(client, server.skip(shared)) == client
            &&& upsert_all(server, client.skip(shared)) == server
        }),
{
    law_probed(client, shorter, min_digest_delta, max_digest_count);
    let digests = prefix_digests(
        client,
        probed(client.len() as int, shorter, min_digest_delta, max_digest_count),
    );
    law_digest_of_same_ids(client, server);
    law_shared_prefix(server, digests);
}

/// A prefix that the server finds to be shared is one of both, with the same digest.
pub proof fn lemma_shared_prefix(
    client: Seq<Operation>,
    server: Seq<Operation>,
    lens: Seq<usize>,
)
    requires
        client.len() <= usize::MAX,
        server.len() <= usize::MAX,
    ensures
        ({
            let shared = shared_prefix(server, prefix_digests(client, lens));
            &&& 0 <= shared <= client.len()
            &&& shared <= server.len()
            &&& digest_of(client.take(shared)) == digest_of(server.take(shared))
        }),
    decreases lens.len(),
{
    let digests = prefix_digests(client, lens);
    if lens.len() == 0 {
        assert(client.take(0) =~= server.take(0));
    } else {
        let mine = clip(client, 0, lens[0] as int);
        lemma_digest_count(mine);
        assert(digests[0] == digest_of(mine));
        let theirs = clip(server, 0, digests[0].count as int);
        if digest_of(theirs) == digests[0] {
            lemma_digest_count(theirs);
            assert(mine =~= client.take(digests[0].count as int));
            assert(theirs =~= server.take(digests[0].count as int));
        } else {
            lemma_shared_prefix(client, server, lens.skip(1));
            assert(prefix_digests(client, lens.skip(1)) =~= digests.skip(1));
        }
    }
}

/// Exchanging what follows the first prefix that a server finds to be shared brings the two to
/// the same names, unless different prefixes had the same digest, and loses nothing in any case.
pub proof fn law_prefix_exchange_converges(
    client: Seq<Operation>,
    server: Seq<Operation>,
    lens: Seq<usize>,
)
    requires
        sorted(client),
        sorted(server),
        client.len() <= usize::MAX,
        server.len() <= usize::MAX,
    ensures
        ({
            let shared = shared_prefix(server, prefix_digests(client, lens));
            let new_client = upsert_all(client, server.skip(shared));
            let new_server = upsert_all(server, client.skip(shared));
            &&& 0 <= shared <= client.len()
            &&& shared <= server.len()
            &&& prefixes_told_apart(client, server) || same_ids(
                client.take(shared),
                server.take(shared),
            ) ==> {
                &&& joins(new_client, client, server)
                &&& same_ids(new_client, new_server)
                &&& agree(client, server) ==> new_client == new_server
            }
            &&& keeps_ids(new_client, client)
            &&& keeps_ids(new_server, server)
            &&& comes_from(new_client, client, server)
            &&& comes_from(new_server, server, client)
        }),
{
    let shared = shared_prefix(server, prefix_digests(client, lens));
    lemma_shared_prefix(client, server, lens);
    if prefixes_told_apart(client, server) || same_ids(
        client.take(shared),
        server.take(shared),
    ) {
        law_exchange_converges(client, server, shared);
    }
    lemma_exchange_comes_from(client, server, shared);
    lemma_exchange_comes_from(server, client, shared);
}

/// Where no prefix of the client's has the digest of the server's prefix of that length with other
/// names, the protocol with one request leaves both with every name that one of them had, in order,
/// and with no other. Each takes over what the other has past the shared prefix, which is no longer
/// than what either of the two has.
pub proof fn law_prefix_exchange_brings_together(
    client: Seq<Operation>,
    server: Seq<Operation>,
    lens: Seq<usize>,
)
    requires
        sorted(client),
        sorted(server),
        client.len() <= usize::MAX,
        server.len() <= usize::MAX,
        forall|n: int|
            #![trigger client.take(n), server.take(n)]
            0 <= n <= client.len() && n <= server.len() && digest_of(client.take(n)) == digest_of(
                server.take(n),
            ) ==> forall|i: int|
                #![trigger client[i]]
                0 <= i < n ==> client[i].id() == server[i].id(),
    ensures
        ({
            let shared = shared_prefix(server, prefix_digests(client, lens));
            let mine = upsert_all(client, server.skip(shared));
            let theirs = upsert_all(server, client.skip(shared));
            &&& 0 <= shared <= client.len()
            &&& shared <= server.len()
            &&& forall|i: int, j: int|
                #![trigger mine[i], mine[j]]
                0 <= i < j < mine.len() ==> mine[i].id().before(mine[j].id())
            &&& mine.len() == theirs.len()
            &&& forall|i: int|
                #![trigger mine[i]]
                #![trigger theirs[i]]
                0 <= i < mine.len() ==> mine[i].id() == theirs[i].id() && (client.contains(mine[i])
                    || server.contains(mine[i])) && (client.contains(theirs[i])
                    || server.contains(theirs[i]))
            &&& forall|k: int|
                #![trigger client[k]]
                0 <= k < client.len() ==> contains_id(mine, client[k].id())
            &&& forall|k: int|
                #![trigger server[k]]
                0 <= k < server.len() ==> contains_id(mine, server[k].id())
        }),
{
    let shared = shared_prefix(server, prefix_digests(client, lens));
    let mine = upsert_all(client, server.skip(shared));
    let theirs = upsert_all(server, client.skip(shared));
    assert forall|n: int|
        #![trigger client.take(n), server.take(n)]
        0 <= n <= client.len() && n <= server.len() && digest_of(client.take(n)) == digest_of(
            server.take(n),
        ) implies same_ids(client.take(n), server.take(n)) by {
        let a = client.take(n);
        let b = server.take(n);
        assert forall|i: int| #![trigger a[i]] #![trigger b[i]] 0 <= i < n implies a[i].id()
            == b[i].id() by {
            assert(client[i].id() == server[i].id());
        }
    }
    law_prefix_exchange_converges(client, server, lens);
    lemma_upsert_all(client, server.skip(shared));
    assert forall|i: int|
        #![trigger mine[i]]
        #![trigger theirs[i]]
        0 <= i < mine.len() implies mine[i].id() == theirs[i].id() && (client.contains(mine[i])
        || server.contains(mine[i])) && (client.contains(theirs[i]) || server.contains(theirs[i])) by {
        assert(mine.contains(mine[i]));
        assert(theirs.contains(theirs[i]));
    }
    assert forall|k: int| #![trigger client[k]] 0 <= k < client.len() implies contains_id(
        mine,
        client[k].id(),
    ) by {
        assert(contains_id(client, client[k].id()));
    }
    assert forall|k: int| #![trigger server[k]] 0 <= k < server.len() implies contains_id(
        mine,
        server[k].id(),
    ) by {
        assert(contains_id(server, server[k].id()));
    }
}

/// The protocol with one request and the one that compares ranges leave the same names on both
/// sides, whatever their parameters, unless digests of different names matched by chance. Where the
/// two sides agree on what the names stand for, they leave the same operations.
pub proof fn law_protocols_end_alike(
    client: Seq<Operation>,
    server: Seq<Operation>,
    max_digests: int,
    min_operations: int,
    lens: Seq<usize>,
)
    requires
        sorted(client),
        sorted(server),
        client.len() + server.len() <= usize::MAX,
        max_digests >= 1,
        min_operations >= 0,
        ({
            let shared = shared_prefix(server, prefix_digests(client, lens));
            ||| told_apart(client, server)
            ||| sync_start(client, server, max_digests, min_operations).undeceived() && same_ids(
                client.take(shared),
                server.take(shared),
            )
        }),
    ensures
        ({
            let end = sync_start(client, server, max_digests, min_operations).outcome();
            let shared = shared_prefix(server, prefix_digests(client, lens));
            let new_client = upsert_all(client, server.skip(shared));
            let new_server = upsert_all(server, client.skip(shared));
            &&& same_ids(end.client_result(), new_client)
            &&& same_ids(end.server_result(), new_server)
            &&& agree(client, server) ==> end.client_result() == new_client
            &&& agree(client, server) ==> end.server_result() == new_server
        }),
{
    let end = sync_start(client, server, max_digests, min_operations).outcome();
    let shared = shared_prefix(server, prefix_digests(client, lens));
    let new_client = upsert_all(client, server.skip(shared));
    let new_server = upsert_all(server, client.skip(shared));
    lemma_shared_prefix(client, server, lens);
    if told_apart(client, server) {
        law_told_apart_is_undeceived(client, server, max_digests, min_operations);
        assert(client.take(shared) =~= client.subrange(0, shared));
        assert(server.take(shared) =~= server.subrange(0, shared));
    }
    law_sync_converges(client, server, max_digests, min_operations);
    law_sync_loses_nothing(client, server, max_digests, min_operations);
    law_exchange_converges(client, server, shared);
    lemma_exchange_comes_from(client, server, shared);
    lemma_upsert_all(client, server.skip(shared));
    assert forall|id: OperationId| contains_id(end.client_result(), id) <==> contains_id(
        new_client,
        id,
    ) by {}
    lemma_same_ids(end.client_result(), new_client);
    if agree(client, server) {
        lemma_agreeing(end.client_result(), new_client, client, server);
    }
}

} // verus!
