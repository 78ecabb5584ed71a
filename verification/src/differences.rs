//! That a synchronization converges between histories of which each lacks at most one operation of
//! the other, with nothing left to chance.
use crate::convergence::{
    agree, law_sync_converges, law_sync_loses_nothing, law_sync_publishes_what_is_lacking,
    lemma_advance_converging, lemma_matching, lemma_merging_sound, lemma_start_converging,
};
use crate::digest::{
    digest_of, id_hash, law_digest_of_same_ids, law_hash_of_one_more, law_names_hash_apart,
    lemma_digest_count, total, touched, Digest,
};
use crate::history::{
    clip, contains_id, lemma_same_ids, lemma_upsert_all, same_ids, sorted, upsert_all,
};
use crate::ids::OperationId;
use crate::messages::Operation;
use crate::prefixes::{
    law_prefix_exchange_converges, lemma_shared_prefix, prefix_digests, shared_prefix,
};
use crate::progress::{
    lemma_absorbing, lemma_advance, lemma_start_valid, lemma_top, lemma_touched,
};
use crate::protocol::{merge_after, merge_next, sync_start, Merge, Session};
use vstd::prelude::*;

verus! {

/// `whole` without what stands at position `p`, if anything does.
pub open spec fn without(whole: Seq<Operation>, p: int) -> Seq<Operation> {
    if 0 <= p < whole.len() {
        whole.remove(p)
    } else {
        whole
    }
}

/// No two of the names have the same hash.
pub open spec fn hashed_apart(ops: Seq<Operation>) -> bool {
    forall|i: int, j: int|
        #![trigger ops[i], ops[j]]
        0 <= i < j < ops.len() ==> id_hash(ops[i].id()) != id_hash(ops[j].id())
}

/// `u` and `v` have the names of `whole`, each but for at most one of them.
#[verifier::opaque]
spec fn nearly(
    u: Seq<Operation>,
    v: Seq<Operation>,
    whole: Seq<Operation>,
    p: int,
    q: int,
) -> bool {
    &&& sorted(whole)
    &&& hashed_apart(whole)
    &&& whole.len() <= usize::MAX
    &&& 0 <= p
    &&& 0 <= q
    &&& same_ids(u, without(whole, p))
    &&& same_ids(v, without(whole, q))
}

#[verifier::opaque]
spec fn near(u: Seq<Operation>, v: Seq<Operation>) -> bool {
    exists|whole: Seq<Operation>, p: int, q: int| #[trigger] nearly(u, v, whole, p, q)
}

proof fn lemma_same_ids_parts(a: Seq<Operation>, b: Seq<Operation>, n: int)
    requires
        same_ids(a, b),
        0 <= n <= a.len(),
    ensures
        same_ids(a.take(n), b.take(n)),
        same_ids(a.skip(n), b.skip(n)),
{
    assert forall|i: int|
        #![trigger a.skip(n)[i]]
        #![trigger b.skip(n)[i]]
        0 <= i < a.skip(n).len() implies a.skip(n)[i].id() == b.skip(n)[i].id() by {
        assert(a[n + i].id() == b[n + i].id());
    }
}

proof fn lemma_parts(whole: Seq<Operation>, n: int)
    requires
        sorted(whole),
        hashed_apart(whole),
        0 <= n <= whole.len(),
    ensures
        sorted(whole.skip(n)),
        hashed_apart(whole.skip(n)),
        n < whole.len() ==> sorted(whole.remove(n)),
        n < whole.len() ==> hashed_apart(whole.remove(n)),
{
    let tail = whole.skip(n);
    assert forall|i: int, j: int|
        #![trigger tail[i], tail[j]]
        0 <= i < j < tail.len() implies tail[i].id().before(tail[j].id()) && id_hash(tail[i].id())
        != id_hash(tail[j].id()) by {
        assert(tail[i] == whole[n + i] && tail[j] == whole[n + j]);
    }
    if n < whole.len() {
        let fewer = whole.remove(n);
        assert forall|i: int, j: int|
            #![trigger fewer[i], fewer[j]]
            0 <= i < j < fewer.len() implies fewer[i].id().before(fewer[j].id()) && id_hash(
            fewer[i].id(),
        ) != id_hash(fewer[j].id()) by {
            let k = if i < n {
                i
            } else {
                i + 1
            };
            let l = if j < n {
                j
            } else {
                j + 1
            };
            assert(fewer[i] == whole[k] && fewer[j] == whole[l]);
        }
    }
}

/// The stretches that lead two such histories have the same digest only if they have the same
/// names.
proof fn lemma_nearly_told_apart(
    u: Seq<Operation>,
    v: Seq<Operation>,
    whole: Seq<Operation>,
    p: int,
    q: int,
    n: int,
)
    requires
        nearly(u, v, whole, p, q),
        0 <= n <= u.len(),
        n <= v.len(),
        digest_of(u.take(n)) == digest_of(v.take(n)),
    ensures
        same_ids(u.take(n), v.take(n)),
{
    reveal(nearly);
    lemma_same_ids_parts(u, without(whole, p), n);
    lemma_same_ids_parts(v, without(whole, q), n);
    let a = without(whole, p).take(n);
    let b = without(whole, q).take(n);
    if p == q || (p >= n && q >= n) {
        assert(a =~= b);
    } else {
        law_digest_of_same_ids(u.take(n), a);
        law_digest_of_same_ids(v.take(n), b);
        let longer = whole.take(n + 1);
        let i = if p < n {
            p
        } else {
            n
        };
        let j = if q < n {
            q
        } else {
            n
        };
        assert(a =~= longer.remove(i));
        assert(b =~= longer.remove(j));
        lemma_hash_without(longer, i);
        lemma_hash_without(longer, j);
        assert(id_hash(whole[i].id()) == id_hash(whole[j].id()));
        assert(false);
    }
}

proof fn lemma_hash_without(ops: Seq<Operation>, p: int)
    requires
        0 <= p < ops.len() <= usize::MAX,
    ensures
        digest_of(ops).hash == digest_of(ops.remove(p)).hash.wrapping_add(id_hash(ops[p].id())),
{
    law_hash_of_one_more(ops.take(p), ops[p], ops.skip(p + 1));
    assert(ops.take(p) + seq![ops[p]] + ops.skip(p + 1) =~= ops);
    assert(ops.take(p) + ops.skip(p + 1) =~= ops.remove(p));
}

proof fn lemma_first_taken(u: Seq<Operation>, whole: Seq<Operation>, p: int)
    requires
        sorted(whole),
        whole.len() > 0,
        0 <= p,
        same_ids(u, without(whole, p)),
    ensures
        p >= 1 ==> u.len() > 0 && u[0].id() == whole[0].id() && same_ids(
            u.skip(1),
            without(whole.skip(1), p - 1),
        ),
        p == 0 ==> same_ids(u, without(whole.skip(1), whole.len() as int)),
        p == 0 && u.len() > 0 ==> whole[0].id().before(u[0].id()),
{
    let tail = whole.skip(1);
    let mine = without(whole, p);
    if p >= 1 {
        assert(mine.len() > 0);
        assert(mine[0] == whole[0]);
        assert(u[0].id() == mine[0].id());
        lemma_same_ids_parts(u, mine, 1);
        assert(without(tail, p - 1) =~= mine.skip(1));
    } else {
        assert(mine =~= tail);
        if u.len() > 0 {
            assert(u[0].id() == mine[0].id());
            assert(mine[0] == whole[1]);
        }
    }
}

proof fn lemma_nearly_alike(
    u: Seq<Operation>,
    v: Seq<Operation>,
    whole: Seq<Operation>,
    p: int,
)
    requires
        nearly(u, v, whole, p, p),
        p < whole.len(),
    ensures
        0 <= p,
        nearly(u, v, whole.remove(p), whole.len() as int, whole.len() as int),
{
    reveal(nearly);
    lemma_parts(whole, p);
}

proof fn lemma_nearly_next(
    u: Seq<Operation>,
    v: Seq<Operation>,
    whole: Seq<Operation>,
    p: int,
    q: int,
)
    requires
        nearly(u, v, whole, p, q),
        p != q || p >= whole.len(),
    ensures
        u.len() > 0 && (v.len() == 0 || u[0].id().before(v[0].id())) ==> near(u.skip(1), v),
        v.len() > 0 && (u.len() == 0 || v[0].id().before(u[0].id())) ==> near(u, v.skip(1)),
        u.len() > 0 && v.len() > 0 && u[0].id() == v[0].id() ==> near(u.skip(1), v.skip(1)),
{
    reveal(near);
    reveal(nearly);
    if whole.len() > 0 {
        let tail = whole.skip(1);
        let all = whole.len() as int;
        lemma_parts(whole, 1);
        lemma_first_taken(u, whole, p);
        lemma_first_taken(v, whole, q);
        if p >= 1 && q >= 1 {
            assert(nearly(u.skip(1), v.skip(1), tail, p - 1, q - 1));
        } else if p >= 1 {
            assert(nearly(u.skip(1), v, tail, p - 1, all));
        } else {
            assert(nearly(u, v.skip(1), tail, all, q - 1));
        }
    }
}

/// What is left of two such histories once the lesser of their first names is taken from both, as
/// far as they have it, is alike.
proof fn lemma_near_next(u: Seq<Operation>, v: Seq<Operation>)
    requires
        near(u, v),
    ensures
        u.len() > 0 && (v.len() == 0 || u[0].id().before(v[0].id())) ==> near(u.skip(1), v),
        v.len() > 0 && (u.len() == 0 || v[0].id().before(u[0].id())) ==> near(u, v.skip(1)),
        u.len() > 0 && v.len() > 0 && u[0].id() == v[0].id() ==> near(u.skip(1), v.skip(1)),
{
    reveal(near);
    let (whole, p, q) = choose|whole: Seq<Operation>, p: int, q: int|
        #[trigger] nearly(u, v, whole, p, q);
    if p == q && p < whole.len() {
        lemma_nearly_alike(u, v, whole, p);
        lemma_nearly_next(u, v, whole.remove(p), whole.len() as int, whole.len() as int);
    } else {
        lemma_nearly_next(u, v, whole, p, q);
    }
}

/// What is left after a stretch in which the names are the same.
proof fn lemma_near_skip(u: Seq<Operation>, v: Seq<Operation>, n: int)
    requires
        near(u, v),
        0 <= n <= u.len(),
        n <= v.len(),
        forall|i: int| #![trigger u[i]] 0 <= i < n ==> u[i].id() == v[i].id(),
    ensures
        near(u.skip(n), v.skip(n)),
    decreases n,
{
    if n == 0 {
        assert(u.skip(0) =~= u);
        assert(v.skip(0) =~= v);
    } else {
        assert(u[0].id() == v[0].id());
        lemma_near_next(u, v);
        let a = u.skip(1);
        let b = v.skip(1);
        assert forall|i: int| #![trigger a[i]] 0 <= i < n - 1 implies a[i].id() == b[i].id() by {
            assert(u[i + 1].id() == v[i + 1].id());
        }
        lemma_near_skip(a, b, n - 1);
        assert(a.skip(n - 1) =~= u.skip(n));
        assert(b.skip(n - 1) =~= v.skip(n));
    }
}

impl Session {
    /// What the two have still to bring together differs by at most one operation on each side.
    spec fn nearing(self) -> bool {
        near(self.client.skip(self.synced()), self.rest())
    }
}

/// A session between such histories is not deceived.
proof fn lemma_nearing_undeceived(s: Session, client: Seq<Operation>)
    requires
        s.valid(client),
        s.nearing(),
    ensures
        !s.deceived(),
{
    if !s.finished() && s.stack.last().end >= s.synced_end && s.matching() {
        let y = s.synced_end;
        let top = s.stack.last().end as int;
        lemma_top(s, client);
        lemma_touched(s.digests, y, s.rest(), top);
        let count = total(touched(s.digests, y, top));
        let window = clip(s.client, y, s.end());
        lemma_digest_count(window);
        let u = s.client.skip(s.synced());
        let v = s.rest();
        assert(window.len() == count);
        assert(window =~= u.take(count));
        assert(clip(s.server, s.server_end, s.server_end + count) =~= v.take(count));
        reveal(near);
        let (whole, p, q) = choose|whole: Seq<Operation>, p: int, q: int|
            #[trigger] nearly(u, v, whole, p, q);
        lemma_nearly_told_apart(u, v, whole, p, q, count);
    }
}

proof fn lemma_near_merge_next(
    m: Merge,
    u: Seq<Operation>,
    v: Seq<Operation>,
    position: int,
    len: int,
)
    requires
        0 <= m.from_client <= u.len(),
        0 <= m.from_server <= v.len(),
        m.from_client < len,
        m.from_server < len,
        near(u.skip(m.from_client), v.skip(m.from_server)),
    ensures
        ({
            let next = merge_next(m, clip(u, 0, len), clip(v, 0, len), position);
            &&& m.from_client <= next.from_client <= m.from_client + 1
            &&& m.from_server <= next.from_server <= m.from_server + 1
            &&& next.from_client <= u.len()
            &&& next.from_server <= v.len()
            &&& near(u.skip(next.from_client), v.skip(next.from_server))
        }),
{
    let mine = clip(u, 0, len);
    let theirs = clip(v, 0, len);
    let a = u.skip(m.from_client);
    let b = v.skip(m.from_server);
    lemma_near_next(a, b);
    assert(m.from_client < mine.len() <==> a.len() > 0);
    assert(m.from_server < theirs.len() <==> b.len() > 0);
    if a.len() > 0 {
        assert(mine[m.from_client] == a[0]);
        assert(a.skip(1) =~= u.skip(m.from_client + 1));
    }
    if b.len() > 0 {
        assert(theirs[m.from_server] == b[0]);
        assert(b.skip(1) =~= v.skip(m.from_server + 1));
    }
    if a.len() > 0 && b.len() > 0 && !a[0].id().before(b[0].id()) && !b[0].id().before(a[0].id()) {
        assert(a[0].id() == b[0].id());
    }
}

proof fn lemma_near_merge(
    u: Seq<Operation>,
    v: Seq<Operation>,
    position: int,
    digests: Seq<Digest>,
    len: int,
    steps: nat,
)
    requires
        near(u, v),
        steps <= len,
    ensures
        ({
            let m = merge_after(clip(u, 0, len), clip(v, 0, len), position, digests, steps);
            &&& 0 <= m.from_client <= steps
            &&& 0 <= m.from_server <= steps
            &&& m.from_client <= u.len()
            &&& m.from_server <= v.len()
            &&& near(u.skip(m.from_client), v.skip(m.from_server))
        }),
    decreases steps,
{
    if steps == 0 {
        assert(u.skip(0) =~= u);
        assert(v.skip(0) =~= v);
    } else {
        let before = (steps - 1) as nat;
        lemma_near_merge(u, v, position, digests, len, before);
        let m = merge_after(clip(u, 0, len), clip(v, 0, len), position, digests, before);
        lemma_near_merge_next(m, u, v, position, len);
    }
}

proof fn lemma_nearing_skip(s: Session, client: Seq<Operation>)
    requires
        s.valid(client),
        s.nearing(),
        !s.finished(),
        s.stack.last().end >= s.synced_end,
        s.matching(),
    ensures
        s.skip_range().nearing(),
{
    let next = s.skip_range();
    let count = s.server_digest().count as int;
    let u = s.client.skip(s.synced());
    let v = s.rest();
    lemma_nearing_undeceived(s, client);
    lemma_matching(s, client);
    assert forall|i: int| #![trigger u[i]] 0 <= i < count implies u[i].id() == v[i].id() by {
        assert(s.client[s.synced_end + i].id() == s.server[s.server_end + i].id());
    }
    lemma_near_skip(u, v, count);
    assert(next.client.skip(next.synced()) =~= u.skip(count));
    assert(next.rest() =~= v.skip(count));
}

proof fn lemma_nearing_windows(s: Session, client: Seq<Operation>)
    requires
        s.valid(client),
        !s.finished(),
        s.stack.last().end >= s.synced_end,
        !s.matching(),
    ensures
        s.synced() == s.synced_end,
        s.len() >= 1,
        s.start() == s.synced_end,
        clip(s.client, s.synced_end, s.absorbing().1) == clip(
            s.client.skip(s.synced_end),
            0,
            s.len(),
        ),
        s.fetched() == clip(s.rest(), 0, s.len()),
{
    lemma_top(s, client);
    lemma_absorbing(s, client);
    assert(clip(s.client, s.synced_end, s.absorbing().1) =~= clip(
        s.client.skip(s.synced_end),
        0,
        s.len(),
    ));
    assert(s.fetched() =~= clip(s.rest(), 0, s.len()));
}

proof fn lemma_nearing_fetch(s: Session, client: Seq<Operation>)
    requires
        s.valid(client),
        s.converging(client),
        s.nearing(),
        !s.finished(),
        s.stack.last().end >= s.synced_end,
        !s.matching(),
    ensures
        s.fetch().nearing(),
{
    let next = s.fetch();
    let m = s.merging(s.len() as nat);
    let u = s.client.skip(s.synced_end);
    let v = s.rest();
    lemma_nearing_windows(s, client);
    lemma_near_merge(u, v, s.synced_end, s.fetched_digests(), s.len(), s.len() as nat);
    lemma_merging_sound(s, client);
    let passed = s.client.take(s.synced_end) + m.merged;
    let left = u.skip(m.from_client);
    assert(next.client == passed + left);
    assert(next.synced_end == passed.len());
    assert(next.synced() == passed.len());
    assert((passed + left).skip(passed.len() as int) =~= left);
    assert(next.rest() =~= v.skip(m.from_server));
}

/// Each step leaves less, which differs by no more.
proof fn lemma_nearing_advance(s: Session, client: Seq<Operation>)
    requires
        s.valid(client),
        s.converging(client),
        s.nearing(),
    ensures
        s.advance().nearing(),
{
    if !s.finished() && s.stack.last().end >= s.synced_end {
        if s.matching() {
            lemma_nearing_skip(s, client);
        } else if !s.descending() {
            lemma_nearing_fetch(s, client);
        }
    }
}

proof fn lemma_nearing_after(s: Session, client: Seq<Operation>, steps: nat)
    requires
        s.valid(client),
        s.converging(client),
        s.nearing(),
    ensures
        s.after(steps).valid(client),
        s.after(steps).converging(client),
        s.after(steps).nearing(),
        !s.after(steps).deceived(),
    decreases steps,
{
    if steps > 0 {
        let before = (steps - 1) as nat;
        lemma_nearing_after(s, client, before);
        lemma_advance(s.after(before), client);
        lemma_advance_converging(s.after(before), client);
        lemma_nearing_advance(s.after(before), client);
    }
    lemma_nearing_undeceived(s.after(steps), client);
}

/// Where client and server each have all the names of `whole` but at most one, and no two names
/// have the same hash, a synchronization leaves both with all of the names. It does so with any
/// parameters, and publishes no more than what the server lacked.
pub proof fn law_sync_of_nearly_equals(
    client: Seq<Operation>,
    server: Seq<Operation>,
    whole: Seq<Operation>,
    p: int,
    q: int,
    max_digests: int,
    min_operations: int,
)
    requires
        sorted(client),
        sorted(server),
        sorted(whole),
        client.len() + server.len() <= usize::MAX,
        whole.len() <= usize::MAX,
        max_digests >= 1,
        min_operations >= 0,
        0 <= p,
        0 <= q,
        p != q,
        same_ids(client, without(whole, p)),
        same_ids(server, without(whole, q)),
        hashed_apart(whole),
    ensures
        ({
            let start = sync_start(client, server, max_digests, min_operations);
            let end = start.outcome();
            &&& start.undeceived()
            &&& same_ids(end.client_result(), whole)
            &&& same_ids(end.server_result(), whole)
            &&& agree(client, server) ==> end.client_result() == end.server_result()
            &&& end.published().len() == whole.len() - server.len()
        }),
{
    let s = sync_start(client, server, max_digests, min_operations);
    let end = s.outcome();
    lemma_start_valid(client, server, max_digests, min_operations);
    lemma_start_converging(client, server, max_digests, min_operations);
    assert(client.skip(s.synced()) =~= client);
    assert(s.rest() =~= server);
    assert(near(client, server)) by {
        reveal(near);
        reveal(nearly);
        assert(nearly(client, server, whole, p, q));
    }
    assert forall|steps: nat| !(#[trigger] s.after(steps)).deceived() by {
        lemma_nearing_after(s, client, steps);
    }
    law_sync_converges(client, server, max_digests, min_operations);
    law_sync_publishes_what_is_lacking(client, server, max_digests, min_operations);
    assert forall|id: OperationId| contains_id(end.client_result(), id) <==> contains_id(
        whole,
        id,
    ) by {
        lemma_names_of_both(client, server, whole, p, q, id);
    }
    law_sync_loses_nothing(client, server, max_digests, min_operations);
    lemma_same_ids(end.client_result(), whole);
}

proof fn lemma_names_of_both(
    client: Seq<Operation>,
    server: Seq<Operation>,
    whole: Seq<Operation>,
    p: int,
    q: int,
    id: OperationId,
)
    requires
        0 <= p,
        0 <= q,
        p != q,
        same_ids(client, without(whole, p)),
        same_ids(server, without(whole, q)),
    ensures
        contains_id(client, id) || contains_id(server, id) <==> contains_id(whole, id),
{
    let mine = without(whole, p);
    let theirs = without(whole, q);
    if contains_id(client, id) {
        let i = choose|i: int| #![trigger client[i]] 0 <= i < client.len() && client[i].id() == id;
        assert(mine[i].id() == id);
        let k = if p < whole.len() && i >= p {
            i + 1
        } else {
            i
        };
        assert(whole[k] == mine[i]);
    }
    if contains_id(server, id) {
        let i = choose|i: int| #![trigger server[i]] 0 <= i < server.len() && server[i].id() == id;
        assert(theirs[i].id() == id);
        let k = if q < whole.len() && i >= q {
            i + 1
        } else {
            i
        };
        assert(whole[k] == theirs[i]);
    }
    if contains_id(whole, id) {
        let k = choose|k: int| #![trigger whole[k]] 0 <= k < whole.len() && whole[k].id() == id;
        if k != p {
            let i = if p < whole.len() && k > p {
                k - 1
            } else {
                k
            };
            assert(mine[i] == whole[k]);
            assert(client[i].id() == id);
        } else {
            let i = if q < whole.len() && k > q {
                k - 1
            } else {
                k
            };
            assert(theirs[i] == whole[k]);
            assert(server[i].id() == id);
        }
    }
}

/// So it is with histories of one replica, whatever the names are: digests tell them apart, and
/// each side gets the one operation that it lacks.
pub proof fn law_sync_within_one_replica(
    client: Seq<Operation>,
    server: Seq<Operation>,
    whole: Seq<Operation>,
    p: int,
    q: int,
    max_digests: int,
    min_operations: int,
)
    requires
        sorted(client),
        sorted(server),
        sorted(whole),
        client.len() + server.len() <= usize::MAX,
        whole.len() <= usize::MAX,
        max_digests >= 1,
        min_operations >= 0,
        0 <= p,
        0 <= q,
        p != q,
        same_ids(client, without(whole, p)),
        same_ids(server, without(whole, q)),
        forall|i: int, j: int|
            #![trigger whole[i], whole[j]]
            0 <= i < j < whole.len() ==> whole[i].id().replica_id == whole[j].id().replica_id,
    ensures
        ({
            let end = sync_start(client, server, max_digests, min_operations).outcome();
            &&& same_ids(end.client_result(), whole)
            &&& same_ids(end.server_result(), whole)
            &&& agree(client, server) ==> end.client_result() == end.server_result()
            &&& end.published().len() == whole.len() - server.len()
        }),
{
    assert forall|i: int, j: int| #![trigger whole[i], whole[j]] 0 <= i < j < whole.len() implies
        id_hash(whole[i].id()) != id_hash(whole[j].id()) by {
        law_names_hash_apart(whole[i].id(), whole[j].id());
        assert(whole[i].id().before(whole[j].id()));
    }
    law_sync_of_nearly_equals(client, server, whole, p, q, max_digests, min_operations);
}

/// The protocol with one request brings such histories together too, whatever prefixes are tried.
pub proof fn law_prefix_exchange_of_nearly_equals(
    client: Seq<Operation>,
    server: Seq<Operation>,
    whole: Seq<Operation>,
    p: int,
    q: int,
    lens: Seq<usize>,
)
    requires
        sorted(client),
        sorted(server),
        sorted(whole),
        whole.len() <= usize::MAX,
        0 <= p,
        0 <= q,
        p != q,
        same_ids(client, without(whole, p)),
        same_ids(server, without(whole, q)),
        forall|i: int, j: int|
            #![trigger whole[i], whole[j]]
            0 <= i < j < whole.len() ==> whole[i].id().replica_id == whole[j].id().replica_id,
    ensures
        ({
            let shared = shared_prefix(server, prefix_digests(client, lens));
            let new_client = upsert_all(client, server.skip(shared));
            let new_server = upsert_all(server, client.skip(shared));
            &&& same_ids(new_client, whole)
            &&& same_ids(new_server, whole)
            &&& agree(client, server) ==> new_client == new_server
        }),
{
    let shared = shared_prefix(server, prefix_digests(client, lens));
    let new_client = upsert_all(client, server.skip(shared));
    assert forall|i: int, j: int| #![trigger whole[i], whole[j]] 0 <= i < j < whole.len() implies
        id_hash(whole[i].id()) != id_hash(whole[j].id()) by {
        law_names_hash_apart(whole[i].id(), whole[j].id());
        assert(whole[i].id().before(whole[j].id()));
    }
    lemma_shared_prefix(client, server, lens);
    assert(nearly(client, server, whole, p, q)) by {
        reveal(nearly);
    }
    lemma_nearly_told_apart(client, server, whole, p, q, shared);
    law_prefix_exchange_converges(client, server, lens);
    lemma_upsert_all(client, server.skip(shared));
    assert forall|id: OperationId| contains_id(new_client, id) <==> contains_id(whole, id) by {
        lemma_names_of_both(client, server, whole, p, q, id);
    }
    lemma_same_ids(new_client, whole);
}

} // verus!
