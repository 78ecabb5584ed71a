//! That a synchronization comes to an end, and that client and server then hold the same names.
use crate::digest::{digest_of, law_digest_of_same_ids, lemma_digest_count, total, touched};
use crate::history::{
    clip, contains_id, lemma_same_ids, lemma_upsert_all, lemma_upsert_all_adds, same_ids, sorted,
    upsert_all,
};
use crate::ids::OperationId;
use crate::merging::{lemma_merge_after_sound, lemma_merge_taken_over, merge_sound};
use crate::messages::Operation;
use crate::progress::{
    lemma_absorbing, lemma_advance, lemma_advance_grounded, lemma_fetch_numbers, lemma_fetched,
    lemma_start_valid, lemma_top, lemma_touched,
};
use crate::protocol::{sync_start, Session};
use vstd::prelude::*;

verus! {

/// Digests tell the stretches of one history from those of another: where the digests are equal,
/// the names are.
pub open spec fn told_apart(a: Seq<Operation>, b: Seq<Operation>) -> bool {
    forall|i: int, j: int, k: int, l: int|
        #![trigger a.subrange(i, j), b.subrange(k, l)]
        0 <= i <= j <= a.len() && 0 <= k <= l <= b.len() && digest_of(a.subrange(i, j))
            == digest_of(b.subrange(k, l)) ==> same_ids(a.subrange(i, j), b.subrange(k, l))
}

/// Operations of the same name are the same operation.
pub open spec fn agree(a: Seq<Operation>, b: Seq<Operation>) -> bool {
    forall|i: int, j: int|
        #![trigger a[i], b[j]]
        0 <= i < a.len() && 0 <= j < b.len() && a[i].id() == b[j].id() ==> a[i] == b[j]
}

/// `result` holds the names that `a` or `b` held, and no others.
pub open spec fn joins(result: Seq<Operation>, a: Seq<Operation>, b: Seq<Operation>) -> bool {
    forall|id: OperationId|
        #![trigger contains_id(result, id)]
        contains_id(result, id) <==> contains_id(a, id) || contains_id(b, id)
}

impl Session {
    /// How many of the client's operations are brought together with the server's.
    pub open spec fn synced(self) -> int {
        self.client.len() - self.unsynced()
    }

    /// Up to `synced_end` the client has what both have up to there: all that the server has up to
    /// `server_end`, and what the server was found not to have, each once. What it has from there on
    /// is what it began with.
    pub open spec fn converging(self, client: Seq<Operation>) -> bool {
        &&& self.synced() == self.missed.len() + self.server_end
        &&& self.unsynced() <= client.len()
        &&& self.client.skip(self.synced()) == client.skip(client.len() - self.unsynced())
        &&& forall|j: int|
            #![trigger self.server[j]]
            0 <= j < self.server_end ==> contains_id(
                self.client.take(self.synced()),
                self.server[j].id(),
            )
        &&& forall|i: int|
            #![trigger self.client[i]]
            0 <= i < self.synced() ==> contains_id(self.server, self.client[i].id())
                || contains_id(self.missed, self.client[i].id())
        &&& forall|i: int, j: int|
            #![trigger self.client[i], self.server[j]]
            0 <= i < self.synced() && self.server_end <= j < self.server.len()
                ==> self.client[i].id().before(self.server[j].id())
    }
}

/// A session is not deceived where digests tell the two histories apart.
proof fn lemma_told_apart(s: Session, client: Seq<Operation>)
    requires
        s.valid(client),
        s.converging(client),
        told_apart(client, s.server),
    ensures
        !s.deceived(),
{
    if !s.finished() && s.stack.last().end >= s.synced_end && s.matching() {
        let y = s.synced_end;
        let top = s.stack.last().end as int;
        lemma_top(s, client);
        lemma_touched(s.digests, y, s.rest(), top);
        let count = total(touched(s.digests, y, top));
        let window = clip(s.client, y, s.end());
        lemma_digest_count(window);
        assert(window.len() == count);
        let from = client.len() - s.unsynced();
        let mine = client.subrange(from, from + count);
        let theirs = s.server.subrange(s.server_end, s.server_end + count);
        assert forall|i: int| 0 <= i < count implies #[trigger] window[i] == mine[i] by {
            assert(s.client.skip(s.synced())[i] == client.skip(from)[i]);
        }
        assert(window =~= mine);
        assert(s.rest().take(count) =~= theirs);
        assert(same_ids(mine, theirs));
        assert(clip(s.server, s.server_end, s.server_end + count) =~= theirs);
    }
}

/// In a range that matches, client and server have the same names.
pub proof fn lemma_matching(s: Session, client: Seq<Operation>)
    requires
        s.valid(client),
        !s.deceived(),
        !s.finished(),
        s.stack.last().end >= s.synced_end,
        s.matching(),
    ensures
        ({
            let count = s.server_digest().count;
            &&& s.synced() == s.synced_end
            &&& s.synced_end + count <= s.client.len()
            &&& s.server_end + count <= s.server.len()
            &&& s.skip_range().synced() == s.synced_end + count
            &&& forall|i: int, j: int|
                #![trigger s.client[i], s.server[j]]
                s.synced_end <= i < s.synced_end + count && i - s.synced_end == j - s.server_end
                    ==> s.client[i].id() == s.server[j].id()
        }),
{
    let y = s.synced_end;
    let top = s.stack.last().end as int;
    lemma_top(s, client);
    lemma_touched(s.digests, y, s.rest(), top);
    let count = total(touched(s.digests, y, top));
    let mine = clip(s.client, y, s.end());
    let theirs = clip(s.server, s.server_end, s.server_end + count);
    assert(same_ids(mine, theirs));
    assert(theirs.len() == count);
    assert forall|i: int, j: int|
        #![trigger s.client[i], s.server[j]]
        y <= i < y + count && i - y == j - s.server_end implies s.client[i].id()
        == s.server[j].id() by {
        assert(mine[i - y] == s.client[i]);
        assert(theirs[i - y] == s.server[j]);
        assert(mine[i - y].id() == theirs[i - y].id());
    }
}

/// Skipping a range that matches keeps a session converging.
proof fn lemma_skip_converging(s: Session, client: Seq<Operation>)
    requires
        s.valid(client),
        s.converging(client),
        !s.deceived(),
        !s.finished(),
        s.stack.last().end >= s.synced_end,
        s.matching(),
    ensures
        s.skip_range().converging(client),
{
    let next = s.skip_range();
    let y = s.synced_end;
    let e = s.server_end;
    let count = s.server_digest().count as int;
    lemma_matching(s, client);
    assert(next.server_end == e + count);
    assert(s.unsynced() == s.client.len() - y);
    assert(next.unsynced() == s.unsynced() - count);
    let from = client.len() - s.unsynced();
    assert(next.client.skip(next.synced()) =~= client.skip(from + count)) by {
        assert forall|i: int| 0 <= i < next.unsynced() implies #[trigger] next.client.skip(
            next.synced(),
        )[i] == client.skip(from + count)[i] by {
            assert(s.client.skip(s.synced())[count + i] == client.skip(from)[count + i]);
        }
    }
    let before = s.client.take(s.synced());
    let after = next.client.take(next.synced());
    assert forall|j: int| #![trigger next.server[j]] 0 <= j < next.server_end implies contains_id(
        after,
        next.server[j].id(),
    ) by {
        if j < e {
            assert(contains_id(before, s.server[j].id()));
            let k = choose|k: int| 0 <= k < before.len() && before[k].id() == s.server[j].id();
            assert(after[k].id() == s.server[j].id());
        } else {
            assert(s.client[y + (j - e)].id() == s.server[j].id());
            assert(after[y + (j - e)] == s.client[y + (j - e)]);
        }
    }
    assert forall|i: int| #![trigger next.client[i]] 0 <= i < next.synced() implies contains_id(
        next.server,
        next.client[i].id(),
    ) || contains_id(next.missed, next.client[i].id()) by {
        if i >= y {
            assert(s.client[i].id() == s.server[e + (i - y)].id());
        }
    }
    assert forall|i: int, j: int|
        #![trigger next.client[i], next.server[j]]
        0 <= i < next.synced() && next.server_end <= j
            < next.server.len() implies next.client[i].id().before(next.server[j].id()) by {
        if i >= y {
            assert(s.client[i].id() == s.server[e + (i - y)].id());
        }
    }
}

/// The merge of a range that was fetched is sound in a session that converges, and says what the
/// client has afterwards.
pub proof fn lemma_merging_sound(s: Session, client: Seq<Operation>)
    requires
        s.valid(client),
        s.converging(client),
        !s.finished(),
        s.stack.last().end >= s.synced_end,
        !s.matching(),
    ensures
        ({
            let m = s.merging(s.len() as nat);
            let synced = s.client.take(s.synced_end);
            let unsynced = s.client.skip(s.synced_end);
            &&& s.synced() == s.synced_end < s.client.len()
            &&& s.synced_end + m.merged.len() == s.missed.len() + m.missed.len() + s.server_end
                + m.from_server
            &&& merge_sound(m, synced, unsynced, s.rest())
            &&& s.fetch().client == synced + m.merged + unsynced.skip(m.from_client)
        }),
{
    let y = s.synced_end;
    let synced = s.client.take(y);
    let unsynced = s.client.skip(y);
    let end = s.absorbing().1;
    let window = clip(s.client, y, end);
    lemma_top(s, client);
    lemma_absorbing(s, client);
    lemma_fetched(s, client);
    lemma_fetch_numbers(s, client);
    assert(window =~= unsynced.take(window.len() as int));
    assert(synced + unsynced =~= s.client);
    lemma_merge_after_sound(
        window,
        s.fetched(),
        y,
        s.fetched_digests(),
        synced,
        unsynced,
        s.rest(),
        s.len() as nat,
        s.len(),
    );
    lemma_merge_taken_over(s.merging(s.len() as nat), synced, unsynced, s.rest());
}

/// Fetching a range keeps a session converging.
proof fn lemma_fetch_converging(s: Session, client: Seq<Operation>)
    requires
        s.valid(client),
        s.converging(client),
        !s.finished(),
        s.stack.last().end >= s.synced_end,
        !s.matching(),
    ensures
        s.fetch().converging(client),
{
    let next = s.fetch();
    let y = s.synced_end;
    let m = s.merging(s.len() as nat);
    let synced = s.client.take(y);
    let unsynced = s.client.skip(y);
    let passed = synced + m.merged;
    lemma_merging_sound(s, client);
    assert(next.client =~= passed + unsynced.skip(m.from_client));
    assert(next.synced_end == passed.len());
    assert(next.unsynced() == unsynced.len() - m.from_client);
    assert(next.synced() == passed.len());
    assert(next.client.take(next.synced()) =~= passed);
    let from = client.len() - s.unsynced();
    assert(next.client.skip(next.synced()) =~= client.skip(from + m.from_client)) by {
        assert forall|i: int| 0 <= i < next.unsynced() implies #[trigger] next.client.skip(
            next.synced(),
        )[i] == client.skip(from + m.from_client)[i] by {
            assert(s.client.skip(s.synced())[m.from_client + i] == client.skip(
                from,
            )[m.from_client + i]);
        }
    }
    assert forall|j: int| #![trigger next.server[j]] 0 <= j < next.server_end implies contains_id(
        passed,
        next.server[j].id(),
    ) by {
        if j < s.server_end {
            assert(contains_id(synced, s.server[j].id()));
            let k = choose|k: int| 0 <= k < synced.len() && synced[k].id() == s.server[j].id();
            assert(passed[k].id() == s.server[j].id());
        } else {
            assert(s.rest()[j - s.server_end] == s.server[j]);
            assert(contains_id(m.merged, s.server[j].id()));
            let k = choose|k: int| 0 <= k < m.merged.len() && m.merged[k].id() == s.server[j].id();
            assert(passed[synced.len() + k].id() == s.server[j].id());
        }
    }
    assert forall|i: int| #![trigger next.client[i]] 0 <= i < next.synced() implies contains_id(
        next.server,
        next.client[i].id(),
    ) || contains_id(next.missed, next.client[i].id()) by {
        let id = next.client[i].id();
        assert(next.client[i] == passed[i]);
        if i < y {
            assert(passed[i] == s.client[i]);
            if contains_id(s.missed, id) {
                let k = choose|k: int| 0 <= k < s.missed.len() && s.missed[k].id() == id;
                assert(next.missed[k].id() == id);
            }
        } else {
            assert(passed[i] == m.merged[i - y]);
            if contains_id(s.rest(), id) {
                let k = choose|k: int| 0 <= k < s.rest().len() && s.rest()[k].id() == id;
                assert(s.server[s.server_end + k].id() == id);
            } else {
                let k = choose|k: int| 0 <= k < m.missed.len() && m.missed[k].id() == id;
                assert(next.missed[s.missed.len() + k].id() == id);
            }
        }
    }
    assert forall|i: int, j: int|
        #![trigger next.client[i], next.server[j]]
        0 <= i < next.synced() && next.server_end <= j
            < next.server.len() implies next.client[i].id().before(next.server[j].id()) by {
        assert(next.client[i] == passed[i]);
        assert(s.rest()[j - s.server_end] == s.server[j]);
    }
}

/// Each step keeps a session converging.
pub proof fn lemma_advance_converging(s: Session, client: Seq<Operation>)
    requires
        s.valid(client),
        s.converging(client),
        !s.deceived(),
    ensures
        s.advance().converging(client),
{
    if !s.finished() && s.stack.last().end >= s.synced_end {
        if s.matching() {
            lemma_skip_converging(s, client);
        } else if !s.descending() {
            lemma_fetch_converging(s, client);
        }
    }
}

/// What holds of the first state and is kept by each step holds of every state.
proof fn lemma_after(s: Session, client: Seq<Operation>, steps: nat)
    requires
        s.valid(client),
        s.faithful(client),
    ensures
        s.after(steps).valid(client),
        s.after(steps).faithful(client),
        s.after(steps).server == s.server,
        s.grounded(client) ==> s.after(steps).grounded(client),
        s.converging(client) && s.undeceived() ==> s.after(steps).converging(client),
    decreases steps,
{
    if steps > 0 {
        let before = (steps - 1) as nat;
        lemma_after(s, client, before);
        lemma_advance(s.after(before), client);
        if s.grounded(client) {
            lemma_advance_grounded(s.after(before), client);
        }
        if s.converging(client) && s.undeceived() {
            lemma_advance_converging(s.after(before), client);
        }
    }
}

proof fn lemma_after_told_apart(s: Session, client: Seq<Operation>, steps: nat)
    requires
        s.valid(client),
        s.faithful(client),
        s.converging(client),
        told_apart(client, s.server),
    ensures
        s.after(steps).converging(client),
        !s.after(steps).deceived(),
    decreases steps,
{
    if steps > 0 {
        let before = (steps - 1) as nat;
        lemma_after_told_apart(s, client, before);
        lemma_after(s, client, before);
        lemma_advance_converging(s.after(before), client);
    }
    lemma_after(s, client, steps);
    lemma_told_apart(s.after(steps), client);
}

pub proof fn lemma_start_converging(
    client: Seq<Operation>,
    server: Seq<Operation>,
    max_digests: int,
    min_operations: int,
)
    ensures
        sync_start(client, server, max_digests, min_operations).converging(client),
{
    let s = sync_start(client, server, max_digests, min_operations);
    assert(s.client.skip(s.synced()) =~= client.skip(client.len() - s.unsynced()));
}

/// No session between the two is deceived where digests tell apart all stretches of what they have.
pub proof fn law_told_apart_is_undeceived(
    client: Seq<Operation>,
    server: Seq<Operation>,
    max_digests: int,
    min_operations: int,
)
    requires
        sorted(client),
        sorted(server),
        client.len() + server.len() <= usize::MAX,
        max_digests >= 1,
        min_operations >= 0,
        told_apart(client, server),
    ensures
        sync_start(client, server, max_digests, min_operations).undeceived(),
{
    let s = sync_start(client, server, max_digests, min_operations);
    lemma_start_valid(client, server, max_digests, min_operations);
    lemma_start_converging(client, server, max_digests, min_operations);
    assert forall|steps: nat| !(#[trigger] s.after(steps)).deceived() by {
        lemma_after_told_apart(s, client, steps);
    }
}

proof fn lemma_after_advance(s: Session, steps: nat)
    ensures
        s.advance().after(steps) == s.after(steps + 1),
    decreases steps,
{
    if steps == 0 {
        assert(s.after(0) == s);
    } else {
        lemma_after_advance(s, (steps - 1) as nat);
    }
}

/// A session comes to an end.
pub proof fn lemma_ends(s: Session, client: Seq<Operation>) -> (steps: nat)
    requires
        s.valid(client),
    ensures
        s.after(steps).finished(),
    decreases
            s.remaining(),
            if s.stale() {
                1int
            } else {
                0int
            },
            s.effort(),
{
    if s.finished() {
        assert(s.after(0) == s);
        0
    } else {
        lemma_advance(s, client);
        let steps = lemma_ends(s.advance(), client);
        lemma_after_advance(s, steps);
        steps + 1
    }
}

proof fn lemma_finished_stays(s: Session, steps: nat, more: nat)
    requires
        s.after(steps).finished(),
    ensures
        s.after(steps + more) == s.after(steps),
    decreases more,
{
    if more > 0 {
        lemma_finished_stays(s, steps, (more - 1) as nat);
    }
}

/// A session in which nothing is left to do has come to its outcome.
pub proof fn lemma_outcome(s: Session, steps: nat)
    requires
        s.after(steps).finished(),
    ensures
        s.outcome() == s.after(steps),
{
    let chosen = choose|steps: nat| (#[trigger] s.after(steps)).finished();
    assert(s.after(chosen).finished());
    if chosen < steps {
        lemma_finished_stays(s, chosen, (steps - chosen) as nat);
    } else {
        lemma_finished_stays(s, steps, (chosen - steps) as nat);
    }
}

/// A synchronization comes to an end, whatever client and server have, and in a state that keeps
/// what every state keeps.
pub proof fn law_sync_ends(
    client: Seq<Operation>,
    server: Seq<Operation>,
    max_digests: int,
    min_operations: int,
)
    requires
        sorted(client),
        sorted(server),
        client.len() + server.len() <= usize::MAX,
        max_digests >= 1,
        min_operations >= 0,
    ensures
        ({
            let end = sync_start(client, server, max_digests, min_operations).outcome();
            &&& end.finished()
            &&& end.valid(client)
            &&& end.faithful(client)
            &&& end.server == server
        }),
{
    let s = sync_start(client, server, max_digests, min_operations);
    lemma_start_valid(client, server, max_digests, min_operations);
    let steps = lemma_ends(s, client);
    lemma_outcome(s, steps);
    lemma_after(s, client, steps);
}

/// All that `result` holds comes from `a` or from `b`.
pub open spec fn comes_from(result: Seq<Operation>, a: Seq<Operation>, b: Seq<Operation>) -> bool {
    forall|x: Operation|
        #![trigger result.contains(x)]
        result.contains(x) ==> a.contains(x) || b.contains(x)
}

/// `result` holds all the names that `a` holds.
pub open spec fn keeps_ids(result: Seq<Operation>, a: Seq<Operation>) -> bool {
    forall|id: OperationId|
        #![trigger contains_id(result, id)]
        contains_id(a, id) ==> contains_id(result, id)
}

/// Whatever the digests tell, a synchronization loses no name and makes up no operation, and what
/// either of the two gains has been sent to it. A client publishes no more than it had, and neither
/// of the two ends with more than both had.
pub proof fn law_sync_loses_nothing(
    client: Seq<Operation>,
    server: Seq<Operation>,
    max_digests: int,
    min_operations: int,
)
    requires
        sorted(client),
        sorted(server),
        client.len() + server.len() <= usize::MAX,
        max_digests >= 1,
        min_operations >= 0,
    ensures
        ({
            let end = sync_start(client, server, max_digests, min_operations).outcome();
            let sent = end.server_operations + end.server_suffix().len();
            &&& sorted(end.client_result())
            &&& sorted(end.server_result())
            &&& keeps_ids(end.client_result(), client)
            &&& keeps_ids(end.server_result(), server)
            &&& comes_from(end.client_result(), client, server)
            &&& comes_from(end.server_result(), client, server)
            &&& client.len() <= end.client_result().len() <= client.len() + sent
            &&& server.len() <= end.server_result().len() <= server.len() + end.published().len()
            &&& sent <= client.len() + server.len()
            &&& end.published().len() <= client.len()
            &&& end.client_result().len() <= client.len() + server.len()
            &&& end.server_result().len() <= client.len() + server.len()
        }),
{
    let end = sync_start(client, server, max_digests, min_operations).outcome();
    law_sync_ends(client, server, max_digests, min_operations);
    lemma_upsert_all(end.client, end.server_suffix());
    lemma_upsert_all(end.server, end.published());
    assert forall|x: Operation| #![trigger end.client_result().contains(x)]
        end.client_result().contains(x) implies client.contains(x) || server.contains(x) by {
        if !end.client.contains(x) {
            let suffix = end.server_suffix();
            let i = choose|i: int| 0 <= i < suffix.len() && suffix[i] == x;
            assert(server[end.server_end + i] == x);
        }
    }
    assert forall|x: Operation| #![trigger end.server_result().contains(x)]
        end.server_result().contains(x) implies client.contains(x) || server.contains(x) by {
        if !server.contains(x) {
            let published = end.published();
            let i = choose|i: int| 0 <= i < published.len() && published[i] == x;
            if i < end.missed.len() {
                assert(end.missed[i] == x);
                assert(end.missed.contains(x));
            } else {
                assert(end.client[end.synced_end + (i - end.missed.len())] == x);
                assert(end.client.contains(x));
            }
        }
    }
}

/// What the two have at the outcome of a session that has converged.
proof fn lemma_converged(end: Session, client: Seq<Operation>, server: Seq<Operation>)
    requires
        end.valid(client),
        end.faithful(client),
        end.converging(client),
        end.server == server,
    ensures
        joins(end.client_result(), client, server),
        joins(end.server_result(), client, server),
{
    let suffix = end.server_suffix();
    let published = end.published();
    lemma_upsert_all(end.client, suffix);
    lemma_upsert_all(server, published);
    assert forall|id: OperationId| contains_id(server, id) implies contains_id(end.client, id)
        || contains_id(suffix, id) by {
        let j = choose|j: int| 0 <= j < server.len() && server[j].id() == id;
        if j < end.server_end {
            let synced = end.client.take(end.synced());
            assert(contains_id(synced, end.server[j].id()));
            let k = choose|k: int| 0 <= k < synced.len() && synced[k].id() == id;
            assert(end.client[k].id() == id);
        } else {
            assert(suffix[j - end.server_end].id() == id);
        }
    }
    assert forall|id: OperationId| contains_id(end.client, id) || contains_id(suffix, id) implies
        contains_id(client, id) || contains_id(server, id) by {
        if contains_id(end.client, id) {
            let i = choose|i: int| 0 <= i < end.client.len() && end.client[i].id() == id;
            let x = end.client[i];
            assert(end.client.contains(x));
            if client.contains(x) {
                let k = choose|k: int| 0 <= k < client.len() && client[k] == x;
                assert(client[k].id() == id);
            } else {
                let k = choose|k: int| 0 <= k < server.len() && server[k] == x;
                assert(server[k].id() == id);
            }
        } else {
            let i = choose|i: int| 0 <= i < suffix.len() && suffix[i].id() == id;
            assert(server[end.server_end + i].id() == id);
        }
    }
    assert forall|id: OperationId| contains_id(end.client, id) implies contains_id(server, id)
        || contains_id(published, id) by {
        let i = choose|i: int| 0 <= i < end.client.len() && end.client[i].id() == id;
        if i < end.synced() {
            if contains_id(end.missed, end.client[i].id()) {
                let k = choose|k: int| 0 <= k < end.missed.len() && end.missed[k].id() == id;
                assert(published[k].id() == id);
            }
        } else {
            assert(published[end.missed.len() + (i - end.synced_end)].id() == id);
        }
    }
    assert forall|id: OperationId| contains_id(published, id) implies contains_id(client, id)
        || contains_id(server, id) by {
        let i = choose|i: int| 0 <= i < published.len() && published[i].id() == id;
        let x = published[i];
        if i < end.missed.len() {
            assert(end.missed[i] == x);
            assert(end.missed.contains(x));
        } else {
            assert(end.client[end.synced_end + (i - end.missed.len())] == x);
            assert(end.client.contains(x));
        }
        if client.contains(x) {
            let k = choose|k: int| 0 <= k < client.len() && client[k] == x;
            assert(client[k].id() == id);
        } else {
            let k = choose|k: int| 0 <= k < server.len() && server[k] == x;
            assert(server[k].id() == id);
        }
    }
}

/// Histories made of the same two, in which a name stands for one operation, are equal as soon as
/// they hold the same names.
pub proof fn lemma_agreeing(
    a: Seq<Operation>,
    b: Seq<Operation>,
    client: Seq<Operation>,
    server: Seq<Operation>,
)
    requires
        sorted(client),
        sorted(server),
        agree(client, server),
        comes_from(a, client, server),
        comes_from(b, client, server),
        same_ids(a, b),
    ensures
        a == b,
{
    assert forall|i: int| 0 <= i < a.len() implies a[i] == b[i] by {
        assert(a.contains(a[i]));
        assert(b.contains(b[i]));
        assert(a[i].id() == b[i].id());
        assert forall|x: Operation, y: Operation|
            #![trigger client.contains(x), client.contains(y)]
            client.contains(x) && client.contains(y) && x.id() == y.id() implies x == y by {
            let k = choose|k: int| 0 <= k < client.len() && client[k] == x;
            let l = choose|l: int| 0 <= l < client.len() && client[l] == y;
            assert(k == l);
        }
        assert forall|x: Operation, y: Operation|
            #![trigger server.contains(x), server.contains(y)]
            server.contains(x) && server.contains(y) && x.id() == y.id() implies x == y by {
            let k = choose|k: int| 0 <= k < server.len() && server[k] == x;
            let l = choose|l: int| 0 <= l < server.len() && server[l] == y;
            assert(k == l);
        }
        assert forall|x: Operation, y: Operation|
            #![trigger client.contains(x), server.contains(y)]
            client.contains(x) && server.contains(y) && x.id() == y.id() implies x == y by {
            let k = choose|k: int| 0 <= k < client.len() && client[k] == x;
            let l = choose|l: int| 0 <= l < server.len() && server[l] == y;
            assert(client[k].id() == server[l].id());
        }
    }
    assert(a =~= b);
}

/// After a synchronization client and server hold the same names, namely those that either of them
/// held, unless digests of different names matched by chance. If the two also agreed on what the
/// names stand for, they hold the same operations.
pub proof fn law_sync_converges(
    client: Seq<Operation>,
    server: Seq<Operation>,
    max_digests: int,
    min_operations: int,
)
    requires
        sorted(client),
        sorted(server),
        client.len() + server.len() <= usize::MAX,
        max_digests >= 1,
        min_operations >= 0,
        sync_start(client, server, max_digests, min_operations).undeceived(),
    ensures
        ({
            let end = sync_start(client, server, max_digests, min_operations).outcome();
            &&& joins(end.client_result(), client, server)
            &&& same_ids(end.client_result(), end.server_result())
            &&& agree(client, server) ==> end.client_result() == end.server_result()
        }),
{
    let s = sync_start(client, server, max_digests, min_operations);
    let end = s.outcome();
    lemma_start_valid(client, server, max_digests, min_operations);
    lemma_start_converging(client, server, max_digests, min_operations);
    let steps = lemma_ends(s, client);
    lemma_outcome(s, steps);
    lemma_after(s, client, steps);
    lemma_converged(end, client, server);
    law_sync_loses_nothing(client, server, max_digests, min_operations);
    assert forall|id: OperationId| contains_id(end.client_result(), id) <==> contains_id(
        end.server_result(),
        id,
    ) by {}
    lemma_same_ids(end.client_result(), end.server_result());
    if agree(client, server) {
        lemma_agreeing(end.client_result(), end.server_result(), client, server);
    }
}

/// Where no stretch of the client's has the digest of a stretch of the server's with other names, a
/// synchronization leaves both with every name that one of them had, each once and in order, and
/// with no other. The operations are those that one of them had, and where both have one under the
/// same name only if it is the same, the two end with the same operations.
pub proof fn law_sync_brings_together(
    client: Seq<Operation>,
    server: Seq<Operation>,
    max_digests: int,
    min_operations: int,
)
    requires
        sorted(client),
        sorted(server),
        client.len() + server.len() <= usize::MAX,
        max_digests >= 1,
        min_operations >= 0,
        forall|i: int, j: int, k: int, l: int|
            #![trigger client.subrange(i, j), server.subrange(k, l)]
            0 <= i <= j <= client.len() && 0 <= k <= l <= server.len() && digest_of(
                client.subrange(i, j),
            ) == digest_of(server.subrange(k, l)) ==> j - i == l - k && forall|n: int|
                #![trigger client[i + n]]
                0 <= n < j - i ==> client[i + n].id() == server[k + n].id(),
    ensures
        ({
            let end = sync_start(client, server, max_digests, min_operations).outcome();
            let mine = end.client_result();
            let theirs = end.server_result();
            &&& forall|i: int, j: int|
                #![trigger mine[i], mine[j]]
                0 <= i < j < mine.len() ==> mine[i].id().before(mine[j].id())
            &&& mine.len() == theirs.len()
            &&& forall|i: int|
                #![trigger mine[i]]
                #![trigger theirs[i]]
                0 <= i < mine.len() ==> mine[i].id() == theirs[i].id() && (client.contains(mine[i])
                    || server.contains(mine[i])) && (client.contains(theirs[i])
                    || server.contains(theirs[i]))
            &&& forall|k: int|
                #![trigger client[k]]
                0 <= k < client.len() ==> exists|i: int|
                    #![trigger mine[i]]
                    0 <= i < mine.len() && mine[i].id() == client[k].id()
            &&& forall|k: int|
                #![trigger server[k]]
                0 <= k < server.len() ==> exists|i: int|
                    #![trigger mine[i]]
                    0 <= i < mine.len() && mine[i].id() == server[k].id()
            &&& (forall|i: int, j: int|
                #![trigger client[i], server[j]]
                0 <= i < client.len() && 0 <= j < server.len() && client[i].id()
                    == server[j].id() ==> client[i] == server[j]) ==> mine == theirs
        }),
{
    let end = sync_start(client, server, max_digests, min_operations).outcome();
    let mine = end.client_result();
    let theirs = end.server_result();
    assert forall|i: int, j: int, k: int, l: int|
        #![trigger client.subrange(i, j), server.subrange(k, l)]
        0 <= i <= j <= client.len() && 0 <= k <= l <= server.len() && digest_of(
            client.subrange(i, j),
        ) == digest_of(server.subrange(k, l)) implies same_ids(
        client.subrange(i, j),
        server.subrange(k, l),
    ) by {
        let a = client.subrange(i, j);
        let b = server.subrange(k, l);
        assert forall|n: int| #![trigger a[n]] #![trigger b[n]] 0 <= n < a.len() implies a[n].id()
            == b[n].id() by {
            assert(client[i + n].id() == server[k + n].id());
        }
    }
    law_told_apart_is_undeceived(client, server, max_digests, min_operations);
    law_sync_converges(client, server, max_digests, min_operations);
    law_sync_loses_nothing(client, server, max_digests, min_operations);
    assert forall|i: int|
        #![trigger mine[i]]
        #![trigger theirs[i]]
        0 <= i < mine.len() implies mine[i].id() == theirs[i].id() && (client.contains(mine[i])
        || server.contains(mine[i])) && (client.contains(theirs[i]) || server.contains(theirs[i])) by {
        assert(mine.contains(mine[i]));
        assert(theirs.contains(theirs[i]));
    }
    assert forall|k: int| #![trigger client[k]] 0 <= k < client.len() implies exists|i: int|
        #![trigger mine[i]]
        0 <= i < mine.len() && mine[i].id() == client[k].id() by {
        assert(contains_id(client, client[k].id()));
        assert(contains_id(mine, client[k].id()));
    }
    assert forall|k: int| #![trigger server[k]] 0 <= k < server.len() implies exists|i: int|
        #![trigger mine[i]]
        0 <= i < mine.len() && mine[i].id() == server[k].id() by {
        assert(contains_id(server, server[k].id()));
        assert(contains_id(mine, server[k].id()));
    }
}

/// At the outcome of a session that has converged, nothing is left of the one or of the other, so
/// the two have together what each brought alone.
proof fn lemma_published(end: Session, client: Seq<Operation>, server: Seq<Operation>)
    requires
        end.valid(client),
        end.converging(client),
        end.grounded(client),
        end.finished(),
        end.server == server,
    ensures
        end.client_result().len() == server.len() + end.published().len(),
{
    let suffix = end.server_suffix();
    assert(end.unsynced() == 0 || end.server_end == server.len());
    assert forall|i: int, j: int|
        #![trigger suffix[i], suffix[j]]
        0 <= i < j < suffix.len() implies suffix[i].id().before(suffix[j].id()) by {
        assert(suffix[i] == server[end.server_end + i]);
        assert(suffix[j] == server[end.server_end + j]);
    }
    assert forall|i: int| #![trigger suffix[i]] 0 <= i < suffix.len() implies !contains_id(
        end.client,
        suffix[i].id(),
    ) by {
        assert(suffix[i] == server[end.server_end + i]);
        if contains_id(end.client, suffix[i].id()) {
            let k = choose|k: int|
                0 <= k < end.client.len() && end.client[k].id() == suffix[i].id();
            assert(end.client[k].id().before(end.server[end.server_end + i].id()));
        }
    }
    lemma_upsert_all_adds(end.client, suffix);
}

/// A client publishes what the server lacks and nothing else, unless digests of different names
/// matched by chance: the server gains each operation that it is sent.
pub proof fn law_sync_publishes_what_is_lacking(
    client: Seq<Operation>,
    server: Seq<Operation>,
    max_digests: int,
    min_operations: int,
)
    requires
        sorted(client),
        sorted(server),
        client.len() + server.len() <= usize::MAX,
        max_digests >= 1,
        min_operations >= 0,
        sync_start(client, server, max_digests, min_operations).undeceived(),
    ensures
        ({
            let end = sync_start(client, server, max_digests, min_operations).outcome();
            end.published().len() == end.server_result().len() - server.len()
        }),
{
    let s = sync_start(client, server, max_digests, min_operations);
    let end = s.outcome();
    lemma_start_valid(client, server, max_digests, min_operations);
    lemma_start_converging(client, server, max_digests, min_operations);
    let steps = lemma_ends(s, client);
    lemma_outcome(s, steps);
    lemma_after(s, client, steps);
    lemma_published(end, client, server);
    law_sync_converges(client, server, max_digests, min_operations);
}

impl Session {
    /// What every state keeps of a session whose client and server began with the same names.
    spec fn idle(self, client: Seq<Operation>) -> bool {
        &&& self.valid(client)
        &&& self.client == client
        &&& same_ids(client, self.server)
        &&& self.missed.len() == 0
        &&& self.server_operations == 0
        &&& self.roundtrips == 1
        &&& self.server_end <= self.synced_end
        &&& self.grounded(client)
    }
}

/// Where client and server have the same names, every range matches.
proof fn lemma_idle_matching(s: Session, client: Seq<Operation>)
    requires
        s.idle(client),
        !s.finished(),
        s.stack.last().end >= s.synced_end,
    ensures
        s.matching(),
{
    let y = s.synced_end;
    let top = s.stack.last().end as int;
    lemma_top(s, client);
    lemma_touched(s.digests, y, s.rest(), top);
    let count = total(touched(s.digests, y, top));
    let mine = clip(client, y, s.end());
    let theirs = s.rest().take(count);
    assert(same_ids(mine, theirs)) by {
        assert(mine.len() == count);
        assert forall|i: int| #![trigger mine[i]] #![trigger theirs[i]] 0 <= i < count implies
            mine[i].id() == theirs[i].id() by {
            assert(mine[i] == client[y + i]);
            assert(theirs[i] == s.server[y + i]);
        }
    }
    law_digest_of_same_ids(mine, theirs);
}

proof fn lemma_idle_after(s: Session, client: Seq<Operation>, steps: nat)
    requires
        s.idle(client),
    ensures
        s.after(steps).idle(client),
        s.after(steps).server == s.server,
    decreases steps,
{
    if steps > 0 {
        let before = s.after((steps - 1) as nat);
        lemma_idle_after(s, client, (steps - 1) as nat);
        lemma_advance(before, client);
        lemma_advance_grounded(before, client);
        if !before.finished() {
            lemma_top(before, client);
            if before.stack.last().end >= before.synced_end {
                lemma_idle_matching(before, client);
                lemma_touched(
                    before.digests,
                    before.synced_end,
                    before.rest(),
                    before.stack.last().end as int,
                );
            }
        }
    }
}

/// A synchronization of a client and a server that have the same names already changes nothing,
/// sends no operation, and takes no more than the first and the last round trip.
pub proof fn law_sync_of_equals_is_free(
    client: Seq<Operation>,
    server: Seq<Operation>,
    max_digests: int,
    min_operations: int,
)
    requires
        sorted(client),
        sorted(server),
        same_ids(client, server),
        client.len() + server.len() <= usize::MAX,
        max_digests >= 1,
        min_operations >= 0,
    ensures
        ({
            let end = sync_start(client, server, max_digests, min_operations).outcome();
            &&& end.client_result() == client
            &&& end.server_result() == server
            &&& end.roundtrips == 1
            &&& end.server_operations + end.server_suffix().len() == 0
            &&& end.published().len() == 0
        }),
{
    let s = sync_start(client, server, max_digests, min_operations);
    lemma_start_valid(client, server, max_digests, min_operations);
    assert(s.idle(client));
    let steps = lemma_ends(s, client);
    lemma_outcome(s, steps);
    lemma_idle_after(s, client, steps);
}

/// A second synchronization right after a first one changes nothing and sends no operation, also
/// where it subdivides ranges otherwise.
pub proof fn law_second_sync_is_free(
    client: Seq<Operation>,
    server: Seq<Operation>,
    max_digests: int,
    min_operations: int,
    second_max_digests: int,
    second_min_operations: int,
)
    requires
        sorted(client),
        sorted(server),
        client.len() + server.len() <= usize::MAX,
        max_digests >= 1,
        min_operations >= 0,
        second_max_digests >= 1,
        second_min_operations >= 0,
        sync_start(client, server, max_digests, min_operations).undeceived(),
        ({
            let end = sync_start(client, server, max_digests, min_operations).outcome();
            end.client_result().len() + end.server_result().len() <= usize::MAX
        }),
    ensures
        ({
            let end = sync_start(client, server, max_digests, min_operations).outcome();
            let again = sync_start(
                end.client_result(),
                end.server_result(),
                second_max_digests,
                second_min_operations,
            ).outcome();
            &&& again.client_result() == end.client_result()
            &&& again.server_result() == end.server_result()
            &&& again.roundtrips == 1
            &&& again.server_operations + again.server_suffix().len() == 0
            &&& again.published().len() == 0
        }),
{
    let end = sync_start(client, server, max_digests, min_operations).outcome();
    law_sync_loses_nothing(client, server, max_digests, min_operations);
    law_sync_converges(client, server, max_digests, min_operations);
    law_sync_of_equals_is_free(
        end.client_result(),
        end.server_result(),
        second_max_digests,
        second_min_operations,
    );
}

/// The first operations of the two that have the same digest have the same names.
pub open spec fn prefixes_told_apart(a: Seq<Operation>, b: Seq<Operation>) -> bool {
    forall|n: int|
        #![trigger a.take(n), b.take(n)]
        0 <= n <= a.len() && n <= b.len() && digest_of(a.take(n)) == digest_of(b.take(n))
            ==> same_ids(a.take(n), b.take(n))
}

/// Where client and server share the names of their first `shared` operations, exchanging the rest
/// brings them to the same names. If the two also agree on what the names stand for, it brings them
/// to the same operations.
pub proof fn law_exchange_converges(client: Seq<Operation>, server: Seq<Operation>, shared: int)
    requires
        sorted(client),
        sorted(server),
        0 <= shared <= client.len(),
        shared <= server.len(),
        same_ids(client.take(shared), server.take(shared)),
    ensures
        ({
            let new_client = upsert_all(client, server.skip(shared));
            let new_server = upsert_all(server, client.skip(shared));
            &&& joins(new_client, client, server)
            &&& same_ids(new_client, new_server)
            &&& agree(client, server) ==> new_client == new_server
        }),
{
    let from_server = server.skip(shared);
    let from_client = client.skip(shared);
    let new_client = upsert_all(client, from_server);
    let new_server = upsert_all(server, from_client);
    lemma_upsert_all(client, from_server);
    lemma_upsert_all(server, from_client);
    assert forall|id: OperationId| contains_id(server, id) implies contains_id(client, id)
        || contains_id(from_server, id) by {
        let i = choose|i: int| 0 <= i < server.len() && server[i].id() == id;
        if i < shared {
            assert(client.take(shared)[i].id() == server.take(shared)[i].id());
            assert(client[i].id() == id);
        } else {
            assert(from_server[i - shared].id() == id);
        }
    }
    assert forall|id: OperationId| contains_id(client, id) implies contains_id(server, id)
        || contains_id(from_client, id) by {
        let i = choose|i: int| 0 <= i < client.len() && client[i].id() == id;
        if i < shared {
            assert(client.take(shared)[i].id() == server.take(shared)[i].id());
            assert(server[i].id() == id);
        } else {
            assert(from_client[i - shared].id() == id);
        }
    }
    assert forall|id: OperationId| contains_id(from_server, id) implies contains_id(server, id) by {
        let i = choose|i: int| 0 <= i < from_server.len() && from_server[i].id() == id;
        assert(server[shared + i].id() == id);
    }
    assert forall|id: OperationId| contains_id(from_client, id) implies contains_id(client, id) by {
        let i = choose|i: int| 0 <= i < from_client.len() && from_client[i].id() == id;
        assert(client[shared + i].id() == id);
    }
    assert forall|id: OperationId| contains_id(new_client, id) <==> contains_id(new_server, id) by {
    }
    lemma_same_ids(new_client, new_server);
    lemma_exchange_comes_from(client, server, shared);
    lemma_exchange_comes_from(server, client, shared);
    if agree(client, server) {
        lemma_agreeing(new_client, new_server, client, server);
    }
}

/// What is put at its place comes from one of the two.
pub proof fn lemma_exchange_comes_from(a: Seq<Operation>, b: Seq<Operation>, shared: int)
    requires
        sorted(a),
        0 <= shared <= b.len(),
    ensures
        comes_from(upsert_all(a, b.skip(shared)), a, b),
        keeps_ids(upsert_all(a, b.skip(shared)), a),
{
    let inserts = b.skip(shared);
    let result = upsert_all(a, inserts);
    lemma_upsert_all(a, inserts);
    assert forall|x: Operation| #![trigger result.contains(x)] result.contains(x) implies a.contains(
        x,
    ) || b.contains(x) by {
        if !a.contains(x) {
            let i = choose|i: int| 0 <= i < inserts.len() && inserts[i] == x;
            assert(b[shared + i] == x);
        }
    }
}

} // verus!
