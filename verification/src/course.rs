//! What the steps of a synchronization do, seen from the states before and after them.
use crate::convergence::{
    lemma_advance_converging, lemma_ends, lemma_matching, lemma_merging_sound, lemma_outcome,
    lemma_start_converging,
};
use crate::digest::{
    combined, digest_of, law_digest_counts_and_names, lemma_reach, lemma_reach_is,
    lemma_reach_monotonic, lemma_total_concat, lemma_total_nonnegative, lemma_total_split, reach,
    reach_from, spliced, total, touched, Digest,
};
use crate::history::{clip, contains_id, sorted, upsert_all};
use crate::ids::OperationId;
use crate::merging::merge_sound;
use crate::messages::Operation;
use crate::progress::{
    describes_from, lemma_absorbing, lemma_advance, lemma_fetch_numbers, lemma_fetched,
    lemma_merging, lemma_start_valid, lemma_top, lemma_touched,
};
use crate::protocol::{
    absorbed, further, intersects, merge_after, merge_next, sync_start, widened, Merge, Session,
};
use crate::subdivision::subdivided;
use crate::sync::{requested, SyncStats};
use std::ops::Range;
use vstd::prelude::*;

verus! {

proof fn lemma_combined_names(a: Seq<Digest>, b: Seq<Digest>)
    ensures
        combined(a + b).max_op_id == combined(a).max_op_id.later(combined(b).max_op_id),
    decreases b.len(),
{
    if b.len() == 0 {
        assert(a + b =~= a);
        assert(combined(b).max_op_id == OperationId::first());
    } else {
        assert((a + b).drop_last() =~= a + b.drop_last());
        lemma_combined_names(a, b.drop_last());
    }
}

/// A session starts with one question, for digests of all that the server has, and with all the
/// positions that the two can have together to compare, from the first on.
pub proof fn law_session_starts(
    client: Seq<Operation>,
    server: Seq<Operation>,
    max_digests: int,
    min_operations: int,
)
    requires
        server.len() <= usize::MAX,
    ensures
        ({
            let s = sync_start(client, server, max_digests, min_operations);
            &&& s.client == client
            &&& s.server == server
            &&& s.max_digests == max_digests
            &&& s.min_operations == min_operations
            &&& s.digests == requested(server, 0, server.len() as int, max_digests, min_operations)
            &&& s.stack.reverse() == subdivided(
                0,
                (client.len() + server.len()) as int,
                max_digests,
                min_operations,
            )
            &&& s.missed.len() == 0
            &&& s.server_end == 0
            &&& s.synced_end == 0
            &&& s.roundtrips == 1
            &&& s.server_operations == 0
        }),
{
    let s = sync_start(client, server, max_digests, min_operations);
    let ranges = subdivided(
        0,
        (client.len() + server.len()) as int,
        max_digests,
        min_operations,
    );
    assert(s.stack.reverse() =~= ranges);
    assert(s.digests =~= requested(server, 0, server.len() as int, max_digests, min_operations));
}

/// A session is finished when there is no range left to compare, or the walk has come to the end
/// of what the client has, or of what the server has, and not before.
pub proof fn law_session_finishes(s: Session, client: Seq<Operation>)
    requires
        s.valid(client),
    ensures
        s.finished() <==> s.stack.len() == 0 || s.synced_end >= s.client.len() || s.server_end
            >= s.server.len(),
        s.finished() ==> s.advance() == s,
{
    if s.stack.len() > 0 && s.server_end < s.server.len() {
        assert(s.aligned());
    }
}

/// A session goes through its states one by one.
pub proof fn law_session_goes_on(s: Session, steps: nat)
    ensures
        s.after(0) == s,
        s.after(steps + 1) == s.after(steps).advance(),
{
    assert((steps + 1 - 1) as nat == steps);
}

/// A session stops at the first of its states that is finished.
pub proof fn law_session_stops(
    client: Seq<Operation>,
    server: Seq<Operation>,
    max_digests: int,
    min_operations: int,
)
    requires
        sorted(client),
        sorted(server),
        client.len() + server.len() <= usize::MAX,
        max_digests >= 1,
        min_operations >= 0,
    ensures
        ({
            let s = sync_start(client, server, max_digests, min_operations);
            &&& s.outcome().finished()
            &&& exists|steps: nat|
                #![trigger s.after(steps)]
                s.outcome() == s.after(steps) && forall|earlier: nat|
                    #![trigger s.after(earlier)]
                    earlier < steps ==> !s.after(earlier).finished()
        }),
{
    let s = sync_start(client, server, max_digests, min_operations);
    lemma_start_valid(client, server, max_digests, min_operations);
    let steps = lemma_ends(s, client);
    let first = lemma_first_finished(s, steps);
    lemma_outcome(s, first);
}

proof fn lemma_first_finished(s: Session, steps: nat) -> (first: nat)
    requires
        s.after(steps).finished(),
    ensures
        s.after(first).finished(),
        forall|earlier: nat|
            #![trigger s.after(earlier)]
            earlier < first ==> !s.after(earlier).finished(),
    decreases steps,
{
    if exists|earlier: nat|
        #![trigger s.after(earlier)]
        earlier < steps && s.after(earlier).finished() {
        let earlier = choose|earlier: nat|
            #![trigger s.after(earlier)]
            earlier < steps && s.after(earlier).finished();
        lemma_first_finished(s, earlier)
    } else {
        steps
    }
}

/// In every state of a session the positions line up, no operation came from nowhere and no name is
/// lost; and where no digests match by mere chance, what is brought together is what both have.
pub proof fn law_session_keeps(
    client: Seq<Operation>,
    server: Seq<Operation>,
    max_digests: int,
    min_operations: int,
    steps: nat,
)
    requires
        sorted(client),
        sorted(server),
        client.len() + server.len() <= usize::MAX,
        max_digests >= 1,
        min_operations >= 0,
    ensures
        ({
            let s = sync_start(client, server, max_digests, min_operations);
            let now = s.after(steps);
            &&& now.valid(client)
            &&& now.faithful(client)
            &&& now.server == server
            &&& now.max_digests == max_digests
            &&& now.min_operations == min_operations
            &&& s.undeceived() ==> now.converging(client) && !now.deceived()
        }),
    decreases steps,
{
    let s = sync_start(client, server, max_digests, min_operations);
    if steps == 0 {
        lemma_start_valid(client, server, max_digests, min_operations);
        lemma_start_converging(client, server, max_digests, min_operations);
    } else {
        let before = (steps - 1) as nat;
        law_session_keeps(client, server, max_digests, min_operations, before);
        lemma_advance(s.after(before), client);
        if s.undeceived() {
            lemma_advance_converging(s.after(before), client);
        }
    }
}

/// A range that ends before the position up to which the two are brought together is passed over.
pub proof fn law_passing_over(s: Session)
    requires
        !s.finished(),
        s.stack.last().end < s.synced_end,
    ensures
        s.advance() == (Session { stack: s.stack.drop_last(), ..s }),
{
}

/// What a range is compared with: the stretch of the server's next operations up to the first joint
/// of the digests at or past the range's end. Its digest is the one that the client knows, and the
/// range is taken to end no earlier than the stretch.
pub proof fn law_range_compared(s: Session, client: Seq<Operation>)
    requires
        s.valid(client),
        !s.finished(),
        s.stack.last().end >= s.synced_end,
    ensures
        ({
            let top = s.stack.last().end as int;
            let count = s.server_digest().count as int;
            &&& s.start() == s.synced_end < s.client.len()
            &&& 0 <= count <= s.server.len() - s.server_end
            &&& s.server_digest() == digest_of(
                s.server.subrange(s.server_end, s.server_end + count),
            )
            &&& s.synced_end + count >= top || s.server_end + count == s.server.len()
            &&& s.end() == if s.synced_end + count < top {
                top
            } else {
                s.synced_end + count
            }
            &&& top > s.synced_end ==> count > 0
        }),
{
    let y = s.synced_end;
    let top = s.stack.last().end as int;
    lemma_top(s, client);
    lemma_touched(s.digests, y, s.rest(), top);
    let count = total(touched(s.digests, y, top));
    assert(s.rest().take(count) =~= s.server.subrange(s.server_end, s.server_end + count));
}

/// Where the digests of what client and server have in a range are equal, the range is brought
/// together at no cost: no question is asked and no operation comes. The two move on past what
/// was compared.
pub proof fn law_equal_digests_cost_nothing(s: Session, client: Seq<Operation>)
    requires
        s.valid(client),
        !s.finished(),
        s.stack.last().end >= s.synced_end,
        digest_of(clip(s.client, s.synced_end, s.end())) == s.server_digest(),
    ensures
        ({
            let next = s.advance();
            &&& next.roundtrips == s.roundtrips
            &&& next.server_operations == s.server_operations
            &&& next.client == s.client
            &&& next.digests == s.digests
            &&& next.missed == s.missed
            &&& next.stack == s.stack.drop_last()
            &&& next.synced_end == s.end()
            &&& next.server_end == s.server_end + s.server_digest().count
        }),
{
    lemma_top(s, client);
}

proof fn lemma_intersects_further(
    digests: Seq<Digest>,
    start: int,
    end: int,
    further_end: int,
    first: OperationId,
    next: OperationId,
)
    requires
        start <= end <= further_end,
        intersects(digests, start, end, first, next),
    ensures
        intersects(digests, start, further_end, first, next),
{
    let i = reach(digests, end);
    let j = reach(digests, further_end);
    lemma_reach_monotonic(digests, end, further_end);
    assert(digests.take(j) =~= digests.take(i) + digests.subrange(i, j));
    lemma_combined_names(digests.take(i), digests.subrange(i, j));
}

/// A range takes those on the stack into it as long as the client's names do not lie among the
/// server's there, and no longer: with the next one that is left they would. The range then ends at
/// a position that covers all that was taken in and whole digests.
pub proof fn law_absorbed(
    digests: Seq<Digest>,
    stack: Seq<Range<usize>>,
    start: int,
    end: int,
    first: OperationId,
    next: OperationId,
    rest: Seq<Operation>,
)
    requires
        describes_from(digests, start, rest),
        rest.len() <= usize::MAX,
        start <= end,
        end == widened(digests, start, end),
    ensures
        ({
            let (left, wide) = absorbed(digests, stack, start, end, first, next);
            &&& left.len() <= stack.len()
            &&& left == stack.take(left.len() as int)
            &&& left.len() > 0 ==> intersects(
                digests,
                start,
                further(wide, left.last().end as int),
                first,
                next,
            )
            &&& left.len() < stack.len() ==> !intersects(digests, start, wide, first, next)
            &&& left.len() == stack.len() ==> wide == end
            &&& end <= wide
            &&& wide == widened(digests, start, wide)
            &&& forall|i: int|
                #![trigger stack[i]]
                left.len() <= i < stack.len() ==> stack[i].end <= wide
        }),
    decreases stack.len(),
{
    let (left, wide) = absorbed(digests, stack, start, end, first, next);
    if stack.len() == 0 || intersects(
        digests,
        start,
        further(end, stack.last().end as int),
        first,
        next,
    ) {
        assert(stack.take(stack.len() as int) =~= stack);
    } else {
        let fewer = stack.drop_last();
        let upto = further(end, stack[stack.len() - 1].end as int);
        let wider = widened(digests, start, upto);
        lemma_touched(digests, start, rest, upto);
        law_absorbed(digests, fewer, start, wider, first, next, rest);
        assert(fewer.take(left.len() as int) =~= stack.take(left.len() as int));
        assert forall|i: int|
            #![trigger stack[i]]
            left.len() <= i < stack.len() implies stack[i].end <= wide by {
            if i < fewer.len() {
                assert(fewer[i] == stack[i]);
            }
        }
        assert(reach_from(digests, start, wider) == reach_from(digests, start, upto));
        assert(!intersects(digests, start, wider, first, next));
    }
}

/// The range ends at the first such position: any other that covers all that was taken in and whole
/// digests lies no earlier.
pub proof fn law_absorbed_no_further(
    digests: Seq<Digest>,
    stack: Seq<Range<usize>>,
    start: int,
    end: int,
    first: OperationId,
    next: OperationId,
    rest: Seq<Operation>,
    covering: int,
)
    requires
        describes_from(digests, start, rest),
        rest.len() <= usize::MAX,
        start <= end <= covering,
        end == widened(digests, start, end),
        covering == widened(digests, start, covering),
        forall|i: int|
            #![trigger stack[i]]
            absorbed(digests, stack, start, end, first, next).0.len() <= i < stack.len()
                ==> stack[i].end <= covering,
    ensures
        absorbed(digests, stack, start, end, first, next).1 <= covering,
    decreases stack.len(),
{
    let left = absorbed(digests, stack, start, end, first, next).0;
    if stack.len() > 0 && !intersects(
        digests,
        start,
        further(end, stack.last().end as int),
        first,
        next,
    ) {
        let fewer = stack.drop_last();
        let upto = further(end, stack[stack.len() - 1].end as int);
        let wider = widened(digests, start, upto);
        lemma_touched(digests, start, rest, upto);
        law_absorbed(digests, fewer, start, wider, first, next, rest);
        assert(stack[stack.len() - 1].end <= covering);
        lemma_widened_monotonic(digests, start, upto, covering, rest);
        assert forall|i: int| #![trigger fewer[i]] left.len() <= i < fewer.len() implies
            fewer[i].end <= covering by {
            assert(fewer[i] == stack[i]);
        }
        law_absorbed_no_further(digests, fewer, start, wider, first, next, rest, covering);
    }
}

proof fn lemma_widened_monotonic(
    digests: Seq<Digest>,
    start: int,
    a: int,
    b: int,
    rest: Seq<Operation>,
)
    requires
        describes_from(digests, start, rest),
        rest.len() <= usize::MAX,
        start <= a <= b,
    ensures
        widened(digests, start, a) <= widened(digests, start, b),
{
    lemma_touched(digests, start, rest, a);
    lemma_touched(digests, start, rest, b);
    lemma_reach_monotonic(digests, a, b);
    let i = reach(digests, a);
    let j = reach(digests, b);
    lemma_total_split(digests.take(j), i);
    assert(digests.take(j).take(i) =~= digests.take(i));
}

proof fn lemma_absorbs_nothing(s: Session, client: Seq<Operation>)
    requires
        s.valid(client),
        !s.finished(),
        s.stack.last().end >= s.synced_end,
        !s.matching(),
        intersects(s.digests, s.synced_end, s.stack.last().end as int, s.first(), s.next()),
    ensures
        s.absorbing() == (s.stack.drop_last(), s.end()),
{
    lemma_top(s, client);
    let below = s.stack.drop_last();
    if below.len() > 0 {
        lemma_intersects_further(
            s.digests,
            s.synced_end,
            s.stack.last().end as int,
            further(s.end(), below.last().end as int),
            s.first(),
            s.next(),
        );
    }
}

/// Where they differ, one question is asked. It is for digests of smaller pieces, and no operation
/// comes, if the range has more than `min_operations` positions, can be made smaller, and the
/// client's next two names lie among the server's there: the first before the last name that the
/// server has in the range, the second past the last name before it. Else it is for the operations,
/// and all that the server has in the range come, of which there is at least one.
pub proof fn law_different_digests_cost_a_question(s: Session, client: Seq<Operation>)
    requires
        s.valid(client),
        !s.finished(),
        s.stack.last().end >= s.synced_end,
        digest_of(clip(s.client, s.synced_end, s.end())) != s.server_digest(),
    ensures
        ({
            let y = s.synced_end;
            let count = s.server_digest().count as int;
            let len = s.end() - y;
            let before = combined(s.digests.take(reach(s.digests, y))).max_op_id;
            let last = before.later(s.server[s.server_end + count - 1].id());
            let first = s.client[y].id();
            let second = if y + 1 < s.client.len() {
                s.client[y + 1].id()
            } else {
                first
            };
            let among = first.before(last) && before.before(second);
            let (left, wide) = s.absorbing();
            let next = s.advance();
            &&& count > 0
            &&& next.roundtrips == s.roundtrips + 1
            &&& among ==> wide == s.end() && left == s.stack.drop_last()
            &&& (left, wide) == absorbed(
                s.digests,
                s.stack.drop_last(),
                y,
                s.end(),
                first,
                second,
            )
            &&& if among && len > s.min_operations && len >= 2 && s.max_digests >= 2 {
                &&& next.server_operations == s.server_operations
                &&& next.client == s.client
                &&& next.missed == s.missed
                &&& next.synced_end == s.synced_end
                &&& next.server_end == s.server_end
                &&& next.digests == spliced(
                    s.digests,
                    y,
                    s.end(),
                    requested(
                        s.server,
                        s.server_end,
                        s.server_end + len,
                        s.max_digests,
                        s.min_operations,
                    ),
                )
                &&& next.stack == s.stack.drop_last() + subdivided(
                    y,
                    s.end(),
                    s.max_digests,
                    s.min_operations,
                ).reverse()
            } else {
                &&& next.server_operations > s.server_operations
                &&& next.server_operations == s.server_operations + if wide - y < s.server.len()
                    - s.server_end {
                    wide - y
                } else {
                    s.server.len() - s.server_end
                }
                &&& next.stack == left
                &&& y <= next.synced_end <= wide
                &&& s.server_end <= next.server_end <= s.server_end + (next.server_operations
                    - s.server_operations)
                &&& next.missed.len() >= s.missed.len()
                &&& next.synced_end - y == (next.server_end - s.server_end) + (next.missed.len()
                    - s.missed.len())
                // The merge stops short of the range's end only where all that came is merged.
                &&& next.synced_end < wide ==> next.server_end == s.server_end + (
                next.server_operations - s.server_operations)
            }
        }),
{
    let y = s.synced_end;
    let top = s.stack.last().end as int;
    let count = s.server_digest().count as int;
    lemma_top(s, client);
    law_range_compared(s, client);
    lemma_absorbing(s, client);
    lemma_touched(s.digests, y, s.rest(), top);
    let upto = reach_from(s.digests, y, top);
    let from = reach(s.digests, y);
    assert(s.digests.take(upto) =~= s.digests.take(from) + touched(s.digests, y, top));
    lemma_combined_names(s.digests.take(from), touched(s.digests, y, top));
    let theirs = s.server.subrange(s.server_end, s.server_end + count);
    assert(sorted(theirs)) by {
        assert forall|i: int, j: int|
            #![trigger theirs[i], theirs[j]]
            0 <= i < j < theirs.len() implies theirs[i].id().before(theirs[j].id()) by {
            assert(s.server[s.server_end + i].id().before(s.server[s.server_end + j].id()));
        }
    }
    law_digest_counts_and_names(theirs);
    assert(theirs.last() == s.server[s.server_end + count - 1]);
    if intersects(s.digests, y, top, s.first(), s.next()) {
        lemma_absorbs_nothing(s, client);
    }
    if !s.descending() {
        lemma_fetched(s, client);
        lemma_merging(s, client, s.len() as nat);
    }
}

/// The walk replaces nothing: the client keeps all of its own operations, and gains those of the
/// server's that it passes under names that the client does not have.
pub proof fn law_walk_keeps_own(s: Session, client: Seq<Operation>)
    requires
        s.valid(client),
        s.converging(client),
        !s.deceived(),
    ensures
        ({
            let next = s.advance();
            &&& next.server == s.server
            &&& forall|x: Operation|
                #![trigger s.client.contains(x)]
                s.client.contains(x) ==> next.client.contains(x)
            &&& forall|x: Operation|
                #![trigger next.client.contains(x)]
                next.client.contains(x) && !s.client.contains(x) ==> exists|j: int|
                    #![trigger s.server[j]]
                    s.server_end <= j < next.server_end && s.server[j] == x
            &&& forall|x: Operation, y: Operation|
                #![trigger next.client.contains(x), s.client.contains(y)]
                next.client.contains(x) && !s.client.contains(x) && s.client.contains(y) ==> x.id()
                    != y.id()
            &&& forall|j: int|
                #![trigger s.server[j]]
                s.server_end <= j < next.server_end ==> contains_id(
                    next.client,
                    s.server[j].id(),
                )
        }),
{
    if s.finished() || s.stack.last().end < s.synced_end {
        assert(s.advance().client == s.client);
        assert(s.advance().server_end == s.server_end);
    } else if s.matching() {
        lemma_skip_keeps_own(s, client);
        assert(s.advance() == s.skip_range());
    } else if s.descending() {
        assert(s.advance().client == s.client);
        assert(s.advance().server_end == s.server_end);
    } else {
        lemma_fetch_keeps_own(s, client);
        assert(s.advance() == s.fetch());
    }
}

proof fn lemma_skip_keeps_own(s: Session, client: Seq<Operation>)
    requires
        s.valid(client),
        !s.deceived(),
        !s.finished(),
        s.stack.last().end >= s.synced_end,
        s.matching(),
    ensures
        s.skip_range().client == s.client,
        forall|j: int|
            #![trigger s.server[j]]
            s.server_end <= j < s.skip_range().server_end ==> contains_id(
                s.client,
                s.server[j].id(),
            ),
{
    lemma_matching(s, client);
    assert forall|j: int| #![trigger s.server[j]] s.server_end <= j
        < s.skip_range().server_end implies contains_id(s.client, s.server[j].id()) by {
        assert(s.client[s.synced_end + (j - s.server_end)].id() == s.server[j].id());
    }
}

proof fn lemma_fetch_keeps_own(s: Session, client: Seq<Operation>)
    requires
        s.valid(client),
        s.converging(client),
        !s.finished(),
        s.stack.last().end >= s.synced_end,
        !s.matching(),
    ensures
        ({
            let next = s.fetch();
            &&& forall|x: Operation|
                #![trigger s.client.contains(x)]
                s.client.contains(x) ==> next.client.contains(x)
            &&& forall|x: Operation|
                #![trigger next.client.contains(x)]
                next.client.contains(x) && !s.client.contains(x) ==> exists|j: int|
                    #![trigger s.server[j]]
                    s.server_end <= j < next.server_end && s.server[j] == x
            &&& forall|x: Operation, y: Operation|
                #![trigger next.client.contains(x), s.client.contains(y)]
                next.client.contains(x) && !s.client.contains(x) && s.client.contains(y) ==> x.id()
                    != y.id()
            &&& forall|j: int|
                #![trigger s.server[j]]
                s.server_end <= j < next.server_end ==> contains_id(
                    next.client,
                    s.server[j].id(),
                )
        }),
{
    let next = s.fetch();
    let m = s.merging(s.len() as nat);
    let synced = s.client.take(s.synced_end);
    let unsynced = s.client.skip(s.synced_end);
    let rest = s.rest();
    lemma_merging_sound(s, client);
    assert(s.client =~= synced + unsynced);
    lemma_gained(s, client);
    lemma_taken_over(m, synced, unsynced, s.fetched(), rest);
    assert(next.client == synced + m.merged + unsynced.skip(m.from_client));
    assert forall|j: int| #![trigger s.server[j]] s.server_end <= j
        < next.server_end implies contains_id(next.client, s.server[j].id()) by {
        assert(rest[j - s.server_end] == s.server[j]);
    }
    assert forall|x: Operation| #![trigger next.client.contains(x)] next.client.contains(x)
        && !s.client.contains(x) implies exists|j: int|
        #![trigger s.server[j]]
        s.server_end <= j < next.server_end && s.server[j] == x by {
        let k = choose|k: int| #![trigger rest[k]] 0 <= k < m.from_server && rest[k] == x;
        assert(s.server[s.server_end + k] == x);
    }
}

proof fn lemma_gained(s: Session, client: Seq<Operation>)
    requires
        s.valid(client),
        !s.finished(),
        s.stack.last().end >= s.synced_end,
        !s.matching(),
    ensures
        ({
            let m = s.merging(s.len() as nat);
            &&& sorted(s.rest())
            &&& s.fetched().len() <= s.rest().len()
            &&& s.fetched() == s.rest().take(s.fetched().len() as int)
            &&& forall|i: int|
                #![trigger m.gained[i]]
                0 <= i < m.gained.len() ==> s.fetched().contains(m.gained[i])
        }),
{
    lemma_top(s, client);
    lemma_fetched(s, client);
    lemma_merging(s, client, s.len() as nat);
    let rest = s.rest();
    assert forall|i: int, j: int| #![trigger rest[i], rest[j]] 0 <= i < j < rest.len() implies
        rest[i].id().before(rest[j].id()) by {
        assert(s.server[s.server_end + i].id().before(s.server[s.server_end + j].id()));
    }
}

proof fn lemma_taken_over(
    m: Merge,
    synced: Seq<Operation>,
    unsynced: Seq<Operation>,
    fetched: Seq<Operation>,
    rest: Seq<Operation>,
)
    requires
        merge_sound(m, synced, unsynced, rest),
        sorted(rest),
        fetched.len() <= rest.len(),
        fetched == rest.take(fetched.len() as int),
        forall|i: int|
            #![trigger m.gained[i]]
            0 <= i < m.gained.len() ==> fetched.contains(m.gained[i]),
    ensures
        ({
            let before = synced + unsynced;
            let after = synced + m.merged + unsynced.skip(m.from_client);
            &&& forall|x: Operation|
                #![trigger before.contains(x)]
                before.contains(x) ==> after.contains(x)
            &&& forall|x: Operation|
                #![trigger after.contains(x)]
                after.contains(x) && !before.contains(x) ==> exists|k: int|
                    #![trigger rest[k]]
                    0 <= k < m.from_server && rest[k] == x
            &&& forall|x: Operation, y: Operation|
                #![trigger after.contains(x), before.contains(y)]
                after.contains(x) && !before.contains(x) && before.contains(y) ==> x.id() != y.id()
            &&& forall|k: int|
                #![trigger rest[k]]
                0 <= k < m.from_server ==> contains_id(after, rest[k].id())
        }),
{
    let before = synced + unsynced;
    let left = unsynced.skip(m.from_client);
    let passed = synced + m.merged;
    let after = passed + left;
    assert forall|x: Operation| #![trigger before.contains(x)] before.contains(
        x,
    ) implies after.contains(x) by {
        let i = choose|i: int| 0 <= i < before.len() && before[i] == x;
        if i < synced.len() {
            assert(after[i] == x);
        } else {
            let j = i - synced.len();
            assert(unsynced[j] == x);
            if j < m.from_client {
                assert(m.merged.contains(unsynced[j]));
                let k = choose|k: int| 0 <= k < m.merged.len() && m.merged[k] == x;
                assert(after[synced.len() + k] == x);
            } else {
                assert(after[passed.len() + (j - m.from_client)] == x);
            }
        }
    }
    assert forall|x: Operation| #![trigger after.contains(x)] after.contains(x) && !before.contains(
        x,
    ) implies m.gained.contains(x) by {
        let i = choose|i: int| 0 <= i < after.len() && after[i] == x;
        if i < synced.len() {
            assert(before[i] == x);
        } else if i < passed.len() {
            assert(m.merged[i - synced.len()] == x);
            if unsynced.contains(x) {
                let j = choose|j: int| 0 <= j < unsynced.len() && unsynced[j] == x;
                assert(before[synced.len() + j] == x);
            }
        } else {
            let j = i - passed.len() + m.from_client;
            assert(unsynced[j] == x);
            assert(before[synced.len() + j] == x);
        }
    }
    assert forall|x: Operation| #![trigger after.contains(x)] after.contains(x) && !before.contains(
        x,
    ) implies exists|k: int| #![trigger rest[k]] 0 <= k < m.from_server && rest[k] == x by {
        let i = choose|i: int| 0 <= i < m.gained.len() && m.gained[i] == x;
        assert(fetched.contains(m.gained[i]));
        let k = choose|k: int| 0 <= k < fetched.len() && fetched[k] == x;
        assert(rest[k] == x);
        assert(m.merged.contains(m.gained[i]));
        let l = choose|l: int| 0 <= l < m.merged.len() && m.merged[l] == x;
        assert(passed[synced.len() + l] == x);
        if k >= m.from_server {
            assert(passed[synced.len() + l].id().before(rest[k].id()));
        }
    }
    assert forall|x: Operation, y: Operation|
        #![trigger after.contains(x), before.contains(y)]
        after.contains(x) && !before.contains(x) && before.contains(y) implies x.id() != y.id() by {
        let i = choose|i: int| 0 <= i < m.gained.len() && m.gained[i] == x;
        let j = choose|j: int| 0 <= j < before.len() && before[j] == y;
        if j < synced.len() {
            assert(synced[j] == y);
            assert(m.gained[i].id() != synced[j].id());
        } else {
            assert(unsynced[j - synced.len()] == y);
            assert(m.gained[i].id() != unsynced[j - synced.len()].id());
        }
    }
    assert forall|k: int| #![trigger rest[k]] 0 <= k < m.from_server implies contains_id(
        after,
        rest[k].id(),
    ) by {
        assert(contains_id(m.merged, rest[k].id()));
        let l = choose|l: int|
            #![trigger m.merged[l]]
            0 <= l < m.merged.len() && m.merged[l].id() == rest[k].id();
        assert(after[synced.len() + l] == m.merged[l]);
    }
}

/// In the end each of the two takes over what the other has past the position that the walk came
/// to, and the server also what it was found not to have. All of that is sent, and nothing else
/// but what the walk fetched; the exchange is one more question.
pub proof fn law_session_ends(s: Session, client: Seq<Operation>, stats: SyncStats)
    requires
        s.valid(client),
        s.costs(stats),
    ensures
        ({
            let from = if s.synced_end < s.client.len() {
                s.synced_end
            } else {
                s.client.len() as int
            };
            &&& s.client_result() == upsert_all(s.client, s.server.skip(s.server_end))
            &&& s.server_result() == upsert_all(s.server, s.missed + s.client.skip(from))
            &&& stats.roundtrips == s.roundtrips + 1 || (stats.roundtrips == usize::MAX
                && s.roundtrips >= usize::MAX)
            &&& stats.server_operations == s.server_operations + (s.server.len() - s.server_end)
            &&& stats.client_operations == s.missed.len() + (s.client.len() - from)
        }),
{
    let from = if s.synced_end < s.client.len() {
        s.synced_end
    } else {
        s.client.len() as int
    };
    assert(clip(s.server, s.server_end, s.server.len() as int) =~= s.server.skip(s.server_end));
    assert(clip(s.client, s.synced_end, s.client.len() as int) =~= s.client.skip(from));
    if !s.has_suffixes() {
        assert(s.server.skip(s.server_end) =~= Seq::<Operation>::empty());
        assert(s.missed + s.client.skip(from) =~= s.missed);
    }
}

/// With nothing on one side there is nothing to compare: all that the other side has is sent, in
/// two questions.
pub proof fn law_sync_with_nothing(
    client: Seq<Operation>,
    server: Seq<Operation>,
    max_digests: int,
    min_operations: int,
    stats: SyncStats,
)
    requires
        sorted(client),
        sorted(server),
        client.len() == 0 || server.len() == 0,
        client.len() + server.len() <= usize::MAX,
        max_digests >= 1,
        min_operations >= 0,
        sync_start(client, server, max_digests, min_operations).outcome().costs(stats),
    ensures
        stats.roundtrips == 2,
        stats.server_operations == server.len(),
        stats.client_operations == client.len(),
        ({
            let end = sync_start(client, server, max_digests, min_operations).outcome();
            &&& end.client_result() == upsert_all(client, server)
            &&& end.server_result() == upsert_all(server, client)
        }),
{
    let s = sync_start(client, server, max_digests, min_operations);
    lemma_start_valid(client, server, max_digests, min_operations);
    law_session_finishes(s, client);
    assert(s.after(0) == s);
    lemma_outcome(s, 0);
    law_session_ends(s, client, stats);
    assert(server.skip(0) =~= server);
    assert(s.missed + client.skip(0) =~= client);
}

/// One digest for each operation.
pub open spec fn singly(ops: Seq<Operation>) -> Seq<Digest> {
    ops.map_values(|op: Operation| Digest::of(op))
}

proof fn lemma_singly(ops: Seq<Operation>)
    ensures
        total(singly(ops)) == ops.len(),
    decreases ops.len(),
{
    if ops.len() > 0 {
        lemma_singly(ops.drop_last());
        assert(singly(ops).drop_last() =~= singly(ops.drop_last()));
    }
}

proof fn lemma_reach_singly(
    front: Seq<Digest>,
    ops: Seq<Operation>,
    back: Seq<Digest>,
    position: int,
)
    requires
        total(front) == position,
        front.len() == 0 || total(front.drop_last()) < position,
    ensures
        reach(front + singly(ops) + back, position + ops.len()) == front.len() + ops.len(),
{
    let digests = front + singly(ops) + back;
    let i = (front.len() + ops.len()) as int;
    lemma_singly(ops);
    lemma_total_concat(front, singly(ops));
    assert(digests.take(i) =~= front + singly(ops));
    if ops.len() > 0 {
        let fewer = ops.drop_last();
        lemma_singly(fewer);
        lemma_total_concat(front, singly(fewer));
        assert(digests.take(i - 1) =~= front + singly(fewer));
    } else if front.len() > 0 {
        assert(digests.take(i - 1) =~= front.drop_last());
    }
    lemma_reach_is(digests, position + ops.len(), i);
}

proof fn lemma_singly_push(ops: Seq<Operation>, x: Operation)
    ensures
        singly(ops.push(x)) == singly(ops).push(Digest::of(x)),
{
    assert(singly(ops.push(x)) =~= singly(ops).push(Digest::of(x)));
}

proof fn lemma_pass_single(
    passed: Seq<Digest>,
    server: Seq<Operation>,
    from_server: int,
    back: Seq<Digest>,
)
    requires
        0 <= from_server < server.len(),
    ensures
        passed + (singly(server.skip(from_server)) + back) == passed.push(
            Digest::of(server[from_server]),
        ) + (singly(server.skip(from_server + 1)) + back),
{
    assert(passed + (singly(server.skip(from_server)) + back) =~= passed.push(
        Digest::of(server[from_server]),
    ) + (singly(server.skip(from_server + 1)) + back));
}

proof fn lemma_put_single(
    front: Seq<Digest>,
    merged: Seq<Operation>,
    left: Seq<Digest>,
    position: int,
    digest: Digest,
)
    requires
        total(front) == position,
        front.len() == 0 || total(front.drop_last()) < position,
    ensures
        spliced(
            front + singly(merged) + left,
            position + merged.len(),
            position + merged.len(),
            seq![digest],
        ) == (front + singly(merged)).push(digest) + left,
{
    let passed = front + singly(merged);
    lemma_reach_singly(front, merged, left, position);
    assert((passed + left).take(passed.len() as int) =~= passed);
    assert((passed + left).skip(passed.len() as int) =~= left);
    assert(passed + seq![digest] + left =~= passed.push(digest) + left);
}

proof fn lemma_merge_digests_next(
    m: Merge,
    client: Seq<Operation>,
    server: Seq<Operation>,
    position: int,
    front: Seq<Digest>,
    back: Seq<Digest>,
)
    requires
        total(front) == position,
        front.len() == 0 || total(front.drop_last()) < position,
        0 <= m.from_client <= client.len(),
        0 <= m.from_server <= server.len(),
        m.digests == front + singly(m.merged) + (singly(server.skip(m.from_server)) + back),
    ensures
        ({
            let next = merge_next(m, client, server, position);
            &&& 0 <= next.from_client <= client.len()
            &&& 0 <= next.from_server <= server.len()
            &&& next.digests == front + singly(next.merged) + (singly(
                server.skip(next.from_server),
            ) + back)
        }),
{
    let next = merge_next(m, client, server, position);
    let passed = front + singly(m.merged);
    let left = singly(server.skip(m.from_server)) + back;
    let c = client[m.from_client];
    let s = server[m.from_server];
    if m.from_client < client.len() && (m.from_server >= server.len() || c.id().before(s.id())) {
        lemma_put_single(front, m.merged, left, position, Digest::of(c));
        lemma_singly_push(m.merged, c);
        assert(front + singly(next.merged) =~= passed.push(Digest::of(c)));
    } else if m.from_server < server.len() {
        let x = next.merged.last();
        lemma_pass_single(passed, server, m.from_server, back);
        lemma_singly_push(m.merged, x);
        assert(x.id() == s.id());
        assert(next.merged == m.merged.push(x));
        assert(front + singly(next.merged) =~= passed.push(Digest::of(s)));
    }
}

/// A merge leaves one digest for each operation that is merged, and those of the server's that are
/// not as they were.
proof fn lemma_merge_digests(
    client: Seq<Operation>,
    server: Seq<Operation>,
    position: int,
    front: Seq<Digest>,
    back: Seq<Digest>,
    steps: nat,
)
    requires
        total(front) == position,
        front.len() == 0 || total(front.drop_last()) < position,
    ensures
        ({
            let m = merge_after(client, server, position, front + singly(server) + back, steps);
            &&& 0 <= m.from_client <= client.len()
            &&& 0 <= m.from_server <= server.len()
            &&& m.digests == front + singly(m.merged) + (singly(server.skip(m.from_server)) + back)
        }),
    decreases steps,
{
    let start = front + singly(server) + back;
    if steps == 0 {
        assert(server.skip(0) =~= server);
        assert(start =~= front + singly(Seq::empty()) + (singly(server.skip(0)) + back));
    } else {
        let before = (steps - 1) as nat;
        lemma_merge_digests(client, server, position, front, back, before);
        let m = merge_after(client, server, position, start, before);
        lemma_merge_digests_next(m, client, server, position, front, back);
    }
}

/// Once a range is fetched, the client knows what it brought together by one digest for each
/// operation, and so what it fetched and has not come to yet. What lies before and past the range it
/// knows as it did.
pub proof fn law_digests_after_fetching(s: Session, client: Seq<Operation>)
    requires
        s.valid(client),
        s.converging(client),
        !s.finished(),
        s.stack.last().end >= s.synced_end,
        !s.matching(),
        !s.descending(),
    ensures
        ({
            let next = s.advance();
            let came = next.server_operations - s.server_operations;
            &&& next.digests == s.digests.take(reach(s.digests, s.synced_end)) + singly(
                next.client.subrange(s.synced_end, next.synced_end),
            ) + (singly(s.server.subrange(next.server_end, s.server_end + came))
                + s.digests.skip(reach_from(s.digests, s.synced_end, s.absorbing().1)))
        }),
{
    let y = s.synced_end;
    let m = s.merging(s.len() as nat);
    let next = s.advance();
    let front = s.digests.take(reach(s.digests, y));
    let back = s.digests.skip(reach_from(s.digests, y, s.absorbing().1));
    lemma_top(s, client);
    lemma_reach(s.digests, y);
    if front.len() > 0 {
        assert(front.drop_last() =~= s.digests.take(front.len() - 1));
    }
    assert(s.fetched_digests() =~= front + singly(s.fetched()) + back);
    lemma_merge_digests(
        clip(s.client, y, s.absorbing().1),
        s.fetched(),
        y,
        front,
        back,
        s.len() as nat,
    );
    lemma_merging_sound(s, client);
    lemma_gained(s, client);
    let passed = s.client.take(y) + m.merged;
    assert(next.client.subrange(y, next.synced_end) =~= m.merged) by {
        assert(next.client == passed + s.client.skip(y).skip(m.from_client));
    }
    assert(s.server.subrange(next.server_end, s.server_end + s.fetched().len())
        =~= s.fetched().skip(m.from_server));
}

impl Session {
    /// The last name among those that the client knows of up to the position that the walk has
    /// come to.
    spec fn last_known(self) -> OperationId {
        combined(self.digests.take(reach(self.digests, self.synced_end))).max_op_id
    }

    /// It is the last name that is brought together.
    spec fn names_passed(self) -> bool {
        self.server_end < self.server.len() ==> {
            &&& self.synced_end <= self.client.len()
            &&& self.synced_end > 0 ==> self.last_known() == self.client[self.synced_end - 1].id()
            &&& self.synced_end == 0 ==> self.last_known() == OperationId::first()
        }
    }
}

proof fn lemma_later(s: Session, last: OperationId)
    requires
        s.names_passed(),
        s.server_end < s.server.len(),
        s.synced_end >= 0,
        s.synced_end > 0 ==> s.client[s.synced_end - 1].id().before(last),
    ensures
        s.last_known().later(last) == last,
{
}

proof fn lemma_names_passed_skip(s: Session, client: Seq<Operation>)
    requires
        s.valid(client),
        s.names_passed(),
        !s.deceived(),
        !s.finished(),
        s.stack.last().end >= s.synced_end,
        s.matching(),
    ensures
        s.skip_range().names_passed(),
{
    let next = s.skip_range();
    let y = s.synced_end;
    let top = s.stack.last().end as int;
    let count = s.server_digest().count as int;
    lemma_top(s, client);
    law_range_compared(s, client);
    lemma_touched(s.digests, y, s.rest(), top);
    lemma_matching(s, client);
    if next.server_end < next.server.len() && count > 0 {
        assert(next.synced_end == y + count);
        let from = reach(s.digests, y);
        let upto = reach_from(s.digests, y, top);
        assert(s.digests.take(upto) =~= s.digests.take(from) + touched(s.digests, y, top));
        lemma_combined_names(s.digests.take(from), touched(s.digests, y, top));
        let theirs = s.server.subrange(s.server_end, s.server_end + count);
        lemma_sorted_part(s.server, s.server_end, s.server_end + count);
        law_digest_counts_and_names(theirs);
        assert(theirs.last() == s.server[s.server_end + count - 1]);
        assert(s.client[y + count - 1].id() == s.server[s.server_end + count - 1].id());
        lemma_later(s, theirs.last().id());
    }
}

proof fn lemma_sorted_part(ops: Seq<Operation>, start: int, end: int)
    requires
        sorted(ops),
        0 <= start <= end <= ops.len(),
    ensures
        sorted(ops.subrange(start, end)),
{
    let part = ops.subrange(start, end);
    assert forall|i: int, j: int| #![trigger part[i], part[j]] 0 <= i < j < part.len() implies
        part[i].id().before(part[j].id()) by {
        assert(part[i] == ops[start + i] && part[j] == ops[start + j]);
    }
}

proof fn lemma_names_passed_descend(s: Session, client: Seq<Operation>)
    requires
        s.valid(client),
        s.names_passed(),
        !s.finished(),
        s.stack.last().end >= s.synced_end,
        !s.matching(),
    ensures
        s.descend().names_passed(),
{
    let next = s.descend();
    let y = s.synced_end;
    let first = reach(s.digests, y);
    lemma_top(s, client);
    lemma_reach(s.digests, y);
    assert(next.digests.take(first) =~= s.digests.take(first));
    if first > 0 {
        assert(next.digests.take(first - 1) =~= s.digests.take(first - 1));
    }
    lemma_reach_is(next.digests, y, first);
}

proof fn lemma_combined_singly(ops: Seq<Operation>)
    ensures
        combined(singly(ops)) == digest_of(ops),
    decreases ops.len(),
{
    if ops.len() > 0 {
        lemma_combined_singly(ops.drop_last());
        assert(singly(ops).drop_last() =~= singly(ops.drop_last()));
    }
}

proof fn lemma_names_passed_fetch(s: Session, client: Seq<Operation>)
    requires
        s.valid(client),
        s.converging(client),
        s.names_passed(),
        !s.finished(),
        s.stack.last().end >= s.synced_end,
        !s.matching(),
        !s.descending(),
    ensures
        s.advance().names_passed(),
{
    let next = s.advance();
    let y = s.synced_end;
    let m = s.merging(s.len() as nat);
    lemma_top(s, client);
    lemma_advance(s, client);
    lemma_fetch_numbers(s, client);
    lemma_merging_sound(s, client);
    law_digests_after_fetching(s, client);
    let passed = s.client.take(y) + m.merged;
    let merged = next.client.subrange(y, next.synced_end);
    assert(next.client == passed + s.client.skip(y).skip(m.from_client));
    assert(next.synced_end == passed.len() <= next.client.len());
    lemma_sorted_part(next.client, y, next.synced_end);
    let front = s.digests.take(reach(s.digests, y));
    let left = next.digests.skip((front.len() + merged.len()) as int);
    lemma_reach(s.digests, y);
    if front.len() > 0 {
        assert(front.drop_last() =~= s.digests.take(front.len() - 1));
    }
    assert(next.digests =~= front + singly(merged) + left);
    lemma_reach_singly(front, merged, left, y);
    assert(next.digests.take((front.len() + merged.len()) as int) =~= front + singly(merged));
    lemma_combined_names(front, singly(merged));
    lemma_combined_singly(merged);
    law_digest_counts_and_names(merged);
    let last = next.client[next.synced_end - 1];
    assert(merged.last() == last);
    if y > 0 {
        assert(next.client[y - 1] == s.client[y - 1]);
        assert(next.client[y - 1].id().before(last.id()));
    }
    lemma_later(s, last.id());
}

proof fn lemma_names_passed(s: Session, client: Seq<Operation>, steps: nat)
    requires
        s.valid(client),
        s.converging(client),
        s.undeceived(),
        s.names_passed(),
    ensures
        s.after(steps).valid(client),
        s.after(steps).converging(client),
        s.after(steps).names_passed(),
    decreases steps,
{
    if steps > 0 {
        let before = (steps - 1) as nat;
        lemma_names_passed(s, client, before);
        let now = s.after(before);
        lemma_advance(now, client);
        lemma_advance_converging(now, client);
        if !now.finished() && now.stack.last().end >= now.synced_end {
            if now.matching() {
                lemma_names_passed_skip(now, client);
            } else if now.descending() {
                lemma_names_passed_descend(now, client);
            } else {
                lemma_names_passed_fetch(now, client);
            }
        }
    }
}

/// In every state of a session that is not deceived, the last name that the client knows of up to
/// the position that the walk has come to is that of the last operation brought together, or the
/// least name if there is none.
pub proof fn law_last_name_known(
    client: Seq<Operation>,
    server: Seq<Operation>,
    max_digests: int,
    min_operations: int,
    steps: nat,
)
    requires
        sorted(client),
        sorted(server),
        client.len() + server.len() <= usize::MAX,
        max_digests >= 1,
        min_operations >= 0,
        sync_start(client, server, max_digests, min_operations).undeceived(),
    ensures
        ({
            let now = sync_start(client, server, max_digests, min_operations).after(steps);
            let known = combined(now.digests.take(reach(now.digests, now.synced_end))).max_op_id;
            now.server_end < now.server.len() ==> {
                &&& now.synced_end <= now.client.len()
                &&& now.synced_end > 0 ==> known == now.client[now.synced_end - 1].id()
                &&& now.synced_end == 0 ==> known == OperationId::first()
            }
        }),
{
    let s = sync_start(client, server, max_digests, min_operations);
    lemma_start_valid(client, server, max_digests, min_operations);
    lemma_start_converging(client, server, max_digests, min_operations);
    lemma_reach(s.digests, 0);
    if reach(s.digests, 0) > 0 {
        lemma_total_nonnegative(s.digests.take(reach(s.digests, 0) - 1));
    }
    assert(s.digests.take(0) =~= Seq::<Digest>::empty());
    lemma_names_passed(s, client, steps);
}

} // verus!
