//! What every state of a synchronization keeps, and why a synchronization comes to an end.
use crate::digest::{
    combined, describes, digest_of, law_described, lemma_describes_concat, lemma_describes_ranges,
    lemma_describes_singly, lemma_describes_split, lemma_digest_count, lemma_reach, lemma_reach_is,
    lemma_reach_monotonic, lemma_total_concat, lemma_total_next, lemma_total_nonnegative,
    lemma_total_split, reach, reach_from, spliced, total, touched, Digest,
};
use crate::history::{clip, contains_id, lemma_upsert_all, sorted};
use crate::ids::OperationId;
use crate::merging::{lemma_merge_after, merge_valid};
use crate::messages::Operation;
use crate::protocol::{absorbed, further, intersects, sync_start, widened, Session};
use crate::subdivision::{
    law_subdivided, law_subdivided_fairly, lemma_ceil_div, subdivided, subrange_len,
};
use crate::sync::requested;
use std::ops::Range;
use vstd::prelude::*;

verus! {

/// Some of the digests end at `position`, and those that follow describe `rest`.
pub open spec fn describes_from(digests: Seq<Digest>, position: int, rest: Seq<Operation>) -> bool {
    &&& total(digests.take(reach(digests, position))) == position
    &&& describes(digests.skip(reach(digests, position)), rest)
}

/// The ranges on the stack follow each other without a gap, from at most `position` on.
pub open spec fn chained(stack: Seq<Range<usize>>, position: int) -> bool {
    &&& stack.len() > 0 ==> stack.last().start <= position
    &&& forall|i: int, j: int|
        #![trigger stack[i], stack[j]]
        0 <= i && j == i + 1 && j < stack.len() ==> stack[i].start <= stack[j].end
}

/// What a range of positions touches, where digests describe the operations.
pub proof fn lemma_touched(digests: Seq<Digest>, position: int, rest: Seq<Operation>, end: int)
    requires
        describes_from(digests, position, rest),
        rest.len() <= usize::MAX,
        position <= end,
    ensures
        ({
            let first = reach(digests, position);
            let last = reach_from(digests, position, end);
            let within = touched(digests, position, end);
            let count = total(within);
            let wide = widened(digests, position, end);
            &&& 0 <= first <= last <= digests.len()
            &&& 0 <= count <= rest.len()
            &&& describes(within, rest.take(count))
            &&& combined(within) == digest_of(rest.take(count))
            &&& combined(within).count == count
            &&& total(digests.take(last)) == position + count
            &&& describes(digests.skip(last), rest.skip(count))
            &&& position + count >= end || count == rest.len()
            &&& position < end && 0 < rest.len() ==> 0 < count
            &&& wide == further(position + count, end)
            &&& reach(digests, wide) == last
            &&& reach_from(digests, position, wide) == last
            &&& touched(digests, position, wide) == within
            &&& total(digests) == position + rest.len()
        }),
{
    let first = reach(digests, position);
    let last = reach_from(digests, position, end);
    let within = touched(digests, position, end);
    let tail = digests.skip(first);
    lemma_reach(digests, position);
    lemma_reach(digests, end);
    lemma_reach_monotonic(digests, position, end);
    let n = last - first;
    assert(within =~= tail.take(n));
    lemma_describes_split(tail, rest, n);
    let count = total(within);
    law_described(within, rest.take(count));
    lemma_digest_count(rest.take(count));
    assert(digests.take(last) =~= digests.take(first) + within);
    lemma_total_concat(digests.take(first), within);
    assert(tail.skip(n) =~= digests.skip(last));
    law_described(tail, rest);
    assert(digests.take(first) + tail =~= digests);
    lemma_total_concat(digests.take(first), tail);
    if last == digests.len() {
        assert(within =~= tail);
    }
    if count == 0 && n > 0 {
        lemma_total_nonnegative(tail.take(n - 1));
    }
    let wide = widened(digests, position, end);
    if last > 0 {
        if n > 0 {
            assert(digests.take(last - 1) =~= digests.take(first) + tail.take(n - 1));
            lemma_total_concat(digests.take(first), tail.take(n - 1));
        }
        assert(total(digests.take(last - 1)) < wide);
    }
    lemma_reach_is(digests, wide, last);
}

/// Where the digests stand that were put in.
proof fn lemma_spliced_at(
    digests: Seq<Digest>,
    first: int,
    last: int,
    inserts: Seq<Digest>,
    result: Seq<Digest>,
)
    requires
        0 <= first <= last <= digests.len(),
        result == digests.take(first) + inserts + digests.skip(last),
    ensures
        first + inserts.len() <= result.len(),
        forall|i: int|
            #![trigger result[i]]
            first <= i < first + inserts.len() ==> result[i] == inserts[i - first],
{
}

/// Digests put in place of others that describe the same operations describe them.
pub proof fn lemma_spliced(
    digests: Seq<Digest>,
    position: int,
    rest: Seq<Operation>,
    end: int,
    inserts: Seq<Digest>,
)
    requires
        describes_from(digests, position, rest),
        rest.len() <= usize::MAX,
        position <= end,
        describes(inserts, rest.take(total(touched(digests, position, end)))),
    ensures
        ({
            let first = reach(digests, position);
            let result = spliced(digests, position, end, inserts);
            &&& reach(result, position) == first
            &&& describes_from(result, position, rest)
            &&& total(result) == position + rest.len()
        }),
{
    let first = reach(digests, position);
    let last = reach_from(digests, position, end);
    let count = total(touched(digests, position, end));
    lemma_touched(digests, position, rest, end);
    lemma_reach(digests, position);
    lemma_spliced_between(digests, first, last, position, rest, count, inserts);
}

/// Digests put in between two places describe what they did before, if they describe what stood
/// between.
proof fn lemma_spliced_between(
    digests: Seq<Digest>,
    first: int,
    last: int,
    position: int,
    rest: Seq<Operation>,
    count: int,
    inserts: Seq<Digest>,
)
    requires
        0 <= first <= last <= digests.len(),
        0 <= count <= rest.len() <= usize::MAX,
        total(digests.take(first)) == position,
        first == 0 || total(digests.take(first - 1)) < position,
        describes(inserts, rest.take(count)),
        describes(digests.skip(last), rest.skip(count)),
    ensures
        ({
            let result = digests.take(first) + inserts + digests.skip(last);
            &&& reach(result, position) == first
            &&& total(result.take(first)) == position
            &&& describes(result.skip(first), rest)
            &&& total(result) == position + rest.len()
        }),
{
    let tail = inserts + digests.skip(last);
    let result = digests.take(first) + inserts + digests.skip(last);
    lemma_describes_concat(inserts, rest.take(count), digests.skip(last), rest.skip(count));
    assert(rest.take(count) + rest.skip(count) =~= rest);
    assert(result.take(first) =~= digests.take(first));
    assert(result.skip(first) =~= tail);
    if first > 0 {
        assert(result.take(first - 1) =~= digests.take(first - 1));
    }
    lemma_reach_is(result, position, first);
    law_described(tail, rest);
    lemma_total_split(result, first);
}

/// The digests of a subdivided range of operations describe what stands in the range.
pub proof fn lemma_requested(
    ops: Seq<Operation>,
    start: int,
    end: int,
    count: int,
    min_operations: int,
)
    requires
        0 <= start <= ops.len() <= usize::MAX,
        start <= end,
        0 < count,
        0 <= min_operations,
    ensures
        describes(requested(ops, start, end, count, min_operations), clip(ops, start, end)),
        end <= ops.len() && start < end ==> requested(
            ops,
            start,
            end,
            count,
            min_operations,
        ).len() > 0 && requested(ops, start, end, count, min_operations)[0].count == (if end - start
            < subrange_len(end - start, count, min_operations) {
            end - start
        } else {
            subrange_len(end - start, count, min_operations)
        }),
{
    let upto = if end < ops.len() {
        end
    } else {
        ops.len() as int
    };
    let ranges = subdivided(start, upto, count, min_operations);
    let digests = requested(ops, start, end, count, min_operations);
    if start < upto {
        law_subdivided(start, upto, count, min_operations);
        assert forall|i: int| #![trigger ranges[i]] 0 <= i < ranges.len() implies ranges[i].start
            < ranges[i].end <= ops.len() && digests[i] == digest_of(
            ops.subrange(ranges[i].start as int, ranges[i].end as int),
        ) by {
            assert(digests[i] == digest_of(
                clip(ops, ranges[i].start as int, ranges[i].end as int),
            ));
        }
        assert forall|i: int, j: int|
            #![trigger ranges[i], ranges[j]]
            0 <= i && j == i + 1 && j < ranges.len() implies ranges[i].end == ranges[j].start by {
        }
        lemma_describes_ranges(digests, ranges, ops, start);
        assert(clip(ops, start, end) =~= ops.subrange(start, upto));
        if end <= ops.len() {
            let len = subrange_len(end - start, count, min_operations);
            let piece = ops.subrange(ranges[0].start as int, ranges[0].end as int);
            lemma_digest_count(piece);
            assert(digests[0] == digest_of(piece));
            assert((0 + 1) * len == len) by (nonlinear_arith);
            assert(0 * len == 0) by (nonlinear_arith);
        }
    } else {
        assert(digests =~= Seq::<Digest>::empty());
        assert(clip(ops, start, end) =~= Seq::<Operation>::empty());
    }
}

/// The digests of a subdivided range stand for all that is in the range: there are at most `count`
/// of them, they count its operations, and they combine to its digest.
pub proof fn law_requested(
    ops: Seq<Operation>,
    start: int,
    end: int,
    count: int,
    min_operations: int,
)
    requires
        0 <= start,
        0 <= end,
        ops.len() <= usize::MAX,
        0 < count,
        0 <= min_operations,
    ensures
        requested(ops, start, end, count, min_operations).len() <= count,
        total(requested(ops, start, end, count, min_operations)) == clip(ops, start, end).len(),
        combined(requested(ops, start, end, count, min_operations)) == digest_of(
            clip(ops, start, end),
        ),
{
    let from = if start < ops.len() {
        start
    } else {
        ops.len() as int
    };
    let upto = if end < ops.len() {
        end
    } else {
        ops.len() as int
    };
    let digests = requested(ops, start, end, count, min_operations);
    if from < upto {
        law_subdivided(from, upto, count, min_operations);
        assert(digests == requested(ops, from, end, count, min_operations));
        assert(clip(ops, start, end) =~= clip(ops, from, end));
        lemma_requested(ops, from, end, count, min_operations);
        law_described(digests, clip(ops, from, end));
    } else {
        assert(digests =~= Seq::<Digest>::empty());
        assert(clip(ops, start, end) =~= Seq::<Operation>::empty());
    }
}

/// The digests of a range stand for pieces of what lies in it, one after the other, also where the
/// range ends past the last operation. With `n` operations in the range and the first piece `len`
/// long: every other piece but the last is `len` long too, and the last is what is left. There is
/// one piece only if `n` is at most `min_operations` or 1, or one was asked for. Otherwise `len` is
/// the least length of at least `min_operations` of which `count` pieces hold `n` operations.
pub proof fn law_requested_pieces(
    ops: Seq<Operation>,
    start: int,
    end: int,
    count: int,
    min_operations: int,
)
    requires
        0 <= start,
        0 <= end,
        ops.len() <= usize::MAX,
        0 < count,
        0 <= min_operations,
    ensures
        ({
            let digests = requested(ops, start, end, count, min_operations);
            let upto = if end < ops.len() {
                end
            } else {
                ops.len() as int
            };
            let n = upto - start;
            let len = digests[0].count as int;
            let k = digests.len() as int;
            &&& n <= 0 ==> k == 0
            &&& n > 0 ==> {
                &&& 1 <= k <= count
                &&& 1 <= len <= n
                &&& (k - 1) * len < n <= k * len
                &&& forall|i: int|
                    #![trigger digests[i]]
                    0 <= i < k ==> digests[i] == digest_of(
                        ops.subrange(
                            start + i * len,
                            if i + 1 < k {
                                start + (i + 1) * len
                            } else {
                                upto
                            },
                        ),
                    )
                &&& k == 1 <==> n <= min_operations || n == 1 || count == 1
                &&& k > 1 ==> {
                    &&& min_operations <= len
                    &&& n <= len * count
                    &&& len == min_operations || (len - 1) * count < n
                }
            }
        }),
{
    let digests = requested(ops, start, end, count, min_operations);
    let upto = if end < ops.len() {
        end
    } else {
        ops.len() as int
    };
    if start < upto {
        let ranges = subdivided(start, upto, count, min_operations);
        let k = ranges.len() as int;
        let len = ranges[0].end - ranges[0].start;
        law_subdivided(start, upto, count, min_operations);
        law_subdivided_fairly(start, upto, count, min_operations);
        assert forall|i: int| #![trigger digests[i]] 0 <= i < k implies digests[i] == digest_of(
            ops.subrange(
                start + i * len,
                if i + 1 < k {
                    start + (i + 1) * len
                } else {
                    upto
                },
            ),
        ) by {
            assert(start <= ranges[i].start < ranges[i].end <= upto);
            assert(clip(ops, ranges[i].start as int, ranges[i].end as int) =~= ops.subrange(
                ranges[i].start as int,
                ranges[i].end as int,
            ));
        }
        assert(ranges[0].end <= upto);
        lemma_digest_count(clip(ops, ranges[0].start as int, ranges[0].end as int));
        assert(digests[0].count == len);
    }
}

impl Session {
    /// How many of the client's operations lie past those that are brought together.
    pub open spec fn unsynced(self) -> int {
        if self.synced_end < self.client.len() {
            self.client.len() - self.synced_end
        } else {
            0
        }
    }

    /// What the server has past those that are accounted for.
    pub open spec fn rest(self) -> Seq<Operation> {
        self.server.skip(self.server_end)
    }

    /// The positions line up: those of the digests with those of the client, and those on the
    /// stack with both.
    pub open spec fn aligned(self) -> bool {
        &&& self.synced_end == self.missed.len() + self.server_end
        &&& describes_from(self.digests, self.synced_end, self.rest())
        &&& chained(self.stack, self.synced_end)
    }

    /// What every state of a session keeps whose client began with `client`.
    pub open spec fn valid(self, client: Seq<Operation>) -> bool {
        let positions = client.len() + self.server.len();
        &&& positions <= usize::MAX
        &&& self.max_digests >= 1
        &&& self.min_operations >= 0
        &&& sorted(self.client)
        &&& sorted(self.server)
        &&& 0 <= self.server_end <= self.server.len()
        &&& 0 <= self.synced_end
        &&& self.missed.len() + self.server.len() + self.unsynced() <= positions
        &&& self.roundtrips >= 1
        &&& self.server_operations <= self.missed.len() + self.server_end
        &&& client.len() <= self.client.len() <= client.len() + self.server_operations
        &&& self.client.len() <= client.len() + self.server_end
        &&& forall|i: int|
            #![trigger self.stack[i]]
            0 <= i < self.stack.len() ==> self.stack[i].start <= self.stack[i].end <= positions
        &&& self.server_end < self.server.len() ==> self.aligned()
    }

    /// No operation came from nowhere, and the client lost no name.
    pub open spec fn faithful(self, client: Seq<Operation>) -> bool {
        &&& forall|x: Operation|
            #![trigger self.client.contains(x)]
            self.client.contains(x) ==> client.contains(x) || self.server.contains(x)
        &&& forall|x: Operation|
            #![trigger self.missed.contains(x)]
            self.missed.contains(x) ==> client.contains(x) || self.server.contains(x)
        &&& forall|id: OperationId|
            #![trigger contains_id(self.client, id)]
            contains_id(client, id) ==> contains_id(self.client, id)
    }

    /// The ranges on the stack reach up to the last position that the two can have together. Once
    /// they are all taken, either the walk has come that far or nothing of the server's is left.
    pub open spec fn grounded(self, client: Seq<Operation>) -> bool {
        let positions = client.len() + self.server.len();
        if self.stack.len() > 0 {
            self.stack[0].end == positions
        } else {
            self.synced_end >= positions || self.server_end >= self.server.len()
        }
    }

    /// How many operations of both are still to be brought together.
    pub open spec fn remaining(self) -> int {
        self.server.len() - self.server_end + self.unsynced()
    }

    /// The range on top of the stack is brought together already.
    pub open spec fn stale(self) -> bool {
        self.stack.len() > 0 && self.stack.last().end <= self.synced_end
    }

    /// What a step lowers that brings nothing together.
    pub open spec fn effort(self) -> int {
        if self.stale() {
            self.stack.len() as int
        } else {
            further(self.end() - self.synced_end, 0)
        }
    }

    /// The step from this state to `next` comes closer to the end.
    pub open spec fn closer(self, next: Session) -> bool {
        &&& 0 <= next.remaining()
        &&& 0 <= next.effort()
        &&& {
            ||| next.remaining() < self.remaining()
            ||| next.remaining() == self.remaining() && self.stale() && !next.stale()
            ||| next.remaining() == self.remaining() && self.stale() == next.stale()
                && next.effort() < self.effort()
        }
    }
}

/// The first state is valid.
pub proof fn lemma_start_valid(
    client: Seq<Operation>,
    server: Seq<Operation>,
    max_digests: int,
    min_operations: int,
)
    requires
        sorted(client),
        sorted(server),
        client.len() + server.len() <= usize::MAX,
        max_digests >= 1,
        min_operations >= 0,
    ensures
        sync_start(client, server, max_digests, min_operations).valid(client),
        sync_start(client, server, max_digests, min_operations).faithful(client),
        sync_start(client, server, max_digests, min_operations).grounded(client),
        total(sync_start(client, server, max_digests, min_operations).digests) == server.len(),
{
    let s = sync_start(client, server, max_digests, min_operations);
    let positions = (client.len() + server.len()) as int;
    let ranges = subdivided(0, positions, max_digests, min_operations);
    assert(clip(server, 0, usize::MAX as int) =~= server);
    lemma_requested(server, 0, usize::MAX as int, max_digests, min_operations);
    law_described(s.digests, server);
    assert(s.rest() =~= server);
    assert(s.digests.take(0) =~= Seq::<Digest>::empty());
    assert(s.digests.skip(0) =~= s.digests);
    lemma_reach_is(s.digests, 0, 0);
    if positions > 0 {
        law_subdivided(0, positions, max_digests, min_operations);
        assert forall|i: int| #![trigger s.stack[i]] 0 <= i < s.stack.len() implies s.stack[i].start
            <= s.stack[i].end <= positions by {
            assert(s.stack[i] == ranges[ranges.len() - 1 - i]);
        }
        assert forall|i: int, j: int|
            #![trigger s.stack[i], s.stack[j]]
            0 <= i && j == i + 1 && j < s.stack.len() implies s.stack[i].start <= s.stack[j].end by {
            assert(s.stack[i] == ranges[ranges.len() - 1 - i]);
            assert(s.stack[j] == ranges[ranges.len() - 1 - j]);
        }
    }
}

/// What is known of the range on top of the stack in a valid state that is not finished.
pub proof fn lemma_top(s: Session, client: Seq<Operation>)
    requires
        s.valid(client),
        !s.finished(),
    ensures
        s.aligned(),
        s.start() == s.synced_end,
        s.synced_end < s.client.len(),
        s.rest().len() == s.server.len() - s.server_end,
        s.synced_end + s.rest().len() <= client.len() + s.server.len(),
        s.stack.last().end <= client.len() + s.server.len(),
        s.synced_end <= s.stack.last().end ==> {
            &&& s.synced_end <= s.end() <= client.len() + s.server.len()
            &&& s.stack.last().end <= s.end()
            &&& s.synced_end == s.stack.last().end ==> s.matching()
        },
{
    let top = s.stack[s.stack.len() - 1];
    if s.synced_end <= top.end {
        lemma_touched(s.digests, s.synced_end, s.rest(), top.end as int);
        if s.synced_end == top.end {
            assert(touched(s.digests, s.start(), top.end as int) =~= Seq::<Digest>::empty());
            assert(clip(s.client, s.start(), s.end()) =~= Seq::<Operation>::empty());
        }
    }
}

proof fn lemma_pop(stack: Seq<Range<usize>>, position: int, later: int)
    requires
        chained(stack, position),
        stack.len() > 0,
        stack.last().end <= later,
    ensures
        chained(stack.drop_last(), later),
{
    let rest = stack.drop_last();
    if rest.len() > 0 {
        assert(rest.last() == stack[stack.len() - 2]);
        assert(stack.last() == stack[stack.len() - 1]);
    }
    assert forall|i: int, j: int|
        #![trigger rest[i], rest[j]]
        0 <= i && j == i + 1 && j < rest.len() implies rest[i].start <= rest[j].end by {
        assert(rest[i] == stack[i] && rest[j] == stack[j]);
    }
}

/// Dropping a range keeps the state valid and comes closer to the end.
pub proof fn lemma_drop_range(s: Session, client: Seq<Operation>)
    requires
        s.valid(client),
        !s.finished(),
        s.stack.last().end < s.synced_end,
    ensures
        s.drop_range().valid(client),
        s.closer(s.drop_range()),
{
    let next = s.drop_range();
    lemma_pop(s.stack, s.synced_end, s.synced_end);
    assert forall|i: int| #![trigger next.stack[i]] 0 <= i < next.stack.len() implies
        next.stack[i].start <= next.stack[i].end <= client.len() + s.server.len() by {
        assert(next.stack[i] == s.stack[i]);
    }
}

/// Skipping a range that matches keeps the state valid and comes closer to the end.
pub proof fn lemma_skip_range(s: Session, client: Seq<Operation>)
    requires
        s.valid(client),
        !s.finished(),
        s.stack.last().end >= s.synced_end,
    ensures
        s.skip_range().valid(client),
        s.closer(s.skip_range()),
{
    let next = s.skip_range();
    let top = s.stack[s.stack.len() - 1];
    lemma_top(s, client);
    lemma_touched(s.digests, s.synced_end, s.rest(), top.end as int);
    assert forall|i: int| #![trigger next.stack[i]] 0 <= i < next.stack.len() implies
        next.stack[i].start <= next.stack[i].end <= client.len() + s.server.len() by {
        assert(next.stack[i] == s.stack[i]);
    }
    let count = total(touched(s.digests, s.synced_end, top.end as int));
    assert(next.server_end == s.server_end + count);
    if next.server_end < s.server.len() {
        assert(next.synced_end == s.synced_end + count);
        assert(s.rest().skip(count) =~= next.rest());
        lemma_pop(s.stack, s.synced_end, next.synced_end);
    }
}

/// What taking ranges off the stack keeps.
pub proof fn lemma_absorbed(
    digests: Seq<Digest>,
    stack: Seq<Range<usize>>,
    start: int,
    end: int,
    first: OperationId,
    next: OperationId,
    rest: Seq<Operation>,
    positions: int,
)
    requires
        describes_from(digests, start, rest),
        rest.len() <= usize::MAX,
        start + rest.len() <= positions,
        start <= end <= positions,
        end == widened(digests, start, end),
        chained(stack, end),
        forall|i: int|
            #![trigger stack[i]]
            0 <= i < stack.len() ==> stack[i].start <= stack[i].end <= positions,
    ensures
        ({
            let (left, wide) = absorbed(digests, stack, start, end, first, next);
            &&& left.len() <= stack.len()
            &&& left == stack.take(left.len() as int)
            &&& end <= wide <= positions
            &&& wide == widened(digests, start, wide)
            &&& chained(left, wide)
        }),
    decreases stack.len(),
{
    if stack.len() == 0 || intersects(
        digests,
        start,
        further(end, stack.last().end as int),
        first,
        next,
    ) {
        assert(stack.take(stack.len() as int) =~= stack);
    } else {
        let top = stack[stack.len() - 1];
        let fewer = stack.drop_last();
        let upto = further(end, top.end as int);
        let wide = widened(digests, start, upto);
        lemma_touched(digests, start, rest, upto);
        lemma_pop(stack, end, wide);
        assert forall|i: int| #![trigger fewer[i]] 0 <= i < fewer.len() implies fewer[i].start
            <= fewer[i].end <= positions by {
            assert(fewer[i] == stack[i]);
        }
        lemma_absorbed(digests, fewer, start, wide, first, next, rest, positions);
        let left = absorbed(digests, fewer, start, wide, first, next).0;
        assert(fewer.take(left.len() as int) =~= stack.take(left.len() as int));
    }
}

/// The range that is compared in pieces or fetched, in a valid state that is not finished.
pub proof fn lemma_absorbing(s: Session, client: Seq<Operation>)
    requires
        s.valid(client),
        !s.finished(),
        s.stack.last().end >= s.synced_end,
        !s.matching(),
    ensures
        ({
            let (stack, end) = s.absorbing();
            let count = total(touched(s.digests, s.synced_end, end));
            &&& stack.len() < s.stack.len()
            &&& stack == s.stack.take(stack.len() as int)
            &&& chained(stack, end)
            &&& s.synced_end < s.stack.last().end <= s.end() <= end <= client.len() + s.server.len()
            &&& s.len() >= 1
            &&& 0 < count <= s.rest().len()
            &&& end == s.synced_end + count || (end > s.synced_end + count && count
                == s.rest().len())
            &&& clip(s.server, s.server_end, s.server_end + s.len()) == s.rest().take(count)
        }),
{
    let top = s.stack[s.stack.len() - 1];
    let popped = s.stack.drop_last();
    let positions = (client.len() + s.server.len()) as int;
    lemma_top(s, client);
    lemma_touched(s.digests, s.synced_end, s.rest(), top.end as int);
    lemma_touched(s.digests, s.synced_end, s.rest(), s.end());
    lemma_pop(s.stack, s.synced_end, s.end());
    assert forall|i: int| #![trigger popped[i]] 0 <= i < popped.len() implies popped[i].start
        <= popped[i].end <= positions by {
        assert(popped[i] == s.stack[i]);
    }
    lemma_absorbed(
        s.digests,
        popped,
        s.synced_end,
        s.end(),
        s.first(),
        s.next(),
        s.rest(),
        positions,
    );
    let (stack, end) = s.absorbing();
    assert(popped.take(stack.len() as int) =~= s.stack.take(stack.len() as int));
    lemma_touched(s.digests, s.synced_end, s.rest(), end);
    let count = total(touched(s.digests, s.synced_end, end));
    assert(clip(s.server, s.server_end, s.server_end + s.len()) =~= s.rest().take(count));
}

proof fn lemma_last_name(digests: Seq<Digest>, i: int, j: int)
    requires
        0 <= i <= j <= digests.len(),
    ensures
        !combined(digests.take(j)).max_op_id.before(combined(digests.take(i)).max_op_id),
    decreases j,
{
    if i < j {
        lemma_last_name(digests, i, j - 1);
        lemma_total_next(digests, j - 1);
    }
}

/// A range that is to be compared in pieces takes no others in.
proof fn lemma_descending_absorbs_nothing(s: Session, client: Seq<Operation>)
    requires
        s.valid(client),
        !s.finished(),
        s.stack.last().end >= s.synced_end,
        s.descending(),
    ensures
        s.absorbing() == (s.stack.drop_last(), s.end()),
{
    lemma_top(s, client);
    let popped = s.stack.drop_last();
    if popped.len() > 0 {
        let upto = further(s.end(), popped.last().end as int);
        lemma_reach_monotonic(s.digests, s.stack.last().end as int, upto);
        lemma_last_name(
            s.digests,
            reach(s.digests, s.stack.last().end as int),
            reach(s.digests, upto),
        );
        assert(intersects(s.digests, s.start(), upto, s.first(), s.next()));
    }
}

/// Pieces of a range, on top of what follows the range, follow each other without a gap.
proof fn lemma_pieces_chained(
    stack: Seq<Range<usize>>,
    start: int,
    end: int,
    count: int,
    min_operations: int,
    positions: int,
)
    requires
        chained(stack, end),
        forall|i: int|
            #![trigger stack[i]]
            0 <= i < stack.len() ==> stack[i].start <= stack[i].end <= positions,
        0 <= start < end <= positions <= usize::MAX,
        0 < count,
        0 <= min_operations,
    ensures
        ({
            let result = stack + subdivided(start, end, count, min_operations).reverse();
            &&& result.len() > 0
            &&& result.last().start == start
            &&& start < result.last().end
            &&& result.last().end - start <= subrange_len(end - start, count, min_operations)
            &&& chained(result, start)
            &&& forall|i: int|
                #![trigger result[i]]
                0 <= i < result.len() ==> result[i].start <= result[i].end <= positions
        }),
{
    let ranges = subdivided(start, end, count, min_operations);
    let result = stack + ranges.reverse();
    law_subdivided(start, end, count, min_operations);
    assert forall|i: int| #![trigger result[i]] 0 <= i < result.len() implies result[i].start
        <= result[i].end <= positions by {
        if i < stack.len() {
            assert(result[i] == stack[i]);
        } else {
            assert(result[i] == ranges[ranges.len() - 1 - (i - stack.len())]);
        }
    }
    assert(result.last() == ranges[0]);
    assert forall|i: int, j: int|
        #![trigger result[i], result[j]]
        0 <= i && j == i + 1 && j < result.len() implies result[i].start <= result[j].end by {
        if j < stack.len() {
            assert(result[i] == stack[i] && result[j] == stack[j]);
        } else {
            let b = ranges.len() - 1 - (j - stack.len());
            assert(result[j] == ranges[b]);
            if i < stack.len() {
                assert(result[i] == stack.last());
            } else {
                assert(result[i] == ranges[b + 1]);
            }
        }
    }
}

/// Where the first digest ends at the end of a range, the range touches no other.
proof fn lemma_touches_one(digests: Seq<Digest>, position: int, rest: Seq<Operation>, end: int)
    requires
        describes_from(digests, position, rest),
        rest.len() <= usize::MAX,
        position < end,
        reach(digests, position) < digests.len(),
        digests[reach(digests, position)].count == end - position,
    ensures
        widened(digests, position, end) == end,
{
    let first = reach(digests, position);
    lemma_reach(digests, position);
    lemma_touched(digests, position, rest, end);
    lemma_total_next(digests, first);
    lemma_reach_is(digests, end, first + 1);
}

/// Comparing a range in pieces keeps the state valid.
pub proof fn lemma_descend(s: Session, client: Seq<Operation>)
    requires
        s.valid(client),
        !s.finished(),
        s.stack.last().end >= s.synced_end,
        !s.matching(),
        s.descending(),
    ensures
        s.descend().valid(client),
        describes_from(s.descend().digests, s.synced_end, s.rest()),
        total(s.descend().digests) <= client.len() + s.server.len(),
{
    let next = s.descend();
    let (stack, end) = s.absorbing();
    let y = s.synced_end;
    let positions = (client.len() + s.server.len()) as int;
    lemma_top(s, client);
    lemma_absorbing(s, client);
    let pieces = requested(
        s.server,
        s.server_end,
        s.server_end + s.len(),
        s.max_digests,
        s.min_operations,
    );
    lemma_requested(
        s.server,
        s.server_end,
        s.server_end + s.len(),
        s.max_digests,
        s.min_operations,
    );
    lemma_spliced(s.digests, y, s.rest(), end, pieces);
    assert forall|i: int| #![trigger stack[i]] 0 <= i < stack.len() implies stack[i].start
        <= stack[i].end <= positions by {
        assert(stack[i] == s.stack[i]);
    }
    lemma_pieces_chained(stack, y, end, s.max_digests, s.min_operations, positions);
}

/// Comparing a range in pieces comes closer to the end.
pub proof fn lemma_descend_closer(s: Session, client: Seq<Operation>)
    requires
        s.valid(client),
        !s.finished(),
        s.stack.last().end >= s.synced_end,
        !s.matching(),
        s.descending(),
    ensures
        s.closer(s.descend()),
{
    let next = s.descend();
    let (stack, end) = s.absorbing();
    let y = s.synced_end;
    let len = s.len();
    let positions = (client.len() + s.server.len()) as int;
    lemma_top(s, client);
    lemma_absorbing(s, client);
    lemma_descending_absorbs_nothing(s, client);
    lemma_descend(s, client);
    assert forall|i: int| #![trigger stack[i]] 0 <= i < stack.len() implies stack[i].start
        <= stack[i].end <= positions by {
        assert(stack[i] == s.stack[i]);
    }
    lemma_pieces_chained(stack, y, end, s.max_digests, s.min_operations, positions);
    let top = next.stack.last();
    let piece = subrange_len(len, s.max_digests, s.min_operations);
    lemma_ceil_div(len, s.max_digests);
    assert(piece < len);
    assert(next.start() == y);
    lemma_touched(next.digests, y, s.rest(), top.end as int);
    let count = total(touched(s.digests, y, end));
    if end == y + count {
        lemma_pieces_aligned(
            s.digests,
            y,
            end,
            s.server,
            s.server_end,
            s.max_digests,
            s.min_operations,
        );
        law_subdivided(y, end, s.max_digests, s.min_operations);
        assert(top == subdivided(y, end, s.max_digests, s.min_operations)[0]);
    }
}

/// The digests of the pieces of a range end where the pieces do, if there are operations throughout
/// the range.
proof fn lemma_pieces_aligned(
    digests: Seq<Digest>,
    position: int,
    end: int,
    server: Seq<Operation>,
    server_end: int,
    count: int,
    min_operations: int,
)
    requires
        0 <= server_end < server.len() <= usize::MAX,
        describes_from(digests, position, server.skip(server_end)),
        0 <= position,
        position < end <= usize::MAX,
        end - position == total(touched(digests, position, end)),
        0 < count,
        0 <= min_operations,
    ensures
        ({
            let top = subdivided(position, end, count, min_operations)[0];
            let pieces = requested(
                server,
                server_end,
                server_end + (end - position),
                count,
                min_operations,
            );
            widened(spliced(digests, position, end, pieces), position, top.end as int) == top.end
        }),
{
    let len = end - position;
    let rest = server.skip(server_end);
    let top = subdivided(position, end, count, min_operations)[0];
    let pieces = requested(server, server_end, server_end + len, count, min_operations);
    let result = spliced(digests, position, end, pieces);
    let first = reach(digests, position);
    lemma_touched(digests, position, rest, end);
    lemma_requested(server, server_end, server_end + len, count, min_operations);
    assert(clip(server, server_end, server_end + len) =~= rest.take(len));
    lemma_spliced(digests, position, rest, end, pieces);
    lemma_first_piece(position, end, count, min_operations);
    lemma_spliced_at(
        digests,
        first,
        reach_from(digests, position, end),
        pieces,
        result,
    );
    assert(result[first] == pieces[0]);
    lemma_touches_one(result, position, rest, top.end as int);
}

proof fn lemma_first_piece(start: int, end: int, count: int, min_operations: int)
    requires
        0 <= start < end <= usize::MAX,
        0 < count,
        0 <= min_operations,
    ensures
        subdivided(start, end, count, min_operations).len() > 0,
        start < subdivided(start, end, count, min_operations)[0].end,
        subdivided(start, end, count, min_operations)[0].end - start == (if end - start
            < subrange_len(end - start, count, min_operations) {
            end - start
        } else {
            subrange_len(end - start, count, min_operations)
        }),
{
    let len = subrange_len(end - start, count, min_operations);
    law_subdivided(start, end, count, min_operations);
    assert((0 + 1) * len == len) by (nonlinear_arith);
    assert(0 * len == 0) by (nonlinear_arith);
}

/// Operations put in one by one for the digests that a range touches.
proof fn lemma_spliced_singly(
    digests: Seq<Digest>,
    position: int,
    rest: Seq<Operation>,
    end: int,
    ops: Seq<Operation>,
)
    requires
        describes_from(digests, position, rest),
        rest.len() <= usize::MAX,
        position <= end,
        ops == rest.take(total(touched(digests, position, end))),
    ensures
        ({
            let inserts = ops.map_values(|op: Operation| Digest::of(op));
            let result = spliced(digests, position, end, inserts);
            let here = reach(result, position);
            &&& describes_from(result, position, rest)
            &&& total(result) == position + rest.len()
            &&& here + ops.len() <= result.len()
            &&& forall|i: int|
                #![trigger result[i]]
                here <= i < here + ops.len() ==> result[i].count == 1
        }),
{
    let inserts = ops.map_values(|op: Operation| Digest::of(op));
    lemma_describes_singly(inserts, ops);
    lemma_spliced_ones(digests, position, rest, end, inserts);
}

/// Digests of one operation each, put in place of others.
proof fn lemma_spliced_ones(
    digests: Seq<Digest>,
    position: int,
    rest: Seq<Operation>,
    end: int,
    inserts: Seq<Digest>,
)
    requires
        describes_from(digests, position, rest),
        rest.len() <= usize::MAX,
        position <= end,
        describes(inserts, rest.take(total(touched(digests, position, end)))),
        forall|i: int| #![trigger inserts[i]] 0 <= i < inserts.len() ==> inserts[i].count == 1,
    ensures
        ({
            let result = spliced(digests, position, end, inserts);
            let here = reach(result, position);
            &&& describes_from(result, position, rest)
            &&& total(result) == position + rest.len()
            &&& here + inserts.len() <= result.len()
            &&& forall|i: int|
                #![trigger result[i]]
                here <= i < here + inserts.len() ==> result[i].count == 1
        }),
{
    let result = spliced(digests, position, end, inserts);
    lemma_spliced(digests, position, rest, end, inserts);
    lemma_reach_monotonic(digests, position, end);
    let here = reach(result, position);
    lemma_spliced_at(digests, here, reach_from(digests, position, end), inserts, result);
    assert forall|i: int|
        #![trigger result[i]]
        here <= i < here + inserts.len() implies result[i].count == 1 by {
        assert(inserts[i - here].count == 1);
    }
}

/// What the client knows of the server once it has fetched a range: operation by operation there.
pub proof fn lemma_fetched(s: Session, client: Seq<Operation>)
    requires
        s.valid(client),
        !s.finished(),
        s.stack.last().end >= s.synced_end,
        !s.matching(),
    ensures
        ({
            let server = s.fetched();
            let digests = s.fetched_digests();
            let here = reach(digests, s.synced_end);
            &&& 0 < server.len() <= s.rest().len()
            &&& server.len() <= s.len()
            &&& server == s.rest().take(server.len() as int)
            &&& server.len() == s.len() || server.len() == s.rest().len()
            &&& describes_from(digests, s.synced_end, s.rest())
            &&& total(digests) == s.synced_end + s.rest().len()
            &&& here + server.len() <= digests.len()
            &&& forall|i: int|
                #![trigger digests[i]]
                here <= i < here + server.len() ==> digests[i].count == 1
        }),
{
    let server = s.fetched();
    let end = s.absorbing().1;
    lemma_top(s, client);
    lemma_absorbing(s, client);
    let count = total(touched(s.digests, s.synced_end, end));
    assert(server == s.rest().take(count));
    lemma_spliced_singly(s.digests, s.synced_end, s.rest(), end, server);
}

/// The merge of a range that was fetched.
pub proof fn lemma_merging(s: Session, client: Seq<Operation>, steps: nat)
    requires
        s.valid(client),
        !s.finished(),
        s.stack.last().end >= s.synced_end,
        !s.matching(),
    ensures
        ({
            let window = clip(s.client, s.start(), s.absorbing().1);
            let m = s.merging(steps);
            &&& merge_valid(m, window, s.fetched(), s.synced_end, s.rest())
            &&& m.merged.len() <= steps
            &&& m.merged.len() == steps || (m.from_client == window.len() && m.from_server
                == s.fetched().len())
            &&& window.len() <= s.unsynced()
            &&& total(m.digests) == s.synced_end + m.missed.len() + s.rest().len()
            &&& total(m.digests) <= client.len() + s.server.len()
        }),
{
    let window = clip(s.client, s.start(), s.absorbing().1);
    let m = s.merging(steps);
    let here = s.synced_end + m.merged.len();
    lemma_top(s, client);
    lemma_fetched(s, client);
    lemma_merge_after(
        window,
        s.fetched(),
        s.synced_end,
        s.fetched_digests(),
        s.rest(),
        steps,
    );
    lemma_touched(m.digests, here, s.rest().skip(m.from_server), here);
}

/// How many operations a fetched range brings and takes.
pub proof fn lemma_fetch_numbers(s: Session, client: Seq<Operation>)
    requires
        s.valid(client),
        !s.finished(),
        s.stack.last().end >= s.synced_end,
        !s.matching(),
    ensures
        ({
            let m = s.merging(s.len() as nat);
            &&& 1 <= m.merged.len() <= s.len()
            &&& s.fetched().len() <= m.merged.len()
            &&& 0 <= m.from_server <= s.fetched().len() <= s.rest().len()
            &&& m.merged.len() == m.missed.len() + m.from_server
            &&& m.gained.len() <= m.from_server
            &&& m.missed.len() + m.from_server - m.gained.len() <= s.unsynced()
            &&& m.from_server < s.rest().len() ==> m.merged.len() == s.len()
        }),
{
    lemma_top(s, client);
    lemma_absorbing(s, client);
    lemma_fetched(s, client);
    lemma_merging(s, client, s.len() as nat);
}

/// The positions line up again after a range was fetched.
proof fn lemma_fetch_aligned(s: Session, client: Seq<Operation>)
    requires
        s.valid(client),
        !s.finished(),
        s.stack.last().end >= s.synced_end,
        !s.matching(),
        s.fetch().server_end < s.server.len(),
    ensures
        s.fetch().aligned(),
{
    let next = s.fetch();
    let m = s.merging(s.len() as nat);
    lemma_top(s, client);
    lemma_absorbing(s, client);
    lemma_fetch_numbers(s, client);
    lemma_merging(s, client, s.len() as nat);
    assert(next.rest() =~= s.rest().skip(m.from_server));
    assert(next.synced_end == s.absorbing().1);
}

/// Fetching a range keeps the state valid and comes closer to the end.
pub proof fn lemma_fetch(s: Session, client: Seq<Operation>)
    requires
        s.valid(client),
        !s.finished(),
        s.stack.last().end >= s.synced_end,
        !s.matching(),
    ensures
        s.fetch().valid(client),
        s.closer(s.fetch()),
{
    let next = s.fetch();
    let positions = (client.len() + s.server.len()) as int;
    lemma_top(s, client);
    lemma_fetch_numbers(s, client);
    lemma_upsert_all(s.client, s.merging(s.len() as nat).gained);
    assert forall|i: int| #![trigger next.stack[i]] 0 <= i < next.stack.len() implies
        next.stack[i].start <= next.stack[i].end <= positions by {
        lemma_absorbing(s, client);
        assert(next.stack[i] == s.stack[i]);
    }
    if next.server_end < next.server.len() {
        lemma_fetch_aligned(s, client);
    }
}

/// The counts of a range that is fetched do not run over.
pub proof fn lemma_fetch_counts(s: Session, client: Seq<Operation>)
    requires
        s.valid(client),
        !s.finished(),
        s.stack.last().end >= s.synced_end,
        !s.matching(),
    ensures
        s.start() == s.synced_end <= s.absorbing().1 <= usize::MAX,
        s.server_end + s.len() <= usize::MAX,
        total(s.fetched_digests()) <= usize::MAX,
        s.server_operations + s.fetched().len() <= usize::MAX,
        s.server_end + s.merging(s.len() as nat).from_server <= usize::MAX,
        s.synced_end + s.merging(s.len() as nat).merged.len() <= usize::MAX,
{
    lemma_top(s, client);
    lemma_absorbing(s, client);
    lemma_fetched(s, client);
    lemma_merging(s, client, s.len() as nat);
    lemma_fetch(s, client);
}

/// Fetching a range brings no operation from nowhere and loses no name.
proof fn lemma_fetch_faithful(s: Session, client: Seq<Operation>)
    requires
        s.valid(client),
        s.faithful(client),
        !s.finished(),
        s.stack.last().end >= s.synced_end,
        !s.matching(),
    ensures
        s.fetch().faithful(client),
{
    let next = s.fetch();
    let window = clip(s.client, s.start(), s.absorbing().1);
    let m = s.merging(s.len() as nat);
    lemma_top(s, client);
    lemma_absorbing(s, client);
    lemma_merging(s, client, s.len() as nat);
    lemma_upsert_all(s.client, m.gained);
    assert forall|x: Operation| #![trigger next.client.contains(x)] next.client.contains(
        x,
    ) implies client.contains(x) || s.server.contains(x) by {
        if !s.client.contains(x) {
            let i = choose|i: int| 0 <= i < m.gained.len() && m.gained[i] == x;
            assert(s.fetched().contains(m.gained[i]));
            let j = choose|j: int| 0 <= j < s.fetched().len() && s.fetched()[j] == x;
            assert(s.server[s.server_end + j] == x);
        }
    }
    assert forall|x: Operation| #![trigger next.missed.contains(x)] next.missed.contains(
        x,
    ) implies client.contains(x) || s.server.contains(x) by {
        let i = choose|i: int| 0 <= i < next.missed.len() && next.missed[i] == x;
        if i < s.missed.len() {
            assert(s.missed[i] == x);
            assert(s.missed.contains(x));
        } else {
            assert(m.missed[i - s.missed.len()] == x);
            assert(window.contains(x));
            let j = choose|j: int| 0 <= j < window.len() && window[j] == x;
            assert(s.client[s.start() + j] == x);
            assert(s.client.contains(x));
        }
    }
}

/// Each step keeps the state valid, and comes closer to the end as long as there is something to
/// do.
pub proof fn lemma_advance(s: Session, client: Seq<Operation>)
    requires
        s.valid(client),
    ensures
        s.advance().valid(client),
        s.faithful(client) ==> s.advance().faithful(client),
        s.advance().server == s.server,
        !s.finished() ==> s.closer(s.advance()),
{
    if !s.finished() {
        if s.stack.last().end < s.synced_end {
            lemma_drop_range(s, client);
        } else if s.matching() {
            lemma_skip_range(s, client);
        } else if s.descending() {
            lemma_descend(s, client);
            lemma_descend_closer(s, client);
        } else {
            lemma_fetch(s, client);
            if s.faithful(client) {
                lemma_fetch_faithful(s, client);
            }
        }
    }
}

/// A range that takes in all of the stack ends no sooner than the stack does.
proof fn lemma_absorbed_to_the_ground(
    digests: Seq<Digest>,
    stack: Seq<Range<usize>>,
    start: int,
    end: int,
    first: OperationId,
    next: OperationId,
)
    requires
        stack.len() > 0,
        absorbed(digests, stack, start, end, first, next).0.len() == 0,
    ensures
        absorbed(digests, stack, start, end, first, next).1 >= stack[0].end,
    decreases stack.len(),
{
    let fewer = stack.drop_last();
    let wide = widened(digests, start, further(end, stack.last().end as int));
    if fewer.len() > 0 {
        lemma_absorbed_to_the_ground(digests, fewer, start, wide, first, next);
        assert(fewer[0] == stack[0]);
    } else {
        assert(absorbed(digests, fewer, start, wide, first, next) == (fewer, wide));
    }
}

/// What is left of the stack below a range, or else the range itself, reaches up to the end.
proof fn lemma_absorbing_grounded(s: Session, client: Seq<Operation>)
    requires
        s.valid(client),
        s.grounded(client),
        !s.finished(),
        s.stack.last().end >= s.synced_end,
        !s.matching(),
    ensures
        ({
            let (stack, end) = s.absorbing();
            if stack.len() > 0 {
                stack[0].end == client.len() + s.server.len()
            } else {
                end == client.len() + s.server.len()
            }
        }),
{
    let stack = s.absorbing().0;
    let popped = s.stack.drop_last();
    lemma_absorbing(s, client);
    if stack.len() > 0 {
        assert(stack[0] == s.stack[0]);
    } else if popped.len() > 0 {
        lemma_absorbed_to_the_ground(
            s.digests,
            popped,
            s.start(),
            s.end(),
            s.first(),
            s.next(),
        );
        assert(popped[0] == s.stack[0]);
    }
}

/// Each step keeps the ground under the stack.
pub proof fn lemma_advance_grounded(s: Session, client: Seq<Operation>)
    requires
        s.valid(client),
        s.grounded(client),
    ensures
        s.advance().grounded(client),
{
    if !s.finished() {
        let next = s.advance();
        let popped = s.stack.drop_last();
        if popped.len() > 0 {
            assert(popped[0] == s.stack[0]);
        }
        lemma_top(s, client);
        if s.stack.last().end >= s.synced_end && !s.matching() {
            let (stack, end) = s.absorbing();
            lemma_absorbing(s, client);
            lemma_absorbing_grounded(s, client);
            if s.descending() {
                law_subdivided(s.start(), end, s.max_digests, s.min_operations);
                let ranges = subdivided(s.start(), end, s.max_digests, s.min_operations);
                if stack.len() > 0 {
                    assert(next.stack[0] == stack[0]);
                } else {
                    assert(next.stack[0] == ranges[ranges.len() - 1]);
                }
            } else {
                lemma_fetch_numbers(s, client);
            }
        }
    }
}

} // verus!
