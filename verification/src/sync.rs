//! The protocols that bring a client and a server together.
use crate::convergence::{
    agree, comes_from, joins, keeps_ids, law_sync_converges, law_sync_ends, law_sync_loses_nothing,
    law_sync_of_equals_is_free, law_sync_publishes_what_is_lacking, law_told_apart_is_undeceived,
    lemma_outcome, prefixes_told_apart, told_apart,
};
use crate::digest::{
    digest_of, law_digest_counts_and_names, law_digest_of_adjoining, lemma_digest_count, spliced,
    Digest, DigestSequence,
};
use crate::history::{clip, law_clip, same_ids, sorted, upsert_all};
use crate::ids::OperationId;
use crate::merging::lemma_merge_exhausted;
use crate::messages::{Operation, PublishOperations};
use crate::prefixes::{
    law_prefix_exchange_converges, law_prefix_exchange_of_equals_is_free, law_probed,
    law_shared_prefix, lemma_leading_above, prefix_digests, probed, shared_prefix,
};
use crate::progress::{
    describes_from, law_requested_pieces, lemma_absorbing, lemma_advance, lemma_descend,
    lemma_fetch_counts, lemma_merging, lemma_start_valid, lemma_top, lemma_touched,
};
use crate::protocol::{absorbed, merge_next, sync_start, Session};
use crate::sequence::{Dimension, Item, KeyedItem, Sequence, Summary};
use crate::subdivision::{
    ceil_div, chunks, law_subdivided_fairly, lemma_ceil_div, subdivided, subrange_len,
};
use std::ops::Range;
use vstd::prelude::*;

verus! {

/// Asks a server what it has past a prefix that it shares with the client.
#[derive(Debug)]
pub struct SyncRequest {
    /// Digests of prefixes of the client's operations, the one to try first in front.
    pub digests: Vec<Digest>,
}

/// What a server answers.
#[derive(Debug)]
pub struct SyncResponse {
    /// How many operations the prefix has that the two share.
    pub shared_prefix_end: usize,
    /// What the server has past that prefix.
    pub operations: Vec<Operation>,
}

/// What a synchronization cost.
#[derive(Clone, Copy, Debug, PartialEq, Eq, Structural)]
pub struct SyncStats {
    /// How often the client asked the server and waited for the answer.
    pub roundtrips: usize,
    /// How many operations came from the server.
    pub server_operations: usize,
    /// How many operations went to the server.
    pub client_operations: usize,
}

/// One end of a range of positions.
#[derive(Clone, Copy, Debug, PartialEq, Eq, Structural)]
pub enum Bound {
    Included(usize),
    Excluded(usize),
    Unbounded,
}

/// The first position of a range that starts with `bound`.
pub open spec fn range_start(bound: Bound) -> int {
    match bound {
        Bound::Included(start) => start as int,
        Bound::Excluded(start) => start + 1,
        Bound::Unbounded => 0,
    }
}

/// The position past the last one, in a range that ends with `bound` among `len` positions.
pub open spec fn range_end(bound: Bound, len: int) -> int {
    match bound {
        Bound::Included(end) => end + 1,
        Bound::Excluded(end) => end as int,
        Bound::Unbounded => len,
    }
}

/// The digests of a range of `ops`, subdivided.
pub open spec fn requested(
    ops: Seq<Operation>,
    start: int,
    end: int,
    count: int,
    min_operations: int,
) -> Seq<Digest> {
    subdivided(
        if start < ops.len() {
            start
        } else {
            ops.len() as int
        },
        if end < ops.len() {
            end
        } else {
            ops.len() as int
        },
        count,
        min_operations,
    ).map_values(
        |range: Range<usize>| digest_of(clip(ops, range.start as int, range.end as int)),
    )
}

/// Answers a client's request: finds the first of its digests that matches the server's own
/// prefix, and hands out what follows that prefix.
pub fn sync_server(operations: &mut Sequence, sync_request: SyncRequest) -> (response: SyncResponse)
    ensures
        final(operations)@ == old(operations)@,
        response.shared_prefix_end == shared_prefix(old(operations)@, sync_request.digests@),
        response.shared_prefix_end <= old(operations)@.len(),
        response.operations@ == old(operations)@.skip(response.shared_prefix_end as int),
        // It is the first digest that matches, over as many operations as that digest counts.
        forall|i: int|
            #![trigger sync_request.digests@[i]]
            ({
                let ops = old(operations)@;
                let digests = sync_request.digests@;
                &&& 0 <= i < digests.len()
                &&& digests[i].count <= ops.len()
                &&& digests[i] == digest_of(ops.take(digests[i].count as int))
                &&& forall|j: int|
                    #![trigger digests[j]]
                    0 <= j < i && digests[j].count <= ops.len() ==> digests[j] != digest_of(
                        ops.take(digests[j].count as int),
                    )
            }) ==> response.shared_prefix_end == sync_request.digests@[i].count,
        (forall|j: int|
            #![trigger sync_request.digests@[j]]
            0 <= j < sync_request.digests@.len() && sync_request.digests@[j].count
                <= old(operations)@.len() ==> sync_request.digests@[j] != digest_of(
                old(operations)@.take(sync_request.digests@[j].count as int),
            )) ==> response.shared_prefix_end == 0,
        sync_request.digests@.len() > 0 && sync_request.digests@[0] == digest_of(old(operations)@)
            ==> response.shared_prefix_end == old(operations)@.len(),
{
    let mut i: usize = 0;
    assert(sync_request.digests@.skip(0) =~= sync_request.digests@);
    while i < sync_request.digests.len()
        invariant
            i <= sync_request.digests@.len(),
            *operations == *old(operations),
            shared_prefix(operations@, sync_request.digests@) == shared_prefix(
                operations@,
                sync_request.digests@.skip(i as int),
            ),
        decreases sync_request.digests.len() - i,
    {
        let client_digest = sync_request.digests[i];
        let server_digest = digest_for_range(operations, 0..client_digest.count);
        proof {
            let rest = sync_request.digests@.skip(i as int);
            assert(rest[0] == client_digest);
            assert(rest.skip(1) =~= sync_request.digests@.skip(i + 1));
            lemma_digest_count(clip(operations@, 0, client_digest.count as int));
        }
        if server_digest == client_digest {
            let suffix = request_operations(
                operations,
                (Bound::Included(server_digest.count), Bound::Unbounded),
            );
            assert(suffix@ =~= operations@.skip(server_digest.count as int));
            proof {
                use_type_invariant(&*operations);
                law_shared_prefix(operations@, sync_request.digests@);
            }
            return SyncResponse { shared_prefix_end: server_digest.count, operations: suffix };
        }
        i = i + 1;
    }
    let all = request_operations(operations, (Bound::Unbounded, Bound::Unbounded));
    assert(all@ =~= operations@.skip(0));
    proof {
        use_type_invariant(&*operations);
        law_shared_prefix(operations@, sync_request.digests@);
    }
    SyncResponse { shared_prefix_end: 0, operations: all }
}

/// Takes over the operations that a client publishes.
pub fn publish_operations(server_operations: &mut Sequence, request: PublishOperations)
    ensures
        final(server_operations)@ == upsert_all(old(server_operations)@, request.operations@),
        sorted(final(server_operations)@),
{
    server_operations.edit(request.operations);
}

/// The request of a client: digests of ever shorter prefixes of what it has. The first prefix is
/// all that it has, and `shorter_lengths` are the lengths of the following ones.
pub fn prefix_request(
    operations: &Sequence,
    shorter_lengths: &Vec<usize>,
    min_digest_delta: usize,
    max_digest_count: usize,
) -> (request: SyncRequest)
    ensures
        request.digests@ == prefix_digests(
            operations@,
            probed(
                operations@.len() as int,
                shorter_lengths@,
                min_digest_delta,
                max_digest_count,
            ),
        ),
        // As many lengths are tried as may be, in order.
        ({
            let ops = operations@;
            let lens = seq![ops.len() as usize] + shorter_lengths@;
            let k = request.digests@.len() as int;
            &&& k <= max_digest_count
            &&& k <= lens.len()
            &&& k == max_digest_count || k == lens.len() || lens[k] <= min_digest_delta
            &&& forall|i: int|
                #![trigger request.digests@[i]]
                0 <= i < k ==> {
                    &&& lens[i] > min_digest_delta
                    &&& request.digests@[i] == digest_of(
                        ops.take(
                            if lens[i] < ops.len() {
                                lens[i] as int
                            } else {
                                ops.len() as int
                            },
                        ),
                    )
                }
            &&& max_digest_count > 0 && ops.len() > min_digest_delta ==> k > 0
                && request.digests@[0] == digest_of(ops)
        }),
{
    let operation_count: usize = operations.summary().digest.count;
    let ghost lens = seq![operation_count] + shorter_lengths@;
    let mut n: usize = operation_count;
    let mut digests: Vec<Digest> = Vec::new();
    while digests.len() < max_digest_count && n > min_digest_delta
        invariant_except_break
            digests@.len() < lens.len(),
            n == lens[digests@.len() as int],
        invariant
            lens == seq![operation_count] + shorter_lengths@,
            digests@.len() <= lens.len(),
            digests@.len() <= max_digest_count,
            forall|j: int|
                #![trigger lens[j]]
                0 <= j < digests@.len() ==> lens[j] > min_digest_delta,
            forall|j: int|
                #![trigger digests@[j]]
                0 <= j < digests@.len() ==> digests@[j] == digest_of(
                    clip(operations@, 0, lens[j] as int),
                ),
        ensures
            digests@.len() == max_digest_count || digests@.len() == lens.len()
                || lens[digests@.len() as int] <= min_digest_delta,
        decreases max_digest_count - digests@.len(),
    {
        digests.push(digest_for_range(operations, 0..n));
        if digests.len() > shorter_lengths.len() {
            break ;
        }
        n = shorter_lengths[digests.len() - 1];
    }
    proof {
        lemma_leading_above(lens, min_digest_delta, digests@.len() as int);
        law_probed(operations@, shorter_lengths@, min_digest_delta, max_digest_count);
        assert(digests@ =~= prefix_digests(
            operations@,
            probed(
                operations@.len() as int,
                shorter_lengths@,
                min_digest_delta,
                max_digest_count,
            ),
        ));
    }
    SyncRequest { digests }
}

/// Brings client and server to the same names with one request, and to the same operations where the
/// two agree on what the names stand for: the client sends digests of
/// ever shorter prefixes of what it has, the server answers with what it has past the first of them
/// that it shares, and the client publishes what it has past it.
///
/// The first prefix is all that the client has; `shorter_lengths` are the lengths of the following
/// ones. No prefix is tried that is not longer than `min_digest_delta`, and no more than
/// `max_digest_count` of them are.
pub fn sync_client(
    client_operations: &mut Sequence,
    server_operations: &mut Sequence,
    min_digest_delta: usize,
    max_digest_count: usize,
    shorter_lengths: &Vec<usize>,
) -> (stats: SyncStats)
    ensures
        ({
            let client = old(client_operations)@;
            let server = old(server_operations)@;
            let lens = probed(
                client.len() as int,
                shorter_lengths@,
                min_digest_delta,
                max_digest_count,
            );
            let shared = shared_prefix(server, prefix_digests(client, lens));
            &&& 0 <= shared <= client.len()
            &&& shared <= server.len()
            &&& final(client_operations)@ == upsert_all(client, server.skip(shared))
            &&& final(server_operations)@ == upsert_all(server, client.skip(shared))
            &&& stats.roundtrips == 1
            &&& stats.server_operations == server.len() - shared
            &&& stats.client_operations == client.len() - shared
            // The two hold the same names, unless different names had the same digest.
            &&& prefixes_told_apart(client, server) || same_ids(
                client.take(shared),
                server.take(shared),
            ) ==> {
                &&& joins(final(client_operations)@, client, server)
                &&& same_ids(final(client_operations)@, final(server_operations)@)
                &&& agree(client, server)
                    ==> final(client_operations)@ == final(server_operations)@
            }
            // Where the two hold the same names to begin with, nothing is sent.
            &&& same_ids(client, server) && max_digest_count > 0 && client.len()
                > min_digest_delta ==> {
                &&& stats.server_operations == 0
                &&& stats.client_operations == 0
                &&& final(client_operations)@ == client
                &&& final(server_operations)@ == server
            }
        }),
        // Nothing is lost or made up, whatever the digests are.
        sorted(final(client_operations)@),
        sorted(final(server_operations)@),
        keeps_ids(final(client_operations)@, old(client_operations)@),
        keeps_ids(final(server_operations)@, old(server_operations)@),
        comes_from(
            final(client_operations)@,
            old(client_operations)@,
            old(server_operations)@,
        ),
        comes_from(
            final(server_operations)@,
            old(server_operations)@,
            old(client_operations)@,
        ),
{
    let ghost client = client_operations@;
    let ghost server = server_operations@;
    let request = prefix_request(
        client_operations,
        shorter_lengths,
        min_digest_delta,
        max_digest_count,
    );
    let response = sync_server(server_operations, request);
    let ghost shared = response.shared_prefix_end as int;
    proof {
        use_type_invariant(&*client_operations);
        use_type_invariant(&*server_operations);
        law_prefix_exchange_converges(
            client,
            server,
            probed(client.len() as int, shorter_lengths@, min_digest_delta, max_digest_count),
        );
        if same_ids(client, server) && max_digest_count > 0 && client.len() > min_digest_delta {
            law_prefix_exchange_of_equals_is_free(
                client,
                server,
                shorter_lengths@,
                min_digest_delta,
                max_digest_count,
            );
        }
    }
    let client_suffix = request_operations(
        client_operations,
        (Bound::Included(response.shared_prefix_end), Bound::Unbounded),
    );
    assert(client_suffix@ =~= client.skip(shared));
    let stats = SyncStats {
        roundtrips: 1,
        server_operations: response.operations.len(),
        client_operations: client_suffix.len(),
    };
    client_operations.edit(response.operations);
    publish_operations(
        server_operations,
        PublishOperations { repo_id: Default::default(), operations: client_suffix },
    );
    stats
}

/// Where a synchronization stands.
struct Progress {
    server_digests: DigestSequence,
    stack: Vec<Range<usize>>,
    missed_server_ops: Vec<Operation>,
    server_end: usize,
    synced_end: usize,
    stats: SyncStats,
}

impl Progress {
    /// The session `s` is in this state.
    spec fn stands_for(self, s: Session) -> bool {
        &&& self.server_digests@ == s.digests
        &&& self.stack@ == s.stack
        &&& self.missed_server_ops@ == s.missed
        &&& self.server_end == s.server_end
        &&& self.synced_end == s.synced_end
        &&& self.stats.roundtrips == (if s.roundtrips <= usize::MAX {
            s.roundtrips
        } else {
            usize::MAX as nat
        })
        &&& self.stats.server_operations == s.server_operations
    }
}

/// Takes ranges off the stack and into the one from `start` to `end`, as long as no name of the
/// client from `first` to `next` can lie among the server's there. Returns where the range then
/// ends.
fn absorb_ranges(
    stack: &mut Vec<Range<usize>>,
    server_digests: &DigestSequence,
    start: usize,
    end: usize,
    first: OperationId,
    next: OperationId,
    Ghost(rest): Ghost<Seq<Operation>>,
    Ghost(positions): Ghost<int>,
) -> (wide: usize)
    requires
        describes_from(server_digests@, start as int, rest),
        start + rest.len() <= positions <= usize::MAX,
        start <= end <= positions,
        forall|i: int|
            #![trigger old(stack)@[i]]
            0 <= i < old(stack)@.len() ==> old(stack)@[i].start <= old(stack)@[i].end <= positions,
    ensures
        (final(stack)@, wide as int) == absorbed(
            server_digests@,
            old(stack)@,
            start as int,
            end as int,
            first,
            next,
        ),
{
    let mut wide: usize = end;
    let ghost before = old(stack)@;
    loop
        invariant
            describes_from(server_digests@, start as int, rest),
            start + rest.len() <= positions <= usize::MAX,
            start <= wide <= positions,
            forall|i: int|
                #![trigger stack@[i]]
                0 <= i < stack@.len() ==> stack@[i].start <= stack@[i].end <= positions,
            absorbed(server_digests@, stack@, start as int, wide as int, first, next) == absorbed(
                server_digests@,
                before,
                start as int,
                end as int,
                first,
                next,
            ),
        ensures
            (stack@, wide as int) == absorbed(
                server_digests@,
                before,
                start as int,
                end as int,
                first,
                next,
            ),
        decreases stack@.len(),
    {
        let height: usize = stack.len();
        if height == 0 {
            break ;
        }
        let next_end: usize = stack[height - 1].end;
        let max_end: usize = if wide < next_end {
            next_end
        } else {
            wide
        };
        let (op_range, digest) = server_digests.digest(start..max_end);
        if first.is_before(&op_range.end) && op_range.start.is_before(&next) {
            break ;
        }
        proof {
            lemma_touched(server_digests@, start as int, rest, max_end as int);
        }
        wide = if start + digest.count < max_end {
            max_end
        } else {
            start + digest.count
        };
        let ghost taller = stack@;
        stack.pop();
        assert(stack@ =~= taller.drop_last());
        assert forall|i: int| #![trigger stack@[i]] 0 <= i < stack@.len() implies stack@[i].start
            <= stack@[i].end <= positions by {
            assert(stack@[i] == taller[i]);
        }
    }
    wide
}

/// Merges what the client has in a range, `window`, with what was `fetched` from the server. The
/// merge goes on for the `len` positions of the range. Returns what the client does not have, how
/// many of the server's operations were merged, and how many positions.
fn merge_range(
    progress: &mut Progress,
    window: &Vec<&Operation>,
    fetched: &Vec<Operation>,
    len: usize,
    Ghost(s): Ghost<Session>,
    Ghost(client): Ghost<Seq<Operation>>,
) -> (result: (Vec<Operation>, usize, usize))
    requires
        s.valid(client),
        !s.finished(),
        s.stack.last().end >= s.synced_end,
        !s.matching(),
        len == s.len(),
        fetched@ == s.fetched(),
        window@.len() == clip(s.client, s.start(), s.absorbing().1).len(),
        forall|i: int|
            #![trigger window@[i]]
            0 <= i < window@.len() ==> *window@[i] == clip(
                s.client,
                s.start(),
                s.absorbing().1,
            )[i],
        old(progress).server_digests@ == s.fetched_digests(),
        old(progress).missed_server_ops@ == s.missed,
        old(progress).synced_end == s.synced_end,
    ensures
        result.0@ == s.merging(s.len() as nat).gained,
        result.1 == s.merging(s.len() as nat).from_server,
        result.2 == s.merging(s.len() as nat).merged.len(),
        final(progress).server_digests@ == s.merging(s.len() as nat).digests,
        final(progress).missed_server_ops@ == s.missed + s.merging(s.len() as nat).missed,
        final(progress).stack == old(progress).stack,
        final(progress).server_end == old(progress).server_end,
        final(progress).synced_end == old(progress).synced_end,
        final(progress).stats == old(progress).stats,
{
    let ghost mine = clip(s.client, s.start(), s.absorbing().1);
    let mut gained: Vec<Operation> = Vec::new();
    let mut from_client: usize = 0;
    let mut from_server: usize = 0;
    let mut steps: usize = 0;
    assert(progress.missed_server_ops@ =~= s.missed + s.merging(0).missed);
    while steps < len && (from_client < window.len() || from_server < fetched.len())
        invariant
            s.valid(client),
            !s.finished(),
            s.stack.last().end >= s.synced_end,
            !s.matching(),
            steps <= len == s.len(),
            fetched@ == s.fetched(),
            mine == clip(s.client, s.start(), s.absorbing().1),
            window@.len() == mine.len(),
            forall|i: int| #![trigger window@[i]] 0 <= i < window@.len() ==> *window@[i] == mine[i],
            gained@ == s.merging(steps as nat).gained,
            from_client == s.merging(steps as nat).from_client,
            from_server == s.merging(steps as nat).from_server,
            steps == s.merging(steps as nat).merged.len(),
            progress.server_digests@ == s.merging(steps as nat).digests,
            progress.missed_server_ops@ == s.missed + s.merging(steps as nat).missed,
            progress.stack == old(progress).stack,
            progress.server_end == old(progress).server_end,
            progress.synced_end == old(progress).synced_end == s.synced_end,
            progress.stats == old(progress).stats,
        decreases len - steps,
    {
        let ghost m = s.merging(steps as nat);
        let ghost after = s.merging((steps + 1) as nat);
        proof {
            lemma_merging(s, client, steps as nat);
            lemma_merging(s, client, (steps + 1) as nat);
            lemma_top(s, client);
            lemma_absorbing(s, client);
            assert(after == merge_next(m, mine, s.fetched(), s.synced_end));
        }
        let here: usize = progress.synced_end + steps;
        if from_client < window.len() && (from_server >= fetched.len()
            || window[from_client].id().is_before(&fetched[from_server].id())) {
            let operation = window[from_client];
            let mut one: Vec<Digest> = Vec::new();
            one.push(Digest::from(operation));
            assert(one@ =~= seq![Digest::of(*operation)]);
            progress.missed_server_ops.push(operation.clone());
            assert(progress.missed_server_ops@ =~= s.missed + after.missed);
            progress.server_digests.splice(here..here, one);
            from_client = from_client + 1;
        } else if from_server < fetched.len() && (from_client >= window.len()
            || fetched[from_server].id().is_before(&window[from_client].id())) {
            gained.push(fetched[from_server].clone());
            from_server = from_server + 1;
        } else {
            from_client = from_client + 1;
            from_server = from_server + 1;
        }
        steps = steps + 1;
    }
    proof {
        if steps < len {
            lemma_merge_exhausted(
                mine,
                s.fetched(),
                s.synced_end,
                s.fetched_digests(),
                steps as nat,
                (len - steps) as nat,
            );
        }
    }
    (gained, from_server, steps)
}

/// Asks the server for digests of smaller pieces of the range from `synced_end` to `end`, and puts
/// the pieces on the stack.
fn descend_range(
    progress: &mut Progress,
    server: &Sequence,
    end: usize,
    max_digests: usize,
    min_operations: usize,
    Ghost(s): Ghost<Session>,
    Ghost(client): Ghost<Seq<Operation>>,
)
    requires
        s.valid(client),
        !s.finished(),
        s.stack.last().end >= s.synced_end,
        !s.matching(),
        s.descending(),
        server@ == s.server,
        max_digests == s.max_digests,
        min_operations == s.min_operations,
        end == s.absorbing().1,
        old(progress).stands_for((Session { stack: s.absorbing().0, ..s })),
    ensures
        final(progress).stands_for(s.descend()),
{
    let start: usize = progress.synced_end;
    proof {
        lemma_top(s, client);
        lemma_absorbing(s, client);
        lemma_descend(s, client);
    }
    progress.stats.roundtrips = progress.stats.roundtrips.saturating_add(1);
    let server_end: usize = progress.server_end;
    let digests = request_digests(
        server,
        server_end..server_end + (end - start),
        max_digests,
        min_operations,
    );
    progress.server_digests.splice(start..end, digests);
    let ranges = subdivide_range(start..end, max_digests, min_operations);
    let ghost below = progress.stack@;
    let mut i: usize = ranges.len();
    assert(progress.stack@ =~= below + ranges@.skip(i as int).reverse());
    while i > 0
        invariant
            i <= ranges@.len(),
            progress.stack@ == below + ranges@.skip(i as int).reverse(),
            progress.server_digests@ == s.descend().digests,
            progress.missed_server_ops@ == s.missed,
            progress.server_end == s.server_end,
            progress.synced_end == s.synced_end,
            progress.stats.roundtrips == (if s.roundtrips + 1 <= usize::MAX {
                s.roundtrips + 1
            } else {
                usize::MAX as nat
            }),
            progress.stats.server_operations == s.server_operations,
        decreases i,
    {
        i = i - 1;
        progress.stack.push(ranges[i].start..ranges[i].end);
        assert(progress.stack@ =~= below + ranges@.skip(i as int).reverse());
    }
    assert(ranges@.skip(0) =~= ranges@);
}

/// The digests of single operations.
fn digest_each(operations: &Vec<Operation>) -> (digests: Vec<Digest>)
    ensures
        digests@ == operations@.map_values(|op: Operation| Digest::of(op)),
{
    let mut digests: Vec<Digest> = Vec::new();
    let mut i: usize = 0;
    while i < operations.len()
        invariant
            i <= operations@.len(),
            digests@.len() == i,
            forall|j: int|
                #![trigger digests@[j]]
                0 <= j < i ==> digests@[j] == Digest::of(operations@[j]),
        decreases operations.len() - i,
    {
        digests.push(Digest::from(&operations[i]));
        i = i + 1;
    }
    assert(digests@ =~= operations@.map_values(|op: Operation| Digest::of(op)));
    digests
}

/// Fetches what the server has in the range from `synced_end` to `end`, and merges it with what the
/// client has there.
fn fetch_range(
    progress: &mut Progress,
    client: &mut Sequence,
    server: &Sequence,
    end: usize,
    Ghost(s): Ghost<Session>,
    Ghost(first_client): Ghost<Seq<Operation>>,
)
    requires
        s.valid(first_client),
        !s.finished(),
        s.stack.last().end >= s.synced_end,
        !s.matching(),
        old(client)@ == s.client,
        server@ == s.server,
        end == s.absorbing().1,
        old(progress).stands_for((Session { stack: s.absorbing().0, ..s })),
    ensures
        final(progress).stands_for(s.fetch()),
        final(client)@ == s.fetch().client,
{
    let start: usize = progress.synced_end;
    proof {
        lemma_fetch_counts(s, first_client);
    }
    let len: usize = end - start;
    progress.stats.roundtrips = progress.stats.roundtrips.saturating_add(1);
    let server_end: usize = progress.server_end;
    let fetched = request_operations(
        server,
        (Bound::Included(server_end), Bound::Excluded(server_end + len)),
    );
    let digests = digest_each(&fetched);
    progress.server_digests.splice(start..end, digests);
    let window = operations_for_range(client, (Bound::Included(start), Bound::Excluded(end)));
    let (gained, from_server, merged) = merge_range(
        progress,
        &window,
        &fetched,
        len,
        Ghost(s),
        Ghost(first_client),
    );
    client.edit(gained);
    progress.stats.server_operations = progress.stats.server_operations + fetched.len();
    progress.server_end = progress.server_end + from_server;
    progress.synced_end = progress.synced_end + merged;
}

/// Takes the range on top of the stack: skips it if the digests match, else compares it in smaller
/// pieces or fetches it.
fn compare_range(
    progress: &mut Progress,
    client: &mut Sequence,
    server: &Sequence,
    max_digests: usize,
    min_operations: usize,
    Ghost(s): Ghost<Session>,
    Ghost(first_client): Ghost<Seq<Operation>>,
)
    requires
        s.valid(first_client),
        !s.finished(),
        s.stack.last().end >= s.synced_end,
        old(client)@ == s.client,
        server@ == s.server,
        max_digests == s.max_digests,
        min_operations == s.min_operations,
        old(progress).stands_for(s),
    ensures
        final(progress).stands_for(s.advance()),
        final(client)@ == s.advance().client,
{
    let start: usize = progress.synced_end;
    let height: usize = progress.stack.len();
    let top: usize = progress.stack[height - 1].end;
    proof {
        lemma_top(s, first_client);
        lemma_touched(s.digests, s.synced_end, s.rest(), top as int);
    }
    progress.stack.pop();
    assert(progress.stack@ =~= s.stack.drop_last());
    let (op_range, server_digest) = progress.server_digests.digest(start..top);
    let end: usize = if start + server_digest.count < top {
        top
    } else {
        start + server_digest.count
    };
    let client_digest = digest_for_range(client, start..end);
    if client_digest == server_digest {
        progress.synced_end = end;
        progress.server_end = progress.server_end + server_digest.count;
    } else {
        let mut cursor = client.cursor();
        cursor.seek(start);
        let first = match cursor.item() {
            Some(operation) => operation.id(),
            None => OperationId::default(),
        };
        cursor.next();
        let next = match cursor.item() {
            Some(operation) => operation.id(),
            None => first,
        };
        let recurse = first.is_before(&op_range.end) && op_range.start.is_before(&next);
        let ghost positions = (first_client.len() + s.server.len()) as int;
        assert forall|i: int|
            #![trigger progress.stack@[i]]
            0 <= i < progress.stack@.len() implies progress.stack@[i].start
            <= progress.stack@[i].end <= positions by {
            assert(progress.stack@[i] == s.stack[i]);
        }
        let wide = absorb_ranges(
            &mut progress.stack,
            &progress.server_digests,
            start,
            end,
            first,
            next,
            Ghost(s.rest()),
            Ghost(positions),
        );
        proof {
            lemma_absorbing(s, first_client);
        }
        let len: usize = wide - start;
        if len > min_operations && recurse && max_digests >= 2 && len >= 2 {
            descend_range(
                progress,
                server,
                wide,
                max_digests,
                min_operations,
                Ghost(s),
                Ghost(first_client),
            );
        } else {
            fetch_range(progress, client, server, wide, Ghost(s), Ghost(first_client));
        }
    }
}

/// Brings client and server to the same names, and to the same operations where the two agree on what
/// the names stand for.
///
/// The client compares digests of ranges of positions with the server's. It skips a range in which
/// they match, and asks for digests of smaller ranges where they do not. What the server has in a
/// range that is not worth subdividing it fetches and merges with what it has itself. In the end
/// the two exchange what they have past the last range, and the client publishes what it found the
/// server not to have.
///
/// A range is subdivided into at most `max_digests` subranges of at least `min_operations`
/// positions. A range that does not become smaller that way is fetched. Whether it is worth
/// subdividing depends on the names of the client's first two operations there; where the client has
/// only one left, that one counts for both.
pub fn sync(
    client: &mut Sequence,
    server: &mut Sequence,
    max_digests: usize,
    min_operations: usize,
) -> (stats: SyncStats)
    requires
        max_digests > 0,
        old(client)@.len() + old(server)@.len() <= usize::MAX,
    ensures
        ({
            let start = sync_start(
                old(client)@,
                old(server)@,
                max_digests as int,
                min_operations as int,
            );
            let end = start.outcome();
            // What is left behind, and what it cost, to the last detail.
            &&& final(client)@ == end.client_result()
            &&& final(server)@ == end.server_result()
            &&& end.costs(stats)
            // The two hold the same names, unless different names had the same digest.
            &&& told_apart(old(client)@, old(server)@) || start.undeceived() ==> {
                &&& joins(final(client)@, old(client)@, old(server)@)
                &&& same_ids(final(client)@, final(server)@)
                &&& agree(old(client)@, old(server)@) ==> final(client)@ == final(server)@
                // What was published is what the server lacked.
                &&& stats.client_operations == final(server)@.len() - old(server)@.len()
            }
        }),
        // Where the two have the same names already, nothing changes and nothing is sent.
        same_ids(old(client)@, old(server)@) ==> {
            &&& final(client)@ == old(client)@
            &&& final(server)@ == old(server)@
            &&& stats == (SyncStats { roundtrips: 2, server_operations: 0, client_operations: 0 })
        },
        // Nothing is lost or made up, whatever the digests are.
        sorted(final(client)@),
        sorted(final(server)@),
        keeps_ids(final(client)@, old(client)@),
        keeps_ids(final(server)@, old(server)@),
        comes_from(final(client)@, old(client)@, old(server)@),
        comes_from(final(server)@, old(client)@, old(server)@),
        // What was gained was sent.
        final(client)@.len() <= old(client)@.len() + stats.server_operations,
        final(server)@.len() <= old(server)@.len() + stats.client_operations,
        stats.server_operations <= old(client)@.len() + old(server)@.len(),
        stats.client_operations <= old(client)@.len(),
        final(client)@.len() <= old(client)@.len() + old(server)@.len(),
        final(server)@.len() <= old(client)@.len() + old(server)@.len(),
        stats.roundtrips >= 2,
{
    let ghost first_client = client@;
    let ghost first_server = server@;
    let ghost max = max_digests as int;
    let ghost min = min_operations as int;
    let ghost start = sync_start(first_client, first_server, max, min);
    proof {
        use_type_invariant(&*client);
        use_type_invariant(&*server);
        law_sync_ends(first_client, first_server, max, min);
        law_sync_loses_nothing(first_client, first_server, max, min);
        if told_apart(first_client, first_server) {
            law_told_apart_is_undeceived(first_client, first_server, max, min);
        }
        if start.undeceived() {
            law_sync_converges(first_client, first_server, max, min);
            law_sync_publishes_what_is_lacking(first_client, first_server, max, min);
        }
        if same_ids(first_client, first_server) {
            law_sync_of_equals_is_free(first_client, first_server, max, min);
        }
    }
    let progress = compare_ranges(client, server, max_digests, min_operations);
    finish(progress, client, server, Ghost(start.outcome()), Ghost(first_client))
}

/// Goes through the ranges until there is nothing left to compare.
fn compare_ranges(
    client: &mut Sequence,
    server: &Sequence,
    max_digests: usize,
    min_operations: usize,
) -> (progress: Progress)
    requires
        max_digests > 0,
        old(client)@.len() + server@.len() <= usize::MAX,
    ensures
        progress.stands_for(
            sync_start(
                old(client)@,
                server@,
                max_digests as int,
                min_operations as int,
            ).outcome(),
        ),
        final(client)@ == sync_start(
            old(client)@,
            server@,
            max_digests as int,
            min_operations as int,
        ).outcome().client,
{
    let ghost first_client = client@;
    let ghost start = sync_start(
        first_client,
        server@,
        max_digests as int,
        min_operations as int,
    );
    proof {
        use_type_invariant(&*client);
        use_type_invariant(server);
        lemma_start_valid(first_client, server@, max_digests as int, min_operations as int);
    }
    let mut progress = begin(client, server, max_digests, min_operations);
    let server_operation_count: usize = server.summary().digest.count;
    let ghost mut s = start;
    let ghost mut steps: nat = 0;
    loop
        invariant
            s == start.after(steps),
            s.valid(first_client),
            s.max_digests == max_digests,
            s.min_operations == min_operations,
            progress.stands_for(s),
            client@ == s.client,
            server@ == s.server,
            server_operation_count == s.server.len(),
        ensures
            s.finished(),
        decreases
                s.remaining(),
                (if s.stale() {
                    1int
                } else {
                    0int
                }),
                s.effort(),
    {
        let height: usize = progress.stack.len();
        if height == 0 {
            break ;
        }
        let range_start: usize = progress.stack[height - 1].start;
        let range_end: usize = progress.stack[height - 1].end;
        let from: usize = if range_start < progress.synced_end {
            progress.synced_end
        } else {
            range_start
        };
        if from >= client.summary().digest.count || progress.server_end
            >= server_operation_count {
            break ;
        }
        proof {
            lemma_advance(s, first_client);
        }
        if range_end < progress.synced_end {
            progress.stack.pop();
            assert(progress.stack@ =~= s.stack.drop_last());
        } else {
            compare_range(
                &mut progress,
                client,
                server,
                max_digests,
                min_operations,
                Ghost(s),
                Ghost(first_client),
            );
        }
        proof {
            s = s.advance();
            steps = steps + 1;
        }
    }
    proof {
        lemma_outcome(start, steps);
    }
    progress
}

/// The first state: asks the server for digests of all that it has.
fn begin(
    client: &Sequence,
    server: &Sequence,
    max_digests: usize,
    min_operations: usize,
) -> (progress: Progress)
    requires
        max_digests > 0,
        client@.len() + server@.len() <= usize::MAX,
    ensures
        progress.stands_for(
            sync_start(client@, server@, max_digests as int, min_operations as int),
        ),
{
    proof {
        use_type_invariant(client);
        use_type_invariant(server);
        lemma_start_valid(client@, server@, max_digests as int, min_operations as int);
    }
    let digests = request_digests(server, 0..usize::MAX, max_digests, min_operations);
    let mut server_digests = DigestSequence::new();
    assert(spliced(Seq::empty(), 0, 0, digests@) =~= digests@);
    server_digests.splice(0..0, digests);
    let server_operation_count: usize = server_digests.operation_count();
    let mut stack = subdivide_range(
        0..client.summary().digest.count + server_operation_count,
        max_digests,
        min_operations,
    );
    reverse(&mut stack);
    Progress {
        server_digests,
        stack,
        missed_server_ops: Vec::new(),
        server_end: 0,
        synced_end: 0,
        stats: SyncStats { roundtrips: 1, server_operations: 0, client_operations: 0 },
    }
}

/// Exchanges what both have past what is brought together, and publishes what the server was found
/// not to have.
fn finish(
    progress: Progress,
    client: &mut Sequence,
    server: &mut Sequence,
    Ghost(s): Ghost<Session>,
    Ghost(first_client): Ghost<Seq<Operation>>,
) -> (stats: SyncStats)
    requires
        s.valid(first_client),
        progress.stands_for(s),
        old(client)@ == s.client,
        old(server)@ == s.server,
    ensures
        final(client)@ == s.client_result(),
        final(server)@ == s.server_result(),
        s.costs(stats),
{
    let server_operation_count: usize = server.summary().digest.count;
    let mut stats = progress.stats;
    stats.roundtrips = stats.roundtrips.saturating_add(1);
    let mut missed_server_ops = progress.missed_server_ops;
    if progress.synced_end < client.summary().digest.count || progress.server_end
        < server_operation_count {
        let mut client_suffix = request_operations(
            client,
            (Bound::Included(progress.synced_end), Bound::Unbounded),
        );
        missed_server_ops.append(&mut client_suffix);
        let server_suffix = request_operations(
            server,
            (Bound::Included(progress.server_end), Bound::Unbounded),
        );
        stats.server_operations = stats.server_operations + server_suffix.len();
        client.edit(server_suffix);
    }
    stats.client_operations = missed_server_ops.len();
    server.edit(missed_server_ops);
    stats
}

/// Turns a stack of ranges upside down.
fn reverse(ranges: &mut Vec<Range<usize>>)
    ensures
        final(ranges)@ == old(ranges)@.reverse(),
{
    let mut result: Vec<Range<usize>> = Vec::new();
    let mut i: usize = ranges.len();
    while i > 0
        invariant
            i <= ranges@.len(),
            ranges@ == old(ranges)@,
            result@ == ranges@.skip(i as int).reverse(),
        decreases i,
    {
        i = i - 1;
        result.push(ranges[i].start..ranges[i].end);
        assert(result@ =~= ranges@.skip(i as int).reverse());
    }
    assert(ranges@.skip(0) =~= ranges@);
    *ranges = result;
}

/// The digests of a range of positions, subdivided into at most `count` subranges of at least
/// `min_operations` positions, the last of which may be shorter.
pub fn request_digests(
    operations: &Sequence,
    root_range: Range<usize>,
    count: usize,
    min_operations: usize,
) -> (digests: Vec<Digest>)
    requires
        count > 0,
    ensures
        digests@ == requested(
            operations@,
            root_range.start as int,
            root_range.end as int,
            count as int,
            min_operations as int,
        ),
        // They stand for adjoining pieces, all but the last of one length, the least that will do.
        ({
            let ops = operations@;
            let start = root_range.start as int;
            let upto = if root_range.end < ops.len() {
                root_range.end as int
            } else {
                ops.len() as int
            };
            let n = upto - start;
            let len = digests@[0].count as int;
            let k = digests@.len() as int;
            &&& n <= 0 ==> k == 0
            &&& n > 0 ==> {
                &&& 1 <= k <= count
                &&& 1 <= len <= n
                &&& (k - 1) * len < n <= k * len
                &&& forall|i: int|
                    #![trigger digests@[i]]
                    0 <= i < k ==> digests@[i] == digest_of(
                        ops.subrange(
                            start + i * len,
                            if i + 1 < k {
                                start + (i + 1) * len
                            } else {
                                upto
                            },
                        ),
                    )
                &&& k == 1 <==> n <= min_operations || n == 1 || count == 1
                &&& k > 1 ==> {
                    &&& min_operations <= len
                    &&& n <= len * count
                    &&& len == min_operations || (len - 1) * count < n
                }
            }
        }),
{
    let operation_count: usize = operations.summary().digest.count;
    let start: usize = if root_range.start < operation_count {
        root_range.start
    } else {
        operation_count
    };
    let end: usize = if root_range.end < operation_count {
        root_range.end
    } else {
        operation_count
    };
    let ranges = subdivide_range(start..end, count, min_operations);
    let mut digests: Vec<Digest> = Vec::new();
    let mut i: usize = 0;
    while i < ranges.len()
        invariant
            i <= ranges@.len(),
            digests@.len() == i,
            forall|j: int|
                #![trigger digests@[j]]
                0 <= j < i ==> digests@[j] == digest_of(
                    clip(operations@, ranges@[j].start as int, ranges@[j].end as int),
                ),
        decreases ranges.len() - i,
    {
        digests.push(digest_for_range(operations, ranges[i].start..ranges[i].end));
        i = i + 1;
    }
    assert(digests@ =~= requested(
        operations@,
        root_range.start as int,
        root_range.end as int,
        count as int,
        min_operations as int,
    ));
    proof {
        law_requested_pieces(
            operations@,
            root_range.start as int,
            root_range.end as int,
            count as int,
            min_operations as int,
        );
    }
    digests
}

/// Subdivides a range into at most `count` subranges of at least `min_operations` positions, the
/// last of which may be shorter.
pub fn subdivide_range(root_range: Range<usize>, count: usize, min_operations: usize) -> (ranges:
    Vec<Range<usize>>)
    requires
        count > 0,
    ensures
        ranges@ == subdivided(
            root_range.start as int,
            root_range.end as int,
            count as int,
            min_operations as int,
        ),
        root_range.start >= root_range.end ==> ranges@.len() == 0,
        // They adjoin and are all but the last of one length, the least that will do.
        root_range.start < root_range.end ==> {
            let start = root_range.start as int;
            let end = root_range.end as int;
            let n = end - start;
            let len = ranges@[0].end - ranges@[0].start;
            let k = ranges@.len() as int;
            &&& 1 <= k <= count
            &&& 1 <= len <= n
            &&& (k - 1) * len < n <= k * len
            &&& forall|i: int|
                #![trigger ranges@[i]]
                0 <= i < k ==> {
                    &&& ranges@[i].start == start + i * len
                    &&& ranges@[i].end == if i + 1 < k {
                        start + (i + 1) * len
                    } else {
                        end
                    }
                }
            &&& k == 1 <==> n <= min_operations || n == 1 || count == 1
            &&& k > 1 ==> {
                &&& min_operations <= len
                &&& n <= len * count
                &&& len == min_operations || (len - 1) * count < n
            }
        },
{
    let mut ranges: Vec<Range<usize>> = Vec::new();
    if root_range.start >= root_range.end {
        return ranges;
    }
    let len: usize = root_range.end - root_range.start;
    proof {
        lemma_ceil_div(len as int, count as int);
    }
    let fair: usize = if len % count == 0 {
        len / count
    } else {
        len / count + 1
    };
    let subrange_len: usize = if min_operations < fair {
        fair
    } else {
        min_operations
    };
    let ghost start = root_range.start as int;
    let ghost end = root_range.end as int;
    let ghost expected = chunks(start, end, subrange_len as int);
    let mut subrange_start: usize = root_range.start;
    proof {
        lemma_ceil_div(len as int, subrange_len as int);
        assert(0 * subrange_len == 0) by (nonlinear_arith);
    }
    while subrange_start < root_range.end
        invariant
            start == root_range.start,
            end == root_range.end,
            start < end,
            len == end - start,
            subrange_len >= 1,
            expected == chunks(start, end, subrange_len as int),
            expected.len() == ceil_div(len as int, subrange_len as int),
            (expected.len() - 1) * subrange_len < len <= expected.len() * subrange_len,
            ranges@.len() <= expected.len(),
            ranges@ == expected.take(ranges@.len() as int),
            subrange_start == if start + ranges@.len() * subrange_len < end {
                start + ranges@.len() * subrange_len
            } else {
                end
            },
        decreases root_range.end - subrange_start,
    {
        let subrange_end: usize = if root_range.end - subrange_start <= subrange_len {
            root_range.end
        } else {
            subrange_start + subrange_len
        };
        let ghost k = ranges@.len() as int;
        proof {
            assert((k + 1) * subrange_len == k * subrange_len + subrange_len) by (nonlinear_arith);
            if k >= expected.len() {
                assert(expected.len() * subrange_len <= k * subrange_len) by (nonlinear_arith)
                    requires
                        expected.len() <= k,
                        subrange_len >= 1,
                ;
            }
        }
        ranges.push(subrange_start..subrange_end);
        assert(ranges@ =~= expected.take(ranges@.len() as int));
        subrange_start = subrange_end;
    }
    proof {
        let k = ranges@.len() as int;
        if k < expected.len() {
            assert(k * subrange_len <= (expected.len() - 1) * subrange_len) by (nonlinear_arith)
                requires
                    k <= expected.len() - 1,
                    subrange_len >= 1,
            ;
        }
        assert(expected.take(k) =~= expected);
        law_subdivided_fairly(start, end, count as int, min_operations as int);
    }
    ranges
}

/// The digest of what stands in a range of positions.
pub fn digest_for_range(operations: &Sequence, range: Range<usize>) -> (digest: Digest)
    ensures
        digest == digest_of(clip(operations@, range.start as int, range.end as int)),
        digest.count == clip(operations@, range.start as int, range.end as int).len(),
{
    let mut cursor = operations.cursor();
    cursor.seek(range.start);
    let digest = cursor.summary(range.end);
    proof {
        let ops = operations@;
        let from = if range.start < ops.len() {
            range.start as int
        } else {
            ops.len() as int
        };
        assert(clip(ops, from, range.end as int) =~= clip(
            ops,
            range.start as int,
            range.end as int,
        ));
        lemma_digest_count(clip(ops, range.start as int, range.end as int));
    }
    digest
}

/// The operations that stand in a range of positions, handed out as a server does.
pub fn request_operations(operations: &Sequence, range: (Bound, Bound)) -> (result: Vec<Operation>)
    ensures
        result@ == clip(
            operations@,
            range_start(range.0),
            range_end(range.1, operations@.len() as int),
        ),
        // What lies between the two bounds, in order.
        forall|i: int|
            #![trigger result@[i]]
            0 <= i < result@.len() ==> result@[i] == operations@[range_start(range.0) + i],
        result@.len() > 0 ==> range_start(range.0) + result@.len() <= operations@.len(),
        forall|position: int|
            #![trigger operations@[position]]
            0 <= position < operations@.len() ==> (range_start(range.0) <= position < range_start(
                range.0,
            ) + result@.len() <==> {
                &&& match range.0 {
                    Bound::Included(start) => start <= position,
                    Bound::Excluded(start) => start < position,
                    Bound::Unbounded => true,
                }
                &&& match range.1 {
                    Bound::Included(end) => position <= end,
                    Bound::Excluded(end) => position < end,
                    Bound::Unbounded => true,
                }
            }),
{
    let found = operations_for_range(operations, range);
    let mut result: Vec<Operation> = Vec::new();
    let mut i: usize = 0;
    while i < found.len()
        invariant
            i <= found@.len(),
            result@.len() == i,
            forall|j: int| #![trigger result@[j]] 0 <= j < i ==> result@[j] == *found@[j],
        decreases found.len() - i,
    {
        result.push(found[i].clone());
        i = i + 1;
    }
    assert(result@ =~= clip(
        operations@,
        range_start(range.0),
        range_end(range.1, operations@.len() as int),
    ));
    result
}

/// The operations that stand in a range of positions.
pub fn operations_for_range(operations: &Sequence, range: (Bound, Bound)) -> (result: Vec<
    &Operation,
>)
    ensures
        result@.len() == clip(
            operations@,
            range_start(range.0),
            range_end(range.1, operations@.len() as int),
        ).len(),
        forall|i: int|
            #![trigger result@[i]]
            0 <= i < result@.len() ==> *result@[i] == clip(
                operations@,
                range_start(range.0),
                range_end(range.1, operations@.len() as int),
            )[i],
        // What lies between the two bounds, in order.
        forall|i: int|
            #![trigger result@[i]]
            0 <= i < result@.len() ==> *result@[i] == operations@[range_start(range.0) + i],
        result@.len() > 0 ==> range_start(range.0) + result@.len() <= operations@.len(),
        forall|position: int|
            #![trigger operations@[position]]
            0 <= position < operations@.len() ==> (range_start(range.0) <= position < range_start(
                range.0,
            ) + result@.len() <==> {
                &&& match range.0 {
                    Bound::Included(start) => start <= position,
                    Bound::Excluded(start) => start < position,
                    Bound::Unbounded => true,
                }
                &&& match range.1 {
                    Bound::Included(end) => position <= end,
                    Bound::Excluded(end) => position < end,
                    Bound::Unbounded => true,
                }
            }),
{
    proof {
        law_clip(
            operations@,
            range_start(range.0),
            range_end(range.1, operations@.len() as int),
        );
    }
    let mut cursor = operations.cursor();
    let mut result: Vec<&Operation> = Vec::new();
    match range.0 {
        Bound::Included(start) => {
            cursor.seek(start);
        },
        Bound::Excluded(start) => {
            cursor.seek(start);
            if cursor.start() == start {
                cursor.next();
            }
        },
        Bound::Unbounded => {},
    }
    let ghost ops = operations@;
    let ghost upto = range_end(range.1, ops.len() as int);
    let ghost from = cursor.position();
    let ghost expected = clip(ops, range_start(range.0), upto);
    loop
        invariant
            ops == operations@,
            cursor.operations() == ops,
            upto == range_end(range.1, ops.len() as int),
            expected == clip(ops, from, upto),
            0 <= from <= cursor.position() <= ops.len(),
            result@.len() == cursor.position() - from,
            result@.len() <= expected.len(),
            forall|j: int| #![trigger result@[j]] 0 <= j < result@.len() ==> *result@[j]
                == expected[j],
        ensures
            result@.len() == expected.len(),
        decreases ops.len() - cursor.position(),
    {
        let inside = match range.1 {
            Bound::Included(end) => cursor.start() <= end,
            Bound::Excluded(end) => cursor.start() < end,
            Bound::Unbounded => true,
        };
        if !inside {
            break ;
        }
        match cursor.item() {
            Some(operation) => {
                result.push(operation);
                cursor.next();
            },
            None => {
                break ;
            },
        }
    }
    result
}

/// What sums up a stretch of operations: its digest.
#[derive(Clone, Copy, Debug)]
pub struct OperationSummary {
    pub digest: Digest,
}

impl Default for OperationSummary {
    fn default() -> (summary: Self)
        ensures
            summary.digest == Digest::empty(),
    {
        OperationSummary { digest: Default::default() }
    }
}

impl Item for Operation {
    type Summary = OperationSummary;

    fn summary(&self) -> (summary: Self::Summary)
        ensures
            summary.digest == Digest::of(*self),
    {
        OperationSummary { digest: Digest::from(self) }
    }
}

impl KeyedItem for Operation {
    type Key = OperationId;

    fn key(&self) -> (key: Self::Key)
        ensures
            key == self.id(),
    {
        self.id()
    }
}

impl Summary for OperationSummary {
    open spec fn joined(self, summary: Self) -> Self {
        OperationSummary { digest: self.digest.plus(summary.digest) }
    }

    open spec fn joinable(self, summary: Self) -> bool {
        self.digest.count + summary.digest.count <= usize::MAX
    }

    fn add_summary(&mut self, summary: &Self) {
        self.digest.add_summary(&summary.digest);
    }
}

impl Dimension<OperationSummary> for OperationId {
    open spec fn moved(self, summary: OperationSummary) -> Self {
        summary.digest.max_op_id
    }

    open spec fn movable(self, summary: OperationSummary) -> bool {
        true
    }

    fn add_summary(&mut self, summary: &OperationSummary) {
        *self = summary.digest.max_op_id;
    }
}

impl Dimension<OperationSummary> for usize {
    open spec fn moved(self, summary: OperationSummary) -> Self {
        (self + summary.digest.count) as usize
    }

    open spec fn movable(self, summary: OperationSummary) -> bool {
        self + summary.digest.count <= usize::MAX
    }

    fn add_summary(&mut self, summary: &OperationSummary) {
        *self = *self + summary.digest.count;
    }
}

impl Dimension<OperationSummary> for Digest {
    open spec fn moved(self, summary: OperationSummary) -> Self {
        self.plus(summary.digest)
    }

    open spec fn movable(self, summary: OperationSummary) -> bool {
        self.count + summary.digest.count <= usize::MAX
    }

    fn add_summary(&mut self, summary: &OperationSummary) {
        Digest::add_summary(self, &summary.digest);
    }
}

/// Moving over adjoining stretches one after the other comes out where moving over both at once
/// does: a count is then larger by their lengths, the digest of a stretch is that of all three, a
/// name is the last one passed, and a summary sums up both.
pub proof fn law_dimensions(a: Seq<Operation>, b: Seq<Operation>, count: usize, id: OperationId)
    requires
        a.len() + b.len() <= usize::MAX,
    ensures
        ({
            let first = OperationSummary { digest: digest_of(a) };
            let second = OperationSummary { digest: digest_of(b) };
            &&& count.movable(first) <==> count + a.len() <= usize::MAX
            &&& count.movable(first) ==> count.moved(first) == count + a.len()
            &&& digest_of(a).movable(second)
            &&& digest_of(a).moved(second) == digest_of(a + b)
            &&& first.joinable(second)
            &&& first.joined(second).digest == digest_of(a + b)
            &&& id.movable(first)
            &&& sorted(a) && a.len() > 0 ==> id.moved(first) == a.last().id()
        }),
{
    lemma_digest_count(a);
    lemma_digest_count(b);
    law_digest_of_adjoining(a, b);
    law_digest_counts_and_names(a);
}

} // verus!
