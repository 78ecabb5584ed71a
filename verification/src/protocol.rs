//! The course of a synchronization, as the contracts see it: the states that it goes through and
//! what it leaves behind.
//!
//! A session walks over the positions of the history that client and server have in common. Up to
//! `synced_end` the client has that history already. The client's own operations follow from that
//! position on, and so do the digests of what the server has from `server_end` on. A stack holds
//! the ranges of positions that are still to be compared, the next one on top.
use crate::digest::{combined, digest_of, reach, reach_from, spliced, touched, Digest};
use crate::history::{clip, same_ids, upsert_all};
use crate::ids::OperationId;
use crate::messages::Operation;
use crate::subdivision::subdivided;
use crate::sync::{requested, SyncStats};
use std::ops::Range;
use vstd::prelude::*;

verus! {

/// The larger of two positions.
pub open spec fn further(a: int, b: int) -> int {
    if a < b {
        b
    } else {
        a
    }
}

/// A state of a synchronization.
pub struct Session {
    /// What the client has.
    pub client: Seq<Operation>,
    /// What the server has.
    pub server: Seq<Operation>,
    /// Into how many subranges a range is subdivided at most.
    pub max_digests: int,
    /// How many positions a subrange has at least.
    pub min_operations: int,
    /// What the client knows of the server.
    pub digests: Seq<Digest>,
    /// The ranges that are still to be compared.
    pub stack: Seq<Range<usize>>,
    /// What the server was found not to have.
    pub missed: Seq<Operation>,
    /// How many of the server's operations are accounted for.
    pub server_end: int,
    /// Up to which position the two are brought together.
    pub synced_end: int,
    /// How often the client has asked.
    pub roundtrips: nat,
    /// How many operations have come from the server.
    pub server_operations: nat,
}

/// The first state: the client has asked for digests of all that the server has.
pub open spec fn sync_start(
    client: Seq<Operation>,
    server: Seq<Operation>,
    max_digests: int,
    min_operations: int,
) -> Session {
    Session {
        client,
        server,
        max_digests,
        min_operations,
        digests: requested(server, 0, usize::MAX as int, max_digests, min_operations),
        stack: subdivided(
            0,
            (client.len() + server.len()) as int,
            max_digests,
            min_operations,
        ).reverse(),
        missed: Seq::empty(),
        server_end: 0,
        synced_end: 0,
        roundtrips: 1,
        server_operations: 0,
    }
}

/// Whether names of the client from `first` to `next` can lie among those that the digests from
/// `start` to `end` stand for.
pub open spec fn intersects(
    digests: Seq<Digest>,
    start: int,
    end: int,
    first: OperationId,
    next: OperationId,
) -> bool {
    &&& first.before(combined(digests.take(reach_from(digests, start, end))).max_op_id)
    &&& combined(digests.take(reach(digests, start))).max_op_id.before(next)
}

/// Where a range ends once it covers all of the digests that it touches.
pub open spec fn widened(digests: Seq<Digest>, start: int, end: int) -> int {
    further(start + combined(touched(digests, start, end)).count, end)
}

/// Takes ranges off the stack and into the one from `start` to `end`, as long as none of the names
/// of the client from `first` to `next` can lie among the server's there.
pub open spec fn absorbed(
    digests: Seq<Digest>,
    stack: Seq<Range<usize>>,
    start: int,
    end: int,
    first: OperationId,
    next: OperationId,
) -> (Seq<Range<usize>>, int)
    decreases stack.len(),
{
    if stack.len() == 0 || intersects(
        digests,
        start,
        further(end, stack.last().end as int),
        first,
        next,
    ) {
        (stack, end)
    } else {
        absorbed(
            digests,
            stack.drop_last(),
            start,
            widened(digests, start, further(end, stack.last().end as int)),
            first,
            next,
        )
    }
}

/// A state of the merge of operations that the client has with some that came from the server.
pub struct Merge {
    /// How many of the client's are merged.
    pub from_client: int,
    /// How many of the server's are merged.
    pub from_server: int,
    /// What is merged.
    pub merged: Seq<Operation>,
    /// What the client did not have.
    pub gained: Seq<Operation>,
    /// What the server did not have.
    pub missed: Seq<Operation>,
    /// What the client knows of the server.
    pub digests: Seq<Digest>,
}

/// The next state of a merge that began at `position`: the operation with the lesser name is
/// taken, or both if they have the same name.
pub open spec fn merge_next(
    m: Merge,
    client: Seq<Operation>,
    server: Seq<Operation>,
    position: int,
) -> Merge {
    let c = client[m.from_client];
    let s = server[m.from_server];
    let here = position + m.merged.len();
    if m.from_client < client.len() && (m.from_server >= server.len() || c.id().before(s.id())) {
        Merge {
            from_client: m.from_client + 1,
            merged: m.merged.push(c),
            missed: m.missed.push(c),
            digests: spliced(m.digests, here, here, seq![Digest::of(c)]),
            ..m
        }
    } else if m.from_server < server.len() && (m.from_client >= client.len() || s.id().before(
        c.id(),
    )) {
        Merge {
            from_server: m.from_server + 1,
            merged: m.merged.push(s),
            gained: m.gained.push(s),
            ..m
        }
    } else if m.from_client < client.len() {
        Merge {
            from_client: m.from_client + 1,
            from_server: m.from_server + 1,
            merged: m.merged.push(c),
            ..m
        }
    } else {
        m
    }
}

/// The merge after at most `steps` positions.
pub open spec fn merge_after(
    client: Seq<Operation>,
    server: Seq<Operation>,
    position: int,
    digests: Seq<Digest>,
    steps: nat,
) -> Merge
    decreases steps,
{
    if steps == 0 {
        Merge {
            from_client: 0,
            from_server: 0,
            merged: Seq::empty(),
            gained: Seq::empty(),
            missed: Seq::empty(),
            digests,
        }
    } else {
        merge_next(
            merge_after(client, server, position, digests, (steps - 1) as nat),
            client,
            server,
            position,
        )
    }
}

impl Session {
    /// Where the range on top of the stack begins, without what is brought together already.
    pub open spec fn start(self) -> int {
        further(self.stack.last().start as int, self.synced_end)
    }

    /// Nothing is left to compare, or one of the two has nothing left to compare with.
    pub open spec fn finished(self) -> bool {
        ||| self.stack.len() == 0
        ||| self.start() >= self.client.len()
        ||| self.server_end >= self.server.len()
    }

    /// The digest of what the server has in the range on top of the stack.
    pub open spec fn server_digest(self) -> Digest {
        combined(touched(self.digests, self.start(), self.stack.last().end as int))
    }

    /// Where the range on top of the stack ends once it covers that digest.
    pub open spec fn end(self) -> int {
        widened(self.digests, self.start(), self.stack.last().end as int)
    }

    /// Client and server have the same names in the range on top of the stack, as far as digests
    /// tell.
    pub open spec fn matching(self) -> bool {
        digest_of(clip(self.client, self.start(), self.end())) == self.server_digest()
    }

    /// The digests match, but what they stand for has other names on the one side than on the
    /// other.
    pub open spec fn deceived(self) -> bool {
        &&& !self.finished()
        &&& self.stack.last().end >= self.synced_end
        &&& self.matching()
        &&& !same_ids(
            clip(self.client, self.start(), self.end()),
            clip(
                self.server,
                self.server_end,
                self.server_end + self.server_digest().count,
            ),
        )
    }

    /// The name of the client's first operation in the range.
    pub open spec fn first(self) -> OperationId {
        self.client[self.start()].id()
    }

    /// The name of the client's operation after that one, or that one if it is the last.
    pub open spec fn next(self) -> OperationId {
        if self.start() + 1 < self.client.len() {
            self.client[self.start() + 1].id()
        } else {
            self.first()
        }
    }

    /// The stack without the range on top and those that are taken into it, and where it then
    /// ends.
    pub open spec fn absorbing(self) -> (Seq<Range<usize>>, int) {
        absorbed(
            self.digests,
            self.stack.drop_last(),
            self.start(),
            self.end(),
            self.first(),
            self.next(),
        )
    }

    /// How many positions the range then has.
    pub open spec fn len(self) -> int {
        self.absorbing().1 - self.start()
    }

    /// The range is to be compared in smaller pieces: it has more positions than are worth
    /// fetching, the client has names among the server's there, and subdividing makes the pieces
    /// smaller.
    pub open spec fn descending(self) -> bool {
        &&& self.len() > self.min_operations
        &&& intersects(
            self.digests,
            self.start(),
            self.stack.last().end as int,
            self.first(),
            self.next(),
        )
        &&& self.max_digests >= 2
        &&& self.len() >= 2
    }

    /// The state after the range was dropped, as it is brought together already.
    pub open spec fn drop_range(self) -> Session {
        Session { stack: self.stack.drop_last(), ..self }
    }

    /// The state after the range was found to match.
    pub open spec fn skip_range(self) -> Session {
        Session {
            stack: self.stack.drop_last(),
            synced_end: self.end(),
            server_end: self.server_end + self.server_digest().count,
            ..self
        }
    }

    /// The state after digests of smaller pieces of the range have come.
    pub open spec fn descend(self) -> Session {
        let (stack, end) = self.absorbing();
        Session {
            digests: spliced(
                self.digests,
                self.start(),
                end,
                requested(
                    self.server,
                    self.server_end,
                    self.server_end + self.len(),
                    self.max_digests,
                    self.min_operations,
                ),
            ),
            stack: stack + subdivided(
                self.start(),
                end,
                self.max_digests,
                self.min_operations,
            ).reverse(),
            roundtrips: self.roundtrips + 1,
            ..self
        }
    }

    /// What the server has in the range.
    pub open spec fn fetched(self) -> Seq<Operation> {
        clip(self.server, self.server_end, self.server_end + self.len())
    }

    /// What the client knows of the server once it has fetched that.
    pub open spec fn fetched_digests(self) -> Seq<Digest> {
        spliced(
            self.digests,
            self.start(),
            self.absorbing().1,
            self.fetched().map_values(|op: Operation| Digest::of(op)),
        )
    }

    /// The merge of what both have in the range after at most `steps` positions.
    pub open spec fn merging(self, steps: nat) -> Merge {
        merge_after(
            clip(self.client, self.start(), self.absorbing().1),
            self.fetched(),
            self.synced_end,
            self.fetched_digests(),
            steps,
        )
    }

    /// The state after the range was fetched and merged.
    pub open spec fn fetch(self) -> Session {
        let m = self.merging(self.len() as nat);
        Session {
            client: upsert_all(self.client, m.gained),
            digests: m.digests,
            stack: self.absorbing().0,
            missed: self.missed + m.missed,
            server_end: self.server_end + m.from_server,
            synced_end: self.synced_end + m.merged.len(),
            roundtrips: self.roundtrips + 1,
            server_operations: self.server_operations + self.fetched().len(),
            ..self
        }
    }

    /// The next state. A state in which the session is finished stays.
    pub open spec fn advance(self) -> Session {
        if self.finished() {
            self
        } else if self.stack.last().end < self.synced_end {
            self.drop_range()
        } else if self.matching() {
            self.skip_range()
        } else if self.descending() {
            self.descend()
        } else {
            self.fetch()
        }
    }

    /// The state after a number of steps.
    pub open spec fn after(self, steps: nat) -> Session
        decreases steps,
    {
        if steps == 0 {
            self
        } else {
            self.after((steps - 1) as nat).advance()
        }
    }

    /// No two digests that the session compares match by mere chance.
    pub open spec fn undeceived(self) -> bool {
        forall|steps: nat| !(#[trigger] self.after(steps)).deceived()
    }

    /// The state in which the session is finished.
    pub open spec fn outcome(self) -> Session {
        self.after(choose|steps: nat| (#[trigger] self.after(steps)).finished())
    }

    /// One of the two has operations past those that are brought together.
    pub open spec fn has_suffixes(self) -> bool {
        self.synced_end < self.client.len() || self.server_end < self.server.len()
    }

    /// What the server has past those operations.
    pub open spec fn server_suffix(self) -> Seq<Operation> {
        if self.has_suffixes() {
            clip(self.server, self.server_end, self.server.len() as int)
        } else {
            Seq::empty()
        }
    }

    /// What the client publishes in the end.
    pub open spec fn published(self) -> Seq<Operation> {
        if self.has_suffixes() {
            self.missed + clip(self.client, self.synced_end, self.client.len() as int)
        } else {
            self.missed
        }
    }

    /// What the client has in the end.
    pub open spec fn client_result(self) -> Seq<Operation> {
        if self.has_suffixes() {
            upsert_all(self.client, self.server_suffix())
        } else {
            self.client
        }
    }

    /// What the server has in the end.
    pub open spec fn server_result(self) -> Seq<Operation> {
        upsert_all(self.server, self.published())
    }

    /// These are the costs of the session, of which the last exchange is one round trip. A count
    /// of round trips that is too large for its type stays at the largest value.
    pub open spec fn costs(self, stats: SyncStats) -> bool {
        &&& stats.roundtrips == if self.roundtrips + 1 <= usize::MAX {
            self.roundtrips + 1
        } else {
            usize::MAX as nat
        }
        &&& stats.server_operations == self.server_operations + self.server_suffix().len()
        &&& stats.client_operations == self.published().len()
    }
}

} // verus!
