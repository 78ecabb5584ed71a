use crdb::digest::{Digest, DigestSequence};
use crdb::messages::{Operation, PublishOperations};
use crdb::operations::CreateBranch;
use crdb::sequence::{Dimension, Item, KeyedItem, Sequence, Summary};
use crdb::sync::{
    digest_for_range, operations_for_range, prefix_request, publish_operations, request_digests,
    request_operations, subdivide_range, sync, sync_client, sync_server, Bound, OperationSummary,
    SyncRequest, SyncStats,
};
use crdb::{OperationCount, OperationId, ReplicaId, RepoId};

fn operation_id(replica: u32, count: usize) -> OperationId {
    OperationId {
        replica_id: ReplicaId(replica),
        operation_count: OperationCount(count),
    }
}

fn build_operation(id: usize) -> Operation {
    Operation::CreateBranch(CreateBranch {
        id: OperationId {
            replica_id: Default::default(),
            operation_count: OperationCount(id),
        },
        parent: Default::default(),
        name: "".into(),
    })
}

fn build_operation2(replica_id: ReplicaId, id: usize) -> Operation {
    Operation::CreateBranch(CreateBranch {
        id: OperationId {
            replica_id,
            operation_count: OperationCount(id),
        },
        parent: Default::default(),
        name: "".into(),
    })
}

fn named(id: usize, name: &str) -> Operation {
    Operation::CreateBranch(CreateBranch {
        id: operation_id(0, id),
        parent: Default::default(),
        name: name.into(),
    })
}

fn name_of(operation: &Operation) -> String {
    match operation {
        Operation::CreateBranch(branch) => branch.name.clone(),
    }
}

fn sequence(ids: impl IntoIterator<Item = usize>) -> Sequence {
    Sequence::from_operations(ids.into_iter().map(build_operation).collect::<Vec<_>>())
}

fn ids(sequence: &Sequence) -> Vec<OperationId> {
    sequence.operations().iter().map(|op| op.id()).collect()
}

fn counts(operations: &[Operation]) -> Vec<usize> {
    operations.iter().map(|op| op.id().operation_count.0).collect()
}

fn digest_counts(digests: &[Digest]) -> Vec<usize> {
    digests.iter().map(|d| d.count).collect()
}

fn assert_sync(
    client_ops: impl IntoIterator<Item = usize>,
    server_ops: impl IntoIterator<Item = usize>,
) {
    let client_ops = client_ops.into_iter().map(build_operation).collect::<Vec<_>>();
    let server_ops = server_ops.into_iter().map(build_operation).collect::<Vec<_>>();

    for max_digests in 256..=256 {
        for min_operations in 256..=256 {
            let mut client_operations = Sequence::from_operations(client_ops.clone());
            let mut server_operations = Sequence::from_operations(server_ops.clone());
            sync(
                &mut client_operations,
                &mut server_operations,
                max_digests,
                min_operations,
            );
            assert_eq!(
                client_operations.operations().iter().map(|op| op.id()).collect::<Vec<_>>(),
                server_operations.operations().iter().map(|op| op.id()).collect::<Vec<_>>()
            );
        }
    }
}

#[test]
fn test_sync() {
    assert_sync(
        (1..=1500).chain(4000..=10000),
        (1..=1000).chain(4000..=11000),
    );
}

fn assert_union(client: &[usize], server: &[usize], max_digests: usize, min_operations: usize) {
    let mut union = client.to_vec();
    union.extend_from_slice(server);
    union.sort_unstable();
    union.dedup();
    let expected = union.iter().map(|id| operation_id(0, *id)).collect::<Vec<_>>();
    let mut client_ops = sequence(client.iter().copied());
    let mut server_ops = sequence(server.iter().copied());
    let stats = sync(&mut client_ops, &mut server_ops, max_digests, min_operations);
    assert_eq!(ids(&client_ops), expected);
    assert_eq!(ids(&server_ops), expected);
    assert!(stats.roundtrips >= 2);
    assert!(stats.server_operations >= union.len() - client.len());
    assert_eq!(stats.client_operations, union.len() - server.len());
    assert!(stats.server_operations <= client.len() + server.len());
}

#[test]
fn sync_joins_small_histories_with_all_parameters() {
    let cases: Vec<(Vec<usize>, Vec<usize>)> = vec![
        ((1..=15).collect(), (1..=5).chain(7..=15).collect()),
        ((1..=10).collect(), (5..=10).collect()),
        ((1..=10).collect(), (4..=10).collect()),
        ((1..=10).collect(), (1..=5).collect()),
        (vec![1, 3, 5, 7, 9], vec![2, 4, 6, 8, 10]),
        (vec![1, 2, 3, 4, 6, 7, 8, 9, 11, 12], vec![4, 5, 6, 10, 12]),
        ((1..=10).collect(), (5..=14).collect()),
        (vec![1], vec![2]),
        (vec![2], vec![1, 3]),
        (vec![], vec![1, 2, 3]),
        (vec![1, 2, 3], vec![]),
        (vec![], vec![]),
    ];
    for (client, server) in cases {
        for max_digests in 1..=9 {
            for min_operations in 0..=9 {
                assert_union(&client, &server, max_digests, min_operations);
                assert_union(&server, &client, max_digests, min_operations);
            }
        }
    }
}

#[test]
fn sync_joins_larger_histories() {
    let client = (1..=80).collect::<Vec<_>>();
    let server = (1..=70).chain(90..=100).collect::<Vec<_>>();
    let longer_client = (1..=1910).collect::<Vec<_>>();
    let longer_server = (1..=1900).chain(1910..=2000).collect::<Vec<_>>();
    for max_digests in [1, 2, 3, 8, 100] {
        for min_operations in [0, 1, 4, 50] {
            assert_union(&client, &server, max_digests, min_operations);
        }
    }
    assert_union(&longer_client, &longer_server, 16, 8);
    assert_union(&longer_client, &longer_server, 256, 256);
}

#[test]
fn sync_joins_every_pair_of_tiny_histories() {
    let subset = |mask: usize| (1..=5).filter(|i| mask >> i & 1 == 1).collect::<Vec<usize>>();
    for client in 0..32 {
        for server in 0..32 {
            for (max_digests, min_operations) in [(1, 0), (1, 1), (2, 0), (2, 1), (3, 2), (4, 1)] {
                assert_union(
                    &subset(client << 1),
                    &subset(server << 1),
                    max_digests,
                    min_operations,
                );
            }
        }
    }
}

#[test]
fn sync_joins_histories_that_part_at_random() {
    let mut state: u64 = 0x1234_5678_9abc_def1;
    let mut random = move |bound: u64| {
        state ^= state << 13;
        state ^= state >> 7;
        state ^= state << 17;
        state % bound
    };
    for _ in 0..60 {
        let mut client_ops = Sequence::new();
        let mut server_ops = Sequence::new();
        let mut connected = true;
        let mut ideal_client_ops = 0;
        let mut ideal_server_ops = 0;
        let max_digests = 1 + random(8) as usize;
        let min_operations = random(8) as usize;
        for ix in 1..=200 {
            if random(20) == 0 {
                connected = !connected;
                if connected {
                    let stats =
                        sync(&mut client_ops, &mut server_ops, max_digests, min_operations);
                    assert_eq!(ids(&client_ops), ids(&server_ops));
                    assert!(stats.server_operations >= ideal_server_ops);
                    assert_eq!(stats.client_operations, ideal_client_ops);
                    ideal_client_ops = 0;
                    ideal_server_ops = 0;
                }
            }
            if connected {
                let replica_id = ReplicaId(random(2) as u32);
                client_ops.insert_or_replace(build_operation2(replica_id, ix));
                server_ops.insert_or_replace(build_operation2(replica_id, ix));
            } else if random(3) != 0 {
                ideal_server_ops += 1;
                server_ops.insert_or_replace(build_operation2(ReplicaId(0), ix));
            } else {
                ideal_client_ops += 1;
                client_ops.insert_or_replace(build_operation2(ReplicaId(1), ix));
            }
        }
        sync(&mut client_ops, &mut server_ops, max_digests, min_operations);
        assert_eq!(ids(&client_ops), ids(&server_ops));
        assert_eq!(client_ops.operations().len(), 200);
    }
}

#[test]
fn sync_of_equals_is_free() {
    for n in [0, 1, 2, 7, 300] {
        for max_digests in [1, 2, 5, 64] {
            for min_operations in [0, 1, 10] {
                let mut client = sequence(1..=n);
                let mut server = sequence(1..=n);
                let stats = sync(&mut client, &mut server, max_digests, min_operations);
                assert_eq!(
                    stats,
                    SyncStats { roundtrips: 2, server_operations: 0, client_operations: 0 }
                );
                assert_eq!(ids(&client), ids(&sequence(1..=n)));
                assert_eq!(ids(&server), ids(&sequence(1..=n)));
            }
        }
    }
}

#[test]
fn second_sync_is_free() {
    let mut client = sequence((1..=20).chain(31..=50));
    let mut server = sequence((11..=40).step_by(2));
    sync(&mut client, &mut server, 4, 2);
    let joined = ids(&client);
    let stats = sync(&mut client, &mut server, 4, 2);
    assert_eq!(
        stats,
        SyncStats { roundtrips: 2, server_operations: 0, client_operations: 0 }
    );
    assert_eq!(ids(&client), joined);
    assert_eq!(ids(&server), joined);
}

#[test]
fn second_sync_is_free_with_other_parameters() {
    for (max_digests, min_operations) in [(1, 0), (2, 1), (7, 3), (100, 100)] {
        let mut client = sequence((1..=20).chain(31..=50));
        let mut server = sequence((11..=40).step_by(2));
        sync(&mut client, &mut server, 4, 2);
        let joined = ids(&client);
        let stats = sync(&mut client, &mut server, max_digests, min_operations);
        assert_eq!(
            stats,
            SyncStats { roundtrips: 2, server_operations: 0, client_operations: 0 }
        );
        assert_eq!(ids(&client), joined);
        assert_eq!(ids(&server), joined);
    }
}

#[test]
fn both_protocols_end_alike() {
    let client = || sequence((1..=12).chain([15, 19, 20]));
    let server = || sequence((1..=9).chain([11, 15, 16, 30]));
    let mut c1 = client();
    let mut s1 = server();
    sync(&mut c1, &mut s1, 3, 2);
    for shorter_lengths in [vec![], vec![9], vec![10, 8, 2], vec![1]] {
        let mut c2 = client();
        let mut s2 = server();
        sync_client(&mut c2, &mut s2, 1, 4, &shorter_lengths);
        assert_eq!(ids(&c2), ids(&c1));
        assert_eq!(ids(&s2), ids(&s1));
    }
}

#[test]
fn sync_costs_of_one_range() {
    // One range, which is fetched as a whole.
    let mut client = sequence([1, 2, 4]);
    let mut server = sequence([2, 3]);
    let stats = sync(&mut client, &mut server, 1, 0);
    assert_eq!(
        stats,
        SyncStats { roundtrips: 3, server_operations: 2, client_operations: 2 }
    );
    assert_eq!(ids(&client), ids(&sequence([1, 2, 3, 4])));
}

#[test]
fn sync_with_an_empty_side_exchanges_everything_at_once() {
    let mut client = sequence([]);
    let mut server = sequence(1..=9);
    assert_eq!(
        sync(&mut client, &mut server, 4, 1),
        SyncStats { roundtrips: 2, server_operations: 9, client_operations: 0 }
    );
    let mut client = sequence(1..=9);
    let mut server = sequence([]);
    assert_eq!(
        sync(&mut client, &mut server, 4, 1),
        SyncStats { roundtrips: 2, server_operations: 0, client_operations: 9 }
    );
    assert_eq!(ids(&server), ids(&client));
}

#[test]
fn sync_brings_what_operations_hold() {
    let mut client = Sequence::from_operations(vec![named(1, "one"), named(3, "three")]);
    let mut server = Sequence::from_operations(vec![named(2, "two"), named(3, "three")]);
    sync(&mut client, &mut server, 2, 1);
    for side in [&client, &server] {
        assert_eq!(
            side.operations().iter().map(name_of).collect::<Vec<_>>(),
            vec!["one", "two", "three"]
        );
    }
}

#[test]
fn sync_server_answers_with_what_follows_the_first_match() {
    let mut server = sequence(1..=6);
    let prefix = |n| digest_for_range(&sequence(1..=9), 0..n);
    let response = sync_server(
        &mut server,
        SyncRequest { digests: vec![prefix(9), prefix(4), prefix(2)] },
    );
    assert_eq!(response.shared_prefix_end, 4);
    assert_eq!(counts(&response.operations), vec![5, 6]);
    let response = sync_server(&mut server, SyncRequest { digests: vec![prefix(9), prefix(7)] });
    assert_eq!(response.shared_prefix_end, 0);
    assert_eq!(counts(&response.operations), vec![1, 2, 3, 4, 5, 6]);
    let response = sync_server(&mut server, SyncRequest { digests: vec![] });
    assert_eq!(response.shared_prefix_end, 0);
    assert_eq!(counts(&response.operations), vec![1, 2, 3, 4, 5, 6]);
    assert_eq!(ids(&server), ids(&sequence(1..=6)));
}

#[test]
fn publish_operations_inserts_and_replaces() {
    let mut server = Sequence::from_operations(vec![named(1, "a"), named(3, "c")]);
    publish_operations(
        &mut server,
        PublishOperations {
            repo_id: RepoId::default(),
            operations: vec![named(4, "d"), named(3, "C"), named(2, "b")],
        },
    );
    assert_eq!(
        server.operations().iter().map(name_of).collect::<Vec<_>>(),
        vec!["a", "b", "C", "d"]
    );
}

#[test]
fn prefix_request_stops_at_short_prefixes() {
    let client = sequence(1..=10);
    let lens = |shorter: &[usize], min, max| {
        digest_counts(&prefix_request(&client, &shorter.to_vec(), min, max).digests)
    };
    assert_eq!(lens(&[7, 5, 3, 1], 0, 9), vec![10, 7, 5, 3, 1]);
    assert_eq!(lens(&[7, 5, 3, 1], 3, 9), vec![10, 7, 5]);
    assert_eq!(lens(&[7, 5, 3, 1], 3, 2), vec![10, 7]);
    assert_eq!(lens(&[7, 5, 3, 1], 10, 9), Vec::<usize>::new());
    assert_eq!(lens(&[7], 0, 0), Vec::<usize>::new());
    assert_eq!(lens(&[12], 0, 9), vec![10, 10]);
}

#[test]
fn sync_client_exchanges_what_follows_the_shared_prefix() {
    let mut client = sequence((1..=8).chain([20]));
    let mut server = sequence((1..=8).chain([10, 11, 12]));
    let stats = sync_client(&mut client, &mut server, 1, 4, &vec![6, 4, 2]);
    assert_eq!(
        stats,
        SyncStats { roundtrips: 1, server_operations: 5, client_operations: 3 }
    );
    let expected = ids(&sequence((1..=8).chain([10, 11, 12, 20])));
    assert_eq!(ids(&client), expected);
    assert_eq!(ids(&server), expected);
}

#[test]
fn sync_client_without_a_shared_prefix_exchanges_everything() {
    let mut client = sequence([2, 4]);
    let mut server = sequence([1, 2, 3]);
    let stats = sync_client(&mut client, &mut server, 0, 4, &vec![1]);
    assert_eq!(
        stats,
        SyncStats { roundtrips: 1, server_operations: 3, client_operations: 2 }
    );
    assert_eq!(ids(&client), ids(&sequence(1..=4)));
    assert_eq!(ids(&server), ids(&sequence(1..=4)));
}

#[test]
fn subdivide_range_covers_the_range() {
    assert_eq!(subdivide_range(0..10, 3, 1), vec![0..4, 4..8, 8..10]);
    assert_eq!(subdivide_range(5..15, 4, 4), vec![5..9, 9..13, 13..15]);
    assert_eq!(subdivide_range(2..9, 1, 0), vec![2..9]);
    assert_eq!(subdivide_range(2..5, 9, 0), vec![2..3, 3..4, 4..5]);
    assert_eq!(subdivide_range(2..5, 9, 100), vec![2..5]);
    assert_eq!(subdivide_range(5..5, 3, 1), vec![]);
    assert_eq!(subdivide_range(std::ops::Range { start: 6, end: 5 }, 3, 1), vec![]);
    assert_eq!(
        subdivide_range(1..usize::MAX, usize::MAX, usize::MAX - 1),
        vec![1..usize::MAX]
    );
}

#[test]
fn request_digests_subdivides_what_there_is() {
    let operations = sequence(1..=10);
    assert_eq!(
        digest_counts(&request_digests(&operations, 0..usize::MAX, 4, 1)),
        vec![3, 3, 3, 1]
    );
    assert_eq!(digest_counts(&request_digests(&operations, 8..20, 4, 2)), vec![2]);
    assert_eq!(digest_counts(&request_digests(&operations, 10..20, 4, 2)), Vec::<usize>::new());
    let digests = request_digests(&operations, 2..9, 3, 1);
    let mut combined = Digest::default();
    for digest in &digests {
        combined.add_summary(digest);
    }
    assert_eq!(combined, digest_for_range(&operations, 2..9));
}

#[test]
fn digest_for_range_digests_the_names_in_the_range() {
    let operations = sequence(1..=10);
    let digest = digest_for_range(&operations, 3..6);
    assert_eq!(digest.count, 3);
    assert_eq!(digest.max_op_id, operation_id(0, 6));
    assert_eq!(digest, digest_for_range(&sequence(4..=6), 0..3));
    assert_ne!(digest, digest_for_range(&operations, 2..5));
    assert_eq!(digest_for_range(&operations, 10..12), Digest::default());
    assert_eq!(
        digest_for_range(&operations, std::ops::Range { start: 6, end: 3 }),
        Digest::default()
    );
    assert_eq!(digest_for_range(&operations, 8..100).count, 2);
}

#[test]
fn digest_of_a_name() {
    assert_eq!(Digest::from(&build_operation(0)).hash, 0x4821_8226_ff3c_d4bf);
    assert_eq!(
        Digest::from(&build_operation2(ReplicaId(1), 5)).hash,
        0xb3f2_e391_ee2a_b8a6
    );
    let other_content = Digest::from(&named(7, "x"));
    assert_eq!(Digest::from(&named(7, "y")), other_content);
}

#[test]
fn operations_for_range_takes_all_kinds_of_bounds() {
    let operations = sequence(1..=6);
    let get = |start, end| {
        operations_for_range(&operations, (start, end))
            .into_iter()
            .map(|op| op.id().operation_count.0)
            .collect::<Vec<_>>()
    };
    assert_eq!(get(Bound::Unbounded, Bound::Unbounded), vec![1, 2, 3, 4, 5, 6]);
    assert_eq!(get(Bound::Included(2), Bound::Excluded(4)), vec![3, 4]);
    assert_eq!(get(Bound::Excluded(2), Bound::Included(4)), vec![4, 5]);
    assert_eq!(get(Bound::Included(4), Bound::Unbounded), vec![5, 6]);
    assert_eq!(get(Bound::Unbounded, Bound::Excluded(0)), Vec::<usize>::new());
    assert_eq!(get(Bound::Excluded(usize::MAX), Bound::Unbounded), Vec::<usize>::new());
    assert_eq!(get(Bound::Included(9), Bound::Included(usize::MAX)), Vec::<usize>::new());
    assert_eq!(
        counts(&request_operations(
            &operations,
            (Bound::Included(1), Bound::Excluded(3))
        )),
        vec![2, 3]
    );
}

#[test]
fn sequences_keep_the_order_of_names() {
    let mut operations = Sequence::from_operations(vec![
        build_operation2(ReplicaId(1), 1),
        build_operation2(ReplicaId(0), 7),
        build_operation2(ReplicaId(0), 3),
        build_operation2(ReplicaId(0), 7),
    ]);
    operations.insert_or_replace(build_operation2(ReplicaId(0), 5));
    assert_eq!(
        ids(&operations),
        vec![
            operation_id(0, 3),
            operation_id(0, 5),
            operation_id(0, 7),
            operation_id(1, 1)
        ]
    );
    assert_eq!(Sequence::new().operations().len(), 0);
}

#[test]
fn digest_sequences_work_on_whole_digests() {
    let operations = sequence(1..=10);
    let mut digests = DigestSequence::new();
    assert_eq!(digests.operation_count(), 0);
    digests.splice(0..0, request_digests(&operations, 0..10, 3, 1));
    assert_eq!(digests.operation_count(), 10);
    let (names, digest) = digests.digest(4..5);
    assert_eq!(digest, digest_for_range(&operations, 4..8));
    assert_eq!(names, operation_id(0, 4)..operation_id(0, 8));
    let (names, digest) = digests.digest(0..100);
    assert_eq!(digest, digest_for_range(&operations, 0..10));
    assert_eq!(names, OperationId::default()..operation_id(0, 10));
    digests.splice(4..8, request_digests(&operations, 4..8, 4, 1));
    assert_eq!(digests.operation_count(), 10);
    assert_eq!(digests.digest(4..5).1, digest_for_range(&operations, 4..5));
    digests.splice(4..4, vec![Digest::from(&build_operation(99))]);
    assert_eq!(digests.operation_count(), 11);
    assert_eq!(digests.digest(5..6).1, digest_for_range(&operations, 4..5));
}

#[test]
fn summaries_and_positions_add_up() {
    let operation = build_operation(5);
    assert_eq!(operation.key(), operation_id(0, 5));
    let summary = operation.summary();
    assert_eq!(summary.digest, Digest::from(&operation));
    let mut both = OperationSummary::default();
    both.add_summary(&summary);
    both.add_summary(&build_operation(6).summary());
    assert_eq!(both.digest, digest_for_range(&sequence([5, 6]), 0..2));
    let mut position: usize = 3;
    Dimension::add_summary(&mut position, &both);
    assert_eq!(position, 5);
    let mut last = OperationId::default();
    Dimension::add_summary(&mut last, &both);
    assert_eq!(last, operation_id(0, 6));
    let mut digest = Digest::default();
    Dimension::add_summary(&mut digest, &both);
    assert_eq!(digest, both.digest);
    assert_eq!(sequence([5, 6]).summary().digest, both.digest);
}

#[test]
fn names_are_ordered_by_replica_then_count() {
    let names = [
        operation_id(0, 0),
        operation_id(0, 9),
        operation_id(1, 2),
        operation_id(1, 3),
        operation_id(2, 0),
    ];
    assert_eq!(OperationId::default(), names[0]);
    for (i, a) in names.iter().enumerate() {
        for (j, b) in names.iter().enumerate() {
            assert_eq!(a.is_before(b), i < j);
            assert_eq!(a < b, i < j);
        }
    }
}

#[test]
fn sync_joins_names_even_where_the_two_disagree_on_one() {
    let mut client = Sequence::from_operations(vec![named(1, "a"), named(2, "b")]);
    let mut server = Sequence::from_operations(vec![named(1, "A"), named(3, "c")]);
    sync(&mut client, &mut server, 2, 1);
    assert_eq!(ids(&client), ids(&sequence(1..=3)));
    assert_eq!(ids(&server), ids(&sequence(1..=3)));
}
