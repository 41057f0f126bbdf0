use dashmap::DashMap;
use relayer::delivery::{chunk, ForwardSession, Forwarding, SendOutcome};
use relayer::forward::{forward_packets, receive, recipients, Recipient};
use relayer::metrics::RelayerMetrics;
use relayer::packet::ProtoPacket;
use relayer::pbp::{LookupTableCache, PbpFilter};
use relayer::policy::{push_policy, PbpPolicy, ValidatorPolicies, POLICY_TTL_NS};
use relayer::pubkey::{Pubkey, PubkeyMap, PubkeySet};
use solana_instruction::{AccountMeta, Instruction};
use solana_keypair::Keypair;
use solana_perf::packet::bytes::Bytes;
use solana_perf::packet::{BytesPacket, Meta, PacketBatch};
use solana_signer::Signer;
use solana_transaction::versioned::VersionedTransaction;

const PROGRAM: Pubkey = [42; 32];

fn tx_bytes(program: Pubkey, data: &[u8]) -> Vec<u8> {
    let payer = Keypair::new();
    let tx = VersionedTransaction::from(solana_transaction::Transaction::new_signed_with_payer(
        &[Instruction::new_with_bytes(
            program.into(),
            data,
            vec![AccountMeta::new_readonly([77u8; 32].into(), false)],
        )],
        Some(&payer.pubkey()),
        &[&payer],
        solana_hash::Hash::default(),
    ));
    wincode::serialize(&tx).unwrap()
}

fn v1_bytes() -> Vec<u8> {
    let mut b = vec![0x81];
    b.extend_from_slice(&[1, 0, 1]);
    b.extend_from_slice(&0u32.to_le_bytes());
    b.extend_from_slice(&[7u8; 32]);
    b.push(1);
    b.push(2);
    b.extend_from_slice(&[1u8; 32]);
    b.extend_from_slice(&[2u8; 32]);
    b.extend_from_slice(&[1, 1]);
    b.extend_from_slice(&3u16.to_le_bytes());
    b.push(0);
    b.extend_from_slice(&[0xAA, 0xBB, 0xCC]);
    b.extend_from_slice(&[9u8; 64]);
    b
}

fn packet(data: Vec<u8>, discard: bool) -> BytesPacket {
    let mut meta = Meta::default();
    meta.size = data.len();
    meta.set_discard(discard);
    BytesPacket::new(Bytes::from(data), meta)
}

fn batch(packets: Vec<Vec<u8>>) -> PacketBatch {
    PacketBatch::from(packets.into_iter().map(|data| packet(data, false)).collect::<Vec<_>>())
}

fn blocking(program: Pubkey) -> PbpFilter {
    PbpFilter {
        program_blacklist: PubkeySet::from_vec(vec![program]),
        ..PbpFilter::default()
    }
}

fn to(pubkey: Pubkey, filter: Option<PbpFilter>) -> Recipient {
    Recipient { pubkey, filter }
}

fn no_tables() -> LookupTableCache {
    LookupTableCache::from_map(DashMap::new())
}

/// What each recipient gets, as lists of packet data by batch.
fn delivered(forwarding: &Forwarding) -> Vec<(Pubkey, Vec<Vec<Vec<u8>>>)> {
    forwarding
        .deliveries
        .iter()
        .map(|d| {
            let batches = d.filtered.as_ref().unwrap_or(&forwarding.shared);
            let data = batches
                .iter()
                .map(|b| b.iter().map(|p| forwarding.packets[*p].data.clone()).collect())
                .collect();
            (d.pubkey, data)
        })
        .collect()
}

#[test]
fn recipients_are_the_subscribed_leaders_or_everyone() {
    let policies = ValidatorPolicies::from_map(DashMap::new());
    let mut subscriptions: PubkeyMap<u8> = PubkeyMap::new();
    for n in [3u8, 1, 2] {
        subscriptions.insert([n; 32], n);
    }
    let leaders = PubkeySet::from_vec(vec![[2; 32], [9; 32], [3; 32]]);
    let keys = |list: Vec<Recipient>| -> Vec<Pubkey> { list.iter().map(|r| r.pubkey).collect() };
    assert_eq!(
        keys(recipients(&subscriptions, &leaders, false, &policies, 0)),
        vec![[2; 32], [3; 32]]
    );
    assert_eq!(
        keys(recipients(&subscriptions, &leaders, true, &policies, 0)),
        vec![[1; 32], [2; 32], [3; 32]]
    );
}

#[test]
fn recipients_carry_their_own_live_policy() {
    let mut policies = ValidatorPolicies::from_map(DashMap::new());
    let policy = PbpPolicy {
        allow_aggressive_mev: false,
        address_blacklist: vec!["8qbHbw2BbbTHBW1sbeqakYXVKRQM8Ne7pLK7m6CVfeR".to_string()],
        program_blacklist: vec![],
        instruction_blacklist: vec![],
    };
    push_policy(&mut policies, [1; 32], &policy, 0);
    let mut subscriptions: PubkeyMap<u8> = PubkeyMap::new();
    subscriptions.insert([1; 32], 1);
    subscriptions.insert([2; 32], 2);
    let found = recipients(&subscriptions, &PubkeySet::new(), true, &policies, 5);
    assert!(found[0].filter.is_some());
    assert!(found[1].filter.is_none());
    let found = recipients(&subscriptions, &PubkeySet::new(), true, &policies, POLICY_TTL_NS);
    assert!(found[0].filter.is_none());
}

#[test]
fn packets_to_be_discarded_are_not_taken_in() {
    let good = tx_bytes(PROGRAM, &[1]);
    let batches = vec![
        PacketBatch::from(vec![packet(good.clone(), false), packet(good.clone(), true)]),
        batch(vec![vec![1, 2, 3]]),
    ];
    let incoming = receive(&batches, true);
    assert_eq!(incoming.len(), 2);
    assert_eq!(incoming[0].packet.data, Some(good.clone()));
    assert!(incoming[0].tx.is_some());
    assert_eq!(incoming[1].packet.data, Some(vec![1, 2, 3]));
    assert!(incoming[1].tx.is_none());
    // Without a filter nothing is parsed.
    let incoming = receive(&batches, false);
    assert!(incoming.iter().all(|p| p.tx.is_none()));
}

#[test]
fn the_same_packets_are_dropped_for_one_validator_and_delivered_to_the_other() {
    let blocked = tx_bytes(PROGRAM, &[1]);
    let innocent = tx_bytes([43; 32], &[2]);
    let batches = vec![batch(vec![blocked.clone(), innocent.clone()])];
    let incoming = receive(&batches, true);
    let mut metrics = RelayerMetrics::new(1, 2, 3);
    let forwarding = forward_packets(
        &incoming,
        &vec![false, false],
        false,
        &vec![to([1; 32], Some(blocking(PROGRAM))), to([2; 32], None)],
        &no_tables(),
        4,
        &mut metrics,
    );
    assert_eq!(
        delivered(&forwarding),
        vec![
            ([1; 32], vec![vec![innocent.clone()]]),
            ([2; 32], vec![vec![blocked, innocent]]),
        ]
    );
    assert_eq!(metrics.num_packets_forwarded, 0);
    assert_eq!(metrics.num_packets_dropped_pbp, 1);
    assert_eq!(metrics.num_packets_dropped_pbp_program, 1);
    assert_eq!(metrics.num_packets_dropped_pbp_address, 0);
    assert_eq!(metrics.num_packets_dropped_pbp_instruction, 0);
}

#[test]
fn drops_are_counted_per_recipient_and_by_rule() {
    let incoming = receive(&vec![batch(vec![tx_bytes(PROGRAM, &[0xde, 1]), tx_bytes(PROGRAM, &[5])])], true);
    let mut by_address = PbpFilter::default();
    by_address.address_blacklist = PubkeySet::from_vec(vec![[77; 32]]);
    let mut by_instruction = PbpFilter::default();
    by_instruction.instruction_blacklist.insert(PROGRAM, vec![vec![0xde]]);
    let mut metrics = RelayerMetrics::new(1, 1, 1);
    let forwarding = forward_packets(
        &incoming,
        &vec![false; 2],
        false,
        &vec![
            to([1; 32], Some(by_address)),
            to([2; 32], Some(by_instruction)),
            to([3; 32], Some(blocking(PROGRAM))),
        ],
        &no_tables(),
        10,
        &mut metrics,
    );
    assert_eq!(metrics.num_packets_dropped_pbp_address, 2);
    assert_eq!(metrics.num_packets_dropped_pbp_instruction, 1);
    assert_eq!(metrics.num_packets_dropped_pbp_program, 2);
    assert_eq!(metrics.num_packets_dropped_pbp, 5);
    let counts: Vec<usize> = delivered(&forwarding).iter().map(|(_, b)| b.iter().map(Vec::len).sum()).collect();
    assert_eq!(counts, vec![0, 1, 0]);
    hand_out(forwarding, &mut metrics, |_| SendOutcome::Sent);
    assert_eq!(metrics.num_packets_forwarded, 1);
}

#[test]
fn every_packet_is_forwarded_or_counted_under_its_reason() {
    let good = tx_bytes(PROGRAM, &[1]);
    let related = tx_bytes(PROGRAM, &[2]);
    let incoming = receive(&vec![batch(vec![good.clone(), vec![0xff; 40], related, good.clone()])], true);
    let mut metrics = RelayerMetrics::new(1, 1, 1);
    let forwarding = forward_packets(
        &incoming,
        &vec![false, false, true, false],
        true,
        &vec![to([1; 32], None)],
        &no_tables(),
        10,
        &mut metrics,
    );
    assert_eq!(delivered(&forwarding), vec![([1; 32], vec![vec![good.clone(), good]])]);
    hand_out(forwarding, &mut metrics, |_| SendOutcome::Sent);
    assert_eq!(metrics.num_packets_forwarded, 2);
    assert_eq!(metrics.num_packets_dropped_deserialize, 1);
    assert_eq!(metrics.num_packets_dropped_ofac, 1);
    assert_eq!(metrics.num_packets_dropped_proto_convert, 0);
}

#[test]
fn without_a_filter_packets_are_forwarded_unparsed() {
    let garbage = vec![0xff; 40];
    let incoming = receive(&vec![batch(vec![garbage.clone()])], false);
    let mut metrics = RelayerMetrics::new(1, 1, 1);
    let forwarding = forward_packets(
        &incoming,
        &vec![true],
        false,
        &vec![to([1; 32], None)],
        &no_tables(),
        10,
        &mut metrics,
    );
    assert_eq!(delivered(&forwarding), vec![([1; 32], vec![vec![garbage]])]);
    assert_eq!(metrics.num_packets_dropped_ofac, 0);
    assert_eq!(metrics.num_packets_dropped_deserialize, 0);
}

#[test]
fn a_packet_without_data_is_counted_as_not_convertible() {
    let mut incoming = receive(&vec![batch(vec![vec![1]])], false);
    incoming[0].packet.data = None;
    let mut metrics = RelayerMetrics::new(1, 1, 1);
    let forwarding =
        forward_packets(&incoming, &vec![false], false, &vec![to([1; 32], None)], &no_tables(), 1, &mut metrics);
    assert_eq!(delivered(&forwarding), vec![([1; 32], vec![])]);
    assert_eq!(metrics.num_packets_dropped_proto_convert, 1);
    assert_eq!(metrics.num_packets_forwarded, 0);
}

#[test]
fn a_v1_transaction_passes_where_a_policy_is_in_force() {
    let incoming = receive(&vec![batch(vec![v1_bytes()])], true);
    let mut metrics = RelayerMetrics::new(1, 1, 1);
    let forwarding = forward_packets(
        &incoming,
        &vec![false],
        false,
        &vec![to([1; 32], Some(blocking(PROGRAM)))],
        &no_tables(),
        1,
        &mut metrics,
    );
    assert_eq!(delivered(&forwarding), vec![([1; 32], vec![vec![v1_bytes()]])]);
    // And it is matched like any other.
    let mut metrics = RelayerMetrics::new(1, 1, 1);
    forward_packets(
        &incoming,
        &vec![false],
        false,
        &vec![to([1; 32], Some(blocking([2; 32])))],
        &no_tables(),
        1,
        &mut metrics,
    );
    assert_eq!(metrics.num_packets_dropped_pbp_program, 1);
}

#[test]
fn batches_are_full_but_for_the_last() {
    let places: Vec<usize> = (10..17).collect();
    let sizes = |size: usize| -> Vec<usize> { chunk(&places, size).iter().map(Vec::len).collect() };
    assert_eq!(sizes(3), vec![3, 3, 1]);
    assert_eq!(sizes(7), vec![7]);
    assert_eq!(sizes(100), vec![7]);
    assert_eq!(sizes(1), vec![1; 7]);
    assert_eq!(chunk(&places, 3).concat(), places);
    assert!(chunk(&vec![], 3).is_empty());
}

/// Hands everything out, with an outcome for each validator.
fn hand_out(forwarding: Forwarding, metrics: &mut RelayerMetrics, outcome: impl Fn(Pubkey) -> SendOutcome) {
    let mut session = ForwardSession::new(forwarding);
    while let Some((key, _)) = session.next() {
        session.record(outcome(key), metrics);
    }
}

fn session(keys: &[u8], packets: &[u8], size: usize) -> ForwardSession {
    let incoming = receive(&vec![batch(packets.iter().map(|n| vec![*n]).collect())], false);
    let mut metrics = RelayerMetrics::new(1, 1, 1);
    let list: Vec<Recipient> = keys.iter().map(|n| to([*n; 32], None)).collect();
    let verdicts = vec![false; packets.len()];
    ForwardSession::new(forward_packets(
        &incoming,
        &verdicts,
        false,
        &list,
        &no_tables(),
        size,
        &mut metrics,
    ))
}

fn next_send(session: &ForwardSession) -> Option<(Pubkey, Vec<u8>)> {
    session
        .next()
        .map(|(key, batch)| (key, batch.packets.iter().map(|p| p.data[0]).collect()))
}

#[test]
fn batches_are_handed_out_in_order_and_counted() {
    let mut metrics = RelayerMetrics::new(1, 1, 1);
    let mut session = session(&[1, 2], &[10, 11, 12], 2);
    let mut seen = vec![];
    while let Some(send) = next_send(&session) {
        let outcome = if seen.len() == 1 { SendOutcome::Full } else { SendOutcome::Sent };
        seen.push(send);
        session.record(outcome, &mut metrics);
    }
    assert_eq!(
        seen,
        vec![
            ([1; 32], vec![10, 11]),
            ([1; 32], vec![12]),
            ([2; 32], vec![10, 11]),
            ([2; 32], vec![12]),
        ]
    );
    assert!(session.into_failed().is_empty());
    let one = metrics.packet_stats_per_validator.get(&[1; 32]).unwrap();
    assert_eq!((one.num_packets_forwarded, one.num_packets_dropped), (2, 1));
    let two = metrics.packet_stats_per_validator.get(&[2; 32]).unwrap();
    assert_eq!((two.num_packets_forwarded, two.num_packets_dropped), (3, 0));
}

#[test]
fn nothing_more_goes_to_a_validator_that_is_gone() {
    let mut metrics = RelayerMetrics::new(1, 1, 1);
    let mut session = session(&[1, 2, 3], &[10, 11, 12], 1);
    let mut seen = vec![];
    while let Some((key, data)) = next_send(&session) {
        seen.push((key[0], data[0]));
        let outcome = if key == [2; 32] { SendOutcome::Closed } else { SendOutcome::Sent };
        session.record(outcome, &mut metrics);
    }
    assert_eq!(seen, vec![(1, 10), (1, 11), (1, 12), (2, 10), (3, 10), (3, 11), (3, 12)]);
    assert_eq!(session.into_failed(), vec![[2; 32]]);
    assert!(metrics.packet_stats_per_validator.get(&[2; 32]).is_none());
}

#[test]
fn no_packets_make_no_sends() {
    assert!(session(&[1, 2], &[], 4).next().is_none());
    assert!(session(&[], &[1], 4).next().is_none());
}

#[test]
fn packets_are_taken_in_with_what_is_known_of_them() {
    let mut meta = Meta::default();
    meta.size = 2;
    meta.set_socket_addr(&"[::1]:9000".parse().unwrap());
    meta.set_simple_vote(true);
    meta.set_from_staked_node(true);
    let bytes = PacketBatch::from(vec![BytesPacket::new(Bytes::from(vec![5u8, 6]), meta)]);
    let mut pinned = solana_perf::packet::Packet::default();
    pinned.buffer_mut()[..3].copy_from_slice(&[7, 8, 9]);
    pinned.meta_mut().size = 3;
    pinned.meta_mut().set_socket_addr(&"1.2.3.4:80".parse().unwrap());
    let mut oversized = solana_perf::packet::Packet::default();
    oversized.meta_mut().size = 5_000;
    let pinned = PacketBatch::from(solana_perf::packet::RecycledPacketBatch::new(vec![pinned, oversized]));

    let incoming = receive(&vec![bytes, pinned], false);
    assert_eq!(incoming.len(), 3);
    let first = &incoming[0].packet;
    assert_eq!(first.data, Some(vec![5, 6]));
    assert_eq!((first.meta.size, first.meta.addr.as_str(), first.meta.port), (2, "::1", 9000));
    assert!(first.meta.simple_vote_tx && first.meta.from_staked_node);
    assert!(!first.meta.discard && !first.meta.forwarded && !first.meta.repair && !first.meta.perf_track_packet);
    let second = &incoming[1].packet;
    assert_eq!(second.data, Some(vec![7, 8, 9]));
    assert_eq!((second.meta.addr.as_str(), second.meta.port), ("1.2.3.4", 80));
    assert!(!second.meta.simple_vote_tx && !second.meta.from_staked_node);
    // A packet that claims more than its buffer holds has no data to go out.
    assert_eq!(incoming[2].packet.data, None);
}

#[test]
fn a_survivor_counts_as_forwarded_when_a_queue_first_takes_it() {
    let incoming = receive(&vec![batch(vec![tx_bytes(PROGRAM, &[1]), tx_bytes([4; 32], &[2])])], true);
    let everyone = |outcome: SendOutcome| move |_: Pubkey| outcome;
    let only_two = |key: Pubkey| if key == [2; 32] { SendOutcome::Sent } else { SendOutcome::Full };
    let count = |recipients: Vec<Recipient>, outcome: &dyn Fn(Pubkey) -> SendOutcome| -> u64 {
        let mut metrics = RelayerMetrics::new(1, 1, 1);
        let forwarding =
            forward_packets(&incoming, &vec![false; 2], false, &recipients, &no_tables(), 1, &mut metrics);
        assert_eq!(metrics.num_packets_forwarded, 0);
        hand_out(forwarding, &mut metrics, outcome);
        metrics.num_packets_forwarded
    };
    let strict = || to([1; 32], Some(blocking(PROGRAM)));
    let open = |n: u8| to([n; 32], None);
    // Nobody is there, or nobody takes anything.
    assert_eq!(count(vec![], &everyone(SendOutcome::Sent)), 0);
    assert_eq!(count(vec![open(1), open(2)], &everyone(SendOutcome::Full)), 0);
    assert_eq!(count(vec![open(1), open(2)], &everyone(SendOutcome::Closed)), 0);
    // One queue takes what its validator's policy lets through; two queues do not make it two.
    assert_eq!(count(vec![strict()], &everyone(SendOutcome::Sent)), 1);
    assert_eq!(count(vec![strict(), open(2)], &everyone(SendOutcome::Sent)), 2);
    assert_eq!(count(vec![open(1), open(2)], &everyone(SendOutcome::Sent)), 2);
    assert_eq!(count(vec![strict(), open(2)], &only_two), 2);
    assert_eq!(count(vec![open(1), to([2; 32], Some(blocking(PROGRAM)))], &only_two), 1);
}

#[test]
fn the_policy_drops_are_those_of_the_three_rules() {
    let incoming = receive(&vec![batch(vec![tx_bytes(PROGRAM, &[0xde]), tx_bytes([4; 32], &[2])])], true);
    let mut by_instruction = PbpFilter::default();
    by_instruction.instruction_blacklist.insert(PROGRAM, vec![vec![0xde]]);
    let recipients = vec![to([1; 32], Some(by_instruction)), to([2; 32], Some(blocking([4; 32])))];
    let mut metrics = RelayerMetrics::new(1, 1, 1);
    for round in 1..4u64 {
        let forwarding =
            forward_packets(&incoming, &vec![false; 2], false, &recipients, &no_tables(), 5, &mut metrics);
        hand_out(forwarding, &mut metrics, |_| SendOutcome::Sent);
        assert_eq!(metrics.num_packets_dropped_pbp_instruction, round);
        assert_eq!(metrics.num_packets_dropped_pbp_program, round);
        assert_eq!(metrics.num_packets_dropped_pbp, 2 * round);
        assert_eq!(metrics.num_packets_forwarded, 2 * round);
    }
}

#[test]
fn one_validator_gets_the_same_whatever_others_pushed() {
    let incoming = receive(&vec![batch(vec![tx_bytes(PROGRAM, &[1]), tx_bytes([4; 32], &[2])])], true);
    let mut seen = vec![];
    for other in [None, Some(blocking(PROGRAM)), Some(blocking([4; 32]))] {
        let mut metrics = RelayerMetrics::new(1, 1, 1);
        let recipients = vec![to([1; 32], Some(blocking(PROGRAM))), to([2; 32], other)];
        let forwarding =
            forward_packets(&incoming, &vec![true; 2], false, &recipients, &no_tables(), 10, &mut metrics);
        assert_eq!(metrics.num_packets_dropped_ofac, 0);
        seen.push(delivered(&forwarding)[0].clone());
    }
    assert_eq!(seen[0], seen[1]);
    assert_eq!(seen[0], seen[2]);
    assert_eq!(seen[0].1.iter().map(Vec::len).sum::<usize>(), 1);
}
