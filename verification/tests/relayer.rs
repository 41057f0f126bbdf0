use relayer::latency::Latencies;
use std::sync::Arc;

use dashmap::DashMap;
use relayer::delivery::SendOutcome;
use relayer::metrics::RelayerMetrics;
use relayer::pbp::LookupTableCache;
use relayer::policy::{count_in_force, PbpPolicy, ValidatorPolicies};
use relayer::pubkey::{Pubkey, PubkeyMap, PubkeySet};
use relayer::relayer::{HealthState, RelayerError, RelayerHandle, RelayerImpl, RelayerPacketBatches, RequestError, Subscription};
use solana_perf::packet::bytes::Bytes;
use solana_perf::packet::{BytesPacket, Meta, PacketBatch};

type Relayer = RelayerImpl<u32>;

fn relayer(health: HealthState) -> Relayer {
    RelayerImpl::new(
        "10.0.0.1".to_string(),
        vec![11_028, 11_029, 11_030],
        vec![12_006, 12_007],
        health,
        ValidatorPolicies::from_map(DashMap::new()),
    )
}

fn subscriptions(keys: &[u8]) -> PubkeyMap<u32> {
    let mut map = PubkeyMap::new();
    for n in keys {
        map.insert([*n; 32], *n as u32);
    }
    map
}

fn metrics() -> RelayerMetrics {
    RelayerMetrics::new(7, 8, 9)
}

#[test]
fn the_announced_ports_take_turns() {
    let mut relayer = relayer(HealthState::Healthy);
    let mut seen = vec![];
    for _ in 0..4 {
        let response = relayer.get_tpu_configs();
        let tpu = response.tpu.unwrap();
        let forward = response.tpu_forward.unwrap();
        assert_eq!(tpu.ip, "10.0.0.1");
        assert_eq!(forward.ip, "10.0.0.1");
        seen.push((tpu.port, forward.port));
    }
    assert_eq!(
        seen,
        vec![(11_022, 12_000), (11_023, 12_001), (11_024, 12_000), (11_022, 12_001)]
    );
    assert_eq!(relayer.seq, 4);
    relayer.seq = u64::MAX;
    relayer.get_tpu_configs();
    assert_eq!(relayer.seq, 0);
}

#[test]
fn an_unhealthy_relayer_takes_no_subscription() {
    let sick = relayer(HealthState::Unhealthy);
    assert!(matches!(
        sick.subscribe_packets(Some([1; 32]), 5),
        Err(RequestError::Unhealthy)
    ));
    assert!(matches!(sick.subscribe_packets(None, 5), Err(RequestError::Unhealthy)));
    let healthy = relayer(HealthState::Healthy);
    assert!(matches!(
        healthy.subscribe_packets(None, 5),
        Err(RequestError::NoPublicKey)
    ));
    match healthy.subscribe_packets(Some([1; 32]), 5) {
        Ok(Subscription::ValidatorPacketSubscription { pubkey, sender }) => {
            assert_eq!((pubkey, sender), ([1; 32], 5));
        }
        Err(error) => panic!("{error:?}"),
    }
    assert_eq!(Relayer::check_health(HealthState::Healthy), Ok(()));
    assert_eq!(
        Relayer::check_health(HealthState::Unhealthy),
        Err(RequestError::Unhealthy)
    );
}

#[test]
fn refusals_say_why() {
    assert_eq!(RequestError::Unhealthy.message(), "relayer is unhealthy");
    assert_eq!(
        RequestError::NoPublicKey.message(),
        "internal error fetching public key"
    );
    assert_eq!(
        RequestError::SubscriptionNotAdded.message(),
        "internal error adding subscription"
    );
}

#[test]
fn a_policy_needs_an_authenticated_identity() {
    let mut relayer = relayer(HealthState::Healthy);
    let policy = PbpPolicy {
        allow_aggressive_mev: false,
        address_blacklist: vec![],
        program_blacklist: vec!["CktRuQ2mttgRGkXJtyksdKHjUdc2C4TgDzyB98oEzy8".to_string()],
        instruction_blacklist: vec![],
    };
    assert!(matches!(
        relayer.provide_pbp_policy(None, &policy, 1),
        Err(RequestError::NoPublicKey)
    ));
    assert!(relayer.validator_policies.get(&[1; 32]).is_none());
    assert_eq!(count_in_force(&relayer.validator_policies, 1), 0);
    let response = match relayer.provide_pbp_policy(Some([1; 32]), &policy, 1) {
        Ok(response) => response,
        Err(error) => panic!("{error:?}"),
    };
    assert!(response.accepted);
    let stored = relayer.validator_policies.get(&[1; 32]).unwrap();
    assert_eq!(stored.digest, response.policy_digest);
    assert_eq!(stored.updated_at, 1);
    assert_eq!(stored.filter.program_blacklist.len(), 1);
}

#[test]
fn the_handle_lists_who_is_connected() {
    let mut relayer = relayer(HealthState::Healthy);
    assert!(relayer.handle().connected_validators().is_empty());
    relayer.packet_subscriptions.insert([2; 32], 0);
    relayer.packet_subscriptions.insert([1; 32], 0);
    assert_eq!(relayer.handle().connected_validators(), vec![[1; 32], [2; 32]]);
    assert_eq!(
        RelayerHandle::new(&relayer.packet_subscriptions).connected_validators().len(),
        2
    );
}

#[test]
fn the_highest_slot_is_the_last_one_heard_of() {
    let mut metrics = metrics();
    let mut slot = 3;
    assert_eq!(Relayer::update_highest_slot(Some(9), &mut slot, &mut metrics), Ok(()));
    assert_eq!((slot, metrics.highest_slot), (9, 9));
    assert_eq!(
        Relayer::update_highest_slot(None, &mut slot, &mut metrics),
        Err(RelayerError::Shutdown)
    );
    assert_eq!((slot, metrics.highest_slot), (9, 9));
    assert_eq!(Relayer::upcoming_slots(9, 3), vec![9, 10, 11]);
    assert!(Relayer::upcoming_slots(9, 0).is_empty());
}

#[test]
fn a_second_subscription_takes_the_place_of_the_first() {
    let mut metrics = metrics();
    let mut connected = subscriptions(&[]);
    let subscribe = |sender: u32| {
        Some(Subscription::ValidatorPacketSubscription {
            pubkey: [1; 32],
            sender,
        })
    };
    assert_eq!(
        Relayer::handle_subscription(subscribe(5), &mut connected, &mut metrics),
        Ok(true)
    );
    assert_eq!(
        Relayer::handle_subscription(subscribe(6), &mut connected, &mut metrics),
        Ok(false)
    );
    assert_eq!(connected.get(&[1; 32]), Some(&6));
    assert_eq!(metrics.num_added_connections, 1);
    assert_eq!(
        Relayer::handle_subscription(None, &mut connected, &mut metrics),
        Err(RelayerError::Shutdown)
    );
    assert_eq!(connected.len(), 1);
}

#[test]
fn dropping_connections_counts_all_and_reports_the_connected() {
    let mut metrics = metrics();
    let mut connected = subscriptions(&[1, 2, 3]);
    let gone = vec![[3; 32], [9; 32], [1; 32], [3; 32]];
    let removed = Relayer::drop_connections(&gone, &mut connected, &mut metrics);
    assert_eq!(removed, vec![[3; 32], [1; 32]]);
    assert_eq!(connected.keys(), vec![[2; 32]]);
    assert_eq!(metrics.num_removed_connections, 4);
}

#[test]
fn a_heartbeat_closes_those_that_are_gone() {
    let mut metrics = metrics();
    let connected = subscriptions(&[1, 2, 3, 4]);
    let outcomes = vec![SendOutcome::Sent, SendOutcome::Closed, SendOutcome::Full, SendOutcome::Closed];
    assert_eq!(Relayer::heartbeat_count(&metrics), 0);
    let closed = Relayer::heartbeat_tick(HealthState::Healthy, &connected, &outcomes, None, &mut metrics);
    assert_eq!(closed, vec![[2; 32], [4; 32]]);
    assert_eq!(metrics.num_heartbeats, 1);
    assert_eq!(metrics.num_try_send_channel_full, 1);
    assert_eq!(Relayer::heartbeat_count(&metrics), 1);
}

#[test]
fn a_validator_taken_off_the_allowlist_is_closed_at_the_next_heartbeat() {
    let mut metrics = metrics();
    let mut connected = subscriptions(&[1, 2, 3]);
    let allowed = PubkeySet::from_vec(vec![[1; 32], [3; 32]]);
    let outcomes = vec![SendOutcome::Sent, SendOutcome::Sent, SendOutcome::Closed];
    let closed = Relayer::heartbeat_tick(
        HealthState::Healthy,
        &connected,
        &outcomes,
        Some(&allowed),
        &mut metrics,
    );
    assert_eq!(closed, vec![[2; 32], [3; 32]]);
    Relayer::drop_connections(&closed, &mut connected, &mut metrics);
    assert_eq!(connected.keys(), vec![[1; 32]]);
}

#[test]
fn an_unhealthy_relayer_drops_everyone() {
    let mut metrics = metrics();
    let mut connected = subscriptions(&[1, 2, 3]);
    let closed = Relayer::heartbeat_tick(HealthState::Unhealthy, &connected, &vec![], None, &mut metrics);
    assert_eq!(closed.len(), 3);
    assert_eq!(metrics.num_heartbeats, 0);
    Relayer::drop_connections(&closed, &mut connected, &mut metrics);
    assert!(connected.is_empty());
}

#[test]
fn the_worst_tick_latency_is_kept() {
    let mut metrics = metrics();
    for latency in [Some(5), None, Some(3), Some(8)] {
        Relayer::record_tick_latency(latency, &mut metrics);
    }
    assert_eq!(metrics.max_heartbeat_tick_latency_us, 8);
}

fn one_packet(data: Vec<u8>) -> Arc<Vec<PacketBatch>> {
    let mut meta = Meta::default();
    meta.size = data.len();
    Arc::new(vec![PacketBatch::from(vec![BytesPacket::new(Bytes::from(data), meta)])])
}

#[test]
fn packets_are_planned_for_the_leaders() {
    let policies = ValidatorPolicies::from_map(DashMap::new());
    let connected = subscriptions(&[1, 2]);
    let leaders = PubkeySet::from_vec(vec![[2; 32], [5; 32]]);
    let batches = RelayerPacketBatches {
        stamp: 1_000,
        banking_packet_batch: one_packet(vec![1, 2, 3]),
    };
    let mut metrics = metrics();
    let plan =
        match Relayer::plan_forward(Some(batches), &connected, &leaders, &policies, false, false, 4_500, &mut metrics) {
            Ok(plan) => plan,
            Err(error) => panic!("{error:?}"),
        };
    assert_eq!(metrics.packet_latencies_us.recorded(), 1);
    assert_eq!(metrics.packet_latencies_us.shortest(), 3);
    let keys: Vec<Pubkey> = plan.recipients.iter().map(|r| r.pubkey).collect();
    assert_eq!(keys, vec![[2; 32]]);
    assert_eq!(plan.incoming.len(), 1);
    assert_eq!(plan.incoming[0].packet.data, Some(vec![1, 2, 3]));
    let tables = LookupTableCache::from_map(DashMap::new());
    let mut session = Relayer::forward_packets(&plan, &vec![false], false, &tables, 8, &mut metrics);
    let (to, sent) = session.next().map(|(key, batch)| (key, batch.packets[0].data.clone())).unwrap();
    assert_eq!((to, sent), ([2; 32], vec![1, 2, 3]));
    session.record(SendOutcome::Sent, &mut metrics);
    assert!(session.next().is_none());
    assert_eq!(metrics.num_packets_forwarded, 1);
    assert!(matches!(
        Relayer::plan_forward(None, &connected, &leaders, &policies, false, false, 0, &mut metrics),
        Err(RelayerError::Shutdown)
    ));
    assert_eq!(metrics.packet_latencies_us.recorded(), 1);
}

#[test]
fn a_metrics_tick_reports_and_starts_anew() {
    let mut relayer = relayer(HealthState::Healthy);
    let policy = PbpPolicy {
        allow_aggressive_mev: false,
        address_blacklist: vec![],
        program_blacklist: vec![],
        instruction_blacklist: vec![],
    };
    assert!(relayer.provide_pbp_policy(Some([1; 32]), &policy, 0).is_ok());
    let connected = subscriptions(&[1, 2]);
    let mut metrics = metrics();
    metrics.num_heartbeats = 4;
    metrics.increment_packets_forwarded(&[1; 32], 3);
    metrics.increment_packets_dropped(&[1; 32], 2);
    metrics.packet_latencies_us.record(700);
    metrics.packet_latencies_us.record(30);
    metrics.packet_latencies_us.record(90);
    let (fields, validators) = Relayer::metrics_tick(
        &connected,
        &vec![49_999, 40_000],
        &relayer.validator_policies,
        Some(12),
        1,
        &mut metrics,
    );
    let value = |name: &str| fields.iter().find(|f| f.name == name).map(|f| f.value);
    assert_eq!(fields.len(), 26);
    assert_eq!(value("packet_latencies_us_min"), Some(30));
    assert_eq!(value("packet_latencies_us_max"), Some(700));
    assert_eq!(value("num_current_connections"), Some(2));
    assert_eq!(value("packet_subscriptions_total_queued"), Some(10_001));
    assert_eq!(value("num_validators_with_policy"), Some(1));
    assert_eq!(value("metrics_latency_us"), Some(12));
    assert_eq!(value("num_heartbeats"), Some(4));
    assert_eq!(value("delay_packet_receiver_capacity"), Some(9));
    assert_eq!(validators.len(), 1);
    assert_eq!(validators[0].pubkey, solana_pubkey::Pubkey::new_from_array([1; 32]).to_string());
    assert_eq!(validators[0].num_packets_forwarded, 3);
    assert_eq!(validators[0].num_packets_dropped, 2);
    assert_eq!(metrics.num_heartbeats, 0);
    assert_eq!(metrics.slot_receiver_capacity, 7);
    assert_eq!(metrics.subscription_receiver_capacity, 8);
    assert!(metrics.packet_stats_per_validator.is_empty());
    assert_eq!(metrics.packet_latencies_us.recorded(), 0);
}

#[test]
fn latencies_are_told_as_far_as_they_are_kept() {
    let mut latencies = Latencies::new();
    assert_eq!((latencies.shortest(), latencies.longest()), (0, 0));
    for us in [1_024, 17, 500] {
        latencies.record(us);
    }
    assert_eq!((latencies.shortest(), latencies.longest()), (17, 1_024));
    assert_eq!(latencies.histogram().percentile(10.0), Ok(17));
    latencies.record(1_000_000);
    let longest = latencies.longest();
    assert!((1_000_000..1_002_000).contains(&longest));
    latencies.record(60_000_000_001);
    assert_eq!((latencies.shortest(), latencies.longest()), (17, 0));
    assert_eq!(latencies.recorded(), 5);
    let mut large = Latencies::new();
    large.record(u64::MAX);
    assert_eq!((large.shortest(), large.longest(), large.recorded()), (0, 0, 1));
}

#[test]
fn queues_are_as_long_as_they_ever_were() {
    let mut metrics = metrics();
    metrics.update_max_len(1, 5, 2);
    metrics.update_max_len(3, 4, 2);
    assert_eq!(metrics.slot_receiver_max_len, 3);
    assert_eq!(metrics.subscription_receiver_max_len, 5);
    assert_eq!(metrics.delay_packet_receiver_max_len, 2);
}

#[test]
fn counting_for_one_validator_leaves_the_others_alone_and_saturates() {
    let mut metrics = metrics();
    metrics.increment_packets_forwarded(&[1; 32], u64::MAX - 1);
    metrics.increment_packets_forwarded(&[1; 32], 5);
    metrics.increment_packets_dropped(&[2; 32], 7);
    let one = metrics.packet_stats_per_validator.get(&[1; 32]).unwrap();
    assert_eq!((one.num_packets_forwarded, one.num_packets_dropped), (u64::MAX, 0));
    let two = metrics.packet_stats_per_validator.get(&[2; 32]).unwrap();
    assert_eq!((two.num_packets_forwarded, two.num_packets_dropped), (0, 7));
}

#[test]
fn counters_tell_whether_they_have_room() {
    let mut metrics = metrics();
    assert!(metrics.has_room(1_000, 1_000));
    metrics.num_packets_dropped_pbp = u64::MAX - 10;
    assert!(metrics.has_room(5, 2));
    assert!(!metrics.has_room(5, 3));
    assert!(!metrics.has_room(usize::MAX, usize::MAX));
}
