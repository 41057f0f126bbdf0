//! The relayer: who is connected, what is asked of it, and what its event loop does.

use std::sync::Arc;

use vstd::prelude::*;

use solana_perf::packet::PacketBatch;

use crate::delivery::{session_start, ForwardSession, SendOutcome};
use crate::digest::digest_of;
use crate::forward::{all_screened, forward_packets, forwarding_of, incoming_of, incoming_views, needs_summaries, passed, planned, receive, recipient_keys, recipient_views, recipients, recipients_of, some_policy, survivors, Incoming, Recipient, Screen};
use crate::metrics::{field_views, fresh_metrics, latencies_told, report_of, room_for, total_queued, validators_reported, MetricsView, RelayerMetrics, ReportField, ValidatorReport, SUBSCRIBER_QUEUE_CAPACITY};
use crate::pbp::LookupTableCache;
use crate::policy::{count_in_force, filter_of, holders_in_force, live_filter, push_policy, stored_of, PbpPolicy, ValidatorPolicies};
use crate::pubkey::{Pubkey, PubkeyMap, PubkeySet};
use crate::sigverify_stage::packets_of;

verus! {

/// Whether the relayer is fit to serve validators.
#[derive(Debug, Clone, Copy, PartialEq, Eq, Structural)]
pub enum HealthState {
    Healthy,
    Unhealthy,
}

/// Why the event loop ends.
#[derive(Debug, Clone, Copy, PartialEq, Eq, Structural)]
pub enum RelayerError {
    /// A queue that it reads from is gone.
    Shutdown,
}

pub type RelayerResult<T> = Result<T, RelayerError>;

/// Why a validator's request is refused.
#[derive(Debug, Clone, Copy, PartialEq, Eq, Structural)]
pub enum RequestError {
    /// The relayer is not fit to serve validators.
    Unhealthy,
    /// The connection carries no authenticated identity.
    NoPublicKey,
    /// The event loop takes no more subscriptions.
    SubscriptionNotAdded,
}

impl RequestError {
    /// What the validator is told.
    pub open spec fn text(self) -> Seq<char> {
        match self {
            RequestError::Unhealthy => "relayer is unhealthy"@,
            RequestError::NoPublicKey => "internal error fetching public key"@,
            RequestError::SubscriptionNotAdded => "internal error adding subscription"@,
        }
    }

    /// What the validator is told.
    pub fn message(&self) -> (r: &'static str)
        ensures
            r@ == self.text(),
    {
        match self {
            RequestError::Unhealthy => "relayer is unhealthy",
            RequestError::NoPublicKey => "internal error fetching public key",
            RequestError::SubscriptionNotAdded => "internal error adding subscription",
        }
    }
}

/// Packet batches, with the time at which they came in, in nanoseconds of a clock that never goes
/// back.
pub struct RelayerPacketBatches {
    pub stamp: u64,
    pub banking_packet_batch: Arc<Vec<PacketBatch>>,
}

/// A validator that wants packets, and the queue to put them on.
pub enum Subscription<S> {
    ValidatorPacketSubscription { pubkey: Pubkey, sender: S },
}

/// The queue of each validator that is connected.
pub type PacketSubscriptions<S> = PubkeyMap<S>;

/// Who is connected, for those who may only look.
#[verifier::reject_recursive_types(S)]
pub struct RelayerHandle<'a, S> {
    pub packet_subscriptions: &'a PacketSubscriptions<S>,
}

impl<'a, S> RelayerHandle<'a, S> {
    pub fn new(packet_subscriptions: &'a PacketSubscriptions<S>) -> (r: Self)
        ensures
            *r.packet_subscriptions == *packet_subscriptions,
    {
        RelayerHandle { packet_subscriptions }
    }

    /// The validators that are connected, each once.
    pub fn connected_validators(&self) -> (r: Vec<Pubkey>)
        ensures
            r@ == self.packet_subscriptions.order(),
            r@.no_duplicates(),
            r@.to_set() == self.packet_subscriptions@.dom(),
    {
        self.packet_subscriptions.keys()
    }
}

/// Where a socket can be reached.
pub struct Socket {
    pub ip: String,
    pub port: i64,
}

/// Where the relayer takes transactions.
pub struct GetTpuConfigsResponse {
    pub tpu: Option<Socket>,
    pub tpu_forward: Option<Socket>,
}

/// What a validator that pushed a policy is told.
pub struct ProvidePbpPolicyResponse {
    pub accepted: bool,
    pub policy_digest: String,
}

/// How far behind a QUIC port the port is that is announced for it.
pub const QUIC_PORT_OFFSET: u16 = 6;

/// The port whose turn it is.
pub open spec fn turn(ports: Seq<u16>, seq: u64) -> u16 {
    ports[(seq as usize % ports.len() as usize) as int]
}

/// There is a port, and each of them leaves room for the one that is announced for it.
pub open spec fn announceable(ports: Seq<u16>) -> bool {
    &&& ports.len() > 0
    &&& forall|i: int| 0 <= i < ports.len() ==> (#[trigger] ports[i]) >= QUIC_PORT_OFFSET
}

/// The socket that is announced for the port whose turn it is.
pub open spec fn announced(socket: Option<Socket>, ip: Seq<char>, ports: Seq<u16>, seq: u64) -> bool {
    &&& socket is Some
    &&& socket->0.ip@ == ip
    &&& socket->0.port == turn(ports, seq) - QUIC_PORT_OFFSET
}

fn announce(ip: &String, ports: &Vec<u16>, seq: u64) -> (r: Socket)
    requires
        announceable(ports@),
    ensures
        announced(Some(r), ip@, ports@, seq),
{
    let at: usize = seq as usize % ports.len();
    Socket { ip: ip.clone(), port: (ports[at] - QUIC_PORT_OFFSET) as i64 }
}

/// The relayer, as the validators see it.
#[verifier::reject_recursive_types(S)]
pub struct RelayerImpl<S> {
    pub tpu_quic_ports: Vec<u16>,
    pub tpu_fwd_quic_ports: Vec<u16>,
    pub public_ip: String,
    /// How often the ports have been asked for.
    pub seq: u64,
    pub health_state: HealthState,
    pub packet_subscriptions: PacketSubscriptions<S>,
    pub validator_policies: ValidatorPolicies,
}

impl<S> RelayerImpl<S> {
    /// How many responses can wait for one subscriber.
    pub const SUBSCRIBER_QUEUE_CAPACITY: usize = SUBSCRIBER_QUEUE_CAPACITY;

    /// A relayer that nobody is connected to.
    pub fn new(
        public_ip: String,
        tpu_quic_ports: Vec<u16>,
        tpu_fwd_quic_ports: Vec<u16>,
        health_state: HealthState,
        validator_policies: ValidatorPolicies,
    ) -> (r: Self)
        ensures
            r.public_ip == public_ip,
            r.tpu_quic_ports == tpu_quic_ports,
            r.tpu_fwd_quic_ports == tpu_fwd_quic_ports,
            r.health_state == health_state,
            r.validator_policies == validator_policies,
            r.seq == 0,
            r.packet_subscriptions@ == Map::<Pubkey, S>::empty(),
    {
        RelayerImpl {
            tpu_quic_ports,
            tpu_fwd_quic_ports,
            public_ip,
            seq: 0,
            health_state,
            packet_subscriptions: PubkeyMap::new(),
            validator_policies,
        }
    }

    /// Who is connected, for those who may only look.
    pub fn handle(&self) -> (r: RelayerHandle<'_, S>)
        ensures
            *r.packet_subscriptions == self.packet_subscriptions,
    {
        RelayerHandle::new(&self.packet_subscriptions)
    }

    /// Validators may not subscribe while the relayer is unhealthy.
    pub fn check_health(health_state: HealthState) -> (r: Result<(), RequestError>)
        ensures
            r == (if health_state == HealthState::Healthy {
                Ok::<(), RequestError>(())
            } else {
                Err(RequestError::Unhealthy)
            }),
    {
        match health_state {
            HealthState::Healthy => Ok(()),
            HealthState::Unhealthy => Err(RequestError::Unhealthy),
        }
    }

    /// A validator calls this to get the public address of the relayer's TPU and TPU forward
    /// sockets. The ports take turns.
    pub fn get_tpu_configs(&mut self) -> (r: GetTpuConfigsResponse)
        requires
            announceable(old(self).tpu_quic_ports@),
            announceable(old(self).tpu_fwd_quic_ports@),
        ensures
            announced(r.tpu, old(self).public_ip@, old(self).tpu_quic_ports@, old(self).seq),
            announced(
                r.tpu_forward,
                old(self).public_ip@,
                old(self).tpu_fwd_quic_ports@,
                old(self).seq,
            ),
            *final(self) == (RelayerImpl {
                seq: if old(self).seq == u64::MAX {
                    0
                } else {
                    (old(self).seq + 1) as u64
                },
                ..*old(self)
            }),
    {
        let seq: u64 = self.seq;
        self.seq = seq.wrapping_add(1);
        GetTpuConfigsResponse {
            tpu: Some(announce(&self.public_ip, &self.tpu_quic_ports, seq)),
            tpu_forward: Some(announce(&self.public_ip, &self.tpu_fwd_quic_ports, seq)),
        }
    }

    /// A validator calls this to subscribe to packets. Its identity is the authenticated one of the
    /// connection, and `sender` the queue that its packets go to.
    pub fn subscribe_packets(&self, pubkey: Option<Pubkey>, sender: S) -> (r: Result<
        Subscription<S>,
        RequestError,
    >)
        ensures
            match pubkey {
                _ if self.health_state != HealthState::Healthy => r == Err::<
                    Subscription<S>,
                    RequestError,
                >(RequestError::Unhealthy),
                None => r == Err::<Subscription<S>, RequestError>(RequestError::NoPublicKey),
                Some(key) => r == Ok::<Subscription<S>, RequestError>(
                    Subscription::ValidatorPacketSubscription { pubkey: key, sender },
                ),
            },
    {
        match Self::check_health(self.health_state) {
            Err(error) => Err(error),
            Ok(()) => match pubkey {
                None => Err(RequestError::NoPublicKey),
                Some(pubkey) => Ok(Subscription::ValidatorPacketSubscription { pubkey, sender }),
            },
        }
    }

    /// The validator pushes the policy the relayer must apply to that validator's own stream.
    ///
    /// Keyed by the authenticated identity on the connection, never by anything in the message: a
    /// relayer fronts several validators and forwards the same batch to each, so a policy that could
    /// name a subject other than its sender would let one tenant censor another's block.
    pub fn provide_pbp_policy(
        &mut self,
        pubkey: Option<Pubkey>,
        policy: &PbpPolicy,
        now: u64,
    ) -> (r: Result<ProvidePbpPolicyResponse, RequestError>)
        ensures
            match pubkey {
                None => r == Err::<ProvidePbpPolicyResponse, RequestError>(
                    RequestError::NoPublicKey,
                ) && *final(self) == *old(self),
                Some(key) => {
                    &&& r is Ok
                    &&& r->Ok_0.accepted
                    &&& r->Ok_0.policy_digest@ == digest_of(filter_of(policy@))
                    &&& final(self).validator_policies@ == old(self).validator_policies@.insert(key, stored_of(policy@, now))
                    &&& *final(self) == (RelayerImpl {
                        validator_policies: final(self).validator_policies,
                        ..*old(self)
                    })
                },
            },
    {
        match pubkey {
            None => Err(RequestError::NoPublicKey),
            Some(pubkey) => {
                let policy_digest: String = push_policy(
                    &mut self.validator_policies,
                    pubkey,
                    policy,
                    now,
                );
                Ok(ProvidePbpPolicyResponse { accepted: true, policy_digest })
            },
        }
    }
}

/// The keys among those listed that are connected, each once, in the order of their first mention.
pub open spec fn connected_among(keys: Seq<Pubkey>, connected: Set<Pubkey>) -> Seq<Pubkey>
    decreases keys.len(),
{
    if keys.len() == 0 {
        Seq::empty()
    } else {
        let before = connected_among(keys.drop_last(), connected);
        if connected.contains(keys.last()) && !keys.drop_last().contains(keys.last()) {
            before.push(keys.last())
        } else {
            before
        }
    }
}

/// The control plane allows the validator, where there is one.
pub open spec fn permitted(allowed: Option<Set<Pubkey>>, key: Pubkey) -> bool {
    match allowed {
        Some(keys) => keys.contains(key),
        None => true,
    }
}

/// The connections that a heartbeat closes: those of validators that are gone, and those of
/// validators that are no longer allowed.
pub open spec fn closed_by_heartbeat(
    keys: Seq<Pubkey>,
    outcomes: Seq<SendOutcome>,
    allowed: Option<Set<Pubkey>>,
) -> Seq<Pubkey>
    decreases keys.len(),
{
    if keys.len() == 0 {
        Seq::empty()
    } else {
        let before = closed_by_heartbeat(keys.drop_last(), outcomes, allowed);
        if outcomes[keys.len() - 1] == SendOutcome::Closed || !permitted(allowed, keys.last()) {
            before.push(keys.last())
        } else {
            before
        }
    }
}

/// How many queues were full.
pub open spec fn full_count(outcomes: Seq<SendOutcome>) -> nat {
    outcomes.filter(|o: SendOutcome| o == SendOutcome::Full).len()
}

/// The slots from the highest one on, as many as are looked ahead.
pub open spec fn slots_from(highest_slot: u64, slot_lookahead: u64) -> Seq<u64> {
    Seq::new(slot_lookahead as nat, |i: int| (highest_slot + i) as u64)
}

/// How long packets with this stamp have been under way, in microseconds.
pub open spec fn under_way_us(stamp: u64, now: u64) -> u64 {
    if now >= stamp {
        ((now - stamp) / 1000) as u64
    } else {
        0
    }
}

/// What there is to forward: the packets that came in, and the validators that they are headed for.
pub struct ForwardPlan {
    pub recipients: Vec<Recipient>,
    pub incoming: Vec<Incoming>,
}

impl<S> RelayerImpl<S> {
    /// Takes in the slot that the cluster has reached.
    pub fn update_highest_slot(
        maybe_slot: Option<u64>,
        highest_slot: &mut u64,
        relayer_metrics: &mut RelayerMetrics,
    ) -> (r: RelayerResult<()>)
        ensures
            match maybe_slot {
                None => {
                    &&& r == Err::<(), RelayerError>(RelayerError::Shutdown)
                    &&& *final(highest_slot) == *old(highest_slot)
                    &&& final(relayer_metrics)@ == old(relayer_metrics)@
                },
                Some(slot) => {
                    &&& r == Ok::<(), RelayerError>(())
                    &&& *final(highest_slot) == slot
                    &&& final(relayer_metrics)@ == (MetricsView {
                        highest_slot: slot,
                        ..old(relayer_metrics)@
                    })
                },
            },
    {
        match maybe_slot {
            None => Err(RelayerError::Shutdown),
            Some(slot) => {
                *highest_slot = slot;
                relayer_metrics.highest_slot = slot;
                Ok(())
            },
        }
    }

    /// The slots whose leaders get packets.
    pub fn upcoming_slots(highest_slot: u64, slot_lookahead: u64) -> (r: Vec<u64>)
        requires
            highest_slot + slot_lookahead <= u64::MAX,
        ensures
            r@ == slots_from(highest_slot, slot_lookahead),
    {
        let mut slots: Vec<u64> = Vec::new();
        let mut i: u64 = 0;
        while i < slot_lookahead
            invariant
                i <= slot_lookahead,
                highest_slot + slot_lookahead <= u64::MAX,
                slots@ == slots_from(highest_slot, i),
            decreases slot_lookahead - i,
        {
            slots.push(highest_slot + i);
            assert(slots@ =~= slots_from(highest_slot, (i + 1) as u64));
            i = i + 1;
        }
        slots
    }

    /// Connects a validator. One that is connected already gets the new queue in place of the old
    /// one. Returns whether it was not connected before.
    pub fn handle_subscription(
        maybe_subscription: Option<Subscription<S>>,
        subscriptions: &mut PacketSubscriptions<S>,
        relayer_metrics: &mut RelayerMetrics,
    ) -> (r: RelayerResult<bool>)
        requires
            maybe_subscription matches Some(
                Subscription::ValidatorPacketSubscription { pubkey, .. },
            ) ==> old(subscriptions)@.contains_key(pubkey) || old(
                relayer_metrics,
            )@.num_added_connections < u64::MAX,
        ensures
            match maybe_subscription {
                None => {
                    &&& r == Err::<bool, RelayerError>(RelayerError::Shutdown)
                    &&& *final(subscriptions) == *old(subscriptions)
                    &&& final(relayer_metrics)@ == old(relayer_metrics)@
                },
                Some(Subscription::ValidatorPacketSubscription { pubkey, sender }) => {
                    let vacant = !old(subscriptions)@.contains_key(pubkey);
                    &&& r == Ok::<bool, RelayerError>(vacant)
                    &&& final(subscriptions)@ == old(subscriptions)@.insert(pubkey, sender)
                    &&& final(relayer_metrics)@ == (MetricsView {
                        num_added_connections: (old(relayer_metrics)@.num_added_connections + (
                        if vacant {
                            1int
                        } else {
                            0
                        })) as u64,
                        ..old(relayer_metrics)@
                    })
                },
            },
    {
        match maybe_subscription {
            None => Err(RelayerError::Shutdown),
            Some(Subscription::ValidatorPacketSubscription { pubkey, sender }) => {
                let vacant: bool = subscriptions.insert(pubkey, sender).is_none();
                if vacant {
                    relayer_metrics.num_added_connections = relayer_metrics.num_added_connections
                        + 1;
                }
                Ok(vacant)
            },
        }
    }

    /// Disconnects the validators. Returns those that were connected.
    pub fn drop_connections(
        disconnected_pubkeys: &Vec<Pubkey>,
        subscriptions: &mut PacketSubscriptions<S>,
        relayer_metrics: &mut RelayerMetrics,
    ) -> (r: Vec<Pubkey>)
        requires
            old(relayer_metrics)@.num_removed_connections + disconnected_pubkeys@.len() <= u64::MAX,
        ensures
            final(subscriptions)@ == old(subscriptions)@.remove_keys(disconnected_pubkeys@.to_set()),
            final(relayer_metrics)@ == (MetricsView {
                num_removed_connections: (old(relayer_metrics)@.num_removed_connections
                    + disconnected_pubkeys@.len()) as u64,
                ..old(relayer_metrics)@
            }),
            r@ == connected_among(disconnected_pubkeys@, old(subscriptions)@.dom()),
    {
        relayer_metrics.num_removed_connections = relayer_metrics.num_removed_connections
            + disconnected_pubkeys.len() as u64;
        let ghost start = subscriptions@;
        let ghost keys = disconnected_pubkeys@;
        let mut removed: Vec<Pubkey> = Vec::new();
        let mut i: usize = 0;
        assert(start.remove_keys(keys.take(0).to_set()) =~= start);
        while i < disconnected_pubkeys.len()
            invariant
                i <= keys.len(),
                keys == disconnected_pubkeys@,
                subscriptions@ == start.remove_keys(keys.take(i as int).to_set()),
                removed@ == connected_among(keys.take(i as int), start.dom()),
            decreases keys.len() - i,
        {
            let ghost key = keys[i as int];
            let ghost some = keys.take(i as int);
            let ghost more = keys.take(i + 1);
            proof {
                assert(more.drop_last() =~= some);
                assert(more.last() == key);
                assert(subscriptions@.contains_key(key) <==> start.contains_key(key)
                    && !some.contains(key));
                assert forall|k: Pubkey| more.to_set().contains(k) <==> some.to_set().insert(
                    key,
                ).contains(k) by {
                    if some.contains(k) {
                        let j = choose|j: int| 0 <= j < some.len() && some[j] == k;
                        assert(more[j] == k);
                    }
                    if more.contains(k) && k != key {
                        let j = choose|j: int| 0 <= j < more.len() && more[j] == k;
                        assert(some[j] == k);
                    }
                    assert(more[i as int] == key);
                }
                assert(start.remove_keys(some.to_set()).remove(key) =~= start.remove_keys(
                    more.to_set(),
                ));
            }
            if subscriptions.remove(&disconnected_pubkeys[i]).is_some() {
                removed.push(disconnected_pubkeys[i]);
            }
            i = i + 1;
        }
        assert(keys.take(keys.len() as int) =~= keys);
        removed
    }

    /// What every connected validator is sent at a heartbeat.
    pub fn heartbeat_count(relayer_metrics: &RelayerMetrics) -> (r: u64)
        ensures
            r == relayer_metrics@.num_heartbeats,
    {
        relayer_metrics.num_heartbeats
    }

    /// Takes in what came of sending a heartbeat to each connected validator, in their listing order.
    /// Returns the validators to disconnect: those that are gone, and those that the control plane no
    /// longer allows.
    pub fn handle_heartbeat(
        subscriptions: &PacketSubscriptions<S>,
        outcomes: &Vec<SendOutcome>,
        allowed: Option<&PubkeySet>,
        relayer_metrics: &mut RelayerMetrics,
    ) -> (r: Vec<Pubkey>)
        requires
            outcomes@.len() == subscriptions.order().len(),
            old(relayer_metrics)@.num_heartbeats < u64::MAX,
            old(relayer_metrics)@.num_try_send_channel_full + outcomes@.len() <= u64::MAX,
        ensures
            r@ == closed_by_heartbeat(
                subscriptions.order(),
                outcomes@,
                match allowed {
                    Some(keys) => Some(keys@),
                    None => None,
                },
            ),
            final(relayer_metrics)@ == (MetricsView {
                num_heartbeats: (old(relayer_metrics)@.num_heartbeats + 1) as u64,
                num_try_send_channel_full: (old(relayer_metrics)@.num_try_send_channel_full
                    + full_count(outcomes@)) as u64,
                ..old(relayer_metrics)@
            }),
    {
        let keys: Vec<Pubkey> = subscriptions.keys();
        let ghost list: Option<Set<Pubkey>> = match allowed {
            Some(keys) => Some(keys@),
            None => None,
        };
        let ghost start = relayer_metrics@;
        let ghost full = |o: SendOutcome| o == SendOutcome::Full;
        let mut closed: Vec<Pubkey> = Vec::new();
        let mut i: usize = 0;
        assert(outcomes@.take(0).filter(full).len() == 0) by {
            reveal(Seq::filter);
        }
        while i < keys.len()
            invariant
                i <= keys@.len(),
                keys@ == subscriptions.order(),
                outcomes@.len() == keys@.len(),
                list == (match allowed {
                    Some(keys) => Some(keys@),
                    None => None,
                }),
                full == (|o: SendOutcome| o == SendOutcome::Full),
                closed@ == closed_by_heartbeat(keys@.take(i as int), outcomes@, list),
                start.num_try_send_channel_full + outcomes@.len() <= u64::MAX,
                outcomes@.take(i as int).filter(full).len() <= i,
                relayer_metrics@ == (MetricsView {
                    num_try_send_channel_full: (start.num_try_send_channel_full + outcomes@.take(
                        i as int,
                    ).filter(full).len()) as u64,
                    ..start
                }),
            decreases keys@.len() - i,
        {
            proof {
                assert(keys@.take(i + 1).drop_last() =~= keys@.take(i as int));
                assert(keys@.take(i + 1).last() == keys@[i as int]);
                assert(outcomes@.take(i + 1) =~= outcomes@.take(i as int).push(outcomes@[i as int]));
                outcomes@.take(i as int).lemma_filter_push(outcomes@[i as int], full);
            }
            let gone: bool = match outcomes[i] {
                SendOutcome::Closed => true,
                SendOutcome::Full => {
                    relayer_metrics.num_try_send_channel_full =
                    relayer_metrics.num_try_send_channel_full + 1;
                    false
                },
                SendOutcome::Sent => false,
            };
            let kept: bool = match allowed {
                Some(keys_allowed) => keys_allowed.contains(&keys[i]),
                None => true,
            };
            if gone || !kept {
                closed.push(keys[i]);
            }
            i = i + 1;
        }
        proof {
            assert(keys@.take(keys@.len() as int) =~= keys@);
            assert(outcomes@.take(outcomes@.len() as int) =~= outcomes@);
        }
        relayer_metrics.num_heartbeats = relayer_metrics.num_heartbeats + 1;
        closed
    }

    /// Takes in how late a heartbeat tick came.
    pub fn record_tick_latency(latency_us: Option<u64>, relayer_metrics: &mut RelayerMetrics)
        ensures
            final(relayer_metrics)@ == match latency_us {
                Some(latency) if latency > old(relayer_metrics)@.max_heartbeat_tick_latency_us =>
                MetricsView { max_heartbeat_tick_latency_us: latency, ..old(relayer_metrics)@ },
                _ => old(relayer_metrics)@,
            },
    {
        if let Some(latency) = latency_us {
            if latency > relayer_metrics.max_heartbeat_tick_latency_us {
                relayer_metrics.max_heartbeat_tick_latency_us = latency;
            }
        }
    }

    /// The validators to disconnect at a heartbeat tick: as the heartbeat says where the relayer is
    /// healthy, all of them where it is not.
    pub fn heartbeat_tick(
        health_state: HealthState,
        subscriptions: &PacketSubscriptions<S>,
        outcomes: &Vec<SendOutcome>,
        allowed: Option<&PubkeySet>,
        relayer_metrics: &mut RelayerMetrics,
    ) -> (r: Vec<Pubkey>)
        requires
            health_state == HealthState::Healthy ==> {
                &&& outcomes@.len() == subscriptions.order().len()
                &&& old(relayer_metrics)@.num_heartbeats < u64::MAX
                &&& old(relayer_metrics)@.num_try_send_channel_full + outcomes@.len() <= u64::MAX
            },
        ensures
            match health_state {
                HealthState::Healthy => {
                    &&& r@ == closed_by_heartbeat(
                        subscriptions.order(),
                        outcomes@,
                        match allowed {
                            Some(keys) => Some(keys@),
                            None => None,
                        },
                    )
                    &&& final(relayer_metrics)@ == (MetricsView {
                        num_heartbeats: (old(relayer_metrics)@.num_heartbeats + 1) as u64,
                        num_try_send_channel_full: (old(relayer_metrics)@.num_try_send_channel_full
                            + full_count(outcomes@)) as u64,
                        ..old(relayer_metrics)@
                    })
                },
                HealthState::Unhealthy => {
                    &&& r@ == subscriptions.order()
                    &&& final(relayer_metrics)@ == old(relayer_metrics)@
                },
            },
    {
        match health_state {
            HealthState::Healthy => Self::handle_heartbeat(
                subscriptions,
                outcomes,
                allowed,
                relayer_metrics,
            ),
            HealthState::Unhealthy => subscriptions.keys(),
        }
    }

    /// Takes in packet batches: records how long they have been under way, and finds the validators that
    /// they are headed for, with the policy of each, and the packets that are not to be discarded, parsed
    /// where a filter is configured.
    pub fn plan_forward(
        maybe_packet_batches: Option<RelayerPacketBatches>,
        subscriptions: &PacketSubscriptions<S>,
        slot_leaders: &PubkeySet,
        validator_policies: &ValidatorPolicies,
        ofac_configured: bool,
        forward_all: bool,
        now: u64,
        relayer_metrics: &mut RelayerMetrics,
    ) -> (r: RelayerResult<ForwardPlan>)
        requires
            old(relayer_metrics)@.packet_latencies_us.len() < u64::MAX,
        ensures
            match maybe_packet_batches {
                None => {
                    &&& r == Err::<ForwardPlan, RelayerError>(RelayerError::Shutdown)
                    &&& final(relayer_metrics)@ == old(relayer_metrics)@
                },
                Some(batches) => {
                    &&& r is Ok
                    &&& ({
                        let plan = r->Ok_0;
                        let views = recipient_views(plan.recipients@);
                        &&& final(relayer_metrics)@ == (MetricsView {
                            packet_latencies_us: old(
                                relayer_metrics,
                            )@.packet_latencies_us.insert(under_way_us(batches.stamp, now)),
                            ..old(relayer_metrics)@
                        })
                        &&& recipient_keys(views).no_duplicates()
                        &&& recipient_keys(views).to_set() == recipients_of(
                            subscriptions@.dom(),
                            slot_leaders@,
                            forward_all,
                        )
                        &&& planned(views, validator_policies@, now)
                        &&& incoming_views(plan.incoming@) == incoming_of(
                            packets_of(batches.banking_packet_batch@).flatten(),
                            ofac_configured || some_policy(views),
                        )
                    })
                },
            },
    {
        match maybe_packet_batches {
            None => Err(RelayerError::Shutdown),
            Some(batches) => {
                let latency_us: u64 = if now >= batches.stamp {
                    (now - batches.stamp) / 1000
                } else {
                    0
                };
                relayer_metrics.packet_latencies_us.record(latency_us);
                let found: Vec<Recipient> = recipients(
                    subscriptions,
                    slot_leaders,
                    forward_all,
                    validator_policies,
                    now,
                );
                let parse: bool = ofac_configured || needs_summaries(&found);
                let incoming: Vec<Incoming> = receive(&batches.banking_packet_batch, parse);
                proof {
                    let views = recipient_views(found@);
                    assert forall|i: int| 0 <= i < views.len() implies (
                    #[trigger] views[i]).filter == live_filter(
                        validator_policies@,
                        views[i].pubkey,
                        now,
                    ) by {
                        assert(views[i].pubkey == found@[i].pubkey);
                    }
                }
                Ok(ForwardPlan { recipients: found, incoming })
            },
        }
    }

    /// Decides what each validator gets of what was planned, counts what becomes of the packets, and
    /// starts handing them out. Which transactions are related to an OFAC address is told by
    /// `ofac_related`, packet by packet.
    pub fn forward_packets(
        plan: &ForwardPlan,
        ofac_related: &Vec<bool>,
        ofac_configured: bool,
        address_lookup_table_cache: &LookupTableCache,
        validator_packet_batch_size: usize,
        relayer_metrics: &mut RelayerMetrics,
    ) -> (r: ForwardSession)
        requires
            ofac_related@.len() == plan.incoming@.len(),
            validator_packet_batch_size > 0,
            recipient_keys(recipient_views(plan.recipients@)).no_duplicates(),
            room_for(old(relayer_metrics)@, plan.incoming@.len(), plan.recipients@.len()),
        ensures
            ({
                let views = recipient_views(plan.recipients@);
                let screen = Screen {
                    ofac: ofac_configured,
                    summaries: some_policy(views),
                    tables: address_lookup_table_cache@,
                };
                let all = all_screened(incoming_views(plan.incoming@), ofac_related@, screen);
                &&& r@ == session_start(
                    forwarding_of(views, survivors(all), validator_packet_batch_size as nat),
                )
                &&& final(relayer_metrics)@ == passed(old(relayer_metrics)@, all, views)
            }),
    {
        ForwardSession::new(
            forward_packets(
                &plan.incoming,
                ofac_related,
                ofac_configured,
                &plan.recipients,
                address_lookup_table_cache,
                validator_packet_batch_size,
                relayer_metrics,
            ),
        )
    }

    /// Closes the interval: brings the counters up to date, hands out what to report, and starts the
    /// next one. `capacities` is the room that the queue of each connected validator has left.
    pub fn metrics_tick(
        subscriptions: &PacketSubscriptions<S>,
        capacities: &Vec<usize>,
        validator_policies: &ValidatorPolicies,
        latency_us: Option<u64>,
        now: u64,
        relayer_metrics: &mut RelayerMetrics,
    ) -> (r: (Vec<ReportField>, Vec<ValidatorReport>))
        requires
            capacities@.len() == subscriptions.order().len(),
            forall|i: int|
                0 <= i < capacities@.len() ==> (#[trigger] capacities@[i])
                    <= SUBSCRIBER_QUEUE_CAPACITY,
            capacities@.len() * SUBSCRIBER_QUEUE_CAPACITY <= usize::MAX,
        ensures
            field_views(r.0@) == report_of(
                MetricsView {
                    num_current_connections: subscriptions.order().len() as u64,
                    packet_subscriptions_total_queued: total_queued(capacities@) as usize,
                    num_validators_with_policy: holders_in_force(
                        validator_policies@,
                        now,
                    ).len() as u64,
                    metrics_latency_us: match latency_us {
                        Some(latency) => latency,
                        None => old(relayer_metrics)@.metrics_latency_us,
                    },
                    ..old(relayer_metrics)@
                },
            ),
            latencies_told(old(relayer_metrics)@.packet_latencies_us, r.0@),
            validators_reported(r.1@, old(relayer_metrics).packet_stats_per_validator),
            final(relayer_metrics)@ == fresh_metrics(
                old(relayer_metrics)@.slot_receiver_capacity,
                old(relayer_metrics)@.subscription_receiver_capacity,
                old(relayer_metrics)@.delay_packet_receiver_capacity,
            ),
    {
        let validators: Vec<ValidatorReport> = relayer_metrics.report_validators();
        relayer_metrics.num_current_connections = subscriptions.len() as u64;
        relayer_metrics.update_packet_subscription_total_capacity(capacities);
        relayer_metrics.num_validators_with_policy = count_in_force(validator_policies, now) as u64;
        if let Some(latency) = latency_us {
            relayer_metrics.metrics_latency_us = latency;
        }
        let fields: Vec<ReportField> = relayer_metrics.report();
        *relayer_metrics = RelayerMetrics::new(
            relayer_metrics.slot_receiver_capacity,
            relayer_metrics.subscription_receiver_capacity,
            relayer_metrics.delay_packet_receiver_capacity,
        );
        (fields, validators)
    }
}

/// The ports take turns: the call after one that got a port gets the next port of the list, and
/// after the last one the first again.
pub proof fn law_ports_take_turns(ports: Seq<u16>, seq: u64)
    requires
        0 < ports.len() <= usize::MAX,
        seq < usize::MAX,
    ensures
        ({
            let at = seq as int % ports.len() as int;
            &&& turn(ports, seq) == ports[at]
            &&& turn(ports, (seq + 1) as u64) == ports[if at + 1 < ports.len() {
                at + 1
            } else {
                0
            }]
        }),
{
    let n = ports.len() as int;
    let at = seq as int % n;
    assert((seq + 1) % n == (if at + 1 < n {
        at + 1
    } else {
        0
    })) by {
        vstd::arithmetic::div_mod::lemma_fundamental_div_mod(seq as int, n);
        let q = seq as int / n;
        if at + 1 < n {
            assert(seq + 1 == q * n + (at + 1)) by (nonlinear_arith)
                requires
                    seq == n * q + at,
            ;
            vstd::arithmetic::div_mod::lemma_fundamental_div_mod_converse(seq + 1, n, q, at + 1);
        } else {
            assert(seq + 1 == (q + 1) * n) by (nonlinear_arith)
                requires
                    seq == n * q + at,
                    at + 1 == n,
            ;
            vstd::arithmetic::div_mod::lemma_fundamental_div_mod_converse(seq + 1, n, q + 1, 0);
        }
    }
}

proof fn lemma_closed_by_heartbeat(
    keys: Seq<Pubkey>,
    outcomes: Seq<SendOutcome>,
    allowed: Option<Set<Pubkey>>,
    key: Pubkey,
)
    ensures
        closed_by_heartbeat(keys, outcomes, allowed).contains(key) <==> exists|i: int|
            0 <= i < keys.len() && #[trigger] keys[i] == key && (outcomes[i] == SendOutcome::Closed
                || !permitted(allowed, key)),
    decreases keys.len(),
{
    if keys.len() > 0 {
        let init = keys.drop_last();
        let before = closed_by_heartbeat(init, outcomes, allowed);
        let closed = closed_by_heartbeat(keys, outcomes, allowed);
        let last = keys.len() - 1;
        lemma_closed_by_heartbeat(init, outcomes, allowed, key);
        if closed.contains(key) {
            let n = choose|n: int| 0 <= n < closed.len() && closed[n] == key;
            if n < before.len() {
                assert(before[n] == key);
                let i = choose|i: int|
                    0 <= i < init.len() && #[trigger] init[i] == key && (outcomes[i]
                        == SendOutcome::Closed || !permitted(allowed, key));
                assert(keys[i] == key);
            } else {
                assert(keys[last] == key);
            }
        }
        if exists|i: int|
            0 <= i < keys.len() && #[trigger] keys[i] == key && (outcomes[i] == SendOutcome::Closed
                || !permitted(allowed, key)) {
            let i = choose|i: int|
                0 <= i < keys.len() && #[trigger] keys[i] == key && (outcomes[i]
                    == SendOutcome::Closed || !permitted(allowed, key));
            if i < last {
                assert(init[i] == key);
                let n = choose|n: int| 0 <= n < before.len() && before[n] == key;
                assert(closed[n] == key);
            } else {
                assert(closed[before.len() as int] == key);
            }
        }
    }
}

/// A validator that was taken off the allowlist is disconnected at the next heartbeat, and so is one
/// that is gone; everyone else stays connected.
pub proof fn law_heartbeat_disconnects_exactly_the_gone_and_the_removed<S>(
    subscriptions: Map<Pubkey, S>,
    order: Seq<Pubkey>,
    outcomes: Seq<SendOutcome>,
    allowed: Option<Set<Pubkey>>,
    i: int,
)
    requires
        order.no_duplicates(),
        order.to_set() == subscriptions.dom(),
        outcomes.len() == order.len(),
        0 <= i < order.len(),
    ensures
        ({
            let closed = closed_by_heartbeat(order, outcomes, allowed);
            let after = subscriptions.remove_keys(closed.to_set());
            after.contains_key(order[i]) <==> outcomes[i] != SendOutcome::Closed && permitted(
                allowed,
                order[i],
            )
        }),
{
    lemma_closed_by_heartbeat(order, outcomes, allowed, order[i]);
    let closed = closed_by_heartbeat(order, outcomes, allowed);
    assert(closed.to_set().contains(order[i]) <==> closed.contains(order[i]));
    assert(order.contains(order[i]));
    assert(subscriptions.dom().contains(order[i]));
}

/// Nobody stays connected to a relayer that is unhealthy beyond the next heartbeat.
pub proof fn law_unhealthy_relayer_disconnects_everyone<S>(
    subscriptions: Map<Pubkey, S>,
    order: Seq<Pubkey>,
)
    requires
        order.to_set() == subscriptions.dom(),
    ensures
        subscriptions.remove_keys(order.to_set()) == Map::<Pubkey, S>::empty(),
{
    assert(subscriptions.remove_keys(order.to_set()) =~= Map::<Pubkey, S>::empty());
}

/// What a validator is told for each reason for which its request is refused.
pub proof fn law_what_a_refused_validator_is_told()
    ensures
        RequestError::Unhealthy.text() == "relayer is unhealthy"@,
        RequestError::NoPublicKey.text() == "internal error fetching public key"@,
        RequestError::SubscriptionNotAdded.text() == "internal error adding subscription"@,
{
}

/// What is announced is the public address, and the port six below that of the socket whose turn it is.
pub proof fn law_what_is_announced(
    socket: Option<Socket>,
    ip: Seq<char>,
    ports: Seq<u16>,
    seq: u64,
)
    requires
        0 < ports.len() <= usize::MAX,
        seq <= usize::MAX,
    ensures
        announced(socket, ip, ports, seq) <==> {
            &&& socket is Some
            &&& socket->0.ip@ == ip
            &&& socket->0.port + 6 == ports[seq as int % ports.len() as int]
        },
        announceable(ports) <==> forall|i: int|
            0 <= i < ports.len() ==> (#[trigger] ports[i]) >= 6,
{
}

/// Of one more key to disconnect, it counts as disconnected where it was connected and was not listed
/// before.
pub proof fn law_one_more_key_to_disconnect(
    keys: Seq<Pubkey>,
    key: Pubkey,
    connected: Set<Pubkey>,
)
    ensures
        keys.len() == 0 ==> connected_among(keys, connected).len() == 0,
        connected.contains(key) && !keys.contains(key) ==> connected_among(
            keys.push(key),
            connected,
        ) == connected_among(keys, connected).push(key),
        !connected.contains(key) || keys.contains(key) ==> connected_among(
            keys.push(key),
            connected,
        ) == connected_among(keys, connected),
{
    assert(keys.push(key).drop_last() =~= keys);
}

/// The keys that are disconnected are those that are listed and were connected.
pub proof fn law_who_is_disconnected(keys: Seq<Pubkey>, connected: Set<Pubkey>, key: Pubkey)
    ensures
        connected_among(keys, connected).contains(key) <==> keys.contains(key)
            && connected.contains(key),
        connected_among(keys, connected).no_duplicates(),
    decreases keys.len(),
{
    if keys.len() > 0 {
        let init = keys.drop_last();
        let last = keys.last();
        let before = connected_among(init, connected);
        let after = connected_among(keys, connected);
        assert(init.push(last) =~= keys);
        law_one_more_key_to_disconnect(init, last, connected);
        law_who_is_disconnected(init, connected, key);
        law_who_is_disconnected(init, connected, last);
        assert(keys.contains(key) <==> init.contains(key) || key == last) by {
            if init.contains(key) {
                let i = choose|i: int| 0 <= i < init.len() && init[i] == key;
                assert(keys[i] == key);
            }
            if keys.contains(key) && key != last {
                let i = choose|i: int| 0 <= i < keys.len() && keys[i] == key;
                assert(init[i] == key);
            }
            assert(keys[keys.len() - 1] == last);
        }
        if after != before {
            assert(after == before.push(last));
            assert(after.contains(key) <==> before.contains(key) || key == last) by {
                if before.contains(key) {
                    let i = choose|i: int| 0 <= i < before.len() && before[i] == key;
                    assert(after[i] == key);
                }
                if after.contains(key) && key != last {
                    let i = choose|i: int| 0 <= i < after.len() && after[i] == key;
                    assert(before[i] == key);
                }
                assert(after[before.len() as int] == last);
            }
            assert forall|i: int, j: int|
                0 <= i < after.len() && 0 <= j < after.len() && i != j implies after[i]
                != after[j] by {
                if i < before.len() && j < before.len() {
                    assert(before[i] != before[j]);
                } else if i < before.len() {
                    assert(before.contains(before[i]));
                } else {
                    assert(before.contains(before[j]));
                }
            }
        }
    }
}

proof fn lemma_later_outcomes(
    keys: Seq<Pubkey>,
    outcomes: Seq<SendOutcome>,
    outcome: SendOutcome,
    allowed: Option<Set<Pubkey>>,
)
    requires
        keys.len() <= outcomes.len(),
    ensures
        closed_by_heartbeat(keys, outcomes.push(outcome), allowed) == closed_by_heartbeat(
            keys,
            outcomes,
            allowed,
        ),
    decreases keys.len(),
{
    if keys.len() > 0 {
        lemma_later_outcomes(keys.drop_last(), outcomes, outcome, allowed);
        assert(outcomes.push(outcome)[keys.len() - 1] == outcomes[keys.len() - 1]);
    }
}

/// What a heartbeat makes of one more validator: it is disconnected where it is gone, or where there is an
/// allowlist that it is not on. One whose queue is full stays, and counts.
pub proof fn law_heartbeat_of_one_more_validator(
    keys: Seq<Pubkey>,
    outcomes: Seq<SendOutcome>,
    allowed: Option<Set<Pubkey>>,
    key: Pubkey,
    outcome: SendOutcome,
)
    requires
        outcomes.len() == keys.len(),
    ensures
        ({
            let before = closed_by_heartbeat(keys, outcomes, allowed);
            let after = closed_by_heartbeat(keys.push(key), outcomes.push(outcome), allowed);
            let refused = allowed is Some && !(allowed->0).contains(key);
            &&& outcome == SendOutcome::Closed || refused ==> after == before.push(key)
            &&& outcome != SendOutcome::Closed && !refused ==> after == before
        }),
        full_count(outcomes.push(outcome)) == full_count(outcomes) + (if outcome
            == SendOutcome::Full {
            1int
        } else {
            0
        }),
        keys.len() == 0 ==> closed_by_heartbeat(keys, outcomes, allowed).len() == 0,
        keys.len() == 0 ==> full_count(outcomes) == 0,
{
    assert(keys.push(key).drop_last() =~= keys);
    lemma_later_outcomes(keys, outcomes, outcome, allowed);
    outcomes.lemma_filter_push(outcome, |o: SendOutcome| o == SendOutcome::Full);
    if keys.len() == 0 {
        reveal(Seq::filter);
    }
}

/// The slots that are looked at follow one another from the highest one on.
pub proof fn law_slots_follow_one_another(highest_slot: u64, slot_lookahead: u64, i: int)
    requires
        highest_slot + slot_lookahead <= u64::MAX,
    ensures
        slots_from(highest_slot, slot_lookahead).len() == slot_lookahead,
        0 <= i < slot_lookahead ==> slots_from(highest_slot, slot_lookahead)[i] == highest_slot + i,
{
}

/// How long packets have been under way is told in whole microseconds of the nanoseconds since their
/// stamp, and as zero where the clock shows less than the stamp.
pub proof fn law_under_way_in_microseconds(stamp: u64, now: u64)
    ensures
        now < stamp ==> under_way_us(stamp, now) == 0,
        now >= stamp ==> 1000 * under_way_us(stamp, now) <= now - stamp < 1000 * under_way_us(
            stamp,
            now,
        ) + 1000,
{
}

/// The announced port is six below its socket's, and 50,000 responses can wait for one subscriber.
pub proof fn law_offset_and_queue_in_numbers<S>()
    ensures
        QUIC_PORT_OFFSET == 6,
        SUBSCRIBER_QUEUE_CAPACITY == 50_000,
        RelayerImpl::<S>::SUBSCRIBER_QUEUE_CAPACITY == 50_000,
{
}

} // verus!
