//! What the relayer counts between two reports.
//!
//! Every packet that a filter drops is one that the fronted validator never sees, so an unexplained
//! shortfall has to be attributable here before it is blamed on anything downstream.

use vstd::multiset::Multiset;
use vstd::prelude::*;

use crate::latency::{is_largest, is_smallest, largest_told, or_zero, smallest_told, Latencies, LARGEST_EXACT, MOST_TOLD_APART};
use crate::pbp::PbpDrop;
use crate::pubkey::{pubkey_text, text_of_pubkey, Pubkey, PubkeyMap};

verus! {

/// How many responses can wait for one subscriber.
pub const SUBSCRIBER_QUEUE_CAPACITY: usize = 50_000;

/// What became of the packets sent to one validator.
#[derive(Debug, Clone, Copy, PartialEq, Eq, Structural)]
pub struct PacketForwardStats {
    pub num_packets_forwarded: u64,
    pub num_packets_dropped: u64,
}

/// The counters of the relayer.
pub struct RelayerMetrics {
    pub highest_slot: u64,
    pub num_added_connections: u64,
    pub num_removed_connections: u64,
    pub num_current_connections: u64,
    pub num_heartbeats: u64,
    pub max_heartbeat_tick_latency_us: u64,
    pub metrics_latency_us: u64,
    pub num_try_send_channel_full: u64,
    /// How long the packets were under way.
    pub packet_latencies_us: Latencies,
    /// Survivors of the packet filters that were actually handed to validator subscriptions. Each counts
    /// once, when the queue of a validator takes it for the first time.
    pub num_packets_forwarded: u64,
    /// Dropped by the OFAC address filter.
    pub num_packets_dropped_ofac: u64,
    /// Dropped because the receiving validator's own policy said so, split below by which rule
    /// fired. These are per recipient: the same packet can be dropped for one validator and
    /// forwarded to another, which is the point.
    pub num_packets_dropped_pbp: u64,
    pub num_packets_dropped_pbp_address: u64,
    pub num_packets_dropped_pbp_program: u64,
    pub num_packets_dropped_pbp_instruction: u64,
    /// Validators whose pushed policy is currently in force: it has not expired. It may list nothing, and
    /// the validator need not be connected.
    pub num_validators_with_policy: u64,
    /// Dropped because the packet is not a transaction. Only reachable when a filter is
    /// configured: with no filter the packet is forwarded unparsed.
    pub num_packets_dropped_deserialize: u64,
    /// Dropped converting to the outgoing packet.
    pub num_packets_dropped_proto_convert: u64,
    pub slot_receiver_max_len: usize,
    pub slot_receiver_capacity: usize,
    pub subscription_receiver_max_len: usize,
    pub subscription_receiver_capacity: usize,
    pub delay_packet_receiver_max_len: usize,
    pub delay_packet_receiver_capacity: usize,
    /// The sum of all items currently queued for the subscribers.
    pub packet_subscriptions_total_queued: usize,
    pub packet_stats_per_validator: PubkeyMap<PacketForwardStats>,
}

/// What [`RelayerMetrics`] holds.
pub struct MetricsView {
    pub highest_slot: u64,
    pub num_added_connections: u64,
    pub num_removed_connections: u64,
    pub num_current_connections: u64,
    pub num_heartbeats: u64,
    pub max_heartbeat_tick_latency_us: u64,
    pub metrics_latency_us: u64,
    pub num_try_send_channel_full: u64,
    pub packet_latencies_us: Multiset<u64>,
    pub num_packets_forwarded: u64,
    pub num_packets_dropped_ofac: u64,
    pub num_packets_dropped_pbp: u64,
    pub num_packets_dropped_pbp_address: u64,
    pub num_packets_dropped_pbp_program: u64,
    pub num_packets_dropped_pbp_instruction: u64,
    pub num_validators_with_policy: u64,
    pub num_packets_dropped_deserialize: u64,
    pub num_packets_dropped_proto_convert: u64,
    pub slot_receiver_max_len: usize,
    pub slot_receiver_capacity: usize,
    pub subscription_receiver_max_len: usize,
    pub subscription_receiver_capacity: usize,
    pub delay_packet_receiver_max_len: usize,
    pub delay_packet_receiver_capacity: usize,
    pub packet_subscriptions_total_queued: usize,
    pub packet_stats_per_validator: Map<Pubkey, PacketForwardStats>,
}

impl View for RelayerMetrics {
    type V = MetricsView;

    open spec fn view(&self) -> MetricsView {
        MetricsView {
            highest_slot: self.highest_slot,
            num_added_connections: self.num_added_connections,
            num_removed_connections: self.num_removed_connections,
            num_current_connections: self.num_current_connections,
            num_heartbeats: self.num_heartbeats,
            max_heartbeat_tick_latency_us: self.max_heartbeat_tick_latency_us,
            metrics_latency_us: self.metrics_latency_us,
            num_try_send_channel_full: self.num_try_send_channel_full,
            packet_latencies_us: self.packet_latencies_us@,
            num_packets_forwarded: self.num_packets_forwarded,
            num_packets_dropped_ofac: self.num_packets_dropped_ofac,
            num_packets_dropped_pbp: self.num_packets_dropped_pbp,
            num_packets_dropped_pbp_address: self.num_packets_dropped_pbp_address,
            num_packets_dropped_pbp_program: self.num_packets_dropped_pbp_program,
            num_packets_dropped_pbp_instruction: self.num_packets_dropped_pbp_instruction,
            num_validators_with_policy: self.num_validators_with_policy,
            num_packets_dropped_deserialize: self.num_packets_dropped_deserialize,
            num_packets_dropped_proto_convert: self.num_packets_dropped_proto_convert,
            slot_receiver_max_len: self.slot_receiver_max_len,
            slot_receiver_capacity: self.slot_receiver_capacity,
            subscription_receiver_max_len: self.subscription_receiver_max_len,
            subscription_receiver_capacity: self.subscription_receiver_capacity,
            delay_packet_receiver_max_len: self.delay_packet_receiver_max_len,
            delay_packet_receiver_capacity: self.delay_packet_receiver_capacity,
            packet_subscriptions_total_queued: self.packet_subscriptions_total_queued,
            packet_stats_per_validator: self.packet_stats_per_validator@,
        }
    }
}

/// The counters at the start of an interval.
pub open spec fn fresh_metrics(
    slot_receiver_capacity: usize,
    subscription_receiver_capacity: usize,
    delay_packet_receiver_capacity: usize,
) -> MetricsView {
    MetricsView {
        highest_slot: 0,
        num_added_connections: 0,
        num_removed_connections: 0,
        num_current_connections: 0,
        num_heartbeats: 0,
        max_heartbeat_tick_latency_us: 0,
        metrics_latency_us: 0,
        num_try_send_channel_full: 0,
        packet_latencies_us: Multiset::empty(),
        num_packets_forwarded: 0,
        num_packets_dropped_ofac: 0,
        num_packets_dropped_pbp: 0,
        num_packets_dropped_pbp_address: 0,
        num_packets_dropped_pbp_program: 0,
        num_packets_dropped_pbp_instruction: 0,
        num_validators_with_policy: 0,
        num_packets_dropped_deserialize: 0,
        num_packets_dropped_proto_convert: 0,
        slot_receiver_max_len: 0,
        slot_receiver_capacity,
        subscription_receiver_max_len: 0,
        subscription_receiver_capacity,
        delay_packet_receiver_max_len: 0,
        delay_packet_receiver_capacity,
        packet_subscriptions_total_queued: 0,
        packet_stats_per_validator: Map::empty(),
    }
}

/// What has been counted for a validator.
pub open spec fn stats_of(metrics: MetricsView, validator_id: Pubkey) -> PacketForwardStats {
    if metrics.packet_stats_per_validator.contains_key(validator_id) {
        metrics.packet_stats_per_validator[validator_id]
    } else {
        PacketForwardStats { num_packets_forwarded: 0, num_packets_dropped: 0 }
    }
}

/// The sum, or the largest number where the sum is larger.
pub open spec fn saturating_sum(a: u64, b: u64) -> u64 {
    if a + b > u64::MAX {
        u64::MAX
    } else {
        (a + b) as u64
    }
}

/// The counters after `count` more packets reached the queue of a validator.
pub open spec fn with_forwarded(metrics: MetricsView, validator_id: Pubkey, count: u64) -> MetricsView {
    let stats = stats_of(metrics, validator_id);
    MetricsView {
        packet_stats_per_validator: metrics.packet_stats_per_validator.insert(
            validator_id,
            PacketForwardStats {
                num_packets_forwarded: saturating_sum(stats.num_packets_forwarded, count),
                ..stats
            },
        ),
        ..metrics
    }
}

/// The counters after `count` more packets found the queue of a validator full.
pub open spec fn with_dropped(metrics: MetricsView, validator_id: Pubkey, count: u64) -> MetricsView {
    let stats = stats_of(metrics, validator_id);
    MetricsView {
        packet_stats_per_validator: metrics.packet_stats_per_validator.insert(
            validator_id,
            PacketForwardStats {
                num_packets_dropped: saturating_sum(stats.num_packets_dropped, count),
                ..stats
            },
        ),
        ..metrics
    }
}

/// The counter of a drop reason.
pub open spec fn drop_counter(metrics: MetricsView, reason: PbpDrop) -> u64 {
    match reason {
        PbpDrop::Address => metrics.num_packets_dropped_pbp_address,
        PbpDrop::Program => metrics.num_packets_dropped_pbp_program,
        PbpDrop::Instruction => metrics.num_packets_dropped_pbp_instruction,
    }
}

/// The counters with `count` as the counter of a drop reason.
pub open spec fn with_drop_counter(metrics: MetricsView, reason: PbpDrop, count: u64) -> MetricsView {
    match reason {
        PbpDrop::Address => MetricsView { num_packets_dropped_pbp_address: count, ..metrics },
        PbpDrop::Program => MetricsView { num_packets_dropped_pbp_program: count, ..metrics },
        PbpDrop::Instruction => MetricsView {
            num_packets_dropped_pbp_instruction: count,
            ..metrics
        },
    }
}

/// The counters can take in what becomes of so many packets for so many recipients.
pub open spec fn room_for(metrics: MetricsView, packets: nat, recipients: nat) -> bool {
    &&& metrics.num_packets_dropped_ofac + packets <= u64::MAX
    &&& metrics.num_packets_dropped_deserialize + packets <= u64::MAX
    &&& metrics.num_packets_dropped_proto_convert + packets <= u64::MAX
    &&& metrics.num_packets_dropped_pbp + packets * recipients <= u64::MAX
    &&& metrics.num_packets_dropped_pbp_address + packets * recipients <= u64::MAX
    &&& metrics.num_packets_dropped_pbp_program + packets * recipients <= u64::MAX
    &&& metrics.num_packets_dropped_pbp_instruction + packets * recipients <= u64::MAX
}

fn fits(counter: u64, more: u128) -> (r: bool)
    ensures
        r == (counter + more <= u64::MAX),
{
    more <= (u64::MAX - counter) as u128
}

/// The larger of the two.
pub open spec fn larger(a: usize, b: usize) -> usize {
    if a >= b {
        a
    } else {
        b
    }
}

fn max_len(a: usize, b: usize) -> (r: usize)
    ensures
        r == larger(a, b),
{
    if a >= b {
        a
    } else {
        b
    }
}

/// How many items wait for subscribers whose queues have this much room left.
pub open spec fn total_queued(capacities: Seq<usize>) -> int
    decreases capacities.len(),
{
    if capacities.len() == 0 {
        0
    } else {
        total_queued(capacities.drop_last()) + (SUBSCRIBER_QUEUE_CAPACITY - capacities.last())
    }
}

/// One number of a report.
pub struct ReportField {
    pub name: &'static str,
    pub value: i64,
}

/// The names and numbers of a report.
pub open spec fn field_views(fields: Seq<ReportField>) -> Seq<(Seq<char>, i64)> {
    fields.map_values(|f: ReportField| (f.name@, f.value))
}

/// The numbers that are reported of the relayer as a whole.
pub open spec fn report_of(metrics: MetricsView) -> Seq<(Seq<char>, i64)> {
    seq![
        ("highest_slot"@, metrics.highest_slot as i64),
        ("num_added_connections"@, metrics.num_added_connections as i64),
        ("num_removed_connections"@, metrics.num_removed_connections as i64),
        ("num_current_connections"@, metrics.num_current_connections as i64),
        ("num_heartbeats"@, metrics.num_heartbeats as i64),
        ("num_try_send_channel_full"@, metrics.num_try_send_channel_full as i64),
        ("metrics_latency_us"@, metrics.metrics_latency_us as i64),
        ("num_packets_forwarded"@, metrics.num_packets_forwarded as i64),
        ("num_packets_dropped_ofac"@, metrics.num_packets_dropped_ofac as i64),
        ("num_packets_dropped_pbp"@, metrics.num_packets_dropped_pbp as i64),
        ("num_packets_dropped_pbp_address"@, metrics.num_packets_dropped_pbp_address as i64),
        ("num_packets_dropped_pbp_program"@, metrics.num_packets_dropped_pbp_program as i64),
        ("num_packets_dropped_pbp_instruction"@, metrics.num_packets_dropped_pbp_instruction as i64),
        ("num_validators_with_policy"@, metrics.num_validators_with_policy as i64),
        ("num_packets_dropped_deserialize"@, metrics.num_packets_dropped_deserialize as i64),
        ("num_packets_dropped_proto_convert"@, metrics.num_packets_dropped_proto_convert as i64),
        ("max_heartbeat_tick_latency_us"@, metrics.max_heartbeat_tick_latency_us as i64),
        ("packet_latencies_us_min"@, or_zero(smallest_told(metrics.packet_latencies_us)) as i64),
        ("packet_latencies_us_max"@, or_zero(largest_told(metrics.packet_latencies_us)) as i64),
        ("slot_receiver_len"@, metrics.slot_receiver_max_len as i64),
        ("slot_receiver_capacity"@, metrics.slot_receiver_capacity as i64),
        ("subscription_receiver_len"@, metrics.subscription_receiver_max_len as i64),
        ("subscription_receiver_capacity"@, metrics.subscription_receiver_capacity as i64),
        ("delay_packet_receiver_len"@, metrics.delay_packet_receiver_max_len as i64),
        ("delay_packet_receiver_capacity"@, metrics.delay_packet_receiver_capacity as i64),
        ("packet_subscriptions_total_queued"@, metrics.packet_subscriptions_total_queued as i64),
    ]
}

/// Where the smallest packet latency stands in a report.
pub const MIN_FIELD: usize = 17;

/// Where the largest packet latency stands in a report.
pub const MAX_FIELD: usize = 18;

/// The report tells the smallest and the largest packet latency as they are, where they are kept as they
/// are, and zero where there is none.
pub open spec fn latencies_told(latencies: Multiset<u64>, fields: Seq<ReportField>) -> bool {
    let (least, most) = (fields[MIN_FIELD as int].value, fields[MAX_FIELD as int].value);
    &&& latencies.len() == 0 ==> least == 0 && most == 0
    &&& forall|v: u64|
        #[trigger] is_smallest(latencies, v) && v <= LARGEST_EXACT ==> least == v
    &&& forall|v: u64|
        #[trigger] is_largest(latencies, v) && v <= LARGEST_EXACT && latencies.len()
            <= MOST_TOLD_APART ==> most == v
}

/// What is reported of one validator.
pub struct ValidatorReport {
    pub pubkey: String,
    pub num_packets_forwarded: i64,
    pub num_packets_dropped: i64,
}

/// What is reported of the validators: for each of them, in their listing order, what was counted.
pub open spec fn validators_reported(
    reports: Seq<ValidatorReport>,
    stats: PubkeyMap<PacketForwardStats>,
) -> bool {
    &&& stats.order().no_duplicates()
    &&& stats.order().to_set() == stats@.dom()
    &&& reports.len() == stats.order().len()
    &&& forall|i: int|
        0 <= i < reports.len() ==> {
            let key = stats.order()[i];
            &&& (#[trigger] reports[i]).pubkey@ == text_of_pubkey(key)
            &&& reports[i].num_packets_forwarded == stats@[key].num_packets_forwarded as i64
            &&& reports[i].num_packets_dropped == stats@[key].num_packets_dropped as i64
        }
}

impl RelayerMetrics {
    /// The counters at the start of an interval.
    pub fn new(
        slot_receiver_capacity: usize,
        subscription_receiver_capacity: usize,
        delay_packet_receiver_capacity: usize,
    ) -> (r: Self)
        ensures
            r@ == fresh_metrics(
                slot_receiver_capacity,
                subscription_receiver_capacity,
                delay_packet_receiver_capacity,
            ),
    {
        RelayerMetrics {
            highest_slot: 0,
            num_added_connections: 0,
            num_removed_connections: 0,
            num_current_connections: 0,
            num_heartbeats: 0,
            max_heartbeat_tick_latency_us: 0,
            metrics_latency_us: 0,
            num_try_send_channel_full: 0,
            packet_latencies_us: Latencies::new(),
            num_packets_forwarded: 0,
            num_packets_dropped_ofac: 0,
            num_packets_dropped_pbp: 0,
            num_packets_dropped_pbp_address: 0,
            num_packets_dropped_pbp_program: 0,
            num_packets_dropped_pbp_instruction: 0,
            num_validators_with_policy: 0,
            num_packets_dropped_deserialize: 0,
            num_packets_dropped_proto_convert: 0,
            slot_receiver_max_len: 0,
            slot_receiver_capacity,
            subscription_receiver_max_len: 0,
            subscription_receiver_capacity,
            delay_packet_receiver_max_len: 0,
            delay_packet_receiver_capacity,
            packet_subscriptions_total_queued: 0,
            packet_stats_per_validator: PubkeyMap::new(),
        }
    }

    /// Whether the counters can take in what becomes of so many packets for so many recipients.
    pub fn has_room(&self, packets: usize, recipients: usize) -> (r: bool)
        ensures
            r == room_for(self@, packets as nat, recipients as nat),
    {
        let once: u128 = packets as u128;
        assert(packets * recipients <= u64::MAX * u64::MAX) by (nonlinear_arith)
            requires
                packets <= u64::MAX,
                recipients <= u64::MAX,
        ;
        let each: u128 = once * (recipients as u128);
        fits(self.num_packets_dropped_ofac, once) && fits(self.num_packets_dropped_deserialize, once) && fits(
            self.num_packets_dropped_proto_convert,
            once,
        ) && fits(self.num_packets_dropped_pbp, each) && fits(
            self.num_packets_dropped_pbp_address,
            each,
        ) && fits(self.num_packets_dropped_pbp_program, each) && fits(
            self.num_packets_dropped_pbp_instruction,
            each,
        )
    }

    /// Keeps the longest that each queue has been.
    pub fn update_max_len(
        &mut self,
        slot_receiver_len: usize,
        subscription_receiver_len: usize,
        delay_packet_receiver_len: usize,
    )
        ensures
            final(self)@ == (MetricsView {
                slot_receiver_max_len: larger(old(self)@.slot_receiver_max_len, slot_receiver_len),
                subscription_receiver_max_len: larger(
                    old(self)@.subscription_receiver_max_len,
                    subscription_receiver_len,
                ),
                delay_packet_receiver_max_len: larger(
                    old(self)@.delay_packet_receiver_max_len,
                    delay_packet_receiver_len,
                ),
                ..old(self)@
            }),
    {
        self.slot_receiver_max_len = max_len(self.slot_receiver_max_len, slot_receiver_len);
        self.subscription_receiver_max_len = max_len(
            self.subscription_receiver_max_len,
            subscription_receiver_len,
        );
        self.delay_packet_receiver_max_len = max_len(
            self.delay_packet_receiver_max_len,
            delay_packet_receiver_len,
        );
    }

    /// Counts what waits for the subscribers, given the room that each queue has left.
    pub fn update_packet_subscription_total_capacity(&mut self, capacities: &Vec<usize>)
        requires
            forall|i: int|
                0 <= i < capacities@.len() ==> (#[trigger] capacities@[i]) <= SUBSCRIBER_QUEUE_CAPACITY,
            capacities@.len() * SUBSCRIBER_QUEUE_CAPACITY <= usize::MAX,
        ensures
            final(self)@ == (MetricsView {
                packet_subscriptions_total_queued: total_queued(capacities@) as usize,
                ..old(self)@
            }),
            0 <= total_queued(capacities@) <= usize::MAX,
    {
        let mut total: usize = 0;
        let mut i: usize = 0;
        while i < capacities.len()
            invariant
                i <= capacities@.len(),
                forall|j: int|
                    0 <= j < capacities@.len() ==> (#[trigger] capacities@[j])
                        <= SUBSCRIBER_QUEUE_CAPACITY,
                capacities@.len() * SUBSCRIBER_QUEUE_CAPACITY <= usize::MAX,
                total == total_queued(capacities@.take(i as int)),
                total <= i * SUBSCRIBER_QUEUE_CAPACITY,
            decreases capacities@.len() - i,
        {
            proof {
                let some = capacities@.take(i as int);
                assert(capacities@.take(i + 1).drop_last() =~= some);
                assert((i + 1) * SUBSCRIBER_QUEUE_CAPACITY <= capacities@.len()
                    * SUBSCRIBER_QUEUE_CAPACITY) by (nonlinear_arith)
                    requires
                        i + 1 <= capacities@.len(),
                ;
                assert(i * SUBSCRIBER_QUEUE_CAPACITY + SUBSCRIBER_QUEUE_CAPACITY == (i + 1)
                    * SUBSCRIBER_QUEUE_CAPACITY) by (nonlinear_arith);
            }
            total = total + (SUBSCRIBER_QUEUE_CAPACITY - capacities[i]);
            i = i + 1;
        }
        assert(capacities@.take(capacities@.len() as int) =~= capacities@);
        self.packet_subscriptions_total_queued = total;
    }

    /// Attributes a drop to the rule that caused it. Which rule fired is the difference between "a
    /// program is blocked outright" and "one instruction of it is", and an operator reviewing a
    /// policy needs to tell those apart.
    pub fn increment_pbp_drop(&mut self, _validator_id: &Pubkey, reason: PbpDrop)
        requires
            drop_counter(old(self)@, reason) < u64::MAX,
        ensures
            final(self)@ == with_drop_counter(
                old(self)@,
                reason,
                (drop_counter(old(self)@, reason) + 1) as u64,
            ),
    {
        match reason {
            PbpDrop::Address => {
                self.num_packets_dropped_pbp_address = self.num_packets_dropped_pbp_address + 1;
            },
            PbpDrop::Program => {
                self.num_packets_dropped_pbp_program = self.num_packets_dropped_pbp_program + 1;
            },
            PbpDrop::Instruction => {
                self.num_packets_dropped_pbp_instruction = self.num_packets_dropped_pbp_instruction
                    + 1;
            },
        }
    }

    /// What has been counted for a validator.
    fn stats(&self, validator_id: &Pubkey) -> (r: PacketForwardStats)
        ensures
            r == stats_of(self@, *validator_id),
    {
        match self.packet_stats_per_validator.get(validator_id) {
            Some(stats) => *stats,
            None => PacketForwardStats { num_packets_forwarded: 0, num_packets_dropped: 0 },
        }
    }

    /// Counts packets that reached the queue of a validator.
    pub fn increment_packets_forwarded(&mut self, validator_id: &Pubkey, num_packets: u64)
        ensures
            final(self)@ == with_forwarded(old(self)@, *validator_id, num_packets),
    {
        let stats: PacketForwardStats = self.stats(validator_id);
        let forwarded: u64 = stats.num_packets_forwarded.saturating_add(num_packets);
        self.packet_stats_per_validator.insert(
            *validator_id,
            PacketForwardStats {
                num_packets_forwarded: forwarded,
                num_packets_dropped: stats.num_packets_dropped,
            },
        );
    }

    /// Counts packets that found the queue of a validator full.
    pub fn increment_packets_dropped(&mut self, validator_id: &Pubkey, num_packets: u64)
        ensures
            final(self)@ == with_dropped(old(self)@, *validator_id, num_packets),
    {
        let stats: PacketForwardStats = self.stats(validator_id);
        let dropped: u64 = stats.num_packets_dropped.saturating_add(num_packets);
        self.packet_stats_per_validator.insert(
            *validator_id,
            PacketForwardStats {
                num_packets_forwarded: stats.num_packets_forwarded,
                num_packets_dropped: dropped,
            },
        );
    }

    /// The numbers to report of the relayer as a whole.
    pub fn report(&self) -> (r: Vec<ReportField>)
        ensures
            field_views(r@) == report_of(self@),
            latencies_told(self@.packet_latencies_us, r@),
    {
        let mut fields: Vec<ReportField> = Vec::new();
        fields.push(ReportField { name: "highest_slot", value: self.highest_slot as i64 });
        fields.push(ReportField { name: "num_added_connections", value: self.num_added_connections as i64 });
        fields.push(ReportField { name: "num_removed_connections", value: self.num_removed_connections as i64 });
        fields.push(ReportField { name: "num_current_connections", value: self.num_current_connections as i64 });
        fields.push(ReportField { name: "num_heartbeats", value: self.num_heartbeats as i64 });
        fields.push(ReportField { name: "num_try_send_channel_full", value: self.num_try_send_channel_full as i64 });
        fields.push(ReportField { name: "metrics_latency_us", value: self.metrics_latency_us as i64 });
        fields.push(ReportField { name: "num_packets_forwarded", value: self.num_packets_forwarded as i64 });
        fields.push(ReportField { name: "num_packets_dropped_ofac", value: self.num_packets_dropped_ofac as i64 });
        fields.push(ReportField { name: "num_packets_dropped_pbp", value: self.num_packets_dropped_pbp as i64 });
        fields.push(ReportField { name: "num_packets_dropped_pbp_address", value: self.num_packets_dropped_pbp_address as i64 });
        fields.push(ReportField { name: "num_packets_dropped_pbp_program", value: self.num_packets_dropped_pbp_program as i64 });
        fields.push(ReportField { name: "num_packets_dropped_pbp_instruction", value: self.num_packets_dropped_pbp_instruction as i64 });
        fields.push(ReportField { name: "num_validators_with_policy", value: self.num_validators_with_policy as i64 });
        fields.push(ReportField { name: "num_packets_dropped_deserialize", value: self.num_packets_dropped_deserialize as i64 });
        fields.push(ReportField { name: "num_packets_dropped_proto_convert", value: self.num_packets_dropped_proto_convert as i64 });
        fields.push(ReportField { name: "max_heartbeat_tick_latency_us", value: self.max_heartbeat_tick_latency_us as i64 });
        fields.push(ReportField { name: "packet_latencies_us_min", value: self.packet_latencies_us.shortest() as i64 });
        fields.push(ReportField { name: "packet_latencies_us_max", value: self.packet_latencies_us.longest() as i64 });
        fields.push(ReportField { name: "slot_receiver_len", value: self.slot_receiver_max_len as i64 });
        fields.push(ReportField { name: "slot_receiver_capacity", value: self.slot_receiver_capacity as i64 });
        fields.push(ReportField { name: "subscription_receiver_len", value: self.subscription_receiver_max_len as i64 });
        fields.push(ReportField { name: "subscription_receiver_capacity", value: self.subscription_receiver_capacity as i64 });
        fields.push(ReportField { name: "delay_packet_receiver_len", value: self.delay_packet_receiver_max_len as i64 });
        fields.push(ReportField { name: "delay_packet_receiver_capacity", value: self.delay_packet_receiver_capacity as i64 });
        fields.push(ReportField { name: "packet_subscriptions_total_queued", value: self.packet_subscriptions_total_queued as i64 });
        assert(field_views(fields@) =~= report_of(self@));
        fields
    }

    /// The numbers to report of each validator, in the listing order of the validators.
    pub fn report_validators(&self) -> (r: Vec<ValidatorReport>)
        ensures
            validators_reported(r@, self.packet_stats_per_validator),
    {
        let ghost stats = self@.packet_stats_per_validator;
        let keys: Vec<Pubkey> = self.packet_stats_per_validator.keys();
        let mut reports: Vec<ValidatorReport> = Vec::new();
        let mut i: usize = 0;
        while i < keys.len()
            invariant
                i <= keys@.len(),
                keys@ == self.packet_stats_per_validator.order(),
                stats == self.packet_stats_per_validator@,
                reports@.len() == i,
                forall|j: int|
                    0 <= j < i ==> {
                        &&& (#[trigger] reports@[j]).pubkey@ == text_of_pubkey(keys@[j])
                        &&& reports@[j].num_packets_forwarded
                            == stats[keys@[j]].num_packets_forwarded as i64
                        &&& reports@[j].num_packets_dropped
                            == stats[keys@[j]].num_packets_dropped as i64
                    },
            decreases keys@.len() - i,
        {
            let (key, stats) = self.packet_stats_per_validator.entry_at(i);
            reports.push(
                ValidatorReport {
                    pubkey: pubkey_text(&key),
                    num_packets_forwarded: stats.num_packets_forwarded as i64,
                    num_packets_dropped: stats.num_packets_dropped as i64,
                },
            );
            i = i + 1;
        }
        reports
    }
}

/// Counting for one validator leaves what is counted for the others alone.
pub proof fn law_stats_are_per_validator(
    metrics: MetricsView,
    validator_id: Pubkey,
    other: Pubkey,
    count: u64,
)
    requires
        validator_id != other,
    ensures
        stats_of(with_forwarded(metrics, validator_id, count), other) == stats_of(metrics, other),
        stats_of(with_dropped(metrics, validator_id, count), other) == stats_of(metrics, other),
{
}

/// What is told of the counters is all that they hold.
pub proof fn law_counters_are_told(metrics: RelayerMetrics)
    ensures
        metrics@.highest_slot == metrics.highest_slot,
        metrics@.num_added_connections == metrics.num_added_connections,
        metrics@.num_removed_connections == metrics.num_removed_connections,
        metrics@.num_current_connections == metrics.num_current_connections,
        metrics@.num_heartbeats == metrics.num_heartbeats,
        metrics@.max_heartbeat_tick_latency_us == metrics.max_heartbeat_tick_latency_us,
        metrics@.metrics_latency_us == metrics.metrics_latency_us,
        metrics@.num_try_send_channel_full == metrics.num_try_send_channel_full,
        metrics@.packet_latencies_us == metrics.packet_latencies_us@,
        metrics@.num_packets_forwarded == metrics.num_packets_forwarded,
        metrics@.num_packets_dropped_ofac == metrics.num_packets_dropped_ofac,
        metrics@.num_packets_dropped_pbp == metrics.num_packets_dropped_pbp,
        metrics@.num_packets_dropped_pbp_address == metrics.num_packets_dropped_pbp_address,
        metrics@.num_packets_dropped_pbp_program == metrics.num_packets_dropped_pbp_program,
        metrics@.num_packets_dropped_pbp_instruction == metrics.num_packets_dropped_pbp_instruction,
        metrics@.num_validators_with_policy == metrics.num_validators_with_policy,
        metrics@.num_packets_dropped_deserialize == metrics.num_packets_dropped_deserialize,
        metrics@.num_packets_dropped_proto_convert == metrics.num_packets_dropped_proto_convert,
        metrics@.slot_receiver_max_len == metrics.slot_receiver_max_len,
        metrics@.slot_receiver_capacity == metrics.slot_receiver_capacity,
        metrics@.subscription_receiver_max_len == metrics.subscription_receiver_max_len,
        metrics@.subscription_receiver_capacity == metrics.subscription_receiver_capacity,
        metrics@.delay_packet_receiver_max_len == metrics.delay_packet_receiver_max_len,
        metrics@.delay_packet_receiver_capacity == metrics.delay_packet_receiver_capacity,
        metrics@.packet_subscriptions_total_queued == metrics.packet_subscriptions_total_queued,
        metrics@.packet_stats_per_validator == metrics.packet_stats_per_validator@,
{
}

/// An interval starts with nothing counted.
pub proof fn law_interval_starts_at_zero(
    slot: usize,
    subscription: usize,
    delay: usize,
    key: Pubkey,
)
    ensures
        fresh_metrics(slot, subscription, delay).highest_slot == 0,
        fresh_metrics(slot, subscription, delay).num_added_connections == 0,
        fresh_metrics(slot, subscription, delay).num_removed_connections == 0,
        fresh_metrics(slot, subscription, delay).num_current_connections == 0,
        fresh_metrics(slot, subscription, delay).num_heartbeats == 0,
        fresh_metrics(slot, subscription, delay).max_heartbeat_tick_latency_us == 0,
        fresh_metrics(slot, subscription, delay).metrics_latency_us == 0,
        fresh_metrics(slot, subscription, delay).num_try_send_channel_full == 0,
        fresh_metrics(slot, subscription, delay).packet_latencies_us.len() == 0,
        fresh_metrics(slot, subscription, delay).num_packets_forwarded == 0,
        fresh_metrics(slot, subscription, delay).num_packets_dropped_ofac == 0,
        fresh_metrics(slot, subscription, delay).num_packets_dropped_pbp == 0,
        fresh_metrics(slot, subscription, delay).num_packets_dropped_pbp_address == 0,
        fresh_metrics(slot, subscription, delay).num_packets_dropped_pbp_program == 0,
        fresh_metrics(slot, subscription, delay).num_packets_dropped_pbp_instruction == 0,
        fresh_metrics(slot, subscription, delay).num_validators_with_policy == 0,
        fresh_metrics(slot, subscription, delay).num_packets_dropped_deserialize == 0,
        fresh_metrics(slot, subscription, delay).num_packets_dropped_proto_convert == 0,
        fresh_metrics(slot, subscription, delay).slot_receiver_max_len == 0,
        fresh_metrics(slot, subscription, delay).slot_receiver_capacity == slot,
        fresh_metrics(slot, subscription, delay).subscription_receiver_max_len == 0,
        fresh_metrics(slot, subscription, delay).subscription_receiver_capacity == subscription,
        fresh_metrics(slot, subscription, delay).delay_packet_receiver_max_len == 0,
        fresh_metrics(slot, subscription, delay).delay_packet_receiver_capacity == delay,
        fresh_metrics(slot, subscription, delay).packet_subscriptions_total_queued == 0,
        !fresh_metrics(slot, subscription, delay).packet_stats_per_validator.contains_key(key),
{
}

/// Counting packets for a validator adds them to what was counted for it, as far as the counter goes, and
/// touches neither its other counter, nor another validator, nor any other number.
pub proof fn law_counting_for_a_validator(
    metrics: MetricsView,
    validator_id: Pubkey,
    count: u64,
    other: Pubkey,
)
    ensures
        ({
            let was = metrics.packet_stats_per_validator;
            let sent = with_forwarded(metrics, validator_id, count);
            let lost = with_dropped(metrics, validator_id, count);
            let forwarded = if was.contains_key(validator_id) {
                was[validator_id].num_packets_forwarded
            } else {
                0
            };
            let dropped = if was.contains_key(validator_id) {
                was[validator_id].num_packets_dropped
            } else {
                0
            };
            let stats = sent.packet_stats_per_validator;
            let losses = lost.packet_stats_per_validator;
            &&& sent == (MetricsView { packet_stats_per_validator: stats, ..metrics })
            &&& lost == (MetricsView { packet_stats_per_validator: losses, ..metrics })
            &&& stats.contains_key(validator_id) && losses.contains_key(validator_id)
            &&& forwarded + count <= u64::MAX ==> stats[validator_id].num_packets_forwarded
                == forwarded + count
            &&& forwarded + count > u64::MAX ==> stats[validator_id].num_packets_forwarded
                == u64::MAX
            &&& stats[validator_id].num_packets_dropped == dropped
            &&& dropped + count <= u64::MAX ==> losses[validator_id].num_packets_dropped == dropped
                + count
            &&& dropped + count > u64::MAX ==> losses[validator_id].num_packets_dropped
                == u64::MAX
            &&& losses[validator_id].num_packets_forwarded == forwarded
            &&& other != validator_id ==> {
                &&& stats.contains_key(other) <==> was.contains_key(other)
                &&& losses.contains_key(other) <==> was.contains_key(other)
                &&& was.contains_key(other) ==> stats[other] == was[other] && losses[other]
                    == was[other]
            }
        }),
{
}

/// Each drop reason has a counter of its own.
pub proof fn law_each_reason_has_its_counter(metrics: MetricsView, count: u64)
    ensures
        drop_counter(metrics, PbpDrop::Address) == metrics.num_packets_dropped_pbp_address,
        drop_counter(metrics, PbpDrop::Program) == metrics.num_packets_dropped_pbp_program,
        drop_counter(metrics, PbpDrop::Instruction) == metrics.num_packets_dropped_pbp_instruction,
        with_drop_counter(metrics, PbpDrop::Address, count) == (MetricsView {
            num_packets_dropped_pbp_address: count,
            ..metrics
        }),
        with_drop_counter(metrics, PbpDrop::Program, count) == (MetricsView {
            num_packets_dropped_pbp_program: count,
            ..metrics
        }),
        with_drop_counter(metrics, PbpDrop::Instruction, count) == (MetricsView {
            num_packets_dropped_pbp_instruction: count,
            ..metrics
        }),
{
}

/// There is room exactly where no counter can overflow, whatever becomes of the packets: each packet can
/// be dropped once in the first pass, and once for each recipient in the second.
pub proof fn law_room_is_for_every_outcome(metrics: MetricsView, packets: nat, recipients: nat)
    ensures
        room_for(metrics, packets, recipients) <==> {
            &&& metrics.num_packets_dropped_ofac + packets < 0x1_0000_0000_0000_0000
            &&& metrics.num_packets_dropped_deserialize + packets < 0x1_0000_0000_0000_0000
            &&& metrics.num_packets_dropped_proto_convert + packets < 0x1_0000_0000_0000_0000
            &&& metrics.num_packets_dropped_pbp + packets * recipients < 0x1_0000_0000_0000_0000
            &&& metrics.num_packets_dropped_pbp_address + packets * recipients
                < 0x1_0000_0000_0000_0000
            &&& metrics.num_packets_dropped_pbp_program + packets * recipients
                < 0x1_0000_0000_0000_0000
            &&& metrics.num_packets_dropped_pbp_instruction + packets * recipients
                < 0x1_0000_0000_0000_0000
        },
{
}

/// The larger of two is one of them, and neither is larger.
pub proof fn law_larger_is_the_larger(a: usize, b: usize)
    ensures
        larger(a, b) >= a && larger(a, b) >= b,
        larger(a, b) == a || larger(a, b) == b,
{
}

/// One more queue, of 50,000 places, holds as many items as it has places that are not free.
pub proof fn law_one_more_queue(capacities: Seq<usize>, room: usize)
    ensures
        capacities.len() == 0 ==> total_queued(capacities) == 0,
        total_queued(capacities.push(room)) == total_queued(capacities) + 50_000 - room,
{
    assert(capacities.push(room).drop_last() =~= capacities);
}

/// What a report tells, number by number, each under its name.
pub proof fn law_report_tells_each_number(metrics: MetricsView, fields: Seq<ReportField>, i: int)
    ensures
        report_of(metrics).len() == 26,
        report_of(metrics)[0] == ("highest_slot"@, metrics.highest_slot as i64),
        report_of(metrics)[1] == ("num_added_connections"@, metrics.num_added_connections as i64),
        report_of(metrics)[2] == ("num_removed_connections"@, metrics.num_removed_connections as i64),
        report_of(metrics)[3] == ("num_current_connections"@, metrics.num_current_connections as i64),
        report_of(metrics)[4] == ("num_heartbeats"@, metrics.num_heartbeats as i64),
        report_of(metrics)[5] == ("num_try_send_channel_full"@, metrics.num_try_send_channel_full as i64),
        report_of(metrics)[6] == ("metrics_latency_us"@, metrics.metrics_latency_us as i64),
        report_of(metrics)[7] == ("num_packets_forwarded"@, metrics.num_packets_forwarded as i64),
        report_of(metrics)[8] == ("num_packets_dropped_ofac"@, metrics.num_packets_dropped_ofac as i64),
        report_of(metrics)[9] == ("num_packets_dropped_pbp"@, metrics.num_packets_dropped_pbp as i64),
        report_of(metrics)[10] == ("num_packets_dropped_pbp_address"@, metrics.num_packets_dropped_pbp_address as i64),
        report_of(metrics)[11] == ("num_packets_dropped_pbp_program"@, metrics.num_packets_dropped_pbp_program as i64),
        report_of(metrics)[12] == ("num_packets_dropped_pbp_instruction"@, metrics.num_packets_dropped_pbp_instruction as i64),
        report_of(metrics)[13] == ("num_validators_with_policy"@, metrics.num_validators_with_policy as i64),
        report_of(metrics)[14] == ("num_packets_dropped_deserialize"@, metrics.num_packets_dropped_deserialize as i64),
        report_of(metrics)[15] == ("num_packets_dropped_proto_convert"@, metrics.num_packets_dropped_proto_convert as i64),
        report_of(metrics)[16] == ("max_heartbeat_tick_latency_us"@, metrics.max_heartbeat_tick_latency_us as i64),
        report_of(metrics)[17].0 == "packet_latencies_us_min"@,
        smallest_told(metrics.packet_latencies_us) matches Some(us) ==> report_of(metrics)[17].1 == us as i64,
        smallest_told(metrics.packet_latencies_us) is None ==> report_of(metrics)[17].1 == 0,
        report_of(metrics)[18].0 == "packet_latencies_us_max"@,
        largest_told(metrics.packet_latencies_us) matches Some(us) ==> report_of(metrics)[18].1 == us as i64,
        largest_told(metrics.packet_latencies_us) is None ==> report_of(metrics)[18].1 == 0,
        report_of(metrics)[19] == ("slot_receiver_len"@, metrics.slot_receiver_max_len as i64),
        report_of(metrics)[20] == ("slot_receiver_capacity"@, metrics.slot_receiver_capacity as i64),
        report_of(metrics)[21] == ("subscription_receiver_len"@, metrics.subscription_receiver_max_len as i64),
        report_of(metrics)[22] == ("subscription_receiver_capacity"@, metrics.subscription_receiver_capacity as i64),
        report_of(metrics)[23] == ("delay_packet_receiver_len"@, metrics.delay_packet_receiver_max_len as i64),
        report_of(metrics)[24] == ("delay_packet_receiver_capacity"@, metrics.delay_packet_receiver_capacity as i64),
        report_of(metrics)[25] == ("packet_subscriptions_total_queued"@, metrics.packet_subscriptions_total_queued as i64),
        field_views(fields).len() == fields.len(),
        0 <= i < fields.len() ==> field_views(fields)[i] == (fields[i].name@, fields[i].value),
{
}

/// What is reported of the validators: each that something was counted for, once, with what was counted
/// for it.
pub proof fn law_each_validator_is_reported(
    reports: Seq<ValidatorReport>,
    stats: PubkeyMap<PacketForwardStats>,
    key: Pubkey,
)
    requires
        validators_reported(reports, stats),
        stats@.contains_key(key),
    ensures
        exists|i: int|
            0 <= i < reports.len() && (#[trigger] reports[i]).pubkey@ == text_of_pubkey(key)
                && reports[i].num_packets_forwarded == stats@[key].num_packets_forwarded as i64
                && reports[i].num_packets_dropped == stats@[key].num_packets_dropped as i64,
        reports.len() == stats@.dom().len(),
{
    assert(stats.order().to_set().contains(key));
    let i = choose|i: int| 0 <= i < stats.order().len() && stats.order()[i] == key;
    assert(reports[i].pubkey@ == text_of_pubkey(key));
    stats.order().unique_seq_to_set();
}

/// A report tells the smallest and the largest packet latency as they are, up to 1024 microseconds, and
/// zero where there is none.
pub proof fn law_latencies_in_a_report(latencies: Multiset<u64>, fields: Seq<ReportField>, us: u64)
    requires
        latencies_told(latencies, fields),
        us <= 1024,
    ensures
        latencies.len() == 0 ==> fields[17].value == 0 && fields[18].value == 0,
        latencies.contains(us) && (forall|w: u64| #[trigger] latencies.contains(w) ==> us <= w)
            ==> fields[17].value == us,
        latencies.contains(us) && latencies.len() <= 9_007_199_254_740_992 && (forall|w: u64|
            #[trigger] latencies.contains(w) ==> w <= us) ==> fields[18].value == us,
{
    if latencies.contains(us) && (forall|w: u64| #[trigger] latencies.contains(w) ==> us <= w) {
        assert(is_smallest(latencies, us));
    }
    if latencies.contains(us) && (forall|w: u64| #[trigger] latencies.contains(w) ==> w <= us) {
        assert(is_largest(latencies, us));
    }
}

} // verus!
