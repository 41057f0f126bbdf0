//! Signature verification for the relayer's TPU ingress.
//!
//! A relayer has no bank and no leader schedule of its own to consult, and forwards everything it
//! accepts, votes among it. All it needs is to drop packets whose signatures do not verify.

use vstd::prelude::*;

use rayon::ThreadPool;
use solana_perf::packet::PacketBatch;

use crate::metrics::{field_views, ReportField};
use crate::packet::{batch_packet, batch_packets, MetaView, Packet, PacketView};

verus! {

/// How long to wait for a batch before looking whether to exit, in milliseconds.
pub const RECV_TIMEOUT_MS: u64 = 100;

/// Batches drained per pass before verifying, so the thread pool gets useful-sized work.
pub const MAX_BATCHES_PER_PASS: usize = 64;

/// How long numbers are gathered before they are reported, in nanoseconds.
pub const REPORT_INTERVAL_NS: u64 = 1_000_000_000;

/// `rayon::ThreadPool`, of which nothing is known.
#[verifier::external_type_specification]
#[verifier::external_body]
pub struct ExThreadPool(ThreadPool);

/// `std::time::Instant`, of which nothing is known.
#[verifier::external_type_specification]
#[verifier::external_body]
pub struct ExInstant(std::time::Instant);

/// `Instant::now`: some point in time.
pub assume_specification[ std::time::Instant::now ]() -> (r: std::time::Instant);

/// `Instant::elapsed`, in microseconds. How many there are is not known.
#[verifier::external_body]
fn elapsed_us(start: &std::time::Instant) -> (r: u64) {
    start.elapsed().as_micros() as u64
}

/// What the signatures of a packet with these bytes say: whether it is a simple vote transaction,
/// and whether it is a transaction of a kind that is let through, whose signatures all verify.
pub uninterp spec fn signature_check(
    data: Seq<u8>,
    reject_non_vote: bool,
    enable_tx_v1: bool,
) -> (bool, bool);

/// A packet after it has been marked to be discarded.
pub open spec fn discarded(packet: PacketView) -> PacketView {
    PacketView { data: None, meta: MetaView { discard: true, ..packet.meta } }
}

/// A packet after it has been found to be a simple vote transaction, or not.
pub open spec fn vote_marked(packet: PacketView, simple_vote_tx: bool) -> PacketView {
    PacketView {
        meta: MetaView {
            simple_vote_tx: packet.meta.simple_vote_tx || simple_vote_tx,
            ..packet.meta
        },
        ..packet
    }
}

/// The bytes of a packet, if it has any.
pub open spec fn bytes_of(packet: PacketView) -> Seq<u8> {
    match packet.data {
        Some(data) => data,
        None => Seq::empty(),
    }
}

/// A packet after its signatures have been found to be as `check` says. One that was to be
/// discarded before stays as it is.
pub open spec fn marked(packet: PacketView, check: (bool, bool)) -> PacketView {
    if packet.meta.discard {
        packet
    } else if packet.data is None {
        discarded(packet)
    } else if check.1 {
        vote_marked(packet, check.0)
    } else {
        discarded(vote_marked(packet, check.0))
    }
}

/// A packet after its signatures have been checked.
pub open spec fn checked(packet: PacketView, reject_non_vote: bool, enable_tx_v1: bool) -> PacketView {
    marked(packet, signature_check(bytes_of(packet), reject_non_vote, enable_tx_v1))
}

/// The packets after their signatures have been checked.
pub open spec fn all_checked(
    packets: Seq<PacketView>,
    reject_non_vote: bool,
    enable_tx_v1: bool,
) -> Seq<PacketView> {
    packets.map_values(|p: PacketView| checked(p, reject_non_vote, enable_tx_v1))
}

/// `solana_perf::sigverify::ed25519_verify`: checks each packet that is not to be discarded. It
/// marks simple votes, and marks to be discarded what has no data or does not pass. How many
/// packets there are only goes into a log line. What makes a transaction's signatures verify is
/// left to that function.
#[verifier::external_body]
fn ed25519_verify(
    thread_pool: &ThreadPool,
    batches: &mut Vec<PacketBatch>,
    reject_non_vote: bool,
    packet_count: usize,
    enable_tx_v1: bool,
)
    ensures
        final(batches)@.len() == old(batches)@.len(),
        forall|i: int|
            0 <= i < old(batches)@.len() ==> #[trigger] batch_packets(final(batches)@[i]).len()
                == batch_packets(old(batches)@[i]).len(),
        forall|i: int, j: int|
            0 <= i < old(batches)@.len() && 0 <= j < batch_packets(old(batches)@[i]).len()
                ==> #[trigger] batch_packets(final(batches)@[i])[j] == marked(
                batch_packets(old(batches)@[i])[j],
                signature_check(
                    bytes_of(batch_packets(old(batches)@[i])[j]),
                    reject_non_vote,
                    enable_tx_v1,
                ),
            ),
{
    solana_perf::sigverify::ed25519_verify(
        thread_pool,
        batches,
        reject_non_vote,
        packet_count,
        enable_tx_v1,
    );
}

/// The packets of each batch.
pub open spec fn packets_of(batches: Seq<PacketBatch>) -> Seq<Seq<PacketView>> {
    batches.map_values(|b: PacketBatch| batch_packets(b))
}

/// How many packets there are in all.
pub open spec fn packet_count(batches: Seq<Seq<PacketView>>) -> nat
    decreases batches.len(),
{
    if batches.len() == 0 {
        0
    } else {
        packet_count(batches.drop_last()) + batches.last().len()
    }
}

/// How many of the packets are to be discarded.
pub open spec fn discard_count(packets: Seq<PacketView>) -> nat
    decreases packets.len(),
{
    if packets.len() == 0 {
        0
    } else {
        discard_count(packets.drop_last()) + (if packets.last().meta.discard {
            1nat
        } else {
            0
        })
    }
}

/// How many of the packets are to be discarded in all.
pub open spec fn total_discards(batches: Seq<Seq<PacketView>>) -> nat
    decreases batches.len(),
{
    if batches.len() == 0 {
        0
    } else {
        total_discards(batches.drop_last()) + discard_count(batches.last())
    }
}

proof fn lemma_discards_bounded(packets: Seq<PacketView>)
    ensures
        discard_count(packets) <= packets.len(),
    decreases packets.len(),
{
    if packets.len() > 0 {
        lemma_discards_bounded(packets.drop_last());
    }
}

proof fn lemma_count_grows(batches: Seq<Seq<PacketView>>, n: int)
    requires
        0 <= n <= batches.len(),
    ensures
        packet_count(batches.take(n)) <= packet_count(batches),
    decreases batches.len(),
{
    if n == batches.len() {
        assert(batches.take(n) =~= batches);
    } else {
        lemma_count_grows(batches.drop_last(), n);
        assert(batches.drop_last().take(n) =~= batches.take(n));
    }
}

proof fn lemma_count_kept(a: Seq<Seq<PacketView>>, b: Seq<Seq<PacketView>>)
    requires
        a.len() == b.len(),
        forall|i: int| 0 <= i < a.len() ==> #[trigger] a[i].len() == #[trigger] b[i].len(),
    ensures
        packet_count(a) == packet_count(b),
    decreases a.len(),
{
    if a.len() > 0 {
        assert forall|i: int| 0 <= i < a.drop_last().len() implies #[trigger] a.drop_last()[i].len()
            == #[trigger] b.drop_last()[i].len() by {
            assert(a[i].len() == b[i].len());
        }
        lemma_count_kept(a.drop_last(), b.drop_last());
        assert(a[a.len() - 1].len() == b[a.len() - 1].len());
    }
}

/// How many packets there are in all.
fn count_packets(batches: &Vec<PacketBatch>) -> (r: usize)
    requires
        packet_count(packets_of(batches@)) <= usize::MAX,
    ensures
        r == packet_count(packets_of(batches@)),
{
    let ghost all = packets_of(batches@);
    let mut count: usize = 0;
    let mut i: usize = 0;
    while i < batches.len()
        invariant
            i <= batches@.len(),
            all == packets_of(batches@),
            packet_count(all) <= usize::MAX,
            count == packet_count(all.take(i as int)),
        decreases batches@.len() - i,
    {
        proof {
            assert(all.take(i + 1).drop_last() =~= all.take(i as int));
            lemma_count_grows(all, i + 1);
        }
        count = count + batches[i].len();
        i = i + 1;
    }
    assert(all.take(batches@.len() as int) =~= all);
    count
}

/// How many packets of a batch are to be discarded.
fn count_batch_discards(batch: &PacketBatch) -> (r: usize)
    ensures
        r == discard_count(batch_packets(*batch)),
{
    let ghost packets = batch_packets(*batch);
    let mut count: usize = 0;
    let mut i: usize = 0;
    let len: usize = batch.len();
    while i < len
        invariant
            i <= len,
            len == packets.len(),
            packets == batch_packets(*batch),
            count == discard_count(packets.take(i as int)),
            count <= i,
        decreases len - i,
    {
        let packet: Packet = batch_packet(batch, i);
        assert(packets.take(i + 1).drop_last() =~= packets.take(i as int));
        if packet.meta.discard {
            count = count + 1;
        }
        i = i + 1;
    }
    assert(packets.take(len as int) =~= packets);
    count
}

/// How many packets are to be discarded in all.
fn count_discards(batches: &Vec<PacketBatch>) -> (r: usize)
    requires
        packet_count(packets_of(batches@)) <= usize::MAX,
    ensures
        r == total_discards(packets_of(batches@)),
        r <= packet_count(packets_of(batches@)),
{
    let ghost all = packets_of(batches@);
    let mut count: usize = 0;
    let mut i: usize = 0;
    while i < batches.len()
        invariant
            i <= batches@.len(),
            all == packets_of(batches@),
            packet_count(all) <= usize::MAX,
            count == total_discards(all.take(i as int)),
            count <= packet_count(all.take(i as int)),
        decreases batches@.len() - i,
    {
        proof {
            assert(all.take(i + 1).drop_last() =~= all.take(i as int));
            lemma_count_grows(all, i + 1);
            lemma_discards_bounded(batch_packets(batches@[i as int]));
        }
        count = count + count_batch_discards(&batches[i]);
        i = i + 1;
    }
    assert(all.take(batches@.len() as int) =~= all);
    count
}

/// What one pass did.
pub struct PassStats {
    pub received: usize,
    pub discarded: usize,
    pub verify_us: u64,
}

/// The stage that marks packets whose signatures do not verify.
pub struct SigVerifyStage {
    pub thread_pool: ThreadPool,
}

impl SigVerifyStage {
    /// A stage that verifies on the threads of the pool.
    pub fn new(thread_pool: ThreadPool) -> (r: Self)
        ensures
            r.thread_pool == thread_pool,
    {
        SigVerifyStage { thread_pool }
    }

    /// Whether a pass that holds this many batches takes another one where one is waiting.
    pub fn takes_another(held: usize) -> (r: bool)
        ensures
            r == (held < MAX_BATCHES_PER_PASS),
    {
        held < MAX_BATCHES_PER_PASS
    }

    /// Verifies the batches of one pass. A relayer forwards votes too, so nothing is rejected for
    /// not being one; and transactions of version 1 are let in, or every one of them would be
    /// discarded here as malformed. How long it takes is not known.
    pub fn verify_pass(&self, batches: &mut Vec<PacketBatch>) -> (r: PassStats)
        requires
            packet_count(packets_of(old(batches)@)) <= usize::MAX,
        ensures
            packets_of(final(batches)@) == packets_of(old(batches)@).map_values(
                |packets: Seq<PacketView>| all_checked(packets, false, true),
            ),
            r.received == packet_count(packets_of(old(batches)@)),
            r.discarded == total_discards(packets_of(final(batches)@)),
    {
        let received: usize = count_packets(batches);
        let start: std::time::Instant = std::time::Instant::now();
        ed25519_verify(&self.thread_pool, batches, false, received, true);
        let verify_us: u64 = elapsed_us(&start);
        proof {
            let before = packets_of(old(batches)@);
            let after = packets_of(batches@);
            assert forall|i: int| 0 <= i < before.len() implies #[trigger] after[i] == all_checked(
                before[i],
                false,
                true,
            ) by {
                assert(after[i] == batch_packets(batches@[i]));
                assert(after[i] =~= all_checked(before[i], false, true));
            }
            assert(after =~= before.map_values(
                |packets: Seq<PacketView>| all_checked(packets, false, true),
            ));
            lemma_count_kept(before, after);
        }
        let discarded: usize = count_discards(batches);
        PassStats { received, discarded, verify_us }
    }
}

/// What the passes since the last report did.
pub struct SigVerifyStats {
    /// When the first of them was recorded, in nanoseconds of a clock that never goes back.
    pub since: Option<u64>,
    pub passes: u64,
    pub received: u64,
    pub discarded: u64,
    pub verify_us: u64,
}

/// No passes.
pub open spec fn no_passes() -> SigVerifyStats {
    SigVerifyStats { since: None, passes: 0, received: 0, discarded: 0, verify_us: 0 }
}

impl Default for SigVerifyStats {
    /// No passes.
    fn default() -> (r: Self)
        ensures
            r == no_passes(),
    {
        SigVerifyStats { since: None, passes: 0, received: 0, discarded: 0, verify_us: 0 }
    }
}

/// The gathered numbers have waited long enough to be reported.
pub open spec fn report_due(stats: SigVerifyStats, now: u64) -> bool {
    match stats.since {
        Some(since) => now - since >= REPORT_INTERVAL_NS,
        None => false,
    }
}

/// The numbers that are reported.
pub open spec fn sigverify_report(stats: SigVerifyStats) -> Seq<(Seq<char>, i64)> {
    seq![
        ("passes"@, stats.passes as i64),
        ("num_packets_received"@, stats.received as i64),
        ("num_packets_discarded"@, stats.discarded as i64),
        ("verify_us"@, stats.verify_us as i64),
    ]
}

impl SigVerifyStats {
    /// Adds what a pass did. The interval starts with its first pass.
    pub fn record(&mut self, pass: PassStats, now: u64)
        requires
            old(self).passes < u64::MAX,
            old(self).received + pass.received <= u64::MAX,
            old(self).discarded + pass.discarded <= u64::MAX,
            old(self).verify_us + pass.verify_us <= u64::MAX,
        ensures
            *final(self) == (SigVerifyStats {
                since: match old(self).since {
                    Some(since) => Some(since),
                    None => Some(now),
                },
                passes: (old(self).passes + 1) as u64,
                received: (old(self).received + pass.received) as u64,
                discarded: (old(self).discarded + pass.discarded) as u64,
                verify_us: (old(self).verify_us + pass.verify_us) as u64,
            }),
    {
        if self.since.is_none() {
            self.since = Some(now);
        }
        self.passes = self.passes + 1;
        self.received = self.received + pass.received as u64;
        self.discarded = self.discarded + pass.discarded as u64;
        self.verify_us = self.verify_us + pass.verify_us;
    }

    /// Hands out the numbers to report where the interval is over, and starts the next one.
    pub fn maybe_report(&mut self, now: u64) -> (r: Option<Vec<ReportField>>)
        ensures
            r is Some <==> report_due(*old(self), now),
            r matches Some(fields) ==> field_views(fields@) == sigverify_report(*old(self)),
            *final(self) == if report_due(*old(self), now) {
                no_passes()
            } else {
                *old(self)
            },
    {
        let since: u64 = match self.since {
            Some(since) => since,
            None => {
                return None;
            },
        };
        if now < since || now - since < REPORT_INTERVAL_NS {
            return None;
        }
        let mut fields: Vec<ReportField> = Vec::new();
        fields.push(ReportField { name: "passes", value: self.passes as i64 });
        fields.push(ReportField { name: "num_packets_received", value: self.received as i64 });
        // A packet dropped here failed signature verification and never reaches the validator. A
        // jump usually means that somebody is spraying us, not a bug.
        fields.push(ReportField { name: "num_packets_discarded", value: self.discarded as i64 });
        fields.push(ReportField { name: "verify_us", value: self.verify_us as i64 });
        assert(field_views(fields@) =~= sigverify_report(*old(self)));
        *self = SigVerifyStats::default();
        Some(fields)
    }
}

/// Only what was to be discarded before, or does not pass the check, is discarded: a packet that
/// passes goes on with its bytes as they came in, and so does one that is no vote.
pub proof fn law_verified_packets_pass(packet: PacketView, data: Seq<u8>)
    requires
        !packet.meta.discard,
        packet.data == Some(data),
    ensures
        checked(packet, false, true).meta.discard <==> !signature_check(data, false, true).1,
        !checked(packet, false, true).meta.discard ==> checked(packet, false, true).data == Some(
            data,
        ),
{
}

/// A pass neither loses packets nor brings back one that was to be discarded.
pub proof fn law_discarded_stays_discarded(
    packets: Seq<PacketView>,
    reject_non_vote: bool,
    enable_tx_v1: bool,
    i: int,
)
    requires
        0 <= i < packets.len(),
        packets[i].meta.discard,
    ensures
        all_checked(packets, reject_non_vote, enable_tx_v1).len() == packets.len(),
        all_checked(packets, reject_non_vote, enable_tx_v1)[i] == packets[i],
{
}

/// Checking what was checked before changes nothing.
pub proof fn law_checking_twice_is_checking_once(
    packet: PacketView,
    reject_non_vote: bool,
    enable_tx_v1: bool,
)
    ensures
        checked(checked(packet, reject_non_vote, enable_tx_v1), reject_non_vote, enable_tx_v1)
            == checked(packet, reject_non_vote, enable_tx_v1),
{
}

/// What a check makes of a packet. One that is to be discarded stays as it is; one without data, or that
/// does not pass, is marked to be discarded and loses its bytes; every other keeps them. A packet with
/// data is marked as a simple vote where it is one. Nothing else about a packet changes.
pub proof fn law_what_a_check_changes(
    packet: PacketView,
    reject_non_vote: bool,
    enable_tx_v1: bool,
)
    ensures
        ({
            let after = checked(packet, reject_non_vote, enable_tx_v1);
            let (vote, passes) = signature_check(packet.data->0, reject_non_vote, enable_tx_v1);
            &&& packet.meta.discard ==> after == packet
            &&& !packet.meta.discard && packet.data is None ==> {
                &&& after.data is None
                &&& after.meta == (MetaView { discard: true, ..packet.meta })
            }
            &&& !packet.meta.discard && packet.data is Some && passes ==> {
                &&& after.data == packet.data
                &&& after.meta == (MetaView {
                    simple_vote_tx: packet.meta.simple_vote_tx || vote,
                    ..packet.meta
                })
            }
            &&& !packet.meta.discard && packet.data is Some && !passes ==> {
                &&& after.data is None
                &&& after.meta == (MetaView {
                    discard: true,
                    simple_vote_tx: packet.meta.simple_vote_tx || vote,
                    ..packet.meta
                })
            }
        }),
{
}

/// A check is made of each packet, in its place, and of each batch.
pub proof fn law_each_packet_is_checked(
    packets: Seq<PacketView>,
    batches: Seq<PacketBatch>,
    reject_non_vote: bool,
    enable_tx_v1: bool,
    i: int,
)
    ensures
        all_checked(packets, reject_non_vote, enable_tx_v1).len() == packets.len(),
        0 <= i < packets.len() ==> all_checked(packets, reject_non_vote, enable_tx_v1)[i] == checked(
            packets[i],
            reject_non_vote,
            enable_tx_v1,
        ),
        packets_of(batches).len() == batches.len(),
        0 <= i < batches.len() ==> packets_of(batches)[i] == batch_packets(batches[i]),
{
}

/// Every packet of every batch counts once, and of those to be discarded each once.
pub proof fn law_every_packet_is_counted(batches: Seq<Seq<PacketView>>)
    ensures
        packet_count(batches) == batches.flatten().len(),
        total_discards(batches) == batches.flatten().filter(
            |p: PacketView| p.meta.discard,
        ).len(),
    decreases batches.len(),
{
    let gone = |p: PacketView| p.meta.discard;
    if batches.len() == 0 {
        assert(batches.flatten() =~= Seq::<PacketView>::empty());
        reveal(Seq::filter);
    } else {
        let init = batches.drop_last();
        let last = batches.last();
        law_every_packet_is_counted(init);
        assert(init.push(last) =~= batches);
        init.lemma_flatten_push(last);
        Seq::filter_distributes_over_add(init.flatten(), last, gone);
        lemma_discards_counted(last);
    }
}

proof fn lemma_discards_counted(packets: Seq<PacketView>)
    ensures
        discard_count(packets) == packets.filter(|p: PacketView| p.meta.discard).len(),
    decreases packets.len(),
{
    let gone = |p: PacketView| p.meta.discard;
    if packets.len() == 0 {
        reveal(Seq::filter);
    } else {
        let init = packets.drop_last();
        lemma_discards_counted(init);
        assert(init.push(packets.last()) =~= packets);
        init.lemma_filter_push(packets.last(), gone);
    }
}

/// The numbers are reported a second after the first pass since the last report, each under its name, and
/// then gathered anew.
pub proof fn law_report_every_second(stats: SigVerifyStats, now: u64)
    ensures
        stats.since is None ==> !report_due(stats, now),
        stats.since matches Some(since) ==> (report_due(stats, now) <==> now >= since
            + 1_000_000_000),
        sigverify_report(stats).len() == 4,
        sigverify_report(stats)[0] == ("passes"@, stats.passes as i64),
        sigverify_report(stats)[1] == ("num_packets_received"@, stats.received as i64),
        sigverify_report(stats)[2] == ("num_packets_discarded"@, stats.discarded as i64),
        sigverify_report(stats)[3] == ("verify_us"@, stats.verify_us as i64),
        no_passes().since is None,
        no_passes().passes == 0,
        no_passes().received == 0,
        no_passes().discarded == 0,
        no_passes().verify_us == 0,
        MAX_BATCHES_PER_PASS == 64,
        RECV_TIMEOUT_MS == 100,
{
}

} // verus!
