//! What becomes of the packets that come in.
//!
//! Filtering runs twice over, and the split matters. OFAC and the failures to parse or convert are
//! properties of the packet: they hold no matter who receives it, so they are decided once. A PBP
//! drop is a property of the *recipient*, the validator whose policy asks for it, so it is decided
//! per recipient, after the recipients are known. Applying one validator's policy to the whole batch
//! would censor another validator's block by rules it never agreed to.
//!
//! Each surviving packet is parsed exactly once into a [`PacketSummary`]; every validator's policy
//! is then evaluated against that.

use vstd::prelude::*;

use solana_perf::packet::PacketBatch;

use crate::delivery::{all_taken, batch_places, chunk, chunks_of, counted, delivered, distinct_recipients, law_all_packets_are_handed_out, law_batches_hold_every_packet, law_each_packet_counts_once, law_handing_out_leaves_other_counters, law_no_more_forwarded_than_there_are, lemma_all_taken, lemma_chunks_contain, lemma_filter_all, lemma_flatten_contains, lemma_sends, lemma_sent, outcomes_of_sends, packets_at, places, places_exist, played, sends_to, session_start, Delivery, Forwarding, ForwardingView, SendOutcome, SessionView};
use crate::metrics::{fresh_metrics, room_for, MetricsView, RelayerMetrics};
use crate::packet::{batch_packet, batch_packets, outgoing, packet_to_proto_packet, proto_views, Packet, PacketView, ProtoPacket, ProtoPacketView};
use crate::pbp::{summary_of, verdict, FilterView, LookupTableCache, PacketSummary, PbpDrop, PbpFilter, SummaryView};
use crate::policy::{live_filter, live_policy, StoredView, ValidatorPolicies};
use crate::pubkey::{Pubkey, PubkeyMap, PubkeySet};
use crate::sigverify_stage::packets_of;
use crate::tx_decode::{deserialize_transaction, optional_view, transaction_of_bytes, Transaction, TransactionView};

verus! {

/// A validator that a batch is headed for, with the policy to enforce for it.
pub struct Recipient {
    pub pubkey: Pubkey,
    pub filter: Option<PbpFilter>,
}

/// What a [`Recipient`] holds.
pub struct RecipientView {
    pub pubkey: Pubkey,
    pub filter: Option<FilterView>,
}

impl View for Recipient {
    type V = RecipientView;

    open spec fn view(&self) -> RecipientView {
        RecipientView {
            pubkey: self.pubkey,
            filter: match self.filter {
                Some(filter) => Some(filter@),
                None => None,
            },
        }
    }
}

/// What the recipients are.
pub open spec fn recipient_views(recipients: Seq<Recipient>) -> Seq<RecipientView> {
    recipients.map_values(|r: Recipient| r@)
}

/// The identities of the recipients.
pub open spec fn recipient_keys(recipients: Seq<RecipientView>) -> Seq<Pubkey> {
    recipients.map_values(|r: RecipientView| r.pubkey)
}

/// Who gets packets: every subscriber, or those whose leader slot is near.
pub open spec fn recipients_of(
    subscribed: Set<Pubkey>,
    slot_leaders: Set<Pubkey>,
    forward_all: bool,
) -> Set<Pubkey> {
    if forward_all {
        subscribed
    } else {
        slot_leaders.intersect(subscribed)
    }
}

/// The leaders that subscribe.
fn subscribed_leaders<S>(subscriptions: &PubkeyMap<S>, slot_leaders: &PubkeySet) -> (r: Vec<Pubkey>)
    ensures
        r@.no_duplicates(),
        r@.to_set() == slot_leaders@.intersect(subscriptions@.dom()),
{
    let leaders: Vec<Pubkey> = slot_leaders.to_vec();
    let ghost subscribed = subscriptions@.dom();
    let mut keys: Vec<Pubkey> = Vec::new();
    let mut i: usize = 0;
    while i < leaders.len()
        invariant
            i <= leaders@.len(),
            leaders@.no_duplicates(),
            subscribed == subscriptions@.dom(),
            keys@.no_duplicates(),
            forall|k: Pubkey| #[trigger]
                keys@.contains(k) <==> leaders@.take(i as int).contains(k) && subscribed.contains(k),
        decreases leaders@.len() - i,
    {
        let ghost key = leaders@[i as int];
        let ghost some = leaders@.take(i as int);
        let ghost was = keys@;
        proof {
            assert(leaders@.take(i + 1) =~= some.push(key));
            assert(!some.contains(key)) by {
                if some.contains(key) {
                    let j = choose|j: int| 0 <= j < some.len() && some[j] == key;
                    assert(leaders@[j] == leaders@[i as int]);
                }
            }
            lemma_push_contains(some, key);
        }
        if subscriptions.contains_key(&leaders[i]) {
            keys.push(leaders[i]);
            proof {
                assert(!was.contains(key));
                lemma_push_contains(was, key);
            }
        }
        i = i + 1;
    }
    proof {
        assert(leaders@.take(leaders@.len() as int) =~= leaders@);
        assert forall|k: Pubkey| keys@.to_set().contains(k) <==> slot_leaders@.intersect(
            subscribed,
        ).contains(k) by {
            assert(leaders@.to_set().contains(k) <==> leaders@.contains(k));
            assert(keys@.to_set().contains(k) <==> keys@.contains(k));
        }
        assert(keys@.to_set() =~= slot_leaders@.intersect(subscribed));
    }
    keys
}

proof fn lemma_push_contains<A>(s: Seq<A>, a: A)
    ensures
        forall|b: A| #[trigger] s.push(a).contains(b) <==> s.contains(b) || b == a,
        s.no_duplicates() && !s.contains(a) ==> s.push(a).no_duplicates(),
{
    let more = s.push(a);
    assert(more[s.len() as int] == a);
    assert forall|b: A| #[trigger] more.contains(b) <==> s.contains(b) || b == a by {
        if s.contains(b) {
            let j = choose|j: int| 0 <= j < s.len() && s[j] == b;
            assert(more[j] == b);
        }
        if more.contains(b) && b != a {
            let j = choose|j: int| 0 <= j < more.len() && more[j] == b;
            assert(s[j] == b);
        }
    }
    if s.no_duplicates() && !s.contains(a) {
        assert forall|i: int, j: int|
            0 <= i < more.len() && 0 <= j < more.len() && i != j implies more[i] != more[j] by {
            if i < s.len() && j < s.len() {
                assert(s[i] != s[j]);
            } else if i < s.len() {
                assert(s.contains(s[i]));
            } else {
                assert(s.contains(s[j]));
            }
        }
    }
}

/// Which validators a batch is headed for, and the live policy of each.
pub fn recipients<S>(
    subscriptions: &PubkeyMap<S>,
    slot_leaders: &PubkeySet,
    forward_all: bool,
    validator_policies: &ValidatorPolicies,
    now: u64,
) -> (r: Vec<Recipient>)
    ensures
        recipient_keys(recipient_views(r@)).no_duplicates(),
        recipient_keys(recipient_views(r@)).to_set() == recipients_of(
            subscriptions@.dom(),
            slot_leaders@,
            forward_all,
        ),
        forall|i: int|
            0 <= i < r@.len() ==> (#[trigger] recipient_views(r@)[i]).filter == live_filter(
                validator_policies@,
                r@[i].pubkey,
                now,
            ),
{
    let keys: Vec<Pubkey> = if forward_all {
        subscriptions.keys()
    } else {
        subscribed_leaders(subscriptions, slot_leaders)
    };
    let mut found: Vec<Recipient> = Vec::new();
    let mut i: usize = 0;
    while i < keys.len()
        invariant
            i <= keys@.len(),
            found@.len() == i,
            forall|n: int|
                0 <= n < i ==> (#[trigger] found@[n])@ == (RecipientView {
                    pubkey: keys@[n],
                    filter: live_filter(validator_policies@, keys@[n], now),
                }),
        decreases keys@.len() - i,
    {
        let filter: Option<PbpFilter> = live_policy(validator_policies, &keys[i], now);
        found.push(Recipient { pubkey: keys[i], filter });
        i = i + 1;
    }
    proof {
        assert forall|n: int| 0 <= n < keys@.len() implies recipient_keys(
            recipient_views(found@),
        )[n] == keys@[n] by {
            assert(found@[n]@.pubkey == keys@[n]);
        }
        assert(recipient_keys(recipient_views(found@)) =~= keys@);
        assert forall|n: int| 0 <= n < found@.len() implies (#[trigger] recipient_views(
            found@,
        )[n]).filter == live_filter(
            validator_policies@,
            found@[n].pubkey,
            now,
        ) by {
            assert(recipient_views(found@)[n] == found@[n]@);
        }
    }
    found
}

/// Some recipient has a policy to enforce.
pub open spec fn some_policy(recipients: Seq<RecipientView>) -> bool {
    exists|i: int| 0 <= i < recipients.len() && (#[trigger] recipients[i]).filter is Some
}

/// Whether some recipient has a policy to enforce. A summary is only built where one has.
pub fn needs_summaries(recipients: &Vec<Recipient>) -> (r: bool)
    ensures
        r == some_policy(recipient_views(recipients@)),
{
    let ghost views = recipient_views(recipients@);
    let mut i: usize = 0;
    while i < recipients.len()
        invariant
            i <= recipients@.len(),
            views == recipient_views(recipients@),
            forall|n: int| 0 <= n < i ==> (#[trigger] views[n]).filter is None,
        decreases recipients@.len() - i,
    {
        assert(views[i as int] == recipients@[i as int]@);
        if recipients[i].filter.is_some() {
            return true;
        }
        i = i + 1;
    }
    false
}

/// A packet that has come in, with the transaction that it holds where it was parsed into one.
pub struct Incoming {
    pub packet: Packet,
    pub tx: Option<Transaction>,
}

/// What an [`Incoming`] holds.
pub struct IncomingView {
    pub packet: PacketView,
    pub tx: Option<TransactionView>,
}

impl View for Incoming {
    type V = IncomingView;

    open spec fn view(&self) -> IncomingView {
        IncomingView { packet: self.packet@, tx: optional_view(self.tx) }
    }
}

/// What the packets are.
pub open spec fn incoming_views(incoming: Seq<Incoming>) -> Seq<IncomingView> {
    incoming.map_values(|p: Incoming| p@)
}

/// The transaction that a packet holds, if it holds one.
pub open spec fn parsed(packet: PacketView) -> Option<TransactionView> {
    match packet.data {
        Some(data) => transaction_of_bytes(data),
        None => None,
    }
}

/// A packet as it is taken in.
pub open spec fn taken_in(packet: PacketView, parse: bool) -> IncomingView {
    IncomingView {
        packet,
        tx: if parse {
            parsed(packet)
        } else {
            None
        },
    }
}

/// The packets that are taken in: all but those to be discarded, in order.
pub open spec fn incoming_of(packets: Seq<PacketView>, parse: bool) -> Seq<IncomingView> {
    packets.filter(|p: PacketView| !p.meta.discard).map_values(|p: PacketView| taken_in(p, parse))
}

fn take_in(packet: Packet, parse: bool) -> (r: Incoming)
    ensures
        r@ == taken_in(packet@, parse),
{
    let tx: Option<Transaction> = if parse {
        match &packet.data {
            Some(data) => deserialize_transaction(data.as_slice()),
            None => None,
        }
    } else {
        None
    };
    Incoming { packet, tx }
}

/// Takes in the packets of a batch, all but those to be discarded, behind those before it.
fn take_in_batch(batch: &PacketBatch, parse: bool, incoming: &mut Vec<Incoming>)
    ensures
        incoming_views(final(incoming)@) == incoming_views(old(incoming)@) + incoming_of(
            batch_packets(*batch),
            parse,
        ),
{
    let ghost packets = batch_packets(*batch);
    let ghost keep = |p: PacketView| !p.meta.discard;
    let ghost take = |p: PacketView| taken_in(p, parse);
    let ghost before = incoming_views(incoming@);
    let len: usize = batch.len();
    let mut i: usize = 0;
    proof {
        assert(packets.take(0).filter(keep) =~= Seq::<PacketView>::empty()) by {
            reveal(Seq::filter);
        }
        assert(before + packets.take(0).filter(keep).map_values(take) =~= before);
    }
    while i < len
        invariant
            i <= len,
            len == packets.len(),
            packets == batch_packets(*batch),
            keep == (|p: PacketView| !p.meta.discard),
            take == (|p: PacketView| taken_in(p, parse)),
            incoming_views(incoming@) == before + packets.take(i as int).filter(keep).map_values(
                take,
            ),
        decreases len - i,
    {
        let packet: Packet = batch_packet(batch, i);
        let ghost view = packet@;
        let ghost some = packets.take(i as int);
        let ghost was = incoming@;
        proof {
            assert(packets.take(i + 1) =~= some.push(view));
            some.lemma_filter_push(view, keep);
        }
        if !packet.meta.discard {
            incoming.push(take_in(packet, parse));
            proof {
                assert(incoming_views(incoming@) =~= incoming_views(was).push(take(view)));
                assert(some.filter(keep).push(view).map_values(take) =~= some.filter(
                    keep,
                ).map_values(take).push(take(view)));
                assert(before + some.filter(keep).map_values(take).push(take(view)) =~= (before
                    + some.filter(keep).map_values(take)).push(take(view)));
            }
        }
        i = i + 1;
    }
    assert(packets.take(len as int) =~= packets);
}

/// Takes in the packets of the batches, all but those to be discarded. Each is parsed once, and only
/// where a filter is configured.
pub fn receive(batches: &Vec<PacketBatch>, parse: bool) -> (r: Vec<Incoming>)
    ensures
        incoming_views(r@) == incoming_of(packets_of(batches@).flatten(), parse),
{
    let ghost all = packets_of(batches@);
    let ghost keep = |p: PacketView| !p.meta.discard;
    let ghost take = |p: PacketView| taken_in(p, parse);
    let mut incoming: Vec<Incoming> = Vec::new();
    let mut i: usize = 0;
    proof {
        assert(all.take(0) =~= Seq::<Seq<PacketView>>::empty());
        assert(all.take(0).flatten() =~= Seq::<PacketView>::empty());
        assert(all.take(0).flatten().filter(keep) =~= Seq::<PacketView>::empty()) by {
            reveal(Seq::filter);
        }
        assert(incoming_views(incoming@) =~= incoming_of(all.take(0).flatten(), parse));
    }
    while i < batches.len()
        invariant
            i <= batches@.len(),
            all == packets_of(batches@),
            keep == (|p: PacketView| !p.meta.discard),
            take == (|p: PacketView| taken_in(p, parse)),
            incoming_views(incoming@) == incoming_of(all.take(i as int).flatten(), parse),
        decreases batches@.len() - i,
    {
        let ghost some = all.take(i as int);
        let ghost batch = all[i as int];
        take_in_batch(&batches[i], parse, &mut incoming);
        proof {
            assert(all.take(i + 1) =~= some.push(batch));
            some.lemma_flatten_push(batch);
            Seq::filter_distributes_over_add(some.flatten(), batch, keep);
            assert((some.flatten().filter(keep) + batch.filter(keep)).map_values(take)
                =~= some.flatten().filter(keep).map_values(take) + batch.filter(keep).map_values(
                take,
            ));
        }
        i = i + 1;
    }
    assert(all.take(batches@.len() as int) =~= all);
    incoming
}

/// A packet that no property of its own keeps from going out, with its summary where there is one.
pub struct KeptView {
    pub packet: ProtoPacketView,
    pub summary: Option<SummaryView>,
}

/// What an optional summary holds.
pub open spec fn summary_view(summary: Option<PacketSummary>) -> Option<SummaryView> {
    match summary {
        Some(summary) => Some(summary@),
        None => None,
    }
}

/// The packets with their summaries.
pub open spec fn kept_views(
    packets: Seq<ProtoPacket>,
    summaries: Seq<Option<PacketSummary>>,
) -> Seq<KeptView> {
    Seq::new(
        packets.len(),
        |i: int| KeptView { packet: packets[i]@, summary: summary_view(summaries[i]) },
    )
}

/// What the first pass makes of a packet.
pub enum Screened {
    /// The packet is not a transaction.
    Undecodable,
    /// The transaction is related to an OFAC address.
    Ofac,
    /// The packet has no data to go out.
    Unsendable,
    Kept(KeptView),
}

/// How the first pass goes.
pub struct Screen {
    /// Some OFAC address is configured.
    pub ofac: bool,
    /// Some recipient has a policy to enforce.
    pub summaries: bool,
    /// The lookup tables that are known.
    pub tables: Map<Pubkey, Seq<Pubkey>>,
}

/// Packets are only parsed where a filter is configured.
pub open spec fn parses(screen: Screen) -> bool {
    screen.ofac || screen.summaries
}

/// What the first pass makes of a packet, given whether its transaction is related to an OFAC
/// address. Where no such address is configured, none is.
pub open spec fn screened(incoming: IncomingView, ofac_related: bool, screen: Screen) -> Screened {
    if parses(screen) && incoming.tx is None {
        Screened::Undecodable
    } else if screen.ofac && ofac_related {
        Screened::Ofac
    } else {
        match outgoing(incoming.packet) {
            None => Screened::Unsendable,
            Some(packet) => Screened::Kept(
                KeptView {
                    packet,
                    summary: if screen.summaries {
                        Some(summary_of(incoming.tx->0, screen.tables))
                    } else {
                        None
                    },
                },
            ),
        }
    }
}

/// What the first pass makes of the packets.
pub open spec fn all_screened(
    incoming: Seq<IncomingView>,
    ofac_related: Seq<bool>,
    screen: Screen,
) -> Seq<Screened> {
    Seq::new(incoming.len(), |i: int| screened(incoming[i], ofac_related[i], screen))
}

/// How many are not transactions.
pub open spec fn undecodable_count(all: Seq<Screened>) -> nat {
    all.filter(|s: Screened| s is Undecodable).len()
}

/// How many are related to an OFAC address.
pub open spec fn ofac_count(all: Seq<Screened>) -> nat {
    all.filter(|s: Screened| s is Ofac).len()
}

/// How many have no data to go out.
pub open spec fn unsendable_count(all: Seq<Screened>) -> nat {
    all.filter(|s: Screened| s is Unsendable).len()
}

/// The packets that go on to the second pass, in order.
pub open spec fn survivors(all: Seq<Screened>) -> Seq<KeptView> {
    all.filter(|s: Screened| s is Kept).map_values(|s: Screened| s->Kept_0)
}

proof fn lemma_screened_push(all: Seq<Screened>, one: Screened)
    ensures
        undecodable_count(all.push(one)) == undecodable_count(all) + (if one is Undecodable {
            1nat
        } else {
            0
        }),
        ofac_count(all.push(one)) == ofac_count(all) + (if one is Ofac {
            1nat
        } else {
            0
        }),
        unsendable_count(all.push(one)) == unsendable_count(all) + (if one is Unsendable {
            1nat
        } else {
            0
        }),
        survivors(all.push(one)) == (if one is Kept {
            survivors(all).push(one->Kept_0)
        } else {
            survivors(all)
        }),
{
    all.lemma_filter_push(one, |s: Screened| s is Undecodable);
    all.lemma_filter_push(one, |s: Screened| s is Ofac);
    all.lemma_filter_push(one, |s: Screened| s is Unsendable);
    let kept = |s: Screened| s is Kept;
    all.lemma_filter_push(one, kept);
    if one is Kept {
        let f = |s: Screened| s->Kept_0;
        assert(all.filter(kept).push(one).map_values(f) =~= all.filter(kept).map_values(f).push(
            one->Kept_0,
        ));
    }
}

proof fn lemma_screened_none()
    ensures
        undecodable_count(Seq::empty()) == 0,
        ofac_count(Seq::empty()) == 0,
        unsendable_count(Seq::empty()) == 0,
        survivors(Seq::empty()) == Seq::<KeptView>::empty(),
{
    reveal(Seq::filter);
    assert(survivors(Seq::empty()) =~= Seq::<KeptView>::empty());
}

/// Every packet that is taken in is accounted for: it goes on to the recipients, or it is counted
/// under the one reason for which it does not.
pub proof fn law_every_packet_is_accounted_for(all: Seq<Screened>)
    ensures
        undecodable_count(all) + ofac_count(all) + unsendable_count(all) + survivors(all).len()
            == all.len(),
    decreases all.len(),
{
    if all.len() == 0 {
        lemma_screened_none();
        assert(all =~= Seq::<Screened>::empty());
    } else {
        let init = all.drop_last();
        law_every_packet_is_accounted_for(init);
        assert(all =~= init.push(all.last()));
        lemma_screened_push(init, all.last());
    }
}

/// What the first pass found.
struct Screening {
    packets: Vec<ProtoPacket>,
    /// The summary of each of the packets.
    summaries: Vec<Option<PacketSummary>>,
    num_ofac: u64,
    num_undecodable: u64,
    num_unsendable: u64,
}

/// The first pass: drops that do not depend on the recipient.
fn screen_packets(
    incoming: &Vec<Incoming>,
    ofac_related: &Vec<bool>,
    ofac: bool,
    summaries: bool,
    address_lookup_table_cache: &LookupTableCache,
) -> (r: Screening)
    requires
        ofac_related@.len() == incoming@.len(),
    ensures
        ({
            let screen = Screen {
                ofac,
                summaries,
                tables: address_lookup_table_cache@,
            };
            let all = all_screened(incoming_views(incoming@), ofac_related@, screen);
            &&& r.packets@.len() == r.summaries@.len()
            &&& kept_views(r.packets@, r.summaries@) == survivors(all)
            &&& r.num_ofac == ofac_count(all)
            &&& r.num_undecodable == undecodable_count(all)
            &&& r.num_unsendable == unsendable_count(all)
        }),
{
    let ghost screen = Screen {
        ofac,
        summaries,
        tables: address_lookup_table_cache@,
    };
    let ghost views = incoming_views(incoming@);
    let ghost all = all_screened(views, ofac_related@, screen);
    let mut packets: Vec<ProtoPacket> = Vec::new();
    let mut found: Vec<Option<PacketSummary>> = Vec::new();
    let mut num_ofac: u64 = 0;
    let mut num_undecodable: u64 = 0;
    let mut num_unsendable: u64 = 0;
    let mut i: usize = 0;
    proof {
        lemma_screened_none();
        assert(all.take(0) =~= Seq::<Screened>::empty());
        assert(kept_views(packets@, found@) =~= Seq::<KeptView>::empty());
    }
    while i < incoming.len()
        invariant
            i <= incoming@.len(),
            ofac_related@.len() == incoming@.len(),
            screen == (Screen {
                ofac,
                summaries,
                tables: address_lookup_table_cache@,
            }),
            views == incoming_views(incoming@),
            all == all_screened(views, ofac_related@, screen),
            packets@.len() == found@.len(),
            kept_views(packets@, found@) == survivors(all.take(i as int)),
            num_ofac == ofac_count(all.take(i as int)),
            num_undecodable == undecodable_count(all.take(i as int)),
            num_unsendable == unsendable_count(all.take(i as int)),
            num_ofac <= i,
            num_undecodable <= i,
            num_unsendable <= i,
        decreases incoming@.len() - i,
    {
        let one: &Incoming = &incoming[i];
        let ghost was = kept_views(packets@, found@);
        proof {
            assert(views[i as int] == one@);
            assert(all.take(i + 1) =~= all.take(i as int).push(all[i as int]));
            lemma_screened_push(all.take(i as int), all[i as int]);
        }
        if (ofac || summaries) && one.tx.is_none() {
            num_undecodable = num_undecodable + 1;
        } else if ofac && ofac_related[i] {
            num_ofac = num_ofac + 1;
        } else {
            match packet_to_proto_packet(&one.packet) {
                None => {
                    num_unsendable = num_unsendable + 1;
                },
                Some(packet) => {
                    let summary: Option<PacketSummary> = match &one.tx {
                        Some(tx) => if summaries {
                            Some(PacketSummary::extract(tx, address_lookup_table_cache))
                        } else {
                            None
                        },
                        None => None,
                    };
                    packets.push(packet);
                    found.push(summary);
                    assert(kept_views(packets@, found@) =~= was.push(all[i as int]->Kept_0));
                },
            }
        }
        i = i + 1;
    }
    assert(all.take(incoming@.len() as int) =~= all);
    Screening { packets, summaries: found, num_ofac, num_undecodable, num_unsendable }
}

/// Why the policy of a recipient drops a packet, or `None` where the recipient gets it. A recipient
/// without a policy gets everything.
pub open spec fn verdict_for(filter: Option<FilterView>, kept: KeptView) -> Option<PbpDrop> {
    match (filter, kept.summary) {
        (Some(filter), Some(summary)) => verdict(filter, summary),
        _ => None,
    }
}

/// The packets that a recipient gets.
pub open spec fn packets_for(filter: Option<FilterView>, kept: Seq<KeptView>) -> Seq<
    ProtoPacketView,
> {
    kept.filter(|k: KeptView| verdict_for(filter, k) is None).map_values(|k: KeptView| k.packet)
}

/// How many packets the policy of a recipient drops for this reason.
pub open spec fn drops(filter: Option<FilterView>, kept: Seq<KeptView>, reason: PbpDrop) -> nat {
    kept.filter(|k: KeptView| verdict_for(filter, k) == Some(reason)).len()
}

/// How many packets the policies of the recipients drop for this reason.
pub open spec fn all_drops(
    recipients: Seq<RecipientView>,
    kept: Seq<KeptView>,
    reason: PbpDrop,
) -> nat
    decreases recipients.len(),
{
    if recipients.len() == 0 {
        0
    } else {
        all_drops(recipients.drop_last(), kept, reason) + drops(
            recipients.last().filter,
            kept,
            reason,
        )
    }
}

/// Some recipient gets the packet.
pub open spec fn reached(recipients: Seq<RecipientView>, kept: KeptView) -> bool {
    exists|i: int|
        0 <= i < recipients.len() && verdict_for((#[trigger] recipients[i]).filter, kept) is None
}

/// The packets themselves.
pub open spec fn kept_packets(kept: Seq<KeptView>) -> Seq<ProtoPacketView> {
    kept.map_values(|k: KeptView| k.packet)
}

/// The places of the packets that a recipient gets.
pub open spec fn places_for(filter: Option<FilterView>, kept: Seq<KeptView>) -> Seq<int> {
    Seq::new(kept.len(), |i: int| i).filter(|i: int| verdict_for(filter, kept[i]) is None)
}

/// The counters after the policies dropped this many more packets for each reason.
pub open spec fn with_drops(metrics: MetricsView, address: nat, program: nat, instruction: nat) -> MetricsView {
    MetricsView {
        num_packets_dropped_pbp_address: (metrics.num_packets_dropped_pbp_address + address) as u64,
        num_packets_dropped_pbp_program: (metrics.num_packets_dropped_pbp_program + program) as u64,
        num_packets_dropped_pbp_instruction: (metrics.num_packets_dropped_pbp_instruction
            + instruction) as u64,
        num_packets_dropped_pbp: (metrics.num_packets_dropped_pbp + address + program
            + instruction) as u64,
        ..metrics
    }
}

proof fn lemma_drops_push(filter: Option<FilterView>, kept: Seq<KeptView>, one: KeptView)
    ensures
        forall|reason: PbpDrop| #[trigger]
            drops(filter, kept.push(one), reason) == drops(filter, kept, reason) + (if verdict_for(
                filter,
                one,
            ) == Some(reason) {
                1nat
            } else {
                0
            }),
        packets_for(filter, kept.push(one)) == (if verdict_for(filter, one) is None {
            packets_for(filter, kept).push(one.packet)
        } else {
            packets_for(filter, kept)
        }),
{
    assert forall|reason: PbpDrop| #[trigger]
        drops(filter, kept.push(one), reason) == drops(filter, kept, reason) + (if verdict_for(
            filter,
            one,
        ) == Some(reason) {
            1nat
        } else {
            0
        }) by {
        kept.lemma_filter_push(one, |k: KeptView| verdict_for(filter, k) == Some(reason));
    }
    let stays = |k: KeptView| verdict_for(filter, k) is None;
    let f = |k: KeptView| k.packet;
    kept.lemma_filter_push(one, stays);
    if stays(one) {
        assert(kept.filter(stays).push(one).map_values(f) =~= kept.filter(stays).map_values(f).push(
            one.packet,
        ));
    }
}

proof fn lemma_drops_none(filter: Option<FilterView>)
    ensures
        forall|reason: PbpDrop| #[trigger] drops(filter, Seq::empty(), reason) == 0,
        packets_for(filter, Seq::empty()) == Seq::<ProtoPacketView>::empty(),
{
    reveal(Seq::filter);
    assert(packets_for(filter, Seq::empty()) =~= Seq::<ProtoPacketView>::empty());
}

/// For each recipient, a packet that survives the first pass is delivered or counted under the one
/// rule that drops it.
pub proof fn law_policy_drops_are_attributed(filter: Option<FilterView>, kept: Seq<KeptView>)
    ensures
        packets_for(filter, kept).len() + drops(filter, kept, PbpDrop::Address) + drops(
            filter,
            kept,
            PbpDrop::Program,
        ) + drops(filter, kept, PbpDrop::Instruction) == kept.len(),
    decreases kept.len(),
{
    if kept.len() == 0 {
        lemma_drops_none(filter);
        assert(kept =~= Seq::<KeptView>::empty());
    } else {
        let init = kept.drop_last();
        law_policy_drops_are_attributed(filter, init);
        assert(kept =~= init.push(kept.last()));
        lemma_drops_push(filter, init, kept.last());
    }
}

/// A recipient without a policy gets every packet that survives the first pass.
pub proof fn law_no_policy_drops_nothing(kept: Seq<KeptView>, reason: PbpDrop)
    ensures
        packets_for(None, kept) == kept.map_values(|k: KeptView| k.packet),
        drops(None, kept, reason) == 0,
    decreases kept.len(),
{
    let f = |k: KeptView| k.packet;
    if kept.len() == 0 {
        lemma_drops_none(None);
        assert(kept =~= Seq::<KeptView>::empty());
        assert(kept.map_values(f) =~= Seq::<ProtoPacketView>::empty());
    } else {
        let init = kept.drop_last();
        law_no_policy_drops_nothing(init, reason);
        assert(kept =~= init.push(kept.last()));
        lemma_drops_push(None, init, kept.last());
        assert(kept.map_values(f) =~= init.map_values(f).push(kept.last().packet));
    }
}

/// The places of the packets of a recipient, by its policy. Each drop is counted under the rule that
/// caused it.
fn filter_packets(
    pubkey: &Pubkey,
    filter: &PbpFilter,
    summaries: &Vec<Option<PacketSummary>>,
    kept: Ghost<Seq<KeptView>>,
    relayer_metrics: &mut RelayerMetrics,
) -> (r: Vec<usize>)
    requires
        kept@.len() == summaries@.len(),
        forall|i: int|
            0 <= i < kept@.len() ==> (#[trigger] kept@[i]).summary == summary_view(summaries@[i]),
        old(relayer_metrics)@.num_packets_dropped_pbp + kept@.len() <= u64::MAX,
        old(relayer_metrics)@.num_packets_dropped_pbp_address + kept@.len() <= u64::MAX,
        old(relayer_metrics)@.num_packets_dropped_pbp_program + kept@.len() <= u64::MAX,
        old(relayer_metrics)@.num_packets_dropped_pbp_instruction + kept@.len() <= u64::MAX,
    ensures
        places(r@) == places_for(Some(filter@), kept@),
        final(relayer_metrics)@ == with_drops(
            old(relayer_metrics)@,
            drops(Some(filter@), kept@, PbpDrop::Address),
            drops(Some(filter@), kept@, PbpDrop::Program),
            drops(Some(filter@), kept@, PbpDrop::Instruction),
        ),
{
    let ghost all = kept@;
    let ghost mine = Some(filter@);
    let ghost start = relayer_metrics@;
    let ghost stays = |i: int| verdict_for(mine, all[i]) is None;
    let mut list: Vec<usize> = Vec::new();
    let mut dropped: u64 = 0;
    let mut i: usize = 0;
    proof {
        lemma_drops_none(mine);
        assert(all.take(0) =~= Seq::<KeptView>::empty());
        assert(Seq::new(0, |n: int| n).filter(stays) =~= Seq::<int>::empty()) by {
            reveal(Seq::filter);
        }
        assert(places(list@) =~= Seq::<int>::empty());
    }
    while i < summaries.len()
        invariant
            i <= summaries@.len(),
            all == kept@,
            all.len() == summaries@.len(),
            forall|i: int|
                0 <= i < all.len() ==> (#[trigger] all[i]).summary == summary_view(summaries@[i]),
            mine == Some(filter@),
            stays == (|i: int| verdict_for(mine, all[i]) is None),
            start.num_packets_dropped_pbp + all.len() <= u64::MAX,
            start.num_packets_dropped_pbp_address + all.len() <= u64::MAX,
            start.num_packets_dropped_pbp_program + all.len() <= u64::MAX,
            start.num_packets_dropped_pbp_instruction + all.len() <= u64::MAX,
            places(list@) == Seq::new(i as nat, |n: int| n).filter(stays),
            relayer_metrics@ == (MetricsView {
                num_packets_dropped_pbp: start.num_packets_dropped_pbp,
                ..with_drops(
                    start,
                    drops(mine, all.take(i as int), PbpDrop::Address),
                    drops(mine, all.take(i as int), PbpDrop::Program),
                    drops(mine, all.take(i as int), PbpDrop::Instruction),
                )
            }),
            dropped == drops(mine, all.take(i as int), PbpDrop::Address) + drops(
                mine,
                all.take(i as int),
                PbpDrop::Program,
            ) + drops(mine, all.take(i as int), PbpDrop::Instruction),
            dropped <= i,
        decreases summaries@.len() - i,
    {
        let ghost one = all[i as int];
        let ghost some = all.take(i as int);
        let ghost was = list@;
        proof {
            let before = Seq::new(i as nat, |n: int| n);
            assert(all.take(i + 1) =~= some.push(one));
            lemma_drops_push(mine, some, one);
            assert(Seq::new((i + 1) as nat, |n: int| n) =~= before.push(i as int));
            before.lemma_filter_push(i as int, stays);
        }
        let reason: Option<PbpDrop> = match &summaries[i] {
            Some(summary) => filter.evaluate(summary),
            None => None,
        };
        assert(reason == verdict_for(mine, one));
        match reason {
            Some(reason) => {
                dropped = dropped + 1;
                relayer_metrics.increment_pbp_drop(pubkey, reason);
            },
            None => {
                list.push(i);
                assert(places(list@) =~= places(was).push(i as int));
            },
        }
        i = i + 1;
    }
    proof {
        assert(all.take(summaries@.len() as int) =~= all);
    }
    relayer_metrics.num_packets_dropped_pbp = relayer_metrics.num_packets_dropped_pbp + dropped;
    list
}

/// What each recipient gets: the places of its packets, batch by batch.
pub open spec fn deliveries_of(
    recipients: Seq<RecipientView>,
    kept: Seq<KeptView>,
    batch_size: nat,
) -> Seq<(Pubkey, Seq<Seq<int>>)> {
    recipients.map_values(
        |r: RecipientView| (r.pubkey, chunks_of(places_for(r.filter, kept), batch_size)),
    )
}

/// What is to be handed out.
pub open spec fn forwarding_of(
    recipients: Seq<RecipientView>,
    kept: Seq<KeptView>,
    batch_size: nat,
) -> ForwardingView {
    ForwardingView {
        packets: kept_packets(kept),
        deliveries: deliveries_of(recipients, kept, batch_size),
    }
}

/// The counters after both passes. Nothing counts as forwarded before a queue has taken it.
pub open spec fn passed(
    metrics: MetricsView,
    all: Seq<Screened>,
    recipients: Seq<RecipientView>,
) -> MetricsView {
    let kept = survivors(all);
    with_drops(
        MetricsView {
            num_packets_dropped_ofac: (metrics.num_packets_dropped_ofac + ofac_count(all)) as u64,
            num_packets_dropped_deserialize: (metrics.num_packets_dropped_deserialize
                + undecodable_count(all)) as u64,
            num_packets_dropped_proto_convert: (metrics.num_packets_dropped_proto_convert
                + unsendable_count(all)) as u64,
            ..metrics
        },
        all_drops(recipients, kept, PbpDrop::Address),
        all_drops(recipients, kept, PbpDrop::Program),
        all_drops(recipients, kept, PbpDrop::Instruction),
    )
}

proof fn lemma_all_drops_bounded(recipients: Seq<RecipientView>, kept: Seq<KeptView>)
    ensures
        all_drops(recipients, kept, PbpDrop::Address) + all_drops(
            recipients,
            kept,
            PbpDrop::Program,
        ) + all_drops(recipients, kept, PbpDrop::Instruction) <= kept.len() * recipients.len(),
    decreases recipients.len(),
{
    if recipients.len() > 0 {
        lemma_all_drops_bounded(recipients.drop_last(), kept);
        law_policy_drops_are_attributed(recipients.last().filter, kept);
        assert(kept.len() * (recipients.len() - 1) + kept.len() == kept.len() * recipients.len())
            by (nonlinear_arith);
    } else {
        assert(kept.len() * recipients.len() == 0) by (nonlinear_arith)
            requires
                recipients.len() == 0,
        ;
    }
}

/// All the places in a list of so many packets.
fn all_places(len: usize) -> (r: Vec<usize>)
    ensures
        places(r@) == Seq::new(len as nat, |i: int| i),
{
    let mut list: Vec<usize> = Vec::new();
    let mut i: usize = 0;
    assert(places(list@) =~= Seq::new(0, |n: int| n));
    while i < len
        invariant
            i <= len,
            places(list@) == Seq::new(i as nat, |n: int| n),
        decreases len - i,
    {
        let ghost was = list@;
        list.push(i);
        assert(places(list@) =~= places(was).push(i as int));
        assert(places(list@) =~= Seq::new((i + 1) as nat, |n: int| n));
        i = i + 1;
    }
    list
}

proof fn lemma_all_places(kept: Seq<KeptView>)
    ensures
        places_for(None, kept) == Seq::new(kept.len(), |i: int| i),
{
    lemma_filter_all(
        Seq::new(kept.len(), |i: int| i),
        |i: int| verdict_for(None, kept[i]) is None,
    );
}

proof fn lemma_places_within(filter: Option<FilterView>, kept: Seq<KeptView>, p: int)
    requires
        places_for(filter, kept).contains(p),
    ensures
        0 <= p < kept.len(),
        verdict_for(filter, kept[p]) is None,
{
    let all = Seq::new(kept.len(), |i: int| i);
    let stays = |i: int| verdict_for(filter, kept[i]) is None;
    let n = choose|n: int| 0 <= n < all.filter(stays).len() && all.filter(stays)[n] == p;
    all.lemma_filter_pred(stays, n);
    all.lemma_filter_contains_rev(stays, p);
}

proof fn lemma_forwarding_exists(
    recipients: Seq<RecipientView>,
    kept: Seq<KeptView>,
    batch_size: nat,
)
    ensures
        places_exist(forwarding_of(recipients, kept, batch_size)),
{
    let forwarding = forwarding_of(recipients, kept, batch_size);
    assert forall|i: int, j: int, k: int|
        0 <= i < forwarding.deliveries.len() && 0 <= j < forwarding.deliveries[i].1.len() && 0 <= k
            < forwarding.deliveries[i].1[j].len() implies 0 <= (
    #[trigger] forwarding.deliveries[i].1[j][k]) < forwarding.packets.len() by {
        let filter = recipients[i].filter;
        lemma_chunks_contain(places_for(filter, kept), batch_size, j, k);
        lemma_places_within(filter, kept, forwarding.deliveries[i].1[j][k]);
    }
}

/// The second pass: drops that the policies of the recipients ask for. Recipients without a policy
/// share what survived the first pass, which is the common case and costs nothing extra.
fn fan_out(
    recipients: &Vec<Recipient>,
    packets: Vec<ProtoPacket>,
    summaries: &Vec<Option<PacketSummary>>,
    batch_size: usize,
    relayer_metrics: &mut RelayerMetrics,
) -> (r: Forwarding)
    requires
        packets@.len() == summaries@.len(),
        batch_size > 0,
        old(relayer_metrics)@.num_packets_dropped_pbp + packets@.len() * recipients@.len()
            <= u64::MAX,
        old(relayer_metrics)@.num_packets_dropped_pbp_address + packets@.len() * recipients@.len()
            <= u64::MAX,
        old(relayer_metrics)@.num_packets_dropped_pbp_program + packets@.len() * recipients@.len()
            <= u64::MAX,
        old(relayer_metrics)@.num_packets_dropped_pbp_instruction + packets@.len()
            * recipients@.len() <= u64::MAX,
    ensures
        r@ == forwarding_of(
            recipient_views(recipients@),
            kept_views(packets@, summaries@),
            batch_size as nat,
        ),
        ({
            let kept = kept_views(packets@, summaries@);
            let views = recipient_views(recipients@);
            final(relayer_metrics)@ == with_drops(
                old(relayer_metrics)@,
                all_drops(views, kept, PbpDrop::Address),
                all_drops(views, kept, PbpDrop::Program),
                all_drops(views, kept, PbpDrop::Instruction),
            )
        }),
{
    let ghost kept = kept_views(packets@, summaries@);
    let ghost views = recipient_views(recipients@);
    let ghost start = relayer_metrics@;
    let ghost size = batch_size as nat;
    let shared: Vec<Vec<usize>> = chunk(&all_places(packets.len()), batch_size);
    proof {
        lemma_all_places(kept);
    }
    let mut deliveries: Vec<Delivery> = Vec::new();
    let mut i: usize = 0;
    while i < recipients.len()
        invariant
            i <= recipients@.len(),
            packets@.len() == summaries@.len(),
            batch_size > 0,
            size == batch_size,
            kept == kept_views(packets@, summaries@),
            views == recipient_views(recipients@),
            batch_places(shared@) == chunks_of(places_for(None, kept), size),
            start.num_packets_dropped_pbp + packets@.len() * recipients@.len() <= u64::MAX,
            start.num_packets_dropped_pbp_address + packets@.len() * recipients@.len() <= u64::MAX,
            start.num_packets_dropped_pbp_program + packets@.len() * recipients@.len() <= u64::MAX,
            start.num_packets_dropped_pbp_instruction + packets@.len() * recipients@.len()
                <= u64::MAX,
            deliveries@.len() == i,
            forall|n: int|
                0 <= n < i ==> delivered(#[trigger] deliveries@[n], shared@) == (
                    views[n].pubkey,
                    chunks_of(places_for(views[n].filter, kept), size),
                ),
            relayer_metrics@ == with_drops(
                start,
                all_drops(views.take(i as int), kept, PbpDrop::Address),
                all_drops(views.take(i as int), kept, PbpDrop::Program),
                all_drops(views.take(i as int), kept, PbpDrop::Instruction),
            ),
        decreases recipients@.len() - i,
    {
        let recipient: &Recipient = &recipients[i];
        proof {
            let some = views.take(i as int);
            let more = views.take(i + 1);
            assert(views[i as int] == recipient@);
            assert(more.drop_last() =~= some);
            assert(more.last() == recipient@);
            lemma_all_drops_bounded(some, kept);
            lemma_all_drops_bounded(more, kept);
            law_policy_drops_are_attributed(recipient@.filter, kept);
            assert(kept.len() == packets@.len());
            assert(kept.len() * some.len() + kept.len() <= packets@.len() * recipients@.len())
                by (nonlinear_arith)
                requires
                    kept.len() == packets@.len(),
                    some.len() + 1 <= recipients@.len(),
            ;
        }
        let filtered: Option<Vec<Vec<usize>>> = match &recipient.filter {
            Some(filter) => {
                let mine: Vec<usize> = filter_packets(
                    &recipient.pubkey,
                    filter,
                    summaries,
                    Ghost(kept),
                    relayer_metrics,
                );
                Some(chunk(&mine, batch_size))
            },
            None => {
                proof {
                    law_no_policy_drops_nothing(kept, PbpDrop::Address);
                    law_no_policy_drops_nothing(kept, PbpDrop::Program);
                    law_no_policy_drops_nothing(kept, PbpDrop::Instruction);
                }
                None
            },
        };
        deliveries.push(Delivery { pubkey: recipient.pubkey, filtered });
        i = i + 1;
    }
    assert(views.take(recipients@.len() as int) =~= views);
    let forwarding = Forwarding { packets, shared, deliveries };
    proof {
        let expected = deliveries_of(views, kept, size);
        assert forall|n: int| 0 <= n < expected.len() implies forwarding@.deliveries[n]
            == #[trigger] expected[n] by {
            assert(forwarding@.deliveries[n] == delivered(deliveries@[n], shared@));
        }
        assert(forwarding@.deliveries =~= expected);
        assert(forwarding@.packets =~= kept_packets(kept));
    }
    forwarding
}

/// Decides what each recipient gets of the packets that came in, and counts what becomes of them.
/// Which transactions are related to an OFAC address is told by `ofac_related`, packet by packet;
/// where no filter is configured nobody asks, and the packets are forwarded unparsed.
pub fn forward_packets(
    incoming: &Vec<Incoming>,
    ofac_related: &Vec<bool>,
    ofac_configured: bool,
    recipients: &Vec<Recipient>,
    address_lookup_table_cache: &LookupTableCache,
    validator_packet_batch_size: usize,
    relayer_metrics: &mut RelayerMetrics,
) -> (r: Forwarding)
    requires
        ofac_related@.len() == incoming@.len(),
        validator_packet_batch_size > 0,
        recipient_keys(recipient_views(recipients@)).no_duplicates(),
        room_for(old(relayer_metrics)@, incoming@.len(), recipients@.len()),
    ensures
        ({
            let screen = Screen {
                ofac: ofac_configured,
                summaries: some_policy(recipient_views(recipients@)),
                tables: address_lookup_table_cache@,
            };
            let all = all_screened(incoming_views(incoming@), ofac_related@, screen);
            &&& r@ == forwarding_of(
                recipient_views(recipients@),
                survivors(all),
                validator_packet_batch_size as nat,
            )
            &&& final(relayer_metrics)@ == passed(
                old(relayer_metrics)@,
                all,
                recipient_views(recipients@),
            )
        }),
        distinct_recipients(r@.deliveries),
        places_exist(r@),
{
    let summaries: bool = needs_summaries(recipients);
    let screening: Screening = screen_packets(
        incoming,
        ofac_related,
        ofac_configured,
        summaries,
        address_lookup_table_cache,
    );
    let ghost screen = Screen {
        ofac: ofac_configured,
        summaries,
        tables: address_lookup_table_cache@,
    };
    let ghost all = all_screened(incoming_views(incoming@), ofac_related@, screen);
    let ghost views = recipient_views(recipients@);
    proof {
        law_every_packet_is_accounted_for(all);
        assert(survivors(all).len() == screening.packets@.len());
        assert(screening.packets@.len() * recipients@.len() <= incoming@.len() * recipients@.len())
            by (nonlinear_arith)
            requires
                screening.packets@.len() <= incoming@.len(),
        ;
    }
    relayer_metrics.num_packets_dropped_ofac = relayer_metrics.num_packets_dropped_ofac
        + screening.num_ofac;
    relayer_metrics.num_packets_dropped_deserialize =
    relayer_metrics.num_packets_dropped_deserialize + screening.num_undecodable;
    relayer_metrics.num_packets_dropped_proto_convert =
    relayer_metrics.num_packets_dropped_proto_convert + screening.num_unsendable;
    let forwarding: Forwarding = fan_out(
        recipients,
        screening.packets,
        &screening.summaries,
        validator_packet_batch_size,
        relayer_metrics,
    );
    proof {
        let keys = recipient_keys(views);
        let list = forwarding@.deliveries;
        assert forall|i: int, j: int| 0 <= i < j < list.len() implies (#[trigger] list[i]).0 != (
        #[trigger] list[j]).0 by {
            assert(list[i].0 == keys[i]);
            assert(list[j].0 == keys[j]);
        }
        lemma_forwarding_exists(views, survivors(all), validator_packet_batch_size as nat);
    }
    forwarding
}

/// What the first pass makes of packets as they came in.
pub open spec fn fates(
    packets: Seq<PacketView>,
    ofac_related: Seq<bool>,
    screen: Screen,
) -> Seq<Screened> {
    all_screened(
        packets.map_values(|p: PacketView| taken_in(p, parses(screen))),
        ofac_related,
        screen,
    )
}

/// A packet reaches a validator: where a filter is configured it is a transaction; where OFAC addresses
/// are, it is not related to one; it has data; and the policy of the validator, if there is one to
/// enforce, lets it through.
pub open spec fn reaches(
    packet: PacketView,
    ofac_related: bool,
    screen: Screen,
    mine: Option<FilterView>,
) -> bool {
    &&& parses(screen) ==> parsed(packet) is Some
    &&& screen.ofac ==> !ofac_related
    &&& packet.data is Some
    &&& mine matches Some(filter) ==> verdict(
        filter,
        summary_of(parsed(packet)->0, screen.tables),
    ) is None
}

/// The places of the packets that reach a validator, in order.
pub open spec fn reaching(
    packets: Seq<PacketView>,
    ofac_related: Seq<bool>,
    screen: Screen,
    mine: Option<FilterView>,
) -> Seq<int> {
    Seq::new(packets.len(), |i: int| i).filter(
        |i: int| reaches(packets[i], ofac_related[i], screen, mine),
    )
}

proof fn lemma_reaching(
    packets: Seq<PacketView>,
    ofac_related: Seq<bool>,
    screen: Screen,
    mine: Option<FilterView>,
    n: nat,
)
    requires
        n <= packets.len(),
        mine is Some ==> screen.summaries,
    ensures
        packets_for(mine, survivors(fates(packets, ofac_related, screen).take(n as int)))
            == Seq::new(n, |i: int| i).filter(
            |i: int| reaches(packets[i], ofac_related[i], screen, mine),
        ).map_values(|i: int| outgoing(packets[i])->0),
    decreases n,
{
    let all = fates(packets, ofac_related, screen);
    let gets = |i: int| reaches(packets[i], ofac_related[i], screen, mine);
    let out = |i: int| outgoing(packets[i])->0;
    if n == 0 {
        lemma_screened_none();
        lemma_drops_none(mine);
        reveal(Seq::filter);
        assert(all.take(0) =~= Seq::<Screened>::empty());
        assert(Seq::new(0, |i: int| i).filter(gets).map_values(out) =~= Seq::<
            ProtoPacketView,
        >::empty());
    } else {
        let last = n - 1;
        let before = Seq::new(last as nat, |i: int| i);
        lemma_reaching(packets, ofac_related, screen, mine, last as nat);
        assert(all.take(n as int) =~= all.take(last).push(all[last]));
        lemma_screened_push(all.take(last), all[last]);
        assert(Seq::new(n, |i: int| i) =~= before.push(last));
        before.lemma_filter_push(last, gets);
        if all[last] is Kept {
            lemma_drops_push(mine, survivors(all.take(last)), all[last]->Kept_0);
        }
        if gets(last) {
            assert(before.filter(gets).push(last).map_values(out) =~= before.filter(
                gets,
            ).map_values(out).push(out(last)));
        }
    }
}

/// What a validator gets: of the packets that are taken in exactly those that reach it, in order.
pub proof fn law_what_a_validator_gets(
    packets: Seq<PacketView>,
    ofac_related: Seq<bool>,
    screen: Screen,
    mine: Option<FilterView>,
)
    requires
        ofac_related.len() == packets.len(),
        mine is Some ==> screen.summaries,
    ensures
        packets_for(mine, survivors(fates(packets, ofac_related, screen))) == reaching(
            packets,
            ofac_related,
            screen,
            mine,
        ).map_values(|i: int| outgoing(packets[i])->0),
{
    lemma_reaching(packets, ofac_related, screen, mine, packets.len());
    let all = fates(packets, ofac_related, screen);
    assert(all.take(packets.len() as int) =~= all);
}

/// Losing a policy never costs a validator packets: what reaches it while its policy is enforced
/// reaches it too once the policy has expired, whoever else has one.
pub proof fn law_losing_a_policy_costs_nothing(
    packet: PacketView,
    ofac_related: bool,
    ofac: bool,
    tables: Map<Pubkey, Seq<Pubkey>>,
    filter: FilterView,
    others: bool,
)
    requires
        reaches(packet, ofac_related, Screen { ofac, summaries: true, tables }, Some(filter)),
    ensures
        reaches(packet, ofac_related, Screen { ofac, summaries: others, tables }, None),
{
}

proof fn lemma_packets_at_places(filter: Option<FilterView>, kept: Seq<KeptView>, n: nat)
    requires
        n <= kept.len(),
    ensures
        packets_at(
            kept_packets(kept),
            Seq::new(n, |i: int| i).filter(|i: int| verdict_for(filter, kept[i]) is None),
        ) == packets_for(filter, kept.take(n as int)),
    decreases n,
{
    let stays = |i: int| verdict_for(filter, kept[i]) is None;
    let packets = kept_packets(kept);
    let all = Seq::new(n, |i: int| i);
    if n == 0 {
        lemma_drops_none(filter);
        reveal(Seq::filter);
        assert(kept.take(0) =~= Seq::<KeptView>::empty());
        assert(packets_at(packets, all.filter(stays)) =~= Seq::<ProtoPacketView>::empty());
    } else {
        let last = n - 1;
        let before = Seq::new(last as nat, |i: int| i);
        lemma_packets_at_places(filter, kept, last as nat);
        assert(all =~= before.push(last));
        before.lemma_filter_push(last, stays);
        assert(kept.take(n as int) =~= kept.take(last).push(kept[last]));
        lemma_drops_push(filter, kept.take(last), kept[last]);
        if stays(last) {
            assert(packets_at(packets, before.filter(stays).push(last)) =~= packets_at(
                packets,
                before.filter(stays),
            ).push(kept[last].packet));
        }
    }
}

proof fn lemma_flatten_packets(packets: Seq<ProtoPacketView>, lists: Seq<Seq<int>>)
    ensures
        lists.map_values(|b: Seq<int>| packets_at(packets, b)).flatten() == packets_at(
            packets,
            lists.flatten(),
        ),
    decreases lists.len(),
{
    let f = |b: Seq<int>| packets_at(packets, b);
    if lists.len() == 0 {
        assert(lists.map_values(f) =~= Seq::<Seq<ProtoPacketView>>::empty());
        assert(packets_at(packets, lists.flatten()) =~= Seq::<ProtoPacketView>::empty());
    } else {
        let init = lists.drop_last();
        let last = lists.last();
        lemma_flatten_packets(packets, init);
        assert(lists =~= init.push(last));
        init.lemma_flatten_push(last);
        assert(lists.map_values(f) =~= init.map_values(f).push(f(last)));
        init.map_values(f).lemma_flatten_push(f(last));
        assert(packets_at(packets, init.flatten() + last) =~= packets_at(packets, init.flatten())
            + f(last));
    }
}

/// What a validator is handed, batch after batch, are exactly the packets that its policy lets through,
/// each once and in order.
pub proof fn law_a_validator_is_handed_its_packets(
    recipients: Seq<RecipientView>,
    kept: Seq<KeptView>,
    batch_size: nat,
    i: int,
)
    requires
        batch_size > 0,
        0 <= i < recipients.len(),
    ensures
        ({
            let forwarding = forwarding_of(recipients, kept, batch_size);
            let sends = sends_to(forwarding.deliveries[i]);
            &&& sends.map_values(
                |s: (Pubkey, Seq<int>)| packets_at(forwarding.packets, s.1),
            ).flatten() == packets_for(recipients[i].filter, kept)
            &&& forall|n: int|
                0 <= n < sends.len() ==> (#[trigger] sends[n]).0 == recipients[i].pubkey
        }),
{
    let filter = recipients[i].filter;
    let forwarding = forwarding_of(recipients, kept, batch_size);
    let sends = sends_to(forwarding.deliveries[i]);
    let lists = sends.map_values(|s: (Pubkey, Seq<int>)| s.1);
    law_all_packets_are_handed_out(recipients[i].pubkey, places_for(filter, kept), batch_size);
    lemma_flatten_packets(forwarding.packets, lists);
    assert(sends.map_values(|s: (Pubkey, Seq<int>)| packets_at(forwarding.packets, s.1))
        =~= lists.map_values(|b: Seq<int>| packets_at(forwarding.packets, b)));
    lemma_packets_at_places(filter, kept, kept.len());
    assert(kept.take(kept.len() as int) =~= kept);
}

/// The counters add up, whatever comes of handing the packets out: what the first pass dropped and what
/// survived it are together all the packets that were taken in; of the survivors, those that a queue
/// took count as forwarded, each once; and the policy drops of each rule are together all the policy
/// drops. Where there is no recipient, nothing counts as forwarded.
pub proof fn law_counters_add_up(
    metrics: MetricsView,
    all: Seq<Screened>,
    recipients: Seq<RecipientView>,
    batch_size: nat,
    outcomes: Seq<SendOutcome>,
)
    requires
        room_for(metrics, all.len(), recipients.len()),
        metrics.num_packets_forwarded + all.len() <= u64::MAX,
        outcomes_of_sends(
            session_start(forwarding_of(recipients, survivors(all), batch_size)),
            outcomes,
        ),
    ensures
        ({
            let start = session_start(forwarding_of(recipients, survivors(all), batch_size));
            let after = counted(passed(metrics, all, recipients), start, outcomes);
            let handed = played(start, outcomes).handed;
            &&& survivors(all).len() + (after.num_packets_dropped_ofac
                - metrics.num_packets_dropped_ofac) + (after.num_packets_dropped_deserialize
                - metrics.num_packets_dropped_deserialize) + (
            after.num_packets_dropped_proto_convert - metrics.num_packets_dropped_proto_convert)
                == all.len()
            &&& after.num_packets_forwarded - metrics.num_packets_forwarded == handed.len()
            &&& handed.len() <= survivors(all).len()
            &&& recipients.len() == 0 ==> after.num_packets_forwarded
                == metrics.num_packets_forwarded
            &&& after.num_packets_dropped_pbp - metrics.num_packets_dropped_pbp == (
            after.num_packets_dropped_pbp_address - metrics.num_packets_dropped_pbp_address) + (
            after.num_packets_dropped_pbp_program - metrics.num_packets_dropped_pbp_program) + (
            after.num_packets_dropped_pbp_instruction
                - metrics.num_packets_dropped_pbp_instruction)
        }),
{
    let kept = survivors(all);
    let forwarding = forwarding_of(recipients, kept, batch_size);
    let start = session_start(forwarding);
    let before = passed(metrics, all, recipients);
    law_every_packet_is_accounted_for(all);
    lemma_all_drops_bounded(recipients, kept);
    assert(kept.len() * recipients.len() <= all.len() * recipients.len()) by (nonlinear_arith)
        requires
            kept.len() <= all.len(),
    ;
    lemma_forwarding_exists(recipients, kept, batch_size);
    law_no_more_forwarded_than_there_are(forwarding, outcomes);
    law_each_packet_counts_once(before, start, outcomes);
    law_handing_out_leaves_other_counters(before, start, outcomes);
    if recipients.len() == 0 {
        assert(forwarding.deliveries.map_values(
            |d: (Pubkey, Seq<Seq<int>>)| sends_to(d),
        ) =~= Seq::<Seq<(Pubkey, Seq<int>)>>::empty());
        assert(start.remaining.len() == 0);
        if outcomes.len() > 0 {
            assert(outcomes.take(0) =~= Seq::<SendOutcome>::empty());
            assert(played(start, outcomes.take(0)).remaining.len() > 0);
        }
    }
}

/// The policy drops are those of the three rules together.
pub open spec fn drops_split(metrics: MetricsView) -> bool {
    metrics.num_packets_dropped_pbp == metrics.num_packets_dropped_pbp_address
        + metrics.num_packets_dropped_pbp_program + metrics.num_packets_dropped_pbp_instruction
}

/// The policy drops are at all times those of the three rules together: at the start of an interval, and
/// after whatever was forwarded since.
pub proof fn law_policy_drops_stay_split(
    metrics: MetricsView,
    all: Seq<Screened>,
    recipients: Seq<RecipientView>,
    state: SessionView,
    outcomes: Seq<SendOutcome>,
    capacities: (usize, usize, usize),
)
    requires
        drops_split(metrics),
        room_for(metrics, all.len(), recipients.len()),
    ensures
        drops_split(fresh_metrics(capacities.0, capacities.1, capacities.2)),
        drops_split(passed(metrics, all, recipients)),
        drops_split(counted(passed(metrics, all, recipients), state, outcomes)),
{
    let kept = survivors(all);
    law_every_packet_is_accounted_for(all);
    lemma_all_drops_bounded(recipients, kept);
    assert(kept.len() * recipients.len() <= all.len() * recipients.len()) by (nonlinear_arith)
        requires
            kept.len() <= all.len(),
    ;
    law_handing_out_leaves_other_counters(passed(metrics, all, recipients), state, outcomes);
}

/// Where every queue takes what it is handed, the packets that count as forwarded are those that the
/// policy of at least one recipient lets through.
pub proof fn law_what_somebody_gets_is_forwarded(
    recipients: Seq<RecipientView>,
    kept: Seq<KeptView>,
    batch_size: nat,
    place: int,
)
    requires
        batch_size > 0,
    ensures
        ({
            let start = session_start(forwarding_of(recipients, kept, batch_size));
            let after = played(start, all_taken(start.remaining.len()));
            &&& after.remaining.len() == 0
            &&& after.handed.contains(place) <==> 0 <= place < kept.len() && reached(
                recipients,
                kept[place],
            )
        }),
{
    let forwarding = forwarding_of(recipients, kept, batch_size);
    let list = forwarding.deliveries;
    let start = session_start(forwarding);
    let sends = start.remaining;
    let after = played(start, all_taken(sends.len()));
    lemma_all_taken(start, sends.len(), place);
    if after.handed.contains(place) {
        let m = choose|m: int| 0 <= m < sends.len() && (#[trigger] sends[m]).1.contains(place);
        assert(sends.contains(sends[m]));
        lemma_sends(list, sends[m]);
        let (n, j) = choose|n: int, j: int|
            0 <= n < list.len() && 0 <= j < list[n].1.len() && sends[m] == (
                list[n].0,
                #[trigger] list[n].1[j],
            );
        let k = choose|k: int| 0 <= k < list[n].1[j].len() && list[n].1[j][k] == place;
        lemma_chunks_contain(places_for(recipients[n].filter, kept), batch_size, j, k);
        lemma_places_within(recipients[n].filter, kept, place);
        assert(verdict_for(recipients[n].filter, kept[place]) is None);
    }
    if 0 <= place < kept.len() && reached(recipients, kept[place]) {
        let n = choose|n: int|
            0 <= n < recipients.len() && verdict_for(
                (#[trigger] recipients[n]).filter,
                kept[place],
            ) is None;
        let filter = recipients[n].filter;
        let every = Seq::new(kept.len(), |i: int| i);
        assert(every[place] == place);
        every.lemma_filter_contains(|i: int| verdict_for(filter, kept[i]) is None, place);
        let chunks = chunks_of(places_for(filter, kept), batch_size);
        law_batches_hold_every_packet(places_for(filter, kept), batch_size);
        lemma_flatten_contains(chunks, place);
        let j = choose|j: int| 0 <= j < chunks.len() && (#[trigger] chunks[j]).contains(place);
        assert(list[n].1 == chunks);
        lemma_sent(list, n, j);
        let m = choose|m: int| 0 <= m < sends.len() && sends[m] == (list[n].0, chunks[j]);
        assert(sends[m].1.contains(place));
    }
}

proof fn lemma_same_survivors(a: Seq<Screened>, b: Seq<Screened>)
    requires
        a.len() == b.len(),
        forall|i: int|
            #![trigger a[i]]
            #![trigger b[i]]
            0 <= i < a.len() ==> {
                &&& a[i] is Kept <==> b[i] is Kept
                &&& a[i] is Kept ==> a[i]->Kept_0.packet == b[i]->Kept_0.packet
            },
    ensures
        survivors(a).map_values(|k: KeptView| k.packet) == survivors(b).map_values(
            |k: KeptView| k.packet,
        ),
    decreases a.len(),
{
    let f = |k: KeptView| k.packet;
    if a.len() == 0 {
        assert(a =~= Seq::<Screened>::empty());
        assert(b =~= Seq::<Screened>::empty());
    } else {
        let x = a.drop_last();
        let y = b.drop_last();
        assert forall|i: int|
            #![trigger x[i]]
            #![trigger y[i]]
            0 <= i < x.len() implies {
                &&& x[i] is Kept <==> y[i] is Kept
                &&& x[i] is Kept ==> x[i]->Kept_0.packet == y[i]->Kept_0.packet
            } by {
            assert(a[i] == x[i] && b[i] == y[i]);
        }
        lemma_same_survivors(x, y);
        assert(a =~= x.push(a.last()));
        assert(b =~= y.push(b.last()));
        assert(a[a.len() - 1] is Kept <==> b[a.len() - 1] is Kept);
        lemma_screened_push(x, a.last());
        lemma_screened_push(y, b.last());
        if a.last() is Kept {
            assert(survivors(a).map_values(f) =~= survivors(x).map_values(f).push(
                a.last()->Kept_0.packet,
            ));
            assert(survivors(b).map_values(f) =~= survivors(y).map_values(f).push(
                b.last()->Kept_0.packet,
            ));
        }
    }
}

/// One validator's policy does not drop for another: what a validator gets depends on its own
/// policy, never on whether another one has any. Left out are packets that are not transactions,
/// where no OFAC address is configured: a validator without a policy gets those exactly while nobody
/// has one.
pub proof fn law_one_policy_does_not_drop_for_another(
    packets: Seq<PacketView>,
    ofac_related: Seq<bool>,
    ofac: bool,
    tables: Map<Pubkey, Seq<Pubkey>>,
    mine: Option<FilterView>,
    others: bool,
    other_others: bool,
)
    requires
        ofac_related.len() == packets.len(),
        mine is None && !ofac && others != other_others ==> forall|i: int|
            0 <= i < packets.len() && (#[trigger] packets[i]).data is Some ==> parsed(packets[i]) is Some,
    ensures
        ({
            let one = Screen { ofac, summaries: mine is Some || others, tables };
            let two = Screen { ofac, summaries: mine is Some || other_others, tables };
            packets_for(mine, survivors(fates(packets, ofac_related, one))) == packets_for(
                mine,
                survivors(fates(packets, ofac_related, two)),
            )
        }),
{
    let one = Screen { ofac, summaries: mine is Some || others, tables };
    let two = Screen { ofac, summaries: mine is Some || other_others, tables };
    if mine is None && others != other_others {
        let a = fates(packets, ofac_related, one);
        let b = fates(packets, ofac_related, two);
        assert forall|i: int|
            #![trigger a[i]]
            #![trigger b[i]]
            0 <= i < a.len() implies {
                &&& a[i] is Kept <==> b[i] is Kept
                &&& a[i] is Kept ==> a[i]->Kept_0.packet == b[i]->Kept_0.packet
            } by {
            assert(packets[i].data is None ==> parsed(packets[i]) is None);
            assert(a[i] == screened(taken_in(packets[i], parses(one)), ofac_related[i], one));
            assert(b[i] == screened(taken_in(packets[i], parses(two)), ofac_related[i], two));
        }
        lemma_same_survivors(a, b);
        law_no_policy_drops_nothing(survivors(a), PbpDrop::Address);
        law_no_policy_drops_nothing(survivors(b), PbpDrop::Address);
    }
}

/// The recipients have the policies that are live for them.
pub open spec fn planned(
    recipients: Seq<RecipientView>,
    stored: Map<Pubkey, StoredView>,
    now: u64,
) -> bool {
    forall|i: int|
        0 <= i < recipients.len() ==> (#[trigger] recipients[i]).filter == live_filter(
            stored,
            recipients[i].pubkey,
            now,
        )
}

/// What the first pass makes of the packets of batches as they came in.
pub open spec fn batch_fates(
    packets: Seq<PacketView>,
    ofac_related: Seq<bool>,
    ofac: bool,
    tables: Map<Pubkey, Seq<Pubkey>>,
    recipients: Seq<RecipientView>,
) -> Seq<Screened> {
    all_screened(
        incoming_of(packets, ofac || some_policy(recipients)),
        ofac_related,
        Screen { ofac, summaries: some_policy(recipients), tables },
    )
}

/// What a validator is handed of the packets that come in, batch by batch, does not depend on the
/// policies that others pushed. Left out are packets that are not transactions, where no OFAC address
/// is configured and somebody has a policy to enforce one time and nobody the other time: a validator
/// without a policy gets those exactly while nobody has one.
pub proof fn law_policies_of_others_do_not_matter(
    packets: Seq<PacketView>,
    ofac_related: Seq<bool>,
    ofac: bool,
    tables: Map<Pubkey, Seq<Pubkey>>,
    batch_size: nat,
    now: u64,
    stored: Map<Pubkey, StoredView>,
    recipients: Seq<RecipientView>,
    i: int,
    other_stored: Map<Pubkey, StoredView>,
    other_recipients: Seq<RecipientView>,
    j: int,
)
    requires
        ofac_related.len() == incoming_of(packets, true).len(),
        planned(recipients, stored, now),
        planned(other_recipients, other_stored, now),
        0 <= i < recipients.len(),
        0 <= j < other_recipients.len(),
        recipients[i].pubkey == other_recipients[j].pubkey,
        stored.contains_key(recipients[i].pubkey) == other_stored.contains_key(recipients[i].pubkey),
        stored.contains_key(recipients[i].pubkey) ==> stored[recipients[i].pubkey]
            == other_stored[recipients[i].pubkey],
        !ofac && some_policy(recipients) != some_policy(other_recipients) ==> forall|n: int|
            0 <= n < packets.len() && !(#[trigger] packets[n]).meta.discard && packets[n].data is Some
                ==> parsed(packets[n]) is Some,
    ensures
        ({
            let one = forwarding_of(
                recipients,
                survivors(batch_fates(packets, ofac_related, ofac, tables, recipients)),
                batch_size,
            );
            let two = forwarding_of(
                other_recipients,
                survivors(batch_fates(packets, ofac_related, ofac, tables, other_recipients)),
                batch_size,
            );
            &&& one.packets == two.packets
            &&& one.deliveries[i] == two.deliveries[j]
        }),
{
    let mine = recipients[i].filter;
    assert(mine == other_recipients[j].filter);
    let keep = |p: PacketView| !p.meta.discard;
    let taken = packets.filter(keep);
    let a = Screen { ofac, summaries: some_policy(recipients), tables };
    let b = Screen { ofac, summaries: some_policy(other_recipients), tables };
    assert(batch_fates(packets, ofac_related, ofac, tables, recipients) == fates(
        taken,
        ofac_related,
        a,
    ));
    assert(batch_fates(packets, ofac_related, ofac, tables, other_recipients) == fates(
        taken,
        ofac_related,
        b,
    ));
    assert(taken.len() == incoming_of(packets, true).len());
    assert forall|n: int|
        !ofac && a.summaries != b.summaries && 0 <= n < taken.len() && (#[trigger] taken[n]).data is Some implies parsed(
        taken[n],
    ) is Some by {
        packets.lemma_filter_pred(keep, n);
        assert(taken.contains(taken[n]));
        packets.lemma_filter_contains_rev(keep, taken[n]);
        let m = choose|m: int| 0 <= m < packets.len() && packets[m] == taken[n];
        assert(!packets[m].meta.discard);
    }
    law_one_policy_does_not_drop_for_another(
        taken,
        ofac_related,
        ofac,
        tables,
        mine,
        a.summaries,
        b.summaries,
    );
    let x = survivors(fates(taken, ofac_related, a));
    let y = survivors(fates(taken, ofac_related, b));
    if mine is None {
        law_no_policy_drops_nothing(x, PbpDrop::Address);
        law_no_policy_drops_nothing(y, PbpDrop::Address);
        lemma_all_places(x);
        lemma_all_places(y);
        assert(kept_packets(x).len() == kept_packets(y).len());
    } else {
        assert(recipients[i].filter is Some && other_recipients[j].filter is Some);
        assert(a == b);
    }
}

/// What is told of recipients and of packets that came in is all that they hold.
pub proof fn law_recipients_are_told(
    recipients: Seq<Recipient>,
    views: Seq<RecipientView>,
    incoming: Seq<Incoming>,
    i: int,
)
    ensures
        recipient_views(recipients).len() == recipients.len(),
        0 <= i < recipients.len() ==> {
            let view = recipient_views(recipients)[i];
            &&& view.pubkey == recipients[i].pubkey
            &&& recipients[i].filter matches Some(filter) ==> view.filter == Some(filter@)
            &&& recipients[i].filter is None ==> view.filter is None
        },
        recipient_keys(views).len() == views.len(),
        0 <= i < views.len() ==> recipient_keys(views)[i] == views[i].pubkey,
        incoming_views(incoming).len() == incoming.len(),
        0 <= i < incoming.len() ==> {
            let view = incoming_views(incoming)[i];
            &&& view.packet == incoming[i].packet@
            &&& incoming[i].tx matches Some(tx) ==> view.tx == Some(tx@)
            &&& incoming[i].tx is None ==> view.tx is None
        },
{
}

/// Only subscribers get packets: all of them, or those that lead a near slot.
pub proof fn law_who_gets_packets(
    subscribed: Set<Pubkey>,
    slot_leaders: Set<Pubkey>,
    forward_all: bool,
    key: Pubkey,
)
    ensures
        recipients_of(subscribed, slot_leaders, forward_all).contains(key) <==> subscribed.contains(
            key,
        ) && (forward_all || slot_leaders.contains(key)),
{
}

/// One more packet is taken in, behind those before it and as it is, unless it is to be discarded; it is
/// parsed where that is asked for.
pub proof fn law_one_more_packet_comes_in(packets: Seq<PacketView>, packet: PacketView, parse: bool)
    ensures
        packets.len() == 0 ==> incoming_of(packets, parse).len() == 0,
        packet.meta.discard ==> incoming_of(packets.push(packet), parse) == incoming_of(
            packets,
            parse,
        ),
        !packet.meta.discard ==> {
            let before = incoming_of(packets, parse);
            let after = incoming_of(packets.push(packet), parse);
            &&& after.len() == before.len() + 1
            &&& after.take(before.len() as int) == before
            &&& after.last().packet == packet
            &&& !parse || packet.data is None ==> after.last().tx is None
            &&& parse && packet.data is Some ==> after.last().tx == transaction_of_bytes(
                packet.data->0,
            )
        },
{
    let keep = |p: PacketView| !p.meta.discard;
    let take = |p: PacketView| taken_in(p, parse);
    packets.lemma_filter_push(packet, keep);
    if packets.len() == 0 {
        reveal(Seq::filter);
    }
    if keep(packet) {
        let before = incoming_of(packets, parse);
        assert(incoming_of(packets.push(packet), parse) =~= before.push(take(packet)));
        assert(before.push(take(packet)).take(before.len() as int) =~= before);
    }
}

/// What the first pass makes of one more packet. Where a filter is configured, one that is not a
/// transaction counts as undecodable; where OFAC addresses are, one that is related to them counts as
/// such; one without data counts as unsendable; and every other goes on, with its bytes as they came in.
pub proof fn law_first_pass_on_one_more_packet(
    incoming: Seq<IncomingView>,
    ofac_related: Seq<bool>,
    screen: Screen,
    one: IncomingView,
    related: bool,
)
    requires
        ofac_related.len() == incoming.len(),
    ensures
        ({
            let before = all_screened(incoming, ofac_related, screen);
            let after = all_screened(incoming.push(one), ofac_related.push(related), screen);
            let undecodable = (screen.ofac || screen.summaries) && one.tx is None;
            let ofac = !undecodable && screen.ofac && related;
            let unsendable = !undecodable && !ofac && one.packet.data is None;
            let kept = !undecodable && !ofac && !unsendable;
            &&& undecodable_count(after) == undecodable_count(before) + (if undecodable {
                1int
            } else {
                0
            })
            &&& ofac_count(after) == ofac_count(before) + (if ofac {
                1int
            } else {
                0
            })
            &&& unsendable_count(after) == unsendable_count(before) + (if unsendable {
                1int
            } else {
                0
            })
            &&& !kept ==> survivors(after) == survivors(before)
            &&& kept ==> {
                &&& survivors(after).len() == survivors(before).len() + 1
                &&& survivors(after).take(survivors(before).len() as int) == survivors(before)
                &&& outgoing(one.packet) == Some(survivors(after).last().packet)
                &&& one.packet.data == Some(survivors(after).last().packet.data)
                &&& !screen.summaries ==> survivors(after).last().summary is None
                &&& screen.summaries ==> survivors(after).last().summary == Some(
                    summary_of(one.tx->0, screen.tables),
                )
            }
        }),
        incoming.len() == 0 ==> {
            let none = all_screened(incoming, ofac_related, screen);
            &&& undecodable_count(none) == 0
            &&& ofac_count(none) == 0
            &&& unsendable_count(none) == 0
            &&& survivors(none).len() == 0
        },
{
    let before = all_screened(incoming, ofac_related, screen);
    let last = screened(one, related, screen);
    let after = all_screened(incoming.push(one), ofac_related.push(related), screen);
    assert(after =~= before.push(last));
    lemma_screened_push(before, last);
    if last is Kept {
        assert(survivors(after).take(survivors(before).len() as int) =~= survivors(before));
    }
    if incoming.len() == 0 {
        lemma_screened_none();
        assert(before =~= Seq::<Screened>::empty());
    }
}

/// What the second pass makes of one more packet, for one recipient: without a policy to enforce it gets
/// the packet as it is; with one it gets the packet unless the policy drops it, and that is counted under
/// the reason and under no other.
pub proof fn law_second_pass_on_one_more_packet(
    filter: Option<FilterView>,
    kept: Seq<KeptView>,
    one: KeptView,
    reason: PbpDrop,
)
    ensures
        ({
            let why = if filter is Some && one.summary is Some {
                verdict(filter->0, one.summary->0)
            } else {
                None
            };
            &&& why is None ==> packets_for(filter, kept.push(one)) == packets_for(
                filter,
                kept,
            ).push(one.packet)
            &&& why is Some ==> packets_for(filter, kept.push(one)) == packets_for(filter, kept)
            &&& drops(filter, kept.push(one), reason) == drops(filter, kept, reason) + (if why
                == Some(reason) {
                1int
            } else {
                0
            })
        }),
        kept.len() == 0 ==> packets_for(filter, kept).len() == 0 && drops(filter, kept, reason)
            == 0,
{
    lemma_drops_push(filter, kept, one);
    if kept.len() == 0 {
        lemma_drops_none(filter);
        assert(kept =~= Seq::<KeptView>::empty());
    }
}

/// The drops of one more recipient come on top of those of the recipients before it.
pub proof fn law_drops_of_one_more_recipient(
    recipients: Seq<RecipientView>,
    one: RecipientView,
    kept: Seq<KeptView>,
    reason: PbpDrop,
)
    ensures
        all_drops(recipients.push(one), kept, reason) == all_drops(recipients, kept, reason)
            + drops(one.filter, kept, reason),
        recipients.len() == 0 ==> all_drops(recipients, kept, reason) == 0,
{
    assert(recipients.push(one).drop_last() =~= recipients);
}

proof fn lemma_ascending_filter(n: nat, keep: spec_fn(int) -> bool)
    ensures
        ({
            let list = Seq::new(n, |i: int| i).filter(keep);
            &&& forall|p: int| #[trigger] list.contains(p) <==> 0 <= p < n && keep(p)
            &&& forall|i: int, j: int|
                0 <= i < j < list.len() ==> #[trigger] list[i] < #[trigger] list[j]
        }),
    decreases n,
{
    let all = Seq::new(n, |i: int| i);
    let list = all.filter(keep);
    if n == 0 {
        reveal(Seq::filter);
    } else {
        let last = n - 1;
        let before = Seq::new(last as nat, |i: int| i);
        lemma_ascending_filter(last as nat, keep);
        assert(all =~= before.push(last));
        before.lemma_filter_push(last, keep);
        let some = before.filter(keep);
        lemma_push_contains(some, last);
        assert forall|i: int, j: int| 0 <= i < j < list.len() implies #[trigger] list[i]
            < #[trigger] list[j] by {
            assert(some.contains(list[i]) || j < some.len() || !keep(last)) by {
                if i < some.len() {
                    assert(some[i] == list[i]);
                }
            }
        }
    }
}

/// The places of a recipient are those of the packets that its policy lets through, all of them, each
/// once and in order.
pub proof fn law_places_of_a_recipient(filter: Option<FilterView>, kept: Seq<KeptView>, place: int)
    ensures
        places_for(filter, kept).contains(place) <==> 0 <= place < kept.len() && (filter is None
            || kept[place].summary is None || verdict(filter->0, kept[place].summary->0) is None),
        forall|i: int, j: int|
            0 <= i < j < places_for(filter, kept).len() ==> #[trigger] places_for(filter, kept)[i]
                < #[trigger] places_for(filter, kept)[j],
{
    let stays = |i: int| verdict_for(filter, kept[i]) is None;
    lemma_ascending_filter(kept.len(), stays);
    assert(stays(place) == (verdict_for(filter, kept[place]) is None));
}

/// What is to be handed out: the packets that survived the first pass, as they are, and for each
/// recipient, in order, its places in batches of the size.
pub proof fn law_what_is_to_be_handed_out(
    recipients: Seq<RecipientView>,
    kept: Seq<KeptView>,
    batch_size: nat,
    i: int,
)
    ensures
        forwarding_of(recipients, kept, batch_size).packets.len() == kept.len(),
        0 <= i < kept.len() ==> forwarding_of(recipients, kept, batch_size).packets[i]
            == kept[i].packet,
        forwarding_of(recipients, kept, batch_size).deliveries.len() == recipients.len(),
        0 <= i < recipients.len() ==> forwarding_of(recipients, kept, batch_size).deliveries[i].0
            == recipients[i].pubkey,
        0 <= i < recipients.len() && batch_size > 0 ==> {
            let batches = forwarding_of(recipients, kept, batch_size).deliveries[i].1;
            &&& batches.flatten() == places_for(recipients[i].filter, kept)
            &&& forall|j: int|
                0 <= j < batches.len() ==> 0 < (#[trigger] batches[j]).len() <= batch_size
            &&& forall|j: int|
                0 <= j < batches.len() - 1 ==> (#[trigger] batches[j]).len() == batch_size
        },
{
    if 0 <= i < recipients.len() && batch_size > 0 {
        law_batches_hold_every_packet(places_for(recipients[i].filter, kept), batch_size);
    }
}

/// The counters after both passes: each drop under its own reason, the policy drops together under one
/// more, and no other counter touched.
pub proof fn law_counters_after_both_passes(
    metrics: MetricsView,
    all: Seq<Screened>,
    recipients: Seq<RecipientView>,
)
    requires
        room_for(metrics, all.len(), recipients.len()),
    ensures
        ({
            let after = passed(metrics, all, recipients);
            let kept = survivors(all);
            let address = all_drops(recipients, kept, PbpDrop::Address);
            let program = all_drops(recipients, kept, PbpDrop::Program);
            let instruction = all_drops(recipients, kept, PbpDrop::Instruction);
            &&& after.num_packets_dropped_ofac == metrics.num_packets_dropped_ofac + ofac_count(all)
            &&& after.num_packets_dropped_deserialize == metrics.num_packets_dropped_deserialize
                + undecodable_count(all)
            &&& after.num_packets_dropped_proto_convert == metrics.num_packets_dropped_proto_convert
                + unsendable_count(all)
            &&& after.num_packets_dropped_pbp_address == metrics.num_packets_dropped_pbp_address
                + address
            &&& after.num_packets_dropped_pbp_program == metrics.num_packets_dropped_pbp_program
                + program
            &&& after.num_packets_dropped_pbp_instruction
                == metrics.num_packets_dropped_pbp_instruction + instruction
            &&& after.num_packets_dropped_pbp == metrics.num_packets_dropped_pbp + address + program
                + instruction
            &&& after == (MetricsView {
                num_packets_dropped_ofac: after.num_packets_dropped_ofac,
                num_packets_dropped_deserialize: after.num_packets_dropped_deserialize,
                num_packets_dropped_proto_convert: after.num_packets_dropped_proto_convert,
                num_packets_dropped_pbp_address: after.num_packets_dropped_pbp_address,
                num_packets_dropped_pbp_program: after.num_packets_dropped_pbp_program,
                num_packets_dropped_pbp_instruction: after.num_packets_dropped_pbp_instruction,
                num_packets_dropped_pbp: after.num_packets_dropped_pbp,
                ..metrics
            })
        }),
{
    let kept = survivors(all);
    law_every_packet_is_accounted_for(all);
    lemma_all_drops_bounded(recipients, kept);
    assert(kept.len() * recipients.len() <= all.len() * recipients.len()) by (nonlinear_arith)
        requires
            kept.len() <= all.len(),
    ;
}

/// A summary is built exactly where some recipient has a policy to enforce.
pub proof fn law_summaries_are_for_policies(recipients: Seq<RecipientView>)
    ensures
        some_policy(recipients) <==> exists|i: int|
            0 <= i < recipients.len() && (#[trigger] recipients[i]).filter is Some,
{
}

/// The data that a validator is handed, batch after batch, are the data of the packets that reach it, in
/// order and byte for byte, however long they are. A packet reaches it that is not to be discarded and
/// has data; that is a transaction, where a filter is configured; that is not related to an OFAC address,
/// where those are configured; and that its own policy, if there is one to enforce, lets through.
pub proof fn law_data_reach_a_validator_unchanged(
    packets: Seq<PacketView>,
    ofac_related: Seq<bool>,
    ofac: bool,
    tables: Map<Pubkey, Seq<Pubkey>>,
    recipients: Seq<RecipientView>,
    batch_size: nat,
    i: int,
)
    requires
        batch_size > 0,
        0 <= i < recipients.len(),
        ofac_related.len() == packets.filter(|p: PacketView| !p.meta.discard).len(),
    ensures
        ({
            let policies = exists|n: int|
                0 <= n < recipients.len() && (#[trigger] recipients[n]).filter is Some;
            let kept = survivors(
                all_screened(
                    incoming_of(packets, ofac || policies),
                    ofac_related,
                    Screen { ofac, summaries: policies, tables },
                ),
            );
            let forwarding = forwarding_of(recipients, kept, batch_size);
            let taken = packets.filter(|p: PacketView| !p.meta.discard);
            let there = Seq::new(taken.len(), |n: int| n).filter(
                |n: int|
                    {
                        &&& taken[n].data is Some
                        &&& ofac || policies ==> transaction_of_bytes(taken[n].data->0) is Some
                        &&& ofac ==> !ofac_related[n]
                        &&& recipients[i].filter is Some ==> verdict(
                            recipients[i].filter->0,
                            summary_of(transaction_of_bytes(taken[n].data->0)->0, tables),
                        ) is None
                    },
            );
            forwarding.deliveries[i].1.flatten().map_values(|p: int| forwarding.packets[p].data)
                == there.map_values(|n: int| taken[n].data->0)
        }),
{
    let policies = exists|n: int|
        0 <= n < recipients.len() && (#[trigger] recipients[n]).filter is Some;
    let screen = Screen { ofac, summaries: policies, tables };
    let taken = packets.filter(|p: PacketView| !p.meta.discard);
    let mine = recipients[i].filter;
    let all = fates(taken, ofac_related, screen);
    assert(all == all_screened(incoming_of(packets, ofac || policies), ofac_related, screen));
    let kept = survivors(all);
    let forwarding = forwarding_of(recipients, kept, batch_size);
    let places = places_for(mine, kept);
    law_batches_hold_every_packet(places, batch_size);
    assert(forwarding.deliveries[i].1.flatten() == places);
    lemma_packets_at_places(mine, kept, kept.len());
    assert(kept.take(kept.len() as int) =~= kept);
    law_what_a_validator_gets(taken, ofac_related, screen, mine);
    let raw = |n: int|
        {
            &&& taken[n].data is Some
            &&& ofac || policies ==> transaction_of_bytes(taken[n].data->0) is Some
            &&& ofac ==> !ofac_related[n]
            &&& mine is Some ==> verdict(
                mine->0,
                summary_of(transaction_of_bytes(taken[n].data->0)->0, tables),
            ) is None
        };
    let gets = |n: int| reaches(taken[n], ofac_related[n], screen, mine);
    assert forall|n: int| #[trigger] raw(n) == gets(n) by {
        if taken[n].data is Some {
            assert(parsed(taken[n]) == transaction_of_bytes(taken[n].data->0));
        }
    }
    let every = Seq::new(taken.len(), |n: int| n);
    assert(raw =~= gets);
    let there = every.filter(raw);
    assert(there == reaching(taken, ofac_related, screen, mine));
    let got = packets_for(mine, kept);
    assert(got == packets_at(forwarding.packets, places));
    lemma_ascending_filter(taken.len(), raw);
    assert forall|n: int| 0 <= n < there.len() implies got[n].data == taken[#[trigger] there[n]].data->0 by {
        assert(there.contains(there[n]));
        assert(raw(there[n]));
        assert(got[n] == outgoing(taken[there[n]])->0);
    }
    assert(places.map_values(|p: int| forwarding.packets[p].data) =~= there.map_values(
        |n: int| taken[n].data->0,
    )) by {
        assert forall|n: int| 0 <= n < there.len() implies forwarding.packets[places[n]].data
            == taken[#[trigger] there[n]].data->0 by {
            assert(got[n] == forwarding.packets[places[n]]);
        }
    }
}

/// The packets that reach a validator, in so many words, and their places.
pub proof fn law_what_reaches_a_validator(
    packets: Seq<PacketView>,
    ofac_related: Seq<bool>,
    screen: Screen,
    mine: Option<FilterView>,
    place: int,
)
    ensures
        reaching(packets, ofac_related, screen, mine).contains(place) <==> {
            &&& 0 <= place < packets.len()
            &&& packets[place].data is Some
            &&& screen.ofac || screen.summaries ==> transaction_of_bytes(
                packets[place].data->0,
            ) is Some
            &&& screen.ofac ==> !ofac_related[place]
            &&& mine is Some ==> verdict(
                mine->0,
                summary_of(transaction_of_bytes(packets[place].data->0)->0, screen.tables),
            ) is None
        },
        forall|i: int, j: int|
            0 <= i < j < reaching(packets, ofac_related, screen, mine).len() ==> #[trigger] reaching(
                packets,
                ofac_related,
                screen,
                mine,
            )[i] < #[trigger] reaching(packets, ofac_related, screen, mine)[j],
{
    let gets = |i: int| reaches(packets[i], ofac_related[i], screen, mine);
    lemma_ascending_filter(packets.len(), gets);
    assert(gets(place) == reaches(packets[place], ofac_related[place], screen, mine));
    if packets[place].data is Some {
        assert(parsed(packets[place]) == transaction_of_bytes(packets[place].data->0));
    }
}

/// What is planned is that each recipient has the policy that is live for it.
pub proof fn law_planned_policies_are_live(
    recipients: Seq<RecipientView>,
    stored: Map<Pubkey, StoredView>,
    now: u64,
    i: int,
)
    requires
        planned(recipients, stored, now),
        0 <= i < recipients.len(),
    ensures
        recipients[i].filter == live_filter(stored, recipients[i].pubkey, now),
{
}

} // verus!
