//! Handing packets to the queues of the validators, batch by batch.

use vstd::prelude::*;

use crate::metrics::{with_dropped, with_forwarded, MetricsView, RelayerMetrics};
use crate::packet::{proto_views, ProtoPacket, ProtoPacketView};
use crate::pubkey::{copy_keys, Pubkey};

verus! {

/// Packets that go out together.
pub struct ProtoPacketBatch {
    pub packets: Vec<ProtoPacket>,
}

impl View for ProtoPacketBatch {
    type V = Seq<ProtoPacketView>;

    open spec fn view(&self) -> Seq<ProtoPacketView> {
        proto_views(self.packets@)
    }
}

/// The places that a list names.
pub open spec fn places(list: Seq<usize>) -> Seq<int> {
    list.map_values(|p: usize| p as int)
}

/// The places that each batch names.
pub open spec fn batch_places(batches: Seq<Vec<usize>>) -> Seq<Seq<int>> {
    batches.map_values(|b: Vec<usize>| places(b@))
}

/// The packets at the places.
pub open spec fn packets_at(packets: Seq<ProtoPacketView>, batch: Seq<int>) -> Seq<
    ProtoPacketView,
> {
    batch.map_values(|p: int| packets[p])
}

/// The items in batches of `size`, the last of which may be shorter.
pub open spec fn chunks_of<A>(items: Seq<A>, size: nat) -> Seq<Seq<A>>
    decreases items.len(),
{
    if items.len() == 0 || size == 0 {
        Seq::empty()
    } else if items.len() <= size {
        seq![items]
    } else {
        seq![items.take(size as int)] + chunks_of(items.skip(size as int), size)
    }
}

/// The places in batches of `size`.
pub fn chunk(list: &Vec<usize>, size: usize) -> (r: Vec<Vec<usize>>)
    requires
        size > 0,
    ensures
        batch_places(r@) == chunks_of(places(list@), size as nat),
{
    let ghost all = places(list@);
    let mut batches: Vec<Vec<usize>> = Vec::new();
    let mut at: usize = 0;
    assert(all.skip(0) =~= all);
    assert(batch_places(batches@) =~= Seq::<Seq<int>>::empty());
    assert(batch_places(batches@) + chunks_of(all.skip(0), size as nat) =~= chunks_of(
        all,
        size as nat,
    ));
    while at < list.len()
        invariant
            at <= list@.len(),
            size > 0,
            all == places(list@),
            batch_places(batches@) + chunks_of(all.skip(at as int), size as nat) == chunks_of(
                all,
                size as nat,
            ),
        decreases list@.len() - at,
    {
        let end: usize = if list.len() - at <= size {
            list.len()
        } else {
            at + size
        };
        let mut part: Vec<usize> = Vec::new();
        let mut i: usize = at;
        while i < end
            invariant
                at <= i <= end <= list@.len(),
                all == places(list@),
                places(part@) == all.subrange(at as int, i as int),
            decreases end - i,
        {
            let ghost was = part@;
            part.push(list[i]);
            assert(places(part@) =~= places(was).push(all[i as int]));
            assert(all.subrange(at as int, i + 1) =~= all.subrange(at as int, i as int).push(
                all[i as int],
            ));
            i = i + 1;
        }
        let ghost before = batches@;
        let ghost rest = all.skip(at as int);
        batches.push(part);
        proof {
            let held = places(batches@.last()@);
            assert(batch_places(batches@) =~= batch_places(before).push(held));
            assert(held =~= rest.take(end - at));
            if list.len() - at <= size {
                assert(held =~= rest);
                assert(all.skip(end as int) =~= Seq::<int>::empty());
                assert(chunks_of(rest, size as nat) =~= seq![held]);
            } else {
                assert(all.skip(end as int) =~= rest.skip(size as int));
                assert(chunks_of(rest, size as nat) =~= seq![held] + chunks_of(
                    rest.skip(size as int),
                    size as nat,
                ));
            }
            assert(batch_places(batches@) + chunks_of(all.skip(end as int), size as nat)
                =~= batch_places(before) + chunks_of(rest, size as nat));
        }
        at = end;
    }
    assert(all.skip(at as int) =~= Seq::<int>::empty());
    assert(batch_places(batches@) + chunks_of(all.skip(at as int), size as nat) =~= batch_places(
        batches@,
    ));
    batches
}

/// What one validator gets: batches of its own, or what is shared.
pub struct Delivery {
    pub pubkey: Pubkey,
    pub filtered: Option<Vec<Vec<usize>>>,
}

/// The packets to hand out, and which of them each validator gets: batches of places among the
/// packets. A validator that filtered its own view gets that view; everyone else shares the batches
/// that nobody's policy touched.
pub struct Forwarding {
    pub packets: Vec<ProtoPacket>,
    pub shared: Vec<Vec<usize>>,
    pub deliveries: Vec<Delivery>,
}

/// What a [`Forwarding`] holds.
pub struct ForwardingView {
    pub packets: Seq<ProtoPacketView>,
    /// The validators, with the places of the packets that each gets, batch by batch.
    pub deliveries: Seq<(Pubkey, Seq<Seq<int>>)>,
}

/// What a delivery hands to its validator, where `shared` is what is shared.
pub open spec fn delivered(delivery: Delivery, shared: Seq<Vec<usize>>) -> (
    Pubkey,
    Seq<Seq<int>>,
) {
    (
        delivery.pubkey,
        match delivery.filtered {
            Some(batches) => batch_places(batches@),
            None => batch_places(shared),
        },
    )
}

impl View for Forwarding {
    type V = ForwardingView;

    open spec fn view(&self) -> ForwardingView {
        ForwardingView {
            packets: proto_views(self.packets@),
            deliveries: self.deliveries@.map_values(|d: Delivery| delivered(d, self.shared@)),
        }
    }
}

impl Forwarding {
    /// The batches that one validator gets.
    fn batches_at(&self, i: usize) -> (r: &Vec<Vec<usize>>)
        requires
            i < self.deliveries@.len(),
        ensures
            batch_places(r@) == self@.deliveries[i as int].1,
    {
        match &self.deliveries[i].filtered {
            Some(batches) => batches,
            None => &self.shared,
        }
    }
}

/// What came of handing a batch to the queue of a validator.
#[derive(Debug, Clone, Copy, PartialEq, Eq, Structural)]
pub enum SendOutcome {
    Sent,
    /// The queue is full. It is bounded, and nobody waits for it.
    Full,
    /// The validator is gone.
    Closed,
}

/// The batches that are handed to one validator. An empty batch never is: a validator may divide by
/// the number of packets in it.
pub open spec fn sends_to(delivery: (Pubkey, Seq<Seq<int>>)) -> Seq<(Pubkey, Seq<int>)> {
    delivery.1.filter(|b: Seq<int>| b.len() > 0).map_values(|b: Seq<int>| (delivery.0, b))
}

/// The batches that are handed out, validator by validator, where none of them is gone.
pub open spec fn sends_of(deliveries: Seq<(Pubkey, Seq<Seq<int>>)>) -> Seq<(Pubkey, Seq<int>)> {
    deliveries.map_values(|d: (Pubkey, Seq<Seq<int>>)| sends_to(d)).flatten()
}

/// No validator is there twice.
pub open spec fn distinct_recipients(deliveries: Seq<(Pubkey, Seq<Seq<int>>)>) -> bool {
    forall|i: int, j: int|
        0 <= i < j < deliveries.len() ==> (#[trigger] deliveries[i]).0 != (#[trigger] deliveries[j]).0
}

/// Every place that a batch names is that of a packet.
pub open spec fn places_exist(forwarding: ForwardingView) -> bool {
    forall|i: int, j: int, k: int|
        0 <= i < forwarding.deliveries.len() && 0 <= j < forwarding.deliveries[i].1.len() && 0 <= k
            < forwarding.deliveries[i].1[j].len() ==> 0 <= (
        #[trigger] forwarding.deliveries[i].1[j][k]) < forwarding.packets.len()
}

/// How far the handing out has come.
pub struct SessionView {
    pub packets: Seq<ProtoPacketView>,
    /// What is still to be handed out, where none of its validators is gone: the places of the packets
    /// of each batch.
    pub remaining: Seq<(Pubkey, Seq<int>)>,
    /// The places of the packets that the queue of some validator has taken.
    pub handed: Set<int>,
    /// The validators that were found to be gone.
    pub failed: Seq<Pubkey>,
}

/// Nothing has been handed out yet.
pub open spec fn session_start(forwarding: ForwardingView) -> SessionView {
    SessionView {
        packets: forwarding.packets,
        remaining: sends_of(forwarding.deliveries),
        handed: Set::empty(),
        failed: Seq::empty(),
    }
}

/// What is left after the next batch was handed out with this outcome. Nothing more is handed to a
/// validator that is gone.
pub open spec fn session_step(state: SessionView, outcome: SendOutcome) -> SessionView {
    let (key, batch) = state.remaining[0];
    let rest = state.remaining.drop_first();
    match outcome {
        SendOutcome::Sent => SessionView {
            remaining: rest,
            handed: state.handed.union(batch.to_set()),
            ..state
        },
        SendOutcome::Full => SessionView { remaining: rest, ..state },
        SendOutcome::Closed => SessionView {
            remaining: rest.filter(|s: (Pubkey, Seq<int>)| s.0 != key),
            failed: state.failed.push(key),
            ..state
        },
    }
}

/// How many packets of the next batch no queue has taken yet.
pub open spec fn first_time(state: SessionView) -> nat {
    state.remaining[0].1.to_set().difference(state.handed).len()
}

/// The counters after the next batch was handed out with this outcome. A packet counts as forwarded
/// when a queue takes it for the first time.
pub open spec fn recorded(metrics: MetricsView, state: SessionView, outcome: SendOutcome) -> MetricsView {
    let (key, batch) = state.remaining[0];
    match outcome {
        SendOutcome::Sent => MetricsView {
            num_packets_forwarded: (metrics.num_packets_forwarded + first_time(state)) as u64,
            ..with_forwarded(metrics, key, batch.len() as u64)
        },
        SendOutcome::Full => with_dropped(metrics, key, batch.len() as u64),
        SendOutcome::Closed => metrics,
    }
}

/// The places that are marked.
spec fn marked(marks: Seq<bool>) -> Set<int> {
    Set::new(|p: int| 0 <= p < marks.len() && marks[p])
}

/// The sends that stand at these turns of a list of deliveries.
spec fn sends_at(
    deliveries: Seq<(Pubkey, Seq<Seq<int>>)>,
    turns: Seq<(usize, usize)>,
) -> Seq<(Pubkey, Seq<int>)> {
    turns.map_values(
        |p: (usize, usize)| (deliveries[p.0 as int].0, deliveries[p.0 as int].1[p.1 as int]),
    )
}

/// The turns exist, and the recipients come one after the other.
spec fn turns_ok(
    deliveries: Seq<(Pubkey, Seq<Seq<int>>)>,
    turns: Seq<(usize, usize)>,
) -> bool {
    &&& forall|i: int|
        0 <= i < turns.len() ==> {
            &&& (#[trigger] turns[i]).0 < deliveries.len()
            &&& turns[i].1 < deliveries[turns[i].0 as int].1.len()
        }
    &&& forall|i: int, j: int|
        0 <= i <= j < turns.len() ==> (#[trigger] turns[i]).0 <= (#[trigger] turns[j]).0
}

/// The handing out of batches. Whoever performs the sends asks for the next one, and tells what
/// came of it.
pub struct ForwardSession {
    forwarding: Forwarding,
    turns: Vec<(usize, usize)>,
    at: usize,
    handed: Vec<bool>,
    failed: Vec<Pubkey>,
}

impl View for ForwardSession {
    type V = SessionView;

    closed spec fn view(&self) -> SessionView {
        SessionView {
            packets: self.forwarding@.packets,
            remaining: sends_at(self.forwarding@.deliveries, self.turns@).skip(self.at as int),
            handed: marked(self.handed@),
            failed: self.failed@,
        }
    }
}

impl ForwardSession {
    #[verifier::type_invariant]
    spec fn well_formed(self) -> bool {
        &&& distinct_recipients(self.forwarding@.deliveries)
        &&& places_exist(self.forwarding@)
        &&& turns_ok(self.forwarding@.deliveries, self.turns@)
        &&& self.at <= self.turns@.len()
        &&& self.handed@.len() == self.forwarding@.packets.len()
    }

    /// Nothing has been handed out yet.
    pub fn new(forwarding: Forwarding) -> (r: Self)
        requires
            distinct_recipients(forwarding@.deliveries),
            places_exist(forwarding@),
        ensures
            r@ == session_start(forwarding@),
    {
        let ghost all = forwarding@.deliveries;
        let ghost to = |d: (Pubkey, Seq<Seq<int>>)| sends_to(d);
        let mut turns: Vec<(usize, usize)> = Vec::new();
        let mut i: usize = 0;
        proof {
            assert(all.take(0).map_values(to) =~= Seq::<Seq<(Pubkey, Seq<int>)>>::empty());
            assert(sends_at(all, turns@) =~= sends_of(all.take(0)));
        }
        while i < forwarding.deliveries.len()
            invariant
                i <= all.len(),
                all == forwarding@.deliveries,
                to == (|d: (Pubkey, Seq<Seq<int>>)| sends_to(d)),
                turns_ok(all, turns@),
                forall|n: int| 0 <= n < turns@.len() ==> (#[trigger] turns@[n]).0 < i,
                sends_at(all, turns@) == sends_of(all.take(i as int)),
            decreases all.len() - i,
        {
            let batches: &Vec<Vec<usize>> = forwarding.batches_at(i);
            let ghost key = all[i as int].0;
            let ghost list = all[i as int].1;
            let ghost full = |b: Seq<int>| b.len() > 0;
            let ghost tagged = |b: Seq<int>| (key, b);
            let ghost before = sends_of(all.take(i as int));
            let mut j: usize = 0;
            proof {
                assert(list.take(0).filter(full) =~= Seq::<Seq<int>>::empty()) by {
                    reveal(Seq::filter);
                }
                assert(sends_at(all, turns@) =~= before + list.take(0).filter(full).map_values(
                    tagged,
                ));
            }
            while j < batches.len()
                invariant
                    i < all.len(),
                    j <= batches@.len(),
                    all == forwarding@.deliveries,
                    key == all[i as int].0,
                    list == all[i as int].1,
                    list == batch_places(batches@),
                    full == (|b: Seq<int>| b.len() > 0),
                    tagged == (|b: Seq<int>| (key, b)),
                    turns_ok(all, turns@),
                    forall|n: int| 0 <= n < turns@.len() ==> (#[trigger] turns@[n]).0 <= i,
                    sends_at(all, turns@) == before + list.take(j as int).filter(full).map_values(
                        tagged,
                    ),
                decreases batches@.len() - j,
            {
                let ghost was = turns@;
                let ghost batch = list[j as int];
                assert(batch == places(batches@[j as int]@));
                proof {
                    assert(list.take(j + 1) =~= list.take(j as int).push(batch));
                    list.take(j as int).lemma_filter_push(batch, full);
                }
                if batches[j].len() > 0 {
                    turns.push((i, j));
                    proof {
                        assert(sends_at(all, turns@) =~= sends_at(all, was).push((key, batch)));
                        let kept = list.take(j as int).filter(full);
                        assert(kept.push(batch).map_values(tagged) =~= kept.map_values(tagged).push(
                            (key, batch),
                        ));
                        assert(before + kept.push(batch).map_values(tagged) =~= (before
                            + kept.map_values(tagged)).push((key, batch)));
                    }
                }
                j = j + 1;
            }
            proof {
                assert(list.take(batches@.len() as int) =~= list);
                let some = all.take(i as int);
                assert(all.take(i + 1) =~= some.push(all[i as int]));
                assert(some.push(all[i as int]).map_values(to) =~= some.map_values(to).push(
                    sends_to(all[i as int]),
                ));
                some.map_values(to).lemma_flatten_push(sends_to(all[i as int]));
                assert(sends_to(all[i as int]) =~= list.filter(full).map_values(tagged));
            }
            i = i + 1;
        }
        proof {
            assert(all.take(all.len() as int) =~= all);
            assert(sends_at(all, turns@).skip(0) =~= sends_at(all, turns@));
        }
        let handed: Vec<bool> = no_marks(forwarding.packets.len());
        assert(marked(handed@) =~= Set::<int>::empty());
        ForwardSession { forwarding, turns, at: 0, handed, failed: Vec::new() }
    }

    /// The next batch to hand out and the validator that it goes to, or `None` where everything has
    /// been handed out.
    pub fn next(&self) -> (r: Option<(Pubkey, ProtoPacketBatch)>)
        ensures
            match r {
                Some((pubkey, batch)) => {
                    &&& self@.remaining.len() > 0
                    &&& pubkey == self@.remaining[0].0
                    &&& batch@ == packets_at(self@.packets, self@.remaining[0].1)
                },
                None => self@.remaining.len() == 0,
            },
    {
        proof {
            use_type_invariant(&*self);
        }
        if self.at == self.turns.len() {
            return None;
        }
        let (i, j) = self.turns[self.at];
        assert(self.turns@[self.at as int] == (i, j));
        let list: &Vec<usize> = &self.forwarding.batches_at(i)[j];
        let ghost batch = self@.remaining[0].1;
        let mut packets: Vec<ProtoPacket> = Vec::new();
        let mut k: usize = 0;
        assert(batch == places(list@));
        assert(proto_views(packets@) =~= packets_at(self@.packets, batch.take(0)));
        while k < list.len()
            invariant
                k <= list@.len(),
                batch == places(list@),
                self@.packets == proto_views(self.forwarding.packets@),
                forall|n: int| 0 <= n < batch.len() ==> 0 <= (#[trigger] batch[n]) < self@.packets.len(),
                proto_views(packets@) == packets_at(self@.packets, batch.take(k as int)),
            decreases list@.len() - k,
        {
            let ghost was = packets@;
            assert(batch[k as int] == list@[k as int]);
            packets.push(self.forwarding.packets[list[k]].clone());
            proof {
                let packet = self@.packets[batch[k as int]];
                assert(proto_views(packets@) =~= proto_views(was).push(packet));
                assert(batch.take(k + 1) =~= batch.take(k as int).push(batch[k as int]));
                assert(packets_at(self@.packets, batch.take(k + 1)) =~= packets_at(
                    self@.packets,
                    batch.take(k as int),
                ).push(packet));
            }
            k = k + 1;
        }
        assert(batch.take(list@.len() as int) =~= batch);
        Some((self.forwarding.deliveries[i].pubkey, ProtoPacketBatch { packets }))
    }

    /// Marks the packets of a batch as taken by a queue. Returns how many were not marked before.
    fn mark(&mut self, i: usize, j: usize) -> (r: u64)
        requires
            i < old(self).forwarding@.deliveries.len(),
            j < old(self).forwarding@.deliveries[i as int].1.len(),
        ensures
            ({
                let batch = old(self).forwarding@.deliveries[i as int].1[j as int];
                &&& r == batch.to_set().difference(marked(old(self).handed@)).len()
                &&& marked(final(self).handed@) == marked(old(self).handed@).union(batch.to_set())
            }),
            final(self).forwarding == old(self).forwarding,
            final(self).turns == old(self).turns,
            final(self).at == old(self).at,
            final(self).failed == old(self).failed,
    {
        proof {
            use_type_invariant(&*self);
        }
        let ghost batch = self.forwarding@.deliveries[i as int].1[j as int];
        let ghost before = marked(self.handed@);
        let mut count: u64 = 0;
        let mut k: usize = 0;
        let len: usize = self.forwarding.batches_at(i)[j].len();
        assert(batch.take(0).to_set().difference(before) =~= Set::<int>::empty());
        assert(before.union(batch.take(0).to_set()) =~= before);
        while k < len
            invariant
                self.forwarding == old(self).forwarding,
                self.turns == old(self).turns,
                self.at == old(self).at,
                self.failed == old(self).failed,
                k <= len,
                len == batch.len(),
                i < self.forwarding@.deliveries.len(),
                j < self.forwarding@.deliveries[i as int].1.len(),
                batch == self.forwarding@.deliveries[i as int].1[j as int],
                self.well_formed(),
                before == marked(old(self).handed@),
                marked(self.handed@) == before.union(batch.take(k as int).to_set()),
                batch.take(k as int).to_set().difference(before).finite(),
                count == batch.take(k as int).to_set().difference(before).len(),
                count <= k,
            decreases len - k,
        {
            let batches: &Vec<Vec<usize>> = self.forwarding.batches_at(i);
            assert(batch == places(batches@[j as int]@));
            let place: usize = batches[j][k];
            let ghost some = batch.take(k as int);
            let ghost marks = self.handed@;
            proof {
                assert(batch[k as int] == place);
                assert(self.forwarding@.deliveries[i as int].1[j as int][k as int] == place);
                assert(batch.take(k + 1) =~= some.push(place as int));
                lemma_push_set(some, place as int);
            }
            if !self.handed[place] {
                count = count + 1;
                self.handed[place] = true;
                proof {
                    assert(!marked(marks).contains(place as int));
                    assert(marked(self.handed@) =~= marked(marks).insert(place as int));
                    assert(some.push(place as int).to_set().difference(before)
                        =~= some.to_set().difference(before).insert(place as int));
                }
            } else {
                proof {
                    assert(marked(marks).contains(place as int));
                    assert(some.push(place as int).to_set().difference(before)
                        =~= some.to_set().difference(before));
                }
            }
            assert(marked(self.handed@) =~= before.union(batch.take(k + 1).to_set()));
            k = k + 1;
        }
        assert(batch.take(len as int) =~= batch);
        count
    }

    /// Takes in what came of handing out the next batch, and counts its packets.
    pub fn record(&mut self, outcome: SendOutcome, relayer_metrics: &mut RelayerMetrics)
        requires
            old(self)@.remaining.len() > 0,
            old(relayer_metrics)@.num_packets_forwarded + old(self)@.remaining[0].1.len() <= u64::MAX,
        ensures
            final(self)@ == session_step(old(self)@, outcome),
            final(relayer_metrics)@ == recorded(old(relayer_metrics)@, old(self)@, outcome),
    {
        proof {
            use_type_invariant(&*self);
        }
        let ghost all = sends_at(self.forwarding@.deliveries, self.turns@);
        let ghost start = self.at as int;
        assert(self.at < self.turns.len());
        let (i, j) = self.turns[self.at];
        assert(self.turns@[self.at as int] == (i, j));
        let pubkey: Pubkey = self.forwarding.deliveries[i].pubkey;
        let batches: &Vec<Vec<usize>> = self.forwarding.batches_at(i);
        let count: u64 = batches[j].len() as u64;
        proof {
            assert(self@.remaining[0] == all[start]);
            assert(self@.remaining.drop_first() =~= all.skip(start + 1));
            assert(all[start].1 == places(batches@[j as int]@));
            assert(count == all[start].1.len());
        }
        match outcome {
            SendOutcome::Sent => {
                let fresh: u64 = self.mark(i, j);
                proof {
                    use_type_invariant(&*self);
                    lemma_fewer_in_set(all[start].1, marked(old(self).handed@));
                }
                relayer_metrics.num_packets_forwarded = relayer_metrics.num_packets_forwarded + fresh;
                relayer_metrics.increment_packets_forwarded(&pubkey, count);
                self.at = self.at + 1;
            },
            SendOutcome::Full => {
                relayer_metrics.increment_packets_dropped(&pubkey, count);
                self.at = self.at + 1;
            },
            SendOutcome::Closed => {
                let mut at: usize = self.at + 1;
                while at < self.turns.len() && self.turns[at].0 == i
                    invariant
                        start < at <= self.turns@.len(),
                        all == sends_at(self.forwarding@.deliveries, self.turns@),
                        forall|n: int| start < n < at ==> (#[trigger] self.turns@[n]).0 == i,
                    decreases self.turns@.len() - at,
                {
                    at = at + 1;
                }
                let mut failed: Vec<Pubkey> = copy_keys(&self.failed);
                failed.push(pubkey);
                proof {
                    let keep = |s: (Pubkey, Seq<int>)| s.0 != pubkey;
                    let gone = all.subrange(start + 1, at as int);
                    let stay = all.skip(at as int);
                    assert(all.skip(start + 1) =~= gone + stay);
                    Seq::filter_distributes_over_add(gone, stay, keep);
                    assert forall|n: int| 0 <= n < gone.len() implies !keep(#[trigger] gone[n]) by {
                        assert(self.turns@[start + 1 + n].0 == i);
                    }
                    lemma_filter_none(gone, keep);
                    assert forall|n: int| 0 <= n < stay.len() implies keep(#[trigger] stay[n]) by {
                        let place = self.turns@[at + n];
                        assert(self.turns@[start].0 <= self.turns@[at as int].0);
                        assert(self.turns@[at as int].0 <= place.0);
                        assert(i < place.0);
                        assert(self.forwarding@.deliveries[i as int].0 != self.forwarding@.deliveries[place.0 as int].0);
                    }
                    lemma_filter_all(stay, keep);
                    assert(all.skip(start + 1).filter(keep) =~= stay);
                }
                self.failed = failed;
                self.at = at;
            },
        }
    }

    /// The validators that were found to be gone.
    pub fn into_failed(self) -> (r: Vec<Pubkey>)
        ensures
            r@ == self@.failed,
    {
        self.failed
    }
}

/// So many places, none of them marked.
fn no_marks(len: usize) -> (r: Vec<bool>)
    ensures
        r@ == Seq::new(len as nat, |i: int| false),
{
    let mut r: Vec<bool> = Vec::new();
    let mut i: usize = 0;
    while i < len
        invariant
            i <= len,
            r@ == Seq::new(i as nat, |i: int| false),
        decreases len - i,
    {
        r.push(false);
        assert(r@ =~= Seq::new((i + 1) as nat, |i: int| false));
        i = i + 1;
    }
    r
}

proof fn lemma_push_set<A>(s: Seq<A>, a: A)
    ensures
        s.push(a).to_set() == s.to_set().insert(a),
{
    let more = s.push(a);
    assert forall|b: A| more.to_set().contains(b) <==> s.to_set().insert(a).contains(b) by {
        if s.contains(b) {
            let i = choose|i: int| 0 <= i < s.len() && s[i] == b;
            assert(more[i] == b);
        }
        if b == a {
            assert(more[s.len() as int] == b);
        }
        if more.contains(b) && b != a {
            let i = choose|i: int| 0 <= i < more.len() && more[i] == b;
            assert(s[i] == b);
        }
    }
    assert(more.to_set() =~= s.to_set().insert(a));
}

proof fn lemma_fewer_in_set<A>(s: Seq<A>, without: Set<A>)
    ensures
        s.to_set().difference(without).finite(),
        s.to_set().difference(without).len() <= s.len(),
{
    vstd::seq_lib::seq_to_set_is_finite(s);
    s.lemma_cardinality_of_set();
    vstd::set_lib::lemma_len_subset(s.to_set().difference(without), s.to_set());
}

proof fn lemma_filter_none<A>(s: Seq<A>, keep: spec_fn(A) -> bool)
    requires
        forall|i: int| 0 <= i < s.len() ==> !keep(#[trigger] s[i]),
    ensures
        s.filter(keep) == Seq::<A>::empty(),
    decreases s.len(),
{
    reveal(Seq::filter);
    if s.len() > 0 {
        let init = s.drop_last();
        assert forall|i: int| 0 <= i < init.len() implies !keep(#[trigger] init[i]) by {
            assert(init[i] == s[i]);
        }
        lemma_filter_none(init, keep);
        assert(!keep(s[s.len() - 1]));
    }
}

pub(crate) proof fn lemma_filter_all<A>(s: Seq<A>, keep: spec_fn(A) -> bool)
    requires
        forall|i: int| 0 <= i < s.len() ==> keep(#[trigger] s[i]),
    ensures
        s.filter(keep) == s,
    decreases s.len(),
{
    reveal(Seq::filter);
    if s.len() > 0 {
        let init = s.drop_last();
        assert forall|i: int| 0 <= i < init.len() implies keep(#[trigger] init[i]) by {
            assert(init[i] == s[i]);
        }
        lemma_filter_all(init, keep);
        assert(keep(s[s.len() - 1]));
        assert(init.push(s.last()) =~= s);
    }
}

/// No validator is reported gone twice, and nothing more is handed to one that was.
pub open spec fn failures_settled(state: SessionView) -> bool {
    &&& state.failed.no_duplicates()
    &&& forall|i: int|
        0 <= i < state.remaining.len() ==> !state.failed.contains((#[trigger] state.remaining[i]).0)
}

/// Handing out starts with no validator gone, and keeps to it that none is reported gone twice and
/// that nothing more is handed to one that was.
pub proof fn law_gone_validators_are_left_alone(
    forwarding: ForwardingView,
    state: SessionView,
    outcome: SendOutcome,
)
    requires
        failures_settled(state),
        state.remaining.len() > 0,
    ensures
        failures_settled(session_start(forwarding)),
        failures_settled(session_step(state, outcome)),
{
    let key = state.remaining[0].0;
    let rest = state.remaining.drop_first();
    let after = session_step(state, outcome);
    if outcome == SendOutcome::Closed {
        let keep = |s: (Pubkey, Seq<int>)| s.0 != key;
        assert(!state.failed.contains(key));
        assert forall|i: int| 0 <= i < after.remaining.len() implies !after.failed.contains(
            (#[trigger] after.remaining[i]).0,
        ) by {
            let send = after.remaining[i];
            rest.lemma_filter_pred(keep, i);
            assert(rest.filter(keep).contains(send));
            rest.lemma_filter_contains_rev(keep, send);
            let n = choose|n: int| 0 <= n < rest.len() && rest[n] == send;
            assert(state.remaining[n + 1] == send);
            if after.failed.contains(send.0) {
                let m = choose|m: int| 0 <= m < after.failed.len() && after.failed[m] == send.0;
                assert(m < state.failed.len());
                assert(state.failed[m] == send.0);
            }
        }
        assert forall|i: int, j: int|
            0 <= i < after.failed.len() && 0 <= j < after.failed.len() && i
                != j implies after.failed[i] != after.failed[j] by {
            if i < state.failed.len() && j < state.failed.len() {
                assert(state.failed[i] != state.failed[j]);
            } else if i < state.failed.len() {
                assert(state.failed.contains(state.failed[i]));
            } else {
                assert(state.failed.contains(state.failed[j]));
            }
        }
    } else {
        assert forall|i: int| 0 <= i < after.remaining.len() implies !after.failed.contains(
            (#[trigger] after.remaining[i]).0,
        ) by {
            assert(after.remaining[i] == state.remaining[i + 1]);
        }
    }
}

/// Each outcome brings the handing out closer to its end; and one validator being gone, or having
/// its queue full, keeps nothing from another.
pub proof fn law_outcomes_concern_one_validator(
    state: SessionView,
    outcome: SendOutcome,
    other: Pubkey,
)
    requires
        state.remaining.len() > 0,
        other != state.remaining[0].0,
    ensures
        session_step(state, outcome).remaining.len() < state.remaining.len(),
        session_step(state, outcome).remaining.filter(
            |s: (Pubkey, Seq<int>)| s.0 == other,
        ) == state.remaining.filter(|s: (Pubkey, Seq<int>)| s.0 == other),
{
    let key = state.remaining[0].0;
    let rest = state.remaining.drop_first();
    let keep = |s: (Pubkey, Seq<int>)| s.0 != key;
    let mine = |s: (Pubkey, Seq<int>)| s.0 == other;
    assert(state.remaining =~= seq![state.remaining[0]] + rest);
    rest.lemma_filter_prepend(state.remaining[0], mine);
    assert(state.remaining.filter(mine) =~= rest.filter(mine));
    rest.lemma_filter_len(keep);
    lemma_filter_twice(rest, keep, mine);
}

proof fn lemma_filter_twice<A>(s: Seq<A>, wide: spec_fn(A) -> bool, narrow: spec_fn(A) -> bool)
    requires
        forall|i: int| 0 <= i < s.len() && narrow(#[trigger] s[i]) ==> wide(s[i]),
    ensures
        s.filter(wide).filter(narrow) == s.filter(narrow),
    decreases s.len(),
{
    reveal(Seq::filter);
    if s.len() > 0 {
        let init = s.drop_last();
        assert forall|i: int| 0 <= i < init.len() && narrow(#[trigger] init[i]) implies wide(
            init[i],
        ) by {
            assert(init[i] == s[i]);
        }
        lemma_filter_twice(init, wide, narrow);
        assert(narrow(s[s.len() - 1]) ==> wide(s[s.len() - 1]));
        if wide(s.last()) {
            init.filter(wide).lemma_filter_push(s.last(), narrow);
        }
    }
}

/// Batches hold every packet once and in order, none of them is empty or longer than the size, and
/// all but the last are as long as the size.
pub proof fn law_batches_hold_every_packet<A>(packets: Seq<A>, size: nat)
    requires
        size > 0,
    ensures
        ({
            let chunks = chunks_of(packets, size);
            &&& chunks.flatten() == packets
            &&& forall|i: int| 0 <= i < chunks.len() ==> 0 < (#[trigger] chunks[i]).len() <= size
            &&& forall|i: int| 0 <= i < chunks.len() - 1 ==> (#[trigger] chunks[i]).len() == size
        }),
    decreases packets.len(),
{
    let chunks = chunks_of(packets, size);
    if packets.len() == 0 {
        assert(chunks =~= Seq::<Seq<A>>::empty());
        assert(chunks.flatten() =~= packets);
    } else if packets.len() <= size {
        chunks.lemma_flatten_one_element();
    } else {
        let rest = chunks_of(packets.skip(size as int), size);
        law_batches_hold_every_packet(packets.skip(size as int), size);
        assert(chunks.drop_first() =~= rest);
        assert(chunks.first() == packets.take(size as int));
        assert(chunks.flatten() == chunks.first() + rest.flatten());
        assert(packets.take(size as int) + packets.skip(size as int) =~= packets);
        assert forall|i: int| 0 <= i < chunks.len() implies 0 < (#[trigger] chunks[i]).len()
            <= size by {
            if i > 0 {
                assert(chunks[i] == rest[i - 1]);
            }
        }
        assert forall|i: int| 0 <= i < chunks.len() - 1 implies (#[trigger] chunks[i]).len()
            == size by {
            if i > 0 {
                assert(chunks[i] == rest[i - 1]);
            }
        }
    }
}

pub(crate) proof fn lemma_chunks_contain<A>(items: Seq<A>, size: nat, i: int, k: int)
    requires
        0 <= i < chunks_of(items, size).len(),
        0 <= k < chunks_of(items, size)[i].len(),
    ensures
        items.contains(chunks_of(items, size)[i][k]),
    decreases items.len(),
{
    let chunks = chunks_of(items, size);
    if items.len() <= size {
        assert(items[k] == chunks[i][k]);
    } else if i == 0 {
        assert(items[k] == chunks[i][k]);
    } else {
        let rest = items.skip(size as int);
        assert(chunks[i] == chunks_of(rest, size)[i - 1]);
        lemma_chunks_contain(rest, size, i - 1, k);
        let n = choose|n: int| 0 <= n < rest.len() && rest[n] == chunks[i][k];
        assert(items[n + size] == chunks[i][k]);
    }
}

/// Every batch of a validator's packets is handed out, and nothing else: where the validator stays,
/// it receives all of its packets, each once and in order.
pub proof fn law_all_packets_are_handed_out(pubkey: Pubkey, places: Seq<int>, size: nat)
    requires
        size > 0,
    ensures
        ({
            let sends = sends_to((pubkey, chunks_of(places, size)));
            &&& sends.map_values(|s: (Pubkey, Seq<int>)| s.1).flatten() == places
            &&& forall|i: int|
                0 <= i < sends.len() ==> (#[trigger] sends[i]).0 == pubkey && sends[i].1.len() > 0
        }),
{
    let chunks = chunks_of(places, size);
    let full = |b: Seq<int>| b.len() > 0;
    law_batches_hold_every_packet(places, size);
    assert forall|i: int| 0 <= i < chunks.len() implies full(#[trigger] chunks[i]) by {
        assert(chunks[i].len() > 0);
    }
    lemma_filter_all(chunks, full);
    let sends = sends_to((pubkey, chunks));
    assert(sends.map_values(|s: (Pubkey, Seq<int>)| s.1) =~= chunks);
}

/// How far the handing out has come after these outcomes, one after the other.
pub open spec fn played(state: SessionView, outcomes: Seq<SendOutcome>) -> SessionView
    decreases outcomes.len(),
{
    if outcomes.len() == 0 {
        state
    } else {
        session_step(played(state, outcomes.drop_last()), outcomes.last())
    }
}

/// The counters after these outcomes, one after the other.
pub open spec fn counted(
    metrics: MetricsView,
    state: SessionView,
    outcomes: Seq<SendOutcome>,
) -> MetricsView
    decreases outcomes.len(),
{
    if outcomes.len() == 0 {
        metrics
    } else {
        recorded(
            counted(metrics, state, outcomes.drop_last()),
            played(state, outcomes.drop_last()),
            outcomes.last(),
        )
    }
}

proof fn lemma_handed_grows(state: SessionView, outcome: SendOutcome)
    requires
        state.handed.finite(),
    ensures
        session_step(state, outcome).handed.finite(),
        session_step(state, outcome).handed.len() == state.handed.len() + (if outcome
            == SendOutcome::Sent {
            first_time(state)
        } else {
            0
        }),
{
    let batch = state.remaining[0].1;
    let fresh = batch.to_set().difference(state.handed);
    lemma_fewer_in_set(batch, state.handed);
    vstd::set_lib::lemma_set_disjoint_lens(state.handed, fresh);
    assert(state.handed.union(batch.to_set()) =~= state.handed + fresh);
    assert(state.handed.disjoint(fresh));
}

/// Each packet counts as forwarded once, however many queues take it: the counter grows by as many as
/// there are packets that some queue took and none had before.
pub proof fn law_each_packet_counts_once(
    metrics: MetricsView,
    state: SessionView,
    outcomes: Seq<SendOutcome>,
)
    requires
        state.handed.finite(),
        metrics.num_packets_forwarded + played(state, outcomes).handed.len() <= u64::MAX,
    ensures
        played(state, outcomes).handed.finite(),
        state.handed.subset_of(played(state, outcomes).handed),
        counted(metrics, state, outcomes).num_packets_forwarded + state.handed.len()
            == metrics.num_packets_forwarded + played(state, outcomes).handed.len(),
    decreases outcomes.len(),
{
    if outcomes.len() > 0 {
        let init = outcomes.drop_last();
        let before = played(state, init);
        lemma_handed_finite(state, init);
        lemma_handed_grows(before, outcomes.last());
        law_each_packet_counts_once(metrics, state, init);
        vstd::set_lib::lemma_len_subset(state.handed, before.handed);
    }
}

proof fn lemma_handed_finite(state: SessionView, outcomes: Seq<SendOutcome>)
    requires
        state.handed.finite(),
    ensures
        played(state, outcomes).handed.finite(),
    decreases outcomes.len(),
{
    if outcomes.len() > 0 {
        lemma_handed_finite(state, outcomes.drop_last());
        lemma_handed_grows(played(state, outcomes.drop_last()), outcomes.last());
    }
}

/// Handing out touches no counters but those of what was forwarded, and those of the validators.
pub proof fn law_handing_out_leaves_other_counters(
    metrics: MetricsView,
    state: SessionView,
    outcomes: Seq<SendOutcome>,
)
    ensures
        ({
            let after = counted(metrics, state, outcomes);
            after == (MetricsView {
                num_packets_forwarded: after.num_packets_forwarded,
                packet_stats_per_validator: after.packet_stats_per_validator,
                ..metrics
            })
        }),
    decreases outcomes.len(),
{
    if outcomes.len() > 0 {
        law_handing_out_leaves_other_counters(metrics, state, outcomes.drop_last());
    }
}

/// The send of this turn was taken, and held the packet at the place.
pub open spec fn took(state: SessionView, outcomes: Seq<SendOutcome>, n: int, place: int) -> bool {
    &&& outcomes[n] == SendOutcome::Sent
    &&& played(state, outcomes.take(n)).remaining[0].1.contains(place)
}

/// The queue of some validator took the packet at the place.
pub open spec fn taken(state: SessionView, outcomes: Seq<SendOutcome>, place: int) -> bool {
    exists|n: int| 0 <= n < outcomes.len() && #[trigger] took(state, outcomes, n, place)
}

proof fn lemma_taken_push(
    state: SessionView,
    outcomes: Seq<SendOutcome>,
    outcome: SendOutcome,
    place: int,
)
    ensures
        taken(state, outcomes.push(outcome), place) <==> taken(state, outcomes, place) || (outcome
            == SendOutcome::Sent && played(state, outcomes).remaining[0].1.contains(place)),
{
    let all = outcomes.push(outcome);
    assert forall|n: int| 0 <= n < outcomes.len() implies #[trigger] took(state, all, n, place)
        == took(state, outcomes, n, place) by {
        assert(all.take(n) =~= outcomes.take(n));
    }
    let last = outcomes.len() as int;
    assert(all.take(last) =~= outcomes);
    assert(took(state, all, last, place) == (outcome == SendOutcome::Sent && played(
        state,
        outcomes,
    ).remaining[0].1.contains(place)));
    if taken(state, outcomes, place) {
        let n = choose|n: int| 0 <= n < outcomes.len() && #[trigger] took(state, outcomes, n, place);
        assert(took(state, all, n, place));
    }
    if taken(state, all, place) {
        let n = choose|n: int| 0 <= n < all.len() && #[trigger] took(state, all, n, place);
        if n < last {
            assert(took(state, outcomes, n, place));
        }
    }
}

/// A packet is forwarded exactly if a queue takes it: one that is full, or whose validator is gone, does
/// not count.
pub proof fn law_forwarded_means_taken(
    state: SessionView,
    outcomes: Seq<SendOutcome>,
    place: int,
)
    ensures
        played(state, outcomes).handed.contains(place) <==> state.handed.contains(place) || taken(
            state,
            outcomes,
            place,
        ),
    decreases outcomes.len(),
{
    if outcomes.len() > 0 {
        let init = outcomes.drop_last();
        law_forwarded_means_taken(state, init, place);
        lemma_taken_push(state, init, outcomes.last(), place);
        assert(init.push(outcomes.last()) =~= outcomes);
    }
}

/// Whatever is handed out is one of the packets.
pub open spec fn handed_within(state: SessionView) -> bool {
    &&& forall|p: int| state.handed.contains(p) ==> 0 <= p < state.packets.len()
    &&& forall|i: int, p: int|
        0 <= i < state.remaining.len() && (#[trigger] state.remaining[i].1.contains(p)) ==> 0 <= p
            < state.packets.len()
}

proof fn lemma_step_within(state: SessionView, outcome: SendOutcome)
    requires
        handed_within(state),
        state.remaining.len() > 0,
    ensures
        handed_within(session_step(state, outcome)),
        session_step(state, outcome).packets == state.packets,
{
    let (key, batch) = state.remaining[0];
    let rest = state.remaining.drop_first();
    let after = session_step(state, outcome);
    let keep = |s: (Pubkey, Seq<int>)| s.0 != key;
    assert forall|p: int| after.handed.contains(p) implies 0 <= p < state.packets.len() by {
        if batch.contains(p) {
            assert(state.remaining[0].1.contains(p));
        }
    }
    assert forall|i: int, p: int|
        0 <= i < after.remaining.len() && (
        #[trigger] after.remaining[i].1.contains(p)) implies 0 <= p < state.packets.len() by {
        let send = after.remaining[i];
        if outcome == SendOutcome::Closed {
            rest.lemma_filter_pred(keep, i);
            assert(rest.filter(keep).contains(send));
            rest.lemma_filter_contains_rev(keep, send);
        } else {
            assert(rest[i] == send);
        }
        let n = choose|n: int| 0 <= n < rest.len() && rest[n] == send;
        assert(state.remaining[n + 1].1.contains(p));
    }
}

/// The outcomes are those of sends: there was something to hand out each time.
pub open spec fn outcomes_of_sends(state: SessionView, outcomes: Seq<SendOutcome>) -> bool {
    forall|n: int|
        0 <= n < outcomes.len() ==> (#[trigger] played(state, outcomes.take(n))).remaining.len() > 0
}

/// Nothing but the packets counts as forwarded, so never more than there are.
pub proof fn law_no_more_forwarded_than_there_are(
    forwarding: ForwardingView,
    outcomes: Seq<SendOutcome>,
)
    requires
        places_exist(forwarding),
        outcomes_of_sends(session_start(forwarding), outcomes),
    ensures
        handed_within(played(session_start(forwarding), outcomes)),
        played(session_start(forwarding), outcomes).packets == forwarding.packets,
        played(session_start(forwarding), outcomes).handed.len() <= forwarding.packets.len(),
    decreases outcomes.len(),
{
    let start = session_start(forwarding);
    let after = played(start, outcomes);
    if outcomes.len() == 0 {
        assert forall|i: int, p: int|
            0 <= i < start.remaining.len() && (
            #[trigger] start.remaining[i].1.contains(p)) implies 0 <= p < start.packets.len() by {
            lemma_sends(forwarding.deliveries, start.remaining[i]);
            let (n, j) = choose|n: int, j: int|
                0 <= n < forwarding.deliveries.len() && 0 <= j < forwarding.deliveries[n].1.len()
                    && start.remaining[i] == (
                    forwarding.deliveries[n].0,
                    #[trigger] forwarding.deliveries[n].1[j],
                );
            let k = choose|k: int|
                0 <= k < start.remaining[i].1.len() && start.remaining[i].1[k] == p;
            assert(forwarding.deliveries[n].1[j][k] == p);
        }
    } else {
        let init = outcomes.drop_last();
        let last = outcomes.len() - 1;
        assert forall|n: int| 0 <= n < init.len() implies (#[trigger] played(
            start,
            init.take(n),
        )).remaining.len() > 0 by {
            assert(init.take(n) =~= outcomes.take(n));
        }
        law_no_more_forwarded_than_there_are(forwarding, init);
        assert(outcomes.take(last) =~= init);
        assert(played(start, outcomes.take(last)).remaining.len() > 0);
        lemma_step_within(played(start, init), outcomes.last());
    }
    let range = vstd::set_lib::set_int_range(0, forwarding.packets.len() as int);
    vstd::set_lib::lemma_int_range(0, forwarding.packets.len() as int);
    assert(after.handed.subset_of(range));
    vstd::set_lib::lemma_len_subset(after.handed, range);
}

pub(crate) proof fn lemma_flatten_contains<A>(lists: Seq<Seq<A>>, a: A)
    ensures
        lists.flatten().contains(a) <==> exists|i: int|
            0 <= i < lists.len() && (#[trigger] lists[i]).contains(a),
    decreases lists.len(),
{
    if lists.len() > 0 {
        let init = lists.drop_last();
        let last = lists.last();
        lemma_flatten_contains(init, a);
        assert(init.push(last) =~= lists);
        init.lemma_flatten_push(last);
        let all = init.flatten() + last;
        if lists.flatten().contains(a) {
            let n = choose|n: int| 0 <= n < all.len() && all[n] == a;
            if n < init.flatten().len() {
                assert(init.flatten()[n] == a);
                let i = choose|i: int| 0 <= i < init.len() && (#[trigger] init[i]).contains(a);
                assert(lists[i] == init[i]);
            } else {
                assert(last[n - init.flatten().len()] == a);
                assert(lists[lists.len() - 1].contains(a));
            }
        }
        if exists|i: int| 0 <= i < lists.len() && (#[trigger] lists[i]).contains(a) {
            let i = choose|i: int| 0 <= i < lists.len() && (#[trigger] lists[i]).contains(a);
            if i < init.len() {
                assert(init[i].contains(a));
                let n = choose|n: int| 0 <= n < init.flatten().len() && init.flatten()[n] == a;
                assert(all[n] == a);
            } else {
                let n = choose|n: int| 0 <= n < last.len() && last[n] == a;
                assert(all[init.flatten().len() + n] == a);
            }
        }
    }
}

/// So many sends, all of which were taken.
pub open spec fn all_taken(n: nat) -> Seq<SendOutcome> {
    Seq::new(n, |i: int| SendOutcome::Sent)
}

pub(crate) proof fn lemma_all_taken(state: SessionView, n: nat, place: int)
    requires
        n <= state.remaining.len(),
    ensures
        played(state, all_taken(n)).remaining == state.remaining.skip(n as int),
        played(state, all_taken(n)).handed.contains(place) <==> state.handed.contains(place)
            || exists|m: int|
            0 <= m < n && (#[trigger] state.remaining[m]).1.contains(place),
    decreases n,
{
    let outcomes = all_taken(n);
    if n == 0 {
        assert(state.remaining.skip(0) =~= state.remaining);
    } else {
        let last = (n - 1) as nat;
        lemma_all_taken(state, last, place);
        assert(outcomes.drop_last() =~= all_taken(last));
        let before = played(state, all_taken(last));
        assert(before.remaining[0] == state.remaining[last as int]);
        assert(before.remaining.drop_first() =~= state.remaining.skip(n as int));
        if state.remaining[last as int].1.contains(place) {
            assert(before.remaining[0].1.contains(place));
        }
    }
}

pub(crate) proof fn lemma_sent(
    deliveries: Seq<(Pubkey, Seq<Seq<int>>)>,
    n: int,
    j: int,
)
    requires
        0 <= n < deliveries.len(),
        0 <= j < deliveries[n].1.len(),
        deliveries[n].1[j].len() > 0,
    ensures
        sends_of(deliveries).contains((deliveries[n].0, deliveries[n].1[j])),
{
    let lists = deliveries.map_values(|d: (Pubkey, Seq<Seq<int>>)| sends_to(d));
    let full = |b: Seq<int>| b.len() > 0;
    let batches = deliveries[n].1;
    let send = (deliveries[n].0, batches[j]);
    assert(batches.contains(batches[j]));
    batches.lemma_filter_contains(full, j);
    let some = batches.filter(full);
    let m = choose|m: int| 0 <= m < some.len() && some[m] == batches[j];
    assert(lists[n][m] == send);
    assert(lists[n].contains(send));
    lemma_flatten_contains(lists, send);
}

pub(crate) proof fn lemma_sends(deliveries: Seq<(Pubkey, Seq<Seq<int>>)>, send: (Pubkey, Seq<int>))
    requires
        sends_of(deliveries).contains(send),
    ensures
        exists|n: int, j: int|
            0 <= n < deliveries.len() && 0 <= j < deliveries[n].1.len() && send == (
                deliveries[n].0,
                #[trigger] deliveries[n].1[j],
            ),
{
    let lists = deliveries.map_values(|d: (Pubkey, Seq<Seq<int>>)| sends_to(d));
    let full = |b: Seq<int>| b.len() > 0;
    lemma_flatten_contains(lists, send);
    let n = choose|n: int| 0 <= n < lists.len() && (#[trigger] lists[n]).contains(send);
    let batches = deliveries[n].1;
    let m = choose|m: int| 0 <= m < lists[n].len() && lists[n][m] == send;
    let some = batches.filter(full);
    assert(lists[n][m] == (deliveries[n].0, some[m]));
    assert(some.contains(some[m]));
    batches.lemma_filter_contains_rev(full, some[m]);
    let j = choose|j: int| 0 <= j < batches.len() && batches[j] == some[m];
    assert(send == (deliveries[n].0, deliveries[n].1[j]));
}

/// What is told of packets, batches and deliveries is all that they hold.
pub proof fn law_deliveries_are_told(
    batch: ProtoPacketBatch,
    list: Seq<usize>,
    batches: Seq<Vec<usize>>,
    packets: Seq<ProtoPacketView>,
    named: Seq<int>,
    forwarding: Forwarding,
    i: int,
)
    ensures
        batch@.len() == batch.packets@.len(),
        0 <= i < batch.packets@.len() ==> batch@[i] == batch.packets@[i]@,
        places(list).len() == list.len(),
        0 <= i < list.len() ==> places(list)[i] == list[i],
        batch_places(batches).len() == batches.len(),
        0 <= i < batches.len() ==> batch_places(batches)[i].len() == batches[i]@.len(),
        0 <= i < batches.len() ==> forall|k: int|
            0 <= k < batches[i]@.len() ==> #[trigger] batch_places(batches)[i][k] == batches[i]@[k],
        packets_at(packets, named).len() == named.len(),
        0 <= i < named.len() ==> packets_at(packets, named)[i] == packets[named[i]],
        forwarding@.packets.len() == forwarding.packets@.len(),
        0 <= i < forwarding.packets@.len() ==> forwarding@.packets[i] == forwarding.packets@[i]@,
        forwarding@.deliveries.len() == forwarding.deliveries@.len(),
        0 <= i < forwarding.deliveries@.len() ==> forwarding@.deliveries[i].0
            == forwarding.deliveries@[i].pubkey,
        0 <= i < forwarding.deliveries@.len() && forwarding.deliveries@[i].filtered is None
            ==> forwarding@.deliveries[i].1 == batch_places(forwarding.shared@),
        0 <= i < forwarding.deliveries@.len() && forwarding.deliveries@[i].filtered is Some
            ==> forwarding@.deliveries[i].1 == batch_places(
            forwarding.deliveries@[i].filtered->0@,
        ),
{
}

/// One more batch of a validator is handed out behind those before it, unless it is empty; and what one
/// more validator gets is handed out behind what those before it get.
pub proof fn law_one_more_batch_is_handed_out(
    deliveries: Seq<(Pubkey, Seq<Seq<int>>)>,
    key: Pubkey,
    batches: Seq<Seq<int>>,
    batch: Seq<int>,
)
    ensures
        batch.len() > 0 ==> sends_to((key, batches.push(batch))) == sends_to((key, batches)).push(
            (key, batch),
        ),
        batch.len() == 0 ==> sends_to((key, batches.push(batch))) == sends_to((key, batches)),
        batches.len() == 0 ==> sends_to((key, batches)).len() == 0,
        sends_of(deliveries.push((key, batches))) == sends_of(deliveries) + sends_to(
            (key, batches),
        ),
        deliveries.len() == 0 ==> sends_of(deliveries).len() == 0,
{
    let full = |b: Seq<int>| b.len() > 0;
    let tagged = |b: Seq<int>| (key, b);
    let to = |d: (Pubkey, Seq<Seq<int>>)| sends_to(d);
    batches.lemma_filter_push(batch, full);
    if full(batch) {
        assert(sends_to((key, batches.push(batch))) =~= sends_to((key, batches)).push((key, batch)));
    }
    if batches.len() == 0 {
        reveal(Seq::filter);
    }
    assert(deliveries.push((key, batches)).map_values(to) =~= deliveries.map_values(to).push(
        sends_to((key, batches)),
    ));
    deliveries.map_values(to).lemma_flatten_push(sends_to((key, batches)));
}

/// Handing out starts with everything still to be handed out, nothing taken and nobody gone.
pub proof fn law_handing_out_starts(forwarding: ForwardingView, place: int)
    ensures
        session_start(forwarding).packets == forwarding.packets,
        session_start(forwarding).remaining == sends_of(forwarding.deliveries),
        !session_start(forwarding).handed.contains(place),
        session_start(forwarding).failed.len() == 0,
{
}

/// What one outcome changes. A batch that was sent is taken, and one that found a queue full is gone;
/// neither comes up again, and all others stay, in order. Where the validator is gone it is reported
/// once, and exactly what was still to go to it is given up.
pub proof fn law_what_an_outcome_changes(state: SessionView, outcome: SendOutcome, place: int)
    requires
        state.remaining.len() > 0,
    ensures
        ({
            let after = session_step(state, outcome);
            let key = state.remaining[0].0;
            let batch = state.remaining[0].1;
            &&& after.packets == state.packets
            &&& outcome == SendOutcome::Sent ==> {
                &&& after.handed.contains(place) <==> state.handed.contains(place)
                    || batch.contains(place)
                &&& after.failed == state.failed
            }
            &&& outcome == SendOutcome::Full ==> {
                &&& after.handed.contains(place) <==> state.handed.contains(place)
                &&& after.failed == state.failed
            }
            &&& outcome == SendOutcome::Closed ==> {
                &&& after.handed.contains(place) <==> state.handed.contains(place)
                &&& after.failed == state.failed.push(key)
                &&& after.remaining == state.remaining.skip(1).filter(
                    |s: (Pubkey, Seq<int>)| s.0 != key,
                )
            }
            &&& outcome != SendOutcome::Closed ==> after.remaining == state.remaining.skip(1)
        }),
{
    assert(state.remaining.drop_first() =~= state.remaining.skip(1));
    let key = state.remaining[0].0;
    let keep = |s: (Pubkey, Seq<int>)| s.0 != key;
    assert(session_step(state, SendOutcome::Closed).remaining == state.remaining.skip(1).filter(
        keep,
    ));
}

/// What one outcome counts. A batch that was sent counts for its validator in full, and as forwarded as
/// far as no queue had its packets before; one that found the queue full counts as dropped for its
/// validator; and where the validator is gone nothing counts.
pub proof fn law_what_an_outcome_counts(
    metrics: MetricsView,
    state: SessionView,
    outcome: SendOutcome,
    other: Pubkey,
)
    requires
        state.remaining.len() > 0,
        state.remaining[0].1.len() <= u64::MAX,
        metrics.num_packets_forwarded + state.remaining[0].1.len() <= u64::MAX,
    ensures
        ({
            let after = recorded(metrics, state, outcome);
            let key = state.remaining[0].0;
            let count = state.remaining[0].1.len();
            let stats = after.packet_stats_per_validator;
            let was = metrics.packet_stats_per_validator;
            &&& after == (MetricsView {
                num_packets_forwarded: after.num_packets_forwarded,
                packet_stats_per_validator: stats,
                ..metrics
            })
            &&& outcome == SendOutcome::Closed ==> after == metrics
            &&& outcome != SendOutcome::Sent ==> after.num_packets_forwarded
                == metrics.num_packets_forwarded
            &&& outcome == SendOutcome::Sent ==> after.num_packets_forwarded
                == metrics.num_packets_forwarded + state.remaining[0].1.to_set().difference(
                state.handed,
            ).len()
            &&& other != key ==> (stats.contains_key(other) <==> was.contains_key(other))
            &&& other != key && was.contains_key(other) ==> stats[other] == was[other]
            &&& outcome != SendOutcome::Closed ==> stats.contains_key(key)
            &&& outcome == SendOutcome::Sent && was.contains_key(key)
                && was[key].num_packets_forwarded + count <= u64::MAX ==> {
                &&& stats[key].num_packets_forwarded == was[key].num_packets_forwarded + count
                &&& stats[key].num_packets_dropped == was[key].num_packets_dropped
            }
            &&& outcome == SendOutcome::Sent && !was.contains_key(key) ==> {
                &&& stats[key].num_packets_forwarded == count
                &&& stats[key].num_packets_dropped == 0
            }
            &&& outcome == SendOutcome::Full && was.contains_key(key)
                && was[key].num_packets_dropped + count <= u64::MAX ==> {
                &&& stats[key].num_packets_forwarded == was[key].num_packets_forwarded
                &&& stats[key].num_packets_dropped == was[key].num_packets_dropped + count
            }
            &&& outcome == SendOutcome::Full && !was.contains_key(key) ==> {
                &&& stats[key].num_packets_forwarded == 0
                &&& stats[key].num_packets_dropped == count
            }
        }),
{
    lemma_fewer_in_set(state.remaining[0].1, state.handed);
}

/// What holds of deliveries before they are handed out: no validator is there twice, and every place is
/// that of a packet.
pub proof fn law_deliveries_before_they_are_handed_out(
    forwarding: ForwardingView,
    i: int,
    j: int,
    k: int,
)
    ensures
        distinct_recipients(forwarding.deliveries) && 0 <= i < j < forwarding.deliveries.len()
            ==> forwarding.deliveries[i].0 != forwarding.deliveries[j].0,
        places_exist(forwarding) && 0 <= i < forwarding.deliveries.len() && 0 <= j
            < forwarding.deliveries[i].1.len() && 0 <= k < forwarding.deliveries[i].1[j].len() ==> 0
            <= forwarding.deliveries[i].1[j][k] < forwarding.packets.len(),
{
}

/// Outcomes are taken in and counted one after the other.
pub proof fn law_one_more_outcome(
    metrics: MetricsView,
    state: SessionView,
    outcomes: Seq<SendOutcome>,
    outcome: SendOutcome,
)
    ensures
        outcomes.len() == 0 ==> played(state, outcomes) == state && counted(metrics, state, outcomes)
            == metrics,
        played(state, outcomes.push(outcome)) == session_step(played(state, outcomes), outcome),
        counted(metrics, state, outcomes.push(outcome)) == recorded(
            counted(metrics, state, outcomes),
            played(state, outcomes),
            outcome,
        ),
{
    assert(outcomes.push(outcome).drop_last() =~= outcomes);
}

} // verus!
