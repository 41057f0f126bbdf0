//! Packets as they come in from the TPU, and as they go out to a validator.

use vstd::prelude::*;

use solana_perf::packet::PacketBatch;

use crate::pbp::copy_bytes;

verus! {

/// Where a packet came from and what is known of it.
pub struct Meta {
    pub size: usize,
    pub addr: String,
    pub port: u16,
    /// To be ignored: it is malformed, or its signatures do not verify.
    pub discard: bool,
    pub forwarded: bool,
    pub repair: bool,
    pub simple_vote_tx: bool,
    pub perf_track_packet: bool,
    pub from_staked_node: bool,
}

/// A packet. It has no data where it is to be ignored, or where it claims a size beyond the buffer
/// that it was read into.
pub struct Packet {
    pub data: Option<Vec<u8>>,
    pub meta: Meta,
}

/// What a [`Meta`] holds.
pub struct MetaView {
    pub size: usize,
    pub addr: Seq<char>,
    pub port: u16,
    pub discard: bool,
    pub forwarded: bool,
    pub repair: bool,
    pub simple_vote_tx: bool,
    pub perf_track_packet: bool,
    pub from_staked_node: bool,
}

/// What a [`Packet`] holds.
pub struct PacketView {
    pub data: Option<Seq<u8>>,
    pub meta: MetaView,
}

impl View for Meta {
    type V = MetaView;

    open spec fn view(&self) -> MetaView {
        MetaView {
            size: self.size,
            addr: self.addr@,
            port: self.port,
            discard: self.discard,
            forwarded: self.forwarded,
            repair: self.repair,
            simple_vote_tx: self.simple_vote_tx,
            perf_track_packet: self.perf_track_packet,
            from_staked_node: self.from_staked_node,
        }
    }
}

impl View for Packet {
    type V = PacketView;

    open spec fn view(&self) -> PacketView {
        PacketView {
            data: match self.data {
                Some(data) => Some(data@),
                None => None,
            },
            meta: self.meta@,
        }
    }
}

/// `solana_perf`'s `PacketBatch`, of which only what the wrappers say is known.
#[verifier::external_type_specification]
#[verifier::external_body]
pub struct ExPacketBatch(PacketBatch);

/// The packets of a batch, in order.
pub uninterp spec fn batch_packets(batch: PacketBatch) -> Seq<PacketView>;

/// `PacketBatch::len`: how many packets the batch holds.
pub assume_specification[ PacketBatch::len ](batch: &PacketBatch) -> (r: usize)
    ensures
        r == batch_packets(*batch).len(),
;

/// `PacketBatch::get`, with `PacketRef::data` and `PacketRef::meta` of what it hands out: the
/// packet at the index, with what its flags say, and its address in the notation of `IpAddr`'s
/// `Display`. A packet that is marked to be discarded gives out no data.
#[allow(deprecated)]
#[verifier::external_body]
pub(crate) fn batch_packet(batch: &PacketBatch, index: usize) -> (r: Packet)
    requires
        index < batch_packets(*batch).len(),
    ensures
        r@ == batch_packets(*batch)[index as int],
        r@.meta.discard ==> r@.data is None,
{
    let packet = batch.get(index).unwrap();
    let meta = packet.meta();
    Packet { data: packet.data(..).map(|data| data.to_vec()), meta: Meta {
        size: meta.size,
        addr: meta.addr.to_string(),
        port: meta.port,
        discard: meta.discard(),
        forwarded: meta.forwarded(),
        repair: meta.repair(),
        simple_vote_tx: meta.is_simple_vote_tx(),
        perf_track_packet: meta.is_perf_track_packet(),
        from_staked_node: meta.is_from_staked_node(),
    } }
}

/// The flags of an outgoing packet.
#[derive(Debug, Clone, Copy, PartialEq, Eq, Structural)]
pub struct ProtoPacketFlags {
    pub discard: bool,
    pub forwarded: bool,
    pub repair: bool,
    pub simple_vote_tx: bool,
    pub tracer_packet: bool,
    pub from_staked_node: bool,
}

/// The metadata of an outgoing packet.
pub struct ProtoMeta {
    pub size: u64,
    pub addr: String,
    pub port: u32,
    pub flags: Option<ProtoPacketFlags>,
    pub sender_stake: u64,
}

/// An outgoing packet.
pub struct ProtoPacket {
    pub data: Vec<u8>,
    pub meta: Option<ProtoMeta>,
}

/// What a [`ProtoMeta`] holds.
pub struct ProtoMetaView {
    pub size: u64,
    pub addr: Seq<char>,
    pub port: u32,
    pub flags: Option<ProtoPacketFlags>,
    pub sender_stake: u64,
}

/// What a [`ProtoPacket`] holds.
pub struct ProtoPacketView {
    pub data: Seq<u8>,
    pub meta: Option<ProtoMetaView>,
}

impl View for ProtoMeta {
    type V = ProtoMetaView;

    open spec fn view(&self) -> ProtoMetaView {
        ProtoMetaView {
            size: self.size,
            addr: self.addr@,
            port: self.port,
            flags: self.flags,
            sender_stake: self.sender_stake,
        }
    }
}

impl View for ProtoPacket {
    type V = ProtoPacketView;

    open spec fn view(&self) -> ProtoPacketView {
        ProtoPacketView {
            data: self.data@,
            meta: match self.meta {
                Some(meta) => Some(meta@),
                None => None,
            },
        }
    }
}

/// The metadata of a packet as it goes out. The stake of the sender is not known here.
pub open spec fn outgoing_meta(meta: MetaView) -> ProtoMetaView {
    ProtoMetaView {
        size: meta.size as u64,
        addr: meta.addr,
        port: meta.port as u32,
        flags: Some(
            ProtoPacketFlags {
                discard: meta.discard,
                forwarded: meta.forwarded,
                repair: meta.repair,
                simple_vote_tx: meta.simple_vote_tx,
                tracer_packet: meta.perf_track_packet,
                from_staked_node: meta.from_staked_node,
            },
        ),
        sender_stake: 0,
    }
}

/// A packet as it goes out, if it has data.
pub open spec fn outgoing(packet: PacketView) -> Option<ProtoPacketView> {
    match packet.data {
        Some(data) => Some(ProtoPacketView { data, meta: Some(outgoing_meta(packet.meta)) }),
        None => None,
    }
}

/// The packet in the form in which it goes out, or `None` where it has no data.
pub fn packet_to_proto_packet(p: &Packet) -> (r: Option<ProtoPacket>)
    ensures
        match r {
            Some(out) => outgoing(p@) == Some(out@),
            None => outgoing(p@) is None,
        },
{
    match &p.data {
        None => None,
        Some(data) => Some(
            ProtoPacket {
                data: copy_bytes(data),
                meta: Some(
                    ProtoMeta {
                        size: p.meta.size as u64,
                        addr: p.meta.addr.clone(),
                        port: p.meta.port as u32,
                        flags: Some(
                            ProtoPacketFlags {
                                discard: p.meta.discard,
                                forwarded: p.meta.forwarded,
                                repair: p.meta.repair,
                                simple_vote_tx: p.meta.simple_vote_tx,
                                tracer_packet: p.meta.perf_track_packet,
                                from_staked_node: p.meta.from_staked_node,
                            },
                        ),
                        sender_stake: 0,
                    },
                ),
            },
        ),
    }
}

/// Packets in the form in which they go out.
pub open spec fn proto_views(packets: Seq<ProtoPacket>) -> Seq<ProtoPacketView> {
    packets.map_values(|p: ProtoPacket| p@)
}

impl Clone for ProtoPacket {
    fn clone(&self) -> (r: Self)
        ensures
            r@ == self@,
    {
        ProtoPacket {
            data: copy_bytes(&self.data),
            meta: match &self.meta {
                None => None,
                Some(meta) => Some(
                    ProtoMeta {
                        size: meta.size,
                        addr: meta.addr.clone(),
                        port: meta.port,
                        flags: meta.flags,
                        sender_stake: meta.sender_stake,
                    },
                ),
            },
        }
    }
}

/// What is told of packets is all that they hold.
pub proof fn law_packets_are_told(packet: Packet, out: ProtoPacket, list: Seq<ProtoPacket>)
    ensures
        packet.data matches Some(data) ==> packet@.data == Some(data@),
        packet.data is None ==> packet@.data is None,
        packet@.meta.size == packet.meta.size,
        packet@.meta.addr == packet.meta.addr@,
        packet@.meta.port == packet.meta.port,
        packet@.meta.discard == packet.meta.discard,
        packet@.meta.forwarded == packet.meta.forwarded,
        packet@.meta.repair == packet.meta.repair,
        packet@.meta.simple_vote_tx == packet.meta.simple_vote_tx,
        packet@.meta.perf_track_packet == packet.meta.perf_track_packet,
        packet@.meta.from_staked_node == packet.meta.from_staked_node,
        out@.data == out.data@,
        out@.meta is Some <==> out.meta is Some,
        out.meta matches Some(meta) ==> {
            &&& out@.meta->0.size == meta.size
            &&& out@.meta->0.addr == meta.addr@
            &&& out@.meta->0.port == meta.port
            &&& out@.meta->0.flags == meta.flags
            &&& out@.meta->0.sender_stake == meta.sender_stake
        },
        proto_views(list).len() == list.len(),
        forall|i: int| 0 <= i < list.len() ==> #[trigger] proto_views(list)[i] == list[i]@,
{
}

/// A packet goes out exactly if it has data, with its bytes as they came in, however many they are, and
/// with what is known of it; the stake of its sender is not.
pub proof fn law_packets_go_out_as_they_came_in(packet: PacketView)
    ensures
        outgoing(packet) is Some <==> packet.data is Some,
        outgoing(packet) matches Some(out) ==> {
            &&& packet.data == Some(out.data)
            &&& out.meta is Some
            &&& out.meta->0.size == packet.meta.size
            &&& out.meta->0.addr == packet.meta.addr
            &&& out.meta->0.port == packet.meta.port
            &&& out.meta->0.sender_stake == 0
            &&& out.meta->0.flags is Some
            &&& out.meta->0.flags->0.discard == packet.meta.discard
            &&& out.meta->0.flags->0.forwarded == packet.meta.forwarded
            &&& out.meta->0.flags->0.repair == packet.meta.repair
            &&& out.meta->0.flags->0.simple_vote_tx == packet.meta.simple_vote_tx
            &&& out.meta->0.flags->0.tracer_packet == packet.meta.perf_track_packet
            &&& out.meta->0.flags->0.from_staked_node == packet.meta.from_staked_node
        },
{
}

} // verus!
