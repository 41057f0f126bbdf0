//! How the relayer takes transactions: the QUIC servers of its TPU, and what they let in.

use vstd::prelude::*;

verus! {

/// Multiple connections are allowed for NAT and any open/close overlap.
pub const MAX_QUIC_CONNECTIONS_PER_IP: usize = 8;

pub const MAX_CONNECTIONS_PER_IPADDR_PER_MIN: u64 = 64;

/// Matches the validator's own per-peer allowance.
pub const MAX_QUIC_CONNECTIONS_PER_PEER: usize = 8;

/// Number of threads verifying signatures on the TPU ingress.
pub const SIGVERIFY_WORKERS: usize = 4;

/// How many batches can wait between two stages of the TPU.
pub const TPU_QUEUE_CAPACITY: usize = 10_000;

/// Streams that a peer may open per millisecond. This is a dedicated relayer box, so it is well above
/// the self-protective default of a validator, and legit staked flow is not throttled during leader
/// windows.
pub const MAX_STREAMS_PER_MS: u64 = 1000;

/// How often the streamers look whether to shut down, in milliseconds.
pub const SHUTDOWN_POLL_MS: u64 = 100;

/// `solana_message::v1::MAX_TRANSACTION_SIZE`: no transaction is longer than this many bytes.
#[verifier::external_body]
fn max_transaction_size() -> (r: usize)
    ensures
        r == 4096,
{
    solana_message::v1::MAX_TRANSACTION_SIZE
}

/// What the relayer sets of the configuration of a QUIC server.
#[derive(Debug, Clone, Copy, PartialEq, Eq, Structural)]
pub struct QuicStreamerConfig {
    pub max_connections_per_ipaddr_per_min: u64,
    pub num_threads: usize,
    pub stream_receive_window_size: u32,
    pub max_stream_data_bytes: u32,
}

/// Whom a QUIC server lets in.
#[derive(Debug, Clone, Copy, PartialEq, Eq, Structural)]
pub struct SwQosConfig {
    pub max_staked_connections: usize,
    pub max_unstaked_connections: usize,
    pub max_connections_per_staked_peer: usize,
    pub max_connections_per_unstaked_peer: usize,
    pub max_streams_per_ms: u64,
}

/// Which of the two kinds of sockets a server listens on.
#[derive(Debug, Clone, Copy, PartialEq, Eq, Structural)]
pub enum Ingress {
    /// Transactions from clients.
    Tpu,
    /// Transactions that other nodes forward.
    TpuForwards,
}

/// One QUIC server of the TPU.
#[derive(Debug, Clone, Copy, PartialEq, Eq, Structural)]
pub struct QuicServer {
    pub ingress: Ingress,
    pub streamer: QuicStreamerConfig,
    pub qos: SwQosConfig,
}

/// The configuration of a QUIC server.
pub open spec fn streamer_config(num_threads: usize) -> QuicStreamerConfig {
    QuicStreamerConfig {
        max_connections_per_ipaddr_per_min: MAX_CONNECTIONS_PER_IPADDR_PER_MIN,
        num_threads,
        stream_receive_window_size: 4096,
        max_stream_data_bytes: 4096,
    }
}

/// Whom a QUIC server lets in. Unstaked nodes may not forward transactions.
pub open spec fn qos_config(
    ingress: Ingress,
    max_unstaked_connections: usize,
    max_staked_connections: usize,
) -> SwQosConfig {
    SwQosConfig {
        max_staked_connections,
        max_unstaked_connections: match ingress {
            Ingress::Tpu => max_unstaked_connections,
            Ingress::TpuForwards => 0,
        },
        max_connections_per_staked_peer: MAX_QUIC_CONNECTIONS_PER_PEER,
        max_connections_per_unstaked_peer: MAX_QUIC_CONNECTIONS_PER_PEER,
        max_streams_per_ms: MAX_STREAMS_PER_MS,
    }
}

/// How many threads a QUIC server has: one for each processor, and at least one.
pub open spec fn threads_for(num_cpus: usize) -> usize {
    if num_cpus > 1 {
        num_cpus
    } else {
        1
    }
}

/// The server on a socket.
pub open spec fn server_on(
    ingress: Ingress,
    num_cpus: usize,
    max_unstaked_connections: usize,
    max_staked_connections: usize,
) -> QuicServer {
    QuicServer {
        ingress,
        streamer: streamer_config(threads_for(num_cpus)),
        qos: qos_config(ingress, max_unstaked_connections, max_staked_connections),
    }
}

/// Per-stream QUIC limits for the TPU sockets.
///
/// Both sizes default to that of a plain packet, which silently rejects every longer transaction of
/// version 1 at the QUIC layer. Since the relayer fronts the validator's TPU, that rejection is the
/// end of the line for those transactions: they never reach a block. The validator sets the same two
/// fields to the longest that a transaction can be, so the relayer matches it.
pub fn quic_streamer_config(num_threads: usize) -> (r: QuicStreamerConfig)
    requires
        num_threads > 0,
    ensures
        r == streamer_config(num_threads),
{
    QuicStreamerConfig {
        max_connections_per_ipaddr_per_min: MAX_CONNECTIONS_PER_IPADDR_PER_MIN,
        num_threads,
        stream_receive_window_size: max_transaction_size() as u32,
        max_stream_data_bytes: max_transaction_size() as u32,
    }
}

/// The server on a socket.
fn quic_server(
    ingress: Ingress,
    num_cpus: usize,
    max_unstaked_connections: usize,
    max_staked_connections: usize,
) -> (r: QuicServer)
    ensures
        r == server_on(ingress, num_cpus, max_unstaked_connections, max_staked_connections),
{
    let num_threads: usize = if num_cpus > 1 {
        num_cpus
    } else {
        1
    };
    let max_unstaked_here: usize = match ingress {
        Ingress::Tpu => max_unstaked_connections,
        Ingress::TpuForwards => 0,
    };
    QuicServer {
        ingress,
        streamer: quic_streamer_config(num_threads),
        qos: SwQosConfig {
            max_staked_connections,
            max_unstaked_connections: max_unstaked_here,
            max_connections_per_staked_peer: MAX_QUIC_CONNECTIONS_PER_PEER,
            max_connections_per_unstaked_peer: MAX_QUIC_CONNECTIONS_PER_PEER,
            max_streams_per_ms: MAX_STREAMS_PER_MS,
        },
    }
}

/// The servers of the TPU: one for each socket, first those for transactions from clients, then those
/// for transactions that other nodes forward.
pub fn quic_servers(
    num_tpu_sockets: usize,
    num_tpu_forwards_sockets: usize,
    num_cpus: usize,
    max_unstaked_connections: usize,
    max_staked_connections: usize,
) -> (r: Vec<QuicServer>)
    ensures
        r@ == Seq::new(
            (num_tpu_sockets + num_tpu_forwards_sockets) as nat,
            |i: int|
                server_on(
                    if i < num_tpu_sockets {
                        Ingress::Tpu
                    } else {
                        Ingress::TpuForwards
                    },
                    num_cpus,
                    max_unstaked_connections,
                    max_staked_connections,
                ),
        ),
{
    let mut servers: Vec<QuicServer> = Vec::new();
    let mut i: usize = 0;
    while i < num_tpu_sockets
        invariant
            i <= num_tpu_sockets,
            servers@.len() == i,
            forall|n: int|
                0 <= n < i ==> #[trigger] servers@[n] == server_on(
                    Ingress::Tpu,
                    num_cpus,
                    max_unstaked_connections,
                    max_staked_connections,
                ),
        decreases num_tpu_sockets - i,
    {
        servers.push(
            quic_server(Ingress::Tpu, num_cpus, max_unstaked_connections, max_staked_connections),
        );
        i = i + 1;
    }
    let mut j: usize = 0;
    while j < num_tpu_forwards_sockets
        invariant
            j <= num_tpu_forwards_sockets,
            servers@.len() == num_tpu_sockets + j,
            forall|n: int|
                0 <= n < servers@.len() ==> #[trigger] servers@[n] == server_on(
                    if n < num_tpu_sockets {
                        Ingress::Tpu
                    } else {
                        Ingress::TpuForwards
                    },
                    num_cpus,
                    max_unstaked_connections,
                    max_staked_connections,
                ),
        decreases num_tpu_forwards_sockets - j,
    {
        servers.push(
            quic_server(
                Ingress::TpuForwards,
                num_cpus,
                max_unstaked_connections,
                max_staked_connections,
            ),
        );
        j = j + 1;
    }
    servers
}

impl Ingress {
    /// The name of the servers that listen on such sockets.
    pub open spec fn title(self) -> Seq<char> {
        match self {
            Ingress::Tpu => "quic_streamer_tpu"@,
            Ingress::TpuForwards => "quic_streamer_tpu_forwards"@,
        }
    }

    /// The name of the servers that listen on such sockets.
    pub fn name(&self) -> (r: &'static str)
        ensures
            r@ == self.title(),
    {
        match self {
            Ingress::Tpu => "quic_streamer_tpu",
            Ingress::TpuForwards => "quic_streamer_tpu_forwards",
        }
    }
}

/// Whatever the server, a stream can carry the longest transaction that there is, and an unstaked
/// node can never forward.
pub proof fn law_every_server_takes_whole_transactions(
    ingress: Ingress,
    num_cpus: usize,
    max_unstaked_connections: usize,
    max_staked_connections: usize,
)
    ensures
        ({
            let server = server_on(
                ingress,
                num_cpus,
                max_unstaked_connections,
                max_staked_connections,
            );
            &&& server.streamer.stream_receive_window_size >= 4096
            &&& server.streamer.max_stream_data_bytes >= 4096
            &&& server.streamer.num_threads > 0
            &&& ingress == Ingress::TpuForwards ==> server.qos.max_unstaked_connections == 0
        }),
{
}

/// The servers in numbers: each takes 64 connections of an address per minute, 8 of a peer, 1000 streams
/// per millisecond, and streams of 4096 bytes, on a thread for each processor.
pub proof fn law_servers_in_numbers(
    ingress: Ingress,
    num_cpus: usize,
    max_unstaked_connections: usize,
    max_staked_connections: usize,
)
    ensures
        ({
            let server = server_on(
                ingress,
                num_cpus,
                max_unstaked_connections,
                max_staked_connections,
            );
            &&& server.ingress == ingress
            &&& server.streamer.max_connections_per_ipaddr_per_min == 64
            &&& num_cpus >= 1 ==> server.streamer.num_threads == num_cpus
            &&& num_cpus == 0 ==> server.streamer.num_threads == 1
            &&& server.streamer.stream_receive_window_size == 4096
            &&& server.streamer.max_stream_data_bytes == 4096
            &&& server.qos.max_staked_connections == max_staked_connections
            &&& ingress == Ingress::Tpu ==> server.qos.max_unstaked_connections
                == max_unstaked_connections
            &&& ingress == Ingress::TpuForwards ==> server.qos.max_unstaked_connections == 0
            &&& server.qos.max_connections_per_staked_peer == 8
            &&& server.qos.max_connections_per_unstaked_peer == 8
            &&& server.qos.max_streams_per_ms == 1000
        }),
        streamer_config(num_cpus).max_connections_per_ipaddr_per_min == 64,
        streamer_config(num_cpus).num_threads == num_cpus,
        streamer_config(num_cpus).stream_receive_window_size == 4096,
        streamer_config(num_cpus).max_stream_data_bytes == 4096,
        Ingress::Tpu.title() == "quic_streamer_tpu"@,
        Ingress::TpuForwards.title() == "quic_streamer_tpu_forwards"@,
        MAX_QUIC_CONNECTIONS_PER_IP == 8,
        SIGVERIFY_WORKERS == 4,
        TPU_QUEUE_CAPACITY == 10_000,
        SHUTDOWN_POLL_MS == 100,
{
}

} // verus!
