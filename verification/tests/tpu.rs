use relayer::tpu::{quic_servers, quic_streamer_config, Ingress, MAX_CONNECTIONS_PER_IPADDR_PER_MIN, MAX_QUIC_CONNECTIONS_PER_IP, MAX_QUIC_CONNECTIONS_PER_PEER, SIGVERIFY_WORKERS, TPU_QUEUE_CAPACITY};
use solana_message::v1::MAX_TRANSACTION_SIZE;
use solana_perf::packet::PACKET_DATA_SIZE;

#[test]
fn a_stream_carries_the_longest_transaction() {
    let config = quic_streamer_config(2);
    assert_eq!(config.max_stream_data_bytes, MAX_TRANSACTION_SIZE as u32);
    assert_eq!(config.stream_receive_window_size, MAX_TRANSACTION_SIZE as u32);
    assert_eq!(config.max_stream_data_bytes, 4096);
    assert!(config.max_stream_data_bytes > PACKET_DATA_SIZE as u32);
    assert_eq!(config.num_threads, 2);
    assert_eq!(config.max_connections_per_ipaddr_per_min, 64);
}

#[test]
fn each_socket_has_a_server() {
    let servers = quic_servers(2, 1, 8, 500, 2_000);
    let kinds: Vec<Ingress> = servers.iter().map(|s| s.ingress).collect();
    assert_eq!(kinds, vec![Ingress::Tpu, Ingress::Tpu, Ingress::TpuForwards]);
    for server in &servers {
        assert_eq!(server.streamer, quic_streamer_config(8));
        assert_eq!(server.qos.max_staked_connections, 2_000);
        assert_eq!(server.qos.max_connections_per_staked_peer, 8);
        assert_eq!(server.qos.max_connections_per_unstaked_peer, 8);
        assert_eq!(server.qos.max_streams_per_ms, 1000);
    }
    assert!(quic_servers(0, 0, 8, 500, 2_000).is_empty());
}

#[test]
fn unstaked_nodes_may_not_forward() {
    let servers = quic_servers(1, 1, 0, 500, 2_000);
    assert_eq!(servers[0].qos.max_unstaked_connections, 500);
    assert_eq!(servers[1].qos.max_unstaked_connections, 0);
    // There is always a thread.
    assert_eq!(servers[0].streamer.num_threads, 1);
}

#[test]
fn servers_are_named_by_their_sockets() {
    assert_eq!(Ingress::Tpu.name(), "quic_streamer_tpu");
    assert_eq!(Ingress::TpuForwards.name(), "quic_streamer_tpu_forwards");
}

#[test]
fn limits_are_those_of_the_tpu() {
    assert_eq!(MAX_QUIC_CONNECTIONS_PER_IP, 8);
    assert_eq!(MAX_CONNECTIONS_PER_IPADDR_PER_MIN, 64);
    assert_eq!(MAX_QUIC_CONNECTIONS_PER_PEER, 8);
    assert_eq!(SIGVERIFY_WORKERS, 4);
    assert_eq!(TPU_QUEUE_CAPACITY, 10_000);
}
