use relayer::order::{sort, starts_with};
use relayer::packet::{packet_to_proto_packet, Meta, Packet, ProtoPacketFlags};
use relayer::pubkey::{same_key, PubkeyMap, PubkeySet};

#[test]
fn a_set_holds_each_key_once() {
    let mut set = PubkeySet::new();
    assert!(set.insert([3; 32]));
    assert!(set.insert([1; 32]));
    assert!(!set.insert([3; 32]));
    assert_eq!(set.len(), 2);
    assert!(set.contains(&[1; 32]));
    assert!(!set.contains(&[2; 32]));
    assert_eq!(set.to_vec(), vec![[1; 32], [3; 32]]);
    assert_eq!(set.copy().to_vec(), set.to_vec());
}

#[test]
fn a_map_keeps_the_last_value_of_a_key() {
    let mut map = PubkeyMap::new();
    assert_eq!(map.insert([2; 32], 'a'), None);
    assert_eq!(map.insert([1; 32], 'b'), None);
    assert_eq!(map.insert([2; 32], 'c'), Some('a'));
    assert_eq!(map.get(&[2; 32]), Some(&'c'));
    assert_eq!(map.get(&[9; 32]), None);
    assert_eq!(map.entry_at(0), ([1; 32], &'b'));
    assert_eq!(map.remove(&[2; 32]), Some('c'));
    assert_eq!(map.remove(&[2; 32]), None);
    assert_eq!(map.keys(), vec![[1; 32]]);
    assert!(!map.is_empty());
}

#[test]
fn many_keys_are_found_again() {
    let mut map = PubkeyMap::new();
    let key = |n: u32| {
        let mut k = [0u8; 32];
        k[28..].copy_from_slice(&n.wrapping_mul(2_654_435_761).to_le_bytes());
        k
    };
    for n in 0..300u32 {
        map.insert(key(n), n);
    }
    assert_eq!(map.len(), 300);
    for n in 0..300u32 {
        assert_eq!(map.get(&key(n)), Some(&n));
    }
    assert!(same_key(&key(5), &key(5)));
    assert!(!same_key(&key(5), &key(6)));
}

#[test]
fn byte_strings_are_sorted_as_std_sorts_them() {
    let list: Vec<Vec<u8>> = vec![vec![2], vec![], vec![1, 5], vec![1], vec![2], vec![1, 0, 9], vec![255]];
    let mut expected = list.clone();
    expected.sort();
    assert_eq!(sort(list), expected);
    assert!(starts_with(&[1, 2, 3], &[1, 2]));
    assert!(starts_with(&[1], &[]));
    assert!(!starts_with(&[1], &[1, 2]));
}

fn packet(data: Option<Vec<u8>>) -> Packet {
    Packet {
        data,
        meta: Meta {
            size: 3,
            addr: "1.2.3.4".to_string(),
            port: 8000,
            discard: false,
            forwarded: true,
            repair: false,
            simple_vote_tx: true,
            perf_track_packet: true,
            from_staked_node: false,
        },
    }
}

#[test]
fn an_outgoing_packet_says_what_the_incoming_one_did() {
    let out = packet_to_proto_packet(&packet(Some(vec![1, 2, 3]))).expect("it has data");
    assert_eq!(out.data, vec![1, 2, 3]);
    let meta = out.meta.expect("always there");
    assert_eq!(meta.size, 3);
    assert_eq!(meta.addr, "1.2.3.4");
    assert_eq!(meta.port, 8000);
    assert_eq!(meta.sender_stake, 0);
    assert_eq!(
        meta.flags,
        Some(ProtoPacketFlags {
            discard: false,
            forwarded: true,
            repair: false,
            simple_vote_tx: true,
            tracer_packet: true,
            from_staked_node: false,
        })
    );
    assert!(packet_to_proto_packet(&packet(None)).is_none());
}
