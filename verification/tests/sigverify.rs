use relayer::sigverify_stage::{PassStats, SigVerifyStage, SigVerifyStats, MAX_BATCHES_PER_PASS, REPORT_INTERVAL_NS};
use solana_instruction::{AccountMeta, Instruction};
use solana_keypair::Keypair;
use solana_perf::packet::bytes::Bytes;
use solana_perf::packet::{BytesPacket, Meta, PacketBatch};
use solana_signer::Signer;
use solana_transaction::versioned::VersionedTransaction;

fn signed(data: &[u8]) -> Vec<u8> {
    let payer = Keypair::new();
    let tx = VersionedTransaction::from(solana_transaction::Transaction::new_signed_with_payer(
        &[Instruction::new_with_bytes(
            [42u8; 32].into(),
            data,
            vec![AccountMeta::new_readonly([77u8; 32].into(), false)],
        )],
        Some(&payer.pubkey()),
        &[&payer],
        solana_hash::Hash::default(),
    ));
    wincode::serialize(&tx).unwrap()
}

fn signed_v1() -> Vec<u8> {
    let payer = Keypair::new();
    let message = solana_message::v1::Message::try_compile(
        &payer.pubkey(),
        &[Instruction::new_with_bytes(
            [42u8; 32].into(),
            &[1, 2, 3],
            vec![AccountMeta::new(payer.pubkey(), true)],
        )],
        solana_hash::Hash::new_from_array([3; 32]),
    )
    .unwrap();
    let tx = VersionedTransaction::try_new(solana_message::VersionedMessage::V1(message), &[&payer]).unwrap();
    wincode::serialize(&tx).unwrap()
}

fn packet(data: Vec<u8>, discard: bool) -> BytesPacket {
    let mut meta = Meta::default();
    meta.size = data.len();
    meta.set_discard(discard);
    BytesPacket::new(Bytes::from(data), meta)
}

fn stage() -> SigVerifyStage {
    SigVerifyStage::new(rayon::ThreadPoolBuilder::new().num_threads(2).build().unwrap())
}

fn discards(batches: &[PacketBatch]) -> Vec<Vec<bool>> {
    batches
        .iter()
        .map(|b| b.iter().map(|p| p.meta().discard()).collect())
        .collect()
}

#[test]
fn only_packets_whose_signatures_verify_pass() {
    let mut forged = signed(&[1]);
    let last = forged.len() - 1;
    forged[last] ^= 1;
    let mut batches = vec![
        PacketBatch::from(vec![packet(signed(&[1]), false), packet(forged, false)]),
        PacketBatch::from(vec![packet(vec![0; 10], false), packet(signed(&[2]), true), packet(signed(&[3]), false)]),
    ];
    let stats = stage().verify_pass(&mut batches);
    assert_eq!(discards(&batches), vec![vec![false, true], vec![true, true, false]]);
    assert_eq!(stats.received, 5);
    assert_eq!(stats.discarded, 3);
}

#[test]
fn transactions_of_version_1_pass() {
    let data = signed_v1();
    let mut batches = vec![PacketBatch::from(vec![packet(data.clone(), false)])];
    let stats = stage().verify_pass(&mut batches);
    assert_eq!(discards(&batches), vec![vec![false]]);
    assert_eq!(batches[0].get(0).unwrap().data(..), Some(&data[..]));
    assert_eq!((stats.received, stats.discarded), (1, 0));
}

#[test]
fn votes_are_marked_and_pass() {
    let payer = Keypair::new();
    let vote_program: solana_pubkey::Pubkey = "Vote111111111111111111111111111111111111111".parse().unwrap();
    let tx = VersionedTransaction::from(solana_transaction::Transaction::new_signed_with_payer(
        &[Instruction::new_with_bytes(vote_program, &[1], vec![])],
        Some(&payer.pubkey()),
        &[&payer],
        solana_hash::Hash::default(),
    ));
    let mut batches = vec![PacketBatch::from(vec![packet(wincode::serialize(&tx).unwrap(), false)])];
    stage().verify_pass(&mut batches);
    assert!(batches[0].get(0).unwrap().meta().is_simple_vote_tx());
    assert!(!batches[0].get(0).unwrap().meta().discard());
}

#[test]
fn checking_twice_changes_nothing() {
    let mut batches = vec![PacketBatch::from(vec![packet(signed(&[1]), false), packet(vec![1], false)])];
    stage().verify_pass(&mut batches);
    let once = discards(&batches);
    let stats = stage().verify_pass(&mut batches);
    assert_eq!(discards(&batches), once);
    assert_eq!((stats.received, stats.discarded), (2, 1));
}

#[test]
fn a_pass_takes_a_limited_number_of_batches() {
    assert!(SigVerifyStage::takes_another(1));
    assert!(SigVerifyStage::takes_another(63));
    assert!(!SigVerifyStage::takes_another(64));
    assert_eq!(MAX_BATCHES_PER_PASS, 64);
}

fn pass(received: usize, discarded: usize, verify_us: u64) -> PassStats {
    PassStats {
        received,
        discarded,
        verify_us,
    }
}

#[test]
fn passes_are_summed_until_the_interval_is_over() {
    let mut stats = SigVerifyStats::default();
    assert!(stats.maybe_report(u64::MAX).is_none());
    stats.record(pass(10, 1, 100), 500);
    stats.record(pass(5, 2, 50), 900);
    assert_eq!(stats.since, Some(500));
    assert!(stats.maybe_report(500 + REPORT_INTERVAL_NS - 1).is_none());
    let fields = stats.maybe_report(500 + REPORT_INTERVAL_NS).expect("due");
    let list: Vec<(&str, i64)> = fields.iter().map(|f| (f.name, f.value)).collect();
    assert_eq!(
        list,
        vec![
            ("passes", 2),
            ("num_packets_received", 15),
            ("num_packets_discarded", 3),
            ("verify_us", 150),
        ]
    );
    assert_eq!(stats.since, None);
    assert_eq!((stats.passes, stats.received, stats.discarded, stats.verify_us), (0, 0, 0, 0));
    assert!(stats.maybe_report(u64::MAX).is_none());
}
