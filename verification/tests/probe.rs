use dashmap::DashMap;
use relayer::pbp::{LookupTableCache, PacketSummary, PbpDrop};
use relayer::policy::filter_from_policy;
use relayer::probe::{bearer_text, blocking_policy, challenge_text, check_digest, check_received, injected_from_text, injected_transactions, instruction_data, signed_challenge, uses_tls, CheckFailure, InjectionFailure, InjectionSeed, StreamCounts, StreamMessage};
use relayer::tx_decode::deserialize_transaction;

const PROGRAM: &str = "CktRuQ2mttgRGkXJtyksdKHjUdc2C4TgDzyB98oEzy8";

#[test]
fn the_challenge_is_signed_together_with_the_identity() {
    let key: solana_pubkey::Pubkey = PROGRAM.parse().unwrap();
    assert_eq!(
        challenge_text(&key.to_bytes(), "abc"),
        "CktRuQ2mttgRGkXJtyksdKHjUdc2C4TgDzyB98oEzy8-abc"
    );
    assert_eq!(bearer_text("token"), "Bearer token");
}

#[test]
fn https_asks_for_a_secured_connection() {
    assert!(uses_tls("https://relayer:8100"));
    assert!(uses_tls("https"));
    assert!(!uses_tls("http://relayer:8100"));
    assert!(!uses_tls("HTTPS://relayer"));
    assert!(!uses_tls(""));
}

#[test]
fn what_is_streamed_is_counted() {
    let mut counts = StreamCounts::new();
    for message in [
        StreamMessage::Batch(3),
        StreamMessage::Heartbeat,
        StreamMessage::Nothing,
        StreamMessage::Batch(0),
        StreamMessage::Heartbeat,
    ] {
        counts.record(message);
    }
    assert_eq!((counts.batches, counts.packets, counts.heartbeats), (2, 3, 2));
}

#[test]
fn a_check_passes_where_only_the_strict_validator_lost_packets() {
    assert_eq!(check_received(5, 10), Ok(()));
    assert_eq!(check_received(0, 1), Ok(()));
    assert_eq!(check_received(0, 0), Err(CheckFailure::NothingForwarded));
    assert_eq!(
        check_received(10, 10),
        Err(CheckFailure::NotApplied {
            strict: 10,
            permissive: 10
        })
    );
    assert_eq!(check_digest(""), Err(CheckFailure::EmptyDigest));
    assert_eq!(check_digest("x"), Ok(()));
}

#[test]
fn instructions_are_padded_on_request() {
    assert_eq!(instruction_data(0), vec![0xde, 0xad, 0xbe, 0xef]);
    assert_eq!(instruction_data(203), vec![0xab; 3]);
    assert!(instruction_data(200).is_empty());
    assert!(instruction_data(1).is_empty());
}

#[test]
fn the_blocking_policy_drops_half_of_what_is_injected() {
    let blocked: solana_pubkey::Pubkey = PROGRAM.parse().unwrap();
    assert!(blocking_policy(PROGRAM).allow_aggressive_mev);
    let filter = filter_from_policy(&blocking_policy(PROGRAM));
    let seeds: Vec<InjectionSeed> = (0..10u8)
        .map(|n| InjectionSeed {
            payer: [n + 1; 32],
            account: [n + 100; 32],
            blockhash: [n + 50; 32],
        })
        .collect();
    let wire = injected_transactions(&blocked.to_bytes(), &[9; 32], 0, &seeds).expect("they can be written");
    assert_eq!(wire.len(), 10);
    let tables = LookupTableCache::from_map(DashMap::new());
    for (i, bytes) in wire.iter().enumerate() {
        let tx = deserialize_transaction(bytes).expect("a transaction");
        assert_eq!(tx.recent_blockhash, seeds[i].blockhash);
        assert!(tx.account_keys.contains(&seeds[i].account));
        assert_eq!(tx.instructions[0].data, vec![0xde, 0xad, 0xbe, 0xef]);
        let verdict = filter.evaluate(&PacketSummary::extract(&tx, &tables));
        assert_eq!(verdict, if i < 5 { Some(PbpDrop::Program) } else { None });
    }
}

#[test]
fn padded_transactions_are_about_as_long_as_asked() {
    let seeds: Vec<InjectionSeed> = (0..10u8)
        .map(|n| InjectionSeed {
            payer: [n + 1; 32],
            account: [n + 100; 32],
            blockhash: [n; 32],
        })
        .collect();
    let wire = injected_transactions(&[8; 32], &[9; 32], 2_000, &seeds).expect("they can be written");
    for bytes in &wire {
        assert!(bytes.len() > 1_900 && bytes.len() < 2_100);
    }
}

#[test]
fn a_challenge_is_answered_with_a_signature_of_the_identity() {
    let pair = solana_keypair::Keypair::new_from_array([7; 32]);
    let pubkey = solana_signer::Signer::pubkey(&pair);
    let (text, signature) = signed_challenge(&[7; 32], "abc");
    assert_eq!(text, format!("{pubkey}-abc"));
    assert_eq!(signature.as_slice(), solana_signer::Signer::sign_message(&pair, text.as_bytes()).as_ref());
    assert_eq!(signed_challenge(&[7; 32], "abc"), (text, signature));
    assert_ne!(signed_challenge(&[8; 32], "abc").1, signature);
    assert_ne!(signed_challenge(&[7; 32], "abd").1, signature);
}

#[test]
fn the_blocked_program_is_given_as_text() {
    let seeds: Vec<InjectionSeed> = (0..10u8)
        .map(|n| InjectionSeed {
            payer: [n + 1; 32],
            account: [n + 100; 32],
            blockhash: [n + 50; 32],
        })
        .collect();
    let blocked: solana_pubkey::Pubkey = PROGRAM.parse().unwrap();
    assert_eq!(
        injected_from_text(PROGRAM, &[9; 32], 0, &seeds).ok(),
        injected_transactions(&blocked.to_bytes(), &[9; 32], 0, &seeds)
    );
    assert_eq!(
        injected_from_text("not a key", &[9; 32], 0, &seeds),
        Err(InjectionFailure::UnreadableProgram)
    );
    assert_eq!(
        injected_from_text("not a key", &[9; 32], 70_000, &seeds),
        Err(InjectionFailure::UnreadableProgram)
    );
    assert_eq!(
        injected_from_text(PROGRAM, &[9; 32], 65_736, &seeds),
        Err(InjectionFailure::TooMuchData)
    );
    assert!(injected_from_text(PROGRAM, &[9; 32], 65_735, &seeds).is_ok());
}
