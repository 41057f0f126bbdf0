use relayer::digest::policy_digest;
use relayer::hex::{decode_hex, hex_encode};
use relayer::pbp::{PacketSummary, PbpDrop, PbpFilter};
use relayer::pubkey::{Pubkey, PubkeyMap, PubkeySet};

fn key(text: &str) -> Pubkey {
    text.parse::<solana_pubkey::Pubkey>().unwrap().to_bytes()
}

/// Pins the digest format against a fixed policy.
///
/// The block engine computes this independently, and the validator compares the two to tell whether
/// they are enforcing the same thing. If the formats drift the comparison silently stops meaning
/// anything, so both sides assert the same constant.
#[test]
fn policy_digest_is_stable() {
    let program = key("4vJ9JU1bJJE96FWSJKvHsmmFADCg4gpZQff4P3bkLKi");
    let address = key("8qbHbw2BbbTHBW1sbeqakYXVKRQM8Ne7pLK7m6CVfeR");
    let bad = key("CktRuQ2mttgRGkXJtyksdKHjUdc2C4TgDzyB98oEzy8");

    let mut instruction_blacklist = PubkeyMap::new();
    instruction_blacklist.insert(program, vec![vec![0xde, 0xad], vec![0xbe, 0xef]]);
    let filter = PbpFilter {
        address_blacklist: PubkeySet::from_vec(vec![address]),
        program_blacklist: PubkeySet::from_vec(vec![bad]),
        instruction_blacklist,
    };
    assert_eq!(policy_digest(&filter), "2bwADPFjVuWcVKXP");
}

/// Set ordering must not change the digest, or it would flap on its own and every comparison would
/// report a divergence that is not there.
#[test]
fn policy_digest_ignores_set_order() {
    let a = key("8qbHbw2BbbTHBW1sbeqakYXVKRQM8Ne7pLK7m6CVfeR");
    let b = key("CktRuQ2mttgRGkXJtyksdKHjUdc2C4TgDzyB98oEzy8");
    let one = PbpFilter {
        address_blacklist: PubkeySet::from_vec(vec![a, b]),
        ..Default::default()
    };
    let two = PbpFilter {
        address_blacklist: PubkeySet::from_vec(vec![b, a]),
        ..Default::default()
    };
    assert_eq!(policy_digest(&one), policy_digest(&two));
}

#[test]
fn the_digest_ignores_the_order_of_prefixes_and_tells_lists_apart() {
    let rules = |prefixes: Vec<Vec<u8>>| {
        let mut instruction_blacklist = PubkeyMap::new();
        instruction_blacklist.insert([1u8; 32], prefixes);
        PbpFilter {
            instruction_blacklist,
            ..Default::default()
        }
    };
    let one = policy_digest(&rules(vec![vec![1], vec![2]]));
    assert_eq!(one, policy_digest(&rules(vec![vec![2], vec![1]])));
    assert_ne!(one, policy_digest(&rules(vec![vec![1]])));
    let address = PbpFilter {
        address_blacklist: PubkeySet::from_vec(vec![[1; 32]]),
        ..Default::default()
    };
    let program = PbpFilter {
        program_blacklist: PubkeySet::from_vec(vec![[1; 32]]),
        ..Default::default()
    };
    assert_ne!(policy_digest(&address), policy_digest(&program));
    assert_eq!(policy_digest(&PbpFilter::default()).len(), 16);
}

#[test]
fn hex_is_written_in_lower_case() {
    assert_eq!(hex_encode(&vec![]), "");
    assert_eq!(hex_encode(&vec![0x00, 0x0f, 0xab, 0xff]), "000fabff");
}

#[test]
fn hex_is_read_in_either_case_with_or_without_the_marker() {
    assert_eq!(decode_hex("dead"), Some(vec![0xde, 0xad]));
    assert_eq!(decode_hex("0xDEad"), Some(vec![0xde, 0xad]));
    assert_eq!(decode_hex(""), Some(vec![]));
    assert_eq!(decode_hex("0x"), Some(vec![]));
}

#[test]
fn what_is_not_hex_is_refused() {
    assert_eq!(decode_hex("abc"), None);
    assert_eq!(decode_hex("zz"), None);
    assert_eq!(decode_hex("0Xab"), None);
    assert_eq!(decode_hex("+f"), None);
    assert_eq!(decode_hex("-f"), None);
    assert_eq!(decode_hex("0x+f"), None);
    assert_eq!(decode_hex("f+"), None);
    assert_eq!(decode_hex("é"), None);
    assert_eq!(decode_hex("aéb"), None);
}

#[test]
fn hex_is_read_back_as_it_was_written() {
    let bytes: Vec<u8> = (0..=255).collect();
    assert_eq!(decode_hex(&hex_encode(&bytes)), Some(bytes));
}

#[test]
fn policies_of_one_digest_enforce_the_same() {
    // No prefix and an empty one look alike in the digest, and both block everything.
    let rule = |prefixes: Vec<Vec<u8>>| {
        let mut instruction_blacklist = PubkeyMap::new();
        instruction_blacklist.insert([1u8; 32], prefixes);
        PbpFilter {
            instruction_blacklist,
            ..Default::default()
        }
    };
    let (none, empty) = (rule(vec![]), rule(vec![vec![]]));
    assert_eq!(policy_digest(&none), policy_digest(&empty));
    for data in [vec![], vec![1, 2, 3]] {
        let summary = PacketSummary {
            account_keys: vec![],
            instructions: vec![([1; 32], data)],
        };
        assert_eq!(none.evaluate(&summary), Some(PbpDrop::Instruction));
        assert_eq!(empty.evaluate(&summary), Some(PbpDrop::Instruction));
    }
    // Two empty ones look different from one.
    assert_ne!(policy_digest(&empty), policy_digest(&rule(vec![vec![], vec![]])));
}
