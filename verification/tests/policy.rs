use dashmap::DashMap;
use relayer::digest::policy_digest;
use relayer::pbp::{PacketSummary, PbpDrop};
use relayer::policy::{count_in_force, filter_from_policy, live_policy, parse_set, push_policy, InstructionRule, PbpPolicy, ValidatorPolicies, POLICY_TTL_NS};
use relayer::pubkey::Pubkey;

const A: &str = "4vJ9JU1bJJE96FWSJKvHsmmFADCg4gpZQff4P3bkLKi";
const B: &str = "8qbHbw2BbbTHBW1sbeqakYXVKRQM8Ne7pLK7m6CVfeR";

fn key(text: &str) -> Pubkey {
    text.parse::<solana_pubkey::Pubkey>().unwrap().to_bytes()
}

fn strings(list: &[&str]) -> Vec<String> {
    list.iter().map(|s| s.to_string()).collect()
}

fn rule(program: &str, prefixes: &[&str]) -> InstructionRule {
    InstructionRule {
        program_id: program.to_string(),
        data_prefixes: strings(prefixes),
    }
}

fn policy(addresses: &[&str], programs: &[&str], rules: Vec<InstructionRule>) -> PbpPolicy {
    PbpPolicy {
        allow_aggressive_mev: false,
        address_blacklist: strings(addresses),
        program_blacklist: strings(programs),
        instruction_blacklist: rules,
    }
}

#[test]
fn unparseable_entries_are_skipped() {
    let filter = filter_from_policy(&policy(&[A, "not a key", B, A], &["", B], vec![]));
    assert_eq!(filter.address_blacklist.len(), 2);
    assert!(filter.address_blacklist.contains(&key(A)));
    assert!(filter.address_blacklist.contains(&key(B)));
    assert_eq!(filter.program_blacklist.len(), 1);
    assert!(filter.program_blacklist.contains(&key(B)));
    assert!(filter.instruction_blacklist.is_empty());
}

#[test]
fn keys_are_parsed_as_base58() {
    let set = parse_set(&strings(&[A]));
    assert_eq!(set.to_vec(), vec![key(A)]);
    assert!(parse_set(&strings(&["0OIl"])).is_empty());
}

#[test]
fn rules_on_one_program_are_merged_in_order() {
    let filter = filter_from_policy(&policy(
        &[],
        &[],
        vec![rule(A, &["0xdead"]), rule(B, &[]), rule(A, &["bad hex", "beef", "01"])],
    ));
    assert_eq!(
        filter.instruction_blacklist.get(&key(A)),
        Some(&vec![vec![0xde, 0xad], vec![0xbe, 0xef], vec![0x01]])
    );
    assert_eq!(filter.instruction_blacklist.get(&key(B)), Some(&vec![]));
    assert_eq!(filter.instruction_blacklist.len(), 2);
}

#[test]
fn a_rule_of_whose_prefixes_none_can_be_read_does_not_widen() {
    let filter = filter_from_policy(&policy(&[], &[], vec![rule(A, &["xyz", "1"])]));
    assert!(filter.is_empty());
    let filter = filter_from_policy(&policy(&[], &[], vec![rule("nobody", &[])]));
    assert!(filter.is_empty());
    // One with no prefixes at all does block everything.
    let filter = filter_from_policy(&policy(&[], &[], vec![rule(A, &[])]));
    let summary = PacketSummary {
        account_keys: vec![],
        instructions: vec![(key(A), vec![1, 2, 3])],
    };
    assert_eq!(filter.evaluate(&summary), Some(PbpDrop::Instruction));
}

#[test]
fn a_pushed_policy_is_stored_under_its_sender_alone() {
    let mut policies = ValidatorPolicies::from_map(DashMap::new());
    let digest = push_policy(&mut policies, [1; 32], &policy(&[A], &[], vec![]), 10);
    let filter = live_policy(&policies, &[1; 32], 10).expect("just pushed");
    assert!(filter.address_blacklist.contains(&key(A)));
    assert_eq!(digest, policy_digest(&filter));
    assert!(live_policy(&policies, &[2; 32], 10).is_none());

    // Another push replaces it as a whole.
    push_policy(&mut policies, [1; 32], &policy(&[B], &[], vec![]), 20);
    let filter = live_policy(&policies, &[1; 32], 20).expect("just pushed");
    assert!(!filter.address_blacklist.contains(&key(A)));
    assert!(filter.address_blacklist.contains(&key(B)));
}

#[test]
fn a_policy_that_is_not_refreshed_expires() {
    let mut policies = ValidatorPolicies::from_map(DashMap::new());
    push_policy(&mut policies, [1; 32], &policy(&[A], &[], vec![]), 1_000);
    assert!(live_policy(&policies, &[1; 32], 1_000 + POLICY_TTL_NS - 1).is_some());
    assert!(live_policy(&policies, &[1; 32], 1_000 + POLICY_TTL_NS).is_none());
    // A clock reading from before the push finds it in force.
    assert!(live_policy(&policies, &[1; 32], 0).is_some());
    push_policy(&mut policies, [1; 32], &policy(&[A], &[], vec![]), 5_000);
    assert!(live_policy(&policies, &[1; 32], 1_000 + POLICY_TTL_NS).is_some());
}

#[test]
fn an_empty_policy_is_in_force_and_enforces_nothing() {
    let mut policies = ValidatorPolicies::from_map(DashMap::new());
    push_policy(&mut policies, [1; 32], &policy(&["bad"], &[], vec![]), 0);
    assert!(live_policy(&policies, &[1; 32], 0).is_none());
    assert_eq!(count_in_force(&policies, 0), 1);
}

#[test]
fn policies_in_force_are_counted() {
    let mut policies = ValidatorPolicies::from_map(DashMap::new());
    assert_eq!(count_in_force(&policies, 0), 0);
    for n in 1..=5u8 {
        push_policy(&mut policies, [n; 32], &policy(&[A], &[], vec![]), n as u64);
    }
    assert_eq!(count_in_force(&policies, 5), 5);
    assert_eq!(count_in_force(&policies, POLICY_TTL_NS + 2), 3);
    assert_eq!(count_in_force(&policies, POLICY_TTL_NS + 5), 0);
}

#[test]
fn pushes_that_list_the_same_get_one_digest() {
    let one = policy(
        &[A, B],
        &[B, "not a key"],
        vec![rule(A, &["01", "02"]), rule(B, &[]), rule("not a key", &["03"])],
    );
    let two = policy(
        &["", B, A, B],
        &[B],
        vec![rule(A, &["zz"]), rule(B, &[]), rule(A, &["0x02", "xyz", "01"])],
    );
    let mut policies = ValidatorPolicies::from_map(DashMap::new());
    let digest = push_policy(&mut policies, [1; 32], &one, 0);
    assert_eq!(digest, push_policy(&mut policies, [2; 32], &two, 5));
    let three = policy(&[A, B], &[B], vec![rule(A, &["01"]), rule(B, &[])]);
    assert_ne!(digest, push_policy(&mut policies, [3; 32], &three, 5));
}
