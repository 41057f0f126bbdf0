use std::sync::atomic::{AtomicU64, Ordering};

use dashmap::DashMap;
use relayer::pbp::{loaded_addresses, AddressLookupTableAccount, LookupTableCache, PacketSummary, PbpDrop, PbpFilter};
use relayer::pubkey::{Pubkey, PubkeyMap, PubkeySet};
use relayer::tx_decode::{deserialize_transaction, AddressTableLookup, Transaction};
use solana_instruction::{AccountMeta, Instruction};
use solana_keypair::Keypair;
use solana_message::{compiled_instruction::CompiledInstruction, v0, v0::MessageAddressTableLookup, MessageHeader, VersionedMessage};
use solana_signer::Signer;
use solana_transaction::versioned::VersionedTransaction;

fn new_unique() -> Pubkey {
    static NEXT: AtomicU64 = AtomicU64::new(1);
    let mut key = [0u8; 32];
    key[..8].copy_from_slice(&NEXT.fetch_add(1, Ordering::Relaxed).to_be_bytes());
    key
}

fn decoded(tx: VersionedTransaction) -> Transaction {
    let bytes = wincode::serialize(&tx).unwrap();
    deserialize_transaction(&bytes).expect("what was written is read")
}

fn tx_invoking(program: Pubkey, account: Pubkey, data: &[u8]) -> Transaction {
    let payer = Keypair::new();
    decoded(VersionedTransaction::from(
        solana_transaction::Transaction::new_signed_with_payer(
            &[Instruction::new_with_bytes(
                program.into(),
                data,
                vec![AccountMeta {
                    pubkey: account.into(),
                    is_signer: false,
                    is_writable: false,
                }],
            )],
            Some(&payer.pubkey()),
            &[&payer],
            solana_hash::Hash::default(),
        ),
    ))
}

/// A v0 transaction whose program id lives in a lookup table rather than the static keys.
fn tx_invoking_via_lookup_table(
    table_key: Pubkey,
    writable: Vec<u8>,
    readonly: Vec<u8>,
    program_id_index: u8,
    data: &[u8],
) -> Transaction {
    let payer = Keypair::new();
    let message = VersionedMessage::V0(v0::Message {
        header: MessageHeader {
            num_required_signatures: 1,
            num_readonly_signed_accounts: 0,
            num_readonly_unsigned_accounts: 0,
        },
        recent_blockhash: solana_hash::Hash::new_from_array(new_unique()),
        account_keys: vec![payer.pubkey()],
        address_table_lookups: vec![MessageAddressTableLookup {
            account_key: table_key.into(),
            writable_indexes: writable,
            readonly_indexes: readonly,
        }],
        instructions: vec![CompiledInstruction {
            program_id_index,
            accounts: vec![0],
            data: data.to_vec(),
        }],
    });
    decoded(VersionedTransaction::try_new(message, &[&payer]).expect("valid tx"))
}

fn set_of(keys: &[Pubkey]) -> PubkeySet {
    PubkeySet::from_vec(keys.to_vec())
}

fn filter_with_instruction(program: Pubkey, prefixes: Vec<Vec<u8>>) -> PbpFilter {
    let mut instruction_blacklist = PubkeyMap::new();
    instruction_blacklist.insert(program, prefixes);
    PbpFilter {
        instruction_blacklist,
        ..PbpFilter::default()
    }
}

fn cache_of(tables: Vec<(Pubkey, Vec<Pubkey>)>) -> LookupTableCache {
    LookupTableCache::from_map(
        tables
            .into_iter()
            .map(|(key, addresses)| (key, AddressLookupTableAccount { key, addresses }))
            .collect(),
    )
}

fn cache_with(table_key: Pubkey, addresses: Vec<Pubkey>) -> LookupTableCache {
    cache_of(vec![(table_key, addresses)])
}

#[test]
fn an_empty_policy_drops_nothing() {
    let cache = LookupTableCache::from_map(DashMap::new());
    let tx = tx_invoking(new_unique(), new_unique(), &[1, 2, 3]);
    let summary = PacketSummary::extract(&tx, &cache);
    assert_eq!(PbpFilter::default().evaluate(&summary), None);
}

#[test]
fn a_program_is_blocked_wholesale_by_account_reference() {
    let cache = LookupTableCache::from_map(DashMap::new());
    let program = new_unique();
    let tx = tx_invoking(program, new_unique(), &[9]);
    let summary = PacketSummary::extract(&tx, &cache);

    let filter = PbpFilter {
        program_blacklist: set_of(&[program]),
        ..PbpFilter::default()
    };
    assert_eq!(filter.evaluate(&summary), Some(PbpDrop::Program));
}

/// A transaction that only *mentions* the program still hits the program list.
#[test]
fn a_referenced_program_is_blocked_even_when_another_program_is_invoked() {
    let cache = LookupTableCache::from_map(DashMap::new());
    let malicious = new_unique();
    let router = new_unique();
    let tx = tx_invoking(router, malicious, &[0]);
    let summary = PacketSummary::extract(&tx, &cache);

    let filter = PbpFilter {
        program_blacklist: set_of(&[malicious]),
        ..PbpFilter::default()
    };
    assert_eq!(filter.evaluate(&summary), Some(PbpDrop::Program));
}

#[test]
fn an_address_is_blocked_by_reference() {
    let cache = LookupTableCache::from_map(DashMap::new());
    let addr = new_unique();
    let tx = tx_invoking(new_unique(), addr, &[0]);
    let summary = PacketSummary::extract(&tx, &cache);

    let filter = PbpFilter {
        address_blacklist: set_of(&[addr]),
        ..PbpFilter::default()
    };
    assert_eq!(filter.evaluate(&summary), Some(PbpDrop::Address));
}

#[test]
fn an_instruction_rule_matches_only_its_data_prefix() {
    let cache = LookupTableCache::from_map(DashMap::new());
    let program = new_unique();
    let tx = tx_invoking(program, new_unique(), &[0xDE, 0xAD, 0x01]);
    let summary = PacketSummary::extract(&tx, &cache);

    assert_eq!(
        filter_with_instruction(program, vec![vec![0xDE, 0xAD]]).evaluate(&summary),
        Some(PbpDrop::Instruction)
    );
    assert_eq!(
        filter_with_instruction(program, vec![vec![0xBE, 0xEF]]).evaluate(&summary),
        None
    );
    // An empty prefix list blocks every instruction to the program.
    assert_eq!(
        filter_with_instruction(program, vec![]).evaluate(&summary),
        Some(PbpDrop::Instruction)
    );
    assert_eq!(
        filter_with_instruction(new_unique(), vec![vec![0xDE, 0xAD]]).evaluate(&summary),
        None
    );
}

#[test]
fn a_program_id_hidden_in_a_lookup_table_is_still_matched() {
    let program = new_unique();
    let table_key = new_unique();
    let cache = cache_with(table_key, vec![new_unique(), program]);

    // 1 static key (the payer), so loaded addresses start at index 1. The table contributes one
    // writable (table idx 0) then one readonly (table idx 1 = the program) -> index 2.
    let tx = tx_invoking_via_lookup_table(table_key, vec![0], vec![1], 2, &[0xDE, 0xAD, 0x01]);
    let summary = PacketSummary::extract(&tx, &cache);

    assert_eq!(
        filter_with_instruction(program, vec![vec![0xDE, 0xAD]]).evaluate(&summary),
        Some(PbpDrop::Instruction)
    );
}

#[test]
fn an_uncached_lookup_table_lets_the_transaction_through_rather_than_guessing() {
    let program = new_unique();
    let table_key = new_unique();
    let cache = LookupTableCache::from_map(DashMap::new()); // table never fetched

    let tx = tx_invoking_via_lookup_table(table_key, vec![0], vec![1], 2, &[0xDE, 0xAD, 0x01]);
    let summary = PacketSummary::extract(&tx, &cache);

    // Must not drop: with the table unresolved we cannot know which program this is, and a false
    // positive here removes a fee-paying transaction from the block.
    assert_eq!(
        filter_with_instruction(program, vec![vec![0xDE, 0xAD]]).evaluate(&summary),
        None
    );
}

/// The property the whole per-validator design exists for.
#[test]
fn one_validators_policy_does_not_drop_for_another() {
    let cache = LookupTableCache::from_map(DashMap::new());
    let program = new_unique();
    let tx = tx_invoking(program, new_unique(), &[1]);
    let summary = PacketSummary::extract(&tx, &cache);

    let strict = PbpFilter {
        program_blacklist: set_of(&[program]),
        ..PbpFilter::default()
    };
    let permissive = PbpFilter::default();

    assert_eq!(strict.evaluate(&summary), Some(PbpDrop::Program));
    assert_eq!(permissive.evaluate(&summary), None);
}

#[test]
fn the_first_listed_account_decides_and_an_address_comes_before_a_program() {
    let both = [5u8; 32];
    let program = [6u8; 32];
    let filter = PbpFilter {
        address_blacklist: set_of(&[both]),
        program_blacklist: set_of(&[both, program]),
        ..PbpFilter::default()
    };
    let summary = |keys: Vec<Pubkey>| PacketSummary {
        account_keys: keys,
        instructions: vec![],
    };
    assert_eq!(filter.evaluate(&summary(vec![both])), Some(PbpDrop::Address));
    assert_eq!(filter.evaluate(&summary(vec![program, both])), Some(PbpDrop::Program));
    assert_eq!(filter.evaluate(&summary(vec![[7; 32], both, program])), Some(PbpDrop::Address));
    assert_eq!(filter.evaluate(&summary(vec![[7; 32]])), None);
}

#[test]
fn a_listed_account_is_reported_before_a_blocked_instruction() {
    let program = [8u8; 32];
    let mut filter = filter_with_instruction(program, vec![]);
    filter.program_blacklist = set_of(&[program]);
    let summary = PacketSummary {
        account_keys: vec![program],
        instructions: vec![(program, vec![1])],
    };
    assert_eq!(filter.evaluate(&summary), Some(PbpDrop::Program));
}

#[test]
fn the_empty_prefix_matches_everything_and_a_longer_one_does_not() {
    let program = [9u8; 32];
    let summary = PacketSummary {
        account_keys: vec![],
        instructions: vec![([1; 32], vec![1, 2]), (program, vec![1, 2])],
    };
    assert_eq!(
        filter_with_instruction(program, vec![vec![]]).evaluate(&summary),
        Some(PbpDrop::Instruction)
    );
    assert_eq!(
        filter_with_instruction(program, vec![vec![1, 2, 3]]).evaluate(&summary),
        None
    );
    assert_eq!(
        filter_with_instruction(program, vec![vec![7], vec![1, 2]]).evaluate(&summary),
        Some(PbpDrop::Instruction)
    );
}

#[test]
fn is_empty_only_where_nothing_is_listed() {
    assert!(PbpFilter::default().is_empty());
    assert!(!filter_with_instruction([1; 32], vec![]).is_empty());
    let addresses = PbpFilter {
        address_blacklist: set_of(&[[1; 32]]),
        ..PbpFilter::default()
    };
    assert!(!addresses.is_empty());
    let programs = PbpFilter {
        program_blacklist: set_of(&[[1; 32]]),
        ..PbpFilter::default()
    };
    assert!(!programs.is_empty());
}

#[test]
fn a_copied_filter_lists_the_same() {
    let program = [3u8; 32];
    let mut filter = filter_with_instruction(program, vec![vec![1], vec![2, 3]]);
    filter.instruction_blacklist.insert([2; 32], vec![]);
    filter.address_blacklist = set_of(&[[4; 32]]);
    let copy = filter.clone();
    assert_eq!(copy.instruction_blacklist.get(&program), Some(&vec![vec![1], vec![2, 3]]));
    assert_eq!(copy.instruction_blacklist.get(&[2; 32]), Some(&vec![]));
    assert_eq!(copy.instruction_blacklist.len(), 2);
    assert!(copy.address_blacklist.contains(&[4; 32]));
    assert!(copy.program_blacklist.is_empty());
}

#[test]
fn loaded_addresses_are_writable_entries_of_all_tables_then_readonly_ones() {
    let cache = cache_of(vec![
        ([1; 32], vec![[11; 32], [12; 32]]),
        ([2; 32], vec![[21; 32], [22; 32], [23; 32]]),
    ]);
    let lookup = |key: Pubkey, writable_indexes: Vec<u8>, readonly_indexes: Vec<u8>| AddressTableLookup {
        account_key: key,
        writable_indexes,
        readonly_indexes,
    };
    let lookups = vec![lookup([1; 32], vec![1], vec![0]), lookup([2; 32], vec![2, 0], vec![1])];
    assert_eq!(
        loaded_addresses(&lookups, &cache),
        Some(vec![[12; 32], [23; 32], [21; 32], [11; 32], [22; 32]])
    );
    // One place outside its table leaves everything out.
    let lookups = vec![lookup([1; 32], vec![1], vec![0]), lookup([2; 32], vec![], vec![3])];
    assert_eq!(loaded_addresses(&lookups, &cache), None);
    // And so does one table that is missing.
    let lookups = vec![lookup([1; 32], vec![1], vec![0]), lookup([3; 32], vec![], vec![])];
    assert_eq!(loaded_addresses(&lookups, &cache), None);
    assert_eq!(loaded_addresses(&vec![], &cache), Some(vec![]));
}

#[test]
fn an_instruction_of_an_unknown_program_is_left_out_of_the_summary() {
    let cache = LookupTableCache::from_map(DashMap::new());
    let table_key = new_unique();
    let tx = tx_invoking_via_lookup_table(table_key, vec![0], vec![1], 2, &[1]);
    let summary = PacketSummary::extract(&tx, &cache);
    assert_eq!(summary.account_keys, tx.account_keys);
    assert!(summary.instructions.is_empty());

    let program = new_unique();
    let account = new_unique();
    let cache = cache_with(table_key, vec![account, program]);
    let summary = PacketSummary::extract(&tx, &cache);
    assert_eq!(summary.account_keys, vec![tx.account_keys[0], account, program]);
    assert_eq!(summary.instructions, vec![(program, vec![1])]);
}

#[test]
fn a_cache_tells_the_addresses_of_the_tables_it_holds() {
    let cache = cache_with([5; 32], vec![[6; 32], [7; 32]]);
    assert_eq!(cache.addresses(&[5; 32]), Some(vec![[6; 32], [7; 32]]));
    assert_eq!(cache.addresses(&[6; 32]), None);
}
