use relayer::tx_decode::deserialize_transaction;
use solana_transaction::versioned::VersionedTransaction;

const BLOCKHASH: [u8; 32] = [7u8; 32];
const PAYER: [u8; 32] = [1u8; 32];
const PROGRAM: [u8; 32] = [2u8; 32];

/// A v1 transaction, built byte by byte: prefix, header, config mask, blockhash, counts, addresses,
/// config values, instruction headers, payloads, then the signatures.
fn transaction_v1() -> Vec<u8> {
    let mut b = vec![0x81];
    b.extend_from_slice(&[1, 0, 1]); // 1 required signature, 0 ro signed, 1 ro unsigned
    b.extend_from_slice(&0u32.to_le_bytes()); // config mask: no configured values
    b.extend_from_slice(&BLOCKHASH);
    b.push(1); // num_instructions
    b.push(2); // num_addresses
    b.extend_from_slice(&PAYER);
    b.extend_from_slice(&PROGRAM);
    // instruction header: program_id_index, num_accounts, data_len (u16 LE)
    b.extend_from_slice(&[1, 1]);
    b.extend_from_slice(&3u16.to_le_bytes());
    b.push(0); // account index
    b.extend_from_slice(&[0xAA, 0xBB, 0xCC]); // instruction data
    b.extend_from_slice(&[9u8; 64]); // the one signature, unprefixed, last
    b
}

/// A legacy transaction: shortvec signature count, then the message.
fn transaction_legacy() -> Vec<u8> {
    let mut b = vec![1]; // one signature
    b.extend_from_slice(&[9u8; 64]);
    b.extend_from_slice(&[1, 0, 1]); // header
    b.push(2); // shortvec: 2 account keys
    b.extend_from_slice(&PAYER);
    b.extend_from_slice(&PROGRAM);
    b.extend_from_slice(&BLOCKHASH);
    b.push(1); // shortvec: 1 instruction
    b.push(1); // program_id_index
    b.push(1); // shortvec: 1 account index
    b.push(0);
    b.push(3); // shortvec: 3 data bytes
    b.extend_from_slice(&[0xAA, 0xBB, 0xCC]);
    b
}

#[test]
fn a_v1_transaction_decodes_and_keeps_its_fields() {
    let tx = deserialize_transaction(&transaction_v1()).expect("v1 decodes");
    assert_eq!(tx.signatures.len(), 1);
    assert_eq!(tx.account_keys.len(), 2);
    assert_eq!(tx.account_keys[0], PAYER);
    assert_eq!(tx.recent_blockhash, BLOCKHASH);
    assert_eq!(tx.instructions.len(), 1);
}

/// The reason for the codec: the other one cannot read the bytes above.
#[test]
fn bincode_cannot_read_a_v1_transaction() {
    assert!(bincode::deserialize::<VersionedTransaction>(&transaction_v1()).is_err());
}

#[test]
fn legacy_still_decodes_through_the_same_call() {
    let tx = deserialize_transaction(&transaction_legacy()).expect("legacy decodes");
    assert_eq!(tx.signatures.len(), 1);
    assert_eq!(tx.account_keys[1], PROGRAM);
    assert_eq!(tx.recent_blockhash, BLOCKHASH);
}

#[test]
fn garbage_is_not_a_transaction() {
    assert!(deserialize_transaction(&[0xFF; 40]).is_none());
    assert!(deserialize_transaction(&[]).is_none());
}

#[test]
fn a_decoded_transaction_has_its_instructions_and_signatures() {
    for bytes in [transaction_v1(), transaction_legacy()] {
        let tx = deserialize_transaction(&bytes).expect("decodes");
        assert_eq!(tx.signatures[0], [9u8; 64]);
        assert_eq!(tx.account_keys, vec![PAYER, PROGRAM]);
        assert_eq!(tx.instructions[0].program_id_index, 1);
        assert_eq!(tx.instructions[0].data, vec![0xAA, 0xBB, 0xCC]);
        assert!(tx.address_table_lookups.is_none());
    }
}
