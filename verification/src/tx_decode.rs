//! One decode for every transaction version the cluster accepts.
//!
//! A legacy or v0 transaction starts with its signatures, counted by a shortvec, and the message
//! follows. A v1 transaction inverts that: its first byte is the version prefix `0x81`, the
//! message follows, and the signatures stand at the end without a count. A decoder that always
//! reads a count first takes the prefix for the count of 129 signatures and runs off the end, so
//! that every v1 transaction would be dropped as malformed. `wincode` looks at the first byte and
//! reads all three.

use vstd::prelude::*;

use crate::pubkey::Pubkey;

verus! {

/// An instruction of a message: which of the message's accounts is the program, and the data
/// handed to it.
pub struct CompiledInstruction {
    pub program_id_index: u8,
    pub data: Vec<u8>,
}

/// An address lookup table that a message loads accounts from, and the places in it.
pub struct AddressTableLookup {
    pub account_key: Pubkey,
    pub writable_indexes: Vec<u8>,
    pub readonly_indexes: Vec<u8>,
}

/// A transaction of any version.
pub struct Transaction {
    pub signatures: Vec<[u8; 64]>,
    /// The keys that stand in the message itself.
    pub account_keys: Vec<Pubkey>,
    pub recent_blockhash: [u8; 32],
    pub instructions: Vec<CompiledInstruction>,
    /// Present only in the version that can load accounts from lookup tables.
    pub address_table_lookups: Option<Vec<AddressTableLookup>>,
}

/// What a [`CompiledInstruction`] holds.
pub struct InstructionView {
    pub program_id_index: u8,
    pub data: Seq<u8>,
}

/// What an [`AddressTableLookup`] holds.
pub struct LookupView {
    pub account_key: Pubkey,
    pub writable_indexes: Seq<u8>,
    pub readonly_indexes: Seq<u8>,
}

/// What a [`Transaction`] holds.
pub struct TransactionView {
    pub signatures: Seq<[u8; 64]>,
    pub account_keys: Seq<Pubkey>,
    pub recent_blockhash: [u8; 32],
    pub instructions: Seq<InstructionView>,
    pub address_table_lookups: Option<Seq<LookupView>>,
}

impl View for CompiledInstruction {
    type V = InstructionView;

    open spec fn view(&self) -> InstructionView {
        InstructionView { program_id_index: self.program_id_index, data: self.data@ }
    }
}

impl View for AddressTableLookup {
    type V = LookupView;

    open spec fn view(&self) -> LookupView {
        LookupView {
            account_key: self.account_key,
            writable_indexes: self.writable_indexes@,
            readonly_indexes: self.readonly_indexes@,
        }
    }
}

impl View for Transaction {
    type V = TransactionView;

    open spec fn view(&self) -> TransactionView {
        TransactionView {
            signatures: self.signatures@,
            account_keys: self.account_keys@,
            recent_blockhash: self.recent_blockhash,
            instructions: self.instructions@.map_values(|ix: CompiledInstruction| ix@),
            address_table_lookups: match self.address_table_lookups {
                Some(lookups) => Some(lookups@.map_values(|l: AddressTableLookup| l@)),
                None => None,
            },
        }
    }
}

/// What an optional transaction holds.
pub open spec fn optional_view(tx: Option<Transaction>) -> Option<TransactionView> {
    match tx {
        Some(tx) => Some(tx@),
        None => None,
    }
}

/// The transaction that the bytes of a packet encode, if they encode one.
pub uninterp spec fn transaction_of_bytes(data: Seq<u8>) -> Option<TransactionView>;

/// `wincode::deserialize` of `solana_transaction`'s `VersionedTransaction`: the transaction that
/// the bytes encode, in any version, or nothing where they encode none. Which bytes encode which
/// transaction is left to that function. The result holds the signatures, the static account keys,
/// the blockhash, the instructions' program index and data, and the lookups of the decoded value.
#[verifier::external_body]
fn decode(data: &[u8]) -> (r: Option<Transaction>)
    ensures
        optional_view(r) == transaction_of_bytes(data@),
{
    let tx: solana_transaction::versioned::VersionedTransaction = wincode::deserialize(data).ok()?;
    let m = tx.message;
    Some(Transaction {
        signatures: tx.signatures.into_iter().map(Into::into).collect(),
        account_keys: m.static_account_keys().iter().map(|k| k.to_bytes()).collect(),
        recent_blockhash: m.recent_blockhash().to_bytes(),
        instructions: m.instructions().iter().map(|ix| CompiledInstruction {
            program_id_index: ix.program_id_index, data: ix.data.clone() }).collect(),
        address_table_lookups: m.address_table_lookups().map(|ls| ls.iter().map(|l| AddressTableLookup {
            account_key: l.account_key.to_bytes(),
            writable_indexes: l.writable_indexes.clone(),
            readonly_indexes: l.readonly_indexes.clone() }).collect()),
    })
}

/// Decodes a transaction of any version from the bytes of a packet. `None` means that the bytes
/// are not a transaction. Legacy, v0 and v1 all go through here.
pub fn deserialize_transaction(data: &[u8]) -> (r: Option<Transaction>)
    ensures
        optional_view(r) == transaction_of_bytes(data@),
{
    decode(data)
}

/// What is told of a transaction is all that it holds.
pub proof fn law_transactions_are_told(tx: Transaction)
    ensures
        optional_view(Some(tx)) == Some(tx@),
        optional_view(None) is None,
        tx@.signatures == tx.signatures@,
        tx@.account_keys == tx.account_keys@,
        tx@.recent_blockhash == tx.recent_blockhash,
        tx@.instructions.len() == tx.instructions@.len(),
        forall|i: int|
            0 <= i < tx.instructions@.len() ==> {
                &&& (#[trigger] tx@.instructions[i]).program_id_index
                    == tx.instructions@[i].program_id_index
                &&& tx@.instructions[i].data == tx.instructions@[i].data@
            },
        tx@.address_table_lookups is Some <==> tx.address_table_lookups is Some,
        tx.address_table_lookups matches Some(lookups) ==> {
            &&& tx@.address_table_lookups->0.len() == lookups@.len()
            &&& forall|i: int|
                0 <= i < lookups@.len() ==> {
                    &&& (#[trigger] tx@.address_table_lookups->0[i]).account_key
                        == lookups@[i].account_key
                    &&& tx@.address_table_lookups->0[i].writable_indexes
                        == lookups@[i].writable_indexes@
                    &&& tx@.address_table_lookups->0[i].readonly_indexes
                        == lookups@[i].readonly_indexes@
                }
        },
{
}

} // verus!
