//! Looking at a relayer from outside: whether it lets a validator in and streams packets to it, and
//! whether it drops for each validator by that validator's own rules.

use vstd::prelude::*;
use vstd::utf8::encode_utf8;

use solana_instruction::{AccountMeta, Instruction};
use solana_keypair::Keypair;
use solana_signer::Signer;
use solana_transaction::versioned::VersionedTransaction;

use crate::pbp::{empty_filter, key_verdict, law_referenced_program_is_dropped, verdict, FilterView, PbpDrop, SummaryView};
use crate::policy::{filter_of, names, InstructionRule, PbpPolicy, PolicyView, RuleView};
use crate::pubkey::{parse_pubkey, pubkey_of_text, pubkey_text, text_of_pubkey, Pubkey};
use crate::text::to_chars;

verus! {

/// How many transactions are sent of each kind.
pub const TRANSACTIONS_PER_KIND: usize = 5;

/// How many bytes a transaction has besides the data of its one instruction, roughly.
pub const TRANSACTION_OVERHEAD: usize = 200;

/// What a validator signs to prove its identity: the relayer verifies exactly this.
pub fn challenge_text(pubkey: &Pubkey, challenge: &str) -> (r: String)
    ensures
        r@ == text_of_pubkey(*pubkey) + "-"@ + challenge@,
{
    pubkey_text(pubkey).concat("-").concat(challenge)
}

/// What a request carries once the validator has been let in.
pub fn bearer_text(access_token: &str) -> (r: String)
    ensures
        r@ == "Bearer "@ + access_token@,
{
    "Bearer ".to_owned().concat(access_token)
}

/// The address asks for a secured connection.
pub open spec fn secured(url: Seq<char>) -> bool {
    seq!['h', 't', 't', 'p', 's'].is_prefix_of(url)
}

/// Whether the address asks for a secured connection.
pub fn uses_tls(url: &str) -> (r: bool)
    ensures
        r == secured(url@),
{
    let chars: Vec<char> = to_chars(url);
    let r: bool = chars.len() >= 5 && chars[0] == 'h' && chars[1] == 't' && chars[2] == 't'
        && chars[3] == 'p' && chars[4] == 's';
    proof {
        let tag = seq!['h', 't', 't', 'p', 's'];
        if r {
            assert(tag =~= url@.subrange(0, 5));
        } else if tag.is_prefix_of(url@) {
            assert(tag =~= url@.subrange(0, 5));
            assert(tag[0] == url@[0] && tag[1] == url@[1] && tag[2] == url@[2] && tag[3] == url@[3]
                && tag[4] == url@[4]);
        }
    }
    r
}

/// What a relayer streams to a validator.
#[derive(Debug, Clone, Copy, PartialEq, Eq, Structural)]
pub enum StreamMessage {
    /// A batch of so many packets.
    Batch(usize),
    Heartbeat,
    /// A response without a message.
    Nothing,
}

/// What a relayer has streamed.
#[derive(Debug, Clone, Copy, PartialEq, Eq, Structural)]
pub struct StreamCounts {
    pub batches: u64,
    pub packets: u64,
    pub heartbeats: u64,
}

/// The counts after one more message.
pub open spec fn counted(counts: StreamCounts, message: StreamMessage) -> StreamCounts {
    match message {
        StreamMessage::Batch(packets) => StreamCounts {
            batches: (counts.batches + 1) as u64,
            packets: (counts.packets + packets) as u64,
            ..counts
        },
        StreamMessage::Heartbeat => StreamCounts {
            heartbeats: (counts.heartbeats + 1) as u64,
            ..counts
        },
        StreamMessage::Nothing => counts,
    }
}

impl StreamCounts {
    /// Nothing has been streamed.
    pub fn new() -> (r: Self)
        ensures
            r == (StreamCounts { batches: 0, packets: 0, heartbeats: 0 }),
    {
        StreamCounts { batches: 0, packets: 0, heartbeats: 0 }
    }

    /// Counts a message.
    pub fn record(&mut self, message: StreamMessage)
        requires
            match message {
                StreamMessage::Batch(packets) => old(self).batches < u64::MAX
                    && old(self).packets + packets <= u64::MAX,
                StreamMessage::Heartbeat => old(self).heartbeats < u64::MAX,
                StreamMessage::Nothing => true,
            },
        ensures
            *final(self) == counted(*old(self), message),
    {
        match message {
            StreamMessage::Batch(packets) => {
                self.batches = self.batches + 1;
                self.packets = self.packets + packets as u64;
            },
            StreamMessage::Heartbeat => {
                self.heartbeats = self.heartbeats + 1;
            },
            StreamMessage::Nothing => {},
        }
    }
}

/// The policy that blocks a program and every instruction of it, and allows whatever else there is.
pub open spec fn blocking(program: Seq<char>) -> PolicyView {
    PolicyView {
        allow_aggressive_mev: true,
        addresses: Seq::empty(),
        programs: seq![program],
        rules: seq![RuleView { program_id: program, data_prefixes: Seq::empty() }],
    }
}

/// The policy that blocks a program and every instruction of it, and allows whatever else there is.
pub fn blocking_policy(blocked_program: &str) -> (r: PbpPolicy)
    ensures
        r@ == blocking(blocked_program@),
{
    let mut program_blacklist: Vec<String> = Vec::new();
    program_blacklist.push(blocked_program.to_owned());
    let mut instruction_blacklist: Vec<InstructionRule> = Vec::new();
    let rule = InstructionRule {
        program_id: blocked_program.to_owned(),
        data_prefixes: Vec::new(),
    };
    assert(rule@.data_prefixes =~= Seq::<Seq<char>>::empty());
    instruction_blacklist.push(rule);
    let policy = PbpPolicy {
        allow_aggressive_mev: true,
        address_blacklist: Vec::new(),
        program_blacklist,
        instruction_blacklist,
    };
    assert(policy@.addresses =~= Seq::<Seq<char>>::empty());
    assert(policy@.programs =~= seq![blocked_program@]);
    assert(policy@.rules =~= seq![rule@]);
    policy
}

/// Why a check of a relayer fails.
#[derive(Debug, Clone, Copy, PartialEq, Eq, Structural)]
pub enum CheckFailure {
    /// The relayer returned no digest: it is not storing the policy.
    EmptyDigest,
    /// The validator without a policy received nothing: the relayer is not forwarding at all, so the
    /// run proves nothing about policy.
    NothingForwarded,
    /// The validator with a policy received no less than the one without: its policy was not applied.
    NotApplied { strict: u64, permissive: u64 },
}

/// Judges the digest that a pushed policy was answered with.
pub fn check_digest(digest: &str) -> (r: Result<(), CheckFailure>)
    ensures
        r == (if digest@.len() == 0 {
            Err::<(), CheckFailure>(CheckFailure::EmptyDigest)
        } else {
            Ok(())
        }),
{
    if digest.is_empty() {
        Err(CheckFailure::EmptyDigest)
    } else {
        Ok(())
    }
}

/// Judges what two validators received of the same packets, where only the strict one has a policy
/// that blocks some of them.
pub fn check_received(strict: u64, permissive: u64) -> (r: Result<(), CheckFailure>)
    ensures
        r == (if permissive == 0 {
            Err::<(), CheckFailure>(CheckFailure::NothingForwarded)
        } else if strict >= permissive {
            Err(CheckFailure::NotApplied { strict, permissive })
        } else {
            Ok(())
        }),
{
    if permissive == 0 {
        Err(CheckFailure::NothingForwarded)
    } else if strict >= permissive {
        Err(CheckFailure::NotApplied { strict, permissive })
    } else {
        Ok(())
    }
}

/// The data of an instruction: four bytes, or padding that brings its transaction to about the size
/// asked for.
pub open spec fn filler(pad_to: usize) -> Seq<u8> {
    if pad_to == 0 {
        seq![0xdeu8, 0xad, 0xbe, 0xef]
    } else {
        Seq::new(
            if pad_to > TRANSACTION_OVERHEAD {
                (pad_to - TRANSACTION_OVERHEAD) as nat
            } else {
                0
            },
            |i: int| 0xabu8,
        )
    }
}

/// The data of an instruction: four bytes, or padding that brings its transaction to about the size
/// asked for. Above the size of a plain packet this exercises transactions of version 1.
pub fn instruction_data(pad_to: usize) -> (r: Vec<u8>)
    ensures
        r@ == filler(pad_to),
{
    let mut data: Vec<u8> = Vec::new();
    if pad_to > 0 {
        let len: usize = pad_to.saturating_sub(TRANSACTION_OVERHEAD);
        let mut i: usize = 0;
        while i < len
            invariant
                i <= len,
                data@ =~= Seq::new(i as nat, |i: int| 0xabu8),
            decreases len - i,
        {
            data.push(0xab);
            i = i + 1;
        }
    } else {
        data.push(0xde);
        data.push(0xad);
        data.push(0xbe);
        data.push(0xef);
    }
    assert(data@ =~= filler(pad_to));
    data
}

/// What a transaction that is sent differs in from the others.
pub struct InjectionSeed {
    /// The secret key of the account that pays for it.
    pub payer: [u8; 32],
    /// The account that it mentions.
    pub account: Pubkey,
    pub blockhash: [u8; 32],
}

/// An account that an instruction mentions.
#[derive(Debug, Clone, Copy)]
pub struct Mention {
    pub pubkey: Pubkey,
    pub is_signer: bool,
    pub is_writable: bool,
}

/// `solana_transaction`'s `VersionedTransaction`, which is only carried through.
#[verifier::external_type_specification]
#[verifier::external_body]
pub struct ExVersionedTransaction(VersionedTransaction);

/// The transaction with one instruction that a key pays for and signs.
pub uninterp spec fn signed_transaction(
    program: Pubkey,
    mentioned: Mention,
    data: Seq<u8>,
    payer: [u8; 32],
    blockhash: [u8; 32],
) -> VersionedTransaction;

/// The bytes of a transaction, if it can be written as bytes.
pub uninterp spec fn transaction_bytes(transaction: VersionedTransaction) -> Option<Seq<u8>>;

/// `Transaction::new_signed_with_payer` of `solana_transaction`: a transaction that calls the program
/// with the data, mentions the account, and is paid for and signed by the key, in the form in which
/// versions are told apart. It would panic where somebody else had to sign too, or where there is more
/// data than the format has room for. How the accounts are ordered, and how the signature comes about,
/// is left to that function.
#[verifier::external_body]
fn sign_transaction(program: &Pubkey, mentioned: &Mention, data: &Vec<u8>, payer: &[u8; 32], blockhash: &[u8; 32]) -> (r: VersionedTransaction)
    requires
        !mentioned.is_signer,
        data@.len() <= 65535,
    ensures
        r == signed_transaction(*program, *mentioned, data@, *payer, *blockhash),
{
    let payer = Keypair::new_from_array(*payer);
    let Mention { pubkey, is_signer, is_writable } = *mentioned;
    let account = AccountMeta { pubkey: pubkey.into(), is_signer, is_writable };
    solana_transaction::Transaction::new_signed_with_payer(
        &[Instruction::new_with_bytes((*program).into(), data, vec![account])],
        Some(&payer.pubkey()),
        &[&payer],
        solana_hash::Hash::new_from_array(*blockhash),
    ).into()
}

/// What optional bytes hold.
pub open spec fn optional_bytes(bytes: Option<Vec<u8>>) -> Option<Seq<u8>> {
    match bytes {
        Some(bytes) => Some(bytes@),
        None => None,
    }
}

/// `bincode::serialize` of a `VersionedTransaction`: its bytes. Which bytes they are is left to that
/// function.
#[verifier::external_body]
fn write_transaction(transaction: VersionedTransaction) -> (r: Option<Vec<u8>>)
    ensures
        optional_bytes(r) == transaction_bytes(transaction),
{
    bincode::serialize(&transaction).ok()
}

/// The public key that belongs to a secret one.
pub uninterp spec fn pubkey_of_secret(secret: [u8; 32]) -> Pubkey;

/// `Keypair::new_from_array` of `solana_keypair`, and the `pubkey` of the pair: the public key that
/// belongs to the secret one.
#[verifier::external_body]
fn secret_pubkey(secret: &[u8; 32]) -> (r: Pubkey)
    ensures
        r == pubkey_of_secret(*secret),
{
    Keypair::new_from_array(*secret).pubkey().to_bytes()
}

/// What a secret key signs a message with.
pub uninterp spec fn signature_of(secret: [u8; 32], message: Seq<u8>) -> [u8; 64];

/// `Keypair::sign_message` of `solana_keypair`: the signature of the message under the secret key, which
/// is the same each time.
#[verifier::external_body]
fn sign_message(secret: &[u8; 32], message: &[u8]) -> (r: [u8; 64])
    ensures
        r == signature_of(*secret, message@),
{
    Keypair::new_from_array(*secret).sign_message(message).into()
}

/// What a validator answers a relayer's challenge with: the text that it signs, and the signature.
pub fn signed_challenge(secret: &[u8; 32], challenge: &str) -> (r: (String, [u8; 64]))
    ensures
        r.0@ == text_of_pubkey(pubkey_of_secret(*secret)) + "-"@ + challenge@,
        r.1 == signature_of(*secret, encode_utf8(r.0@)),
{
    let text: String = challenge_text(&secret_pubkey(secret), challenge);
    let signature: [u8; 64] = sign_message(secret, text.as_str().as_bytes());
    (text, signature)
}

/// The program that a transaction calls: the blocked one first, then the innocent one.
pub open spec fn injected_program(blocked: Pubkey, innocent: Pubkey, i: int) -> Pubkey {
    if i < TRANSACTIONS_PER_KIND {
        blocked
    } else {
        innocent
    }
}

/// An account is mentioned to be read, and does not sign.
pub open spec fn mention_of(account: Pubkey) -> Mention {
    Mention { pubkey: account, is_signer: false, is_writable: false }
}

/// A transaction to send, if it can be written as bytes.
pub open spec fn injected(
    blocked: Pubkey,
    innocent: Pubkey,
    pad_to: usize,
    seeds: Seq<InjectionSeed>,
    i: int,
) -> Option<Seq<u8>> {
    transaction_bytes(
        signed_transaction(
            injected_program(blocked, innocent, i),
            mention_of(seeds[i].account),
            filler(pad_to),
            seeds[i].payer,
            seeds[i].blockhash,
        ),
    )
}

/// The transactions to send into a relayer: some that call the blocked program, then as many that do
/// not. `None` where one of them cannot be written as bytes.
pub fn injected_transactions(
    blocked: &Pubkey,
    innocent: &Pubkey,
    pad_to: usize,
    seeds: &Vec<InjectionSeed>,
) -> (r: Option<Vec<Vec<u8>>>)
    requires
        seeds@.len() == 2 * TRANSACTIONS_PER_KIND,
        filler(pad_to).len() <= 65535,
    ensures
        match r {
            Some(wire) => {
                &&& wire@.len() == 2 * TRANSACTIONS_PER_KIND
                &&& forall|i: int|
                    0 <= i < wire@.len() ==> injected(*blocked, *innocent, pad_to, seeds@, i) == Some(
                        (#[trigger] wire@[i])@,
                    )
            },
            None => exists|i: int|
                0 <= i < 2 * TRANSACTIONS_PER_KIND && (#[trigger] injected(
                    *blocked,
                    *innocent,
                    pad_to,
                    seeds@,
                    i,
                )) is None,
        },
{
    let data: Vec<u8> = instruction_data(pad_to);
    let mut wire: Vec<Vec<u8>> = Vec::new();
    let mut i: usize = 0;
    while i < 2 * TRANSACTIONS_PER_KIND
        invariant
            i <= 2 * TRANSACTIONS_PER_KIND,
            seeds@.len() == 2 * TRANSACTIONS_PER_KIND,
            data@ == filler(pad_to),
            data@.len() <= 65535,
            wire@.len() == i,
            forall|n: int|
                0 <= n < i ==> injected(*blocked, *innocent, pad_to, seeds@, n) == Some(
                    (#[trigger] wire@[n])@,
                ),
        decreases 2 * TRANSACTIONS_PER_KIND - i,
    {
        let program: &Pubkey = if i < TRANSACTIONS_PER_KIND {
            blocked
        } else {
            innocent
        };
        let seed: &InjectionSeed = &seeds[i];
        let mentioned = Mention { pubkey: seed.account, is_signer: false, is_writable: false };
        let transaction: VersionedTransaction = sign_transaction(
            program,
            &mentioned,
            &data,
            &seed.payer,
            &seed.blockhash,
        );
        match write_transaction(transaction) {
            Some(bytes) => wire.push(bytes),
            None => {
                assert(injected(*blocked, *innocent, pad_to, seeds@, i as int) is None);
                return None;
            },
        }
        i = i + 1;
    }
    Some(wire)
}

/// Why there are no transactions to send.
#[derive(Debug, Clone, Copy, PartialEq, Eq, Structural)]
pub enum InjectionFailure {
    /// The blocked program is not given by a key that can be read.
    UnreadableProgram,
    /// A transaction has no room for that much data.
    TooMuchData,
    /// A transaction cannot be written as bytes.
    Unwritable,
}

/// The transactions to send into a relayer, where the blocked program is given as text.
pub fn injected_from_text(
    blocked_program: &str,
    innocent: &Pubkey,
    pad_to: usize,
    seeds: &Vec<InjectionSeed>,
) -> (r: Result<Vec<Vec<u8>>, InjectionFailure>)
    requires
        seeds@.len() == 2 * TRANSACTIONS_PER_KIND,
    ensures
        match (pubkey_of_text(blocked_program@), r) {
            (None, r) => r == Err::<Vec<Vec<u8>>, _>(InjectionFailure::UnreadableProgram),
            (Some(blocked), r) => if filler(pad_to).len() > 65535 {
                r == Err::<Vec<Vec<u8>>, _>(InjectionFailure::TooMuchData)
            } else {
                match r {
                    Ok(wire) => {
                        &&& wire@.len() == 2 * TRANSACTIONS_PER_KIND
                        &&& forall|i: int|
                            0 <= i < wire@.len() ==> injected(
                                blocked,
                                *innocent,
                                pad_to,
                                seeds@,
                                i,
                            ) == Some((#[trigger] wire@[i])@)
                    },
                    Err(failure) => {
                        &&& failure == InjectionFailure::Unwritable
                        &&& exists|i: int|
                            0 <= i < 2 * TRANSACTIONS_PER_KIND && (#[trigger] injected(
                                blocked,
                                *innocent,
                                pad_to,
                                seeds@,
                                i,
                            )) is None
                    },
                }
            },
        },
{
    let blocked: Pubkey = match parse_pubkey(blocked_program) {
        Some(blocked) => blocked,
        None => return Err(InjectionFailure::UnreadableProgram),
    };
    if pad_to > TRANSACTION_OVERHEAD && pad_to - TRANSACTION_OVERHEAD > 65535 {
        return Err(InjectionFailure::TooMuchData);
    }
    match injected_transactions(&blocked, innocent, pad_to, seeds) {
        Some(wire) => Ok(wire),
        None => Err(InjectionFailure::Unwritable),
    }
}

/// Where the strict validator's policy is in force, it drops every transaction that so much as
/// mentions the program it blocks.
pub proof fn law_blocking_policy_drops_the_program(
    program: Seq<char>,
    key: Pubkey,
    summary: SummaryView,
)
    requires
        pubkey_of_text(program) == Some(key),
        summary.account_keys.contains(key),
    ensures
        verdict(filter_of(blocking(program)), summary) == Some(PbpDrop::Program),
        filter_of(blocking(program)) != empty_filter(),
{
    let filter = filter_of(blocking(program));
    assert(blocking(program).programs[0] == program);
    assert(names(blocking(program).programs[0], key));
    assert(filter.programs.contains(key));
    assert(filter.addresses =~= Set::<Pubkey>::empty());
    law_referenced_program_is_dropped(filter, summary, key);
    lemma_no_address_verdict(filter, summary.account_keys);
}

proof fn lemma_no_address_verdict(filter: FilterView, keys: Seq<Pubkey>)
    requires
        filter.addresses == Set::<Pubkey>::empty(),
    ensures
        key_verdict(filter, keys) != Some(PbpDrop::Address),
    decreases keys.len(),
{
    if keys.len() > 0 {
        lemma_no_address_verdict(filter, keys.drop_first());
    }
}

/// An address asks for a secured connection exactly if it starts with `https`.
pub proof fn law_https_is_secured(url: Seq<char>)
    ensures
        secured(url) <==> url.len() >= 5 && url[0] == 'h' && url[1] == 't' && url[2] == 't'
            && url[3] == 'p' && url[4] == 's',
{
    let tag = seq!['h', 't', 't', 'p', 's'];
    if secured(url) {
        assert(tag =~= url.subrange(0, 5));
        assert(tag[0] == url[0] && tag[1] == url[1] && tag[2] == url[2] && tag[3] == url[3]
            && tag[4] == url[4]);
    } else if url.len() >= 5 && url[0] == 'h' && url[1] == 't' && url[2] == 't' && url[3] == 'p'
        && url[4] == 's' {
        assert(tag =~= url.subrange(0, 5));
    }
}

/// What each message counts: a batch as one and its packets one by one, a heartbeat as one, and a response
/// without a message nothing.
pub proof fn law_what_a_message_counts(counts: StreamCounts, packets: usize)
    ensures
        counts.batches < u64::MAX && counts.packets + packets <= u64::MAX ==> {
            let after = counted(counts, StreamMessage::Batch(packets));
            &&& after.batches == counts.batches + 1
            &&& after.packets == counts.packets + packets
            &&& after.heartbeats == counts.heartbeats
        },
        counts.heartbeats < u64::MAX ==> {
            let after = counted(counts, StreamMessage::Heartbeat);
            &&& after.batches == counts.batches
            &&& after.packets == counts.packets
            &&& after.heartbeats == counts.heartbeats + 1
        },
        counted(counts, StreamMessage::Nothing) == counts,
{
}

/// The strict policy lists the program and no address, and one rule for all instructions of the program.
pub proof fn law_what_the_strict_policy_lists(program: Seq<char>)
    ensures
        blocking(program).allow_aggressive_mev,
        blocking(program).addresses.len() == 0,
        blocking(program).programs == seq![program],
        blocking(program).rules.len() == 1,
        blocking(program).rules[0].program_id == program,
        blocking(program).rules[0].data_prefixes.len() == 0,
{
}

/// The data of an instruction are four bytes, or as many as bring a transaction with 200 other bytes to
/// the size asked for.
pub proof fn law_padding_brings_to_size(pad_to: usize, i: int)
    ensures
        pad_to == 0 ==> filler(pad_to) == seq![0xdeu8, 0xadu8, 0xbeu8, 0xefu8],
        pad_to >= 200 ==> filler(pad_to).len() + 200 == pad_to,
        0 < pad_to < 200 ==> filler(pad_to).len() == 0,
        pad_to > 0 && 0 <= i < filler(pad_to).len() ==> filler(pad_to)[i] == 0xab,
        TRANSACTIONS_PER_KIND == 5,
        TRANSACTION_OVERHEAD == 200,
{
}

/// The first five transactions call the blocked program and the others the innocent one; each is made of
/// its own seed, and mentions an account to be read that does not sign.
pub proof fn law_what_is_sent(
    blocked: Pubkey,
    innocent: Pubkey,
    pad_to: usize,
    seeds: Seq<InjectionSeed>,
    i: int,
    bytes: Option<Vec<u8>>,
)
    ensures
        ({
            let mentioned = Mention {
                pubkey: seeds[i].account,
                is_signer: false,
                is_writable: false,
            };
            &&& i < 5 ==> injected(blocked, innocent, pad_to, seeds, i) == transaction_bytes(
                signed_transaction(
                    blocked,
                    mentioned,
                    filler(pad_to),
                    seeds[i].payer,
                    seeds[i].blockhash,
                ),
            )
            &&& i >= 5 ==> injected(blocked, innocent, pad_to, seeds, i) == transaction_bytes(
                signed_transaction(
                    innocent,
                    mentioned,
                    filler(pad_to),
                    seeds[i].payer,
                    seeds[i].blockhash,
                ),
            )
        }),
        bytes matches Some(some) ==> optional_bytes(bytes) == Some(some@),
        bytes is None ==> optional_bytes(bytes) is None,
{
}

} // verus!
