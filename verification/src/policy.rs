//! The policies that validators push, and how the relayer holds them.
//!
//! A relayer forwards the same packet batch to every validator whose leader slot is near, so a drop
//! has to be attributable to the validator it is being made for. The validator is the party
//! accountable for its own block; nothing here comes from a relayer-local config file.

use vstd::multiset::Multiset;
use vstd::prelude::*;
use vstd::utf8::encode_utf8;

use dashmap::DashMap;

use crate::digest::{digest_of, law_digest_ignores_order, policy_digest};
use crate::hex::{bytes_of_hex, decode_hex};
use crate::order::views;
use crate::pbp::{empty_filter, law_blocked_instruction_is_dropped, law_empty_policy_lists_nothing, law_first_listed_account_decides, summary_of, verdict, FilterView, PbpFilter, SummaryView};
use crate::pubkey::{parse_pubkey, pubkey_of_text, Pubkey, PubkeyMap, PubkeySet};
use crate::tx_decode::TransactionView;

verus! {

/// How long a pushed policy stays in force without a refresh, in nanoseconds.
///
/// Expiry stops enforcing, it does not start dropping: losing a validator's policy must never cost
/// that validator its order flow.
pub const POLICY_TTL_NS: u64 = 300_000_000_000;

/// A rule on the instructions of one program.
pub struct InstructionRule {
    /// The program, in base58.
    pub program_id: String,
    /// Prefixes of the instruction data, in hexadecimal.
    pub data_prefixes: Vec<String>,
}

/// A policy as a validator pushes it.
pub struct PbpPolicy {
    /// A preference for the block engine. The relayer sees individual packets, and has nothing to
    /// enforce by it.
    pub allow_aggressive_mev: bool,
    pub address_blacklist: Vec<String>,
    pub program_blacklist: Vec<String>,
    pub instruction_blacklist: Vec<InstructionRule>,
}

/// What an [`InstructionRule`] holds.
pub struct RuleView {
    pub program_id: Seq<char>,
    pub data_prefixes: Seq<Seq<char>>,
}

/// What a [`PbpPolicy`] holds.
pub struct PolicyView {
    pub allow_aggressive_mev: bool,
    pub addresses: Seq<Seq<char>>,
    pub programs: Seq<Seq<char>>,
    pub rules: Seq<RuleView>,
}

/// The characters of each text.
pub open spec fn texts(list: Seq<String>) -> Seq<Seq<char>> {
    list.map_values(|s: String| s@)
}

impl View for InstructionRule {
    type V = RuleView;

    open spec fn view(&self) -> RuleView {
        RuleView { program_id: self.program_id@, data_prefixes: texts(self.data_prefixes@) }
    }
}

impl View for PbpPolicy {
    type V = PolicyView;

    open spec fn view(&self) -> PolicyView {
        PolicyView {
            allow_aggressive_mev: self.allow_aggressive_mev,
            addresses: texts(self.address_blacklist@),
            programs: texts(self.program_blacklist@),
            rules: self.instruction_blacklist@.map_values(|r: InstructionRule| r@),
        }
    }
}

/// The keys that the texts name. A text that names none is skipped.
pub open spec fn named_keys(list: Seq<Seq<char>>) -> Set<Pubkey> {
    Set::new(|k: Pubkey| exists|i: int| 0 <= i < list.len() && names(#[trigger] list[i], k))
}

/// The text names the key.
pub open spec fn names(text: Seq<char>, key: Pubkey) -> bool {
    pubkey_of_text(text) == Some(key)
}

/// The bytes that a hexadecimal text stands for, if it stands for any.
pub open spec fn prefix_of_text(text: Seq<char>) -> Option<Seq<u8>> {
    bytes_of_hex(encode_utf8(text))
}

/// The byte strings that the texts stand for. A text that stands for none is skipped.
pub open spec fn prefixes_of(list: Seq<Seq<char>>) -> Seq<Seq<u8>> {
    list.filter(|t: Seq<char>| prefix_of_text(t) is Some).map_values(
        |t: Seq<char>| prefix_of_text(t)->0,
    )
}

/// The rule is one on the program, and has no prefixes or one that can be read. A rule of whose
/// prefixes none can be read would silently widen to match everything, which is the opposite of
/// what was asked for.
pub open spec fn applies(rule: RuleView, program: Pubkey) -> bool {
    &&& names(rule.program_id, program)
    &&& rule.data_prefixes.len() == 0 || prefixes_of(rule.data_prefixes).len() > 0
}

/// The rules on a program.
pub open spec fn rules_on(rules: Seq<RuleView>, program: Pubkey) -> Seq<RuleView> {
    rules.filter(|r: RuleView| applies(r, program))
}

/// The prefixes of all the rules on a program.
pub open spec fn merged(rules: Seq<RuleView>, program: Pubkey) -> Seq<Seq<u8>> {
    rules_on(rules, program).map_values(|r: RuleView| prefixes_of(r.data_prefixes)).flatten()
}

/// The prefixes by program.
pub open spec fn rule_map(rules: Seq<RuleView>) -> Map<Pubkey, Seq<Seq<u8>>> {
    Map::new(|k: Pubkey| rules_on(rules, k).len() > 0, |k: Pubkey| merged(rules, k))
}

/// What the relayer enforces of a policy.
pub open spec fn filter_of(policy: PolicyView) -> FilterView {
    FilterView {
        addresses: named_keys(policy.addresses),
        programs: named_keys(policy.programs),
        rules: rule_map(policy.rules),
    }
}

/// The keys that the texts name. A text that names none is skipped.
pub fn parse_set(values: &Vec<String>) -> (r: PubkeySet)
    ensures
        r@ == named_keys(texts(values@)),
{
    let ghost list = texts(values@);
    let mut set: PubkeySet = PubkeySet::new();
    let mut i: usize = 0;
    assert(set@ =~= named_keys(list.take(0)));
    while i < values.len()
        invariant
            i <= values@.len(),
            list == texts(values@),
            set@ == named_keys(list.take(i as int)),
        decreases values@.len() - i,
    {
        let ghost some = list.take(i as int);
        let ghost more = list.take(i + 1);
        assert(more =~= some.push(list[i as int]));
        assert(list[i as int] == values@[i as int]@);
        assert(more[i as int] == list[i as int]);
        let ghost was = set@;
        if let Some(key) = parse_pubkey(values[i].as_str()) {
            set.insert(key);
            proof {
                assert(names(more[i as int], key));
                assert forall|k: Pubkey| named_keys(more).contains(k) <==> was.insert(
                    key,
                ).contains(k) by {
                    lemma_named_push(some, list[i as int], k);
                }
                assert(set@ =~= named_keys(more));
            }
        } else {
            proof {
                assert forall|k: Pubkey| named_keys(more).contains(k) <==> was.contains(k) by {
                    lemma_named_push(some, list[i as int], k);
                }
                assert(set@ =~= named_keys(more));
            }
        }
        i = i + 1;
    }
    assert(list.take(values@.len() as int) =~= list);
    set
}

proof fn lemma_named_push(list: Seq<Seq<char>>, text: Seq<char>, key: Pubkey)
    ensures
        named_keys(list.push(text)).contains(key) <==> (named_keys(list).contains(key) || names(
            text,
            key,
        )),
{
    let more = list.push(text);
    if named_keys(list).contains(key) {
        let j = choose|j: int| 0 <= j < list.len() && names(#[trigger] list[j], key);
        assert(more[j] == list[j]);
    }
    if names(text, key) {
        assert(more[list.len() as int] == text);
    }
    if named_keys(more).contains(key) && !names(text, key) {
        let j = choose|j: int| 0 <= j < more.len() && names(#[trigger] more[j], key);
        assert(list[j] == more[j]);
    }
}

/// The byte strings that the texts stand for.
fn parse_prefixes(values: &Vec<String>) -> (r: Vec<Vec<u8>>)
    ensures
        views(r@) == prefixes_of(texts(values@)),
{
    let ghost list = texts(values@);
    let ghost good = |t: Seq<char>| prefix_of_text(t) is Some;
    let ghost read = |t: Seq<char>| prefix_of_text(t)->0;
    let mut prefixes: Vec<Vec<u8>> = Vec::new();
    let mut i: usize = 0;
    assert(views(prefixes@) =~= prefixes_of(list.take(0))) by {
        reveal(Seq::filter);
    }
    while i < values.len()
        invariant
            i <= values@.len(),
            list == texts(values@),
            good == (|t: Seq<char>| prefix_of_text(t) is Some),
            read == (|t: Seq<char>| prefix_of_text(t)->0),
            views(prefixes@) == prefixes_of(list.take(i as int)),
        decreases values@.len() - i,
    {
        let ghost some = list.take(i as int);
        let ghost text = list[i as int];
        let ghost was = prefixes@;
        proof {
            assert(list.take(i + 1) =~= some.push(text));
            assert(text == values@[i as int]@);
            some.lemma_filter_push(text, good);
        }
        if let Some(bytes) = decode_hex(values[i].as_str()) {
            prefixes.push(bytes);
            proof {
                assert(views(prefixes@) =~= views(was).push(bytes@));
                assert(some.filter(good).push(text).map_values(read) =~= some.filter(
                    good,
                ).map_values(read).push(bytes@));
            }
        }
        i = i + 1;
    }
    assert(list.take(values@.len() as int) =~= list);
    prefixes
}

/// A rule that is on the program is added at the end of those on it; any other changes nothing.
proof fn lemma_rules_push(rules: Seq<RuleView>, rule: RuleView, program: Pubkey)
    ensures
        rules_on(rules.push(rule), program) == (if applies(rule, program) {
            rules_on(rules, program).push(rule)
        } else {
            rules_on(rules, program)
        }),
        merged(rules.push(rule), program) == (if applies(rule, program) {
            merged(rules, program) + prefixes_of(rule.data_prefixes)
        } else {
            merged(rules, program)
        }),
{
    rules.lemma_filter_push(rule, |r: RuleView| applies(r, program));
    if applies(rule, program) {
        let f = |r: RuleView| prefixes_of(r.data_prefixes);
        let on = rules_on(rules, program);
        assert(on.push(rule).map_values(f) =~= on.map_values(f).push(f(rule)));
        on.map_values(f).lemma_flatten_push(f(rule));
    }
}

proof fn lemma_no_rules(program: Pubkey)
    ensures
        rules_on(Seq::empty(), program).len() == 0,
        merged(Seq::empty(), program) == Seq::<Seq<u8>>::empty(),
{
    reveal(Seq::filter);
    let f = |r: RuleView| prefixes_of(r.data_prefixes);
    assert(rules_on(Seq::empty(), program) =~= Seq::<RuleView>::empty());
    assert(rules_on(Seq::empty(), program).map_values(f) =~= Seq::<Seq<Seq<u8>>>::empty());
}

/// The prefixes by program.
fn parse_rules(rules: &Vec<InstructionRule>) -> (r: PubkeyMap<Vec<Vec<u8>>>)
    ensures
        r@.map_values(|list: Vec<Vec<u8>>| views(list@)) == rule_map(
            rules@.map_values(|r: InstructionRule| r@),
        ),
{
    let ghost list = rules@.map_values(|r: InstructionRule| r@);
    let ghost as_rule = |list: Vec<Vec<u8>>| views(list@);
    let mut map: PubkeyMap<Vec<Vec<u8>>> = PubkeyMap::new();
    let mut i: usize = 0;
    proof {
        assert forall|k: Pubkey| rules_on(#[trigger] list.take(0), k).len() == 0 by {
            lemma_no_rules(k);
            assert(list.take(0) =~= Seq::<RuleView>::empty());
        }
        assert(map@.map_values(as_rule) =~= rule_map(list.take(0)));
    }
    while i < rules.len()
        invariant
            i <= rules@.len(),
            list == rules@.map_values(|r: InstructionRule| r@),
            as_rule == (|list: Vec<Vec<u8>>| views(list@)),
            map@.map_values(as_rule) == rule_map(list.take(i as int)),
        decreases rules@.len() - i,
    {
        let rule: &InstructionRule = &rules[i];
        let ghost some = list.take(i as int);
        let ghost before = map@;
        proof {
            assert(list.take(i + 1) =~= some.push(rule@));
            assert forall|k: Pubkey| #[trigger] rule_map(some.push(rule@)).contains_key(k) == (
            rule_map(some).contains_key(k) || applies(rule@, k)) by {
                lemma_rules_push(some, rule@, k);
            }
            assert forall|k: Pubkey| #[trigger] rule_map(some.push(rule@)).contains_key(k) implies (
            applies(rule@, k) || rule_map(some.push(rule@))[k] == rule_map(some)[k]) by {
                lemma_rules_push(some, rule@, k);
            }
        }
        if let Some(program_id) = parse_pubkey(rule.program_id.as_str()) {
            let mut prefixes: Vec<Vec<u8>> = parse_prefixes(&rule.data_prefixes);
            assert(views(prefixes@) == prefixes_of(rule@.data_prefixes));
            if prefixes.len() > 0 || rule.data_prefixes.len() == 0 {
                assert(applies(rule@, program_id));
                let ghost added = views(prefixes@);
                let mut merged_prefixes: Vec<Vec<u8>> = match map.remove(&program_id) {
                    Some(list) => list,
                    None => Vec::new(),
                };
                let ghost had = merged_prefixes@;
                merged_prefixes.append(&mut prefixes);
                proof {
                    assert(views(merged_prefixes@) =~= views(had) + added);
                    lemma_rules_push(some, rule@, program_id);
                    if before.contains_key(program_id) {
                        assert(before.map_values(as_rule)[program_id] == views(had));
                    } else {
                        assert(!before.map_values(as_rule).contains_key(program_id));
                        let f = |r: RuleView| prefixes_of(r.data_prefixes);
                        assert(rules_on(some, program_id) =~= Seq::<RuleView>::empty());
                        assert(rules_on(some, program_id).map_values(f) =~= Seq::<
                            Seq<Seq<u8>>,
                        >::empty());
                        assert(merged(some, program_id) =~= Seq::<Seq<u8>>::empty());
                        assert(views(had) =~= Seq::<Seq<u8>>::empty());
                    }
                    assert(views(merged_prefixes@) == merged(some.push(rule@), program_id));
                }
                map.insert(program_id, merged_prefixes);
                proof {
                    assert forall|k: Pubkey| map@.map_values(as_rule).contains_key(k) <==> rule_map(
                        some.push(rule@),
                    ).contains_key(k) by {
                        assert(before.map_values(as_rule).contains_key(k) == rule_map(
                            some,
                        ).contains_key(k));
                    }
                    assert forall|k: Pubkey| map@.map_values(as_rule).contains_key(k) implies map@.map_values(
                        as_rule,
                    )[k] == #[trigger] rule_map(some.push(rule@))[k] by {
                        if k != program_id {
                            assert(rule_map(some.push(rule@)).contains_key(k));
                            assert(before.map_values(as_rule).contains_key(k));
                            assert(before.map_values(as_rule)[k] == rule_map(some)[k]);
                        }
                    }
                    assert(map@.map_values(as_rule) =~= rule_map(some.push(rule@)));
                }
            } else {
                proof {
                    law_unusable_rule_is_skipped(some, rule@);
                }
            }
        } else {
            proof {
                law_unusable_rule_is_skipped(some, rule@);
            }
        }
        i = i + 1;
    }
    assert(list.take(rules@.len() as int) =~= list);
    map
}

/// What the relayer enforces of a policy. Unparseable entries are skipped rather than rejecting the
/// whole policy, so one bad key in a list cannot leave the previous policy in force by accident.
pub fn filter_from_policy(policy: &PbpPolicy) -> (r: PbpFilter)
    ensures
        r@ == filter_of(policy@),
{
    PbpFilter {
        address_blacklist: parse_set(&policy.address_blacklist),
        program_blacklist: parse_set(&policy.program_blacklist),
        instruction_blacklist: parse_rules(&policy.instruction_blacklist),
    }
}

/// A policy as the relayer holds it.
pub struct StoredPolicy {
    pub filter: PbpFilter,
    /// Refreshed on every push, in nanoseconds of a clock that never goes back. A policy that stops
    /// being refreshed expires, because the relayer has no standing to keep dropping on an
    /// authority that has gone quiet.
    pub updated_at: u64,
    pub digest: String,
}

/// What a [`StoredPolicy`] holds.
pub struct StoredView {
    pub filter: FilterView,
    pub updated_at: u64,
    pub digest: Seq<char>,
}

impl View for StoredPolicy {
    type V = StoredView;

    open spec fn view(&self) -> StoredView {
        StoredView { filter: self.filter@, updated_at: self.updated_at, digest: self.digest@ }
    }
}

impl Clone for StoredPolicy {
    fn clone(&self) -> (r: Self)
        ensures
            r@ == self@,
    {
        StoredPolicy {
            filter: self.filter.clone(),
            updated_at: self.updated_at,
            digest: self.digest.clone(),
        }
    }
}

/// Policies by the identity of the validator that pushed them, as they are handed over.
pub type PolicyMap = DashMap<Pubkey, StoredPolicy>;

/// The policies that a map holds.
pub uninterp spec fn stored_policies(map: PolicyMap) -> Map<Pubkey, StoredView>;

/// `DashMap::get` on the policies: another copy of the policy that stands under the key, or nothing
/// where none does. What it says holds of a map that nobody writes to meanwhile: the one in
/// [`ValidatorPolicies`] is out of reach of anyone else, and is written to only through an exclusive
/// reference.
#[verifier::external_body]
fn stored_policy(map: &PolicyMap, key: &Pubkey) -> (r: Option<StoredPolicy>)
    ensures
        match r {
            Some(policy) => stored_policies(*map).contains_key(*key) && stored_policies(*map)[*key]
                == policy@,
            None => !stored_policies(*map).contains_key(*key),
        },
{
    map.get(key).map(|policy| policy.value().clone())
}

/// `DashMap::insert` on the policies: the policy stands under the key, in place of the one that
/// stood there before, and the others stay as they were.
#[verifier::external_body]
fn store_policy(map: &mut PolicyMap, key: Pubkey, policy: StoredPolicy)
    ensures
        stored_policies(*final(map)) == stored_policies(*old(map)).insert(key, policy@),
{
    map.insert(key, policy);
}

/// `DashMap::iter` on the policies, for the keys alone: each key once, in an order that nothing is
/// known of. As with the policies themselves, of a map that nobody writes to meanwhile.
#[verifier::external_body]
fn policy_holders(map: &PolicyMap) -> (r: Vec<Pubkey>)
    ensures
        r@.no_duplicates(),
        r@.to_set() == stored_policies(*map).dom(),
{
    map.iter().map(|entry| *entry.key()).collect()
}

/// The policies that have been pushed, by the identity of the validator that pushed them.
pub struct ValidatorPolicies {
    map: PolicyMap,
}

impl View for ValidatorPolicies {
    type V = Map<Pubkey, StoredView>;

    closed spec fn view(&self) -> Map<Pubkey, StoredView> {
        stored_policies(self.map)
    }
}

impl ValidatorPolicies {
    /// The policies of a map, which nobody else can write to from then on.
    pub fn from_map(map: PolicyMap) -> (r: Self)
        ensures
            r@ == stored_policies(map),
    {
        ValidatorPolicies { map }
    }

    /// The policy that a validator pushed, be it in force or not.
    pub fn get(&self, key: &Pubkey) -> (r: Option<StoredPolicy>)
        ensures
            match r {
                Some(policy) => self@.contains_key(*key) && self@[*key] == policy@,
                None => !self@.contains_key(*key),
            },
    {
        stored_policy(&self.map, key)
    }
}

/// The policy has been refreshed recently enough to be enforced.
pub open spec fn in_force(policy: StoredView, now: u64) -> bool {
    now - policy.updated_at < POLICY_TTL_NS
}

/// The policy to enforce for a validator: the one it pushed, while it is in force, if it lists
/// anything.
pub open spec fn live_filter(stored: Map<Pubkey, StoredView>, key: Pubkey, now: u64) -> Option<
    FilterView,
> {
    if stored.contains_key(key) && in_force(stored[key], now) && stored[key].filter
        != empty_filter() {
        Some(stored[key].filter)
    } else {
        None
    }
}

/// The validators whose policy is in force, be they connected or not, and whether or not the policy
/// lists anything.
pub open spec fn holders_in_force(stored: Map<Pubkey, StoredView>, now: u64) -> Set<Pubkey> {
    stored.dom().filter(|k: Pubkey| in_force(stored[k], now))
}

fn is_in_force(policy: &StoredPolicy, now: u64) -> (r: bool)
    ensures
        r == in_force(policy@, now),
{
    now < policy.updated_at || now - policy.updated_at < POLICY_TTL_NS
}

/// The policy to enforce for a validator at this time, if there is one. A policy that stopped being
/// refreshed stops being enforced.
pub fn live_policy(policies: &ValidatorPolicies, key: &Pubkey, now: u64) -> (r: Option<PbpFilter>)
    ensures
        match r {
            Some(filter) => live_filter(policies@, *key, now) == Some(filter@),
            None => live_filter(policies@, *key, now) is None,
        },
{
    match policies.get(key) {
        Some(policy) => if is_in_force(&policy, now) && !policy.filter.is_empty() {
            Some(policy.filter)
        } else {
            None
        },
        None => None,
    }
}

/// How many validators have a policy in force at this time: one that has not expired, even if it lists
/// nothing, and even if the validator is not connected.
pub fn count_in_force(policies: &ValidatorPolicies, now: u64) -> (r: usize)
    ensures
        r == holders_in_force(policies@, now).len(),
        policies@.dom().finite(),
{
    let ghost stored = policies@;
    let holders: Vec<Pubkey> = policy_holders(&policies.map);
    let ghost keeps = |k: Pubkey| in_force(stored[k], now);
    let mut count: usize = 0;
    let mut i: usize = 0;
    proof {
        vstd::seq_lib::seq_to_set_is_finite(holders@);
        assert(holders@.take(0).to_set().filter(keeps) =~= Set::<Pubkey>::empty());
    }
    while i < holders.len()
        invariant
            i <= holders@.len(),
            stored == policies@,
            keeps == (|k: Pubkey| in_force(stored[k], now)),
            holders@.no_duplicates(),
            holders@.to_set() == stored.dom(),
            holders@.take(i as int).to_set().filter(keeps).finite(),
            count == holders@.take(i as int).to_set().filter(keeps).len(),
            count <= i,
        decreases holders@.len() - i,
    {
        let ghost key = holders@[i as int];
        let ghost some = holders@.take(i as int);
        let ghost more = holders@.take(i + 1);
        proof {
            assert(more =~= some.push(key));
            assert(!some.contains(key)) by {
                if some.contains(key) {
                    let j = choose|j: int| 0 <= j < some.len() && some[j] == key;
                    assert(holders@[j] == holders@[i as int]);
                }
            }
            assert(holders@.to_set().contains(key));
            assert(more[i as int] == key);
            assert forall|k: Pubkey| more.to_set().contains(k) <==> some.to_set().insert(
                key,
            ).contains(k) by {
                if some.contains(k) {
                    let j = choose|j: int| 0 <= j < some.len() && some[j] == k;
                    assert(more[j] == k);
                }
            }
            if keeps(key) {
                assert(more.to_set().filter(keeps) =~= some.to_set().filter(keeps).insert(key));
            } else {
                assert(more.to_set().filter(keeps) =~= some.to_set().filter(keeps));
            }
        }
        if let Some(policy) = policies.get(&holders[i]) {
            if is_in_force(&policy, now) {
                count = count + 1;
            }
        }
        i = i + 1;
    }
    assert(holders@.take(holders@.len() as int) =~= holders@);
    count
}

/// What is stored of a policy that is pushed now.
pub open spec fn stored_of(policy: PolicyView, now: u64) -> StoredView {
    StoredView { filter: filter_of(policy), updated_at: now, digest: digest_of(filter_of(policy)) }
}

/// Stores the policy that a validator pushes, under its own identity, in place of any that it
/// pushed before. Returns the digest of what was actually stored, which is what the validator
/// compares against the engine's digest to catch the two drifting apart.
pub fn push_policy(
    policies: &mut ValidatorPolicies,
    pubkey: Pubkey,
    policy: &PbpPolicy,
    now: u64,
) -> (r: String)
    ensures
        final(policies)@ == old(policies)@.insert(
            pubkey,
            stored_of(policy@, now),
        ),
        r@ == digest_of(filter_of(policy@)),
{
    let filter: PbpFilter = filter_from_policy(policy);
    let digest: String = policy_digest(&filter);
    let answer: String = digest.clone();
    store_policy(&mut policies.map, pubkey, StoredPolicy { filter, updated_at: now, digest });
    answer
}

/// A push speaks for its sender alone: no other validator's policy changes by it, so none can be
/// made to drop by rules that it never agreed to.
pub proof fn law_push_is_for_the_sender_alone(
    stored: Map<Pubkey, StoredView>,
    sender: Pubkey,
    policy: PolicyView,
    other: Pubkey,
    pushed_at: u64,
    now: u64,
)
    requires
        sender != other,
    ensures
        ({
            let after = stored.insert(sender, stored_of(policy, pushed_at));
            &&& after.contains_key(other) == stored.contains_key(other)
            &&& stored.contains_key(other) ==> after[other] == stored[other]
            &&& live_filter(after, other, now) == live_filter(stored, other, now)
        }),
{
}

/// What was pushed is what is enforced, from the push until it has gone unrefreshed for the time
/// that a policy lives; from then on nothing is enforced.
pub proof fn law_pushed_policy_is_enforced_until_it_expires(
    stored: Map<Pubkey, StoredView>,
    sender: Pubkey,
    policy: PolicyView,
    pushed_at: u64,
    now: u64,
)
    requires
        pushed_at <= now,
    ensures
        ({
            let after = stored.insert(sender, stored_of(policy, pushed_at));
            let live = live_filter(after, sender, now);
            &&& now - pushed_at < POLICY_TTL_NS && filter_of(policy) != empty_filter() ==> live
                == Some(filter_of(policy))
            &&& now - pushed_at >= POLICY_TTL_NS ==> live is None
            &&& filter_of(policy) == empty_filter() ==> live is None
        }),
{
}

/// The rule is on some program, and has no prefixes or one that can be read.
pub open spec fn usable(rule: RuleView) -> bool {
    &&& pubkey_of_text(rule.program_id) is Some
    &&& rule.data_prefixes.len() == 0 || prefixes_of(rule.data_prefixes).len() > 0
}

/// The program of a rule, and the prefixes that can be read, in whatever order.
pub open spec fn usable_rule(rule: RuleView) -> (Pubkey, Multiset<Seq<u8>>) {
    (pubkey_of_text(rule.program_id)->0, prefixes_of(rule.data_prefixes).to_multiset())
}

/// The rules that are usable, one by one.
pub open spec fn usable_list(rules: Seq<RuleView>) -> Seq<(Pubkey, Multiset<Seq<u8>>)> {
    rules.filter(|r: RuleView| usable(r)).map_values(|r: RuleView| usable_rule(r))
}

/// The policies list the same, however they are written: the same keys can be read from them, and the
/// same rules, each as often. Entries that cannot be read may differ, and so may the order.
pub open spec fn list_the_same(a: PolicyView, b: PolicyView) -> bool {
    &&& named_keys(a.addresses) == named_keys(b.addresses)
    &&& named_keys(a.programs) == named_keys(b.programs)
    &&& usable_list(a.rules).to_multiset() == usable_list(b.rules).to_multiset()
}

/// The prefixes of the rules on a program, taken together.
spec fn total_prefixes(list: Seq<(Pubkey, Multiset<Seq<u8>>)>, program: Pubkey) -> Multiset<
    Seq<u8>,
>
    decreases list.len(),
{
    if list.len() == 0 {
        Multiset::empty()
    } else {
        total_prefixes(list.drop_last(), program).add(share(list.last(), program))
    }
}

/// What one rule adds to the prefixes on a program.
spec fn share(rule: (Pubkey, Multiset<Seq<u8>>), program: Pubkey) -> Multiset<Seq<u8>> {
    if rule.0 == program {
        rule.1
    } else {
        Multiset::empty()
    }
}

/// Some rule is on the program.
spec fn has_rule(list: Seq<(Pubkey, Multiset<Seq<u8>>)>, program: Pubkey) -> bool {
    exists|i: int| 0 <= i < list.len() && (#[trigger] list[i]).0 == program
}

proof fn lemma_usable_list(rules: Seq<RuleView>, program: Pubkey)
    ensures
        merged(rules, program).to_multiset() == total_prefixes(usable_list(rules), program),
        rule_map(rules).contains_key(program) == has_rule(usable_list(rules), program),
    decreases rules.len(),
{
    broadcast use vstd::multiset::group_multiset_axioms;

    let good = |r: RuleView| usable(r);
    let f = |r: RuleView| usable_rule(r);
    if rules.len() == 0 {
        assert(rules =~= Seq::<RuleView>::empty());
        lemma_no_rules(program);
        assert(usable_list(rules).len() == 0) by {
            reveal(Seq::filter);
        }
        broadcast use vstd::seq_lib::group_to_multiset_ensures;

        assert(merged(rules, program).to_multiset() =~= Multiset::empty());
    } else {
        let init = rules.drop_last();
        let rule = rules.last();
        assert(rules =~= init.push(rule));
        lemma_usable_list(init, program);
        lemma_rules_push(init, rule, program);
        init.lemma_filter_push(rule, good);
        let before = usable_list(init);
        let after = usable_list(rules);
        if usable(rule) {
            assert(after =~= before.push(usable_rule(rule)));
            assert(after.drop_last() =~= before);
            if has_rule(before, program) {
                let i = choose|i: int| 0 <= i < before.len() && (#[trigger] before[i]).0 == program;
                assert(after[i] == before[i]);
            }
            if has_rule(after, program) && usable_rule(rule).0 != program {
                let i = choose|i: int| 0 <= i < after.len() && (#[trigger] after[i]).0 == program;
                assert(before[i] == after[i]);
            }
            if usable_rule(rule).0 == program {
                assert(after[before.len() as int].0 == program);
                assert(applies(rule, program));
                vstd::seq_lib::lemma_multiset_commutative(
                    merged(init, program),
                    prefixes_of(rule.data_prefixes),
                );
            } else {
                assert(!applies(rule, program));
            }
            assert(merged(rules, program).to_multiset() =~= total_prefixes(after, program));
        } else {
            assert(!applies(rule, program));
            assert(after =~= before);
        }
    }
}

proof fn lemma_total_without(list: Seq<(Pubkey, Multiset<Seq<u8>>)>, i: int, program: Pubkey)
    requires
        0 <= i < list.len(),
    ensures
        total_prefixes(list, program) == total_prefixes(list.remove(i), program).add(
            share(list[i], program),
        ),
    decreases list.len(),
{
    broadcast use vstd::multiset::group_multiset_axioms;

    if i < list.len() - 1 {
        lemma_total_without(list.drop_last(), i, program);
        assert(list.remove(i).drop_last() =~= list.drop_last().remove(i));
        assert(list.remove(i).last() == list.last());
        assert(total_prefixes(list, program) =~= total_prefixes(list.remove(i), program).add(
            share(list[i], program),
        ));
    } else {
        assert(list.remove(i) =~= list.drop_last());
    }
}

proof fn lemma_total_same(
    a: Seq<(Pubkey, Multiset<Seq<u8>>)>,
    b: Seq<(Pubkey, Multiset<Seq<u8>>)>,
    program: Pubkey,
)
    requires
        a.to_multiset() == b.to_multiset(),
    ensures
        total_prefixes(a, program) == total_prefixes(b, program),
        has_rule(a, program) ==> has_rule(b, program),
    decreases a.len(),
{
    broadcast use vstd::seq_lib::group_to_multiset_ensures;
    broadcast use vstd::multiset::group_multiset_axioms;

    assert(a.len() == a.to_multiset().len());
    assert(b.len() == b.to_multiset().len());
    if a.len() > 0 {
        let x = a.last();
        assert(a.contains(x));
        assert(b.to_multiset().count(x) > 0);
        assert(b.contains(x));
        let i = choose|i: int| 0 <= i < b.len() && b[i] == x;
        assert(a.drop_last() =~= a.remove(a.len() - 1));
        lemma_total_same(a.drop_last(), b.remove(i), program);
        lemma_total_without(b, i, program);
    }
    if has_rule(a, program) {
        let n = choose|n: int| 0 <= n < a.len() && (#[trigger] a[n]).0 == program;
        assert(a.contains(a[n]));
        assert(b.to_multiset().count(a[n]) > 0);
        assert(b.contains(a[n]));
        let m = choose|m: int| 0 <= m < b.len() && b[m] == a[n];
        assert(b[m].0 == program);
    }
}

proof fn lemma_rules_finite(rules: Seq<RuleView>)
    ensures
        rule_map(rules).dom().finite(),
    decreases rules.len(),
{
    if rules.len() == 0 {
        assert forall|k: Pubkey| !rule_map(rules).dom().contains(k) by {
            lemma_no_rules(k);
            assert(rules =~= Seq::<RuleView>::empty());
        }
        assert(rule_map(rules).dom() =~= Set::empty());
    } else {
        let init = rules.drop_last();
        let rule = rules.last();
        assert(rules =~= init.push(rule));
        lemma_rules_finite(init);
        let wider = rule_map(init).dom().insert(pubkey_of_text(rule.program_id)->0);
        assert forall|k: Pubkey| rule_map(rules).dom().contains(k) implies wider.contains(k) by {
            lemma_rules_push(init, rule, k);
        }
        vstd::set_lib::lemma_set_subset_finite(wider, rule_map(rules).dom());
    }
}

/// Two pushes that list the same, and differ only in entries that are skipped or in the order of the
/// entries, are answered with the same digest.
pub proof fn law_pushes_that_list_the_same_get_one_digest(a: PolicyView, b: PolicyView)
    requires
        list_the_same(a, b),
    ensures
        digest_of(filter_of(a)) == digest_of(filter_of(b)),
{
    let x = rule_map(a.rules);
    let y = rule_map(b.rules);
    lemma_rules_finite(a.rules);
    assert forall|k: Pubkey| x.dom().contains(k) <==> y.dom().contains(k) by {
        lemma_usable_list(a.rules, k);
        lemma_usable_list(b.rules, k);
        lemma_total_same(usable_list(a.rules), usable_list(b.rules), k);
        lemma_total_same(usable_list(b.rules), usable_list(a.rules), k);
    }
    assert(x.dom() =~= y.dom());
    assert forall|k: Pubkey| #[trigger] x.contains_key(k) implies x[k].to_multiset()
        == y[k].to_multiset() by {
        lemma_usable_list(a.rules, k);
        lemma_usable_list(b.rules, k);
        lemma_total_same(usable_list(a.rules), usable_list(b.rules), k);
    }
    law_digest_ignores_order(filter_of(a), filter_of(b));
}

/// A rule whose program cannot be read, or of whose prefixes none can, changes nothing: it neither
/// blocks anything nor takes a rule away.
pub proof fn law_unusable_rule_is_skipped(rules: Seq<RuleView>, rule: RuleView)
    requires
        pubkey_of_text(rule.program_id) is None || (rule.data_prefixes.len() > 0 && prefixes_of(
            rule.data_prefixes,
        ).len() == 0),
    ensures
        rule_map(rules.push(rule)) == rule_map(rules),
{
    let a = rule_map(rules.push(rule));
    let b = rule_map(rules);
    assert forall|k: Pubkey| a.contains_key(k) == b.contains_key(k) by {
        lemma_rules_push(rules, rule, k);
    }
    assert forall|k: Pubkey| a.contains_key(k) implies #[trigger] a[k] == b[k] by {
        lemma_rules_push(rules, rule, k);
    }
    assert(a =~= b);
}

/// A text that names no key changes nothing.
pub proof fn law_unparseable_key_is_skipped(list: Seq<Seq<char>>, text: Seq<char>)
    requires
        pubkey_of_text(text) is None,
    ensures
        named_keys(list.push(text)) == named_keys(list),
{
    assert forall|k: Pubkey| named_keys(list.push(text)).contains(k) == named_keys(list).contains(
        k,
    ) by {
        lemma_named_push(list, text, k);
    }
    assert(named_keys(list.push(text)) =~= named_keys(list));
}

/// The prefixes of a program are none, which blocks every instruction of it, only where each rule on
/// it asked for that: prefixes that cannot be read never widen a rule.
pub proof fn law_rule_does_not_widen(rules: Seq<RuleView>, program: Pubkey)
    requires
        rule_map(rules).contains_key(program),
    ensures
        rule_map(rules)[program].len() == 0 ==> forall|i: int|
            0 <= i < rules_on(rules, program).len() ==> (#[trigger] rules_on(
                rules,
                program,
            )[i]).data_prefixes.len() == 0,
{
    let on = rules_on(rules, program);
    let f = |r: RuleView| prefixes_of(r.data_prefixes);
    let parts = on.map_values(f);
    if rule_map(rules)[program].len() == 0 {
        assert forall|i: int| 0 <= i < on.len() implies (#[trigger] on[i]).data_prefixes.len()
            == 0 by {
            rules.lemma_filter_pred(|r: RuleView| applies(r, program), i);
            assert(applies(on[i], program));
            lemma_part_within(parts, i);
            assert(parts[i] == prefixes_of(on[i].data_prefixes));
        }
    }
}

proof fn lemma_part_within<A>(parts: Seq<Seq<A>>, i: int)
    requires
        0 <= i < parts.len(),
    ensures
        parts[i].len() <= parts.flatten().len(),
    decreases parts.len(),
{
    let init = parts.drop_last();
    assert(parts =~= init.push(parts.last()));
    init.lemma_flatten_push(parts.last());
    if i < init.len() {
        lemma_part_within(init, i);
    }
}

/// What is told of policies is all that they hold.
pub proof fn law_policies_are_told(policy: PbpPolicy, stored: StoredPolicy, list: Seq<String>)
    ensures
        texts(list).len() == list.len(),
        forall|i: int| 0 <= i < list.len() ==> #[trigger] texts(list)[i] == list[i]@,
        policy@.allow_aggressive_mev == policy.allow_aggressive_mev,
        policy@.addresses.len() == policy.address_blacklist@.len(),
        forall|i: int|
            0 <= i < policy.address_blacklist@.len() ==> #[trigger] policy@.addresses[i]
                == policy.address_blacklist@[i]@,
        policy@.programs.len() == policy.program_blacklist@.len(),
        forall|i: int|
            0 <= i < policy.program_blacklist@.len() ==> #[trigger] policy@.programs[i]
                == policy.program_blacklist@[i]@,
        policy@.rules.len() == policy.instruction_blacklist@.len(),
        forall|i: int|
            0 <= i < policy.instruction_blacklist@.len() ==> {
                let rule = policy.instruction_blacklist@[i];
                &&& (#[trigger] policy@.rules[i]).program_id == rule.program_id@
                &&& policy@.rules[i].data_prefixes.len() == rule.data_prefixes@.len()
                &&& forall|j: int|
                    0 <= j < rule.data_prefixes@.len() ==> #[trigger] policy@.rules[i].data_prefixes[j]
                        == rule.data_prefixes@[j]@
            },
        stored@.filter == stored.filter@,
        stored@.updated_at == stored.updated_at,
        stored@.digest == stored.digest@,
{
}

/// The keys that are enforced are those that some text of the pushed list names, all of them, and each
/// on the list that it was pushed on.
pub proof fn law_keys_are_those_that_are_named(policy: PolicyView, key: Pubkey)
    ensures
        filter_of(policy).addresses.contains(key) <==> exists|i: int|
            0 <= i < policy.addresses.len() && pubkey_of_text(#[trigger] policy.addresses[i])
                == Some(key),
        filter_of(policy).programs.contains(key) <==> exists|i: int|
            0 <= i < policy.programs.len() && pubkey_of_text(#[trigger] policy.programs[i])
                == Some(key),
{
    if exists|i: int|
        0 <= i < policy.addresses.len() && pubkey_of_text(#[trigger] policy.addresses[i])
            == Some(key) {
        let i = choose|i: int|
            0 <= i < policy.addresses.len() && pubkey_of_text(#[trigger] policy.addresses[i])
                == Some(key);
        assert(names(policy.addresses[i], key));
    }
    if exists|i: int|
        0 <= i < policy.programs.len() && pubkey_of_text(#[trigger] policy.programs[i])
            == Some(key) {
        let i = choose|i: int|
            0 <= i < policy.programs.len() && pubkey_of_text(#[trigger] policy.programs[i])
                == Some(key);
        assert(names(policy.programs[i], key));
    }
}

/// One more text makes one more prefix, behind those before it, where it stands for bytes, and none
/// otherwise; no text makes no prefix.
pub proof fn law_one_more_prefix(list: Seq<Seq<char>>, text: Seq<char>)
    ensures
        prefixes_of(list.push(text)) == (match bytes_of_hex(encode_utf8(text)) {
            Some(bytes) => prefixes_of(list).push(bytes),
            None => prefixes_of(list),
        }),
        list.len() == 0 ==> prefixes_of(list).len() == 0,
{
    let good = |t: Seq<char>| prefix_of_text(t) is Some;
    let read = |t: Seq<char>| prefix_of_text(t)->0;
    list.lemma_filter_push(text, good);
    if good(text) {
        assert(list.filter(good).push(text).map_values(read) =~= list.filter(good).map_values(
            read,
        ).push(read(text)));
    }
    if list.len() == 0 {
        reveal(Seq::filter);
    }
}

/// The prefixes of a rule are as many as its texts that stand for bytes, and each of these is there.
pub proof fn law_no_readable_text_is_lost(list: Seq<Seq<char>>)
    ensures
        prefixes_of(list).len() == list.filter(
            |t: Seq<char>| bytes_of_hex(encode_utf8(t)) is Some,
        ).len(),
        forall|i: int|
            0 <= i < list.len() && bytes_of_hex(encode_utf8(#[trigger] list[i])) is Some
                ==> prefixes_of(list).contains(bytes_of_hex(encode_utf8(list[i]))->0),
        forall|b: Seq<u8>| #[trigger]
            prefixes_of(list).contains(b) ==> exists|i: int|
                0 <= i < list.len() && bytes_of_hex(encode_utf8(#[trigger] list[i])) == Some(b),
    decreases list.len(),
{
    let reads = |t: Seq<char>| bytes_of_hex(encode_utf8(t)) is Some;
    if list.len() == 0 {
        law_one_more_prefix(list, Seq::empty());
        reveal(Seq::filter);
    } else {
        let init = list.drop_last();
        let last = list.last();
        law_no_readable_text_is_lost(init);
        law_one_more_prefix(init, last);
        assert(init.push(last) =~= list);
        init.lemma_filter_push(last, reads);
        let before = prefixes_of(init);
        let after = prefixes_of(list);
        assert forall|i: int|
            0 <= i < list.len() && bytes_of_hex(encode_utf8(
                #[trigger] list[i],
            )) is Some implies after.contains(bytes_of_hex(encode_utf8(list[i]))->0) by {
            let b = bytes_of_hex(encode_utf8(list[i]))->0;
            if i < init.len() {
                assert(init[i] == list[i]);
                assert(before.contains(b));
                let n = choose|n: int| 0 <= n < before.len() && before[n] == b;
                assert(after[n] == b);
            } else {
                assert(after[before.len() as int] == b);
            }
        }
        assert forall|b: Seq<u8>| #[trigger] after.contains(b) implies exists|i: int|
            0 <= i < list.len() && bytes_of_hex(encode_utf8(#[trigger] list[i])) == Some(b) by {
            let n = choose|n: int| 0 <= n < after.len() && after[n] == b;
            if n < before.len() {
                assert(before[n] == b);
                assert(before.contains(b));
                let i = choose|i: int|
                    0 <= i < init.len() && bytes_of_hex(encode_utf8(#[trigger] init[i])) == Some(b);
                assert(list[i] == init[i]);
            } else {
                assert(list[list.len() - 1] == last);
            }
        }
    }
}

/// One more rule adds its prefixes behind those on its program, and changes nothing else. It counts where
/// its program can be read, and it has no prefixes at all or one that can be read. No rule makes no
/// entry.
pub proof fn law_one_more_rule(rules: Seq<RuleView>, rule: RuleView, program: Pubkey)
    ensures
        ({
            let before = rule_map(rules);
            let after = rule_map(rules.push(rule));
            let counts = pubkey_of_text(rule.program_id) == Some(program) && (
            rule.data_prefixes.len() == 0 || exists|j: int|
                0 <= j < rule.data_prefixes.len() && bytes_of_hex(
                    encode_utf8(#[trigger] rule.data_prefixes[j]),
                ) is Some);
            &&& after.contains_key(program) <==> before.contains_key(program) || counts
            &&& counts && before.contains_key(program) ==> after[program] == before[program]
                + prefixes_of(rule.data_prefixes)
            &&& counts && !before.contains_key(program) ==> after[program] == prefixes_of(
                rule.data_prefixes,
            )
            &&& !counts && before.contains_key(program) ==> after[program] == before[program]
            &&& rules.len() == 0 ==> !before.contains_key(program)
        }),
{
    let list = rule.data_prefixes;
    lemma_rules_push(rules, rule, program);
    law_no_readable_text_is_lost(list);
    if exists|j: int|
        0 <= j < list.len() && bytes_of_hex(encode_utf8(#[trigger] list[j])) is Some {
        let j = choose|j: int|
            0 <= j < list.len() && bytes_of_hex(encode_utf8(#[trigger] list[j])) is Some;
        assert(prefixes_of(list).contains(bytes_of_hex(encode_utf8(list[j]))->0));
    }
    if prefixes_of(list).len() > 0 {
        assert(prefixes_of(list).contains(prefixes_of(list)[0]));
    }
    if !rule_map(rules).contains_key(program) {
        let f = |r: RuleView| prefixes_of(r.data_prefixes);
        assert(rules_on(rules, program) =~= Seq::<RuleView>::empty());
        assert(rules_on(rules, program).map_values(f) =~= Seq::<Seq<Seq<u8>>>::empty());
        assert(merged(rules, program) =~= Seq::<Seq<u8>>::empty());
        assert(merged(rules, program) + prefixes_of(list) =~= prefixes_of(list));
    }
    if rules.len() == 0 {
        assert(rules =~= Seq::<RuleView>::empty());
        lemma_no_rules(program);
    }
}

/// No readable prefix is lost: whichever rule of a pushed policy it stands in, it is enforced on the
/// program of that rule, however long it is.
pub proof fn law_no_readable_prefix_is_lost(
    policy: PolicyView,
    i: int,
    j: int,
    program: Pubkey,
    bytes: Seq<u8>,
)
    requires
        0 <= i < policy.rules.len(),
        pubkey_of_text(policy.rules[i].program_id) == Some(program),
        0 <= j < policy.rules[i].data_prefixes.len(),
        bytes_of_hex(encode_utf8(policy.rules[i].data_prefixes[j])) == Some(bytes),
    ensures
        filter_of(policy).rules.contains_key(program),
        filter_of(policy).rules[program].contains(bytes),
    decreases policy.rules.len(),
{
    let rules = policy.rules;
    let init = rules.drop_last();
    let last = rules.last();
    let list = rules[i].data_prefixes;
    assert(init.push(last) =~= rules);
    law_one_more_rule(init, last, program);
    if i < init.len() {
        assert(init[i] == rules[i]);
        law_no_readable_prefix_is_lost(
            PolicyView { rules: init, ..policy },
            i,
            j,
            program,
            bytes,
        );
        let before = rule_map(init)[program];
        let n = choose|n: int| 0 <= n < before.len() && before[n] == bytes;
        assert(rule_map(rules)[program][n] == bytes);
    } else {
        law_no_readable_text_is_lost(list);
        assert(bytes_of_hex(encode_utf8(list[j])) is Some);
        let added = prefixes_of(list);
        assert(added.contains(bytes));
        let n = choose|n: int| 0 <= n < added.len() && added[n] == bytes;
        if rule_map(init).contains_key(program) {
            assert(rule_map(rules)[program][rule_map(init)[program].len() + n] == bytes);
        } else {
            assert(rule_map(rules)[program][n] == bytes);
        }
    }
}

/// Nothing is enforced that was not pushed: each prefix on a program stands in some rule on it, and a
/// program has an entry only where some rule on it counts.
pub proof fn law_no_prefix_is_made_up(policy: PolicyView, program: Pubkey, bytes: Seq<u8>)
    requires
        filter_of(policy).rules.contains_key(program),
    ensures
        exists|i: int|
            0 <= i < policy.rules.len() && pubkey_of_text((#[trigger] policy.rules[i]).program_id)
                == Some(program),
        filter_of(policy).rules[program].contains(bytes) ==> exists|i: int, j: int|
            0 <= i < policy.rules.len() && pubkey_of_text(policy.rules[i].program_id) == Some(
                program,
            ) && 0 <= j < policy.rules[i].data_prefixes.len() && bytes_of_hex(
                encode_utf8(#[trigger] policy.rules[i].data_prefixes[j]),
            ) == Some(bytes),
    decreases policy.rules.len(),
{
    let rules = policy.rules;
    law_one_more_rule(rules, RuleView { program_id: Seq::empty(), data_prefixes: Seq::empty() }, program);
    let init = rules.drop_last();
    let last = rules.last();
    assert(init.push(last) =~= rules);
    law_one_more_rule(init, last, program);
    law_no_readable_text_is_lost(last.data_prefixes);
    let after = rule_map(rules)[program];
    if rule_map(init).contains_key(program) {
        law_no_prefix_is_made_up(PolicyView { rules: init, ..policy }, program, bytes);
        let i = choose|i: int|
            0 <= i < init.len() && pubkey_of_text((#[trigger] init[i]).program_id) == Some(program);
        assert(rules[i] == init[i]);
        if after.contains(bytes) {
            let before = rule_map(init)[program];
            let n = choose|n: int| 0 <= n < after.len() && after[n] == bytes;
            if n < before.len() {
                assert(before[n] == bytes);
                assert(before.contains(bytes));
                let (i, j) = choose|i: int, j: int|
                    0 <= i < init.len() && pubkey_of_text(init[i].program_id) == Some(program)
                        && 0 <= j < init[i].data_prefixes.len() && bytes_of_hex(
                        encode_utf8(#[trigger] init[i].data_prefixes[j]),
                    ) == Some(bytes);
                assert(rules[i].data_prefixes[j] == init[i].data_prefixes[j]);
            } else {
                assert(prefixes_of(last.data_prefixes)[n - before.len()] == bytes);
                assert(prefixes_of(last.data_prefixes).contains(bytes));
                let j = choose|j: int|
                    0 <= j < last.data_prefixes.len() && bytes_of_hex(
                        encode_utf8(#[trigger] last.data_prefixes[j]),
                    ) == Some(bytes);
                assert(rules[rules.len() - 1].data_prefixes[j] == last.data_prefixes[j]);
            }
        }
    } else {
        assert(rules[rules.len() - 1] == last);
        if after.contains(bytes) {
            let j = choose|j: int|
                0 <= j < last.data_prefixes.len() && bytes_of_hex(
                    encode_utf8(#[trigger] last.data_prefixes[j]),
                ) == Some(bytes);
            assert(rules[rules.len() - 1].data_prefixes[j] == last.data_prefixes[j]);
        }
    }
}

/// A pushed policy is stored as it was read, with the time of the push and the digest of what is stored.
pub proof fn law_stored_as_pushed(policy: PolicyView, now: u64)
    ensures
        stored_of(policy, now).filter == filter_of(policy),
        stored_of(policy, now).updated_at == now,
        stored_of(policy, now).digest == digest_of(filter_of(policy)),
{
}

/// A stored policy is enforced exactly for the validator that it is stored for, for five minutes from its
/// last push, and where it lists an address, a program or a rule; and then as it is stored.
pub proof fn law_enforced_for_five_minutes(
    stored: Map<Pubkey, StoredView>,
    key: Pubkey,
    now: u64,
)
    ensures
        live_filter(stored, key, now) is Some <==> {
            &&& stored.contains_key(key)
            &&& now - stored[key].updated_at < 300_000_000_000
            &&& {
                ||| exists|k: Pubkey| stored[key].filter.addresses.contains(k)
                ||| exists|k: Pubkey| stored[key].filter.programs.contains(k)
                ||| exists|k: Pubkey| stored[key].filter.rules.contains_key(k)
            }
        },
        live_filter(stored, key, now) matches Some(filter) ==> filter == stored[key].filter,
        holders_in_force(stored, now).contains(key) <==> stored.contains_key(key) && now
            - stored[key].updated_at < 300_000_000_000,
{
    law_empty_policy_lists_nothing(stored[key].filter);
}

/// A pushed rule is enforced, prefix by prefix and byte by byte, for five minutes: a transaction that
/// calls the program of the rule with data that start with what one of its texts stands for is dropped
/// for the validator that pushed it, wherever in the transaction the instruction stands.
pub proof fn law_pushed_rule_is_enforced(
    stored: Map<Pubkey, StoredView>,
    validator: Pubkey,
    policy: PolicyView,
    pushed_at: u64,
    now: u64,
    i: int,
    j: int,
    tx: TransactionView,
    tables: Map<Pubkey, Seq<Pubkey>>,
    n: int,
)
    requires
        now - pushed_at < 300_000_000_000,
        0 <= i < policy.rules.len(),
        0 <= j < policy.rules[i].data_prefixes.len(),
        bytes_of_hex(encode_utf8(policy.rules[i].data_prefixes[j])) is Some,
        0 <= n < tx.instructions.len(),
        tx.instructions[n].program_id_index < summary_of(tx, tables).account_keys.len(),
        pubkey_of_text(policy.rules[i].program_id) == Some(
            summary_of(tx, tables).account_keys[tx.instructions[n].program_id_index as int],
        ),
        ({
            let prefix = bytes_of_hex(encode_utf8(policy.rules[i].data_prefixes[j]))->0;
            let data = tx.instructions[n].data;
            &&& prefix.len() <= data.len()
            &&& forall|k: int| 0 <= k < prefix.len() ==> #[trigger] prefix[k] == data[k]
        }),
    ensures
        live_filter(
            stored.insert(validator, stored_of(policy, pushed_at)),
            validator,
            now,
        ) matches Some(filter) && verdict(filter, summary_of(tx, tables)) is Some,
{
    let program = summary_of(tx, tables).account_keys[tx.instructions[n].program_id_index as int];
    let prefix = bytes_of_hex(encode_utf8(policy.rules[i].data_prefixes[j]))->0;
    let filter = filter_of(policy);
    let after = stored.insert(validator, stored_of(policy, pushed_at));
    law_no_readable_prefix_is_lost(policy, i, j, program, prefix);
    law_enforced_for_five_minutes(after, validator, now);
    let list = filter.rules[program];
    let m = choose|m: int| 0 <= m < list.len() && list[m] == prefix;
    law_blocked_instruction_is_dropped(tx, tables, filter, n, m);
}

/// A pushed key is enforced for five minutes: a transaction that mentions an account which one of the
/// texts names is dropped for the validator that pushed it.
pub proof fn law_pushed_key_is_enforced(
    stored: Map<Pubkey, StoredView>,
    validator: Pubkey,
    policy: PolicyView,
    pushed_at: u64,
    now: u64,
    i: int,
    summary: SummaryView,
    n: int,
)
    requires
        now - pushed_at < 300_000_000_000,
        0 <= n < summary.account_keys.len(),
        (0 <= i < policy.addresses.len() && pubkey_of_text(policy.addresses[i]) == Some(
            summary.account_keys[n],
        )) || (0 <= i < policy.programs.len() && pubkey_of_text(policy.programs[i]) == Some(
            summary.account_keys[n],
        )),
    ensures
        live_filter(
            stored.insert(validator, stored_of(policy, pushed_at)),
            validator,
            now,
        ) matches Some(filter) && verdict(filter, summary) is Some,
{
    let key = summary.account_keys[n];
    let filter = filter_of(policy);
    let after = stored.insert(validator, stored_of(policy, pushed_at));
    law_keys_are_those_that_are_named(policy, key);
    law_enforced_for_five_minutes(after, validator, now);
    lemma_some_first(filter, summary.account_keys, n);
    let m = choose|m: int|
        #![trigger summary.account_keys[m]]
        0 <= m <= n && (filter.addresses.contains(summary.account_keys[m])
            || filter.programs.contains(summary.account_keys[m])) && forall|j: int|
            0 <= j < m ==> !filter.addresses.contains(#[trigger] summary.account_keys[j])
                && !filter.programs.contains(summary.account_keys[j]);
    law_first_listed_account_decides(filter, summary, m);
}

proof fn lemma_some_first(filter: FilterView, keys: Seq<Pubkey>, n: int)
    requires
        0 <= n < keys.len(),
        filter.addresses.contains(keys[n]) || filter.programs.contains(keys[n]),
    ensures
        exists|m: int|
            #![trigger keys[m]]
            0 <= m <= n && (filter.addresses.contains(keys[m]) || filter.programs.contains(keys[m]))
                && forall|j: int|
                0 <= j < m ==> !filter.addresses.contains(#[trigger] keys[j])
                    && !filter.programs.contains(keys[j]),
    decreases n,
{
    if exists|j: int|
        0 <= j < n && (filter.addresses.contains(#[trigger] keys[j]) || filter.programs.contains(
            keys[j],
        )) {
        let j = choose|j: int|
            0 <= j < n && (filter.addresses.contains(#[trigger] keys[j])
                || filter.programs.contains(keys[j]));
        lemma_some_first(filter, keys, j);
    } else {
        assert(keys[n] == keys[n]);
    }
}

/// A rule without prefixes is enforced too, on every instruction of its program where no other rule on
/// the program has prefixes; and what is enforced are the rules taken together, one after the other.
pub proof fn law_rules_without_prefixes_are_kept(policy: PolicyView, i: int, program: Pubkey)
    requires
        0 <= i < policy.rules.len(),
        pubkey_of_text(policy.rules[i].program_id) == Some(program),
        policy.rules[i].data_prefixes.len() == 0,
    ensures
        filter_of(policy).rules.contains_key(program),
        (forall|n: int|
            0 <= n < policy.rules.len() && pubkey_of_text((#[trigger] policy.rules[n]).program_id)
                == Some(program) ==> policy.rules[n].data_prefixes.len() == 0) ==> filter_of(
            policy,
        ).rules[program].len() == 0,
        filter_of(policy).rules == rule_map(policy.rules),
    decreases policy.rules.len(),
{
    let rules = policy.rules;
    let init = rules.drop_last();
    let last = rules.last();
    let less = PolicyView { rules: init, ..policy };
    assert(init.push(last) =~= rules);
    law_one_more_rule(init, last, program);
    law_one_more_prefix(last.data_prefixes, Seq::empty());
    if i < init.len() {
        assert(init[i] == rules[i]);
        law_rules_without_prefixes_are_kept(less, i, program);
    }
    if forall|n: int|
        0 <= n < rules.len() && pubkey_of_text((#[trigger] rules[n]).program_id) == Some(program)
            ==> rules[n].data_prefixes.len() == 0 {
        assert(pubkey_of_text(rules[rules.len() - 1].program_id) == Some(program)
            ==> last.data_prefixes.len() == 0);
        assert forall|n: int|
            0 <= n < init.len() && pubkey_of_text((#[trigger] init[n]).program_id) == Some(
                program,
            ) implies init[n].data_prefixes.len() == 0 by {
            assert(rules[n] == init[n]);
        }
        if i == init.len() && rule_map(init).contains_key(program) {
            law_no_prefix_is_made_up(less, program, Seq::empty());
            let n = choose|n: int|
                0 <= n < init.len() && pubkey_of_text((#[trigger] init[n]).program_id) == Some(
                    program,
                );
            law_rules_without_prefixes_are_kept(less, n, program);
        }
    }
}

} // verus!
