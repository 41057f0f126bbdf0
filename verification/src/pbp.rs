//! Per-validator PBP policy enforcement.
//!
//! A relayer fronts several validators at once and forwards the same packet batch to each of
//! them. A drop decision is therefore a property of the validator the packet is being forwarded
//! to, not of the relayer: the validator is the party accountable for what lands in its own block,
//! and dropping globally would censor one tenant's block by another tenant's rules.
//!
//! Extraction is separated from evaluation because of the fan-out: a packet is parsed once into a
//! [`PacketSummary`], and every subscribed validator's policy is then evaluated against it.

use vstd::prelude::*;

use dashmap::DashMap;

use crate::delivery::lemma_flatten_contains;
use crate::order::{starts_with, views};
use crate::pubkey::{copy_keys, Pubkey, PubkeyMap, PubkeySet};
use crate::tx_decode::{AddressTableLookup, CompiledInstruction, InstructionView, LookupView, Transaction, TransactionView};

verus! {

/// An address lookup table as it stands on chain: its own key, and the addresses in it.
pub struct AddressLookupTableAccount {
    pub key: Pubkey,
    pub addresses: Vec<Pubkey>,
}

/// `dashmap::DashMap`, of which only what the wrappers below say is known.
#[verifier::external_type_specification]
#[verifier::external_body]
#[verifier::reject_recursive_types(K)]
#[verifier::reject_recursive_types(V)]
#[verifier::reject_recursive_types(S)]
pub struct ExDashMap<K, V, S>(DashMap<K, V, S>);

/// Lookup tables by their keys, as they are handed over.
pub type TableMap = DashMap<Pubkey, AddressLookupTableAccount>;

/// The addresses of each table in a map.
pub uninterp spec fn cached_tables(map: TableMap) -> Map<Pubkey, Seq<Pubkey>>;

/// `DashMap::get` on the tables: the addresses of the table that stands under the key, or nothing
/// where none does. What it says holds of a map that nobody writes to meanwhile: the one in a
/// [`LookupTableCache`] is out of reach of anyone else, and is only read.
#[verifier::external_body]
fn cached_addresses(map: &TableMap, key: &Pubkey) -> (r: Option<Vec<Pubkey>>)
    ensures
        match r {
            Some(addresses) => cached_tables(*map).contains_key(*key)
                && cached_tables(*map)[*key] == addresses@,
            None => !cached_tables(*map).contains_key(*key),
        },
{
    map.get(key).map(|table| table.addresses.clone())
}

/// The lookup tables that have been fetched, by their keys. They stay as they are: newly fetched ones
/// come with a cache of their own.
pub struct LookupTableCache {
    map: TableMap,
}

impl View for LookupTableCache {
    type V = Map<Pubkey, Seq<Pubkey>>;

    closed spec fn view(&self) -> Map<Pubkey, Seq<Pubkey>> {
        cached_tables(self.map)
    }
}

impl LookupTableCache {
    /// The tables of a map, which nobody else can write to from then on.
    pub fn from_map(map: TableMap) -> (r: Self)
        ensures
            r@ == cached_tables(map),
    {
        LookupTableCache { map }
    }

    /// The addresses of a table, or nothing where it has not been fetched.
    pub fn addresses(&self, key: &Pubkey) -> (r: Option<Vec<Pubkey>>)
        ensures
            match r {
                Some(addresses) => self@.contains_key(*key) && self@[*key] == addresses@,
                None => !self@.contains_key(*key),
            },
    {
        cached_addresses(&self.map, key)
    }
}

/// Every place that a lookup names exists in the table that it names.
pub open spec fn resolves(lookup: LookupView, tables: Map<Pubkey, Seq<Pubkey>>) -> bool {
    &&& tables.contains_key(lookup.account_key)
    &&& within(lookup.writable_indexes, tables[lookup.account_key])
    &&& within(lookup.readonly_indexes, tables[lookup.account_key])
}

/// Every index is one of the table.
pub open spec fn within(indexes: Seq<u8>, table: Seq<Pubkey>) -> bool {
    forall|i: int| 0 <= i < indexes.len() ==> (#[trigger] indexes[i]) < table.len()
}

/// The addresses at the indexes.
pub open spec fn picked(indexes: Seq<u8>, table: Seq<Pubkey>) -> Seq<Pubkey> {
    indexes.map_values(|i: u8| table[i as int])
}

/// The writable addresses that each lookup loads.
pub open spec fn writable_parts(lookups: Seq<LookupView>, tables: Map<Pubkey, Seq<Pubkey>>) -> Seq<
    Seq<Pubkey>,
> {
    lookups.map_values(|l: LookupView| picked(l.writable_indexes, tables[l.account_key]))
}

/// The readonly addresses that each lookup loads.
pub open spec fn readonly_parts(lookups: Seq<LookupView>, tables: Map<Pubkey, Seq<Pubkey>>) -> Seq<
    Seq<Pubkey>,
> {
    lookups.map_values(|l: LookupView| picked(l.readonly_indexes, tables[l.account_key]))
}

/// All of the lookups resolve.
pub open spec fn all_resolve(lookups: Seq<LookupView>, tables: Map<Pubkey, Seq<Pubkey>>) -> bool {
    forall|i: int| 0 <= i < lookups.len() ==> resolves(#[trigger] lookups[i], tables)
}

/// The addresses that a message loads, in the order in which the runtime appends them to the
/// static keys: every table's writable entries, then every table's readonly entries. Nothing if a
/// single place cannot be resolved, because a partial list would shift every later index.
pub open spec fn loaded(lookups: Seq<LookupView>, tables: Map<Pubkey, Seq<Pubkey>>) -> Option<
    Seq<Pubkey>,
> {
    if all_resolve(lookups, tables) {
        Some(writable_parts(lookups, tables).flatten() + readonly_parts(lookups, tables).flatten())
    } else {
        None
    }
}

/// The views of a list of lookups.
pub open spec fn lookup_views(lookups: Seq<AddressTableLookup>) -> Seq<LookupView> {
    lookups.map_values(|l: AddressTableLookup| l@)
}

/// The addresses at the indexes, unless one of them is outside the table.
fn pick(indexes: &Vec<u8>, table: &Vec<Pubkey>) -> (r: Option<Vec<Pubkey>>)
    ensures
        match r {
            Some(addresses) => within(indexes@, table@) && addresses@ == picked(indexes@, table@),
            None => !within(indexes@, table@),
        },
{
    let mut addresses: Vec<Pubkey> = Vec::new();
    let mut i: usize = 0;
    while i < indexes.len()
        invariant
            i <= indexes@.len(),
            within(indexes@.take(i as int), table@),
            addresses@ == picked(indexes@.take(i as int), table@),
        decreases indexes@.len() - i,
    {
        let index: usize = indexes[i] as usize;
        proof {
            assert(indexes@.take(i + 1) =~= indexes@.take(i as int).push(indexes@[i as int]));
        }
        if index >= table.len() {
            assert(!within(indexes@, table@)) by {
                assert(indexes@[i as int] >= table@.len());
            }
            return None;
        }
        addresses.push(table[index]);
        proof {
            assert(addresses@ =~= picked(indexes@.take(i + 1), table@));
        }
        i = i + 1;
    }
    assert(indexes@.take(indexes@.len() as int) =~= indexes@);
    Some(addresses)
}

/// The message's lookup-table-loaded addresses; see [`loaded`].
pub fn loaded_addresses(lookups: &Vec<AddressTableLookup>, cache: &LookupTableCache) -> (r: Option<
    Vec<Pubkey>,
>)
    ensures
        match r {
            Some(addresses) => loaded(lookup_views(lookups@), cache@) == Some(
                addresses@,
            ),
            None => loaded(lookup_views(lookups@), cache@) is None,
        },
{
    let ghost tables = cache@;
    let ghost all = lookup_views(lookups@);
    let mut writable: Vec<Pubkey> = Vec::new();
    let mut readonly: Vec<Pubkey> = Vec::new();
    let mut i: usize = 0;
    proof {
        assert(writable_parts(all.take(0), tables) =~= Seq::<Seq<Pubkey>>::empty());
        assert(readonly_parts(all.take(0), tables) =~= Seq::<Seq<Pubkey>>::empty());
    }
    while i < lookups.len()
        invariant
            i <= lookups@.len(),
            tables == cache@,
            all == lookup_views(lookups@),
            all_resolve(all.take(i as int), tables),
            writable@ == writable_parts(all.take(i as int), tables).flatten(),
            readonly@ == readonly_parts(all.take(i as int), tables).flatten(),
        decreases lookups@.len() - i,
    {
        let lookup: &AddressTableLookup = &lookups[i];
        let ghost view = all[i as int];
        let ghost some = all.take(i as int);
        assert(view == lookup@);
        let table: Vec<Pubkey> = match cache.addresses(&lookup.account_key) {
            Some(table) => table,
            None => {
                assert(!resolves(all[i as int], tables));
                return None;
            },
        };
        let mut more_writable: Vec<Pubkey> = match pick(&lookup.writable_indexes, &table) {
            Some(addresses) => addresses,
            None => {
                assert(!resolves(all[i as int], tables));
                return None;
            },
        };
        let mut more_readonly: Vec<Pubkey> = match pick(&lookup.readonly_indexes, &table) {
            Some(addresses) => addresses,
            None => {
                assert(!resolves(all[i as int], tables));
                return None;
            },
        };
        writable.append(&mut more_writable);
        readonly.append(&mut more_readonly);
        proof {
            assert(all.take(i + 1) =~= some.push(view));
            let w = picked(view.writable_indexes, tables[view.account_key]);
            let r = picked(view.readonly_indexes, tables[view.account_key]);
            assert(writable_parts(some.push(view), tables) =~= writable_parts(some, tables).push(w));
            assert(readonly_parts(some.push(view), tables) =~= readonly_parts(some, tables).push(r));
            writable_parts(some, tables).lemma_flatten_push(w);
            readonly_parts(some, tables).lemma_flatten_push(r);
        }
        i = i + 1;
    }
    assert(all.take(lookups@.len() as int) =~= all);
    writable.append(&mut readonly);
    Some(writable)
}

/// What a policy can be evaluated against, extracted from a packet exactly once.
pub struct PacketSummary {
    /// Every account the transaction references, static keys plus anything resolved through an
    /// address lookup table. Matching on references rather than on the program id is what makes
    /// `program_blacklist` hold when a malicious program is reached through a router.
    pub account_keys: Vec<Pubkey>,
    /// The program id and the data of each top-level instruction. Inner instructions are not on
    /// the wire and cannot appear here.
    pub instructions: Vec<(Pubkey, Vec<u8>)>,
}

/// What a [`PacketSummary`] holds.
pub struct SummaryView {
    pub account_keys: Seq<Pubkey>,
    pub instructions: Seq<(Pubkey, Seq<u8>)>,
}

impl View for PacketSummary {
    type V = SummaryView;

    open spec fn view(&self) -> SummaryView {
        SummaryView {
            account_keys: self.account_keys@,
            instructions: self.instructions@.map_values(|ix: (Pubkey, Vec<u8>)| (ix.0, ix.1@)),
        }
    }
}

/// The accounts that a transaction references, as far as the tables resolve them.
pub open spec fn referenced_keys(tx: TransactionView, tables: Map<Pubkey, Seq<Pubkey>>) -> Seq<
    Pubkey,
> {
    match tx.address_table_lookups {
        Some(lookups) => match loaded(lookups, tables) {
            Some(addresses) => tx.account_keys + addresses,
            None => tx.account_keys,
        },
        None => tx.account_keys,
    }
}

/// The instructions whose program is among the keys, with that program.
pub open spec fn known_instructions(
    instructions: Seq<InstructionView>,
    keys: Seq<Pubkey>,
) -> Seq<(Pubkey, Seq<u8>)> {
    instructions.filter(|ix: InstructionView| ix.program_id_index < keys.len()).map_values(
        |ix: InstructionView| (keys[ix.program_id_index as int], ix.data),
    )
}

/// The summary of a transaction.
pub open spec fn summary_of(tx: TransactionView, tables: Map<Pubkey, Seq<Pubkey>>) -> SummaryView {
    let keys = referenced_keys(tx, tables);
    SummaryView { account_keys: keys, instructions: known_instructions(tx.instructions, keys) }
}

/// Another list of the same bytes.
pub fn copy_bytes(bytes: &Vec<u8>) -> (r: Vec<u8>)
    ensures
        r@ == bytes@,
{
    let r: Vec<u8> = bytes.clone();
    assert(r@ =~= bytes@);
    r
}

impl PacketSummary {
    /// The summary of a transaction.
    ///
    /// A lookup table that is missing from the cache leaves the loaded addresses out rather than
    /// guessing at them: a partial address list shifts every subsequent index and would resolve
    /// accounts to the wrong keys, which can only produce false positives. Dropping fee-paying
    /// flow that was never listed is the worse failure, so unresolved means unmatched.
    pub fn extract(tx: &Transaction, address_lookup_table_cache: &LookupTableCache) -> (r: Self)
        ensures
            r@ == summary_of(tx@, address_lookup_table_cache@),
    {
        let mut account_keys: Vec<Pubkey> = copy_keys(&tx.account_keys);
        if let Some(lookups) = &tx.address_table_lookups {
            if let Some(mut addresses) = loaded_addresses(lookups, address_lookup_table_cache) {
                account_keys.append(&mut addresses);
            }
        }
        let ghost keys = account_keys@;
        assert(keys =~= referenced_keys(tx@, address_lookup_table_cache@));

        let ghost known = |ix: InstructionView| ix.program_id_index < keys.len();
        let ghost named = |ix: InstructionView| (keys[ix.program_id_index as int], ix.data);
        let ghost as_view = |ix: (Pubkey, Vec<u8>)| (ix.0, ix.1@);
        let mut instructions: Vec<(Pubkey, Vec<u8>)> = Vec::new();
        let mut i: usize = 0;
        proof {
            assert(tx@.instructions.take(0).filter(known) =~= Seq::<InstructionView>::empty()) by {
                reveal(Seq::filter);
            }
        }
        while i < tx.instructions.len()
            invariant
                i <= tx.instructions@.len(),
                keys == account_keys@,
                known == (|ix: InstructionView| ix.program_id_index < keys.len()),
                named == (|ix: InstructionView| (keys[ix.program_id_index as int], ix.data)),
                as_view == (|ix: (Pubkey, Vec<u8>)| (ix.0, ix.1@)),
                instructions@.map_values(as_view) == tx@.instructions.take(i as int).filter(
                    known,
                ).map_values(named),
            decreases tx.instructions@.len() - i,
        {
            let ix: &CompiledInstruction = &tx.instructions[i];
            let index: usize = ix.program_id_index as usize;
            let ghost listed = instructions@;
            let ghost some = tx@.instructions.take(i as int);
            if index < account_keys.len() {
                instructions.push((account_keys[index], copy_bytes(&ix.data)));
                assert(instructions@.map_values(as_view) =~= listed.map_values(as_view).push(
                    named(ix@),
                ));
            }
            proof {
                assert(tx@.instructions[i as int] == ix@);
                assert(tx@.instructions.take(i + 1) =~= some.push(ix@));
                some.lemma_filter_push(ix@, known);
                if known(ix@) {
                    assert(some.filter(known).push(ix@).map_values(named) =~= some.filter(
                        known,
                    ).map_values(named).push(named(ix@)));
                }
            }
            i = i + 1;
        }
        assert(tx@.instructions.take(tx.instructions@.len() as int) =~= tx@.instructions);
        PacketSummary { account_keys, instructions }
    }
}

/// The subset of a validator's PBP policy the relayer is able to act on.
///
/// The relayer sees individual packets, not bundles, so bundle-scoped policy is not represented:
/// that belongs to the block engine, which is where bundles exist.
pub struct PbpFilter {
    /// Transactions referencing one of these accounts are dropped.
    pub address_blacklist: PubkeySet,
    /// Programs blocked wholesale, matched on account references so that reaching the program
    /// through a router does not evade the rule.
    pub program_blacklist: PubkeySet,
    /// The blocked instruction-data prefixes of each program. An empty prefix list blocks every
    /// top-level instruction to that program.
    pub instruction_blacklist: PubkeyMap<Vec<Vec<u8>>>,
}

/// What a [`PbpFilter`] holds.
pub struct FilterView {
    pub addresses: Set<Pubkey>,
    pub programs: Set<Pubkey>,
    pub rules: Map<Pubkey, Seq<Seq<u8>>>,
}

impl View for PbpFilter {
    type V = FilterView;

    open spec fn view(&self) -> FilterView {
        FilterView {
            addresses: self.address_blacklist@,
            programs: self.program_blacklist@,
            rules: self.instruction_blacklist@.map_values(|list: Vec<Vec<u8>>| views(list@)),
        }
    }
}

/// Why a packet was dropped, for the counter it belongs to.
#[derive(Debug, Clone, Copy, PartialEq, Eq, Structural)]
pub enum PbpDrop {
    Address,
    Program,
    Instruction,
}

/// The policy that lists nothing.
pub open spec fn empty_filter() -> FilterView {
    FilterView { addresses: Set::empty(), programs: Set::empty(), rules: Map::empty() }
}

/// What the first listed account says. An account on both lists counts as an address.
pub open spec fn key_verdict(filter: FilterView, keys: Seq<Pubkey>) -> Option<PbpDrop>
    decreases keys.len(),
{
    if keys.len() == 0 {
        None
    } else if filter.addresses.contains(keys[0]) {
        Some(PbpDrop::Address)
    } else if filter.programs.contains(keys[0]) {
        Some(PbpDrop::Program)
    } else {
        key_verdict(filter, keys.drop_first())
    }
}

/// The program has a rule, and the rule has no prefix or one that the data starts with.
pub open spec fn blocks(rules: Map<Pubkey, Seq<Seq<u8>>>, instruction: (Pubkey, Seq<u8>)) -> bool {
    &&& rules.contains_key(instruction.0)
    &&& (rules[instruction.0].len() == 0 || exists|j: int|
        0 <= j < rules[instruction.0].len() && (#[trigger] rules[instruction.0][j]).is_prefix_of(
            instruction.1,
        ))
}

/// Why a policy drops a packet, or `None` where it lets the packet through.
pub open spec fn verdict(filter: FilterView, summary: SummaryView) -> Option<PbpDrop> {
    match key_verdict(filter, summary.account_keys) {
        Some(reason) => Some(reason),
        None => if exists|i: int|
            0 <= i < summary.instructions.len() && blocks(
                filter.rules,
                #[trigger] summary.instructions[i],
            ) {
            Some(PbpDrop::Instruction)
        } else {
            None
        },
    }
}

impl Default for PbpFilter {
    /// The policy that lists nothing.
    fn default() -> (r: Self)
        ensures
            r@ == empty_filter(),
    {
        let r = PbpFilter {
            address_blacklist: PubkeySet::new(),
            program_blacklist: PubkeySet::new(),
            instruction_blacklist: PubkeyMap::new(),
        };
        assert(r@.rules =~= Map::<Pubkey, Seq<Seq<u8>>>::empty());
        r
    }
}

/// Another list of the same byte strings.
pub fn copy_byte_lists(list: &Vec<Vec<u8>>) -> (r: Vec<Vec<u8>>)
    ensures
        views(r@) == views(list@),
{
    let mut r: Vec<Vec<u8>> = Vec::new();
    let mut i: usize = 0;
    while i < list.len()
        invariant
            i <= list@.len(),
            views(r@) == views(list@).take(i as int),
        decreases list@.len() - i,
    {
        let ghost some = r@;
        r.push(copy_bytes(&list[i]));
        proof {
            assert(views(r@) =~= views(some).push(list@[i as int]@));
            assert(views(list@).take(i + 1) =~= views(list@).take(i as int).push(
                list@[i as int]@,
            ));
        }
        i = i + 1;
    }
    assert(views(list@).take(list@.len() as int) =~= views(list@));
    r
}

impl Clone for PbpFilter {
    fn clone(&self) -> (r: Self)
        ensures
            r@ == self@,
    {
        let rules: &PubkeyMap<Vec<Vec<u8>>> = &self.instruction_blacklist;
        let keys: Vec<Pubkey> = rules.keys();
        let ghost as_rule = |list: Vec<Vec<u8>>| views(list@);
        let mut copied: PubkeyMap<Vec<Vec<u8>>> = PubkeyMap::new();
        let mut i: usize = 0;
        assert(copied@.map_values(as_rule) =~= Map::<Pubkey, Seq<Seq<u8>>>::empty());
        assert(keys@.take(0).to_set() =~= Set::<Pubkey>::empty());
        while i < keys.len()
            invariant
                i <= keys@.len(),
                keys@ == rules.order(),
                keys@.no_duplicates(),
                keys@.to_set() == rules@.dom(),
                as_rule == (|list: Vec<Vec<u8>>| views(list@)),
                copied@.dom() == keys@.take(i as int).to_set(),
                forall|k: Pubkey| #[trigger]
                    copied@.contains_key(k) ==> rules@.contains_key(k) && views(copied@[k]@)
                        == views(rules@[k]@),
            decreases keys@.len() - i,
        {
            let (key, list) = rules.entry_at(i);
            copied.insert(key, copy_byte_lists(list));
            proof {
                let some = keys@.take(i as int);
                let more = keys@.take(i + 1);
                assert(more =~= some.push(key));
                assert(more[i as int] == key);
                assert forall|k: Pubkey| some.to_set().insert(key).contains(k) implies more.to_set().contains(
                    k,
                ) by {
                    if some.contains(k) {
                        let j = choose|j: int| 0 <= j < some.len() && some[j] == k;
                        assert(more[j] == k);
                    }
                }
                assert(copied@.dom() =~= more.to_set());
            }
            i = i + 1;
        }
        assert(keys@.take(keys@.len() as int) =~= keys@);
        let r = PbpFilter {
            address_blacklist: self.address_blacklist.copy(),
            program_blacklist: self.program_blacklist.copy(),
            instruction_blacklist: copied,
        };
        assert(r@.rules =~= self@.rules);
        r
    }
}

impl PbpFilter {
    /// Whether the policy lists nothing.
    pub fn is_empty(&self) -> (r: bool)
        ensures
            r == (self@ == empty_filter()),
    {
        let r: bool = self.address_blacklist.is_empty() && self.program_blacklist.is_empty()
            && self.instruction_blacklist.is_empty();
        proof {
            if r {
                assert(self@.rules =~= Map::<Pubkey, Seq<Seq<u8>>>::empty());
            } else if self@ == empty_filter() {
                assert(self.instruction_blacklist@.dom() =~= self@.rules.dom());
            }
        }
        r
    }

    /// Whether a rule blocks the instruction.
    fn blocks_instruction(&self, program_id: &Pubkey, data: &Vec<u8>) -> (r: bool)
        ensures
            r == blocks(self@.rules, (*program_id, data@)),
    {
        let prefixes: &Vec<Vec<u8>> = match self.instruction_blacklist.get(program_id) {
            Some(prefixes) => prefixes,
            None => {
                return false;
            },
        };
        let ghost rule = self@.rules[*program_id];
        assert(rule == views(prefixes@));
        if prefixes.len() == 0 {
            return true;
        }
        let mut j: usize = 0;
        while j < prefixes.len()
            invariant
                j <= prefixes@.len(),
                rule == views(prefixes@),
                self@.rules.contains_key(*program_id),
                rule == self@.rules[*program_id],
                forall|n: int| 0 <= n < j ==> !(#[trigger] rule[n]).is_prefix_of(data@),
            decreases prefixes@.len() - j,
        {
            if starts_with(data.as_slice(), prefixes[j].as_slice()) {
                assert(rule[j as int].is_prefix_of(data@));
                return true;
            }
            j = j + 1;
        }
        false
    }

    /// Returns why this packet must not be forwarded to the validator that set this policy, or
    /// `None` if it may be.
    pub fn evaluate(&self, summary: &PacketSummary) -> (r: Option<PbpDrop>)
        ensures
            r == verdict(self@, summary@),
    {
        if self.is_empty() {
            proof {
                law_empty_policy_drops_nothing(summary@);
            }
            return None;
        }
        let ghost keys = summary@.account_keys;
        let mut i: usize = 0;
        assert(keys.skip(0) =~= keys);
        while i < summary.account_keys.len()
            invariant
                i <= keys.len(),
                keys == summary.account_keys@,
                key_verdict(self@, keys) == key_verdict(self@, keys.skip(i as int)),
            decreases keys.len() - i,
        {
            let key: &Pubkey = &summary.account_keys[i];
            assert(keys.skip(i as int)[0] == *key);
            if self.address_blacklist.contains(key) {
                return Some(PbpDrop::Address);
            }
            if self.program_blacklist.contains(key) {
                return Some(PbpDrop::Program);
            }
            assert(keys.skip(i as int).drop_first() =~= keys.skip(i + 1));
            i = i + 1;
        }

        let ghost instructions = summary@.instructions;
        let mut n: usize = 0;
        while n < summary.instructions.len()
            invariant
                n <= instructions.len(),
                instructions == summary@.instructions,
                instructions.len() == summary.instructions@.len(),
                forall|j: int| 0 <= j < n ==> !blocks(self@.rules, #[trigger] instructions[j]),
                key_verdict(self@, summary@.account_keys) is None,
            decreases instructions.len() - n,
        {
            let (program_id, data) = &summary.instructions[n];
            assert(instructions[n as int] == (*program_id, data@));
            if self.blocks_instruction(program_id, data) {
                return Some(PbpDrop::Instruction);
            }
            n = n + 1;
        }
        None
    }
}

proof fn lemma_key_verdict(filter: FilterView, keys: Seq<Pubkey>)
    ensures
        key_verdict(filter, keys) is Some <==> exists|i: int|
            0 <= i < keys.len() && (filter.addresses.contains(#[trigger] keys[i])
                || filter.programs.contains(keys[i])),
        key_verdict(filter, keys) != Some(PbpDrop::Instruction),
    decreases keys.len(),
{
    if keys.len() > 0 {
        let rest = keys.drop_first();
        lemma_key_verdict(filter, rest);
        if exists|i: int|
            0 <= i < keys.len() && (filter.addresses.contains(#[trigger] keys[i])
                || filter.programs.contains(keys[i])) {
            let i = choose|i: int|
                0 <= i < keys.len() && (filter.addresses.contains(#[trigger] keys[i])
                    || filter.programs.contains(keys[i]));
            if i > 0 {
                assert(rest[i - 1] == keys[i]);
            }
        }
        if exists|i: int|
            0 <= i < rest.len() && (filter.addresses.contains(#[trigger] rest[i])
                || filter.programs.contains(rest[i])) {
            let i = choose|i: int|
                0 <= i < rest.len() && (filter.addresses.contains(#[trigger] rest[i])
                    || filter.programs.contains(rest[i]));
            assert(keys[i + 1] == rest[i]);
        }
    }
}

/// A policy that lists nothing drops nothing.
pub proof fn law_empty_policy_drops_nothing(summary: SummaryView)
    ensures
        verdict(empty_filter(), summary) is None,
{
    lemma_key_verdict(empty_filter(), summary.account_keys);
}

/// A packet is dropped exactly where it references a listed account or carries an instruction that
/// a rule blocks.
pub proof fn law_dropped_only_if_listed(filter: FilterView, summary: SummaryView)
    ensures
        verdict(filter, summary) is Some <==> {
            ||| exists|i: int|
                0 <= i < summary.account_keys.len() && (filter.addresses.contains(
                    #[trigger] summary.account_keys[i],
                ) || filter.programs.contains(summary.account_keys[i]))
            ||| exists|i: int|
                0 <= i < summary.instructions.len() && blocks(
                    filter.rules,
                    #[trigger] summary.instructions[i],
                )
        },
{
    lemma_key_verdict(filter, summary.account_keys);
}

/// A blocked program is caught by reference: it does not matter whether the transaction invokes it
/// or only mentions it.
pub proof fn law_referenced_program_is_dropped(
    filter: FilterView,
    summary: SummaryView,
    program: Pubkey,
)
    requires
        filter.programs.contains(program),
        summary.account_keys.contains(program),
    ensures
        verdict(filter, summary) == Some(PbpDrop::Program) || verdict(filter, summary) == Some(
            PbpDrop::Address,
        ),
{
    lemma_key_verdict(filter, summary.account_keys);
    let i = choose|i: int|
        0 <= i < summary.account_keys.len() && summary.account_keys[i] == program;
    assert(filter.programs.contains(summary.account_keys[i]));
}

/// Listing more accounts or programs never lets through what was dropped before.
pub proof fn law_listing_more_keeps_drops(
    filter: FilterView,
    stricter: FilterView,
    summary: SummaryView,
)
    requires
        filter.addresses.subset_of(stricter.addresses),
        filter.programs.subset_of(stricter.programs),
        filter.rules == stricter.rules,
        verdict(filter, summary) is Some,
    ensures
        verdict(stricter, summary) is Some,
{
    law_dropped_only_if_listed(filter, summary);
    law_dropped_only_if_listed(stricter, summary);
    if exists|i: int|
        0 <= i < summary.account_keys.len() && (filter.addresses.contains(
            #[trigger] summary.account_keys[i],
        ) || filter.programs.contains(summary.account_keys[i])) {
        let i = choose|i: int|
            0 <= i < summary.account_keys.len() && (filter.addresses.contains(
                #[trigger] summary.account_keys[i],
            ) || filter.programs.contains(summary.account_keys[i]));
        assert(stricter.addresses.contains(summary.account_keys[i])
            || stricter.programs.contains(summary.account_keys[i]));
    }
}

/// Unresolved means unmatched: where a lookup does not resolve, no account is taken from any
/// table, and the summary is that of the transaction without its lookups.
pub proof fn law_unresolved_is_unmatched(
    tx: TransactionView,
    lookups: Seq<LookupView>,
    tables: Map<Pubkey, Seq<Pubkey>>,
)
    requires
        tx.address_table_lookups == Some(lookups),
        !all_resolve(lookups, tables),
    ensures
        summary_of(tx, tables).account_keys == tx.account_keys,
        summary_of(tx, tables) == summary_of(
            TransactionView { address_table_lookups: None, ..tx },
            tables,
        ),
{
}

/// A program that a transaction invokes through a lookup table is matched like any other: where
/// the lookups resolve, the keys behind the static ones are the loaded addresses in order.
pub proof fn law_loaded_accounts_follow_the_static_ones(
    tx: TransactionView,
    lookups: Seq<LookupView>,
    tables: Map<Pubkey, Seq<Pubkey>>,
)
    requires
        tx.address_table_lookups == Some(lookups),
        all_resolve(lookups, tables),
    ensures
        ({
            let keys = summary_of(tx, tables).account_keys;
            let writable = writable_parts(lookups, tables).flatten();
            let readonly = readonly_parts(lookups, tables).flatten();
            &&& keys.take(tx.account_keys.len() as int) == tx.account_keys
            &&& keys.skip(tx.account_keys.len() as int) == writable + readonly
        }),
{
    let keys = summary_of(tx, tables).account_keys;
    let addresses = writable_parts(lookups, tables).flatten() + readonly_parts(
        lookups,
        tables,
    ).flatten();
    assert(keys == tx.account_keys + addresses);
    assert(keys.take(tx.account_keys.len() as int) =~= tx.account_keys);
    assert(keys.skip(tx.account_keys.len() as int) =~= addresses);
}

/// What is told of a summary, of a policy and of lookups is all that they hold.
pub proof fn law_nothing_is_hidden(
    summary: PacketSummary,
    filter: PbpFilter,
    lookups: Seq<AddressTableLookup>,
)
    ensures
        summary@.account_keys == summary.account_keys@,
        summary@.instructions.len() == summary.instructions@.len(),
        forall|i: int|
            0 <= i < summary.instructions@.len() ==> #[trigger] summary@.instructions[i] == (
                summary.instructions@[i].0,
                summary.instructions@[i].1@,
            ),
        filter@.addresses == filter.address_blacklist@,
        filter@.programs == filter.program_blacklist@,
        forall|k: Pubkey| #[trigger]
            filter@.rules.contains_key(k) <==> filter.instruction_blacklist@.contains_key(k),
        forall|k: Pubkey| #[trigger]
            filter@.rules.contains_key(k) ==> filter@.rules[k].len()
                == filter.instruction_blacklist@[k]@.len(),
        forall|k: Pubkey, j: int|
            filter@.rules.contains_key(k) && 0 <= j < filter@.rules[k].len()
                ==> #[trigger] filter@.rules[k][j] == filter.instruction_blacklist@[k]@[j]@,
        lookup_views(lookups).len() == lookups.len(),
        forall|i: int|
            0 <= i < lookups.len() ==> {
                &&& (#[trigger] lookup_views(lookups)[i]).account_key == lookups[i].account_key
                &&& lookup_views(lookups)[i].writable_indexes == lookups[i].writable_indexes@
                &&& lookup_views(lookups)[i].readonly_indexes == lookups[i].readonly_indexes@
            },
{
}

/// The static keys come first in a summary, as they stand in the transaction, and where there are no
/// lookups they are all there is.
pub proof fn law_static_keys_come_first(tx: TransactionView, tables: Map<Pubkey, Seq<Pubkey>>)
    ensures
        summary_of(tx, tables).account_keys.len() >= tx.account_keys.len(),
        forall|i: int|
            0 <= i < tx.account_keys.len() ==> #[trigger] summary_of(tx, tables).account_keys[i]
                == tx.account_keys[i],
        tx.address_table_lookups is None ==> summary_of(tx, tables).account_keys
            == tx.account_keys,
{
}

/// A single place that cannot be resolved, because its table is not there or is too short, leaves every
/// loaded account out.
pub proof fn law_one_unresolved_place_leaves_all_out(
    tx: TransactionView,
    lookups: Seq<LookupView>,
    tables: Map<Pubkey, Seq<Pubkey>>,
    n: int,
)
    requires
        tx.address_table_lookups == Some(lookups),
        0 <= n < lookups.len(),
        ({
            let table = tables[lookups[n].account_key];
            ||| !tables.contains_key(lookups[n].account_key)
            ||| exists|k: int|
                0 <= k < lookups[n].writable_indexes.len() && table.len() <= (
                #[trigger] lookups[n].writable_indexes[k])
            ||| exists|k: int|
                0 <= k < lookups[n].readonly_indexes.len() && table.len() <= (
                #[trigger] lookups[n].readonly_indexes[k])
        }),
    ensures
        summary_of(tx, tables).account_keys == tx.account_keys,
{
    assert(!resolves(lookups[n], tables));
}

/// Where every place can be resolved, the accounts behind the static keys are those at the places that
/// the lookups name: first all the writable ones, lookup by lookup and in the order in which they are
/// named, then all the read-only ones in the same way. Each of them is referenced.
pub proof fn law_every_named_place_is_referenced(
    tx: TransactionView,
    lookups: Seq<LookupView>,
    tables: Map<Pubkey, Seq<Pubkey>>,
)
    requires
        tx.address_table_lookups == Some(lookups),
        forall|n: int|
            0 <= n < lookups.len() ==> tables.contains_key((#[trigger] lookups[n]).account_key),
        forall|n: int, k: int|
            0 <= n < lookups.len() && 0 <= k < lookups[n].writable_indexes.len() ==> (
            #[trigger] lookups[n].writable_indexes[k]) < tables[lookups[n].account_key].len(),
        forall|n: int, k: int|
            0 <= n < lookups.len() && 0 <= k < lookups[n].readonly_indexes.len() ==> (
            #[trigger] lookups[n].readonly_indexes[k]) < tables[lookups[n].account_key].len(),
    ensures
        ({
            let keys = summary_of(tx, tables).account_keys;
            let writable = lookups.map_values(
                |l: LookupView|
                    l.writable_indexes.map_values(|p: u8| tables[l.account_key][p as int]),
            );
            let readonly = lookups.map_values(
                |l: LookupView|
                    l.readonly_indexes.map_values(|p: u8| tables[l.account_key][p as int]),
            );
            &&& keys == tx.account_keys + writable.flatten() + readonly.flatten()
            &&& forall|n: int, k: int|
                0 <= n < lookups.len() && 0 <= k < lookups[n].writable_indexes.len()
                    ==> keys.contains(
                    tables[lookups[n].account_key][(
                    #[trigger] lookups[n].writable_indexes[k]) as int],
                )
            &&& forall|n: int, k: int|
                0 <= n < lookups.len() && 0 <= k < lookups[n].readonly_indexes.len()
                    ==> keys.contains(
                    tables[lookups[n].account_key][(
                    #[trigger] lookups[n].readonly_indexes[k]) as int],
                )
        }),
{
    let keys = summary_of(tx, tables).account_keys;
    let writable = lookups.map_values(
        |l: LookupView| l.writable_indexes.map_values(|p: u8| tables[l.account_key][p as int]),
    );
    let readonly = lookups.map_values(
        |l: LookupView| l.readonly_indexes.map_values(|p: u8| tables[l.account_key][p as int]),
    );
    assert forall|n: int| 0 <= n < lookups.len() implies resolves(
        #[trigger] lookups[n],
        tables,
    ) by {}
    assert(all_resolve(lookups, tables));
    assert(writable_parts(lookups, tables) =~~= writable);
    assert(readonly_parts(lookups, tables) =~~= readonly);
    let all = tx.account_keys + writable.flatten() + readonly.flatten();
    assert(keys =~= all);
    assert forall|n: int, k: int|
        0 <= n < lookups.len() && 0 <= k < lookups[n].writable_indexes.len() implies keys.contains(
        tables[lookups[n].account_key][(#[trigger] lookups[n].writable_indexes[k]) as int],
    ) by {
        let key = tables[lookups[n].account_key][lookups[n].writable_indexes[k] as int];
        assert(writable[n][k] == key);
        assert(writable[n].contains(key));
        lemma_flatten_contains(writable, key);
        let i = choose|i: int| 0 <= i < writable.flatten().len() && writable.flatten()[i] == key;
        assert(all[tx.account_keys.len() + i] == key);
    }
    assert forall|n: int, k: int|
        0 <= n < lookups.len() && 0 <= k < lookups[n].readonly_indexes.len() implies keys.contains(
        tables[lookups[n].account_key][(#[trigger] lookups[n].readonly_indexes[k]) as int],
    ) by {
        let key = tables[lookups[n].account_key][lookups[n].readonly_indexes[k] as int];
        assert(readonly[n][k] == key);
        assert(readonly[n].contains(key));
        lemma_flatten_contains(readonly, key);
        let i = choose|i: int| 0 <= i < readonly.flatten().len() && readonly.flatten()[i] == key;
        assert(all[tx.account_keys.len() + writable.flatten().len() + i] == key);
    }
}

/// One more instruction makes one more entry of the summary, behind those before it, where its program
/// is among the referenced accounts, and none otherwise; no instruction makes no entry.
pub proof fn law_one_more_instruction(
    tx: TransactionView,
    ix: InstructionView,
    tables: Map<Pubkey, Seq<Pubkey>>,
)
    ensures
        ({
            let before = summary_of(tx, tables);
            let after = summary_of(
                TransactionView { instructions: tx.instructions.push(ix), ..tx },
                tables,
            );
            &&& after.account_keys == before.account_keys
            &&& after.instructions == (if ix.program_id_index < before.account_keys.len() {
                before.instructions.push(
                    (before.account_keys[ix.program_id_index as int], ix.data),
                )
            } else {
                before.instructions
            })
            &&& tx.instructions.len() == 0 ==> before.instructions.len() == 0
        }),
{
    let keys = referenced_keys(tx, tables);
    let known = |ix: InstructionView| ix.program_id_index < keys.len();
    let named = |ix: InstructionView| (keys[ix.program_id_index as int], ix.data);
    tx.instructions.lemma_filter_push(ix, known);
    if known(ix) {
        assert(tx.instructions.filter(known).push(ix).map_values(named)
            =~= tx.instructions.filter(known).map_values(named).push(named(ix)));
    }
    if tx.instructions.len() == 0 {
        reveal(Seq::filter);
    }
}

/// Every top-level instruction whose program is among the referenced accounts is in the summary, with
/// that program and its data, and nothing else is: there are as many entries as such instructions.
pub proof fn law_every_instruction_is_summarised(
    tx: TransactionView,
    tables: Map<Pubkey, Seq<Pubkey>>,
)
    ensures
        ({
            let keys = summary_of(tx, tables).account_keys;
            let found = summary_of(tx, tables).instructions;
            &&& forall|i: int|
                0 <= i < tx.instructions.len() && (
                #[trigger] tx.instructions[i]).program_id_index < keys.len() ==> found.contains(
                    (keys[tx.instructions[i].program_id_index as int], tx.instructions[i].data),
                )
            &&& found.len() == tx.instructions.filter(
                |ix: InstructionView| ix.program_id_index < keys.len(),
            ).len()
            &&& forall|n: int|
                0 <= n < found.len() ==> exists|i: int|
                    0 <= i < tx.instructions.len() && (
                    #[trigger] tx.instructions[i]).program_id_index < keys.len()
                        && #[trigger] found[n] == (
                        keys[tx.instructions[i].program_id_index as int],
                        tx.instructions[i].data,
                    )
        }),
    decreases tx.instructions.len(),
{
    let keys = summary_of(tx, tables).account_keys;
    let found = summary_of(tx, tables).instructions;
    let known = |ix: InstructionView| ix.program_id_index < keys.len();
    if tx.instructions.len() == 0 {
        reveal(Seq::filter);
    } else {
        let last = tx.instructions.last();
        let init = tx.instructions.drop_last();
        let less = TransactionView { instructions: init, ..tx };
        law_every_instruction_is_summarised(less, tables);
        law_one_more_instruction(less, last, tables);
        assert(init.push(last) =~= tx.instructions);
        init.lemma_filter_push(last, known);
        let before = summary_of(less, tables).instructions;
        assert forall|i: int|
            0 <= i < tx.instructions.len() && (#[trigger] tx.instructions[i]).program_id_index
                < keys.len() implies found.contains(
            (keys[tx.instructions[i].program_id_index as int], tx.instructions[i].data),
        ) by {
            let entry = (
                keys[tx.instructions[i].program_id_index as int],
                tx.instructions[i].data,
            );
            if i < init.len() {
                assert(init[i] == tx.instructions[i]);
                assert(before.contains(entry));
                let n = choose|n: int| 0 <= n < before.len() && before[n] == entry;
                assert(found[n] == entry);
            } else {
                assert(found[before.len() as int] == entry);
            }
        }
        assert forall|n: int| 0 <= n < found.len() implies exists|i: int|
            0 <= i < tx.instructions.len() && (#[trigger] tx.instructions[i]).program_id_index
                < keys.len() && #[trigger] found[n] == (
                keys[tx.instructions[i].program_id_index as int],
                tx.instructions[i].data,
            ) by {
            if n < before.len() {
                assert(found[n] == before[n]);
                let i = choose|i: int|
                    0 <= i < init.len() && (#[trigger] init[i]).program_id_index < keys.len()
                        && before[n] == (keys[init[i].program_id_index as int], init[i].data);
                assert(tx.instructions[i] == init[i]);
            } else {
                assert(tx.instructions[tx.instructions.len() - 1] == last);
            }
        }
    }
}

/// The first listed account decides, and counts as an address where it is on both lists.
pub proof fn law_first_listed_account_decides(filter: FilterView, summary: SummaryView, i: int)
    requires
        0 <= i < summary.account_keys.len(),
        forall|j: int|
            0 <= j < i ==> !filter.addresses.contains(#[trigger] summary.account_keys[j])
                && !filter.programs.contains(summary.account_keys[j]),
        filter.addresses.contains(summary.account_keys[i]) || filter.programs.contains(
            summary.account_keys[i],
        ),
    ensures
        verdict(filter, summary) == Some(
            if filter.addresses.contains(summary.account_keys[i]) {
                PbpDrop::Address
            } else {
                PbpDrop::Program
            },
        ),
{
    lemma_first_listed(filter, summary.account_keys, i);
}

/// Where no account is listed, a packet is dropped exactly if one of its instructions is blocked: its
/// program has a rule without prefixes, or one with a prefix all of whose bytes the data starts with.
pub proof fn law_instructions_are_matched_byte_by_byte(filter: FilterView, summary: SummaryView)
    requires
        forall|i: int|
            0 <= i < summary.account_keys.len() ==> !filter.addresses.contains(
                #[trigger] summary.account_keys[i],
            ) && !filter.programs.contains(summary.account_keys[i]),
    ensures
        verdict(filter, summary) == (if exists|i: int|
            0 <= i < summary.instructions.len() && filter.rules.contains_key(
                (#[trigger] summary.instructions[i]).0,
            ) && {
                let rule = filter.rules[summary.instructions[i].0];
                let data = summary.instructions[i].1;
                ||| rule.len() == 0
                ||| exists|j: int|
                    0 <= j < rule.len() && (#[trigger] rule[j]).len() <= data.len() && forall|n: int|
                        0 <= n < rule[j].len() ==> #[trigger] rule[j][n] == data[n]
            } {
            Some(PbpDrop::Instruction)
        } else {
            None
        }),
{
    lemma_key_verdict(filter, summary.account_keys);
    assert forall|i: int| 0 <= i < summary.instructions.len() implies blocks(
        filter.rules,
        #[trigger] summary.instructions[i],
    ) == (filter.rules.contains_key(summary.instructions[i].0) && {
        let rule = filter.rules[summary.instructions[i].0];
        let data = summary.instructions[i].1;
        ||| rule.len() == 0
        ||| exists|j: int|
            0 <= j < rule.len() && (#[trigger] rule[j]).len() <= data.len() && forall|n: int|
                0 <= n < rule[j].len() ==> #[trigger] rule[j][n] == data[n]
    }) by {
        let rule = filter.rules[summary.instructions[i].0];
        let data = summary.instructions[i].1;
        assert forall|j: int| 0 <= j < rule.len() implies (
        #[trigger] rule[j]).is_prefix_of(data) == (rule[j].len() <= data.len() && forall|n: int|
            0 <= n < rule[j].len() ==> #[trigger] rule[j][n] == data[n]) by {
            lemma_prefix_bytes(rule[j], data);
        }
    }
}

proof fn lemma_prefix_bytes(prefix: Seq<u8>, data: Seq<u8>)
    ensures
        prefix.is_prefix_of(data) <==> prefix.len() <= data.len() && forall|n: int|
            0 <= n < prefix.len() ==> #[trigger] prefix[n] == data[n],
{
    if prefix.is_prefix_of(data) {
        assert forall|n: int| 0 <= n < prefix.len() implies #[trigger] prefix[n] == data[n] by {
            assert(data.subrange(0, prefix.len() as int)[n] == data[n]);
        }
    }
    if prefix.len() <= data.len() && forall|n: int|
        0 <= n < prefix.len() ==> #[trigger] prefix[n] == data[n] {
        assert(prefix =~= data.subrange(0, prefix.len() as int));
    }
}

proof fn lemma_first_listed(filter: FilterView, keys: Seq<Pubkey>, i: int)
    requires
        0 <= i < keys.len(),
        forall|j: int|
            0 <= j < i ==> !filter.addresses.contains(#[trigger] keys[j])
                && !filter.programs.contains(keys[j]),
        filter.addresses.contains(keys[i]) || filter.programs.contains(keys[i]),
    ensures
        key_verdict(filter, keys) == Some(
            if filter.addresses.contains(keys[i]) {
                PbpDrop::Address
            } else {
                PbpDrop::Program
            },
        ),
    decreases keys.len(),
{
    if i > 0 {
        let rest = keys.drop_first();
        assert forall|j: int| 0 <= j < i - 1 implies !filter.addresses.contains(#[trigger] rest[j])
            && !filter.programs.contains(rest[j]) by {
            assert(rest[j] == keys[j + 1]);
        }
        assert(!filter.addresses.contains(keys[0]));
        lemma_first_listed(filter, rest, i - 1);
    }
}

/// A transaction that carries a blocked instruction is dropped, wherever in it the instruction stands:
/// one that calls a program which has a rule, with data that starts with all the bytes of a prefix of
/// the rule.
pub proof fn law_blocked_instruction_is_dropped(
    tx: TransactionView,
    tables: Map<Pubkey, Seq<Pubkey>>,
    filter: FilterView,
    i: int,
    j: int,
)
    requires
        0 <= i < tx.instructions.len(),
        tx.instructions[i].program_id_index < summary_of(tx, tables).account_keys.len(),
        ({
            let program = summary_of(
                tx,
                tables,
            ).account_keys[tx.instructions[i].program_id_index as int];
            let data = tx.instructions[i].data;
            &&& filter.rules.contains_key(program)
            &&& filter.rules[program].len() == 0 || {
                &&& 0 <= j < filter.rules[program].len()
                &&& filter.rules[program][j].len() <= data.len()
                &&& forall|n: int|
                    0 <= n < filter.rules[program][j].len()
                        ==> #[trigger] filter.rules[program][j][n] == data[n]
            }
        }),
    ensures
        verdict(filter, summary_of(tx, tables)) is Some,
{
    let summary = summary_of(tx, tables);
    let program = summary.account_keys[tx.instructions[i].program_id_index as int];
    let data = tx.instructions[i].data;
    law_every_instruction_is_summarised(tx, tables);
    assert(summary.instructions.contains((program, data)));
    let m = choose|m: int|
        0 <= m < summary.instructions.len() && summary.instructions[m] == (program, data);
    if filter.rules[program].len() > 0 {
        lemma_prefix_bytes(filter.rules[program][j], data);
        assert(filter.rules[program][j].is_prefix_of(data));
    }
    assert(blocks(filter.rules, summary.instructions[m]));
}

/// What was never listed is let through: no account of the transaction is listed, and each instruction
/// of a program with a rule differs from every prefix of the rule in some byte, or ends before it does.
pub proof fn law_unlisted_is_let_through(filter: FilterView, summary: SummaryView)
    requires
        forall|i: int|
            0 <= i < summary.account_keys.len() ==> !filter.addresses.contains(
                #[trigger] summary.account_keys[i],
            ) && !filter.programs.contains(summary.account_keys[i]),
        forall|i: int|
            0 <= i < summary.instructions.len() && filter.rules.contains_key(
                (#[trigger] summary.instructions[i]).0,
            ) ==> {
                let rule = filter.rules[summary.instructions[i].0];
                let data = summary.instructions[i].1;
                &&& rule.len() > 0
                &&& forall|j: int|
                    0 <= j < rule.len() ==> {
                        ||| data.len() < (#[trigger] rule[j]).len()
                        ||| exists|n: int|
                            0 <= n < rule[j].len() && #[trigger] rule[j][n] != data[n]
                    }
            },
    ensures
        verdict(filter, summary) is None,
{
    lemma_key_verdict(filter, summary.account_keys);
    assert forall|i: int| 0 <= i < summary.instructions.len() implies !blocks(
        filter.rules,
        #[trigger] summary.instructions[i],
    ) by {
        let data = summary.instructions[i].1;
        if filter.rules.contains_key(summary.instructions[i].0) {
            let rule = filter.rules[summary.instructions[i].0];
            assert forall|j: int| 0 <= j < rule.len() implies !(
            #[trigger] rule[j]).is_prefix_of(data) by {
                lemma_prefix_bytes(rule[j], data);
            }
        }
    }
}

/// A policy lists nothing exactly if it has no address, no program and no rule.
pub proof fn law_empty_policy_lists_nothing(filter: FilterView)
    ensures
        filter == empty_filter() <==> {
            &&& forall|k: Pubkey| !filter.addresses.contains(k)
            &&& forall|k: Pubkey| !filter.programs.contains(k)
            &&& forall|k: Pubkey| !filter.rules.contains_key(k)
        },
{
    if (forall|k: Pubkey| !filter.addresses.contains(k)) && (forall|k: Pubkey|
        !filter.programs.contains(k)) && (forall|k: Pubkey| !filter.rules.contains_key(k)) {
        assert(filter.addresses =~= Set::<Pubkey>::empty());
        assert(filter.programs =~= Set::<Pubkey>::empty());
        assert(filter.rules =~= Map::<Pubkey, Seq<Seq<u8>>>::empty());
    }
}

/// Lookups load accounts exactly if every place that they name is there, and those at these places: all
/// the writable ones, lookup by lookup, then all the read-only ones.
pub proof fn law_lookups_load_every_named_place(
    lookups: Seq<LookupView>,
    tables: Map<Pubkey, Seq<Pubkey>>,
)
    ensures
        loaded(lookups, tables) is Some <==> {
            &&& forall|n: int|
                0 <= n < lookups.len() ==> tables.contains_key((#[trigger] lookups[n]).account_key)
            &&& forall|n: int, k: int|
                0 <= n < lookups.len() && 0 <= k < lookups[n].writable_indexes.len() ==> (
                #[trigger] lookups[n].writable_indexes[k]) < tables[lookups[n].account_key].len()
            &&& forall|n: int, k: int|
                0 <= n < lookups.len() && 0 <= k < lookups[n].readonly_indexes.len() ==> (
                #[trigger] lookups[n].readonly_indexes[k]) < tables[lookups[n].account_key].len()
        },
        loaded(lookups, tables) matches Some(keys) ==> keys == lookups.map_values(
            |l: LookupView|
                l.writable_indexes.map_values(|p: u8| tables[l.account_key][p as int]),
        ).flatten() + lookups.map_values(
            |l: LookupView|
                l.readonly_indexes.map_values(|p: u8| tables[l.account_key][p as int]),
        ).flatten(),
{
    let writable = lookups.map_values(
        |l: LookupView| l.writable_indexes.map_values(|p: u8| tables[l.account_key][p as int]),
    );
    let readonly = lookups.map_values(
        |l: LookupView| l.readonly_indexes.map_values(|p: u8| tables[l.account_key][p as int]),
    );
    assert(writable_parts(lookups, tables) =~~= writable);
    assert(readonly_parts(lookups, tables) =~~= readonly);
    if loaded(lookups, tables) is Some {
        assert forall|n: int| 0 <= n < lookups.len() implies tables.contains_key(
            (#[trigger] lookups[n]).account_key,
        ) by {
            assert(resolves(lookups[n], tables));
        }
        assert forall|n: int, k: int|
            0 <= n < lookups.len() && 0 <= k < lookups[n].writable_indexes.len() implies (
        #[trigger] lookups[n].writable_indexes[k]) < tables[lookups[n].account_key].len() by {
            assert(resolves(lookups[n], tables));
        }
        assert forall|n: int, k: int|
            0 <= n < lookups.len() && 0 <= k < lookups[n].readonly_indexes.len() implies (
        #[trigger] lookups[n].readonly_indexes[k]) < tables[lookups[n].account_key].len() by {
            assert(resolves(lookups[n], tables));
        }
    }
}

} // verus!
