//! The digest by which a validator tells whether two parties hold the same policy.

use vstd::prelude::*;
use vstd::string::*;
use vstd::utf8::encode_utf8;

use crate::hex::{hex_bytes, hex_of};
use crate::order::{in_order, law_first_difference_decides, law_in_order_is_ascending, lemma_in_order_same, lemma_in_order_unique, lemma_lex_total_ordering, lex_order, sort, views};
use crate::pbp::{FilterView, PbpFilter};
use crate::policy_text::{lemma_in_order_holds, lemma_listed, lemma_same_text, listable, same_enforcement};
use crate::pubkey::{key_readable, pubkey_text, text_of_pubkey, Pubkey};

verus! {

/// The SHA-256 hash of a byte string.
pub uninterp spec fn sha256_of(data: Seq<u8>) -> [u8; 32];

/// The base58 text of a hash.
pub uninterp spec fn text_of_hash(hash: [u8; 32]) -> Seq<char>;

/// `solana_sha256_hasher::hash`: the SHA-256 hash of the data.
#[verifier::external_body]
fn sha256(data: &[u8]) -> (r: [u8; 32])
    ensures
        r == sha256_of(data@),
{
    solana_sha256_hasher::hash(data).to_bytes()
}

/// `Display` of `solana_hash`'s `Hash`: the hash in base58. The text of 32 bytes has at least one
/// character for each byte and at most 44.
#[verifier::external_body]
fn hash_text(hash: &[u8; 32]) -> (r: String)
    ensures
        r@ == text_of_hash(*hash),
        32 <= r@.len() <= 44,
{
    solana_hash::Hash::new_from_array(*hash).to_string()
}

/// The parts with a separator between each two.
pub open spec fn joined(parts: Seq<Seq<u8>>, separator: u8) -> Seq<u8>
    decreases parts.len(),
{
    if parts.len() == 0 {
        Seq::empty()
    } else if parts.len() == 1 {
        parts[0]
    } else {
        joined(parts.drop_last(), separator).push(separator) + parts.last()
    }
}

/// A key with the tag of the list that it is on: `a:` for an address, `p:` for a program.
pub open spec fn key_part(tag: u8, key: Pubkey) -> Seq<u8> {
    seq![tag, 0x3au8] + encode_utf8(text_of_pubkey(key))
}

/// The hexadecimal texts of the prefixes.
pub open spec fn prefix_texts(prefixes: Seq<Seq<u8>>) -> Seq<Seq<u8>> {
    prefixes.map_values(|p: Seq<u8>| hex_of(p))
}

/// An instruction rule: `i:`, the program, a colon, and its prefixes in order between commas.
pub open spec fn rule_part(key: Pubkey, prefixes: Seq<Seq<u8>>) -> Seq<u8> {
    key_part(0x69, key).push(0x3a) + joined(in_order(prefix_texts(prefixes)), 0x2c)
}

/// The parts of a list of tagged keys, in order.
pub open spec fn key_parts(tag: u8, keys: Set<Pubkey>) -> Seq<Seq<u8>> {
    in_order(keys.to_seq().map_values(|k: Pubkey| key_part(tag, k)))
}

/// The parts of the instruction rules, in order.
pub open spec fn rule_parts(rules: Map<Pubkey, Seq<Seq<u8>>>) -> Seq<Seq<u8>> {
    in_order(rules.dom().to_seq().map_values(|k: Pubkey| rule_part(k, rules[k])))
}

/// The text of a policy: its addresses, programs and instruction rules, each list in order, with
/// bars between the entries.
pub open spec fn policy_text(filter: FilterView) -> Seq<u8> {
    joined(
        key_parts(0x61, filter.addresses) + key_parts(0x70, filter.programs) + rule_parts(
            filter.rules,
        ),
        0x7c,
    )
}

/// The digest of a policy: the first 16 characters of the base58 text of the hash of its text.
pub open spec fn digest_of(filter: FilterView) -> Seq<char> {
    text_of_hash(sha256_of(policy_text(filter))).take(16)
}

/// Mapping two lists of the same things, each as often, gives two such lists.
proof fn lemma_map_same<A, B>(a: Seq<A>, b: Seq<A>, f: spec_fn(A) -> B)
    requires
        a.to_multiset() == b.to_multiset(),
    ensures
        a.map_values(f).to_multiset() == b.map_values(f).to_multiset(),
    decreases a.len(),
{
    broadcast use vstd::seq_lib::group_to_multiset_ensures;
    broadcast use vstd::multiset::group_multiset_axioms;

    assert(a.len() == a.to_multiset().len());
    assert(b.len() == b.to_multiset().len());
    if a.len() == 0 {
        assert(a.map_values(f) =~= b.map_values(f));
    } else {
        let x = a.last();
        assert(a.contains(x));
        assert(b.to_multiset().count(x) > 0);
        assert(b.contains(x));
        let i = choose|i: int| 0 <= i < b.len() && b[i] == x;
        let less = b.remove(i);
        assert(a.drop_last() =~= a.remove(a.len() - 1));
        lemma_map_same(a.drop_last(), less, f);
        assert(a.map_values(f) =~= a.drop_last().map_values(f).push(f(x)));
        assert(b.map_values(f) =~= less.map_values(f).insert(i, f(x)));
        assert(a.map_values(f).to_multiset() =~= b.map_values(f).to_multiset());
    }
}

/// Two lists without repetition of the same set hold the same things equally often.
proof fn lemma_same_set<A>(a: Seq<A>, b: Seq<A>)
    requires
        a.no_duplicates(),
        b.no_duplicates(),
        a.to_set() == b.to_set(),
    ensures
        a.to_multiset() == b.to_multiset(),
{
    broadcast use vstd::seq_lib::group_to_multiset_ensures;

    a.lemma_multiset_has_no_duplicates();
    b.lemma_multiset_has_no_duplicates();
    assert forall|x: A| a.to_multiset().count(x) == b.to_multiset().count(x) by {
        assert(a.contains(x) <==> a.to_set().contains(x));
        assert(b.contains(x) <==> b.to_set().contains(x));
    }
    assert(a.to_multiset() =~= b.to_multiset());
}

proof fn lemma_to_seq_distinct<A>(s: Set<A>)
    requires
        s.finite(),
    ensures
        s.to_seq().no_duplicates(),
        s.to_seq().to_set() == s,
    decreases s.len(),
{
    s.lemma_to_seq_to_set_id();
    if s.len() > 0 {
        let x = s.choose();
        let rest = s.remove(x).to_seq();
        lemma_to_seq_distinct(s.remove(x));
        assert(s.to_seq() =~= seq![x] + rest);
        assert forall|i: int, j: int|
            0 <= i < s.to_seq().len() && 0 <= j < s.to_seq().len() && i != j implies s.to_seq()[i]
            != s.to_seq()[j] by {
            if i == 0 || j == 0 {
                let n = if i == 0 { j - 1 } else { i - 1 };
                assert(rest.to_set().contains(rest[n]));
            }
        }
    }
}

/// However a set is listed, the parts made of it come in the same order.
proof fn lemma_listing(keys: Seq<Pubkey>, set: Set<Pubkey>, f: spec_fn(Pubkey) -> Seq<u8>)
    requires
        keys.no_duplicates(),
        keys.to_set() == set,
    ensures
        in_order(keys.map_values(f)) == in_order(set.to_seq().map_values(f)),
{
    vstd::seq_lib::seq_to_set_is_finite(keys);
    lemma_to_seq_distinct(set);
    lemma_same_set(keys, set.to_seq());
    lemma_map_same(keys, set.to_seq(), f);
    lemma_in_order_same(keys.map_values(f), set.to_seq().map_values(f));
}

/// The parts with a separator between each two.
fn join(parts: &Vec<Vec<u8>>, separator: u8) -> (r: Vec<u8>)
    ensures
        r@ == joined(views(parts@), separator),
{
    let mut r: Vec<u8> = Vec::new();
    let mut i: usize = 0;
    while i < parts.len()
        invariant
            i <= parts@.len(),
            r@ == joined(views(parts@).take(i as int), separator),
        decreases parts@.len() - i,
    {
        let ghost some = views(parts@).take(i as int);
        let ghost more = views(parts@).take(i + 1);
        if i > 0 {
            r.push(separator);
        }
        r.extend_from_slice(parts[i].as_slice());
        proof {
            assert(more.drop_last() =~= some);
            assert(more.last() == parts@[i as int]@);
            assert(r@ =~= joined(more, separator));
        }
        i = i + 1;
    }
    assert(views(parts@).take(parts@.len() as int) =~= views(parts@));
    r
}

fn tagged_key(tag: u8, key: &Pubkey) -> (r: Vec<u8>)
    ensures
        r@ == key_part(tag, *key),
        key_readable(*key),
{
    let mut r: Vec<u8> = Vec::new();
    r.push(tag);
    r.push(0x3a);
    let text: String = pubkey_text(key);
    r.extend_from_slice(text.as_str().as_bytes());
    assert(r@ =~= key_part(tag, *key));
    r
}

fn tagged_keys(tag: u8, keys: &Vec<Pubkey>) -> (r: Vec<Vec<u8>>)
    requires
        keys@.no_duplicates(),
    ensures
        views(r@) == key_parts(tag, keys@.to_set()),
        forall|k: Pubkey| #[trigger] keys@.to_set().contains(k) ==> key_readable(k),
        keys@.to_set().finite(),
{
    let ghost part = |k: Pubkey| key_part(tag, k);
    let mut parts: Vec<Vec<u8>> = Vec::new();
    let mut i: usize = 0;
    while i < keys.len()
        invariant
            i <= keys@.len(),
            part == (|k: Pubkey| key_part(tag, k)),
            views(parts@) == keys@.take(i as int).map_values(part),
            forall|n: int| 0 <= n < i ==> key_readable(#[trigger] keys@[n]),
        decreases keys@.len() - i,
    {
        let ghost some = parts@;
        parts.push(tagged_key(tag, &keys[i]));
        proof {
            assert(views(parts@) =~= views(some).push(part(keys@[i as int])));
            assert(keys@.take(i + 1).map_values(part) =~= keys@.take(i as int).map_values(
                part,
            ).push(part(keys@[i as int])));
        }
        i = i + 1;
    }
    proof {
        assert(keys@.take(keys@.len() as int) =~= keys@);
        lemma_listing(keys@, keys@.to_set(), part);
        vstd::seq_lib::seq_to_set_is_finite(keys@);
    }
    sort(parts)
}

fn tagged_rule(key: &Pubkey, prefixes: &Vec<Vec<u8>>) -> (r: Vec<u8>)
    ensures
        r@ == rule_part(*key, views(prefixes@)),
        key_readable(*key),
{
    let mut texts: Vec<Vec<u8>> = Vec::new();
    let mut i: usize = 0;
    while i < prefixes.len()
        invariant
            i <= prefixes@.len(),
            views(texts@) == prefix_texts(views(prefixes@).take(i as int)),
        decreases prefixes@.len() - i,
    {
        let ghost some = texts@;
        texts.push(hex_bytes(&prefixes[i]));
        proof {
            assert(views(texts@) =~= views(some).push(hex_of(prefixes@[i as int]@)));
            assert(prefix_texts(views(prefixes@).take(i + 1)) =~= prefix_texts(
                views(prefixes@).take(i as int),
            ).push(hex_of(prefixes@[i as int]@)));
        }
        i = i + 1;
    }
    assert(views(prefixes@).take(prefixes@.len() as int) =~= views(prefixes@));
    let mut r: Vec<u8> = tagged_key(0x69, key);
    r.push(0x3a);
    let list: Vec<u8> = join(&sort(texts), 0x2c);
    r.extend_from_slice(list.as_slice());
    assert(r@ =~= rule_part(*key, views(prefixes@)));
    r
}

fn tagged_rules(filter: &PbpFilter) -> (r: Vec<Vec<u8>>)
    ensures
        views(r@) == rule_parts(filter@.rules),
        forall|k: Pubkey| #[trigger] filter@.rules.contains_key(k) ==> key_readable(k),
        filter@.rules.dom().finite(),
{
    let ghost rules = filter@.rules;
    let keys: Vec<Pubkey> = filter.instruction_blacklist.keys();
    let ghost part = |k: Pubkey| rule_part(k, rules[k]);
    let mut parts: Vec<Vec<u8>> = Vec::new();
    let mut i: usize = 0;
    while i < keys.len()
        invariant
            i <= keys@.len(),
            keys@ == filter.instruction_blacklist.order(),
            rules == filter@.rules,
            part == (|k: Pubkey| rule_part(k, rules[k])),
            views(parts@) == keys@.take(i as int).map_values(part),
            forall|n: int| 0 <= n < i ==> key_readable(#[trigger] keys@[n]),
        decreases keys@.len() - i,
    {
        let ghost some = parts@;
        let (key, prefixes) = filter.instruction_blacklist.entry_at(i);
        parts.push(tagged_rule(&key, prefixes));
        proof {
            assert(rules[key] == views(prefixes@));
            assert(views(parts@) =~= views(some).push(part(keys@[i as int])));
            assert(keys@.take(i + 1).map_values(part) =~= keys@.take(i as int).map_values(
                part,
            ).push(part(keys@[i as int])));
        }
        i = i + 1;
    }
    proof {
        assert(keys@.take(keys@.len() as int) =~= keys@);
        assert(rules.dom() =~= filter.instruction_blacklist@.dom());
        lemma_listing(keys@, rules.dom(), part);
        vstd::seq_lib::seq_to_set_is_finite(keys@);
        assert forall|k: Pubkey| #[trigger] rules.contains_key(k) implies key_readable(k) by {
            assert(keys@.to_set().contains(k));
            let n = choose|n: int| 0 <= n < keys@.len() && keys@[n] == k;
            assert(key_readable(keys@[n]));
        }
    }
    sort(parts)
}

/// Stable digest of a stored policy, so the validator can tell whether the relayer and the block
/// engine are holding the same thing. Sorted, because set iteration order is not stable and a
/// digest that changes on its own is worse than no digest.
///
/// What the digest is made of tells what the policy enforces: another policy with the same text
/// drops the same packets, each for the same reason.
pub fn policy_digest(filter: &PbpFilter) -> (r: String)
    ensures
        r@ == digest_of(filter@),
        r@.len() == 16,
        listable(filter@),
        forall|other: FilterView|
            listable(other) && #[trigger] policy_text(other) == policy_text(filter@)
                ==> same_enforcement(filter@, other),
{
    let mut parts: Vec<Vec<u8>> = tagged_keys(0x61, &filter.address_blacklist.to_vec());
    let mut programs: Vec<Vec<u8>> = tagged_keys(0x70, &filter.program_blacklist.to_vec());
    let mut rules: Vec<Vec<u8>> = tagged_rules(filter);
    let ghost all = views(parts@) + views(programs@) + views(rules@);
    parts.append(&mut programs);
    parts.append(&mut rules);
    assert(views(parts@) =~= all);
    let text: Vec<u8> = join(&parts, 0x7c);
    let hash: [u8; 32] = sha256(text.as_slice());
    let digest: String = hash_text(&hash);
    let short: &str = digest.as_str().substring_char(0, 16);
    assert(short@ =~= digest@.take(16));
    proof {
        assert forall|other: FilterView|
            listable(other) && #[trigger] policy_text(other) == policy_text(
                filter@,
            ) implies same_enforcement(filter@, other) by {
            lemma_same_text(filter@, other);
        }
    }
    short.to_owned()
}

/// Only what a policy lists counts: two policies with the same addresses, the same programs and,
/// for each program with a rule, the same prefixes in whatever order, have the same digest.
pub proof fn law_digest_ignores_order(a: FilterView, b: FilterView)
    requires
        a.addresses == b.addresses,
        a.programs == b.programs,
        a.rules.dom() == b.rules.dom(),
        forall|k: Pubkey| #[trigger]
            a.rules.contains_key(k) ==> a.rules[k].to_multiset() == b.rules[k].to_multiset(),
        a.rules.dom().finite(),
    ensures
        policy_text(a) == policy_text(b),
        digest_of(a) == digest_of(b),
{
    let keys = a.rules.dom().to_seq();
    lemma_to_seq_distinct(a.rules.dom());
    let f = |k: Pubkey| rule_part(k, a.rules[k]);
    let g = |k: Pubkey| rule_part(k, b.rules[k]);
    let hex = |p: Seq<u8>| hex_of(p);
    assert forall|i: int| 0 <= i < keys.len() implies f(#[trigger] keys[i]) == g(keys[i]) by {
        let k = keys[i];
        assert(keys.to_set().contains(k));
        assert(a.rules.contains_key(k));
        lemma_map_same(a.rules[k], b.rules[k], hex);
        lemma_in_order_same(prefix_texts(a.rules[k]), prefix_texts(b.rules[k]));
    }
    assert(keys.map_values(f) =~= keys.map_values(g));
}

/// One more part stands at the end, with the separator before it unless it is the only one; no parts
/// make an empty text.
pub proof fn law_one_more_part(parts: Seq<Seq<u8>>, part: Seq<u8>, separator: u8)
    ensures
        parts.len() == 0 ==> joined(parts, separator).len() == 0,
        parts.len() == 0 ==> joined(parts.push(part), separator) == part,
        parts.len() > 0 ==> joined(parts.push(part), separator) == joined(parts, separator) + seq![
            separator,
        ] + part,
{
    assert(parts.push(part).drop_last() =~= parts);
    if parts.len() > 0 {
        assert(joined(parts.push(part), separator) =~= joined(parts, separator) + seq![separator]
            + part);
    }
}

/// The text of a policy is its addresses, its programs and its rules, in this order, with bars between,
/// and the digest is the first 16 characters of the text of its hash.
pub proof fn law_text_of_the_three_lists(filter: FilterView)
    ensures
        policy_text(filter) == joined(
            key_parts(0x61, filter.addresses) + key_parts(0x70, filter.programs) + rule_parts(
                filter.rules,
            ),
            0x7c,
        ),
        digest_of(filter).len() == 16 || text_of_hash(sha256_of(policy_text(filter))).len() < 16,
        forall|i: int|
            0 <= i < 16 && 16 <= text_of_hash(sha256_of(policy_text(filter))).len()
                ==> #[trigger] digest_of(filter)[i] == text_of_hash(
                sha256_of(policy_text(filter)),
            )[i],
{
}

/// The entries of each list stand in ascending order of their bytes: of any two entries, the earlier is
/// a prefix of the later, or has the smaller byte where they first differ.
pub proof fn law_entries_ascend(
    tag: u8,
    keys: Set<Pubkey>,
    rules: Map<Pubkey, Seq<Seq<u8>>>,
    i: int,
    j: int,
)
    ensures
        0 <= i < j < key_parts(tag, keys).len() ==> {
            let a = key_parts(tag, keys)[i];
            let b = key_parts(tag, keys)[j];
            ||| a.len() <= b.len() && forall|k: int| 0 <= k < a.len() ==> #[trigger] a[k] == b[k]
            ||| exists|n: int|
                0 <= n < a.len() && n < b.len() && #[trigger] a[n] < b[n] && forall|k: int|
                    0 <= k < n ==> #[trigger] a[k] == b[k]
        },
        0 <= i < j < rule_parts(rules).len() ==> {
            let a = rule_parts(rules)[i];
            let b = rule_parts(rules)[j];
            ||| a.len() <= b.len() && forall|k: int| 0 <= k < a.len() ==> #[trigger] a[k] == b[k]
            ||| exists|n: int|
                0 <= n < a.len() && n < b.len() && #[trigger] a[n] < b[n] && forall|k: int|
                    0 <= k < n ==> #[trigger] a[k] == b[k]
        },
{
    law_in_order_is_ascending(keys.to_seq().map_values(|k: Pubkey| key_part(tag, k)));
    law_in_order_is_ascending(
        rules.dom().to_seq().map_values(|k: Pubkey| rule_part(k, rules[k])),
    );
}

/// Each key of a list has one entry, its tag, a colon and its text, and there are no others.
pub proof fn law_each_key_has_its_entry(tag: u8, keys: Set<Pubkey>, entry: Seq<u8>)
    requires
        keys.finite(),
    ensures
        key_parts(tag, keys).len() == keys.len(),
        key_parts(tag, keys).contains(entry) <==> exists|k: Pubkey| #[trigger]
            keys.contains(k) && entry == seq![tag, 0x3au8] + encode_utf8(text_of_pubkey(k)),
{
    let f = |k: Pubkey| key_part(tag, k);
    let list = keys.to_seq();
    lemma_to_seq_distinct(keys);
    list.unique_seq_to_set();
    lemma_in_order_holds(list.map_values(f));
    lemma_listed(keys, f);
    if exists|k: Pubkey| #[trigger]
        keys.contains(k) && entry == seq![tag, 0x3au8] + encode_utf8(text_of_pubkey(k)) {
        let k = choose|k: Pubkey| #[trigger]
            keys.contains(k) && entry == seq![tag, 0x3au8] + encode_utf8(text_of_pubkey(k));
        assert(keys.contains(k) && entry == f(k));
    }
    if list.map_values(f).contains(entry) {
        let k = choose|k: Pubkey| #[trigger] keys.contains(k) && entry == f(k);
        assert(entry == seq![tag, 0x3au8] + encode_utf8(text_of_pubkey(k)));
    }
}

/// Each rule has one entry: `i:`, the text of its program, a colon, and the hexadecimal texts of its
/// prefixes, each as often as it has the prefix, in ascending order between commas.
pub proof fn law_each_rule_has_its_entry(rules: Map<Pubkey, Seq<Seq<u8>>>, program: Pubkey)
    requires
        rules.dom().finite(),
    ensures
        rule_parts(rules).len() == rules.dom().len(),
        rules.contains_key(program) ==> {
            let texts = in_order(rules[program].map_values(|p: Seq<u8>| hex_of(p)));
            rule_parts(rules).contains(
                seq![0x69u8, 0x3au8] + encode_utf8(text_of_pubkey(program)) + seq![0x3au8] + joined(
                    texts,
                    0x2c,
                ),
            )
        },
        forall|entry: Seq<u8>| #[trigger]
            rule_parts(rules).contains(entry) ==> exists|k: Pubkey| #[trigger]
                rules.contains_key(k) && entry == seq![0x69u8, 0x3au8] + encode_utf8(
                    text_of_pubkey(k),
                ) + seq![0x3au8] + joined(
                    in_order(rules[k].map_values(|p: Seq<u8>| hex_of(p))),
                    0x2c,
                ),
{
    let keys = rules.dom();
    let f = |k: Pubkey| rule_part(k, rules[k]);
    let hex = |p: Seq<u8>| hex_of(p);
    let list = keys.to_seq();
    lemma_to_seq_distinct(keys);
    list.unique_seq_to_set();
    lemma_in_order_holds(list.map_values(f));
    lemma_listed(keys, f);
    assert forall|k: Pubkey| #[trigger] rules.contains_key(k) implies f(k) == seq![0x69u8, 0x3au8]
        + encode_utf8(text_of_pubkey(k)) + seq![0x3au8] + joined(
        in_order(rules[k].map_values(hex)),
        0x2c,
    ) by {
        assert(f(k) =~= seq![0x69u8, 0x3au8] + encode_utf8(text_of_pubkey(k)) + seq![0x3au8]
            + joined(in_order(rules[k].map_values(hex)), 0x2c));
    }
    if rules.contains_key(program) {
        assert(keys.contains(program) && f(program) == f(program));
        assert(list.map_values(f).contains(f(program)));
    }
    assert forall|entry: Seq<u8>| #[trigger] rule_parts(rules).contains(entry) implies exists|
        k: Pubkey,
    | #[trigger]
        rules.contains_key(k) && entry == seq![0x69u8, 0x3au8] + encode_utf8(text_of_pubkey(k))
            + seq![0x3au8] + joined(in_order(rules[k].map_values(|p: Seq<u8>| hex_of(p))), 0x2c) by {
        let k = choose|k: Pubkey| #[trigger] keys.contains(k) && entry == f(k);
        assert(rules.contains_key(k));
    }
}

/// Keys whose texts ascend stand in the text in this order: entry `i` is the tag, a colon and the text
/// of key `i`.
pub proof fn law_keys_stand_in_order_of_their_texts(tag: u8, keys: Seq<Pubkey>)
    requires
        forall|i: int, j: int|
            0 <= i < j < keys.len() ==> {
                let a = encode_utf8(text_of_pubkey(#[trigger] keys[i]));
                let b = encode_utf8(text_of_pubkey(#[trigger] keys[j]));
                ||| a.len() < b.len() && forall|k: int| 0 <= k < a.len() ==> #[trigger] a[k] == b[k]
                ||| exists|n: int|
                    0 <= n < a.len() && n < b.len() && #[trigger] a[n] < b[n] && forall|k: int|
                        0 <= k < n ==> #[trigger] a[k] == b[k]
            },
    ensures
        key_parts(tag, keys.to_set()).len() == keys.len(),
        forall|i: int|
            0 <= i < keys.len() ==> #[trigger] key_parts(tag, keys.to_set())[i] == seq![tag, 0x3au8]
                + encode_utf8(text_of_pubkey(keys[i])),
{
    let f = |k: Pubkey| key_part(tag, k);
    let parts = keys.map_values(f);
    let leq = lex_order();
    assert forall|i: int, j: int| 0 <= i < j < keys.len() implies leq(
        #[trigger] parts[i],
        #[trigger] parts[j],
    ) && keys[i] != keys[j] by {
        let a = encode_utf8(text_of_pubkey(keys[i]));
        let b = encode_utf8(text_of_pubkey(keys[j]));
        let n = if a.len() < b.len() && forall|k: int| 0 <= k < a.len() ==> #[trigger] a[k] == b[k] {
            a.len() as int
        } else {
            choose|n: int|
                0 <= n < a.len() && n < b.len() && #[trigger] a[n] < b[n] && forall|k: int|
                    0 <= k < n ==> #[trigger] a[k] == b[k]
        };
        assert forall|k: int| 0 <= k < n + 2 implies #[trigger] parts[i][k] == parts[j][k] by {
            if k >= 2 {
                assert(parts[i][k] == a[k - 2]);
                assert(parts[j][k] == b[k - 2]);
                assert(a[k - 2] == b[k - 2]);
            }
        }
        law_first_difference_decides(parts[i], parts[j], n + 2);
        if n < a.len() {
            assert(parts[i][n + 2] == a[n]);
            assert(parts[j][n + 2] == b[n]);
        }
    }
    lemma_lex_total_ordering();
    assert(keys.no_duplicates()) by {
        assert forall|i: int, j: int|
            0 <= i < keys.len() && 0 <= j < keys.len() && i != j implies keys[i] != keys[j] by {
            if i < j {
                assert(leq(parts[i], parts[j]));
            } else {
                assert(leq(parts[j], parts[i]));
            }
        }
    }
    lemma_listing(keys, keys.to_set(), f);
    lemma_in_order_unique(parts, parts);
}

/// A policy that lists just two addresses, of texts `s` and `t` where `s` has the smaller byte in the
/// first place in which they differ, or ends there, has the text `a:s|a:t`.
pub proof fn law_text_of_two_addresses(first: Pubkey, second: Pubkey, n: int)
    requires
        ({
            let s = encode_utf8(text_of_pubkey(first));
            let t = encode_utf8(text_of_pubkey(second));
            &&& 0 <= n <= s.len() && n < t.len()
            &&& n == s.len() || s[n] < t[n]
            &&& forall|k: int| 0 <= k < n ==> #[trigger] s[k] == t[k]
        }),
    ensures
        policy_text(
            FilterView {
                addresses: set![first, second],
                programs: Set::empty(),
                rules: Map::empty(),
            },
        ) == seq![0x61u8, 0x3au8] + encode_utf8(text_of_pubkey(first)) + seq![0x7cu8] + seq![
            0x61u8,
            0x3au8,
        ] + encode_utf8(text_of_pubkey(second)),
{
    let keys = seq![first, second];
    let rules = Map::<Pubkey, Seq<Seq<u8>>>::empty();
    law_keys_stand_in_order_of_their_texts(0x61, keys);
    assert(keys.to_set() =~= set![first, second]) by {
        assert(keys[0] == first && keys[1] == second);
        assert(keys.contains(first) && keys.contains(second));
    }
    let a = key_parts(0x61, set![first, second]);
    law_each_key_has_its_entry(0x70, Set::empty(), Seq::empty());
    law_each_rule_has_its_entry(rules, first);
    assert(rules.dom() =~= Set::<Pubkey>::empty());
    assert(a + key_parts(0x70, Set::empty()) + rule_parts(rules) =~= a);
    assert(a =~= seq![a[0]].push(a[1]));
    law_one_more_part(Seq::empty(), a[0], 0x7c);
    assert(Seq::<Seq<u8>>::empty().push(a[0]) =~= seq![a[0]]);
    law_one_more_part(seq![a[0]], a[1], 0x7c);
    assert(policy_text(
        FilterView {
            addresses: set![first, second],
            programs: Set::empty(),
            rules: Map::empty(),
        },
    ) =~= seq![0x61u8, 0x3au8] + encode_utf8(text_of_pubkey(first)) + seq![0x7cu8] + seq![
        0x61u8,
        0x3au8,
    ] + encode_utf8(text_of_pubkey(second)));
}

} // verus!
