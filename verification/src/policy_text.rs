//! The text of a policy tells what the policy enforces: the digest is made of it, and two parties
//! compare their digests to see whether they enforce the same.

use vstd::prelude::*;
use vstd::utf8::{encode_utf8, is_ascii_chars, is_ascii_chars_encode_utf8};

use crate::digest::{joined, key_part, key_parts, policy_text, prefix_texts, rule_part, rule_parts};
use crate::hex::{hex_of, law_hex_round_trip};
use crate::order::{in_order, lemma_lex_total_ordering, lex_order};
use crate::pbp::{blocks, key_verdict, verdict, FilterView, SummaryView};
use crate::pubkey::{key_readable, text_of_pubkey, Pubkey};

verus! {

/// The lists of the policy end, and the texts of the keys on them can be read back.
pub open spec fn listable(filter: FilterView) -> bool {
    &&& filter.addresses.finite()
    &&& filter.programs.finite()
    &&& filter.rules.dom().finite()
    &&& forall|k: Pubkey| #[trigger] filter.addresses.contains(k) ==> key_readable(k)
    &&& forall|k: Pubkey| #[trigger] filter.programs.contains(k) ==> key_readable(k)
    &&& forall|k: Pubkey| #[trigger] filter.rules.contains_key(k) ==> key_readable(k)
}

/// The policies drop the same packets, each for the same reason.
pub open spec fn same_enforcement(a: FilterView, b: FilterView) -> bool {
    forall|summary: SummaryView| #[trigger] verdict(a, summary) == verdict(b, summary)
}

/// The byte does not occur.
spec fn free_of(bytes: Seq<u8>, byte: u8) -> bool {
    forall|i: int| 0 <= i < bytes.len() ==> #[trigger] bytes[i] != byte
}

/// The byte does not occur in any of the parts.
spec fn all_free_of(parts: Seq<Seq<u8>>, byte: u8) -> bool {
    forall|i: int| 0 <= i < parts.len() ==> free_of(#[trigger] parts[i], byte)
}

proof fn lemma_joined_many(parts: Seq<Seq<u8>>, separator: u8)
    requires
        parts.len() > 1,
    ensures
        ({
            let init = joined(parts.drop_last(), separator);
            let text = joined(parts, separator);
            &&& text == init.push(separator) + parts.last()
            &&& text.len() == init.len() + 1 + parts.last().len()
            &&& text[init.len() as int] == separator
            &&& text.take(init.len() as int) == init
            &&& text.skip(init.len() as int + 1) == parts.last()
        }),
{
    let init = joined(parts.drop_last(), separator);
    let text = joined(parts, separator);
    assert(text.take(init.len() as int) =~= init);
    assert(text.skip(init.len() as int + 1) =~= parts.last());
}

/// Parts that the separator does not occur in can be told from what they are joined to.
proof fn lemma_joined_injective(a: Seq<Seq<u8>>, b: Seq<Seq<u8>>, separator: u8)
    requires
        a.len() > 0,
        b.len() > 0,
        all_free_of(a, separator),
        all_free_of(b, separator),
        joined(a, separator) == joined(b, separator),
    ensures
        a == b,
    decreases a.len(),
{
    let text = joined(a, separator);
    assert(free_of(a[a.len() - 1], separator));
    assert(free_of(b[b.len() - 1], separator));
    if a.len() == 1 {
        if b.len() > 1 {
            lemma_joined_many(b, separator);
            assert(a[0][joined(b.drop_last(), separator).len() as int] == separator);
        }
        assert(a =~= b);
    } else if b.len() == 1 {
        lemma_joined_many(a, separator);
        assert(b[0][joined(a.drop_last(), separator).len() as int] == separator);
    } else {
        lemma_joined_many(a, separator);
        lemma_joined_many(b, separator);
        let x = joined(a.drop_last(), separator).len() as int;
        let y = joined(b.drop_last(), separator).len() as int;
        if x < y {
            assert(text.skip(x + 1)[y - x - 1] == separator);
        } else if y < x {
            assert(text.skip(y + 1)[x - y - 1] == separator);
        }
        assert forall|i: int| 0 <= i < a.len() - 1 implies free_of(
            #[trigger] a.drop_last()[i],
            separator,
        ) by {
            assert(free_of(a[i], separator));
        }
        assert forall|i: int| 0 <= i < b.len() - 1 implies free_of(
            #[trigger] b.drop_last()[i],
            separator,
        ) by {
            assert(free_of(b[i], separator));
        }
        lemma_joined_injective(a.drop_last(), b.drop_last(), separator);
        assert(a =~= a.drop_last().push(a.last()));
        assert(b =~= b.drop_last().push(b.last()));
    }
}

proof fn lemma_joined_long(parts: Seq<Seq<u8>>, separator: u8)
    requires
        parts.len() > 0,
    ensures
        joined(parts, separator).len() + 1 >= parts.len() + parts[0].len(),
    decreases parts.len(),
{
    if parts.len() > 1 {
        lemma_joined_many(parts, separator);
        lemma_joined_long(parts.drop_last(), separator);
    }
}

proof fn lemma_joined_free_of(parts: Seq<Seq<u8>>, separator: u8, byte: u8)
    requires
        byte != separator,
        all_free_of(parts, byte),
    ensures
        free_of(joined(parts, separator), byte),
    decreases parts.len(),
{
    if parts.len() == 1 {
        assert(free_of(parts[0], byte));
    } else if parts.len() > 1 {
        assert forall|i: int| 0 <= i < parts.len() - 1 implies free_of(
            #[trigger] parts.drop_last()[i],
            byte,
        ) by {
            assert(free_of(parts[i], byte));
        }
        lemma_joined_free_of(parts.drop_last(), separator, byte);
        assert(free_of(parts[parts.len() - 1], byte));
    }
}

/// Putting a list in order neither adds to it nor takes from it.
pub(crate) proof fn lemma_in_order_holds(list: Seq<Seq<u8>>)
    ensures
        in_order(list).len() == list.len(),
        forall|x: Seq<u8>| #[trigger] in_order(list).contains(x) <==> list.contains(x),
{
    broadcast use vstd::seq_lib::group_to_multiset_ensures;

    lemma_lex_total_ordering();
    list.lemma_sort_by_ensures(lex_order());
    assert(in_order(list).to_multiset().len() == list.to_multiset().len());
    assert forall|x: Seq<u8>| #[trigger] in_order(list).contains(x) <==> list.contains(x) by {
        assert(in_order(list).contains(x) <==> in_order(list).to_multiset().count(x) > 0);
        assert(list.contains(x) <==> list.to_multiset().count(x) > 0);
    }
}

/// The text of a key is letters and digits, and no other key has it.
proof fn lemma_key_text(key: Pubkey)
    requires
        key_readable(key),
    ensures
        free_of(encode_utf8(text_of_pubkey(key)), 0x2c),
        free_of(encode_utf8(text_of_pubkey(key)), 0x3a),
        free_of(encode_utf8(text_of_pubkey(key)), 0x7c),
        forall|other: Pubkey|
            #![trigger text_of_pubkey(other)]
            key_readable(other) && encode_utf8(text_of_pubkey(other)) == encode_utf8(
                text_of_pubkey(key),
            ) ==> other == key,
{
    let text = text_of_pubkey(key);
    assert(is_ascii_chars(text));
    is_ascii_chars_encode_utf8(text);
    let bytes = encode_utf8(text);
    assert forall|i: int| 0 <= i < bytes.len() implies #[trigger] bytes[i] == text[i] as u8 && bytes[i]
        != 0x2c && bytes[i] != 0x3a && bytes[i] != 0x7c by {
        assert(bytes[i] == text[i] as u8);
    }
    assert forall|other: Pubkey|
        #![trigger text_of_pubkey(other)]
        key_readable(other) && encode_utf8(text_of_pubkey(other)) == encode_utf8(text) implies other
        == key by {
        vstd::utf8::encode_utf8_decode_utf8(text);
        vstd::utf8::encode_utf8_decode_utf8(text_of_pubkey(other));
    }
}

proof fn lemma_hex_free_of(bytes: Seq<u8>, byte: u8)
    requires
        byte == 0x2c || byte == 0x7c,
    ensures
        free_of(hex_of(bytes), byte),
{
    let text = hex_of(bytes);
    assert forall|i: int| 0 <= i < text.len() implies #[trigger] text[i] != byte by {
        let b = bytes[i / 2] as int;
        assert(0 <= b / 16 < 16 && 0 <= b % 16 < 16);
    }
}

/// The hexadecimal texts of prefixes, in order, hold neither a bar nor a comma.
proof fn lemma_prefixes_free_of(prefixes: Seq<Seq<u8>>, byte: u8)
    requires
        byte == 0x2c || byte == 0x7c,
    ensures
        all_free_of(in_order(prefix_texts(prefixes)), byte),
{
    let texts = prefix_texts(prefixes);
    let sorted = in_order(texts);
    lemma_in_order_holds(texts);
    assert forall|i: int| 0 <= i < sorted.len() implies free_of(#[trigger] sorted[i], byte) by {
        assert(sorted.contains(sorted[i]));
        let j = choose|j: int| 0 <= j < texts.len() && texts[j] == sorted[i];
        lemma_hex_free_of(prefixes[j], byte);
    }
}

/// A tagged key has its tag at the start and holds no bar.
proof fn lemma_key_part(tag: u8, key: Pubkey)
    requires
        key_readable(key),
        tag != 0x7c,
    ensures
        key_part(tag, key).len() >= 2,
        key_part(tag, key)[0] == tag,
        free_of(key_part(tag, key), 0x7c),
{
    lemma_key_text(key);
    let part = key_part(tag, key);
    let bytes = encode_utf8(text_of_pubkey(key));
    assert forall|i: int| 0 <= i < part.len() implies #[trigger] part[i] != 0x7c by {
        if i >= 2 {
            assert(part[i] == bytes[i - 2]);
        }
    }
}

/// A rule has its tag at the start and holds no bar.
proof fn lemma_rule_part(key: Pubkey, prefixes: Seq<Seq<u8>>)
    requires
        key_readable(key),
    ensures
        rule_part(key, prefixes).len() >= 2,
        rule_part(key, prefixes)[0] == 0x69,
        free_of(rule_part(key, prefixes), 0x7c),
{
    let head = key_part(0x69, key).push(0x3a);
    let list = joined(in_order(prefix_texts(prefixes)), 0x2c);
    let part = rule_part(key, prefixes);
    lemma_key_part(0x69, key);
    lemma_prefixes_free_of(prefixes, 0x7c);
    lemma_joined_free_of(in_order(prefix_texts(prefixes)), 0x2c, 0x7c);
    assert forall|i: int| 0 <= i < part.len() implies #[trigger] part[i] != 0x7c by {
        if i < head.len() - 1 {
            assert(part[i] == key_part(0x69, key)[i]);
        } else if i >= head.len() {
            assert(part[i] == list[i - head.len()]);
        }
    }
}

/// A part is that of one of the keys.
spec fn is_key_part(part: Seq<u8>, tag: u8, keys: Set<Pubkey>) -> bool {
    exists|k: Pubkey| #[trigger] keys.contains(k) && part == key_part(tag, k)
}

/// A part is that of one of the rules.
spec fn is_rule_part(part: Seq<u8>, rules: Map<Pubkey, Seq<Seq<u8>>>) -> bool {
    exists|k: Pubkey| #[trigger] rules.contains_key(k) && part == rule_part(k, rules[k])
}

pub(crate) proof fn lemma_listed<A>(keys: Set<Pubkey>, f: spec_fn(Pubkey) -> A)
    requires
        keys.finite(),
    ensures
        forall|x: A| #[trigger]
            keys.to_seq().map_values(f).contains(x) <==> exists|k: Pubkey| #[trigger]
                keys.contains(k) && x == f(k),
{
    keys.lemma_to_seq_to_set_id();
    let list = keys.to_seq();
    let parts = list.map_values(f);
    assert forall|x: A| #[trigger] parts.contains(x) <==> exists|k: Pubkey| #[trigger]
        keys.contains(k) && x == f(k) by {
        if parts.contains(x) {
            let i = choose|i: int| 0 <= i < parts.len() && parts[i] == x;
            assert(list.to_set().contains(list[i]));
            assert(keys.contains(list[i]) && x == f(list[i]));
        }
        if exists|k: Pubkey| #[trigger] keys.contains(k) && x == f(k) {
            let k = choose|k: Pubkey| #[trigger] keys.contains(k) && x == f(k);
            assert(list.to_set().contains(k));
            let i = choose|i: int| 0 <= i < list.len() && list[i] == k;
            assert(parts[i] == x);
        }
    }
}

/// The parts of a policy's text, before they are joined.
spec fn all_parts(filter: FilterView) -> Seq<Seq<u8>> {
    key_parts(0x61, filter.addresses) + key_parts(0x70, filter.programs) + rule_parts(filter.rules)
}

proof fn lemma_parts(filter: FilterView)
    requires
        listable(filter),
    ensures
        forall|part: Seq<u8>| #[trigger]
            all_parts(filter).contains(part) <==> is_key_part(part, 0x61, filter.addresses)
                || is_key_part(part, 0x70, filter.programs) || is_rule_part(part, filter.rules),
        forall|i: int|
            0 <= i < all_parts(filter).len() ==> (#[trigger] all_parts(filter)[i]).len() >= 2,
        all_free_of(all_parts(filter), 0x7c),
{
    let address = |k: Pubkey| key_part(0x61, k);
    let program = |k: Pubkey| key_part(0x70, k);
    let rule = |k: Pubkey| rule_part(k, filter.rules[k]);
    lemma_listed(filter.addresses, address);
    lemma_listed(filter.programs, program);
    lemma_listed(filter.rules.dom(), rule);
    lemma_in_order_holds(filter.addresses.to_seq().map_values(address));
    lemma_in_order_holds(filter.programs.to_seq().map_values(program));
    lemma_in_order_holds(filter.rules.dom().to_seq().map_values(rule));
    let x = key_parts(0x61, filter.addresses);
    let y = key_parts(0x70, filter.programs);
    let z = rule_parts(filter.rules);
    let all = all_parts(filter);
    assert forall|part: Seq<u8>| #[trigger] all.contains(part) <==> is_key_part(
        part,
        0x61,
        filter.addresses,
    ) || is_key_part(part, 0x70, filter.programs) || is_rule_part(part, filter.rules) by {
        assert(all.contains(part) <==> x.contains(part) || y.contains(part) || z.contains(part)) by {
            if all.contains(part) {
                let i = choose|i: int| 0 <= i < all.len() && all[i] == part;
                if i < x.len() {
                    assert(x[i] == part);
                } else if i < x.len() + y.len() {
                    assert(y[i - x.len()] == part);
                } else {
                    assert(z[i - x.len() - y.len()] == part);
                }
            }
            if x.contains(part) {
                let i = choose|i: int| 0 <= i < x.len() && x[i] == part;
                assert(all[i] == part);
            }
            if y.contains(part) {
                let i = choose|i: int| 0 <= i < y.len() && y[i] == part;
                assert(all[x.len() as int + i] == part);
            }
            if z.contains(part) {
                let i = choose|i: int| 0 <= i < z.len() && z[i] == part;
                assert(all[x.len() as int + y.len() as int + i] == part);
            }
        }
        assert(x.contains(part) <==> is_key_part(part, 0x61, filter.addresses));
        assert(y.contains(part) <==> is_key_part(part, 0x70, filter.programs));
        assert(z.contains(part) <==> is_rule_part(part, filter.rules)) by {
            if z.contains(part) {
                let k = choose|k: Pubkey| #[trigger]
                    filter.rules.dom().contains(k) && part == rule(k);
                assert(filter.rules.contains_key(k));
            }
            if is_rule_part(part, filter.rules) {
                let k = choose|k: Pubkey| #[trigger]
                    filter.rules.contains_key(k) && part == rule_part(k, filter.rules[k]);
                assert(filter.rules.dom().contains(k) && part == rule(k));
            }
        }
    }
    assert forall|i: int| 0 <= i < all.len() implies (#[trigger] all[i]).len() >= 2 && free_of(
        all[i],
        0x7c,
    ) by {
        assert(all.contains(all[i]));
        if is_key_part(all[i], 0x61, filter.addresses) {
            let k = choose|k: Pubkey| #[trigger]
                filter.addresses.contains(k) && all[i] == key_part(0x61, k);
            lemma_key_part(0x61, k);
        } else if is_key_part(all[i], 0x70, filter.programs) {
            let k = choose|k: Pubkey| #[trigger]
                filter.programs.contains(k) && all[i] == key_part(0x70, k);
            lemma_key_part(0x70, k);
        } else {
            let k = choose|k: Pubkey| #[trigger]
                filter.rules.contains_key(k) && all[i] == rule_part(k, filter.rules[k]);
            lemma_rule_part(k, filter.rules[k]);
        }
    }
}

/// Policies of the same text have the same parts.
proof fn lemma_same_parts(a: FilterView, b: FilterView)
    requires
        listable(a),
        listable(b),
        policy_text(a) == policy_text(b),
    ensures
        all_parts(a) == all_parts(b),
{
    let x = all_parts(a);
    let y = all_parts(b);
    lemma_parts(a);
    lemma_parts(b);
    if x.len() > 0 {
        assert(x[0].len() >= 2);
        lemma_joined_long(x, 0x7c);
    }
    if y.len() > 0 {
        assert(y[0].len() >= 2);
        lemma_joined_long(y, 0x7c);
    }
    if x.len() > 0 && y.len() > 0 {
        lemma_joined_injective(x, y, 0x7c);
    } else {
        assert(joined(Seq::<Seq<u8>>::empty(), 0x7c).len() == 0);
        assert(x =~= y);
    }
}

/// A key that has a tagged part among those of a policy is on the list of that tag.
proof fn lemma_key_listed(filter: FilterView, tag: u8, key: Pubkey)
    requires
        listable(filter),
        key_readable(key),
        tag == 0x61 || tag == 0x70,
        all_parts(filter).contains(key_part(tag, key)),
    ensures
        tag == 0x61 ==> filter.addresses.contains(key),
        tag == 0x70 ==> filter.programs.contains(key),
{
    lemma_parts(filter);
    lemma_key_part(tag, key);
    lemma_key_text(key);
    let part = key_part(tag, key);
    let keys = if tag == 0x61 {
        filter.addresses
    } else {
        filter.programs
    };
    if is_rule_part(part, filter.rules) {
        let k = choose|k: Pubkey| #[trigger]
            filter.rules.contains_key(k) && part == rule_part(k, filter.rules[k]);
        lemma_rule_part(k, filter.rules[k]);
    }
    if tag == 0x61 && is_key_part(part, 0x70, filter.programs) {
        let k = choose|k: Pubkey| #[trigger]
            filter.programs.contains(k) && part == key_part(0x70, k);
        lemma_key_part(0x70, k);
    }
    if tag == 0x70 && is_key_part(part, 0x61, filter.addresses) {
        let k = choose|k: Pubkey| #[trigger]
            filter.addresses.contains(k) && part == key_part(0x61, k);
        lemma_key_part(0x61, k);
    }
    assert(is_key_part(part, tag, keys));
    let k = choose|k: Pubkey| #[trigger] keys.contains(k) && part == key_part(tag, k);
    let ours = encode_utf8(text_of_pubkey(key));
    let theirs = encode_utf8(text_of_pubkey(k));
    assert(part.skip(2) =~= ours);
    assert(part.skip(2) =~= theirs);
    assert(k == key);
}

/// Rules of the same text are on the same program, and have the same list of prefixes.
proof fn lemma_same_rule_text(k: Pubkey, p: Seq<Seq<u8>>, other: Pubkey, q: Seq<Seq<u8>>)
    requires
        key_readable(k),
        key_readable(other),
        rule_part(k, p) == rule_part(other, q),
    ensures
        k == other,
        joined(in_order(prefix_texts(p)), 0x2c) == joined(in_order(prefix_texts(q)), 0x2c),
{
    lemma_key_text(k);
    lemma_key_text(other);
    let part = rule_part(k, p);
    let x = encode_utf8(text_of_pubkey(k));
    let y = encode_utf8(text_of_pubkey(other));
    let u = joined(in_order(prefix_texts(p)), 0x2c);
    let v = joined(in_order(prefix_texts(q)), 0x2c);
    assert(part[2 + x.len() as int] == 0x3a);
    assert(part[2 + y.len() as int] == 0x3a);
    if x.len() < y.len() {
        assert(part[2 + x.len() as int] == y[x.len() as int]);
    } else if y.len() < x.len() {
        assert(part[2 + y.len() as int] == x[y.len() as int]);
    }
    assert(part.subrange(2, 2 + x.len() as int) =~= x);
    assert(part.subrange(2, 2 + y.len() as int) =~= y);
    assert(part.skip(3 + x.len() as int) =~= u);
    assert(part.skip(3 + y.len() as int) =~= v);
}

/// Some prefix matches the data, or there is none.
spec fn matches_any(prefixes: Seq<Seq<u8>>, data: Seq<u8>) -> bool {
    prefixes.len() == 0 || exists|j: int|
        0 <= j < prefixes.len() && (#[trigger] prefixes[j]).is_prefix_of(data)
}

/// Prefixes of the same text match the same data. (No prefix and one that is empty have the same
/// text, and both match everything.)
proof fn lemma_same_prefixes(p: Seq<Seq<u8>>, q: Seq<Seq<u8>>, data: Seq<u8>)
    requires
        joined(in_order(prefix_texts(p)), 0x2c) == joined(in_order(prefix_texts(q)), 0x2c),
        matches_any(p, data),
    ensures
        matches_any(q, data),
{
    let x = in_order(prefix_texts(p));
    let y = in_order(prefix_texts(q));
    lemma_in_order_holds(prefix_texts(p));
    lemma_in_order_holds(prefix_texts(q));
    lemma_prefixes_free_of(p, 0x2c);
    lemma_prefixes_free_of(q, 0x2c);
    if q.len() > 0 {
        if p.len() == 0 {
            assert(joined(x, 0x2c).len() == 0);
            lemma_joined_long(y, 0x2c);
            assert(y.len() == 1 && y[0].len() == 0);
            assert(prefix_texts(q).contains(prefix_texts(q)[0]));
            assert(y.contains(prefix_texts(q)[0]));
            assert(prefix_texts(q)[0].len() == 0);
            assert(q[0].len() == 0);
            assert(q[0].is_prefix_of(data)) by {
                assert(q[0] =~= data.subrange(0, 0));
            }
        } else {
            lemma_joined_injective(x, y, 0x2c);
            let j = choose|j: int| 0 <= j < p.len() && (#[trigger] p[j]).is_prefix_of(data);
            assert(prefix_texts(p)[j] == hex_of(p[j]));
            assert(prefix_texts(p).contains(hex_of(p[j])));
            assert(x.contains(hex_of(p[j])));
            assert(prefix_texts(q).contains(hex_of(p[j])));
            let n = choose|n: int| 0 <= n < q.len() && prefix_texts(q)[n] == hex_of(p[j]);
            law_hex_round_trip(p[j]);
            law_hex_round_trip(q[n]);
            assert(hex_of(q[n]) == hex_of(p[j]));
            assert(q[n] == p[j]);
        }
    }
}

/// What one policy blocks by a rule, another one of the same text blocks too.
proof fn lemma_blocks_too(a: FilterView, b: FilterView, instruction: (Pubkey, Seq<u8>))
    requires
        listable(a),
        listable(b),
        all_parts(a) == all_parts(b),
        blocks(a.rules, instruction),
    ensures
        blocks(b.rules, instruction),
{
    let key = instruction.0;
    let part = rule_part(key, a.rules[key]);
    lemma_parts(a);
    lemma_parts(b);
    lemma_rule_part(key, a.rules[key]);
    assert(is_rule_part(part, a.rules));
    assert(all_parts(b).contains(part));
    if is_key_part(part, 0x61, b.addresses) {
        let k = choose|k: Pubkey| #[trigger] b.addresses.contains(k) && part == key_part(0x61, k);
        lemma_key_part(0x61, k);
    }
    if is_key_part(part, 0x70, b.programs) {
        let k = choose|k: Pubkey| #[trigger] b.programs.contains(k) && part == key_part(0x70, k);
        lemma_key_part(0x70, k);
    }
    assert(is_rule_part(part, b.rules));
    let k = choose|k: Pubkey| #[trigger]
        b.rules.contains_key(k) && part == rule_part(k, b.rules[k]);
    lemma_same_rule_text(key, a.rules[key], k, b.rules[k]);
    assert(matches_any(a.rules[key], instruction.1));
    lemma_same_prefixes(a.rules[key], b.rules[key], instruction.1);
}

proof fn lemma_same_key_verdict(a: FilterView, b: FilterView, keys: Seq<Pubkey>)
    requires
        a.addresses == b.addresses,
        a.programs == b.programs,
    ensures
        key_verdict(a, keys) == key_verdict(b, keys),
    decreases keys.len(),
{
    if keys.len() > 0 {
        lemma_same_key_verdict(a, b, keys.drop_first());
    }
}

/// Policies of the same text drop the same packets.
pub(crate) proof fn lemma_same_text(a: FilterView, b: FilterView)
    requires
        listable(a),
        listable(b),
        policy_text(a) == policy_text(b),
    ensures
        same_enforcement(a, b),
{
    lemma_same_parts(a, b);
    lemma_parts(a);
    lemma_parts(b);
    assert forall|k: Pubkey| a.addresses.contains(k) <==> b.addresses.contains(k) by {
        if a.addresses.contains(k) {
            assert(is_key_part(key_part(0x61, k), 0x61, a.addresses));
            lemma_key_listed(b, 0x61, k);
        }
        if b.addresses.contains(k) {
            assert(is_key_part(key_part(0x61, k), 0x61, b.addresses));
            lemma_key_listed(a, 0x61, k);
        }
    }
    assert forall|k: Pubkey| a.programs.contains(k) <==> b.programs.contains(k) by {
        if a.programs.contains(k) {
            assert(is_key_part(key_part(0x70, k), 0x70, a.programs));
            lemma_key_listed(b, 0x70, k);
        }
        if b.programs.contains(k) {
            assert(is_key_part(key_part(0x70, k), 0x70, b.programs));
            lemma_key_listed(a, 0x70, k);
        }
    }
    assert(a.addresses =~= b.addresses);
    assert(a.programs =~= b.programs);
    assert forall|summary: SummaryView| #[trigger] verdict(a, summary) == verdict(b, summary) by {
        lemma_same_key_verdict(a, b, summary.account_keys);
        assert forall|i: int| 0 <= i < summary.instructions.len() implies blocks(
            a.rules,
            #[trigger] summary.instructions[i],
        ) == blocks(b.rules, summary.instructions[i]) by {
            if blocks(a.rules, summary.instructions[i]) {
                lemma_blocks_too(a, b, summary.instructions[i]);
            }
            if blocks(b.rules, summary.instructions[i]) {
                lemma_blocks_too(b, a, summary.instructions[i]);
            }
        }
    }
}

/// What the text of a policy leaves out does not matter: policies of the same text, whose keys can be
/// read back, list the same addresses and programs, and say the same of every packet.
pub proof fn law_same_text_same_verdicts(a: FilterView, b: FilterView, summary: SummaryView)
    requires
        a.addresses.finite() && a.programs.finite() && a.rules.dom().finite(),
        b.addresses.finite() && b.programs.finite() && b.rules.dom().finite(),
        forall|k: Pubkey|
            a.addresses.contains(k) || a.programs.contains(k) || a.rules.contains_key(k)
                || b.addresses.contains(k) || b.programs.contains(k) || b.rules.contains_key(k)
                ==> #[trigger] key_readable(k),
        policy_text(a) == policy_text(b),
    ensures
        verdict(a, summary) == verdict(b, summary),
{
    lemma_same_text(a, b);
}

/// What is said of policies of the same enforcement, and of policies that can be listed, holds of each
/// packet and each key.
pub proof fn law_same_enforcement_is_the_same_verdict(
    a: FilterView,
    b: FilterView,
    summary: SummaryView,
    key: Pubkey,
)
    ensures
        same_enforcement(a, b) ==> verdict(a, summary) == verdict(b, summary),
        listable(a) ==> a.addresses.finite() && a.programs.finite() && a.rules.dom().finite(),
        listable(a) && (a.addresses.contains(key) || a.programs.contains(key)
            || a.rules.contains_key(key)) ==> key_readable(key),
{
}

} // verus!
