//! Public keys, and sets and maps keyed by them.

use vstd::prelude::*;

use crate::order::{bytes_eq, bytes_le, lemma_lex_antisymmetric, lemma_lex_total, lemma_lex_transitive, lex_le};

verus! {

/// An account address: the 32 bytes of a public key.
pub type Pubkey = [u8; 32];

/// The key whose base58 text is `text`, if the text is that of a key.
pub uninterp spec fn pubkey_of_text(text: Seq<char>) -> Option<Pubkey>;

/// The base58 text of a key.
pub uninterp spec fn text_of_pubkey(key: Pubkey) -> Seq<char>;

/// `Pubkey::from_str` of `solana_pubkey`: the key that a base58 text names, or nothing where the
/// text names none. Which texts name a key is left to that function.
#[verifier::external_body]
pub(crate) fn parse_pubkey(text: &str) -> (r: Option<Pubkey>)
    ensures
        r == pubkey_of_text(text@),
{
    text.parse::<solana_pubkey::Pubkey>().ok().map(|key| key.to_bytes())
}

/// A letter or a digit of ASCII.
pub open spec fn alphanumeric(c: char) -> bool {
    ||| '0' <= c <= '9'
    ||| 'A' <= c <= 'Z'
    ||| 'a' <= c <= 'z'
}

/// The text of a key is letters and digits, and is read back as the key.
pub open spec fn key_readable(key: Pubkey) -> bool {
    let text = text_of_pubkey(key);
    &&& forall|i: int| 0 <= i < text.len() ==> alphanumeric(#[trigger] text[i])
    &&& pubkey_of_text(text) == Some(key)
}

/// `Display` of `solana_pubkey`'s `Pubkey`: the key in base58, whose digits are letters and digits of
/// ASCII, and from which `Pubkey::from_str` reads the key back. How the text is made is left to that
/// function.
#[verifier::external_body]
pub(crate) fn pubkey_text(key: &Pubkey) -> (r: String)
    ensures
        r@ == text_of_pubkey(*key),
        forall|i: int| 0 <= i < r@.len() ==> alphanumeric(#[trigger] r@[i]),
        pubkey_of_text(r@) == Some(*key),
{
    solana_pubkey::Pubkey::new_from_array(*key).to_string()
}

/// Whether the two keys are the same.
pub fn same_key(a: &Pubkey, b: &Pubkey) -> (r: bool)
    ensures
        r == (*a == *b),
{
    let r: bool = bytes_eq(a.as_slice(), b.as_slice());
    proof {
        if r {
            assert forall|i: int| 0 <= i < 32 implies a[i] == b[i] by {
                assert(a@[i] == b@[i]);
            }
            assert(*a =~= *b);
        }
    }
    r
}

proof fn lemma_same_bytes(a: Pubkey, b: Pubkey)
    requires
        a@ == b@,
    ensures
        a == b,
{
    assert forall|i: int| 0 <= i < 32 implies a[i] == b[i] by {
        assert(a@[i] == b@[i]);
    }
    assert(a =~= b);
}

/// `a` comes before `b`.
spec fn before(a: Pubkey, b: Pubkey) -> bool {
    lex_le(a@, b@) && a != b
}

/// Keys in ascending order, none of them twice.
spec fn ascending(keys: Seq<Pubkey>) -> bool {
    forall|i: int, j: int| 0 <= i < j < keys.len() ==> before(#[trigger] keys[i], #[trigger] keys[j])
}

/// The index of the first key that does not come before `key`.
fn position(keys: &Vec<Pubkey>, key: &Pubkey) -> (r: usize)
    requires
        ascending(keys@),
    ensures
        r <= keys@.len(),
        forall|j: int| 0 <= j < r ==> before(#[trigger] keys@[j], *key),
        forall|j: int| r <= j < keys@.len() ==> lex_le(key@, #[trigger] keys@[j]@),
{
    let mut low: usize = 0;
    let mut high: usize = keys.len();
    while low < high
        invariant
            low <= high <= keys@.len(),
            ascending(keys@),
            forall|j: int| 0 <= j < low ==> before(#[trigger] keys@[j], *key),
            forall|j: int| high <= j < keys@.len() ==> lex_le(key@, #[trigger] keys@[j]@),
        decreases high - low,
    {
        let mid: usize = low + (high - low) / 2;
        let ghost middle = keys@[mid as int];
        if bytes_le(key.as_slice(), keys[mid].as_slice()) {
            proof {
                assert forall|j: int| mid <= j < keys@.len() implies lex_le(
                    key@,
                    #[trigger] keys@[j]@,
                ) by {
                    if mid < j {
                        assert(before(middle, keys@[j]));
                        lemma_lex_transitive(key@, middle@, keys@[j]@);
                    }
                }
            }
            high = mid;
        } else {
            proof {
                lemma_lex_total(key@, middle@);
                assert forall|j: int| 0 <= j < mid + 1 implies before(
                    #[trigger] keys@[j],
                    *key,
                ) by {
                    if j < mid {
                        assert(before(keys@[j], middle));
                        lemma_lex_transitive(keys@[j]@, middle@, key@);
                        if keys@[j] == *key {
                            lemma_lex_antisymmetric(middle@, key@);
                        }
                    }
                }
            }
            low = mid + 1;
        }
    }
    low
}

/// What [`position`] found, and whether the key stands there.
fn search(keys: &Vec<Pubkey>, key: &Pubkey) -> (r: (usize, bool))
    requires
        ascending(keys@),
    ensures
        r.0 <= keys@.len(),
        r.1 == keys@.contains(*key),
        r.1 ==> r.0 < keys@.len() && keys@[r.0 as int] == *key,
        !r.1 ==> ascending(keys@.insert(r.0 as int, *key)),
{
    let at: usize = position(keys, key);
    let found: bool = at < keys.len() && same_key(&keys[at], key);
    proof {
        if !found {
            assert forall|j: int| 0 <= j < keys@.len() implies #[trigger] keys@[j] != *key by {
                if j == at {
                } else if j < at {
                    assert(before(keys@[j], *key));
                } else {
                    assert(before(keys@[at as int], keys@[j]));
                    if keys@[j] == *key {
                        lemma_lex_antisymmetric(keys@[at as int]@, key@);
                        lemma_same_bytes(keys@[at as int], *key);
                    }
                }
            }
            let wider = keys@.insert(at as int, *key);
            assert forall|i: int, j: int| 0 <= i < j < wider.len() implies before(
                #[trigger] wider[i],
                #[trigger] wider[j],
            ) by {
                let a = if i < at { i } else { i - 1 };
                let b = if j < at { j } else { j - 1 };
                if i != at && j != at {
                    assert(before(keys@[a], keys@[b]));
                } else if i == at {
                    assert(lex_le(key@, keys@[b]@));
                }
            }
        }
    }
    (at, found)
}

proof fn lemma_ascending_distinct(keys: Seq<Pubkey>)
    requires
        ascending(keys),
    ensures
        keys.no_duplicates(),
{
    assert forall|i: int, j: int|
        0 <= i < keys.len() && 0 <= j < keys.len() && i != j implies keys[i] != keys[j] by {
        if i < j {
            assert(before(keys[i], keys[j]));
        } else {
            assert(before(keys[j], keys[i]));
        }
    }
}

/// A set of keys.
pub struct PubkeySet {
    keys: Vec<Pubkey>,
}

impl View for PubkeySet {
    type V = Set<Pubkey>;

    closed spec fn view(&self) -> Set<Pubkey> {
        self.keys@.to_set()
    }
}

impl PubkeySet {
    #[verifier::type_invariant]
    spec fn well_formed(self) -> bool {
        ascending(self.keys@)
    }

    /// The empty set.
    pub fn new() -> (r: Self)
        ensures
            r@ == Set::<Pubkey>::empty(),
    {
        let r = PubkeySet { keys: Vec::new() };
        assert(r@ =~= Set::<Pubkey>::empty());
        r
    }

    /// The set of the keys in a list.
    pub fn from_vec(keys: Vec<Pubkey>) -> (r: Self)
        ensures
            r@ == keys@.to_set(),
    {
        let mut set = PubkeySet::new();
        let mut i: usize = 0;
        while i < keys.len()
            invariant
                i <= keys@.len(),
                set@ == keys@.take(i as int).to_set(),
            decreases keys@.len() - i,
        {
            set.insert(keys[i]);
            proof {
                let some = keys@.take(i as int);
                let more = keys@.take(i + 1);
                assert(more =~= some.push(keys@[i as int]));
                assert(more[i as int] == keys@[i as int]);
                assert forall|k: Pubkey| set@.contains(k) implies more.to_set().contains(k) by {
                    if some.contains(k) {
                        let j = choose|j: int| 0 <= j < some.len() && some[j] == k;
                        assert(more[j] == k);
                    }
                }
                assert(set@ =~= more.to_set());
            }
            i = i + 1;
        }
        assert(keys@.take(keys@.len() as int) =~= keys@);
        set
    }

    /// Adds a key. Returns whether it was not there before.
    pub fn insert(&mut self, key: Pubkey) -> (r: bool)
        ensures
            final(self)@ == old(self)@.insert(key),
            r == !old(self)@.contains(key),
    {
        proof {
            use_type_invariant(&*self);
        }
        let ghost before_keys = self.keys@;
        let (at, found) = search(&self.keys, &key);
        if found {
            proof {
                assert(self@ =~= old(self)@.insert(key));
            }
            return false;
        }
        let mut keys: Vec<Pubkey> = Vec::new();
        std::mem::swap(&mut keys, &mut self.keys);
        keys.insert(at, key);
        proof {
            let after = keys@;
            assert(after[at as int] == key);
            assert forall|k: Pubkey| after.contains(k) <==> (before_keys.contains(k) || k
                == key) by {
                if before_keys.contains(k) {
                    let j = choose|j: int| 0 <= j < before_keys.len() && before_keys[j] == k;
                    assert(after[if j < at { j } else { j + 1 }] == k);
                }
                if after.contains(k) && k != key {
                    let j = choose|j: int| 0 <= j < after.len() && after[j] == k;
                    assert(before_keys[if j < at { j } else { j - 1 }] == k);
                }
            }
            assert(after.to_set() =~= before_keys.to_set().insert(key));
        }
        std::mem::swap(&mut keys, &mut self.keys);
        true
    }

    /// Whether the key is in the set.
    pub fn contains(&self, key: &Pubkey) -> (r: bool)
        ensures
            r == self@.contains(*key),
    {
        proof {
            use_type_invariant(&*self);
        }
        let (_, found) = search(&self.keys, key);
        found
    }

    /// Whether the set holds nothing.
    pub fn is_empty(&self) -> (r: bool)
        ensures
            r == (self@ == Set::<Pubkey>::empty()),
    {
        let r: bool = self.keys.len() == 0;
        proof {
            if !r {
                assert(self@.contains(self.keys@[0]));
            } else {
                assert(self@ =~= Set::<Pubkey>::empty());
            }
        }
        r
    }

    /// How many keys the set holds.
    pub fn len(&self) -> (r: usize)
        ensures
            r == self@.len(),
            self@.finite(),
    {
        proof {
            use_type_invariant(&*self);
            lemma_ascending_distinct(self.keys@);
            self.keys@.unique_seq_to_set();
            vstd::seq_lib::seq_to_set_is_finite(self.keys@);
        }
        self.keys.len()
    }

    /// The keys of the set, each once.
    pub fn to_vec(&self) -> (r: Vec<Pubkey>)
        ensures
            r@.no_duplicates(),
            r@.to_set() == self@,
    {
        proof {
            use_type_invariant(&*self);
            lemma_ascending_distinct(self.keys@);
        }
        copy_keys(&self.keys)
    }

    /// Another set of the same keys.
    pub fn copy(&self) -> (r: Self)
        ensures
            r@ == self@,
    {
        proof {
            use_type_invariant(&*self);
        }
        PubkeySet { keys: copy_keys(&self.keys) }
    }
}

/// Another list of the same keys.
pub fn copy_keys(keys: &Vec<Pubkey>) -> (r: Vec<Pubkey>)
    ensures
        r@ == keys@,
{
    let mut r: Vec<Pubkey> = Vec::new();
    let mut i: usize = 0;
    while i < keys.len()
        invariant
            i <= keys@.len(),
            r@ == keys@.take(i as int),
        decreases keys@.len() - i,
    {
        r.push(keys[i]);
        proof {
            assert(keys@.take(i + 1) =~= keys@.take(i as int).push(keys@[i as int]));
        }
        i = i + 1;
    }
    assert(keys@.take(keys@.len() as int) =~= keys@);
    r
}

/// A map from keys to values.
#[verifier::reject_recursive_types(V)]
pub struct PubkeyMap<V> {
    keys: Vec<Pubkey>,
    values: Vec<V>,
}

impl<V> View for PubkeyMap<V> {
    type V = Map<Pubkey, V>;

    closed spec fn view(&self) -> Map<Pubkey, V> {
        entries(self.keys@, self.values@)
    }
}

/// The map whose `i`th key has the `i`th value.
spec fn entries<V>(keys: Seq<Pubkey>, values: Seq<V>) -> Map<Pubkey, V> {
    Map::new(|k: Pubkey| keys.contains(k), |k: Pubkey| values[keys.index_of(k)])
}

proof fn lemma_entry<V>(keys: Seq<Pubkey>, values: Seq<V>, i: int)
    requires
        ascending(keys),
        keys.len() == values.len(),
        0 <= i < keys.len(),
    ensures
        entries(keys, values).contains_key(keys[i]),
        entries(keys, values)[keys[i]] == values[i],
{
    lemma_ascending_distinct(keys);
    keys.index_of_first_ensures(keys[i]);
    assert(keys.contains(keys[i]));
    let j = keys.index_of(keys[i]);
    assert(0 <= j < keys.len() && keys[j] == keys[i]);
}

impl<V> PubkeyMap<V> {
    #[verifier::type_invariant]
    spec fn well_formed(self) -> bool {
        ascending(self.keys@) && self.keys@.len() == self.values@.len()
    }

    /// The keys of the map, in the order in which they are listed.
    pub closed spec fn order(self) -> Seq<Pubkey> {
        self.keys@
    }

    /// The empty map.
    pub fn new() -> (r: Self)
        ensures
            r@ == Map::<Pubkey, V>::empty(),
    {
        let r = PubkeyMap { keys: Vec::new(), values: Vec::new() };
        assert(r@ =~= Map::<Pubkey, V>::empty());
        r
    }

    /// How many keys the map has.
    pub fn len(&self) -> (r: usize)
        ensures
            r == self.order().len(),
            r == self@.dom().len(),
    {
        proof {
            use_type_invariant(&*self);
            lemma_ascending_distinct(self.keys@);
            self.keys@.unique_seq_to_set();
            assert(self@.dom() =~= self.keys@.to_set());
        }
        self.keys.len()
    }

    /// Whether the map has no key.
    pub fn is_empty(&self) -> (r: bool)
        ensures
            r == (self@.dom() == Set::<Pubkey>::empty()),
    {
        let r: bool = self.keys.len() == 0;
        proof {
            if !r {
                assert(self@.dom().contains(self.keys@[0]));
            } else {
                assert(self@.dom() =~= Set::<Pubkey>::empty());
            }
        }
        r
    }

    /// Whether the map has the key.
    pub fn contains_key(&self, key: &Pubkey) -> (r: bool)
        ensures
            r == self@.contains_key(*key),
    {
        proof {
            use_type_invariant(&*self);
        }
        let (_, found) = search(&self.keys, key);
        found
    }

    /// The value of a key.
    pub fn get(&self, key: &Pubkey) -> (r: Option<&V>)
        ensures
            r == (if self@.contains_key(*key) {
                Some(&self@[*key])
            } else {
                None
            }),
    {
        proof {
            use_type_invariant(&*self);
        }
        let (at, found) = search(&self.keys, key);
        if found {
            proof {
                lemma_entry(self.keys@, self.values@, at as int);
            }
            Some(&self.values[at])
        } else {
            None
        }
    }

    /// The keys of the map, each once.
    pub fn keys(&self) -> (r: Vec<Pubkey>)
        ensures
            r@ == self.order(),
            r@.no_duplicates(),
            r@.to_set() == self@.dom(),
    {
        proof {
            use_type_invariant(&*self);
            lemma_ascending_distinct(self.keys@);
            assert(self.keys@.to_set() =~= self@.dom());
        }
        copy_keys(&self.keys)
    }

    /// The entry at a place in the listing order.
    pub fn entry_at(&self, i: usize) -> (r: (Pubkey, &V))
        requires
            i < self.order().len(),
        ensures
            r.0 == self.order()[i as int],
            self@.contains_key(r.0),
            *r.1 == self@[r.0],
    {
        proof {
            use_type_invariant(&*self);
            lemma_entry(self.keys@, self.values@, i as int);
        }
        (self.keys[i], &self.values[i])
    }

    /// Gives a key a value. Returns the value that it had.
    pub fn insert(&mut self, key: Pubkey, value: V) -> (r: Option<V>)
        ensures
            final(self)@ == old(self)@.insert(key, value),
            r == (if old(self)@.contains_key(key) {
                Some(old(self)@[key])
            } else {
                None
            }),
    {
        let previous: Option<V> = self.remove(&key);
        proof {
            use_type_invariant(&*self);
        }
        let ghost before_keys = self.keys@;
        let ghost before_values = self.values@;
        let (at, found) = search(&self.keys, &key);
        proof {
            assert(!self@.contains_key(key));
            assert(!found);
        }
        let mut other: PubkeyMap<V> = PubkeyMap::new();
        std::mem::swap(&mut other, self);
        let PubkeyMap { mut keys, mut values } = other;
        keys.insert(at, key);
        values.insert(at, value);
        proof {
            let after_keys = keys@;
            let after_values = values@;
            let was = entries(before_keys, before_values);
            let is = entries(after_keys, after_values);
            assert(after_keys[at as int] == key);
            assert forall|k: Pubkey| is.contains_key(k) <==> (was.contains_key(k) || k
                == key) by {
                if was.contains_key(k) {
                    let j = choose|j: int| 0 <= j < before_keys.len() && before_keys[j] == k;
                    assert(after_keys[if j < at { j } else { j + 1 }] == k);
                }
                if is.contains_key(k) && k != key {
                    let j = choose|j: int| 0 <= j < after_keys.len() && after_keys[j] == k;
                    assert(before_keys[if j < at { j } else { j - 1 }] == k);
                }
            }
            assert forall|k: Pubkey| is.contains_key(k) implies #[trigger] is[k] == was.insert(
                key,
                value,
            )[k] by {
                if k == key {
                    lemma_entry(after_keys, after_values, at as int);
                } else {
                    let j = choose|j: int| 0 <= j < before_keys.len() && before_keys[j] == k;
                    lemma_entry(before_keys, before_values, j);
                    let n = if j < at { j } else { j + 1 };
                    assert(after_keys[n] == k);
                    lemma_entry(after_keys, after_values, n);
                }
            }
            assert(is =~= was.insert(key, value));
            assert(was.insert(key, value) =~= old(self)@.insert(key, value));
        }
        *self = PubkeyMap { keys, values };
        previous
    }

    /// Takes a key out. Returns the value that it had.
    pub fn remove(&mut self, key: &Pubkey) -> (r: Option<V>)
        ensures
            final(self)@ == old(self)@.remove(*key),
            r == (if old(self)@.contains_key(*key) {
                Some(old(self)@[*key])
            } else {
                None
            }),
    {
        proof {
            use_type_invariant(&*self);
        }
        let ghost before_keys = self.keys@;
        let ghost before_values = self.values@;
        let (at, found) = search(&self.keys, key);
        if !found {
            proof {
                assert(self@ =~= old(self)@.remove(*key));
            }
            return None;
        }
        let mut other: PubkeyMap<V> = PubkeyMap::new();
        std::mem::swap(&mut other, self);
        let PubkeyMap { mut keys, mut values } = other;
        keys.remove(at);
        let value: V = values.remove(at);
        proof {
            let after_keys = keys@;
            let after_values = values@;
            assert(after_keys =~= before_keys.remove(at as int));
            assert forall|i: int, j: int| 0 <= i < j < after_keys.len() implies before(
                #[trigger] after_keys[i],
                #[trigger] after_keys[j],
            ) by {
                let a = if i < at { i } else { i + 1 };
                let b = if j < at { j } else { j + 1 };
                assert(before(before_keys[a], before_keys[b]));
            }
            lemma_ascending_distinct(before_keys);
            let was = entries(before_keys, before_values);
            let is = entries(after_keys, after_values);
            assert forall|k: Pubkey| is.contains_key(k) <==> (was.contains_key(k) && k
                != *key) by {
                if was.contains_key(k) && k != *key {
                    let j = choose|j: int| 0 <= j < before_keys.len() && before_keys[j] == k;
                    assert(after_keys[if j < at { j } else { j - 1 }] == k);
                }
                if is.contains_key(k) {
                    let j = choose|j: int| 0 <= j < after_keys.len() && after_keys[j] == k;
                    assert(before_keys[if j < at { j } else { j + 1 }] == k);
                }
            }
            assert forall|k: Pubkey| is.contains_key(k) implies #[trigger] is[k] == was[k] by {
                let j = choose|j: int| 0 <= j < after_keys.len() && after_keys[j] == k;
                lemma_entry(after_keys, after_values, j);
                let n = if j < at { j } else { j + 1 };
                assert(before_keys[n] == k);
                lemma_entry(before_keys, before_values, n);
            }
            assert(is =~= was.remove(*key));
            lemma_entry(before_keys, before_values, at as int);
        }
        *self = PubkeyMap { keys, values };
        Some(value)
    }
}

} // verus!
