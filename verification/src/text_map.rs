//! A keyword → text map kept sorted by keyword, as `BTreeMap<String, String>`
//! orders its keys: by the bytes of their UTF-8 encoding.

use vstd::prelude::*;
use vstd::utf8::{encode_utf8, encode_utf8_decode_utf8};

verus! {

/// Lexicographic order on byte sequences.
pub open spec fn bytes_lt(a: Seq<u8>, b: Seq<u8>) -> bool
    decreases a.len(),
{
    if b.len() == 0 {
        false
    } else if a.len() == 0 {
        true
    } else if a[0] != b[0] {
        a[0] < b[0]
    } else {
        bytes_lt(a.drop_first(), b.drop_first())
    }
}

/// The order of `String` keys: by their UTF-8 bytes.
pub open spec fn key_lt(a: Seq<char>, b: Seq<char>) -> bool {
    bytes_lt(encode_utf8(a), encode_utf8(b))
}

/// `bytes_lt` is irreflexive.
pub proof fn lemma_bytes_lt_irreflexive(a: Seq<u8>)
    ensures
        !bytes_lt(a, a),
    decreases a.len(),
{
    if a.len() > 0 {
        lemma_bytes_lt_irreflexive(a.drop_first());
    }
}

/// `bytes_lt` is transitive.
pub proof fn lemma_bytes_lt_transitive(a: Seq<u8>, b: Seq<u8>, c: Seq<u8>)
    requires
        bytes_lt(a, b),
        bytes_lt(b, c),
    ensures
        bytes_lt(a, c),
    decreases a.len(),
{
    if a.len() > 0 && b.len() > 0 && c.len() > 0 && a[0] == b[0] && b[0] == c[0] {
        lemma_bytes_lt_transitive(a.drop_first(), b.drop_first(), c.drop_first());
    }
}

/// After a common prefix of length `i`, the order is decided by what follows.
pub proof fn lemma_bytes_lt_skip(a: Seq<u8>, b: Seq<u8>, i: int)
    requires
        0 <= i <= a.len(),
        i <= b.len(),
        a.subrange(0, i) == b.subrange(0, i),
    ensures
        bytes_lt(a, b) == bytes_lt(a.skip(i), b.skip(i)),
    decreases i,
{
    if i == 0 {
        assert(a.skip(0) =~= a);
        assert(b.skip(0) =~= b);
    } else {
        assert(a[0] == a.subrange(0, i)[0]);
        assert(b[0] == b.subrange(0, i)[0]);
        assert(a.drop_first().subrange(0, i - 1) =~= a.subrange(0, i).drop_first());
        assert(b.drop_first().subrange(0, i - 1) =~= b.subrange(0, i).drop_first());
        lemma_bytes_lt_skip(a.drop_first(), b.drop_first(), i - 1);
        assert(a.drop_first().skip(i - 1) =~= a.skip(i));
        assert(b.drop_first().skip(i - 1) =~= b.skip(i));
    }
}

/// Keys with the same encoding are the same key.
pub proof fn lemma_encode_injective(a: Seq<char>, b: Seq<char>)
    requires
        encode_utf8(a) == encode_utf8(b),
    ensures
        a == b,
{
    encode_utf8_decode_utf8(a);
    encode_utf8_decode_utf8(b);
}

/// The result of comparing two keys.
#[derive(Debug, Clone, Copy, PartialEq, Eq, Structural)]
pub enum KeyOrder {
    Less,
    Equal,
    Greater,
}

/// Compare two byte strings lexicographically.
pub fn compare_bytes(a: &[u8], b: &[u8]) -> (o: KeyOrder)
    ensures
        o == KeyOrder::Less <==> bytes_lt(a@, b@),
        o == KeyOrder::Equal <==> a@ == b@,
        o == KeyOrder::Greater <==> bytes_lt(b@, a@),
{
    let mut i: usize = 0;
    while i < a.len() && i < b.len() && a[i] == b[i]
        invariant
            i <= a@.len(),
            i <= b@.len(),
            a@.subrange(0, i as int) == b@.subrange(0, i as int),
        decreases a.len() - i,
    {
        assert(a@.subrange(0, i + 1) =~= a@.subrange(0, i as int).push(a@[i as int]));
        assert(b@.subrange(0, i + 1) =~= b@.subrange(0, i as int).push(b@[i as int]));
        i += 1;
    }
    proof {
        lemma_bytes_lt_skip(a@, b@, i as int);
        lemma_bytes_lt_skip(b@, a@, i as int);
    }
    let ghost sa = a@.skip(i as int);
    let ghost sb = b@.skip(i as int);
    if i < a.len() && i < b.len() {
        assert(sa[0] == a@[i as int] && sb[0] == b@[i as int]);
        proof {
            if a@ == b@ {
                assert(a@[i as int] == b@[i as int]);
            }
        }
        if a[i] < b[i] {
            KeyOrder::Less
        } else {
            KeyOrder::Greater
        }
    } else if i < b.len() {
        assert(sa.len() == 0 && sb.len() > 0);
        assert(a@.len() != b@.len());
        KeyOrder::Less
    } else if i < a.len() {
        assert(sb.len() == 0 && sa.len() > 0);
        assert(a@.len() != b@.len());
        KeyOrder::Greater
    } else {
        assert(sa.len() == 0 && sb.len() == 0);
        assert(a@ =~= a@.subrange(0, i as int));
        assert(b@ =~= b@.subrange(0, i as int));
        KeyOrder::Equal
    }
}

/// Compare two keys in `String` order.
pub fn compare_keys(a: &str, b: &str) -> (o: KeyOrder)
    ensures
        o == KeyOrder::Less <==> key_lt(a@, b@),
        o == KeyOrder::Equal <==> a@ == b@,
        o == KeyOrder::Greater <==> key_lt(b@, a@),
{
    let o = compare_bytes(a.as_bytes(), b.as_bytes());
    proof {
        if encode_utf8(a@) == encode_utf8(b@) {
            lemma_encode_injective(a@, b@);
        }
    }
    o
}

/// `s` lists the keys of `m` in increasing order, each once.
pub open spec fn is_sorted_key_list(s: Seq<Seq<char>>, m: Map<Seq<char>, Seq<char>>) -> bool {
    &&& forall|i: int, j: int| 0 <= i < j < s.len() ==> #[trigger] key_lt(s[i], s[j])
    &&& forall|k: Seq<char>| #[trigger] m.contains_key(k) <==> s.contains(k)
}

/// The keys of `m` in increasing order (the order `BTreeMap` iterates in).
pub open spec fn sorted_keys(m: Map<Seq<char>, Seq<char>>) -> Seq<Seq<char>> {
    choose|s: Seq<Seq<char>>| is_sorted_key_list(s, m)
}

/// Two strictly increasing lists with the same elements are equal.
pub proof fn lemma_sorted_lists_equal(s1: Seq<Seq<char>>, s2: Seq<Seq<char>>)
    requires
        forall|i: int, j: int| 0 <= i < j < s1.len() ==> #[trigger] key_lt(s1[i], s1[j]),
        forall|i: int, j: int| 0 <= i < j < s2.len() ==> #[trigger] key_lt(s2[i], s2[j]),
        forall|k: Seq<char>| s1.contains(k) <==> s2.contains(k),
    ensures
        s1 == s2,
    decreases s1.len(),
{
    if s1.len() == 0 {
        if s2.len() > 0 {
            assert(s2.contains(s2[0]));
        }
        assert(s1 =~= s2);
    } else {
        assert(s1.contains(s1[0]));
        assert(s2.len() > 0);
        assert(s2.contains(s2[0]));
        let j = choose|j: int| 0 <= j < s2.len() && s2[j] == s1[0];
        let i = choose|i: int| 0 <= i < s1.len() && s1[i] == s2[0];
        if j > 0 {
            assert(key_lt(s2[0], s2[j]));
            if i == 0 {
                lemma_bytes_lt_irreflexive(encode_utf8(s1[0]));
            } else {
                assert(key_lt(s1[0], s1[i]));
                lemma_bytes_lt_transitive(encode_utf8(s1[0]), encode_utf8(s1[i]), encode_utf8(s1[0]));
                lemma_bytes_lt_irreflexive(encode_utf8(s1[0]));
            }
        }
        assert(s1[0] == s2[0]);
        let t1 = s1.drop_first();
        let t2 = s2.drop_first();
        assert forall|k: Seq<char>| t1.contains(k) <==> t2.contains(k) by {
            if t1.contains(k) {
                let x = choose|x: int| 0 <= x < t1.len() && t1[x] == k;
                assert(s1[x + 1] == k);
                assert(key_lt(s1[0], s1[x + 1]));
                lemma_bytes_lt_irreflexive(encode_utf8(k));
                assert(s2.contains(k));
                let y = choose|y: int| 0 <= y < s2.len() && s2[y] == k;
                assert(y != 0);
                assert(t2[y - 1] == k);
            }
            if t2.contains(k) {
                let x = choose|x: int| 0 <= x < t2.len() && t2[x] == k;
                assert(s2[x + 1] == k);
                assert(key_lt(s2[0], s2[x + 1]));
                lemma_bytes_lt_irreflexive(encode_utf8(k));
                assert(s1.contains(k));
                let y = choose|y: int| 0 <= y < s1.len() && s1[y] == k;
                assert(y != 0);
                assert(t1[y - 1] == k);
            }
        }
        assert forall|i: int, j: int| 0 <= i < j < t1.len() implies #[trigger] key_lt(t1[i], t1[j]) by {
            assert(key_lt(s1[i + 1], s1[j + 1]));
        }
        assert forall|i: int, j: int| 0 <= i < j < t2.len() implies #[trigger] key_lt(t2[i], t2[j]) by {
            assert(key_lt(s2[i + 1], s2[j + 1]));
        }
        lemma_sorted_lists_equal(t1, t2);
        assert(s1 =~= seq![s1[0]] + t1);
        assert(s2 =~= seq![s2[0]] + t2);
    }
}

/// The map that a list of entries denotes, later entries overriding earlier ones.
pub open spec fn entries_map(s: Seq<(Seq<char>, Seq<char>)>) -> Map<Seq<char>, Seq<char>>
    decreases s.len(),
{
    if s.len() == 0 {
        Map::empty()
    } else {
        entries_map(s.drop_last()).insert(s.last().0, s.last().1)
    }
}

/// The keys of the entries are strictly increasing.
pub open spec fn strictly_sorted(s: Seq<(Seq<char>, Seq<char>)>) -> bool {
    forall|i: int, j: int| 0 <= i < j < s.len() ==> #[trigger] key_lt(s[i].0, s[j].0)
}

/// A key belongs to the map of a list exactly when some entry has it.
pub proof fn lemma_entries_map_dom(s: Seq<(Seq<char>, Seq<char>)>, k: Seq<char>)
    ensures
        entries_map(s).contains_key(k) <==> exists|i: int| 0 <= i < s.len() && s[i].0 == k,
    decreases s.len(),
{
    if s.len() > 0 {
        lemma_entries_map_dom(s.drop_last(), k);
        if entries_map(s).contains_key(k) && k != s.last().0 {
            let i = choose|i: int| 0 <= i < s.drop_last().len() && s.drop_last()[i].0 == k;
            assert(s[i].0 == k);
        }
        if exists|i: int| 0 <= i < s.len() && s[i].0 == k {
            let i = choose|i: int| 0 <= i < s.len() && s[i].0 == k;
            if i < s.len() - 1 {
                assert(s.drop_last()[i].0 == k);
            }
        }
    }
}

/// In a sorted list, every entry's key maps to that entry's value.
pub proof fn lemma_entries_map_value(s: Seq<(Seq<char>, Seq<char>)>, i: int)
    requires
        strictly_sorted(s),
        0 <= i < s.len(),
    ensures
        entries_map(s).contains_key(s[i].0),
        entries_map(s)[s[i].0] == s[i].1,
    decreases s.len(),
{
    if i < s.len() - 1 {
        let t = s.drop_last();
        assert(strictly_sorted(t)) by {
            assert forall|a: int, b: int| 0 <= a < b < t.len() implies #[trigger] key_lt(t[a].0, t[b].0) by {
                assert(key_lt(s[a].0, s[b].0));
            }
        }
        assert(t[i] == s[i]);
        lemma_entries_map_value(t, i);
        assert(key_lt(s[i].0, s[s.len() - 1].0));
        lemma_bytes_lt_irreflexive(encode_utf8(s[i].0));
    }
}

/// A sorted list denotes `m` when its entries are exactly the pairs of `m`.
pub proof fn lemma_entries_map_equal(s: Seq<(Seq<char>, Seq<char>)>, m: Map<Seq<char>, Seq<char>>)
    requires
        strictly_sorted(s),
        forall|i: int| 0 <= i < s.len() ==> #[trigger] m.contains_key(s[i].0) && m[s[i].0] == s[i].1,
        forall|k: Seq<char>| #[trigger] m.contains_key(k) ==> exists|i: int| 0 <= i < s.len() && s[i].0 == k,
    ensures
        entries_map(s) == m,
{
    assert forall|k: Seq<char>| #[trigger] entries_map(s).contains_key(k) <==> m.contains_key(k) by {
        lemma_entries_map_dom(s, k);
        if entries_map(s).contains_key(k) {
            let i = choose|i: int| 0 <= i < s.len() && s[i].0 == k;
            assert(m.contains_key(s[i].0));
        }
    }
    assert forall|k: Seq<char>| #[trigger] entries_map(s).contains_key(k) implies entries_map(s)[k] == m[k] by {
        lemma_entries_map_dom(s, k);
        let i = choose|i: int| 0 <= i < s.len() && s[i].0 == k;
        lemma_entries_map_value(s, i);
        assert(m.contains_key(s[i].0));
    }
    assert(entries_map(s) =~= m);
}

/// Pairs of strings as plain values.
pub open spec fn pairs_view(v: Seq<(String, String)>) -> Seq<(Seq<char>, Seq<char>)> {
    v.map_values(|e: (String, String)| (e.0@, e.1@))
}

/// `tEXt` keyword → text pairs, in sorted keyword order, each keyword once.
pub struct TextChunks {
    entries: Vec<(String, String)>,
}

impl TextChunks {
    /// The entries as plain values, in order.
    pub closed spec fn entries_view(&self) -> Seq<(Seq<char>, Seq<char>)> {
        pairs_view(self.entries@)
    }

    /// The entries are sorted by keyword, each keyword once.
    #[verifier::type_invariant]
    pub open spec fn wf(&self) -> bool {
        strictly_sorted(self.entries_view())
    }

    /// The keywords in the order the entries hold them.
    pub open spec fn key_seq(&self) -> Seq<Seq<char>> {
        self.entries_view().map_values(|e: (Seq<char>, Seq<char>)| e.0)
    }

    /// An empty map.
    pub fn new() -> (r: TextChunks)
        ensures
            r.wf(),
            r@ == Map::<Seq<char>, Seq<char>>::empty(),
    {
        let entries: Vec<(String, String)> = Vec::new();
        assert(pairs_view(entries@) =~= Seq::empty());
        let r = TextChunks { entries };
        r
    }

    /// The number of keywords.
    pub fn len(&self) -> (n: usize)
        ensures
            n == self@.len(),
            n == self.entries_view().len(),
    {
        proof {
            use_type_invariant(self);
        }
        proof {
            self.lemma_len();
        }
        self.entries.len()
    }

    /// Whether there are no keywords.
    pub fn is_empty(&self) -> (b: bool)
        ensures
            b == (self@.len() == 0),
            b == (self@ == Map::<Seq<char>, Seq<char>>::empty()),
    {
        proof {
            use_type_invariant(self);
        }
        proof {
            self.lemma_len();
            if self@.len() == 0 {
                assert(self@ =~= Map::<Seq<char>, Seq<char>>::empty());
            }
        }
        self.entries.len() == 0
    }

    /// The number of keys of the map is the number of entries.
    proof fn lemma_len(&self)
        requires
            self.wf(),
        ensures
            self@.len() == self.entries_view().len(),
            self@.dom().finite(),
    {
        let s = self.entries_view();
        let keys = s.map_values(|e: (Seq<char>, Seq<char>)| e.0);
        assert forall|i: int, j: int| 0 <= i < keys.len() && 0 <= j < keys.len() && i != j
            implies keys[i] != keys[j] by {
            if i < j {
                assert(key_lt(s[i].0, s[j].0));
            } else {
                assert(key_lt(s[j].0, s[i].0));
            }
            lemma_bytes_lt_irreflexive(encode_utf8(keys[i]));
        }
        assert(keys.no_duplicates());
        keys.unique_seq_to_set();
        assert forall|k: Seq<char>| self@.dom().contains(k) <==> keys.to_set().contains(k) by {
            lemma_entries_map_dom(s, k);
            if keys.to_set().contains(k) {
                let i = choose|i: int| 0 <= i < keys.len() && keys[i] == k;
                assert(s[i].0 == k);
            }
            if self@.dom().contains(k) {
                let i = choose|i: int| 0 <= i < s.len() && s[i].0 == k;
                assert(keys[i] == k);
            }
        }
        assert(self@.dom() =~= keys.to_set());
    }

    /// The text stored under `key`, if any.
    pub fn get(&self, key: &str) -> (r: Option<&String>)
        ensures
            r matches Some(v) ==> self@.contains_key(key@) && v@ == self@[key@],
            r is None ==> !self@.contains_key(key@),
    {
        proof {
            use_type_invariant(self);
        }
        let mut i: usize = 0;
        while i < self.entries.len()
            invariant
                self.wf(),
                i <= self.entries@.len(),
                forall|j: int| 0 <= j < i ==> #[trigger] self.entries_view()[j].0 != key@,
            decreases self.entries.len() - i,
        {
            let o = compare_keys(self.entries[i].0.as_str(), key);
            if o == KeyOrder::Equal {
                proof {
                    lemma_entries_map_value(self.entries_view(), i as int);
                }
                return Some(&self.entries[i].1);
            }
            assert(self.entries_view()[i as int].0 != key@);
            i += 1;
        }
        proof {
            lemma_entries_map_dom(self.entries_view(), key@);
        }
        None
    }

    /// The keywords, in sorted order.
    pub fn keys(&self) -> (r: Vec<String>)
        ensures
            r@.map_values(|s: String| s@) == self.key_seq(),
    {
        let mut r: Vec<String> = Vec::new();
        let mut i: usize = 0;
        while i < self.entries.len()
            invariant
                i <= self.entries@.len(),
                r@.len() == i,
                self.key_seq().len() == self.entries@.len(),
                r@.map_values(|s: String| s@) == self.key_seq().subrange(0, i as int),
            decreases self.entries.len() - i,
        {
            let k = self.entries[i].0.clone();
            assert(k@ == self.entries@[i as int].0@);
            let ghost r0 = r@;
            r.push(k);
            assert(self.key_seq()[i as int] == self.entries@[i as int].0@);
            assert(r@ == r0.push(k));
            assert(r@.map_values(|s: String| s@)[i as int] == k@);
            assert(r@.map_values(|s: String| s@) =~= self.key_seq().subrange(0, i + 1));
            i += 1;
        }
        assert(self.key_seq().subrange(0, i as int) =~= self.key_seq());
        r
    }

    /// The entries, in sorted keyword order.
    pub fn entries(&self) -> (r: &Vec<(String, String)>)
        ensures
            r@.map_values(|e: (String, String)| (e.0@, e.1@)) == self.entries_view(),
    {
        &self.entries
    }

    /// The keywords are strictly increasing and are exactly the keys of the map.
    pub proof fn lemma_key_seq(&self)
        requires
            self.wf(),
        ensures
            forall|i: int, j: int| 0 <= i < j < self.key_seq().len() ==> #[trigger] key_lt(self.key_seq()[i], self.key_seq()[j]),
            forall|k: Seq<char>| #[trigger] self@.contains_key(k) <==> self.key_seq().contains(k),
            self.key_seq().len() == self.entries_view().len(),
    {
        let s = self.entries_view();
        let ks = self.key_seq();
        assert forall|i: int, j: int| 0 <= i < j < ks.len() implies #[trigger] key_lt(ks[i], ks[j]) by {
            assert(key_lt(s[i].0, s[j].0));
        }
        assert forall|k: Seq<char>| #[trigger] self@.contains_key(k) <==> ks.contains(k) by {
            lemma_entries_map_dom(s, k);
            if ks.contains(k) {
                let i = choose|i: int| 0 <= i < ks.len() && ks[i] == k;
                assert(s[i].0 == k);
            }
            if self@.contains_key(k) {
                let i = choose|i: int| 0 <= i < s.len() && s[i].0 == k;
                assert(ks[i] == k);
            }
        }
    }

    /// Each entry's keyword maps to its text, and is the keyword at its place.
    pub proof fn lemma_entries_values(&self)
        requires
            self.wf(),
        ensures
            forall|i: int| 0 <= i < self.entries_view().len() ==> {
                &&& #[trigger] self@.contains_key(self.entries_view()[i].0)
                &&& self@[self.entries_view()[i].0] == self.entries_view()[i].1
                &&& self.key_seq()[i] == self.entries_view()[i].0
            },
    {
        assert forall|i: int| 0 <= i < self.entries_view().len() implies {
            &&& #[trigger] self@.contains_key(self.entries_view()[i].0)
            &&& self@[self.entries_view()[i].0] == self.entries_view()[i].1
            &&& self.key_seq()[i] == self.entries_view()[i].0
        } by {
            lemma_entries_map_value(self.entries_view(), i);
        }
    }

    /// The keywords, in order, are the sorted keys of the map.
    pub proof fn lemma_key_seq_sorted_keys(&self)
        requires
            self.wf(),
        ensures
            self.key_seq() == sorted_keys(self@),
            is_sorted_key_list(self.key_seq(), self@),
    {
        self.lemma_key_seq();
        let ks = self.key_seq();
        assert(is_sorted_key_list(ks, self@));
        let s = sorted_keys(self@);
        assert(is_sorted_key_list(s, self@));
        assert forall|k: Seq<char>| ks.contains(k) <==> s.contains(k) by {
            assert(self@.contains_key(k) <==> ks.contains(k));
            assert(self@.contains_key(k) <==> s.contains(k));
        }
        lemma_sorted_lists_equal(ks, s);
    }

    /// Set the text of `key` to `value`, adding the key if it is new.
    pub fn insert(&mut self, key: String, value: String)
        ensures
            final(self).wf(),
            final(self)@ == old(self)@.insert(key@, value@),
    {
        proof {
            use_type_invariant(&*self);
        }
        let ghost s0 = self.entries_view();
        let ghost m = entries_map(s0).insert(key@, value@);
        let mut entries: Vec<(String, String)> = Vec::new();
        std::mem::swap(&mut entries, &mut self.entries);
        let mut i: usize = 0;
        while i < entries.len()
            invariant
                i <= entries@.len(),
                pairs_view(entries@) == s0,
                old(self)@ == entries_map(s0),
                strictly_sorted(s0),
                m == entries_map(s0).insert(key@, value@),
                forall|j: int| 0 <= j < i ==> #[trigger] key_lt(s0[j].0, key@),
            decreases entries.len() - i,
        {
            let o = compare_keys(entries[i].0.as_str(), key.as_str());
            if o == KeyOrder::Equal {
                let ghost k = key@;
                let ghost v = value@;
                entries[i] = (key, value);
                proof {
                    let s1 = pairs_view(entries@);
                    assert(s1 =~= s0.update(i as int, (k, v)));
                    assert(s0[i as int].0 == k);
                    assert forall|a: int, b: int| 0 <= a < b < s1.len() implies #[trigger] key_lt(s1[a].0, s1[b].0) by {
                        assert(s1[a].0 == s0[a].0 && s1[b].0 == s0[b].0);
                        assert(key_lt(s0[a].0, s0[b].0));
                    }
                    assert(s1[i as int] == (k, v));
                    assert forall|x: int| 0 <= x < s0.len() && s0[x].0 != k implies exists|j: int|
                        0 <= j < s1.len() && s1[j] == s0[x] by {
                        assert(s1[x] == s0[x]);
                    }
                    assert forall|j: int| 0 <= j < s1.len() implies s1[j] == (k, v)
                        || exists|x: int| 0 <= x < s0.len() && s0[x] == s1[j] by {
                        if j != i {
                            assert(s0[j] == s1[j]);
                        }
                    }
                    lemma_insert_view(s1, s0, m, k, v);
                }
                self.entries = entries;
                return;
            } else if o == KeyOrder::Greater {
                let ghost k = key@;
                let ghost v = value@;
                entries.insert(i, (key, value));
                proof {
                    let s1 = pairs_view(entries@);
                    assert(s1 =~= s0.insert(i as int, (k, v)));
                    assert forall|a: int, b: int| 0 <= a < b < s1.len() implies #[trigger] key_lt(s1[a].0, s1[b].0) by {
                        if b == i {
                            assert(key_lt(s0[a].0, k));
                        } else if a == i {
                            if b - 1 > i {
                                assert(key_lt(s0[i as int].0, s0[b - 1].0));
                                lemma_bytes_lt_transitive(encode_utf8(k), encode_utf8(s0[i as int].0), encode_utf8(s0[b - 1].0));
                            }
                        } else if a < i && b > i {
                            assert(key_lt(s0[a].0, s0[b - 1].0));
                        } else if a > i {
                            assert(key_lt(s0[a - 1].0, s0[b - 1].0));
                        }
                    }
                    assert(s1[i as int] == (k, v));
                    assert forall|x: int| 0 <= x < s0.len() && s0[x].0 != k implies exists|j: int|
                        0 <= j < s1.len() && s1[j] == s0[x] by {
                        if x < i {
                            assert(s1[x] == s0[x]);
                        } else {
                            assert(s1[x + 1] == s0[x]);
                        }
                    }
                    assert forall|j: int| 0 <= j < s1.len() implies s1[j] == (k, v)
                        || exists|x: int| 0 <= x < s0.len() && s0[x] == s1[j] by {
                        if j < i {
                            assert(s0[j] == s1[j]);
                        } else if j > i {
                            assert(s0[j - 1] == s1[j]);
                        }
                    }
                    lemma_insert_view(s1, s0, m, k, v);
                }
                self.entries = entries;
                return;
            }
            i += 1;
        }
        let ghost k = key@;
        let ghost v = value@;
        entries.push((key, value));
        proof {
            let s1 = pairs_view(entries@);
            assert(s1 =~= s0.push((k, v)));
            assert forall|a: int, b: int| 0 <= a < b < s1.len() implies #[trigger] key_lt(s1[a].0, s1[b].0) by {
                if b == s0.len() {
                    assert(key_lt(s0[a].0, k));
                } else {
                    assert(key_lt(s0[a].0, s0[b].0));
                }
            }
            assert(s1[s0.len() as int] == (k, v));
            assert forall|x: int| 0 <= x < s0.len() && s0[x].0 != k implies exists|j: int|
                0 <= j < s1.len() && s1[j] == s0[x] by {
                assert(s1[x] == s0[x]);
            }
            assert forall|j: int| 0 <= j < s1.len() implies s1[j] == (k, v)
                || exists|x: int| 0 <= x < s0.len() && s0[x] == s1[j] by {
                if j < s0.len() {
                    assert(s0[j] == s1[j]);
                }
            }
            lemma_insert_view(s1, s0, m, k, v);
        }
        self.entries = entries;
    }
}

/// After an insertion that keeps the list sorted and holds exactly the
/// old entries (the one under `k` replaced) plus `(k, v)`, the map is `m`.
proof fn lemma_insert_view(
    s1: Seq<(Seq<char>, Seq<char>)>,
    s0: Seq<(Seq<char>, Seq<char>)>,
    m: Map<Seq<char>, Seq<char>>,
    k: Seq<char>,
    v: Seq<char>,
)
    requires
        strictly_sorted(s0),
        strictly_sorted(s1),
        m == entries_map(s0).insert(k, v),
        exists|p: int| 0 <= p < s1.len() && s1[p] == (k, v),
        forall|i: int| 0 <= i < s0.len() && s0[i].0 != k ==> exists|j: int|
            0 <= j < s1.len() && s1[j] == s0[i],
        forall|j: int| 0 <= j < s1.len() ==> s1[j] == (k, v)
            || exists|i: int| 0 <= i < s0.len() && s0[i] == s1[j],
    ensures
        entries_map(s1) == m,
{
    assert forall|j: int| 0 <= j < s1.len() implies #[trigger] m.contains_key(s1[j].0) && m[s1[j].0] == s1[j].1 by {
        if s1[j] != (k, v) {
            let i = choose|i: int| 0 <= i < s0.len() && s0[i] == s1[j];
            lemma_entries_map_value(s0, i);
            if s1[j].0 == k {
                let p = choose|p: int| 0 <= p < s1.len() && s1[p] == (k, v);
                if p < j {
                    assert(key_lt(s1[p].0, s1[j].0));
                } else if j < p {
                    assert(key_lt(s1[j].0, s1[p].0));
                }
                lemma_bytes_lt_irreflexive(encode_utf8(k));
            }
        }
    }
    assert forall|x: Seq<char>| #[trigger] m.contains_key(x) implies exists|j: int| 0 <= j < s1.len() && s1[j].0 == x by {
        if x != k {
            lemma_entries_map_dom(s0, x);
            let i = choose|i: int| 0 <= i < s0.len() && s0[i].0 == x;
            let j = choose|j: int| 0 <= j < s1.len() && s1[j] == s0[i];
            assert(s1[j].0 == x);
        } else {
            let p = choose|p: int| 0 <= p < s1.len() && s1[p] == (k, v);
            assert(s1[p].0 == x);
        }
    }
    lemma_entries_map_equal(s1, m);
}

impl View for TextChunks {
    type V = Map<Seq<char>, Seq<char>>;

    closed spec fn view(&self) -> Map<Seq<char>, Seq<char>> {
        entries_map(self.entries_view())
    }
}

} // verus!
