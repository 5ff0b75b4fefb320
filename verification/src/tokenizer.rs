//! A minimal character-level tokenizer.
//!
//! Each distinct character of the dataset gets an integer id `0..n` (in increasing code-point
//! order), and one extra id `n` is reserved for the beginning/end-of-sequence marker (BOS).

use std::collections::BTreeSet;
use vstd::prelude::*;
use vstd::std_specs::cmp::OrdSpec;

verus! {

/// Whether the code points of `s` strictly increase from left to right.
pub open spec fn strictly_increasing(s: Seq<char>) -> bool {
    forall|i: int, j: int| 0 <= i < j < s.len() ==> (s[i] as u32) < (s[j] as u32)
}

/// The contents of the strings `docs`, as character sequences.
pub open spec fn views(docs: Seq<String>) -> Seq<Seq<char>> {
    docs.map_values(|d: String| d@)
}

/// Whether character `c` occurs somewhere in the documents `docs`.
pub open spec fn occurs_in(docs: Seq<Seq<char>>, c: char) -> bool {
    exists|i: int, j: int| 0 <= i < docs.len() && 0 <= j < docs[i].len() && docs[i][j] == c
}

/// The set of distinct characters occurring in `docs`.
pub open spec fn doc_chars(docs: Seq<Seq<char>>) -> Set<char> {
    Set::new(|c: char| occurs_in(docs, c))
}

/// Whether the code point `u` occurs in `docs` before position `(i, k)`: in a document before
/// `docs[i]`, or in `docs[i]` before its `k`-th character.
spec fn seen_at(docs: Seq<String>, i: int, k: int, a: int, b: int, u: u32) -> bool {
    &&& 0 <= a < docs.len()
    &&& 0 <= b < docs[a]@.len()
    &&& (a < i || (a == i && b < k))
    &&& docs[a]@[b] as u32 == u
}

/// Whether the code point `u` occurs in `docs` before position `(i, k)`.
spec fn code_seen(docs: Seq<String>, i: int, k: int, u: u32) -> bool {
    exists|a: int, b: int| #[trigger] seen_at(docs, i, k, a, b, u)
}

/// Whether `u` is a Unicode scalar value, i.e. the code point of some `char`.
pub open spec fn is_scalar_value(u: u32) -> bool {
    u <= 0x10FFFF && !(0xD800 <= u && u <= 0xDFFF)
}

/// The code point of every `char` is a Unicode scalar value.
pub proof fn lemma_char_is_scalar(c: char)
    ensures
        is_scalar_value(c as u32),
{
}

/// Distinct characters have distinct code points.
pub proof fn lemma_code_injective(a: char, b: char)
    requires
        a as u32 == b as u32,
    ensures
        a == b,
{
}

/// Calls `char::from_u32`. Its documentation promises `Some(c)` with `c as u32 == u` exactly
/// when `u` is a Unicode scalar value, and `None` otherwise; that is what the contract claims.
#[verifier::external_body]
fn char_from_code(u: u32) -> (r: Option<char>)
    ensures
        r is Some <==> is_scalar_value(u),
        r matches Some(c) ==> c as u32 == u,
{
    char::from_u32(u)
}

/// Whether `a` comes strictly before `b` in the order of `K`.
spec fn orders_before<K: Ord>(a: K, b: K) -> bool {
    a.cmp_spec(&b) is Less
}

/// The keys of a `BTreeSet<u32>` come out of its iterator in strictly increasing order.
proof fn lemma_set_keys_increase(set: &BTreeSet<u32>)
    ensures
        ({
            let keys = vstd::std_specs::iter::IteratorSpec::remaining(
                &vstd::std_specs::btree::spec_btree_keys_iter(set),
            ).unref();
            forall|i: int, j: int| 0 <= i < j < keys.len() ==> keys[i] < keys[j]
        }),
{
    let rem = vstd::std_specs::iter::IteratorSpec::remaining(
        &vstd::std_specs::btree::spec_btree_keys_iter(set),
    );
    assert(vstd::laws_cmp::obeys_cmp::<u32>());
    assert(vstd::laws_cmp::obeys_cmp::<&u32>());
    assert(vstd::std_specs::btree::increasing_seq(rem));
    assert forall|i: int, j: int| 0 <= i < j < rem.len() implies *rem[i] < *rem[j] by {
        assert(orders_before(rem[i], rem[j]));
    }
}

/// A strictly increasing sequence of characters has at most as many entries as there are
/// code points.
pub proof fn lemma_increasing_len_bound(s: Seq<char>)
    requires
        strictly_increasing(s),
    ensures
        s.len() <= 0x110000,
{
    if s.len() > 0 {
        lemma_increasing_at_least_index(s, s.len() - 1);
        lemma_char_is_scalar(s[s.len() - 1]);
    }
}

/// In a strictly increasing sequence of characters the code point at index `i` is at least `i`.
proof fn lemma_increasing_at_least_index(s: Seq<char>, i: int)
    requires
        strictly_increasing(s),
        0 <= i < s.len(),
    ensures
        s[i] as u32 >= i,
    decreases i,
{
    if i > 0 {
        lemma_increasing_at_least_index(s, i - 1);
    }
}

/// Converts between characters and integer token ids.
pub struct Tokenizer {
    chars: Vec<char>,
}

impl Tokenizer {
    /// The vocabulary of real characters: the character at index `i` has token id `i`.
    pub closed spec fn vocab(self) -> Seq<char> {
        self.chars@
    }

    /// A tokenizer is well formed when its vocabulary is strictly increasing by code point
    /// (so in particular holds no character twice).
    pub open spec fn wf(self) -> bool {
        strictly_increasing(self.vocab())
    }

    /// The token id of vocabulary character `c`: its position in the vocabulary.
    pub open spec fn token_id(self, c: char) -> int {
        choose|i: int| 0 <= i < self.vocab().len() && self.vocab()[i] == c
    }

    /// The character with token id `id`, or `None` when `id` is not the id of a character.
    pub open spec fn decode_spec(self, id: int) -> Option<char> {
        if 0 <= id < self.vocab().len() {
            Some(self.vocab()[id])
        } else {
            None
        }
    }

    /// Build a tokenizer from the documents: the vocabulary is the sorted set of the distinct
    /// characters that occur in them.
    pub fn from_docs(docs: &[String]) -> (t: Tokenizer)
        ensures
            t.wf(),
            t.vocab().to_set() == doc_chars(views(docs@)),
    {
        broadcast use vstd::string::axiom_spec_iter;
        let mut set: BTreeSet<u32> = BTreeSet::new();
        let n = docs.len();
        for i in 0..n
            invariant
                n == docs@.len(),
                forall|u: u32| #[trigger] set@.contains(u) <==> code_seen(docs@, i as int, 0, u),
                forall|u: u32| #[trigger] set@.contains(u) ==> is_scalar_value(u),
        {
            let s = docs[i].as_str();
            proof {
                assert forall|u: u32| code_seen(docs@, i as int, 0, u) implies #[trigger] set@.contains(u) by {}
            }
            let chars_iter = s.chars();
            proof {
                assert(vstd::std_specs::iter::IteratorSpec::remaining(&chars_iter) == s@);
            }
            for ch in it: chars_iter
                invariant
                    it.seq() == s@,
                    forall|u: u32| #[trigger] set@.contains(u) ==> is_scalar_value(u),
                    n == docs@.len(),
                    i < n,
                    s@ == docs@[i as int]@,
                    forall|u: u32| #[trigger] set@.contains(u) <==> code_seen(docs@, i as int, it.index(), u),
            {
                let ghost k = it.index();
                proof {
                    lemma_char_is_scalar(ch);
                }
                set.insert(ch as u32);
                proof {
                    assert(it.seq() == s@);
                    assert(ch == it.seq()[k]);
                    assert(ch == s@[k]);
                    assert forall|u: u32| #[trigger] set@.contains(u) <==> code_seen(docs@, i as int, k + 1, u) by {
                        if code_seen(docs@, i as int, k + 1, u) {
                            let (a, b) = choose|a: int, b: int| #[trigger] seen_at(docs@, i as int, k + 1, a, b, u);
                            if !(a == i && b == k) {
                                assert(seen_at(docs@, i as int, k, a, b, u));
                            }
                        }
                        if code_seen(docs@, i as int, k, u) {
                            let (a, b) = choose|a: int, b: int| #[trigger] seen_at(docs@, i as int, k, a, b, u);
                            assert(seen_at(docs@, i as int, k + 1, a, b, u));
                        }
                        if u == ch as u32 {
                            assert(seen_at(docs@, i as int, k + 1, i as int, k, u));
                        }
                    }
                }
            }
            proof {
                let len = docs@[i as int]@.len() as int;
                assert forall|u: u32| #[trigger] set@.contains(u) <==> code_seen(docs@, i + 1, 0, u) by {
                    if code_seen(docs@, i as int, len, u) {
                        let (a, b) = choose|a: int, b: int| #[trigger] seen_at(docs@, i as int, len, a, b, u);
                        assert(seen_at(docs@, i + 1, 0, a, b, u));
                    }
                    if code_seen(docs@, i + 1, 0, u) {
                        let (a, b) = choose|a: int, b: int| #[trigger] seen_at(docs@, i + 1, 0, a, b, u);
                        assert(seen_at(docs@, i as int, len, a, b, u));
                    }
                }
            }
        }
        let mut chars: Vec<char> = Vec::new();
        let ghost keys = vstd::std_specs::iter::IteratorSpec::remaining(&vstd::std_specs::btree::spec_btree_keys_iter(&set)).unref();
        proof {
            assert(keys.to_set() == set@);
            assert(keys.no_duplicates());
        }
        for code in it: set.iter()
            invariant
                it.seq().unref() == keys,
                forall|u: u32| #[trigger] set@.contains(u) <==> code_seen(docs@, n as int, 0, u),
                forall|u: u32| #[trigger] set@.contains(u) ==> is_scalar_value(u),
                chars@.len() == it.index(),
                forall|k: int| 0 <= k < it.index() ==> (#[trigger] chars@[k] as u32) == keys[k],
        {
            let ghost k = it.index();
            proof {
                assert(it.seq().unref().to_set() == set@);
                assert(it.seq().unref()[k] == *code);
                assert(set@.contains(*code));
            }
            match char_from_code(*code) {
                Some(c) => chars.push(c),
                None => {},
            }
        }
        let t = Tokenizer { chars };
        proof {
            lemma_set_keys_increase(&set);
            assert(strictly_increasing(chars@));
            let dv = views(docs@);
            assert forall|c: char| #[trigger] chars@.to_set().contains(c) <==> doc_chars(dv).contains(c) by {
                if chars@.to_set().contains(c) {
                    let k = choose|k: int| 0 <= k < chars@.len() && chars@[k] == c;
                    assert(keys.to_set().contains(keys[k]));
                    assert(set@.contains(c as u32));
                    let (a, b) = choose|a: int, b: int| #[trigger] seen_at(docs@, n as int, 0, a, b, c as u32);
                    lemma_code_injective(docs@[a]@[b], c);
                    assert(dv[a][b] == c);
                }
                if doc_chars(dv).contains(c) {
                    let (a, b) = choose|a: int, b: int| 0 <= a < dv.len() && 0 <= b < dv[a].len() && dv[a][b] == c;
                    assert(dv[a] == docs@[a]@);
                    assert(seen_at(docs@, n as int, 0, a, b, c as u32));
                    assert(set@.contains(c as u32));
                    assert(keys.to_set().contains(c as u32));
                    let k = choose|k: int| 0 <= k < keys.len() && keys[k] == c as u32;
                    lemma_code_injective(chars@[k], c);
                    assert(chars@.contains(c));
                }
            }
            assert(chars@.to_set() =~= doc_chars(dv));
        }
        t
    }

    /// The BOS token id (one past the last real character).
    pub fn bos(&self) -> (id: usize)
        ensures
            id == self.vocab().len(),
    {
        self.chars.len()
    }

    /// Total number of tokens, including BOS.
    pub fn vocab_size(&self) -> (n: usize)
        requires
            self.wf(),
        ensures
            n == self.vocab().len() + 1,
    {
        proof {
            lemma_increasing_len_bound(self.chars@);
        }
        self.chars.len() + 1
    }

    /// Map a character of the vocabulary to its token id.
    pub fn encode(&self, ch: char) -> (id: usize)
        requires
            self.wf(),
            self.vocab().contains(ch),
        ensures
            id < self.vocab().len(),
            self.vocab()[id as int] == ch,
            id == self.token_id(ch),
    {
        let n = self.chars.len();
        let mut i: usize = 0;
        while i < n
            invariant
                n == self.chars@.len(),
                i <= n,
                self.wf(),
                self.vocab().contains(ch),
                forall|j: int| 0 <= j < i ==> self.chars@[j] != ch,
            decreases n - i,
        {
            if self.chars[i] == ch {
                proof {
                    lemma_token_id_unique(*self, ch, i as int);
                }
                return i;
            }
            i += 1;
        }
        proof {
            let j = choose|j: int| 0 <= j < self.chars@.len() && self.chars@[j] == ch;
            assert(self.chars@[j] != ch);
        }
        n
    }

    /// Map a token id back to its character, or `None` for BOS (and any larger id).
    pub fn decode(&self, id: usize) -> (r: Option<char>)
        ensures
            r == self.decode_spec(id as int),
    {
        if id < self.chars.len() {
            Some(self.chars[id])
        } else {
            None
        }
    }
}

/// In a well-formed tokenizer a character has only one position, so the token id of a character
/// found at index `i` is `i`.
pub proof fn lemma_token_id_unique(t: Tokenizer, c: char, i: int)
    requires
        t.wf(),
        0 <= i < t.vocab().len(),
        t.vocab()[i] == c,
    ensures
        t.token_id(c) == i,
{
    let j = t.token_id(c);
    assert(0 <= j < t.vocab().len() && t.vocab()[j] == c);
    if j < i {
        assert((t.vocab()[j] as u32) < (t.vocab()[i] as u32));
    } else if i < j {
        assert((t.vocab()[i] as u32) < (t.vocab()[j] as u32));
    }
}

/// Decoding the token id of a vocabulary character gives the character back, and no other id
/// decodes to it.
pub proof fn lemma_decode_token_id(t: Tokenizer, c: char)
    requires
        t.wf(),
        t.vocab().contains(c),
    ensures
        0 <= t.token_id(c) < t.vocab().len(),
        t.decode_spec(t.token_id(c)) == Some(c),
        forall|i: int| #[trigger] t.decode_spec(i) == Some(c) ==> i == t.token_id(c),
{
    let j = choose|j: int| 0 <= j < t.vocab().len() && t.vocab()[j] == c;
    lemma_token_id_unique(t, c, j);
    assert forall|i: int| #[trigger] t.decode_spec(i) == Some(c) implies i == t.token_id(c) by {
        lemma_token_id_unique(t, c, i);
    }
}

/// Encoding the character that a real token id decodes to gives the id back.
pub proof fn lemma_token_id_of_decode(t: Tokenizer, id: int)
    requires
        t.wf(),
        0 <= id < t.vocab().len(),
    ensures
        t.decode_spec(id) == Some(t.vocab()[id]),
        t.token_id(t.vocab()[id]) == id,
{
    lemma_token_id_unique(t, t.vocab()[id], id);
}

/// Token ids follow code-point order: a smaller character gets a smaller id.
pub proof fn lemma_token_ids_ordered(t: Tokenizer, a: char, b: char)
    requires
        t.wf(),
        t.vocab().contains(a),
        t.vocab().contains(b),
        (a as u32) < (b as u32),
    ensures
        t.token_id(a) < t.token_id(b),
{
    lemma_decode_token_id(t, a);
    lemma_decode_token_id(t, b);
    let i = t.token_id(a);
    let j = t.token_id(b);
    if j <= i {
        if j < i {
            assert((t.vocab()[j] as u32) < (t.vocab()[i] as u32));
        }
    }
}

/// A strictly increasing sequence of characters is determined by its set of elements: the
/// vocabulary built from a set of characters is the only sorted listing of that set.
pub proof fn lemma_increasing_unique(s1: Seq<char>, s2: Seq<char>)
    requires
        strictly_increasing(s1),
        strictly_increasing(s2),
        s1.to_set() == s2.to_set(),
    ensures
        s1 == s2,
{
    assert forall|k: int| 0 <= k < s1.len() && 0 <= k < s2.len() implies s1[k] == s2[k] by {
        lemma_increasing_agree(s1, s2, k);
    }
    lemma_increasing_not_longer(s1, s2);
    lemma_increasing_not_longer(s2, s1);
    assert(s1 =~= s2);
}

/// Two strictly increasing sequences with the same elements agree at every common index.
proof fn lemma_increasing_agree(s1: Seq<char>, s2: Seq<char>, k: int)
    requires
        strictly_increasing(s1),
        strictly_increasing(s2),
        s1.to_set() == s2.to_set(),
        0 <= k < s1.len(),
        0 <= k < s2.len(),
    ensures
        s1[k] == s2[k],
    decreases k,
{
    if k > 0 {
        lemma_increasing_agree(s1, s2, k - 1);
    }
    assert forall|m: int| 0 <= m < k implies s1[m] == s2[m] by {
        lemma_increasing_agree(s1, s2, m);
    }
    if s1[k] != s2[k] {
        if (s1[k] as u32) < (s2[k] as u32) {
            assert(s1.to_set().contains(s1[k]));
            assert(s2.contains(s1[k]));
            let m = choose|m: int| 0 <= m < s2.len() && s2[m] == s1[k];
            if m < k {
                assert(s1[m] == s2[m]);
            } else if m > k {
                assert((s2[k] as u32) < (s2[m] as u32));
            }
        } else {
            assert(s2.to_set().contains(s2[k]));
            assert(s1.contains(s2[k]));
            let m = choose|m: int| 0 <= m < s1.len() && s1[m] == s2[k];
            if m < k {
                assert(s1[m] == s2[m]);
            } else if m > k {
                assert((s1[k] as u32) < (s1[m] as u32));
            } else {
                lemma_code_injective(s1[k], s2[k]);
            }
        }
    }
}

/// Of two strictly increasing sequences with the same elements, neither is longer.
proof fn lemma_increasing_not_longer(s1: Seq<char>, s2: Seq<char>)
    requires
        strictly_increasing(s1),
        strictly_increasing(s2),
        s1.to_set() == s2.to_set(),
    ensures
        s2.len() <= s1.len(),
{
    if s1.len() < s2.len() {
        let k = s1.len() as int;
        assert(s2.to_set().contains(s2[k]));
        assert(s1.contains(s2[k]));
        let m = choose|m: int| 0 <= m < s1.len() && s1[m] == s2[k];
        lemma_increasing_agree(s1, s2, m);
        assert((s2[m] as u32) < (s2[k] as u32));
    }
}

/// Shuffling the documents does not change the tokenizer built over them: tokenizers whose
/// vocabularies hold the characters of two arrangements of the same documents are identical.
pub proof fn lemma_vocab_ignores_doc_order(t1: Tokenizer, t2: Tokenizer, d1: Seq<Seq<char>>, d2: Seq<Seq<char>>)
    requires
        t1.wf(),
        t2.wf(),
        t1.vocab().to_set() == doc_chars(d1),
        t2.vocab().to_set() == doc_chars(d2),
        d1.to_multiset() == d2.to_multiset(),
    ensures
        t1.vocab() == t2.vocab(),
{
    lemma_doc_chars_reorder(d1, d2);
    lemma_increasing_unique(t1.vocab(), t2.vocab());
}

/// The set of characters of a collection of documents does not depend on their order.
pub proof fn lemma_doc_chars_reorder(d1: Seq<Seq<char>>, d2: Seq<Seq<char>>)
    requires
        d1.to_multiset() == d2.to_multiset(),
    ensures
        doc_chars(d1) == doc_chars(d2),
{
    assert forall|c: char| occurs_in(d1, c) implies occurs_in(d2, c) by {
        lemma_occurs_moves(d1, d2, c);
    }
    assert forall|c: char| occurs_in(d2, c) implies occurs_in(d1, c) by {
        lemma_occurs_moves(d2, d1, c);
    }
    assert(doc_chars(d1) =~= doc_chars(d2));
}

/// A character found in one arrangement of the documents is found in any other arrangement.
proof fn lemma_occurs_moves(d1: Seq<Seq<char>>, d2: Seq<Seq<char>>, c: char)
    requires
        d1.to_multiset() == d2.to_multiset(),
        occurs_in(d1, c),
    ensures
        occurs_in(d2, c),
{
    let (i, j) = choose|i: int, j: int| 0 <= i < d1.len() && 0 <= j < d1[i].len() && d1[i][j] == c;
    assert(d1.contains(d1[i]));
    d1.to_multiset_ensures();
    d2.to_multiset_ensures();
    assert(d1.to_multiset().count(d1[i]) > 0);
    assert(d2.to_multiset().count(d1[i]) > 0);
    assert(d2.contains(d1[i]));
    let m = choose|m: int| 0 <= m < d2.len() && d2[m] == d1[i];
    assert(d2[m][j] == c);
}

} // verus!
