//! The per-document approximate membership filter.
//!
//! Each document's token set is hashed to 64-bit keys and packed into an
//! xor filter with 8-bit fingerprints.  The filter never misses a key it
//! was built from (no false negatives) and answers unknown keys with a
//! small, bounded false-positive rate.

use vstd::prelude::*;
use std::collections::hash_map::DefaultHasher;
use std::hash::Hasher;
use vstd::std_specs::hash::DefaultHasherAdditionalSpecFns;
use vstd::string::StringSliceAdditionalSpecFns;
use crate::{views_of, view_set_of};
use crate::tokenize::is_letter_or_digit;

verus! {

/// One document's approximate membership filter: the three fields of an
/// xor filter with 8-bit fingerprints.
#[derive(Clone, Debug)]
pub struct XorFilter {
    /// The seed the filter was built with.
    pub seed: u64,
    /// The number of slots in each of the filter's three blocks.
    pub block_length: usize,
    /// The fingerprint table, three blocks long.
    pub fingerprints: Vec<u8>,
}

/// Names the answer of `xorf::Xor8::contains`: a pure function of the
/// filter's three fields and the key.
pub uninterp spec fn xor8_contains(
    seed: u64,
    block_length: usize,
    fingerprints: Seq<u8>,
    key: u64,
) -> bool;

/// Relies on `xorf::Xor8::from`: the filter built from distinct keys has a
/// fingerprint table of three non-empty blocks and reports every one of
/// those keys as present (an xor filter has no false negatives).
#[verifier::external_body]
fn xor8_build(keys: &Vec<u64>) -> (f: XorFilter)
    requires
        forall|i: int, j: int| 0 <= i < j < keys@.len() ==> keys@[i] != keys@[j],
    ensures
        f.block_length >= 1,
        f.fingerprints@.len() == 3 * f.block_length,
        forall|i: int|
            0 <= i < keys@.len() ==> xor8_contains(
                f.seed,
                f.block_length,
                f.fingerprints@,
                #[trigger] keys@[i],
            ),
{
    let x = xorf::Xor8::from(keys);
    XorFilter { seed: x.seed, block_length: x.block_length, fingerprints: x.fingerprints.into_vec() }
}

/// Relies on `xorf::Xor8::contains` (through the `xorf::Filter` trait): a
/// pure function of the filter's three fields and the key.
#[verifier::external_body]
fn xor8_query(seed: u64, block_length: usize, fingerprints: &Vec<u8>, key: u64) -> (r: bool)
    requires
        block_length >= 1,
        fingerprints@.len() == 3 * block_length,
    ensures
        r == xor8_contains(seed, block_length, fingerprints@, key),
{
    let x = xorf::Xor8 {
        seed,
        block_length,
        fingerprints: fingerprints.clone().into_boxed_slice(),
    };
    <xorf::Xor8 as xorf::Filter<u64>>::contains(&x, &key)
}

/// The 64-bit key under which a token is stored in a filter: the token's
/// UTF-8 bytes run through `DefaultHasher`.
pub open spec fn token_hash(t: Seq<char>) -> u64 {
    DefaultHasher::spec_finish(seq![vstd::utf8::encode_utf8(t)])
}

/// Hashes one token to its filter key.
pub fn hash_token(t: &str) -> (h: u64)
    ensures
        h == token_hash(t@),
{
    let mut hasher = DefaultHasher::new();
    hasher.write(t.as_bytes());
    assert(hasher@ =~= seq![vstd::utf8::encode_utf8(t@)]);
    hasher.finish()
}

/// Whether one of the keys of `v` equals `k`.
fn contains_u64(v: &Vec<u64>, k: u64) -> (r: bool)
    ensures
        r == v@.contains(k),
{
    let mut i: usize = 0;
    while i < v.len()
        invariant
            0 <= i <= v@.len(),
            forall|j: int| 0 <= j < i ==> v@[j] != k,
        decreases v@.len() - i,
    {
        if v[i] == k {
            return true;
        }
        i += 1;
    }
    false
}

impl XorFilter {
    /// A structurally sound filter: the fingerprint table holds exactly
    /// three blocks and is not empty.
    pub open spec fn wf(self) -> bool {
        self.block_length >= 1 && self.fingerprints@.len() == 3 * self.block_length
    }

    /// Whether the filter reports `key` as present.
    pub open spec fn spec_contains(self, key: u64) -> bool {
        xor8_contains(self.seed, self.block_length, self.fingerprints@, key)
    }

    /// Builds the filter over the given tokens.  Every token handed in is
    /// reported as present afterwards; tokens that were not handed in may
    /// still be reported present with a small probability.
    pub fn build(tokens: &Vec<String>) -> (f: XorFilter)
        ensures
            f.wf(),
            forall|t: Seq<char>|
                view_set_of(tokens@).contains(t) ==> f.spec_contains(#[trigger] token_hash(t)),
    {
        let mut keys: Vec<u64> = Vec::new();
        let mut i: usize = 0;
        while i < tokens.len()
            invariant
                0 <= i <= tokens@.len(),
                forall|p: int, q: int| 0 <= p < q < keys@.len() ==> keys@[p] != keys@[q],
                forall|j: int| 0 <= j < i ==> keys@.contains(token_hash(#[trigger] views_of(tokens@)[j])),
            decreases tokens@.len() - i,
        {
            let h = hash_token(tokens[i].as_str());
            let ghost pre = keys@;
            if !contains_u64(&keys, h) {
                keys.push(h);
            }
            proof {
                assert(views_of(tokens@)[i as int] == tokens@[i as int]@);
                assert(keys@.contains(h)) by {
                    if keys@ != pre {
                        assert(keys@[pre.len() as int] == h);
                    }
                }
                assert forall|j: int| 0 <= j < i + 1 implies keys@.contains(
                    token_hash(#[trigger] views_of(tokens@)[j]),
                ) by {
                    if j < i {
                        let k = choose|k: int|
                            0 <= k < pre.len() && pre[k] == token_hash(views_of(tokens@)[j]);
                        assert(keys@[k] == token_hash(views_of(tokens@)[j]));
                    }
                }
            }
            i += 1;
        }
        let f = xor8_build(&keys);
        assert forall|t: Seq<char>| view_set_of(tokens@).contains(t) implies f.spec_contains(
            #[trigger] token_hash(t),
        ) by {
            let j = choose|j: int| 0 <= j < views_of(tokens@).len() && views_of(tokens@)[j] == t;
            assert(keys@.contains(token_hash(t)));
            let k = choose|k: int| 0 <= k < keys@.len() && keys@[k] == token_hash(t);
        }
        f
    }

    /// Whether the filter reports the hash of the given token as present.
    pub fn contains_token(&self, token: &str) -> (r: bool)
        requires
            self.wf(),
        ensures
            r == self.spec_contains(token_hash(token@)),
    {
        let h = hash_token(token);
        xor8_query(self.seed, self.block_length, &self.fingerprints, h)
    }

    /// The distinct terms whose hash the filter reports as present.
    pub open spec fn hit_set(self, terms: Set<Seq<char>>) -> Set<Seq<char>> {
        terms.filter(|t: Seq<char>| self.spec_contains(token_hash(t)))
    }

    /// Counts the distinct terms of `terms` whose hash the filter reports
    /// as present.
    pub fn count_hits(&self, terms: &Vec<String>) -> (r: usize)
        requires
            self.wf(),
            views_of(terms@).no_duplicates(),
        ensures
            r == self.hit_set(view_set_of(terms@)).len(),
    {
        let mut count: usize = 0;
        let mut i: usize = 0;
        proof {
            assert(views_of(terms@).take(0).to_set() =~= Set::<Seq<char>>::empty());
            assert(self.hit_set(Set::<Seq<char>>::empty()) =~= Set::<Seq<char>>::empty());
        }
        while i < terms.len()
            invariant
                self.wf(),
                views_of(terms@).no_duplicates(),
                0 <= i <= terms@.len(),
                count <= i,
                count == self.hit_set(views_of(terms@).take(i as int).to_set()).len(),
            decreases terms@.len() - i,
        {
            let ghost prefix = views_of(terms@).take(i as int).to_set();
            let ghost t = views_of(terms@)[i as int];
            proof {
                assert(views_of(terms@).take(i + 1) =~= views_of(terms@).take(i as int).push(t));
                views_of(terms@).take(i as int).lemma_push_to_set_commute(t);
                // the current term is new: the prefix has no duplicate of it
                if prefix.contains(t) {
                    let j = choose|j: int|
                        0 <= j < i && views_of(terms@).take(i as int)[j] == t;
                    assert(views_of(terms@)[j] == views_of(terms@)[i as int]);
                    assert(false);
                }
            }
            let hit = self.contains_token(terms[i].as_str());
            proof {
                assert(prefix.finite()) by {
                    views_of(terms@).take(i as int).lemma_cardinality_of_set();
                }
                if hit {
                    assert(self.hit_set(prefix.insert(t)) =~= self.hit_set(prefix).insert(t));
                    assert(!self.hit_set(prefix).contains(t));
                } else {
                    assert(self.hit_set(prefix.insert(t)) =~= self.hit_set(prefix));
                }
                self.hit_set(prefix).lemma_len_filter(
                    |x: Seq<char>| self.spec_contains(token_hash(x)),
                );
                prefix.lemma_len_filter(|x: Seq<char>| self.spec_contains(token_hash(x)));
            }
            if hit {
                count += 1;
            }
            i += 1;
        }
        proof {
            assert(views_of(terms@).take(terms@.len() as int) =~= views_of(terms@));
        }
        count
    }
}

/// How many of the first `k` terms, occurrences counted, the filter
/// reports as present.
pub open spec fn hit_count(f: XorFilter, terms: Seq<String>, k: int) -> nat
    decreases k,
{
    if k <= 0 {
        0
    } else {
        hit_count(f, terms, k - 1) + (if f.spec_contains(token_hash(terms[k - 1]@)) {
            1nat
        } else {
            0nat
        })
    }
}

/// Scoring a slice of query terms against a filter.
pub trait Score {
    /// How many of the given terms the implementor reports as present,
    /// each occurrence counted.
    spec fn spec_hits(&self, terms: Seq<String>) -> nat;

    /// Counts the given terms (occurrences counted) that the implementor
    /// reports as present.
    fn score(&self, terms: &[String]) -> (r: usize)
        ensures
            r == self.spec_hits(terms@),
    ;
}

impl Score for XorFilter {
    /// The filter's hit count over the terms; a structurally unsound
    /// filter (which this library never produces) scores zero.
    open spec fn spec_hits(&self, terms: Seq<String>) -> nat {
        if self.wf() {
            hit_count(*self, terms, terms.len() as int)
        } else {
            0
        }
    }

    fn score(&self, terms: &[String]) -> (r: usize) {
        let fp_len = self.fingerprints.len();
        if !(self.block_length >= 1 && self.block_length <= usize::MAX / 3 && fp_len == 3
            * self.block_length) {
            proof {
                assert(!self.wf());
            }
            return 0;
        }
        let mut count: usize = 0;
        let mut i: usize = 0;
        while i < terms.len()
            invariant
                count <= i <= terms@.len(),
                self.wf(),
                count == hit_count(*self, terms@, i as int),
            decreases terms@.len() - i,
        {
            if self.contains_token(terms[i].as_str()) {
                count += 1;
            }
            i += 1;
        }
        count
    }
}

/// A well-formed name for a generated artifact: longer than one byte and
/// made of alphanumeric characters, hyphens and underscores only.
pub fn valid(s: &str) -> (r: bool)
    ensures
        r == (s.spec_bytes().len() as usize > 1 && forall|j: int|
            0 <= j < s@.len() ==> (is_letter_or_digit(#[trigger] s@[j]) || s@[j] == '-' || s@[j]
                == '_')),
{
    if s.len() <= 1 {
        return false;
    }
    let n = s.unicode_len();
    let mut i: usize = 0;
    while i < n
        invariant
            n == s@.len(),
            0 <= i <= n,
            forall|j: int|
                0 <= j < i ==> (is_letter_or_digit(#[trigger] s@[j]) || s@[j] == '-' || s@[j]
                    == '_'),
        decreases n - i,
    {
        let c = s.get_char(i);
        if !(c.is_alphanumeric() || c == '-' || c == '_') {
            return false;
        }
        i += 1;
    }
    true
}

} // verus!
