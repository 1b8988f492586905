//! Text normalization: turning raw text into the canonical token set.
//!
//! A token is a maximal run of word characters (Unicode letters and the
//! apostrophe), lowercased, that is not a stopword.  Every character that
//! is not a word character acts as a separator.

use vstd::prelude::*;
use crate::{views_of, view_set_of};

verus! {

/// Names the truth value of `char::is_alphabetic` for each character.
pub uninterp spec fn is_letter(c: char) -> bool;

/// Relies on `char::is_alphabetic`: a pure predicate of the character value.
pub assume_specification[ char::is_alphabetic ](c: char) -> (r: bool)
    ensures
        r == is_letter(c),
;

/// Names the truth value of `char::is_alphanumeric` for each character.
pub uninterp spec fn is_letter_or_digit(c: char) -> bool;

/// Relies on `char::is_alphanumeric`: a pure predicate of the character value.
pub assume_specification[ char::is_alphanumeric ](c: char) -> (r: bool)
    ensures
        r == is_letter_or_digit(c),
;

/// Names the character sequence that `str::to_lowercase` produces.
pub uninterp spec fn lower_of(s: Seq<char>) -> Seq<char>;

/// Relies on `str::to_lowercase`: the result depends on the characters alone.
pub assume_specification[ str::to_lowercase ](s: &str) -> (r: String)
    ensures
        r@ == lower_of(s@),
;

/// A word character: a letter or an apostrophe (so that contractions such
/// as "don't" stay one token).
pub open spec fn is_word_char(c: char) -> bool {
    is_letter(c) || c == '\''
}

/// `[a, b)` is a maximal run of word characters of `s`.
pub open spec fn is_run(s: Seq<char>, a: int, b: int) -> bool {
    &&& 0 <= a < b <= s.len()
    &&& (forall|j: int| a <= j < b ==> is_word_char(#[trigger] s[j]))
    &&& (a == 0 || !is_word_char(s[a - 1]))
    &&& (b == s.len() || !is_word_char(s[b]))
}

/// The tokens of `s` whose runs end at or before position `k`.
pub open spec fn token_set_upto(s: Seq<char>, stop: Set<Seq<char>>, k: int) -> Set<Seq<char>> {
    Set::new(
        |t: Seq<char>|
            exists|a: int, b: int|
                is_run(s, a, b) && b <= k && t == lower_of(s.subrange(a, b)) && !stop.contains(t),
    )
}

/// The token set of a text: every maximal run of word characters,
/// lowercased, minus the stopwords.
pub open spec fn token_set(s: Seq<char>, stop: Set<Seq<char>>) -> Set<Seq<char>> {
    token_set_upto(s, stop, s.len() as int)
}

/// A position holding a separator contributes no new token.
proof fn lemma_token_upto_skip(s: Seq<char>, stop: Set<Seq<char>>, i: int)
    requires
        0 <= i < s.len(),
        !is_word_char(s[i]),
    ensures
        token_set_upto(s, stop, i + 1) == token_set_upto(s, stop, i),
{
    assert forall|t: Seq<char>| token_set_upto(s, stop, i + 1).contains(t) implies token_set_upto(
        s,
        stop,
        i,
    ).contains(t) by {
        let (a, b) = choose|a: int, b: int|
            is_run(s, a, b) && b <= i + 1 && t == lower_of(s.subrange(a, b)) && !stop.contains(t);
        if b == i + 1 {
            assert(is_word_char(s[i]));
        }
    }
    assert(token_set_upto(s, stop, i + 1) =~= token_set_upto(s, stop, i));
}

/// Closing the run `[a, b)` adds exactly its lowercased word to the token
/// set, unless that word is a stopword.
proof fn lemma_token_upto_flush(s: Seq<char>, stop: Set<Seq<char>>, a: int, b: int)
    requires
        is_run(s, a, b),
    ensures
        !stop.contains(lower_of(s.subrange(a, b))) ==> token_set_upto(s, stop, b)
            == token_set_upto(s, stop, a).insert(lower_of(s.subrange(a, b))),
        stop.contains(lower_of(s.subrange(a, b))) ==> token_set_upto(s, stop, b)
            == token_set_upto(s, stop, a),
{
    let w = lower_of(s.subrange(a, b));
    assert forall|t: Seq<char>| token_set_upto(s, stop, b).contains(t) implies (t == w
        && !stop.contains(w)) || token_set_upto(s, stop, a).contains(t) by {
        let (a2, b2) = choose|a2: int, b2: int|
            is_run(s, a2, b2) && b2 <= b && t == lower_of(s.subrange(a2, b2)) && !stop.contains(t);
        if b2 > a {
            // A run ending inside (a, b) would end at a word character.
            if b2 < b {
                assert(is_word_char(s[b2]));
                assert(false);
            }
            // So b2 == b; its start must be a.
            if a2 < a {
                assert(is_word_char(s[a - 1]));
                assert(false);
            }
            if a2 > a {
                assert(is_word_char(s[a2 - 1]));
                assert(false);
            }
            assert(t == w);
        }
    }
    if !stop.contains(w) {
        assert(token_set_upto(s, stop, b).contains(w)) by {
            assert(is_run(s, a, b) && b <= b && w == lower_of(s.subrange(a, b)));
        }
        assert(token_set_upto(s, stop, b) =~= token_set_upto(s, stop, a).insert(w));
    } else {
        assert(token_set_upto(s, stop, b) =~= token_set_upto(s, stop, a));
    }
}

/// Whether one of the strings of `v` has exactly the characters of `s`.
pub fn contains_string(v: &Vec<String>, s: &String) -> (r: bool)
    ensures
        r == view_set_of(v@).contains(s@),
{
    let mut k: usize = 0;
    while k < v.len()
        invariant
            0 <= k <= v@.len(),
            forall|j: int| 0 <= j < k ==> views_of(v@)[j] != s@,
        decreases v@.len() - k,
    {
        if v[k] == *s {
            assert(views_of(v@)[k as int] == s@);
            assert(view_set_of(v@).contains(s@));
            return true;
        }
        k += 1;
    }
    assert(forall|j: int| 0 <= j < views_of(v@).len() ==> views_of(v@)[j] != s@);
    false
}

/// Replaces every character that is not a word character by a space,
/// keeping letters and apostrophes.
pub fn cleanup(s: &str) -> (r: String)
    ensures
        r@ == s@.map_values(|c: char| if is_word_char(c) { c } else { ' ' }),
{
    let n = s.unicode_len();
    let mut out = String::new();
    proof {
        reveal_strlit(" ");
    }
    let mut i: usize = 0;
    while i < n
        invariant
            n == s@.len(),
            0 <= i <= n,
            out@ == s@.take(i as int).map_values(|c: char| if is_word_char(c) { c } else { ' ' }),
            " "@ == seq![' '],
        decreases n - i,
    {
        let c = s.get_char(i);
        if c.is_alphabetic() || c == '\'' {
            let w = s.substring_char(i, i + 1);
            out.append(w);
            assert(w@ =~= seq![c]);
        } else {
            out.append(" ");
        }
        proof {
            assert(s@.take(i + 1 as int).map_values(
                (|c: char| if is_word_char(c) { c } else { ' ' }),
            ) =~= s@.take(i as int).map_values(
                (|c: char| if is_word_char(c) { c } else { ' ' }),
            ).push(if is_word_char(s@[i as int]) { s@[i as int] } else { ' ' }));
        }
        i += 1;
    }
    proof {
        assert(s@.take(n as int) =~= s@);
    }
    out
}

/// Splits `text` into its maximal runs of word characters, lowercases each
/// run, and collects the distinct results that are not stopwords.
pub fn tokenize(text: &str, stopwords: &Vec<String>) -> (r: Vec<String>)
    ensures
        views_of(r@).no_duplicates(),
        view_set_of(r@) == token_set(text@, view_set_of(stopwords@)),
{
    let ghost stop = view_set_of(stopwords@);
    let n = text.unicode_len();
    let mut out: Vec<String> = Vec::new();
    // `start` is the first position of the currently open run of word
    // characters; `start == i` means no run is open.
    let mut start: usize = 0;
    let mut i: usize = 0;
    assert(view_set_of(out@) =~= token_set_upto(text@, stop, 0));
    while i < n
        invariant
            n == text@.len(),
            0 <= start <= i <= n,
            forall|j: int| start <= j < i ==> is_word_char(#[trigger] text@[j]),
            start < i ==> (start == 0 || !is_word_char(text@[start - 1])),
            start == i ==> (i == 0 || !is_word_char(text@[i - 1])),
            views_of(out@).no_duplicates(),
            view_set_of(out@) == token_set_upto(text@, stop, start as int),
            stop == view_set_of(stopwords@),
        decreases n - i,
    {
        let c = text.get_char(i);
        if c.is_alphabetic() || c == '\'' {
            i += 1;
        } else {
            if start < i {
                let w = text.substring_char(start, i);
                let low = w.to_lowercase();
                proof {
                    lemma_token_upto_flush(text@, stop, start as int, i as int);
                }
                if !contains_string(stopwords, &low) && !contains_string(&out, &low) {
                    let ghost old_out = out@;
                    out.push(low);
                    proof {
                        assert(views_of(out@) =~= views_of(old_out).push(low@));
                        views_of(old_out).lemma_push_to_set_commute(low@);
                    }
                } else if contains_string(stopwords, &low) {
                    // the run's word is a stopword: the token set is unchanged
                } else {
                    proof {
                        assert(view_set_of(out@).insert(low@) =~= view_set_of(out@));
                    }
                }
            }
            proof {
                lemma_token_upto_skip(text@, stop, i as int);
            }
            i += 1;
            start = i;
        }
    }
    if start < n {
        let w = text.substring_char(start, n);
        let low = w.to_lowercase();
        proof {
            lemma_token_upto_flush(text@, stop, start as int, n as int);
        }
        if !contains_string(stopwords, &low) && !contains_string(&out, &low) {
            let ghost old_out = out@;
            out.push(low);
            proof {
                assert(views_of(out@) =~= views_of(old_out).push(low@));
                views_of(old_out).lemma_push_to_set_commute(low@);
            }
        } else if !contains_string(stopwords, &low) {
            proof {
                assert(view_set_of(out@).insert(low@) =~= view_set_of(out@));
            }
        }
    }
    out
}

/// No stopword is ever a token: the token set of any text is disjoint
/// from the stopword set it was computed with.
pub proof fn lemma_stopwords_excluded(s: Seq<char>, stop: Set<Seq<char>>, t: Seq<char>)
    requires
        stop.contains(t),
    ensures
        !token_set(s, stop).contains(t),
{
}

} // verus!

verus! {

/// The given words joined by single spaces.
pub open spec fn join_with_spaces(ts: Seq<Seq<char>>) -> Seq<char>
    decreases ts.len(),
{
    if ts.len() == 0 {
        Seq::empty()
    } else if ts.len() == 1 {
        ts[0]
    } else {
        join_with_spaces(ts.drop_last()) + seq![' '] + ts.last()
    }
}

/// A word that tokenization itself could produce: non-empty, word
/// characters only, its own lowercase form, and no stopword.
pub open spec fn settled_token(t: Seq<char>, stop: Set<Seq<char>>) -> bool {
    &&& t.len() > 0
    &&& (forall|j: int| 0 <= j < t.len() ==> is_word_char(#[trigger] t[j]))
    &&& lower_of(t) == t
    &&& !stop.contains(t)
}

/// A settled token tokenizes to exactly itself: its whole text is one
/// maximal run, lowercasing leaves it alone, and it passes the stopword
/// filter.
pub proof fn lemma_token_fixpoint(t: Seq<char>, stop: Set<Seq<char>>)
    requires
        settled_token(t, stop),
    ensures
        token_set(t, stop) == Set::<Seq<char>>::empty().insert(t),
{
    let n = t.len() as int;
    assert(is_run(t, 0, n));
    assert(t.subrange(0, n) =~= t);
    assert(token_set(t, stop).contains(t));
    assert forall|x: Seq<char>| token_set(t, stop).contains(x) implies x == t by {
        let (a, b) = choose|a: int, b: int|
            is_run(t, a, b) && b <= n && x == lower_of(t.subrange(a, b)) && !stop.contains(x);
        if a > 0 {
            assert(is_word_char(t[a - 1]));
            assert(false);
        }
        if b < n {
            assert(is_word_char(t[b]));
            assert(false);
        }
        assert(t.subrange(a, b) =~= t);
    }
    assert(token_set(t, stop) =~= Set::<Seq<char>>::empty().insert(t));
}

/// Appending a space and a settled token to any text extends its token
/// set by exactly that token.  Holds when the space is a separator, which
/// is the tokenizer's classification of it.
proof fn lemma_token_set_append(u: Seq<char>, w: Seq<char>, stop: Set<Seq<char>>)
    requires
        !is_word_char(' '),
        settled_token(w, stop),
    ensures
        token_set(u + seq![' '] + w, stop) == token_set(u, stop).insert(w),
{
    let s = u + seq![' '] + w;
    let ul = u.len() as int;
    let sl = s.len() as int;
    assert(s[ul] == ' ');
    assert(forall|j: int| 0 <= j < ul ==> s[j] == u[j]);
    assert(forall|j: int| ul + 1 <= j < sl ==> s[j] == w[j - ul - 1]);
    // the appended token is a run of the combined text
    assert(is_run(s, ul + 1, sl));
    assert(s.subrange(ul + 1, sl) =~= w);
    assert(token_set(s, stop).contains(w));
    // every token of the combined text is a token of the prefix or the
    // appended word
    assert forall|x: Seq<char>| token_set(s, stop).contains(x) implies (token_set(
        u,
        stop,
    ).contains(x) || x == w) by {
        let (a, b) = choose|a: int, b: int|
            is_run(s, a, b) && b <= sl && x == lower_of(s.subrange(a, b)) && !stop.contains(x);
        if b <= ul {
            assert(is_run(u, a, b)) by {
                assert(forall|j: int| a <= j < b ==> u[j] == s[j]);
                if b < ul {
                    assert(u[b] == s[b]);
                }
            }
            assert(u.subrange(a, b) =~= s.subrange(a, b));
            assert(token_set(u, stop).contains(x));
        } else {
            // the run lies beyond the separator and must be the word
            if a <= ul {
                assert(is_word_char(s[ul]));
                assert(false);
            }
            if a > ul + 1 {
                assert(is_word_char(s[a - 1]));
                assert(false);
            }
            if b < sl {
                assert(is_word_char(s[b]));
                assert(false);
            }
            assert(s.subrange(a, b) =~= w);
        }
    }
    // every token of the prefix stays a token of the combined text
    assert forall|x: Seq<char>| token_set(u, stop).contains(x) implies token_set(s, stop).contains(
        x,
    ) by {
        let (a, b) = choose|a: int, b: int|
            is_run(u, a, b) && b <= ul && x == lower_of(u.subrange(a, b)) && !stop.contains(x);
        assert(is_run(s, a, b)) by {
            assert(forall|j: int| a <= j < b ==> s[j] == u[j]);
            if b == ul {
                assert(s[b] == ' ');
            } else {
                assert(s[b] == u[b]);
            }
        }
        assert(s.subrange(a, b) =~= u.subrange(a, b));
    }
    assert(token_set(s, stop) =~= token_set(u, stop).insert(w));
}

/// Tokenization idempotence: joining any tokenizer output with spaces and
/// tokenizing it again yields the same token set.  The premises mirror
/// what tokenization guarantees of its own output on ordinary text: every
/// token is a non-empty run of word characters, is its own lowercase form,
/// and is no stopword; and the space separator is not a word character,
/// which is the tokenizer's own classification of it.
pub proof fn lemma_tokenize_idempotent(toks: Seq<Seq<char>>, stop: Set<Seq<char>>)
    requires
        !is_word_char(' '),
        forall|k: int| 0 <= k < toks.len() ==> settled_token(#[trigger] toks[k], stop),
    ensures
        token_set(join_with_spaces(toks), stop) == toks.to_set(),
    decreases toks.len(),
{
    if toks.len() == 0 {
        assert forall|x: Seq<char>| !token_set(join_with_spaces(toks), stop).contains(x) by {
            if token_set(join_with_spaces(toks), stop).contains(x) {
                let (a, b) = choose|a: int, b: int|
                    is_run(join_with_spaces(toks), a, b) && b <= 0 && x == lower_of(
                        join_with_spaces(toks).subrange(a, b),
                    ) && !stop.contains(x);
                assert(false);
            }
        }
        assert(token_set(join_with_spaces(toks), stop) =~= toks.to_set());
    } else if toks.len() == 1 {
        lemma_token_fixpoint(toks[0], stop);
        assert(toks.to_set() =~= Set::<Seq<char>>::empty().insert(toks[0]));
    } else {
        let prev = toks.drop_last();
        lemma_tokenize_idempotent(prev, stop);
        lemma_token_set_append(join_with_spaces(prev), toks.last(), stop);
        assert(toks =~= prev.push(toks.last()));
        prev.lemma_push_to_set_commute(toks.last());
        assert(token_set(join_with_spaces(toks), stop) =~= toks.to_set());
    }
}

} // verus!
