//! The search facade: building an index from documents and querying it.
//!
//! `TinySearch` carries the stopword configuration.  Building an index
//! prepares each document into an identity and a raw body, tokenizes
//! title, metadata and body with the configured stopwords, and seeds one
//! filter per document with the union of those tokens.  Querying
//! tokenizes the query with the same stopwords and ranks the documents.

use vstd::prelude::*;
use crate::{views_of, view_set_of};
use crate::filter::XorFilter;
use crate::index::{PostId, PostFilter, SearchIndex, index_wf};
use crate::search::spec_ranked;
use crate::storage::Storage;
use crate::tokenize::{token_set, tokenize};

verus! {

/// The character sequences of a sequence of string pairs.
pub open spec fn pair_views(v: Seq<(String, String)>) -> Seq<(Seq<char>, Seq<char>)> {
    v.map_values(|p: (String, String)| (p.0@, p.1@))
}

/// The prepared form of one document: its identity fields and its raw
/// (not yet tokenized) body.
pub ghost struct PreparedDoc {
    pub title: Seq<char>,
    pub url: Seq<char>,
    pub meta: Seq<char>,
    pub body: Option<Seq<char>>,
}

/// A document provider.  Any type exposing these accessors can be
/// indexed; the spec functions name what each accessor returns.
pub trait Post {
    /// The document's display title.
    spec fn spec_title(&self) -> Seq<char>;

    /// The document's locator.
    spec fn spec_url(&self) -> Seq<char>;

    /// The document's raw body text, if any.
    spec fn spec_body(&self) -> Option<Seq<char>>;

    /// The document's metadata pairs, in their stable order.
    spec fn spec_meta(&self) -> Seq<(Seq<char>, Seq<char>)>;

    /// Get the post title.
    fn title(&self) -> (r: &str)
        ensures
            r@ == self.spec_title(),
    ;

    /// Get the post URL or identifier.
    fn url(&self) -> (r: &str)
        ensures
            r@ == self.spec_url(),
    ;

    /// Get the post body content, if any.
    fn body(&self) -> (r: Option<&str>)
        ensures
            match r {
                Some(s) => self.spec_body() matches Some(v) && s@ == v,
                None => self.spec_body() is None,
            },
    ;

    /// Get the metadata as key-value pairs, in a stable order.
    fn meta(&self) -> (r: Vec<(String, String)>)
        ensures
            pair_views(r@) == self.spec_meta(),
    ;
}

/// Basic document type for simple use cases: all fields held as plain
/// values.
#[derive(Clone, Debug)]
pub struct BasicPost {
    /// Post title.
    pub title: String,
    /// Post URL or permalink.
    pub url: String,
    /// Optional post body content.
    pub body: Option<String>,
    /// Metadata as key-value pairs, in a stable order.
    pub meta: Vec<(String, String)>,
}

impl Post for BasicPost {
    open spec fn spec_title(&self) -> Seq<char> {
        self.title@
    }

    open spec fn spec_url(&self) -> Seq<char> {
        self.url@
    }

    open spec fn spec_body(&self) -> Option<Seq<char>> {
        match self.body {
            Some(b) => Some(b@),
            None => None,
        }
    }

    open spec fn spec_meta(&self) -> Seq<(Seq<char>, Seq<char>)> {
        pair_views(self.meta@)
    }

    fn title(&self) -> &str {
        self.title.as_str()
    }

    fn url(&self) -> &str {
        self.url.as_str()
    }

    fn body(&self) -> (r: Option<&str>) {
        match &self.body {
            Some(b) => Some(b.as_str()),
            None => None,
        }
    }

    #[verifier::loop_isolation(false)]
    fn meta(&self) -> (r: Vec<(String, String)>) {
        let mut out: Vec<(String, String)> = Vec::new();
        let mut i: usize = 0;
        while i < self.meta.len()
            invariant
                0 <= i <= self.meta@.len(),
                pair_views(out@) == pair_views(self.meta@.take(i as int)),
            decreases self.meta@.len() - i,
        {
            let k = self.meta[i].0.clone();
            let v = self.meta[i].1.clone();
            let ghost old_out = out@;
            let ghost kv = (k, v);
            out.push((k, v));
            proof {
                assert(out@ == old_out.push(kv));
                assert(kv.0 == self.meta@[i as int].0 && kv.1 == self.meta@[i as int].1);
                assert(self.meta@.take(i + 1) =~= self.meta@.take(i as int).push(self.meta@[i as int]));
                assert(pair_views(out@).len() == pair_views(self.meta@.take(i + 1)).len());
                assert forall|j: int| 0 <= j < out@.len() implies pair_views(out@)[j]
                    == pair_views(self.meta@.take(i + 1))[j] by {
                    if j < i {
                        assert(pair_views(old_out)[j] == pair_views(self.meta@.take(i as int))[j]);
                        assert(out@[j] == old_out[j]);
                        assert(self.meta@.take(i + 1)[j] == self.meta@.take(i as int)[j]);
                    } else {
                        assert(out@[j] == kv);
                        assert(self.meta@.take(i + 1)[j] == self.meta@[i as int]);
                    }
                }
                assert(pair_views(out@) =~~= pair_views(self.meta@.take(i + 1)));
            }
            i += 1;
        }
        proof {
            assert(self.meta@.take(self.meta@.len() as int) =~= self.meta@);
            assert(pair_views(out@) =~~= pair_views(self.meta@));
        }
        out
    }
}

/// One metadata pair rendered as `"key":"value"`.
pub open spec fn meta_entry_of(p: (Seq<char>, Seq<char>)) -> Seq<char> {
    seq!['"'] + p.0 + seq!['"', ':', '"'] + p.1 + seq!['"']
}

/// The first `k` metadata pairs rendered, separated by commas.
pub open spec fn meta_inner_upto(pairs: Seq<(Seq<char>, Seq<char>)>, k: int) -> Seq<char>
    decreases k,
{
    if k <= 0 {
        Seq::empty()
    } else if k == 1 {
        meta_entry_of(pairs[0])
    } else {
        meta_inner_upto(pairs, k - 1) + seq![','] + meta_entry_of(pairs[k - 1])
    }
}

/// The stable textual form of a metadata mapping: empty when the mapping
/// is empty, else the pairs in their given order, braced.  Quotes inside
/// keys and values are not escaped.
pub open spec fn meta_string_of(pairs: Seq<(Seq<char>, Seq<char>)>) -> Seq<char> {
    if pairs.len() == 0 {
        Seq::empty()
    } else {
        seq!['{'] + meta_inner_upto(pairs, pairs.len() as int) + seq!['}']
    }
}

/// Renders a metadata mapping into its stable textual form.
#[verifier::loop_isolation(false)]
pub fn meta_string(pairs: &Vec<(String, String)>) -> (r: String)
    ensures
        r@ == meta_string_of(pair_views(pairs@)),
{
    let ghost ps = pair_views(pairs@);
    if pairs.len() == 0 {
        let r = String::new();
        return r;
    }
    let mut out = String::new();
    out.push('{');
    let mut i: usize = 0;
    proof {
        assert(out@ =~= seq!['{'] + meta_inner_upto(ps, 0));
    }
    while i < pairs.len()
        invariant
            0 < pairs@.len(),
            0 <= i <= pairs@.len(),
            ps == pair_views(pairs@),
            out@ == seq!['{'] + meta_inner_upto(ps, i as int),
        decreases pairs@.len() - i,
    {
        if i > 0 {
            out.push(',');
        }
        out.push('"');
        out.append(pairs[i].0.as_str());
        out.push('"');
        out.push(':');
        out.push('"');
        out.append(pairs[i].1.as_str());
        out.push('"');
        proof {
            assert(ps[i as int] == (pairs@[i as int].0@, pairs@[i as int].1@));
            if i == 0 {
                assert(out@ =~= seq!['{'] + meta_inner_upto(ps, 1));
            } else {
                assert(out@ =~= seq!['{'] + meta_inner_upto(ps, i + 1));
            }
        }
        i += 1;
    }
    out.push('}');
    proof {
        assert(out@ =~= meta_string_of(ps));
    }
    out
}

/// The prepared form of one document.
pub open spec fn doc_of<P: Post>(p: P) -> PreparedDoc {
    PreparedDoc {
        title: p.spec_title(),
        url: p.spec_url(),
        meta: meta_string_of(p.spec_meta()),
        body: p.spec_body(),
    }
}

/// Two prepared documents carry the same identity.
pub open spec fn same_identity(a: PreparedDoc, b: PreparedDoc) -> bool {
    a.title == b.title && a.url == b.url && a.meta == b.meta
}

/// The first position at or after `j` holding `d`'s identity, or the
/// sequence's length if there is none.
pub open spec fn find_identity(acc: Seq<PreparedDoc>, d: PreparedDoc, j: int) -> int
    decreases acc.len() - j,
{
    if j < 0 || j >= acc.len() {
        acc.len() as int
    } else if same_identity(acc[j], d) {
        j
    } else {
        find_identity(acc, d, j + 1)
    }
}

/// Adds one prepared document: a document whose identity is already
/// present replaces that entry's body (last write wins, position kept); a
/// new identity is appended.
pub open spec fn upsert_doc(acc: Seq<PreparedDoc>, d: PreparedDoc) -> Seq<PreparedDoc> {
    let j = find_identity(acc, d, 0);
    if j < acc.len() {
        acc.update(j, PreparedDoc { title: acc[j].title, url: acc[j].url, meta: acc[j].meta, body: d.body })
    } else {
        acc.push(d)
    }
}

/// The prepared form of the first `n` documents.
pub open spec fn spec_prepare<P: Post>(posts: Seq<P>, n: int) -> Seq<PreparedDoc>
    decreases n,
{
    if n <= 0 {
        Seq::empty()
    } else {
        upsert_doc(spec_prepare(posts, n - 1), doc_of(posts[n - 1]))
    }
}

/// The prepared document that an in-memory pair stands for.
pub open spec fn prepared_of(e: (PostId, Option<String>)) -> PreparedDoc {
    PreparedDoc {
        title: e.0.title@,
        url: e.0.url@,
        meta: e.0.meta@,
        body: match e.1 {
            Some(b) => Some(b@),
            None => None,
        },
    }
}

/// The prepared documents that an in-memory sequence stands for.
pub open spec fn prepared_model(v: Seq<(PostId, Option<String>)>) -> Seq<PreparedDoc> {
    v.map_values(|e: (PostId, Option<String>)| prepared_of(e))
}

/// The token set of one prepared document: its title's, metadata's and
/// body's tokens, united.
pub open spec fn doc_token_set(d: PreparedDoc, stop: Set<Seq<char>>) -> Set<Seq<char>> {
    token_set(d.title, stop).union(token_set(d.meta, stop)).union(
        match d.body {
            Some(b) => token_set(b, stop),
            None => Set::empty(),
        },
    )
}

/// An index built over the given prepared documents: one entry per
/// document, in order, each filter sound and reporting every token of its
/// document's combined content as present (no false negatives).
pub open spec fn built_over(
    idx: Seq<PostFilter>,
    docs: Seq<PreparedDoc>,
    stop: Set<Seq<char>>,
) -> bool {
    &&& idx.len() == docs.len()
    &&& forall|i: int|
        0 <= i < idx.len() ==> {
            &&& (#[trigger] idx[i]).0.title@ == docs[i].title
            &&& idx[i].0.url@ == docs[i].url
            &&& idx[i].0.meta@ == docs[i].meta
            &&& idx[i].1.wf()
            &&& forall|t: Seq<char>|
                doc_token_set(docs[i], stop).contains(t) ==> idx[i].1.spec_contains(
                    #[trigger] crate::filter::token_hash(t),
                )
        }
}

/// Index construction failure.  The xor filter build has no capacity
/// ceiling for deduplicated token sets, so this error is never produced;
/// it is kept so that callers handle construction fallibly.
#[derive(Clone, Copy, Debug, PartialEq, Eq, Structural)]
pub enum BuildError {
    /// A document's token set exceeded the filter's capacity.
    TooManyTokens,
}

/// Main entry point for building and querying search indexes, carrying
/// the stopword configuration.
pub struct TinySearch {
    stopwords: Vec<String>,
}

impl TinySearch {
    /// The set of stopwords this instance tokenizes with.
    pub closed spec fn spec_stopwords(self) -> Set<Seq<char>> {
        view_set_of(self.stopwords@)
    }

    /// Creates an instance with the built-in English stopword list.
    pub fn new() -> (r: TinySearch)
        ensures
            r.spec_stopwords() == builtin_stop_set(),
    {
        let stopwords = default_stopwords();
        TinySearch { stopwords }
    }

    /// Replaces the stopword set (builder pattern).
    pub fn with_stopwords(self, stopwords: Vec<String>) -> (r: TinySearch)
        ensures
            r.spec_stopwords() == view_set_of(stopwords@),
    {
        TinySearch { stopwords }
    }

    /// The stopword list this instance uses.
    pub fn get_stopwords(&self) -> (r: &Vec<String>)
        ensures
            view_set_of(r@) == self.spec_stopwords(),
    {
        &self.stopwords
    }

    /// Replaces every character that is not a letter or an apostrophe by
    /// a space.
    pub fn cleanup(&self, s: String) -> (r: String)
        ensures
            r@ == s@.map_values(
                (
                    |c: char|
                        if crate::tokenize::is_word_char(c) {
                            c
                        } else {
                            ' '
                        }
                ),
            ),
    {
        crate::tokenize::cleanup(s.as_str())
    }

    /// Tokenizes text with an explicit stopword set.
    pub fn tokenize_with_stopwords(&self, words: &str, stopwords: &Vec<String>) -> (r: Vec<String>)
        ensures
            views_of(r@).no_duplicates(),
            view_set_of(r@) == token_set(words@, view_set_of(stopwords@)),
    {
        tokenize(words, stopwords)
    }

    /// Prepares documents for indexing: forms each document's identity
    /// (title, url, rendered metadata) and keeps its raw body.  Documents
    /// with identical identities merge: the last body wins, the first
    /// position is kept.
    #[verifier::loop_isolation(false)]
    pub fn prepare_posts<P: Post>(&self, posts: &[P]) -> (r: Vec<(PostId, Option<String>)>)
        ensures
            prepared_model(r@) == spec_prepare(posts@, posts@.len() as int),
    {
        let n = posts.len();
        let mut acc: Vec<(PostId, Option<String>)> = Vec::new();
        let mut i: usize = 0;
        proof {
            assert(prepared_model(acc@) =~= spec_prepare(posts@, 0));
        }
        while i < n
            invariant
                n == posts@.len(),
                0 <= i <= n,
                prepared_model(acc@) == spec_prepare(posts@, i as int),
            decreases n - i,
        {
            let p = &posts[i];
            let meta_pairs = p.meta();
            let meta_str = meta_string(&meta_pairs);
            let pid = PostId { title: p.title().to_owned(), url: p.url().to_owned(), meta: meta_str };
            let body: Option<String> = match p.body() {
                Some(s) => Some(s.to_owned()),
                None => None,
            };
            let ghost d = doc_of(posts@[i as int]);
            proof {
                assert(prepared_of((pid, body)) == d);
            }
            upsert_entry(&mut acc, pid, body);
            proof {
                assert(prepared_model(acc@) == spec_prepare(posts@, i + 1));
            }
            i += 1;
        }
        acc
    }

    /// Builds one filter per prepared document, seeded with the union of
    /// the tokens of its title, metadata and body.
    #[verifier::loop_isolation(false)]
    pub fn generate_filters(&self, prepared: Vec<(PostId, Option<String>)>) -> (r: Result<
        SearchIndex,
        BuildError,
    >)
        ensures
            r matches Ok(idx) && built_over(
                idx@,
                prepared_model(prepared@),
                self.spec_stopwords(),
            ),
    {
        let ghost docs = prepared_model(prepared@);
        let ghost stop = self.spec_stopwords();
        let mut idx: SearchIndex = Vec::new();
        let n = prepared.len();
        let mut rest = prepared;
        // consume from the front while keeping positions aligned
        let mut out_pos: usize = 0;
        while out_pos < n
            invariant
                n == docs.len(),
                rest@.len() == n - out_pos,
                0 <= out_pos <= n,
                idx@.len() == out_pos,
                forall|k: int|
                    0 <= k < rest@.len() ==> prepared_of(#[trigger] rest@[k]) == docs[
                        out_pos + k
                    ],
                built_over(idx@, docs.take(out_pos as int), stop),
            decreases n - out_pos,
        {
            let (pid, body) = rest.remove(0);
            let ghost d = docs[out_pos as int];
            proof {
                assert(prepared_of((pid, body)) == d);
            }
            let mut tokens = tokenize(pid.title.as_str(), &self.stopwords);
            let mut meta_tokens = tokenize(pid.meta.as_str(), &self.stopwords);
            let mut body_tokens: Vec<String> = match &body {
                Some(b) => tokenize(b.as_str(), &self.stopwords),
                None => Vec::new(),
            };
            let ghost t0 = tokens@;
            let ghost m0 = meta_tokens@;
            let ghost b0 = body_tokens@;
            let ghost tset = view_set_of(tokens@);
            let ghost mset = view_set_of(meta_tokens@);
            let ghost bset = view_set_of(body_tokens@);
            proof {
                if body is None {
                    assert(views_of(body_tokens@) =~= Seq::<Seq<char>>::empty());
                    assert(view_set_of(body_tokens@) =~= Set::<Seq<char>>::empty());
                    assert(d.body is None);
                } else {
                    assert(d.body == Some(body->Some_0@));
                    assert(bset == token_set(body->Some_0@, stop));
                }
            }
            tokens.append(&mut meta_tokens);
            tokens.append(&mut body_tokens);
            proof {
                assert(tokens@ == t0 + m0 + b0);
                lemma_view_set_concat3(t0, m0, b0);
                assert(view_set_of(tokens@) == tset.union(mset).union(bset));
            }
            let filter = XorFilter::build(&tokens);
            idx.push((pid, filter));
            proof {
                assert(docs.take(out_pos + 1) =~= docs.take(out_pos as int).push(d));
                assert(built_over(idx@, docs.take(out_pos + 1), stop));
            }
            out_pos += 1;
        }
        proof {
            assert(docs.take(docs.len() as int) =~= docs);
        }
        Ok(idx)
    }

    /// Builds a search index from documents: prepares them, tokenizes
    /// each one's title, metadata and body with this instance's
    /// stopwords, and seeds one filter per document with those tokens.
    pub fn build_index<P: Post>(&self, posts: &[P]) -> (r: Result<SearchIndex, BuildError>)
        ensures
            r matches Ok(idx) && built_over(
                idx@,
                spec_prepare(posts@, posts@.len() as int),
                self.spec_stopwords(),
            ),
    {
        let prepared = self.prepare_posts(posts);
        self.generate_filters(prepared)
    }

    /// Ranked search against a pre-built index, with this instance's
    /// stopwords: documents with positive scores, by descending score,
    /// ties in index order, at most `num_results` of them.
    pub fn search<'a>(&self, filters: &'a SearchIndex, query: &str, num_results: usize) -> (r: Vec<
        &'a PostId,
    >)
        requires
            index_wf(filters@),
        ensures
            ({
                let terms = token_set(query@, self.spec_stopwords());
                let ranked = spec_ranked(filters@, terms, self.spec_stopwords());
                &&& r@.len() == if num_results <= ranked.len() {
                    num_results as int
                } else {
                    ranked.len() as int
                }
                &&& r@.len() <= num_results
                &&& forall|k: int| 0 <= k < r@.len() ==> *(#[trigger] r@[k]) == filters@[ranked[k]].0
                &&& crate::search::scores_descending(filters@, terms, self.spec_stopwords(), ranked)
            }),
    {
        crate::search::search(filters, query, num_results, &self.stopwords)
    }

    /// Builds an index and serializes it to its binary format.
    pub fn build_and_serialize_index<P: Post>(&self, posts: &[P]) -> (r: Result<
        Vec<u8>,
        BuildError,
    >)
        ensures
            r matches Ok(bytes) && exists|idx: Seq<PostFilter>|
                built_over(
                    idx,
                    spec_prepare(posts@, posts@.len() as int),
                    self.spec_stopwords(),
                ) && bytes@ == crate::storage::spec_encode(
                    #[trigger] crate::storage::index_model(idx),
                ),
    {
        let idx = match self.build_index(posts) {
            Ok(idx) => idx,
            Err(e) => {
                return Err(e);
            },
        };
        let storage = Storage { filters: idx };
        let bytes = storage.to_bytes();
        proof {
            let w = storage.filters@;
            assert(built_over(w, spec_prepare(posts@, posts@.len() as int), self.spec_stopwords())
                && bytes@ == crate::storage::spec_encode(crate::storage::index_model(w)));
        }
        Ok(bytes)
    }

    /// Loads an index from its binary format.  Succeeds exactly on the
    /// byte sequences that are a complete, well-formed encoding.
    pub fn load_index_from_bytes(&self, bytes: &[u8]) -> (r: Result<
        SearchIndex,
        crate::storage::DecodeError,
    >)
        ensures
            match r {
                Ok(idx) => crate::storage::spec_decode(bytes@) == Some(
                    crate::storage::index_model(idx@),
                ) && index_wf(idx@),
                Err(_) => crate::storage::spec_decode(bytes@) is None,
            },
    {
        match Storage::from_bytes(bytes) {
            Ok(storage) => Ok(storage.filters),
            Err(e) => Err(e),
        }
    }
}

impl Default for TinySearch {
    /// The default instance: the built-in English stopword list, exactly
    /// as `TinySearch::new` configures it.
    fn default() -> (r: TinySearch)
        ensures
            r.spec_stopwords() == builtin_stop_set(),
    {
        TinySearch::new()
    }
}

/// `find_identity` from any start at or before a match stops at or before
/// that match.
proof fn lemma_find_identity_found(acc: Seq<PreparedDoc>, d: PreparedDoc, s: int, j: int)
    requires
        0 <= s <= j < acc.len(),
        same_identity(acc[j], d),
    ensures
        find_identity(acc, d, s) <= j,
    decreases j - s,
{
    if s < j && !same_identity(acc[s], d) {
        lemma_find_identity_found(acc, d, s + 1, j);
    }
}

/// Stepping over a non-match advances `find_identity`'s lower bound.
proof fn lemma_find_identity_step(acc: Seq<PreparedDoc>, d: PreparedDoc, j: int)
    requires
        0 <= j < acc.len(),
        !same_identity(acc[j], d),
        find_identity(acc, d, 0) >= j,
    ensures
        find_identity(acc, d, 0) >= j + 1,
{
    lemma_find_identity_skip(acc, d, 0, j);
}

proof fn lemma_find_identity_skip(acc: Seq<PreparedDoc>, d: PreparedDoc, s: int, j: int)
    requires
        0 <= s <= j < acc.len(),
        !same_identity(acc[j], d),
        find_identity(acc, d, s) >= j,
    ensures
        find_identity(acc, d, s) >= j + 1,
    decreases j - s,
{
    if s < acc.len() {
        if same_identity(acc[s], d) {
        } else if s < j {
            lemma_find_identity_skip(acc, d, s + 1, j);
        } else {
            lemma_find_identity_bound(acc, d, s + 1);
        }
    }
}

/// `find_identity` never answers below its start nor above the length.
proof fn lemma_find_identity_bound(acc: Seq<PreparedDoc>, d: PreparedDoc, s: int)
    ensures
        find_identity(acc, d, s) <= acc.len(),
        s <= find_identity(acc, d, s) || find_identity(acc, d, s) == acc.len(),
    decreases acc.len() - s,
{
    if 0 <= s < acc.len() && !same_identity(acc[s], d) {
        lemma_find_identity_bound(acc, d, s + 1);
    }
}

/// The view set of a three-part concatenation is the union of the parts'
/// view sets.
proof fn lemma_view_set_concat3(x: Seq<String>, y: Seq<String>, z: Seq<String>)
    ensures
        view_set_of(x + y + z) == view_set_of(x).union(view_set_of(y)).union(view_set_of(z)),
{
    let v = x + y + z;
    let a = view_set_of(x);
    let b = view_set_of(y);
    let c = view_set_of(z);
    assert forall|t: Seq<char>| view_set_of(v).contains(t) implies a.union(b).union(c).contains(
        t,
    ) by {
        let j = choose|j: int| 0 <= j < views_of(v).len() && views_of(v)[j] == t;
        if j < x.len() {
            assert(views_of(x)[j] == t);
        } else if j < x.len() + y.len() {
            assert(views_of(y)[j - x.len()] == t);
        } else {
            assert(views_of(z)[j - x.len() - y.len()] == t);
        }
    }
    assert forall|t: Seq<char>| a.union(b).union(c).contains(t) implies view_set_of(v).contains(
        t,
    ) by {
        if a.contains(t) {
            let j = choose|j: int| 0 <= j < views_of(x).len() && views_of(x)[j] == t;
            assert(views_of(v)[j] == t);
        } else if b.contains(t) {
            let j = choose|j: int| 0 <= j < views_of(y).len() && views_of(y)[j] == t;
            assert(views_of(v)[x.len() + j] == t);
        } else {
            let j = choose|j: int| 0 <= j < views_of(z).len() && views_of(z)[j] == t;
            assert(views_of(v)[x.len() + y.len() + j] == t);
        }
    }
    assert(view_set_of(v) =~= a.union(b).union(c));
}

/// Adds one prepared entry to the accumulator: an entry whose identity is
/// already present keeps its position and takes the new body (last write
/// wins); a new identity is appended.
#[verifier::loop_isolation(false)]
pub fn upsert_entry(acc: &mut Vec<(PostId, Option<String>)>, pid: PostId, body: Option<String>)
    ensures
        prepared_model(final(acc)@) == upsert_doc(
            prepared_model(old(acc)@),
            prepared_of((pid, body)),
        ),
{
    let ghost d = prepared_of((pid, body));
    let ghost old_acc = acc@;
    proof {
        lemma_find_identity_bound(prepared_model(acc@), d, 0);
    }
    let mut j: usize = 0;
    let mut found = false;
    while j < acc.len() && !found
        invariant
            0 <= j <= acc@.len(),
            acc@ == old_acc,
            !found ==> forall|k: int| 0 <= k < j ==> !same_identity(prepared_model(acc@)[k], d),
            !found ==> find_identity(prepared_model(acc@), d, 0) >= j,
            found ==> j < acc@.len() && same_identity(prepared_model(acc@)[j as int], d)
                && find_identity(prepared_model(acc@), d, 0) == j,
        decreases acc@.len() - j + (if found {
            0int
        } else {
            1int
        }),
    {
        if acc[j].0 == pid {
            found = true;
            proof {
                assert(prepared_model(acc@)[j as int] == prepared_of(acc@[j as int]));
                assert(same_identity(prepared_model(acc@)[j as int], d));
                lemma_find_identity_found(prepared_model(acc@), d, 0, j as int);
            }
        } else {
            proof {
                assert(prepared_model(acc@)[j as int] == prepared_of(acc@[j as int]));
                assert(!same_identity(prepared_model(acc@)[j as int], d));
                lemma_find_identity_step(prepared_model(acc@), d, j as int);
            }
            j += 1;
        }
    }
    if found {
        let slot = &mut acc[j];
        slot.1 = body;
        proof {
            assert(prepared_model(acc@) =~= upsert_doc(prepared_model(old_acc), d));
        }
    } else {
        proof {
            assert(find_identity(prepared_model(acc@), d, 0) >= acc@.len()) by {
                lemma_find_identity_bound(prepared_model(acc@), d, 0);
            }
        }
        acc.push((pid, body));
        proof {
            assert(prepared_model(acc@) =~= upsert_doc(prepared_model(old_acc), d));
        }
    }
}

/// The built-in English stopword list, as character sequences, in its
/// fixed order.
pub open spec fn builtin_stopword_list() -> Seq<Seq<char>> {
    seq![
        "a"@,
        "about"@,
        "above"@,
        "after"@,
        "again"@,
        "all"@,
        "also"@,
        "am"@,
        "an"@,
        "and"@,
        "any"@,
        "are"@,
        "aren't"@,
        "as"@,
        "at"@,
        "be"@,
        "because"@,
        "been"@,
        "before"@,
        "being"@,
        "below"@,
        "between"@,
        "both"@,
        "but"@,
        "by"@,
        "can"@,
        "can't"@,
        "could"@,
        "couldn't"@,
        "did"@,
        "didn't"@,
        "do"@,
        "does"@,
        "doesn't"@,
        "doing"@,
        "don't"@,
        "down"@,
        "during"@,
        "each"@,
        "few"@,
        "for"@,
        "from"@,
        "further"@,
        "get"@,
        "got"@,
        "had"@,
        "hadn't"@,
        "has"@,
        "hasn't"@,
        "have"@,
        "haven't"@,
        "having"@,
        "he"@,
        "her"@,
        "here"@,
        "hers"@,
        "herself"@,
        "him"@,
        "himself"@,
        "his"@,
        "how"@,
        "i"@,
        "if"@,
        "in"@,
        "into"@,
        "is"@,
        "isn't"@,
        "it"@,
        "its"@,
        "itself"@,
        "just"@,
        "know"@,
        "let's"@,
        "like"@,
        "me"@,
        "more"@,
        "most"@,
        "my"@,
        "myself"@,
        "need"@,
        "no"@,
        "nor"@,
        "not"@,
        "now"@,
        "of"@,
        "off"@,
        "on"@,
        "once"@,
        "only"@,
        "or"@,
        "other"@,
        "our"@,
        "ours"@,
        "ourselves"@,
        "out"@,
        "over"@,
        "own"@,
        "same"@,
        "she"@,
        "should"@,
        "shouldn't"@,
        "so"@,
        "some"@,
        "such"@,
        "than"@,
        "that"@,
        "the"@,
        "their"@,
        "theirs"@,
        "them"@,
        "themselves"@,
        "then"@,
        "there"@,
        "these"@,
        "they"@,
        "this"@,
        "those"@,
        "through"@,
        "to"@,
        "too"@,
        "under"@,
        "until"@,
        "up"@,
        "very"@,
        "was"@,
        "wasn't"@,
        "we"@,
        "were"@,
        "weren't"@,
        "what"@,
        "when"@,
        "where"@,
        "which"@,
        "while"@,
        "who"@,
        "whom"@,
        "why"@,
        "will"@,
        "with"@,
        "won't"@,
        "would"@,
        "wouldn't"@,
        "you"@,
        "your"@,
        "yours"@,
        "yourself"@,
        "yourselves"@,
    ]
}

/// The built-in English stopword set.
pub open spec fn builtin_stop_set() -> Set<Seq<char>> {
    builtin_stopword_list().to_set()
}

/// The built-in English stopword list.
pub fn default_stopwords() -> (r: Vec<String>)
    ensures
        views_of(r@) == builtin_stopword_list(),
{
    let r: Vec<String> = vec![
        "a".to_owned(),
        "about".to_owned(),
        "above".to_owned(),
        "after".to_owned(),
        "again".to_owned(),
        "all".to_owned(),
        "also".to_owned(),
        "am".to_owned(),
        "an".to_owned(),
        "and".to_owned(),
        "any".to_owned(),
        "are".to_owned(),
        "aren't".to_owned(),
        "as".to_owned(),
        "at".to_owned(),
        "be".to_owned(),
        "because".to_owned(),
        "been".to_owned(),
        "before".to_owned(),
        "being".to_owned(),
        "below".to_owned(),
        "between".to_owned(),
        "both".to_owned(),
        "but".to_owned(),
        "by".to_owned(),
        "can".to_owned(),
        "can't".to_owned(),
        "could".to_owned(),
        "couldn't".to_owned(),
        "did".to_owned(),
        "didn't".to_owned(),
        "do".to_owned(),
        "does".to_owned(),
        "doesn't".to_owned(),
        "doing".to_owned(),
        "don't".to_owned(),
        "down".to_owned(),
        "during".to_owned(),
        "each".to_owned(),
        "few".to_owned(),
        "for".to_owned(),
        "from".to_owned(),
        "further".to_owned(),
        "get".to_owned(),
        "got".to_owned(),
        "had".to_owned(),
        "hadn't".to_owned(),
        "has".to_owned(),
        "hasn't".to_owned(),
        "have".to_owned(),
        "haven't".to_owned(),
        "having".to_owned(),
        "he".to_owned(),
        "her".to_owned(),
        "here".to_owned(),
        "hers".to_owned(),
        "herself".to_owned(),
        "him".to_owned(),
        "himself".to_owned(),
        "his".to_owned(),
        "how".to_owned(),
        "i".to_owned(),
        "if".to_owned(),
        "in".to_owned(),
        "into".to_owned(),
        "is".to_owned(),
        "isn't".to_owned(),
        "it".to_owned(),
        "its".to_owned(),
        "itself".to_owned(),
        "just".to_owned(),
        "know".to_owned(),
        "let's".to_owned(),
        "like".to_owned(),
        "me".to_owned(),
        "more".to_owned(),
        "most".to_owned(),
        "my".to_owned(),
        "myself".to_owned(),
        "need".to_owned(),
        "no".to_owned(),
        "nor".to_owned(),
        "not".to_owned(),
        "now".to_owned(),
        "of".to_owned(),
        "off".to_owned(),
        "on".to_owned(),
        "once".to_owned(),
        "only".to_owned(),
        "or".to_owned(),
        "other".to_owned(),
        "our".to_owned(),
        "ours".to_owned(),
        "ourselves".to_owned(),
        "out".to_owned(),
        "over".to_owned(),
        "own".to_owned(),
        "same".to_owned(),
        "she".to_owned(),
        "should".to_owned(),
        "shouldn't".to_owned(),
        "so".to_owned(),
        "some".to_owned(),
        "such".to_owned(),
        "than".to_owned(),
        "that".to_owned(),
        "the".to_owned(),
        "their".to_owned(),
        "theirs".to_owned(),
        "them".to_owned(),
        "themselves".to_owned(),
        "then".to_owned(),
        "there".to_owned(),
        "these".to_owned(),
        "they".to_owned(),
        "this".to_owned(),
        "those".to_owned(),
        "through".to_owned(),
        "to".to_owned(),
        "too".to_owned(),
        "under".to_owned(),
        "until".to_owned(),
        "up".to_owned(),
        "very".to_owned(),
        "was".to_owned(),
        "wasn't".to_owned(),
        "we".to_owned(),
        "were".to_owned(),
        "weren't".to_owned(),
        "what".to_owned(),
        "when".to_owned(),
        "where".to_owned(),
        "which".to_owned(),
        "while".to_owned(),
        "who".to_owned(),
        "whom".to_owned(),
        "why".to_owned(),
        "will".to_owned(),
        "with".to_owned(),
        "won't".to_owned(),
        "would".to_owned(),
        "wouldn't".to_owned(),
        "you".to_owned(),
        "your".to_owned(),
        "yours".to_owned(),
        "yourself".to_owned(),
        "yourselves".to_owned(),
    ];
    proof {
        assert(views_of(r@) =~= builtin_stopword_list());
    }
    r
}

} // verus!
