//! The index's binary encoding.
//!
//! The serialized index is self-contained: a three-byte header (two magic
//! bytes and a format version), the number of entries, and for each entry
//! the three identity strings (character count, then each character as a
//! 32-bit scalar), the filter's seed, its block length, and its
//! fingerprint table, all integers little-endian.  Decoding is
//! all-or-nothing: any truncation, bad header, bad scalar, malformed
//! filter or trailing byte fails the whole decode.

use vstd::prelude::*;
use vstd::bytes::{
    spec_u32_to_le_bytes, spec_u32_from_le_bytes, spec_u64_to_le_bytes, spec_u64_from_le_bytes,
    u32_to_le_bytes, u32_from_le_bytes, u64_to_le_bytes, u64_from_le_bytes,
    lemma_auto_spec_u32_to_from_le_bytes, lemma_auto_spec_u64_to_from_le_bytes,
};
use crate::filter::XorFilter;
use crate::index::{PostId, PostFilter, SearchIndex};

verus! {

/// The mathematical content of one index entry: what the encoding stores
/// and what search behaviour depends on.
pub ghost struct IndexEntry {
    pub title: Seq<char>,
    pub url: Seq<char>,
    pub meta: Seq<char>,
    pub seed: u64,
    pub block_length: usize,
    pub fingerprints: Seq<u8>,
}

/// The content of one in-memory entry.
pub open spec fn entry_model(pf: PostFilter) -> IndexEntry {
    IndexEntry {
        title: pf.0.title@,
        url: pf.0.url@,
        meta: pf.0.meta@,
        seed: pf.1.seed,
        block_length: pf.1.block_length,
        fingerprints: pf.1.fingerprints@,
    }
}

/// The content of an in-memory index.
pub open spec fn index_model(s: Seq<PostFilter>) -> Seq<IndexEntry> {
    s.map_values(|pf: PostFilter| entry_model(pf))
}

/// An entry the format can represent: lengths fit the machine and the
/// filter is structurally sound.
pub open spec fn entry_bounded(e: IndexEntry) -> bool {
    &&& e.title.len() <= usize::MAX
    &&& e.url.len() <= usize::MAX
    &&& e.meta.len() <= usize::MAX
    &&& e.fingerprints.len() <= usize::MAX
    &&& e.block_length >= 1
    &&& e.fingerprints.len() == 3 * e.block_length
}

/// An index the format can represent.
pub open spec fn index_bounded(es: Seq<IndexEntry>) -> bool {
    &&& es.len() <= usize::MAX
    &&& forall|i: int| 0 <= i < es.len() ==> entry_bounded(#[trigger] es[i])
}

/// The three header bytes: the two magic bytes and the format version.
pub open spec fn header() -> Seq<u8> {
    seq![84u8, 83u8, 1u8]
}

/// A sequence of characters, each as its scalar value in four bytes.
pub open spec fn encode_chars(s: Seq<char>) -> Seq<u8>
    decreases s.len(),
{
    if s.len() == 0 {
        seq![]
    } else {
        spec_u32_to_le_bytes(s[0] as u32) + encode_chars(s.drop_first())
    }
}

/// A length-prefixed string.
pub open spec fn encode_str(s: Seq<char>) -> Seq<u8> {
    spec_u64_to_le_bytes(s.len() as u64) + encode_chars(s)
}

/// A length-prefixed byte sequence.
pub open spec fn encode_byte_seq(b: Seq<u8>) -> Seq<u8> {
    spec_u64_to_le_bytes(b.len() as u64) + b
}

/// One index entry.
pub open spec fn encode_entry(e: IndexEntry) -> Seq<u8> {
    encode_str(e.title) + encode_str(e.url) + encode_str(e.meta) + spec_u64_to_le_bytes(e.seed)
        + spec_u64_to_le_bytes(e.block_length as u64) + encode_byte_seq(e.fingerprints)
}

/// The entries, one after the other.
pub open spec fn encode_entries(es: Seq<IndexEntry>) -> Seq<u8>
    decreases es.len(),
{
    if es.len() == 0 {
        seq![]
    } else {
        encode_entry(es[0]) + encode_entries(es.drop_first())
    }
}

/// The full encoding of an index.
pub open spec fn spec_encode(es: Seq<IndexEntry>) -> Seq<u8> {
    header() + spec_u64_to_le_bytes(es.len() as u64) + encode_entries(es)
}

proof fn lemma_encode_chars_push(s: Seq<char>, c: char)
    ensures
        encode_chars(s.push(c)) == encode_chars(s) + spec_u32_to_le_bytes(c as u32),
    decreases s.len(),
{
    if s.len() == 0 {
        assert(s.push(c)[0] == c);
        assert(s.push(c).drop_first() =~= Seq::<char>::empty());
        assert(encode_chars(Seq::<char>::empty()) == Seq::<u8>::empty());
        assert(encode_chars(s.push(c)) =~= encode_chars(s) + spec_u32_to_le_bytes(c as u32));
    } else {
        assert(s.push(c).drop_first() =~= s.drop_first().push(c));
        lemma_encode_chars_push(s.drop_first(), c);
        assert(s.push(c)[0] == s[0]);
        assert(encode_chars(s.push(c)) =~= encode_chars(s) + spec_u32_to_le_bytes(c as u32));
    }
}

proof fn lemma_encode_entries_push(es: Seq<IndexEntry>, e: IndexEntry)
    ensures
        encode_entries(es.push(e)) == encode_entries(es) + encode_entry(e),
    decreases es.len(),
{
    if es.len() == 0 {
        assert(es.push(e)[0] == e);
        assert(es.push(e).drop_first() =~= Seq::<IndexEntry>::empty());
        assert(encode_entries(Seq::<IndexEntry>::empty()) == Seq::<u8>::empty());
        assert(encode_entries(es.push(e)) =~= encode_entries(es) + encode_entry(e));
    } else {
        assert(es.push(e).drop_first() =~= es.drop_first().push(e));
        lemma_encode_entries_push(es.drop_first(), e);
        assert(es.push(e)[0] == es[0]);
        assert(encode_entries(es.push(e)) =~= encode_entries(es) + encode_entry(e));
    }
}

/// Appends one little-endian 64-bit integer.
fn push_u64(out: &mut Vec<u8>, x: u64)
    ensures
        final(out)@ == old(out)@ + spec_u64_to_le_bytes(x),
{
    let mut b = u64_to_le_bytes(x);
    out.append(&mut b);
}

/// Appends one little-endian 32-bit integer.
fn push_u32(out: &mut Vec<u8>, x: u32)
    ensures
        final(out)@ == old(out)@ + spec_u32_to_le_bytes(x),
{
    let mut b = u32_to_le_bytes(x);
    out.append(&mut b);
}

/// Appends a length-prefixed string.
fn push_str(out: &mut Vec<u8>, s: &String)
    ensures
        final(out)@ == old(out)@ + encode_str(s@),
{
    let n = s.as_str().unicode_len();
    push_u64(out, n as u64);
    let ghost mid = out@;
    let mut i: usize = 0;
    while i < n
        invariant
            n == s@.len(),
            0 <= i <= n,
            out@ == mid + encode_chars(s@.take(i as int)),
        decreases n - i,
    {
        let c = s.as_str().get_char(i);
        push_u32(out, c as u32);
        proof {
            assert(s@.take(i + 1) =~= s@.take(i as int).push(s@[i as int]));
            lemma_encode_chars_push(s@.take(i as int), s@[i as int]);
        }
        i += 1;
    }
    proof {
        assert(s@.take(n as int) =~= s@);
    }
}

/// Appends one encoded index entry.
fn push_entry(out: &mut Vec<u8>, pf: &PostFilter)
    ensures
        final(out)@ == old(out)@ + encode_entry(entry_model(*pf)),
{
    push_str(out, &pf.0.title);
    push_str(out, &pf.0.url);
    push_str(out, &pf.0.meta);
    push_u64(out, pf.1.seed);
    push_u64(out, pf.1.block_length as u64);
    push_u64(out, pf.1.fingerprints.len() as u64);
    let mut fp = pf.1.fingerprints.clone();
    assert(fp@ == pf.1.fingerprints@);
    out.append(&mut fp);
    assert(out@ =~= old(out)@ + encode_entry(entry_model(*pf)));
}

/// Storage container wrapping the searchable index for persistence.
pub struct Storage {
    /// The document filters of the index, in order.
    pub filters: SearchIndex,
}

impl From<SearchIndex> for Storage {
    fn from(filters: SearchIndex) -> Storage {
        Storage { filters }
    }
}

impl vstd::std_specs::convert::FromSpecImpl<SearchIndex> for Storage {
    open spec fn obeys_from_spec() -> bool {
        true
    }

    open spec fn from_spec(filters: SearchIndex) -> Storage {
        Storage { filters }
    }
}

impl Storage {
    /// Serializes the index into its binary format.
    pub fn to_bytes(&self) -> (r: Vec<u8>)
        ensures
            r@ == spec_encode(index_model(self.filters@)),
    {
        let ghost ms = index_model(self.filters@);
        let mut out: Vec<u8> = Vec::new();
        out.push(84u8);
        out.push(83u8);
        out.push(1u8);
        assert(out@ =~= header());
        push_u64(&mut out, self.filters.len() as u64);
        let ghost mid = out@;
        let mut i: usize = 0;
        assert(out@ =~= mid + encode_entries(ms.take(0)));
        while i < self.filters.len()
            invariant
                ms == index_model(self.filters@),
                0 <= i <= self.filters@.len(),
                ms.len() == self.filters@.len(),
                out@ == mid + encode_entries(ms.take(i as int)),
            decreases self.filters@.len() - i,
        {
            let pf = &self.filters[i];
            push_entry(&mut out, pf);
            proof {
                assert(ms[i as int] == entry_model(self.filters@[i as int]));
                assert(ms.take(i + 1) =~= ms.take(i as int).push(ms[i as int]));
                lemma_encode_entries_push(ms.take(i as int), ms[i as int]);
                assert(out@ =~= mid + encode_entries(ms.take(i + 1)));
            }
            i += 1;
        }
        proof {
            assert(ms.take(ms.len() as int) =~= ms);
            assert(out@ =~= spec_encode(ms));
        }
        out
    }
}

} // verus!

// ---------------------------------------------------------------------------
// Decoding
// ---------------------------------------------------------------------------

use vstd::slice::{slice_to_vec, slice_subrange, slice_index_get};

verus! {

/// The decode error: malformed, truncated or inconsistent serialized
/// bytes.  Decoding never partially succeeds.
#[derive(Clone, Copy, Debug, PartialEq, Eq, Structural)]
pub enum DecodeError {
    /// The bytes do not start with the expected magic and version.
    BadHeader,
    /// The bytes end before a complete value could be read.
    Truncated,
    /// A length field exceeds what this machine can hold.
    TooLarge,
    /// An entry holds an invalid character or a malformed filter.
    Malformed,
    /// Well-formed entries followed by leftover bytes.
    TrailingBytes,
}

/// A valid Unicode scalar value.
pub open spec fn u32_is_scalar(v: u32) -> bool {
    v < 0xD800 || (0xE000 <= v && v <= 0x10FFFF)
}

/// Casting a character to its scalar value and back is the identity.
proof fn lemma_char_of_cast(c: char)
    ensures
        char_of(c as u32) == c,
{
    let v = c as u32;
    assert(exists|c2: char| (#[trigger] (c2 as u32)) == v);
    let c3 = choose|c2: char| (#[trigger] (c2 as u32)) == v;
    assert(c3 as u32 == v);
    assert(c3 == c);
    assert(char_of(v) == c3);
}

/// The character with the given scalar value.
pub open spec fn char_of(v: u32) -> char {
    choose|c: char| (#[trigger] (c as u32)) == v
}

/// Relies on `String::push`: appends the given character to the end of
/// the string.
pub assume_specification[ String::push ](s: &mut String, c: char)
    ensures
        final(s)@ == old(s)@.push(c),
;

/// Relies on `char::from_u32`: `Some` exactly on valid Unicode scalar
/// values, returning the character with that value.
pub assume_specification[ char::from_u32 ](v: u32) -> (r: Option<char>)
    ensures
        r is Some <==> u32_is_scalar(v),
        r matches Some(c) ==> c as u32 == v,
;

/// Reads a little-endian 64-bit integer at `pos`.
pub open spec fn decode_u64_at(b: Seq<u8>, pos: int) -> Option<(u64, int)> {
    if 0 <= pos && pos + 8 <= b.len() {
        Some((spec_u64_from_le_bytes(b.subrange(pos, pos + 8)), pos + 8))
    } else {
        None
    }
}

/// Reads `n` characters at `pos`, each a 32-bit scalar value.
pub open spec fn decode_chars_at(b: Seq<u8>, pos: int, n: int) -> Option<(Seq<char>, int)>
    decreases n,
{
    if n <= 0 {
        Some((Seq::empty(), pos))
    } else if 0 <= pos && pos + 4 <= b.len() {
        let v = spec_u32_from_le_bytes(b.subrange(pos, pos + 4));
        if u32_is_scalar(v) {
            match decode_chars_at(b, pos + 4, n - 1) {
                Some((rest, end)) => Some((seq![char_of(v)] + rest, end)),
                None => None,
            }
        } else {
            None
        }
    } else {
        None
    }
}

/// Reads a length-prefixed string at `pos`.
pub open spec fn decode_str_at(b: Seq<u8>, pos: int) -> Option<(Seq<char>, int)> {
    match decode_u64_at(b, pos) {
        Some((n, p)) => if n <= usize::MAX as u64 {
            decode_chars_at(b, p, n as int)
        } else {
            None
        },
        None => None,
    }
}

/// Reads a length-prefixed byte sequence at `pos`.
pub open spec fn decode_byte_seq_at(b: Seq<u8>, pos: int) -> Option<(Seq<u8>, int)> {
    match decode_u64_at(b, pos) {
        Some((n, p)) => if n <= usize::MAX as u64 && p + n <= b.len() {
            Some((b.subrange(p, p + n), p + n))
        } else {
            None
        },
        None => None,
    }
}

/// Reads one index entry at `pos`.
pub open spec fn decode_entry_at(b: Seq<u8>, pos: int) -> Option<(IndexEntry, int)> {
    match decode_str_at(b, pos) {
        Some((title, p1)) => match decode_str_at(b, p1) {
            Some((url, p2)) => match decode_str_at(b, p2) {
                Some((meta, p3)) => match decode_u64_at(b, p3) {
                    Some((seed, p4)) => match decode_u64_at(b, p4) {
                        Some((bl, p5)) => if 1 <= bl && bl <= usize::MAX as u64 {
                            match decode_byte_seq_at(b, p5) {
                                Some((fp, p6)) => if fp.len() == 3 * (bl as usize) {
                                    Some(
                                        (
                                            IndexEntry {
                                                title,
                                                url,
                                                meta,
                                                seed,
                                                block_length: bl as usize,
                                                fingerprints: fp,
                                            },
                                            p6,
                                        ),
                                    )
                                } else {
                                    None
                                },
                                None => None,
                            }
                        } else {
                            None
                        },
                        None => None,
                    },
                    None => None,
                },
                None => None,
            },
            None => None,
        },
        None => None,
    }
}

/// Reads `n` entries at `pos`, one after the other.
pub open spec fn decode_entries_at(b: Seq<u8>, pos: int, n: int) -> Option<(Seq<IndexEntry>, int)>
    decreases n,
{
    if n <= 0 {
        Some((Seq::empty(), pos))
    } else {
        match decode_entry_at(b, pos) {
            Some((e, p)) => match decode_entries_at(b, p, n - 1) {
                Some((rest, end)) => Some((seq![e] + rest, end)),
                None => None,
            },
            None => None,
        }
    }
}

/// The decoded content of a serialized index: `Some` exactly on the byte
/// sequences that are a complete, well-formed encoding.
pub open spec fn spec_decode(b: Seq<u8>) -> Option<Seq<IndexEntry>> {
    if b.len() >= 3 && b.subrange(0, 3) == header() {
        match decode_u64_at(b, 3) {
            Some((n, pos)) => if n <= usize::MAX as u64 {
                match decode_entries_at(b, pos, n as int) {
                    Some((es, end)) => if end == b.len() {
                        Some(es)
                    } else {
                        None
                    },
                    None => None,
                }
            } else {
                None
            },
            None => None,
        }
    } else {
        None
    }
}

/// Reads a little-endian 64-bit integer.
fn read_u64(b: &[u8], pos: usize) -> (r: Option<(u64, usize)>)
    requires
        pos <= b@.len(),
    ensures
        match decode_u64_at(b@, pos as int) {
            Some((x, p)) => r matches Some(rr) && rr.0 == x && rr.1 == p && p <= b@.len(),
            None => r is None,
        },
{
    if b.len() - pos >= 8 {
        let chunk = slice_subrange(b, pos, pos + 8);
        Some((u64_from_le_bytes(chunk), pos + 8))
    } else {
        None
    }
}

/// Reads a length-prefixed string.
#[verifier::loop_isolation(false)]
fn read_str(b: &[u8], pos: usize) -> (r: Option<(String, usize)>)
    requires
        pos <= b@.len(),
    ensures
        match decode_str_at(b@, pos as int) {
            Some((s, p)) => r matches Some(rr) && rr.0@ == s && rr.1 == p && p <= b@.len(),
            None => r is None,
        },
{
    let (n64, p) = match read_u64(b, pos) {
        Some(x) => x,
        None => {
            return None;
        },
    };
    if n64 > usize::MAX as u64 {
        return None;
    }
    let n = n64 as usize;
    let mut s = String::new();
    let mut i: usize = 0;
    let mut q: usize = p;
    proof {
        match decode_chars_at(b@, p as int, n as int) {
            Some((rest, end)) => {
                assert(s@ + rest =~= rest);
            },
            None => {},
        }
    }
    while i < n
        invariant
            q <= b@.len(),
            0 <= i <= n,
            n64 == n,
            decode_chars_at(b@, p as int, n as int) == (match decode_chars_at(
                b@,
                q as int,
                n - i,
            ) {
                Some((rest, end)) => Some((s@ + rest, end)),
                None => None::<(Seq<char>, int)>,
            }),
        decreases n - i,
    {
        if b.len() - q < 4 {
            proof {
                assert(decode_chars_at(b@, q as int, n - i) is None);
                assert(decode_str_at(b@, pos as int) is None);
            }
            return None;
        }
        let chunk = slice_subrange(b, q, q + 4);
        let v = u32_from_le_bytes(chunk);
        let copt = char::from_u32(v);
        if copt.is_none() {
            proof {
                assert(decode_chars_at(b@, q as int, n - i) is None);
                assert(decode_str_at(b@, pos as int) is None);
            }
            return None;
        }
        let c = copt.unwrap();
        let ghost old_s = s@;
        s.push(c);
        proof {
            assert((c as u32) == v);
            lemma_char_of_cast(c);
            assert(char_of(v) == c);
            assert forall|rest: Seq<char>| true implies old_s + (seq![c] + rest) =~= s@ + rest by {}
        }
        q += 4;
        i += 1;
        proof {
            match decode_chars_at(b@, q as int, n - i) {
                Some((rest, end)) => {
                    assert(old_s + (seq![c] + rest) =~= s@ + rest);
                },
                None => {},
            }
        }
    }
    Some((s, q))
}

/// Reads a length-prefixed byte sequence.
fn read_byte_seq(b: &[u8], pos: usize) -> (r: Option<(Vec<u8>, usize)>)
    requires
        pos <= b@.len(),
    ensures
        match decode_byte_seq_at(b@, pos as int) {
            Some((v, p)) => r matches Some(rr) && rr.0@ == v && rr.1 == p && p <= b@.len(),
            None => r is None,
        },
{
    let (n64, p) = match read_u64(b, pos) {
        Some(x) => x,
        None => {
            return None;
        },
    };
    if n64 > usize::MAX as u64 {
        return None;
    }
    let n = n64 as usize;
    if b.len() - p < n {
        return None;
    }
    let chunk = slice_subrange(b, p, p + n);
    Some((slice_to_vec(chunk), p + n))
}

/// Reads one index entry.
fn read_entry(b: &[u8], pos: usize) -> (r: Option<(PostFilter, usize)>)
    requires
        pos <= b@.len(),
    ensures
        match decode_entry_at(b@, pos as int) {
            Some((e, p)) => r matches Some(rr) && entry_model(rr.0) == e && rr.1 == p
                && rr.0.1.wf() && p <= b@.len(),
            None => r is None,
        },
{
    let (title, p1) = match read_str(b, pos) {
        Some(x) => x,
        None => {
            return None;
        },
    };
    let (url, p2) = match read_str(b, p1) {
        Some(x) => x,
        None => {
            return None;
        },
    };
    let (meta, p3) = match read_str(b, p2) {
        Some(x) => x,
        None => {
            return None;
        },
    };
    let (seed, p4) = match read_u64(b, p3) {
        Some(x) => x,
        None => {
            return None;
        },
    };
    let (bl64, p5) = match read_u64(b, p4) {
        Some(x) => x,
        None => {
            return None;
        },
    };
    if bl64 < 1 || bl64 > usize::MAX as u64 {
        return None;
    }
    let bl = bl64 as usize;
    let (fp, p6) = match read_byte_seq(b, p5) {
        Some(x) => x,
        None => {
            return None;
        },
    };
    if !(fp.len() % 3 == 0 && fp.len() / 3 == bl) {
        return None;
    }
    let post_id = PostId { title, url, meta };
    let filter = XorFilter { seed, block_length: bl, fingerprints: fp };
    Some(((post_id, filter), p6))
}

impl Storage {
    /// Deserializes an index from its binary format.  Succeeds exactly on
    /// the byte sequences that are a complete, well-formed encoding; any
    /// truncation, bad header, bad scalar, malformed filter or trailing
    /// byte fails the whole decode.
    #[verifier::loop_isolation(false)]
    pub fn from_bytes(bytes: &[u8]) -> (r: Result<Storage, DecodeError>)
        ensures
            match r {
                Ok(s) => spec_decode(bytes@) == Some(index_model(s.filters@))
                    && crate::index::index_wf(s.filters@),
                Err(_) => spec_decode(bytes@) is None,
            },
    {
        if bytes.len() < 3 {
            return Err(DecodeError::BadHeader);
        }
        if !(*slice_index_get(bytes, 0) == 84u8 && *slice_index_get(bytes, 1) == 83u8
            && *slice_index_get(bytes, 2) == 1u8) {
            assert(bytes@.subrange(0, 3) != header()) by {
                if bytes@.subrange(0, 3) == header() {
                    assert(bytes@.subrange(0, 3)[0] == 84u8);
                    assert(bytes@.subrange(0, 3)[1] == 83u8);
                    assert(bytes@.subrange(0, 3)[2] == 1u8);
                }
            }
            return Err(DecodeError::BadHeader);
        }
        assert(bytes@.subrange(0, 3) =~= header());
        let (n64, p0) = match read_u64(bytes, 3) {
            Some(x) => x,
            None => {
                return Err(DecodeError::Truncated);
            },
        };
        if n64 > usize::MAX as u64 {
            return Err(DecodeError::TooLarge);
        }
        let n = n64 as usize;
        let mut acc: Vec<PostFilter> = Vec::new();
        let mut q: usize = p0;
        let mut i: usize = 0;
        while i < n
            invariant
                q <= bytes@.len(),
                0 <= i <= n,
                crate::index::index_wf(acc@),
                acc@.len() == i,
                match decode_entries_at(bytes@, q as int, n - i) {
                    Some((rest, end)) => decode_entries_at(bytes@, p0 as int, n as int) == Some(
                        (index_model(acc@) + rest, end),
                    ),
                    None => decode_entries_at(bytes@, p0 as int, n as int) is None,
                },
            decreases n - i,
        {
            let (pf, q2) = match read_entry(bytes, q) {
                Some(x) => x,
                None => {
                    proof {
                        assert(decode_entries_at(bytes@, q as int, n - i) is None);
                        assert(decode_entries_at(bytes@, p0 as int, n as int) is None);
                        assert(decode_u64_at(bytes@, 3) == Some((n64, p0 as int)));
                        assert(spec_decode(bytes@) is None);
                    }
                    return Err(DecodeError::Malformed);
                },
            };
            let ghost old_acc = acc@;
            acc.push(pf);
            proof {
                assert(index_model(acc@) =~= index_model(old_acc) + seq![entry_model(pf)]);
                match decode_entries_at(bytes@, q2 as int, n - i - 1) {
                    Some((rest2, end2)) => {
                        assert((index_model(old_acc) + (seq![entry_model(pf)] + rest2)) =~= (
                        index_model(acc@) + rest2));
                    },
                    None => {},
                }
            }
            q = q2;
            i += 1;
        }
        if q != bytes.len() {
            return Err(DecodeError::TrailingBytes);
        }
        proof {
            assert(index_model(acc@) + Seq::<IndexEntry>::empty() =~= index_model(acc@));
        }
        Ok(Storage { filters: acc })
    }
}

} // verus!

// ---------------------------------------------------------------------------
// The round trip: decoding an encoding yields exactly what was encoded.
// ---------------------------------------------------------------------------

verus! {

proof fn lemma_encode_chars_len(s: Seq<char>)
    ensures
        encode_chars(s).len() == 4 * s.len(),
    decreases s.len(),
{
    lemma_auto_spec_u32_to_from_le_bytes();
    if s.len() > 0 {
        lemma_encode_chars_len(s.drop_first());
    }
}

proof fn lemma_decode_u64_encode(b: Seq<u8>, pos: int, x: u64)
    requires
        0 <= pos,
        pos + 8 <= b.len(),
        b.subrange(pos, pos + 8) == spec_u64_to_le_bytes(x),
    ensures
        decode_u64_at(b, pos) == Some((x, pos + 8)),
{
    lemma_auto_spec_u64_to_from_le_bytes();
}

proof fn lemma_decode_chars_encode(b: Seq<u8>, pos: int, s: Seq<char>)
    requires
        0 <= pos,
        pos + 4 * s.len() <= b.len(),
        b.subrange(pos, pos + 4 * s.len()) == encode_chars(s),
    ensures
        decode_chars_at(b, pos, s.len() as int) == Some((s, pos + 4 * s.len())),
    decreases s.len(),
{
    lemma_auto_spec_u32_to_from_le_bytes();
    if s.len() == 0 {
        assert(decode_chars_at(b, pos, 0) == Some((Seq::<char>::empty(), pos)));
        assert(Seq::<char>::empty() =~= s);
    } else {
        let c = s[0];
        let rest = s.drop_first();
        lemma_encode_chars_len(rest);
        let enc = encode_chars(s);
        assert(enc == spec_u32_to_le_bytes(c as u32) + encode_chars(rest));
        assert(b.subrange(pos, pos + 4) =~= spec_u32_to_le_bytes(c as u32)) by {
            assert forall|j: int| 0 <= j < 4 implies #[trigger] b.subrange(pos, pos + 4)[j]
                == spec_u32_to_le_bytes(c as u32)[j] by {
                assert(b[pos + j] == b.subrange(pos, pos + 4 * s.len())[j]);
            }
        }
        let v = spec_u32_from_le_bytes(b.subrange(pos, pos + 4));
        assert(v == c as u32);
        vstd::utf8::char_is_scalar(c);
        assert(u32_is_scalar(v));
        lemma_char_of_cast(c);
        assert(b.subrange(pos + 4, pos + 4 + 4 * rest.len()) =~= encode_chars(rest)) by {
            assert forall|j: int| 0 <= j < 4 * rest.len() implies #[trigger] b.subrange(
                pos + 4,
                pos + 4 + 4 * rest.len(),
            )[j] == encode_chars(rest)[j] by {
                assert(b[pos + 4 + j] == b.subrange(pos, pos + 4 * s.len())[4 + j]);
            }
        }
        lemma_decode_chars_encode(b, pos + 4, rest);
        assert(seq![c] + rest =~= s);
    }
}

proof fn lemma_decode_str_encode(b: Seq<u8>, pos: int, s: Seq<char>)
    requires
        0 <= pos,
        s.len() <= usize::MAX,
        pos + encode_str(s).len() <= b.len(),
        b.subrange(pos, pos + encode_str(s).len()) == encode_str(s),
    ensures
        encode_str(s).len() == 8 + 4 * s.len(),
        decode_str_at(b, pos) == Some((s, pos + encode_str(s).len())),
{
    lemma_auto_spec_u64_to_from_le_bytes();
    lemma_encode_chars_len(s);
    let enc = encode_str(s);
    assert(enc.len() == 8 + 4 * s.len());
    assert(b.subrange(pos, pos + 8) =~= spec_u64_to_le_bytes(s.len() as u64)) by {
        assert forall|j: int| 0 <= j < 8 implies #[trigger] b.subrange(pos, pos + 8)[j]
            == spec_u64_to_le_bytes(s.len() as u64)[j] by {
            assert(b[pos + j] == b.subrange(pos, pos + enc.len())[j]);
        }
    }
    lemma_decode_u64_encode(b, pos, s.len() as u64);
    assert(b.subrange(pos + 8, pos + 8 + 4 * s.len()) =~= encode_chars(s)) by {
        assert forall|j: int| 0 <= j < 4 * s.len() implies #[trigger] b.subrange(
            pos + 8,
            pos + 8 + 4 * s.len(),
        )[j] == encode_chars(s)[j] by {
            assert(b[pos + 8 + j] == b.subrange(pos, pos + enc.len())[8 + j]);
        }
    }
    lemma_decode_chars_encode(b, pos + 8, s);
}

proof fn lemma_decode_byte_seq_encode(b: Seq<u8>, pos: int, fp: Seq<u8>)
    requires
        0 <= pos,
        fp.len() <= usize::MAX,
        pos + encode_byte_seq(fp).len() <= b.len(),
        b.subrange(pos, pos + encode_byte_seq(fp).len()) == encode_byte_seq(fp),
    ensures
        encode_byte_seq(fp).len() == 8 + fp.len(),
        decode_byte_seq_at(b, pos) == Some((fp, pos + encode_byte_seq(fp).len())),
{
    lemma_auto_spec_u64_to_from_le_bytes();
    let enc = encode_byte_seq(fp);
    assert(b.subrange(pos, pos + 8) =~= spec_u64_to_le_bytes(fp.len() as u64)) by {
        assert forall|j: int| 0 <= j < 8 implies #[trigger] b.subrange(pos, pos + 8)[j]
            == spec_u64_to_le_bytes(fp.len() as u64)[j] by {
            assert(b[pos + j] == b.subrange(pos, pos + enc.len())[j]);
        }
    }
    lemma_decode_u64_encode(b, pos, fp.len() as u64);
    assert(b.subrange(pos + 8, pos + 8 + fp.len()) =~= fp) by {
        assert forall|j: int| 0 <= j < fp.len() implies #[trigger] b.subrange(
            pos + 8,
            pos + 8 + fp.len(),
        )[j] == fp[j] by {
            assert(b[pos + 8 + j] == b.subrange(pos, pos + enc.len())[8 + j]);
        }
    }
}

proof fn lemma_decode_entry_encode(b: Seq<u8>, pos: int, e: IndexEntry)
    requires
        0 <= pos,
        entry_bounded(e),
        pos + encode_entry(e).len() <= b.len(),
        b.subrange(pos, pos + encode_entry(e).len()) == encode_entry(e),
    ensures
        decode_entry_at(b, pos) == Some((e, pos + encode_entry(e).len())),
{
    lemma_auto_spec_u64_to_from_le_bytes();
    lemma_encode_chars_len(e.title);
    lemma_encode_chars_len(e.url);
    lemma_encode_chars_len(e.meta);
    let enc = encode_entry(e);
    let t = encode_str(e.title);
    let u = encode_str(e.url);
    let m = encode_str(e.meta);
    let sd = spec_u64_to_le_bytes(e.seed);
    let bl = spec_u64_to_le_bytes(e.block_length as u64);
    let fp = encode_byte_seq(e.fingerprints);
    assert(enc == t + u + m + sd + bl + fp);
    let o1 = pos + t.len();
    let o2 = o1 + u.len();
    let o3 = o2 + m.len();
    let o4 = o3 + 8;
    let o5 = o4 + 8;
    let o6 = o5 + fp.len();
    assert forall|j: int| 0 <= j < enc.len() implies b[pos + j] == #[trigger] enc[j] by {
        assert(b.subrange(pos, pos + enc.len() as int)[j] == enc[j]);
    }
    assert(b.subrange(pos, pos + t.len()) =~= t) by {
        assert forall|k: int| 0 <= k < t.len() implies #[trigger] b.subrange(
            pos,
            pos + t.len() as int,
        )[k] == t[k] by {
            assert(enc[k] == t[k]);
            assert(b[pos + k] == enc[k]);
        }
    }
    lemma_decode_str_encode(b, pos, e.title);
    assert(b.subrange(o1, o1 + u.len()) =~= u) by {
        assert forall|k: int| 0 <= k < u.len() implies #[trigger] b.subrange(
            o1,
            o1 + u.len() as int,
        )[k] == u[k] by {
            assert(enc[t.len() + k] == u[k]);
            assert(b[o1 + k] == enc[t.len() + k]);
        }
    }
    lemma_decode_str_encode(b, o1, e.url);
    assert(b.subrange(o2, o2 + m.len()) =~= m) by {
        assert forall|k: int| 0 <= k < m.len() implies #[trigger] b.subrange(
            o2,
            o2 + m.len() as int,
        )[k] == m[k] by {
            assert(enc[t.len() + u.len() + k] == m[k]);
            assert(b[o2 + k] == enc[t.len() + u.len() + k]);
        }
    }
    lemma_decode_str_encode(b, o2, e.meta);
    assert(b.subrange(o3, o3 + 8) =~= sd) by {
        assert forall|k: int| 0 <= k < 8 implies #[trigger] b.subrange(o3, o3 + 8)[k] == sd[k] by {
            assert(enc[t.len() + u.len() + m.len() + k] == sd[k]);
            assert(b[o3 + k] == enc[t.len() + u.len() + m.len() + k]);
        }
    }
    lemma_decode_u64_encode(b, o3, e.seed);
    assert(b.subrange(o4, o4 + 8) =~= bl) by {
        assert forall|k: int| 0 <= k < 8 implies #[trigger] b.subrange(o4, o4 + 8)[k] == bl[k] by {
            assert(enc[t.len() + u.len() + m.len() + 8 + k] == bl[k]);
            assert(b[o4 + k] == enc[t.len() + u.len() + m.len() + 8 + k]);
        }
    }
    lemma_decode_u64_encode(b, o4, e.block_length as u64);
    assert(b.subrange(o5, o5 + fp.len()) =~= fp) by {
        assert forall|k: int| 0 <= k < fp.len() implies #[trigger] b.subrange(
            o5,
            o5 + fp.len() as int,
        )[k] == fp[k] by {
            assert(enc[t.len() + u.len() + m.len() + 16 + k] == fp[k]);
            assert(b[o5 + k] == enc[t.len() + u.len() + m.len() + 16 + k]);
        }
    }
    lemma_decode_byte_seq_encode(b, o5, e.fingerprints);
    assert(decode_entry_at(b, pos) == Some((e, o6)));
}

proof fn lemma_decode_entries_encode(b: Seq<u8>, pos: int, es: Seq<IndexEntry>)
    requires
        0 <= pos,
        forall|i: int| 0 <= i < es.len() ==> entry_bounded(#[trigger] es[i]),
        pos + encode_entries(es).len() <= b.len(),
        b.subrange(pos, pos + encode_entries(es).len()) == encode_entries(es),
    ensures
        decode_entries_at(b, pos, es.len() as int) == Some((es, pos + encode_entries(es).len())),
    decreases es.len(),
{
    if es.len() == 0 {
        assert(Seq::<IndexEntry>::empty() =~= es);
    } else {
        let e = es[0];
        let rest = es.drop_first();
        let enc = encode_entries(es);
        let e0 = encode_entry(e);
        let er = encode_entries(rest);
        assert(enc == e0 + er);
        assert forall|j: int| 0 <= j < enc.len() implies b[pos + j] == #[trigger] enc[j] by {
            assert(b.subrange(pos, pos + enc.len() as int)[j] == enc[j]);
        }
        assert(b.subrange(pos, pos + e0.len()) =~= e0) by {
            assert forall|k: int| 0 <= k < e0.len() implies #[trigger] b.subrange(
                pos,
                pos + e0.len() as int,
            )[k] == e0[k] by {
                assert(enc[k] == e0[k]);
                assert(b[pos + k] == enc[k]);
            }
        }
        lemma_decode_entry_encode(b, pos, e);
        assert(b.subrange(pos + e0.len(), pos + e0.len() + er.len()) =~= er) by {
            assert forall|k: int| 0 <= k < er.len() implies #[trigger] b.subrange(
                pos + e0.len() as int,
                pos + e0.len() + er.len(),
            )[k] == er[k] by {
                assert(enc[e0.len() + k] == er[k]);
                assert(b[pos + e0.len() + k] == enc[e0.len() + k]);
            }
        }
        lemma_decode_entries_encode(b, pos + e0.len(), rest);
        assert(seq![e] + rest =~= es);
    }
}

/// Round trip: decoding the encoding of any representable index yields
/// back exactly the index content, so the decoded index answers every
/// search query as the original does.
pub proof fn lemma_round_trip(es: Seq<IndexEntry>)
    requires
        index_bounded(es),
    ensures
        spec_decode(spec_encode(es)) == Some(es),
{
    lemma_auto_spec_u64_to_from_le_bytes();
    let b = spec_encode(es);
    assert(b == header() + spec_u64_to_le_bytes(es.len() as u64) + encode_entries(es));
    assert(b.len() == 11 + encode_entries(es).len());
    assert(b.subrange(0, 3) =~= header());
    assert(b.subrange(3, 11) =~= spec_u64_to_le_bytes(es.len() as u64));
    lemma_decode_u64_encode(b, 3, es.len() as u64);
    assert(b.subrange(11, 11 + encode_entries(es).len() as int) =~= encode_entries(es));
    lemma_decode_entries_encode(b, 11, es);
}

} // verus!
