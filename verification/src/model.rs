//! The mathematical model of the corpus: how entry names and the
//! separator form one delimited byte string, and what it means for a
//! pattern to occur inside it.

use vstd::prelude::*;
use vstd::utf8::*;

verus! {

/// True when `needle` occurs in `hay` starting at byte offset `p`.
pub open spec fn occurs_at(hay: Seq<u8>, needle: Seq<u8>, p: int) -> bool {
    &&& 0 <= p
    &&& p + needle.len() <= hay.len()
    &&& hay.subrange(p, p + needle.len()) == needle
}

/// True when `needle` occurs somewhere in `hay`.
pub open spec fn occurs_in(hay: Seq<u8>, needle: Seq<u8>) -> bool {
    exists|p: int| occurs_at(hay, needle, p)
}

/// The set of byte offsets at which `needle` occurs in `hay`.
pub open spec fn occ_positions(hay: Seq<u8>, needle: Seq<u8>) -> Set<int> {
    Set::new(|p: int| occurs_at(hay, needle, p))
}

/// There are finitely many occurrences: no more than one per offset of
/// the text.
pub proof fn lemma_occ_positions_finite(hay: Seq<u8>, needle: Seq<u8>)
    ensures
        occ_positions(hay, needle).finite(),
        occ_positions(hay, needle).len() <= hay.len() + 1,
{
    let range = vstd::set_lib::set_int_range(0, hay.len() as int + 1);
    assert(occ_positions(hay, needle).subset_of(range));
    vstd::set_lib::lemma_int_range(0, hay.len() as int + 1);
    vstd::set_lib::lemma_len_subset(occ_positions(hay, needle), range);
}

/// The separator must be a single ASCII character, so that its one-byte
/// encoding can never appear inside the multi-byte encoding of any other
/// character of an entry name.
pub open spec fn sep_ok(sep: char) -> bool {
    (sep as u32) < 128
}

/// The corpus as characters: every entry name followed by the separator,
/// all joined end-to-end.
pub open spec fn corpus_chars(entries: Seq<Seq<char>>, sep: char) -> Seq<char>
    decreases entries.len(),
{
    if entries.len() == 0 {
        Seq::empty()
    } else {
        entries.first() + seq![sep] + corpus_chars(entries.drop_first(), sep)
    }
}

/// The UTF-8 bytes of the corpus: the encoding of every entry name
/// followed by the separator's single byte.
pub open spec fn corpus_bytes(entries: Seq<Seq<char>>, sep: char) -> Seq<u8>
    decreases entries.len(),
{
    if entries.len() == 0 {
        Seq::empty()
    } else {
        encode_utf8(entries.first()) + seq![sep as u8] + corpus_bytes(entries.drop_first(), sep)
    }
}

/// The byte offset at which entry `k`'s region of the corpus begins.
/// Region `k` holds the encoding of entry `k` followed by one separator
/// byte.
pub open spec fn region_start(entries: Seq<Seq<char>>, k: int) -> int
    decreases k,
{
    if k <= 0 {
        0
    } else {
        encode_utf8(entries.first()).len() + 1 + region_start(entries.drop_first(), k - 1)
    }
}

/// Appending one more entry extends the corpus by that entry and one
/// separator.
pub proof fn lemma_corpus_chars_snoc(entries: Seq<Seq<char>>, sep: char, e: Seq<char>)
    ensures
        corpus_chars(entries.push(e), sep) == corpus_chars(entries, sep) + e + seq![sep],
    decreases entries.len(),
{
    if entries.len() == 0 {
        assert(entries.push(e).len() == 1);
        assert(entries.push(e).first() == e);
        assert(entries.push(e).drop_first() =~= Seq::<Seq<char>>::empty());
        assert(corpus_chars(Seq::<Seq<char>>::empty(), sep) =~= Seq::<char>::empty());
        assert(corpus_chars(entries.push(e), sep) =~= corpus_chars(entries, sep) + e + seq![sep]);
    } else {
        assert(entries.push(e).first() == entries.first());
        assert(entries.push(e).drop_first() =~= entries.drop_first().push(e));
        lemma_corpus_chars_snoc(entries.drop_first(), sep, e);
        assert(corpus_chars(entries.push(e), sep) =~= corpus_chars(entries, sep) + e + seq![sep]);
    }
}

/// UTF-8 encoding distributes over concatenation.
pub proof fn lemma_encode_utf8_concat(a: Seq<char>, b: Seq<char>)
    ensures
        encode_utf8(a + b) == encode_utf8(a) + encode_utf8(b),
    decreases a.len(),
{
    if a.len() == 0 {
        assert(a + b =~= b);
        assert(encode_utf8(a) + encode_utf8(b) =~= encode_utf8(b));
    } else {
        assert((a + b).len() > 0);
        assert((a + b)[0] == a[0]);
        assert((a + b).drop_first() =~= a.drop_first() + b);
        lemma_encode_utf8_concat(a.drop_first(), b);
        assert(encode_utf8(a + b) =~= encode_utf8(a) + encode_utf8(b));
    }
}

/// An ASCII character encodes to exactly its own code point as one byte.
pub proof fn lemma_encode_single_ascii(c: char)
    requires
        (c as u32) < 128,
    ensures
        encode_utf8(seq![c]) == seq![c as u8],
{
    let s = seq![c];
    assert(is_ascii_chars(s));
    is_ascii_chars_encode_utf8(s);
    assert(encode_utf8(s).len() == 1);
    assert(encode_utf8(s)[0] == c as u8);
    assert(encode_utf8(s) =~= seq![c as u8]);
}

/// The corpus bytes are exactly the UTF-8 encoding of the corpus
/// characters, provided the separator is ASCII.
pub proof fn lemma_corpus_bytes_chars(entries: Seq<Seq<char>>, sep: char)
    requires
        sep_ok(sep),
    ensures
        encode_utf8(corpus_chars(entries, sep)) == corpus_bytes(entries, sep),
    decreases entries.len(),
{
    if entries.len() == 0 {
    } else {
        let e = entries.first();
        let rest = corpus_chars(entries.drop_first(), sep);
        assert(e + seq![sep] + rest =~= (e + seq![sep]) + rest);
        lemma_encode_utf8_concat(e + seq![sep], rest);
        lemma_encode_utf8_concat(e, seq![sep]);
        lemma_encode_single_ascii(sep);
        lemma_corpus_bytes_chars(entries.drop_first(), sep);
        assert(encode_utf8(corpus_chars(entries, sep)) =~= corpus_bytes(entries, sep));
    }
}

/// The whole corpus is exactly covered by the entry regions.
pub proof fn lemma_corpus_len(entries: Seq<Seq<char>>, sep: char)
    ensures
        corpus_bytes(entries, sep).len() == region_start(entries, entries.len() as int),
    decreases entries.len(),
{
    if entries.len() == 0 {
    } else {
        lemma_corpus_len(entries.drop_first(), sep);
    }
}

/// Each region start advances by the byte length of the entry plus one
/// separator byte.
pub proof fn lemma_region_step(entries: Seq<Seq<char>>, k: int)
    requires
        0 <= k < entries.len(),
    ensures
        region_start(entries, k + 1) == region_start(entries, k) + encode_utf8(
            entries[k],
        ).len() + 1,
    decreases k,
{
    if k == 0 {
        assert(region_start(entries.drop_first(), 0) == 0);
    } else {
        lemma_region_step(entries.drop_first(), k - 1);
        assert(entries.drop_first()[k - 1] == entries[k]);
    }
}

/// Region starts never decrease.
pub proof fn lemma_region_monotone(entries: Seq<Seq<char>>, k1: int, k2: int)
    requires
        0 <= k1 <= k2 <= entries.len(),
    ensures
        region_start(entries, k1) <= region_start(entries, k2),
    decreases k2 - k1,
{
    if k1 < k2 {
        lemma_region_step(entries, k2 - 1);
        lemma_region_monotone(entries, k1, k2 - 1);
    }
}

/// What region `k` of the corpus holds: the encoding of entry `k`
/// followed by one separator byte.
pub proof fn lemma_region_content(entries: Seq<Seq<char>>, sep: char, k: int)
    requires
        0 <= k < entries.len(),
    ensures
        region_start(entries, k + 1) <= corpus_bytes(entries, sep).len(),
        corpus_bytes(entries, sep).subrange(region_start(entries, k), region_start(entries, k + 1))
            == encode_utf8(entries[k]) + seq![sep as u8],
    decreases k,
{
    lemma_corpus_len(entries, sep);
    lemma_region_monotone(entries, k + 1, entries.len() as int);
    lemma_region_step(entries, k);
    let cb = corpus_bytes(entries, sep);
    if k == 0 {
        assert(cb.subrange(0, encode_utf8(entries[0]).len() as int + 1) =~= encode_utf8(entries[0])
            + seq![sep as u8]);
    } else {
        let head_len = encode_utf8(entries.first()).len() + 1;
        let tail = corpus_bytes(entries.drop_first(), sep);
        lemma_region_content(entries.drop_first(), sep, k - 1);
        lemma_corpus_len(entries.drop_first(), sep);
        lemma_region_monotone(entries.drop_first(), 0, k - 1);
        lemma_region_monotone(entries.drop_first(), k, entries.drop_first().len() as int);
        assert(region_start(entries, k) == head_len + region_start(entries.drop_first(), k - 1));
        assert(region_start(entries, k + 1) == head_len + region_start(entries.drop_first(), k));
        assert(cb.subrange(region_start(entries, k), region_start(entries, k + 1)) =~= tail.subrange(
            region_start(entries.drop_first(), k - 1),
            region_start(entries.drop_first(), k),
        ));
        assert(entries.drop_first()[k - 1] == entries[k]);
    }
}

/// A byte offset of the corpus lies in the region of at most one entry.
pub proof fn lemma_region_unique(entries: Seq<Seq<char>>, j: int, k: int, p: int)
    requires
        0 <= j < entries.len(),
        0 <= k < entries.len(),
        region_start(entries, j) <= p < region_start(entries, j + 1),
        region_start(entries, k) <= p < region_start(entries, k + 1),
    ensures
        j == k,
{
    if j < k {
        lemma_region_monotone(entries, j + 1, k);
    } else if k < j {
        lemma_region_monotone(entries, k + 1, j);
    }
}

/// A separator-free pattern that occurs in the corpus inside entry `k`'s
/// region occurs inside the encoding of entry `k` itself: it cannot reach
/// the separator byte that closes the region.
pub proof fn lemma_match_within_entry(
    entries: Seq<Seq<char>>,
    sep: char,
    needle: Seq<u8>,
    p: int,
    k: int,
)
    requires
        0 <= k < entries.len(),
        needle.len() > 0,
        !needle.contains(sep as u8),
        occurs_at(corpus_bytes(entries, sep), needle, p),
        region_start(entries, k) <= p < region_start(entries, k + 1),
    ensures
        occurs_at(encode_utf8(entries[k]), needle, p - region_start(entries, k)),
{
    let cb = corpus_bytes(entries, sep);
    let s = region_start(entries, k);
    let enc = encode_utf8(entries[k]);
    let e = s + enc.len();
    lemma_region_step(entries, k);
    lemma_region_content(entries, sep, k);
    lemma_region_monotone(entries, 0, k);
    let region = cb.subrange(s, e + 1);
    assert(region[enc.len() as int] == sep as u8);
    assert(cb[e] == region[enc.len() as int]);
    if p + needle.len() > e {
        assert(cb.subrange(p, p + needle.len())[e - p] == cb[e]);
        assert(needle[e - p] == sep as u8);
        assert(needle.contains(sep as u8));
        assert(false);
    }
    assert forall|i: int| 0 <= i < needle.len() implies enc[p - s + i] == needle[i] by {
        assert(region[p - s + i] == cb[p + i]);
        assert(cb.subrange(p, p + needle.len())[i] == cb[p + i]);
    }
    assert(enc.subrange(p - s, p - s + needle.len()) =~= needle);
}

/// A pattern that occurs in the encoding of entry `k` occurs in the
/// corpus, at the same offset within entry `k`'s region.
pub proof fn lemma_entry_match_in_corpus(
    entries: Seq<Seq<char>>,
    sep: char,
    needle: Seq<u8>,
    k: int,
    i: int,
)
    requires
        0 <= k < entries.len(),
        occurs_at(encode_utf8(entries[k]), needle, i),
    ensures
        occurs_at(corpus_bytes(entries, sep), needle, region_start(entries, k) + i),
        region_start(entries, k) <= region_start(entries, k) + i < region_start(entries, k + 1),
{
    let cb = corpus_bytes(entries, sep);
    let s = region_start(entries, k);
    let enc = encode_utf8(entries[k]);
    lemma_region_step(entries, k);
    lemma_region_content(entries, sep, k);
    lemma_corpus_len(entries, sep);
    lemma_region_monotone(entries, 0, k);
    lemma_region_monotone(entries, k + 1, entries.len() as int);
    let region = cb.subrange(s, region_start(entries, k + 1));
    assert forall|j: int| 0 <= j < needle.len() implies cb[s + i + j] == needle[j] by {
        assert(region[i + j] == cb[s + i + j]);
        assert(enc.subrange(i, i + needle.len())[j] == enc[i + j]);
    }
    assert(cb.subrange(s + i, s + i + needle.len()) =~= needle);
}

/// If the separator's byte occurs anywhere in the UTF-8 encoding of a
/// character sequence, the separator itself is one of those characters:
/// an ASCII byte is never part of a multi-byte encoding.
pub proof fn lemma_sep_byte_in_encoding(s: Seq<char>, sep: char)
    requires
        sep_ok(sep),
        encode_utf8(s).contains(sep as u8),
    ensures
        s.contains(sep),
    decreases s.len(),
{
    let b = sep as u8;
    let sep32 = sep as u32;
    lemma_encode_single_ascii(sep);
    assert(seq![sep][0] == sep);
    assert(encode_utf8(seq![sep]) == encode_scalar(sep32) + encode_utf8(seq![sep].drop_first()));
    assert(seq![sep].drop_first() =~= Seq::<char>::empty());
    assert(encode_utf8(Seq::<char>::empty()) =~= Seq::<u8>::empty());
    assert(encode_scalar(sep32) + Seq::<u8>::empty() =~= encode_scalar(sep32));
    assert(encode_scalar(sep32) == seq![b]);
    assert(has_width_1_encoding(sep32));
    assert(seq![leading_byte_width_1(sep32)][0] == leading_byte_width_1(sep32));
    assert(seq![b][0] == b);
    assert(b == leading_byte_width_1(sep32));
    assert(b < 0x80) by (bit_vector)
        requires
            b == ((sep32 & 0x7F) as u8),
    ;
    assert(s.len() > 0);
    let c = s[0] as u32;
    char_is_scalar(s[0]);
    let head = encode_scalar(c);
    let rest = encode_utf8(s.drop_first());
    assert(encode_utf8(s) == head + rest);
    let w = choose|w: int| 0 <= w < encode_utf8(s).len() && encode_utf8(s)[w] == b;
    if w < head.len() {
        if has_width_1_encoding(c) {
            assert(head[w] == ((c & 0x7F) as u8));
            assert(c == sep32) by (bit_vector)
                requires
                    c < 128,
                    sep32 < 128,
                    ((c & 0x7F) as u8) == ((sep32 & 0x7F) as u8),
            ;
            char_u32_cast(s[0], c);
            char_u32_cast(sep, sep32);
            assert(s[0] == sep);
            assert(s.contains(sep));
        } else {
            assert forall|x: u8| (0x80 | x) >= 0x80 && (0xC0 | x) >= 0x80 && (0xE0 | x) >= 0x80 && (
            0xF0 | x) >= 0x80 by {
                assert((0x80 | x) >= 0x80 && (0xC0 | x) >= 0x80 && (0xE0 | x) >= 0x80 && (0xF0 | x)
                    >= 0x80) by (bit_vector);
            }
            assert(head[w] >= 0x80);
            assert(false);
        }
    } else {
        assert(rest[w - head.len()] == b);
        assert(rest.contains(b));
        lemma_sep_byte_in_encoding(s.drop_first(), sep);
        let w2 = choose|w2: int| 0 <= w2 < s.drop_first().len() && s.drop_first()[w2] == sep;
        assert(s[w2 + 1] == sep);
        assert(s.contains(sep));
    }
}

} // verus!
