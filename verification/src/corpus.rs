//! The corpus index: entry names joined into one delimited text, a
//! suffix table over that text, and substring queries that report the
//! entry owning each occurrence.

use crate::model::{
    corpus_bytes, corpus_chars, lemma_corpus_bytes_chars, lemma_corpus_chars_snoc,
    lemma_corpus_len, lemma_entry_match_in_corpus, lemma_match_within_entry,
    lemma_occ_positions_finite, lemma_region_monotone, lemma_region_step, lemma_region_unique,
    lemma_sep_byte_in_encoding, occ_positions, occurs_at, occurs_in, region_start, sep_ok,
};
use crate::suffix_table::{table_new, table_positions, table_text};
use crate::text::{contains_char, push_char};
use suffix::SuffixTable;
use vstd::prelude::*;
use vstd::string::*;
use vstd::utf8::*;

verus! {

/// Returned by `init_entries` when the index has already been built; the
/// existing index is left untouched.
#[derive(Clone, Copy, Debug, PartialEq, Eq, Structural)]
pub struct AlreadyInitializedError;

/// Returned by `query` when the index has not been built yet.
#[derive(Clone, Copy, Debug, PartialEq, Eq, Structural)]
pub struct NotInitializedError;

struct ReadyIndex {
    entries: Vec<String>,
    corpus_len: usize,
    table: SuffixTable<'static, 'static>,
}

/// A write-once index over a delimited corpus of entry names.
///
/// The index is created uninitialized, is built at most once by
/// `init_entries`, and is read-only thereafter.
pub struct CorpusIndex {
    sep: char,
    state: Option<ReadyIndex>,
}

/// True when `name` is one of the entries and the pattern's bytes occur
/// inside that entry's encoding.
pub open spec fn reported_name(entries: Seq<Seq<char>>, pat: Seq<char>, name: Seq<char>) -> bool {
    exists|k: int|
        0 <= k < entries.len() && name == #[trigger] entries[k] && occurs_in(
            encode_utf8(entries[k]),
            encode_utf8(pat),
        )
}

/// What a successful query reports, stated over the model: nothing for
/// the empty pattern or a pattern holding the separator; otherwise one
/// match per occurrence of the pattern's bytes in the corpus, every
/// reported name is an entry whose encoding contains those bytes, and
/// every such entry is reported at least once.
pub open spec fn query_matches(
    entries: Seq<Seq<char>>,
    sep: char,
    pat: Seq<char>,
    r: Seq<Seq<char>>,
) -> bool {
    if pat.len() == 0 || pat.contains(sep) {
        r.len() == 0
    } else {
        &&& r.len() == occ_positions(corpus_bytes(entries, sep), encode_utf8(pat)).len()
        &&& forall|j: int| 0 <= j < r.len() ==> reported_name(entries, pat, #[trigger] r[j])
        &&& forall|k: int|
            0 <= k < entries.len() && #[trigger] occurs_in(
                encode_utf8(entries[k]),
                encode_utf8(pat),
            ) ==> r.contains(entries[k])
    }
}

impl CorpusIndex {
    /// The configured sentinel separator.
    pub closed spec fn separator(&self) -> char {
        self.sep
    }

    /// The entry names the index was built over, or `None` while the
    /// index is uninitialized.
    pub closed spec fn entries_view(&self) -> Option<Seq<Seq<char>>> {
        match self.state {
            Option::None => None,
            Option::Some(r) => Some(r.entries.deep_view()),
        }
    }

    /// Internal consistency: the separator is ASCII, and once built the
    /// suffix table indexes exactly the delimited corpus of the entries.
    pub closed spec fn wf(&self) -> bool {
        &&& sep_ok(self.sep)
        &&& match self.state {
            Option::None => true,
            Option::Some(r) => {
                &&& table_text(r.table) == corpus_bytes(r.entries.deep_view(), self.sep)
                &&& r.corpus_len == corpus_bytes(r.entries.deep_view(), self.sep).len()
            },
        }
    }

    /// Creates an uninitialized index that will delimit its corpus with
    /// `separator`, which must be a single ASCII character.
    pub fn new(separator: char) -> (r: CorpusIndex)
        requires
            sep_ok(separator),
        ensures
            r.wf(),
            r.separator() == separator,
            r.entries_view() is None,
    {
        CorpusIndex { sep: separator, state: None }
    }

    /// The separator this index delimits its corpus with.
    pub fn separator_char(&self) -> (c: char)
        ensures
            c == self.separator(),
    {
        self.sep
    }

    /// True once `init_entries` has succeeded.
    pub fn is_initialized(&self) -> (r: bool)
        ensures
            r == (self.entries_view() is Some),
    {
        self.state.is_some()
    }

    /// Builds the corpus by appending every entry name followed by the
    /// separator, in order, and constructs the suffix table over it.
    /// A second call fails with `AlreadyInitializedError` and leaves the
    /// index exactly as the first call left it.
    pub fn init_entries(&mut self, entries: Vec<String>) -> (r: Result<(), AlreadyInitializedError>)
        requires
            old(self).wf(),
            corpus_bytes(entries.deep_view(), old(self).separator()).len() <= u32::MAX,
        ensures
            final(self).wf(),
            final(self).separator() == old(self).separator(),
            old(self).entries_view() is Some ==> r is Err && *final(self) == *old(self),
            old(self).entries_view() is None ==> r is Ok && final(self).entries_view() == Some(
                entries.deep_view(),
            ),
    {
        if self.state.is_some() {
            return Err(AlreadyInitializedError);
        }
        let ghost dv = entries.deep_view();
        let mut corpus = String::new();
        let n = entries.len();
        let mut i: usize = 0;
        while i < n
            invariant
                0 <= i <= n,
                n == entries.len(),
                dv == entries.deep_view(),
                sep_ok(self.sep),
                self.sep == old(self).sep,
                self.state is None,
                corpus@ == corpus_chars(dv.take(i as int), self.sep),
            decreases n - i,
        {
            assert(dv.take(i as int + 1) =~= dv.take(i as int).push(dv[i as int]));
            assert(dv[i as int] == entries[i as int]@);
            corpus.append(entries[i].as_str());
            push_char(&mut corpus, self.sep);
            proof {
                lemma_corpus_chars_snoc(dv.take(i as int), self.sep, dv[i as int]);
                assert(corpus@ =~= corpus_chars(dv.take(i as int + 1), self.sep));
            }
            i += 1;
        }
        proof {
            assert(dv.take(n as int) =~= dv);
            lemma_corpus_bytes_chars(dv, self.sep);
        }
        let corpus_len = corpus.as_str().len();
        let table = table_new(corpus);
        self.state = Some(ReadyIndex { entries, corpus_len, table });
        Ok(())
    }

    /// Reports every occurrence of `pattern` in the corpus as the entry
    /// name owning it. The empty pattern, and any pattern that contains
    /// the separator, match nothing. Fails with `NotInitializedError`
    /// until the index has been built.
    pub fn query(&self, pattern: &str) -> (r: Result<Vec<String>, NotInitializedError>)
        requires
            self.wf(),
        ensures
            (r is Err) == (self.entries_view() is None),
            r matches Ok(v) ==> query_matches(
                self.entries_view().unwrap(),
                self.separator(),
                pattern@,
                v.deep_view(),
            ),
    {
        let ready = match &self.state {
            None => {
                return Err(NotInitializedError);
            },
            Some(rd) => rd,
        };
        let mut out: Vec<String> = Vec::new();
        if pattern.unicode_len() == 0 || contains_char(pattern, self.sep) {
            assert(out.deep_view().len() == 0);
            return Ok(out);
        }
        let ghost es = ready.entries.deep_view();
        let ghost cb = corpus_bytes(es, self.sep);
        let ghost nb = pattern.spec_bytes();
        proof {
            assert(pattern@.len() > 0);
            char_is_scalar(pattern@[0]);
            assert(nb == encode_scalar(pattern@[0] as u32) + encode_utf8(pattern@.drop_first()));
            assert(encode_scalar(pattern@[0] as u32).len() > 0);
            assert(nb.len() > 0);
            if nb.contains(self.sep as u8) {
                lemma_sep_byte_in_encoding(pattern@, self.sep);
                assert(false);
            }
            lemma_corpus_len(es, self.sep);
        }
        let positions = table_positions(&ready.table, pattern);
        let m = positions.len();
        let mut j: usize = 0;
        while j < m
            invariant
                0 <= j <= m,
                m == positions.len(),
                self.wf(),
                self.state matches Some(rr) && rr == ready,
                es == ready.entries.deep_view(),
                cb == corpus_bytes(es, self.sep),
                cb == table_text(ready.table),
                ready.corpus_len == cb.len(),
                nb == pattern.spec_bytes(),
                nb.len() > 0,
                !nb.contains(self.sep as u8),
                region_start(es, es.len() as int) == cb.len(),
                out@.len() == j,
                forall|i: int| 0 <= i < m ==> occurs_at(cb, nb, positions@[i] as int),
                forall|t: int|
                    0 <= t < out.deep_view().len() ==> reported_name(
                        es,
                        pattern@,
                        #[trigger] out.deep_view()[t],
                    ),
                forall|t: int, k: int|
                    0 <= t < j && 0 <= k < es.len() && region_start(es, k) <= (positions@[t] as int)
                        && (positions@[t] as int) < region_start(es, k + 1) ==> out.deep_view().contains(es[k]),
            decreases m - j,
        {
            let p = positions[j] as usize;
            proof {
                assert(occurs_at(cb, nb, p as int));
                assert((p as int) < cb.len());
            }
            let k = owner_of(&ready.entries, p, Ghost(cb.len() as int));
            proof {
                lemma_match_within_entry(es, self.sep, nb, p as int, k as int);
            }
            let ghost old_out = out.deep_view();
            out.push(ready.entries[k].clone());
            proof {
                assert(out.deep_view() =~= old_out.push(es[k as int]));
                assert(out.deep_view().last() == es[k as int]);
                assert(occurs_in(encode_utf8(es[k as int]), nb));
                assert forall|t: int, kk: int|
                    0 <= t < j + 1 && 0 <= kk < es.len() && region_start(es, kk) <= (positions@[t] as int)
                        && (positions@[t] as int) < region_start(es, kk + 1) implies out.deep_view().contains(es[kk]) by {
                    if t < j {
                        let w = choose|w: int|
                            0 <= w < old_out.len() && old_out[w] == es[kk];
                        assert(out.deep_view()[w] == es[kk]);
                    } else {
                        lemma_region_unique(es, kk, k as int, p as int);
                        assert(out.deep_view()[old_out.len() as int] == es[kk]);
                    }
                }
            }
            j += 1;
        }
        proof {
            lemma_occ_positions_finite(cb, nb);
            let ps = positions@.map_values(|u: u32| u as int);
            assert(ps.no_duplicates());
            assert forall|p: int| ps.to_set().contains(p) <==> occ_positions(cb, nb).contains(
                p,
            ) by {
                if ps.contains(p) {
                    let i = choose|i: int| 0 <= i < ps.len() && ps[i] == p;
                    assert(occurs_at(cb, nb, positions@[i] as int));
                }
                if occ_positions(cb, nb).contains(p) {
                    let i = choose|i: int| 0 <= i < positions@.len() && positions@[i] as int == p;
                    assert(ps[i] == p);
                }
            }
            assert(ps.to_set() =~= occ_positions(cb, nb));
            ps.unique_seq_to_set();
            assert(out.deep_view().len() == occ_positions(cb, nb).len());
            assert forall|k: int|
                0 <= k < es.len() && #[trigger] occurs_in(encode_utf8(es[k]), nb) implies out
                .deep_view().contains(es[k]) by {
                let i = choose|i: int| occurs_at(encode_utf8(es[k]), nb, i);
                lemma_entry_match_in_corpus(es, self.sep, nb, k, i);
                let pp = region_start(es, k) + i;
                let t = choose|t: int| 0 <= t < positions@.len() && positions@[t] as int == pp;
                assert(region_start(es, k) <= (positions@[t] as int) && (positions@[t] as int) < region_start(es, k + 1));
            }
        }
        Ok(out)
    }
}

impl Default for CorpusIndex {
    /// An uninitialized index delimited by the conventional `':'`.
    fn default() -> (r: CorpusIndex)
        ensures
            r.wf(),
            r.separator() == ':',
            r.entries_view() is None,
    {
        CorpusIndex::new(':')
    }
}

/// Finds the entry whose corpus region holds byte offset `p`.
fn owner_of(entries: &Vec<String>, p: usize, total: Ghost<int>) -> (k: usize)
    requires
        (p as int) < region_start(entries.deep_view(), entries.deep_view().len() as int),
        region_start(entries.deep_view(), entries.deep_view().len() as int) == total@,
        total@ <= usize::MAX,
    ensures
        0 <= k < entries.len(),
        region_start(entries.deep_view(), k as int) <= (p as int) && (p as int) < region_start(
            entries.deep_view(),
            k as int + 1,
        ),
{
    let ghost dv = entries.deep_view();
    let mut k: usize = 0;
    let mut acc: usize = 0;
    loop
        invariant
            0 <= k <= entries.len(),
            dv == entries.deep_view(),
            dv.len() == entries.len(),
            acc as int == region_start(dv, k as int),
            acc <= p,
            (p as int) < region_start(dv, dv.len() as int),
            region_start(dv, dv.len() as int) == total@,
            total@ <= usize::MAX,
        decreases entries.len() - k,
    {
        proof {
            if k as int == dv.len() {
                assert(false);
            }
        }
        assert(k < entries.len());
        proof {
            assert(dv[k as int] == entries[k as int]@);
            lemma_region_step(dv, k as int);
            lemma_region_monotone(dv, k as int + 1, dv.len() as int);
            assert(encode_utf8(dv[k as int]).len() <= usize::MAX);
        }
        let el = entries[k].as_str().len();
        proof {
            assert(el as int == encode_utf8(dv[k as int]).len());
        }
        if acc + el + 1 <= p {
            acc = acc + el + 1;
            k = k + 1;
        } else {
            return k;
        }
    }
}

/// Index completeness: a query for the full text of any non-empty entry
/// that does not contain the separator reports at least one match owned
/// by that very entry.
pub proof fn lemma_index_completeness(
    entries: Seq<Seq<char>>,
    sep: char,
    k: int,
    r: Seq<Seq<char>>,
)
    requires
        0 <= k < entries.len(),
        entries[k].len() > 0,
        !entries[k].contains(sep),
        query_matches(entries, sep, entries[k], r),
    ensures
        r.contains(entries[k]),
{
    let enc = encode_utf8(entries[k]);
    char_is_scalar(entries[k][0]);
    assert(enc == encode_scalar(entries[k][0] as u32) + encode_utf8(entries[k].drop_first()));
    assert(encode_scalar(entries[k][0] as u32).len() > 0);
    assert(enc.len() > 0);
    assert(enc.subrange(0, enc.len() as int) =~= enc);
    assert(occurs_at(enc, enc, 0));
    assert(occurs_in(enc, enc));
}

} // verus!

