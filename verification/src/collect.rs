//! Assembling the entry-name sequence from per-directory scan results,
//! and splitting the raw search-path text into directories.
//!
//! Reading the environment and listing directories is I/O and stays with
//! the caller; it hands in, for every directory of the search path, either
//! `None` (the directory could not be listed) or the directory's entry
//! names, each `None` where the raw name did not decode to text.

use crate::text::push_char;
use vstd::prelude::*;
use vstd::string::*;

verus! {

/// The names that survive decoding: the `Some` values, in order.
pub open spec fn kept(names: Seq<Option<Seq<char>>>) -> Seq<Seq<char>>
    decreases names.len(),
{
    if names.len() == 0 {
        Seq::empty()
    } else {
        match names.first() {
            Option::Some(n) => seq![n] + kept(names.drop_first()),
            Option::None => kept(names.drop_first()),
        }
    }
}

/// The entry names gathered over a whole scan, in search-path order; an
/// unreadable directory contributes nothing.
pub open spec fn gathered(scan: Seq<Option<Seq<Option<Seq<char>>>>>) -> Seq<Seq<char>>
    decreases scan.len(),
{
    if scan.len() == 0 {
        Seq::empty()
    } else {
        match scan.first() {
            Option::Some(names) => kept(names) + gathered(scan.drop_first()),
            Option::None => gathered(scan.drop_first()),
        }
    }
}

proof fn lemma_kept_snoc(names: Seq<Option<Seq<char>>>, x: Option<Seq<char>>)
    ensures
        kept(names.push(x)) == kept(names) + (match x {
            Option::Some(n) => seq![n],
            Option::None => Seq::<Seq<char>>::empty(),
        }),
    decreases names.len(),
{
    if names.len() == 0 {
        assert(names.push(x).drop_first() =~= Seq::<Option<Seq<char>>>::empty());
        assert(kept(Seq::<Option<Seq<char>>>::empty()) =~= Seq::<Seq<char>>::empty());
        assert(kept(names.push(x)) =~= kept(names) + (match x {
            Option::Some(n) => seq![n],
            Option::None => Seq::<Seq<char>>::empty(),
        }));
    } else {
        assert(names.push(x).first() == names.first());
        assert(names.push(x).drop_first() =~= names.drop_first().push(x));
        lemma_kept_snoc(names.drop_first(), x);
        assert(kept(names.push(x)) =~= kept(names) + (match x {
            Option::Some(n) => seq![n],
            Option::None => Seq::<Seq<char>>::empty(),
        }));
    }
}

proof fn lemma_gathered_snoc(scan: Seq<Option<Seq<Option<Seq<char>>>>>, d: Option<
    Seq<Option<Seq<char>>>,
>)
    ensures
        gathered(scan.push(d)) == gathered(scan) + (match d {
            Option::Some(names) => kept(names),
            Option::None => Seq::<Seq<char>>::empty(),
        }),
    decreases scan.len(),
{
    if scan.len() == 0 {
        assert(scan.push(d).drop_first() =~= Seq::<Option<Seq<Option<Seq<char>>>>>::empty());
        assert(gathered(Seq::<Option<Seq<Option<Seq<char>>>>>::empty()) =~= Seq::<
            Seq<char>,
        >::empty());
        assert(gathered(scan.push(d)) =~= gathered(scan) + (match d {
            Option::Some(names) => kept(names),
            Option::None => Seq::<Seq<char>>::empty(),
        }));
    } else {
        assert(scan.push(d).first() == scan.first());
        assert(scan.push(d).drop_first() =~= scan.drop_first().push(d));
        lemma_gathered_snoc(scan.drop_first(), d);
        assert(gathered(scan.push(d)) =~= gathered(scan) + (match d {
            Option::Some(names) => kept(names),
            Option::None => Seq::<Seq<char>>::empty(),
        }));
    }
}

/// Flattens a scan into the entry-name sequence: directories in
/// search-path order, unreadable directories and undecodable names
/// silently skipped.
pub fn collect_entries(scan: Vec<Option<Vec<Option<String>>>>) -> (r: Vec<String>)
    ensures
        r.deep_view() == gathered(scan.deep_view()),
{
    let ghost sv = scan.deep_view();
    let mut out: Vec<String> = Vec::new();
    let n = scan.len();
    let mut i: usize = 0;
    assert(sv.take(0) =~= Seq::<Option<Seq<Option<Seq<char>>>>>::empty());
    assert(gathered(sv.take(0)) =~= Seq::<Seq<char>>::empty());
    while i < n
        invariant
            i <= n,
            n == scan.len(),
            sv == scan.deep_view(),
            out.deep_view() == gathered(sv.take(i as int)),
        decreases n - i,
    {
        assert(sv.take(i as int + 1) =~= sv.take(i as int).push(sv[i as int]));
        proof {
            lemma_gathered_snoc(sv.take(i as int), sv[i as int]);
            assert(sv[i as int] == scan@[i as int].deep_view());
        }
        let dir = &scan[i];
        match dir {
            Option::None => {
                assert(out.deep_view() =~= gathered(sv.take(i as int + 1)));
            },
            Option::Some(names) => {
                let ghost nv = names.deep_view();
                assert(sv[i as int] == Some(nv));
                let m = names.len();
                let mut j: usize = 0;
                assert(nv.take(0) =~= Seq::<Option<Seq<char>>>::empty());
                assert(kept(nv.take(0)) =~= Seq::<Seq<char>>::empty());
                assert(out.deep_view() =~= gathered(sv.take(i as int)) + kept(nv.take(0)));
                while j < m
                    invariant
                        j <= m,
                        m == names.len(),
                        nv == names.deep_view(),
                        out.deep_view() == gathered(sv.take(i as int)) + kept(nv.take(j as int)),
                    decreases m - j,
                {
                    assert(nv.take(j as int + 1) =~= nv.take(j as int).push(nv[j as int]));
                    proof {
                        lemma_kept_snoc(nv.take(j as int), nv[j as int]);
                        assert(nv[j as int] == names@[j as int].deep_view());
                    }
                    let name = &names[j];
                    let ghost old_out = out.deep_view();
                    match name {
                        Option::None => {
                            assert(out.deep_view() =~= gathered(sv.take(i as int)) + kept(
                                nv.take(j as int + 1),
                            ));
                        },
                        Option::Some(s) => {
                            out.push(s.clone());
                            assert(out.deep_view() =~= old_out.push(s@));
                            assert(out.deep_view() =~= gathered(sv.take(i as int)) + kept(
                                nv.take(j as int + 1),
                            ));
                        },
                    }
                    j += 1;
                }
                assert(nv.take(m as int) =~= nv);
                assert(out.deep_view() =~= gathered(sv.take(i as int + 1)));
            },
        }
        i += 1;
    }
    assert(sv.take(n as int) =~= sv);
    out
}

/// Directory order is preserved: a scan split into two parts gathers the
/// first part's names, in order, before the second part's.
pub proof fn lemma_gathered_append(
    s1: Seq<Option<Seq<Option<Seq<char>>>>>,
    s2: Seq<Option<Seq<Option<Seq<char>>>>>,
)
    ensures
        gathered(s1 + s2) == gathered(s1) + gathered(s2),
    decreases s1.len(),
{
    if s1.len() == 0 {
        assert(s1 + s2 =~= s2);
        assert(gathered(s1) + gathered(s2) =~= gathered(s2));
    } else {
        assert((s1 + s2).len() > 0);
        assert((s1 + s2).first() == s1.first());
        assert((s1 + s2).drop_first() =~= s1.drop_first() + s2);
        lemma_gathered_append(s1.drop_first(), s2);
        assert(gathered(s1 + s2) =~= gathered(s1) + gathered(s2));
    }
}

/// A directory that cannot be listed is skipped without a trace: the
/// scan gathers exactly the names it would gather without it.
pub proof fn lemma_unreadable_dir_skipped(
    s1: Seq<Option<Seq<Option<Seq<char>>>>>,
    s2: Seq<Option<Seq<Option<Seq<char>>>>>,
)
    ensures
        gathered(s1 + seq![Option::None] + s2) == gathered(s1 + s2),
{
    let none_scan = seq![Option::<Seq<Option<Seq<char>>>>::None];
    assert(s1 + seq![Option::None] + s2 =~= (s1 + none_scan) + s2);
    lemma_gathered_append(s1 + none_scan, s2);
    lemma_gathered_append(s1, none_scan);
    assert(none_scan.drop_first() =~= Seq::<Option<Seq<Option<Seq<char>>>>>::empty());
    assert(gathered(Seq::<Option<Seq<Option<Seq<char>>>>>::empty()) =~= Seq::<Seq<char>>::empty());
    assert(gathered(none_scan) =~= Seq::<Seq<char>>::empty());
    lemma_gathered_append(s1, s2);
    assert(gathered(s1 + seq![Option::None] + s2) =~= gathered(s1 + s2));
}

/// Splitting a character sequence on the separator, keeping empty
/// segments, as the platform's path-list convention splits the raw
/// search-path text.
pub open spec fn split_chars(s: Seq<char>, sep: char) -> Seq<Seq<char>>
    decreases s.len(),
{
    if s.len() == 0 {
        seq![Seq::<char>::empty()]
    } else if s.first() == sep {
        seq![Seq::<char>::empty()] + split_chars(s.drop_first(), sep)
    } else {
        let rest = split_chars(s.drop_first(), sep);
        seq![seq![s.first()] + rest.first()] + rest.drop_first()
    }
}

/// Splitting always yields at least one segment.
pub proof fn lemma_split_nonempty(s: Seq<char>, sep: char)
    ensures
        split_chars(s, sep).len() >= 1,
    decreases s.len(),
{
    if s.len() == 0 {
    } else {
        lemma_split_nonempty(s.drop_first(), sep);
    }
}

/// Splits the raw search-path text on the separator into directory
/// paths, in order, keeping empty segments.
pub fn split_paths(raw: &str, sep: char) -> (r: Vec<String>)
    ensures
        r.deep_view() == split_chars(raw@, sep),
    decreases raw@.len(),
{
    let n = raw.unicode_len();
    if n == 0 {
        let mut out: Vec<String> = Vec::new();
        out.push(String::new());
        assert(out.deep_view() =~= split_chars(raw@, sep));
        return out;
    }
    let c = raw.get_char(0);
    let tail = raw.substring_char(1, n);
    assert(tail@ =~= raw@.drop_first());
    let mut rest = split_paths(tail, sep);
    if c == sep {
        rest.insert(0, String::new());
        assert(rest.deep_view() =~= split_chars(raw@, sep));
        rest
    } else {
        proof {
            lemma_split_nonempty(raw@.drop_first(), sep);
        }
        let head = rest.remove(0);
        let mut piece = String::new();
        push_char(&mut piece, c);
        piece.append(head.as_str());
        assert(piece@ =~= seq![raw@.first()] + split_chars(raw@.drop_first(), sep).first());
        rest.insert(0, piece);
        assert(rest.deep_view() =~= split_chars(raw@, sep));
        rest
    }
}

} // verus!
