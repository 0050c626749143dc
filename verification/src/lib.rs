//! A small verified solver for the "cube game" puzzle.
//!
//! The library parses a batch of textual game records ("Game 7: 3 Blue,
//! 4 Red; 2 Green") into structured values and computes two aggregates
//! over the batch: the sum of identifiers of feasible games, and the sum
//! of per-game "powers" (products of per-category maxima).
//!
//! Lines that hold no record are skipped silently: a malformed line
//! never aborts the parse of the batch.

use vstd::prelude::*;
use vstd::string::StrSliceExecFns;

pub mod aggregate;
pub mod game;
pub mod serial;
pub mod text;

verus! {

/// A record type that can be parsed from one line of text.
///
/// `spec_from_line` is the mathematical parse of a line; `from_line`
/// must realize it exactly, with `None` signalling a line that holds
/// no record.  A parse failure carries no detail: the only recovery
/// is to skip the line.
pub trait FromLine: View + Sized {
    /// What a given line parses to, if anything.
    spec fn spec_from_line(line: Seq<char>) -> Option<Self::V>;

    /// Parses one line of text (without its trailing newline).
    fn from_line(line: &str) -> (r: Option<Self>)
        ensures
            match r {
                Some(rec) => Self::spec_from_line(line@) == Some(rec@),
                None => Self::spec_from_line(line@) is None,
            },
    ;
}

/// The views of the elements of a sequence.
pub open spec fn views_of<T: View>(s: Seq<T>) -> Seq<T::V> {
    s.map_values(|t: T| t@)
}

/// `s` with one trailing carriage return removed, if it has one.
pub open spec fn strip_cr(s: Seq<char>) -> Seq<char> {
    if s.len() > 0 && s.last() == '\r' {
        s.drop_last()
    } else {
        s
    }
}

/// The lines of `s`: the pieces ending at each newline, with a
/// carriage return stripped just before a newline, and the piece after
/// the last newline only when it is not empty.
pub open spec fn spec_lines(s: Seq<char>) -> Seq<Seq<char>>
    decreases s.len(),
{
    if s.len() == 0 {
        Seq::empty()
    } else {
        match crate::text::find_sep(s, seq!['\n']) {
            None => seq![s],
            Some(i) => {
                proof {
                    crate::text::lemma_find_sep_some(s, seq!['\n']);
                }
                seq![strip_cr(s.take(i))] + spec_lines(s.skip(i + 1))
            },
        }
    }
}

/// The records the given lines parse to, in order, lines that hold no
/// record left out.
pub open spec fn spec_records<T: FromLine>(lines: Seq<Seq<char>>) -> Seq<T::V>
    decreases lines.len(),
{
    if lines.len() == 0 {
        Seq::empty()
    } else {
        let rest = spec_records::<T>(lines.drop_first());
        match T::spec_from_line(lines.first()) {
            Some(m) => seq![m] + rest,
            None => rest,
        }
    }
}

/// Parses every line of `data` into a record, in order, skipping the
/// lines that hold no record.
pub fn parse_lines<T: FromLine>(data: &str) -> (r: Vec<T>)
    ensures
        views_of(r@) == spec_records::<T>(spec_lines(data@)),
{
    let n = data.unicode_len();
    let mut r: Vec<T> = Vec::new();
    let mut start: usize = 0;
    let mut i: usize = 0;
    proof {
        assert(data@.skip(0) =~= data@);
        assert(views_of(r@) =~= Seq::<T::V>::empty());
        assert(views_of(r@) + spec_records::<T>(spec_lines(data@)) =~= spec_records::<T>(
            spec_lines(data@),
        ));
    }
    while i < n
        invariant
            n == data@.len(),
            0 <= start <= i <= n,
            forall|j: int| start <= j < i ==> data@[j] != '\n',
            spec_records::<T>(spec_lines(data@)) == views_of(r@) + spec_records::<T>(
                spec_lines(data@.skip(start as int)),
            ),
        decreases n - i,
    {
        let c = data.get_char(i);
        if c == '\n' {
            let end = if i > start && data.get_char(i - 1) == '\r' {
                i - 1
            } else {
                i
            };
            let line = data.substring_char(start, end);
            proof {
                let u = data@.skip(start as int);
                let nl = seq!['\n'];
                assert(u.subrange(i - start, i - start + 1) =~= nl);
                assert forall|j: int| 0 <= j < i - start implies !crate::text::sep_at(
                    u,
                    nl,
                    j,
                ) by {
                    if crate::text::sep_at(u, nl, j) {
                        assert(u.subrange(j, j + 1)[0] == u[j]);
                    }
                }
                crate::text::lemma_find_sep_at(u, nl, i - start);
                assert(u.take(i - start) =~= data@.subrange(start as int, i as int));
                assert(line@ =~= strip_cr(u.take(i - start)));
                assert(u.skip(i - start + 1) =~= data@.skip(i + 1));
                assert(spec_lines(u) == seq![line@] + spec_lines(data@.skip(i + 1)));
                assert(spec_lines(u).first() == line@);
                assert(spec_lines(u).drop_first() =~= spec_lines(data@.skip(i + 1)));
            }
            match T::from_line(line) {
                Some(rec) => {
                    let ghost prev = r@;
                    r.push(rec);
                    proof {
                        assert(views_of(r@) =~= views_of(prev).push(rec@));
                        assert(views_of(prev) + (seq![rec@] + spec_records::<T>(
                            spec_lines(data@.skip(i + 1)),
                        )) =~= views_of(r@) + spec_records::<T>(spec_lines(data@.skip(i + 1))));
                    }
                },
                None => {},
            }
            start = i + 1;
        }
        i += 1;
    }
    if start < n {
        let ghost u = data@.skip(start as int);
        let line = data.substring_char(start, n);
        proof {
            let nl = seq!['\n'];
            if crate::text::find_sep(u, nl) is Some {
                crate::text::lemma_find_sep_some(u, nl);
                let k = crate::text::find_sep(u, nl)->Some_0;
                assert(u.subrange(k, k + 1)[0] == u[k]);
            }
            assert(line@ =~= u);
            assert(spec_lines(u) == seq![u]);
            assert(spec_lines(u).first() == line@);
            assert(spec_lines(u).drop_first() =~= Seq::<Seq<char>>::empty());
        }
        match T::from_line(line) {
            Some(rec) => {
                let ghost prev = r@;
                r.push(rec);
                proof {
                    let lines1 = spec_lines(u);
                    assert(lines1.len() == 1);
                    assert(lines1.drop_first() =~= Seq::<Seq<char>>::empty());
                    assert(spec_records::<T>(lines1.drop_first()) =~= Seq::<T::V>::empty());
                    assert(spec_records::<T>(lines1) == seq![rec@] + spec_records::<T>(
                        lines1.drop_first(),
                    ));
                    assert(spec_records::<T>(lines1) =~= seq![rec@]);
                    assert(views_of(r@) =~= views_of(prev).push(rec@));
                    assert(views_of(prev) + seq![rec@] =~= views_of(r@));
                }
            },
            None => {
                proof {
                    let lines1 = spec_lines(u);
                    assert(lines1.len() == 1);
                    assert(lines1.drop_first() =~= Seq::<Seq<char>>::empty());
                    assert(spec_records::<T>(lines1.drop_first()) =~= Seq::<T::V>::empty());
                    assert(spec_records::<T>(lines1) =~= Seq::<T::V>::empty());
                    assert(views_of(r@) + Seq::<T::V>::empty() =~= views_of(r@));
                }
            },
        }
    } else {
        proof {
            assert(data@.skip(start as int).len() == 0);
            assert(spec_records::<T>(spec_lines(data@.skip(start as int)))
                =~= Seq::<T::V>::empty());
            assert(views_of(r@) + Seq::<T::V>::empty() =~= views_of(r@));
        }
    }
    r
}

} // verus!
