//! Character-sequence utilities shared by the record parser and the
//! serializer: finding and splitting on separator substrings, and
//! reading and rendering decimal numbers.

use vstd::prelude::*;
use vstd::string::StrSliceExecFns;

verus! {

/// The characters of `s`, collected into a vector.
pub fn chars_to_vec(s: &str) -> (r: Vec<char>)
    ensures
        r@ == s@,
{
    let n = s.unicode_len();
    let mut r: Vec<char> = Vec::new();
    let mut i: usize = 0;
    while i < n
        invariant
            n == s@.len(),
            0 <= i <= n,
            r@ == s@.take(i as int),
        decreases n - i,
    {
        r.push(s.get_char(i));
        proof {
            assert(r@ =~= s@.take(i + 1));
        }
        i += 1;
    }
    proof {
        assert(s@.take(n as int) =~= s@);
    }
    r
}

/// True when `sep` occurs in `s` starting at index `i`.
pub open spec fn sep_at(s: Seq<char>, sep: Seq<char>, i: int) -> bool {
    0 <= i && i + sep.len() <= s.len() && s.subrange(i, i + sep.len()) == sep
}

/// Index of the first occurrence of `sep` in `s`, if any.
pub open spec fn find_sep(s: Seq<char>, sep: Seq<char>) -> Option<int>
    decreases s.len(),
{
    if sep.len() == 0 {
        Some(0)
    } else if s.len() < sep.len() {
        None
    } else if s.take(sep.len() as int) == sep {
        Some(0)
    } else {
        match find_sep(s.drop_first(), sep) {
            None => None,
            Some(i) => Some(i + 1),
        }
    }
}

/// A found index is the first occurrence: it matches, and nothing before it does.
pub proof fn lemma_find_sep_some(s: Seq<char>, sep: Seq<char>)
    requires
        sep.len() > 0,
        find_sep(s, sep) is Some,
    ensures
        ({
            let i = find_sep(s, sep)->Some_0;
            &&& sep_at(s, sep, i)
            &&& forall|j: int| 0 <= j < i ==> !sep_at(s, sep, j)
        }),
    decreases s.len(),
{
    let i = find_sep(s, sep)->Some_0;
    if s.len() >= sep.len() && s.take(sep.len() as int) == sep {
        assert(s.subrange(0, sep.len() as int) =~= s.take(sep.len() as int));
    } else {
        let t = s.drop_first();
        lemma_find_sep_some(t, sep);
        let k = find_sep(t, sep)->Some_0;
        assert(t.subrange(k, k + sep.len()) =~= s.subrange(k + 1, k + 1 + sep.len()));
        assert(sep_at(s, sep, i));
        assert forall|j: int| 0 <= j < i implies !sep_at(s, sep, j) by {
            if j == 0 {
                if sep_at(s, sep, 0) {
                    assert(s.subrange(0, sep.len() as int) =~= s.take(sep.len() as int));
                }
            } else {
                if sep_at(s, sep, j) {
                    assert(t.subrange(j - 1, j - 1 + sep.len()) =~= s.subrange(
                        j,
                        j + sep.len(),
                    ));
                    assert(sep_at(t, sep, j - 1));
                }
            }
        }
    }
}

/// When nothing is found, no index matches.
pub proof fn lemma_find_sep_none(s: Seq<char>, sep: Seq<char>)
    requires
        sep.len() > 0,
        find_sep(s, sep) is None,
    ensures
        forall|j: int| !sep_at(s, sep, j),
    decreases s.len(),
{
    if s.len() < sep.len() {
        assert forall|j: int| !sep_at(s, sep, j) by {}
    } else {
        let t = s.drop_first();
        lemma_find_sep_none(t, sep);
        assert forall|j: int| !sep_at(s, sep, j) by {
            if j == 0 {
                if sep_at(s, sep, 0) {
                    assert(s.subrange(0, sep.len() as int) =~= s.take(sep.len() as int));
                }
            } else if j > 0 {
                if sep_at(s, sep, j) {
                    assert(t.subrange(j - 1, j - 1 + sep.len()) =~= s.subrange(
                        j,
                        j + sep.len(),
                    ));
                    assert(sep_at(t, sep, j - 1));
                }
            }
        }
    }
}

/// The first matching index is what `find_sep` returns.
pub proof fn lemma_find_sep_at(s: Seq<char>, sep: Seq<char>, i: int)
    requires
        sep.len() > 0,
        sep_at(s, sep, i),
        forall|j: int| 0 <= j < i ==> !sep_at(s, sep, j),
    ensures
        find_sep(s, sep) == Some(i),
{
    match find_sep(s, sep) {
        None => {
            lemma_find_sep_none(s, sep);
        },
        Some(k) => {
            lemma_find_sep_some(s, sep);
            if k < i {
            } else if k > i {
            }
        },
    }
}

/// Text before and after the first occurrence of `sep`, if `sep` occurs.
pub open spec fn split_once_sep(s: Seq<char>, sep: Seq<char>) -> Option<(Seq<char>, Seq<char>)> {
    match find_sep(s, sep) {
        None => None,
        Some(i) => Some((s.take(i), s.skip(i + sep.len()))),
    }
}

/// All pieces of `s` between occurrences of `sep`, in order.  There is
/// always at least one piece: a sequence without the separator is one
/// piece, even when it is empty.
pub open spec fn split_sep(s: Seq<char>, sep: Seq<char>) -> Seq<Seq<char>>
    decreases s.len(),
    when sep.len() > 0
{
    match find_sep(s, sep) {
        None => seq![s],
        Some(i) => {
            proof {
                lemma_find_sep_some(s, sep);
            }
            seq![s.take(i)] + split_sep(s.skip(i + sep.len()), sep)
        },
    }
}

/// A split has at least one piece.
pub proof fn lemma_split_sep_len(s: Seq<char>, sep: Seq<char>)
    requires
        sep.len() > 0,
    ensures
        split_sep(s, sep).len() >= 1,
{
    match find_sep(s, sep) {
        None => {},
        Some(i) => {},
    }
}

/// Whether `sep` matches `s` at position `i`, checked character by character.
fn match_at(s: &[char], sep: &[char], i: usize) -> (r: bool)
    requires
        i + sep@.len() <= s@.len(),
    ensures
        r == sep_at(s@, sep@, i as int),
{
    let n = s.len();
    let m = sep.len();
    let mut k: usize = 0;
    while k < m
        invariant
            n == s@.len(),
            m == sep@.len(),
            i + sep@.len() <= s@.len(),
            0 <= k <= sep@.len(),
            forall|j: int| 0 <= j < k ==> s@[i + j] == sep@[j],
        decreases sep@.len() - k,
    {
        if s[i + k] != sep[k] {
            proof {
                if sep_at(s@, sep@, i as int) {
                    assert(s@.subrange(i as int, i + sep@.len())[k as int] == s@[i + k]);
                }
            }
            return false;
        }
        k += 1;
    }
    proof {
        assert(s@.subrange(i as int, i + sep@.len()) =~= sep@);
    }
    true
}

/// Index of the first occurrence of `sep` in `s`, by linear scan.
pub fn find_sep_exec(s: &[char], sep: &[char]) -> (r: Option<usize>)
    requires
        sep@.len() > 0,
    ensures
        match r {
            Some(i) => find_sep(s@, sep@) == Some(i as int),
            None => find_sep(s@, sep@) is None,
        },
{
    if s.len() < sep.len() {
        return None;
    }
    let n = s.len();
    let bound = s.len() - sep.len();
    let mut i: usize = 0;
    while i <= bound
        invariant
            n == s@.len(),
            sep@.len() > 0,
            sep@.len() <= s@.len(),
            bound == s@.len() - sep@.len(),
            0 <= i <= bound + 1,
            forall|j: int| 0 <= j < i ==> !sep_at(s@, sep@, j),
        decreases bound + 1 - i,
    {
        if match_at(s, sep, i) {
            proof {
                lemma_find_sep_at(s@, sep@, i as int);
            }
            return Some(i);
        }
        i += 1;
    }
    proof {
        if find_sep(s@, sep@) is Some {
            lemma_find_sep_some(s@, sep@);
        }
    }
    None
}

/// A fresh copy of `s[lo..hi]`.
pub fn copy_range(s: &[char], lo: usize, hi: usize) -> (r: Vec<char>)
    requires
        lo <= hi <= s@.len(),
    ensures
        r@ == s@.subrange(lo as int, hi as int),
{
    let mut r: Vec<char> = Vec::new();
    let mut k: usize = lo;
    while k < hi
        invariant
            lo <= k <= hi <= s@.len(),
            r@ == s@.subrange(lo as int, k as int),
        decreases hi - k,
    {
        r.push(s[k]);
        proof {
            assert(r@ =~= s@.subrange(lo as int, k + 1));
        }
        k += 1;
    }
    r
}

/// Split `s` on every occurrence of `sep`, copying out the pieces.
pub fn split_sep_exec(s: &[char], sep: &[char]) -> (r: Vec<Vec<char>>)
    requires
        sep@.len() > 0,
    ensures
        r.deep_view() == split_sep(s@, sep@),
    decreases s@.len(),
{
    let mut r: Vec<Vec<char>> = Vec::new();
    match find_sep_exec(s, sep) {
        None => {
            r.push(copy_range(s, 0, s.len()));
            proof {
                assert(s@.subrange(0, s@.len() as int) =~= s@);
                assert(r.deep_view() =~~= split_sep(s@, sep@));
            }
        },
        Some(i) => {
            proof {
                lemma_find_sep_some(s@, sep@);
            }
            let n = s.len();
            let first = copy_range(s, 0, i);
            let rest = copy_range(s, i + sep.len(), n);
            proof {
                assert(rest@ =~= s@.skip(i + sep@.len()));
            }
            let mut tail = split_sep_exec(rest.as_slice(), sep);
            r.push(first);
            r.append(&mut tail);
            proof {
                assert(r.deep_view() =~~= split_sep(s@, sep@));
            }
        },
    }
    r
}

/// True when `c` occurs nowhere in `s`.
pub open spec fn no_char(s: Seq<char>, c: char) -> bool {
    forall|i: int| 0 <= i < s.len() ==> s[i] != c
}

/// A match at `i` with no earlier occurrence of the separator's first
/// character is the first match.
pub proof fn lemma_find_sep_first_char(s: Seq<char>, sep: Seq<char>, i: int)
    requires
        sep.len() > 0,
        sep_at(s, sep, i),
        forall|j: int| 0 <= j < i ==> s[j] != sep[0],
    ensures
        find_sep(s, sep) == Some(i),
{
    assert forall|j: int| 0 <= j < i implies !sep_at(s, sep, j) by {
        if sep_at(s, sep, j) {
            assert(s.subrange(j, j + sep.len())[0] == s[j]);
        }
    }
    lemma_find_sep_at(s, sep, i);
}

/// The pieces joined back together, the separator between them.
pub open spec fn join(parts: Seq<Seq<char>>, sep: Seq<char>) -> Seq<char>
    decreases parts.len(),
{
    if parts.len() == 0 {
        Seq::empty()
    } else if parts.len() == 1 {
        parts[0]
    } else {
        join(parts.drop_last(), sep) + sep + parts.last()
    }
}

/// A join of two or more pieces starts with the first piece and the
/// separator.
pub proof fn lemma_join_first(parts: Seq<Seq<char>>, sep: Seq<char>)
    requires
        parts.len() >= 2,
    ensures
        join(parts, sep) == parts.first() + sep + join(parts.drop_first(), sep),
    decreases parts.len(),
{
    if parts.len() == 2 {
        assert(parts.drop_last() =~= seq![parts.first()]);
        assert(parts.drop_first() =~= seq![parts.last()]);
        assert(join(parts.drop_last(), sep) == parts.first());
        assert(join(parts.drop_first(), sep) == parts.last());
    } else {
        lemma_join_first(parts.drop_last(), sep);
        assert(parts.drop_last().first() == parts.first());
        assert(parts.drop_last().drop_first() =~= parts.drop_first().drop_last());
        assert(parts.drop_first().last() == parts.last());
        assert(parts.drop_first().len() >= 2);
        assert(join(parts, sep) == join(parts.drop_last(), sep) + sep + parts.last());
        assert(join(parts.drop_last(), sep) == parts.first() + sep + join(
            parts.drop_first().drop_last(),
            sep,
        ));
        assert(join(parts.drop_first(), sep) == join(parts.drop_first().drop_last(), sep) + sep
            + parts.last());
        assert((parts.first() + sep + join(parts.drop_first().drop_last(), sep)) + sep
            + parts.last() =~= parts.first() + sep + (join(parts.drop_first().drop_last(), sep)
            + sep + parts.last()));
    }
}

/// Joining one more piece appends the separator and the piece, or is
/// the piece alone when nothing was joined yet.
pub proof fn lemma_join_push(parts: Seq<Seq<char>>, sep: Seq<char>, p: Seq<char>)
    ensures
        parts.len() == 0 ==> join(parts.push(p), sep) == p,
        parts.len() >= 1 ==> join(parts.push(p), sep) == join(parts, sep) + sep + p,
{
    assert(parts.push(p).drop_last() =~= parts);
    assert(parts.push(p).last() == p);
}

/// A character absent from the separator and from every piece is
/// absent from their join.
pub proof fn lemma_join_no_char(parts: Seq<Seq<char>>, sep: Seq<char>, c: char)
    requires
        no_char(sep, c),
        forall|k: int| 0 <= k < parts.len() ==> no_char(#[trigger] parts[k], c),
    ensures
        no_char(join(parts, sep), c),
    decreases parts.len(),
{
    if parts.len() == 0 {
    } else if parts.len() == 1 {
        assert(no_char(parts[0], c));
    } else {
        lemma_join_no_char(parts.drop_last(), sep, c);
        assert(no_char(parts.last(), c));
        let w = join(parts.drop_last(), sep) + sep + parts.last();
        assert forall|i: int| 0 <= i < w.len() implies w[i] != c by {}
    }
}

/// Splitting a join on its separator gives the pieces back, as long
/// as the separator's first character occurs in no piece.
pub proof fn lemma_split_join(parts: Seq<Seq<char>>, sep: Seq<char>)
    requires
        parts.len() >= 1,
        sep.len() > 0,
        forall|k: int| 0 <= k < parts.len() ==> no_char(#[trigger] parts[k], sep[0]),
    ensures
        split_sep(join(parts, sep), sep) == parts,
    decreases parts.len(),
{
    let s = join(parts, sep);
    if parts.len() == 1 {
        assert(s == parts[0]);
        if find_sep(s, sep) is Some {
            lemma_find_sep_some(s, sep);
            let i = find_sep(s, sep)->Some_0;
            assert(s.subrange(i, i + sep.len())[0] == s[i]);
        }
        assert(split_sep(s, sep) =~= parts);
    } else {
        lemma_join_first(parts, sep);
        let first = parts.first();
        let rest = join(parts.drop_first(), sep);
        assert(s == first + sep + rest);
        let i = first.len() as int;
        assert(s.subrange(i, i + sep.len()) =~= sep);
        assert forall|j: int| 0 <= j < i implies s[j] != sep[0] by {
            assert(s[j] == first[j]);
        }
        lemma_find_sep_first_char(s, sep, i);
        assert(s.take(i) =~= first);
        assert(s.skip(i + sep.len()) =~= rest);
        lemma_split_join(parts.drop_first(), sep);
        assert(seq![first] + parts.drop_first() =~= parts);
    }
}

/// True for the ten decimal digit characters.
pub open spec fn is_digit_char(c: char) -> bool {
    ('0' as u32) <= (c as u32) && (c as u32) <= ('9' as u32)
}

/// Numeric value of a digit character.
pub open spec fn digit_val(c: char) -> int {
    (c as u32) as int - ('0' as u32) as int
}

/// True when every character of `s` is a decimal digit.
pub open spec fn all_digits(s: Seq<char>) -> bool {
    forall|i: int| 0 <= i < s.len() ==> is_digit_char(s[i])
}

/// Value of a digit sequence read in base ten.
pub open spec fn digits_val(s: Seq<char>) -> int
    decreases s.len(),
{
    if s.len() == 0 {
        0
    } else {
        digits_val(s.drop_last()) * 10 + digit_val(s.last())
    }
}

/// The number a sequence of characters denotes: at least one character,
/// all decimal digits, and a value that fits in `usize`.  Anything else
/// denotes nothing.
pub open spec fn parse_count(s: Seq<char>) -> Option<usize> {
    if s.len() > 0 && all_digits(s) && digits_val(s) <= usize::MAX {
        Some(digits_val(s) as usize)
    } else {
        None
    }
}

/// A digit sequence has a non-negative value.
pub proof fn lemma_digits_val_nonneg(s: Seq<char>)
    requires
        all_digits(s),
    ensures
        digits_val(s) >= 0,
    decreases s.len(),
{
    if s.len() > 0 {
        lemma_digits_val_nonneg(s.drop_last());
    }
}

/// Reading more digits never makes the value smaller.
pub proof fn lemma_digits_val_prefix_le(s: Seq<char>, i: int, j: int)
    requires
        all_digits(s),
        0 <= i <= j <= s.len(),
    ensures
        digits_val(s.take(i)) <= digits_val(s.take(j)),
    decreases j - i,
{
    if i < j {
        lemma_digits_val_prefix_le(s, i, j - 1);
        let t = s.take(j);
        assert(t.drop_last() =~= s.take(j - 1));
        lemma_digits_val_nonneg(t.drop_last());
    }
}

/// The number denoted by `s`, or `None` where `s` denotes nothing.
pub fn parse_count_exec(s: &[char]) -> (r: Option<usize>)
    ensures
        r == parse_count(s@),
{
    let n = s.len();
    if n == 0 {
        return None;
    }
    let mut acc: usize = 0;
    let mut i: usize = 0;
    while i < n
        invariant
            n == s@.len(),
            0 < n,
            0 <= i <= n,
            all_digits(s@.take(i as int)),
            acc == digits_val(s@.take(i as int)),
        decreases n - i,
    {
        let c = s[i];
        let cv = c as u32;
        if cv < '0' as u32 || cv > '9' as u32 {
            return None;
        }
        let d = (cv - '0' as u32) as usize;
        proof {
            assert(s@.take(i + 1).drop_last() =~= s@.take(i as int));
            assert(s@.take(i + 1).last() == s@[i as int]);
        }
        if acc > (usize::MAX - d) / 10 {
            proof {
                assert(acc * 10 + d > usize::MAX) by (nonlinear_arith)
                    requires
                        acc > (usize::MAX - d) / 10,
                        0 <= d <= 9,
                        acc >= 0,
                ;
                if all_digits(s@) {
                    lemma_digits_val_prefix_le(s@, i + 1, s@.len() as int);
                    assert(s@.take(s@.len() as int) =~= s@);
                }
            }
            return None;
        }
        proof {
            assert(acc * 10 + d <= usize::MAX) by (nonlinear_arith)
                requires
                    acc <= (usize::MAX - d) / 10,
                    0 <= d <= 9,
                    acc >= 0,
            ;
        }
        acc = acc * 10 + d;
        i += 1;
    }
    proof {
        assert(s@.take(n as int) =~= s@);
    }
    Some(acc)
}

/// The decimal digit character for a value below ten.
pub open spec fn digit_char(d: int) -> char {
    if d == 0 {
        '0'
    } else if d == 1 {
        '1'
    } else if d == 2 {
        '2'
    } else if d == 3 {
        '3'
    } else if d == 4 {
        '4'
    } else if d == 5 {
        '5'
    } else if d == 6 {
        '6'
    } else if d == 7 {
        '7'
    } else if d == 8 {
        '8'
    } else {
        '9'
    }
}

/// The decimal rendering of a non-negative number, most significant
/// digit first.
pub open spec fn digits_of(n: int) -> Seq<char>
    decreases n,
    when n >= 0
{
    if n < 10 {
        seq![digit_char(n)]
    } else {
        digits_of(n / 10).push(digit_char(n % 10))
    }
}

/// Rendering a number gives digits that read back as the same number.
pub proof fn lemma_digits_of_val(n: int)
    requires
        n >= 0,
    ensures
        digits_of(n).len() >= 1,
        all_digits(digits_of(n)),
        digits_val(digits_of(n)) == n,
    decreases n,
{
    if n < 10 {
        assert(digits_of(n) =~= seq![digit_char(n)]);
        assert(digits_of(n).drop_last() =~= Seq::<char>::empty());
        assert(digits_of(n).last() == digit_char(n));
        assert(digit_val(digit_char(n)) == n);
        assert(digits_val(digits_of(n)) == digits_val(Seq::<char>::empty()) * 10 + digit_val(
            digit_char(n),
        ));
    } else {
        lemma_digits_of_val(n / 10);
        let s = digits_of(n);
        assert(s =~= digits_of(n / 10).push(digit_char(n % 10)));
        assert(s.drop_last() =~= digits_of(n / 10));
        assert(0 <= n % 10 < 10);
        assert(digits_val(s) == (n / 10) * 10 + n % 10);
        assert((n / 10) * 10 + n % 10 == n) by (nonlinear_arith)
            requires
                n >= 0,
        ;
    }
}

/// The digit character for `d`, executable form.
pub fn digit_char_exec(d: usize) -> (c: char)
    requires
        d < 10,
    ensures
        c == digit_char(d as int),
{
    if d == 0 {
        '0'
    } else if d == 1 {
        '1'
    } else if d == 2 {
        '2'
    } else if d == 3 {
        '3'
    } else if d == 4 {
        '4'
    } else if d == 5 {
        '5'
    } else if d == 6 {
        '6'
    } else if d == 7 {
        '7'
    } else if d == 8 {
        '8'
    } else {
        '9'
    }
}

/// The decimal rendering of `n`, executable form.
pub fn digits_of_exec(n: usize) -> (r: Vec<char>)
    ensures
        r@ == digits_of(n as int),
    decreases n,
{
    if n < 10 {
        let mut r: Vec<char> = Vec::new();
        r.push(digit_char_exec(n));
        proof {
            assert(r@ =~= digits_of(n as int));
        }
        r
    } else {
        let mut r = digits_of_exec(n / 10);
        r.push(digit_char_exec(n % 10));
        r
    }
}

} // verus!
