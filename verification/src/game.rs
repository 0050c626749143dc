//! The record model of the cube game: categories, draws, games, and
//! the parser that reads a game record from one line of text.

use vstd::prelude::*;

use crate::FromLine;
use crate::text::chars_to_vec;
use crate::text::copy_range;
use crate::text::find_sep;
use crate::text::find_sep_exec;
use crate::text::lemma_find_sep_some;
use crate::text::parse_count;
use crate::text::parse_count_exec;
use crate::text::split_once_sep;
use crate::text::split_sep;
use crate::text::split_sep_exec;

verus! {

/// The three cube categories, in their fixed enumeration order.
#[derive(Clone, Copy, Debug, PartialEq, Eq)]
pub enum Color {
    Blue,
    Red,
    Green,
}

/// The canonical label of a category.
pub open spec fn label_of(c: Color) -> Seq<char> {
    match c {
        Color::Blue => seq!['B', 'l', 'u', 'e'],
        Color::Red => seq!['R', 'e', 'd'],
        Color::Green => seq!['G', 'r', 'e', 'e', 'n'],
    }
}

/// The fixed capacity threshold of a category, used by the
/// feasibility aggregate.
pub open spec fn threshold(c: Color) -> usize {
    match c {
        Color::Blue => 14,
        Color::Red => 12,
        Color::Green => 13,
    }
}

impl Color {
    /// The category a label denotes: an exact, case-sensitive match
    /// against the three canonical spellings.
    pub open spec fn spec_parse(s: Seq<char>) -> Option<Color> {
        if s == label_of(Color::Blue) {
            Some(Color::Blue)
        } else if s == label_of(Color::Red) {
            Some(Color::Red)
        } else if s == label_of(Color::Green) {
            Some(Color::Green)
        } else {
            None
        }
    }

    /// The fixed capacity threshold of this category.
    pub fn max(&self) -> (r: usize)
        ensures
            r == threshold(*self),
    {
        match self {
            Color::Blue => 14,
            Color::Red => 12,
            Color::Green => 13,
        }
    }

    /// The category the given characters spell, if any.
    pub fn parse_chars(s: &[char]) -> (r: Option<Color>)
        ensures
            r == Color::spec_parse(s@),
    {
        if s.len() == 4 && s[0] == 'B' && s[1] == 'l' && s[2] == 'u' && s[3] == 'e' {
            proof {
                assert(s@ =~= label_of(Color::Blue));
            }
            Some(Color::Blue)
        } else if s.len() == 3 && s[0] == 'R' && s[1] == 'e' && s[2] == 'd' {
            proof {
                assert(s@ =~= label_of(Color::Red));
            }
            Some(Color::Red)
        } else if s.len() == 5 && s[0] == 'G' && s[1] == 'r' && s[2] == 'e' && s[3] == 'e' && s[4]
            == 'n' {
            proof {
                assert(s@ =~= label_of(Color::Green));
            }
            Some(Color::Green)
        } else {
            None
        }
    }

    /// The category the given text spells, if any.
    pub fn parse(s: &str) -> (r: Option<Color>)
        ensures
            r == Color::spec_parse(s@),
    {
        let cs = chars_to_vec(s);
        Color::parse_chars(cs.as_slice())
    }

    /// The three categories, each exactly once, in the fixed order.
    pub fn all() -> (r: Vec<Color>)
        ensures
            r@ == seq![Color::Blue, Color::Red, Color::Green],
    {
        let mut r: Vec<Color> = Vec::new();
        r.push(Color::Blue);
        r.push(Color::Red);
        r.push(Color::Green);
        proof {
            assert(r@ =~= seq![Color::Blue, Color::Red, Color::Green]);
        }
        r
    }
}

/// One draw: an optional observed count per category.  `None` means
/// the category was not named in the draw, not that zero was observed.
#[derive(Clone, Copy, Debug, PartialEq, Eq)]
pub struct Cubes {
    pub blue: Option<usize>,
    pub red: Option<usize>,
    pub green: Option<usize>,
}

/// The draw that observed nothing.
pub open spec fn empty_cubes() -> Cubes {
    Cubes { blue: None, red: None, green: None }
}

/// The count a draw holds for a category.
pub open spec fn spec_get(d: Cubes, c: Color) -> Option<usize> {
    match c {
        Color::Blue => d.blue,
        Color::Red => d.red,
        Color::Green => d.green,
    }
}

/// The draw with one category's count overwritten.
pub open spec fn spec_with(d: Cubes, c: Color, n: usize) -> Cubes {
    match c {
        Color::Blue => Cubes { blue: Some(n), red: d.red, green: d.green },
        Color::Red => Cubes { blue: d.blue, red: Some(n), green: d.green },
        Color::Green => Cubes { blue: d.blue, red: d.red, green: Some(n) },
    }
}

impl Default for Cubes {
    /// The draw that observed nothing.
    fn default() -> (r: Self)
        ensures
            r == empty_cubes(),
    {
        Cubes { blue: None, red: None, green: None }
    }
}

impl Cubes {
    /// The count this draw holds for `color`.
    pub fn get(&self, color: &Color) -> (r: Option<usize>)
        ensures
            r == spec_get(*self, *color),
    {
        match color {
            Color::Blue => self.blue,
            Color::Red => self.red,
            Color::Green => self.green,
        }
    }

    /// This draw with `color`'s count overwritten by `num`.
    pub fn with(self, color: &Color, num: usize) -> (r: Self)
        ensures
            r == spec_with(self, *color, num),
    {
        match color {
            Color::Blue => Cubes { blue: Some(num), red: self.red, green: self.green },
            Color::Red => Cubes { blue: self.blue, red: Some(num), green: self.green },
            Color::Green => Cubes { blue: self.blue, red: self.red, green: Some(num) },
        }
    }
}

/// One game record: an identifier and its draws, in input order.
#[derive(Debug, PartialEq, Eq)]
pub struct Game {
    pub id: usize,
    pub cubes: Vec<Cubes>,
}

/// The mathematical model of a game record.
pub ghost struct GameModel {
    pub id: usize,
    pub draws: Seq<Cubes>,
}

impl View for Game {
    type V = GameModel;

    open spec fn view(&self) -> GameModel {
        GameModel { id: self.id, draws: self.cubes@ }
    }
}

/// The counts that a list of draws observed for a category, in draw
/// order, draws that did not name the category left out.
pub open spec fn observed(draws: Seq<Cubes>, c: Color) -> Seq<usize>
    decreases draws.len(),
{
    if draws.len() == 0 {
        Seq::empty()
    } else {
        let front = observed(draws.drop_last(), c);
        match spec_get(draws.last(), c) {
            Some(n) => front.push(n),
            None => front,
        }
    }
}

impl Game {
    /// The counts this record's draws observed for `color`, in draw
    /// order.
    pub fn get(&self, color: &Color) -> (r: Vec<usize>)
        ensures
            r@ == observed(self@.draws, *color),
    {
        let mut r: Vec<usize> = Vec::new();
        let n = self.cubes.len();
        let mut i: usize = 0;
        while i < n
            invariant
                n == self.cubes@.len(),
                0 <= i <= n,
                r@ == observed(self.cubes@.take(i as int), *color),
            decreases n - i,
        {
            proof {
                assert(self.cubes@.take(i + 1).drop_last() =~= self.cubes@.take(i as int));
                assert(self.cubes@.take(i + 1).last() == self.cubes@[i as int]);
            }
            match self.cubes[i].get(color) {
                Some(v) => {
                    r.push(v);
                },
                None => {},
            }
            i += 1;
        }
        proof {
            assert(self.cubes@.take(n as int) =~= self.cubes@);
        }
        r
    }
}

/// The observation one token denotes: a count, the first space, and a
/// category label.  A token without a space, a non-numeric count or an
/// unknown label denotes nothing.
pub open spec fn spec_token_obs(tok: Seq<char>) -> Option<(usize, Color)> {
    match find_sep(tok, seq![' ']) {
        None => None,
        Some(k) => {
            let count = parse_count(tok.take(k));
            let color = Color::spec_parse(tok.skip(k + 1));
            if count is Some && color is Some {
                Some((count->Some_0, color->Some_0))
            } else {
                None
            }
        },
    }
}

/// The draw a list of tokens folds to: observations applied in order,
/// a later observation of a category overwriting an earlier one, and
/// tokens that denote nothing dropped.
pub open spec fn spec_fold_tokens(toks: Seq<Seq<char>>) -> Cubes
    decreases toks.len(),
{
    if toks.len() == 0 {
        empty_cubes()
    } else {
        let prev = spec_fold_tokens(toks.drop_last());
        match spec_token_obs(toks.last()) {
            Some(obs) => spec_with(prev, obs.1, obs.0),
            None => prev,
        }
    }
}

/// The draw one segment of text denotes.
pub open spec fn spec_draw(seg: Seq<char>) -> Cubes {
    spec_fold_tokens(split_sep(seg, seq![',', ' ']))
}

/// The draws the text after the identifier denotes, one per segment.
/// Empty text is one empty segment, which is one empty draw.
pub open spec fn spec_draws(s: Seq<char>) -> Seq<Cubes> {
    split_sep(s, seq![';', ' ']).map_values(|seg: Seq<char>| spec_draw(seg))
}

/// The fixed prefix of every game line.
pub open spec fn game_prefix() -> Seq<char> {
    seq!['G', 'a', 'm', 'e', ' ']
}

/// What one line parses to: the "Game " prefix, a numeric identifier
/// before the first ": ", and the draw segments after it.  A line
/// without the prefix, without the separator, or with a non-numeric
/// identifier holds no record.
pub open spec fn spec_parse_game(line: Seq<char>) -> Option<GameModel> {
    if line.len() < 5 || line.take(5) != game_prefix() {
        None
    } else {
        match split_once_sep(line.skip(5), seq![':', ' ']) {
            None => None,
            Some(parts) => match parse_count(parts.0) {
                None => None,
                Some(id) => Some(GameModel { id, draws: spec_draws(parts.1) }),
            },
        }
    }
}

/// A line that parses to a record matches the "Game <digits>: "
/// prefix-and-separator pattern: the fixed prefix, at least one digit
/// of the identifier, and the ": " separator right after the digits.
/// Contrapositive: a line without that shape yields no record.
pub proof fn lemma_parsed_line_shape(line: Seq<char>)
    requires
        spec_parse_game(line) is Some,
    ensures
        line.len() >= 5,
        line.take(5) == game_prefix(),
        find_sep(line.skip(5), seq![':', ' ']) is Some,
        ({
            let i = find_sep(line.skip(5), seq![':', ' '])->Some_0;
            &&& i >= 1
            &&& crate::text::all_digits(line.skip(5).take(i))
            &&& crate::text::sep_at(line.skip(5), seq![':', ' '], i)
            &&& parse_count(line.skip(5).take(i)) == Some(spec_parse_game(line)->Some_0.id)
        }),
{
    lemma_find_sep_some(line.skip(5), seq![':', ' ']);
}

/// A line whose text after the prefix never holds ": " is skipped,
/// never a failure of the whole batch.
pub proof fn lemma_missing_separator_skipped(line: Seq<char>)
    requires
        find_sep(line.skip(5), seq![':', ' ']) is None,
    ensures
        spec_parse_game(line) is None,
{
}

/// A line with the prefix, the separator and a numeric identifier
/// always yields a record, whatever its draw text holds.
pub proof fn lemma_well_formed_line_parses(line: Seq<char>)
    requires
        line.len() >= 5,
        line.take(5) == game_prefix(),
        split_once_sep(line.skip(5), seq![':', ' ']) is Some,
        parse_count(split_once_sep(line.skip(5), seq![':', ' '])->Some_0.0) is Some,
    ensures
        spec_parse_game(line) is Some,
{
}

/// A token that denotes no observation — no space, a non-numeric
/// count, or an unknown label — is dropped: its segment folds to the
/// draw of the remaining tokens.
pub proof fn lemma_bad_token_dropped(toks: Seq<Seq<char>>, j: int)
    requires
        0 <= j < toks.len(),
        spec_token_obs(toks[j]) is None,
    ensures
        spec_fold_tokens(toks.remove(j)) == spec_fold_tokens(toks),
    decreases toks.len(),
{
    if j == toks.len() - 1 {
        assert(toks.remove(j) =~= toks.drop_last());
    } else {
        let t = toks.drop_last();
        lemma_bad_token_dropped(t, j);
        assert(toks.remove(j).drop_last() =~= t.remove(j));
        assert(toks.remove(j).last() == toks.last());
    }
}

/// The draw one segment of characters parses to: its tokens folded in
/// order, unusable tokens dropped.
fn parse_segment(seg: &[char]) -> (d: Cubes)
    ensures
        d == spec_draw(seg@),
{
    let mut comma: Vec<char> = Vec::new();
    comma.push(',');
    comma.push(' ');
    proof {
        assert(comma@ =~= seq![',', ' ']);
    }
    let mut space: Vec<char> = Vec::new();
    space.push(' ');
    proof {
        assert(space@ =~= seq![' ']);
    }
    let toks = split_sep_exec(seg, comma.as_slice());
    let ghost tv = toks.deep_view();
    let mut d = Cubes { blue: None, red: None, green: None };
    let mut j: usize = 0;
    while j < toks.len()
        invariant
            tv == toks.deep_view(),
            tv.len() == toks@.len(),
            space@ == seq![' '],
            0 <= j <= toks@.len(),
            d == spec_fold_tokens(tv.take(j as int)),
        decreases toks@.len() - j,
    {
        let tok = &toks[j];
        proof {
            assert(tv[j as int] == toks@[j as int]@);
        }
        match find_sep_exec(tok.as_slice(), space.as_slice()) {
            None => {},
            Some(k) => {
                proof {
                    lemma_find_sep_some(tok@, seq![' ']);
                }
                let tl = tok.len();
                let numtxt = copy_range(tok.as_slice(), 0, k);
                let labtxt = copy_range(tok.as_slice(), k + 1, tl);
                proof {
                    assert(numtxt@ =~= tok@.take(k as int));
                    assert(labtxt@ =~= tok@.skip(k + 1));
                }
                let num_o = parse_count_exec(numtxt.as_slice());
                let col_o = Color::parse_chars(labtxt.as_slice());
                match (num_o, col_o) {
                    (Some(num), Some(col)) => {
                        d = d.with(&col, num);
                    },
                    _ => {},
                }
            },
        }
        proof {
            assert(tv.take(j + 1).drop_last() =~= tv.take(j as int));
            assert(tv.take(j + 1).last() == tv[j as int]);
        }
        j += 1;
    }
    proof {
        assert(tv.take(toks@.len() as int) =~= tv);
    }
    d
}

impl FromLine for Game {
    /// A game line parses as `spec_parse_game` says.
    open spec fn spec_from_line(line: Seq<char>) -> Option<GameModel> {
        spec_parse_game(line)
    }

    /// Parses one line into a game record, or nothing when the line
    /// holds no record.
    fn from_line(line: &str) -> (r: Option<Game>) {
        let cs = chars_to_vec(line);
        if cs.len() < 5 {
            return None;
        }
        if !(cs[0] == 'G' && cs[1] == 'a' && cs[2] == 'm' && cs[3] == 'e' && cs[4] == ' ') {
            proof {
                if line@.take(5) == game_prefix() {
                    assert(line@.take(5)[0] == 'G');
                    assert(line@.take(5)[1] == 'a');
                    assert(line@.take(5)[2] == 'm');
                    assert(line@.take(5)[3] == 'e');
                    assert(line@.take(5)[4] == ' ');
                }
            }
            return None;
        }
        proof {
            assert(line@.take(5) =~= game_prefix());
        }
        let n = cs.len();
        let rest = copy_range(cs.as_slice(), 5, n);
        proof {
            assert(rest@ =~= line@.skip(5));
        }
        let mut colon: Vec<char> = Vec::new();
        colon.push(':');
        colon.push(' ');
        proof {
            assert(colon@ =~= seq![':', ' ']);
        }
        match find_sep_exec(rest.as_slice(), colon.as_slice()) {
            None => None,
            Some(i) => {
                proof {
                    lemma_find_sep_some(rest@, seq![':', ' ']);
                }
                let m = rest.len();
                let idtxt = copy_range(rest.as_slice(), 0, i);
                let drawstxt = copy_range(rest.as_slice(), i + 2, m);
                proof {
                    assert(idtxt@ =~= rest@.take(i as int));
                    assert(drawstxt@ =~= rest@.skip(i + 2));
                }
                match parse_count_exec(idtxt.as_slice()) {
                    None => None,
                    Some(id) => {
                        let mut semi: Vec<char> = Vec::new();
                        semi.push(';');
                        semi.push(' ');
                        proof {
                            assert(semi@ =~= seq![';', ' ']);
                        }
                        let segs = split_sep_exec(drawstxt.as_slice(), semi.as_slice());
                        let ghost sv = segs.deep_view();
                        let mut cubes: Vec<Cubes> = Vec::new();
                        let mut si: usize = 0;
                        while si < segs.len()
                            invariant
                                sv == segs.deep_view(),
                                sv.len() == segs@.len(),
                                0 <= si <= segs@.len(),
                                cubes@.len() == si,
                                forall|k: int| 0 <= k < si ==> cubes@[k] == spec_draw(sv[k]),
                            decreases segs@.len() - si,
                        {
                            proof {
                                assert(sv[si as int] == segs@[si as int]@);
                            }
                            let d = parse_segment(segs[si].as_slice());
                            cubes.push(d);
                            si += 1;
                        }
                        proof {
                            assert(cubes@ =~= spec_draws(drawstxt@));
                        }
                        Some(Game { id, cubes })
                    },
                }
            },
        }
    }
}

} // verus!
