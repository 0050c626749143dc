//! The canonical text of a record, and the round-trip law: a parsed
//! record, re-serialized, parses back to the same record.

use vstd::prelude::*;

use crate::game::Color;
use crate::game::Cubes;
use crate::game::Game;
use crate::game::GameModel;
use crate::game::empty_cubes;
use crate::game::game_prefix;
use crate::game::label_of;
use crate::game::spec_draw;
use crate::game::spec_draws;
use crate::game::spec_fold_tokens;
use crate::game::spec_parse_game;
use crate::game::spec_token_obs;
use crate::text::all_digits;
use crate::text::digits_of;
use crate::text::find_sep;
use crate::text::is_digit_char;
use crate::text::join;
use crate::text::lemma_digits_of_val;
use crate::text::lemma_find_sep_first_char;
use crate::text::lemma_join_no_char;
use crate::text::lemma_split_join;
use crate::text::no_char;
use crate::text::parse_count;
use crate::text::split_once_sep;
use crate::text::split_sep;

verus! {

/// The canonical text of one observation: the count, one space, the
/// category's label.
pub open spec fn token_text(n: usize, c: Color) -> Seq<char> {
    digits_of(n as int) + seq![' '] + label_of(c)
}

/// The canonical tokens of one draw: one per named category, in the
/// fixed enumeration order.
pub open spec fn draw_tokens(d: Cubes) -> Seq<Seq<char>> {
    let bl: Seq<Seq<char>> = match d.blue {
        Some(n) => seq![token_text(n, Color::Blue)],
        None => Seq::empty(),
    };
    let rd: Seq<Seq<char>> = match d.red {
        Some(n) => seq![token_text(n, Color::Red)],
        None => Seq::empty(),
    };
    let gr: Seq<Seq<char>> = match d.green {
        Some(n) => seq![token_text(n, Color::Green)],
        None => Seq::empty(),
    };
    bl + rd + gr
}

/// The canonical text of one draw: its tokens joined with ", ".
pub open spec fn draw_text(d: Cubes) -> Seq<char> {
    join(draw_tokens(d), seq![',', ' '])
}

/// The canonical text of a list of draws: one segment per draw,
/// joined with "; ".
pub open spec fn draws_text(draws: Seq<Cubes>) -> Seq<char> {
    join(draws.map_values(|d: Cubes| draw_text(d)), seq![';', ' '])
}

/// The canonical line of a record.
pub open spec fn game_line(m: GameModel) -> Seq<char> {
    game_prefix() + digits_of(m.id as int) + seq![':', ' '] + draws_text(m.draws)
}

/// Digit characters are not separator characters.
proof fn lemma_digits_no_seps(s: Seq<char>)
    requires
        all_digits(s),
    ensures
        no_char(s, ':'),
        no_char(s, ' '),
        no_char(s, ';'),
        no_char(s, ','),
{
    assert forall|i: int| 0 <= i < s.len() implies s[i] != ':' && s[i] != ' ' && s[i] != ';'
        && s[i] != ',' by {
        assert(is_digit_char(s[i]));
    }
}

/// Label characters are not separator characters.
proof fn lemma_label_no_seps(c: Color)
    ensures
        no_char(label_of(c), ';'),
        no_char(label_of(c), ','),
        no_char(label_of(c), ' '),
{
    match c {
        Color::Blue => {},
        Color::Red => {},
        Color::Green => {},
    }
}

/// Token characters are neither ";" nor ",".
proof fn lemma_token_no_seps(n: usize, c: Color)
    ensures
        no_char(token_text(n, c), ';'),
        no_char(token_text(n, c), ','),
{
    lemma_digits_of_val(n as int);
    lemma_digits_no_seps(digits_of(n as int));
    lemma_label_no_seps(c);
    let t = token_text(n, c);
    assert forall|i: int| 0 <= i < t.len() implies t[i] != ';' && t[i] != ',' by {
        let dl = digits_of(n as int).len() as int;
        if i < dl {
            assert(t[i] == digits_of(n as int)[i]);
        } else if i == dl {
            assert(t[i] == ' ');
        } else {
            assert(t[i] == label_of(c)[i - dl - 1]);
        }
    }
}

/// A canonical token reads back as the observation it was made from.
proof fn lemma_token_round_trip(n: usize, c: Color)
    ensures
        spec_token_obs(token_text(n, c)) == Some((n, c)),
{
    let t = token_text(n, c);
    let ds = digits_of(n as int);
    lemma_digits_of_val(n as int);
    lemma_digits_no_seps(ds);
    let i = ds.len() as int;
    assert(t.subrange(i, i + 1) =~= seq![' ']);
    assert forall|j: int| 0 <= j < i implies t[j] != ' ' by {
        assert(t[j] == ds[j]);
    }
    lemma_find_sep_first_char(t, seq![' '], i);
    assert(t.take(i) =~= ds);
    assert(parse_count(ds) == Some(n));
    assert(t.skip(i + 1) =~= label_of(c));
    match c {
        Color::Blue => {},
        Color::Red => {},
        Color::Green => {},
    }
    assert(Color::spec_parse(label_of(c)) == Some(c));
}

/// A canonical draw segment reads back as the draw it was made from.
proof fn lemma_draw_round_trip(d: Cubes)
    ensures
        spec_draw(draw_text(d)) == d,
{
    let toks = draw_tokens(d);
    let comma = seq![',', ' '];
    if toks.len() == 0 {
        assert(d == empty_cubes());
        assert(draw_text(d) =~= Seq::<char>::empty());
        let pieces = split_sep(Seq::<char>::empty(), comma);
        assert(find_sep(Seq::<char>::empty(), comma) is None);
        assert(pieces =~= seq![Seq::<char>::empty()]);
        assert(spec_token_obs(Seq::<char>::empty()) is None);
        assert(pieces.drop_last() =~= Seq::<Seq<char>>::empty());
        assert(pieces.last() == Seq::<char>::empty());
        assert(spec_fold_tokens(Seq::<Seq<char>>::empty()) == empty_cubes());
        assert(spec_fold_tokens(pieces.drop_last()) == empty_cubes());
        assert(spec_fold_tokens(pieces) == empty_cubes());
    } else {
        assert forall|k: int| 0 <= k < toks.len() implies no_char(#[trigger] toks[k], ',') by {
            lemma_token_no_seps_all(d);
        }
        lemma_split_join(toks, comma);
        assert(split_sep(draw_text(d), comma) == toks);
        lemma_fold_draw_tokens(d);
    }
}

/// Every token of a draw lacks the separator characters.
proof fn lemma_token_no_seps_all(d: Cubes)
    ensures
        forall|k: int|
            0 <= k < draw_tokens(d).len() ==> no_char(#[trigger] draw_tokens(d)[k], ',') && no_char(
                draw_tokens(d)[k],
                ';',
            ),
{
    assert forall|k: int| 0 <= k < draw_tokens(d).len() implies no_char(
        #[trigger] draw_tokens(d)[k],
        ',',
    ) && no_char(draw_tokens(d)[k], ';') by {
        if let Some(n) = d.blue {
            lemma_token_no_seps(n, Color::Blue);
        }
        if let Some(n) = d.red {
            lemma_token_no_seps(n, Color::Red);
        }
        if let Some(n) = d.green {
            lemma_token_no_seps(n, Color::Green);
        }
    }
}

/// Folding the canonical tokens of a draw rebuilds the draw.
proof fn lemma_fold_draw_tokens(d: Cubes)
    ensures
        spec_fold_tokens(draw_tokens(d)) == d,
{
    reveal_with_fuel(spec_fold_tokens, 5);
    let toks = draw_tokens(d);
    if let Some(n) = d.blue {
        lemma_token_round_trip(n, Color::Blue);
    }
    if let Some(n) = d.red {
        lemma_token_round_trip(n, Color::Red);
    }
    if let Some(n) = d.green {
        lemma_token_round_trip(n, Color::Green);
    }
    match (d.blue, d.red, d.green) {
        (None, None, None) => {
            assert(toks =~= Seq::<Seq<char>>::empty());
        },
        (Some(b), None, None) => {
            assert(toks =~= seq![token_text(b, Color::Blue)]);
            assert(toks.drop_last() =~= Seq::<Seq<char>>::empty());
        },
        (None, Some(r), None) => {
            assert(toks =~= seq![token_text(r, Color::Red)]);
            assert(toks.drop_last() =~= Seq::<Seq<char>>::empty());
        },
        (None, None, Some(g)) => {
            assert(toks =~= seq![token_text(g, Color::Green)]);
            assert(toks.drop_last() =~= Seq::<Seq<char>>::empty());
        },
        (Some(b), Some(r), None) => {
            assert(toks =~= seq![token_text(b, Color::Blue), token_text(r, Color::Red)]);
            assert(toks.drop_last() =~= seq![token_text(b, Color::Blue)]);
            assert(toks.drop_last().drop_last() =~= Seq::<Seq<char>>::empty());
        },
        (Some(b), None, Some(g)) => {
            assert(toks =~= seq![token_text(b, Color::Blue), token_text(g, Color::Green)]);
            assert(toks.drop_last() =~= seq![token_text(b, Color::Blue)]);
            assert(toks.drop_last().drop_last() =~= Seq::<Seq<char>>::empty());
        },
        (None, Some(r), Some(g)) => {
            assert(toks =~= seq![token_text(r, Color::Red), token_text(g, Color::Green)]);
            assert(toks.drop_last() =~= seq![token_text(r, Color::Red)]);
            assert(toks.drop_last().drop_last() =~= Seq::<Seq<char>>::empty());
        },
        (Some(b), Some(r), Some(g)) => {
            assert(toks =~= seq![
                token_text(b, Color::Blue),
                token_text(r, Color::Red),
                token_text(g, Color::Green),
            ]);
            assert(toks.drop_last() =~= seq![
                token_text(b, Color::Blue),
                token_text(r, Color::Red),
            ]);
            assert(toks.drop_last().drop_last() =~= seq![token_text(b, Color::Blue)]);
            assert(toks.drop_last().drop_last().drop_last() =~= Seq::<Seq<char>>::empty());
        },
    }
}

/// The canonical text of one or more draws reads back as the same
/// draws.
proof fn lemma_draws_round_trip(draws: Seq<Cubes>)
    requires
        draws.len() >= 1,
    ensures
        spec_draws(draws_text(draws)) == draws,
{
    let semi = seq![';', ' '];
    let comma = seq![',', ' '];
    let parts = draws.map_values(|d: Cubes| draw_text(d));
    assert forall|k: int| 0 <= k < parts.len() implies no_char(#[trigger] parts[k], ';') by {
        let d = draws[k];
        assert(parts[k] == draw_text(d));
        lemma_token_no_seps_all(d);
        assert(no_char(comma, ';'));
        lemma_join_no_char(draw_tokens(d), comma, ';');
    }
    lemma_split_join(parts, semi);
    assert(split_sep(draws_text(draws), semi) == parts);
    assert forall|k: int| 0 <= k < parts.len() implies #[trigger] spec_draw(parts[k])
        == draws[k] by {
        lemma_draw_round_trip(draws[k]);
    }
    assert(spec_draws(draws_text(draws)) =~= draws);
}

/// The canonical line of a record with at least one draw parses back
/// to the record itself.  Every parsed record has at least one draw.
pub proof fn lemma_line_round_trip(m: GameModel)
    requires
        m.draws.len() >= 1,
    ensures
        spec_parse_game(game_line(m)) == Some(m),
{
    let line = game_line(m);
    let ds = digits_of(m.id as int);
    lemma_digits_of_val(m.id as int);
    lemma_digits_no_seps(ds);
    assert(line.len() >= 5);
    assert(line.take(5) =~= game_prefix());
    let rest = line.skip(5);
    assert(rest =~= ds + seq![':', ' '] + draws_text(m.draws));
    let colon = seq![':', ' '];
    let i = ds.len() as int;
    assert(rest.subrange(i, i + 2) =~= colon);
    assert forall|j: int| 0 <= j < i implies rest[j] != ':' by {
        assert(rest[j] == ds[j]);
    }
    lemma_find_sep_first_char(rest, colon, i);
    assert(rest.take(i) =~= ds);
    assert(parse_count(ds) == Some(m.id));
    assert(rest.skip(i + 2) =~= draws_text(m.draws));
    lemma_draws_round_trip(m.draws);
    assert(spec_parse_game(line) == Some(GameModel { id: m.id, draws: m.draws }));
    assert(GameModel { id: m.id, draws: m.draws } == m);
}

/// A record parsed from any line has at least one draw.
pub proof fn lemma_parsed_has_draws(line: Seq<char>)
    ensures
        spec_parse_game(line) matches Some(m) ==> m.draws.len() >= 1,
{
    if spec_parse_game(line) is Some {
        let parts = split_once_sep(line.skip(5), seq![':', ' '])->Some_0;
        crate::text::lemma_split_sep_len(parts.1, seq![';', ' ']);
    }
}

/// The characters of a category's label.
fn label_chars(c: Color) -> (r: Vec<char>)
    ensures
        r@ == label_of(c),
{
    let mut r: Vec<char> = Vec::new();
    match c {
        Color::Blue => {
            r.push('B');
            r.push('l');
            r.push('u');
            r.push('e');
        },
        Color::Red => {
            r.push('R');
            r.push('e');
            r.push('d');
        },
        Color::Green => {
            r.push('G');
            r.push('r');
            r.push('e');
            r.push('e');
            r.push('n');
        },
    }
    proof {
        assert(r@ =~= label_of(c));
    }
    r
}

/// The characters of one observation token.
fn token_chars(n: usize, c: Color) -> (r: Vec<char>)
    ensures
        r@ == token_text(n, c),
{
    let mut r = crate::text::digits_of_exec(n);
    r.push(' ');
    let mut l = label_chars(c);
    r.append(&mut l);
    proof {
        assert(r@ =~= token_text(n, c));
    }
    r
}

/// The canonical segment of one draw.
fn draw_to_text(d: &Cubes) -> (r: Vec<char>)
    ensures
        r@ == draw_text(*d),
{
    let ghost toks = draw_tokens(*d);
    let ghost comma = seq![',', ' '];
    let mut r: Vec<char> = Vec::new();
    let mut emitted: usize = 0;
    proof {
        assert(toks.take(0) =~= Seq::<Seq<char>>::empty());
        assert(r@ =~= join(toks.take(0), comma));
    }
    if let Some(n) = d.blue {
        let mut t = token_chars(n, Color::Blue);
        r.append(&mut t);
        proof {
            assert(toks[0] == token_text(n, Color::Blue));
            crate::text::lemma_join_push(toks.take(0), comma, toks[0]);
            assert(toks.take(1) =~= toks.take(0).push(toks[0]));
            assert(r@ == join(toks.take(1), comma));
        }
        emitted = 1;
    }
    if let Some(n) = d.red {
        if emitted > 0 {
            r.push(',');
            r.push(' ');
        }
        let mut t = token_chars(n, Color::Red);
        r.append(&mut t);
        proof {
            assert(toks[emitted as int] == token_text(n, Color::Red));
            crate::text::lemma_join_push(toks.take(emitted as int), comma, toks[emitted as int]);
            assert(toks.take(emitted + 1) =~= toks.take(emitted as int).push(
                toks[emitted as int],
            ));
            if emitted == 0 {
                assert(r@ =~= join(toks.take(emitted + 1), comma));
            } else {
                assert(r@ =~= join(toks.take(emitted as int), comma) + comma
                    + toks[emitted as int]);
                assert(r@ == join(toks.take(emitted + 1), comma));
            }
        }
        emitted = emitted + 1;
    }
    if let Some(n) = d.green {
        if emitted > 0 {
            r.push(',');
            r.push(' ');
        }
        let mut t = token_chars(n, Color::Green);
        r.append(&mut t);
        proof {
            assert(toks[emitted as int] == token_text(n, Color::Green));
            crate::text::lemma_join_push(toks.take(emitted as int), comma, toks[emitted as int]);
            assert(toks.take(emitted + 1) =~= toks.take(emitted as int).push(
                toks[emitted as int],
            ));
            if emitted == 0 {
                assert(r@ =~= join(toks.take(emitted + 1), comma));
            } else {
                assert(r@ =~= join(toks.take(emitted as int), comma) + comma
                    + toks[emitted as int]);
                assert(r@ == join(toks.take(emitted + 1), comma));
            }
        }
        emitted = emitted + 1;
    }
    proof {
        assert(toks.take(emitted as int) =~= toks);
    }
    r
}

impl Game {
    /// The canonical line of this record: the prefix, the identifier,
    /// ": ", and the draw segments.
    pub fn to_line(&self) -> (r: Vec<char>)
        ensures
            r@ == game_line(self@),
    {
        let mut r: Vec<char> = Vec::new();
        r.push('G');
        r.push('a');
        r.push('m');
        r.push('e');
        r.push(' ');
        proof {
            assert(r@ =~= game_prefix());
        }
        let mut ds = crate::text::digits_of_exec(self.id);
        r.append(&mut ds);
        r.push(':');
        r.push(' ');
        let ghost head = game_prefix() + digits_of(self.id as int) + seq![':', ' '];
        let ghost semi = seq![';', ' '];
        let ghost parts = self.cubes@.map_values(|d: Cubes| draw_text(d));
        proof {
            assert(r@ =~= head);
            assert(parts.take(0) =~= Seq::<Seq<char>>::empty());
            assert(r@ =~= head + join(parts.take(0), semi));
        }
        let n = self.cubes.len();
        let mut i: usize = 0;
        while i < n
            invariant
                n == self.cubes@.len(),
                0 <= i <= n,
                head == game_prefix() + digits_of(self.id as int) + seq![':', ' '],
                semi == seq![';', ' '],
                parts == self.cubes@.map_values(|d: Cubes| draw_text(d)),
                parts.len() == n,
                r@ == head + join(parts.take(i as int), semi),
            decreases n - i,
        {
            if i > 0 {
                r.push(';');
                r.push(' ');
            }
            let mut seg = draw_to_text(&self.cubes[i]);
            r.append(&mut seg);
            proof {
                assert(parts[i as int] == draw_text(self.cubes@[i as int]));
                crate::text::lemma_join_push(parts.take(i as int), semi, parts[i as int]);
                assert(parts.take(i + 1) =~= parts.take(i as int).push(parts[i as int]));
                if i == 0 {
                    assert(r@ =~= head + join(parts.take(i + 1), semi));
                } else {
                    assert(r@ =~= head + (join(parts.take(i as int), semi) + semi
                        + parts[i as int]));
                    assert(r@ =~= head + join(parts.take(i + 1), semi));
                }
            }
            i += 1;
        }
        proof {
            assert(parts.take(n as int) =~= parts);
            assert(r@ =~= game_line(self@));
        }
        r
    }
}

/// Round trip: a record parsed from a line, re-serialized into its
/// canonical text, parses back to the same record.
pub proof fn lemma_round_trip(line: Seq<char>)
    ensures
        spec_parse_game(line) matches Some(m) ==> spec_parse_game(game_line(m)) == Some(m),
{
    if spec_parse_game(line) is Some {
        let m = spec_parse_game(line)->Some_0;
        lemma_parsed_has_draws(line);
        lemma_line_round_trip(m);
    }
}

} // verus!
