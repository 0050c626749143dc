//! The two aggregates over a parsed batch: the sum of identifiers of
//! feasible games, and the sum of per-game powers.

use vstd::prelude::*;

use crate::game::Color;
use crate::game::Cubes;
use crate::game::Game;
use crate::game::GameModel;
use crate::game::spec_get;
use crate::game::threshold;
use crate::views_of;

verus! {

/// An optional observed count stays within a limit; an absent one
/// imposes no constraint.
pub open spec fn count_ok(o: Option<usize>, limit: usize) -> bool {
    match o {
        Some(n) => n <= limit,
        None => true,
    }
}

/// Every count this draw names stays within its category's threshold.
/// A category the draw does not name imposes no constraint.
pub open spec fn draw_ok(d: Cubes) -> bool {
    forall|c: Color| count_ok(#[trigger] spec_get(d, c), threshold(c))
}

/// A record is feasible when every one of its draws stays within
/// every category's threshold.
pub open spec fn feasible(m: GameModel) -> bool {
    forall|i: int| 0 <= i < m.draws.len() ==> draw_ok(#[trigger] m.draws[i])
}

/// Sum of the identifiers of the feasible records, in order.
pub open spec fn feasibility_sum(ms: Seq<GameModel>) -> int
    decreases ms.len(),
{
    if ms.len() == 0 {
        0
    } else {
        feasibility_sum(ms.drop_last()) + if feasible(ms.last()) {
            ms.last().id as int
        } else {
            0
        }
    }
}

/// The largest count a record's draws observed for a category, zero
/// when the category was never observed.
pub open spec fn max_count(draws: Seq<Cubes>, c: Color) -> int
    decreases draws.len(),
{
    if draws.len() == 0 {
        0
    } else {
        let m = max_count(draws.drop_last(), c);
        match spec_get(draws.last(), c) {
            Some(n) => if n as int > m {
                n as int
            } else {
                m
            },
            None => m,
        }
    }
}

/// The power of a record: the product of its three category maxima.
pub open spec fn power(m: GameModel) -> int {
    max_count(m.draws, Color::Blue) * max_count(m.draws, Color::Red) * max_count(
        m.draws,
        Color::Green,
    )
}

/// Sum of the powers of the records, in order.
pub open spec fn power_sum(ms: Seq<GameModel>) -> int
    decreases ms.len(),
{
    if ms.len() == 0 {
        0
    } else {
        power_sum(ms.drop_last()) + power(ms.last())
    }
}

/// A category maximum is never negative.
pub proof fn lemma_max_count_nonneg(draws: Seq<Cubes>, c: Color)
    ensures
        max_count(draws, c) >= 0,
    decreases draws.len(),
{
    if draws.len() > 0 {
        lemma_max_count_nonneg(draws.drop_last(), c);
    }
}

/// A power is never negative.
pub proof fn lemma_power_nonneg(m: GameModel)
    ensures
        power(m) >= 0,
{
    lemma_max_count_nonneg(m.draws, Color::Blue);
    lemma_max_count_nonneg(m.draws, Color::Red);
    lemma_max_count_nonneg(m.draws, Color::Green);
    assert(power(m) >= 0) by (nonlinear_arith)
        requires
            max_count(m.draws, Color::Blue) >= 0,
            max_count(m.draws, Color::Red) >= 0,
            max_count(m.draws, Color::Green) >= 0,
    ;
}

/// Taking more records never shrinks the feasibility sum.
pub proof fn lemma_feasibility_sum_prefix_le(ms: Seq<GameModel>, i: int, j: int)
    requires
        0 <= i <= j <= ms.len(),
    ensures
        feasibility_sum(ms.take(i)) <= feasibility_sum(ms.take(j)),
    decreases j - i,
{
    if i < j {
        lemma_feasibility_sum_prefix_le(ms, i, j - 1);
        assert(ms.take(j).drop_last() =~= ms.take(j - 1));
    }
}

/// Taking more records never shrinks the power sum.
pub proof fn lemma_power_sum_prefix_le(ms: Seq<GameModel>, i: int, j: int)
    requires
        0 <= i <= j <= ms.len(),
    ensures
        power_sum(ms.take(i)) <= power_sum(ms.take(j)),
    decreases j - i,
{
    if i < j {
        lemma_power_sum_prefix_le(ms, i, j - 1);
        assert(ms.take(j).drop_last() =~= ms.take(j - 1));
        lemma_power_nonneg(ms.take(j).last());
    }
}

/// Whether every draw of `game` stays within every threshold.
fn is_feasible(game: &Game) -> (r: bool)
    ensures
        r == feasible(game@),
{
    let n = game.cubes.len();
    let mut i: usize = 0;
    while i < n
        invariant
            n == game.cubes@.len(),
            0 <= i <= n,
            forall|k: int| 0 <= k < i ==> draw_ok(#[trigger] game.cubes@[k]),
        decreases n - i,
    {
        let d = game.cubes[i];
        let over_blue = match d.blue {
            Some(v) => v > 14,
            None => false,
        };
        let over_red = match d.red {
            Some(v) => v > 12,
            None => false,
        };
        let over_green = match d.green {
            Some(v) => v > 13,
            None => false,
        };
        if over_blue || over_red || over_green {
            proof {
                assert(!draw_ok(d)) by {
                    if draw_ok(d) {
                        assert(count_ok(spec_get(d, Color::Blue), threshold(Color::Blue)));
                        assert(count_ok(spec_get(d, Color::Red), threshold(Color::Red)));
                        assert(count_ok(spec_get(d, Color::Green), threshold(Color::Green)));
                    }
                }
                assert(!feasible(game@)) by {
                    if feasible(game@) {
                        assert(draw_ok(game@.draws[i as int]));
                    }
                }
            }
            return false;
        }
        proof {
            assert(draw_ok(d)) by {
                assert forall|c: Color| count_ok(#[trigger] spec_get(d, c), threshold(c)) by {
                    match c {
                        Color::Blue => assert(spec_get(d, c) == d.blue),
                        Color::Red => assert(spec_get(d, c) == d.red),
                        Color::Green => assert(spec_get(d, c) == d.green),
                    }
                }
            }
        }
        i += 1;
    }
    proof {
        assert(feasible(game@));
    }
    true
}

/// Sum of the identifiers of the feasible games of the batch.  An
/// empty batch sums to zero.
pub fn part_1(games: &[Game]) -> (r: usize)
    requires
        feasibility_sum(views_of(games@)) <= usize::MAX,
    ensures
        r as int == feasibility_sum(views_of(games@)),
{
    let ghost ms = views_of(games@);
    let n = games.len();
    let mut total: usize = 0;
    let mut i: usize = 0;
    proof {
        assert(ms.take(0) =~= Seq::<GameModel>::empty());
    }
    while i < n
        invariant
            ms == views_of(games@),
            ms.len() == games@.len(),
            n == games@.len(),
            0 <= i <= n,
            total as int == feasibility_sum(ms.take(i as int)),
            feasibility_sum(ms) <= usize::MAX,
        decreases n - i,
    {
        let game = &games[i];
        proof {
            assert(ms[i as int] == games@[i as int]@);
            assert(ms.take(i + 1).drop_last() =~= ms.take(i as int));
            assert(ms.take(i + 1).last() == ms[i as int]);
            assert(ms.take(ms.len() as int) =~= ms);
            lemma_feasibility_sum_prefix_le(ms, i + 1, ms.len() as int);
        }
        if is_feasible(game) {
            total = total + game.id;
        }
        i += 1;
    }
    proof {
        assert(ms.take(n as int) =~= ms);
    }
    total
}

/// The three category maxima of one game, in enumeration order.
fn max_counts(game: &Game) -> (r: (usize, usize, usize))
    ensures
        r.0 as int == max_count(game@.draws, Color::Blue),
        r.1 as int == max_count(game@.draws, Color::Red),
        r.2 as int == max_count(game@.draws, Color::Green),
{
    let n = game.cubes.len();
    let mut mb: usize = 0;
    let mut mr: usize = 0;
    let mut mg: usize = 0;
    let mut i: usize = 0;
    proof {
        assert(game.cubes@.take(0) =~= Seq::<Cubes>::empty());
    }
    while i < n
        invariant
            n == game.cubes@.len(),
            0 <= i <= n,
            mb as int == max_count(game.cubes@.take(i as int), Color::Blue),
            mr as int == max_count(game.cubes@.take(i as int), Color::Red),
            mg as int == max_count(game.cubes@.take(i as int), Color::Green),
        decreases n - i,
    {
        let d = game.cubes[i];
        proof {
            assert(game.cubes@.take(i + 1).drop_last() =~= game.cubes@.take(i as int));
            assert(game.cubes@.take(i + 1).last() == game.cubes@[i as int]);
        }
        match d.blue {
            Some(v) => if v > mb {
                mb = v;
            },
            None => {},
        }
        match d.red {
            Some(v) => if v > mr {
                mr = v;
            },
            None => {},
        }
        match d.green {
            Some(v) => if v > mg {
                mg = v;
            },
            None => {},
        }
        i += 1;
    }
    proof {
        assert(game.cubes@.take(n as int) =~= game.cubes@);
    }
    (mb, mr, mg)
}

/// Sum of the powers of the games of the batch.  An empty batch sums
/// to zero.
pub fn part_2(games: &[Game]) -> (r: usize)
    requires
        power_sum(views_of(games@)) <= usize::MAX,
    ensures
        r as int == power_sum(views_of(games@)),
{
    let ghost ms = views_of(games@);
    let n = games.len();
    let mut total: usize = 0;
    let mut i: usize = 0;
    proof {
        assert(ms.take(0) =~= Seq::<GameModel>::empty());
    }
    while i < n
        invariant
            ms == views_of(games@),
            ms.len() == games@.len(),
            n == games@.len(),
            0 <= i <= n,
            total as int == power_sum(ms.take(i as int)),
            power_sum(ms) <= usize::MAX,
        decreases n - i,
    {
        let game = &games[i];
        proof {
            assert(ms[i as int] == games@[i as int]@);
            assert(ms.take(i + 1).drop_last() =~= ms.take(i as int));
            assert(ms.take(i + 1).last() == ms[i as int]);
            lemma_power_sum_prefix_le(ms, i + 1, ms.len() as int);
            assert(ms.take(ms.len() as int) =~= ms);
        }
        let (mb, mr, mg) = max_counts(game);
        let ghost m = ms[i as int];
        proof {
            assert(m == game@);
            assert(power_sum(ms.take(i + 1)) == power_sum(ms.take(i as int)) + power(m));
            lemma_power_sum_prefix_le(ms, 0, i as int);
            assert(power_sum(ms.take(0)) == 0);
            assert(power(m) <= usize::MAX);
        }
        proof {
            assert(power(m) == mb as int * mr as int * mg as int);
        }
        let p: usize;
        if mb == 0 || mr == 0 || mg == 0 {
            p = 0;
            proof {
                assert(power(m) == 0) by (nonlinear_arith)
                    requires
                        power(m) == mb as int * mr as int * mg as int,
                        mb == 0 || mr == 0 || mg == 0,
                ;
            }
        } else {
            proof {
                assert(mb as int * mr as int <= power(m)) by (nonlinear_arith)
                    requires
                        power(m) == mb as int * mr as int * mg as int,
                        mb >= 1,
                        mr >= 1,
                        mg >= 1,
                ;
            }
            let q = mb * mr;
            p = q * mg;
        }
        total = total + p;
        i += 1;
    }
    proof {
        assert(ms.take(n as int) =~= ms);
    }
    total
}

/// Both aggregates of an empty batch are zero.
pub proof fn lemma_empty_batch()
    ensures
        feasibility_sum(Seq::<GameModel>::empty()) == 0,
        power_sum(Seq::<GameModel>::empty()) == 0,
{
}

/// A record with no draws has every category maximum equal to zero,
/// so it contributes no power to the sum.
pub proof fn lemma_no_draws_power(m: GameModel)
    requires
        m.draws.len() == 0,
    ensures
        forall|c: Color| max_count(m.draws, c) == 0,
        power(m) == 0,
{
    assert(forall|c: Color| max_count(m.draws, c) == 0);
}

/// A record whose only draw observed nothing also has every category
/// maximum equal to zero, and contributes no power.
pub proof fn lemma_empty_draw_power(m: GameModel)
    requires
        m.draws == seq![crate::game::empty_cubes()],
    ensures
        forall|c: Color| max_count(m.draws, c) == 0,
        power(m) == 0,
{
    assert forall|c: Color| max_count(m.draws, c) == 0 by {
        assert(m.draws.drop_last() =~= Seq::<Cubes>::empty());
        assert(m.draws.last() == crate::game::empty_cubes());
        match c {
            Color::Blue => assert(spec_get(m.draws.last(), c) is None),
            Color::Red => assert(spec_get(m.draws.last(), c) is None),
            Color::Green => assert(spec_get(m.draws.last(), c) is None),
        }
        assert(max_count(Seq::<Cubes>::empty(), c) == 0);
        assert(max_count(m.draws.drop_last(), c) == 0);
        assert(max_count(m.draws, c) == max_count(m.draws.drop_last(), c));
    }
}

} // verus!
