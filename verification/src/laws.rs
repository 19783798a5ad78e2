//! Properties that span the operations of the library.

use vstd::prelude::*;

use crate::draw::{
    all_played, games_scored, is_bye_game, max_round, recorded_game, recorded_round, round_positions, row_games,
    teams_made_even, unplayed_message,
};
use crate::game::{row_game, scheduled_game, GameRow, GameView};
use crate::matchups::{
    distinct_in_order, last_index_of, meetings, named_teams, names_cover, pairs_upto, row_pairs, scheduled_for,
    team_names,
};
use crate::strength::{involvement, is_strength_system, rated_games, ratings, StrengthSystem};
use crate::team::{bye_name, bye_team_view, TeamView};

verus! {

/// Two teams have met each other exactly as often as the other way round:
/// the table of earlier meetings is symmetric.
pub proof fn law_meetings_symmetric(names: Seq<Seq<char>>, games: Seq<GameView>, i: int, j: int)
    ensures
        meetings(names, games, i, j) == meetings(names, games, j, i),
    decreases games.len(),
{
    if games.len() > 0 {
        law_meetings_symmetric(names, games.drop_last(), i, j);
    }
}

/// The teams found in games are listed once each, and a name is listed
/// exactly when some game names it.
pub proof fn law_distinct_in_order(s: Seq<Seq<char>>)
    ensures
        forall|a: int, b: int|
            0 <= a < b < distinct_in_order(s).len() ==> distinct_in_order(s)[a] != distinct_in_order(s)[b],
        forall|x: Seq<char>| s.contains(x) <==> distinct_in_order(s).contains(x),
    decreases s.len(),
{
    if s.len() > 0 {
        let init = s.drop_last();
        law_distinct_in_order(init);
        let p = distinct_in_order(init);
        let d = distinct_in_order(s);
        assert forall|x: Seq<char>| p.contains(x) implies d.contains(x) by {
            let k = choose|k: int| 0 <= k < p.len() && p[k] == x;
            assert(d[k] == x);
        }
        assert forall|x: Seq<char>| s.contains(x) <==> d.contains(x) by {
            if s.contains(x) {
                let k = choose|k: int| 0 <= k < s.len() && s[k] == x;
                if k < s.len() - 1 {
                    assert(init[k] == x);
                    assert(init.contains(x));
                    assert(p.contains(x));
                } else if !p.contains(s.last()) {
                    assert(d[p.len() as int] == x);
                }
            }
            if d.contains(x) {
                let k = choose|k: int| 0 <= k < d.len() && d[k] == x;
                if k < p.len() {
                    assert(p[k] == x);
                    assert(p.contains(x));
                    assert(init.contains(x));
                    let m = choose|m: int| 0 <= m < init.len() && init[m] == x;
                    assert(s[m] == x);
                } else {
                    assert(s[s.len() - 1] == x);
                }
            }
        }
        if !p.contains(s.last()) {
            assert forall|a: int, b: int|
                0 <= a < b < distinct_in_order(s).len() implies distinct_in_order(s)[a] != distinct_in_order(
                s,
            )[b] by {
                if b == p.len() {
                    assert(distinct_in_order(s)[a] == p[a]);
                }
            }
        }
    }
}

/// Entering scores keeps the games, their order and their identifiers;
/// every game with the entered identifier is played with the entered
/// scores afterwards, and the other games are untouched.
pub proof fn law_scores_entered(games: Seq<GameView>, id: int, team_a_score: int, team_b_score: int)
    ensures
        games_scored(games, id, team_a_score, team_b_score).len() == games.len(),
        forall|k: int|
            0 <= k < games.len() ==> {
                let after = #[trigger] games_scored(games, id, team_a_score, team_b_score)[k];
                &&& after.id == games[k].id
                &&& after.team_a == games[k].team_a
                &&& after.team_b == games[k].team_b
                &&& after.round == games[k].round
                &&& after.field == games[k].field
                &&& after.streamed == games[k].streamed
                &&& games[k].id == id ==> after.played && after.team_a_score == team_a_score
                    && after.team_b_score == team_b_score
                &&& games[k].id != id ==> after == games[k]
            },
{
}

/// Entering the same scores twice has the effect of entering them once.
pub proof fn law_scores_entered_twice(games: Seq<GameView>, id: int, team_a_score: int, team_b_score: int)
    ensures
        games_scored(games_scored(games, id, team_a_score, team_b_score), id, team_a_score, team_b_score)
            == games_scored(games, id, team_a_score, team_b_score),
{
    assert(games_scored(games_scored(games, id, team_a_score, team_b_score), id, team_a_score, team_b_score)
        =~= games_scored(games, id, team_a_score, team_b_score));
}

/// Once every game of a draw is scored, every game is played.
pub proof fn law_all_scored_all_played(games: Seq<GameView>, id: int, team_a_score: int, team_b_score: int)
    requires
        forall|k: int| 0 <= k < games.len() ==> (#[trigger] games[k]).played || games[k].id == id,
    ensures
        all_played(games_scored(games, id, team_a_score, team_b_score)),
{
}

/// Making a draw ready for pairing leaves an even number of teams, adds at
/// most the stand-in team, and doing it again changes nothing.
pub proof fn law_teams_made_even(teams: Seq<TeamView>)
    ensures
        teams_made_even(teams).len() % 2 == 0,
        teams_made_even(teams) == teams || teams_made_even(teams) == teams.push(bye_team_view()),
        teams_made_even(teams_made_even(teams)) == teams_made_even(teams),
{
}

/// The games of a new round are all in that round, on fields 1, 2, 3, ...
/// (so no two of them share a field), and those against the stand-in team
/// are already played.
pub proof fn law_recorded_round(games: Seq<GameView>, round: int)
    ensures
        recorded_round(games, round).len() == games.len(),
        forall|k: int|
            0 <= k < games.len() ==> {
                let g = #[trigger] recorded_round(games, round)[k];
                &&& g.round == round
                &&& g.field == k + 1
                &&& g.team_a == games[k].team_a
                &&& g.team_b == games[k].team_b
                &&& g.id == games[k].id
                &&& is_bye_game(games[k]) ==> g.played && g.team_a_score == 0 && g.team_b_score == 0
                    && !g.streamed
                &&& !is_bye_game(games[k]) ==> g.played == games[k].played && g.streamed == games[k].streamed
                    && g.team_a_score == games[k].team_a_score && g.team_b_score == games[k].team_b_score
            },
        forall|a: int, b: int|
            0 <= a < b < games.len() ==> #[trigger] recorded_round(games, round)[a].field
                != #[trigger] recorded_round(games, round)[b].field,
{
    assert forall|k: int| 0 <= k < games.len() implies #[trigger] recorded_round(games, round)[k]
        == recorded_game(games[k], round, k + 1) by {}
}

/// The round of a reloaded draw is at least the round of every game, and
/// it is either 0 or the round of one of its games.
pub proof fn law_max_round(games: Seq<GameView>)
    ensures
        max_round(games) >= 0,
        forall|k: int| 0 <= k < games.len() ==> (#[trigger] games[k]).round <= max_round(games),
        max_round(games) == 0 || exists|k: int| 0 <= k < games.len() && (#[trigger] games[k]).round == max_round(games),
    decreases games.len(),
{
    if games.len() > 0 {
        let init = games.drop_last();
        law_max_round(init);
        assert forall|k: int| 0 <= k < games.len() implies (#[trigger] games[k]).round <= max_round(games) by {
            if k < games.len() - 1 {
                assert(games[k] == init[k]);
            }
        }
        if max_round(games) != 0 {
            if games.last().round > max_round(init) {
                assert(games[games.len() - 1].round == max_round(games));
            } else {
                let k = choose|k: int| 0 <= k < init.len() && (#[trigger] init[k]).round == max_round(init);
                assert(games[k] == init[k]);
            }
        }
    }
}

/// Games against the stand-in team never count towards the ratings, and
/// every game that counts comes from the draw.
pub proof fn law_rated_games(games: Seq<GameView>)
    ensures
        rated_games(games).len() <= games.len(),
        forall|k: int| 0 <= k < rated_games(games).len() ==> !is_bye_game(#[trigger] rated_games(games)[k]),
        forall|k: int| 0 <= k < rated_games(games).len() ==> games.contains(#[trigger] rated_games(games)[k]),
    decreases games.len(),
{
    if games.len() > 0 {
        let init = games.drop_last();
        law_rated_games(init);
        assert forall|k: int| 0 <= k < rated_games(games).len() implies games.contains(
            #[trigger] rated_games(games)[k],
        ) by {
            if k < rated_games(init).len() {
                assert(rated_games(games)[k] == rated_games(init)[k]);
                let m = choose|m: int| 0 <= m < init.len() && init[m] == rated_games(init)[k];
                assert(games[m] == init[m]);
            } else {
                assert(games[games.len() - 1] == rated_games(games)[k]);
            }
        }
    }
}

proof fn lemma_row_pairs(row: Seq<bool>, i: int, hi: int)
    ensures
        forall|k: int|
            0 <= k < row_pairs(row, i, hi).len() ==> (#[trigger] row_pairs(row, i, hi)[k]).0 == i && i
                < row_pairs(row, i, hi)[k].1 < hi,
    decreases hi - i,
{
    if hi > i + 1 {
        lemma_row_pairs(row, i, hi - 1);
        let p = row_pairs(row, i, hi - 1);
        assert forall|k: int| 0 <= k < row_pairs(row, i, hi).len() implies (#[trigger] row_pairs(
            row,
            i,
            hi,
        )[k]).0 == i && i < row_pairs(row, i, hi)[k].1 < hi by {
            if k < p.len() {
                assert(row_pairs(row, i, hi)[k] == p[k]);
            }
        }
    }
}

/// Every game of a pairing is between two different teams of the draw,
/// the first listed before the second.
pub proof fn law_pairs_ordered(paired: Seq<Seq<bool>>, k: int)
    requires
        k <= paired.len(),
    ensures
        forall|m: int|
            0 <= m < pairs_upto(paired, k).len() ==> 0 <= (#[trigger] pairs_upto(paired, k)[m]).0 < pairs_upto(
                paired,
                k,
            )[m].1 < paired.len() && pairs_upto(paired, k)[m].0 < k,
    decreases k,
{
    if k > 0 {
        law_pairs_ordered(paired, k - 1);
        let p = pairs_upto(paired, k - 1);
        let r = row_pairs(paired[k - 1], k - 1, paired.len() as int);
        lemma_row_pairs(paired[k - 1], k - 1, paired.len() as int);
        assert forall|m: int| 0 <= m < pairs_upto(paired, k).len() implies 0 <= (#[trigger] pairs_upto(
            paired,
            k,
        )[m]).0 < pairs_upto(paired, k)[m].1 < paired.len() && pairs_upto(paired, k)[m].0 < k by {
            if m < p.len() {
                assert(pairs_upto(paired, k)[m] == p[m]);
            } else {
                assert(pairs_upto(paired, k)[m] == r[m - p.len()]);
            }
        }
    }
}

/// Recording a round of freshly paired (unplayed) games makes the draw
/// refuse the next pairing until those games are scored, unless every one
/// of them is against the stand-in team.
pub proof fn law_new_round_blocks_pairing(earlier: Seq<GameView>, paired: Seq<GameView>, round: int)
    requires
        forall|k: int| 0 <= k < paired.len() ==> !(#[trigger] paired[k]).played,
    ensures
        all_played(earlier + recorded_round(paired, round)) <==> (all_played(earlier) && forall|k: int|
            0 <= k < paired.len() ==> is_bye_game(#[trigger] paired[k])),
{
    let all = earlier + recorded_round(paired, round);
    if all_played(all) {
        assert forall|k: int| 0 <= k < earlier.len() implies #[trigger] earlier[k].played by {
            assert(all[k] == earlier[k]);
        }
        assert forall|k: int| 0 <= k < paired.len() implies is_bye_game(#[trigger] paired[k]) by {
            assert(all[earlier.len() + k] == recorded_round(paired, round)[k]);
            assert(all[earlier.len() + k].played);
        }
    }
    if all_played(earlier) && forall|k: int| 0 <= k < paired.len() ==> is_bye_game(#[trigger] paired[k]) {
        assert forall|k: int| 0 <= k < all.len() implies #[trigger] all[k].played by {
            if k >= earlier.len() {
                assert(all[k] == recorded_round(paired, round)[k - earlier.len()]);
                assert(is_bye_game(paired[k - earlier.len()]));
            }
        }
    }
}

/// Once the draw has been made ready for pairing, its rating problem has
/// no stand-in team to append.
pub proof fn law_even_draw_rates_without_bye(sys: StrengthSystem, teams: Seq<TeamView>, games: Seq<GameView>)
    requires
        is_strength_system(sys, teams_made_even(teams), games),
    ensures
        !sys.bye,
{
    law_teams_made_even(teams);
}

/// The matched pairs of a row are exactly the positions `j` after `i` and
/// before `hi` whose entry is set, listed by increasing `j`.
pub proof fn law_row_pairs_exact(row: Seq<bool>, i: int, hi: int)
    ensures
        forall|x: int, y: int|
            #[trigger] row_pairs(row, i, hi).contains((x, y)) <==> (x == i && i < y < hi && row[y]),
        forall|a: int, b: int|
            0 <= a < b < row_pairs(row, i, hi).len() ==> (#[trigger] row_pairs(row, i, hi)[a]).1 < (
            #[trigger] row_pairs(row, i, hi)[b]).1,
        forall|a: int|
            0 <= a < row_pairs(row, i, hi).len() ==> (#[trigger] row_pairs(row, i, hi)[a]).0 == i && i
                < row_pairs(row, i, hi)[a].1 < hi,
    decreases hi - i,
{
    if hi > i + 1 {
        law_row_pairs_exact(row, i, hi - 1);
        let p = row_pairs(row, i, hi - 1);
        let tail: Seq<(int, int)> = if row[hi - 1] { seq![(i, hi - 1)] } else { Seq::empty() };
        let r = row_pairs(row, i, hi);
        assert(r == p + tail);
        assert forall|a: int| 0 <= a < r.len() implies (#[trigger] r[a]).0 == i && i < r[a].1 < hi by {
            if a < p.len() {
                assert(r[a] == p[a]);
            } else {
                assert(r[a] == tail[a - p.len()]);
            }
        }
        assert forall|a: int, b: int| 0 <= a < b < r.len() implies (#[trigger] r[a]).1 < (#[trigger] r[b]).1 by {
            if b < p.len() {
                assert(r[a] == p[a] && r[b] == p[b]);
            } else {
                assert(r[b] == tail[b - p.len()]);
                assert(r[a] == p[a]);
            }
        }
        assert forall|x: int, y: int| #[trigger] r.contains((x, y)) <==> (x == i && i < y < hi && row[y]) by {
            if r.contains((x, y)) {
                let a = choose|a: int| 0 <= a < r.len() && r[a] == (x, y);
                if a < p.len() {
                    assert(r[a] == p[a]);
                    assert(p.contains((x, y)));
                } else {
                    assert(r[a] == tail[a - p.len()]);
                }
            }
            if x == i && i < y < hi && row[y] {
                if y < hi - 1 {
                    assert(p.contains((x, y)));
                    let a = choose|a: int| 0 <= a < p.len() && p[a] == (x, y);
                    assert(r[a] == p[a]);
                } else {
                    assert(r[p.len() as int] == (x, y));
                }
            }
        }
    } else {
        assert forall|x: int, y: int| #[trigger] row_pairs(row, i, hi).contains((x, y)) <==> (x == i && i < y
            < hi && row[y]) by {
            if row_pairs(row, i, hi).contains((x, y)) {
                let a = choose|a: int| 0 <= a < row_pairs(row, i, hi).len() && row_pairs(row, i, hi)[a] == (x, y);
            }
        }
    }
}

/// The pairs of a pairing matrix are exactly the positions `(i, j)` with
/// `i < j` whose entry is set (for `i` among the first `k` rows), each
/// listed once, in row-major order; so the games made from them are one per
/// set entry above the diagonal.
pub proof fn law_pairs_upto_exact(paired: Seq<Seq<bool>>, k: int)
    requires
        0 <= k <= paired.len(),
    ensures
        forall|i: int, j: int|
            #[trigger] pairs_upto(paired, k).contains((i, j)) <==> (0 <= i < k && i < j < paired.len()
                && paired[i][j]),
        forall|a: int, b: int|
            0 <= a < b < pairs_upto(paired, k).len() ==> {
                let p = #[trigger] pairs_upto(paired, k)[a];
                let q = #[trigger] pairs_upto(paired, k)[b];
                p.0 < q.0 || (p.0 == q.0 && p.1 < q.1)
            },
        forall|a: int| 0 <= a < pairs_upto(paired, k).len() ==> 0 <= (#[trigger] pairs_upto(paired, k)[a]).0 < k,
    decreases k,
{
    let n = paired.len() as int;
    if k > 0 {
        law_pairs_upto_exact(paired, k - 1);
        law_row_pairs_exact(paired[k - 1], k - 1, n);
        let p = pairs_upto(paired, k - 1);
        let r = row_pairs(paired[k - 1], k - 1, n);
        let u = pairs_upto(paired, k);
        assert(u == p + r);
        assert forall|a: int| 0 <= a < u.len() implies 0 <= (#[trigger] u[a]).0 < k by {
            if a < p.len() {
                assert(u[a] == p[a]);
            } else {
                assert(u[a] == r[a - p.len()]);
            }
        }
        assert forall|a: int, b: int| 0 <= a < b < u.len() implies {
            let x = #[trigger] u[a];
            let y = #[trigger] u[b];
            x.0 < y.0 || (x.0 == y.0 && x.1 < y.1)
        } by {
            if b < p.len() {
                assert(u[a] == p[a] && u[b] == p[b]);
            } else if a < p.len() {
                assert(u[a] == p[a] && u[b] == r[b - p.len()]);
            } else {
                assert(u[a] == r[a - p.len()] && u[b] == r[b - p.len()]);
            }
        }
        assert forall|i: int, j: int| #[trigger] u.contains((i, j)) <==> (0 <= i < k && i < j < n && paired[i][j]) by {
            if u.contains((i, j)) {
                let a = choose|a: int| 0 <= a < u.len() && u[a] == (i, j);
                if a < p.len() {
                    assert(u[a] == p[a]);
                    assert(p.contains((i, j)));
                } else {
                    assert(u[a] == r[a - p.len()]);
                    assert(r.contains((i, j)));
                }
            }
            if 0 <= i < k && i < j < n && paired[i][j] {
                if i < k - 1 {
                    assert(p.contains((i, j)));
                    let a = choose|a: int| 0 <= a < p.len() && p[a] == (i, j);
                    assert(u[a] == p[a]);
                } else {
                    assert(r.contains((i, j)));
                    let a = choose|a: int| 0 <= a < r.len() && r[a] == (i, j);
                    assert(u[p.len() + a] == r[a]);
                }
            }
        }
    } else {
        assert forall|i: int, j: int| #[trigger] pairs_upto(paired, k).contains((i, j)) <==> (0 <= i < k && i < j
            < n && paired[i][j]) by {
            if pairs_upto(paired, k).contains((i, j)) {
                let a = choose|a: int| 0 <= a < pairs_upto(paired, k).len() && pairs_upto(paired, k)[a] == (i, j);
            }
        }
    }
}

/// A team is found by the last position holding its name: that position
/// holds the name and no later one does; -1 exactly when no position holds
/// it.
pub proof fn law_last_index_of(names: Seq<Seq<char>>, name: Seq<char>)
    ensures
        -1 <= last_index_of(names, name) < names.len(),
        last_index_of(names, name) >= 0 ==> names[last_index_of(names, name)] == name,
        names.contains(name) <==> last_index_of(names, name) >= 0,
        forall|k: int| last_index_of(names, name) < k < names.len() ==> names[k] != name,
    decreases names.len(),
{
    if names.len() > 0 {
        law_last_index_of(names.drop_last(), name);
        if names.last() != name {
            if names.contains(name) {
                let k = choose|k: int| 0 <= k < names.len() && names[k] == name;
                assert(names.drop_last()[k] == name);
            }
            if names.drop_last().contains(name) {
                let k = choose|k: int| 0 <= k < names.len() - 1 && names.drop_last()[k] == name;
                assert(names[k] == name);
            }
            assert forall|k: int| last_index_of(names, name) < k < names.len() implies names[k] != name by {
                if k < names.len() - 1 {
                    assert(names[k] == names.drop_last()[k]);
                }
            }
        } else {
            assert(names.contains(name)) by {
                assert(names[names.len() - 1] == name);
            }
        }
    }
}

/// One more game adds one meeting at (first team, second team) and one at
/// (second team, first team), whatever the game is (a game against the
/// stand-in team included), and nothing elsewhere.
pub proof fn law_meetings_push(names: Seq<Seq<char>>, games: Seq<GameView>, g: GameView, i: int, j: int)
    ensures
        meetings(names, games.push(g), i, j) == meetings(names, games, i, j) + (if last_index_of(names, g.team_a)
            == i && last_index_of(names, g.team_b) == j {
            1int
        } else {
            0int
        }) + (if last_index_of(names, g.team_b) == i && last_index_of(names, g.team_a) == j {
            1int
        } else {
            0int
        }),
{
    assert(games.push(g).drop_last() =~= games);
}

/// The meetings at `(i, j)` are the games, of all games, whose first team
/// is found at `i` and second at `j`, plus those whose first team is found
/// at `j` and second at `i`.
pub proof fn law_meetings_counts(names: Seq<Seq<char>>, games: Seq<GameView>, i: int, j: int)
    ensures
        meetings(names, games, i, j) == games.filter(
            |g: GameView| last_index_of(names, g.team_a) == i && last_index_of(names, g.team_b) == j,
        ).len() + games.filter(
            |g: GameView| last_index_of(names, g.team_b) == i && last_index_of(names, g.team_a) == j,
        ).len(),
    decreases games.len(),
{
    let f1 = |g: GameView| last_index_of(names, g.team_a) == i && last_index_of(names, g.team_b) == j;
    let f2 = |g: GameView| last_index_of(names, g.team_b) == i && last_index_of(names, g.team_a) == j;
    if games.len() == 0 {
        reveal(Seq::filter);
    } else {
        let init = games.drop_last();
        let g = games.last();
        law_meetings_counts(names, init, i, j);
        assert(games =~= init.push(g));
        init.lemma_filter_push(g, f1);
        init.lemma_filter_push(g, f2);
    }
}

/// The games that count towards the ratings are exactly the games not
/// against the stand-in team, in their order, whatever their scores.
pub proof fn law_rated_games_are_non_bye_games(games: Seq<GameView>)
    ensures
        rated_games(games) == games.filter(|g: GameView| !is_bye_game(g)),
    decreases games.len(),
{
    let f = |g: GameView| !is_bye_game(g);
    if games.len() == 0 {
        reveal(Seq::filter);
    } else {
        let init = games.drop_last();
        law_rated_games_are_non_bye_games(init);
        assert(games =~= init.push(games.last()));
        init.lemma_filter_push(games.last(), f);
    }
}

/// The games recorded for results rows keep each row's teams in their
/// places with their own scores; the round is the row's (1 when it has
/// none), the field 1, the game played and not streamed, and the
/// identifiers run on from `first_id`.
pub proof fn law_row_games(rows: Seq<GameRow>, first_id: int)
    ensures
        row_games(rows, first_id).len() == rows.len(),
        forall|k: int|
            0 <= k < rows.len() ==> {
                let g = #[trigger] row_games(rows, first_id)[k];
                &&& g.id == first_id + k
                &&& g.team_a == rows[k].team_a@
                &&& g.team_b == rows[k].team_b@
                &&& g.team_a_score == rows[k].team_a_score
                &&& g.team_b_score == rows[k].team_b_score
                &&& g.round == (match rows[k].round {
                    Some(r) => r as int,
                    None => 1,
                })
                &&& g.field == 1
                &&& g.played
                &&& !g.streamed
            },
{
}

/// The game recorded for one results row keeps the row's first team first
/// and its second team second, each with its own score.
pub proof fn law_row_game(row: GameRow, id: int)
    ensures
        row_game(row, id).id == id,
        row_game(row, id).team_a == row.team_a@,
        row_game(row, id).team_b == row.team_b@,
        row_game(row, id).team_a_score == row.team_a_score,
        row_game(row, id).team_b_score == row.team_b_score,
        row.round is None ==> row_game(row, id).round == 1,
        row.round is Some ==> row_game(row, id).round == row.round->0,
        row_game(row, id).played,
{
}

/// A newly scheduled game is in round 0 on the given field between the
/// given teams, 0 to 0, unplayed and not streamed.
pub proof fn law_scheduled_game(id: int, field: int, team_a: Seq<char>, team_b: Seq<char>)
    ensures
        scheduled_game(id, field, team_a, team_b).id == id,
        scheduled_game(id, field, team_a, team_b).round == 0,
        scheduled_game(id, field, team_a, team_b).field == field,
        scheduled_game(id, field, team_a, team_b).team_a == team_a,
        scheduled_game(id, field, team_a, team_b).team_b == team_b,
        scheduled_game(id, field, team_a, team_b).team_a_score == 0,
        scheduled_game(id, field, team_a, team_b).team_b_score == 0,
        !scheduled_game(id, field, team_a, team_b).played,
        !scheduled_game(id, field, team_a, team_b).streamed,
{
}

/// The positions listed for a round are exactly the positions of the games
/// in that round, played or not, in increasing order.
pub proof fn law_round_positions(games: Seq<GameView>, round: int)
    ensures
        forall|p: int| #[trigger] round_positions(games, round).contains(p) <==> (0 <= p < games.len()
            && games[p].round == round),
        forall|a: int, b: int|
            0 <= a < b < round_positions(games, round).len() ==> #[trigger] round_positions(games, round)[a]
                < #[trigger] round_positions(games, round)[b],
        forall|a: int|
            0 <= a < round_positions(games, round).len() ==> 0 <= #[trigger] round_positions(games, round)[a]
                < games.len(),
    decreases games.len(),
{
    let r = round_positions(games, round);
    if games.len() == 0 {
        assert forall|p: int| #[trigger] r.contains(p) <==> (0 <= p < games.len() && games[p].round == round) by {
            if r.contains(p) {
                let a = choose|a: int| 0 <= a < r.len() && r[a] == p;
            }
        }
    } else {
        let init = games.drop_last();
        law_round_positions(init, round);
        let e = round_positions(init, round);
        let n = games.len() - 1;
        assert forall|a: int| 0 <= a < r.len() implies 0 <= #[trigger] r[a] < games.len() by {
            if a < e.len() {
                assert(r[a] == e[a]);
            }
        }
        assert forall|a: int, b: int| 0 <= a < b < r.len() implies #[trigger] r[a] < #[trigger] r[b] by {
            assert(r[a] == e[a]);
            if b < e.len() {
                assert(r[b] == e[b]);
            }
        }
        assert forall|p: int| #[trigger] r.contains(p) <==> (0 <= p < games.len() && games[p].round == round) by {
            if r.contains(p) {
                let a = choose|a: int| 0 <= a < r.len() && r[a] == p;
                if a < e.len() {
                    assert(r[a] == e[a]);
                    assert(e.contains(p));
                    assert(games[p] == init[p]);
                }
            }
            if 0 <= p < games.len() && games[p].round == round {
                if p < n {
                    assert(init[p] == games[p]);
                    assert(e.contains(p));
                    let a = choose|a: int| 0 <= a < e.len() && e[a] == p;
                    assert(r[a] == e[a]);
                } else {
                    assert(r[e.len() as int] == p);
                }
            }
        }
    }
}

/// The stand-in team is called `_BYE_`, has id 0 and rating 0.0 (bit
/// pattern 0); a game is against it exactly when either team has that name.
pub proof fn law_bye_team(g: GameView)
    ensures
        bye_name() == seq!['_', 'B', 'Y', 'E', '_'],
        bye_team_view() == (TeamView { id: 0, name: seq!['_', 'B', 'Y', 'E', '_'], rank_bits: 0 }),
        is_bye_game(g) <==> (g.team_a == seq!['_', 'B', 'Y', 'E', '_'] || g.team_b == seq![
            '_',
            'B',
            'Y',
            'E',
            '_',
        ]),
{
}

/// A draw with unplayed games is refused with the message
/// "Not all games have been played".
pub proof fn law_refusal_message()
    ensures
        unplayed_message() == seq![
            'N', 'o', 't', ' ', 'a', 'l', 'l', ' ', 'g', 'a', 'm', 'e', 's', ' ', 'h', 'a', 'v', 'e', ' ',
            'b', 'e', 'e', 'n', ' ', 'p', 'l', 'a', 'y', 'e', 'd',
        ],
{
}

/// No games are all played, and one more game keeps every game played
/// exactly when it is played itself.
pub proof fn law_all_played_push(games: Seq<GameView>, g: GameView)
    ensures
        all_played(Seq::<GameView>::empty()),
        all_played(games.push(g)) <==> (all_played(games) && g.played),
{
    if all_played(games.push(g)) {
        assert(games.push(g)[games.len() as int] == g);
        assert forall|k: int| 0 <= k < games.len() implies #[trigger] games[k].played by {
            assert(games.push(g)[k] == games[k]);
        }
    }
    if all_played(games) && g.played {
        assert forall|k: int| 0 <= k < games.push(g).len() implies #[trigger] games.push(g)[k].played by {
            if k < games.len() {
                assert(games.push(g)[k] == games[k]);
            }
        }
    }
}

/// A game involves a team +1 when the team plays first, -1 when it plays
/// second, and 0 when it does not play or plays both sides.
pub proof fn law_involvement(g: GameView, name: Seq<char>)
    ensures
        name == g.team_a && name != g.team_b ==> involvement(g, name) == 1,
        name == g.team_b && name != g.team_a ==> involvement(g, name) == -1,
        name != g.team_a && name != g.team_b ==> involvement(g, name) == 0,
        name == g.team_a && name == g.team_b ==> involvement(g, name) == 0,
{
}

/// The ratings keep each team's identifier and name in the order of the
/// team list with its own solved rating, followed by the stand-in team
/// exactly when there is one.
pub proof fn law_ratings(teams: Seq<TeamView>, rank_bits: Seq<u64>, bye: bool)
    ensures
        ratings(teams, rank_bits, bye).len() == teams.len() + (if bye { 1int } else { 0int }),
        forall|k: int|
            0 <= k < teams.len() ==> {
                let t = #[trigger] ratings(teams, rank_bits, bye)[k];
                t.id == teams[k].id && t.name == teams[k].name && t.rank_bits == rank_bits[k]
            },
        bye ==> ratings(teams, rank_bits, bye)[teams.len() as int] == bye_team_view(),
{
}

/// Teams cover no games trivially, and cover one more game exactly when
/// both of its teams are among them.
pub proof fn law_names_cover_push(names: Seq<Seq<char>>, games: Seq<GameView>, g: GameView)
    ensures
        names_cover(names, Seq::<GameView>::empty()),
        names_cover(names, games.push(g)) ==> names_cover(names, games) && names.contains(g.team_a)
            && names.contains(g.team_b),
        names_cover(names, games) && names.contains(g.team_a) && names.contains(g.team_b) ==> names_cover(
            names,
            games.push(g),
        ),
{
    if names_cover(names, games.push(g)) {
        assert(games.push(g)[games.len() as int] == g);
        assert(names.contains(games.push(g)[games.len() as int].team_a));
        assert(names.contains(games.push(g)[games.len() as int].team_b));
        assert forall|k: int| 0 <= k < games.len() implies names.contains(#[trigger] games[k].team_a)
            && names.contains(games[k].team_b) by {
            assert(games.push(g)[k] == games[k]);
        }
    }
    if names_cover(names, games) && names.contains(g.team_a) && names.contains(g.team_b) {
        let ng = games.push(g);
        assert forall|k: int| 0 <= k < ng.len() implies names.contains(#[trigger] ng[k].team_a) && names.contains(
            ng[k].team_b,
        ) by {
            if k < games.len() {
                assert(ng[k] == games[k]);
                assert(names.contains(games[k].team_a));
            } else {
                assert(ng[k] == g);
            }
        }
        assert(names_cover(names, ng));
    }
}

/// The names of the teams are the teams' names, one per team, in order.
pub proof fn law_team_names(teams: Seq<TeamView>)
    ensures
        team_names(teams).len() == teams.len(),
        forall|k: int| 0 <= k < teams.len() ==> #[trigger] team_names(teams)[k] == teams[k].name,
{
}

/// The games made for a list of pairs are one per pair, in order, each
/// between the first team of the pair and the second, in round 0, unplayed.
pub proof fn law_scheduled_for(games: Seq<GameView>, names: Seq<Seq<char>>, pairs: Seq<(int, int)>)
    requires
        scheduled_for(games, names, pairs),
    ensures
        games.len() == pairs.len(),
        forall|k: int|
            0 <= k < pairs.len() ==> {
                let g = #[trigger] games[k];
                &&& g.team_a == names[pairs[k].0]
                &&& g.team_b == names[pairs[k].1]
                &&& g.round == 0
                &&& g.field == 0
                &&& !g.played
                &&& !g.streamed
                &&& g.team_a_score == 0
                &&& g.team_b_score == 0
            },
{
    assert forall|k: int| 0 <= k < pairs.len() implies {
        let g = #[trigger] games[k];
        &&& g.team_a == names[pairs[k].0]
        &&& g.team_b == names[pairs[k].1]
        &&& g.round == 0
        &&& g.field == 0
        &&& !g.played
        &&& !g.streamed
        &&& g.team_a_score == 0
        &&& g.team_b_score == 0
    } by {
        assert(games[k] == scheduled_game(games[k].id, 0, names[pairs[k].0], names[pairs[k].1]));
    }
}

/// The names in games are every first team of the games, in order,
/// followed by every second team, in order.
pub proof fn law_named_teams(games: Seq<GameView>)
    ensures
        named_teams(games).len() == 2 * games.len(),
        forall|k: int| 0 <= k < games.len() ==> #[trigger] named_teams(games)[k] == games[k].team_a,
        forall|k: int|
            0 <= k < games.len() ==> #[trigger] named_teams(games)[games.len() + k] == games[k].team_b,
{
}

/// The listed names keep the order of first appearance: an earlier listed
/// name appears before any appearance of a later listed one.
pub proof fn law_distinct_in_order_first_appearance(s: Seq<Seq<char>>)
    ensures
        forall|a: int, b: int, j: int|
            #![trigger distinct_in_order(s)[a], distinct_in_order(s)[b], s[j]]
            0 <= a < b < distinct_in_order(s).len() && 0 <= j < s.len() && s[j] == distinct_in_order(s)[b]
                ==> s.take(j).contains(distinct_in_order(s)[a]),
    decreases s.len(),
{
    if s.len() > 0 {
        let init = s.drop_last();
        let x = s.last();
        law_distinct_in_order_first_appearance(init);
        law_distinct_in_order(init);
        law_distinct_in_order(s);
        let p = distinct_in_order(init);
        let d = distinct_in_order(s);
        assert forall|a: int, b: int, j: int|
            #![trigger distinct_in_order(s)[a], distinct_in_order(s)[b], s[j]]
            0 <= a < b < distinct_in_order(s).len() && 0 <= j < s.len() && s[j] == distinct_in_order(s)[b]
                implies s.take(j).contains(distinct_in_order(s)[a]) by {
            assert(d[a] == p[a]);
            assert(p.contains(p[a]));
            assert(init.contains(p[a]));
            let w = choose|w: int| 0 <= w < init.len() && init[w] == p[a];
            assert(s[w] == d[a]);
            if j < s.len() - 1 {
                assert(init[j] == s[j]);
                if b < p.len() {
                    assert(d[b] == p[b]);
                    assert(init[j] == p[b]);
                    assert(init.take(j).contains(p[a]));
                    let i = choose|i: int| 0 <= i < j && init.take(j)[i] == p[a];
                    assert(s.take(j)[i] == d[a]);
                } else {
                    // d[b] is the new last name, which init does not contain
                    assert(d[b] == x);
                    assert(init.contains(x));
                    assert(p.contains(x));
                }
            } else {
                assert(w < j);
                assert(s.take(j)[w] == distinct_in_order(s)[a]);
            }
        }
    }
}

/// The rating problem has one equation per game not against the stand-in
/// team, in order: its row holds +1 for the columns of teams named as that
/// game's first team, -1 for those named as its second team, 0 elsewhere
/// (0 where a team is named on both sides), and its scores are the game's,
/// first team first. It appends a stand-in team exactly when the number of
/// teams is odd.
pub proof fn law_strength_system(sys: StrengthSystem, teams: Seq<TeamView>, games: Seq<GameView>)
    requires
        is_strength_system(sys, teams, games),
    ensures
        sys.incidence@.len() == games.filter(|g: GameView| !is_bye_game(g)).len(),
        sys.scores@.len() == games.filter(|g: GameView| !is_bye_game(g)).len(),
        forall|r: int, c: int|
            0 <= r < sys.incidence@.len() && 0 <= c < teams.len() ==> {
                let g = games.filter(|g: GameView| !is_bye_game(g))[r];
                let v = #[trigger] sys.incidence@[r]@[c] as int;
                &&& (teams[c].name == g.team_a && teams[c].name != g.team_b) ==> v == 1
                &&& (teams[c].name == g.team_b && teams[c].name != g.team_a) ==> v == -1
                &&& (teams[c].name != g.team_a && teams[c].name != g.team_b) ==> v == 0
                &&& (teams[c].name == g.team_a && teams[c].name == g.team_b) ==> v == 0
            },
        forall|r: int|
            0 <= r < sys.scores@.len() ==> {
                let g = games.filter(|g: GameView| !is_bye_game(g))[r];
                (#[trigger] sys.scores@[r]).0 as int == g.team_a_score && sys.scores@[r].1 as int == g.team_b_score
            },
        sys.bye <==> teams.len() % 2 == 1,
{
    law_rated_games_are_non_bye_games(games);
    let rated = rated_games(games);
    assert forall|r: int, c: int| 0 <= r < sys.incidence@.len() && 0 <= c < teams.len() implies {
        let g = rated[r];
        let v = #[trigger] sys.incidence@[r]@[c] as int;
        &&& (teams[c].name == g.team_a && teams[c].name != g.team_b) ==> v == 1
        &&& (teams[c].name == g.team_b && teams[c].name != g.team_a) ==> v == -1
        &&& (teams[c].name != g.team_a && teams[c].name != g.team_b) ==> v == 0
        &&& (teams[c].name == g.team_a && teams[c].name == g.team_b) ==> v == 0
    } by {
        assert(sys.incidence@[r]@[c] as int == involvement(rated[r], teams[c].name));
    }
}

} // verus!
