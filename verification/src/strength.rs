use vstd::prelude::*;

use crate::draw::{games_view, is_bye_game, teams_view};
use crate::game::{Game, GameView};
use crate::team::{bye_name_string, bye_team_view, Team, TeamView};

verus! {

/// The games that count towards the ratings: every game not against the
/// stand-in team, in order.
pub open spec fn rated_games(games: Seq<GameView>) -> Seq<GameView>
    decreases games.len(),
{
    if games.len() == 0 {
        games
    } else {
        let earlier = rated_games(games.drop_last());
        if is_bye_game(games.last()) { earlier } else { earlier.push(games.last()) }
    }
}

/// How a game involves the team called `name`: +1 when it is the first
/// team, -1 when it is the second, 0 when it is neither (and 0 when it is
/// both).
pub open spec fn involvement(g: GameView, name: Seq<char>) -> int {
    (if name == g.team_a { 1int } else { 0int }) - (if name == g.team_b { 1int } else { 0int })
}

/// The integer part of the rating problem of a draw.
///
/// Ratings are the least-squares solution of `incidence * r = margin`, one
/// equation per rated game, where the margin of a game is its first team's
/// score minus its second team's score.
pub struct StrengthSystem {
    /// One row per rated game, one column per team of the draw.
    pub incidence: Vec<Vec<i8>>,
    /// The scores of each rated game, first team first.
    pub scores: Vec<(i64, i64)>,
    /// Whether the draw has an odd number of teams, so that a stand-in
    /// team is appended to the ratings.
    pub bye: bool,
}

/// Whether `sys` is the rating problem of `teams` and `games`.
pub open spec fn is_strength_system(sys: StrengthSystem, teams: Seq<TeamView>, games: Seq<GameView>) -> bool {
    let rated = rated_games(games);
    &&& sys.incidence@.len() == rated.len()
    &&& sys.scores@.len() == rated.len()
    &&& forall|r: int|
        0 <= r < rated.len() ==> {
            &&& (#[trigger] sys.incidence@[r])@.len() == teams.len()
            &&& forall|c: int|
                0 <= c < teams.len() ==> #[trigger] sys.incidence@[r]@[c] as int == involvement(
                    rated[r],
                    teams[c].name,
                )
        }
    &&& forall|r: int|
        0 <= r < rated.len() ==> (#[trigger] sys.scores@[r]).0 as int == rated[r].team_a_score && sys.scores@[
            r
        ].1 as int == rated[r].team_b_score
    &&& sys.bye == (teams.len() % 2 == 1)
}

/// The row of the rating problem for game `g`.
fn incidence_row(g: &Game, teams: &Vec<Team>) -> (row: Vec<i8>)
    ensures
        row@.len() == teams@.len(),
        forall|c: int| 0 <= c < teams@.len() ==> #[trigger] row@[c] as int == involvement(g@, teams@[c]@.name),
{
    let mut row: Vec<i8> = Vec::new();
    let n = teams.len();
    let mut c: usize = 0;
    while c < n
        invariant
            n == teams@.len(),
            c <= n,
            row@.len() == c,
            forall|k: int| 0 <= k < c ==> #[trigger] row@[k] as int == involvement(g@, teams@[k]@.name),
        decreases n - c,
    {
        let mut v: i8 = 0;
        if teams[c].name == g.team_a {
            v = v + 1;
        }
        if teams[c].name == g.team_b {
            v = v - 1;
        }
        row.push(v);
        c = c + 1;
    }
    row
}

/// Builds the rating problem of a draw with teams `teams` and games
/// `games`: games against the stand-in team are left out.
pub fn strength_system(games: &Vec<Game>, teams: &Vec<Team>) -> (sys: StrengthSystem)
    ensures
        is_strength_system(sys, teams_view(teams@), games_view(games@)),
{
    let bye = bye_name_string();
    let ghost gv = games_view(games@);
    let ghost tv = teams_view(teams@);
    let mut incidence: Vec<Vec<i8>> = Vec::new();
    let mut scores: Vec<(i64, i64)> = Vec::new();
    let n = games.len();
    let mut i: usize = 0;
    while i < n
        invariant
            n == games@.len(),
            i <= n,
            bye@ == crate::team::bye_name(),
            gv == games_view(games@),
            tv == teams_view(teams@),
            is_strength_system(
                StrengthSystem { incidence, scores, bye: teams@.len() % 2 == 1 },
                tv,
                gv.take(i as int),
            ),
        decreases n - i,
    {
        proof {
            assert(gv.take(i + 1).drop_last() =~= gv.take(i as int));
        }
        let g = &games[i];
        if !(g.team_a == bye || g.team_b == bye) {
            let row = incidence_row(g, teams);
            incidence.push(row);
            scores.push((g.team_a_score, g.team_b_score));
        }
        i = i + 1;
    }
    assert(gv.take(n as int) =~= gv);
    StrengthSystem { incidence, scores, bye: teams.len() % 2 == 1 }
}

/// The ratings of a draw: each team with its solved rating, in the order of
/// the team list, followed by the stand-in team when `bye` is set.
pub open spec fn ratings(teams: Seq<TeamView>, rank_bits: Seq<u64>, bye: bool) -> Seq<TeamView> {
    let rated = Seq::new(
        teams.len(),
        |i: int| TeamView { id: teams[i].id, name: teams[i].name, rank_bits: rank_bits[i] },
    );
    if bye { rated.push(bye_team_view()) } else { rated }
}

/// Pairs each team with its solved rating (given as bit patterns, in the
/// order of the team list), and appends the stand-in team when `bye` is set.
pub fn assemble_ratings(teams: &Vec<Team>, rank_bits: &Vec<u64>, bye: bool) -> (rated: Vec<Team>)
    requires
        rank_bits@.len() == teams@.len(),
    ensures
        teams_view(rated@) == ratings(teams_view(teams@), rank_bits@, bye),
{
    let mut rated: Vec<Team> = Vec::new();
    let n = teams.len();
    let mut i: usize = 0;
    while i < n
        invariant
            n == teams@.len(),
            n == rank_bits@.len(),
            i <= n,
            rated@.len() == i,
            forall|k: int|
                0 <= k < i ==> (#[trigger] rated@[k])@ == (TeamView {
                    id: teams@[k]@.id,
                    name: teams@[k]@.name,
                    rank_bits: rank_bits@[k],
                }),
        decreases n - i,
    {
        let t = Team::new(teams[i].id, teams[i].name.clone(), rank_bits[i]);
        rated.push(t);
        i = i + 1;
    }
    if bye {
        rated.push(Team::bye());
    }
    assert(teams_view(rated@) =~= ratings(teams_view(teams@), rank_bits@, bye));
    rated
}

/// The matrix with one row per entry of `played` and one column per entry
/// of `names`, holding 1 where the two names are equal and 0 elsewhere.
pub fn games_matrix(names: &Vec<String>, played: &Vec<String>) -> (m: Vec<Vec<u8>>)
    ensures
        m@.len() == played@.len(),
        forall|i: int|
            0 <= i < played@.len() ==> {
                &&& (#[trigger] m@[i])@.len() == names@.len()
                &&& forall|j: int|
                    0 <= j < names@.len() ==> #[trigger] m@[i]@[j] == (if names@[j]@ == played@[i]@ {
                        1u8
                    } else {
                        0u8
                    })
            },
{
    let mut m: Vec<Vec<u8>> = Vec::new();
    let rows = played.len();
    let cols = names.len();
    let mut i: usize = 0;
    while i < rows
        invariant
            rows == played@.len(),
            cols == names@.len(),
            i <= rows,
            m@.len() == i,
            forall|r: int|
                0 <= r < i ==> {
                    &&& (#[trigger] m@[r])@.len() == cols
                    &&& forall|j: int|
                        0 <= j < cols ==> #[trigger] m@[r]@[j] == (if names@[j]@ == played@[r]@ {
                            1u8
                        } else {
                            0u8
                        })
                },
        decreases rows - i,
    {
        let mut row: Vec<u8> = Vec::new();
        let mut j: usize = 0;
        while j < cols
            invariant
                rows == played@.len(),
                cols == names@.len(),
                i < rows,
                j <= cols,
                row@.len() == j,
                forall|c: int|
                    0 <= c < j ==> #[trigger] row@[c] == (if names@[c]@ == played@[i as int]@ {
                        1u8
                    } else {
                        0u8
                    }),
            decreases cols - j,
        {
            if names[j] == played[i] {
                row.push(1);
            } else {
                row.push(0);
            }
            j = j + 1;
        }
        m.push(row);
        i = i + 1;
    }
    m
}

} // verus!
