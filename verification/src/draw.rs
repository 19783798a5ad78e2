use vstd::prelude::*;

use crate::game::{row_game, Game, GameRow, GameView};
use crate::ids::random_id;
use crate::team::{bye_name, bye_name_string, bye_team_view, Team, TeamView};

verus! {

/// The mathematical value of a [`SwissDraw`].
pub struct DrawView {
    pub id: int,
    pub name: Seq<char>,
    pub round: int,
    pub teams: Seq<TeamView>,
    pub latest_rank: Seq<TeamView>,
    pub games: Seq<GameView>,
}

/// A Swiss-system draw: its teams, the latest ranking, and every game so far.
#[derive(Clone, Debug)]
pub struct SwissDraw {
    pub id: i64,
    pub name: String,
    pub round: i64,
    pub team_list: Vec<Team>,
    pub latest_rank: Vec<Team>,
    pub games: Vec<Game>,
}

/// The values of a sequence of games.
pub open spec fn games_view(games: Seq<Game>) -> Seq<GameView> {
    games.map_values(|g: Game| g@)
}

/// The values of a sequence of teams.
pub open spec fn teams_view(teams: Seq<Team>) -> Seq<TeamView> {
    teams.map_values(|t: Team| t@)
}

impl View for SwissDraw {
    type V = DrawView;

    open spec fn view(&self) -> DrawView {
        DrawView {
            id: self.id as int,
            name: self.name@,
            round: self.round as int,
            teams: teams_view(self.team_list@),
            latest_rank: teams_view(self.latest_rank@),
            games: games_view(self.games@),
        }
    }
}

/// `g` once its scores are entered: the two scores set and the game played.
pub open spec fn scored(g: GameView, team_a_score: int, team_b_score: int) -> GameView {
    GameView { team_a_score, team_b_score, played: true, ..g }
}

/// Every game whose identifier is `id` scored with the given scores; the
/// other games as they were.
pub open spec fn games_scored(games: Seq<GameView>, id: int, team_a_score: int, team_b_score: int) -> Seq<GameView> {
    Seq::new(
        games.len(),
        |i: int| if games[i].id == id { scored(games[i], team_a_score, team_b_score) } else { games[i] },
    )
}

/// Whether every game of the sequence has been played.
pub open spec fn all_played(games: Seq<GameView>) -> bool {
    forall|i: int| 0 <= i < games.len() ==> #[trigger] games[i].played
}

/// The team list after the draw has been made ready for pairing: a stand-in
/// team is added when the number of teams is odd.
pub open spec fn teams_made_even(teams: Seq<TeamView>) -> Seq<TeamView> {
    if teams.len() % 2 == 1 { teams.push(bye_team_view()) } else { teams }
}

/// The message with which a draw that still has unplayed games is refused.
pub open spec fn unplayed_message() -> Seq<char> {
    seq![
        'N', 'o', 't', ' ', 'a', 'l', 'l', ' ', 'g', 'a', 'm', 'e', 's', ' ', 'h', 'a', 'v', 'e', ' ',
        'b', 'e', 'e', 'n', ' ', 'p', 'l', 'a', 'y', 'e', 'd',
    ]
}

/// Whether `g` is a game against the stand-in team.
pub open spec fn is_bye_game(g: GameView) -> bool {
    g.team_a == bye_name() || g.team_b == bye_name()
}

/// `g` as it is recorded in `round` on `field`: a game against the
/// stand-in team is recorded as played, 0 to 0, not streamed.
pub open spec fn recorded_game(g: GameView, round: int, field: int) -> GameView {
    if is_bye_game(g) {
        GameView { round, field, team_a_score: 0, team_b_score: 0, played: true, streamed: false, ..g }
    } else {
        GameView { round, field, ..g }
    }
}

/// The games of a new round as they are recorded: in order, on fields
/// 1, 2, 3, and so on.
pub open spec fn recorded_round(games: Seq<GameView>, round: int) -> Seq<GameView> {
    Seq::new(games.len(), |k: int| recorded_game(games[k], round, k + 1))
}

impl SwissDraw {
    /// An empty draw with a randomly drawn identifier, an empty name, and
    /// round 0.
    pub fn new() -> (d: SwissDraw)
        ensures
            d@ == (DrawView {
                id: d.id as int,
                name: Seq::empty(),
                round: 0,
                teams: Seq::empty(),
                latest_rank: Seq::empty(),
                games: Seq::empty(),
            }),
    {
        let d = SwissDraw {
            id: random_id(),
            name: String::new(),
            round: 0,
            team_list: Vec::new(),
            latest_rank: Vec::new(),
            games: Vec::new(),
        };
        assert(teams_view(d.team_list@) =~= Seq::empty());
        assert(teams_view(d.latest_rank@) =~= Seq::empty());
        assert(games_view(d.games@) =~= Seq::empty());
        d
    }

    /// Appends `game` to the draw's games.
    pub fn add_game(&mut self, game: Game)
        ensures
            final(self)@ == (DrawView { games: old(self)@.games.push(game@), ..old(self)@ }),
    {
        self.games.push(game);
        assert(games_view(self.games@) =~= games_view(old(self).games@).push(game@));
    }

    /// The draw's games.
    pub fn get_games(&self) -> (games: &Vec<Game>)
        ensures
            games@ == self.games@,
    {
        &self.games
    }

    /// Enters a team with a randomly drawn identifier.
    pub fn add_team(&mut self, name: String, rank_bits: u64)
        ensures
            final(self)@ == (DrawView {
                teams: old(self)@.teams.push(
                    TeamView { id: final(self)@.teams.last().id, name: name@, rank_bits },
                ),
                ..old(self)@
            }),
    {
        let team = Team::new(random_id(), name, rank_bits);
        self.team_list.push(team);
        assert(teams_view(self.team_list@) =~= teams_view(old(self).team_list@).push(team@));
    }

    /// Enters each of `teams`, in order.
    pub fn add_teams(&mut self, teams: Vec<Team>)
        ensures
            final(self)@ == (DrawView { teams: old(self)@.teams + teams_view(teams@), ..old(self)@ }),
    {
        let ghost added = teams@;
        let mut teams = teams;
        self.team_list.append(&mut teams);
        assert(teams_view(self.team_list@) =~= teams_view(old(self).team_list@) + teams_view(added));
    }

    /// Enters the scores of every game whose identifier is `id`, and marks
    /// those games played.
    pub fn edit_game_scores(&mut self, id: i64, team_a_score: i64, team_b_score: i64)
        ensures
            final(self)@ == (DrawView {
                games: games_scored(old(self)@.games, id as int, team_a_score as int, team_b_score as int),
                ..old(self)@
            }),
    {
        let n = self.games.len();
        let mut i: usize = 0;
        while i < n
            invariant
                n == self.games@.len(),
                n == old(self).games@.len(),
                i <= n,
                forall|k: int|
                    0 <= k < i ==> #[trigger] self.games@[k]@ == (if old(self).games@[k].id == id {
                        scored(old(self).games@[k]@, team_a_score as int, team_b_score as int)
                    } else {
                        old(self).games@[k]@
                    }),
                forall|k: int| i <= k < n ==> #[trigger] self.games@[k] == old(self).games@[k],
                self.id == old(self).id,
                self.name == old(self).name,
                self.round == old(self).round,
                self.team_list == old(self).team_list,
                self.latest_rank == old(self).latest_rank,
            decreases n - i,
        {
            if self.games[i].id == id {
                self.games[i].team_a_score = team_a_score;
                self.games[i].team_b_score = team_b_score;
                self.games[i].played = true;
            }
            i = i + 1;
        }
        assert(games_view(self.games@) =~= games_scored(
            games_view(old(self).games@),
            id as int,
            team_a_score as int,
            team_b_score as int,
        ));
    }

    /// The position of the first unplayed game, if any.
    pub fn first_unplayed(&self) -> (r: Option<usize>)
        ensures
            match r {
                Some(i) => i < self@.games.len() && !self@.games[i as int].played && forall|k: int|
                    0 <= k < i ==> #[trigger] self@.games[k].played,
                None => all_played(self@.games),
            },
    {
        let n = self.games.len();
        let mut i: usize = 0;
        while i < n
            invariant
                n == self.games@.len(),
                i <= n,
                forall|k: int| 0 <= k < i ==> #[trigger] self.games@[k].played,
            decreases n - i,
        {
            if !self.games[i].played {
                assert forall|k: int| 0 <= k < i implies #[trigger] self@.games[k].played by {
                    assert(self.games@[k].played);
                }
                return Some(i);
            }
            i = i + 1;
        }
        assert forall|k: int| 0 <= k < self@.games.len() implies #[trigger] self@.games[k].played by {
            assert(self.games@[k].played);
        }
        None
    }

    /// Whether every game of the draw has been played.
    pub fn check_games_played(&self) -> (all: bool)
        ensures
            all == all_played(self@.games),
    {
        match self.first_unplayed() {
            Some(_) => false,
            None => true,
        }
    }

    /// Makes the draw ready for pairing the next round.
    ///
    /// A stand-in team is added when the number of teams is odd. The draw
    /// is refused while any game is unplayed.
    pub fn check_draw(&mut self) -> (r: Result<bool, String>)
        ensures
            final(self)@ == (DrawView { teams: teams_made_even(old(self)@.teams), ..old(self)@ }),
            match r {
                Ok(b) => b && all_played(old(self)@.games),
                Err(msg) => !all_played(old(self)@.games) && msg@ == unplayed_message(),
            },
    {
        if self.team_list.len() % 2 == 1 {
            let bye = Team::bye();
            self.team_list.push(bye);
            assert(teams_view(self.team_list@) =~= teams_view(old(self).team_list@).push(bye@));
        }
        if self.check_games_played() {
            Ok(true)
        } else {
            let msg = "Not all games have been played".to_string();
            proof {
                broadcast use vstd::string::to_string_from_display_ensures_for_str;
                reveal_strlit("Not all games have been played");
            }
            Err(msg)
        }
    }
}

impl SwissDraw {
    /// Records the pairings of the next round: the round number goes up by
    /// one and `games` are appended, each in the new round, on fields
    /// numbered from 1 in order; games against the stand-in team are
    /// recorded as played, 0 to 0, not streamed.
    pub fn add_round_games(&mut self, games: Vec<Game>)
        requires
            old(self).round < i64::MAX,
            games@.len() < i64::MAX,
        ensures
            final(self)@ == (DrawView {
                round: old(self)@.round + 1,
                games: old(self)@.games + recorded_round(games_view(games@), old(self)@.round + 1),
                ..old(self)@
            }),
    {
        self.round = self.round + 1;
        let round = self.round;
        let bye = bye_name_string();
        let ghost added = games_view(games@);
        let ghost start = games_view(old(self).games@);
        let n = games.len();
        let mut field_n: i64 = 1;
        for game in it: games
            invariant
                n == added.len(),
                n < i64::MAX,
                field_n == it.index() + 1,
                round == old(self).round + 1,
                bye@ == bye_name(),
                it.seq() == games@,
                added == games_view(games@),
                start == games_view(old(self).games@),
                games_view(self.games@) =~= start + recorded_round(added, round as int).take(
                    it.index() as int,
                ),
                self.id == old(self).id,
                self.name == old(self).name,
                self.round == round,
                self.team_list == old(self).team_list,
                self.latest_rank == old(self).latest_rank,
        {
            let mut game = game;
            let ghost k = it.index() as int;
            game.round = round;
            if game.team_a == bye || game.team_b == bye {
                game.team_a_score = 0;
                game.team_b_score = 0;
                game.played = true;
                game.streamed = false;
                game.field = 0;
            }
            game.field = field_n;
            proof {
                assert(game@ == recorded_game(added[k], round as int, k + 1));
            }
            let ghost before = self.games@;
            let ghost g = game@;
            self.games.push(game);
            assert(games_view(self.games@) =~= games_view(before).push(g));
            field_n = field_n + 1;
            assert(recorded_round(added, round as int).take(k + 1) =~= recorded_round(
                added,
                round as int,
            ).take(k).push(g));
        }
        assert(recorded_round(added, round as int).take(n as int) =~= recorded_round(
            added,
            round as int,
        ));
    }
}

/// The games recorded for results rows, numbered from `first_id` on.
pub open spec fn row_games(rows: Seq<GameRow>, first_id: int) -> Seq<GameView> {
    Seq::new(rows.len(), |k: int| row_game(rows[k], first_id + k))
}

/// The latest round among `games`, or 0 when there is none later than 0.
pub open spec fn max_round(games: Seq<GameView>) -> int
    decreases games.len(),
{
    if games.len() == 0 {
        0
    } else {
        let m = max_round(games.drop_last());
        if games.last().round > m { games.last().round } else { m }
    }
}

impl SwissDraw {
    /// Records the games of a results file, row by row, with identifiers
    /// that continue from the number of games already recorded (the first
    /// new game gets that number plus one).
    pub fn add_game_rows(&mut self, rows: Vec<GameRow>)
        requires
            old(self).games@.len() + rows@.len() < i64::MAX,
        ensures
            final(self)@ == (DrawView {
                games: old(self)@.games + row_games(rows@, old(self)@.games.len() + 1int),
                ..old(self)@
            }),
    {
        let ghost added = rows@;
        let ghost start = games_view(old(self).games@);
        let ghost first: int = old(self).games@.len() + 1int;
        let n = rows.len();
        let mut id_counter: i64 = self.games.len() as i64 + 1;
        for row in it: rows
            invariant
                n == added.len(),
                it.seq() == added,
                start == games_view(old(self).games@),
                first == old(self).games@.len() + 1,
                old(self).games@.len() + n < i64::MAX,
                id_counter == first + it.index(),
                games_view(self.games@) =~= start + row_games(added, first).take(it.index() as int),
                self.id == old(self).id,
                self.name == old(self).name,
                self.round == old(self).round,
                self.team_list == old(self).team_list,
                self.latest_rank == old(self).latest_rank,
        {
            let ghost k = it.index() as int;
            let game = row.into_game(id_counter);
            let ghost before = self.games@;
            let ghost g = game@;
            self.games.push(game);
            assert(games_view(self.games@) =~= games_view(before).push(g));
            assert(row_games(added, first).take(k + 1) =~= row_games(added, first).take(k).push(g));
            id_counter = id_counter + 1;
        }
        assert(row_games(added, first).take(n as int) =~= row_games(added, first));
    }

    /// A draw rebuilt from its stored parts; its round is the latest round
    /// among its games (0 when there is none later), and its latest
    /// ranking is empty.
    pub fn from_parts(id: i64, name: String, team_list: Vec<Team>, games: Vec<Game>) -> (d: SwissDraw)
        ensures
            d@ == (DrawView {
                id: id as int,
                name: name@,
                round: max_round(games_view(games@)),
                teams: teams_view(team_list@),
                latest_rank: Seq::empty(),
                games: games_view(games@),
            }),
    {
        let mut max_r: i64 = 0;
        let n = games.len();
        let mut i: usize = 0;
        while i < n
            invariant
                n == games@.len(),
                i <= n,
                max_r == max_round(games_view(games@).take(i as int)),
            decreases n - i,
        {
            proof {
                let gv = games_view(games@);
                assert(gv.take(i + 1).drop_last() =~= gv.take(i as int));
            }
            if games[i].round > max_r {
                max_r = games[i].round;
            }
            i = i + 1;
        }
        assert(games_view(games@).take(n as int) =~= games_view(games@));
        let d = SwissDraw { id, name, round: max_r, team_list, latest_rank: Vec::new(), games };
        assert(teams_view(d.latest_rank@) =~= Seq::empty());
        d
    }
}

/// The positions of the games played in `round`, in order.
pub open spec fn round_positions(games: Seq<GameView>, round: int) -> Seq<int>
    decreases games.len(),
{
    if games.len() == 0 {
        Seq::empty()
    } else {
        let earlier = round_positions(games.drop_last(), round);
        if games.last().round == round { earlier.push(games.len() - 1) } else { earlier }
    }
}

impl SwissDraw {
    /// The positions of the draw's games in `round`, in order.
    pub fn games_in_round(&self, round: i64) -> (positions: Vec<usize>)
        ensures
            positions@.map_values(|p: usize| p as int) == round_positions(self@.games, round as int),
    {
        let ghost gv = self@.games;
        let n = self.games.len();
        let mut positions: Vec<usize> = Vec::new();
        let mut i: usize = 0;
        while i < n
            invariant
                n == self.games@.len(),
                gv == self@.games,
                i <= n,
                positions@.map_values(|p: usize| p as int) == round_positions(gv.take(i as int), round as int),
            decreases n - i,
        {
            proof {
                assert(gv.take(i + 1).drop_last() =~= gv.take(i as int));
            }
            let ghost before = positions@;
            if self.games[i].round == round {
                positions.push(i);
                assert(positions@.map_values(|p: usize| p as int) =~= before.map_values(|p: usize| p as int).push(
                    i as int,
                ));
            }
            i = i + 1;
        }
        assert(gv.take(n as int) =~= gv);
        positions
    }
}

} // verus!
