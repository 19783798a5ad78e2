use vstd::prelude::*;

use crate::ids::random_id;

verus! {

/// The mathematical value of a [`Game`].
pub struct GameView {
    pub id: int,
    pub round: int,
    pub field: int,
    pub team_a: Seq<char>,
    pub team_b: Seq<char>,
    pub team_a_score: int,
    pub team_b_score: int,
    pub streamed: bool,
    pub played: bool,
}

/// One match between two teams of a draw.
#[derive(Clone, Debug)]
pub struct Game {
    pub id: i64,
    pub round: i64,
    pub field: i64,
    pub team_a: String,
    pub team_b: String,
    pub team_a_score: i64,
    pub team_b_score: i64,
    pub streamed: bool,
    pub played: bool,
}

impl View for Game {
    type V = GameView;

    open spec fn view(&self) -> GameView {
        GameView {
            id: self.id as int,
            round: self.round as int,
            field: self.field as int,
            team_a: self.team_a@,
            team_b: self.team_b@,
            team_a_score: self.team_a_score as int,
            team_b_score: self.team_b_score as int,
            streamed: self.streamed,
            played: self.played,
        }
    }
}

/// A game that has just been scheduled: round 0, no score, not played.
pub open spec fn scheduled_game(id: int, field: int, team_a: Seq<char>, team_b: Seq<char>) -> GameView {
    GameView {
        id,
        round: 0,
        field,
        team_a,
        team_b,
        team_a_score: 0,
        team_b_score: 0,
        streamed: false,
        played: false,
    }
}

impl Game {
    /// A new unplayed game on `field` between `team_a` and `team_b`,
    /// with a randomly drawn identifier.
    pub fn new(field: i64, team_a: String, team_b: String) -> (g: Game)
        ensures
            g@ == scheduled_game(g.id as int, field as int, team_a@, team_b@),
    {
        Game {
            id: random_id(),
            round: 0,
            field,
            team_a,
            team_b,
            team_a_score: 0,
            team_b_score: 0,
            streamed: false,
            played: false,
        }
    }
}

/// One row of a results file: an optional round, the two teams, their
/// scores, and the field as written in the file.
#[derive(Clone, Debug)]
pub struct GameRow {
    pub round: Option<i64>,
    pub team_a: String,
    pub team_b: String,
    pub team_a_score: i64,
    pub team_b_score: i64,
    pub field: String,
}

/// The game recorded for a results row: given identifier, the row's round
/// (round 1 when the row has none), field 1, the row's teams and scores,
/// played and not streamed.
pub open spec fn row_game(row: GameRow, id: int) -> GameView {
    GameView {
        id,
        round: match row.round {
            Some(r) => r as int,
            None => 1,
        },
        field: 1,
        team_a: row.team_a@,
        team_b: row.team_b@,
        team_a_score: row.team_a_score as int,
        team_b_score: row.team_b_score as int,
        streamed: false,
        played: true,
    }
}

impl GameRow {
    /// The game recorded for this row under identifier `id`.
    pub fn into_game(self, id: i64) -> (g: Game)
        ensures
            g@ == row_game(self, id as int),
    {
        let round = match self.round {
            Some(r) => r,
            None => 1,
        };
        Game {
            id,
            round,
            field: 1,
            team_a: self.team_a,
            team_b: self.team_b,
            team_a_score: self.team_a_score,
            team_b_score: self.team_b_score,
            streamed: false,
            played: true,
        }
    }
}

} // verus!
