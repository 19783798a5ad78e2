use swissdraw::draw::SwissDraw;
use swissdraw::game::{Game, GameRow};
use swissdraw::team::{bye_name_string, Team};

fn game(id: i64, round: i64, a: &str, b: &str, played: bool) -> Game {
    Game {
        id,
        round,
        field: 1,
        team_a: a.to_string(),
        team_b: b.to_string(),
        team_a_score: 0,
        team_b_score: 0,
        streamed: false,
        played,
    }
}

fn team(id: i64, name: &str, rank: f64) -> Team {
    Team::new(id, name.to_string(), rank.to_bits())
}

#[test]
fn game_new_is_unplayed_round_zero() {
    let g = Game::new(3, "Alpha".to_string(), "Beta".to_string());
    assert_eq!(g.round, 0);
    assert_eq!(g.field, 3);
    assert_eq!(g.team_a, "Alpha");
    assert_eq!(g.team_b, "Beta");
    assert_eq!(g.team_a_score, 0);
    assert_eq!(g.team_b_score, 0);
    assert!(!g.played);
    assert!(!g.streamed);
}

#[test]
fn team_new_keeps_rating_bits() {
    let t = team(7, "Gamma", 2.5);
    assert_eq!(t.id, 7);
    assert_eq!(t.name, "Gamma");
    assert_eq!(f64::from_bits(t.rank_bits), 2.5);
}

#[test]
fn bye_team_is_named_bye_with_zero_rating() {
    let t = Team::bye();
    assert_eq!(t.id, 0);
    assert_eq!(t.name, "_BYE_");
    assert_eq!(f64::from_bits(t.rank_bits), 0.0);
    assert_eq!(bye_name_string(), "_BYE_");
}

#[test]
fn new_draw_is_empty() {
    let d = SwissDraw::new();
    assert_eq!(d.name, "");
    assert_eq!(d.round, 0);
    assert!(d.team_list.is_empty());
    assert!(d.latest_rank.is_empty());
    assert!(d.games.is_empty());
}

#[test]
fn add_game_then_get_games_returns_it() {
    let mut d = SwissDraw::new();
    d.add_game(game(11, 1, "A", "B", false));
    d.add_game(game(12, 1, "C", "D", true));
    let gs = d.get_games();
    assert_eq!(gs.len(), 2);
    assert_eq!(gs[0].id, 11);
    assert_eq!(gs[1].id, 12);
    assert_eq!(gs[1].team_a, "C");
}

#[test]
fn add_team_appends_named_team() {
    let mut d = SwissDraw::new();
    d.add_team("North".to_string(), 1.0f64.to_bits());
    d.add_team("South".to_string(), 3.0f64.to_bits());
    assert_eq!(d.team_list.len(), 2);
    assert_eq!(d.team_list[0].name, "North");
    assert_eq!(d.team_list[1].name, "South");
    assert_eq!(f64::from_bits(d.team_list[1].rank_bits), 3.0);
}

#[test]
fn add_teams_appends_in_order() {
    let mut d = SwissDraw::new();
    d.add_teams(vec![team(1, "A", 1.0)]);
    d.add_teams(vec![team(2, "B", 2.0), team(3, "C", 3.0)]);
    let names: Vec<&str> = d.team_list.iter().map(|t| t.name.as_str()).collect();
    assert_eq!(names, vec!["A", "B", "C"]);
    assert_eq!(d.team_list[2].id, 3);
}

#[test]
fn edit_game_scores_updates_every_matching_game_only() {
    let mut d = SwissDraw::new();
    d.add_game(game(5, 1, "A", "B", false));
    d.add_game(game(6, 1, "C", "D", false));
    d.add_game(game(5, 2, "E", "F", false));
    d.edit_game_scores(5, 13, 9);
    assert_eq!((d.games[0].team_a_score, d.games[0].team_b_score, d.games[0].played), (13, 9, true));
    assert_eq!((d.games[1].team_a_score, d.games[1].team_b_score, d.games[1].played), (0, 0, false));
    assert_eq!((d.games[2].team_a_score, d.games[2].team_b_score, d.games[2].played), (13, 9, true));
    assert_eq!(d.games[2].round, 2);
    assert_eq!(d.games[0].team_a, "A");
}

#[test]
fn edit_game_scores_with_unknown_id_changes_nothing() {
    let mut d = SwissDraw::new();
    d.add_game(game(5, 1, "A", "B", false));
    d.edit_game_scores(99, 1, 2);
    assert_eq!((d.games[0].team_a_score, d.games[0].played), (0, false));
}

#[test]
fn check_games_played_and_first_unplayed() {
    let mut d = SwissDraw::new();
    assert!(d.check_games_played());
    assert_eq!(d.first_unplayed(), None);
    d.add_game(game(1, 1, "A", "B", true));
    d.add_game(game(2, 1, "C", "D", false));
    d.add_game(game(3, 1, "E", "F", false));
    assert!(!d.check_games_played());
    assert_eq!(d.first_unplayed(), Some(1));
    d.edit_game_scores(2, 1, 0);
    d.edit_game_scores(3, 1, 0);
    assert!(d.check_games_played());
}

#[test]
fn check_draw_adds_bye_for_odd_team_count() {
    let mut d = SwissDraw::new();
    d.add_teams(vec![team(1, "A", 1.0), team(2, "B", 2.0), team(3, "C", 3.0)]);
    assert_eq!(d.check_draw(), Ok(true));
    assert_eq!(d.team_list.len(), 4);
    assert_eq!(d.team_list[3].name, "_BYE_");
    assert_eq!(d.team_list[3].id, 0);
    // a second call finds an even number of teams and adds nothing
    assert_eq!(d.check_draw(), Ok(true));
    assert_eq!(d.team_list.len(), 4);
}

#[test]
fn check_draw_keeps_even_team_list() {
    let mut d = SwissDraw::new();
    d.add_teams(vec![team(1, "A", 1.0), team(2, "B", 2.0)]);
    assert_eq!(d.check_draw(), Ok(true));
    assert_eq!(d.team_list.len(), 2);
}

#[test]
fn check_draw_refuses_unplayed_games_but_still_adds_bye() {
    let mut d = SwissDraw::new();
    d.add_teams(vec![team(1, "A", 1.0)]);
    d.add_game(game(1, 1, "A", "_BYE_", false));
    assert_eq!(d.check_draw(), Err("Not all games have been played".to_string()));
    assert_eq!(d.team_list.len(), 2);
}

#[test]
fn add_round_games_numbers_fields_and_settles_byes() {
    let mut d = SwissDraw::new();
    d.round = 2;
    d.add_game(game(1, 2, "X", "Y", true));
    let mut g1 = game(10, 0, "A", "B", false);
    g1.field = 0;
    let mut g2 = game(11, 0, "C", "_BYE_", false);
    g2.team_a_score = 4;
    g2.streamed = true;
    let g3 = game(12, 0, "_BYE_", "D", false);
    d.add_round_games(vec![g1, g2, g3]);
    assert_eq!(d.round, 3);
    assert_eq!(d.games.len(), 4);
    assert_eq!(d.games[0].id, 1);
    assert_eq!(d.games[0].round, 2);
    let fields: Vec<i64> = d.games[1..].iter().map(|g| g.field).collect();
    assert_eq!(fields, vec![1, 2, 3]);
    assert!(d.games[1..].iter().all(|g| g.round == 3));
    assert!(!d.games[1].played);
    assert!(d.games[2].played);
    assert_eq!((d.games[2].team_a_score, d.games[2].team_b_score), (0, 0));
    assert!(!d.games[2].streamed);
    assert!(d.games[3].played);
}

#[test]
fn add_round_games_with_no_games_only_advances_round() {
    let mut d = SwissDraw::new();
    d.add_round_games(Vec::new());
    assert_eq!(d.round, 1);
    assert!(d.games.is_empty());
}

#[test]
fn add_game_rows_numbers_games_after_existing_ones() {
    let mut d = SwissDraw::new();
    d.add_game(game(100, 1, "P", "Q", true));
    let rows = vec![
        GameRow {
            round: Some(3),
            team_a: "A".to_string(),
            team_b: "B".to_string(),
            team_a_score: 15,
            team_b_score: 11,
            field: "north".to_string(),
        },
        GameRow {
            round: None,
            team_a: "C".to_string(),
            team_b: "D".to_string(),
            team_a_score: 7,
            team_b_score: 9,
            field: "".to_string(),
        },
    ];
    d.add_game_rows(rows);
    assert_eq!(d.games.len(), 3);
    assert_eq!(d.games[1].id, 2);
    assert_eq!(d.games[2].id, 3);
    assert_eq!(d.games[1].round, 3);
    assert_eq!(d.games[2].round, 1);
    assert_eq!(d.games[1].field, 1);
    assert_eq!((d.games[1].team_a_score, d.games[1].team_b_score), (15, 11));
    assert!(d.games[1].played && d.games[2].played);
    assert!(!d.games[2].streamed);
}

#[test]
fn row_into_game_defaults_round_to_one() {
    let row = GameRow {
        round: None,
        team_a: "A".to_string(),
        team_b: "B".to_string(),
        team_a_score: 1,
        team_b_score: 2,
        field: "3".to_string(),
    };
    let g = row.into_game(42);
    assert_eq!((g.id, g.round, g.field), (42, 1, 1));
}

#[test]
fn from_parts_takes_latest_round() {
    let d = SwissDraw::from_parts(
        9,
        "Cup".to_string(),
        vec![team(1, "A", 1.0)],
        vec![game(1, 2, "A", "B", true), game(2, 5, "A", "C", true), game(3, 4, "B", "C", false)],
    );
    assert_eq!(d.id, 9);
    assert_eq!(d.name, "Cup");
    assert_eq!(d.round, 5);
    assert!(d.latest_rank.is_empty());
    assert_eq!(d.games.len(), 3);
    assert_eq!(d.team_list.len(), 1);
}

#[test]
fn from_parts_without_games_is_round_zero() {
    let d = SwissDraw::from_parts(1, "Empty".to_string(), Vec::new(), Vec::new());
    assert_eq!(d.round, 0);
    let d2 = SwissDraw::from_parts(1, "Neg".to_string(), Vec::new(), vec![game(1, -3, "A", "B", true)]);
    assert_eq!(d2.round, 0);
}

#[test]
fn games_in_round_lists_positions_in_order() {
    let mut d = SwissDraw::new();
    d.add_game(game(1, 1, "A", "B", true));
    d.add_game(game(2, 2, "A", "C", true));
    d.add_game(game(3, 1, "B", "C", true));
    assert_eq!(d.games_in_round(1), vec![0, 2]);
    assert_eq!(d.games_in_round(2), vec![1]);
    assert!(d.games_in_round(7).is_empty());
}

#[test]
fn new_round_of_real_games_blocks_next_pairing() {
    let mut d = SwissDraw::new();
    d.add_teams(vec![team(1, "A", 1.0), team(2, "B", 2.0)]);
    assert_eq!(d.check_draw(), Ok(true));
    d.add_round_games(vec![Game::new(0, "A".to_string(), "B".to_string())]);
    assert!(d.check_draw().is_err());
    let id = d.games[0].id;
    d.edit_game_scores(id, 3, 1);
    assert_eq!(d.check_draw(), Ok(true));
}

#[test]
fn new_round_of_only_bye_games_does_not_block_pairing() {
    let mut d = SwissDraw::new();
    d.add_teams(vec![team(1, "A", 1.0)]);
    assert_eq!(d.check_draw(), Ok(true));
    d.add_round_games(vec![Game::new(0, "A".to_string(), "_BYE_".to_string())]);
    assert_eq!(d.check_draw(), Ok(true));
}

#[test]
fn entering_scores_twice_is_entering_them_once() {
    let mut d = SwissDraw::new();
    d.add_game(game(4, 1, "A", "B", false));
    d.edit_game_scores(4, 2, 2);
    let once = (d.games[0].team_a_score, d.games[0].team_b_score, d.games[0].played);
    d.edit_game_scores(4, 2, 2);
    assert_eq!(once, (d.games[0].team_a_score, d.games[0].team_b_score, d.games[0].played));
}
