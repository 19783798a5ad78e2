use swissdraw::game::Game;
use swissdraw::matchups::{games_from_pairing, previous_meetings, teams_cover_games, teams_in_games};
use swissdraw::strength::{assemble_ratings, games_matrix, strength_system};
use swissdraw::team::Team;

fn played(a: &str, b: &str, sa: i64, sb: i64) -> Game {
    Game {
        id: 0,
        round: 1,
        field: 1,
        team_a: a.to_string(),
        team_b: b.to_string(),
        team_a_score: sa,
        team_b_score: sb,
        streamed: false,
        played: true,
    }
}

fn team(id: i64, name: &str) -> Team {
    Team::new(id, name.to_string(), 0)
}

#[test]
fn strength_system_rows_and_scores() {
    let teams = vec![team(1, "A"), team(2, "B"), team(3, "C")];
    let games = vec![played("A", "B", 10, 4), played("C", "_BYE_", 0, 0), played("B", "C", 3, 8)];
    let sys = strength_system(&games, &teams);
    assert_eq!(sys.incidence, vec![vec![1, -1, 0], vec![0, 1, -1]]);
    assert_eq!(sys.scores, vec![(10, 4), (3, 8)]);
    assert!(sys.bye);
}

#[test]
fn strength_system_even_teams_no_bye_and_self_game_is_zero() {
    let teams = vec![team(1, "A"), team(2, "B")];
    let games = vec![played("A", "A", 1, 1)];
    let sys = strength_system(&games, &teams);
    assert_eq!(sys.incidence, vec![vec![0, 0]]);
    assert!(!sys.bye);
}

#[test]
fn assemble_ratings_keeps_ids_and_appends_bye() {
    let teams = vec![team(4, "A"), team(5, "B")];
    let bits = vec![1.5f64.to_bits(), (-2.0f64).to_bits()];
    let rated = assemble_ratings(&teams, &bits, true);
    assert_eq!(rated.len(), 3);
    assert_eq!((rated[0].id, rated[0].name.as_str()), (4, "A"));
    assert_eq!(f64::from_bits(rated[1].rank_bits), -2.0);
    assert_eq!(rated[2].name, "_BYE_");
    assert_eq!(rated[2].id, 0);
    let unrated = assemble_ratings(&teams, &bits, false);
    assert_eq!(unrated.len(), 2);
}

#[test]
fn games_matrix_marks_equal_names() {
    let names = vec!["A".to_string(), "B".to_string(), "C".to_string()];
    let played = vec!["B".to_string(), "C".to_string(), "Z".to_string()];
    let m = games_matrix(&names, &played);
    assert_eq!(m, vec![vec![0, 1, 0], vec![0, 0, 1], vec![0, 0, 0]]);
}

#[test]
fn previous_meetings_is_symmetric_count() {
    let teams = vec![team(1, "A"), team(2, "B"), team(3, "C")];
    let games = vec![played("A", "B", 1, 0), played("B", "A", 2, 1), played("C", "B", 0, 1)];
    assert!(teams_cover_games(&teams, &games));
    let m = previous_meetings(&teams, &games);
    assert_eq!(m, vec![vec![0, 2, 0], vec![2, 0, 1], vec![0, 1, 0]]);
    for i in 0..3 {
        for j in 0..3 {
            assert_eq!(m[i][j], m[j][i]);
        }
    }
}

#[test]
fn previous_meetings_self_game_counts_twice_and_uses_last_name() {
    let teams = vec![team(1, "A"), team(2, "B"), team(3, "A")];
    let games = vec![played("A", "A", 0, 0)];
    let m = previous_meetings(&teams, &games);
    assert_eq!(m[2][2], 2);
    assert_eq!(m[0][0], 0);
}

#[test]
fn teams_cover_games_detects_unknown_team() {
    let teams = vec![team(1, "A"), team(2, "B")];
    assert!(!teams_cover_games(&teams, &vec![played("A", "Q", 0, 0)]));
    assert!(teams_cover_games(&teams, &Vec::new()));
}

#[test]
fn games_from_pairing_follows_upper_triangle() {
    let teams = vec![team(1, "A"), team(2, "B"), team(3, "C"), team(4, "D")];
    let paired = vec![
        vec![false, false, true, false],
        vec![false, false, false, true],
        vec![true, false, false, false],
        vec![false, true, false, false],
    ];
    let games = games_from_pairing(&teams, &paired);
    let pairs: Vec<(String, String)> = games.iter().map(|g| (g.team_a.clone(), g.team_b.clone())).collect();
    assert_eq!(pairs, vec![("A".to_string(), "C".to_string()), ("B".to_string(), "D".to_string())]);
    assert!(games.iter().all(|g| g.round == 0 && g.field == 0 && !g.played));
}

#[test]
fn games_from_pairing_ignores_diagonal_and_lower_triangle() {
    let teams = vec![team(1, "A"), team(2, "B")];
    let paired = vec![vec![true, false], vec![true, true]];
    assert!(games_from_pairing(&teams, &paired).is_empty());
}

#[test]
fn teams_in_games_lists_each_team_once() {
    let games = vec![played("B", "A", 0, 0), played("C", "B", 0, 0), played("B", "D", 0, 0)];
    let names = teams_in_games(&games);
    assert_eq!(names, vec!["B".to_string(), "C".to_string(), "A".to_string(), "D".to_string()]);
    assert!(teams_in_games(&Vec::new()).is_empty());
}
