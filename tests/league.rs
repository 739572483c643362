use defaultmap::DefaultHashMap;
use league_table::{
    display_rank_pt1, display_rank_pt2, get_rankings, get_scores, get_winner, parse_game,
    parse_team, Game, GameResult, ParseError, RankStrategy, TeamRank, TeamScores,
};

fn game(team1: &str, team1_score: u8, team2: &str, team2_score: u8) -> Game {
    Game { team1: team1.to_string(), team1_score, team2: team2.to_string(), team2_score }
}

fn rank(rank: usize, name: &str, score: u64, goal_diff: i64) -> TeamRank {
    TeamRank { rank, name: name.to_string(), score, goal_diff }
}

fn table(rows: &[(&str, u64, i64)]) -> DefaultHashMap<String, TeamScores> {
    rows.iter()
        .map(|(n, s, g)| (n.to_string(), TeamScores { league_score: *s, goal_diff: *g }))
        .collect()
}

fn sample_games() -> Vec<Game> {
    vec![
        game("A", 10, "B", 20),
        game("C", 10, "D", 10),
        game("A", 20, "D", 10),
        game("B", 20, "C", 10),
        game("C", 20, "E", 10),
    ]
}

#[test]
fn test_parse_team() {
    assert_eq!(parse_team("Team1 10"), Ok(("Team1".to_string(), 10)));
    assert_eq!(parse_team("Hello world 10"), Ok(("Hello world".to_string(), 10)));
}

#[test]
fn test_parse_game() {
    assert_eq!(
        parse_game("Team1 10, Hello world 20"),
        Ok(Game {
            team1: "Team1".to_string(),
            team1_score: 10,
            team2: "Hello world".to_string(),
            team2_score: 20
        })
    );
}

#[test]
fn test_get_winner() {
    let game1 = game("A", 10, "B", 20);
    assert_eq!(
        get_winner(&game1),
        Some(GameResult { winner: "B".to_string(), loser: "A".to_string(), goal_diff: 10 })
    );
    let game1 = game("A", 20, "B", 0);
    assert_eq!(
        get_winner(&game1),
        Some(GameResult { winner: "A".to_string(), loser: "B".to_string(), goal_diff: 20 })
    );
    let game2 = game("A", 10, "B", 10);
    assert_eq!(get_winner(&game2), None);
}

#[test]
fn test_get_scores() {
    let games = sample_games();
    let scores = get_scores(games.as_slice());

    assert_eq!(scores["A".to_string()], TeamScores { league_score: 3, goal_diff: 0 });
    assert_eq!(scores["B".to_string()], TeamScores { league_score: 6, goal_diff: 20 });
    assert_eq!(scores["C".to_string()], TeamScores { league_score: 4, goal_diff: 0 });
    assert_eq!(scores["D".to_string()], TeamScores { league_score: 1, goal_diff: -10 });
    assert_eq!(scores["E".to_string()], TeamScores { league_score: 0, goal_diff: -10 });
}

#[test]
fn test_get_rankings_pt1() {
    let scores = table(&[("D", 10, 0), ("A", 10, 0), ("B", 20, 0), ("C", 15, 0), ("E", 0, 0)]);

    assert_eq!(
        get_rankings(&scores, RankStrategy::Score),
        vec![
            rank(1, "B", 20, 0),
            rank(2, "C", 15, 0),
            rank(3, "A", 10, 0),
            rank(3, "D", 10, 0),
            rank(5, "E", 0, 0),
        ]
    );
}

#[test]
fn test_get_rankings_pt2() {
    let scores = table(&[("D", 10, 0), ("A", 10, 0), ("B", 10, 10), ("C", 15, 0), ("E", 0, 0)]);

    assert_eq!(
        get_rankings(&scores, RankStrategy::ScoreThenGoalDiff),
        vec![
            rank(1, "C", 15, 0),
            rank(2, "B", 10, 10),
            rank(3, "A", 10, 0),
            rank(3, "D", 10, 0),
            rank(5, "E", 0, 0),
        ]
    );
}

#[test]
fn test_display_rank_pt1() {
    let r = rank(1, "Team 1", 0, 0);
    assert_eq!(display_rank_pt1(&r), "1. Team 1, 0 pts");

    let r = rank(1, "My Team", 1, 0);
    assert_eq!(display_rank_pt1(&r), "1. My Team, 1 pt");

    let r = rank(2, "My Other Team", 2, 0);
    assert_eq!(display_rank_pt1(&r), "2. My Other Team, 2 pts");
}

#[test]
fn display_with_goal_difference() {
    assert_eq!(display_rank_pt2(&rank(3, "A", 10, 0)), "3. A, 10 pts, gd: 0");
    assert_eq!(display_rank_pt2(&rank(1, "B", 1, 20)), "1. B, 1 pt, gd: 20");
    assert_eq!(display_rank_pt2(&rank(12, "Far Town", 0, -105)), "12. Far Town, 0 pts, gd: -105");
    assert_eq!(
        display_rank_pt2(&rank(1, "Z", 255, i64::MIN)),
        "1. Z, 255 pts, gd: -9223372036854775808"
    );
}

#[test]
fn parse_errors() {
    assert_eq!(parse_game("A 1"), Err(ParseError::SegmentCount));
    assert_eq!(parse_game("A 1, B 2, C 3"), Err(ParseError::SegmentCount));
    assert_eq!(parse_game(""), Err(ParseError::SegmentCount));
    assert_eq!(parse_game("A1, B 2"), Err(ParseError::MissingSpace));
    assert_eq!(parse_game("A 1, B2"), Err(ParseError::MissingSpace));
    assert_eq!(parse_game("A x, B 2"), Err(ParseError::BadScore));
    assert_eq!(parse_game("A 1, B -2"), Err(ParseError::BadScore));
    assert_eq!(parse_game("A 256, B 2"), Err(ParseError::BadScore));
    assert_eq!(parse_game("A 1, B "), Err(ParseError::BadScore));
    assert_eq!(parse_team("Team"), Err(ParseError::MissingSpace));
    assert_eq!(parse_team("Team 1000"), Err(ParseError::BadScore));
}

#[test]
fn parse_edge_scores() {
    assert_eq!(parse_team("X 255"), Ok(("X".to_string(), 255)));
    assert_eq!(parse_team("X 0"), Ok(("X".to_string(), 0)));
    assert_eq!(parse_team("Real  Club 007"), Ok(("Real  Club".to_string(), 7)));
    assert_eq!(
        parse_game("Café Ünïon 3, B,C 1"),
        Ok(game("Café Ünïon", 3, "B,C", 1))
    );
}

#[test]
fn segment_round_trip() {
    for (name, n) in [("Hello world", 0u8), ("A", 9), ("Team 7", 10), ("x y z", 255)] {
        let line = format!("{} {}", name, n);
        assert_eq!(parse_team(&line), Ok((name.to_string(), n)));
    }
}

#[test]
fn points_total_three_per_win_two_per_draw() {
    let games = sample_games();
    let scores = get_scores(games.as_slice());
    let total: u64 = scores.values().map(|s| s.league_score).sum();
    // four decided matches and one draw
    assert_eq!(total, 3 * 4 + 2 * 1);
}

#[test]
fn losing_team_is_listed() {
    let games = vec![game("Winners", 3, "Losers", 0), game("Winners", 1, "Losers", 0)];
    let scores = get_scores(games.as_slice());
    assert_eq!(scores.len(), 2);
    assert!(scores.contains_key("Losers"));
    assert_eq!(scores["Losers".to_string()], TeamScores { league_score: 0, goal_diff: -4 });
    let rows = get_rankings(&scores, RankStrategy::Score);
    assert_eq!(rows, vec![rank(1, "Winners", 6, 4), rank(2, "Losers", 0, -4)]);
}

#[test]
fn ranking_twice_is_identical() {
    let games = sample_games();
    let first = get_rankings(&get_scores(games.as_slice()), RankStrategy::ScoreThenGoalDiff);
    let second = get_rankings(&get_scores(games.as_slice()), RankStrategy::ScoreThenGoalDiff);
    assert_eq!(first, second);
}

#[test]
fn ranks_rise_and_skip_after_ties() {
    let scores = table(&[
        ("F", 1, 0),
        ("E", 3, 0),
        ("D", 3, 0),
        ("C", 5, 0),
        ("B", 7, 0),
        ("A", 7, 0),
    ]);
    let rows = get_rankings(&scores, RankStrategy::Score);
    let ranks: Vec<usize> = rows.iter().map(|r| r.rank).collect();
    assert_eq!(ranks, vec![1, 1, 3, 4, 4, 6]);
    let names: Vec<&str> = rows.iter().map(|r| r.name.as_str()).collect();
    assert_eq!(names, vec!["A", "B", "C", "D", "E", "F"]);
}

#[test]
fn sample_league_by_points() {
    let lines = ["A 10, B 20", "C 10, D 10", "A 20, D 10", "B 20, C 10", "C 20, E 10"];
    let games: Vec<Game> = lines.iter().map(|l| parse_game(l).unwrap()).collect();
    let scores = get_scores(games.as_slice());
    let rows = get_rankings(&scores, RankStrategy::Score);
    assert_eq!(
        rows,
        vec![
            rank(1, "B", 6, 20),
            rank(2, "C", 4, 0),
            rank(3, "A", 3, 0),
            rank(4, "D", 1, -10),
            rank(5, "E", 0, -10),
        ]
    );
    let text: Vec<String> = rows.iter().map(display_rank_pt1).collect();
    assert_eq!(text, vec!["1. B, 6 pts", "2. C, 4 pts", "3. A, 3 pts", "4. D, 1 pt", "5. E, 0 pts"]);
}

#[test]
fn goal_difference_breaks_ties_only_when_asked() {
    let scores = table(&[("A", 4, -3), ("B", 4, 5), ("C", 4, 5)]);
    assert_eq!(
        get_rankings(&scores, RankStrategy::Score),
        vec![rank(1, "A", 4, -3), rank(1, "B", 4, 5), rank(1, "C", 4, 5)]
    );
    assert_eq!(
        get_rankings(&scores, RankStrategy::ScoreThenGoalDiff),
        vec![rank(1, "B", 4, 5), rank(1, "C", 4, 5), rank(3, "A", 4, -3)]
    );
}

#[test]
fn empty_and_single() {
    let scores = get_scores(&[]);
    assert!(scores.is_empty());
    assert_eq!(get_rankings(&scores, RankStrategy::Score), vec![]);
    let scores = table(&[("Solo", 0, 0)]);
    assert_eq!(get_rankings(&scores, RankStrategy::ScoreThenGoalDiff), vec![rank(1, "Solo", 0, 0)]);
}

#[test]
fn same_team_on_both_sides() {
    let scores = get_scores(&[game("A", 2, "A", 1), game("A", 1, "A", 1)]);
    assert_eq!(scores["A".to_string()], TeamScores { league_score: 5, goal_diff: 0 });
}
