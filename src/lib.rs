//! League standings: parse match results, total each team's points and
//! goal difference, and rank the teams with shared places for ties.

pub mod text;
pub mod game;
pub mod table;
pub mod scores;
pub mod ranking;
pub mod display;

pub use game::{get_winner, parse_game, parse_team, Game, GameResult, ParseError};
pub use table::TeamScores;
pub use scores::{get_scores, MAX_GAMES};
pub use ranking::{get_rankings, RankStrategy, TeamRank};
pub use display::{display_rank_pt1, display_rank_pt2};
