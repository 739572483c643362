//! Folding match results into per-team league points and goal difference.
use vstd::prelude::*;
use defaultmap::DefaultHashMap;
use crate::game::{get_winner, outcome, Game};
use crate::table::{
    new_table,
    table_contains,
    table_get,
    table_insert,
    table_of,
    table_view,
    TeamScores,
};

verus! {

/// The most matches that one aggregation takes, so that every total fits its field.
pub const MAX_GAMES: usize = 0xffff_ffff;

/// The points and goal difference stored for `team`, zero for a team not yet seen.
pub open spec fn current(m: Map<Seq<char>, (int, int)>, team: Seq<char>) -> (int, int) {
    if m.contains_key(team) {
        m[team]
    } else {
        (0, 0)
    }
}

/// Adds `pts` points and `gd` goal difference to `team`, creating its entry if needed.
pub open spec fn credit(m: Map<Seq<char>, (int, int)>, team: Seq<char>, pts: int, gd: int) -> Map<
    Seq<char>,
    (int, int),
> {
    m.insert(team, (current(m, team).0 + pts, current(m, team).1 + gd))
}

/// The table after one more match: three points to the winner, the margin added to the
/// winner's goal difference and taken from the loser's; one point each for a draw.
pub open spec fn record(m: Map<Seq<char>, (int, int)>, g: Game) -> Map<Seq<char>, (int, int)> {
    match outcome(g) {
        Some((winner, loser, margin)) => credit(credit(m, winner, 3, margin), loser, 0, -margin),
        None => credit(credit(m, g.team1@, 1, 0), g.team2@, 1, 0),
    }
}

/// The table after all of `games`, in order.
pub open spec fn standings(games: Seq<Game>) -> Map<Seq<char>, (int, int)>
    decreases games.len(),
{
    if games.len() == 0 {
        Map::empty()
    } else {
        record(standings(games.drop_last()), games.last())
    }
}

/// Recording a match keeps every team already listed and lists both of its teams.
pub proof fn lemma_record_keys(m: Map<Seq<char>, (int, int)>, g: Game, k: Seq<char>)
    ensures
        m.contains_key(k) ==> record(m, g).contains_key(k),
        record(m, g).contains_key(g.team1@),
        record(m, g).contains_key(g.team2@),
        record(m, g).contains_key(k) ==> m.contains_key(k) || k == g.team1@ || k == g.team2@,
{
}

/// Every team named in any match has an entry in the totals, whether or not it won.
pub proof fn lemma_every_team_listed(games: Seq<Game>, i: int)
    requires
        0 <= i < games.len(),
    ensures
        standings(games).contains_key(games[i].team1@),
        standings(games).contains_key(games[i].team2@),
    decreases games.len(),
{
    let prev = games.drop_last();
    if i == games.len() - 1 {
        lemma_record_keys(standings(prev), games.last(), games[i].team1@);
    } else {
        lemma_every_team_listed(prev, i);
        lemma_record_keys(standings(prev), games.last(), games[i].team1@);
        lemma_record_keys(standings(prev), games.last(), games[i].team2@);
    }
}

/// The league points of the teams `keys`, a team without an entry counting zero.
pub open spec fn sum_points(m: Map<Seq<char>, (int, int)>, keys: Seq<Seq<char>>) -> int
    decreases keys.len(),
{
    if keys.len() == 0 {
        0
    } else {
        sum_points(m, keys.drop_last()) + current(m, keys.last()).0
    }
}

/// How many of `games` had a winner.
pub open spec fn decisive_count(games: Seq<Game>) -> int
    decreases games.len(),
{
    if games.len() == 0 {
        0
    } else {
        decisive_count(games.drop_last()) + if outcome(games.last()) is Some {
            1int
        } else {
            0int
        }
    }
}

/// How many of `games` were drawn.
pub open spec fn drawn_count(games: Seq<Game>) -> int
    decreases games.len(),
{
    if games.len() == 0 {
        0
    } else {
        drawn_count(games.drop_last()) + if outcome(games.last()) is None {
            1int
        } else {
            0int
        }
    }
}

proof fn lemma_sum_empty(keys: Seq<Seq<char>>)
    ensures
        sum_points(Map::empty(), keys) == 0,
    decreases keys.len(),
{
    if keys.len() > 0 {
        lemma_sum_empty(keys.drop_last());
    }
}

/// Crediting a team outside `keys` leaves their sum alone.
proof fn lemma_sum_credit_other(
    m: Map<Seq<char>, (int, int)>,
    keys: Seq<Seq<char>>,
    team: Seq<char>,
    pts: int,
    gd: int,
)
    requires
        !keys.contains(team),
    ensures
        sum_points(credit(m, team, pts, gd), keys) == sum_points(m, keys),
    decreases keys.len(),
{
    if keys.len() > 0 {
        assert(keys.last() == keys[keys.len() - 1]);
        assert forall|j: int| 0 <= j < keys.drop_last().len() implies keys.drop_last()[j] != team by {
            assert(keys.drop_last()[j] == keys[j]);
        }
        lemma_sum_credit_other(m, keys.drop_last(), team, pts, gd);
    }
}

/// Crediting a team listed once in `keys` adds its points to their sum.
proof fn lemma_sum_credit(
    m: Map<Seq<char>, (int, int)>,
    keys: Seq<Seq<char>>,
    team: Seq<char>,
    pts: int,
    gd: int,
)
    requires
        keys.no_duplicates(),
        keys.contains(team),
    ensures
        sum_points(credit(m, team, pts, gd), keys) == sum_points(m, keys) + pts,
    decreases keys.len(),
{
    let rest = keys.drop_last();
    assert forall|a: int, b: int| 0 <= a < b < rest.len() implies rest[a] != rest[b] by {
        assert(rest[a] == keys[a] && rest[b] == keys[b]);
    }
    assert(rest.no_duplicates());
    if keys.last() == team {
        assert forall|j: int| 0 <= j < rest.len() implies rest[j] != team by {
            assert(rest[j] == keys[j]);
            assert(keys[keys.len() - 1] == team);
        }
        lemma_sum_credit_other(m, rest, team, pts, gd);
    } else {
        let p = choose|p: int| 0 <= p < keys.len() && keys[p] == team;
        assert(p != keys.len() - 1);
        assert(rest[p] == team);
        lemma_sum_credit(m, rest, team, pts, gd);
    }
}

/// The league points handed out over all teams total three for each decided match and
/// two for each draw. `keys` lists every team once.
pub proof fn lemma_points_total(games: Seq<Game>, keys: Seq<Seq<char>>)
    requires
        keys.no_duplicates(),
        forall|k: Seq<char>| #[trigger] standings(games).contains_key(k) ==> keys.contains(k),
    ensures
        sum_points(standings(games), keys) == 3 * decisive_count(games) + 2 * drawn_count(games),
    decreases games.len(),
{
    if games.len() == 0 {
        lemma_sum_empty(keys);
    } else {
        let prev = games.drop_last();
        let g = games.last();
        let m = standings(prev);
        assert(standings(games) == record(m, g));
        assert forall|k: Seq<char>| #[trigger] m.contains_key(k) implies keys.contains(k) by {
            lemma_record_keys(m, g, k);
            assert(standings(games).contains_key(k));
        }
        lemma_points_total(prev, keys);
        lemma_record_keys(m, g, g.team1@);
        assert(standings(games).contains_key(g.team1@));
        assert(standings(games).contains_key(g.team2@));
        match outcome(g) {
            Some((winner, loser, margin)) => {
                lemma_sum_credit(m, keys, winner, 3, margin);
                lemma_sum_credit(credit(m, winner, 3, margin), keys, loser, 0, -margin);
            },
            None => {
                lemma_sum_credit(m, keys, g.team1@, 1, 0);
                lemma_sum_credit(credit(m, g.team1@, 1, 0), keys, g.team2@, 1, 0);
            },
        }
    }
}

/// Whether every entry of `t` lies within the bounds reached after `n` credits.
spec fn bounded(t: Map<Seq<char>, TeamScores>, n: int) -> bool {
    forall|k: Seq<char>|
        #[trigger] t.contains_key(k) ==> t[k].league_score <= 3 * n && -255 * n <= t[k].goal_diff
            <= 255 * n
}

/// Adds to one team's entry, first storing a zero entry when the team has none.
fn add_to(m: &mut DefaultHashMap<String, TeamScores>, team: String, pts: u64, gd: i64, Ghost(
    n,
): Ghost<int>)
    requires
        pts <= 3,
        -255 <= gd <= 255,
        0 <= n < 3 * MAX_GAMES,
        bounded(table_of(*old(m)), n),
    ensures
        table_view(table_of(*final(m))) == credit(
            table_view(table_of(*old(m))),
            team@,
            pts as int,
            gd as int,
        ),
        bounded(table_of(*final(m)), n + 1),
{
    if !table_contains(m, &team) {
        table_insert(m, team.clone(), TeamScores { league_score: 0, goal_diff: 0 });
    }
    let cur = table_get(m, &team);
    let next = TeamScores { league_score: cur.league_score + pts, goal_diff: cur.goal_diff + gd };
    table_insert(m, team, next);
    assert(table_view(table_of(*m)) =~= credit(
        table_view(table_of(*old(m))),
        team@,
        pts as int,
        gd as int,
    ));
}

/// Totals the league points and goal difference of every team named in `games`.
pub fn get_scores(games: &[Game]) -> (r: DefaultHashMap<String, TeamScores>)
    requires
        games@.len() <= MAX_GAMES,
    ensures
        table_view(table_of(r)) == standings(games@),
{
    let mut scores = new_table();
    let mut i: usize = 0;
    assert(table_view(table_of(scores)) =~= standings(games@.subrange(0, 0)));
    while i < games.len()
        invariant
            i <= games@.len() <= MAX_GAMES,
            table_view(table_of(scores)) == standings(games@.subrange(0, i as int)),
            bounded(table_of(scores), 2 * i),
        decreases games@.len() - i,
    {
        let game = &games[i];
        let ghost prev = games@.subrange(0, i as int);
        assert(games@.subrange(0, i + 1).drop_last() =~= prev);
        match get_winner(game) {
            Some(res) => {
                add_to(&mut scores, res.winner, 3, res.goal_diff, Ghost(2 * i));
                add_to(&mut scores, res.loser, 0, -res.goal_diff, Ghost(2 * i + 1));
            },
            None => {
                add_to(&mut scores, game.team1.clone(), 1, 0, Ghost(2 * i));
                add_to(&mut scores, game.team2.clone(), 1, 0, Ghost(2 * i + 1));
            },
        }
        i = i + 1;
    }
    assert(games@.subrange(0, games@.len() as int) =~= games@);
    scores
}

} // verus!
