//! Match records: reading one result line and deciding who won.
use vstd::prelude::*;
use crate::text::{
    decimal,
    lemma_decimal_value,
    chars_of,
    digit_value,
    digits_value,
    is_digit,
    lemma_digits_value_prefix,
    push_range,
};

verus! {

/// One played match: two team names and the goals each scored.
#[derive(Debug, PartialEq, Eq)]
pub struct Game {
    pub team1: String,
    pub team1_score: u8,
    pub team2: String,
    pub team2_score: u8,
}

/// Why a result line could not be read.
#[derive(Debug, PartialEq, Eq, Clone, Copy)]
pub enum ParseError {
    /// The line does not hold exactly one `", "` between two segments.
    SegmentCount,
    /// A segment holds no space to part the name from the score.
    MissingSpace,
    /// The text after a segment's last space is not a whole number from 0 to 255.
    BadScore,
}

/// The outcome of a match that was not drawn.
#[derive(Debug, PartialEq, Eq)]
pub struct GameResult {
    pub winner: String,
    pub loser: String,
    /// The winning margin, always positive.
    pub goal_diff: i64,
}

/// Whether the separator `", "` starts at position `i` of `s`.
pub open spec fn is_sep_at(s: Seq<char>, i: int) -> bool {
    0 <= i && i + 1 < s.len() && s[i] == ',' && s[i + 1] == ' '
}

/// The position of the last space among the first `n` characters of `s`, or -1.
pub open spec fn last_space(s: Seq<char>, n: int) -> int
    decreases n,
{
    if n <= 0 {
        -1
    } else if s[n - 1] == ' ' {
        n - 1
    } else {
        last_space(s, n - 1)
    }
}

/// The score written by `s`: one or more digits whose value fits in a byte.
pub open spec fn score_of(s: Seq<char>) -> Option<u8> {
    if s.len() > 0 && (forall|i: int| 0 <= i < s.len() ==> is_digit(#[trigger] s[i]))
        && digits_value(s) <= 255 {
        Some(digits_value(s) as u8)
    } else {
        None
    }
}

/// How one segment `"<name> <score>"` reads: the name is everything before the last
/// space, the score everything after it.
pub open spec fn team_spec(s: Seq<char>) -> Result<(Seq<char>, u8), ParseError> {
    let i = last_space(s, s.len() as int);
    if i < 0 {
        Err(ParseError::MissingSpace)
    } else {
        match score_of(s.subrange(i + 1, s.len() as int)) {
            Some(v) => Ok((s.subrange(0, i), v)),
            None => Err(ParseError::BadScore),
        }
    }
}

/// Whether `s` holds exactly one separator, at position `i`.
pub open spec fn only_sep_at(s: Seq<char>, i: int) -> bool {
    is_sep_at(s, i) && forall|j: int| #[trigger] is_sep_at(s, j) ==> j == i
}

/// How a whole line reads, as the two segments' names and scores.
pub open spec fn game_spec(s: Seq<char>) -> Result<(Seq<char>, u8, Seq<char>, u8), ParseError> {
    if exists|i: int| only_sep_at(s, i) {
        let i = choose|i: int| only_sep_at(s, i);
        match team_spec(s.subrange(0, i)) {
            Err(e) => Err(e),
            Ok(a) => match team_spec(s.subrange(i + 2, s.len() as int)) {
                Err(e) => Err(e),
                Ok(b) => Ok((a.0, a.1, b.0, b.1)),
            },
        }
    } else {
        Err(ParseError::SegmentCount)
    }
}

/// Reads the segment `cs[lo..hi]`.
fn parse_team_range(cs: &Vec<char>, lo: usize, hi: usize) -> (r: Result<(String, u8), ParseError>)
    requires
        lo <= hi <= cs@.len(),
    ensures
        match r {
            Ok((name, v)) => team_spec(cs@.subrange(lo as int, hi as int)) == Ok::<
                (Seq<char>, u8),
                ParseError,
            >((name@, v)),
            Err(e) => team_spec(cs@.subrange(lo as int, hi as int)) == Err::<
                (Seq<char>, u8),
                ParseError,
            >(e),
        },
{
    let ghost s = cs@.subrange(lo as int, hi as int);
    let mut k: usize = hi;
    while k > lo && cs[k - 1] != ' '
        invariant
            lo <= k <= hi <= cs@.len(),
            s == cs@.subrange(lo as int, hi as int),
            last_space(s, s.len() as int) == last_space(s, k - lo),
        decreases k,
    {
        k = k - 1;
    }
    if k == lo {
        return Err(ParseError::MissingSpace);
    }
    let sp: usize = k - 1;
    assert(last_space(s, s.len() as int) == sp - lo);
    let ghost t = s.subrange(sp - lo + 1, s.len() as int);
    assert(t =~= cs@.subrange(sp + 1, hi as int));
    if k == hi {
        return Err(ParseError::BadScore);
    }
    let mut v: u64 = 0;
    let mut i: usize = k;
    while i < hi
        invariant
            k <= i <= hi <= cs@.len(),
            k < hi,
            sp + 1 == k,
            lo <= sp,
            s == cs@.subrange(lo as int, hi as int),
            last_space(s, s.len() as int) == sp - lo,
            t == s.subrange(sp - lo + 1, s.len() as int),
            t == cs@.subrange(k as int, hi as int),
            forall|j: int| 0 <= j < i - k ==> is_digit(#[trigger] t[j]),
            v == digits_value(t.subrange(0, i - k)),
            v <= 255,
        decreases hi - i,
    {
        let c = cs[i];
        if !('0' <= c && c <= '9') {
            assert(!is_digit(t[i - k]));
            return Err(ParseError::BadScore);
        }
        let d: u64 = (c as u32 - '0' as u32) as u64;
        assert(t.subrange(0, i - k + 1).drop_last() =~= t.subrange(0, i - k));
        assert(t.subrange(0, i - k + 1).last() == c);
        v = v * 10 + d;
        assert(v == digits_value(t.subrange(0, i - k + 1)));
        if v > 255 {
            proof {
                assert forall|j: int| 0 <= j < i - k + 1 implies is_digit(
                    #[trigger] t.subrange(0, i - k + 1)[j],
                ) by {}
                lemma_digits_value_prefix(t.subrange(0, i - k + 1), i - k + 1, i - k + 1);
                if forall|j: int| 0 <= j < t.len() ==> is_digit(#[trigger] t[j]) {
                    lemma_digits_value_prefix(t, i - k + 1, t.len() as int);
                    assert(t.subrange(0, t.len() as int) =~= t);
                    assert(t.subrange(0, i - k + 1).subrange(0, i - k + 1) =~= t.subrange(
                        0,
                        i - k + 1,
                    ));
                }
            }
            return Err(ParseError::BadScore);
        }
        i = i + 1;
    }
    assert(t.subrange(0, t.len() as int) =~= t);
    let mut name = String::new();
    push_range(&mut name, cs, lo, sp);
    assert(s.subrange(0, sp - lo) =~= cs@.subrange(lo as int, sp as int));
    Ok((name, v as u8))
}

/// Reads one segment `"<name> <score>"`, parting it at its last space.
pub fn parse_team(s: &str) -> (r: Result<(String, u8), ParseError>)
    ensures
        match r {
            Ok((name, v)) => team_spec(s@) == Ok::<(Seq<char>, u8), ParseError>((name@, v)),
            Err(e) => team_spec(s@) == Err::<(Seq<char>, u8), ParseError>(e),
        },
{
    let cs = chars_of(s);
    assert(cs@.subrange(0, cs@.len() as int) =~= s@);
    parse_team_range(&cs, 0, cs.len())
}

/// The last space of `s` is the last one before a run of non-spaces.
proof fn lemma_last_space_skip(s: Seq<char>, m: int, n: int)
    requires
        0 <= m <= n <= s.len(),
        forall|j: int| m <= j < n ==> #[trigger] s[j] != ' ',
    ensures
        last_space(s, n) == last_space(s, m),
    decreases n - m,
{
    if n > m {
        lemma_last_space_skip(s, m, n - 1);
    }
}

/// Writing a name, a space and the decimal form of a score, then reading the segment
/// back, gives the same name and score.
pub proof fn lemma_team_round_trip(name: Seq<char>, score: u8)
    ensures
        team_spec(name + seq![' '] + decimal(score as nat)) == Ok::<(Seq<char>, u8), ParseError>(
            (name, score),
        ),
{
    let d = decimal(score as nat);
    let s = name + seq![' '] + d;
    lemma_decimal_value(score as nat);
    assert forall|j: int| name.len() + 1 <= j < s.len() implies #[trigger] s[j] != ' ' by {
        assert(s[j] == d[j - name.len() - 1]);
        assert(is_digit(d[j - name.len() - 1]));
    }
    lemma_last_space_skip(s, name.len() + 1int, s.len() as int);
    assert(s[name.len() as int] == ' ');
    assert(last_space(s, name.len() + 1int) == name.len());
    assert(s.subrange(name.len() + 1int, s.len() as int) =~= d);
    assert(s.subrange(0, name.len() as int) =~= name);
}

/// Reads a result line `"<team1> <score1>, <team2> <score2>"`.
pub fn parse_game(line: &str) -> (r: Result<Game, ParseError>)
    ensures
        match r {
            Ok(g) => game_spec(line@) == Ok::<(Seq<char>, u8, Seq<char>, u8), ParseError>(
                (g.team1@, g.team1_score, g.team2@, g.team2_score),
            ),
            Err(e) => game_spec(line@) == Err::<(Seq<char>, u8, Seq<char>, u8), ParseError>(e),
        },
{
    let cs = chars_of(line);
    let n: usize = cs.len();
    let mut found: Option<usize> = None;
    let mut i: usize = 0;
    while i < n && i + 1 < n
        invariant
            cs@ == line@,
            n == cs@.len(),
            i <= n,
            match found {
                None => forall|j: int| 0 <= j < i ==> !is_sep_at(cs@, j),
                Some(p) => p < i && is_sep_at(cs@, p as int) && forall|j: int|
                    0 <= j < i && is_sep_at(cs@, j) ==> j == p,
            },
        decreases n - i,
    {
        if cs[i] == ',' && cs[i + 1] == ' ' {
            if let Some(p) = found {
                proof {
                    assert(is_sep_at(cs@, i as int));
                    if exists|q: int| only_sep_at(cs@, q) {
                        let q = choose|q: int| only_sep_at(cs@, q);
                        assert(p == q && i == q);
                    }
                }
                return Err(ParseError::SegmentCount);
            }
            found = Some(i);
        }
        i = i + 1;
    }
    match found {
        None => {
            proof {
                if exists|q: int| only_sep_at(cs@, q) {
                    let q = choose|q: int| only_sep_at(cs@, q);
                    assert(is_sep_at(cs@, q));
                }
            }
            Err(ParseError::SegmentCount)
        },
        Some(p) => {
            proof {
                assert(only_sep_at(cs@, p as int));
                let q = choose|q: int| only_sep_at(cs@, q);
                assert(q == p);
            }
            let a = parse_team_range(&cs, 0, p);
            match a {
                Err(e) => Err(e),
                Ok((team1, team1_score)) => {
                    let b = parse_team_range(&cs, p + 2, n);
                    match b {
                        Err(e) => Err(e),
                        Ok((team2, team2_score)) => Ok(
                            Game { team1, team1_score, team2, team2_score },
                        ),
                    }
                },
            }
        },
    }
}

/// Who won a match, who lost, and by how many goals; `None` for a draw.
pub open spec fn outcome(g: Game) -> Option<(Seq<char>, Seq<char>, int)> {
    let a = g.team1_score as int;
    let b = g.team2_score as int;
    if a > b {
        Some((g.team1@, g.team2@, a - b))
    } else if a < b {
        Some((g.team2@, g.team1@, b - a))
    } else {
        None
    }
}

/// Decides a match: the side with more goals wins by the difference.
pub fn get_winner(game: &Game) -> (r: Option<GameResult>)
    ensures
        match r {
            None => outcome(*game) is None,
            Some(res) => outcome(*game) == Some((res.winner@, res.loser@, res.goal_diff as int)),
        },
{
    let goal_diff: i64 = game.team1_score as i64 - game.team2_score as i64;
    if goal_diff > 0 {
        Some(GameResult { winner: game.team1.clone(), loser: game.team2.clone(), goal_diff })
    } else if goal_diff < 0 {
        Some(
            GameResult { winner: game.team2.clone(), loser: game.team1.clone(), goal_diff: -goal_diff },
        )
    } else {
        None
    }
}

} // verus!
