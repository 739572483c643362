//! Ordering the teams and numbering their places, with shared places for ties.
use vstd::prelude::*;
use vstd::seq_lib::to_multiset_contains;
use defaultmap::DefaultHashMap;
use itertools::Itertools;
use crate::scores::standings;
use crate::game::Game;
use crate::table::{table_entries, table_of, table_view, TeamScores};

verus! {

/// Which totals decide the order of the table.
#[derive(Debug, Clone, Copy, PartialEq, Eq)]
pub enum RankStrategy {
    /// League points alone.
    Score,
    /// League points, then goal difference.
    ScoreThenGoalDiff,
}

/// One row of the final table.
#[derive(Debug, PartialEq, Eq)]
pub struct TeamRank {
    /// The place, from 1; tied teams share one.
    pub rank: usize,
    pub name: String,
    pub score: u64,
    pub goal_diff: i64,
}

/// The numbers that decide a team's place, larger first.
pub open spec fn rank_key(strategy: RankStrategy, score: int, goal_diff: int) -> (int, int) {
    match strategy {
        RankStrategy::Score => (score, 0),
        RankStrategy::ScoreThenGoalDiff => (score, goal_diff),
    }
}

/// The key of a row.
pub open spec fn row_key(strategy: RankStrategy, t: TeamRank) -> (int, int) {
    rank_key(strategy, t.score as int, t.goal_diff as int)
}

/// Whether key `a` earns a strictly better place than key `b`.
pub open spec fn ahead(a: (int, int), b: (int, int)) -> bool {
    a.0 > b.0 || (a.0 == b.0 && a.1 > b.1)
}

/// Whether name `a` comes strictly before name `b`: character by character, a proper
/// prefix first.
pub open spec fn name_lt(a: Seq<char>, b: Seq<char>) -> bool
    decreases a.len(),
{
    if b.len() == 0 {
        false
    } else if a.len() == 0 {
        true
    } else if a[0] != b[0] {
        a[0] < b[0]
    } else {
        name_lt(a.drop_first(), b.drop_first())
    }
}

/// Whether row `a` is listed before row `b`: better key first, then name.
pub open spec fn row_before(strategy: RankStrategy, a: TeamRank, b: TeamRank) -> bool {
    ahead(row_key(strategy, a), row_key(strategy, b)) || (row_key(strategy, a) == row_key(
        strategy,
        b,
    ) && name_lt(a.name@, b.name@))
}

/// How many of the first `n` keys of `ks` are strictly ahead of `x`.
pub open spec fn count_ahead(ks: Seq<(int, int)>, n: int, x: (int, int)) -> int
    decreases n,
{
    if n <= 0 {
        0
    } else {
        count_ahead(ks, n - 1, x) + if ahead(ks[n - 1], x) {
            1int
        } else {
            0int
        }
    }
}

/// The keys of a list of rows.
pub open spec fn keys_of(strategy: RankStrategy, rows: Seq<TeamRank>) -> Seq<(int, int)> {
    rows.map_values(|t: TeamRank| row_key(strategy, t))
}

/// The rank that competition ranking gives the row at `i`: one more than the number of
/// rows strictly ahead of it.
pub open spec fn competition_rank(strategy: RankStrategy, rows: Seq<TeamRank>, i: int) -> int {
    1 + count_ahead(keys_of(strategy, rows), rows.len() as int, keys_of(strategy, rows)[i])
}

/// Whether `rows` is the ranked table of the team totals `t`: one row per team with its
/// totals, listed in order, each with its competition rank.
pub open spec fn is_ranking(
    strategy: RankStrategy,
    t: Map<Seq<char>, (int, int)>,
    rows: Seq<TeamRank>,
) -> bool {
    &&& forall|i: int|
        0 <= i < rows.len() ==> #[trigger] t.contains_key(rows[i].name@) && t[rows[i].name@] == (
            rows[i].score as int,
            rows[i].goal_diff as int,
        )
    &&& forall|k: Seq<char>|
        #[trigger] t.contains_key(k) ==> exists|i: int| 0 <= i < rows.len() && #[trigger] rows[i].name@ == k
    &&& forall|i: int, j: int|
        0 <= i < j < rows.len() ==> row_before(strategy, #[trigger] rows[i], #[trigger] rows[j])
    &&& forall|i: int|
        0 <= i < rows.len() ==> #[trigger] rows[i].rank == competition_rank(strategy, rows, i)
}

pub proof fn lemma_name_lt_asymmetric(a: Seq<char>, b: Seq<char>)
    ensures
        !(name_lt(a, b) && name_lt(b, a)),
    decreases a.len(),
{
    if a.len() > 0 && b.len() > 0 && a[0] == b[0] {
        lemma_name_lt_asymmetric(a.drop_first(), b.drop_first());
    }
}

pub proof fn lemma_name_lt_total(a: Seq<char>, b: Seq<char>)
    requires
        a != b,
    ensures
        name_lt(a, b) || name_lt(b, a),
    decreases a.len(),
{
    if a.len() == 0 {
        if b.len() == 0 {
            assert(a =~= b);
        }
    } else if b.len() > 0 && a[0] == b[0] {
        if a.drop_first() == b.drop_first() {
            assert(a =~= seq![a[0]] + a.drop_first());
            assert(b =~= seq![b[0]] + b.drop_first());
        }
        lemma_name_lt_total(a.drop_first(), b.drop_first());
    }
}

/// If every key ahead of `x` is ahead of `y`, fewer keys are ahead of `x` than of `y`.
proof fn lemma_count_ahead_mono(ks: Seq<(int, int)>, n: int, x: (int, int), y: (int, int))
    requires
        0 <= n <= ks.len(),
        !ahead(x, y),
    ensures
        count_ahead(ks, n, y) <= count_ahead(ks, n, x),
    decreases n,
{
    if n > 0 {
        lemma_count_ahead_mono(ks, n - 1, x, y);
    }
}

/// In a ranked table the ranks never go down as one reads on.
pub proof fn lemma_ranks_nondecreasing(
    strategy: RankStrategy,
    t: Map<Seq<char>, (int, int)>,
    rows: Seq<TeamRank>,
    i: int,
    j: int,
)
    requires
        is_ranking(strategy, t, rows),
        0 <= i < j < rows.len(),
    ensures
        rows[i].rank <= rows[j].rank,
{
    assert(row_before(strategy, rows[i], rows[j]));
    assert(rows[i].rank == competition_rank(strategy, rows, i));
    assert(rows[j].rank == competition_rank(strategy, rows, j));
    let ks = keys_of(strategy, rows);
    lemma_count_ahead_mono(ks, rows.len() as int, ks[j], ks[i]);
}

/// In a ranked table, teams with the same key share one rank.
pub proof fn lemma_tied_rows_share_rank(
    strategy: RankStrategy,
    t: Map<Seq<char>, (int, int)>,
    rows: Seq<TeamRank>,
    i: int,
    j: int,
)
    requires
        is_ranking(strategy, t, rows),
        0 <= i < rows.len(),
        0 <= j < rows.len(),
        row_key(strategy, rows[i]) == row_key(strategy, rows[j]),
    ensures
        rows[i].rank == rows[j].rank,
{
    assert(rows[i].rank == competition_rank(strategy, rows, i));
    assert(rows[j].rank == competition_rank(strategy, rows, j));
}

/// Two lists that hold the same items, each strictly ascending in one asymmetric order,
/// are the same list.
proof fn lemma_sorted_unique<A>(s1: Seq<A>, s2: Seq<A>, lt: spec_fn(A, A) -> bool)
    requires
        forall|a: A, b: A| #[trigger] lt(a, b) ==> !lt(b, a),
        forall|i: int, j: int| 0 <= i < j < s1.len() ==> lt(#[trigger] s1[i], #[trigger] s1[j]),
        forall|i: int, j: int| 0 <= i < j < s2.len() ==> lt(#[trigger] s2[i], #[trigger] s2[j]),
        forall|x: A| s1.contains(x) <==> s2.contains(x),
    ensures
        s1 == s2,
    decreases s1.len(),
{
    if s1.len() == 0 || s2.len() == 0 {
        if s1.len() > 0 {
            assert(s2.contains(s1[0]));
        }
        if s2.len() > 0 {
            assert(s1.contains(s2[0]));
        }
        assert(s1 =~= s2);
    } else {
        assert(s1.contains(s2[0]));
        assert(s2.contains(s1[0]));
        let p = choose|p: int| 0 <= p < s1.len() && s1[p] == s2[0];
        let q = choose|q: int| 0 <= q < s2.len() && s2[q] == s1[0];
        if p > 0 && q > 0 {
            assert(lt(s1[0], s1[p]));
            assert(lt(s2[0], s2[q]));
        }
        assert(s1[0] == s2[0]);
        let r1 = s1.drop_first();
        let r2 = s2.drop_first();
        assert forall|x: A| r1.contains(x) implies r2.contains(x) by {
            let i = choose|i: int| 0 <= i < r1.len() && r1[i] == x;
            assert(s1[i + 1] == x);
            assert(lt(s1[0], s1[i + 1]));
            assert(s2.contains(x));
            let j = choose|j: int| 0 <= j < s2.len() && s2[j] == x;
            if j == 0 {
                assert(lt(x, x));
            }
            assert(r2[j - 1] == x);
        }
        assert forall|x: A| r2.contains(x) implies r1.contains(x) by {
            let i = choose|i: int| 0 <= i < r2.len() && r2[i] == x;
            assert(s2[i + 1] == x);
            assert(lt(s2[0], s2[i + 1]));
            assert(s1.contains(x));
            let j = choose|j: int| 0 <= j < s1.len() && s1[j] == x;
            if j == 0 {
                assert(lt(x, x));
            }
            assert(r1[j - 1] == x);
        }
        assert forall|i: int, j: int| 0 <= i < j < r1.len() implies lt(#[trigger] r1[i], #[trigger] r1[j]) by {
            assert(lt(s1[i + 1], s1[j + 1]));
        }
        assert forall|i: int, j: int| 0 <= i < j < r2.len() implies lt(#[trigger] r2[i], #[trigger] r2[j]) by {
            assert(lt(s2[i + 1], s2[j + 1]));
        }
        lemma_sorted_unique(r1, r2, lt);
        assert(s1 =~= seq![s1[0]] + r1);
        assert(s2 =~= seq![s2[0]] + r2);
    }
}

/// A row as its name and totals.
pub open spec fn row_totals(t: TeamRank) -> (Seq<char>, int, int) {
    (t.name@, t.score as int, t.goal_diff as int)
}

/// A row as plain values.
pub open spec fn row_view(t: TeamRank) -> (int, Seq<char>, int, int) {
    (t.rank as int, t.name@, t.score as int, t.goal_diff as int)
}

/// The order of rows, on their names and totals.
pub open spec fn totals_before(
    strategy: RankStrategy,
    a: (Seq<char>, int, int),
    b: (Seq<char>, int, int),
) -> bool {
    ahead(rank_key(strategy, a.1, a.2), rank_key(strategy, b.1, b.2)) || (rank_key(strategy, a.1, a.2)
        == rank_key(strategy, b.1, b.2) && name_lt(a.0, b.0))
}

/// The ranked table of given team totals is unique.
pub proof fn lemma_ranking_unique(
    strategy: RankStrategy,
    t: Map<Seq<char>, (int, int)>,
    r1: Seq<TeamRank>,
    r2: Seq<TeamRank>,
)
    requires
        is_ranking(strategy, t, r1),
        is_ranking(strategy, t, r2),
    ensures
        r1.map_values(|x: TeamRank| row_view(x)) == r2.map_values(|x: TeamRank| row_view(x)),
{
    let lt = |a: (Seq<char>, int, int), b: (Seq<char>, int, int)| totals_before(strategy, a, b);
    let s1 = r1.map_values(|x: TeamRank| row_totals(x));
    let s2 = r2.map_values(|x: TeamRank| row_totals(x));
    assert forall|a: (Seq<char>, int, int), b: (Seq<char>, int, int)| #[trigger] lt(a, b) implies !lt(
        b,
        a,
    ) by {
        lemma_name_lt_asymmetric(a.0, b.0);
    }
    assert forall|i: int, j: int| 0 <= i < j < s1.len() implies lt(#[trigger] s1[i], #[trigger] s1[j]) by {
        assert(row_before(strategy, r1[i], r1[j]));
    }
    assert forall|i: int, j: int| 0 <= i < j < s2.len() implies lt(#[trigger] s2[i], #[trigger] s2[j]) by {
        assert(row_before(strategy, r2[i], r2[j]));
    }
    assert forall|x: (Seq<char>, int, int)| s1.contains(x) implies s2.contains(x) by {
        let i = choose|i: int| 0 <= i < s1.len() && s1[i] == x;
        assert(t.contains_key(r1[i].name@));
        let j = choose|j: int| 0 <= j < r2.len() && #[trigger] r2[j].name@ == x.0;
        assert(t.contains_key(r2[j].name@));
        assert(s2[j] == x);
    }
    assert forall|x: (Seq<char>, int, int)| s2.contains(x) implies s1.contains(x) by {
        let i = choose|i: int| 0 <= i < s2.len() && s2[i] == x;
        assert(t.contains_key(r2[i].name@));
        let j = choose|j: int| 0 <= j < r1.len() && #[trigger] r1[j].name@ == x.0;
        assert(t.contains_key(r1[j].name@));
        assert(s1[j] == x);
    }
    lemma_sorted_unique(s1, s2, lt);
    assert(keys_of(strategy, r1) =~= keys_of(strategy, r2)) by {
        assert forall|i: int| 0 <= i < r1.len() implies keys_of(strategy, r1)[i] == keys_of(
            strategy,
            r2,
        )[i] by {
            assert(s1[i] == s2[i]);
        }
    }
    assert forall|i: int| 0 <= i < r1.len() implies row_view(r1[i]) == row_view(r2[i]) by {
        assert(s1[i] == s2[i]);
        assert(r1[i].rank == competition_rank(strategy, r1, i));
        assert(r2[i].rank == competition_rank(strategy, r2, i));
    }
    assert(r1.map_values(|x: TeamRank| row_view(x)) =~= r2.map_values(|x: TeamRank| row_view(x)));
}

/// Ranking the totals of one list of matches twice gives the same table both times.
pub proof fn lemma_ranking_repeatable(
    strategy: RankStrategy,
    games: Seq<Game>,
    r1: Seq<TeamRank>,
    r2: Seq<TeamRank>,
)
    requires
        is_ranking(strategy, standings(games), r1),
        is_ranking(strategy, standings(games), r2),
    ensures
        r1.map_values(|x: TeamRank| row_view(x)) == r2.map_values(|x: TeamRank| row_view(x)),
{
    lemma_ranking_unique(strategy, standings(games), r1, r2);
}

/// The item that the sort orders: negated key, name, then the totals themselves.
pub type SortEntry = (i128, i128, String, u64, i64);

/// A sort item as plain values.
pub open spec fn entry_view(e: SortEntry) -> (int, int, Seq<char>, int, int) {
    (e.0 as int, e.1 as int, e.2@, e.3 as int, e.4 as int)
}

/// A list of sort items as plain values.
pub open spec fn entry_views(s: Seq<SortEntry>) -> Seq<(int, int, Seq<char>, int, int)> {
    s.map_values(|e: SortEntry| entry_view(e))
}

/// The order of `SortEntry` tuples: field by field, the name character by character.
pub open spec fn entry_lt(a: (int, int, Seq<char>, int, int), b: (int, int, Seq<char>, int, int)) -> bool {
    a.0 < b.0 || (a.0 == b.0 && (a.1 < b.1 || (a.1 == b.1 && (name_lt(a.2, b.2) || (a.2 == b.2 && (
    a.3 < b.3 || (a.3 == b.3 && a.4 < b.4)))))))
}

/// Relies on itertools::Itertools::sorted: the same items, in ascending order of the
/// tuple's `Ord` (field by field; a `String` by its bytes, which orders as its characters).
#[verifier::external_body]
fn sort_entries(v: Vec<SortEntry>) -> (r: Vec<SortEntry>)
    ensures
        entry_views(r@).to_multiset() == entry_views(v@).to_multiset(),
        forall|i: int, j: int|
            0 <= i < j < r@.len() ==> !entry_lt(
                #[trigger] entry_view(r@[j]),
                #[trigger] entry_view(r@[i]),
            ),
{
    v.into_iter().sorted().collect()
}

/// The sort item for the team `name` with totals `sc`.
spec fn expected_entry(strategy: RankStrategy, name: Seq<char>, sc: TeamScores) -> (
    int,
    int,
    Seq<char>,
    int,
    int,
) {
    let k = rank_key(strategy, sc.league_score as int, sc.goal_diff as int);
    (-k.0, -k.1, name, sc.league_score as int, sc.goal_diff as int)
}

/// Whether `e` is the sort item of a team stored in `t`.
spec fn entry_fits(
    strategy: RankStrategy,
    t: Map<Seq<char>, TeamScores>,
    e: (int, int, Seq<char>, int, int),
) -> bool {
    t.contains_key(e.2) && e == expected_entry(strategy, e.2, t[e.2])
}

/// Counting the keys ahead of `x` in a list whose first `s` keys are ahead of it and whose
/// others are not gives `s`.
proof fn lemma_count_ahead(ks: Seq<(int, int)>, n: int, x: (int, int), s: int)
    requires
        0 <= s <= n <= ks.len(),
        forall|m: int| 0 <= m < s ==> ahead(#[trigger] ks[m], x),
        forall|m: int| s <= m < n ==> !ahead(#[trigger] ks[m], x),
    ensures
        count_ahead(ks, n, x) == s,
    decreases n,
{
    if n > 0 {
        if n - 1 < s {
            lemma_count_ahead(ks, n - 1, x, n - 1);
        } else {
            lemma_count_ahead(ks, n - 1, x, s);
        }
    }
}

/// Two distinct sort items of different names, not out of order, give rows in order.
proof fn lemma_entry_order(
    strategy: RankStrategy,
    t: Map<Seq<char>, TeamScores>,
    a: (int, int, Seq<char>, int, int),
    b: (int, int, Seq<char>, int, int),
)
    requires
        entry_fits(strategy, t, a),
        entry_fits(strategy, t, b),
        a.2 != b.2,
        !entry_lt(b, a),
    ensures
        ahead(rank_key(strategy, a.3, a.4), rank_key(strategy, b.3, b.4)) || (rank_key(
            strategy,
            a.3,
            a.4,
        ) == rank_key(strategy, b.3, b.4) && name_lt(a.2, b.2)),
        !ahead(rank_key(strategy, b.3, b.4), rank_key(strategy, a.3, a.4)),
{
    lemma_name_lt_total(a.2, b.2);
    lemma_name_lt_asymmetric(a.2, b.2);
}

/// Ranks the teams of a score table: better key first, ties listed by name and sharing
/// the place of the first of them.
pub fn get_rankings(rankings: &DefaultHashMap<String, TeamScores>, rank_strategy: RankStrategy) -> (r: Vec<
    TeamRank,
>)
    ensures
        is_ranking(rank_strategy, table_view(table_of(*rankings)), r@),
{
    let ghost t = table_of(*rankings);
    // Each team becomes a tuple whose ascending order is the table's order.
    let entries = table_entries(rankings);
    let mut keyed: Vec<SortEntry> = Vec::new();
    let mut i: usize = 0;
    while i < entries.len()
        invariant
            t == table_of(*rankings),
            i <= entries@.len(),
            keyed@.len() == i,
            forall|m: int|
                0 <= m < i ==> entry_view(#[trigger] keyed@[m]) == expected_entry(
                    rank_strategy,
                    entries@[m].0@,
                    entries@[m].1,
                ),
        decreases entries@.len() - i,
    {
        let sc = entries[i].1;
        let k1: i128 = -(sc.league_score as i128);
        let k2: i128 = match rank_strategy {
            RankStrategy::Score => 0,
            RankStrategy::ScoreThenGoalDiff => -(sc.goal_diff as i128),
        };
        keyed.push((k1, k2, entries[i].0.clone(), sc.league_score, sc.goal_diff));
        i = i + 1;
    }
    let ghost kv = entry_views(keyed@);
    proof {
        assert forall|m: int| 0 <= m < kv.len() implies entry_fits(rank_strategy, t, #[trigger] kv[m]) by {
            assert(t.contains_key(entries@[m].0@));
        }
        assert forall|a: int, b: int| 0 <= a < kv.len() && 0 <= b < kv.len() && a != b implies kv[a]
            != kv[b] by {
            if a < b {
                assert(entries@[a].0@ != entries@[b].0@);
            } else {
                assert(entries@[b].0@ != entries@[a].0@);
            }
        }
        assert(kv.no_duplicates());
        kv.lemma_multiset_has_no_duplicates();
    }
    let sorted = sort_entries(keyed);
    let n: usize = sorted.len();
    let ghost v = entry_views(sorted@);
    proof {
        assert forall|x| v.to_multiset().contains(x) implies v.to_multiset().count(x) == 1 by {
            assert(kv.to_multiset().contains(x));
        }
        v.lemma_multiset_has_no_duplicates_conv();
        assert forall|m: int| 0 <= m < v.len() implies entry_fits(rank_strategy, t, #[trigger] v[m]) by {
            to_multiset_contains(v, v[m]);
            to_multiset_contains(kv, v[m]);
            let p = choose|p: int| 0 <= p < kv.len() && kv[p] == v[m];
        }
    }
    let ghost ks = Seq::new(n as nat, |m: int| rank_key(rank_strategy, v[m].3, v[m].4));
    proof {
        assert forall|a: int, b: int| 0 <= a < b < n implies v[a].2 != v[b].2 && !ahead(
            #[trigger] ks[b],
            #[trigger] ks[a],
        ) by {
            assert(entry_fits(rank_strategy, t, v[a]));
            assert(entry_fits(rank_strategy, t, v[b]));
            assert(v[a] != v[b]);
            assert(!entry_lt(entry_view(sorted@[b]), entry_view(sorted@[a])));
            lemma_entry_order(rank_strategy, t, v[a], v[b]);
        }
    }
    // One pass over the sorted teams: `start` is where the current run of equal keys began.
    let mut rows: Vec<TeamRank> = Vec::new();
    let mut start: usize = 0;
    let mut j: usize = 0;
    while j < n
        invariant
            n == sorted@.len(),
            v == entry_views(sorted@),
            ks.len() == n,
            forall|m: int| 0 <= m < n ==> entry_fits(rank_strategy, t, #[trigger] v[m]),
            forall|m: int| 0 <= m < n ==> #[trigger] ks[m] == rank_key(rank_strategy, v[m].3, v[m].4),
            forall|a: int, b: int| 0 <= a < b < n ==> !ahead(#[trigger] ks[b], #[trigger] ks[a]),
            j <= n,
            rows@.len() == j,
            start <= j,
            j > 0 ==> start < j,
            forall|m: int| start <= m < j ==> #[trigger] ks[m] == ks[start as int],
            forall|m: int| 0 <= m < start ==> ahead(#[trigger] ks[m], ks[start as int]),
            forall|m: int|
                0 <= m < j ==> (#[trigger] rows@[m]).name@ == v[m].2 && rows@[m].score == v[m].3
                    && rows@[m].goal_diff == v[m].4 && rows@[m].rank == 1 + count_ahead(ks, n as int, ks[m]),
        decreases n - j,
    {
        if j > 0 && !(sorted[j].0 == sorted[j - 1].0 && sorted[j].1 == sorted[j - 1].1) {
            proof {
                assert(entry_fits(rank_strategy, t, v[j as int]));
                assert(entry_fits(rank_strategy, t, v[j - 1]));
                assert(ks[j as int] != ks[j - 1]);
                assert forall|m: int| 0 <= m < j implies ahead(#[trigger] ks[m], ks[j as int]) by {
                    assert(!ahead(ks[j as int], ks[m]));
                    if m < j - 1 {
                        assert(!ahead(ks[j - 1], ks[m]));
                    }
                    assert(!ahead(ks[j as int], ks[j - 1]));
                }
            }
            start = j;
        } else if j > 0 {
            proof {
                assert(entry_fits(rank_strategy, t, v[j as int]));
                assert(entry_fits(rank_strategy, t, v[j - 1]));
                assert(ks[j as int] == ks[j - 1]);
            }
        }
        proof {
            assert(ks[j as int] == ks[start as int]);
            assert forall|m: int| start <= m < n implies !ahead(#[trigger] ks[m], ks[j as int]) by {
                if m > j {
                    assert(!ahead(ks[m], ks[j as int]));
                }
            }
            lemma_count_ahead(ks, n as int, ks[j as int], start as int);
        }
        let row = TeamRank {
            rank: start + 1,
            name: sorted[j].2.clone(),
            score: sorted[j].3,
            goal_diff: sorted[j].4,
        };
        rows.push(row);
        j = j + 1;
    }
    proof {
        assert(keys_of(rank_strategy, rows@) =~= ks);
        let rs = rows@;
        assert forall|i: int| 0 <= i < rs.len() implies #[trigger] table_view(t).contains_key(rs[i].name@)
            && table_view(t)[rs[i].name@] == (rs[i].score as int, rs[i].goal_diff as int) by {
            assert(entry_fits(rank_strategy, t, v[i]));
        }
        assert forall|k: Seq<char>| #[trigger] table_view(t).contains_key(k) implies exists|i: int|
            0 <= i < rs.len() && #[trigger] rs[i].name@ == k by {
            let p = choose|p: int| 0 <= p < entries@.len() && #[trigger] entries@[p].0@ == k;
            assert(kv[p].2 == k);
            to_multiset_contains(kv, kv[p]);
            to_multiset_contains(v, kv[p]);
            let q = choose|q: int| 0 <= q < v.len() && v[q] == kv[p];
            assert(rs[q].name@ == k);
        }
        assert forall|a: int, b: int| 0 <= a < b < rs.len() implies row_before(
            rank_strategy,
            #[trigger] rs[a],
            #[trigger] rs[b],
        ) by {
            assert(entry_fits(rank_strategy, t, v[a]));
            assert(entry_fits(rank_strategy, t, v[b]));
            assert(v[a] != v[b]);
            assert(!entry_lt(entry_view(sorted@[b]), entry_view(sorted@[a])));
            lemma_entry_order(rank_strategy, t, v[a], v[b]);
        }
        assert forall|i: int| 0 <= i < rs.len() implies #[trigger] rs[i].rank == competition_rank(
            rank_strategy,
            rs,
            i,
        ) by {}
    }
    rows
}

} // verus!
