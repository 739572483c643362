//! Per-team totals, kept in a `defaultmap::DefaultHashMap` keyed by team name.
use vstd::prelude::*;
use defaultmap::DefaultHashMap;

verus! {

/// The standing that one team has built up so far.
#[derive(Debug, Clone, Copy, PartialEq, Eq)]
pub struct TeamScores {
    /// League points: three for a win, one for a draw.
    pub league_score: u64,
    /// Goals scored minus goals conceded in decided matches.
    pub goal_diff: i64,
}

impl View for TeamScores {
    type V = (int, int);

    open spec fn view(&self) -> (int, int) {
        (self.league_score as int, self.goal_diff as int)
    }
}

impl Default for TeamScores {
    fn default() -> (r: TeamScores)
        ensures
            r@ == (0int, 0int),
    {
        TeamScores { league_score: 0, goal_diff: 0 }
    }
}

#[verifier::external_type_specification]
#[verifier::external_body]
#[verifier::reject_recursive_types(K)]
#[verifier::reject_recursive_types(V)]
pub struct ExDefaultHashMap<K: Eq + std::hash::Hash, V>(DefaultHashMap<K, V>);

/// The entries stored in a score table, keyed by the characters of the team name.
pub uninterp spec fn table_of(m: DefaultHashMap<String, TeamScores>) -> Map<Seq<char>, TeamScores>;

/// A score table seen as plain numbers.
pub open spec fn table_view(t: Map<Seq<char>, TeamScores>) -> Map<Seq<char>, (int, int)> {
    t.map_values(|v: TeamScores| v@)
}

/// Relies on DefaultHashMap::new: a map with no stored entries.
#[verifier::external_body]
pub(crate) fn new_table() -> (r: DefaultHashMap<String, TeamScores>)
    ensures
        table_of(r).dom() == Set::<Seq<char>>::empty(),
{
    DefaultHashMap::new()
}

/// Relies on DefaultHashMap::contains_key: whether an entry is stored for the key.
#[verifier::external_body]
pub(crate) fn table_contains(m: &DefaultHashMap<String, TeamScores>, k: &String) -> (r: bool)
    ensures
        r == table_of(*m).contains_key(k@),
{
    m.contains_key(k)
}

/// Relies on DefaultHashMap::get: the stored value for a key that has one.
#[verifier::external_body]
pub(crate) fn table_get(m: &DefaultHashMap<String, TeamScores>, k: &String) -> (r: TeamScores)
    ensures
        table_of(*m).contains_key(k@) ==> r == table_of(*m)[k@],
{
    *m.get::<String, &String>(k)
}

/// Relies on DefaultHashMap::insert: stores the value under the key, replacing any other.
#[verifier::external_body]
pub(crate) fn table_insert(m: &mut DefaultHashMap<String, TeamScores>, k: String, v: TeamScores)
    ensures
        table_of(*final(m)) == table_of(*old(m)).insert(k@, v),
{
    m.insert(k, v);
}

/// Relies on DefaultHashMap::iter: each stored entry once, in an unspecified order.
#[verifier::external_body]
pub(crate) fn table_entries(m: &DefaultHashMap<String, TeamScores>) -> (r: Vec<(String, TeamScores)>)
    ensures
        forall|i: int|
            0 <= i < r@.len() ==> table_of(*m).contains_key(#[trigger] r@[i].0@)
                && table_of(*m)[r@[i].0@] == r@[i].1,
        forall|k: Seq<char>|
            #[trigger] table_of(*m).contains_key(k) ==> exists|i: int|
                0 <= i < r@.len() && #[trigger] r@[i].0@ == k,
        forall|i: int, j: int| 0 <= i < j < r@.len() ==> r@[i].0@ != r@[j].0@,
{
    m.iter().map(|(k, v)| (k.clone(), *v)).collect()
}

} // verus!
