//! Rendering one row of the table as a line of text.
use vstd::prelude::*;
use crate::ranking::TeamRank;
use crate::text::{decimal, push_char, push_decimal, push_signed, push_str, signed_decimal};

verus! {

/// The unit after a score: `pt` for exactly one point, `pts` otherwise.
pub open spec fn unit(score: int) -> Seq<char> {
    if score == 1 {
        seq!['p', 't']
    } else {
        seq!['p', 't', 's']
    }
}

/// `"<rank>. <name>, <score> <unit>"`.
pub open spec fn row_text(t: TeamRank) -> Seq<char> {
    decimal(t.rank as nat) + seq!['.', ' '] + t.name@ + seq![',', ' '] + decimal(t.score as nat)
        + seq![' '] + unit(t.score as int)
}

/// The row text followed by `", gd: <goal difference>"`.
pub open spec fn row_text_gd(t: TeamRank) -> Seq<char> {
    row_text(t) + seq![',', ' ', 'g', 'd', ':', ' '] + signed_decimal(t.goal_diff as int)
}

/// Appends `", "` to `s`.
fn push_comma(s: &mut String)
    ensures
        final(s)@ == old(s)@ + seq![',', ' '],
{
    push_char(s, ',');
    push_char(s, ' ');
    assert(s@ =~= old(s)@ + seq![',', ' ']);
}

/// Renders a row as `"<rank>. <name>, <score> <unit>"`.
pub fn display_rank_pt1(team: &TeamRank) -> (r: String)
    ensures
        r@ == row_text(*team),
{
    let mut s = String::new();
    push_decimal(&mut s, team.rank as u64);
    let ghost s1 = s@;
    push_char(&mut s, '.');
    push_char(&mut s, ' ');
    assert(s@ =~= s1 + seq!['.', ' ']);
    push_str(&mut s, team.name.as_str());
    push_comma(&mut s);
    push_decimal(&mut s, team.score);
    let ghost s2 = s@;
    push_char(&mut s, ' ');
    push_char(&mut s, 'p');
    push_char(&mut s, 't');
    if team.score != 1 {
        push_char(&mut s, 's');
    }
    assert(s@ =~= s2 + seq![' '] + unit(team.score as int));
    assert(s@ =~= row_text(*team));
    s
}

/// Renders a row as `"<rank>. <name>, <score> <unit>, gd: <goal difference>"`.
pub fn display_rank_pt2(team: &TeamRank) -> (r: String)
    ensures
        r@ == row_text_gd(*team),
{
    let mut s = display_rank_pt1(team);
    push_comma(&mut s);
    let ghost s1 = s@;
    push_char(&mut s, 'g');
    push_char(&mut s, 'd');
    push_char(&mut s, ':');
    push_char(&mut s, ' ');
    push_signed(&mut s, team.goal_diff);
    assert(s@ =~= row_text_gd(*team));
    s
}

} // verus!
