use vstd::prelude::*;

verus! {

/// The mathematical value of a [`Team`].
pub struct TeamView {
    pub id: int,
    pub name: Seq<char>,
    pub rank_bits: u64,
}

/// A team entered in a draw.
///
/// A team's rating is a floating-point number; the library never computes
/// with it and carries it as its IEEE-754 bit pattern (`f64::to_bits`).
#[derive(Clone, Debug)]
pub struct Team {
    pub id: i64,
    pub name: String,
    pub rank_bits: u64,
}

impl View for Team {
    type V = TeamView;

    open spec fn view(&self) -> TeamView {
        TeamView { id: self.id as int, name: self.name@, rank_bits: self.rank_bits }
    }
}

/// The name that marks the stand-in team of an odd-sized draw.
pub open spec fn bye_name() -> Seq<char> {
    seq!['_', 'B', 'Y', 'E', '_']
}

/// The stand-in team added to a draw with an odd number of teams:
/// id 0, rating 0.0 (whose bit pattern is 0).
pub open spec fn bye_team_view() -> TeamView {
    TeamView { id: 0, name: bye_name(), rank_bits: 0 }
}

/// The name of the stand-in team, as a `String`.
pub fn bye_name_string() -> (s: String)
    ensures
        s@ == bye_name(),
{
    let s = "_BYE_".to_string();
    proof {
        broadcast use vstd::string::to_string_from_display_ensures_for_str;
        reveal_strlit("_BYE_");
    }
    s
}

impl Team {
    /// A team with the given identifier, name and rating bit pattern.
    pub fn new(id: i64, name: String, rank_bits: u64) -> (t: Team)
        ensures
            t@ == (TeamView { id: id as int, name: name@, rank_bits }),
    {
        Team { id, name, rank_bits }
    }

    /// The stand-in team of an odd-sized draw.
    pub fn bye() -> (t: Team)
        ensures
            t@ == bye_team_view(),
    {
        Team::new(0, bye_name_string(), 0)
    }
}

} // verus!
