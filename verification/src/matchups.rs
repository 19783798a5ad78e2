use vstd::prelude::*;

use crate::draw::{games_view, teams_view};
use crate::game::{scheduled_game, Game, GameView};
use crate::team::{Team, TeamView};

verus! {

/// The names of the teams, in order.
pub open spec fn team_names(teams: Seq<TeamView>) -> Seq<Seq<char>> {
    teams.map_values(|t: TeamView| t.name)
}

/// The position of the last team called `name`, or -1 when there is none.
pub open spec fn last_index_of(names: Seq<Seq<char>>, name: Seq<char>) -> int
    decreases names.len(),
{
    if names.len() == 0 {
        -1
    } else if names.last() == name {
        names.len() - 1
    } else {
        last_index_of(names.drop_last(), name)
    }
}

/// Whether both teams of every game are among `names`.
pub open spec fn names_cover(names: Seq<Seq<char>>, games: Seq<GameView>) -> bool {
    forall|k: int|
        0 <= k < games.len() ==> names.contains(#[trigger] games[k].team_a) && names.contains(
            games[k].team_b,
        )
}

/// How often the teams at positions `i` and `j` have met in `games`, each
/// game counted once from each side (so a team drawn against itself counts
/// twice at `(i, i)`). A team is found by the last position with its name.
pub open spec fn meetings(names: Seq<Seq<char>>, games: Seq<GameView>, i: int, j: int) -> nat
    decreases games.len(),
{
    if games.len() == 0 {
        0
    } else {
        let g = games.last();
        let a = last_index_of(names, g.team_a);
        let b = last_index_of(names, g.team_b);
        meetings(names, games.drop_last(), i, j) + (if a == i && b == j { 1nat } else { 0nat }) + (
        if b == i && a == j {
            1nat
        } else {
            0nat
        })
    }
}

proof fn lemma_last_index_of(names: Seq<Seq<char>>, name: Seq<char>)
    ensures
        -1 <= last_index_of(names, name) < names.len(),
        last_index_of(names, name) >= 0 ==> names[last_index_of(names, name)] == name,
        names.contains(name) <==> last_index_of(names, name) >= 0,
        forall|k: int| last_index_of(names, name) < k < names.len() ==> names[k] != name,
    decreases names.len(),
{
    if names.len() > 0 {
        lemma_last_index_of(names.drop_last(), name);
        if names.last() != name {
            if names.contains(name) {
                let k = choose|k: int| 0 <= k < names.len() && names[k] == name;
                assert(names.drop_last()[k] == name);
            }
            if names.drop_last().contains(name) {
                let k = choose|k: int| 0 <= k < names.len() - 1 && names.drop_last()[k] == name;
                assert(names[k] == name);
            }
            assert forall|k: int| last_index_of(names, name) < k < names.len() implies names[k] != name by {
                if k < names.len() - 1 {
                    assert(names[k] == names.drop_last()[k]);
                }
            }
        }
    }
}

proof fn lemma_meetings_bound(names: Seq<Seq<char>>, games: Seq<GameView>, i: int, j: int)
    ensures
        meetings(names, games, i, j) <= 2 * games.len(),
    decreases games.len(),
{
    if games.len() > 0 {
        lemma_meetings_bound(names, games.drop_last(), i, j);
    }
}

/// Whether both teams of every game are among `teams`.
pub fn teams_cover_games(teams: &Vec<Team>, games: &Vec<Game>) -> (covered: bool)
    ensures
        covered == names_cover(team_names(teams_view(teams@)), games_view(games@)),
{
    let ghost names = team_names(teams_view(teams@));
    let ghost gv = games_view(games@);
    let n = games.len();
    let mut k: usize = 0;
    while k < n
        invariant
            n == games@.len(),
            k <= n,
            names == team_names(teams_view(teams@)),
            gv == games_view(games@),
            names_cover(names, gv.take(k as int)),
        decreases n - k,
    {
        let a = position_of(teams, &games[k].team_a);
        let b = position_of(teams, &games[k].team_b);
        proof {
            assert(gv[k as int] == games@[k as int]@);
            lemma_last_index_of(names, gv[k as int].team_a);
            lemma_last_index_of(names, gv[k as int].team_b);
        }
        if a.is_none() || b.is_none() {
            assert(!names_cover(names, gv)) by {
                assert(!(names.contains(gv[k as int].team_a) && names.contains(gv[k as int].team_b)));
            }
            return false;
        }
        assert(names.contains(gv[k as int].team_a));
        assert(names.contains(gv[k as int].team_b));
        assert(gv.take(k + 1)[k as int] == gv[k as int]);
        assert forall|m: int| 0 <= m < k + 1 implies names.contains(#[trigger] gv.take(k + 1)[m].team_a)
            && names.contains(gv.take(k + 1)[m].team_b) by {
            if m < k {
                assert(gv.take(k + 1)[m] == gv.take(k as int)[m]);
            }
        }
        k = k + 1;
    }
    assert(gv.take(n as int) =~= gv);
    true
}

/// The position of the last team called `name`, if any.
fn position_of(teams: &Vec<Team>, name: &String) -> (pos: Option<usize>)
    ensures
        match pos {
            Some(p) => p as int == last_index_of(team_names(teams_view(teams@)), name@),
            None => last_index_of(team_names(teams_view(teams@)), name@) == -1,
        },
{
    let ghost names = team_names(teams_view(teams@));
    let n = teams.len();
    let mut found: Option<usize> = None;
    let mut k: usize = 0;
    while k < n
        invariant
            n == teams@.len(),
            k <= n,
            names == team_names(teams_view(teams@)),
            match found {
                Some(p) => p as int == last_index_of(names.take(k as int), name@),
                None => last_index_of(names.take(k as int), name@) == -1,
            },
        decreases n - k,
    {
        proof {
            assert(names.take(k + 1).drop_last() =~= names.take(k as int));
        }
        if teams[k].name == *name {
            found = Some(k);
        }
        k = k + 1;
    }
    assert(names.take(n as int) =~= names);
    found
}

/// The number of earlier meetings between each pair of teams: entry
/// `(i, j)` counts the games between the teams at positions `i` and `j`.
pub fn previous_meetings(teams: &Vec<Team>, games: &Vec<Game>) -> (m: Vec<Vec<u64>>)
    requires
        names_cover(team_names(teams_view(teams@)), games_view(games@)),
        games@.len() <= 0x7fff_ffff_ffff_ffff,
    ensures
        m@.len() == teams@.len(),
        forall|i: int|
            0 <= i < teams@.len() ==> {
                &&& (#[trigger] m@[i])@.len() == teams@.len()
                &&& forall|j: int|
                    0 <= j < teams@.len() ==> #[trigger] m@[i]@[j] == meetings(
                        team_names(teams_view(teams@)),
                        games_view(games@),
                        i,
                        j,
                    )
            },
{
    let ghost names = team_names(teams_view(teams@));
    let ghost gv = games_view(games@);
    let n = teams.len();
    let mut m: Vec<Vec<u64>> = Vec::new();
    let mut i: usize = 0;
    while i < n
        invariant
            n == teams@.len(),
            i <= n,
            m@.len() == i,
            forall|r: int|
                0 <= r < i ==> {
                    &&& (#[trigger] m@[r])@.len() == n
                    &&& forall|c: int| 0 <= c < n ==> #[trigger] m@[r]@[c] == 0
                },
        decreases n - i,
    {
        let mut row: Vec<u64> = Vec::new();
        let mut j: usize = 0;
        while j < n
            invariant
                j <= n,
                row@.len() == j,
                forall|c: int| 0 <= c < j ==> #[trigger] row@[c] == 0,
            decreases n - j,
        {
            row.push(0);
            j = j + 1;
        }
        m.push(row);
        i = i + 1;
    }
    let g_count = games.len();
    let mut k: usize = 0;
    while k < g_count
        invariant
            g_count == games@.len(),
            g_count <= 0x7fff_ffff_ffff_ffff,
            k <= g_count,
            n == teams@.len(),
            names == team_names(teams_view(teams@)),
            gv == games_view(games@),
            names_cover(names, gv),
            m@.len() == n,
            forall|r: int|
                0 <= r < n ==> {
                    &&& (#[trigger] m@[r])@.len() == n
                    &&& forall|c: int| 0 <= c < n ==> #[trigger] m@[r]@[c] == meetings(names, gv.take(k as int), r, c)
                },
        decreases g_count - k,
    {
        proof {
            assert(gv.take(k + 1).drop_last() =~= gv.take(k as int));
            assert(gv[k as int] == games@[k as int]@);
            assert(gv.len() == g_count);
            assert(names.contains(gv[k as int].team_a));
            assert(names.contains(gv[k as int].team_b));
            lemma_last_index_of(names, gv[k as int].team_a);
            lemma_last_index_of(names, gv[k as int].team_b);
        }
        let a = position_of(teams, &games[k].team_a).unwrap();
        let b = position_of(teams, &games[k].team_b).unwrap();
        proof {
            lemma_meetings_bound(names, gv.take(k as int), a as int, b as int);
            lemma_meetings_bound(names, gv.take(k as int), b as int, a as int);
        }
        let ab = m[a][b];
        m[a].set(b, ab + 1);
        let ba = m[b][a];
        m[b].set(a, ba + 1);
        k = k + 1;
    }
    assert(gv.take(g_count as int) =~= gv);
    m
}

/// The pairs `(i, j)` with `i < j < hi` for which `row[j]` is set, by
/// increasing `j`.
pub open spec fn row_pairs(row: Seq<bool>, i: int, hi: int) -> Seq<(int, int)>
    decreases hi - i,
{
    if hi <= i + 1 {
        Seq::empty()
    } else {
        row_pairs(row, i, hi - 1) + (if row[hi - 1] { seq![(i, hi - 1)] } else { Seq::empty() })
    }
}

/// The pairs `(i, j)` with `i < j` and `i` below `k` that `paired` sets,
/// row by row.
pub open spec fn pairs_upto(paired: Seq<Seq<bool>>, k: int) -> Seq<(int, int)>
    decreases k,
{
    if k <= 0 {
        Seq::empty()
    } else {
        pairs_upto(paired, k - 1) + row_pairs(paired[k - 1], k - 1, paired.len() as int)
    }
}

/// Whether `games` are the newly scheduled games of the pairs, in order:
/// one per pair, between the named teams, on field 0.
pub open spec fn scheduled_for(games: Seq<GameView>, names: Seq<Seq<char>>, pairs: Seq<(int, int)>) -> bool {
    &&& games.len() == pairs.len()
    &&& forall|k: int|
        0 <= k < pairs.len() ==> #[trigger] games[k] == scheduled_game(
            games[k].id,
            0,
            names[pairs[k].0],
            names[pairs[k].1],
        )
}

/// The games of a pairing: for every pair of teams `i < j` that `paired`
/// matches, row by row, a new game between team `i` and team `j` with a
/// randomly drawn identifier.
pub fn games_from_pairing(teams: &Vec<Team>, paired: &Vec<Vec<bool>>) -> (games: Vec<Game>)
    requires
        paired@.len() == teams@.len(),
        forall|i: int| 0 <= i < teams@.len() ==> (#[trigger] paired@[i])@.len() == teams@.len(),
    ensures
        scheduled_for(
            games_view(games@),
            team_names(teams_view(teams@)),
            pairs_upto(paired@.map_values(|r: Vec<bool>| r@), teams@.len() as int),
        ),
{
    let ghost names = team_names(teams_view(teams@));
    let ghost pm = paired@.map_values(|r: Vec<bool>| r@);
    let n = teams.len();
    let mut games: Vec<Game> = Vec::new();
    let mut i: usize = 0;
    while i < n
        invariant
            n == teams@.len(),
            n == paired@.len(),
            forall|r: int| 0 <= r < n ==> (#[trigger] paired@[r])@.len() == n,
            names == team_names(teams_view(teams@)),
            pm == paired@.map_values(|r: Vec<bool>| r@),
            i <= n,
            scheduled_for(games_view(games@), names, pairs_upto(pm, i as int)),
        decreases n - i,
    {
        let mut j: usize = i + 1;
        assert(row_pairs(pm[i as int], i as int, j as int) =~= Seq::empty());
        assert(pairs_upto(pm, i as int) + row_pairs(pm[i as int], i as int, j as int) =~= pairs_upto(pm, i as int));
        while j < n
            invariant
                n == teams@.len(),
                n == paired@.len(),
                forall|r: int| 0 <= r < n ==> (#[trigger] paired@[r])@.len() == n,
                names == team_names(teams_view(teams@)),
                pm == paired@.map_values(|r: Vec<bool>| r@),
                i < n,
                i + 1 <= j <= n,
                scheduled_for(
                    games_view(games@),
                    names,
                    pairs_upto(pm, i as int) + row_pairs(pm[i as int], i as int, j as int),
                ),
            decreases n - j,
        {
            let ghost before = pairs_upto(pm, i as int) + row_pairs(pm[i as int], i as int, j as int);
            let ghost after = pairs_upto(pm, i as int) + row_pairs(pm[i as int], i as int, j + 1);
            assert(pm[i as int] == paired@[i as int]@);
            if paired[i][j] {
                let g = Game::new(0, teams[i].name.clone(), teams[j].name.clone());
                let ghost old_games = games_view(games@);
                games.push(g);
                proof {
                    assert(after =~= before.push((i as int, j as int)));
                    assert(games_view(games@) =~= old_games.push(g@));
                    assert(names[i as int] == teams@[i as int]@.name);
                    assert(names[j as int] == teams@[j as int]@.name);
                    assert forall|k: int| 0 <= k < after.len() implies #[trigger] games_view(games@)[k]
                        == scheduled_game(
                        games_view(games@)[k].id,
                        0,
                        names[after[k].0],
                        names[after[k].1],
                    ) by {
                        if k < before.len() {
                            assert(games_view(games@)[k] == old_games[k]);
                            assert(after[k] == before[k]);
                        }
                    }
                }
            } else {
                assert(after =~= before);
            }
            j = j + 1;
        }
        assert(pairs_upto(pm, i + 1) =~= pairs_upto(pm, i as int) + row_pairs(pm[i as int], i as int, n as int));
        i = i + 1;
    }
    games
}

/// The distinct entries of `s`, each where it first occurs.
pub open spec fn distinct_in_order(s: Seq<Seq<char>>) -> Seq<Seq<char>>
    decreases s.len(),
{
    if s.len() == 0 {
        Seq::empty()
    } else {
        let earlier = distinct_in_order(s.drop_last());
        if earlier.contains(s.last()) { earlier } else { earlier.push(s.last()) }
    }
}

/// Every first team of the games, then every second team.
pub open spec fn named_teams(games: Seq<GameView>) -> Seq<Seq<char>> {
    games.map_values(|g: GameView| g.team_a) + games.map_values(|g: GameView| g.team_b)
}

/// The character sequences of a sequence of strings.
pub open spec fn strings_view(s: Seq<String>) -> Seq<Seq<char>> {
    s.map_values(|x: String| x@)
}

/// Appends `name` unless an equal name is already present.
fn push_distinct(out: &mut Vec<String>, name: &String)
    ensures
        strings_view(final(out)@) == (if strings_view(old(out)@).contains(name@) {
            strings_view(old(out)@)
        } else {
            strings_view(old(out)@).push(name@)
        }),
{
    let ghost start = strings_view(out@);
    let n = out.len();
    let mut k: usize = 0;
    while k < n
        invariant
            n == out@.len(),
            k <= n,
            start == strings_view(out@),
            out@ == old(out)@,
            forall|m: int| 0 <= m < k ==> out@[m]@ != name@,
        decreases n - k,
    {
        if out[k] == *name {
            assert(start[k as int] == name@);
            return;
        }
        k = k + 1;
    }
    assert(!start.contains(name@)) by {
        if start.contains(name@) {
            let m = choose|m: int| 0 <= m < start.len() && start[m] == name@;
            assert(out@[m]@ == name@);
        }
    }
    out.push(name.clone());
    assert(strings_view(out@) =~= start.push(name@));
}

/// The names of the teams that appear in `games`, each once, in the order
/// of first appearance among the first teams of all games followed by the
/// second teams of all games.
pub fn teams_in_games(games: &Vec<Game>) -> (names: Vec<String>)
    ensures
        strings_view(names@) == distinct_in_order(named_teams(games_view(games@))),
{
    let ghost gv = games_view(games@);
    let ghost firsts = gv.map_values(|g: GameView| g.team_a);
    let ghost seconds = gv.map_values(|g: GameView| g.team_b);
    let n = games.len();
    let mut names: Vec<String> = Vec::new();
    let mut i: usize = 0;
    while i < n
        invariant
            n == games@.len(),
            i <= n,
            gv == games_view(games@),
            firsts == gv.map_values(|g: GameView| g.team_a),
            strings_view(names@) == distinct_in_order(firsts.take(i as int)),
        decreases n - i,
    {
        assert(firsts.take(i + 1).drop_last() =~= firsts.take(i as int));
        assert(firsts.take(i + 1).last() == games@[i as int].team_a@);
        push_distinct(&mut names, &games[i].team_a);
        i = i + 1;
    }
    assert(firsts.take(n as int) =~= firsts);
    let mut j: usize = 0;
    while j < n
        invariant
            n == games@.len(),
            j <= n,
            gv == games_view(games@),
            firsts == gv.map_values(|g: GameView| g.team_a),
            seconds == gv.map_values(|g: GameView| g.team_b),
            firsts.len() == n,
            strings_view(names@) == distinct_in_order(firsts + seconds.take(j as int)),
        decreases n - j,
    {
        assert((firsts + seconds.take(j + 1)).drop_last() =~= firsts + seconds.take(j as int));
        assert((firsts + seconds.take(j + 1)).last() == games@[j as int].team_b@);
        push_distinct(&mut names, &games[j].team_b);
        j = j + 1;
    }
    assert(seconds.take(n as int) =~= seconds);
    names
}

} // verus!
