use vstd::prelude::*;
use vstd::string::*;

use crate::errors::InvalidInputError;
use crate::pool::{lemma_seq_views_push, seq_views};
use crate::string_map::StringMap;

verus! {

/// How many players each team must name.
pub const TEAM_SIZE: usize = 5;

/// Splitting by a separator, scanning left to right: `i` is the scan
/// position, `start` where the current token began, `acc` the tokens
/// already cut.
pub open spec fn spec_split_from(
    s: Seq<char>,
    sep: char,
    i: int,
    start: int,
    acc: Seq<Seq<char>>,
) -> Seq<Seq<char>>
    decreases s.len() - i,
{
    if i >= s.len() {
        acc.push(s.subrange(start, s.len() as int))
    } else if s[i] == sep {
        spec_split_from(s, sep, i + 1, i + 1, acc.push(s.subrange(start, i)))
    } else {
        spec_split_from(s, sep, i + 1, start, acc)
    }
}

/// The parts of `s` between occurrences of `sep`; always at least one part.
pub open spec fn spec_split(s: Seq<char>, sep: char) -> Seq<Seq<char>> {
    spec_split_from(s, sep, 0, 0, Seq::empty())
}

/// First-seen-order deduplication.
pub open spec fn spec_dedup(s: Seq<Seq<char>>) -> Seq<Seq<char>>
    decreases s.len(),
{
    if s.len() == 0 {
        Seq::empty()
    } else {
        let r = spec_dedup(s.drop_last());
        if r.contains(s.last()) {
            r
        } else {
            r.push(s.last())
        }
    }
}

/// A name after pseudonym replacement.
pub open spec fn spec_replace(n: Seq<char>, table: Map<Seq<char>, Seq<char>>) -> Seq<char> {
    if table.contains_key(n) {
        table[n]
    } else {
        n
    }
}

/// Every name after pseudonym replacement.
pub open spec fn spec_replace_all(
    names: Seq<Seq<char>>,
    table: Map<Seq<char>, Seq<char>>,
) -> Seq<Seq<char>> {
    names.map_values(|n: Seq<char>| spec_replace(n, table))
}

/// Deduplication keeps exactly the members, each once.
pub proof fn lemma_dedup_props(s: Seq<Seq<char>>)
    ensures
        spec_dedup(s).no_duplicates(),
        forall|q: Seq<char>| #[trigger] spec_dedup(s).contains(q) <==> s.contains(q),
    decreases s.len(),
{
    if s.len() > 0 {
        lemma_dedup_props(s.drop_last());
        let r = spec_dedup(s.drop_last());
        let d = spec_dedup(s);
        assert forall|q: Seq<char>| #[trigger] d.contains(q) implies s.contains(q) by {
            let w = choose|w: int| 0 <= w < d.len() && d[w] == q;
            if w < r.len() {
                assert(r[w] == q);
                assert(r.contains(q));
                assert(s.drop_last().contains(q));
                let v = choose|v: int| 0 <= v < s.drop_last().len() && s.drop_last()[v] == q;
                assert(s[v] == q);
            } else {
                assert(q == s.last());
                assert(s[s.len() - 1] == q);
            }
        }
        assert forall|q: Seq<char>| s.contains(q) implies #[trigger] d.contains(q) by {
            let w = choose|w: int| 0 <= w < s.len() && s[w] == q;
            if w < s.len() - 1 {
                assert(s.drop_last()[w] == q);
                assert(r.contains(q));
                if !r.contains(s.last()) {
                    let v = choose|v: int| 0 <= v < r.len() && r[v] == q;
                    assert(d[v] == q);
                }
            } else {
                if r.contains(q) {
                    if !r.contains(s.last()) {
                        let v = choose|v: int| 0 <= v < r.len() && r[v] == q;
                        assert(d[v] == q);
                    }
                } else {
                    assert(d[d.len() - 1] == q);
                }
            }
        }
        if !r.contains(s.last()) {
            assert(d.no_duplicates()) by {
                assert forall|a: int, b: int| 0 <= a < b < d.len() implies d[a] != d[b] by {
                    if b < r.len() {
                    } else {
                        assert(d[b] == s.last());
                        assert(r.contains(d[a])) by {
                            assert(r[a] == d[a]);
                        }
                    }
                }
            }
        }
    }
}

/// The parts of a string around a separator, in order.
pub fn split_string(s: &String, sep: char) -> (r: Vec<String>)
    ensures
        seq_views(r@) == spec_split(s@, sep),
        r@.len() >= 1,
{
    let st: &str = s.as_str();
    let n = st.unicode_len();
    let mut out: Vec<String> = Vec::new();
    let mut start: usize = 0;
    let mut i: usize = 0;
    proof {
        assert(seq_views(out@) =~= Seq::<Seq<char>>::empty());
    }
    while i < n
        invariant
            n == s@.len(),
            st@ == s@,
            start <= i <= n,
            spec_split(s@, sep) == spec_split_from(
                s@,
                sep,
                i as int,
                start as int,
                seq_views(out@),
            ),
        decreases n - i,
    {
        let c = st.get_char(i);
        if c == sep {
            let ghost outb = out@;
            let tok = st.substring_char(start, i).to_owned();
            out.push(tok);
            proof {
                lemma_seq_views_push(outb, out@.last());
                assert(seq_views(out@) == seq_views(outb).push(s@.subrange(
                    start as int,
                    i as int,
                )));
            }
            start = i + 1;
        }
        i += 1;
    }
    let ghost outb = out@;
    let tok = st.substring_char(start, n).to_owned();
    out.push(tok);
    proof {
        lemma_seq_views_push(outb, out@.last());
        assert(seq_views(out@) == seq_views(outb).push(s@.subrange(start as int, n as int)));
    }
    out
}

/// The list with repeated names dropped, first occurrences kept in order.
pub fn dedup_names(v: &Vec<String>) -> (r: Vec<String>)
    ensures
        seq_views(r@) == spec_dedup(seq_views(v@)),
        seq_views(r@).no_duplicates(),
{
    let mut out: Vec<String> = Vec::new();
    let n = v.len();
    let mut i: usize = 0;
    proof {
        assert(seq_views(v@).take(0) =~= Seq::<Seq<char>>::empty());
        assert(seq_views(out@) =~= spec_dedup(seq_views(v@).take(0)));
    }
    while i < n
        invariant
            n == v@.len(),
            i <= n,
            seq_views(out@) == spec_dedup(seq_views(v@).take(i as int)),
        decreases n - i,
    {
        let ghost sv = seq_views(v@);
        let ghost outb = out@;
        proof {
            assert(sv.take(i as int + 1).drop_last() =~= sv.take(i as int));
            assert(sv.take(i as int + 1).last() == sv[i as int]);
            assert(sv[i as int] == v@[i as int]@);
        }
        if !crate::pool::contains_string(&out, &v[i]) {
            out.push(v[i].clone());
            proof {
                lemma_seq_views_push(outb, out@.last());
            }
        }
        i += 1;
    }
    proof {
        assert(seq_views(v@).take(n as int) =~= seq_views(v@));
        lemma_dedup_props(seq_views(v@));
    }
    out
}

/// The name a summoner goes by: their entry in the pseudonym table, or the
/// name as written.
pub fn replace_if_pseudonym(ps: String, pseudonyms: &StringMap) -> (r: String)
    requires
        pseudonyms.wf(),
    ensures
        r@ == spec_replace(ps@, pseudonyms@),
{
    match pseudonyms.get(&ps) {
        Some(v) => v,
        None => ps,
    }
}

/// One team's names from one comma-separated part: pseudonyms replaced,
/// duplicates dropped.
fn build_team(part: &String, pseudonyms: &StringMap) -> (r: Vec<String>)
    requires
        pseudonyms.wf(),
    ensures
        seq_views(r@) == spec_dedup(spec_replace_all(spec_split(part@, ','), pseudonyms@)),
        seq_views(r@).no_duplicates(),
{
    let raw = split_string(part, ',');
    let mut replaced: Vec<String> = Vec::new();
    let n = raw.len();
    let mut i: usize = 0;
    proof {
        assert(seq_views(raw@).take(0) =~= Seq::<Seq<char>>::empty());
        assert(seq_views(replaced@) =~= spec_replace_all(
            seq_views(raw@).take(0),
            pseudonyms@,
        ));
    }
    while i < n
        invariant
            pseudonyms.wf(),
            n == raw@.len(),
            i <= n,
            seq_views(replaced@) == spec_replace_all(seq_views(raw@).take(i as int), pseudonyms@),
        decreases n - i,
    {
        let ghost sv = seq_views(raw@);
        let ghost repb = replaced@;
        replaced.push(replace_if_pseudonym(raw[i].clone(), pseudonyms));
        proof {
            lemma_seq_views_push(repb, replaced@.last());
            assert(sv[i as int] == raw@[i as int]@);
            assert(spec_replace_all(sv.take(i as int + 1), pseudonyms@) =~= spec_replace_all(
                sv.take(i as int),
                pseudonyms@,
            ).push(spec_replace(sv[i as int], pseudonyms@)));
        }
        i += 1;
    }
    proof {
        assert(seq_views(raw@).take(n as int) =~= seq_views(raw@));
        assert(seq_views(raw@) == spec_split(part@, ','));
    }
    dedup_names(&replaced)
}

/// Whether the input names two well-formed teams: both parts around the
/// first `/`, each naming exactly `TEAM_SIZE` distinct players after
/// pseudonym replacement.
pub open spec fn spec_teams_valid(input: Seq<char>, table: Map<Seq<char>, Seq<char>>) -> bool {
    &&& spec_split(input, '/').len() >= 2
    &&& spec_dedup(spec_replace_all(spec_split(spec_split(input, '/')[0], ','), table)).len()
        == TEAM_SIZE
    &&& spec_dedup(spec_replace_all(spec_split(spec_split(input, '/')[1], ','), table)).len()
        == TEAM_SIZE
}

/// Parse a command string of the form `a,b,c,d,e/f,g,h,i,j` into the two
/// rosters, replacing pseudonyms; reject anything that does not name two
/// teams of exactly `TEAM_SIZE` distinct players.  Text after a second `/`
/// is ignored, as is an unknown name: it stands for itself.
pub fn parse_and_validate(input: &String, pseudonyms: &StringMap) -> (r: Result<
    (Vec<String>, Vec<String>),
    InvalidInputError,
>)
    requires
        pseudonyms.wf(),
    ensures
        r is Ok <==> spec_teams_valid(input@, pseudonyms@),
        match r {
            Ok(teams) => {
                &&& seq_views(teams.0@) == spec_dedup(
                    spec_replace_all(spec_split(spec_split(input@, '/')[0], ','), pseudonyms@),
                )
                &&& seq_views(teams.1@) == spec_dedup(
                    spec_replace_all(spec_split(spec_split(input@, '/')[1], ','), pseudonyms@),
                )
                &&& seq_views(teams.0@).no_duplicates()
                &&& seq_views(teams.1@).no_duplicates()
                &&& teams.0@.len() == TEAM_SIZE
                &&& teams.1@.len() == TEAM_SIZE
            },
            Err(_) => true,
        },
{
    let parts = split_string(input, '/');
    if parts.len() < 2 {
        return Err(
            InvalidInputError(
                String::from_str("Unable to separate teams. See formatting rules with /help"),
            ),
        );
    }
    proof {
        assert(seq_views(parts@)[0] == parts@[0]@);
        assert(seq_views(parts@)[1] == parts@[1]@);
    }
    let team_1 = build_team(&parts[0], pseudonyms);
    let team_2 = build_team(&parts[1], pseudonyms);
    if !(team_1.len() == TEAM_SIZE && team_2.len() == TEAM_SIZE) {
        return Err(
            InvalidInputError(
                String::from_str("Failed to separate teams. Please see /help for formatting rules"),
            ),
        );
    }
    Ok((team_1, team_2))
}

/// The name and tagline around the first `#` of a full riot id, if both are
/// there.
pub fn split_riot_id(id: &String) -> (r: Option<(String, String)>)
    ensures
        match r {
            Some(nt) => spec_split(id@, '#').len() >= 2 && nt.0@ == spec_split(id@, '#')[0]
                && nt.1@ == spec_split(id@, '#')[1],
            None => spec_split(id@, '#').len() < 2,
        },
{
    let parts = split_string(id, '#');
    if parts.len() >= 2 {
        proof {
            assert(seq_views(parts@)[0] == parts@[0]@);
            assert(seq_views(parts@)[1] == parts@[1]@);
        }
        Some((parts[0].clone(), parts[1].clone()))
    } else {
        None
    }
}

/// The free-rotation list a summoner may draw from: the new-player list
/// below the new-player level cap, the regular list at or above it.
pub fn rotation_champs_for_level(
    summoner_level: i64,
    max_new_player_level: i32,
    new_player_champs: Vec<String>,
    regular_champs: Vec<String>,
) -> (r: Vec<String>)
    ensures
        r@ == if (max_new_player_level as int) > (summoner_level as int) {
            new_player_champs@
        } else {
            regular_champs@
        },
{
    if (max_new_player_level as i64) > summoner_level {
        new_player_champs
    } else {
        regular_champs
    }
}

/// The rows of the reply table: each pairs a player of one team, their
/// champion, a player of the other team and theirs, up to the shorter
/// roster.
#[verifier::loop_isolation(false)]
pub fn result_rows(team_1: &Vec<String>, team_2: &Vec<String>, selection: &StringMap) -> (r: Vec<
    (String, String, String, String),
>)
    requires
        selection.wf(),
        forall|i: int|
            0 <= i < team_1@.len() && i < team_2@.len() ==> selection@.contains_key(
                (#[trigger] team_1@[i])@,
            ),
        forall|i: int|
            0 <= i < team_1@.len() && i < team_2@.len() ==> selection@.contains_key(
                (#[trigger] team_2@[i])@,
            ),
    ensures
        r@.len() == if team_1@.len() <= team_2@.len() {
            team_1@.len()
        } else {
            team_2@.len()
        },
        forall|i: int|
            0 <= i < r@.len() ==> {
                &&& (#[trigger] r@[i]).0@ == team_1@[i]@
                &&& r@[i].1@ == selection@[team_1@[i]@]
                &&& r@[i].2@ == team_2@[i]@
                &&& r@[i].3@ == selection@[team_2@[i]@]
            },
{
    let mut rows: Vec<(String, String, String, String)> = Vec::new();
    let n = if team_1.len() <= team_2.len() {
        team_1.len()
    } else {
        team_2.len()
    };
    let mut i: usize = 0;
    while i < n
        invariant
            i <= n,
            rows@.len() == i,
            forall|j: int|
                0 <= j < i ==> {
                    &&& (#[trigger] rows@[j]).0@ == team_1@[j]@
                    &&& rows@[j].1@ == selection@[team_1@[j]@]
                    &&& rows@[j].2@ == team_2@[j]@
                    &&& rows@[j].3@ == selection@[team_2@[j]@]
                },
        decreases n - i,
    {
        proof {
            assert(selection@.contains_key((team_1@[i as int])@));
            assert(selection@.contains_key((team_2@[i as int])@));
        }
        let left = match selection.get(&team_1[i]) {
            Some(v) => v,
            None => {
                proof {
                    assert(false);
                }
                String::new()
            },
        };
        let right = match selection.get(&team_2[i]) {
            Some(v) => v,
            None => {
                proof {
                    assert(false);
                }
                String::new()
            },
        };
        rows.push((team_1[i].clone(), left, team_2[i].clone(), right));
        i += 1;
    }
    rows
}

} // verus!
