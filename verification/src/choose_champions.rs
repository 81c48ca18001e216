use vstd::multiset::Multiset;
use vstd::prelude::*;

use crate::errors::{RepairOutcome, SelectError};
use crate::pool::{consume, restrict_to, seq_views, CandidatePool};
use crate::rng::{tape_next, tape_pick, RandomSource};
use crate::string_map::StringMap;

verus! {

/// One pick per player, left to right: each player receives the item of
/// their list that the next draw selects, and that item then leaves every
/// list.  Fails with `UnknownPlayer` on a player without an entry, with
/// `EmptyCandidateSet` on a player whose list was exhausted.
pub open spec fn spec_pick_all(
    pool: Map<Seq<char>, Seq<Seq<char>>>,
    asg: Map<Seq<char>, Seq<char>>,
    players: Seq<Seq<char>>,
    tv: Seq<u64>,
    pos: int,
) -> Result<(Map<Seq<char>, Seq<Seq<char>>>, Map<Seq<char>, Seq<char>>, int), SelectError>
    decreases players.len(),
{
    if players.len() == 0 {
        Ok((pool, asg, pos))
    } else {
        let p = players[0];
        if !pool.contains_key(p) {
            Err(SelectError::UnknownPlayer)
        } else if pool[p].len() == 0 {
            Err(SelectError::EmptyCandidateSet)
        } else {
            let item = pool[p][tape_pick(tv, pos, pool[p].len() as int)];
            spec_pick_all(
                consume(pool, item),
                asg.insert(p, item),
                players.drop_first(),
                tv,
                tape_next(tv, pos),
            )
        }
    }
}

/// The uniform permutation a tape prescribes: each draw takes one element
/// out of those remaining.
pub open spec fn spec_shuffle(s: Seq<Seq<char>>, tv: Seq<u64>, pos: int) -> (Seq<Seq<char>>, int)
    decreases s.len(),
{
    if s.len() == 0 {
        (s, pos)
    } else {
        let j = tape_pick(tv, pos, s.len() as int);
        let rest = spec_shuffle(s.remove(j), tv, tape_next(tv, pos));
        (seq![s[j]] + rest.0, rest.1)
    }
}

/// Whether some team member's assigned item is jungle-capable.
pub open spec fn spec_team_has_jungle(
    team: Seq<Seq<char>>,
    asg: Map<Seq<char>, Seq<char>>,
    jg: Seq<Seq<char>>,
) -> bool {
    exists|i: int| 0 <= i < team.len() && jg.contains(asg[team[i]])
}

/// The repair scan: in the given order, the first player with a
/// jungle-capable item left in the pool has their assignment overwritten by
/// the one the next draw selects; nothing else changes, and no item is
/// consumed.  Yields the repaired player, if any.
pub open spec fn spec_repair_scan(
    order: Seq<Seq<char>>,
    pool: Map<Seq<char>, Seq<Seq<char>>>,
    jg: Seq<Seq<char>>,
    asg: Map<Seq<char>, Seq<char>>,
    tv: Seq<u64>,
    pos: int,
) -> (Map<Seq<char>, Seq<char>>, int, Option<Seq<char>>)
    decreases order.len(),
{
    if order.len() == 0 {
        (asg, pos, None)
    } else {
        let p = order[0];
        let cands = restrict_to(pool[p], jg);
        if cands.len() > 0 {
            let item = cands[tape_pick(tv, pos, cands.len() as int)];
            (asg.insert(p, item), tape_next(tv, pos), Some(p))
        } else {
            spec_repair_scan(order.drop_first(), pool, jg, asg, tv, pos)
        }
    }
}

/// One team's repair: nothing happens on a team already holding a
/// jungle-capable item; otherwise the team is shuffled and scanned once.
pub open spec fn spec_repair(
    team: Seq<Seq<char>>,
    pool: Map<Seq<char>, Seq<Seq<char>>>,
    jg: Seq<Seq<char>>,
    asg: Map<Seq<char>, Seq<char>>,
    tv: Seq<u64>,
    pos: int,
) -> (Map<Seq<char>, Seq<char>>, int, RepairOutcome) {
    if spec_team_has_jungle(team, asg, jg) {
        (asg, pos, RepairOutcome::Satisfied)
    } else {
        let sh = spec_shuffle(team, tv, pos);
        let scan = spec_repair_scan(sh.0, pool, jg, asg, tv, sh.1);
        (
            scan.0,
            scan.1,
            if scan.2 is Some {
                RepairOutcome::Repaired
            } else {
                RepairOutcome::Unrepairable
            },
        )
    }
}

/// A whole run: one pick per player of both teams, then one repair per
/// team, both against the pool state the picks left.  Yields the final
/// assignment, both repair outcomes, the consumed pool and the tape cursor.
pub open spec fn spec_select(
    pool: Map<Seq<char>, Seq<Seq<char>>>,
    t1: Seq<Seq<char>>,
    t2: Seq<Seq<char>>,
    jg: Seq<Seq<char>>,
    tv: Seq<u64>,
    pos: int,
) -> Result<
    (Map<Seq<char>, Seq<char>>, RepairOutcome, RepairOutcome, Map<Seq<char>, Seq<Seq<char>>>, int),
    SelectError,
> {
    match spec_pick_all(pool, Map::empty(), t1 + t2, tv, pos) {
        Ok(picked) => {
            let rep1 = spec_repair(t1, picked.0, jg, picked.1, tv, picked.2);
            let rep2 = spec_repair(t2, picked.0, jg, rep1.0, tv, rep1.1);
            Ok((rep2.0, rep1.2, rep2.2, picked.0, rep2.1))
        },
        Err(e) => Err(e),
    }
}

/// A name sequence and its views drop elements together.
proof fn lemma_seq_views_remove(s: Seq<String>, j: int)
    requires
        0 <= j < s.len(),
    ensures
        seq_views(s.remove(j)) == seq_views(s).remove(j),
{
    s.remove_ensures(j);
    seq_views(s).remove_ensures(j);
    assert forall|k: int| 0 <= k < seq_views(s.remove(j)).len() implies seq_views(s.remove(j))[k]
        == seq_views(s).remove(j)[k] by {
        assert(seq_views(s.remove(j))[k] == s.remove(j)[k]@);
        assert(seq_views(s).remove(j)[k] == seq_views(s)[if k < j {
            k
        } else {
            k + 1
        }]);
    }
    assert(seq_views(s.remove(j)) =~= seq_views(s).remove(j));
}

/// A team in the order the tape prescribes.
fn shuffle_names(team: &Vec<String>, src: &mut RandomSource) -> (out: Vec<String>)
    requires
        old(src).wf(),
    ensures
        final(src).wf(),
        final(src).words() == old(src).words(),
        seq_views(out@) == spec_shuffle(seq_views(team@), old(src).words(), old(src).cursor()).0,
        final(src).cursor() == spec_shuffle(
            seq_views(team@),
            old(src).words(),
            old(src).cursor(),
        ).1,
{
    let ghost tv = old(src).words();
    let ghost pos0 = old(src).cursor();
    let mut work: Vec<String> = Vec::new();
    let n = team.len();
    let mut i: usize = 0;
    while i < n
        invariant
            n == team@.len(),
            i <= n,
            work@ == team@.take(i as int),
        decreases n - i,
    {
        work.push(team[i].clone());
        proof {
            assert(team@.take(i as int + 1) =~= team@.take(i as int).push(team@[i as int]));
        }
        i += 1;
    }
    proof {
        assert(team@.take(n as int) =~= team@);
    }
    let mut out: Vec<String> = Vec::new();
    while work.len() > 0
        invariant
            src.wf(),
            src.words() == tv,
            spec_shuffle(seq_views(team@), tv, pos0).0 == seq_views(out@) + spec_shuffle(
                seq_views(work@),
                tv,
                src.cursor(),
            ).0,
            spec_shuffle(seq_views(team@), tv, pos0).1 == spec_shuffle(
                seq_views(work@),
                tv,
                src.cursor(),
            ).1,
        decreases work@.len(),
    {
        let ghost workb = work@;
        let ghost posb = src.cursor();
        let j = src.draw_below(work.len());
        let s = work.remove(j);
        out.push(s);
        proof {
            lemma_seq_views_remove(workb, j as int);
            assert(seq_views(workb)[j as int] == workb[j as int]@);
            assert(seq_views(out@) + spec_shuffle(seq_views(work@), tv, src.cursor()).0
                =~= seq_views(out@.drop_last()) + (seq![seq_views(workb)[j as int]] + spec_shuffle(
                seq_views(workb).remove(j as int),
                tv,
                tape_next(tv, posb),
            ).0));
        }
    }
    proof {
        assert(seq_views(work@) =~= Seq::<Seq<char>>::empty());
        assert(seq_views(out@) + spec_shuffle(seq_views(work@), tv, src.cursor()).0 =~= seq_views(
            out@,
        ));
    }
    out
}

/// What a successful pick phase guarantees: the pool keeps its players,
/// every processed player was registered, and the assignment grows by
/// exactly the processed players.
pub proof fn lemma_pick_all_ok(
    pool: Map<Seq<char>, Seq<Seq<char>>>,
    asg: Map<Seq<char>, Seq<char>>,
    players: Seq<Seq<char>>,
    tv: Seq<u64>,
    pos: int,
)
    requires
        spec_pick_all(pool, asg, players, tv, pos) is Ok,
    ensures
        ({
            let out = spec_pick_all(pool, asg, players, tv, pos)->Ok_0;
            &&& out.0.dom() == pool.dom()
            &&& (forall|i: int| 0 <= i < players.len() ==> pool.contains_key(#[trigger] players[i]))
            &&& (forall|q: Seq<char>|
                #[trigger] out.1.contains_key(q) <==> (asg.contains_key(q) || players.contains(q)))
            &&& (forall|q: Seq<char>|
                asg.contains_key(q) && !players.contains(q) ==> #[trigger] out.1[q] == asg[q])
        }),
    decreases players.len(),
{
    if players.len() > 0 {
        let p = players[0];
        let item = pool[p][tape_pick(tv, pos, pool[p].len() as int)];
        let pool2 = consume(pool, item);
        let asg2 = asg.insert(p, item);
        assert(pool2.dom() =~= pool.dom());
        lemma_pick_all_ok(pool2, asg2, players.drop_first(), tv, tape_next(tv, pos));
        let out = spec_pick_all(pool, asg, players, tv, pos)->Ok_0;
        assert forall|i: int| 0 <= i < players.len() implies pool.contains_key(
            #[trigger] players[i],
        ) by {
            if i > 0 {
                assert(players.drop_first()[i - 1] == players[i]);
            }
        }
        assert forall|q: Seq<char>| #[trigger]
            out.1.contains_key(q) <==> (asg.contains_key(q) || players.contains(q)) by {
            if out.1.contains_key(q) {
                if !asg.contains_key(q) {
                    if asg2.contains_key(q) {
                        assert(q == p);
                        assert(players.contains(q)) by {
                            assert(players[0] == q);
                        }
                    } else {
                        assert(players.drop_first().contains(q));
                        let w = choose|w: int|
                            0 <= w < players.drop_first().len() && players.drop_first()[w] == q;
                        assert(players[w + 1] == q);
                    }
                }
            } else {
                assert(!asg2.contains_key(q) && !players.drop_first().contains(q));
                assert(!asg.contains_key(q));
                if players.contains(q) {
                    let w = choose|w: int| 0 <= w < players.len() && players[w] == q;
                    assert(w > 0 ==> players.drop_first()[w - 1] == q);
                    assert(w == 0 ==> q == p);
                    assert(false);
                }
            }
        }
        assert forall|q: Seq<char>|
            asg.contains_key(q) && !players.contains(q) implies #[trigger] out.1[q] == asg[q] by {
            assert(players[0] != q);
            assert(q != p);
            assert forall|w: int| 0 <= w < players.drop_first().len() implies players.drop_first()[w]
                != q by {
                assert(players[w + 1] == q ==> players.contains(q));
            }
            assert(!players.drop_first().contains(q));
        }
    }
}

/// The selection-without-replacement manager: a working copy of the
/// candidate pool, the two rosters and the jungle-capable set, consumed by
/// one assignment run.
pub struct ChooseAndRemoveManager {
    champ_map: CandidatePool,
    team_1: Vec<String>,
    team_2: Vec<String>,
    jg_champs: Vec<String>,
}

impl ChooseAndRemoveManager {
    /// The working pool: player to remaining items.
    pub closed spec fn pool_model(self) -> Map<Seq<char>, Seq<Seq<char>>> {
        self.champ_map@
    }

    /// The first roster, in processing order.
    pub closed spec fn team1(self) -> Seq<Seq<char>> {
        seq_views(self.team_1@)
    }

    /// The second roster, in processing order.
    pub closed spec fn team2(self) -> Seq<Seq<char>> {
        seq_views(self.team_2@)
    }

    /// The jungle-capable items.
    pub closed spec fn jungle(self) -> Seq<Seq<char>> {
        seq_views(self.jg_champs@)
    }

    /// Rosters hold each player once and share none.
    pub closed spec fn wf(self) -> bool {
        &&& self.champ_map.wf()
        &&& self.team1().no_duplicates()
        &&& self.team2().no_duplicates()
        &&& forall|q: Seq<char>| self.team1().contains(q) ==> !self.team2().contains(q)
    }

    /// Wrap a pool and the rosters for one run.  The caller guarantees
    /// distinct, disjoint rosters; players missing from the pool surface
    /// later as `UnknownPlayer`.
    pub fn new(
        champ_map: CandidatePool,
        team_1: Vec<String>,
        team_2: Vec<String>,
        jg_champs: Vec<String>,
    ) -> (r: Self)
        requires
            champ_map.wf(),
            seq_views(team_1@).no_duplicates(),
            seq_views(team_2@).no_duplicates(),
            forall|q: Seq<char>| seq_views(team_1@).contains(q) ==> !seq_views(team_2@).contains(q),
        ensures
            r.wf(),
            r.pool_model() == champ_map@,
            r.team1() == seq_views(team_1@),
            r.team2() == seq_views(team_2@),
            r.jungle() == seq_views(jg_champs@),
    {
        Self { champ_map, team_1, team_2, jg_champs }
    }

    /// Whether some player of the team already holds a jungle-capable item.
    pub fn team_has_jg(&self, team: &Vec<String>, result: &StringMap) -> (r: bool)
        requires
            result.wf(),
            forall|i: int|
                0 <= i < seq_views(team@).len() ==> result@.contains_key(
                    #[trigger] seq_views(team@)[i],
                ),
        ensures
            r == spec_team_has_jungle(seq_views(team@), result@, self.jungle()),
    {
        let n = team.len();
        let mut i: usize = 0;
        while i < n
            invariant
                result.wf(),
                n == team@.len(),
                i <= n,
                forall|i2: int|
                    0 <= i2 < seq_views(team@).len() ==> result@.contains_key(
                        #[trigger] seq_views(team@)[i2],
                    ),
                forall|j: int|
                    0 <= j < i ==> !self.jungle().contains(result@[#[trigger] seq_views(team@)[j]]),
            decreases n - i,
        {
            proof {
                assert(seq_views(team@)[i as int] == team@[i as int]@);
            }
            let held = match result.get(&team[i]) {
                Some(v) => v,
                None => {
                    proof {
                        assert(false);
                    }
                    String::new()
                },
            };
            if crate::pool::contains_string(&self.jg_champs, &held) {
                proof {
                    assert(self.jungle().contains(result@[seq_views(team@)[i as int]]));
                }
                return true;
            }
            i += 1;
        }
        false
    }
}

impl ChooseAndRemoveManager {
    /// One full run driven by the given source: picks for every player of
    /// both rosters, then one repair per team.  The run follows
    /// `spec_select` on the source's tape exactly, so a fixed tape fixes the
    /// outcome.  The pool is consumed: a reroll needs a freshly built
    /// manager.
    pub fn select_champs_with_removal_from(&mut self, src: &mut RandomSource) -> (r: Result<
        (StringMap, RepairOutcome, RepairOutcome),
        SelectError,
    >)
        requires
            old(self).wf(),
            old(src).wf(),
        ensures
            final(self).wf(),
            final(src).wf(),
            final(src).words() == old(src).words(),
            final(self).team1() == old(self).team1(),
            final(self).team2() == old(self).team2(),
            final(self).jungle() == old(self).jungle(),
            ({
                let sel = spec_select(
                    old(self).pool_model(),
                    old(self).team1(),
                    old(self).team2(),
                    old(self).jungle(),
                    old(src).words(),
                    old(src).cursor(),
                );
                match r {
                    Ok(out) => {
                        &&& sel is Ok
                        &&& out.0.wf()
                        &&& out.0@ == sel->Ok_0.0
                        &&& out.1 == sel->Ok_0.1
                        &&& out.2 == sel->Ok_0.2
                        &&& final(self).pool_model() == sel->Ok_0.3
                        &&& final(src).cursor() == sel->Ok_0.4
                    },
                    Err(e) => sel is Err && e == sel->Err_0,
                }
            }),
    {
        let ghost tv = old(src).words();
        let ghost pos0 = old(src).cursor();
        let ghost pool0 = old(self).pool_model();
        let mut players: Vec<String> = Vec::new();
        let n1 = self.team_1.len();
        let mut i: usize = 0;
        while i < n1
            invariant
                *self == *old(self),
                i <= n1,
                n1 == self.team_1@.len(),
                players@ == self.team_1@.take(i as int),
            decreases n1 - i,
        {
            players.push(self.team_1[i].clone());
            proof {
                assert(self.team_1@.take(i as int + 1) =~= self.team_1@.take(i as int).push(
                    self.team_1@[i as int],
                ));
            }
            i += 1;
        }
        let n2 = self.team_2.len();
        let mut j: usize = 0;
        proof {
            assert(self.team_1@.take(n1 as int) =~= self.team_1@);
            assert(self.team_2@.take(0) =~= Seq::<String>::empty());
            assert(players@ =~= self.team_1@ + self.team_2@.take(0));
        }
        while j < n2
            invariant
                *self == *old(self),
                j <= n2,
                n2 == self.team_2@.len(),
                players@ == self.team_1@ + self.team_2@.take(j as int),
            decreases n2 - j,
        {
            players.push(self.team_2[j].clone());
            proof {
                assert(self.team_2@.take(j as int + 1) =~= self.team_2@.take(j as int).push(
                    self.team_2@[j as int],
                ));
                assert(self.team_1@ + self.team_2@.take(j as int + 1) =~= (self.team_1@
                    + self.team_2@.take(j as int)).push(self.team_2@[j as int]));
            }
            j += 1;
        }
        let ghost pview = seq_views(players@);
        proof {
            assert(self.team_2@.take(n2 as int) =~= self.team_2@);
            assert(players@ == self.team_1@ + self.team_2@);
            assert forall|w: int| 0 <= w < pview.len() implies pview[w] == (old(self).team1() + old(
                self,
            ).team2())[w] by {
                assert(pview[w] == players@[w]@);
            }
            assert(pview =~= old(self).team1() + old(self).team2());
            assert(pview.skip(0) =~= pview);
        }
        let mut result = StringMap::new();
        let np = players.len();
        let mut k: usize = 0;
        while k < np
            invariant
                self.wf(),
                src.wf(),
                result.wf(),
                np == players@.len(),
                k <= np,
                pview == seq_views(players@),
                src.words() == tv,
                tv == old(src).words(),
                pos0 == old(src).cursor(),
                pool0 == old(self).pool_model(),
                pview == old(self).team1() + old(self).team2(),
                self.team_1@ == old(self).team_1@,
                self.team_2@ == old(self).team_2@,
                self.jg_champs@ == old(self).jg_champs@,
                spec_pick_all(pool0, Map::<Seq<char>, Seq<char>>::empty(), pview, tv, pos0)
                    == spec_pick_all(
                    self.champ_map@,
                    result@,
                    pview.skip(k as int),
                    tv,
                    src.cursor(),
                ),
            decreases np - k,
        {
            proof {
                assert(pview.skip(k as int)[0] == pview[k as int]);
                assert(pview[k as int] == players@[k as int]@);
                assert(pview.skip(k as int).drop_first() =~= pview.skip(k as int + 1));
            }
            let ghost poolb = self.champ_map@;
            let ghost asgb = result@;
            let ghost posb = src.cursor();
            match self.champ_map.pick_and_consume(&players[k], src) {
                Ok(item) => {
                    result.set(players[k].clone(), item);
                    proof {
                        assert(spec_pick_all(poolb, asgb, pview.skip(k as int), tv, posb)
                            == spec_pick_all(
                            self.champ_map@,
                            result@,
                            pview.skip(k as int + 1),
                            tv,
                            src.cursor(),
                        ));
                    }
                },
                Err(e) => {
                    proof {
                        assert(spec_pick_all(poolb, asgb, pview.skip(k as int), tv, posb) == Result::<
                            (Map<Seq<char>, Seq<Seq<char>>>, Map<Seq<char>, Seq<char>>, int),
                            SelectError,
                        >::Err(e));
                    }
                    return Err(e);
                },
            }
            k += 1;
        }
        let ghost pick = spec_pick_all(
            pool0,
            Map::<Seq<char>, Seq<char>>::empty(),
            pview,
            tv,
            pos0,
        );
        proof {
            assert(pview.skip(np as int) =~= Seq::<Seq<char>>::empty());
            assert(pick == Result::<
                (Map<Seq<char>, Seq<Seq<char>>>, Map<Seq<char>, Seq<char>>, int),
                SelectError,
            >::Ok((self.champ_map@, result@, src.cursor())));
            lemma_pick_all_ok(pool0, Map::<Seq<char>, Seq<char>>::empty(), pview, tv, pos0);
            assert forall|w: int| 0 <= w < old(self).team1().len() implies {
                &&& self.champ_map@.contains_key(#[trigger] old(self).team1()[w])
                &&& result@.contains_key(old(self).team1()[w])
            } by {
                assert(pview[w] == old(self).team1()[w]);
                assert(pview.contains(pview[w]));
            }
            assert forall|w: int| 0 <= w < old(self).team2().len() implies {
                &&& self.champ_map@.contains_key(#[trigger] old(self).team2()[w])
                &&& result@.contains_key(old(self).team2()[w])
            } by {
                let v = w + old(self).team1().len();
                assert(pview[v] == old(self).team2()[w]);
                assert(pview.contains(pview[v]));
            }
            assert(seq_views(self.team_1@) == old(self).team1());
            assert(seq_views(self.team_2@) == old(self).team2());
        }
        let o1 = apply_jg_requirement(self, &self.team_1, &mut result, src);
        let ghost rep1 = spec_repair(
            old(self).team1(),
            pick->Ok_0.0,
            old(self).jungle(),
            pick->Ok_0.1,
            tv,
            pick->Ok_0.2,
        );
        proof {
            assert(result@ == rep1.0 && src.cursor() == rep1.1 && o1 == rep1.2);
            lemma_repair_props(
                old(self).team1(),
                pick->Ok_0.0,
                old(self).jungle(),
                pick->Ok_0.1,
                tv,
                pick->Ok_0.2,
            );
            assert forall|w: int| 0 <= w < old(self).team2().len() implies result@.contains_key(
                #[trigger] old(self).team2()[w],
            ) by {
                assert(pick->Ok_0.1.contains_key(old(self).team2()[w]));
            }
        }
        let o2 = apply_jg_requirement(self, &self.team_2, &mut result, src);
        proof {
            let sel = spec_select(
                old(self).pool_model(),
                old(self).team1(),
                old(self).team2(),
                old(self).jungle(),
                tv,
                pos0,
            );
            assert(sel is Ok);
        }
        Ok((result, o1, o2))
    }

    /// One full run with fresh randomness: a tape long enough to give every
    /// draw its own word is filled from the process randomness and then
    /// consumed.  Everything `spec_select` guarantees of some tape holds of
    /// the result.
    pub fn select_champs_with_removal(&mut self) -> (r: Result<
        (StringMap, RepairOutcome, RepairOutcome),
        SelectError,
    >)
        requires
            old(self).wf(),
            old(self).team1().len() + old(self).team2().len() <= 1000000,
        ensures
            final(self).wf(),
            final(self).team1() == old(self).team1(),
            final(self).team2() == old(self).team2(),
            final(self).jungle() == old(self).jungle(),
            exists|tv: Seq<u64>|
                ({
                    let sel = #[trigger] spec_select(
                        old(self).pool_model(),
                        old(self).team1(),
                        old(self).team2(),
                        old(self).jungle(),
                        tv,
                        0,
                    );
                    match r {
                        Ok(out) => {
                            &&& sel is Ok
                            &&& out.0.wf()
                            &&& out.0@ == sel->Ok_0.0
                            &&& out.1 == sel->Ok_0.1
                            &&& out.2 == sel->Ok_0.2
                            &&& final(self).pool_model() == sel->Ok_0.3
                        },
                        Err(e) => sel is Err && e == sel->Err_0,
                    }
                }),
    {
        let n1 = self.team_1.len();
        let n2 = self.team_2.len();
        let len = 2 * (n1 + n2) + 2;
        let mut src = RandomSource::fresh(len);
        let ghost tvw = src.words();
        let out = self.select_champs_with_removal_from(&mut src);
        proof {
            let sel = spec_select(
                old(self).pool_model(),
                old(self).team1(),
                old(self).team2(),
                old(self).jungle(),
                tvw,
                0,
            );
            assert(match out {
                Ok(o) => {
                    &&& sel is Ok
                    &&& o.0.wf()
                    &&& o.0@ == sel->Ok_0.0
                    &&& o.1 == sel->Ok_0.1
                    &&& o.2 == sel->Ok_0.2
                    &&& self.pool_model() == sel->Ok_0.3
                },
                Err(e) => sel is Err && e == sel->Err_0,
            });
        }
        out
    }
}

/// One team's repair pass against the remaining pool: the exec form of
/// `spec_repair`.
fn apply_jg_requirement(
    manager: &ChooseAndRemoveManager,
    team: &Vec<String>,
    result: &mut StringMap,
    src: &mut RandomSource,
) -> (o: RepairOutcome)
    requires
        manager.wf(),
        old(src).wf(),
        old(result).wf(),
        forall|i: int|
            0 <= i < seq_views(team@).len() ==> manager.pool_model().contains_key(
                #[trigger] seq_views(team@)[i],
            ),
        forall|i: int|
            0 <= i < seq_views(team@).len() ==> old(result)@.contains_key(
                #[trigger] seq_views(team@)[i],
            ),
    ensures
        final(src).wf(),
        final(result).wf(),
        final(src).words() == old(src).words(),
        ({
            let rep = spec_repair(
                seq_views(team@),
                manager.pool_model(),
                manager.jungle(),
                old(result)@,
                old(src).words(),
                old(src).cursor(),
            );
            final(result)@ == rep.0 && final(src).cursor() == rep.1 && o == rep.2
        }),
{
    let ghost tv = old(src).words();
    let ghost pos0 = old(src).cursor();
    let ghost asg0 = old(result)@;
    let ghost pool = manager.pool_model();
    let ghost jgv = manager.jungle();
    if manager.team_has_jg(team, result) {
        return RepairOutcome::Satisfied;
    }
    let order = shuffle_names(team, src);
    let ghost pos1 = src.cursor();
    let ghost ov = seq_views(order@);
    proof {
        lemma_shuffle_multiset(seq_views(team@), tv, pos0);
        assert forall|q: Seq<char>| ov.contains(q) implies seq_views(team@).contains(q) by {
            broadcast use vstd::seq_lib::group_to_multiset_ensures;

            assert(ov.to_multiset().count(q) > 0);
            assert(seq_views(team@).to_multiset().count(q) > 0);
        }
        assert(ov.skip(0) =~= ov);
    }
    let n = order.len();
    let mut i: usize = 0;
    while i < n
        invariant
            manager.wf(),
            result.wf(),
            src.wf(),
            src.words() == tv,
            src.cursor() == pos1,
            n == order@.len(),
            ov == seq_views(order@),
            pool == manager.pool_model(),
            jgv == manager.jungle(),
            tv == old(src).words(),
            pos0 == old(src).cursor(),
            asg0 == old(result)@,
            ov == spec_shuffle(seq_views(team@), tv, pos0).0,
            pos1 == spec_shuffle(seq_views(team@), tv, pos0).1,
            !spec_team_has_jungle(seq_views(team@), asg0, jgv),
            i <= n,
            result@ == asg0,
            forall|q: Seq<char>| #[trigger] ov.contains(q) ==> seq_views(team@).contains(q),
            forall|i2: int|
                0 <= i2 < seq_views(team@).len() ==> manager.pool_model().contains_key(
                    #[trigger] seq_views(team@)[i2],
                ),
            spec_repair_scan(ov, pool, jgv, asg0, tv, pos1) == spec_repair_scan(
                ov.skip(i as int),
                pool,
                jgv,
                asg0,
                tv,
                pos1,
            ),
        decreases n - i,
    {
        proof {
            assert(ov[i as int] == order@[i as int]@);
            assert(ov.contains(ov[i as int]));
            assert(seq_views(team@).contains(ov[i as int]));
            let k = choose|k: int|
                0 <= k < seq_views(team@).len() && seq_views(team@)[k] == ov[i as int];
            assert(manager.pool_model().contains_key(ov[i as int]));
        }
        let cands = match manager.champ_map.filtered_items_for(&order[i], &manager.jg_champs) {
            Ok(v) => v,
            Err(_) => {
                proof {
                    assert(false);
                }
                Vec::new()
            },
        };
        proof {
            assert(ov.skip(i as int)[0] == ov[i as int]);
            assert(seq_views(cands@) == restrict_to(
                manager.champ_map@[order@[i as int]@],
                seq_views(manager.jg_champs@),
            ));
            assert(manager.champ_map@ == pool);
            assert(order@[i as int]@ == ov[i as int]);
            assert(seq_views(manager.jg_champs@) == jgv);
            assert(seq_views(cands@) == restrict_to(pool[ov[i as int]], jgv));
        }
        if cands.len() > 0 {
            let j = src.draw_below(cands.len());
            let chosen = cands[j].clone();
            proof {
                assert(seq_views(cands@)[j as int] == cands@[j as int]@);
            }
            result.set(order[i].clone(), chosen);
            proof {
                let scan = spec_repair_scan(ov.skip(i as int), pool, jgv, asg0, tv, pos1);
                assert(scan.0 == asg0.insert(
                    ov[i as int],
                    restrict_to(pool[ov[i as int]], jgv)[tape_pick(
                        tv,
                        pos1,
                        restrict_to(pool[ov[i as int]], jgv).len() as int,
                    )],
                ));
                assert(result@ == scan.0);
                assert(src.cursor() == scan.1);
                assert(scan.2 is Some);
            }
            return RepairOutcome::Repaired;
        }
        proof {
            assert(ov.skip(i as int).drop_first() =~= ov.skip(i as int + 1));
            assert(spec_repair_scan(ov.skip(i as int), pool, jgv, asg0, tv, pos1)
                == spec_repair_scan(ov.skip(i as int + 1), pool, jgv, asg0, tv, pos1));
        }
        i += 1;
    }
    proof {
        assert(ov.skip(n as int) =~= Seq::<Seq<char>>::empty());
        let scan = spec_repair_scan(ov, pool, jgv, asg0, tv, pos1);
        assert(scan.0 == asg0 && scan.1 == pos1 && scan.2 is None);
    }
    RepairOutcome::Unrepairable
}

/// What the scan guarantees: either nothing changed and no scanned player
/// had a jungle-capable candidate, or exactly one scanned player now holds
/// a jungle-capable item from their remaining candidates.
pub proof fn lemma_repair_scan_props(
    order: Seq<Seq<char>>,
    pool: Map<Seq<char>, Seq<Seq<char>>>,
    jg: Seq<Seq<char>>,
    asg: Map<Seq<char>, Seq<char>>,
    tv: Seq<u64>,
    pos: int,
)
    ensures
        ({
            let sc = spec_repair_scan(order, pool, jg, asg, tv, pos);
            &&& (sc.2 is None ==> sc.0 == asg && sc.1 == pos && (forall|i: int|
                0 <= i < order.len() ==> restrict_to(pool[#[trigger] order[i]], jg).len() == 0))
            &&& (sc.2 is Some ==> {
                let p = sc.2->0;
                &&& order.contains(p)
                &&& restrict_to(pool[p], jg).len() > 0
                &&& jg.contains(sc.0[p])
                &&& restrict_to(pool[p], jg).contains(sc.0[p])
                &&& sc.0 == asg.insert(p, sc.0[p])
            })
        }),
    decreases order.len(),
{
    if order.len() > 0 {
        let p0 = order[0];
        let cands = restrict_to(pool[p0], jg);
        if cands.len() > 0 {
            let idx = tape_pick(tv, pos, cands.len() as int);
            crate::pool::lemma_restrict_member(pool[p0], jg, idx);
            let sc = spec_repair_scan(order, pool, jg, asg, tv, pos);
            assert(sc.0[p0] == cands[idx]);
            assert(cands.contains(cands[idx]));
            assert(order.contains(p0)) by {
                assert(order[0] == p0);
            }
        } else {
            lemma_repair_scan_props(order.drop_first(), pool, jg, asg, tv, pos);
            let sc = spec_repair_scan(order, pool, jg, asg, tv, pos);
            if sc.2 is None {
                assert forall|i: int|
                    0 <= i < order.len() implies restrict_to(
                    pool[#[trigger] order[i]],
                    jg,
                ).len() == 0 by {
                    if i > 0 {
                        assert(order.drop_first()[i - 1] == order[i]);
                    }
                }
            } else {
                let p = sc.2->0;
                assert(order.drop_first().contains(p));
                let w = choose|w: int|
                    0 <= w < order.drop_first().len() && order.drop_first()[w] == p;
                assert(order[w + 1] == p);
            }
        }
    }
}

/// What one team's repair guarantees, whatever the draws: a satisfied team
/// is untouched; a repaired team gained exactly one jungle-capable item,
/// taken from a member's remaining candidates; an unrepairable team is
/// untouched and truly had no candidate; players outside the team are
/// never affected.
pub proof fn lemma_repair_props(
    team: Seq<Seq<char>>,
    pool: Map<Seq<char>, Seq<Seq<char>>>,
    jg: Seq<Seq<char>>,
    asg: Map<Seq<char>, Seq<char>>,
    tv: Seq<u64>,
    pos: int,
)
    ensures
        ({
            let rp = spec_repair(team, pool, jg, asg, tv, pos);
            &&& (forall|q: Seq<char>| #[trigger] asg.contains_key(q) ==> rp.0.contains_key(q))
            &&& (forall|q: Seq<char>|
                #[trigger] rp.0.contains_key(q) ==> (asg.contains_key(q) || team.contains(q)))
            &&& (forall|q: Seq<char>|
                !team.contains(q) && asg.contains_key(q) ==> #[trigger] rp.0[q] == asg[q])
            &&& (rp.2 is Satisfied <==> spec_team_has_jungle(team, asg, jg))
            &&& (rp.2 is Satisfied ==> rp.0 == asg)
            &&& (rp.2 is Unrepairable ==> rp.0 == asg)
            &&& (rp.2 is Unrepairable ==> forall|i: int|
                0 <= i < team.len() ==> restrict_to(pool[#[trigger] team[i]], jg).len() == 0)
            &&& (rp.2 is Repaired ==> exists|p: Seq<char>, it: Seq<char>|
                {
                    &&& team.contains(p)
                    &&& jg.contains(it)
                    &&& restrict_to(pool[p], jg).contains(it)
                    &&& #[trigger] rp.0 == asg.insert(p, it)
                })
        }),
{
    broadcast use vstd::seq_lib::group_to_multiset_ensures;

    let rp = spec_repair(team, pool, jg, asg, tv, pos);
    if !spec_team_has_jungle(team, asg, jg) {
        let sh = spec_shuffle(team, tv, pos);
        lemma_shuffle_multiset(team, tv, pos);
        assert forall|q: Seq<char>| #[trigger] sh.0.contains(q) implies team.contains(q) by {
            assert(sh.0.to_multiset().count(q) > 0);
            assert(team.to_multiset().count(q) > 0);
        }
        assert forall|q: Seq<char>| #[trigger] team.contains(q) implies sh.0.contains(q) by {
            assert(team.to_multiset().count(q) > 0);
            assert(sh.0.to_multiset().count(q) > 0);
        }
        lemma_repair_scan_props(sh.0, pool, jg, asg, tv, sh.1);
        let sc = spec_repair_scan(sh.0, pool, jg, asg, tv, sh.1);
        if sc.2 is None {
            assert forall|i: int|
                0 <= i < team.len() implies restrict_to(pool[#[trigger] team[i]], jg).len()
                == 0 by {
                assert(team.contains(team[i]));
                assert(sh.0.contains(team[i]));
                let w = choose|w: int| 0 <= w < sh.0.len() && sh.0[w] == team[i];
                assert(restrict_to(pool[sh.0[w]], jg).len() == 0);
            }
        } else {
            let p = sc.2->0;
            assert(team.contains(p));
            assert(rp.0 == asg.insert(p, sc.0[p]));
            assert forall|q: Seq<char>|
                !team.contains(q) && asg.contains_key(q) implies #[trigger] rp.0[q] == asg[q] by {
                assert(q != p);
            }
        }
    }
}

/// No two players hold the same item.
pub open spec fn spec_injective(m: Map<Seq<char>, Seq<char>>) -> bool {
    forall|a: Seq<char>, b: Seq<char>|
        m.contains_key(a) && m.contains_key(b) && a != b ==> m[a] != m[b]
}

/// No remaining pool list holds an already-assigned item.
pub open spec fn spec_pool_avoids(
    pool: Map<Seq<char>, Seq<Seq<char>>>,
    m: Map<Seq<char>, Seq<char>>,
) -> bool {
    forall|p: Seq<char>, q: Seq<char>|
        pool.contains_key(p) && m.contains_key(q) ==> !(#[trigger] pool[p]).contains(#[trigger] m[q])
}

/// The pick phase keeps assignments distinct and keeps the pool clear of
/// every assigned item.
pub proof fn lemma_pick_all_unique(
    pool: Map<Seq<char>, Seq<Seq<char>>>,
    asg: Map<Seq<char>, Seq<char>>,
    players: Seq<Seq<char>>,
    tv: Seq<u64>,
    pos: int,
)
    requires
        spec_pick_all(pool, asg, players, tv, pos) is Ok,
        spec_injective(asg),
        spec_pool_avoids(pool, asg),
    ensures
        ({
            let out = spec_pick_all(pool, asg, players, tv, pos)->Ok_0;
            spec_injective(out.1) && spec_pool_avoids(out.0, out.1)
        }),
    decreases players.len(),
{
    broadcast use vstd::seq_lib::group_filter_ensures;

    if players.len() > 0 {
        let p = players[0];
        let item = pool[p][tape_pick(tv, pos, pool[p].len() as int)];
        let pool2 = consume(pool, item);
        let asg2 = asg.insert(p, item);
        assert(pool[p].contains(item));
        assert(spec_injective(asg2)) by {
            assert forall|q: Seq<char>|
                asg.contains_key(q) && q != p implies #[trigger] asg2[q] != item by {
                assert(!pool[p].contains(asg[q]));
            }
        }
        crate::pool::lemma_consume_removes_everywhere(pool, item);
        assert(spec_pool_avoids(pool2, asg2)) by {
            assert forall|w: Seq<char>, q: Seq<char>|
                pool2.contains_key(w) && asg2.contains_key(q) implies !(#[trigger] pool2[w]).contains(
                #[trigger] asg2[q],
            ) by {
                if q == p {
                    assert(!pool2[w].contains(item));
                } else {
                    if pool2[w].contains(asg[q]) {
                        assert(pool[w].contains(asg[q]));
                    }
                }
            }
        }
        lemma_pick_all_unique(pool2, asg2, players.drop_first(), tv, tape_next(tv, pos));
    }
}

/// Law (uniqueness): in every run in which at most one of the two teams
/// needed an actual replacement, the produced assignment gives no item to
/// two different players.  (When both teams are repaired, the two
/// replacements are drawn from the un-consumed leftovers and may agree.)
pub proof fn lemma_uniqueness(
    pool: Map<Seq<char>, Seq<Seq<char>>>,
    t1: Seq<Seq<char>>,
    t2: Seq<Seq<char>>,
    jg: Seq<Seq<char>>,
    tv: Seq<u64>,
    pos: int,
)
    requires
        spec_select(pool, t1, t2, jg, tv, pos) is Ok,
        !(spec_select(pool, t1, t2, jg, tv, pos)->Ok_0.1 is Repaired && spec_select(
            pool,
            t1,
            t2,
            jg,
            tv,
            pos,
        )->Ok_0.2 is Repaired),
    ensures
        spec_injective(spec_select(pool, t1, t2, jg, tv, pos)->Ok_0.0),
{
    broadcast use vstd::seq_lib::group_filter_ensures;

    let picked = spec_pick_all(pool, Map::empty(), t1 + t2, tv, pos)->Ok_0;
    assert(spec_injective(Map::<Seq<char>, Seq<char>>::empty()));
    assert(spec_pool_avoids(pool, Map::<Seq<char>, Seq<char>>::empty()));
    lemma_pick_all_unique(pool, Map::empty(), t1 + t2, tv, pos);
    lemma_pick_all_ok(pool, Map::empty(), t1 + t2, tv, pos);
    let rep1 = spec_repair(t1, picked.0, jg, picked.1, tv, picked.2);
    let rep2 = spec_repair(t2, picked.0, jg, rep1.0, tv, rep1.1);
    lemma_repair_props(t1, picked.0, jg, picked.1, tv, picked.2);
    lemma_repair_props(t2, picked.0, jg, rep1.0, tv, rep1.1);
    if rep1.2 is Repaired {
        let (p, it) = choose|p: Seq<char>, it: Seq<char>|
            {
                &&& t1.contains(p)
                &&& jg.contains(it)
                &&& restrict_to(picked.0[p], jg).contains(it)
                &&& #[trigger] rep1.0 == picked.1.insert(p, it)
            };
        crate::pool::lemma_restrict_member_of(picked.0[p], jg, it);
        assert(picked.0.contains_key(p)) by {
            let w = choose|w: int| 0 <= w < t1.len() && t1[w] == p;
            assert((t1 + t2)[w] == p);
        }
        assert(spec_injective(rep1.0)) by {
            assert forall|q: Seq<char>|
                picked.1.contains_key(q) && q != p implies #[trigger] picked.1[q] != it by {
                assert(!picked.0[p].contains(picked.1[q]));
            }
        }
        assert(rep2.0 == rep1.0);
    } else {
        assert(rep1.0 == picked.1);
        if rep2.2 is Repaired {
            let (p, it) = choose|p: Seq<char>, it: Seq<char>|
                {
                    &&& t2.contains(p)
                    &&& jg.contains(it)
                    &&& restrict_to(picked.0[p], jg).contains(it)
                    &&& #[trigger] rep2.0 == rep1.0.insert(p, it)
                };
            crate::pool::lemma_restrict_member_of(picked.0[p], jg, it);
            assert(picked.0.contains_key(p)) by {
                let w = choose|w: int| 0 <= w < t2.len() && t2[w] == p;
                assert((t1 + t2)[t1.len() + w] == p);
            }
            assert(spec_injective(rep2.0)) by {
                assert forall|q: Seq<char>|
                    picked.1.contains_key(q) && q != p implies #[trigger] picked.1[q] != it by {
                    assert(!picked.0[p].contains(picked.1[q]));
                }
            }
        } else {
            assert(rep2.0 == picked.1);
        }
    }
}

/// Law (coverage): a run that does not fail assigns exactly one item to
/// exactly the players of the two rosters.
pub proof fn lemma_coverage(
    pool: Map<Seq<char>, Seq<Seq<char>>>,
    t1: Seq<Seq<char>>,
    t2: Seq<Seq<char>>,
    jg: Seq<Seq<char>>,
    tv: Seq<u64>,
    pos: int,
)
    requires
        spec_select(pool, t1, t2, jg, tv, pos) is Ok,
    ensures
        forall|q: Seq<char>|
            #[trigger] spec_select(pool, t1, t2, jg, tv, pos)->Ok_0.0.contains_key(q) <==> (t1
                + t2).contains(q),
{
    let picked = spec_pick_all(pool, Map::empty(), t1 + t2, tv, pos)->Ok_0;
    lemma_pick_all_ok(pool, Map::empty(), t1 + t2, tv, pos);
    let rep1 = spec_repair(t1, picked.0, jg, picked.1, tv, picked.2);
    let rep2 = spec_repair(t2, picked.0, jg, rep1.0, tv, rep1.1);
    lemma_repair_props(t1, picked.0, jg, picked.1, tv, picked.2);
    lemma_repair_props(t2, picked.0, jg, rep1.0, tv, rep1.1);
    assert forall|q: Seq<char>| #[trigger]
        rep2.0.contains_key(q) implies (t1 + t2).contains(q) by {
        if rep1.0.contains_key(q) {
            if !picked.1.contains_key(q) {
                assert(t1.contains(q));
                let w = choose|w: int| 0 <= w < t1.len() && t1[w] == q;
                assert((t1 + t2)[w] == q);
            }
        } else {
            assert(t2.contains(q));
            let w = choose|w: int| 0 <= w < t2.len() && t2[w] == q;
            assert((t1 + t2)[t1.len() + w] == q);
        }
    }
    assert forall|q: Seq<char>| (t1 + t2).contains(q) implies #[trigger] rep2.0.contains_key(
        q,
    ) by {
        assert(picked.1.contains_key(q));
    }
}

/// Law (jungle satisfaction attempt): a team that holds no jungle-capable
/// item after the picks, while some member still has a jungle-capable
/// candidate in the pool, ends its repair holding exactly one.
pub proof fn lemma_jungle_satisfaction(
    team: Seq<Seq<char>>,
    pool: Map<Seq<char>, Seq<Seq<char>>>,
    jg: Seq<Seq<char>>,
    asg: Map<Seq<char>, Seq<char>>,
    tv: Seq<u64>,
    pos: int,
)
    requires
        team.no_duplicates(),
        !spec_team_has_jungle(team, asg, jg),
        exists|i: int|
            0 <= i < team.len() && restrict_to(pool[#[trigger] team[i]], jg).len() > 0,
    ensures
        spec_repair(team, pool, jg, asg, tv, pos).2 is Repaired,
        exists|i: int|
            {
                &&& 0 <= i < team.len()
                &&& jg.contains(#[trigger] spec_repair(team, pool, jg, asg, tv, pos).0[team[i]])
                &&& forall|j: int|
                    0 <= j < team.len() && j != i ==> !jg.contains(
                        spec_repair(team, pool, jg, asg, tv, pos).0[team[j]],
                    )
            },
{
    let rp = spec_repair(team, pool, jg, asg, tv, pos);
    lemma_repair_props(team, pool, jg, asg, tv, pos);
    if rp.2 is Unrepairable {
        let i = choose|i: int|
            0 <= i < team.len() && restrict_to(pool[#[trigger] team[i]], jg).len() > 0;
        assert(restrict_to(pool[team[i]], jg).len() == 0);
    }
    assert(rp.2 is Repaired);
    let (p, it) = choose|p: Seq<char>, it: Seq<char>|
        {
            &&& team.contains(p)
            &&& jg.contains(it)
            &&& restrict_to(pool[p], jg).contains(it)
            &&& #[trigger] rp.0 == asg.insert(p, it)
        };
    let i0 = choose|i0: int| 0 <= i0 < team.len() && team[i0] == p;
    assert(jg.contains(rp.0[team[i0]]));
    assert forall|j: int| 0 <= j < team.len() && j != i0 implies !jg.contains(
        rp.0[team[j]],
    ) by {
        assert(team[j] != p);
        assert(rp.0[team[j]] == asg[team[j]]);
        assert(!jg.contains(asg[team[j]]));
    }
}

/// Law (no-op when already satisfied): a team whose picks already hold a
/// jungle-capable item is left exactly as it stands.
pub proof fn lemma_no_op_when_satisfied(
    team: Seq<Seq<char>>,
    pool: Map<Seq<char>, Seq<Seq<char>>>,
    jg: Seq<Seq<char>>,
    asg: Map<Seq<char>, Seq<char>>,
    tv: Seq<u64>,
    pos: int,
)
    requires
        spec_team_has_jungle(team, asg, jg),
    ensures
        spec_repair(team, pool, jg, asg, tv, pos) == (asg, pos, RepairOutcome::Satisfied),
{
}

/// Law (determinism under fixed randomness): two runs over equal pools,
/// rosters, jungle sets and tapes produce equal results — the run is a
/// function of those inputs alone, which `select_champs_with_removal_from`
/// follows exactly.
pub proof fn lemma_deterministic_runs(
    a: ChooseAndRemoveManager,
    b: ChooseAndRemoveManager,
    tv: Seq<u64>,
    pos: int,
)
    requires
        a.pool_model() == b.pool_model(),
        a.team1() == b.team1(),
        a.team2() == b.team2(),
        a.jungle() == b.jungle(),
    ensures
        spec_select(a.pool_model(), a.team1(), a.team2(), a.jungle(), tv, pos) == spec_select(
            b.pool_model(),
            b.team1(),
            b.team2(),
            b.jungle(),
            tv,
            pos,
        ),
{
}

/// Shuffling keeps exactly the team's members.
pub proof fn lemma_shuffle_multiset(s: Seq<Seq<char>>, tv: Seq<u64>, pos: int)
    ensures
        spec_shuffle(s, tv, pos).0.to_multiset() == s.to_multiset(),
        spec_shuffle(s, tv, pos).0.len() == s.len(),
    decreases s.len(),
{
    broadcast use vstd::seq_lib::group_to_multiset_ensures;
    broadcast use vstd::multiset::group_multiset_axioms;

    if s.len() > 0 {
        let j = tape_pick(tv, pos, s.len() as int);
        lemma_shuffle_multiset(s.remove(j), tv, tape_next(tv, pos));
        let rest = spec_shuffle(s.remove(j), tv, tape_next(tv, pos)).0;
        let single = seq![s[j]];
        vstd::seq_lib::lemma_multiset_commutative(single, rest);
        assert(Seq::<Seq<char>>::empty().push(s[j]) =~= single);
        assert(Seq::<Seq<char>>::empty().to_multiset().len() == 0);
        vstd::multiset::lemma_multiset_empty_len::<Seq<char>>(
            Seq::<Seq<char>>::empty().to_multiset(),
        );
        assert(single.to_multiset() =~= Multiset::<Seq<char>>::empty().insert(s[j]));
        assert(s.remove(j).to_multiset() == s.to_multiset().remove(s[j]));
        assert(s.to_multiset().count(s[j]) > 0) by {
            assert(s.contains(s[j]));
        }
        assert(spec_shuffle(s, tv, pos).0.to_multiset() =~= s.to_multiset());
    }
}

} // verus!
