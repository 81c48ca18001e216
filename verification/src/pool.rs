use vstd::prelude::*;

use crate::errors::SelectError;
use crate::rng::{tape_next, tape_pick, RandomSource};

verus! {

/// multimap's `MultiMap`, declared so values of it can stand in fields and
/// signatures.
#[verifier::external_type_specification]
#[verifier::external_body]
#[verifier::reject_recursive_types(K)]
#[verifier::reject_recursive_types(V)]
#[verifier::reject_recursive_types(S)]
pub struct ExMultiMap<K, V, S>(multimap::MultiMap<K, V, S>);

/// What a multimap of names holds: for each key present, its list of values
/// in order.
pub uninterp spec fn mm_contents(m: multimap::MultiMap<String, String>) -> Map<
    Seq<char>,
    Seq<Seq<char>>,
>;

/// The views of a sequence of names.
pub open spec fn seq_views(s: Seq<String>) -> Seq<Seq<char>> {
    s.map_values(|x: String| x@)
}

/// Equality of two names, by vstd's specification of `String` equality.
pub fn string_eq(a: &String, b: &String) -> (r: bool)
    ensures
        r == (a@ == b@),
{
    *a == *b
}

/// Whether a list of names holds the given name.
pub fn contains_string(v: &Vec<String>, s: &String) -> (r: bool)
    ensures
        r == seq_views(v@).contains(s@),
{
    let n = v.len();
    let mut i: usize = 0;
    while i < n
        invariant
            n == v@.len(),
            i <= n,
            forall|j: int| 0 <= j < i ==> v@[j]@ != s@,
        decreases n - i,
    {
        if string_eq(&v[i], s) {
            proof {
                assert(seq_views(v@)[i as int] == s@);
            }
            return true;
        }
        i += 1;
    }
    proof {
        assert forall|j: int| 0 <= j < seq_views(v@).len() implies seq_views(v@)[j] != s@ by {
            assert(seq_views(v@)[j] == v@[j]@);
        }
    }
    false
}

/// The empty contents.
pub open spec fn mm_empty() -> Map<Seq<char>, Seq<Seq<char>>> {
    Map::empty()
}

/// Appending a name appends its view, and membership grows by just that
/// view.
pub(crate) proof fn lemma_seq_views_push(s: Seq<String>, x: String)
    ensures
        seq_views(s.push(x)) == seq_views(s).push(x@),
        forall|q: Seq<char>|
            #[trigger] seq_views(s.push(x)).contains(q) <==> (seq_views(s).contains(q) || q == x@),
{
    assert(seq_views(s.push(x)) =~= seq_views(s).push(x@));
    assert forall|q: Seq<char>| #[trigger]
        seq_views(s.push(x)).contains(q) implies (seq_views(s).contains(q) || q == x@) by {
        let j = choose|j: int|
            0 <= j < seq_views(s.push(x)).len() && seq_views(s.push(x))[j] == q;
        if j < seq_views(s).len() {
            assert(seq_views(s)[j] == q);
        }
    }
    assert forall|q: Seq<char>| (seq_views(s).contains(q) || q == x@) implies #[trigger]
        seq_views(s.push(x)).contains(q) by {
        if q == x@ {
            assert(seq_views(s.push(x))[s.len() as int] == q);
        } else {
            let j = choose|j: int| 0 <= j < seq_views(s).len() && seq_views(s)[j] == q;
            assert(seq_views(s.push(x))[j] == q);
        }
    }
}

/// Relies on `MultiMap::new`: the empty multimap.
#[verifier::external_body]
fn mm_new() -> (r: multimap::MultiMap<String, String>)
    ensures
        mm_contents(r) == mm_empty(),
{
    multimap::MultiMap::new()
}

/// Relies on `MultiMap::insert`: it appends the value to the key's vector,
/// creating a one-element vector when the key is absent.
#[verifier::external_body]
fn mm_insert(m: &mut multimap::MultiMap<String, String>, k: String, v: String)
    ensures
        mm_contents(*final(m)) == mm_contents(*old(m)).insert(
            k@,
            (if mm_contents(*old(m)).contains_key(k@) {
                mm_contents(*old(m))[k@]
            } else {
                Seq::<Seq<char>>::empty()
            }).push(v@),
        ),
{
    m.insert(k, v);
}

/// Relies on `MultiMap::get_vec`: the vector under the key when the key is
/// present, `None` otherwise.
#[verifier::external_body]
fn mm_get(m: &multimap::MultiMap<String, String>, k: &String) -> (r: Option<Vec<String>>)
    ensures
        match r {
            Some(v) => mm_contents(*m).contains_key(k@) && v@.map_values(|s: String| s@)
                == mm_contents(*m)[k@],
            None => !mm_contents(*m).contains_key(k@),
        },
{
    m.get_vec(k).cloned()
}

/// A list with every occurrence of one item removed, order kept.
pub open spec fn strip(s: Seq<Seq<char>>, item: Seq<char>) -> Seq<Seq<char>> {
    s.filter(|x: Seq<char>| x != item)
}

/// Multimap contents after retaining the pairs whose value differs from the
/// item: stripped lists, emptied keys dropped.
pub open spec fn mm_strip(mm: Map<Seq<char>, Seq<Seq<char>>>, item: Seq<char>) -> Map<
    Seq<char>,
    Seq<Seq<char>>,
> {
    Map::new(
        |k: Seq<char>| mm.contains_key(k) && strip(mm[k], item).len() > 0,
        |k: Seq<char>| strip(mm[k], item),
    )
}

/// Relies on `MultiMap::retain` (over `Vec::retain`): it keeps, in order, the
/// pairs the predicate accepts, and drops every key whose vector empties.
#[verifier::external_body]
fn mm_retain_ne(m: &mut multimap::MultiMap<String, String>, item: &String)
    ensures
        mm_contents(*final(m)) == mm_strip(mm_contents(*old(m)), item@),
{
    m.retain(|_, v| !string_eq(v, item));
}

/// The pool after an item is taken: every occurrence of that item leaves
/// every player's list, and no player entry disappears.
pub open spec fn consume(pool: Map<Seq<char>, Seq<Seq<char>>>, item: Seq<char>) -> Map<
    Seq<char>,
    Seq<Seq<char>>,
> {
    Map::new(|p: Seq<char>| pool.contains_key(p), |p: Seq<char>| strip(pool[p], item))
}

/// A list cut down to the members of `allowed`, order kept.
pub open spec fn restrict_to(s: Seq<Seq<char>>, allowed: Seq<Seq<char>>) -> Seq<Seq<char>> {
    s.filter(|x: Seq<char>| allowed.contains(x))
}

/// Every element of a restriction belongs to the source list and to
/// `allowed`.
pub proof fn lemma_restrict_member(s: Seq<Seq<char>>, allowed: Seq<Seq<char>>, i: int)
    requires
        0 <= i < restrict_to(s, allowed).len(),
    ensures
        allowed.contains(restrict_to(s, allowed)[i]),
        s.contains(restrict_to(s, allowed)[i]),
{
    broadcast use vstd::seq_lib::group_filter_ensures;
    broadcast use Seq::lemma_filter_contains_rev;

    let x = restrict_to(s, allowed)[i];
    assert(restrict_to(s, allowed).contains(x));
}

/// A member of a restriction is a member of the source and of `allowed`.
pub proof fn lemma_restrict_member_of(s: Seq<Seq<char>>, allowed: Seq<Seq<char>>, x: Seq<char>)
    requires
        restrict_to(s, allowed).contains(x),
    ensures
        s.contains(x),
        allowed.contains(x),
{
    let w = choose|w: int| 0 <= w < restrict_to(s, allowed).len() && restrict_to(s, allowed)[w]
        == x;
    lemma_restrict_member(s, allowed, w);
}

/// A member of a stripped list is a member of the source, and is not the
/// stripped item.
pub proof fn lemma_strip_member_of(s: Seq<Seq<char>>, item: Seq<char>, x: Seq<char>)
    requires
        strip(s, item).contains(x),
    ensures
        s.contains(x),
        x != item,
{
    broadcast use vstd::seq_lib::group_filter_ensures;
    broadcast use Seq::lemma_filter_contains_rev;

    let w = choose|w: int| 0 <= w < strip(s, item).len() && strip(s, item)[w] == x;
    assert(strip(s, item)[w] == x);
}

/// One step of building a restriction left to right.
proof fn lemma_restrict_step(s: Seq<Seq<char>>, allowed: Seq<Seq<char>>, i: int)
    requires
        0 <= i < s.len(),
    ensures
        restrict_to(s.take(i + 1), allowed) == if allowed.contains(s[i]) {
            restrict_to(s.take(i), allowed).push(s[i])
        } else {
            restrict_to(s.take(i), allowed)
        },
{
    reveal(Seq::filter);
    let pred = |x: Seq<char>| allowed.contains(x);
    let t = s.take(i + 1);
    assert(t.drop_last() =~= s.take(i));
    assert(t.last() == s[i]);
    assert(t.filter(pred) == if pred(t.last()) {
        t.drop_last().filter(pred).push(t.last())
    } else {
        t.drop_last().filter(pred)
    });
}

/// Law: a consumed item is gone from every player's remaining list, while
/// every player keeps an entry and every surviving item was already there.
pub proof fn lemma_consume_removes_everywhere(
    pool: Map<Seq<char>, Seq<Seq<char>>>,
    item: Seq<char>,
)
    ensures
        consume(pool, item).dom() == pool.dom(),
        forall|p: Seq<char>|
            #[trigger] consume(pool, item).contains_key(p) ==> !consume(pool, item)[p].contains(
                item,
            ),
        forall|p: Seq<char>, x: Seq<char>|
            consume(pool, item).contains_key(p) && #[trigger] consume(pool, item)[p].contains(x)
                ==> #[trigger] pool[p].contains(x),
{
    broadcast use vstd::seq_lib::group_filter_ensures;

    assert(consume(pool, item).dom() =~= pool.dom());
    assert forall|p: Seq<char>| #[trigger]
        consume(pool, item).contains_key(p) implies !consume(pool, item)[p].contains(item) by {
        if consume(pool, item)[p].contains(item) {
            lemma_strip_member_of(pool[p], item, item);
        }
    }
    assert forall|p: Seq<char>, x: Seq<char>|
        consume(pool, item).contains_key(p) && #[trigger] consume(pool, item)[p].contains(
        x,
    ) implies #[trigger] pool[p].contains(x) by {
        lemma_strip_member_of(pool[p], item, x);
    }
}

/// Per-player eligibility: which items each registered player may still
/// receive.  Picking an item removes it from every player's list.
pub struct CandidatePool {
    map: multimap::MultiMap<String, String>,
    players: Vec<String>,
}

impl CandidatePool {
    /// The mapping from registered player to remaining items, in list order.
    pub closed spec fn view(self) -> Map<Seq<char>, Seq<Seq<char>>> {
        Map::new(
            |p: Seq<char>| seq_views(self.players@).contains(p),
            |p: Seq<char>|
                if mm_contents(self.map).contains_key(p) {
                    mm_contents(self.map)[p]
                } else {
                    Seq::<Seq<char>>::empty()
                },
        )
    }

    /// Every key the multimap holds belongs to a registered player.
    pub closed spec fn wf(self) -> bool {
        forall|k: Seq<char>|
            mm_contents(self.map).contains_key(k) ==> seq_views(self.players@).contains(k)
    }

    /// The empty pool.
    pub fn new() -> (r: Self)
        ensures
            r.wf(),
            r@ == Map::<Seq<char>, Seq<Seq<char>>>::empty(),
    {
        let r = CandidatePool { map: mm_new(), players: Vec::new() };
        proof {
            assert(seq_views(r.players@) =~= Seq::<Seq<char>>::empty());
            assert(r@ =~= Map::<Seq<char>, Seq<Seq<char>>>::empty());
        }
        r
    }

    /// Whether a player is registered.
    pub fn contains_player(&self, player: &String) -> (r: bool)
        ensures
            r == self@.contains_key(player@),
    {
        contains_string(&self.players, player)
    }

    /// Register a player, with no items yet; registering again changes
    /// nothing.
    pub fn register(&mut self, player: String)
        requires
            old(self).wf(),
        ensures
            final(self).wf(),
            final(self)@ == if old(self)@.contains_key(player@) {
                old(self)@
            } else {
                old(self)@.insert(player@, Seq::<Seq<char>>::empty())
            },
    {
        let ghost pview = player@;
        let present = self.contains_player(&player);
        if !present {
            let ghost before = self.players@;
            self.players.push(player);
            proof {
                lemma_seq_views_push(before, self.players@.last());
                assert(before.push(self.players@.last()) == self.players@);
                assert(self@ =~= old(self)@.insert(pview, Seq::<Seq<char>>::empty()));
            }
        }
    }

    /// Append one item to a player's list, registering the player if need be.
    pub fn insert(&mut self, player: String, item: String)
        requires
            old(self).wf(),
        ensures
            final(self).wf(),
            final(self)@ == old(self)@.insert(
                player@,
                (if old(self)@.contains_key(player@) {
                    old(self)@[player@]
                } else {
                    Seq::<Seq<char>>::empty()
                }).push(item@),
            ),
    {
        let ghost pview = player@;
        let ghost iview = item@;
        self.register(player.clone());
        let ghost mid = *self;
        mm_insert(&mut self.map, player, item);
        proof {
            let base = if old(self)@.contains_key(pview) {
                old(self)@[pview]
            } else {
                Seq::<Seq<char>>::empty()
            };
            let mm1 = mm_contents(mid.map);
            let mm2 = mm_contents(self.map);
            let mmbase = if mm1.contains_key(pview) {
                mm1[pview]
            } else {
                Seq::<Seq<char>>::empty()
            };
            assert(mid@.contains_key(pview));
            assert(mid@[pview] == base);
            assert(mmbase == base);
            let rhs = old(self)@.insert(pview, base.push(iview));
            assert(self@.dom() =~= mid@.dom());
            assert(self@.dom() =~= rhs.dom());
            assert(self@.contains_key(pview) && self@[pview] == base.push(iview));
            assert forall|q: Seq<char>| rhs.contains_key(q) implies self@[q] == rhs[q] by {
                if q != pview {
                    assert(mm2.contains_key(q) == mm1.contains_key(q));
                    assert(self@[q] == mid@[q]);
                    assert(mid@[q] == old(self)@[q]);
                }
            }
            assert(self@ =~= rhs);
        }
    }

    /// Append several items to a player's list, registering the player if
    /// need be: how a pool is loaded from mastered and rotation lists.
    pub fn insert_many(&mut self, player: &String, items: &Vec<String>)
        requires
            old(self).wf(),
        ensures
            final(self).wf(),
            final(self)@ == old(self)@.insert(
                player@,
                (if old(self)@.contains_key(player@) {
                    old(self)@[player@]
                } else {
                    Seq::<Seq<char>>::empty()
                }) + seq_views(items@),
            ),
    {
        let ghost base = if old(self)@.contains_key(player@) {
            old(self)@[player@]
        } else {
            Seq::<Seq<char>>::empty()
        };
        self.register(player.clone());
        proof {
            assert(base + seq_views(items@).take(0) =~= base);
            assert(self@ =~= old(self)@.insert(player@, base + seq_views(items@).take(0)));
        }
        let n = items.len();
        let mut i: usize = 0;
        while i < n
            invariant
                self.wf(),
                n == items@.len(),
                i <= n,
                self@ == old(self)@.insert(player@, base + seq_views(items@).take(i as int)),
            decreases n - i,
        {
            let ghost prev = self@;
            self.insert(player.clone(), items[i].clone());
            proof {
                assert(seq_views(items@)[i as int] == items@[i as int]@);
                assert(base + seq_views(items@).take(i as int + 1) =~= (base + seq_views(
                    items@,
                ).take(i as int)).push(items@[i as int]@));
                assert(self@ =~= old(self)@.insert(
                    player@,
                    base + seq_views(items@).take(i as int + 1),
                ));
            }
            i += 1;
        }
        proof {
            assert(seq_views(items@).take(n as int) =~= seq_views(items@));
            assert(self@ =~= old(self)@.insert(player@, base + seq_views(items@)));
        }
    }

    /// The player's remaining items; `UnknownPlayer` when the player was
    /// never registered.
    pub fn items_for(&self, player: &String) -> (r: Result<Vec<String>, SelectError>)
        requires
            self.wf(),
        ensures
            match r {
                Ok(items) => self@.contains_key(player@) && seq_views(items@) == self@[player@],
                Err(e) => e == SelectError::UnknownPlayer && !self@.contains_key(player@),
            },
    {
        if !self.contains_player(player) {
            return Err(SelectError::UnknownPlayer);
        }
        match mm_get(&self.map, player) {
            Some(v) => Ok(v),
            None => {
                let empty: Vec<String> = Vec::new();
                proof {
                    assert(seq_views(empty@) =~= Seq::<Seq<char>>::empty());
                }
                Ok(empty)
            },
        }
    }

    /// The player's remaining items that the given list also holds: the
    /// read-only view that constraint repair scans, consuming nothing.
    pub fn filtered_items_for(&self, player: &String, allowed: &Vec<String>) -> (r: Result<
        Vec<String>,
        SelectError,
    >)
        requires
            self.wf(),
        ensures
            match r {
                Ok(items) => self@.contains_key(player@) && seq_views(items@) == restrict_to(
                    self@[player@],
                    seq_views(allowed@),
                ),
                Err(e) => e == SelectError::UnknownPlayer && !self@.contains_key(player@),
            },
    {
        let all = match self.items_for(player) {
            Ok(v) => v,
            Err(e) => {
                return Err(e);
            },
        };
        let ghost av = seq_views(allowed@);
        let mut out: Vec<String> = Vec::new();
        proof {
            reveal(Seq::filter);
            assert(seq_views(all@).take(0) =~= Seq::<Seq<char>>::empty());
            assert(restrict_to(seq_views(all@).take(0), av) =~= Seq::<Seq<char>>::empty());
            assert(seq_views(out@) =~= Seq::<Seq<char>>::empty());
        }
        let n = all.len();
        let mut i: usize = 0;
        while i < n
            invariant
                n == all@.len(),
                i <= n,
                av == seq_views(allowed@),
                seq_views(out@) == restrict_to(seq_views(all@).take(i as int), av),
            decreases n - i,
        {
            let ghost outb = out@;
            let keep = contains_string(allowed, &all[i]);
            if keep {
                out.push(all[i].clone());
                proof {
                    lemma_seq_views_push(outb, all@[i as int]);
                }
            }
            proof {
                let sv = seq_views(all@);
                assert(sv[i as int] == all@[i as int]@);
                lemma_restrict_step(sv, av, i as int);
            }
            i += 1;
        }
        proof {
            assert(seq_views(all@).take(n as int) =~= seq_views(all@));
        }
        Ok(out)
    }

    /// One pick: an item of the player's list, chosen by the next draw, then
    /// removed from every player's list.  Succeeds exactly when the player
    /// is registered with a non-empty list.
    pub fn pick_and_consume(&mut self, player: &String, src: &mut RandomSource) -> (r: Result<
        String,
        SelectError,
    >)
        requires
            old(self).wf(),
            old(src).wf(),
        ensures
            final(self).wf(),
            final(src).wf(),
            final(src).words() == old(src).words(),
            r is Ok <==> (old(self)@.contains_key(player@) && old(self)@[player@].len() > 0),
            match r {
                Ok(item) => {
                    &&& item@ == old(self)@[player@][tape_pick(
                        old(src).words(),
                        old(src).cursor(),
                        old(self)@[player@].len() as int,
                    )]
                    &&& final(self)@ == consume(old(self)@, item@)
                    &&& final(src).cursor() == tape_next(old(src).words(), old(src).cursor())
                },
                Err(e) => {
                    &&& final(self)@ == old(self)@
                    &&& final(src).cursor() == old(src).cursor()
                    &&& (e == SelectError::UnknownPlayer <==> !old(self)@.contains_key(player@))
                    &&& (e == SelectError::EmptyCandidateSet <==> old(self)@.contains_key(player@)
                        && old(self)@[player@].len() == 0)
                },
            },
    {
        let items = match self.items_for(player) {
            Ok(v) => v,
            Err(e) => {
                return Err(e);
            },
        };
        if items.len() == 0 {
            return Err(SelectError::EmptyCandidateSet);
        }
        let i = src.draw_below(items.len());
        let item = items[i].clone();
        proof {
            assert(seq_views(items@)[i as int] == items@[i as int]@);
        }
        let ghost mid = *self;
        mm_retain_ne(&mut self.map, &item);
        proof {
            reveal(Seq::filter);
            let iv = item@;
            let mm1 = mm_contents(mid.map);
            let mm2 = mm_contents(self.map);
            let rhs = consume(old(self)@, iv);
            assert(strip(Seq::<Seq<char>>::empty(), iv) =~= Seq::<Seq<char>>::empty());
            assert forall|q: Seq<char>| rhs.contains_key(q) implies self@[q] == rhs[q] by {
                if mm1.contains_key(q) {
                    if strip(mm1[q], iv).len() > 0 {
                        assert(mm2.contains_key(q));
                    } else {
                        assert(!mm2.contains_key(q));
                        assert(strip(mm1[q], iv) =~= Seq::<Seq<char>>::empty());
                    }
                } else {
                    assert(!mm2.contains_key(q));
                }
            }
            assert(self@.dom() =~= rhs.dom());
            assert(self@ =~= rhs);
        }
        Ok(item)
    }
}

} // verus!
