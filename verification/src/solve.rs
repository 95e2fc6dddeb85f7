//! Exact-cover search: selects melds from the catalogue whose tiles sum
//! exactly to a target pool, or proves that no such selection exists. The
//! search always picks a face with the fewest remaining covering melds
//! (forcing single-candidate faces first, as unit propagation would) and
//! backtracks over that face's candidates; it is complete because any
//! partition of the pool must cover the chosen face with one of them.

use vstd::prelude::*;

use crate::combinations::{all_combos, is_combo, lemma_combo_nonempty, lemma_combo_wf};
use crate::tile::Tile;
use crate::tileset::TileSet;

verus! {

/// Sum of the counts of face `t` over a list of melds.
pub open spec fn sum_at(s: Seq<TileSet>, t: Tile) -> nat
    decreases s.len(),
{
    if s.len() == 0 {
        0
    } else {
        s.first().count(t) + sum_at(s.drop_first(), t)
    }
}

/// The melds of `s` together use exactly the tiles of `pool`.
pub open spec fn sums_to(s: Seq<TileSet>, pool: TileSet) -> bool {
    forall|t: Tile| sum_at(s, t) == pool.count(t)
}

/// Every member of `s` is a valid meld.
pub open spec fn melds_only(s: Seq<TileSet>) -> bool {
    forall|i: int| 0 <= i < s.len() ==> is_combo(#[trigger] s[i])
}

/// The pool can be partitioned exactly into valid melds.
pub open spec fn solvable(pool: TileSet) -> bool {
    exists|s: Seq<TileSet>| melds_only(s) && sums_to(s, pool)
}

/// `avail` holds exactly the melds still affordable from `pool`.
pub(crate) open spec fn avail_ok(avail: Seq<TileSet>, pool: TileSet) -> bool {
    forall|c: TileSet|
        #![trigger avail.contains(c)]
        #![trigger c.spec_le(pool)]
        avail.contains(c) <==> (is_combo(c) && c.spec_le(pool))
}

/// How many melds of `s` cover the face `t`.
pub open spec fn covering(s: Seq<TileSet>, t: Tile) -> nat
    decreases s.len(),
{
    if s.len() == 0 {
        0
    } else {
        covering(s.drop_first(), t) + if s.first().count(t) > 0 {
            1nat
        } else {
            0nat
        }
    }
}

/// Solves a pool against the full meld catalogue: returns a list of valid
/// melds whose tiles sum exactly to `pool`, or reports that no exact
/// partition into valid melds exists. "No partition" is a proven outcome,
/// not a timeout: the search is exhaustive.
pub fn solve(pool: TileSet) -> (r: Option<Vec<TileSet>>)
    ensures
        match r {
            Some(v) => melds_only(v@) && sums_to(v@, pool),
            None => !solvable(pool),
        },
{
    let s = Solve::new(pool);
    s.solve()
}

/// One solve invocation: the target pool together with the melds still
/// affordable from it. Each invocation owns its state; the catalogue is
/// rebuilt per invocation and never shared.
pub struct Solve {
    pool: TileSet,
    avail: Vec<TileSet>,
}

impl Solve {
    #[verifier::type_invariant]
    spec fn inv(self) -> bool {
        avail_ok(self.avail@, self.pool)
    }

    /// The pool this invocation is solving.
    pub closed spec fn spec_pool(self) -> TileSet {
        self.pool
    }

    /// Prepares a search over `pool`: builds the catalogue and keeps the
    /// melds affordable from the pool.
    pub fn new(pool: TileSet) -> (s: Solve)
        ensures
            s.spec_pool() == pool,
    {
        let catalogue = all_combos();
        let avail = filter_avail(&catalogue, pool);
        proof {
            assert forall|c: TileSet|
                avail@.contains(c) <==> (is_combo(c) && c.spec_le(pool)) by {
                if avail@.contains(c) {
                    assert(catalogue@.contains(c));
                }
                if is_combo(c) && c.spec_le(pool) {
                    assert(catalogue@.contains(c));
                }
            }
        }
        Solve { pool, avail }
    }

    /// Runs the exact-cover search for this invocation's pool.
    pub fn solve(&self) -> (r: Option<Vec<TileSet>>)
        ensures
            match r {
                Some(v) => melds_only(v@) && sums_to(v@, self.spec_pool()),
                None => !solvable(self.spec_pool()),
            },
    {
        proof {
            use_type_invariant(self);
        }
        search(&self.avail, self.pool)
    }
}

/// The melds of `avail` that are still affordable from `pool`.
fn filter_avail(avail: &Vec<TileSet>, pool: TileSet) -> (r: Vec<TileSet>)
    ensures
        forall|c: TileSet|
            #![trigger r@.contains(c)]
            #![trigger avail@.contains(c)]
            r@.contains(c) <==> (avail@.contains(c) && c.spec_le(pool)),
{
    let mut r: Vec<TileSet> = Vec::new();
    let mut i: usize = 0;
    while i < avail.len()
        invariant
            i <= avail@.len(),
            forall|c: TileSet| #[trigger] r@.contains(c) ==> avail@.contains(c) && c.spec_le(pool),
            forall|j: int|
                0 <= j < i && (#[trigger] avail@[j]).spec_le(pool) ==> r@.contains(avail@[j]),
        decreases avail@.len() - i,
    {
        let c = avail[i];
        let ghost prev = r@;
        let cle = c.le(pool);
        if cle {
            r.push(c);
        }
        proof {
            assert forall|c2: TileSet| #[trigger] r@.contains(c2) implies avail@.contains(c2)
                && c2.spec_le(pool) by {
                if prev.contains(c2) {
                    assert(avail@.contains(c2) && c2.spec_le(pool));
                } else {
                    if !cle {
                        assert(r@ == prev);
                        assert(false);
                    }
                    assert(r@ == prev.push(c));
                    let k = choose|k: int| 0 <= k < r@.len() && r@[k] == c2;
                    if k < prev.len() {
                        assert(prev[k] == c2);
                    }
                    assert(c2 == c);
                    assert(avail@[i as int] == c2);
                    assert(avail@.contains(c2));
                }
            }
            assert forall|j: int|
                0 <= j < i + 1 && (#[trigger] avail@[j]).spec_le(pool) implies r@.contains(
                avail@[j],
            ) by {
                if j < i {
                    if cle {
                        lemma_keeps(prev, r@, avail@[j]);
                    }
                } else {
                    assert(avail@[j] == c);
                    assert(r@[r@.len() - 1] == c);
                }
            }
        }
        i = i + 1;
    }
    proof {
        assert forall|c: TileSet| avail@.contains(c) && c.spec_le(pool) implies r@.contains(
            c,
        ) by {
            let j = choose|j: int| 0 <= j < avail@.len() && avail@[j] == c;
        }
    }
    r
}

/// How many melds of `avail` cover the face `t`.
pub(crate) fn count_covering(avail: &Vec<TileSet>, t: Tile) -> (n: usize)
    ensures
        n as nat == covering(avail@, t),
{
    let mut n: usize = 0;
    let mut i: usize = 0;
    while i < avail.len()
        invariant
            i <= avail@.len(),
            n <= i,
            n as nat == covering(avail@.take(i as int), t),
        decreases avail@.len() - i,
    {
        proof {
            lemma_covering_push(avail@.take(i as int), avail@[i as int], t);
            assert(avail@.take(i + 1) == avail@.take(i as int).push(avail@[i as int]));
        }
        if avail[i].cointains(t) {
            n = n + 1;
        }
        i = i + 1;
    }
    proof {
        assert(avail@.take(avail@.len() as int) == avail@);
    }
    n
}

/// The present face with the fewest remaining covering melds, ties broken
/// towards the lowest face code: the minimum-remaining-values choice. A face
/// with a single candidate is thereby committed first (unit propagation),
/// and a present face with no candidate at all fails the branch at once.
fn pick_face(pool: TileSet, avail: &Vec<TileSet>) -> (t: Tile)
    requires
        !pool.spec_is_empty(),
    ensures
        t.valid(),
        pool.count(t) > 0,
        forall|t2: Tile|
            t2.valid() && pool.count(t2) > 0 ==> covering(avail@, t) <= covering(avail@, t2),
{
    let mut have = false;
    let mut bt = Tile::Joker;
    let mut bk: usize = 0;
    let mut code: u64 = 0;
    while code < 53
        invariant
            code <= 53,
            have ==> bt.valid() && pool.count(bt) > 0 && bk as nat == covering(avail@, bt),
            have ==> forall|t2: Tile|
                t2.valid() && t2.spec_code() < code && pool.count(t2) > 0 ==> bk as nat
                    <= covering(avail@, t2),
            !have ==> forall|t2: Tile|
                t2.valid() && t2.spec_code() < code ==> #[trigger] pool.count(t2) == 0,
        decreases 53 - code,
    {
        let t = Tile::from_code(code).unwrap();
        if pool.amount(t) > 0 {
            let k = count_covering(avail, t);
            if !have || k < bk {
                have = true;
                bt = t;
                bk = k;
            }
        }
        proof {
            assert forall|t2: Tile|
                t2.valid() && t2.spec_code() < code + 1 && pool.count(t2) > 0 implies bk as nat
                <= covering(avail@, t2) by {
                if t2.spec_code() == code {
                    crate::tile::lemma_tile_code_injective(t2, t);
                }
            }
            if !have {
                assert forall|t2: Tile|
                    t2.valid() && t2.spec_code() < code + 1 implies #[trigger] pool.count(t2)
                    == 0 by {
                    if t2.spec_code() == code {
                        crate::tile::lemma_tile_code_injective(t2, t);
                    }
                }
            }
        }
        code = code + 1;
    }
    proof {
        if !have {
            assert forall|t2: Tile| pool.count(t2) == 0 by {
                crate::tileset::lemma_count_valid(pool, t2);
                if t2.valid() {
                    crate::tile::lemma_tile_code_round_trip(t2);
                }
            }
        }
        assert(have);
        assert forall|t2: Tile|
            t2.valid() && pool.count(t2) > 0 implies covering(avail@, bt) <= covering(
            avail@,
            t2,
        ) by {
            crate::tile::lemma_tile_code_round_trip(t2);
        }
    }
    bt
}

/// The backtracking search. `avail` must hold exactly the melds affordable
/// from `pool`; the result is a partition of `pool` into valid melds, or a
/// proof that none exists.
fn search(avail: &Vec<TileSet>, pool: TileSet) -> (r: Option<Vec<TileSet>>)
    requires
        avail_ok(avail@, pool),
    ensures
        match r {
            Some(v) => melds_only(v@) && sums_to(v@, pool),
            None => !solvable(pool),
        },
    decreases pool.total(),
{
    proof {
        use_type_invariant(pool);
    }
    if pool.is_empty() {
        let v: Vec<TileSet> = Vec::new();
        proof {
            assert(v@.len() == 0);
            assert(sums_to(v@, pool));
        }
        return Some(v);
    }
    let f = pick_face(pool, avail);
    let mut i: usize = 0;
    while i < avail.len()
        invariant
            i <= avail@.len(),
            avail_ok(avail@, pool),
            pool.wf(),
            f.valid(),
            pool.count(f) > 0,
            forall|j: int|
                0 <= j < i && (#[trigger] avail@[j]).count(f) > 0 ==> !solvable(
                    pool.spec_difference(avail@[j]),
                ),
        decreases avail@.len() - i,
    {
        let c = avail[i];
        if c.cointains(f) {
            proof {
                assert(avail@[i as int] == c);
                assert(avail@.contains(c));
                assert(is_combo(c) && c.spec_le(pool));
                lemma_combo_wf(c);
            }
            let new_pool = pool.difference(c);
            proof {
                // the branch shrinks the pool: the meld holds some tile
                lemma_combo_nonempty(c);
                let w = choose|t: Tile| t.valid() && #[trigger] c.count(t) > 0;
                assert(pool.count(w) >= c.count(w));
                assert(new_pool.count(w) < pool.count(w));
                assert(new_pool.spec_le(pool));
                crate::tileset::lemma_total_lt(new_pool, pool, w);
            }
            let new_avail = filter_avail(avail, new_pool);
            proof {
                assert forall|c2: TileSet|
                    new_avail@.contains(c2) <==> (is_combo(c2) && c2.spec_le(new_pool)) by {
                    if new_avail@.contains(c2) {
                        assert(avail@.contains(c2));
                    }
                    if is_combo(c2) && c2.spec_le(new_pool) {
                        assert forall|t: Tile| c2.count(t) <= pool.count(t) by {
                            assert(new_pool.count(t) == crate::tileset::monus(
                                pool.count(t),
                                c.count(t),
                            ));
                        }
                        assert(c2.spec_le(pool));
                        assert(avail@.contains(c2));
                    }
                }
            }
            match search(&new_avail, new_pool) {
                Some(v) => {
                    let mut v = v;
                    let ghost vold = v@;
                    v.push(c);
                    proof {
                        assert forall|t: Tile| sum_at(v@, t) == pool.count(t) by {
                            lemma_sum_at_push(vold, c, t);
                            assert(sum_at(vold, t) == new_pool.count(t));
                            assert(new_pool.count(t) == crate::tileset::monus(
                                pool.count(t),
                                c.count(t),
                            ));
                            assert(c.count(t) <= pool.count(t));
                        }
                        assert forall|k: int| 0 <= k < v@.len() implies is_combo(
                            #[trigger] v@[k],
                        ) by {
                            if k < vold.len() {
                                assert(v@[k] == vold[k]);
                            } else {
                                assert(v@[k] == c);
                            }
                        }
                    }
                    return Some(v);
                },
                None => {
                    proof {
                        assert(!solvable(pool.spec_difference(c)));
                    }
                },
            }
        }
        i = i + 1;
    }
    proof {
        if solvable(pool) {
            let s = choose|s: Seq<TileSet>| melds_only(s) && sums_to(s, pool);
            assert(sum_at(s, f) == pool.count(f));
            lemma_sum_pos_has_member(s, f);
            let idx = choose|idx: int| 0 <= idx < s.len() && s[idx].count(f) > 0;
            let c = s[idx];
            assert(is_combo(c));
            lemma_combo_wf(c);
            assert forall|t: Tile| c.count(t) <= pool.count(t) by {
                lemma_sum_at_member_le(s, idx, t);
            }
            assert(c.spec_le(pool));
            assert(avail@.contains(c));
            let j = choose|j: int| 0 <= j < avail@.len() && avail@[j] == c;
            assert(!solvable(pool.spec_difference(c)));
            let s2 = s.remove(idx);
            assert forall|k: int| 0 <= k < s2.len() implies is_combo(#[trigger] s2[k]) by {
                if k < idx {
                    assert(s2[k] == s[k]);
                } else {
                    assert(s2[k] == s[k + 1]);
                }
            }
            assert forall|t: Tile| sum_at(s2, t) == pool.spec_difference(c).count(t) by {
                lemma_sum_at_remove(s, idx, t);
                crate::tileset::lemma_difference_counts(pool, c, t);
            }
            assert(melds_only(s2) && sums_to(s2, pool.spec_difference(c)));
            assert(false);
        }
    }
    None
}

/// The saturating union of a list of melds, as a pool value.
pub open spec fn union_all(s: Seq<TileSet>) -> TileSet
    decreases s.len(),
{
    if s.len() == 0 {
        TileSet::spec_empty()
    } else {
        union_all(s.drop_first()).spec_union(s.first())
    }
}

/// The saturating union of melds caps each face's summed count at two.
pub proof fn lemma_union_all_count(s: Seq<TileSet>, t: Tile)
    requires
        forall|i: int| 0 <= i < s.len() ==> (#[trigger] s[i]).wf(),
    ensures
        union_all(s).wf(),
        union_all(s).count(t) == crate::tileset::cap_two(sum_at(s, t)),
    decreases s.len(),
{
    crate::tileset::lemma_empty(t);
    if s.len() > 0 {
        assert forall|i: int| 0 <= i < s.drop_first().len() implies (#[trigger] s.drop_first()[i]).wf() by {
            assert(s.drop_first()[i] == s[i + 1]);
        }
        lemma_union_all_count(s.drop_first(), t);
        assert(s.first().wf()) by {
            assert(s[0].wf());
        }
        crate::tileset::lemma_spec_union_wf(union_all(s.drop_first()), s.first());
        crate::tileset::lemma_union_counts(union_all(s.drop_first()), s.first(), t);
        crate::tileset::lemma_count_le_two(s.first(), t);
    }
}

/// A partition rebuilds its pool: uniting the returned melds with the
/// saturating union gives back exactly the pool that was solved.
pub proof fn lemma_partition_unions_to_pool(s: Seq<TileSet>, pool: TileSet)
    requires
        pool.wf(),
        melds_only(s),
        sums_to(s, pool),
    ensures
        union_all(s) == pool,
{
    assert forall|i: int| 0 <= i < s.len() implies (#[trigger] s[i]).wf() by {
        lemma_combo_wf(s[i]);
    }
    assert forall|t: Tile| union_all(s).count(t) == pool.count(t) by {
        lemma_union_all_count(s, t);
        crate::tileset::lemma_count_le_two(pool, t);
    }
    lemma_union_all_count(s, Tile::Joker);
    crate::tileset::lemma_counts_determine(union_all(s), pool);
}

/// Pushing a meld adds its count to the sum at every face.
proof fn lemma_sum_at_push(s: Seq<TileSet>, c: TileSet, t: Tile)
    ensures
        sum_at(s.push(c), t) == sum_at(s, t) + c.count(t),
    decreases s.len(),
{
    if s.len() == 0 {
        assert(s.push(c).first() == c);
        assert(s.push(c).drop_first() =~= Seq::<TileSet>::empty());
        assert(sum_at(Seq::<TileSet>::empty(), t) == 0);
        assert(sum_at(s.push(c), t) == c.count(t));
    } else {
        assert(s.push(c).first() == s.first());
        assert(s.push(c).drop_first() =~= s.drop_first().push(c));
        lemma_sum_at_push(s.drop_first(), c, t);
        assert(sum_at(s.push(c), t) == s.first().count(t) + sum_at(s.drop_first().push(c), t));
    }
}

/// Removing a meld takes its count out of the sum at every face.
proof fn lemma_sum_at_remove(s: Seq<TileSet>, i: int, t: Tile)
    requires
        0 <= i < s.len(),
    ensures
        sum_at(s.remove(i), t) + s[i].count(t) == sum_at(s, t),
    decreases s.len(),
{
    if i == 0 {
        assert(s.remove(0) =~= s.drop_first());
    } else {
        assert(s.remove(i).drop_first() =~= s.drop_first().remove(i - 1));
        lemma_sum_at_remove(s.drop_first(), i - 1, t);
    }
}

/// A member's count never exceeds the sum.
proof fn lemma_sum_at_member_le(s: Seq<TileSet>, i: int, t: Tile)
    requires
        0 <= i < s.len(),
    ensures
        s[i].count(t) <= sum_at(s, t),
{
    lemma_sum_at_remove(s, i, t);
}

/// A positive sum at a face comes from some member covering that face.
proof fn lemma_sum_pos_has_member(s: Seq<TileSet>, t: Tile)
    requires
        sum_at(s, t) > 0,
    ensures
        exists|i: int| 0 <= i < s.len() && #[trigger] s[i].count(t) > 0,
    decreases s.len(),
{
    if s.first().count(t) > 0 {
        assert(s[0].count(t) > 0);
    } else {
        lemma_sum_pos_has_member(s.drop_first(), t);
        let j = choose|j: int|
            0 <= j < s.drop_first().len() && #[trigger] s.drop_first()[j].count(t) > 0;
        assert(s[j + 1].count(t) > 0);
    }
}

/// Extending a list keeps its elements.
proof fn lemma_keeps(a: Seq<TileSet>, b: Seq<TileSet>, t: TileSet)
    requires
        a.contains(t),
        b == a || b == a.push(b[b.len() - 1]),
    ensures
        b.contains(t),
{
    if b != a {
        let i = choose|i: int| 0 <= i < a.len() && a[i] == t;
        assert(b[i] == t);
    }
}

/// Pushing one more meld on the front sums accordingly.
proof fn lemma_covering_push(s: Seq<TileSet>, c: TileSet, t: Tile)
    ensures
        covering(s.push(c), t) == covering(s, t) + if c.count(t) > 0 {
            1nat
        } else {
            0nat
        },
    decreases s.len(),
{
    if s.len() == 0 {
        assert(s.push(c).first() == c);
        assert(s.push(c).drop_first() =~= Seq::<TileSet>::empty());
        assert(covering(Seq::<TileSet>::empty(), t) == 0);
    } else {
        assert(s.push(c).first() == s.first());
        assert(s.push(c).drop_first() =~= s.drop_first().push(c));
        lemma_covering_push(s.drop_first(), c, t);
        assert(covering(s.push(c), t) == covering(s.drop_first().push(c), t) + if s.first().count(
            t,
        ) > 0 {
            1nat
        } else {
            0nat
        });
    }
}

} // verus!
