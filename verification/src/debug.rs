//! Read-only diagnostics over the meld catalogue: how many melds exist, how
//! many tile assignments they make, and how evenly the tiles are covered.

use vstd::prelude::*;
use vstd::string::StringExecFns;

use crate::combinations::{all_combos, is_combo};
use crate::solve::{count_covering, covering};
use crate::tile::Tile;
use crate::tileset::TileSet;

verus! {

/// A full deduplicated meld catalogue: exactly the valid melds, each once.
pub open spec fn catalogue_ok(cat: Seq<TileSet>) -> bool {
    &&& forall|k: int| 0 <= k < cat.len() ==> is_combo(#[trigger] cat[k])
    &&& forall|s: TileSet| is_combo(s) ==> cat.contains(s)
    &&& forall|i: int, j: int| 0 <= i < j < cat.len() ==> cat[i] != cat[j]
}

/// Total number of tile assignments: the sizes of all melds summed.
pub open spec fn assignments(s: Seq<TileSet>) -> nat
    decreases s.len(),
{
    if s.len() == 0 {
        0
    } else {
        s.first().total() + assignments(s.drop_first())
    }
}

/// How many melds hold no joker.
pub open spec fn jokerless_count(s: Seq<TileSet>) -> nat
    decreases s.len(),
{
    if s.len() == 0 {
        0
    } else {
        jokerless_count(s.drop_first()) + if s.first().count(Tile::Joker) == 0 {
            1nat
        } else {
            0nat
        }
    }
}

/// Tile assignments made by the jokerless melds alone.
pub open spec fn jokerless_assignments(s: Seq<TileSet>) -> nat
    decreases s.len(),
{
    if s.len() == 0 {
        0
    } else {
        jokerless_assignments(s.drop_first()) + if s.first().count(Tile::Joker) == 0 {
            s.first().total()
        } else {
            0nat
        }
    }
}

/// The most melds that any one normal face (codes below `n`) appears in.
pub open spec fn max_covering_upto(s: Seq<TileSet>, n: int) -> nat
    decreases n,
{
    if n <= 0 {
        0
    } else {
        let c = covering(s, Tile::spec_from_code(n - 1));
        let m = max_covering_upto(s, n - 1);
        if c > m {
            c
        } else {
            m
        }
    }
}

/// The fewest melds that any one normal face (codes below `n`) appears in.
pub open spec fn min_covering_upto(s: Seq<TileSet>, n: int) -> nat
    decreases n,
{
    if n <= 1 {
        covering(s, Tile::spec_from_code(0))
    } else {
        let c = covering(s, Tile::spec_from_code(n - 1));
        let m = min_covering_upto(s, n - 1);
        if c < m {
            c
        } else {
            m
        }
    }
}

/// Labelled statistics over the full meld catalogue, for diagnostics: meld
/// count, assignment counts, and the extremes of per-face coverage over the
/// normal (non-joker) faces.
pub fn debug_info() -> (r: Vec<(String, u64)>)
    ensures
        r@.len() == 6,
        r@[0].0@ == "Combination count"@,
        r@[1].0@ == "Assignment count"@,
        r@[2].0@ == "Jokerless combinations"@,
        r@[3].0@ == "Jokerless assignment count"@,
        r@[4].0@ == "Maximum combos per tile (No Joker)"@,
        r@[5].0@ == "Minimum combos per tile (No Joker)"@,
        exists|cat: Seq<TileSet>|
            #[trigger] catalogue_ok(cat) && r@[0].1 == cat.len() && r@[1].1 == assignments(cat)
                && r@[2].1 == jokerless_count(cat) && r@[3].1 == jokerless_assignments(cat)
                && r@[4].1 == max_covering_upto(cat, 52) && r@[5].1 == min_covering_upto(cat, 52),
{
    let cat = all_combos();
    let n = cat.len();
    let mut assigns: u64 = 0;
    let mut jcount: u64 = 0;
    let mut jassigns: u64 = 0;
    let mut i: usize = 0;
    while i < n
        invariant
            i <= n,
            n == cat@.len(),
            n <= 2000000,
            assigns as nat == assignments(cat@.take(i as int)),
            assigns <= 106 * i,
            jcount as nat == jokerless_count(cat@.take(i as int)),
            jcount <= i,
            jassigns as nat == jokerless_assignments(cat@.take(i as int)),
            jassigns <= 106 * i,
        decreases n - i,
    {
        let c = cat[i];
        proof {
            lemma_stats_push(cat@.take(i as int), cat@[i as int]);
            assert(cat@.take(i + 1) == cat@.take(i as int).push(cat@[i as int]));
        }
        let t = c.total_count();
        assigns = assigns + t as u64;
        if !c.cointains(Tile::Joker) {
            jcount = jcount + 1;
            jassigns = jassigns + t as u64;
        }
        i = i + 1;
    }
    proof {
        assert(cat@.take(n as int) == cat@);
    }
    let first = Tile::from_code(0).unwrap();
    let c0 = count_covering(&cat, first);
    let mut mx: u64 = c0 as u64;
    let mut mn: u64 = c0 as u64;
    let mut code: u64 = 1;
    proof {
        assert(max_covering_upto(cat@, 0) == 0);
        assert(covering(cat@, Tile::spec_from_code(0)) == max_covering_upto(cat@, 1));
        assert(covering(cat@, Tile::spec_from_code(0)) == min_covering_upto(cat@, 1));
    }
    while code < 52
        invariant
            1 <= code <= 52,
            n == cat@.len(),
            mx as nat == max_covering_upto(cat@, code as int),
            mn as nat == min_covering_upto(cat@, code as int),
        decreases 52 - code,
    {
        let t = Tile::from_code(code).unwrap();
        let k = count_covering(&cat, t) as u64;
        if k > mx {
            mx = k;
        }
        if k < mn {
            mn = k;
        }
        code = code + 1;
    }
    let mut r: Vec<(String, u64)> = Vec::new();
    r.push((String::from_str("Combination count"), n as u64));
    r.push((String::from_str("Assignment count"), assigns));
    r.push((String::from_str("Jokerless combinations"), jcount));
    r.push((String::from_str("Jokerless assignment count"), jassigns));
    r.push((String::from_str("Maximum combos per tile (No Joker)"), mx));
    r.push((String::from_str("Minimum combos per tile (No Joker)"), mn));
    proof {
        assert(catalogue_ok(cat@));
        assert(r@[0].1 == cat@.len());
        assert(r@[1].1 == assignments(cat@));
        assert(r@[2].1 == jokerless_count(cat@));
        assert(r@[3].1 == jokerless_assignments(cat@));
        assert(r@[4].1 == max_covering_upto(cat@, 52));
        assert(r@[5].1 == min_covering_upto(cat@, 52));
    }
    r
}

/// Pushing one meld extends each running statistic by that meld's share.
proof fn lemma_stats_push(s: Seq<TileSet>, c: TileSet)
    ensures
        assignments(s.push(c)) == assignments(s) + c.total(),
        jokerless_count(s.push(c)) == jokerless_count(s) + if c.count(Tile::Joker) == 0 {
            1nat
        } else {
            0nat
        },
        jokerless_assignments(s.push(c)) == jokerless_assignments(s) + if c.count(Tile::Joker)
            == 0 {
            c.total()
        } else {
            0nat
        },
    decreases s.len(),
{
    if s.len() == 0 {
        assert(s.push(c).first() == c);
        assert(s.push(c).drop_first() =~= Seq::<TileSet>::empty());
        assert(assignments(Seq::<TileSet>::empty()) == 0);
        assert(jokerless_count(Seq::<TileSet>::empty()) == 0);
        assert(jokerless_assignments(Seq::<TileSet>::empty()) == 0);
    } else {
        assert(s.push(c).first() == s.first());
        assert(s.push(c).drop_first() =~= s.drop_first().push(c));
        lemma_stats_push(s.drop_first(), c);
        assert(assignments(s.push(c)) == s.first().total() + assignments(s.drop_first().push(c)));
        assert(jokerless_count(s.push(c)) == jokerless_count(s.drop_first().push(c)) + if s.first().count(Tile::Joker) == 0 {
            1nat
        } else {
            0nat
        });
        assert(jokerless_assignments(s.push(c)) == jokerless_assignments(s.drop_first().push(c))
            + if s.first().count(Tile::Joker) == 0 {
            s.first().total()
        } else {
            0nat
        });
    }
}

} // verus!
