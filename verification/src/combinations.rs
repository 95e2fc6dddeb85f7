//! The complete catalogue of valid melds over the tile domain: same-value
//! groups of 3 or 4 distinct colors, same-color runs of 3 or more consecutive
//! values, and every variant of those with one or two member tiles replaced
//! by jokers, deduplicated by value equality.

use vstd::prelude::*;

use crate::tile::{color_code_of, value_of, Color, Tile, Value};
use crate::tileset::TileSet;

verus! {

/// Membership in the group with value `v` whose excluded color code is `ex`
/// (`ex == 4` excludes nothing, giving the four-color group).
pub open spec fn group_member(v: int, ex: int, t: Tile) -> bool {
    !(t is Joker) && value_of(t) == v && color_code_of(t) != ex
}

/// `s` is exactly the group of one tile per non-excluded color at value `v`.
pub open spec fn is_group(s: TileSet, v: int, ex: int) -> bool {
    &&& 1 <= v <= 13
    &&& 0 <= ex <= 4
    &&& forall|t: Tile|
        s.count(t) == if group_member(v, ex, t) {
            1nat
        } else {
            0nat
        }
}

/// Membership in the run of color code `c` over values `lo` through `hi`.
pub open spec fn run_member(c: int, lo: int, hi: int, t: Tile) -> bool {
    !(t is Joker) && color_code_of(t) == c && lo <= value_of(t) <= hi
}

/// `s` is exactly the run of color code `c` over values `lo` through `hi`.
pub open spec fn is_run(s: TileSet, c: int, lo: int, hi: int) -> bool {
    &&& 0 <= c < 4
    &&& 1 <= lo
    &&& lo + 2 <= hi <= 13
    &&& forall|t: Tile|
        s.count(t) == if run_member(c, lo, hi, t) {
            1nat
        } else {
            0nat
        }
}

/// `s` is a group at some value and exclusion.
pub open spec fn some_group(s: TileSet) -> bool {
    exists|v: int, ex: int| is_group(s, v, ex)
}

/// `s` is a run of some color over some window of values.
pub open spec fn some_run(s: TileSet) -> bool {
    exists|c: int, lo: int, hi: int| is_run(s, c, lo, hi)
}

/// A jokerless meld: a group or a run.
pub open spec fn is_base(s: TileSet) -> bool {
    some_group(s) || some_run(s)
}

/// The meld `b` with member `t` replaced by a joker.
pub open spec fn joker_variant1(b: TileSet, t: Tile) -> TileSet {
    b.spec_remove(t).spec_add(Tile::Joker)
}

/// The meld `b` with members `t1` and `t2` replaced by two jokers.
pub open spec fn joker_variant2(b: TileSet, t1: Tile, t2: Tile) -> TileSet {
    b.spec_remove(t1).spec_remove(t2).spec_add(Tile::Joker).spec_add(Tile::Joker)
}

/// `s` arises from the meld `b` by replacing zero, one or two of its member
/// tiles with jokers.
pub open spec fn combo_from(b: TileSet, s: TileSet) -> bool {
    ||| s == b
    ||| exists|t: Tile| t.valid() && #[trigger] b.count(t) > 0 && s == joker_variant1(b, t)
    ||| exists|t1: Tile, t2: Tile|
        t1.valid() && t2.valid() && t1 != t2 && b.count(t1) > 0 && b.count(t2) > 0 && s
            == #[trigger] joker_variant2(b, t1, t2)
}

/// A valid meld: a group or run, with at most two members replaced by jokers.
pub open spec fn is_combo(s: TileSet) -> bool {
    exists|b: TileSet| b.wf() && is_base(b) && #[trigger] combo_from(b, s)
}

/// The group at `value` over every color but `exclude` (all four colors when
/// `exclude` is `None`).
fn repeated(value: Value, exclude: Option<Color>) -> (r: TileSet)
    ensures
        is_group(
            r,
            value.val(),
            match exclude {
                Some(c) => c.spec_code(),
                None => 4,
            },
        ),
{
    let v = value.value();
    let ghost ex: int = match exclude {
        Some(c) => c.spec_code(),
        None => 4,
    };
    let colors = Color::all();
    let mut s = TileSet::default();
    let mut ci: usize = 0;
    while ci < 4
        invariant
            ci <= 4,
            colors@.len() == 4,
            v as int == value.val(),
            1 <= v <= 13,
            forall|i: int| 0 <= i < 4 ==> (#[trigger] colors@[i]).spec_code() == i,
            ex == match exclude {
                Some(c) => c.spec_code(),
                None => 4,
            },
            forall|t: Tile|
                s.count(t) == if group_member(value.val() as int, ex, t) && color_code_of(t)
                    < ci {
                    1nat
                } else {
                    0nat
                },
        decreases 4 - ci,
    {
        let skip = match exclude {
            Some(c) => c.code() as usize == ci,
            None => false,
        };
        if !skip {
            let tile = Tile::Normal { color: colors[ci], value };
            let prev = s;
            s = s.add(tile);
            proof {
                assert forall|t: Tile|
                    s.count(t) == (if group_member(value.val() as int, ex, t) && color_code_of(t)
                        < ci + 1 {
                        1nat
                    } else {
                        0nat
                    }) by {
                    if t == tile {
                        assert(prev.count(t) == 0);
                    } else {
                        if group_member(value.val() as int, ex, t) && color_code_of(t) == ci {
                            crate::tile::lemma_normal_ext(t, tile);
                            assert(false);
                        }
                    }
                }
            }
        } else {
            proof {
                assert forall|t: Tile|
                    s.count(t) == (if group_member(value.val() as int, ex, t) && color_code_of(t)
                        < ci + 1 {
                        1nat
                    } else {
                        0nat
                    }) by {}
            }
        }
        ci = ci + 1;
    }
    proof {
        assert forall|t: Tile|
            s.count(t) == (if group_member(value.val() as int, ex, t) {
                1nat
            } else {
                0nat
            }) by {
            if group_member(value.val() as int, ex, t) {
                assert(color_code_of(t) < 4);
            }
        }
    }
    s
}

/// The run of `color` over the values `lo` through `hi`.
fn run_tiles(color: Color, lo: u8, hi: u8) -> (r: TileSet)
    requires
        1 <= lo,
        lo + 2 <= hi <= 13,
    ensures
        is_run(r, color.spec_code(), lo as int, hi as int),
{
    let mut s = TileSet::default();
    let mut v: u8 = lo;
    while v <= hi
        invariant
            lo <= v <= hi + 1,
            1 <= lo,
            lo + 2 <= hi <= 13,
            forall|t: Tile|
                s.count(t) == if run_member(color.spec_code(), lo as int, hi as int, t)
                    && value_of(t) < v {
                    1nat
                } else {
                    0nat
                },
        decreases hi + 1 - v,
    {
        let tile = Tile::Normal { color, value: Value::new(v) };
        let prev = s;
        s = s.add(tile);
        proof {
            assert forall|t: Tile|
                s.count(t) == (if run_member(color.spec_code(), lo as int, hi as int, t)
                    && value_of(t) < v + 1 {
                    1nat
                } else {
                    0nat
                }) by {
                if t == tile {
                    assert(prev.count(t) == 0);
                } else {
                    if run_member(color.spec_code(), lo as int, hi as int, t) && value_of(t)
                        == v {
                        crate::tile::lemma_normal_ext(t, tile);
                        assert(false);
                    }
                }
            }
        }
        v = v + 1;
    }
    s
}

/// All groups: for each value, the four 3-color groups and the 4-color group.
fn repeated_combos() -> (r: Vec<TileSet>)
    ensures
        r@.len() <= 65,
        forall|k: int| 0 <= k < r@.len() ==> (#[trigger] r@[k]).wf() && some_group(r@[k]),
        forall|s: TileSet, v: int, ex: int|
            s.wf() && #[trigger] is_group(s, v, ex) ==> r@.contains(s),
{
    let values = Value::all();
    let colors = Color::all();
    let mut r: Vec<TileSet> = Vec::new();
    let mut vi: usize = 0;
    while vi < 13
        invariant
            vi <= 13,
            values@.len() == 13,
            colors@.len() == 4,
            forall|i: int| 0 <= i < 13 ==> (#[trigger] values@[i]).val() == i + 1,
            forall|i: int| 0 <= i < 4 ==> (#[trigger] colors@[i]).spec_code() == i,
            r@.len() == 5 * vi,
            forall|k: int| 0 <= k < r@.len() ==> (#[trigger] r@[k]).wf() && some_group(r@[k]),
            forall|s: TileSet, v: int, ex: int|
                s.wf() && #[trigger] is_group(s, v, ex) && v <= vi ==> r@.contains(s),
        decreases 13 - vi,
    {
        let mut ei: usize = 0;
        while ei < 5
            invariant
                vi < 13,
                ei <= 5,
                values@.len() == 13,
                colors@.len() == 4,
                forall|i: int| 0 <= i < 13 ==> (#[trigger] values@[i]).val() == i + 1,
                forall|i: int| 0 <= i < 4 ==> (#[trigger] colors@[i]).spec_code() == i,
                r@.len() == 5 * vi + ei,
                forall|k: int| 0 <= k < r@.len() ==> (#[trigger] r@[k]).wf() && some_group(r@[k]),
                forall|s: TileSet, v: int, ex: int|
                    s.wf() && #[trigger] is_group(s, v, ex) && v <= vi ==> r@.contains(s),
                forall|s: TileSet, ex: int|
                    s.wf() && #[trigger] is_group(s, vi + 1, ex) && ex < ei ==> r@.contains(s),
            decreases 5 - ei,
        {
            let exclude = if ei < 4 {
                Some(colors[ei])
            } else {
                None
            };
            let g = repeated(values[vi], exclude);
            proof {
                use_type_invariant(g);
            }
            let ghost prev = r@;
            r.push(g);
            proof {
                assert(is_group(g, vi + 1, ei as int));
                assert(some_group(g));
                assert(r@ == prev.push(g));
                assert forall|k: int|
                    0 <= k < r@.len() implies (#[trigger] r@[k]).wf() && some_group(r@[k]) by {
                    if k < prev.len() {
                        assert(r@[k] == prev[k]);
                    } else {
                        assert(r@[k] == g);
                    }
                }
                assert forall|s: TileSet, v: int, ex: int|
                    s.wf() && #[trigger] is_group(s, v, ex) && (v <= vi || (v == vi + 1 && ex <= ei))
                    implies r@.contains(s) by {
                    if v == vi + 1 && ex == ei {
                        crate::tileset::lemma_counts_determine(s, g);
                        assert(r@[r@.len() - 1] == s);
                    } else {
                        assert(prev.contains(s));
                        lemma_push_keeps(prev, g, s);
                    }
                }
            }
            ei = ei + 1;
        }
        vi = vi + 1;
    }
    proof {
        assert forall|s: TileSet, v: int, ex: int|
            s.wf() && #[trigger] is_group(s, v, ex) implies r@.contains(s) by {}
    }
    r
}

/// All runs of one color: every window of 3 or more consecutive values.
fn color_sequences(color: Color) -> (r: Vec<TileSet>)
    ensures
        r@.len() <= 121,
        forall|k: int| 0 <= k < r@.len() ==> (#[trigger] r@[k]).wf() && some_run(r@[k]),
        forall|s: TileSet, lo: int, hi: int|
            s.wf() && #[trigger] is_run(s, color.spec_code(), lo, hi) ==> r@.contains(s),
{
    let mut r: Vec<TileSet> = Vec::new();
    let mut lo: u8 = 1;
    while lo <= 11
        invariant
            1 <= lo <= 12,
            r@.len() <= 11 * (lo - 1),
            forall|k: int| 0 <= k < r@.len() ==> (#[trigger] r@[k]).wf() && some_run(r@[k]),
            forall|s: TileSet, l: int, h: int|
                s.wf() && #[trigger] is_run(s, color.spec_code(), l, h) && l < lo ==> r@.contains(
                    s,
                ),
        decreases 12 - lo,
    {
        let mut hi: u8 = lo + 2;
        while hi <= 13
            invariant
                1 <= lo <= 11,
                lo + 2 <= hi <= 14,
                r@.len() <= 11 * (lo - 1) + (hi - lo - 2),
                forall|k: int| 0 <= k < r@.len() ==> (#[trigger] r@[k]).wf() && some_run(r@[k]),
                forall|s: TileSet, l: int, h: int|
                    s.wf() && #[trigger] is_run(s, color.spec_code(), l, h) && l < lo ==> r@
                        .contains(s),
                forall|s: TileSet, h: int|
                    s.wf() && #[trigger] is_run(s, color.spec_code(), lo as int, h) && h < hi
                        ==> r@.contains(s),
            decreases 14 - hi,
        {
            let g = run_tiles(color, lo, hi);
            proof {
                use_type_invariant(g);
            }
            let ghost prev = r@;
            r.push(g);
            proof {
                assert(is_run(g, color.spec_code(), lo as int, hi as int));
                assert(some_run(g));
                assert(r@ == prev.push(g));
                assert forall|k: int|
                    0 <= k < r@.len() implies (#[trigger] r@[k]).wf() && some_run(r@[k]) by {
                    if k < prev.len() {
                        assert(r@[k] == prev[k]);
                    } else {
                        assert(r@[k] == g);
                    }
                }
                assert forall|s: TileSet, l: int, h: int|
                    s.wf() && #[trigger] is_run(s, color.spec_code(), l, h) && (l < lo || (l
                        == lo && h <= hi)) implies r@.contains(s) by {
                    if l == lo && h == hi {
                        crate::tileset::lemma_counts_determine(s, g);
                        assert(r@[r@.len() - 1] == s);
                    } else {
                        assert(prev.contains(s));
                        lemma_push_keeps(prev, g, s);
                    }
                }
            }
            hi = hi + 1;
        }
        proof {
            assert forall|s: TileSet, l: int, h: int|
                s.wf() && #[trigger] is_run(s, color.spec_code(), l, h) && l < lo + 1 implies r@
                .contains(s) by {}
        }
        lo = lo + 1;
    }
    r
}

/// All runs over every color.
fn sequence_combos() -> (r: Vec<TileSet>)
    ensures
        r@.len() <= 484,
        forall|k: int| 0 <= k < r@.len() ==> (#[trigger] r@[k]).wf() && some_run(r@[k]),
        forall|s: TileSet, c: int, lo: int, hi: int|
            s.wf() && #[trigger] is_run(s, c, lo, hi) ==> r@.contains(s),
{
    let colors = Color::all();
    let mut r: Vec<TileSet> = Vec::new();
    let mut ci: usize = 0;
    while ci < 4
        invariant
            ci <= 4,
            colors@.len() == 4,
            forall|i: int| 0 <= i < 4 ==> (#[trigger] colors@[i]).spec_code() == i,
            r@.len() <= 121 * ci,
            forall|k: int| 0 <= k < r@.len() ==> (#[trigger] r@[k]).wf() && some_run(r@[k]),
            forall|s: TileSet, c: int, lo: int, hi: int|
                s.wf() && #[trigger] is_run(s, c, lo, hi) && c < ci ==> r@.contains(s),
        decreases 4 - ci,
    {
        let seqs = color_sequences(colors[ci]);
        let ghost prev = r@;
        r = extend_sets(r, &seqs);
        proof {
            assert forall|s: TileSet, c: int, lo: int, hi: int|
                s.wf() && #[trigger] is_run(s, c, lo, hi) && c < ci + 1 implies r@.contains(s) by {
                if c == ci {
                    assert(seqs@.contains(s));
                    let j = choose|j: int| 0 <= j < seqs@.len() && seqs@[j] == s;
                    assert(r@[prev.len() + j] == s);
                } else {
                    let j = choose|j: int| 0 <= j < prev.len() && prev[j] == s;
                    assert(r@[j] == s);
                }
            }
        }
        ci = ci + 1;
    }
    r
}

/// Appends all of `more` to `acc`, keeping both contents.
fn extend_sets(acc: Vec<TileSet>, more: &Vec<TileSet>) -> (r: Vec<TileSet>)
    ensures
        r@ == acc@ + more@,
{
    let mut r = acc;
    let ghost base = r@;
    let mut i: usize = 0;
    while i < more.len()
        invariant
            i <= more@.len(),
            r@ == base + more@.take(i as int),
        decreases more@.len() - i,
    {
        r.push(more[i]);
        proof {
            assert(more@.take(i + 1) == more@.take(i as int).push(more@[i as int]));
            assert(r@ == base + more@.take(i + 1));
        }
        i = i + 1;
    }
    proof {
        assert(more@.take(more@.len() as int) == more@);
    }
    r
}

/// The jokerless catalogue: every group and every run.
fn jokerless_combos() -> (r: Vec<TileSet>)
    ensures
        r@.len() <= 549,
        forall|k: int| 0 <= k < r@.len() ==> (#[trigger] r@[k]).wf() && is_base(r@[k]),
        forall|s: TileSet| s.wf() && is_base(s) ==> r@.contains(s),
{
    let groups = repeated_combos();
    let runs = sequence_combos();
    let r = extend_sets(groups, &runs);
    proof {
        assert forall|k: int| 0 <= k < r@.len() implies (#[trigger] r@[k]).wf() && is_base(
            r@[k],
        ) by {
            if k < groups@.len() {
                assert(r@[k] == groups@[k]);
            } else {
                assert(r@[k] == runs@[k - groups@.len()]);
            }
        }
        assert forall|s: TileSet| s.wf() && is_base(s) implies r@.contains(s) by {
            if some_group(s) {
                assert(groups@.contains(s));
                let j = choose|j: int| 0 <= j < groups@.len() && groups@[j] == s;
                assert(r@[j] == s);
            } else {
                assert(runs@.contains(s));
                let j = choose|j: int| 0 <= j < runs@.len() && runs@[j] == s;
                assert(r@[groups@.len() + j] == s);
            }
        }
    }
    r
}

/// The meld itself and every variant of it with one or two member tiles
/// replaced by jokers.
fn jokerized(combo: TileSet) -> (r: Vec<TileSet>)
    ensures
        r@.len() <= 3000,
        forall|k: int| 0 <= k < r@.len() ==> combo_from(combo, #[trigger] r@[k]),
        forall|s: TileSet| combo_from(combo, s) ==> r@.contains(s),
{
    proof {
        use_type_invariant(combo);
    }
    let uniq = combo.unique_tiles();
    let mut r: Vec<TileSet> = Vec::new();
    r.push(combo);
    assert(r@[0] == combo);
    let n = uniq.len();
    let mut i: usize = 0;
    while i < n
        invariant
            i <= n,
            n == uniq@.len(),
            n <= 53,
            combo.wf(),
            r@.len() >= 1 && r@[0] == combo,
            r@.len() == 1 + i,
            forall|k: int|
                0 <= k < uniq@.len() ==> (#[trigger] uniq@[k]).valid() && combo.count(uniq@[k])
                    > 0,
            forall|k1: int, k2: int|
                0 <= k1 < k2 < uniq@.len() ==> uniq@[k1].spec_code() < uniq@[k2].spec_code(),
            forall|k: int| 0 <= k < r@.len() ==> combo_from(combo, #[trigger] r@[k]),
            forall|k: int|
                0 <= k < i ==> r@.contains(joker_variant1(combo, #[trigger] uniq@[k])),
        decreases n - i,
    {
        let t = uniq[i];
        let v1 = combo.remove(t).add(Tile::Joker);
        assert(v1 == joker_variant1(combo, t));
        let ghost prev = r@;
        r.push(v1);
        proof {
            assert(combo.count(uniq@[i as int]) > 0);
            assert(combo_from(combo, v1));
            assert(r@[r@.len() - 1] == v1);
            assert forall|k: int| 0 <= k < i + 1 implies r@.contains(
                joker_variant1(combo, #[trigger] uniq@[k]),
            ) by {
                if k < i {
                    lemma_push_keeps(prev, v1, joker_variant1(combo, uniq@[k]));
                }
            }
            assert(r@[0] == combo);
        }
        i = i + 1;
    }
    let mut i: usize = 0;
    while i < n
        invariant
            i <= n,
            n == uniq@.len(),
            n <= 53,
            combo.wf(),
            r@.len() >= 1 && r@[0] == combo,
            r@.len() <= 1 + n + n * i,
            forall|k: int|
                0 <= k < uniq@.len() ==> (#[trigger] uniq@[k]).valid() && combo.count(uniq@[k])
                    > 0,
            forall|k1: int, k2: int|
                0 <= k1 < k2 < uniq@.len() ==> uniq@[k1].spec_code() < uniq@[k2].spec_code(),
            forall|k: int| 0 <= k < r@.len() ==> combo_from(combo, #[trigger] r@[k]),
            forall|k: int|
                0 <= k < uniq@.len() ==> r@.contains(joker_variant1(combo, #[trigger] uniq@[k])),
            forall|k1: int, k2: int|
                0 <= k1 < i && k1 < k2 < uniq@.len() ==> r@.contains(
                    #[trigger] joker_variant2(combo, uniq@[k1], uniq@[k2]),
                ),
        decreases n - i,
    {
        let mut j: usize = i + 1;
        while j < n
            invariant
                i < j <= n,
                i < n,
                n == uniq@.len(),
                n <= 53,
                combo.wf(),
                r@.len() >= 1 && r@[0] == combo,
                r@.len() <= 1 + n + n * i + (j - i - 1),
                forall|k: int|
                    0 <= k < uniq@.len() ==> (#[trigger] uniq@[k]).valid() && combo.count(uniq@[k])
                        > 0,
                forall|k1: int, k2: int|
                    0 <= k1 < k2 < uniq@.len() ==> uniq@[k1].spec_code() < uniq@[k2].spec_code(),
                forall|k: int| 0 <= k < r@.len() ==> combo_from(combo, #[trigger] r@[k]),
                forall|k: int|
                    0 <= k < uniq@.len() ==> r@.contains(
                        joker_variant1(combo, #[trigger] uniq@[k]),
                    ),
                forall|k1: int, k2: int|
                    0 <= k1 < i && k1 < k2 < uniq@.len() ==> r@.contains(
                        #[trigger] joker_variant2(combo, uniq@[k1], uniq@[k2]),
                    ),
                forall|k2: int|
                    i < k2 < j ==> r@.contains(
                        #[trigger] joker_variant2(combo, uniq@[i as int], uniq@[k2]),
                    ),
            decreases n - j,
        {
            let t1 = uniq[i];
            let t2 = uniq[j];
            let v2 = combo.remove(t1).remove(t2).add(Tile::Joker).add(Tile::Joker);
            assert(v2 == joker_variant2(combo, t1, t2));
            let ghost prev = r@;
            r.push(v2);
            proof {
                assert(t1 != t2);
                assert(combo.count(t1) > 0 && combo.count(t2) > 0);
                assert(combo_from(combo, v2));
                assert(r@[r@.len() - 1] == v2);
                assert forall|k1: int, k2: int|
                    0 <= k1 < i && k1 < k2 < uniq@.len() implies r@.contains(
                    #[trigger] joker_variant2(combo, uniq@[k1], uniq@[k2]),
                ) by {
                    lemma_push_keeps(prev, v2, joker_variant2(combo, uniq@[k1], uniq@[k2]));
                }
                assert forall|k2: int| i < k2 < j + 1 implies r@.contains(
                    #[trigger] joker_variant2(combo, uniq@[i as int], uniq@[k2]),
                ) by {
                    if k2 < j {
                        lemma_push_keeps(
                            prev,
                            v2,
                            joker_variant2(combo, uniq@[i as int], uniq@[k2]),
                        );
                    }
                }
                assert forall|k: int| 0 <= k < uniq@.len() implies r@.contains(
                    joker_variant1(combo, #[trigger] uniq@[k]),
                ) by {
                    lemma_push_keeps(prev, v2, joker_variant1(combo, uniq@[k]));
                }
                assert(r@[0] == combo);
            }
            j = j + 1;
        }
        proof {
            assert(n * (i + 1) == n * i + n) by (nonlinear_arith);
        }
        i = i + 1;
    }
    proof {
        assert((n as int) * (n as int) <= 2809) by (nonlinear_arith)
            requires
                0 <= n <= 53,
        ;
        assert forall|s: TileSet| combo_from(combo, s) implies r@.contains(s) by {
            if s == combo {
                assert(r@[0] == s);
            } else if exists|t: Tile|
                t.valid() && #[trigger] combo.count(t) > 0 && s == joker_variant1(combo, t) {
                let t = choose|t: Tile|
                    t.valid() && #[trigger] combo.count(t) > 0 && s == joker_variant1(combo, t);
                assert(uniq@.contains(t));
                let k = choose|k: int| 0 <= k < uniq@.len() && uniq@[k] == t;
                assert(r@.contains(joker_variant1(combo, uniq@[k])));
            } else {
                let (t1, t2) = choose|t1: Tile, t2: Tile|
                    t1.valid() && t2.valid() && t1 != t2 && combo.count(t1) > 0 && combo.count(t2)
                        > 0 && s == #[trigger] joker_variant2(combo, t1, t2);
                assert(uniq@.contains(t1) && uniq@.contains(t2));
                let k1 = choose|k: int| 0 <= k < uniq@.len() && uniq@[k] == t1;
                let k2 = choose|k: int| 0 <= k < uniq@.len() && uniq@[k] == t2;
                assert(k1 != k2);
                crate::tileset::lemma_remove_comm(combo, t1, t2);
                assert(joker_variant2(combo, t1, t2) == joker_variant2(combo, t2, t1));
                if k1 < k2 {
                    assert(r@.contains(joker_variant2(combo, uniq@[k1], uniq@[k2])));
                } else {
                    assert(r@.contains(joker_variant2(combo, uniq@[k2], uniq@[k1])));
                }
            }
        }
    }
    r
}

/// Keeps the first occurrence of every meld and drops later duplicates, so
/// the catalogue is a set of melds, not a multiset.
fn dedup(xs: Vec<TileSet>) -> (r: Vec<TileSet>)
    ensures
        r@.len() <= xs@.len(),
        forall|s: TileSet| r@.contains(s) == xs@.contains(s),
        forall|i: int, j: int| 0 <= i < j < r@.len() ==> r@[i] != r@[j],
{
    let mut r: Vec<TileSet> = Vec::new();
    let mut i: usize = 0;
    while i < xs.len()
        invariant
            i <= xs@.len(),
            r@.len() <= i,
            forall|s: TileSet| r@.contains(s) == xs@.take(i as int).contains(s),
            forall|i1: int, j1: int| 0 <= i1 < j1 < r@.len() ==> r@[i1] != r@[j1],
        decreases xs@.len() - i,
    {
        let x = xs[i];
        let ghost prev = r@;
        if !contains_set(&r, x) {
            r.push(x);
        }
        proof {
            assert(xs@.take(i + 1) == xs@.take(i as int).push(x));
            assert forall|s: TileSet| r@.contains(s) == xs@.take(i + 1).contains(s) by {
                if prev.contains(s) {
                    lemma_push_keeps_if(prev, r@, s);
                    lemma_push_keeps(xs@.take(i as int), x, s);
                }
                if s == x {
                    assert(xs@.take(i + 1)[i as int] == x);
                    if !prev.contains(s) {
                        assert(r@[r@.len() - 1] == x);
                    }
                }
                if r@.contains(s) && s != x && !prev.contains(s) {
                    let k = choose|k: int| 0 <= k < r@.len() && r@[k] == s;
                    assert(prev[k] == s);
                }
                if xs@.take(i + 1).contains(s) && s != x && !xs@.take(i as int).contains(s) {
                    let tk = xs@.take(i + 1);
                    let k = choose|k: int| 0 <= k < tk.len() && tk[k] == s;
                    assert(xs@.take(i as int)[k] == s);
                }
            }
        }
        i = i + 1;
    }
    proof {
        assert(xs@.take(xs@.len() as int) == xs@);
    }
    r
}

/// Whether the catalogue built so far already holds this meld.
fn contains_set(v: &Vec<TileSet>, x: TileSet) -> (r: bool)
    ensures
        r == v@.contains(x),
{
    let mut i: usize = 0;
    while i < v.len()
        invariant
            i <= v@.len(),
            forall|k: int| 0 <= k < i ==> v@[k] != x,
        decreases v@.len() - i,
    {
        if v[i] == x {
            return true;
        }
        i = i + 1;
    }
    false
}

/// The complete catalogue of valid melds: every group and run, with every
/// joker substitution of at most two tiles, each meld exactly once. The
/// catalogue is a pure function of the tile domain, so every call returns
/// the same sequence.
pub fn all_combos() -> (r: Vec<TileSet>)
    ensures
        r@.len() <= 2000000,
        forall|k: int| 0 <= k < r@.len() ==> is_combo(#[trigger] r@[k]),
        forall|s: TileSet| is_combo(s) ==> r@.contains(s),
        forall|i: int, j: int| 0 <= i < j < r@.len() ==> r@[i] != r@[j],
{
    let bases = jokerless_combos();
    let mut out: Vec<TileSet> = Vec::new();
    let mut bi: usize = 0;
    while bi < bases.len()
        invariant
            bi <= bases@.len(),
            bases@.len() <= 549,
            out@.len() <= 3000 * bi,
            forall|k: int| 0 <= k < bases@.len() ==> (#[trigger] bases@[k]).wf() && is_base(bases@[k]),
            forall|s: TileSet| s.wf() && is_base(s) ==> bases@.contains(s),
            forall|k: int| 0 <= k < out@.len() ==> is_combo(#[trigger] out@[k]),
            forall|k: int, s: TileSet|
                0 <= k < bi && #[trigger] combo_from(bases@[k], s) ==> out@.contains(s),
        decreases bases@.len() - bi,
    {
        let vars = jokerized(bases[bi]);
        let ghost prev = out@;
        out = extend_sets(out, &vars);
        proof {
            assert forall|k: int| 0 <= k < out@.len() implies is_combo(#[trigger] out@[k]) by {
                if k < prev.len() {
                    assert(out@[k] == prev[k]);
                } else {
                    assert(out@[k] == vars@[k - prev.len()]);
                    assert(combo_from(bases@[bi as int], out@[k]));
                }
            }
            assert forall|k: int, s: TileSet|
                0 <= k < bi + 1 && #[trigger] combo_from(bases@[k], s) implies out@.contains(
                s,
            ) by {
                if k < bi {
                    let m = choose|m: int| 0 <= m < prev.len() && prev[m] == s;
                    assert(out@[m] == s);
                } else {
                    assert(vars@.contains(s));
                    let m = choose|m: int| 0 <= m < vars@.len() && vars@[m] == s;
                    assert(out@[prev.len() + m] == s);
                }
            }
        }
        bi = bi + 1;
    }
    let r = dedup(out);
    proof {
        assert forall|k: int| 0 <= k < r@.len() implies is_combo(#[trigger] r@[k]) by {
            assert(r@.contains(r@[k]));
            let m = choose|m: int| 0 <= m < out@.len() && out@[m] == r@[k];
        }
        assert forall|s: TileSet| is_combo(s) implies r@.contains(s) by {
            let b = choose|b: TileSet| b.wf() && is_base(b) && #[trigger] combo_from(b, s);
            assert(bases@.contains(b));
            let k = choose|k: int| 0 <= k < bases@.len() && bases@[k] == b;
            assert(out@.contains(s));
        }
    }
    r
}

/// Only a present face can have a positive count, so a meld never holds an
/// out-of-range tile.
pub proof fn lemma_combo_wf(c: TileSet)
    requires
        is_combo(c),
    ensures
        c.wf(),
{
    let b = choose|b: TileSet| b.wf() && is_base(b) && #[trigger] combo_from(b, c);
    if c == b {
    } else if exists|t: Tile| t.valid() && #[trigger] b.count(t) > 0 && c == joker_variant1(b, t) {
        let t = choose|t: Tile|
            t.valid() && #[trigger] b.count(t) > 0 && c == joker_variant1(b, t);
        crate::tileset::lemma_spec_remove_wf(b, t);
        crate::tileset::lemma_spec_add_wf(b.spec_remove(t), Tile::Joker);
    } else {
        let (t1, t2) = choose|t1: Tile, t2: Tile|
            t1.valid() && t2.valid() && t1 != t2 && b.count(t1) > 0 && b.count(t2) > 0 && c
                == #[trigger] joker_variant2(b, t1, t2);
        crate::tileset::lemma_spec_remove_wf(b, t1);
        crate::tileset::lemma_spec_remove_wf(b.spec_remove(t1), t2);
        crate::tileset::lemma_spec_add_wf(b.spec_remove(t1).spec_remove(t2), Tile::Joker);
        crate::tileset::lemma_spec_add_wf(
            b.spec_remove(t1).spec_remove(t2).spec_add(Tile::Joker),
            Tile::Joker,
        );
    }
}

/// A jokerless meld holds no joker.
proof fn lemma_base_no_joker(b: TileSet)
    requires
        is_base(b),
    ensures
        b.count(Tile::Joker) == 0,
{
    if some_group(b) {
        let (v, ex) = choose|v: int, ex: int| is_group(b, v, ex);
        assert(!group_member(v, ex, Tile::Joker));
    } else {
        let (c, lo, hi) = choose|c: int, lo: int, hi: int| is_run(b, c, lo, hi);
        assert(!run_member(c, lo, hi, Tile::Joker));
    }
}

/// Every jokerless meld holds at least one tile.
proof fn lemma_base_member(b: TileSet)
    requires
        is_base(b),
    ensures
        exists|t: Tile| t.valid() && #[trigger] b.count(t) > 0,
{
    if some_group(b) {
        let (v, ex) = choose|v: int, ex: int| is_group(b, v, ex);
        let cc: int = if ex == 0 {
            1
        } else {
            0
        };
        crate::tile::lemma_make(cc, v);
        let t = crate::tile::make(cc, v);
        assert(group_member(v, ex, t));
        assert(b.count(t) > 0);
    } else {
        let (c, lo, hi) = choose|c: int, lo: int, hi: int| is_run(b, c, lo, hi);
        crate::tile::lemma_make(c, lo);
        let t = crate::tile::make(c, lo);
        assert(run_member(c, lo, hi, t));
        assert(b.count(t) > 0);
    }
}

/// Every valid meld holds at least one tile: a jokerless meld holds its
/// members, and a joker variant holds its jokers.
pub proof fn lemma_combo_nonempty(c: TileSet)
    requires
        is_combo(c),
    ensures
        exists|t: Tile| t.valid() && #[trigger] c.count(t) > 0,
{
    let b = choose|b: TileSet| b.wf() && is_base(b) && #[trigger] combo_from(b, c);
    lemma_base_no_joker(b);
    if c == b {
        lemma_base_member(b);
    } else if exists|t: Tile| t.valid() && #[trigger] b.count(t) > 0 && c == joker_variant1(b, t) {
        let t = choose|t: Tile|
            t.valid() && #[trigger] b.count(t) > 0 && c == joker_variant1(b, t);
        crate::tileset::lemma_remove_counts(b, t);
        crate::tileset::lemma_spec_remove_wf(b, t);
        crate::tileset::lemma_add_counts(b.spec_remove(t), Tile::Joker);
        assert(c.count(Tile::Joker) > 0);
    } else {
        let (t1, t2) = choose|t1: Tile, t2: Tile|
            t1.valid() && t2.valid() && t1 != t2 && b.count(t1) > 0 && b.count(t2) > 0 && c
                == #[trigger] joker_variant2(b, t1, t2);
        let b1 = b.spec_remove(t1);
        let b2 = b1.spec_remove(t2);
        let b3 = b2.spec_add(Tile::Joker);
        crate::tileset::lemma_remove_counts(b, t1);
        crate::tileset::lemma_spec_remove_wf(b, t1);
        crate::tileset::lemma_remove_counts(b1, t2);
        crate::tileset::lemma_spec_remove_wf(b1, t2);
        crate::tileset::lemma_add_counts(b2, Tile::Joker);
        crate::tileset::lemma_spec_add_wf(b2, Tile::Joker);
        crate::tileset::lemma_add_counts(b3, Tile::Joker);
        assert(c.count(Tile::Joker) > 0);
    }
}

/// An element stays an element when a push happened on the way from `a` to `b`.
proof fn lemma_push_keeps_if(a: Seq<TileSet>, b: Seq<TileSet>, t: TileSet)
    requires
        a.contains(t),
        b == a || b == a.push(b[b.len() - 1]),
    ensures
        b.contains(t),
{
    if b != a {
        let i = choose|i: int| 0 <= i < a.len() && a[i] == t;
        assert(b[i] == t);
    }
}

/// An element of a sequence is still an element after a push.
proof fn lemma_push_keeps(s: Seq<TileSet>, x: TileSet, t: TileSet)
    requires
        s.contains(t),
    ensures
        s.push(x).contains(t),
{
    let i = choose|i: int| 0 <= i < s.len() && s[i] == t;
    assert(s.push(x)[i] == t);
}

} // verus!
