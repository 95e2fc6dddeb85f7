//! A compact multiset of tile faces with per-face counts in {0, 1, 2},
//! stored as two 53-bit vectors: a face is present once when only its
//! `once` bit is set and twice when its `twice` bit is set as well.
//! The representation is canonical: `twice` is a subset of `once`, bits above
//! the face range stay clear, and so equal count maps are equal values.

use vstd::prelude::*;

use crate::tile::Tile;

verus! {

/// True when bit `i` of `w` is set.
spec fn bit(w: u64, i: u64) -> bool {
    w & (1u64 << i) != 0
}

/// The count encoded by a pair of bit vectors at position `i`.
spec fn cnt_bits(once: u64, twice: u64, i: u64) -> nat {
    if !bit(once, i) {
        0
    } else if !bit(twice, i) {
        1
    } else {
        2
    }
}

/// Addition of counts, saturating at the two physical copies of each face.
pub open spec fn cap_two(n: nat) -> nat {
    if n >= 2 {
        2
    } else {
        n
    }
}

/// Subtraction of counts, floored at zero.
pub open spec fn monus(a: nat, b: nat) -> nat {
    if a <= b {
        0
    } else {
        (a - b) as nat
    }
}

/// A pool of tiles: each face occurs 0, 1 or 2 times.
#[derive(Debug, PartialEq, Eq, Hash, Clone, Copy, Structural)]
pub struct TileSet {
    once: u64,
    twice: u64,
}

impl TileSet {
    /// Canonical-representation invariant: only face bits are used, and a
    /// `twice` bit is only ever set together with its `once` bit. Every
    /// executable `TileSet` satisfies it (it is the type invariant), so two
    /// pools with equal counts are equal values (`lemma_counts_determine`).
    #[verifier::type_invariant]
    pub closed spec fn wf(self) -> bool {
        self.once >> 53u64 == 0u64 && self.twice & !self.once == 0u64
    }

    /// How many copies of `t` the pool holds, in {0, 1, 2}.
    pub closed spec fn count(self, t: Tile) -> nat {
        if t.valid() {
            cnt_bits(self.once, self.twice, t.spec_code() as u64)
        } else {
            0
        }
    }

    /// The empty pool.
    pub closed spec fn spec_empty() -> TileSet {
        TileSet { once: 0, twice: 0 }
    }

    /// Pointwise order: `a` fits inside `b` face by face. This is the
    /// "is this meld affordable from the pool" test.
    pub open spec fn spec_le(self, other: TileSet) -> bool {
        forall|t: Tile| self.count(t) <= other.count(t)
    }

    /// True when no face is present.
    pub open spec fn spec_is_empty(self) -> bool {
        forall|t: Tile| self.count(t) == 0
    }

    /// The pool with one more copy of `t`, saturating at two copies.
    pub closed spec fn spec_add(self, t: Tile) -> TileSet {
        if !t.valid() {
            self
        } else {
            let m = 1u64 << (t.spec_code() as u64);
            if self.once & m == 0 {
                TileSet { once: self.once | m, twice: self.twice }
            } else {
                TileSet { once: self.once, twice: self.twice | m }
            }
        }
    }

    /// The pool with one copy of `t` removed, floored at zero copies.
    pub closed spec fn spec_remove(self, t: Tile) -> TileSet {
        if !t.valid() {
            self
        } else {
            let m = 1u64 << (t.spec_code() as u64);
            if self.twice & m != 0 {
                TileSet { once: self.once, twice: self.twice & !m }
            } else {
                TileSet { once: self.once & !m, twice: self.twice }
            }
        }
    }

    /// Per-face saturating sum of two pools.
    pub closed spec fn spec_union(self, other: TileSet) -> TileSet {
        TileSet {
            once: self.once | other.once,
            twice: self.twice | other.twice | (self.once & other.once),
        }
    }

    /// Per-face floored difference of two pools.
    pub closed spec fn spec_difference(self, other: TileSet) -> TileSet {
        TileSet {
            once: (self.once & !other.once) | (self.twice & !other.twice),
            twice: self.twice & !other.once,
        }
    }

    /// Total number of tile copies in the pool, counting doubled faces twice.
    pub open spec fn total(self) -> nat {
        total_upto(self, 53)
    }

    /// True when the pool holds at least one copy of `tile`.
    pub fn cointains(self, tile: Tile) -> (r: bool)
        ensures
            r == (self.count(tile) > 0),
    {
        self.amount(tile) > 0
    }

    /// The number of copies of `tile` in the pool.
    pub fn amount(self, tile: Tile) -> (r: u8)
        ensures
            r as nat == self.count(tile),
            r <= 2,
    {
        let code = tile.code();
        let code_bit = 1u64 << code;
        if self.once & code_bit == 0 {
            0
        } else if self.twice & code_bit == 0 {
            1
        } else {
            2
        }
    }

    /// Adds one copy of `tile`; a face already present twice stays at two
    /// copies (the physical set has only two copies of each face).
    pub fn add(self, tile: Tile) -> (r: TileSet)
        ensures
            r == self.spec_add(tile),
            r.wf(),
            r.count(tile) == cap_two((self.count(tile) + 1) as nat),
            forall|t: Tile| t != tile ==> r.count(t) == self.count(t),
    {
        proof {
            use_type_invariant(self);
        }
        let code = tile.code();
        proof {
            bv_wf_add(self.once, self.twice, code);
        }
        let code_bit = 1u64 << code;
        let r = if self.once & code_bit == 0 {
            TileSet { once: self.once | code_bit, twice: self.twice }
        } else {
            TileSet { once: self.once, twice: self.twice | code_bit }
        };
        proof {
            lemma_add_counts(self, tile);
        }
        r
    }

    /// Removes one copy of `tile`; removing from an absent face is a no-op.
    pub fn remove(self, tile: Tile) -> (r: TileSet)
        ensures
            r == self.spec_remove(tile),
            r.wf(),
            r.count(tile) == monus(self.count(tile), 1),
            forall|t: Tile| t != tile ==> r.count(t) == self.count(t),
    {
        proof {
            use_type_invariant(self);
        }
        let code = tile.code();
        proof {
            bv_wf_remove(self.once, self.twice, code);
        }
        let code_bit = 1u64 << code;
        let r = if self.twice & code_bit != 0 {
            TileSet { once: self.once, twice: self.twice & !code_bit }
        } else {
            TileSet { once: self.once & !code_bit, twice: self.twice }
        };
        proof {
            lemma_remove_counts(self, tile);
        }
        r
    }

    /// Per-face saturating sum: two half-presences combine to a double, but
    /// counts never exceed the two physical copies.
    pub fn union(self, other: TileSet) -> (r: TileSet)
        ensures
            r == self.spec_union(other),
            r.wf(),
            forall|t: Tile|
                #[trigger] r.count(t) == cap_two((self.count(t) + other.count(t)) as nat),
    {
        proof {
            use_type_invariant(self);
            use_type_invariant(other);
            bv_wf_union(self.once, self.twice, other.once, other.twice);
        }
        let r = TileSet {
            once: self.once | other.once,
            twice: self.twice | other.twice | (self.once & other.once),
        };
        proof {
            assert forall|t: Tile|
                #[trigger] r.count(t) == cap_two((self.count(t) + other.count(t)) as nat) by {
                lemma_union_counts(self, other, t);
            }
        }
        r
    }

    /// Per-face difference, floored at zero.
    pub fn difference(self, other: TileSet) -> (r: TileSet)
        ensures
            r == self.spec_difference(other),
            r.wf(),
            forall|t: Tile| #[trigger] r.count(t) == monus(self.count(t), other.count(t)),
    {
        proof {
            use_type_invariant(self);
            use_type_invariant(other);
            bv_wf_difference(self.once, self.twice, other.once, other.twice);
        }
        let r = TileSet {
            once: (self.once & !other.once) | (self.twice & !other.twice),
            twice: self.twice & !other.once,
        };
        proof {
            assert forall|t: Tile|
                #[trigger] r.count(t) == monus(self.count(t), other.count(t)) by {
                lemma_difference_counts(self, other, t);
            }
        }
        r
    }

    /// Pointwise order test: every face of `self` fits inside `other`.
    pub fn le(self, other: TileSet) -> (r: bool)
        ensures
            r == self.spec_le(other),
    {
        let mut code: u64 = 0;
        while code < 53
            invariant
                code <= 53,
                forall|t: Tile|
                    t.valid() && t.spec_code() < code ==> #[trigger] self.count(t) <= other.count(
                        t,
                    ),
            decreases 53 - code,
        {
            let t = Tile::from_code(code).unwrap();
            if self.amount(t) > other.amount(t) {
                proof {
                    assert(!self.spec_le(other));
                }
                return false;
            }
            code = code + 1;
        }
        proof {
            assert forall|t: Tile| self.count(t) <= other.count(t) by {
                if t.valid() {
                    assert(t.spec_code() < 53) by {
                        crate::tile::lemma_tile_code_round_trip(t);
                    }
                }
            }
        }
        true
    }

    /// True when the pool holds no tile at all.
    pub fn is_empty(self) -> (r: bool)
        ensures
            r == self.spec_is_empty(),
            r == (self == TileSet::spec_empty()),
    {
        proof {
            use_type_invariant(self);
        }
        let r = self.once == 0 && self.twice == 0;
        proof {
            if r {
                assert forall|t: Tile| self.count(t) == 0 by {
                    if t.valid() {
                        bv_zero_bit(t.spec_code() as u64);
                    }
                }
            } else {
                if self.once == 0 {
                    bv_wf_zero(self.once, self.twice);
                }
                lemma_nonzero_has_bit(self.once);
                let i = choose|i: u64| i < 53 && self.once & (1u64 << i) != 0;
                let t = Tile::spec_from_code(i as int);
                crate::tile::lemma_code_bijection(i as int);
                assert(self.count(t) > 0);
            }
        }
        r
    }

    /// Every face present at least once, each exactly once, in ascending
    /// code order.
    pub fn unique_tiles(self) -> (r: Vec<Tile>)
        ensures
            r@.len() <= 53,
            forall|k: int|
                0 <= k < r@.len() ==> (#[trigger] r@[k]).valid() && self.count(r@[k]) > 0,
            forall|t: Tile| t.valid() && self.count(t) > 0 ==> r@.contains(t),
            forall|k1: int, k2: int|
                0 <= k1 < k2 < r@.len() ==> r@[k1].spec_code() < r@[k2].spec_code(),
    {
        let mut r: Vec<Tile> = Vec::new();
        let mut code: u64 = 0;
        while code < 53
            invariant
                code <= 53,
                r@.len() <= code,
                forall|k: int|
                    0 <= k < r@.len() ==> (#[trigger] r@[k]).valid() && self.count(r@[k]) > 0
                        && r@[k].spec_code() < code,
                forall|t: Tile|
                    t.valid() && t.spec_code() < code && self.count(t) > 0 ==> r@.contains(t),
                forall|k1: int, k2: int|
                    0 <= k1 < k2 < r@.len() ==> r@[k1].spec_code() < r@[k2].spec_code(),
            decreases 53 - code,
        {
            let t = Tile::from_code(code).unwrap();
            if self.amount(t) > 0 {
                let ghost prev = r@;
                r.push(t);
                proof {
                    assert forall|t2: Tile|
                        t2.valid() && t2.spec_code() < code + 1 && self.count(t2) > 0 implies r@
                        .contains(t2) by {
                        if t2.spec_code() == code {
                            crate::tile::lemma_tile_code_injective(t2, t);
                            assert(r@[r@.len() - 1] == t2);
                        } else {
                            let i = choose|i: int| 0 <= i < prev.len() && prev[i] == t2;
                            assert(r@[i] == t2);
                        }
                    }
                }
            } else {
                proof {
                    assert forall|t2: Tile|
                        t2.valid() && t2.spec_code() < code + 1 && self.count(t2) > 0 implies r@
                        .contains(t2) by {
                        if t2.spec_code() == code {
                            crate::tile::lemma_tile_code_injective(t2, t);
                        }
                    }
                }
            }
            code = code + 1;
        }
        proof {
            assert forall|t: Tile| t.valid() && self.count(t) > 0 implies r@.contains(t) by {
                crate::tile::lemma_tile_code_round_trip(t);
            }
        }
        r
    }

    /// The total number of tile copies in the pool.
    pub fn total_count(self) -> (n: u8)
        ensures
            n as nat == self.total(),
            n <= 106,
    {
        let mut n: u8 = 0;
        let mut code: u64 = 0;
        while code < 53
            invariant
                code <= 53,
                n as nat == total_upto(self, code as int),
                n <= 2 * code,
            decreases 53 - code,
        {
            let t = Tile::from_code(code).unwrap();
            n = n + self.amount(t);
            code = code + 1;
        }
        n
    }

    /// A lazy, restartable walk over the pool: each face comes out once per
    /// copy it has, lowest code first.
    pub fn tiles(self) -> (it: Tiles)
        ensures
            it.remaining() == self,
    {
        Tiles(self)
    }
}

impl Default for TileSet {
    /// The empty pool.
    fn default() -> (r: Self)
        ensures
            r == TileSet::spec_empty(),
            r.spec_is_empty(),
    {
        proof {
            assert(0u64 >> 53u64 == 0u64 && 0u64 & !0u64 == 0u64) by (bit_vector);
        }
        let r = TileSet { once: 0, twice: 0 };
        proof {
            assert forall|t: Tile| r.count(t) == 0 by {
                if t.valid() {
                    bv_zero_bit(t.spec_code() as u64);
                }
            }
        }
        r
    }
}

/// Iterator state over a `TileSet`: the tiles not yet produced.
pub struct Tiles(TileSet);

impl Tiles {
    /// The tiles this iterator has still to hand out.
    pub closed spec fn remaining(self) -> TileSet {
        self.0
    }

    /// Produces the present tile with the lowest code and removes one copy
    /// of it, or reports the pool exhausted.
    pub fn next(&mut self) -> (r: Option<Tile>)
        ensures
            match r {
                None => old(self).remaining().spec_is_empty() && final(self).remaining() == old(
                    self).remaining(),
                Some(t) => t.valid() && old(self).remaining().count(t) > 0 && final(
                    self).remaining() == old(self).remaining().spec_remove(t) && forall|t2: Tile|
                    t2.valid() && t2.spec_code() < t.spec_code() ==> old(self).remaining().count(
                        t2) == 0,
            },
    {
        let mut code: u64 = 0;
        while code < 53
            invariant
                code <= 53,
                self.0 == old(self).0,
                forall|t2: Tile|
                    t2.valid() && t2.spec_code() < code ==> #[trigger] self.0.count(t2) == 0,
            decreases 53 - code,
        {
            let t = Tile::from_code(code).unwrap();
            if self.0.amount(t) > 0 {
                self.0 = self.0.remove(t);
                return Some(t);
            }
            code = code + 1;
        }
        proof {
            assert forall|t: Tile| self.0.count(t) == 0 by {
                if t.valid() {
                    crate::tile::lemma_tile_code_round_trip(t);
                }
            }
        }
        None
    }
}

/// Running total of counts over the faces with codes below `n`.
pub open spec fn total_upto(s: TileSet, n: int) -> nat
    decreases n,
{
    if n <= 0 {
        0
    } else {
        total_upto(s, n - 1) + s.count(Tile::spec_from_code(n - 1))
    }
}

// ---------------------------------------------------------------------------
// Bit-level facts. Everything the operations need from the two bit vectors is
// proved here once, with the bit-vector solver, and consumed above in count
// form.
// ---------------------------------------------------------------------------
/// Bit `i` of a one-bit mask at `j` is set exactly when `i == j`.
proof fn bv_mask_bit(i: u64, j: u64)
    by (bit_vector)
    requires
        i < 64,
        j < 64,
    ensures
        (((1u64 << j) & (1u64 << i)) != 0) == (i == j),
{
}

/// Bits of a bitwise or, and, xor and not, one position at a time.
proof fn bv_bool_bits(a: u64, b: u64, i: u64)
    by (bit_vector)
    requires
        i < 64,
    ensures
        (((a | b) & (1u64 << i)) != 0) == ((a & (1u64 << i)) != 0 || (b & (1u64 << i)) != 0),
        (((a & b) & (1u64 << i)) != 0) == ((a & (1u64 << i)) != 0 && (b & (1u64 << i)) != 0),
        (((a ^ b) & (1u64 << i)) != 0) == (((a & (1u64 << i)) != 0) != ((b & (1u64 << i)) != 0)),
        ((!a & (1u64 << i)) != 0) == ((a & (1u64 << i)) == 0),
{
}

/// The zero word has no bits.
proof fn bv_zero_bit(i: u64)
    by (bit_vector)
    ensures
        0u64 & (1u64 << i) == 0,
{
}

/// Words with only face bits have nothing at or above position 53.
proof fn bv_high_zero(w: u64, i: u64)
    by (bit_vector)
    requires
        w >> 53u64 == 0u64,
        53 <= i < 64,
    ensures
        w & (1u64 << i) == 0,
{
}

/// A subset (`t` inside `o`) has its bits among the superset's bits.
proof fn bv_subset_bit(o: u64, t: u64, i: u64)
    by (bit_vector)
    requires
        t & !o == 0,
        i < 64,
    ensures
        (t & (1u64 << i)) != 0 ==> (o & (1u64 << i)) != 0,
{
}

/// If the `once` word is zero, the invariant forces the `twice` word to zero.
proof fn bv_wf_zero(o: u64, t: u64)
    by (bit_vector)
    requires
        t & !o == 0,
        o == 0,
    ensures
        t == 0,
{
}

/// Different words differ in some bit; the difference stays in the face
/// range when both words do.
proof fn bv_xor_facts(a: u64, b: u64)
    by (bit_vector)
    requires
        a >> 53u64 == 0u64,
        b >> 53u64 == 0u64,
    ensures
        (a != b) == ((a ^ b) != 0),
        (a ^ b) >> 53u64 == 0u64,
{
}

/// Adding a face bit preserves the representation invariant, whichever of
/// the two branches of `add` runs.
proof fn bv_wf_add(o: u64, t: u64, j: u64)
    by (bit_vector)
    requires
        j < 53,
        o >> 53u64 == 0u64,
        t & !o == 0,
    ensures
        (o & (1u64 << j) == 0) ==> ((o | (1u64 << j)) >> 53u64 == 0u64 && t & !(o | (1u64 << j))
            == 0),
        (o & (1u64 << j) != 0) ==> ((t | (1u64 << j)) & !o == 0),
{
}

/// Clearing a face bit preserves the representation invariant, whichever of
/// the two branches of `remove` runs.
proof fn bv_wf_remove(o: u64, t: u64, j: u64)
    by (bit_vector)
    requires
        j < 53,
        o >> 53u64 == 0u64,
        t & !o == 0,
    ensures
        (t & (1u64 << j) != 0) ==> ((t & !(1u64 << j)) & !o == 0),
        (t & (1u64 << j) == 0) ==> ((o & !(1u64 << j)) >> 53u64 == 0u64 && t & !(o & !(1u64 << j))
            == 0),
{
}

/// The union formula preserves the representation invariant.
proof fn bv_wf_union(o1: u64, t1: u64, o2: u64, t2: u64)
    by (bit_vector)
    requires
        o1 >> 53u64 == 0u64,
        t1 & !o1 == 0,
        o2 >> 53u64 == 0u64,
        t2 & !o2 == 0,
    ensures
        (o1 | o2) >> 53u64 == 0u64,
        (t1 | t2 | (o1 & o2)) & !(o1 | o2) == 0,
{
}

/// The difference formula preserves the representation invariant.
proof fn bv_wf_difference(o1: u64, t1: u64, o2: u64, t2: u64)
    by (bit_vector)
    requires
        o1 >> 53u64 == 0u64,
        t1 & !o1 == 0,
        o2 >> 53u64 == 0u64,
        t2 & !o2 == 0,
    ensures
        ((o1 & !o2) | (t1 & !t2)) >> 53u64 == 0u64,
        (t1 & !o2) & !((o1 & !o2) | (t1 & !t2)) == 0,
{
}

/// The lowest set bit of a nonzero face word is a face position.
proof fn lemma_nonzero_has_bit(w: u64)
    requires
        w != 0,
        w >> 53u64 == 0u64,
    ensures
        exists|i: u64| i < 53 && w & (1u64 << i) != 0,
{
    vstd::std_specs::bits::axiom_u64_trailing_zeros(w);
    let k = vstd::std_specs::bits::u64_trailing_zeros(w) as u64;
    assert(k < 64 && (w >> k) & 1u64 == 1u64);
    assert((w >> k) & 1u64 == 1u64 ==> w & (1u64 << k) != 0) by (bit_vector)
        requires
            k < 64,
    ;
    if k >= 53 {
        bv_high_zero(w, k);
        assert(false);
    }
}

/// Count change of `spec_add` at every face.
pub proof fn lemma_add_counts(s: TileSet, tile: Tile)
    requires
        s.wf(),
        tile.valid(),
    ensures
        s.spec_add(tile).count(tile) == cap_two((s.count(tile) + 1) as nat),
        forall|t: Tile| t != tile ==> s.spec_add(tile).count(t) == s.count(t),
{
    crate::tile::lemma_tile_code_round_trip(tile);
    let j = tile.spec_code() as u64;
    let r = s.spec_add(tile);
    bv_mask_bit(j, j);
    bv_bool_bits(s.once, 1u64 << j, j);
    bv_bool_bits(s.twice, 1u64 << j, j);
    bv_subset_bit(s.once, s.twice, j);
    assert forall|t: Tile| t != tile implies r.count(t) == s.count(t) by {
        if t.valid() {
            if t.spec_code() == tile.spec_code() {
                crate::tile::lemma_tile_code_injective(t, tile);
            }
            let i = t.spec_code() as u64;
            bv_mask_bit(i, j);
            bv_bool_bits(s.once, 1u64 << j, i);
            bv_bool_bits(s.twice, 1u64 << j, i);
        }
    }
}

/// Count change of `spec_remove` at every face.
pub proof fn lemma_remove_counts(s: TileSet, tile: Tile)
    requires
        s.wf(),
        tile.valid(),
    ensures
        s.spec_remove(tile).count(tile) == monus(s.count(tile), 1),
        forall|t: Tile| t != tile ==> s.spec_remove(tile).count(t) == s.count(t),
{
    crate::tile::lemma_tile_code_round_trip(tile);
    let j = tile.spec_code() as u64;
    let r = s.spec_remove(tile);
    bv_mask_bit(j, j);
    bv_bool_bits(s.once, !(1u64 << j), j);
    bv_bool_bits(s.twice, !(1u64 << j), j);
    assert(((!(1u64 << j)) & (1u64 << j)) == 0) by (bit_vector);
    bv_subset_bit(s.once, s.twice, j);
    assert forall|t: Tile| t != tile implies r.count(t) == s.count(t) by {
        if t.valid() {
            if t.spec_code() == tile.spec_code() {
                crate::tile::lemma_tile_code_injective(t, tile);
            }
            let i = t.spec_code() as u64;
            bv_mask_bit(i, j);
            bv_bool_bits(s.once, !(1u64 << j), i);
            bv_bool_bits(s.twice, !(1u64 << j), i);
            bv_bool_bits(1u64 << j, 1u64 << i, i);
        }
    }
}

/// Adding a tile keeps the representation well-formed.
pub proof fn lemma_spec_add_wf(s: TileSet, t: Tile)
    requires
        s.wf(),
        t.valid(),
    ensures
        s.spec_add(t).wf(),
{
    crate::tile::lemma_tile_code_round_trip(t);
    bv_wf_add(s.once, s.twice, t.spec_code() as u64);
}

/// Removing a tile keeps the representation well-formed.
pub proof fn lemma_spec_remove_wf(s: TileSet, t: Tile)
    requires
        s.wf(),
        t.valid(),
    ensures
        s.spec_remove(t).wf(),
{
    crate::tile::lemma_tile_code_round_trip(t);
    bv_wf_remove(s.once, s.twice, t.spec_code() as u64);
}

/// Removals of two tiles commute.
pub proof fn lemma_remove_comm(s: TileSet, t1: Tile, t2: Tile)
    requires
        s.wf(),
        t1.valid(),
        t2.valid(),
    ensures
        s.spec_remove(t1).spec_remove(t2) == s.spec_remove(t2).spec_remove(t1),
{
    let a = s.spec_remove(t1).spec_remove(t2);
    let b = s.spec_remove(t2).spec_remove(t1);
    lemma_spec_remove_wf(s, t1);
    lemma_spec_remove_wf(s, t2);
    lemma_spec_remove_wf(s.spec_remove(t1), t2);
    lemma_spec_remove_wf(s.spec_remove(t2), t1);
    assert forall|t: Tile| a.count(t) == b.count(t) by {
        lemma_remove_counts(s, t1);
        lemma_remove_counts(s, t2);
        lemma_remove_counts(s.spec_remove(t1), t2);
        lemma_remove_counts(s.spec_remove(t2), t1);
        if t == t1 && t == t2 {
        } else if t == t1 {
            assert(a.count(t) == monus(s.count(t), 1));
            assert(b.count(t) == monus(s.count(t), 1));
        } else if t == t2 {
            assert(a.count(t) == monus(s.count(t), 1));
            assert(b.count(t) == monus(s.count(t), 1));
        } else {
            assert(a.count(t) == s.count(t));
            assert(b.count(t) == s.count(t));
        }
    }
    lemma_counts_determine(a, b);
}

/// Count of `spec_union` at one face: saturating sum.
pub proof fn lemma_union_counts(a: TileSet, b: TileSet, t: Tile)
    requires
        a.wf(),
        b.wf(),
    ensures
        a.spec_union(b).count(t) == cap_two((a.count(t) + b.count(t)) as nat),
{
    if t.valid() {
        crate::tile::lemma_tile_code_round_trip(t);
        let i = t.spec_code() as u64;
        bv_bool_bits(a.once, b.once, i);
        bv_bool_bits(a.twice, b.twice, i);
        bv_bool_bits(a.twice | b.twice, a.once & b.once, i);
        bv_subset_bit(a.once, a.twice, i);
        bv_subset_bit(b.once, b.twice, i);
    }
}

/// Count of `spec_difference` at one face: floored subtraction.
pub proof fn lemma_difference_counts(a: TileSet, b: TileSet, t: Tile)
    requires
        a.wf(),
        b.wf(),
    ensures
        a.spec_difference(b).count(t) == monus(a.count(t), b.count(t)),
{
    if t.valid() {
        crate::tile::lemma_tile_code_round_trip(t);
        let i = t.spec_code() as u64;
        bv_bool_bits(a.once, !b.once, i);
        bv_bool_bits(a.twice, !b.twice, i);
        bv_bool_bits(a.once & !b.once, a.twice & !b.twice, i);
        bv_bool_bits(a.twice, !b.once, i);
        bv_bool_bits(b.once, b.twice, i);
        bv_bool_bits(b.twice, b.once, i);
        bv_subset_bit(a.once, a.twice, i);
        bv_subset_bit(b.once, b.twice, i);
    }
}

/// The empty pool is well-formed and holds nothing.
pub proof fn lemma_empty(t: Tile)
    ensures
        TileSet::spec_empty().wf(),
        TileSet::spec_empty().count(t) == 0,
{
    assert(0u64 >> 53u64 == 0u64 && 0u64 & !0u64 == 0u64) by (bit_vector);
    if t.valid() {
        bv_zero_bit(t.spec_code() as u64);
    }
}

/// Uniting two pools keeps the representation well-formed.
pub proof fn lemma_spec_union_wf(a: TileSet, b: TileSet)
    requires
        a.wf(),
        b.wf(),
    ensures
        a.spec_union(b).wf(),
{
    bv_wf_union(a.once, a.twice, b.once, b.twice);
}

/// No face ever has more than the two physical copies.
pub proof fn lemma_count_le_two(s: TileSet, t: Tile)
    ensures
        s.count(t) <= 2,
{
}

/// Only a valid tile can be present in a pool.
pub proof fn lemma_count_valid(s: TileSet, t: Tile)
    ensures
        s.count(t) > 0 ==> t.valid(),
{
}

/// The representation is canonical: two well-formed pools with the same
/// counts are the same value.
pub proof fn lemma_counts_determine(a: TileSet, b: TileSet)
    requires
        a.wf(),
        b.wf(),
        forall|t: Tile| a.count(t) == b.count(t),
    ensures
        a == b,
{
    bv_wf_twice_high(a.once, a.twice);
    bv_wf_twice_high(b.once, b.twice);
    if a.once != b.once {
        bv_xor_facts(a.once, b.once);
        lemma_nonzero_has_bit(a.once ^ b.once);
        let i = choose|i: u64| i < 53 && (a.once ^ b.once) & (1u64 << i) != 0;
        bv_bool_bits(a.once, b.once, i);
        lemma_counts_agree_at(a, b, i);
        assert(false);
    }
    if a.twice != b.twice {
        bv_xor_facts(a.twice, b.twice);
        lemma_nonzero_has_bit(a.twice ^ b.twice);
        let i = choose|i: u64| i < 53 && (a.twice ^ b.twice) & (1u64 << i) != 0;
        bv_bool_bits(a.twice, b.twice, i);
        lemma_counts_agree_at(a, b, i);
        assert(false);
    }
}

/// The `twice` word of a well-formed pool also stays in the face range.
proof fn bv_wf_twice_high(o: u64, t: u64)
    by (bit_vector)
    requires
        o >> 53u64 == 0u64,
        t & !o == 0,
    ensures
        t >> 53u64 == 0u64,
{
}

/// Equal counts pin both bit vectors at every face position.
proof fn lemma_counts_agree_at(a: TileSet, b: TileSet, i: u64)
    requires
        a.wf(),
        b.wf(),
        i < 53,
        forall|t: Tile| a.count(t) == b.count(t),
    ensures
        (a.once & (1u64 << i) != 0) == (b.once & (1u64 << i) != 0),
        (a.twice & (1u64 << i) != 0) == (b.twice & (1u64 << i) != 0),
{
    let t = Tile::spec_from_code(i as int);
    crate::tile::lemma_code_bijection(i as int);
    assert(a.count(t) == cnt_bits(a.once, a.twice, i));
    assert(b.count(t) == cnt_bits(b.once, b.twice, i));
    bv_subset_bit(a.once, a.twice, i);
    bv_subset_bit(b.once, b.twice, i);
}

/// Taking an affordable meld out of a pool and then putting every one of its
/// tiles back restores the pool exactly.
pub proof fn lemma_difference_union_restores(m: TileSet, c: TileSet)
    requires
        m.wf(),
        c.wf(),
        c.spec_le(m),
    ensures
        m.spec_difference(c).spec_union(c) == m,
{
    let d = m.spec_difference(c);
    bv_wf_difference(m.once, m.twice, c.once, c.twice);
    bv_wf_union(d.once, d.twice, c.once, c.twice);
    assert forall|t: Tile| d.spec_union(c).count(t) == m.count(t) by {
        lemma_difference_counts(m, c, t);
        lemma_union_counts(d, c, t);
    }
    lemma_counts_determine(d.spec_union(c), m);
}

/// Adding a tile and then removing it restores the pool, provided the face
/// was not already at its two-copy cap (where the add saturates).
pub proof fn lemma_add_remove_restores(m: TileSet, t: Tile)
    requires
        m.wf(),
        t.valid(),
        m.count(t) < 2,
    ensures
        m.spec_add(t).spec_remove(t) == m,
{
    lemma_add_counts(m, t);
    lemma_spec_add_wf(m, t);
    lemma_remove_counts(m.spec_add(t), t);
    lemma_spec_remove_wf(m.spec_add(t), t);
    assert forall|t2: Tile| m.spec_add(t).spec_remove(t).count(t2) == m.count(t2) by {
        if t2 != t {
            assert(m.spec_add(t).count(t2) == m.count(t2));
        }
    }
    lemma_counts_determine(m.spec_add(t).spec_remove(t), m);
}

/// Adding a face below its two-copy cap raises its count by exactly one.
pub proof fn lemma_add_increments(m: TileSet, t: Tile)
    requires
        m.wf(),
        t.valid(),
        m.count(t) < 2,
    ensures
        m.spec_add(t).count(t) == m.count(t) + 1,
{
    lemma_add_counts(m, t);
}

proof fn lemma_total_upto_le(a: TileSet, b: TileSet, n: int)
    requires
        a.spec_le(b),
    ensures
        total_upto(a, n) <= total_upto(b, n),
    decreases n,
{
    if n > 0 {
        lemma_total_upto_le(a, b, n - 1);
    }
}

/// A pool strictly below another at some face has a strictly smaller total.
pub proof fn lemma_total_lt(a: TileSet, b: TileSet, w: Tile)
    requires
        a.spec_le(b),
        w.valid(),
        a.count(w) < b.count(w),
    ensures
        a.total() < b.total(),
{
    crate::tile::lemma_tile_code_round_trip(w);
    lemma_total_upto_lt(a, b, w, 53);
}

proof fn lemma_total_upto_lt(a: TileSet, b: TileSet, w: Tile, n: int)
    requires
        a.spec_le(b),
        w.valid(),
        a.count(w) < b.count(w),
        Tile::spec_from_code(w.spec_code()) == w,
        w.spec_code() < n,
    ensures
        total_upto(a, n) < total_upto(b, n),
    decreases n,
{
    if w.spec_code() == n - 1 {
        lemma_total_upto_le(a, b, n - 1);
    } else {
        lemma_total_upto_lt(a, b, w, n - 1);
    }
}

} // verus!
