//! The tile domain: four colors, values 1 through 13, and the joker, with a
//! dense integer code in `[0, 53)` that the multiset representation indexes by.

use vstd::prelude::*;

verus! {

/// Code of the joker face, the largest valid code.
pub const JOKER_CODE: u64 = 52;

#[derive(Debug, PartialEq, Eq, Hash, Clone, Copy, Structural)]
pub enum Color {
    Red,
    Green,
    Black,
    Blue,
}

impl Color {
    /// Dense code of a color, in `[0, 4)`.
    pub open spec fn spec_code(self) -> int {
        match self {
            Color::Red => 0,
            Color::Green => 1,
            Color::Black => 2,
            Color::Blue => 3,
        }
    }

    pub fn name(self) -> (r: &'static str)
        ensures
            r@ == match self {
                Color::Red => "red"@,
                Color::Green => "green"@,
                Color::Black => "black"@,
                Color::Blue => "blue"@,
            },
    {
        match self {
            Color::Red => "red",
            Color::Green => "green",
            Color::Black => "black",
            Color::Blue => "blue",
        }
    }

    pub(crate) fn code(self) -> (r: u64)
        ensures
            r == self.spec_code(),
    {
        match self {
            Color::Red => 0,
            Color::Green => 1,
            Color::Black => 2,
            Color::Blue => 3,
        }
    }

    pub(crate) fn from_code(code: u64) -> (r: Option<Color>)
        ensures
            match r {
                Some(c) => code < 4 && c.spec_code() == code,
                None => code >= 4,
            },
    {
        match code {
            0 => Some(Color::Red),
            1 => Some(Color::Green),
            2 => Some(Color::Black),
            3 => Some(Color::Blue),
            _ => None,
        }
    }

    /// The four colors, in code order.
    pub fn all() -> (r: Vec<Color>)
        ensures
            r@.len() == 4,
            forall|i: int| 0 <= i < 4 ==> (#[trigger] r@[i]).spec_code() == i,
    {
        let colors = vec![Color::Red, Color::Green, Color::Black, Color::Blue];
        assert(colors@[0].spec_code() == 0);
        assert(colors@[1].spec_code() == 1);
        assert(colors@[2].spec_code() == 2);
        assert(colors@[3].spec_code() == 3);
        colors
    }
}

/// A tile value. Valid values range over 1 through 13; the range is an
/// invariant of the type, so every executable `Value` is valid.
#[derive(Debug, PartialEq, Eq, Hash, Clone, Copy, Structural)]
pub struct Value(u8);

impl Value {
    #[verifier::type_invariant]
    spec fn type_inv(self) -> bool {
        self.valid()
    }

    /// The numeric value, as a mathematical integer.
    pub closed spec fn val(self) -> int {
        self.0 as int
    }

    /// A value is valid when it lies in the playable range 1 through 13.
    pub open spec fn valid(self) -> bool {
        1 <= self.val() <= 13
    }

    /// Values 1 through 13 in ascending order.
    pub fn all() -> (r: Vec<Value>)
        ensures
            r@.len() == 13,
            forall|i: int| 0 <= i < 13 ==> (#[trigger] r@[i]).val() == i + 1,
    {
        let mut r: Vec<Value> = Vec::new();
        let mut v: u8 = 1;
        while v <= 13
            invariant
                1 <= v <= 14,
                r@.len() == v - 1,
                forall|i: int| 0 <= i < r@.len() ==> (#[trigger] r@[i]).val() == i + 1,
            decreases 14 - v,
        {
            r.push(Value(v));
            v = v + 1;
        }
        r
    }

    pub fn value(self) -> (r: u8)
        ensures
            r as int == self.val(),
            1 <= r <= 13,
    {
        proof {
            use_type_invariant(self);
        }
        self.0
    }

    /// Decodes a numeric value; anything outside 1 through 13 is rejected.
    pub fn from_code(code: u64) -> (r: Option<Value>)
        ensures
            match r {
                Some(v) => 1 <= code <= 13 && v.val() == code,
                None => !(1 <= code <= 13),
            },
    {
        if code < 1 || code > 13 {
            return None;
        }
        Some(Value(code as u8))
    }

    /// Builds the value `v`; the caller must stay in the valid range.
    pub(crate) fn new(v: u8) -> (r: Value)
        requires
            1 <= v <= 13,
        ensures
            r.val() == v,
    {
        Value(v)
    }
}

impl Default for Value {
    /// The lowest value, 1.
    fn default() -> (r: Self)
        ensures
            r.val() == 1,
    {
        Value(1)
    }
}

/// One tile face: a color and value, or the joker wildcard.
#[derive(Debug, PartialEq, Eq, Hash, Clone, Copy, Structural)]
pub enum Tile {
    Normal { color: Color, value: Value },
    Joker,
}

impl Tile {
    /// A tile is valid when its value, if any, is in range. Every executable
    /// `Tile` is valid, because `Value` keeps its range as a type invariant;
    /// spec-level quantifiers range over arbitrary ones.
    pub open spec fn valid(self) -> bool {
        match self {
            Tile::Normal { color, value } => value.valid(),
            Tile::Joker => true,
        }
    }

    /// Dense code: normal tiles fill `[0, 52)` value-major, the joker is 52.
    pub open spec fn spec_code(self) -> int {
        match self {
            Tile::Normal { color, value } => (value.val() - 1) * 4 + color.spec_code(),
            Tile::Joker => 52,
        }
    }

    /// The tile with the given code; total, but meaningful only on `[0, 53)`.
    /// Its behaviour is published through `lemma_tile_code_round_trip` and
    /// `lemma_code_bijection`.
    pub closed spec fn spec_from_code(code: int) -> Tile {
        if 0 <= code < 52 {
            Tile::Normal {
                color: if code % 4 == 0 {
                    Color::Red
                } else if code % 4 == 1 {
                    Color::Green
                } else if code % 4 == 2 {
                    Color::Black
                } else {
                    Color::Blue
                },
                value: Value((code / 4 + 1) as u8),
            }
        } else {
            Tile::Joker
        }
    }

    /// The tile's dense code, always below 53. Encoding also witnesses that
    /// every executable tile is valid, which `Value`'s type invariant forces.
    pub fn code(self) -> (r: u64)
        ensures
            r == self.spec_code(),
            r < 53,
            self.valid(),
    {
        match self {
            Tile::Normal { color, value } => {
                let color = color.code();
                let value = value.value() as u64;
                (value - 1) * 4 + color
            },
            Tile::Joker => JOKER_CODE,
        }
    }

    /// Decodes a tile code; every code at or above 53 is rejected, and every
    /// code below 53 yields the unique tile with that code.
    pub fn from_code(code: u64) -> (r: Option<Tile>)
        ensures
            match r {
                Some(t) => code < 53 && t == Tile::spec_from_code(code as int) && t.valid()
                    && t.spec_code() == code,
                None => code >= 53,
            },
    {
        if code == JOKER_CODE {
            return Some(Tile::Joker);
        }
        if code >= 53 {
            return None;
        }
        let color = Color::from_code(code % 4).unwrap();
        let value = Value::from_code(code / 4 + 1).unwrap();
        let t = Tile::Normal { color, value };
        proof {
            lemma_code_bijection(code as int);
            assert(t == Tile::spec_from_code(code as int));
        }
        Some(t)
    }

    /// Every tile face once: for each color all 13 values, then the joker.
    pub fn all() -> (r: Vec<Tile>)
        ensures
            r@.len() == 53,
            forall|t: Tile| t.valid() ==> r@.contains(t),
            forall|i: int| 0 <= i < 53 ==> (#[trigger] r@[i]).valid(),
    {
        let colors = Color::all();
        let values = Value::all();
        let mut r: Vec<Tile> = Vec::new();
        let mut ci: usize = 0;
        while ci < 4
            invariant
                ci <= 4,
                colors@.len() == 4,
                values@.len() == 13,
                forall|i: int| 0 <= i < 4 ==> (#[trigger] colors@[i]).spec_code() == i,
                forall|i: int| 0 <= i < 13 ==> (#[trigger] values@[i]).val() == i + 1,
                r@.len() == 13 * ci,
                forall|i: int| 0 <= i < r@.len() ==> (#[trigger] r@[i]).valid(),
                forall|c: Color, v: Value|
                    c.spec_code() < ci && v.valid() ==> r@.contains(
                        Tile::Normal { color: c, value: v },
                    ),
            decreases 4 - ci,
        {
            let mut vi: usize = 0;
            while vi < 13
                invariant
                    ci < 4,
                    vi <= 13,
                    colors@.len() == 4,
                    values@.len() == 13,
                    forall|i: int| 0 <= i < 4 ==> (#[trigger] colors@[i]).spec_code() == i,
                    forall|i: int| 0 <= i < 13 ==> (#[trigger] values@[i]).val() == i + 1,
                    r@.len() == 13 * ci + vi,
                    forall|i: int| 0 <= i < r@.len() ==> (#[trigger] r@[i]).valid(),
                    forall|c: Color, v: Value|
                        c.spec_code() < ci && v.valid() ==> r@.contains(
                            Tile::Normal { color: c, value: v },
                        ),
                    forall|v: Value|
                        v.valid() && v.val() <= vi ==> r@.contains(
                            Tile::Normal { color: colors@[ci as int], value: v },
                        ),
                decreases 13 - vi,
            {
                let ghost prev = r@;
                r.push(Tile::Normal { color: colors[ci], value: values[vi] });
                proof {
                    assert forall|t: Tile| prev.contains(t) implies r@.contains(t) by {
                        lemma_push_contains(prev, r@[r@.len() - 1], t);
                    }
                    assert forall|c: Color, v: Value| c.spec_code() < ci && v.valid() implies r@
                        .contains(Tile::Normal { color: c, value: v }) by {
                        assert(prev.contains(Tile::Normal { color: c, value: v }));
                    }
                    assert forall|v: Value| v.valid() && v.val() <= vi + 1 implies r@.contains(
                        Tile::Normal { color: colors@[ci as int], value: v },
                    ) by {
                        if v.val() == vi + 1 {
                            assert(v == values@[vi as int]) by {
                                lemma_value_ext(v, values@[vi as int]);
                            }
                            assert(r@[r@.len() - 1] == Tile::Normal {
                                color: colors@[ci as int],
                                value: v,
                            });
                        }
                    }
                }
                vi = vi + 1;
            }
            proof {
                assert forall|c: Color, v: Value| c.spec_code() < ci + 1 && v.valid() implies r@
                    .contains(Tile::Normal { color: c, value: v }) by {
                    if c.spec_code() == ci {
                        assert(c == colors@[ci as int]) by {
                            lemma_color_code_injective(c, colors@[ci as int]);
                        }
                    }
                }
            }
            ci = ci + 1;
        }
        let ghost prev = r@;
        r.push(Tile::Joker);
        proof {
            assert forall|t: Tile| t.valid() implies r@.contains(t) by {
                match t {
                    Tile::Normal { color, value } => {
                        assert(color.spec_code() < 4);
                        assert(prev.contains(t));
                        lemma_push_contains(prev, Tile::Joker, t);
                    },
                    Tile::Joker => {
                        assert(r@[52] == Tile::Joker);
                    },
                }
            }
        }
        r
    }
}

/// An element of a sequence is still an element after a push.
proof fn lemma_push_contains(s: Seq<Tile>, x: Tile, t: Tile)
    requires
        s.contains(t),
    ensures
        s.push(x).contains(t),
{
    let i = choose|i: int| 0 <= i < s.len() && s[i] == t;
    assert(s.push(x)[i] == t);
}

/// The numeric value of a tile; 0 for the joker, which has none.
pub open spec fn value_of(t: Tile) -> int {
    match t {
        Tile::Normal { color, value } => value.val(),
        Tile::Joker => 0,
    }
}

/// The color code of a tile; 4 for the joker, which has no color.
pub open spec fn color_code_of(t: Tile) -> int {
    match t {
        Tile::Normal { color, value } => color.spec_code(),
        Tile::Joker => 4,
    }
}

/// The normal tile with color code `c` and value `v`; meaningful only for
/// `c` in `[0, 4)` and `v` in `[1, 13]`, see `lemma_make`.
pub closed spec fn make(c: int, v: int) -> Tile {
    Tile::Normal {
        color: if c == 0 {
            Color::Red
        } else if c == 1 {
            Color::Green
        } else if c == 2 {
            Color::Black
        } else {
            Color::Blue
        },
        value: Value(v as u8),
    }
}

/// `make` builds the valid normal tile with the given color code and value.
pub proof fn lemma_make(c: int, v: int)
    requires
        0 <= c < 4,
        1 <= v <= 13,
    ensures
        make(c, v).valid(),
        !(make(c, v) is Joker),
        color_code_of(make(c, v)) == c,
        value_of(make(c, v)) == v,
{
}

/// Two values with the same numeric value are the same value.
pub proof fn lemma_value_ext(a: Value, b: Value)
    requires
        a.val() == b.val(),
    ensures
        a == b,
{
}

/// Color codes are injective.
pub proof fn lemma_color_code_injective(a: Color, b: Color)
    requires
        a.spec_code() == b.spec_code(),
    ensures
        a == b,
{
}

/// Two normal tiles with the same color code and value are the same tile.
pub proof fn lemma_normal_ext(a: Tile, b: Tile)
    requires
        !(a is Joker),
        !(b is Joker),
        color_code_of(a) == color_code_of(b),
        value_of(a) == value_of(b),
    ensures
        a == b,
{
    match (a, b) {
        (Tile::Normal { color: c1, value: v1 }, Tile::Normal { color: c2, value: v2 }) => {
            lemma_color_code_injective(c1, c2);
            lemma_value_ext(v1, v2);
        },
        _ => {
        },
    }
}

/// Decoding inverts encoding: the code of a valid tile decodes to that tile.
/// Together with `lemma_code_bijection` this makes the coding a bijection
/// between valid tiles and `[0, 53)`.
pub proof fn lemma_tile_code_round_trip(t: Tile)
    requires
        t.valid(),
    ensures
        0 <= t.spec_code() < 53,
        Tile::spec_from_code(t.spec_code()) == t,
{
    match t {
        Tile::Normal { color, value } => {
            let code = t.spec_code();
            assert(0 <= code < 52);
            assert(code % 4 == color.spec_code() && code / 4 == value.val() - 1) by {
                lemma_code_div_mod(value.val(), color.spec_code());
            }
            let d = Tile::spec_from_code(code);
            match d {
                Tile::Normal { color: c2, value: v2 } => {
                    assert(c2.spec_code() == color.spec_code());
                    lemma_color_code_injective(c2, color);
                    assert(v2.val() == value.val());
                    lemma_value_ext(v2, value);
                },
                Tile::Joker => {
                    assert(false);
                },
            }
        },
        Tile::Joker => {
        },
    }
}

/// Every code below 53 decodes to a valid tile that encodes back to it.
pub proof fn lemma_code_bijection(code: int)
    requires
        0 <= code < 53,
    ensures
        Tile::spec_from_code(code).valid(),
        Tile::spec_from_code(code).spec_code() == code,
{
    if code < 52 {
        let t = Tile::spec_from_code(code);
        assert(1 <= code / 4 + 1 <= 13);
        match t {
            Tile::Normal { color, value } => {
                assert(value.val() == code / 4 + 1);
                assert(color.spec_code() == code % 4);
                assert((value.val() - 1) * 4 + color.spec_code() == (code / 4) * 4 + code % 4);
                assert((code / 4) * 4 + code % 4 == code) by {
                    assert(code == 4 * (code / 4) + code % 4) by (nonlinear_arith)
                        requires 0 <= code;
                }
            },
            Tile::Joker => {
                assert(false);
            },
        }
    }
}

/// Valid tiles with the same code are the same tile.
pub proof fn lemma_tile_code_injective(a: Tile, b: Tile)
    requires
        a.valid(),
        b.valid(),
        a.spec_code() == b.spec_code(),
    ensures
        a == b,
{
    lemma_tile_code_round_trip(a);
    lemma_tile_code_round_trip(b);
}

/// Arithmetic fact behind the code layout: multiplying the value row by 4 and
/// adding the color column can be undone by division and remainder.
proof fn lemma_code_div_mod(v: int, c: int)
    requires
        0 <= c < 4,
    ensures
        ((v - 1) * 4 + c) % 4 == c,
        ((v - 1) * 4 + c) / 4 == v - 1,
{
    assert(((v - 1) * 4 + c) % 4 == c && ((v - 1) * 4 + c) / 4 == v - 1) by (nonlinear_arith)
        requires
            0 <= c < 4,
    ;
}

} // verus!
