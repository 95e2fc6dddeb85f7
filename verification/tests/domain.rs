use melds::{Color, Tile, TileSet, Value};

fn tile(color: Color, v: u64) -> Tile {
    Tile::Normal { color, value: Value::from_code(v).unwrap() }
}

fn pool_of(tiles: &[Tile]) -> TileSet {
    let mut s = TileSet::default();
    for &t in tiles {
        s = s.add(t);
    }
    s
}

#[test]
fn tile_codes_round_trip() {
    for code in 0u64..53 {
        let t = Tile::from_code(code).expect("codes below 53 decode");
        assert_eq!(t.code(), code);
    }
}

#[test]
fn tile_codes_out_of_range_fail() {
    for code in 53u64..200 {
        assert!(Tile::from_code(code).is_none());
    }
    assert!(Tile::from_code(u64::MAX).is_none());
}

#[test]
fn tile_code_layout() {
    assert_eq!(tile(Color::Red, 1).code(), 0);
    assert_eq!(tile(Color::Blue, 1).code(), 3);
    assert_eq!(tile(Color::Green, 2).code(), 5);
    assert_eq!(tile(Color::Blue, 13).code(), 51);
    assert_eq!(Tile::Joker.code(), 52);
}

#[test]
fn value_from_code_bounds() {
    assert!(Value::from_code(0).is_none());
    assert_eq!(Value::from_code(1).unwrap().value(), 1);
    assert_eq!(Value::from_code(13).unwrap().value(), 13);
    assert!(Value::from_code(14).is_none());
}

#[test]
fn color_names() {
    assert_eq!(Color::Red.name(), "red");
    assert_eq!(Color::Green.name(), "green");
    assert_eq!(Color::Black.name(), "black");
    assert_eq!(Color::Blue.name(), "blue");
}

#[test]
fn enumerations_are_complete() {
    assert_eq!(Color::all().len(), 4);
    assert_eq!(Value::all().len(), 13);
    let all = Tile::all();
    assert_eq!(all.len(), 53);
    assert!(all.contains(&Tile::Joker));
    assert!(all.contains(&tile(Color::Black, 11)));
    for i in 0..all.len() {
        for j in 0..i {
            assert_ne!(all[i], all[j]);
        }
    }
}

#[test]
fn amount_add_increments_below_two() {
    let t = tile(Color::Red, 5);
    let s0 = TileSet::default();
    assert_eq!(s0.amount(t), 0);
    let s1 = s0.add(t);
    assert_eq!(s1.amount(t), 1);
    let s2 = s1.add(t);
    assert_eq!(s2.amount(t), 2);
    // other faces stay untouched
    assert_eq!(s2.amount(tile(Color::Red, 6)), 0);
    assert_eq!(s2.amount(Tile::Joker), 0);
}

#[test]
fn add_saturates_at_two() {
    let t = tile(Color::Green, 9);
    let s = TileSet::default().add(t).add(t).add(t);
    assert_eq!(s.amount(t), 2);
    // the saturated add is a no-op: the values are equal
    assert_eq!(s, TileSet::default().add(t).add(t));
}

#[test]
fn remove_floors_at_zero() {
    let t = tile(Color::Blue, 2);
    let s = TileSet::default().add(t).add(t);
    let s1 = s.remove(t);
    assert_eq!(s1.amount(t), 1);
    let s0 = s1.remove(t);
    assert_eq!(s0.amount(t), 0);
    assert_eq!(s0.remove(t).amount(t), 0);
    assert_eq!(s0.remove(t), s0);
}

#[test]
fn add_then_remove_restores() {
    let t = tile(Color::Black, 7);
    let m = pool_of(&[tile(Color::Red, 1), t, Tile::Joker]);
    assert!(m.amount(t) < 2);
    assert_eq!(m.add(t).remove(t), m);
}

#[test]
fn union_saturates_per_face() {
    let t = tile(Color::Red, 4);
    let u = tile(Color::Green, 4);
    let a = pool_of(&[t, u]);
    let b = pool_of(&[t, t]);
    let un = a.union(b);
    assert_eq!(un.amount(t), 2); // 1 + 2 capped at 2
    assert_eq!(un.amount(u), 1);
}

#[test]
fn difference_floors_per_face() {
    let t = tile(Color::Red, 4);
    let u = tile(Color::Green, 4);
    let a = pool_of(&[t, t, u]);
    let b = pool_of(&[t, u, u]);
    let d = a.difference(b);
    assert_eq!(d.amount(t), 1);
    assert_eq!(d.amount(u), 0);
}

#[test]
fn difference_then_union_restores_affordable_meld() {
    let r7 = tile(Color::Red, 7);
    let r8 = tile(Color::Red, 8);
    let r9 = tile(Color::Red, 9);
    let m = pool_of(&[r7, r7, r8, r9, Tile::Joker]);
    let c = pool_of(&[r7, r8, r9]);
    assert!(c.le(m));
    assert_eq!(m.difference(c).union(c), m);
}

#[test]
fn le_is_a_partial_order_test() {
    let t = tile(Color::Red, 1);
    let u = tile(Color::Blue, 13);
    let small = pool_of(&[t]);
    let big = pool_of(&[t, t, u]);
    assert!(small.le(big));
    assert!(!big.le(small));
    assert!(small.le(small));
    let other = pool_of(&[u]);
    assert!(!small.le(other));
    assert!(!other.le(small));
    assert!(TileSet::default().le(small));
}

#[test]
fn is_empty_only_for_the_empty_pool() {
    assert!(TileSet::default().is_empty());
    let s = TileSet::default().add(Tile::Joker);
    assert!(!s.is_empty());
    assert!(s.remove(Tile::Joker).is_empty());
}

#[test]
fn unique_tiles_lists_each_present_face_once() {
    let t = tile(Color::Red, 3);
    let u = tile(Color::Black, 12);
    let s = pool_of(&[u, t, t]);
    let uniq = s.unique_tiles();
    assert_eq!(uniq, vec![t, u]); // ascending code order
}

#[test]
fn tiles_iteration_yields_each_copy() {
    let t = tile(Color::Red, 3);
    let u = tile(Color::Green, 3);
    let s = pool_of(&[t, t, u, Tile::Joker]);
    let mut it = s.tiles();
    assert_eq!(it.next(), Some(t));
    assert_eq!(it.next(), Some(t));
    assert_eq!(it.next(), Some(u));
    assert_eq!(it.next(), Some(Tile::Joker));
    assert_eq!(it.next(), None);
    assert_eq!(it.next(), None);
    // iteration is restartable: a fresh walk starts over
    let mut again = s.tiles();
    assert_eq!(again.next(), Some(t));
}

#[test]
fn total_count_counts_copies() {
    assert_eq!(TileSet::default().total_count(), 0);
    let t = tile(Color::Red, 3);
    let s = pool_of(&[t, t, Tile::Joker]);
    assert_eq!(s.total_count(), 3);
}
