use melds::{all_combos, solve, Color, Solve, Tile, TileSet, Value};

fn tile(color: Color, v: u64) -> Tile {
    Tile::Normal { color, value: Value::from_code(v).unwrap() }
}

fn pool_of(tiles: &[Tile]) -> TileSet {
    let mut s = TileSet::default();
    for &t in tiles {
        s = s.add(t);
    }
    s
}

fn union_of(melds: &[TileSet]) -> TileSet {
    let mut s = TileSet::default();
    for &c in melds {
        s = s.union(c);
    }
    s
}

#[test]
fn solves_a_plain_run() {
    let pool = pool_of(&[tile(Color::Red, 7), tile(Color::Red, 8), tile(Color::Red, 9)]);
    let partition = solve(pool).expect("a red 7-8-9 run partitions the pool");
    assert_eq!(partition, vec![pool]);
}

#[test]
fn solves_a_four_color_group() {
    let pool = pool_of(&[
        tile(Color::Red, 5),
        tile(Color::Green, 5),
        tile(Color::Black, 5),
        tile(Color::Blue, 5),
    ]);
    let partition = solve(pool).expect("the 4-color group partitions the pool");
    assert_eq!(partition, vec![pool]);
}

#[test]
fn reports_no_partition_for_a_lone_tile() {
    let pool = pool_of(&[tile(Color::Red, 5)]);
    assert_eq!(solve(pool), None);
}

#[test]
fn solves_a_run_with_a_joker_substitute() {
    let pool = pool_of(&[Tile::Joker, tile(Color::Red, 6), tile(Color::Red, 7)]);
    let partition = solve(pool).expect("the joker completes a 3-tile run");
    assert_eq!(partition.len(), 1);
    let meld = partition[0];
    assert_eq!(meld, pool);
    assert_eq!(meld.amount(Tile::Joker), 1);
    assert_eq!(meld.total_count(), 3);
}

#[test]
fn empty_pool_has_the_empty_partition() {
    let partition = solve(TileSet::default()).expect("nothing to cover");
    assert_eq!(partition, Vec::<TileSet>::new());
}

#[test]
fn two_tiles_have_no_partition() {
    let pool = pool_of(&[tile(Color::Red, 5), tile(Color::Green, 5)]);
    assert_eq!(solve(pool), None);
}

#[test]
fn mismatched_tiles_have_no_partition() {
    // four tiles, but no meld: mixed colors, non-consecutive values
    let pool = pool_of(&[
        tile(Color::Red, 1),
        tile(Color::Green, 5),
        tile(Color::Black, 9),
        tile(Color::Red, 13),
    ]);
    assert_eq!(solve(pool), None);
}

#[test]
fn partition_union_equals_the_pool() {
    // a pool assembled from two known melds must be partitioned exactly
    let run = pool_of(&[tile(Color::Black, 1), tile(Color::Black, 2), tile(Color::Black, 3)]);
    let group = pool_of(&[
        tile(Color::Red, 11),
        tile(Color::Green, 11),
        tile(Color::Blue, 11),
    ]);
    let pool = run.union(group);
    let partition = solve(pool).expect("the pool is a sum of catalogue melds");
    assert_eq!(union_of(&partition), pool);
    let cat = all_combos();
    for meld in &partition {
        assert!(cat.contains(meld));
    }
}

#[test]
fn solves_overlapping_copies() {
    // two copies of the same run: both duplicates must be used
    let run = pool_of(&[tile(Color::Red, 1), tile(Color::Red, 2), tile(Color::Red, 3)]);
    let pool = pool_of(&[
        tile(Color::Red, 1),
        tile(Color::Red, 1),
        tile(Color::Red, 2),
        tile(Color::Red, 2),
        tile(Color::Red, 3),
        tile(Color::Red, 3),
    ]);
    let partition = solve(pool).expect("two copies of the run partition the pool");
    assert_eq!(partition.len(), 2);
    assert_eq!(partition[0], run);
    assert_eq!(partition[1], run);
}

#[test]
fn forced_melds_chain_to_a_solution() {
    // a 6-tile pool whose only partition is one specific pair of melds:
    // the red 1-2-3 run and the group of 4s missing blue
    let pool = pool_of(&[
        tile(Color::Red, 1),
        tile(Color::Red, 2),
        tile(Color::Red, 3),
        tile(Color::Red, 4),
        tile(Color::Green, 4),
        tile(Color::Black, 4),
    ]);
    let partition = solve(pool).expect("run plus group partitions the pool");
    assert_eq!(union_of(&partition), pool);
    assert_eq!(partition.len(), 2);
}

#[test]
fn solve_state_reports_its_pool() {
    let pool = pool_of(&[tile(Color::Red, 7), tile(Color::Red, 8), tile(Color::Red, 9)]);
    let state = Solve::new(pool);
    let partition = state.solve().expect("the run partitions the pool");
    assert_eq!(partition, vec![pool]);
    // the state is reusable: a second run gives the same answer
    assert_eq!(state.solve(), Some(vec![pool]));
}

#[test]
fn solves_a_pool_summed_from_several_melds() {
    // three melds, one with a joker, summed into one pool
    let run = pool_of(&[tile(Color::Green, 4), tile(Color::Green, 5), tile(Color::Green, 6)]);
    let jgroup = pool_of(&[tile(Color::Red, 9), tile(Color::Black, 9), Tile::Joker]);
    let group = pool_of(&[
        tile(Color::Red, 2),
        tile(Color::Green, 2),
        tile(Color::Black, 2),
        tile(Color::Blue, 2),
    ]);
    let pool = run.union(jgroup).union(group);
    let partition = solve(pool).expect("the pool is a sum of catalogue melds");
    assert_eq!(union_of(&partition), pool);
    assert_eq!(partition.len(), 3);
    let cat = all_combos();
    for meld in &partition {
        assert!(cat.contains(meld));
    }
}

#[test]
fn solves_the_longest_run() {
    let mut pool = TileSet::default();
    for v in 1..=13 {
        pool = pool.add(tile(Color::Black, v));
    }
    let partition = solve(pool).expect("the full run partitions the pool");
    assert_eq!(union_of(&partition), pool);
}

#[test]
fn unknown_faces_spoil_a_partition() {
    // a full run plus one stray tile that no meld can absorb
    let pool = pool_of(&[
        tile(Color::Red, 7),
        tile(Color::Red, 8),
        tile(Color::Red, 9),
        tile(Color::Blue, 1),
    ]);
    assert_eq!(solve(pool), None);
}
