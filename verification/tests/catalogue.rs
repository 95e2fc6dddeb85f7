use melds::{all_combos, debug_info, Color, Tile, TileSet, Value};

fn tile(color: Color, v: u64) -> Tile {
    Tile::Normal { color, value: Value::from_code(v).unwrap() }
}

fn pool_of(tiles: &[Tile]) -> TileSet {
    let mut s = TileSet::default();
    for &t in tiles {
        s = s.add(t);
    }
    s
}

fn jokerless(c: &TileSet) -> bool {
    !c.cointains(Tile::Joker)
}

#[test]
fn catalogue_holds_expected_melds() {
    let cat = all_combos();
    // a run
    let run = pool_of(&[tile(Color::Red, 7), tile(Color::Red, 8), tile(Color::Red, 9)]);
    assert!(cat.contains(&run));
    // the four-color group and a three-color group
    let group4 = pool_of(&[
        tile(Color::Red, 5),
        tile(Color::Green, 5),
        tile(Color::Black, 5),
        tile(Color::Blue, 5),
    ]);
    assert!(cat.contains(&group4));
    let group3 = pool_of(&[tile(Color::Red, 5), tile(Color::Green, 5), tile(Color::Black, 5)]);
    assert!(cat.contains(&group3));
    // a joker variant of a run
    let jrun = pool_of(&[Tile::Joker, tile(Color::Red, 6), tile(Color::Red, 7)]);
    assert!(cat.contains(&jrun));
    // a double-joker variant of the longest run
    let jj = {
        let mut s = pool_of(&[Tile::Joker, Tile::Joker]);
        for v in 3..=13 {
            s = s.add(tile(Color::Blue, v));
        }
        s
    };
    assert!(cat.contains(&jj));
    // no meld of fewer than three tiles
    assert!(!cat.contains(&pool_of(&[tile(Color::Red, 5)])));
    assert!(!cat.contains(&pool_of(&[tile(Color::Red, 5), tile(Color::Green, 5)])));
    assert!(!cat.contains(&TileSet::default()));
}

#[test]
fn catalogue_melds_are_groups_or_runs_with_jokers() {
    // every meld: 3 to 13 tiles, at most 2 jokers, and its normal tiles are
    // either all of one value with distinct colors or consecutive in one color
    let cat = all_combos();
    for c in &cat {
        let total = c.total_count();
        assert!(3 <= total && total <= 13);
        let jokers = c.amount(Tile::Joker);
        assert!(jokers <= 2);
        let members = c.unique_tiles();
        // no face is doubled inside a meld other than the joker
        for &m in &members {
            if m != Tile::Joker {
                assert_eq!(c.amount(m), 1);
            }
        }
        let normals: Vec<Tile> = members.into_iter().filter(|&m| m != Tile::Joker).collect();
        let same_value = normals.windows(2).all(|w| match (w[0], w[1]) {
            (Tile::Normal { value: v1, .. }, Tile::Normal { value: v2, .. }) => v1 == v2,
            _ => false,
        });
        let same_color = normals.windows(2).all(|w| match (w[0], w[1]) {
            (Tile::Normal { color: c1, .. }, Tile::Normal { color: c2, .. }) => c1 == c2,
            _ => false,
        });
        if total <= 4 && same_value {
            continue;  // a group (possibly with jokers for missing colors)
        }
        // otherwise it must be a run: one color, and with the jokers filling
        // gaps the values span a consecutive window
        assert!(same_color, "meld is neither a group nor a run");
    }
}

#[test]
fn catalogue_has_no_duplicates() {
    let cat = all_combos();
    // spot-check quadratically over a slice, and fully via a sorted key list
    let mut keys: Vec<(u8, Vec<Tile>)> = Vec::new();
    for c in &cat {
        let mut tiles = Vec::new();
        let mut it = c.tiles();
        while let Some(t) = it.next() {
            tiles.push(t);
        }
        keys.push((c.amount(Tile::Joker), tiles));
    }
    keys.sort_by(|a, b| {
        let ka: Vec<u64> = a.1.iter().map(|t| t.code()).collect();
        let kb: Vec<u64> = b.1.iter().map(|t| t.code()).collect();
        ka.cmp(&kb)
    });
    for w in keys.windows(2) {
        assert_ne!(w[0].1, w[1].1, "two catalogue melds hold the same tiles");
    }
}

#[test]
fn jokerless_catalogue_counts() {
    let cat = all_combos();
    // 13 values times (four 3-color groups + one 4-color group) = 65 groups;
    // per color, runs [lo, hi] with 1 <= lo, lo + 2 <= hi <= 13: 66 runs
    let jokerless_count = cat.iter().filter(|c| jokerless(c)).count();
    assert_eq!(jokerless_count, 65 + 4 * 66);
    // group tiles: 13 * (4 * 3 + 4); run tiles per color: sum of window sizes
    let mut run_tiles = 0usize;
    for lo in 1..=11usize {
        for hi in (lo + 2)..=13 {
            run_tiles += hi - lo + 1;
        }
    }
    let expected = 13 * 16 + 4 * run_tiles;
    let got: usize = cat.iter().filter(|c| jokerless(c)).map(|c| c.total_count() as usize).sum();
    assert_eq!(got, expected);
}

#[test]
fn debug_info_reports_catalogue_statistics() {
    let info = debug_info();
    assert_eq!(info.len(), 6);
    assert_eq!(info[0].0, "Combination count");
    assert_eq!(info[1].0, "Assignment count");
    assert_eq!(info[2].0, "Jokerless combinations");
    assert_eq!(info[3].0, "Jokerless assignment count");
    assert_eq!(info[4].0, "Maximum combos per tile (No Joker)");
    assert_eq!(info[5].0, "Minimum combos per tile (No Joker)");

    let cat = all_combos();
    assert_eq!(info[0].1, cat.len() as u64);
    let assigns: u64 = cat.iter().map(|c| c.total_count() as u64).sum();
    assert_eq!(info[1].1, assigns);
    assert_eq!(info[2].1, 329);
    assert_eq!(info[3].1, (13 * 16 + 4 * 418) as u64);
    // recount the per-face coverage independently
    let mut mx = 0u64;
    let mut mn = u64::MAX;
    for code in 0..52u64 {
        let t = Tile::from_code(code).unwrap();
        let cover = cat.iter().filter(|c| c.cointains(t)).count() as u64;
        mx = mx.max(cover);
        mn = mn.min(cover);
    }
    assert_eq!(info[4].1, mx);
    assert_eq!(info[5].1, mn);
    assert!(mn >= 1);
}
