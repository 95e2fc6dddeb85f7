//! A solver for a tile game: decides whether a pool of tiles (color + value
//! pairs and jokers, at most two copies of each face) can be partitioned
//! exactly into valid melds, i.e. same-value groups across distinct colors or
//! same-color runs of consecutive values, possibly with jokers substituted.

mod combinations;
mod debug;
mod solve;
mod tile;
mod tileset;

pub use combinations::{
    all_combos, combo_from, group_member, is_base, is_combo, is_group, is_run, joker_variant1,
    joker_variant2, lemma_combo_nonempty, lemma_combo_wf, run_member, some_group, some_run,
};
pub use debug::{
    assignments, catalogue_ok, debug_info, jokerless_assignments, jokerless_count,
    max_covering_upto, min_covering_upto,
};
pub use solve::{
    covering, lemma_partition_unions_to_pool, lemma_union_all_count, melds_only, solvable, solve,
    sum_at, sums_to, union_all, Solve,
};
pub use tile::{
    color_code_of, lemma_code_bijection, lemma_tile_code_injective, lemma_tile_code_round_trip,
    value_of, Color, Tile, Value, JOKER_CODE,
};
pub use tileset::{
    cap_two, lemma_add_increments, lemma_add_remove_restores, lemma_count_le_two,
    lemma_counts_determine, lemma_difference_union_restores, lemma_empty, lemma_total_lt, monus,
    total_upto, TileSet, Tiles,
};
