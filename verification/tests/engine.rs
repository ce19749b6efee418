use novel_life::lcell::LCell;
use novel_life::universe::{
    compute_distance, count_alive_cells, measure_symmetry, seed, simulate, simulate_with_history,
    tick, Universe,
};

fn row(text: &str) -> Vec<LCell> {
    text.chars().map(LCell::from).collect()
}

#[test]
fn new_universe_is_all_dead() {
    let u = Universe::new(4);
    assert_eq!(u.size(), 4);
    assert_eq!(count_alive_cells(&u), 0);
    assert_eq!(u, Universe::from("....\n....\n....\n...."));
    for r in 0..4 {
        for c in 0..4 {
            assert_eq!(u.get(r, c), LCell::Dead);
        }
    }
}

#[test]
fn row_of_three_becomes_column_of_three() {
    let u = Universe::from(".....\n.....\n.###.\n.....\n.....");
    let next = tick(&u);
    assert_eq!(next, Universe::from(".....\n..#..\n..#..\n..#..\n....."));
    assert_eq!(tick(&next), u);
}

#[test]
fn tick_reads_only_the_grid_before_it() {
    let u = Universe::from("##.\n##.\n...");
    assert_eq!(tick(&u), u);
    let before = u.clone();
    let _ = tick(&u);
    assert_eq!(u, before);
}

#[test]
fn tick_applies_each_branch_of_the_rule() {
    // one neighbour: dies; two: stays as it is; three: lives; four: dies
    let u = Universe::from("#.#.\n.#..\n#.#.\n....");
    let next = tick(&u);
    assert_eq!(next, Universe::from(".#..\n#.#.\n.#..\n...."));
    let lonely = Universe::from("...\n.#.\n...");
    assert_eq!(tick(&lonely), Universe::new(3));
    let pair = Universe::from("...\n##.\n...");
    assert_eq!(tick(&pair), Universe::new(3));
}

#[test]
fn tick_does_not_wrap_around() {
    let u = Universe::from("#..#\n....\n....\n#..#");
    assert_eq!(tick(&u), Universe::new(4));
    let edge = Universe::from("###\n...\n...");
    assert_eq!(tick(&edge), Universe::from(".#.\n.#.\n..."));
}

#[test]
fn cells_on_the_border_follow_the_rule() {
    let u = Universe::from(".#.\n.#.\n.#.");
    assert_eq!(tick(&u), Universe::from("...\n###\n..."));
}

#[test]
fn sparse_fixture_dies_out_within_ten_ticks() {
    let u = Universe::from(
        "..........\n..........\n..........\n..........\n...###....\n......#...\n...#......\n....#.#...\n....#..#..\n..........",
    );
    let last = simulate(&u, 10);
    assert_eq!(last, Universe::new(10));
    assert_eq!(count_alive_cells(&last), 0);
    assert_eq!(tick(&last), last);
}

#[test]
fn simulate_with_no_budget_returns_the_start() {
    let u = Universe::from(".....\n.....\n.###.\n.....\n.....");
    assert_eq!(simulate(&u, 0), u);
}

#[test]
fn simulate_is_repeated_tick() {
    let u = Universe::from(
        "......\n..#...\n...#..\n.###..\n......\n......",
    );
    let mut stepped = u.clone();
    for k in 0..6 {
        assert_eq!(simulate(&u, k), stepped);
        stepped = tick(&stepped);
    }
}

#[test]
fn oscillator_uses_the_whole_budget() {
    let u = Universe::from(".....\n.....\n.###.\n.....\n.....");
    let flipped = Universe::from(".....\n..#..\n..#..\n..#..\n.....");
    assert_eq!(simulate(&u, 7), flipped);
    assert_eq!(simulate(&u, 8), u);
    let history = simulate_with_history(&u, 7);
    assert_eq!(history.len(), 8);
    for (i, frame) in history.iter().enumerate() {
        if i % 2 == 0 {
            assert_eq!(*frame, u);
        } else {
            assert_eq!(*frame, flipped);
        }
    }
}

#[test]
fn history_stops_at_a_fixed_point() {
    let block = Universe::from("....\n.##.\n.##.\n....");
    let history = simulate_with_history(&block, 5);
    assert_eq!(history.len(), 1);
    assert_eq!(history[0], block);

    let dying = Universe::from("...\n.#.\n...");
    let history = simulate_with_history(&dying, 5);
    assert_eq!(history.len(), 2);
    assert_eq!(history[0], dying);
    assert_eq!(history[1], Universe::new(3));
    assert_eq!(*history.last().unwrap(), simulate(&dying, 5));
}

#[test]
fn history_without_budget_is_the_start_alone() {
    let u = Universe::from(".#.\n.#.\n.#.");
    let history = simulate_with_history(&u, 0);
    assert_eq!(history.len(), 1);
    assert_eq!(history[0], u);
}

#[test]
fn history_frames_follow_by_one_tick() {
    let u = Universe::from(
        "......\n..#...\n...#..\n.###..\n......\n......",
    );
    let history = simulate_with_history(&u, 4);
    assert_eq!(history.len(), 5);
    for i in 0..4 {
        assert_eq!(tick(&history[i]), history[i + 1]);
    }
    assert_eq!(history[4], simulate(&u, 4));
}

#[test]
fn alive_cells_are_counted() {
    let u = Universe::from("#..#\n.##.\n....\n#...");
    assert_eq!(count_alive_cells(&u), 5);
    assert_eq!(count_alive_cells(&Universe::from("##\n##")), 4);
}

#[test]
fn mirrored_pairs_are_counted_once() {
    // two mirrored pairs and one live cell without a live mirror image
    let u = Universe::from("......\n#....#\n......\n.#..#.\n......\n..#...");
    assert_eq!(measure_symmetry(&u), 2);
    assert_eq!(count_alive_cells(&u), 5);
}

#[test]
fn symmetry_of_extreme_grids() {
    assert_eq!(measure_symmetry(&Universe::new(6)), 0);
    assert_eq!(measure_symmetry(&Universe::from("##\n##")), 2);
    assert_eq!(measure_symmetry(&Universe::from("#.\n.#")), 0);
    assert_eq!(measure_symmetry(&Universe::from("####\n....\n#..#\n.##.")), 4);
}

#[test]
fn distance_is_zero_on_the_same_grid() {
    let u = Universe::from("#..#\n.##.\n....\n#...");
    assert_eq!(compute_distance(&u, &u), 0);
    assert_eq!(compute_distance(&u, &u.clone()), 0);
}

#[test]
fn distance_is_symmetric_and_counts_differences() {
    let a = Universe::from("#..#\n.##.\n....\n#...");
    let b = Universe::from("#...\n.#.#\n....\n####");
    assert_eq!(compute_distance(&a, &b), 6);
    assert_eq!(compute_distance(&b, &a), 6);
    let mut differing = 0;
    for r in 0..4 {
        for c in 0..4 {
            if a.get(r, c) != b.get(r, c) {
                differing += 1;
            }
        }
    }
    assert_eq!(differing, 6);
}

#[test]
fn distance_to_the_opposite_grid_is_the_number_of_cells() {
    let a = Universe::from("#.#\n.#.\n#.#");
    let b = Universe::from(".#.\n#.#\n.#.");
    assert_eq!(compute_distance(&a, &b), 9);
}

#[test]
fn distance_obeys_the_triangle_inequality() {
    let a = Universe::from("#..\n...\n...");
    let b = Universe::from("##.\n.#.\n...");
    let c = Universe::from(".#.\n.#.\n..#");
    assert_eq!(compute_distance(&a, &b), 2);
    assert_eq!(compute_distance(&b, &c), 2);
    assert_eq!(compute_distance(&a, &c), 4);
}

#[test]
fn seed_is_centred() {
    let u = Universe::new(8);
    let pattern = vec![row("#.#"), row(".#."), row("##.")];
    let seeded = seed(&u, &pattern);
    // offset 8 / 2 - 3 / 2 = 3
    assert_eq!(
        seeded,
        Universe::from(
            "........\n........\n........\n...#.#..\n....#...\n...##...\n........\n........"
        )
    );
    assert_eq!(u, Universe::new(8));
}

#[test]
fn seed_overwrites_what_was_there() {
    let u = Universe::from("####\n####\n####\n####");
    let pattern = vec![row(".."), row(".#")];
    // offset 4 / 2 - 2 / 2 = 1
    assert_eq!(seed(&u, &pattern), Universe::from("####\n#..#\n#.##\n####"));
}

#[test]
fn seed_of_odd_pattern_in_odd_universe() {
    let u = Universe::new(5);
    let pattern = vec![row("#")];
    // offset 5 / 2 - 1 / 2 = 2
    assert_eq!(seed(&u, &pattern), Universe::from(".....\n.....\n..#..\n.....\n....."));
}

#[test]
fn seed_as_large_as_the_universe_replaces_it() {
    let u = Universe::new(2);
    let pattern = vec![row("#."), row(".#")];
    assert_eq!(seed(&u, &pattern), Universe::from("#.\n.#"));
}

#[test]
fn empty_seed_changes_nothing() {
    let u = Universe::from("#.\n.#");
    let pattern: Vec<Vec<LCell>> = Vec::new();
    assert_eq!(seed(&u, &pattern), u);
}

#[test]
fn cells_go_in_and_come_out() {
    let cells = vec![row("#."), row("##")];
    let u = Universe::from_cells(&cells);
    assert_eq!(u, Universe::from("#.\n##"));
    assert_eq!(u.to_cells(), cells);
    assert_eq!(u.get(0, 0), LCell::Alive);
    assert_eq!(u.get(0, 1), LCell::Dead);
}
