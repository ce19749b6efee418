use novel_life::universe::{compute_distance, measure_symmetry, simulate, tick, Universe};

#[test]
fn test_patterns() {
    let u = Universe::from(
        ".....
.....
.###.
.....
.....",
    );
    let u_expected = Universe::from(
        ".....
..#..
..#..
..#..
.....",
    );
    let u = tick(&u);
    assert_eq!(u, u_expected);

    let u = Universe::from(
        "..........
..........
..........
..........
...###....
......#...
...#......
....#.#...
....#..#..
..........",
    );
    let u_expected = Universe::from(
        "..........
..........
..........
..........
..........
..........
..........
..........
..........
..........",
    );
    let u = simulate(&u, 10);
    assert_eq!(u, u_expected);
}

#[test]
fn test_symmetry() {
    let u = Universe::from(
        "......
......
##..##
..##..
......
......",
    );
    assert_eq!(measure_symmetry(&u), 3);
}

#[test]
fn test_distance() {
    let u0 = Universe::from(
        "......
......
##..##
..##..
......
......",
    );
    let u1 = Universe::from(
        "......
......
##....
..##..
##....
......",
    );
    assert_eq!(compute_distance(&u0, &u1), 4);
}
