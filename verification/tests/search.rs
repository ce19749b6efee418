use novel_life::archive::Archive;
use novel_life::config::{ConfigError, SearchConfig};
use novel_life::individual::{toggle_cells, Individual, NOVELTY_MIN};
use novel_life::lcell::LCell;
use novel_life::novelty_search::{novelty_search, novelty_search_with, Search};
use novel_life::selection::select_parents;
use novel_life::universe::{
    count_alive_cells, measure_symmetry, seed, simulate, Universe,
};
use rand::rngs::StdRng;
use rand::SeedableRng;

fn row(text: &str) -> Vec<LCell> {
    text.chars().map(LCell::from).collect()
}

fn pattern(text: &str) -> Vec<Vec<LCell>> {
    text.lines().map(row).collect()
}

fn differing(a: &Vec<Vec<LCell>>, b: &Vec<Vec<LCell>>) -> usize {
    let mut n = 0;
    for r in 0..a.len() {
        for c in 0..a[r].len() {
            if a[r][c] != b[r][c] {
                n += 1;
            }
        }
    }
    n
}

fn scored(novelty: usize, mark: usize) -> Individual {
    let mut ind = Individual::new(3);
    ind.novelty = novelty;
    ind.cells[mark / 3][mark % 3] = LCell::Alive;
    ind
}

#[test]
fn new_individual_is_dead_and_unscored() {
    let ind = Individual::new(3);
    assert_eq!(ind.cells, pattern("...\n...\n..."));
    assert_eq!(ind.novelty, NOVELTY_MIN);
    assert_eq!(NOVELTY_MIN, usize::MIN);
    assert_eq!(Individual::new(0).cells.len(), 0);
}

#[test]
fn mutation_at_given_sites_toggles_them() {
    let parent = Individual { cells: pattern("#..\n...\n..#"), novelty: 7 };
    let child = parent.mutate_at(&vec![(0, 0), (1, 2), (2, 1)]);
    assert_eq!(child.cells, pattern("...\n..#\n.##"));
    assert_eq!(child.novelty, 7);
    assert_eq!(parent.cells, pattern("#..\n...\n..#"));
}

#[test]
fn site_drawn_twice_cancels_itself() {
    let parent = Individual { cells: pattern("#..\n...\n..#"), novelty: 0 };
    let child = parent.mutate_at(&vec![(1, 1), (1, 1)]);
    assert_eq!(child.cells, parent.cells);
    let child = parent.mutate_at(&vec![(1, 1), (0, 2), (1, 1)]);
    assert_eq!(child.cells, pattern("#.#\n...\n..#"));
    assert_eq!(toggle_cells(&parent.cells, &Vec::new()), parent.cells);
}

#[test]
fn mutation_toggles_drawn_sites() {
    let mut rng = StdRng::seed_from_u64(7);
    let parent = Individual::new(4);
    for n in 0..20 {
        let child = parent.mutate(n, &mut rng);
        assert_eq!(child.cells.len(), 4);
        for r in &child.cells {
            assert_eq!(r.len(), 4);
        }
        let changed = differing(&parent.cells, &child.cells);
        assert!(changed <= n);
        assert_eq!(changed % 2, n % 2);
        assert_eq!(child.novelty, parent.novelty);
    }
    assert_eq!(parent.cells, Individual::new(4).cells);
}

#[test]
fn mutation_of_single_cell_pattern() {
    let mut rng = StdRng::seed_from_u64(1);
    let parent = Individual::new(1);
    assert_eq!(parent.mutate(1, &mut rng).cells, pattern("#"));
    assert_eq!(parent.mutate(2, &mut rng).cells, pattern("."));
    assert_eq!(parent.mutate(3, &mut rng).cells, pattern("#"));
}

#[test]
fn mutation_is_reproducible_from_the_seed() {
    let parent = Individual::new(5);
    let mut first = StdRng::seed_from_u64(99);
    let mut second = StdRng::seed_from_u64(99);
    for _ in 0..10 {
        let a = parent.mutate(3, &mut first);
        let b = parent.mutate(3, &mut second);
        assert_eq!(a.cells, b.cells);
    }
}

#[test]
fn archive_keeps_no_universe_twice() {
    let mut archive = Archive::new();
    assert_eq!(archive.len(), 0);
    let a = Universe::from("#.\n..");
    let b = Universe::from(".#\n..");
    assert!(!archive.contains(&a));
    assert!(archive.insert(a.clone()));
    assert!(archive.contains(&a));
    assert!(!archive.contains(&b));
    assert!(!archive.insert(a.clone()));
    assert_eq!(archive.len(), 1);
    assert!(archive.insert(b.clone()));
    assert!(!archive.insert(b));
    assert!(!archive.insert(a));
    assert_eq!(archive.len(), 2);
}

#[test]
fn novelty_is_minimum_below_k_members() {
    let mut archive = Archive::new();
    let query = Universe::from("##\n##");
    assert_eq!(archive.novelty(&query, 1), NOVELTY_MIN);
    assert_eq!(archive.novelty(&query, 4), NOVELTY_MIN);
    archive.insert(Universe::from("..\n.."));
    archive.insert(Universe::from("#.\n.."));
    archive.insert(Universe::from("##\n.."));
    // three members, each at a positive distance: still the minimum for k = 4
    assert_eq!(archive.novelty(&query, 4), NOVELTY_MIN);
    assert_eq!(archive.novelty(&query, 5), NOVELTY_MIN);
    assert_eq!(archive.novelty(&query, 3), 4 + 3 + 2);
}

#[test]
fn novelty_sums_the_nearest_distances() {
    let mut archive = Archive::new();
    archive.insert(Universe::from("...\n...\n..."));
    archive.insert(Universe::from("###\n###\n###"));
    archive.insert(Universe::from("#..\n...\n..."));
    archive.insert(Universe::from("##.\n##.\n..."));
    archive.insert(Universe::from("#.#\n...\n#.#"));
    let query = Universe::from("#..\n.#.\n...");
    // distances 2, 7, 1, 2, 4 in the order of insertion
    assert_eq!(archive.novelty(&query, 0), 0);
    assert_eq!(archive.novelty(&query, 1), 1);
    assert_eq!(archive.novelty(&query, 2), 3);
    assert_eq!(archive.novelty(&query, 3), 5);
    assert_eq!(archive.novelty(&query, 4), 9);
    assert_eq!(archive.novelty(&query, 5), 16);
    assert_eq!(archive.novelty(&query, 6), NOVELTY_MIN);
}

#[test]
fn novelty_does_not_depend_on_the_order_of_the_archive() {
    let members = [
        "...\n...\n...",
        "###\n###\n###",
        "#..\n...\n...",
        "##.\n##.\n...",
        "#.#\n...\n#.#",
    ];
    let mut forward = Archive::new();
    let mut backward = Archive::new();
    for text in members {
        forward.insert(Universe::from(text));
    }
    for text in members.iter().rev() {
        backward.insert(Universe::from(*text));
    }
    let query = Universe::from("#..\n.#.\n...");
    for k in 0..7 {
        assert_eq!(forward.novelty(&query, k), backward.novelty(&query, k));
    }
}

#[test]
fn novelty_of_a_member_counts_its_own_zero() {
    let mut archive = Archive::new();
    let a = Universe::from("#.\n..");
    archive.insert(a.clone());
    archive.insert(Universe::from("##\n.."));
    assert_eq!(archive.novelty(&a, 1), 0);
    assert_eq!(archive.novelty(&a, 2), 1);
}

#[test]
fn survivors_are_the_highest_scores_first() {
    let pool = vec![scored(3, 0), scored(9, 1), scored(1, 2), scored(5, 3), scored(7, 4)];
    let parents = select_parents(&pool, 3);
    let scores: Vec<usize> = parents.iter().map(|p| p.novelty).collect();
    assert_eq!(scores, vec![9, 7, 5]);
    assert_eq!(parents[0].cells, pool[1].cells);
    assert_eq!(parents[1].cells, pool[4].cells);
    assert_eq!(parents[2].cells, pool[3].cells);
    assert_eq!(select_parents(&pool, 0).len(), 0);
    let all: Vec<usize> = select_parents(&pool, 5).iter().map(|p| p.novelty).collect();
    assert_eq!(all, vec![9, 7, 5, 3, 1]);
}

#[test]
fn among_equal_scores_the_later_survives_first() {
    let pool = vec![
        scored(0, 0),
        scored(4, 1),
        scored(0, 2),
        scored(4, 3),
        scored(0, 4),
        scored(4, 5),
    ];
    let parents = select_parents(&pool, 4);
    assert_eq!(parents[0].cells, pool[5].cells);
    assert_eq!(parents[1].cells, pool[3].cells);
    assert_eq!(parents[2].cells, pool[1].cells);
    assert_eq!(parents[3].cells, pool[4].cells);

    // what a stable ascending sort followed by a reversal gives
    let mut order: Vec<usize> = (0..pool.len()).collect();
    order.sort_by_key(|&i| pool[i].novelty);
    order.reverse();
    for t in 0..4 {
        assert_eq!(parents[t].cells, pool[order[t]].cells);
        assert_eq!(parents[t].novelty, pool[order[t]].novelty);
    }
}

#[test]
fn standard_configuration() {
    let cfg = SearchConfig::standard(20, 3, 5, 50);
    assert_eq!(cfg.universe_size, 20);
    assert_eq!(cfg.seed_size, 3);
    assert_eq!(cfg.generations, 5);
    assert_eq!(cfg.n_simulation_steps, 50);
    assert_eq!(cfg.n_parents, 4);
    assert_eq!(cfg.n_offspring, 6);
    assert_eq!(cfg.n_mutations, 1);
    assert_eq!(cfg.k_nearest_neighbors, 4);
    assert_eq!(cfg.alive_threshold, 20);
    assert_eq!(cfg.symmetry_threshold, 10);
    assert!(!cfg.keep_parents);
    assert_eq!(cfg.validate(), Ok(()));
    assert_eq!(SearchConfig::standard(52, 3, 200, 500).validate(), Ok(()));
    assert_eq!(SearchConfig::standard(2, 2, 1, 0).validate(), Ok(()));
}

#[test]
fn each_fault_of_a_configuration_is_named() {
    let good = SearchConfig::standard(20, 3, 5, 50);
    assert_eq!(
        SearchConfig { universe_size: 0, ..good }.validate(),
        Err(ConfigError::EmptyUniverse)
    );
    assert_eq!(
        SearchConfig { universe_size: 21, ..good }.validate(),
        Err(ConfigError::OddUniverse)
    );
    assert_eq!(
        SearchConfig { k_nearest_neighbors: 0, ..good }.validate(),
        Err(ConfigError::NoNeighbors)
    );
    assert_eq!(
        SearchConfig { universe_size: usize::MAX - 1, ..good }.validate(),
        Err(ConfigError::TooLarge)
    );
    assert_eq!(
        SearchConfig { k_nearest_neighbors: usize::MAX, ..good }.validate(),
        Err(ConfigError::TooLarge)
    );
    assert_eq!(SearchConfig { seed_size: 0, ..good }.validate(), Err(ConfigError::EmptySeed));
    assert_eq!(
        SearchConfig { seed_size: 21, ..good }.validate(),
        Err(ConfigError::SeedTooLarge)
    );
    assert_eq!(SearchConfig { seed_size: 20, ..good }.validate(), Ok(()));
    assert_eq!(
        SearchConfig { generations: 0, ..good }.validate(),
        Err(ConfigError::NoGenerations)
    );
    assert_eq!(SearchConfig { n_parents: 0, ..good }.validate(), Err(ConfigError::NoParents));
    assert_eq!(
        SearchConfig { n_offspring: 0, ..good }.validate(),
        Err(ConfigError::NoOffspring)
    );
    assert_eq!(
        SearchConfig { n_mutations: 0, ..good }.validate(),
        Err(ConfigError::NoMutations)
    );
    assert_eq!(
        SearchConfig { n_offspring: 3, ..good }.validate(),
        Err(ConfigError::TooFewOffspring)
    );
    assert_eq!(SearchConfig { n_offspring: 3, keep_parents: true, ..good }.validate(), Ok(()));
    assert_eq!(SearchConfig { n_simulation_steps: 0, ..good }.validate(), Ok(()));
    // the first fault is the one reported
    assert_eq!(
        SearchConfig { universe_size: 0, seed_size: 0, generations: 0, ..good }.validate(),
        Err(ConfigError::EmptyUniverse)
    );
}

#[test]
fn search_refuses_a_bad_configuration_before_drawing() {
    let mut rng = StdRng::seed_from_u64(42);
    let mut untouched = StdRng::seed_from_u64(42);
    assert_eq!(novelty_search(20, 21, 5, 50, &mut rng), Err(ConfigError::SeedTooLarge));
    assert_eq!(novelty_search(0, 0, 5, 50, &mut rng), Err(ConfigError::EmptyUniverse));
    assert_eq!(novelty_search(7, 3, 5, 50, &mut rng), Err(ConfigError::OddUniverse));
    assert_eq!(novelty_search(20, 3, 0, 50, &mut rng), Err(ConfigError::NoGenerations));
    assert_eq!(rng, untouched);
    let cfg = SearchConfig { n_parents: 0, ..SearchConfig::standard(20, 3, 5, 50) };
    assert_eq!(novelty_search_with(&cfg, &mut rng), Err(ConfigError::NoParents));
    assert!(Search::new(cfg).is_err());
    assert_eq!(rng, untouched);
    let _ = novelty_search(20, 3, 1, 1, &mut rng);
    let _ = novelty_search(20, 3, 1, 1, &mut untouched);
    assert_eq!(rng, untouched);
}

#[test]
fn search_steps_follow_the_given_draws() {
    let cfg = SearchConfig {
        alive_threshold: 0,
        symmetry_threshold: 0,
        k_nearest_neighbors: 1,
        n_parents: 2,
        n_offspring: 3,
        ..SearchConfig::standard(6, 2, 1, 0)
    };
    let mut search = Search::new(cfg).unwrap();
    assert_eq!(search.config(), cfg);
    assert_eq!(search.n_bred(), 0);
    assert_eq!(search.discoveries().len(), 0);

    // one live cell: not symmetric, so not interesting
    search.breed(0, &vec![(0, 0)]);
    assert_eq!(search.n_bred(), 1);
    assert_eq!(search.discoveries().len(), 0);
    // a mirrored pair, unchanged by no tick: interesting
    search.breed(1, &vec![(0, 0), (0, 1)]);
    assert_eq!(search.discoveries(), vec![pattern("##\n..")]);
    // the same pattern again is found again
    search.breed(0, &vec![(0, 1), (0, 0)]);
    assert_eq!(search.n_bred(), 3);
    assert_eq!(search.discoveries(), vec![pattern("##\n.."), pattern("##\n..")]);

    search.select();
    assert_eq!(search.n_bred(), 0);
    // scores were 0 (empty archive), 1 and 0 (its outcome was in the archive)
    search.breed(0, &vec![]);
    assert_eq!(search.discoveries().len(), 3);
    search.breed(1, &vec![]);
    assert_eq!(search.discoveries().len(), 4);
    assert_eq!(search.into_discoveries().len(), 4);
}

#[test]
fn survivors_come_from_the_children_alone_unless_parents_are_kept() {
    let base = SearchConfig {
        alive_threshold: 0,
        symmetry_threshold: 0,
        k_nearest_neighbors: 1,
        n_parents: 1,
        n_offspring: 1,
        ..SearchConfig::standard(4, 2, 1, 0)
    };
    // the child scores 0 against the empty archive, as its parent does
    let mut search = Search::new(base).unwrap();
    search.breed(0, &vec![(0, 0), (0, 1)]);
    search.select();
    search.breed(0, &vec![]);
    assert_eq!(search.discoveries(), vec![pattern("##\n.."), pattern("##\n..")]);

    // with the parents kept, the parent stands later in the pool and wins the tie
    let mut search = Search::new(SearchConfig { keep_parents: true, ..base }).unwrap();
    search.breed(0, &vec![(0, 0), (0, 1)]);
    search.select();
    search.breed(0, &vec![]);
    assert_eq!(search.discoveries(), vec![pattern("##\n..")]);
}

#[test]
fn same_seed_gives_the_same_discoveries() {
    let cfg = SearchConfig {
        alive_threshold: 2,
        symmetry_threshold: 0,
        ..SearchConfig::standard(12, 3, 30, 20)
    };
    let mut first = StdRng::seed_from_u64(2024);
    let mut second = StdRng::seed_from_u64(2024);
    let a = novelty_search_with(&cfg, &mut first).unwrap();
    let b = novelty_search_with(&cfg, &mut second).unwrap();
    assert_eq!(a, b);
    assert!(!a.is_empty());
    assert_eq!(first, second);
    let text = |found: &Vec<Vec<Vec<LCell>>>| -> Vec<u8> {
        let mut bytes = Vec::new();
        for cells in found {
            let u = seed(&Universe::new(12), cells);
            bytes.extend_from_slice(u.render().as_bytes());
        }
        bytes
    };
    assert_eq!(text(&a), text(&b));
}

#[test]
fn discoveries_are_seed_patterns_with_interesting_outcomes() {
    let cfg = SearchConfig {
        alive_threshold: 2,
        symmetry_threshold: 0,
        ..SearchConfig::standard(12, 3, 30, 20)
    };
    let mut rng = StdRng::seed_from_u64(5);
    let found = novelty_search_with(&cfg, &mut rng).unwrap();
    assert!(!found.is_empty());
    for cells in &found {
        assert_eq!(cells.len(), 3);
        for r in cells {
            assert_eq!(r.len(), 3);
        }
        let last = simulate(&seed(&Universe::new(12), cells), 20);
        assert!(count_alive_cells(&last) > 2);
        assert!(measure_symmetry(&last) > 0);
    }
}

#[test]
fn end_to_end_fixture() {
    let mut rng = StdRng::seed_from_u64(42);
    let found = novelty_search(20, 3, 5, 50, &mut rng).unwrap();
    let mut again = StdRng::seed_from_u64(42);
    assert_eq!(novelty_search(20, 3, 5, 50, &mut again).unwrap(), found);
    let expected: Vec<Vec<Vec<LCell>>> = Vec::new();
    assert_eq!(found, expected);
}
