//! The configuration of a search, and its validation.

use vstd::prelude::*;

verus! {

/// The parameters of a search.
#[derive(Clone, Copy, Debug, PartialEq, Eq, Structural)]
pub struct SearchConfig {
    /// The side of the universe in which every pattern is grown.
    pub universe_size: usize,
    /// The side of the seed patterns.
    pub seed_size: usize,
    /// The number of generations.
    pub generations: usize,
    /// The number of ticks that each pattern is given.
    pub n_simulation_steps: usize,
    /// The size of the population that survives into the next generation.
    pub n_parents: usize,
    /// The number of children bred in each generation.
    pub n_offspring: usize,
    /// The number of cells flipped to make a child.
    pub n_mutations: usize,
    /// The number of nearest outcomes that the novelty sums over.
    pub k_nearest_neighbors: usize,
    /// An outcome is interesting only with more live cells than this.
    pub alive_threshold: usize,
    /// An outcome is interesting only with more mirrored pairs than this.
    pub symmetry_threshold: usize,
    /// Whether the parents compete with their children for survival.
    pub keep_parents: bool,
}

/// Why a configuration is refused.
#[derive(Clone, Copy, Debug, PartialEq, Eq, Structural)]
pub enum ConfigError {
    /// The universe has no cell.
    EmptyUniverse,
    /// The side of the universe is odd, so its symmetry is not defined.
    OddUniverse,
    /// The universe has more cells, or the novelty could grow larger, than a
    /// machine word counts.
    TooLarge,
    /// The seed pattern has no cell.
    EmptySeed,
    /// The seed pattern does not fit into the universe.
    SeedTooLarge,
    /// There is no generation to run.
    NoGenerations,
    /// There is no parent to breed from.
    NoParents,
    /// No child is bred.
    NoOffspring,
    /// No cell is flipped.
    NoMutations,
    /// The novelty sums over no neighbour.
    NoNeighbors,
    /// The children alone are fewer than the population that must survive.
    TooFewOffspring,
}

/// The verdict on a configuration: the first of the faults that it has, in
/// the order written here, or none.
pub open spec fn validated(cfg: SearchConfig) -> Result<(), ConfigError> {
    if cfg.universe_size == 0 {
        Err(ConfigError::EmptyUniverse)
    } else if cfg.universe_size % 2 != 0 {
        Err(ConfigError::OddUniverse)
    } else if cfg.k_nearest_neighbors == 0 {
        Err(ConfigError::NoNeighbors)
    } else if cfg.k_nearest_neighbors * (cfg.universe_size * cfg.universe_size) > usize::MAX {
        Err(ConfigError::TooLarge)
    } else if cfg.seed_size == 0 {
        Err(ConfigError::EmptySeed)
    } else if cfg.seed_size > cfg.universe_size {
        Err(ConfigError::SeedTooLarge)
    } else if cfg.generations == 0 {
        Err(ConfigError::NoGenerations)
    } else if cfg.n_parents == 0 {
        Err(ConfigError::NoParents)
    } else if cfg.n_offspring == 0 {
        Err(ConfigError::NoOffspring)
    } else if cfg.n_mutations == 0 {
        Err(ConfigError::NoMutations)
    } else if !cfg.keep_parents && cfg.n_offspring < cfg.n_parents {
        Err(ConfigError::TooFewOffspring)
    } else {
        Ok(())
    }
}

/// The configuration with the search's usual parameters: four parents, six
/// children of one mutation each, the four nearest neighbours, an outcome
/// interesting with more than 20 live cells and more than 10 mirrored pairs,
/// and survivors chosen among the children alone.
pub open spec fn standard_config(
    universe_size: usize,
    seed_size: usize,
    generations: usize,
    n_simulation_steps: usize,
) -> SearchConfig {
    SearchConfig {
        universe_size,
        seed_size,
        generations,
        n_simulation_steps,
        n_parents: 4,
        n_offspring: 6,
        n_mutations: 1,
        k_nearest_neighbors: 4,
        alive_threshold: 20,
        symmetry_threshold: 10,
        keep_parents: false,
    }
}

impl SearchConfig {
    /// The configuration with the usual parameters.
    pub fn standard(
        universe_size: usize,
        seed_size: usize,
        generations: usize,
        n_simulation_steps: usize,
    ) -> (cfg: SearchConfig)
        ensures
            cfg == standard_config(universe_size, seed_size, generations, n_simulation_steps),
    {
        SearchConfig {
            universe_size,
            seed_size,
            generations,
            n_simulation_steps,
            n_parents: 4,
            n_offspring: 6,
            n_mutations: 1,
            k_nearest_neighbors: 4,
            alive_threshold: 20,
            symmetry_threshold: 10,
            keep_parents: false,
        }
    }

    /// Validates the configuration, once and before anything is simulated.
    pub fn validate(&self) -> (verdict: Result<(), ConfigError>)
        ensures
            verdict == validated(*self),
    {
        if self.universe_size == 0 {
            return Err(ConfigError::EmptyUniverse);
        }
        if self.universe_size % 2 != 0 {
            return Err(ConfigError::OddUniverse);
        }
        if self.k_nearest_neighbors == 0 {
            return Err(ConfigError::NoNeighbors);
        }
        let fits = match self.universe_size.checked_mul(self.universe_size) {
            Some(cells) => self.k_nearest_neighbors.checked_mul(cells).is_some(),
            None => {
                proof {
                    lemma_product_grows(
                        self.k_nearest_neighbors as nat,
                        (self.universe_size * self.universe_size) as nat,
                    );
                }
                false
            },
        };
        if !fits {
            return Err(ConfigError::TooLarge);
        }
        if self.seed_size == 0 {
            return Err(ConfigError::EmptySeed);
        }
        if self.seed_size > self.universe_size {
            return Err(ConfigError::SeedTooLarge);
        }
        if self.generations == 0 {
            return Err(ConfigError::NoGenerations);
        }
        if self.n_parents == 0 {
            return Err(ConfigError::NoParents);
        }
        if self.n_offspring == 0 {
            return Err(ConfigError::NoOffspring);
        }
        if self.n_mutations == 0 {
            return Err(ConfigError::NoMutations);
        }
        if !self.keep_parents && self.n_offspring < self.n_parents {
            return Err(ConfigError::TooFewOffspring);
        }
        Ok(())
    }
}

/// A positive multiple of a number is no smaller than the number.
pub proof fn lemma_product_grows(k: nat, n: nat)
    requires
        k > 0,
    ensures
        k * n >= n,
{
    assert(k * n >= n) by (nonlinear_arith)
        requires
            k > 0,
    ;
}

/// What a valid configuration is: every fault is absent.
pub proof fn lemma_validated_ok(cfg: SearchConfig)
    requires
        validated(cfg) is Ok,
    ensures
        cfg.universe_size > 0,
        cfg.universe_size % 2 == 0,
        cfg.universe_size * cfg.universe_size <= usize::MAX,
        cfg.k_nearest_neighbors * (cfg.universe_size * cfg.universe_size) <= usize::MAX,
        0 < cfg.seed_size <= cfg.universe_size,
        cfg.generations > 0,
        cfg.n_parents > 0,
        cfg.n_offspring > 0,
        cfg.n_mutations > 0,
        cfg.k_nearest_neighbors > 0,
        cfg.keep_parents || cfg.n_offspring >= cfg.n_parents,
{
    lemma_product_grows(
        cfg.k_nearest_neighbors as nat,
        (cfg.universe_size * cfg.universe_size) as nat,
    );
}

} // verus!
