//! The novelty search: generations of mutated seed patterns, each scored by
//! how far its outcome lies from the outcomes seen before.

use rand::rngs::StdRng;
use vstd::prelude::*;
use crate::archive::{
    inserted, is_archive, lemma_inserted_archive, lemma_inserted_grows, novelty_of, Archive,
};
use crate::cells::{copy_cells, rows_of};
use crate::config::{lemma_validated_ok, standard_config, validated, ConfigError, SearchConfig};
use crate::grid::{
    dead_grid, is_square, is_universe, lemma_simulated_universe, n_alive, seeded, simulated,
    symmetry,
};
use crate::individual::{
    draw_sites, lemma_toggled_all_square, sites_within, toggle_cells, toggled_all, Genotype,
    Individual, NOVELTY_MIN,
};
use crate::lcell::LCell;
use crate::random::sample_below;
use crate::selection::{genotypes_of, lemma_survivors_from_pool, select_parents, survivors};
use crate::universe::{count_alive_cells, measure_symmetry, seed, simulate, Universe};

verus! {

/// What the generator decides for one child: the parent's place in the
/// population, and the positions of the cells to flip.
pub struct Draw {
    pub parent: usize,
    pub sites: Seq<(usize, usize)>,
}

/// The state of a search between two steps.
pub struct SearchState {
    /// The parents of the generation under way.
    pub population: Seq<Genotype>,
    /// The children bred so far in this generation.
    pub offspring: Seq<Genotype>,
    /// Every outcome seen so far.
    pub archive: Seq<Seq<Seq<LCell>>>,
    /// The seed patterns whose outcomes were interesting, in the order found.
    pub discoveries: Seq<Seq<Seq<LCell>>>,
}

/// The outcome of a seed pattern: the all-dead universe seeded with it, after
/// the simulation.
pub open spec fn outcome(cfg: SearchConfig, pattern: Seq<Seq<LCell>>) -> Seq<Seq<LCell>> {
    simulated(seeded(dead_grid(cfg.universe_size as nat), pattern), cfg.n_simulation_steps as nat)
}

/// Whether an outcome is reported: it has more live cells and more mirrored
/// pairs than the thresholds.
pub open spec fn is_interesting(cfg: SearchConfig, g: Seq<Seq<LCell>>) -> bool {
    n_alive(g) > cfg.alive_threshold && symmetry(g) > cfg.symmetry_threshold
}

/// The state in which a search starts: a population of all-dead patterns
/// with the minimum score, and nothing seen or found.
pub open spec fn initial(cfg: SearchConfig) -> SearchState {
    SearchState {
        population: Seq::new(
            cfg.n_parents as nat,
            |i: int|
                Genotype { cells: dead_grid(cfg.seed_size as nat), novelty: NOVELTY_MIN as nat },
        ),
        offspring: Seq::empty(),
        archive: Seq::empty(),
        discoveries: Seq::empty(),
    }
}

/// The state after one child was bred: the drawn parent is mutated at the
/// drawn positions, the child's outcome is scored against the archive as it
/// was, the child joins the offspring, its outcome the archive, and, where the
/// outcome is interesting, its pattern the discoveries.
pub open spec fn bred(cfg: SearchConfig, s: SearchState, draw: Draw) -> SearchState {
    let child = toggled_all(s.population[draw.parent as int].cells, draw.sites);
    let last = outcome(cfg, child);
    SearchState {
        population: s.population,
        offspring: s.offspring.push(
            Genotype {
                cells: child,
                novelty: novelty_of(s.archive, last, cfg.k_nearest_neighbors as nat),
            },
        ),
        archive: inserted(s.archive, last),
        discoveries: if is_interesting(cfg, last) {
            s.discoveries.push(child)
        } else {
            s.discoveries
        },
    }
}

/// Those who compete for survival: the children, followed by their parents
/// where the configuration keeps them.
pub open spec fn pool(cfg: SearchConfig, s: SearchState) -> Seq<Genotype> {
    if cfg.keep_parents {
        s.offspring + s.population
    } else {
        s.offspring
    }
}

/// The state after a generation was closed: the survivors of the pool are the
/// new population, and no child is left.
pub open spec fn selected(cfg: SearchConfig, s: SearchState) -> SearchState {
    SearchState {
        population: survivors(pool(cfg, s), cfg.n_parents as nat),
        offspring: Seq::empty(),
        archive: s.archive,
        discoveries: s.discoveries,
    }
}

/// The state after a child was bred for each draw, in turn.
pub open spec fn after_draws(cfg: SearchConfig, s: SearchState, draws: Seq<Draw>) -> SearchState
    decreases draws.len(),
{
    if draws.len() == 0 {
        s
    } else {
        bred(cfg, after_draws(cfg, s, draws.drop_last()), draws.last())
    }
}

/// The state after whole generations, one for each sequence of draws.
pub open spec fn after_generations(
    cfg: SearchConfig,
    s: SearchState,
    draws: Seq<Seq<Draw>>,
) -> SearchState
    decreases draws.len(),
{
    if draws.len() == 0 {
        s
    } else {
        selected(cfg, after_draws(cfg, after_generations(cfg, s, draws.drop_last()), draws.last()))
    }
}

/// What a search finds, given what the generator decided: the discoveries
/// after all generations.
pub open spec fn search_outcome(cfg: SearchConfig, draws: Seq<Seq<Draw>>) -> Seq<Seq<Seq<LCell>>> {
    after_generations(cfg, initial(cfg), draws).discoveries
}

/// Whether a draw is one that the generator can make under the configuration.
pub open spec fn draw_admissible(cfg: SearchConfig, draw: Draw) -> bool {
    &&& draw.parent < cfg.n_parents
    &&& draw.sites.len() == cfg.n_mutations
    &&& sites_within(draw.sites, cfg.seed_size as nat)
}

/// Whether the draws are those of a whole search under the configuration: one
/// sequence for each generation, with one draw for each child.
pub open spec fn draws_admissible(cfg: SearchConfig, draws: Seq<Seq<Draw>>) -> bool {
    &&& draws.len() == cfg.generations
    &&& forall|g: int| 0 <= g < draws.len() ==> (#[trigger] draws[g]).len() == cfg.n_offspring
    &&& forall|g: int, j: int|
        0 <= g < draws.len() && 0 <= j < draws[g].len() ==> draw_admissible(
            cfg,
            #[trigger] draws[g][j],
        )
}

/// Whether a pattern is a square of the given side.
pub open spec fn is_pattern(cells: Seq<Seq<LCell>>, side: nat) -> bool {
    cells.len() == side && is_square(cells)
}

/// The invariant of a search under a valid configuration.
pub open spec fn state_ok(cfg: SearchConfig, s: SearchState) -> bool {
    &&& validated(cfg) is Ok
    &&& s.population.len() == cfg.n_parents
    &&& forall|i: int|
        0 <= i < s.population.len() ==> is_pattern(
            (#[trigger] s.population[i]).cells,
            cfg.seed_size as nat,
        )
    &&& forall|i: int|
        0 <= i < s.offspring.len() ==> is_pattern(
            (#[trigger] s.offspring[i]).cells,
            cfg.seed_size as nat,
        )
    &&& is_archive(s.archive)
    &&& forall|i: int|
        0 <= i < s.archive.len() ==> (#[trigger] s.archive[i]).len() == cfg.universe_size
    &&& forall|i: int|
        0 <= i < s.discoveries.len() ==> is_pattern(
            #[trigger] s.discoveries[i],
            cfg.seed_size as nat,
        )
}

/// The patterns of a list of discoveries.
pub open spec fn patterns_of(found: Vec<Vec<Vec<LCell>>>) -> Seq<Seq<Seq<LCell>>> {
    Seq::new(found.len() as nat, |i: int| rows_of(found[i]))
}

/// A search under way: its configuration and its state.
#[derive(Debug)]
pub struct Search {
    config: SearchConfig,
    population: Vec<Individual>,
    offspring: Vec<Individual>,
    archive: Archive,
    discoveries: Vec<Vec<Vec<LCell>>>,
}

impl View for Search {
    type V = SearchState;

    closed spec fn view(&self) -> SearchState {
        SearchState {
            population: genotypes_of(self.population),
            offspring: genotypes_of(self.offspring),
            archive: self.archive@,
            discoveries: patterns_of(self.discoveries),
        }
    }
}

/// Whether the outcome of every pattern is interesting.
pub open spec fn all_interesting(cfg: SearchConfig, found: Seq<Seq<Seq<LCell>>>) -> bool {
    forall|i: int| 0 <= i < found.len() ==> is_interesting(cfg, outcome(cfg, #[trigger] found[i]))
}

/// The outcome of a seed pattern that fits is a universe of the configured
/// side.
pub proof fn lemma_outcome_universe(cfg: SearchConfig, pattern: Seq<Seq<LCell>>)
    requires
        validated(cfg) is Ok,
        is_pattern(pattern, cfg.seed_size as nat),
    ensures
        is_universe(outcome(cfg, pattern)),
        outcome(cfg, pattern).len() == cfg.universe_size,
{
    lemma_validated_ok(cfg);
    let blank = dead_grid(cfg.universe_size as nat);
    let start = seeded(blank, pattern);
    assert(is_universe(blank));
    assert(is_universe(start));
    lemma_simulated_universe(start, cfg.n_simulation_steps as nat);
}

/// Breeding a child keeps the invariant of the search. It adds one child,
/// leaves the population alone, and only adds to the archive and to the
/// discoveries, to these nothing but a pattern with an interesting outcome.
pub proof fn lemma_bred(cfg: SearchConfig, s: SearchState, draw: Draw)
    requires
        state_ok(cfg, s),
        draw.parent < cfg.n_parents,
        sites_within(draw.sites, cfg.seed_size as nat),
    ensures
        state_ok(cfg, bred(cfg, s, draw)),
        bred(cfg, s, draw).population == s.population,
        bred(cfg, s, draw).offspring.len() == s.offspring.len() + 1,
        s.archive.is_prefix_of(bred(cfg, s, draw).archive),
        s.discoveries.is_prefix_of(bred(cfg, s, draw).discoveries),
        all_interesting(cfg, s.discoveries) ==> all_interesting(
            cfg,
            bred(cfg, s, draw).discoveries,
        ),
{
    let parent = s.population[draw.parent as int];
    assert(is_pattern(parent.cells, cfg.seed_size as nat));
    lemma_toggled_all_square(parent.cells, draw.sites);
    let child = toggled_all(parent.cells, draw.sites);
    let last = outcome(cfg, child);
    lemma_outcome_universe(cfg, child);
    lemma_inserted_archive(s.archive, last);
    lemma_inserted_grows(s.archive, last);
    let after = bred(cfg, s, draw);
    assert forall|i: int| 0 <= i < after.offspring.len() implies is_pattern(
        (#[trigger] after.offspring[i]).cells,
        cfg.seed_size as nat,
    ) by {
        if i < s.offspring.len() {
            assert(after.offspring[i] == s.offspring[i]);
        }
    }
    assert forall|i: int| 0 <= i < after.discoveries.len() implies is_pattern(
        #[trigger] after.discoveries[i],
        cfg.seed_size as nat,
    ) by {
        if i < s.discoveries.len() {
            assert(after.discoveries[i] == s.discoveries[i]);
        }
    }
    assert forall|i: int| 0 <= i < after.archive.len() implies (#[trigger] after.archive[i]).len()
        == cfg.universe_size by {
        if i < s.archive.len() {
            assert(after.archive[i] == s.archive[i]);
        }
    }
    if all_interesting(cfg, s.discoveries) {
        assert forall|i: int| 0 <= i < after.discoveries.len() implies is_interesting(
            cfg,
            outcome(cfg, #[trigger] after.discoveries[i]),
        ) by {
            if i < s.discoveries.len() {
                assert(after.discoveries[i] == s.discoveries[i]);
            }
        }
    }
}

/// Closing a generation keeps the invariant of the search. It leaves the
/// archive and the discoveries alone and no child behind, and every survivor
/// comes from the pool.
pub proof fn lemma_selected(cfg: SearchConfig, s: SearchState)
    requires
        state_ok(cfg, s),
        pool(cfg, s).len() >= cfg.n_parents,
    ensures
        state_ok(cfg, selected(cfg, s)),
        selected(cfg, s).offspring.len() == 0,
        selected(cfg, s).archive == s.archive,
        selected(cfg, s).discoveries == s.discoveries,
        forall|t: int|
            0 <= t < cfg.n_parents ==> pool(cfg, s).contains(
                #[trigger] selected(cfg, s).population[t],
            ),
{
    let competitors = pool(cfg, s);
    let after = selected(cfg, s);
    lemma_survivors_from_pool(competitors, cfg.n_parents as nat);
    assert forall|t: int| 0 <= t < cfg.n_parents implies competitors.contains(
        #[trigger] after.population[t],
    ) && is_pattern(after.population[t].cells, cfg.seed_size as nat) by {
        let from = choose|from: int|
            0 <= from < competitors.len() && competitors[from] == after.population[t];
        if cfg.keep_parents && from >= s.offspring.len() {
            assert(competitors[from] == s.population[from - s.offspring.len()]);
        } else {
            assert(competitors[from] == s.offspring[from]);
        }
    }
}

/// Breeding a child for each admissible draw keeps the invariant of the
/// search and adds as many children as there are draws.
pub proof fn lemma_after_draws(cfg: SearchConfig, s: SearchState, draws: Seq<Draw>)
    requires
        state_ok(cfg, s),
        forall|j: int| 0 <= j < draws.len() ==> draw_admissible(cfg, #[trigger] draws[j]),
    ensures
        state_ok(cfg, after_draws(cfg, s, draws)),
        after_draws(cfg, s, draws).population == s.population,
        after_draws(cfg, s, draws).offspring.len() == s.offspring.len() + draws.len(),
        s.archive.is_prefix_of(after_draws(cfg, s, draws).archive),
        s.discoveries.is_prefix_of(after_draws(cfg, s, draws).discoveries),
        all_interesting(cfg, s.discoveries) ==> all_interesting(
            cfg,
            after_draws(cfg, s, draws).discoveries,
        ),
    decreases draws.len(),
{
    if draws.len() > 0 {
        let before = after_draws(cfg, s, draws.drop_last());
        assert forall|j: int| 0 <= j < draws.drop_last().len() implies draw_admissible(
            cfg,
            #[trigger] draws.drop_last()[j],
        ) by {
            assert(draws.drop_last()[j] == draws[j]);
        }
        lemma_after_draws(cfg, s, draws.drop_last());
        assert(draw_admissible(cfg, draws[draws.len() - 1]));
        lemma_bred(cfg, before, draws.last());
    }
}

/// After any number of whole generations the search is in a state that
/// keeps its invariant, between two generations, and every discovery made
/// is a seed pattern with an interesting outcome.
pub proof fn lemma_after_generations(cfg: SearchConfig, draws: Seq<Seq<Draw>>)
    requires
        validated(cfg) is Ok,
        forall|g: int| 0 <= g < draws.len() ==> (#[trigger] draws[g]).len() == cfg.n_offspring,
        forall|g: int, j: int|
            0 <= g < draws.len() && 0 <= j < draws[g].len() ==> draw_admissible(
                cfg,
                #[trigger] draws[g][j],
            ),
    ensures
        state_ok(cfg, after_generations(cfg, initial(cfg), draws)),
        after_generations(cfg, initial(cfg), draws).offspring.len() == 0,
        all_interesting(cfg, after_generations(cfg, initial(cfg), draws).discoveries),
    decreases draws.len(),
{
    lemma_validated_ok(cfg);
    if draws.len() > 0 {
        let earlier = draws.drop_last();
        assert forall|g: int| 0 <= g < earlier.len() implies (#[trigger] earlier[g]).len()
            == cfg.n_offspring by {
            assert(earlier[g] == draws[g]);
        }
        assert forall|g: int, j: int|
            0 <= g < earlier.len() && 0 <= j < earlier[g].len() implies draw_admissible(
            cfg,
            #[trigger] earlier[g][j],
        ) by {
            assert(earlier[g] == draws[g]);
        }
        lemma_after_generations(cfg, earlier);
        let start = after_generations(cfg, initial(cfg), earlier);
        let last = draws[draws.len() - 1];
        assert(last.len() == cfg.n_offspring);
        assert forall|j: int| 0 <= j < last.len() implies draw_admissible(
            cfg,
            #[trigger] last[j],
        ) by {
            assert(draw_admissible(cfg, draws[draws.len() - 1][j]));
        }
        lemma_after_draws(cfg, start, last);
        lemma_selected(cfg, after_draws(cfg, start, last));
    }
}

/// Whatever the generator decides, a search under a valid configuration
/// finds only seed patterns of the configured side whose outcomes are
/// interesting.
pub proof fn lemma_search_outcome(cfg: SearchConfig, draws: Seq<Seq<Draw>>)
    requires
        validated(cfg) is Ok,
        draws_admissible(cfg, draws),
    ensures
        forall|i: int|
            0 <= i < search_outcome(cfg, draws).len() ==> is_pattern(
                #[trigger] search_outcome(cfg, draws)[i],
                cfg.seed_size as nat,
            ) && is_interesting(cfg, outcome(cfg, search_outcome(cfg, draws)[i])),
{
    lemma_after_generations(cfg, draws);
}

/// What a search finds is determined by its configuration and by what the
/// generator decides: draws that agree one by one give the same discoveries.
pub proof fn lemma_search_determined(cfg: SearchConfig, first: Seq<Seq<Draw>>, second: Seq<Seq<Draw>>)
    requires
        first.len() == second.len(),
        forall|g: int| 0 <= g < first.len() ==> (#[trigger] first[g]).len() == second[g].len(),
        forall|g: int, j: int|
            0 <= g < first.len() && 0 <= j < first[g].len() ==> (#[trigger] first[g][j]).parent
                == second[g][j].parent && first[g][j].sites =~= second[g][j].sites,
    ensures
        search_outcome(cfg, first) == search_outcome(cfg, second),
{
    assert forall|g: int| 0 <= g < first.len() implies #[trigger] first[g] == second[g] by {
        assert forall|j: int| 0 <= j < first[g].len() implies #[trigger] first[g][j]
            == second[g][j] by {
            assert(first[g][j].parent == second[g][j].parent);
            assert(first[g][j].sites =~= second[g][j].sites);
        }
        assert(first[g] =~= second[g]);
    }
    assert(first =~= second);
}

impl Search {
    /// The configuration of the search.
    pub closed spec fn config_of(&self) -> SearchConfig {
        self.config
    }

    /// The invariant of every search.
    pub open spec fn wf(&self) -> bool {
        state_ok(self.config_of(), self@)
    }

    /// Validates the configuration and sets the search up in its initial
    /// state.
    pub fn new(config: SearchConfig) -> (r: Result<Search, ConfigError>)
        ensures
            match r {
                Ok(search) => validated(config) is Ok && search.wf() && search.config_of()
                    == config && search@ == initial(config),
                Err(e) => validated(config) == Err::<(), ConfigError>(e),
            },
    {
        match config.validate() {
            Err(e) => {
                return Err(e);
            },
            Ok(_) => {},
        }
        let mut population: Vec<Individual> = Vec::new();
        let mut i: usize = 0;
        while i < config.n_parents
            invariant
                i <= config.n_parents,
                population.len() == i,
                forall|j: int|
                    0 <= j < i ==> (#[trigger] population[j])@ == (Genotype {
                        cells: dead_grid(config.seed_size as nat),
                        novelty: NOVELTY_MIN as nat,
                    }),
            decreases config.n_parents - i,
        {
            population.push(Individual::new(config.seed_size));
            i += 1;
        }
        let search = Search {
            config,
            population,
            offspring: Vec::new(),
            archive: Archive::new(),
            discoveries: Vec::new(),
        };
        proof {
            assert(search@.population =~= initial(config).population);
            assert(search@.offspring =~= initial(config).offspring);
            assert(search@.archive =~= initial(config).archive);
            assert(search@.discoveries =~= initial(config).discoveries);
        }
        Ok(search)
    }

    /// Breeds one child: mutates the parent at the given place of the
    /// population at the given positions, grows the child's pattern in a
    /// fresh universe, records the pattern if the outcome is interesting,
    /// scores the outcome against the archive, and adds the child to the
    /// offspring and the outcome to the archive.
    pub fn breed(&mut self, parent: usize, sites: &Vec<(usize, usize)>)
        requires
            old(self).wf(),
            parent < old(self).config_of().n_parents,
            sites_within(sites@, old(self).config_of().seed_size as nat),
        ensures
            final(self).wf(),
            final(self).config_of() == old(self).config_of(),
            final(self)@ == bred(old(self).config_of(), old(self)@, Draw { parent, sites: sites@ }),
    {
        let ghost cfg = self.config;
        let ghost before = self@;
        proof {
            lemma_validated_ok(cfg);
            assert(is_pattern(before.population[parent as int].cells, cfg.seed_size as nat));
        }
        let cells = toggle_cells(&self.population[parent].cells, sites);
        let blank = Universe::new(self.config.universe_size);
        let seeded_u = seed(&blank, &cells);
        let last = simulate(&seeded_u, self.config.n_simulation_steps);
        proof {
            lemma_simulated_universe(seeded_u@, cfg.n_simulation_steps as nat);
            assert(last@ == outcome(cfg, rows_of(cells)));
            assert(last@.len() == cfg.universe_size);
        }
        let interesting = count_alive_cells(&last) > self.config.alive_threshold
            && measure_symmetry(&last) > self.config.symmetry_threshold;
        if interesting {
            self.discoveries.push(copy_cells(&cells));
        }
        let novelty = self.archive.novelty(&last, self.config.k_nearest_neighbors);
        self.offspring.push(Individual { cells, novelty });
        self.archive.insert(last);
        proof {
            let want = bred(cfg, before, Draw { parent, sites: sites@ });
            assert(self@.population =~= want.population);
            assert(self@.offspring =~= want.offspring);
            assert(self@.archive =~= want.archive);
            assert(self@.discoveries =~= want.discoveries);
            lemma_bred(cfg, before, Draw { parent, sites: sites@ });
        }
    }

    /// Closes the generation: the survivors of the pool become the new
    /// population, and the offspring is emptied.
    pub fn select(&mut self)
        requires
            old(self).wf(),
            pool(old(self).config_of(), old(self)@).len() >= old(self).config_of().n_parents,
        ensures
            final(self).wf(),
            final(self).config_of() == old(self).config_of(),
            final(self)@ == selected(old(self).config_of(), old(self)@),
    {
        let ghost cfg = self.config;
        let ghost before = self@;
        let mut competitors: Vec<Individual> = Vec::new();
        let mut i: usize = 0;
        while i < self.offspring.len()
            invariant
                i <= self.offspring.len(),
                competitors.len() == i,
                forall|j: int| 0 <= j < i ==> (#[trigger] competitors[j])@ == self.offspring[j]@,
            decreases self.offspring.len() - i,
        {
            competitors.push(self.offspring[i].clone());
            i += 1;
        }
        if self.config.keep_parents {
            let mut j: usize = 0;
            while j < self.population.len()
                invariant
                    j <= self.population.len(),
                    competitors.len() == self.offspring.len() + j,
                    forall|t: int|
                        0 <= t < self.offspring.len() ==> (#[trigger] competitors[t])@
                            == self.offspring[t]@,
                    forall|t: int|
                        0 <= t < j ==> (#[trigger] competitors[self.offspring.len() + t])@
                            == self.population[t]@,
                decreases self.population.len() - j,
            {
                competitors.push(self.population[j].clone());
                j += 1;
            }
        }
        proof {
            let want = pool(cfg, before);
            assert(before.offspring.len() == self.offspring.len());
            assert(before.population.len() == self.population.len());
            assert(genotypes_of(competitors).len() == want.len());
            assert forall|t: int| 0 <= t < want.len() implies genotypes_of(competitors)[t]
                == want[t] by {
                if t < self.offspring.len() {
                    assert(competitors[t]@ == self.offspring[t]@);
                } else {
                    let back = t - self.offspring.len();
                    assert(competitors[self.offspring.len() + back]@ == self.population[back]@);
                }
            }
            assert(genotypes_of(competitors) =~= want);
        }
        let parents = select_parents(&competitors, self.config.n_parents);
        self.population = parents;
        self.offspring = Vec::new();
        proof {
            let want = selected(cfg, before);
            assert(self@.population =~= want.population);
            assert(self@.offspring =~= want.offspring);
            assert(self@.archive =~= want.archive);
            assert(self@.discoveries =~= want.discoveries);
            lemma_selected(cfg, before);
        }
    }

    /// The configuration of the search.
    pub fn config(&self) -> (cfg: SearchConfig)
        ensures
            cfg == self.config_of(),
    {
        self.config
    }

    /// The number of children bred so far in the generation under way.
    pub fn n_bred(&self) -> (n: usize)
        ensures
            n == self@.offspring.len(),
    {
        self.offspring.len()
    }

    /// A copy of the discoveries made so far.
    pub fn discoveries(&self) -> (found: Vec<Vec<Vec<LCell>>>)
        ensures
            patterns_of(found) == self@.discoveries,
    {
        let mut found: Vec<Vec<Vec<LCell>>> = Vec::new();
        let mut i: usize = 0;
        while i < self.discoveries.len()
            invariant
                i <= self.discoveries.len(),
                found.len() == i,
                forall|j: int|
                    0 <= j < i ==> rows_of(#[trigger] found[j]) == rows_of(self.discoveries[j]),
            decreases self.discoveries.len() - i,
        {
            found.push(copy_cells(&self.discoveries[i]));
            i += 1;
        }
        assert(patterns_of(found) =~= self@.discoveries);
        found
    }

    /// Ends the search and hands out its discoveries.
    pub fn into_discoveries(self) -> (found: Vec<Vec<Vec<LCell>>>)
        ensures
            patterns_of(found) == self@.discoveries,
    {
        self.discoveries
    }
}

/// Runs a search under the given configuration. Every generation breeds
/// `n_offspring` children, each from a parent drawn from the population and
/// mutated at drawn positions, and then lets the survivors replace the
/// population. The result is the sequence of the seed patterns whose
/// outcomes were interesting, in the order in which they were found; a
/// pattern found twice is listed twice.
///
/// A configuration that is not valid is refused before anything is drawn or
/// simulated. Otherwise the search runs all its generations, and what it
/// finds is what the draws of the generator determine.
pub fn novelty_search_with(config: &SearchConfig, rng: &mut StdRng) -> (r: Result<
    Vec<Vec<Vec<LCell>>>,
    ConfigError,
>)
    ensures
        match r {
            Ok(found) => validated(*config) is Ok && exists|draws: Seq<Seq<Draw>>|
                draws_admissible(*config, draws) && patterns_of(found) == #[trigger] search_outcome(
                    *config,
                    draws,
                ),
            Err(e) => validated(*config) == Err::<(), ConfigError>(e) && *final(rng) == *old(rng),
        },
{
    let mut search = match Search::new(*config) {
        Ok(search) => search,
        Err(e) => {
            return Err(e);
        },
    };
    let cfg = *config;
    proof {
        lemma_validated_ok(cfg);
    }
    let ghost mut draws: Seq<Seq<Draw>> = Seq::empty();
    let mut generation: usize = 0;
    while generation < cfg.generations
        invariant
            validated(cfg) is Ok,
            search.wf(),
            search.config_of() == cfg,
            generation <= cfg.generations,
            draws.len() == generation,
            forall|g: int| 0 <= g < draws.len() ==> (#[trigger] draws[g]).len() == cfg.n_offspring,
            forall|g: int, j: int|
                0 <= g < draws.len() && 0 <= j < draws[g].len() ==> draw_admissible(
                    cfg,
                    #[trigger] draws[g][j],
                ),
            search@ == after_generations(cfg, initial(cfg), draws),
        decreases cfg.generations - generation,
    {
        let ghost start = search@;
        let ghost mut drawn: Seq<Draw> = Seq::empty();
        let mut child: usize = 0;
        while child < cfg.n_offspring
            invariant
                validated(cfg) is Ok,
                search.wf(),
                search.config_of() == cfg,
                child <= cfg.n_offspring,
                drawn.len() == child,
                forall|j: int| 0 <= j < drawn.len() ==> draw_admissible(cfg, #[trigger] drawn[j]),
                search@ == after_draws(cfg, start, drawn),
                search@.offspring.len() == child,
                start.offspring.len() == 0,
            decreases cfg.n_offspring - child,
        {
            proof {
                lemma_validated_ok(cfg);
            }
            let parent = sample_below(rng, cfg.n_parents);
            let sites = draw_sites(rng, cfg.seed_size, cfg.n_mutations);
            search.breed(parent, &sites);
            proof {
                let draw = Draw { parent, sites: sites@ };
                let longer = drawn.push(draw);
                assert(longer.drop_last() =~= drawn);
                drawn = longer;
            }
            child += 1;
        }
        proof {
            lemma_validated_ok(cfg);
        }
        search.select();
        proof {
            let longer = draws.push(drawn);
            assert(longer.drop_last() =~= draws);
            draws = longer;
        }
        generation += 1;
    }
    let found = search.into_discoveries();
    proof {
        assert(draws_admissible(cfg, draws));
        assert(patterns_of(found) == search_outcome(cfg, draws));
    }
    Ok(found)
}

/// Runs a search with the usual parameters in a universe of the given side,
/// from seed patterns of the given side, for the given number of generations
/// with the given number of ticks for each pattern.
pub fn novelty_search(
    universe_size: usize,
    seed_size: usize,
    generations: usize,
    n_simulation_steps: usize,
    rng: &mut StdRng,
) -> (r: Result<Vec<Vec<Vec<LCell>>>, ConfigError>)
    ensures
        match r {
            Ok(found) => {
                let cfg = standard_config(
                    universe_size,
                    seed_size,
                    generations,
                    n_simulation_steps,
                );
                validated(cfg) is Ok && exists|draws: Seq<Seq<Draw>>|
                    draws_admissible(cfg, draws) && patterns_of(found) == #[trigger] search_outcome(
                        cfg,
                        draws,
                    )
            },
            Err(e) => validated(
                standard_config(universe_size, seed_size, generations, n_simulation_steps),
            ) == Err::<(), ConfigError>(e) && *final(rng) == *old(rng),
        },
{
    let config = SearchConfig::standard(universe_size, seed_size, generations, n_simulation_steps);
    novelty_search_with(&config, rng)
}

} // verus!
