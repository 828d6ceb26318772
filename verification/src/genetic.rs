//! Uniform crossover and the breeding of the next generation.

use crate::synth::PatchGenome;
use rand::distributions::{Distribution, Uniform};
use rand::Rng;
use vstd::prelude::*;

verus! {

#[verifier::external_type_specification]
#[verifier::external_body]
pub struct ExThreadRng(rand::rngs::ThreadRng);

/// `Rng::gen_ratio(numerator, denominator)`: `true` with probability
/// `numerator / denominator`. `Bernoulli::from_ratio` refuses, and the call
/// panics on, a zero denominator or a numerator above the denominator. The
/// outcome is random; what rand guarantees is that a zero numerator never
/// gives `true` and a numerator equal to the denominator always does.
#[verifier::external_body]
fn gen_ratio(rng: &mut rand::rngs::ThreadRng, numerator: u32, denominator: u32) -> (hit: bool)
    requires
        denominator > 0,
        numerator <= denominator,
    ensures
        numerator == 0 ==> !hit,
        numerator == denominator ==> hit,
{
    rng.gen_ratio(numerator, denominator)
}

/// `Uniform::new(0, upper)` sampled once with `Distribution::sample`: an
/// index drawn uniformly from `0..upper`. `Uniform::new` panics unless
/// `0 < upper`; the sample lies in the half-open range.
#[verifier::external_body]
fn sample_index(rng: &mut rand::rngs::ThreadRng, upper: usize) -> (index: usize)
    requires
        upper > 0,
    ensures
        index < upper,
{
    Uniform::new(0usize, upper).sample(rng)
}

/// The coin flips of one uniform crossover, in the order they are drawn.
/// A flip that comes up `true` takes that gene, or gene group, from the
/// second parent.
#[derive(Clone, Copy, Debug)]
pub struct CrossoverFlips {
    pub osc1_idx: bool,
    pub osc2_idx: bool,
    pub detune: bool,
    pub osc_mix: bool,
    pub noise_mix: bool,
    /// Attack, decay, sustain and release together.
    pub envelope: bool,
    /// Cutoff, resonance, filter type and filter envelope amount together.
    pub filter: bool,
    /// LFO rate, pitch amount and cutoff amount together.
    pub lfo: bool,
    pub drive: bool,
}

/// The child of `g1` and `g2` under the given flips. The master volume always
/// comes from `g1`.
pub open spec fn crossover_spec<G>(g1: PatchGenome<G>, g2: PatchGenome<G>, f: CrossoverFlips) -> PatchGenome<G> {
    PatchGenome {
        osc1_idx: if f.osc1_idx { g2.osc1_idx } else { g1.osc1_idx },
        osc2_idx: if f.osc2_idx { g2.osc2_idx } else { g1.osc2_idx },
        detune: if f.detune { g2.detune } else { g1.detune },
        osc_mix: if f.osc_mix { g2.osc_mix } else { g1.osc_mix },
        noise_mix: if f.noise_mix { g2.noise_mix } else { g1.noise_mix },
        attack: if f.envelope { g2.attack } else { g1.attack },
        decay: if f.envelope { g2.decay } else { g1.decay },
        sustain: if f.envelope { g2.sustain } else { g1.sustain },
        release: if f.envelope { g2.release } else { g1.release },
        cutoff: if f.filter { g2.cutoff } else { g1.cutoff },
        resonance: if f.filter { g2.resonance } else { g1.resonance },
        filter_type: if f.filter { g2.filter_type } else { g1.filter_type },
        filter_env_amt: if f.filter { g2.filter_env_amt } else { g1.filter_env_amt },
        lfo_rate: if f.lfo { g2.lfo_rate } else { g1.lfo_rate },
        lfo_amt_pitch: if f.lfo { g2.lfo_amt_pitch } else { g1.lfo_amt_pitch },
        lfo_amt_cutoff: if f.lfo { g2.lfo_amt_cutoff } else { g1.lfo_amt_cutoff },
        drive: if f.drive { g2.drive } else { g1.drive },
        master_vol: g1.master_vol,
    }
}

/// `child` is a uniform crossover of `g1` and `g2` under some flips.
pub open spec fn is_crossover_of<G>(child: PatchGenome<G>, g1: PatchGenome<G>, g2: PatchGenome<G>) -> bool {
    exists|f: CrossoverFlips| child == #[trigger] crossover_spec(g1, g2, f)
}

/// Uniform crossover under the given flips.
pub fn crossover_with<G: Copy>(g1: &PatchGenome<G>, g2: &PatchGenome<G>, f: CrossoverFlips) -> (child: PatchGenome<G>)
    ensures
        child == crossover_spec(*g1, *g2, f),
{
    PatchGenome {
        osc1_idx: if f.osc1_idx { g2.osc1_idx } else { g1.osc1_idx },
        osc2_idx: if f.osc2_idx { g2.osc2_idx } else { g1.osc2_idx },
        detune: if f.detune { g2.detune } else { g1.detune },
        osc_mix: if f.osc_mix { g2.osc_mix } else { g1.osc_mix },
        noise_mix: if f.noise_mix { g2.noise_mix } else { g1.noise_mix },
        attack: if f.envelope { g2.attack } else { g1.attack },
        decay: if f.envelope { g2.decay } else { g1.decay },
        sustain: if f.envelope { g2.sustain } else { g1.sustain },
        release: if f.envelope { g2.release } else { g1.release },
        cutoff: if f.filter { g2.cutoff } else { g1.cutoff },
        resonance: if f.filter { g2.resonance } else { g1.resonance },
        filter_type: if f.filter { g2.filter_type } else { g1.filter_type },
        filter_env_amt: if f.filter { g2.filter_env_amt } else { g1.filter_env_amt },
        lfo_rate: if f.lfo { g2.lfo_rate } else { g1.lfo_rate },
        lfo_amt_pitch: if f.lfo { g2.lfo_amt_pitch } else { g1.lfo_amt_pitch },
        lfo_amt_cutoff: if f.lfo { g2.lfo_amt_cutoff } else { g1.lfo_amt_cutoff },
        drive: if f.drive { g2.drive } else { g1.drive },
        master_vol: g1.master_vol,
    }
}

/// The nine coin flips of a uniform crossover, each fair (one chance in
/// two), drawn in field order. The outcome is random.
pub fn draw_flips(rng: &mut rand::rngs::ThreadRng) -> (f: CrossoverFlips) {
    let osc1_idx = gen_ratio(rng, 1, 2);
    let osc2_idx = gen_ratio(rng, 1, 2);
    let detune = gen_ratio(rng, 1, 2);
    let osc_mix = gen_ratio(rng, 1, 2);
    let noise_mix = gen_ratio(rng, 1, 2);
    let envelope = gen_ratio(rng, 1, 2);
    let filter = gen_ratio(rng, 1, 2);
    let lfo = gen_ratio(rng, 1, 2);
    let drive = gen_ratio(rng, 1, 2);
    CrossoverFlips { osc1_idx, osc2_idx, detune, osc_mix, noise_mix, envelope, filter, lfo, drive }
}

/// Uniform crossover with fair coin flips drawn from `rng`.
pub fn crossover<G: Copy>(g1: &PatchGenome<G>, g2: &PatchGenome<G>, rng: &mut rand::rngs::ThreadRng) -> (child: PatchGenome<G>)
    ensures
        is_crossover_of(child, *g1, *g2),
{
    let f = draw_flips(rng);
    crossover_with(g1, g2, f)
}

/// Crossing a genome with itself gives the same genome back, whatever the
/// flips.
pub proof fn lemma_self_crossover<G>(g: PatchGenome<G>, f: CrossoverFlips)
    ensures
        crossover_spec(g, g, f) == g,
{
}

/// A child of crossover takes every gene from one of its parents, takes each
/// of the envelope, filter and LFO groups whole from one parent, and always
/// takes the master volume from the first parent.
pub proof fn lemma_crossover_inheritance<G>(g1: PatchGenome<G>, g2: PatchGenome<G>, f: CrossoverFlips)
    ensures
        ({
            let c = crossover_spec(g1, g2, f);
            &&& c.osc1_idx == g1.osc1_idx || c.osc1_idx == g2.osc1_idx
            &&& c.osc2_idx == g1.osc2_idx || c.osc2_idx == g2.osc2_idx
            &&& c.detune == g1.detune || c.detune == g2.detune
            &&& c.osc_mix == g1.osc_mix || c.osc_mix == g2.osc_mix
            &&& c.noise_mix == g1.noise_mix || c.noise_mix == g2.noise_mix
            &&& (c.attack, c.decay, c.sustain, c.release) == (g1.attack, g1.decay, g1.sustain, g1.release)
                || (c.attack, c.decay, c.sustain, c.release) == (g2.attack, g2.decay, g2.sustain, g2.release)
            &&& (c.cutoff, c.resonance, c.filter_type, c.filter_env_amt) == (g1.cutoff, g1.resonance, g1.filter_type, g1.filter_env_amt)
                || (c.cutoff, c.resonance, c.filter_type, c.filter_env_amt) == (g2.cutoff, g2.resonance, g2.filter_type, g2.filter_env_amt)
            &&& (c.lfo_rate, c.lfo_amt_pitch, c.lfo_amt_cutoff) == (g1.lfo_rate, g1.lfo_amt_pitch, g1.lfo_amt_cutoff)
                || (c.lfo_rate, c.lfo_amt_pitch, c.lfo_amt_cutoff) == (g2.lfo_rate, g2.lfo_amt_pitch, g2.lfo_amt_cutoff)
            &&& c.drive == g1.drive || c.drive == g2.drive
            &&& c.master_vol == g1.master_vol
        }),
{
}

/// No flip set: a copy of the first parent.
pub open spec fn no_flips() -> CrossoverFlips {
    CrossoverFlips {
        osc1_idx: false,
        osc2_idx: false,
        detune: false,
        osc_mix: false,
        noise_mix: false,
        envelope: false,
        filter: false,
        lfo: false,
        drive: false,
    }
}

/// Every flip set.
pub open spec fn all_flips() -> CrossoverFlips {
    CrossoverFlips {
        osc1_idx: true,
        osc2_idx: true,
        detune: true,
        osc_mix: true,
        noise_mix: true,
        envelope: true,
        filter: true,
        lfo: true,
        drive: true,
    }
}

/// With no flip set the child is the first parent; with every flip set it is
/// the second parent, except for the master volume, which stays the first
/// parent's.
pub proof fn lemma_crossover_extremes<G>(g1: PatchGenome<G>, g2: PatchGenome<G>)
    ensures
        crossover_spec(g1, g2, no_flips()) == g1,
        crossover_spec(g1, g2, all_flips()) == (PatchGenome { master_vol: g1.master_vol, ..g2 }),
{
}

/// Each gene is decided by its own flip (or its group's flip) alone: two
/// crossovers of the same parents whose flips agree on a gene's flip agree
/// on that gene, whatever the other flips are. The master volume depends on
/// no flip.
pub proof fn lemma_crossover_flip_locality<G>(g1: PatchGenome<G>, g2: PatchGenome<G>, f: CrossoverFlips, h: CrossoverFlips)
    ensures
        ({
            let a = crossover_spec(g1, g2, f);
            let b = crossover_spec(g1, g2, h);
            &&& f.osc1_idx == h.osc1_idx ==> a.osc1_idx == b.osc1_idx
            &&& f.osc2_idx == h.osc2_idx ==> a.osc2_idx == b.osc2_idx
            &&& f.detune == h.detune ==> a.detune == b.detune
            &&& f.osc_mix == h.osc_mix ==> a.osc_mix == b.osc_mix
            &&& f.noise_mix == h.noise_mix ==> a.noise_mix == b.noise_mix
            &&& f.envelope == h.envelope ==> (a.attack, a.decay, a.sustain, a.release) == (b.attack, b.decay, b.sustain, b.release)
            &&& f.filter == h.filter ==> (a.cutoff, a.resonance, a.filter_type, a.filter_env_amt) == (b.cutoff, b.resonance, b.filter_type, b.filter_env_amt)
            &&& f.lfo == h.lfo ==> (a.lfo_rate, a.lfo_amt_pitch, a.lfo_amt_cutoff) == (b.lfo_rate, b.lfo_amt_pitch, b.lfo_amt_cutoff)
            &&& f.drive == h.drive ==> a.drive == b.drive
            &&& a.master_vol == b.master_vol
        }),
{
}

/// The elite count is the population size divided by ten, rounded down.
pub proof fn lemma_elite_count_is_tenth(pop_size: int)
    requires
        pop_size >= 0,
    ensures
        10 * elite_count_spec(pop_size) <= pop_size < 10 * (elite_count_spec(pop_size) + 1),
{
}

/// How many of the best individuals pass to the next generation unchanged:
/// the best tenth, rounded down.
pub open spec fn elite_count_spec(pop_size: int) -> int {
    pop_size / 10
}

/// For every non-empty population at least one place is left for a child,
/// and from ten individuals on the best one always survives.
pub proof fn lemma_selection_bounds(pop_size: int)
    requires
        pop_size >= 1,
    ensures
        0 <= elite_count_spec(pop_size) < pop_size,
        pop_size >= 10 ==> elite_count_spec(pop_size) >= 1,
{
}

/// The number of elites kept from a population of `pop_size`.
pub fn elite_count(pop_size: usize) -> (count: usize)
    ensures
        count == elite_count_spec(pop_size as int),
        10 * count <= pop_size < 10 * (count + 1),
{
    pop_size / 10
}

/// Number of individuals that enter each tournament.
pub const TOURNAMENT_SIZE: usize = 2;

/// The winner of a tournament among ranks (best first): the best-ranked
/// entrant, that is the smallest rank.
pub open spec fn tournament_winner_spec(entrants: Seq<usize>) -> usize
    decreases entrants.len(),
{
    if entrants.len() <= 1 {
        entrants[0]
    } else {
        let best_before = tournament_winner_spec(entrants.drop_last());
        if entrants.last() < best_before {
            entrants.last()
        } else {
            best_before
        }
    }
}

/// The winner of a tournament is one of its entrants and is ranked at least
/// as well as every entrant.
pub proof fn lemma_tournament_winner(entrants: Seq<usize>)
    requires
        entrants.len() > 0,
    ensures
        entrants.contains(tournament_winner_spec(entrants)),
        forall|i: int| 0 <= i < entrants.len() ==> tournament_winner_spec(entrants) <= #[trigger] entrants[i],
    decreases entrants.len(),
{
    if entrants.len() > 1 {
        let init = entrants.drop_last();
        lemma_tournament_winner(init);
        let w = tournament_winner_spec(init);
        let k = choose|k: int| 0 <= k < init.len() && init[k] == w;
        assert(entrants[k] == w);
        assert(entrants[entrants.len() - 1] == entrants.last());
        assert forall|i: int| 0 <= i < entrants.len() implies tournament_winner_spec(entrants) <= #[trigger] entrants[i] by {
            if i < init.len() {
                assert(entrants[i] == init[i]);
            }
        }
    } else {
        assert(entrants[0] == tournament_winner_spec(entrants));
    }
}

/// The best-ranked of the given entrants.
pub fn tournament_winner(entrants: &Vec<usize>) -> (winner: usize)
    requires
        entrants@.len() > 0,
    ensures
        winner == tournament_winner_spec(entrants@),
{
    let mut winner = entrants[0];
    let mut i: usize = 1;
    assert(entrants@.take(1).drop_last() =~= Seq::<usize>::empty());
    while i < entrants.len()
        invariant
            1 <= i <= entrants@.len(),
            winner == tournament_winner_spec(entrants@.take(i as int)),
        decreases entrants@.len() - i,
    {
        assert(entrants@.take(i as int + 1).drop_last() =~= entrants@.take(i as int));
        if entrants[i] < winner {
            winner = entrants[i];
        }
        i = i + 1;
    }
    assert(entrants@.take(entrants@.len() as int) =~= entrants@);
    winner
}

/// Tournament selection over a ranked population of `pop_size`:
/// `TOURNAMENT_SIZE` ranks drawn uniformly from the whole population, the
/// best-ranked of them wins. The draws are random; the winner is a rank of
/// the population.
pub fn tournament(rng: &mut rand::rngs::ThreadRng, pop_size: usize) -> (winner: usize)
    requires
        pop_size > 0,
    ensures
        winner < pop_size,
{
    let mut entrants: Vec<usize> = Vec::new();
    while entrants.len() < TOURNAMENT_SIZE
        invariant
            pop_size > 0,
            entrants@.len() <= TOURNAMENT_SIZE,
            forall|i: int| 0 <= i < entrants@.len() ==> #[trigger] entrants@[i] < pop_size,
        decreases TOURNAMENT_SIZE - entrants@.len(),
    {
        let rank = sample_index(rng, pop_size);
        entrants.push(rank);
    }
    let winner = tournament_winner(&entrants);
    proof {
        lemma_tournament_winner(entrants@);
    }
    winner
}

/// How one child is bred: its two parents, as ranks, and the crossover flips.
#[derive(Clone, Copy, Debug)]
pub struct BreedingPick {
    pub parent1: usize,
    pub parent2: usize,
    pub flips: CrossoverFlips,
}

/// Every parent of the picks is a rank of a population of `pop_size`.
pub open spec fn picks_in_range(pop_size: int, picks: Seq<BreedingPick>) -> bool {
    forall|k: int| 0 <= k < picks.len() ==> (#[trigger] picks[k]).parent1 < pop_size && picks[k].parent2 < pop_size
}

/// The child a pick breeds from a ranked population.
pub open spec fn child_of<G>(ranked: Seq<PatchGenome<G>>, pick: BreedingPick) -> PatchGenome<G> {
    crossover_spec(ranked[pick.parent1 as int], ranked[pick.parent2 as int], pick.flips)
}

/// The next generation: the elites as they are, then one child per pick.
pub open spec fn breed_spec<G>(ranked: Seq<PatchGenome<G>>, picks: Seq<BreedingPick>) -> Seq<PatchGenome<G>> {
    ranked.take(elite_count_spec(ranked.len() as int)) + Seq::new(picks.len(), |k: int| child_of(ranked, picks[k]))
}

/// Keeps the elites of a population ranked best first and appends the child
/// of each pick.
pub fn breed<G: Copy>(ranked: &Vec<PatchGenome<G>>, picks: &Vec<BreedingPick>) -> (next: Vec<PatchGenome<G>>)
    requires
        picks_in_range(ranked@.len() as int, picks@),
    ensures
        next@ == breed_spec(ranked@, picks@),
{
    let n = ranked.len();
    let keep = elite_count(n);
    let mut next: Vec<PatchGenome<G>> = Vec::new();
    let mut i: usize = 0;
    while i < keep
        invariant
            n == ranked@.len(),
            keep == elite_count_spec(n as int),
            keep <= n,
            i <= keep,
            next@ == ranked@.take(i as int),
        decreases keep - i,
    {
        next.push(ranked[i]);
        assert(ranked@.take(i as int + 1) =~= ranked@.take(i as int).push(ranked@[i as int]));
        i = i + 1;
    }
    let mut k: usize = 0;
    while k < picks.len()
        invariant
            n == ranked@.len(),
            keep == elite_count_spec(n as int),
            picks_in_range(n as int, picks@),
            k <= picks@.len(),
            next@ == ranked@.take(keep as int) + Seq::new(k as nat, |j: int| child_of(ranked@, picks@[j])),
        decreases picks@.len() - k,
    {
        let pick = picks[k];
        assert(picks_in_range(n as int, picks@) ==> pick.parent1 < n && pick.parent2 < n);
        let child = crossover_with(&ranked[pick.parent1], &ranked[pick.parent2], pick.flips);
        next.push(child);
        assert(ranked@.take(keep as int) + Seq::new(k as nat + 1, |j: int| child_of(ranked@, picks@[j]))
            =~= (ranked@.take(keep as int) + Seq::new(k as nat, |j: int| child_of(ranked@, picks@[j]))).push(child));
        k = k + 1;
    }
    assert(Seq::new(k as nat, |j: int| child_of(ranked@, picks@[j])) =~= Seq::new(picks@.len(), |j: int| child_of(ranked@, picks@[j])));
    next
}

/// The genomes of the next generation, bred from a population ranked best
/// first.
///
/// The first tenth (rounded down) of `ranked` is kept as it is; every other
/// place gets the uniform crossover of two parents, each chosen by its own
/// tournament over the whole population. The children are not yet mutated.
pub fn next_generation<G: Copy>(ranked: &Vec<PatchGenome<G>>, rng: &mut rand::rngs::ThreadRng) -> (next: Vec<PatchGenome<G>>)
    ensures
        next@.len() == ranked@.len(),
        forall|i: int| 0 <= i < elite_count_spec(ranked@.len() as int) ==> next@[i] == ranked@[i],
        exists|picks: Seq<BreedingPick>|
            picks_in_range(ranked@.len() as int, picks) && #[trigger] breed_spec(ranked@, picks) == next@,
{
    let n = ranked.len();
    let keep = elite_count(n);
    let mut picks: Vec<BreedingPick> = Vec::new();
    while picks.len() < n - keep
        invariant
            n == ranked@.len(),
            keep == elite_count_spec(n as int),
            keep <= n,
            picks@.len() <= n - keep,
            picks_in_range(n as int, picks@),
        decreases n - keep - picks@.len(),
    {
        let parent1 = tournament(rng, n);
        let parent2 = tournament(rng, n);
        let flips = draw_flips(rng);
        picks.push(BreedingPick { parent1, parent2, flips });
    }
    let next = breed(ranked, &picks);
    assert(breed_spec(ranked@, picks@) == next@);
    next
}

/// Whether the trainer saves the best patch after generation `generation`:
/// every `interval` generations, starting with the first.
pub fn is_save_generation(generation: usize, interval: usize) -> (save: bool)
    requires
        interval > 0,
    ensures
        save == (generation % interval == 0),
{
    generation % interval == 0
}

} // verus!
