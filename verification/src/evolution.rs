//! The parts of the evolution loop that work on whole numbers: the
//! distance between genomes, the assignment of species, and seeded
//! mutation. Random numbers come from rand_chacha's ChaCha8: a seed
//! names a stream of 32-bit words, and a source reads it word by word.

use vstd::prelude::*;
use rand::{RngCore, SeedableRng};
use rand_chacha::ChaCha8Rng;
use crate::genome::{Genome, GenomeView};
use crate::mutations::{mutate, mutated_through, DrawSource};

verus! {

/// Word `at` of the stream that rand_chacha's ChaCha generator with
/// eight rounds yields when it is seeded with `seed`.
pub uninterp spec fn chacha_word(seed: u64, at: u128) -> u32;

/// `SeedableRng::seed_from_u64` for `ChaCha8Rng`, then
/// `ChaCha8Rng::set_word_pos` and `RngCore::next_u32`: the generator of
/// `seed` is set to the place `at` of its stream, counted in 32-bit
/// words, and yields the word there. The word depends on the seed and
/// on the place alone.
#[verifier::external_body]
fn chacha_word_at(seed: u64, at: u128) -> (r: u32)
    ensures
        r == chacha_word(seed, at),
{
    let mut rng = ChaCha8Rng::seed_from_u64(seed);
    rng.set_word_pos(at);
    rng.next_u32()
}

/// The place behind `at` in a stream. A stream is counted round.
pub open spec fn place_after(at: u128) -> u128 {
    if at == u128::MAX {
        0
    } else {
        (at + 1) as u128
    }
}

/// The 64 bits that two words of a stream make: the word at `at` is
/// the lower half, the word behind it the upper half.
pub open spec fn chacha_pair(seed: u64, at: u128) -> u64 {
    ((chacha_word(seed, place_after(at)) as u64) << 32) | (chacha_word(seed, at) as u64)
}

/// A source of random numbers that reads the ChaCha8 stream of a seed
/// word by word: it holds the seed and the place of the next word.
#[derive(Debug, Clone, Copy, PartialEq, Eq)]
pub struct ChaChaDraws {
    pub seed: u64,
    pub at: u128,
}

/// Computes [`place_after`].
fn next_place(at: u128) -> (r: u128)
    ensures
        r == place_after(at),
{
    if at == u128::MAX {
        0
    } else {
        at + 1
    }
}

impl ChaChaDraws {
    /// The source that stands at the start of the stream of `seed`.
    pub fn from_seed(seed: u64) -> (d: ChaChaDraws)
        ensures
            d.seed == seed,
            d.at == 0,
    {
        ChaChaDraws { seed, at: 0 }
    }
}

impl DrawSource for ChaChaDraws {
    /// The next word of the stream; the source moves on by one word.
    fn next_u32(&mut self) -> (r: u32)
        ensures
            r == chacha_word(old(self).seed, old(self).at),
            final(self).seed == old(self).seed,
            final(self).at == place_after(old(self).at),
    {
        let r: u32 = chacha_word_at(self.seed, self.at);
        self.at = next_place(self.at);
        r
    }

    /// The next two words of the stream as 64 bits, the first word in
    /// the lower half; the source moves on by two words.
    fn next_u64(&mut self) -> (r: u64)
        ensures
            r == chacha_pair(old(self).seed, old(self).at),
            final(self).seed == old(self).seed,
            final(self).at == place_after(place_after(old(self).at)),
    {
        let low: u32 = chacha_word_at(self.seed, self.at);
        let behind: u128 = next_place(self.at);
        let high: u32 = chacha_word_at(self.seed, behind);
        self.at = next_place(behind);
        ((high as u64) << 32) | (low as u64)
    }
}

/// The connections of the first `k` chunks, counted.
pub open spec fn conns_before(g: GenomeView, k: int) -> int
    decreases k,
{
    if k <= 0 {
        0
    } else {
        conns_before(g, k - 1) + g.chunks[k - 1].conns.len()
    }
}

/// The distance between two numbers.
pub open spec fn gap(x: int, y: int) -> int {
    if x >= y {
        x - y
    } else {
        y - x
    }
}

/// The distance between two genomes: by how many chunks they differ,
/// plus by how many connections.
pub open spec fn distance(a: GenomeView, b: GenomeView) -> int {
    gap(a.chunks.len() as int, b.chunks.len() as int) + gap(
        conns_before(a, a.chunks.len() as int),
        conns_before(b, b.chunks.len() as int),
    )
}

/// Counts the connections of a genome, up to the largest `u64`.
fn count_conns(g: &Genome) -> (n: u64)
    ensures
        n == crate::wave::capped(conns_before(g@, g@.chunks.len() as int)),
{
    let count: usize = g.chunks.len();
    let mut n: u64 = 0;
    let mut i: usize = 0;
    while i < count
        invariant
            i <= count,
            count == g@.chunks.len(),
            count == g.chunks@.len(),
            conns_before(g@, i as int) >= 0,
            n == crate::wave::capped(conns_before(g@, i as int)),
        decreases count - i,
    {
        n = n.saturating_add(g.chunks[i].conns.len() as u64);
        i = i + 1;
    }
    n
}

/// The distance between two genomes, counted up to the largest `u64`.
pub fn genome_distance(a: &Genome, b: &Genome) -> (d: u64)
    ensures
        conns_before(a@, a@.chunks.len() as int) <= u64::MAX && conns_before(
            b@,
            b@.chunks.len() as int,
        ) <= u64::MAX ==> d == crate::wave::capped(distance(a@, b@)),
{
    proof {
        lemma_conns_nonnegative(a@, a@.chunks.len() as int);
        lemma_conns_nonnegative(b@, b@.chunks.len() as int);
    }
    let ca: u64 = a.chunks.len() as u64;
    let cb: u64 = b.chunks.len() as u64;
    let dc: u64 = if ca >= cb { ca - cb } else { cb - ca };
    let na: u64 = count_conns(a);
    let nb: u64 = count_conns(b);
    let dn: u64 = if na >= nb { na - nb } else { nb - na };
    dc.saturating_add(dn)
}

/// Counts are never negative.
pub proof fn lemma_conns_nonnegative(g: GenomeView, k: int)
    ensures
        conns_before(g, k) >= 0,
    decreases k,
{
    if k > 0 {
        lemma_conns_nonnegative(g, k - 1);
    }
}

/// The species of the first `k` genomes and their representatives.
/// Every genome joins the first species whose representative is within
/// `threshold` of it; a genome that joins none founds a new species and
/// represents it.
pub open spec fn species_of(genomes: Seq<GenomeView>, threshold: u64, k: int) -> (
    Seq<int>,
    Seq<int>,
)
    decreases k,
{
    if k <= 0 {
        (Seq::empty(), Seq::empty())
    } else {
        let before = species_of(genomes, threshold, k - 1);
        let found = first_within(genomes, before.1, genomes[k - 1], threshold, 0);
        if found < before.1.len() {
            (before.0.push(found), before.1)
        } else {
            (before.0.push(before.1.len() as int), before.1.push(k - 1))
        }
    }
}

/// The first species from `from` on whose representative is within
/// `threshold` of `g`, or the number of species if there is none.
/// Distances count up to the largest `u64`.
pub open spec fn first_within(
    genomes: Seq<GenomeView>,
    reps: Seq<int>,
    g: GenomeView,
    threshold: u64,
    from: int,
) -> int
    decreases reps.len() - from,
{
    if from < 0 || from >= reps.len() {
        reps.len() as int
    } else if crate::wave::capped(distance(g, genomes[reps[from]])) <= threshold {
        from
    } else {
        first_within(genomes, reps, g, threshold, from + 1)
    }
}

/// Every genome has fewer connections than a `u64` counts.
pub open spec fn countable(genomes: Seq<Genome>) -> bool {
    forall|i: int|
        0 <= i < genomes.len() ==> conns_before(
            (#[trigger] genomes[i])@,
            genomes[i]@.chunks.len() as int,
        ) <= u64::MAX
}

/// The views of a sequence of genomes.
pub open spec fn genome_views(v: Seq<Genome>) -> Seq<GenomeView> {
    Seq::new(v.len(), |i: int| v[i]@)
}

/// Indices as mathematical integers.
pub open spec fn as_ints(v: Seq<usize>) -> Seq<int> {
    Seq::new(v.len(), |i: int| v[i] as int)
}

/// Assigns every genome its species, as [`species_of`] says. Without
/// a threshold all genomes are of species 0.
pub fn speciate(genomes: &Vec<Genome>, threshold: Option<u64>) -> (species: Vec<usize>)
    requires
        countable(genomes@),
    ensures
        species@.len() == genomes@.len(),
        match threshold {
            Some(t) => as_ints(species@) == species_of(
                genome_views(genomes@),
                t,
                genomes@.len() as int,
            ).0,
            None => forall|i: int| 0 <= i < genomes@.len() ==> (#[trigger] species@[i]) == 0,
        },
{
    let n: usize = genomes.len();
    let mut species: Vec<usize> = Vec::new();
    let t: u64 = match threshold {
        Some(t) => t,
        None => {
            let mut i: usize = 0;
            while i < n
                invariant
                    i <= n,
                    species@.len() == i,
                    forall|k: int| 0 <= k < i ==> (#[trigger] species@[k]) == 0,
                decreases n - i,
            {
                species.push(0);
                i = i + 1;
            }
            return species;
        },
    };
    let ghost views = genome_views(genomes@);
    let mut reps: Vec<usize> = Vec::new();
    let mut i: usize = 0;
    proof {
        assert(as_ints(species@) =~= Seq::<int>::empty());
        assert(as_ints(reps@) =~= Seq::<int>::empty());
    }
    while i < n
        invariant
            i <= n,
            n == genomes@.len(),
            countable(genomes@),
            views == genome_views(genomes@),
            species@.len() == i,
            as_ints(species@) == species_of(views, t, i as int).0,
            as_ints(reps@) == species_of(views, t, i as int).1,
            forall|k: int| 0 <= k < reps@.len() ==> (#[trigger] reps@[k]) < i,
        decreases n - i,
    {
        let ghost before = species_of(views, t, i as int);
        let count: usize = reps.len();
        let mut s: usize = 0;
        let mut found: bool = false;
        while s < count && !found
            invariant
                s <= count,
                count == reps@.len(),
                i < n,
                n == genomes@.len(),
                countable(genomes@),
                views == genome_views(genomes@),
                as_ints(reps@) == before.1,
                forall|k: int| 0 <= k < reps@.len() ==> (#[trigger] reps@[k]) < i,
                found ==> s < count && crate::wave::capped(
                    distance(views[i as int], views[before.1[s as int]]),
                ) <= t,
                first_within(views, before.1, views[i as int], t, 0) == first_within(
                    views,
                    before.1,
                    views[i as int],
                    t,
                    s as int,
                ),
            decreases count - s + (if found { 0int } else { 1int }),
        {
            proof {
                assert(before.1[s as int] == reps@[s as int]);
                assert(views[i as int] == genomes@[i as int]@);
                assert(views[reps@[s as int] as int] == genomes@[reps@[s as int] as int]@);
                let x = genomes@[i as int];
                let y = genomes@[reps@[s as int] as int];
                assert(conns_before(x@, x@.chunks.len() as int) <= u64::MAX);
                assert(conns_before(y@, y@.chunks.len() as int) <= u64::MAX);
                lemma_conns_nonnegative(x@, x@.chunks.len() as int);
                lemma_conns_nonnegative(y@, y@.chunks.len() as int);
            }
            if genome_distance(&genomes[i], &genomes[reps[s]]) <= t {
                found = true;
            } else {
                s = s + 1;
            }
        }
        proof {
            assert(before.1.len() == count);
            assert(first_within(views, before.1, views[i as int], t, s as int) == s);
        }
        let ghost done = species@;
        let ghost done_reps = reps@;
        species.push(s);
        if s == count {
            reps.push(i);
        }
        proof {
            assert(as_ints(species@) =~= as_ints(done).push(s as int));
            if s == count {
                assert(as_ints(reps@) =~= as_ints(done_reps).push(i as int));
            }
        }
        i = i + 1;
    }
    species
}

/// `after` is what the twelve operators in turn can make of `before`,
/// under some draws.
pub open spec fn mutated(before: GenomeView, after: GenomeView) -> bool {
    exists|path: Seq<GenomeView>, draws: Seq<u64>|
        #[trigger] mutated_through(path, draws) && draws.len() == 12 && path[0] == before
            && path[12] == after
}

/// Stamps `seed` on the genome and mutates it with the generator that
/// `seed` starts. The genome ends valid, or as it was but for the seed.
pub fn mutate_seeded(genome: &mut Genome, seed: u64)
    ensures
        mutated((GenomeView { seed, ..old(genome)@ }), final(genome)@),
        final(genome)@.seed == seed,
        final(genome)@.tag == old(genome)@.tag,
        final(genome)@ == (GenomeView { seed, ..old(genome)@ }) || final(genome)@.defect() is None,
{
    genome.meta.seed = seed;
    let mut draws = ChaChaDraws::from_seed(seed);
    mutate(genome, &mut draws);
}

/// `g` is what [`mutate_seeded`] can make of `base` under the seed
/// that it carries: valid, or `base` but for the seed; under `base`'s
/// tag either way.
pub open spec fn founded(g: GenomeView, base: GenomeView) -> bool {
    &&& mutated((GenomeView { seed: g.seed, ..base }), g)
    &&& g == (GenomeView { seed: g.seed, ..base }) || g.defect() is None
    &&& g.tag == base.tag
}

/// The first generation: `pop_size` copies of `base`, each stamped
/// with a seed drawn from `rng` and mutated with the generator that the
/// seed starts.
pub fn init_population<R: DrawSource>(base: &Genome, pop_size: usize, rng: &mut R) -> (population:
    Vec<Genome>)
    ensures
        population@.len() == pop_size,
        forall|i: int| 0 <= i < pop_size ==> founded((#[trigger] population@[i])@, base@),
{
    let mut population: Vec<Genome> = Vec::new();
    let mut i: usize = 0;
    while i < pop_size
        invariant
            i <= pop_size,
            population@.len() == i,
            forall|k: int| 0 <= k < i ==> founded((#[trigger] population@[k])@, base@),
        decreases pop_size - i,
    {
        let mut g: Genome = base.duplicate();
        let seed: u64 = rng.next_u64();
        mutate_seeded(&mut g, seed);
        population.push(g);
        i = i + 1;
    }
    population
}

} // verus!
