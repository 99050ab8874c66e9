//! The engine: a population of chunks joined by links, driven tick by
//! tick.
//!
//! All input bits of the population lie in one bit vector, chunk after
//! chunk, and so do all output bits. A tick runs every chunk on its
//! window of the inputs. Then one round over the links carries the
//! edges that the outputs showed to the inputs they are linked to, where
//! the next tick finds them: a link delays by one tick.

use vstd::prelude::*;
use vstd::string::*;
use crate::chunk::{
    lemma_well_formed_runnable, parse_chunk, validate_chunk, Action, ChunkView, Error, MycosChunk,
};
use crate::cpu_ref::{act, set_bit_action};
use crate::csr::CSR;
use crate::layout::{
    bit_of_words, lemma_packing_unique, packs_words, word_bit_at, word_len, words_for,
};
use crate::link::{
    build_link_csr, compute_base_offsets, inputs_before, internals_before, lemma_bases_bounded,
    lemma_bases_grow, link_wires, outputs_before, parse_links, population_fits, validate_links,
    ChunkOffsets, Link, LinkError,
};
use crate::policy::{ExecutionResult, Policy};
use crate::scheduler::{
    lemma_grouped_serves, lemma_tick_deterministic, same_report, same_state, ticked, Scheduler,
    Termination,
};
use crate::wave::{
    changed, copy_words, fallen, next_wave, risen, run_round, wave_of, Frontier, Wave,
};

verus! {

/// The `count` bits of `words` from bit `base` on.
pub open spec fn window(words: Seq<u32>, base: int, count: int) -> Seq<bool> {
    Seq::new(count as nat, |b: int| bit_of_words(words, base + b))
}

/// `after` is `before` with the `count` bits from `base` on replaced by
/// the first `count` bits of `local`.
pub open spec fn implanted(
    before: Seq<u32>,
    after: Seq<u32>,
    base: int,
    count: int,
    local: Seq<u32>,
) -> bool {
    &&& after.len() == before.len()
    &&& forall|g: int|
        0 <= g < 32 * before.len() ==> bit_of_words(after, g) == (if base <= g < base + count {
            bit_of_words(local, g - base)
        } else {
            bit_of_words(before, g)
        })
}

/// A vector of `n` zero words.
fn zero_words(n: usize) -> (v: Vec<u32>)
    ensures
        v@ == Seq::new(n as nat, |i: int| 0u32),
{
    let mut v: Vec<u32> = Vec::new();
    let mut i: usize = 0;
    while i < n
        invariant
            i <= n,
            v@.len() == i,
            forall|j: int| 0 <= j < i ==> v@[j] == 0,
        decreases n - i,
    {
        v.push(0u32);
        i = i + 1;
    }
    assert(v@ =~= Seq::new(n as nat, |i: int| 0u32));
    v
}

/// Cuts the `count` bits from `base` on out of `words`, packed from
/// bit 0.
pub fn extract_bits(words: &Vec<u32>, base: u32, count: u32) -> (out: Vec<u32>)
    requires
        base + count <= u32::MAX,
        words@.len() >= words_for(base + count),
    ensures
        packs_words(out@, window(words@, base as int, count as int)),
{
    let mut out: Vec<u32> = zero_words(word_len(count));
    proof {
        assert forall|i: int| 0 <= i < 32 * out@.len() implies !bit_of_words(out@, i) by {
            crate::layout::lemma_word_bit_ops(0, 0, (i % 32) as u32);
        }
    }
    let mut b: u32 = 0;
    while b < count
        invariant
            b <= count,
            base + count <= u32::MAX,
            words@.len() >= words_for(base + count),
            out@.len() == words_for(count as int),
            forall|i: int| 0 <= i < b ==> bit_of_words(out@, i) == bit_of_words(words@, base + i),
            forall|i: int| b <= i < 32 * out@.len() ==> !bit_of_words(out@, i),
        decreases count - b,
    {
        if word_bit_at(words.as_slice(), base + b) {
            set_bit_action(&mut out, b, Action::Enable);
        }
        b = b + 1;
    }
    out
}

/// Writes the first `count` bits of `local` over the bits of `words`
/// from `base` on. No other bit changes.
pub fn implant_bits(words: &mut Vec<u32>, base: u32, count: u32, local: &Vec<u32>)
    requires
        base + count <= u32::MAX,
        old(words)@.len() >= words_for(base + count),
        local@.len() >= words_for(count as int),
    ensures
        implanted(old(words)@, final(words)@, base as int, count as int, local@),
{
    let mut b: u32 = 0;
    while b < count
        invariant
            b <= count,
            base + count <= u32::MAX,
            words@.len() == old(words)@.len(),
            words@.len() >= words_for(base + count),
            local@.len() >= words_for(count as int),
            forall|g: int|
                0 <= g < 32 * words@.len() ==> bit_of_words(words@, g) == (if base <= g < base + b {
                    bit_of_words(local@, g - base)
                } else {
                    bit_of_words(old(words)@, g)
                }),
        decreases count - b,
    {
        let v: bool = word_bit_at(local.as_slice(), b);
        set_bit_action(words, base + b, if v { Action::Enable } else { Action::Disable });
        b = b + 1;
    }
}


/// The slots of the cycle detector of every chunk.
pub const WINDOW: usize = 16;

/// The effect budget of every chunk in one tick.
pub const EFFECT_BUDGET: u64 = 5_000_000;

/// What a tick of the engine did: the most rounds that any chunk ran,
/// and the effects applied in all chunks and over all links, counted up
/// to the largest `u32`.
#[derive(Debug, Clone, Copy, PartialEq, Eq, Structural)]
pub struct Metrics {
    pub rounds: u32,
    pub effects: u32,
}

impl Metrics {
    /// The most rounds that any chunk ran in the tick.
    pub fn rounds(&self) -> (r: u32)
        ensures
            r == self.rounds,
    {
        self.rounds
    }

    /// The effects applied in the tick.
    pub fn effects(&self) -> (r: u32)
        ensures
            r == self.effects,
    {
        self.effects
    }
}

/// Why the engine turned a load down.
#[derive(Debug, Clone, Copy, PartialEq, Eq, Structural)]
pub enum EngineError {
    /// Chunk `index` did not parse or did not validate.
    Chunk { index: usize, error: Error },
    /// The links did not parse or did not validate.
    Links(LinkError),
    /// The population has more bits or links than 32 bits can address.
    TooLarge,
}

/// The engine's state: the chunks as loaded, their schedulers and base
/// offsets, the links and their adjacency, all input bits and all output
/// bits of the population, and the policy.
pub struct MycosHandle {
    pub chunks: Vec<MycosChunk>,
    pub schedulers: Vec<Scheduler>,
    pub bases: Vec<ChunkOffsets>,
    pub links: Vec<Link>,
    pub link_csr: CSR,
    pub inputs: Vec<u32>,
    pub outputs: Vec<u32>,
    pub policy: Policy,
}

/// The `count` bits of `global` from `base` on are the first `count`
/// bits of `local`.
pub open spec fn mirrors(global: Seq<u32>, base: int, count: int, local: Seq<u32>) -> bool {
    forall|b: int| 0 <= b < count ==> bit_of_words(global, base + b) == bit_of_words(local, b)
}

/// The round limit of a chunk when the caller names none: twice its
/// internal bits plus two, or the largest `u32` if that is less.
pub open spec fn default_rounds(nn: u32) -> u32 {
    if 2 * nn + 2 > u32::MAX {
        u32::MAX
    } else {
        (2 * nn + 2) as u32
    }
}

/// The round limit that a tick gives a chunk.
pub open spec fn round_limit(max_rounds: Option<u32>, nn: u32) -> u32 {
    match max_rounds {
        Some(m) => m,
        None => default_rounds(nn),
    }
}

/// The most rounds among the first `k` reports.
pub open spec fn most_rounds(reports: Seq<(ExecutionResult, Termination)>, k: int) -> u32
    decreases k,
{
    if k <= 0 {
        0
    } else {
        let before = most_rounds(reports, k - 1);
        if reports[k - 1].0.rounds > before {
            reports[k - 1].0.rounds
        } else {
            before
        }
    }
}

/// The effects of the first `k` reports, added up.
pub open spec fn sum_effects(reports: Seq<(ExecutionResult, Termination)>, k: int) -> int
    decreases k,
{
    if k <= 0 {
        0
    } else {
        sum_effects(reports, k - 1) + reports[k - 1].0.effects_applied
    }
}

/// A count that stops at the largest `u32`.
pub open spec fn capped32(n: int) -> u32 {
    if n > u32::MAX {
        u32::MAX
    } else {
        n as u32
    }
}

impl MycosHandle {
    /// All input bits of the population.
    pub open spec fn inputs_total(&self) -> int {
        inputs_before(self.chunks@, self.chunks@.len() as int)
    }

    /// All output bits of the population.
    pub open spec fn outputs_total(&self) -> int {
        outputs_before(self.chunks@, self.chunks@.len() as int)
    }

    /// Scheduler `c` is fit for its chunk and placed at its base.
    pub open spec fn placed(&self, c: int) -> bool {
        &&& self.schedulers@[c].well_formed()
        &&& self.schedulers@[c].ni == self.chunks@[c].input_count
        &&& self.schedulers@[c].no == self.chunks@[c].output_count
        &&& self.schedulers@[c].nn == self.chunks@[c].internal_count
        &&& self.schedulers@[c].policy == self.policy
        &&& self.bases@[c].input == inputs_before(self.chunks@, c)
        &&& self.bases@[c].output == outputs_before(self.chunks@, c)
        &&& mirrors(
            self.outputs@,
            outputs_before(self.chunks@, c),
            self.chunks@[c].output_count as int,
            self.schedulers@[c].outputs@,
        )
    }

    /// The engine's invariant: one scheduler and one base per chunk,
    /// each placed; a population that 32 bits can address; a link
    /// adjacency from its outputs to its inputs; and input and output
    /// vectors of the population's size.
    pub open spec fn well_formed(&self) -> bool {
        &&& self.schedulers@.len() == self.chunks@.len()
        &&& self.bases@.len() == self.chunks@.len()
        &&& population_fits(self.chunks@)
        &&& forall|c: int| 0 <= c < self.chunks@.len() ==> #[trigger] self.placed(c)
        &&& self.link_csr.serves(self.outputs_total(), self.inputs_total() as u32, 0)
        &&& self.inputs@.len() == words_for(self.inputs_total())
        &&& self.outputs@.len() == words_for(self.outputs_total())
        &&& self.outputs_total() < usize::MAX
    }

    /// The link round of a tick: the edges that the outputs showed, and
    /// the inputs they act on.
    pub open spec fn link_wave(&self, outputs_after: Seq<u32>) -> Wave {
        Wave {
            internal: Seq::empty(),
            output: self.inputs@,
            on: crate::wave::risen(self.outputs@, outputs_after, 0, self.outputs_total()),
            off: crate::wave::fallen(self.outputs@, outputs_after, 0, self.outputs_total()),
            toggle: crate::wave::changed(self.outputs@, outputs_after, 0, self.outputs_total()),
        }
    }
}


/// Computes [`default_rounds`].
fn default_round_limit(nn: u32) -> (r: u32)
    ensures
        r == default_rounds(nn),
{
    if nn > (u32::MAX - 2) / 2 {
        u32::MAX
    } else {
        2 * nn + 2
    }
}

impl MycosHandle {
    /// Everything but the schedulers and the two bit vectors is as in
    /// `other`.
    pub open spec fn same_population(&self, other: &MycosHandle) -> bool {
        &&& self.chunks == other.chunks
        &&& self.bases == other.bases
        &&& self.links == other.links
        &&& self.link_csr == other.link_csr
        &&& self.policy == other.policy
        &&& self.schedulers@.len() == other.schedulers@.len()
    }

    /// Ticks chunk `c` on its window of the inputs and writes its
    /// outputs to the population's.
    fn tick_chunk(&mut self, c: usize, max_rounds: Option<u32>) -> (r: (
        ExecutionResult,
        Termination,
    ))
        requires
            old(self).well_formed(),
            c < old(self).chunks@.len(),
        ensures
            final(self).well_formed(),
            final(self).same_population(old(self)),
            final(self).inputs == old(self).inputs,
            ticked(
                &old(self).schedulers@[c as int],
                &final(self).schedulers@[c as int],
                final(self).schedulers@[c as int].inputs@,
                round_limit(max_rounds, old(self).chunks@[c as int].internal_count),
                EFFECT_BUDGET,
                WINDOW,
                r.0,
                r.1,
            ),
            packs_words(
                final(self).schedulers@[c as int].inputs@,
                window(
                    old(self).inputs@,
                    inputs_before(old(self).chunks@, c as int),
                    old(self).chunks@[c as int].input_count as int,
                ),
            ),
            forall|k: int|
                0 <= k < old(self).chunks@.len() && k != c ==> final(self).schedulers@[k] == old(self).schedulers@[k],
            implanted(
                old(self).outputs@,
                final(self).outputs@,
                outputs_before(old(self).chunks@, c as int),
                old(self).chunks@[c as int].output_count as int,
                r.0.outputs@,
            ),
    {
        proof {
            assert(self.placed(c as int));
            lemma_bases_bounded(self.chunks@, c as int);
        }
        let base: ChunkOffsets = self.bases[c];
        let ni: u32 = self.schedulers[c].ni;
        let no: u32 = self.schedulers[c].no;
        let nn: u32 = self.schedulers[c].nn;
        let local: Vec<u32> = extract_bits(&self.inputs, base.input, ni);
        let limit: u32 = match max_rounds {
            Some(m) => m,
            None => default_round_limit(nn),
        };
        let r = self.schedulers[c].tick(&local, limit, EFFECT_BUDGET, WINDOW);
        implant_bits(&mut self.outputs, base.output, no, &r.0.outputs);
        proof {
            assert forall|k: int| 0 <= k < self.chunks@.len() implies #[trigger] self.placed(k) by {
                assert(old(self).placed(k));
                if k != c {
                    lemma_bases_bounded(self.chunks@, k);
                    if k < c {
                        lemma_bases_grow(self.chunks@, k + 1, c as int);
                    } else {
                        lemma_bases_grow(self.chunks@, c + 1, k);
                    }
                }
            }
        }
        r
    }
}


/// What a tick makes of the engine `pre`: every chunk is ticked on its
/// window of the inputs, as `reports` tell; then one round over the
/// links carries the edges that the population's outputs showed to the
/// inputs, and applies `link_effects` effects there.
pub open spec fn advanced(
    pre: &MycosHandle,
    post: &MycosHandle,
    max_rounds: Option<u32>,
    reports: Seq<(ExecutionResult, Termination)>,
    link_effects: u64,
) -> bool {
    &&& post.well_formed()
    &&& post.same_population(pre)
    &&& reports.len() == pre.chunks@.len()
    &&& forall|c: int|
        0 <= c < pre.chunks@.len() ==> ticked(
            &pre.schedulers@[c],
            &post.schedulers@[c],
            post.schedulers@[c].inputs@,
            round_limit(max_rounds, pre.chunks@[c].internal_count),
            EFFECT_BUDGET,
            WINDOW,
            (#[trigger] reports[c]).0,
            reports[c].1,
        ) && packs_words(
            post.schedulers@[c].inputs@,
            window(
                pre.inputs@,
                inputs_before(pre.chunks@, c),
                pre.chunks@[c].input_count as int,
            ),
        )
    &&& post.inputs@ == next_wave(
        &pre.link_csr,
        pre.outputs_total() as u32,
        0,
        pre.link_wave(post.outputs@),
    ).output
    &&& link_effects == crate::wave::capped(
        crate::wave::staged(&pre.link_csr, pre.link_wave(post.outputs@)).len() as int,
    )
}

/// The metrics of a tick: the most rounds of any chunk, and all
/// effects, those over the links included.
pub open spec fn metrics_of(reports: Seq<(ExecutionResult, Termination)>, link_effects: u64) -> Metrics {
    Metrics {
        rounds: most_rounds(reports, reports.len() as int),
        effects: capped32(sum_effects(reports, reports.len() as int) + link_effects),
    }
}

impl MycosHandle {
    /// The population's output total as a machine integer.
    fn count_outputs(&self) -> (r: u32)
        requires
            self.well_formed(),
        ensures
            r == self.outputs_total(),
    {
        let n: usize = self.chunks.len();
        proof {
            lemma_bases_grow(self.chunks@, 0, n as int);
        }
        if n == 0 {
            0
        } else {
            proof {
                assert(self.placed(n - 1));
                lemma_bases_bounded(self.chunks@, n - 1);
            }
            self.bases[n - 1].output + self.chunks[n - 1].output_count
        }
    }

    /// The population's input total as a machine integer.
    fn count_inputs(&self) -> (r: u32)
        requires
            self.well_formed(),
        ensures
            r == self.inputs_total(),
    {
        let n: usize = self.chunks.len();
        proof {
            lemma_bases_grow(self.chunks@, 0, n as int);
        }
        if n == 0 {
            0
        } else {
            proof {
                assert(self.placed(n - 1));
                lemma_bases_bounded(self.chunks@, n - 1);
            }
            self.bases[n - 1].input + self.chunks[n - 1].input_count
        }
    }

    /// Carries the edges that the outputs showed since `before` over
    /// the links to the inputs.
    fn run_links(&mut self, before: &Vec<u32>) -> (count: u64)
        requires
            old(self).well_formed(),
            before@.len() == old(self).outputs@.len(),
        ensures
            final(self).well_formed(),
            final(self).same_population(old(self)),
            final(self).schedulers == old(self).schedulers,
            final(self).outputs == old(self).outputs,
            final(self).inputs@ == next_wave(
                &old(self).link_csr,
                old(self).outputs_total() as u32,
                0,
                Wave {
                    internal: Seq::empty(),
                    output: old(self).inputs@,
                    on: crate::wave::risen(
                        before@,
                        old(self).outputs@,
                        0,
                        old(self).outputs_total(),
                    ),
                    off: crate::wave::fallen(
                        before@,
                        old(self).outputs@,
                        0,
                        old(self).outputs_total(),
                    ),
                    toggle: crate::wave::changed(
                        before@,
                        old(self).outputs@,
                        0,
                        old(self).outputs_total(),
                    ),
                },
            ).output,
            count == crate::wave::capped(
                crate::wave::staged(
                    &old(self).link_csr,
                    Wave {
                        internal: Seq::empty(),
                        output: old(self).inputs@,
                        on: crate::wave::risen(
                            before@,
                            old(self).outputs@,
                            0,
                            old(self).outputs_total(),
                        ),
                        off: crate::wave::fallen(
                            before@,
                            old(self).outputs@,
                            0,
                            old(self).outputs_total(),
                        ),
                        toggle: crate::wave::changed(
                            before@,
                            old(self).outputs@,
                            0,
                            old(self).outputs_total(),
                        ),
                    },
                ).len() as int,
            ),
    {
        let out_total: u32 = self.count_outputs();
        let in_total: u32 = self.count_inputs();
        let mut frontier: Frontier = crate::wave::find_frontier(before, &self.outputs, 0, out_total);
        let mut nothing: Vec<u32> = Vec::new();
        let ghost w0 = wave_of(nothing@, self.inputs@, frontier);
        proof {
            assert(nothing@ =~= Seq::<u32>::empty());
            assert(w0.sources_below(out_total + 0));
        }
        let count: u64 = run_round(
            &self.link_csr,
            out_total,
            in_total,
            0,
            &mut nothing,
            &mut self.inputs,
            &mut frontier,
        );
        proof {
            assert forall|k: int| 0 <= k < self.chunks@.len() implies #[trigger] self.placed(k) by {
                assert(old(self).placed(k));
            }
        }
        count
    }

    /// Ticks every chunk, then runs the links. Returns what every chunk
    /// reported and the number of effects applied over the links.
    pub fn tick_all(&mut self, max_rounds: Option<u32>) -> (r: (
        Vec<(ExecutionResult, Termination)>,
        u64,
    ))
        requires
            old(self).well_formed(),
        ensures
            advanced(old(self), final(self), max_rounds, r.0@, r.1),
    {
        let n: usize = self.chunks.len();
        let before: Vec<u32> = copy_words(&self.outputs);
        let mut reports: Vec<(ExecutionResult, Termination)> = Vec::new();
        let mut c: usize = 0;
        while c < n
            invariant
                c <= n,
                n == old(self).chunks@.len(),
                self.well_formed(),
                self.same_population(old(self)),
                self.inputs == old(self).inputs,
                self.outputs@.len() == old(self).outputs@.len(),
                reports@.len() == c,
                forall|k: int| c <= k < n ==> self.schedulers@[k] == old(self).schedulers@[k],
                forall|k: int|
                    0 <= k < c ==> ticked(
                        &old(self).schedulers@[k],
                        &self.schedulers@[k],
                        self.schedulers@[k].inputs@,
                        round_limit(max_rounds, old(self).chunks@[k].internal_count),
                        EFFECT_BUDGET,
                        WINDOW,
                        (#[trigger] reports@[k]).0,
                        reports@[k].1,
                    ) && packs_words(
                        self.schedulers@[k].inputs@,
                        window(
                            old(self).inputs@,
                            inputs_before(old(self).chunks@, k),
                            old(self).chunks@[k].input_count as int,
                        ),
                    ),
            decreases n - c,
        {
            let ghost mid = self.schedulers@;
            let ghost done = reports@;
            let r = self.tick_chunk(c, max_rounds);
            reports.push(r);
            proof {
                assert forall|k: int| 0 <= k < c + 1 implies ticked(
                    &old(self).schedulers@[k],
                    &self.schedulers@[k],
                    self.schedulers@[k].inputs@,
                    round_limit(max_rounds, old(self).chunks@[k].internal_count),
                    EFFECT_BUDGET,
                    WINDOW,
                    (#[trigger] reports@[k]).0,
                    reports@[k].1,
                ) && packs_words(
                    self.schedulers@[k].inputs@,
                    window(
                        old(self).inputs@,
                        inputs_before(old(self).chunks@, k),
                        old(self).chunks@[k].input_count as int,
                    ),
                ) by {
                    if k < c {
                        assert(self.schedulers@[k] == mid[k]);
                        assert(reports@[k] == done[k]);
                    }
                }
            }
            c = c + 1;
        }
        let count: u64 = self.run_links(&before);
        (reports, count)
    }
}


/// `post` is `pre` after the input words `words` have been stored for
/// chunk `chunk_id`: if the chunk exists and there is a word for every
/// 32 of its input bits, its window of the inputs holds them; if not,
/// nothing has changed.
pub open spec fn fed(pre: &MycosHandle, post: &MycosHandle, chunk_id: u32, words: Seq<u32>) -> bool {
    &&& post.well_formed()
    &&& post.same_population(pre)
    &&& post.schedulers == pre.schedulers
    &&& post.outputs == pre.outputs
    &&& if chunk_id < pre.chunks@.len() && words.len() >= words_for(
        pre.chunks@[chunk_id as int].input_count as int,
    ) {
        implanted(
            pre.inputs@,
            post.inputs@,
            inputs_before(pre.chunks@, chunk_id as int),
            pre.chunks@[chunk_id as int].input_count as int,
            words,
        )
    } else {
        post.inputs == pre.inputs
    }
}

/// The policy that the bytes of a mode name stand for:
/// `freeze_last_stable`, `clamp_commutative` or `parity_quench`.
pub open spec fn policy_named(name: Seq<u8>) -> Option<Policy> {
    if name == freeze_name() {
        Some(Policy::FreezeLastStable)
    } else if name == clamp_name() {
        Some(Policy::ClampCommutative)
    } else if name == quench_name() {
        Some(Policy::ParityQuench)
    } else {
        None
    }
}

/// `freeze_last_stable` in ASCII.
pub open spec fn freeze_name() -> Seq<u8> {
    seq![
        0x66u8, 0x72u8, 0x65u8, 0x65u8, 0x7au8, 0x65u8, 0x5fu8, 0x6cu8, 0x61u8, 0x73u8, 0x74u8,
        0x5fu8, 0x73u8, 0x74u8, 0x61u8, 0x62u8, 0x6cu8, 0x65u8,
    ]
}

/// `clamp_commutative` in ASCII.
pub open spec fn clamp_name() -> Seq<u8> {
    seq![
        0x63u8, 0x6cu8, 0x61u8, 0x6du8, 0x70u8, 0x5fu8, 0x63u8, 0x6fu8, 0x6du8, 0x6du8, 0x75u8,
        0x74u8, 0x61u8, 0x74u8, 0x69u8, 0x76u8, 0x65u8,
    ]
}

/// `parity_quench` in ASCII.
pub open spec fn quench_name() -> Seq<u8> {
    seq![
        0x70u8, 0x61u8, 0x72u8, 0x69u8, 0x74u8, 0x79u8, 0x5fu8, 0x71u8, 0x75u8, 0x65u8, 0x6eu8,
        0x63u8, 0x68u8,
    ]
}

/// Whether `bytes` spell `name`.
fn spells(bytes: &[u8], name: &[u8]) -> (r: bool)
    ensures
        r == (bytes@ == name@),
{
    let n: usize = name.len();
    if bytes.len() != n {
        return false;
    }
    let mut i: usize = 0;
    while i < n
        invariant
            i <= n,
            n == name@.len(),
            n == bytes@.len(),
            forall|j: int| 0 <= j < i ==> bytes@[j] == name@[j],
        decreases n - i,
    {
        if bytes[i] != name[i] {
            return false;
        }
        i = i + 1;
    }
    assert(bytes@ =~= name@);
    true
}

/// Reads a policy name.
pub fn parse_policy(mode: &str) -> (r: Option<Policy>)
    ensures
        r == policy_named(mode.spec_bytes()),
{
    let bytes: &[u8] = mode.as_bytes();
    let freeze: [u8; 18] = [
        0x66, 0x72, 0x65, 0x65, 0x7a, 0x65, 0x5f, 0x6c, 0x61, 0x73, 0x74, 0x5f, 0x73, 0x74, 0x61,
        0x62, 0x6c, 0x65,
    ];
    let clamp: [u8; 17] = [
        0x63, 0x6c, 0x61, 0x6d, 0x70, 0x5f, 0x63, 0x6f, 0x6d, 0x6d, 0x75, 0x74, 0x61, 0x74, 0x69,
        0x76, 0x65,
    ];
    let quench: [u8; 13] = [
        0x70, 0x61, 0x72, 0x69, 0x74, 0x79, 0x5f, 0x71, 0x75, 0x65, 0x6e, 0x63, 0x68,
    ];
    proof {
        assert(freeze@ =~= freeze_name());
        assert(clamp@ =~= clamp_name());
        assert(quench@ =~= quench_name());
    }
    if spells(bytes, freeze.as_slice()) {
        Some(Policy::FreezeLastStable)
    } else if spells(bytes, clamp.as_slice()) {
        Some(Policy::ClampCommutative)
    } else if spells(bytes, quench.as_slice()) {
        Some(Policy::ParityQuench)
    } else {
        None
    }
}

/// Computes [`metrics_of`].
pub fn summarize(reports: &Vec<(ExecutionResult, Termination)>, link_effects: u64) -> (m: Metrics)
    ensures
        m == metrics_of(reports@, link_effects),
{
    let n: usize = reports.len();
    let mut rounds: u32 = 0;
    let mut effects: u64 = link_effects;
    let mut c: usize = 0;
    while c < n
        invariant
            c <= n,
            n == reports@.len(),
            rounds == most_rounds(reports@, c as int),
            effects == crate::wave::capped(sum_effects(reports@, c as int) + link_effects),
            sum_effects(reports@, c as int) >= 0,
        decreases n - c,
    {
        if reports[c].0.rounds > rounds {
            rounds = reports[c].0.rounds;
        }
        effects = effects.saturating_add(reports[c].0.effects_applied);
        c = c + 1;
    }
    Metrics { rounds, effects: if effects > 0xFFFF_FFFF { 0xFFFF_FFFF } else { effects as u32 } }
}

impl MycosHandle {
    /// Runs one tick, as [`advanced`] says, and reports its metrics.
    /// Without `max_rounds` every chunk gets the round limit of
    /// [`default_rounds`].
    pub fn tick(&mut self, max_rounds: Option<u32>) -> (m: Metrics)
        requires
            old(self).well_formed(),
        ensures
            exists|reports: Seq<(ExecutionResult, Termination)>, link_effects: u64|
                #[trigger] advanced(old(self), final(self), max_rounds, reports, link_effects) && m
                    == metrics_of(reports, link_effects),
    {
        let (reports, link_effects) = self.tick_all(max_rounds);
        let m = summarize(&reports, link_effects);
        assert(advanced(old(self), self, max_rounds, reports@, link_effects));
        m
    }

    /// Stores the input words of chunk `chunk_id` for the ticks to
    /// come; nothing runs. Returns whether the chunk exists and `words`
    /// has a word for every 32 of its input bits; if not, nothing
    /// changes.
    pub fn set_inputs(&mut self, chunk_id: u32, words: &Vec<u32>) -> (ok: bool)
        requires
            old(self).well_formed(),
        ensures
            fed(old(self), final(self), chunk_id, words@),
            final(self).well_formed(),
            final(self).same_population(old(self)),
            final(self).schedulers == old(self).schedulers,
            final(self).outputs == old(self).outputs,
            ok == (chunk_id < old(self).chunks@.len() && words@.len() >= words_for(
                old(self).chunks@[chunk_id as int].input_count as int,
            )),
            ok ==> implanted(
                old(self).inputs@,
                final(self).inputs@,
                inputs_before(old(self).chunks@, chunk_id as int),
                old(self).chunks@[chunk_id as int].input_count as int,
                words@,
            ),
            !ok ==> final(self).inputs == old(self).inputs,
    {
        let c: usize = chunk_id as usize;
        if c >= self.chunks.len() {
            return false;
        }
        proof {
            assert(self.placed(c as int));
            lemma_bases_bounded(self.chunks@, c as int);
        }
        let ni: u32 = self.chunks[c].input_count;
        if words.len() < word_len(ni) {
            return false;
        }
        let base: u32 = self.bases[c].input;
        implant_bits(&mut self.inputs, base, ni, words);
        proof {
            assert forall|k: int| 0 <= k < self.chunks@.len() implies #[trigger] self.placed(k) by {
                assert(old(self).placed(k));
            }
        }
        true
    }

    /// The committed output words of chunk `chunk_id`, if it exists.
    pub fn get_outputs(&self, chunk_id: u32) -> (r: Option<Vec<u32>>)
        requires
            self.well_formed(),
        ensures
            r is Some <==> chunk_id < self.chunks@.len(),
            r matches Some(words) ==> words@ == self.schedulers@[chunk_id as int].outputs@,
    {
        let c: usize = chunk_id as usize;
        if c >= self.chunks.len() {
            return None;
        }
        Some(copy_words(&self.schedulers[c].outputs))
    }

    /// Selects the policy by name, for all chunks. Returns whether the
    /// name is one of `freeze_last_stable`, `clamp_commutative` and
    /// `parity_quench`; if not, nothing changes.
    pub fn set_policy(&mut self, mode: &str) -> (ok: bool)
        requires
            old(self).well_formed(),
        ensures
            final(self).well_formed(),
            ok == policy_named(mode.spec_bytes()) is Some,
            ok ==> final(self).policy == policy_named(mode.spec_bytes())->Some_0,
            !ok ==> final(self).policy == old(self).policy,
            final(self).chunks == old(self).chunks,
            final(self).bases == old(self).bases,
            final(self).links == old(self).links,
            final(self).link_csr == old(self).link_csr,
            final(self).inputs == old(self).inputs,
            final(self).outputs == old(self).outputs,
            final(self).schedulers@.len() == old(self).schedulers@.len(),
            forall|c: int|
                0 <= c < old(self).schedulers@.len() ==> (#[trigger] final(self).schedulers@[c])
                    == (Scheduler { policy: final(self).policy, ..old(self).schedulers@[c] }),
    {
        let policy = match parse_policy(mode) {
            Some(p) => p,
            None => {
                proof {
                    assert forall|c: int| 0 <= c < self.schedulers@.len() implies (
                    #[trigger] self.schedulers@[c]) == (Scheduler {
                        policy: self.policy,
                        ..self.schedulers@[c]
                    }) by {
                        assert(self.placed(c));
                    }
                }
                return false;
            },
        };
        let n: usize = self.schedulers.len();
        let mut c: usize = 0;
        while c < n
            invariant
                c <= n,
                n == old(self).schedulers@.len(),
                self.schedulers@.len() == n,
                self.chunks == old(self).chunks,
                self.bases == old(self).bases,
                self.links == old(self).links,
                self.link_csr == old(self).link_csr,
                self.inputs == old(self).inputs,
                self.outputs == old(self).outputs,
                self.policy == old(self).policy,
                forall|k: int|
                    0 <= k < c ==> (#[trigger] self.schedulers@[k]) == (Scheduler {
                        policy,
                        ..old(self).schedulers@[k]
                    }),
                forall|k: int| c <= k < n ==> self.schedulers@[k] == old(self).schedulers@[k],
            decreases n - c,
        {
            self.schedulers[c].set_policy(policy);
            c = c + 1;
        }
        self.policy = policy;
        proof {
            assert forall|k: int| 0 <= k < self.chunks@.len() implies #[trigger] self.placed(k) by {
                assert(old(self).placed(k));
                assert(self.schedulers@[k] == (Scheduler { policy, ..old(self).schedulers@[k] }));
            }
        }
        true
    }
}


/// What is wrong with an encoded chunk, if anything: that it does not
/// decode, or the first defect among its connections.
pub open spec fn blob_verdict(blob: Seq<u8>) -> Option<Error> {
    match crate::chunk::decode_chunk(blob) {
        Err(e) => Some(e),
        Ok(c) => crate::chunk::first_defect(c),
    }
}

/// The chunks `chunks` are what the blobs `blobs` decode to, one by
/// one.
pub open spec fn holds_for(chunks: Seq<MycosChunk>, blobs: Seq<Vec<u8>>) -> bool {
    chunks.len() == blobs.len() && forall|i: int|
        0 <= i < blobs.len() ==> crate::chunk::decode_chunk((#[trigger] blobs[i])@) == Ok::<
            ChunkView,
            Error,
        >(chunks[i]@)
}

/// The chunk that a blob decodes to.
pub open spec fn decoded(blob: Seq<u8>) -> ChunkView {
    crate::chunk::decode_chunk(blob)->Ok_0
}

/// 32 bits can address the population: in every chunk the inputs and
/// internals together, and in the whole population the inputs, the
/// outputs and the internals, number less than the largest `u32`; and no
/// chunk has more connections than that.
pub open spec fn addressable(chunks: Seq<MycosChunk>) -> bool {
    &&& forall|c: int|
        0 <= c < chunks.len() ==> (#[trigger] chunks[c]).input_count + chunks[c].internal_count
            < u32::MAX && chunks[c].connections@.len() <= u32::MAX
    &&& inputs_before(chunks, chunks.len() as int) < u32::MAX
    &&& outputs_before(chunks, chunks.len() as int) < u32::MAX
    &&& internals_before(chunks, chunks.len() as int) < u32::MAX
}

/// Scheduler `s` is as [`Scheduler::new`] makes it for `chunk`.
pub open spec fn fresh(s: &Scheduler, chunk: &MycosChunk, policy: Policy) -> bool {
    &&& s.well_formed()
    &&& s.ni == chunk.input_count
    &&& s.no == chunk.output_count
    &&& s.nn == chunk.internal_count
    &&& s.csr.groups(
        crate::csr::chunk_wires(chunk@.connections, chunk.input_count),
        chunk.input_count + chunk.internal_count,
    )
    &&& s.inputs@ == Seq::new(words_for(chunk.input_count as int) as nat, |i: int| 0u32)
    &&& packs_words(
        s.internals@,
        crate::layout::unpack_bytes(chunk@.internal_bits, chunk.internal_count as int),
    )
    &&& packs_words(
        s.outputs@,
        crate::layout::unpack_bytes(chunk@.output_bits, chunk.output_count as int),
    )
    &&& s.stable@ == s.internals@
    &&& s.policy == policy
}

/// The engine holds the chunks `chunks` in their initial state: every
/// scheduler is fresh, the population's inputs are those that the
/// chunks bring along, and there are no links.
pub open spec fn starts_from(h: &MycosHandle, chunks: Seq<MycosChunk>, policy: Policy) -> bool {
    &&& h.well_formed()
    &&& h.chunks@ == chunks
    &&& h.links@.len() == 0
    &&& h.policy == policy
    &&& forall|c: int|
        0 <= c < chunks.len() ==> fresh(#[trigger] &h.schedulers@[c], &chunks[c], policy)
    &&& forall|c: int|
        0 <= c < chunks.len() ==> mirrors(
            h.inputs@,
            inputs_before(chunks, c),
            (#[trigger] chunks[c]).input_count as int,
            crate::scheduler::initial_inputs(chunks[c]@),
        )
}

/// The engine holds its chunks in their initial state, without links
/// having run.
pub open spec fn starts_from_chunks(h: &MycosHandle) -> bool {
    forall|c: int| 0 <= c < h.chunks@.len() ==> fresh(#[trigger] &h.schedulers@[c], &h.chunks@[c], h.policy)
        && mirrors(
        h.inputs@,
        inputs_before(h.chunks@, c),
        h.chunks@[c].input_count as int,
        crate::scheduler::initial_inputs(h.chunks@[c]@),
    )
}

/// Whether 32 bits can address the population.
fn check_limits(chunks: &Vec<MycosChunk>) -> (ok: bool)
    ensures
        ok == addressable(chunks@),
{
    let n: usize = chunks.len();
    let mut total_in: u64 = 0;
    let mut total_out: u64 = 0;
    let mut total_int: u64 = 0;
    let mut c: usize = 0;
    while c < n
        invariant
            c <= n,
            n == chunks@.len(),
            total_in == inputs_before(chunks@, c as int),
            total_out == outputs_before(chunks@, c as int),
            total_int == internals_before(chunks@, c as int),
            total_in < u32::MAX,
            total_out < u32::MAX,
            total_int < u32::MAX,
            forall|k: int|
                0 <= k < c ==> (#[trigger] chunks@[k]).input_count + chunks@[k].internal_count
                    < u32::MAX && chunks@[k].connections@.len() <= u32::MAX,
        decreases n - c,
    {
        let ni: u64 = chunks[c].input_count as u64;
        let no: u64 = chunks[c].output_count as u64;
        let nn: u64 = chunks[c].internal_count as u64;
        proof {
            lemma_bases_grow(chunks@, c + 1, n as int);
        }
        if ni + nn >= 0xFFFF_FFFF || chunks[c].connections.len() > 0xFFFF_FFFF {
            return false;
        }
        total_in = total_in + ni;
        total_out = total_out + no;
        total_int = total_int + nn;
        if total_in >= 0xFFFF_FFFF || total_out >= 0xFFFF_FFFF || total_int >= 0xFFFF_FFFF {
            return false;
        }
        c = c + 1;
    }
    true
}

/// Puts an engine together from validated chunks.
fn assemble(chunks: Vec<MycosChunk>, policy: Policy) -> (h: MycosHandle)
    requires
        addressable(chunks@),
        forall|c: int| 0 <= c < chunks@.len() ==> (#[trigger] chunks@[c])@.well_formed(),
    ensures
        starts_from(&h, chunks@, policy),
        h.chunks == chunks,
{
    let n: usize = chunks.len();
    let bases: Vec<ChunkOffsets> = compute_base_offsets(chunks.as_slice());
    proof {
        lemma_bases_grow(chunks@, 0, n as int);
    }
    let mut schedulers: Vec<Scheduler> = Vec::new();
    let mut c: usize = 0;
    while c < n
        invariant
            c <= n,
            n == chunks@.len(),
            addressable(chunks@),
            forall|k: int| 0 <= k < chunks@.len() ==> (#[trigger] chunks@[k])@.well_formed(),
            schedulers@.len() == c,
            forall|k: int| 0 <= k < c ==> fresh(#[trigger] &schedulers@[k], &chunks@[k], policy),
        decreases n - c,
    {
        proof {
            assert(chunks@[c as int]@.well_formed());
            lemma_well_formed_runnable(chunks@[c as int]@);
        }
        let s = Scheduler::new(&chunks[c], policy);
        schedulers.push(s);
        c = c + 1;
    }
    let in_total: u32 = if n == 0 {
        0
    } else {
        proof {
            lemma_bases_bounded(chunks@, n - 1);
        }
        bases[n - 1].input + chunks[n - 1].input_count
    };
    let out_total: u32 = if n == 0 {
        0
    } else {
        proof {
            lemma_bases_bounded(chunks@, n - 1);
        }
        bases[n - 1].output + chunks[n - 1].output_count
    };
    let mut inputs: Vec<u32> = zero_words(word_len(in_total));
    let mut outputs: Vec<u32> = zero_words(word_len(out_total));
    let mut c: usize = 0;
    while c < n
        invariant
            c <= n,
            n == chunks@.len(),
            bases@.len() == n,
            schedulers@.len() == n,
            population_fits(chunks@),
            in_total == inputs_before(chunks@, n as int),
            out_total == outputs_before(chunks@, n as int),
            inputs@.len() == words_for(in_total as int),
            outputs@.len() == words_for(out_total as int),
            forall|k: int| 0 <= k < chunks@.len() ==> (#[trigger] chunks@[k])@.well_formed(),
            forall|k: int| 0 <= k < n ==> fresh(#[trigger] &schedulers@[k], &chunks@[k], policy),
            forall|k: int|
                0 <= k < n ==> (#[trigger] bases@[k]).input == inputs_before(chunks@, k)
                    && bases@[k].output == outputs_before(chunks@, k),
            forall|k: int|
                0 <= k < c ==> mirrors(
                    inputs@,
                    inputs_before(chunks@, k),
                    (#[trigger] chunks@[k]).input_count as int,
                    crate::scheduler::initial_inputs(chunks@[k]@),
                ),
            forall|k: int|
                0 <= k < c ==> mirrors(
                    outputs@,
                    outputs_before(chunks@, k),
                    chunks@[k].output_count as int,
                    (#[trigger] schedulers@[k]).outputs@,
                ),
        decreases n - c,
    {
        proof {
            lemma_bases_bounded(chunks@, c as int);
            assert(chunks@[c as int]@.well_formed());
            assert(fresh(&schedulers@[c as int], &chunks@[c as int], policy));
        }
        let ghost in_before = inputs@;
        let ghost out_before = outputs@;
        let local: Vec<u32> = crate::scheduler::first_inputs(&chunks[c]);
        implant_bits(&mut inputs, bases[c].input, chunks[c].input_count, &local);
        implant_bits(&mut outputs, bases[c].output, chunks[c].output_count, &schedulers[c].outputs);
        proof {
            assert forall|k: int| 0 <= k < c + 1 implies mirrors(
                inputs@,
                inputs_before(chunks@, k),
                (#[trigger] chunks@[k]).input_count as int,
                crate::scheduler::initial_inputs(chunks@[k]@),
            ) by {
                lemma_bases_bounded(chunks@, k);
                if k < c {
                    lemma_bases_grow(chunks@, k + 1, c as int);
                    assert(mirrors(
                        in_before,
                        inputs_before(chunks@, k),
                        chunks@[k].input_count as int,
                        crate::scheduler::initial_inputs(chunks@[k]@),
                    ));
                }
            }
            assert forall|k: int| 0 <= k < c + 1 implies mirrors(
                outputs@,
                outputs_before(chunks@, k),
                chunks@[k].output_count as int,
                (#[trigger] schedulers@[k]).outputs@,
            ) by {
                lemma_bases_bounded(chunks@, k);
                if k < c {
                    lemma_bases_grow(chunks@, k + 1, c as int);
                    assert(mirrors(
                        out_before,
                        outputs_before(chunks@, k),
                        chunks@[k].output_count as int,
                        schedulers@[k].outputs@,
                    ));
                }
            }
        }
        c = c + 1;
    }
    let links: Vec<Link> = Vec::new();
    let link_csr: CSR = build_link_csr(links.as_slice(), chunks.as_slice());
    proof {
        lemma_grouped_serves(
            &link_csr,
            link_wires(links@, chunks@),
            out_total as int,
            in_total,
            0,
        );
    }
    let h = MycosHandle { chunks, schedulers, bases, links, link_csr, inputs, outputs, policy };
    proof {
        assert forall|k: int| 0 <= k < h.chunks@.len() implies #[trigger] h.placed(k) by {
            assert(fresh(&h.schedulers@[k], &h.chunks@[k], policy));
            assert(h.bases@[k].input == inputs_before(h.chunks@, k));
        }
    }
    h
}


/// Decodes and validates every blob, in order.
fn parse_population(blobs: &Vec<Vec<u8>>) -> (r: Result<Vec<MycosChunk>, EngineError>)
    ensures
        match r {
            Ok(chunks) => chunks@.len() == blobs@.len() && forall|i: int|
                0 <= i < blobs@.len() ==> crate::chunk::decode_chunk((#[trigger] blobs@[i])@) == Ok::<
                    ChunkView,
                    Error,
                >(chunks@[i]@) && blob_verdict(blobs@[i]@) is None && chunks@[i]@.well_formed(),
            Err(EngineError::Chunk { index, error }) => index < blobs@.len() && blob_verdict(
                blobs@[index as int]@,
            ) == Some(error) && forall|j: int|
                0 <= j < index ==> blob_verdict((#[trigger] blobs@[j])@) is None,
            Err(_) => false,
        },
{
    let n: usize = blobs.len();
    let mut chunks: Vec<MycosChunk> = Vec::new();
    let mut i: usize = 0;
    while i < n
        invariant
            i <= n,
            n == blobs@.len(),
            chunks@.len() == i,
            forall|j: int|
                0 <= j < i ==> crate::chunk::decode_chunk((#[trigger] blobs@[j])@) == Ok::<
                    ChunkView,
                    Error,
                >(chunks@[j]@) && blob_verdict(blobs@[j]@) is None && chunks@[j]@.well_formed(),
        decreases n - i,
    {
        let chunk = match parse_chunk(blobs[i].as_slice()) {
            Ok(c) => c,
            Err(error) => {
                return Err(EngineError::Chunk { index: i, error });
            },
        };
        match validate_chunk(&chunk) {
            Ok(()) => {},
            Err(error) => {
                return Err(EngineError::Chunk { index: i, error });
            },
        }
        chunks.push(chunk);
        i = i + 1;
    }
    Ok(chunks)
}

impl MycosHandle {
    /// An engine without chunks or links, under FreezeLastStable.
    pub fn new() -> (h: MycosHandle)
        ensures
            h.well_formed(),
            h.chunks@.len() == 0,
            h.links@.len() == 0,
            h.policy == Policy::FreezeLastStable,
    {
        let chunks: Vec<MycosChunk> = Vec::new();
        assemble(chunks, Policy::FreezeLastStable)
    }

    /// Loads a population: decodes and validates every blob, and sets
    /// up the chunks in their initial state, without links. Fails on
    /// the first blob that [`blob_verdict`] finds fault with, or, with
    /// every blob in order, when 32 bits cannot address the population;
    /// then nothing changes.
    pub fn load_chunks(&mut self, blobs: &Vec<Vec<u8>>) -> (r: Result<(), EngineError>)
        ensures
            match r {
                Ok(()) => starts_from(final(self), final(self).chunks@, old(self).policy)
                    && final(self).chunks@.len() == blobs@.len() && addressable(
                    final(self).chunks@,
                ) && (forall|i: int|
                    0 <= i < blobs@.len() ==> crate::chunk::decode_chunk(
                        (#[trigger] blobs@[i])@,
                    ) == Ok::<ChunkView, Error>(final(self).chunks@[i]@) && blob_verdict(
                        blobs@[i]@,
                    ) is None),
                Err(EngineError::Chunk { index, error }) => index < blobs@.len() && blob_verdict(
                    blobs@[index as int]@,
                ) == Some(error) && (forall|j: int|
                    0 <= j < index ==> blob_verdict((#[trigger] blobs@[j])@) is None) && *final(self)
                    == *old(self),
                Err(EngineError::TooLarge) => (forall|j: int|
                    0 <= j < blobs@.len() ==> blob_verdict((#[trigger] blobs@[j])@) is None)
                    && (exists|chunks: Seq<MycosChunk>| #[trigger]
                        holds_for(chunks, blobs@) && !addressable(chunks)) && *final(self) == *old(
                    self,
                ),
                Err(EngineError::Links(_)) => false,
            },
    {
        let chunks = match parse_population(blobs) {
            Ok(c) => c,
            Err(e) => {
                return Err(e);
            },
        };
        if !check_limits(&chunks) {
            assert(holds_for(chunks@, blobs@) && !addressable(chunks@));
            return Err(EngineError::TooLarge);
        }
        let policy = self.policy;
        proof {
            assert forall|c: int| 0 <= c < chunks@.len() implies (
            #[trigger] chunks@[c])@.well_formed() by {
                assert(blob_verdict(blobs@[c]@) is None);
            }
        }
        *self = assemble(chunks, policy);
        Ok(())
    }

    /// Takes over validated chunks, as [`MycosHandle::load_chunks`] does
    /// with decoded ones. Fails when 32 bits cannot address the
    /// population; then nothing changes.
    pub fn install_chunks(&mut self, chunks: Vec<MycosChunk>) -> (r: Result<(), EngineError>)
        requires
            forall|c: int| 0 <= c < chunks@.len() ==> (#[trigger] chunks@[c])@.well_formed(),
        ensures
            r is Ok <==> addressable(chunks@),
            r is Ok ==> starts_from(final(self), chunks@, old(self).policy),
            r is Err ==> r == Err::<(), EngineError>(EngineError::TooLarge) && *final(self) == *old(self),
    {
        if !check_limits(&chunks) {
            return Err(EngineError::TooLarge);
        }
        let policy = self.policy;
        *self = assemble(chunks, policy);
        Ok(())
    }

    /// Takes over links, as [`MycosHandle::load_links`] does with
    /// decoded ones: validates them against the chunks and builds their
    /// adjacency. Fails with the defect of the first invalid link, or
    /// when there are more links than 32 bits can count; then nothing
    /// changes.
    pub fn install_links(&mut self, links: Vec<Link>) -> (r: Result<(), EngineError>)
        requires
            old(self).well_formed(),
        ensures
            final(self).well_formed(),
            match r {
                Ok(()) => final(self).links@ == links@ && crate::link::links_valid(
                    links@,
                    final(self).chunks@,
                ) && links@.len() <= u32::MAX && final(self).link_csr.groups(
                    link_wires(links@, final(self).chunks@),
                    final(self).outputs_total(),
                ) && final(self).chunks == old(self).chunks && final(self).schedulers == old(self).schedulers && final(self).bases == old(self).bases && final(self).inputs == old(self).inputs && final(self).outputs == old(self).outputs && final(self).policy == old(self).policy,
                Err(EngineError::Links(e)) => crate::link::link_defect_from(
                    links@,
                    old(self).chunks@,
                    0,
                ) == Some(e) && *final(self) == *old(self),
                Err(EngineError::TooLarge) => crate::link::link_defect_from(
                    links@,
                    old(self).chunks@,
                    0,
                ) is None && links@.len() > u32::MAX && *final(self) == *old(self),
                Err(EngineError::Chunk { .. }) => false,
            },
    {
        match validate_links(links.as_slice(), self.chunks.as_slice()) {
            Ok(()) => {},
            Err(e) => {
                return Err(EngineError::Links(e));
            },
        }
        if links.len() > 0xFFFF_FFFF {
            return Err(EngineError::TooLarge);
        }
        let out_total: u32 = self.count_outputs();
        let in_total: u32 = self.count_inputs();
        let link_csr: CSR = build_link_csr(links.as_slice(), self.chunks.as_slice());
        proof {
            lemma_grouped_serves(
                &link_csr,
                link_wires(links@, self.chunks@),
                out_total as int,
                in_total,
                0,
            );
        }
        self.links = links;
        self.link_csr = link_csr;
        proof {
            assert forall|k: int| 0 <= k < self.chunks@.len() implies #[trigger] self.placed(k) by {
                assert(old(self).placed(k));
            }
        }
        Ok(())
    }

    /// Loads the links: decodes them, validates them against the
    /// chunks, and builds their adjacency. Fails with the error of
    /// the decoder, with the defect of the first invalid link, or when
    /// there are more links than 32 bits can count; then nothing
    /// changes.
    pub fn load_links(&mut self, blob: &Vec<u8>) -> (r: Result<(), EngineError>)
        requires
            old(self).well_formed(),
        ensures
            final(self).well_formed(),
            match r {
                Ok(()) => crate::link::decode_links(blob@) == Ok::<Seq<Link>, LinkError>(
                    final(self).links@,
                ) && crate::link::links_valid(final(self).links@, final(self).chunks@)
                    && final(self).link_csr.groups(
                    link_wires(final(self).links@, final(self).chunks@),
                    final(self).outputs_total(),
                ) && final(self).chunks == old(self).chunks && final(self).schedulers == old(self).schedulers && final(self).bases == old(self).bases && final(self).inputs == old(self).inputs && final(self).outputs == old(self).outputs && final(self).policy == old(self).policy,
                Err(EngineError::Links(e)) => (crate::link::decode_links(blob@) == Err::<
                    Seq<Link>,
                    LinkError,
                >(e) || (crate::link::decode_links(blob@) is Ok
                    && crate::link::link_defect_from(
                    crate::link::decode_links(blob@)->Ok_0,
                    old(self).chunks@,
                    0,
                ) == Some(e))) && *final(self) == *old(self),
                Err(EngineError::TooLarge) => crate::link::decode_links(blob@) is Ok
                    && crate::link::decode_links(blob@)->Ok_0.len() > u32::MAX && *final(self)
                    == *old(self),
                Err(EngineError::Chunk { .. }) => false,
            },
    {
        let links = match parse_links(blob.as_slice()) {
            Ok(l) => l,
            Err(e) => {
                return Err(EngineError::Links(e));
            },
        };
        self.install_links(links)
    }
}

/// The frontier that a change of bits leaves depends on the bits
/// below `k` only.
proof fn lemma_frontier_same(before: Seq<u32>, now1: Seq<u32>, now2: Seq<u32>, base: u32, k: int)
    requires
        forall|t: int| 0 <= t < k ==> bit_of_words(now1, t) == bit_of_words(now2, t),
    ensures
        risen(before, now1, base, k) == risen(before, now2, base, k),
        fallen(before, now1, base, k) == fallen(before, now2, base, k),
        changed(before, now1, base, k) == changed(before, now2, base, k),
    decreases k,
{
    if k > 0 {
        lemma_frontier_same(before, now1, now2, base, k - 1);
    }
}

/// Every output bit of the first `n` chunks lies in the window of one
/// of them.
proof fn lemma_chunk_of_output(chunks: Seq<MycosChunk>, b: int, n: int) -> (c: int)
    requires
        0 <= n <= chunks.len(),
        0 <= b < outputs_before(chunks, n),
    ensures
        0 <= c < n,
        outputs_before(chunks, c) <= b < outputs_before(chunks, c) + chunks[c].output_count,
    decreases n,
{
    if b >= outputs_before(chunks, n - 1) {
        n - 1
    } else {
        lemma_chunk_of_output(chunks, b, n - 1)
    }
}

/// Reports that tell of the same rounds and effects measure the same.
proof fn lemma_metrics_same(
    r1: Seq<(ExecutionResult, Termination)>,
    r2: Seq<(ExecutionResult, Termination)>,
    k: int,
)
    requires
        r1.len() == r2.len(),
        0 <= k <= r1.len(),
        forall|c: int|
            0 <= c < r1.len() ==> (#[trigger] r1[c]).0.rounds == r2[c].0.rounds
                && r1[c].0.effects_applied == r2[c].0.effects_applied,
    ensures
        most_rounds(r1, k) == most_rounds(r2, k),
        sum_effects(r1, k) == sum_effects(r2, k),
    decreases k,
{
    if k > 0 {
        lemma_metrics_same(r1, r2, k - 1);
        assert(r1[k - 1].0.rounds == r2[k - 1].0.rounds);
    }
}

/// A tick of the engine is a function of the engine it starts from.
/// Two ticks from one engine under the same round limit report the same
/// of every chunk, apply as many effects over the links, and measure
/// the same; and they leave the same buffers in every chunk, the same
/// input words and the same output bits.
pub proof fn lemma_engine_tick_deterministic(
    pre: &MycosHandle,
    post1: &MycosHandle,
    post2: &MycosHandle,
    max_rounds: Option<u32>,
    reports1: Seq<(ExecutionResult, Termination)>,
    reports2: Seq<(ExecutionResult, Termination)>,
    link_effects1: u64,
    link_effects2: u64,
)
    requires
        pre.well_formed(),
        advanced(pre, post1, max_rounds, reports1, link_effects1),
        advanced(pre, post2, max_rounds, reports2, link_effects2),
    ensures
        forall|c: int|
            0 <= c < pre.chunks@.len() ==> same_report((#[trigger] reports1[c]).0, reports2[c].0)
                && reports1[c].1 == reports2[c].1 && same_state(
                &post1.schedulers@[c],
                &post2.schedulers@[c],
            ),
        link_effects1 == link_effects2,
        metrics_of(reports1, link_effects1) == metrics_of(reports2, link_effects2),
        post1.inputs@ == post2.inputs@,
        forall|b: int|
            0 <= b < pre.outputs_total() ==> bit_of_words(post1.outputs@, b) == bit_of_words(
                post2.outputs@,
                b,
            ),
{
    let n = pre.chunks@.len() as int;
    assert forall|c: int| 0 <= c < n implies same_report((#[trigger] reports1[c]).0, reports2[c].0)
        && reports1[c].1 == reports2[c].1 && same_state(
        &post1.schedulers@[c],
        &post2.schedulers@[c],
    ) by {
        let bits = window(
            pre.inputs@,
            inputs_before(pre.chunks@, c),
            pre.chunks@[c].input_count as int,
        );
        lemma_packing_unique(post1.schedulers@[c].inputs@, post2.schedulers@[c].inputs@, bits);
        lemma_tick_deterministic(
            &pre.schedulers@[c],
            &pre.schedulers@[c],
            &post1.schedulers@[c],
            &post2.schedulers@[c],
            post1.schedulers@[c].inputs@,
            round_limit(max_rounds, pre.chunks@[c].internal_count),
            EFFECT_BUDGET,
            WINDOW,
            reports1[c].0,
            reports2[c].0,
            reports1[c].1,
            reports2[c].1,
        );
    }
    let total = pre.outputs_total();
    assert forall|b: int| 0 <= b < total implies bit_of_words(post1.outputs@, b) == bit_of_words(
        post2.outputs@,
        b,
    ) by {
        let c = lemma_chunk_of_output(pre.chunks@, b, n);
        assert(post1.placed(c) && post2.placed(c));
        let base = outputs_before(pre.chunks@, c);
        assert(same_report(reports1[c].0, reports2[c].0));
        assert(same_state(&post1.schedulers@[c], &post2.schedulers@[c]));
        assert(bit_of_words(post1.outputs@, base + (b - base)) == bit_of_words(
            post1.schedulers@[c].outputs@,
            b - base,
        ));
        assert(bit_of_words(post2.outputs@, base + (b - base)) == bit_of_words(
            post2.schedulers@[c].outputs@,
            b - base,
        ));
    }
    lemma_frontier_same(pre.outputs@, post1.outputs@, post2.outputs@, 0, total);
    assert(pre.link_wave(post1.outputs@) == pre.link_wave(post2.outputs@));
    lemma_metrics_same(reports1, reports2, n);
}

} // verus!
