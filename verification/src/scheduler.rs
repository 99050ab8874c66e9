//! The wavefront scheduler: one tick of one chunk.
//!
//! A tick takes fresh inputs, seeds the frontier from the edges they
//! show and from the internal bits that are set, and runs rounds until
//! a terminator fires: the frontier is empty, the round limit is
//! reached, the effect budget is exceeded, or the cycle detector
//! reports a period. After every round the internal state is hashed and
//! shown to the detector. On a cycle the chosen policy settles the
//! internal state.

use vstd::prelude::*;
use crate::chunk::{ChunkView, MycosChunk};
use crate::cpu_ref::bytes_to_words;
use crate::csr::{build_csr, chunk_wires, lemma_grouped_offsets, CSR};
use crate::chunk::Trigger;
use crate::layout::{bit_of_words, unpack_bytes, packs_words, word_bit_at, words_for};
use crate::policy::{
    freeze_last_stable, parity_quench, state_hash, CycleDetector, ExecutionResult, Policy, RingView,
};
use crate::wave::{
    capped, clamp_window, clamped, copy_words, fallen, next_wave, run_round, staged, wave_after,
    wave_of, window_effects, Frontier, Wave,
};

verus! {

/// Why a tick ended.
#[derive(Debug, Clone, Copy, PartialEq, Eq, Structural)]
pub enum Termination {
    /// The frontier ran empty.
    Quiescent,
    /// The round limit was reached with events still waiting.
    RoundsExhausted,
    /// More effects were applied than the budget allows.
    EffectsExhausted,
    /// The internal state came back to one seen this many rounds ago.
    Oscillator(u32),
}

/// The runtime buffers of one chunk, kept from tick to tick: the
/// adjacency, the inputs as last supplied, the committed internal and
/// output words, the last stable internal state, and the policy.
#[derive(Debug, Clone)]
pub struct Scheduler {
    pub ni: u32,
    pub no: u32,
    pub nn: u32,
    pub csr: CSR,
    pub inputs: Vec<u32>,
    pub internals: Vec<u32>,
    pub outputs: Vec<u32>,
    pub stable: Vec<u32>,
    pub policy: Policy,
}

/// A tick in progress: the wave, the rounds run, the effects applied,
/// the ring of the cycle detector, and what the detector said of the
/// last round.
pub struct Run {
    pub wave: Wave,
    pub rounds: nat,
    pub applied: nat,
    pub ring: RingView,
    pub seen: Option<u32>,
}

/// The sources `base + b` of the bits `b` below `k` that are set, in
/// index order.
pub open spec fn lit(words: Seq<u32>, base: u32, k: int) -> Seq<u32>
    decreases k,
{
    if k <= 0 {
        Seq::empty()
    } else {
        let front = lit(words, base, k - 1);
        if bit_of_words(words, k - 1) {
            front.push((base + k - 1) as u32)
        } else {
            front
        }
    }
}

/// The inputs below `k` that are set now or were set before, in index
/// order: those that show a Toggle at the start of a tick.
pub open spec fn stirred(before: Seq<u32>, now: Seq<u32>, k: int) -> Seq<u32>
    decreases k,
{
    if k <= 0 {
        Seq::empty()
    } else {
        let front = stirred(before, now, k - 1);
        if bit_of_words(now, k - 1) || bit_of_words(before, k - 1) {
            front.push((k - 1) as u32)
        } else {
            front
        }
    }
}

/// The wave a tick starts with. Every input that is set queues On and
/// Toggle; every input that was set and no longer is queues Off and
/// Toggle; every internal bit that is set queues On and Toggle.
pub open spec fn seed_wave(
    ni: u32,
    nn: u32,
    before: Seq<u32>,
    now: Seq<u32>,
    internal: Seq<u32>,
    output: Seq<u32>,
) -> Wave {
    Wave {
        internal,
        output,
        on: lit(now, 0, ni as int) + lit(internal, ni, nn as int),
        off: fallen(before, now, 0, ni as int),
        toggle: stirred(before, now, ni as int) + lit(internal, ni, nn as int),
    }
}

/// Why the tick is over in state `run`, if it is. The terminators are
/// looked at in this order: empty frontier, round limit, effect budget,
/// cycle. Effects are counted up to the largest `u64`.
pub open spec fn verdict(run: Run, max_rounds: u32, budget: u64) -> Option<Termination> {
    if run.wave.quiet() {
        Some(Termination::Quiescent)
    } else if run.rounds >= max_rounds {
        Some(Termination::RoundsExhausted)
    } else if capped(run.applied as int) > budget {
        Some(Termination::EffectsExhausted)
    } else {
        match run.seen {
            Some(p) => Some(Termination::Oscillator(p)),
            None => None,
        }
    }
}

/// One round further: the wave advances, the round and the effects are
/// counted, and the new internal state is shown to the detector.
pub open spec fn advance(csr: &CSR, ni: u32, nn: u32, run: Run) -> Run {
    let wave = next_wave(csr, ni, nn, run.wave);
    Run {
        wave,
        rounds: run.rounds + 1,
        applied: run.applied + staged(csr, run.wave).len(),
        ring: run.ring.write(state_hash(wave.internal)),
        seen: run.ring.detect(state_hash(wave.internal)),
    }
}

/// The run after `n` steps; a run that is over stays as it is.
pub open spec fn run_after(
    csr: &CSR,
    ni: u32,
    nn: u32,
    max_rounds: u32,
    budget: u64,
    start: Run,
    n: nat,
) -> Run
    decreases n,
{
    if n == 0 {
        start
    } else {
        let before = run_after(csr, ni, nn, max_rounds, budget, start, (n - 1) as nat);
        if verdict(before, max_rounds, budget) is Some {
            before
        } else {
            advance(csr, ni, nn, before)
        }
    }
}

/// The internal words with every word complemented if `period` is odd.
pub open spec fn quench(words: Seq<u32>, period: u32) -> Seq<u32> {
    Seq::new(words.len(), |i: int| if period % 2 == 1 { !words[i] } else { words[i] })
}

/// The internal state a tick leaves behind, where it ended in the
/// wave `wave`. Unless it ended on a cycle that is the state of the last
/// round. On a cycle the policy decides: the last stable state; the
/// state of the last round quenched by the parity of the period; or the
/// state of the last round [`clamped`] over one period of the cycle.
pub open spec fn settled_internals(
    policy: Policy,
    cause: Termination,
    csr: &CSR,
    ni: u32,
    nn: u32,
    wave: Wave,
    stable: Seq<u32>,
) -> Seq<u32> {
    match cause {
        Termination::Oscillator(p) => match policy {
            Policy::FreezeLastStable => stable,
            Policy::ParityQuench => quench(wave.internal, p),
            Policy::ClampCommutative => clamped(csr, ni, nn, wave, p),
        },
        _ => wave.internal,
    }
}

impl Scheduler {
    /// The buffers match the chunk's bit counts and the adjacency serves
    /// them.
    pub open spec fn well_formed(&self) -> bool {
        &&& self.ni + self.nn <= u32::MAX
        &&& self.csr.serves(self.ni + self.nn, self.no, self.nn)
        &&& self.inputs@.len() == words_for(self.ni as int)
        &&& self.internals@.len() == words_for(self.nn as int)
        &&& self.stable@.len() == words_for(self.nn as int)
        &&& self.outputs@.len() == words_for(self.no as int)
    }

    /// The run that a tick on `inputs` starts with.
    pub open spec fn start_run(&self, inputs: Seq<u32>, window: usize) -> Run {
        Run {
            wave: seed_wave(self.ni, self.nn, self.inputs@, inputs, self.internals@, self.outputs@),
            rounds: 0,
            applied: 0,
            ring: RingView { ring: Seq::new(window as nat, |i: int| 0u128), pos: 0 },
            seen: None,
        }
    }

    /// The run in which a tick on `inputs` ends. After `max_rounds`
    /// steps every run is over.
    pub open spec fn final_run(
        &self,
        inputs: Seq<u32>,
        max_rounds: u32,
        budget: u64,
        window: usize,
    ) -> Run {
        run_after(
            &self.csr,
            self.ni,
            self.nn,
            max_rounds,
            budget,
            self.start_run(inputs, window),
            max_rounds as nat,
        )
    }
}

/// `post`, `result` and `cause` are what a tick on `inputs` makes of
/// `pre`. The tick ends in the run of [`Scheduler::final_run`], for the
/// reason that [`verdict`] gives. The result reports the rounds, the
/// effects applied (counted up to the largest `u64`), whether a cycle
/// was found, its period, the policy that settled it, and the internal
/// and output words. The scheduler keeps the inputs for the next tick,
/// and, when the tick came to rest, the internal state as the last
/// stable one.
pub open spec fn ticked(
    pre: &Scheduler,
    post: &Scheduler,
    inputs: Seq<u32>,
    max_rounds: u32,
    budget: u64,
    window: usize,
    result: ExecutionResult,
    cause: Termination,
) -> bool {
    let run = pre.final_run(inputs, max_rounds, budget, window);
    &&& post.well_formed()
    &&& verdict(run, max_rounds, budget) == Some(cause)
    &&& result.rounds == run.rounds
    &&& result.effects_applied == capped(run.applied as int)
    &&& result.oscillator == (cause is Oscillator)
    &&& result.period == (match cause {
        Termination::Oscillator(p) => p,
        _ => 0,
    })
    &&& result.policy == (if cause is Oscillator {
        Some(pre.policy)
    } else {
        None
    })
    &&& result.internals@ == settled_internals(
        pre.policy,
        cause,
        &pre.csr,
        pre.ni,
        pre.nn,
        run.wave,
        pre.stable@,
    )
    &&& result.outputs@ == run.wave.output
    &&& post.internals@ == result.internals@
    &&& post.outputs@ == result.outputs@
    &&& post.inputs@ == inputs
    &&& post.stable@ == (if cause is Quiescent {
        result.internals@
    } else {
        pre.stable@
    })
    &&& post.ni == pre.ni
    &&& post.no == pre.no
    &&& post.nn == pre.nn
    &&& post.csr == pre.csr
    &&& post.policy == pre.policy
}

/// A run that is over stays where it is.
pub proof fn lemma_run_stays(
    csr: &CSR,
    ni: u32,
    nn: u32,
    max_rounds: u32,
    budget: u64,
    start: Run,
    n: nat,
    m: nat,
)
    requires
        verdict(run_after(csr, ni, nn, max_rounds, budget, start, n), max_rounds, budget) is Some,
        n <= m,
    ensures
        run_after(csr, ni, nn, max_rounds, budget, start, m) == run_after(
            csr,
            ni,
            nn,
            max_rounds,
            budget,
            start,
            n,
        ),
    decreases m,
{
    if n < m {
        lemma_run_stays(csr, ni, nn, max_rounds, budget, start, n, (m - 1) as nat);
    }
}

/// Every step that does not find the run over counts one round, so the
/// run is over after `max_rounds` steps at the latest.
pub proof fn lemma_run_ends(
    csr: &CSR,
    ni: u32,
    nn: u32,
    max_rounds: u32,
    budget: u64,
    start: Run,
    n: nat,
)
    requires
        start.rounds == 0,
    ensures
        run_after(csr, ni, nn, max_rounds, budget, start, n).rounds <= n,
        verdict(run_after(csr, ni, nn, max_rounds, budget, start, n), max_rounds, budget) is None
            ==> run_after(csr, ni, nn, max_rounds, budget, start, n).rounds == n,
        n >= max_rounds ==> verdict(
            run_after(csr, ni, nn, max_rounds, budget, start, n),
            max_rounds,
            budget,
        ) is Some,
    decreases n,
{
    if n > 0 {
        lemma_run_ends(csr, ni, nn, max_rounds, budget, start, (n - 1) as nat);
    }
}


/// An adjacency that groups wires whose effects are aligned and aim at
/// bits that exist serves the chunk.
pub proof fn lemma_grouped_serves(
    csr: &CSR,
    wires: Seq<crate::csr::Wire>,
    src_total: int,
    no: u32,
    nn: u32,
)
    requires
        0 <= src_total,
        csr.groups(wires, src_total),
        forall|k: int|
            0 <= k < csr.effects@.len() ==> crate::csr::effect_aligned(#[trigger] csr.effects@[k])
                && csr.effects@[k].to_bit < (if csr.effects@[k].to_is_internal {
                nn
            } else {
                no
            }),
    ensures
        csr.serves(src_total, no, nn),
{
    lemma_grouped_offsets(csr, wires, src_total, Trigger::On);
    lemma_grouped_offsets(csr, wires, src_total, Trigger::Off);
    lemma_grouped_offsets(csr, wires, src_total, Trigger::Toggle);
}

/// A vector of `n` zero words.
fn zero_words(n: usize) -> (v: Vec<u32>)
    ensures
        v@ == Seq::new(n as nat, |i: int| 0u32),
{
    let mut v: Vec<u32> = Vec::new();
    let mut i: usize = 0;
    while i < n
        invariant
            i <= n,
            v@.len() == i,
            forall|j: int| 0 <= j < i ==> v@[j] == 0,
        decreases n - i,
    {
        v.push(0u32);
        i = i + 1;
    }
    assert(v@ =~= Seq::new(n as nat, |i: int| 0u32));
    v
}

/// Appends the sources `base + b` of the set bits `b` below `k`.
fn push_lit(queue: &mut Vec<u32>, words: &Vec<u32>, base: u32, k: u32)
    requires
        words@.len() >= words_for(k as int),
        base + k <= u32::MAX,
        forall|i: int| 0 <= i < old(queue)@.len() ==> (#[trigger] old(queue)@[i]) < base + k,
    ensures
        final(queue)@ == old(queue)@ + lit(words@, base, k as int),
        forall|i: int| 0 <= i < final(queue)@.len() ==> (#[trigger] final(queue)@[i]) < base + k,
{
    let mut b: u32 = 0;
    proof {
        assert(queue@ + Seq::<u32>::empty() =~= queue@);
    }
    while b < k
        invariant
            b <= k,
            words@.len() >= words_for(k as int),
            base + k <= u32::MAX,
            queue@ == old(queue)@ + lit(words@, base, b as int),
            forall|i: int| 0 <= i < queue@.len() ==> (#[trigger] queue@[i]) < base + k,
        decreases k - b,
    {
        if word_bit_at(words.as_slice(), b) {
            queue.push(base + b);
            proof {
                assert(queue@ =~= old(queue)@ + lit(words@, base, b as int).push((base + b) as u32));
            }
        }
        b = b + 1;
    }
}

/// The frontier a tick starts with, as [`seed_wave`] says.
fn seed_frontier(before: &Vec<u32>, now: &Vec<u32>, internal: &Vec<u32>, ni: u32, nn: u32) -> (f:
    Frontier)
    requires
        before@.len() >= words_for(ni as int),
        now@.len() >= words_for(ni as int),
        internal@.len() >= words_for(nn as int),
        ni + nn <= u32::MAX,
    ensures
        f.on@ == lit(now@, 0, ni as int) + lit(internal@, ni, nn as int),
        f.off@ == fallen(before@, now@, 0, ni as int),
        f.toggle@ == stirred(before@, now@, ni as int) + lit(internal@, ni, nn as int),
        forall|i: int| 0 <= i < f.on@.len() ==> (#[trigger] f.on@[i]) < ni + nn,
        forall|i: int| 0 <= i < f.off@.len() ==> (#[trigger] f.off@[i]) < ni + nn,
        forall|i: int| 0 <= i < f.toggle@.len() ==> (#[trigger] f.toggle@[i]) < ni + nn,
{
    let mut on: Vec<u32> = Vec::new();
    let mut off: Vec<u32> = Vec::new();
    let mut toggle: Vec<u32> = Vec::new();
    let mut b: u32 = 0;
    while b < ni
        invariant
            b <= ni,
            before@.len() >= words_for(ni as int),
            now@.len() >= words_for(ni as int),
            ni + nn <= u32::MAX,
            on@ == lit(now@, 0, b as int),
            off@ == fallen(before@, now@, 0, b as int),
            toggle@ == stirred(before@, now@, b as int),
            forall|i: int| 0 <= i < on@.len() ==> (#[trigger] on@[i]) < ni,
            forall|i: int| 0 <= i < off@.len() ==> (#[trigger] off@[i]) < ni,
            forall|i: int| 0 <= i < toggle@.len() ==> (#[trigger] toggle@[i]) < ni,
        decreases ni - b,
    {
        let was: bool = word_bit_at(before.as_slice(), b);
        let is: bool = word_bit_at(now.as_slice(), b);
        if is {
            on.push(b);
            toggle.push(b);
        } else if was {
            off.push(b);
            toggle.push(b);
        }
        b = b + 1;
    }
    proof {
        assert forall|i: int| 0 <= i < on@.len() implies (#[trigger] on@[i]) < ni + nn by {
            assert(on@[i] < ni);
        }
        assert forall|i: int| 0 <= i < toggle@.len() implies (#[trigger] toggle@[i]) < ni + nn by {
            assert(toggle@[i] < ni);
        }
        assert forall|i: int| 0 <= i < off@.len() implies (#[trigger] off@[i]) < ni + nn by {
            assert(off@[i] < ni);
        }
    }
    push_lit(&mut on, internal, ni, nn);
    push_lit(&mut toggle, internal, ni, nn);
    Frontier { on, off, toggle }
}

/// Computes [`verdict`] from the running counts.
fn judge(
    frontier: &Frontier,
    rounds: u32,
    max_rounds: u32,
    applied: u64,
    budget: u64,
    seen: Option<u32>,
    Ghost(run): Ghost<Run>,
) -> (r: Option<Termination>)
    requires
        run.wave.on == frontier.on@,
        run.wave.off == frontier.off@,
        run.wave.toggle == frontier.toggle@,
        run.rounds == rounds,
        applied == capped(run.applied as int),
        run.seen == seen,
    ensures
        r == verdict(run, max_rounds, budget),
{
    if frontier.on.len() == 0 && frontier.off.len() == 0 && frontier.toggle.len() == 0 {
        Some(Termination::Quiescent)
    } else if rounds >= max_rounds {
        Some(Termination::RoundsExhausted)
    } else if applied > budget {
        Some(Termination::EffectsExhausted)
    } else {
        match seen {
            Some(p) => Some(Termination::Oscillator(p)),
            None => None,
        }
    }
}

/// What a tick carries from round to round besides the buffers.
struct Progress {
    frontier: Frontier,
    detector: CycleDetector,
    rounds: u32,
    applied: u64,
    seen: Option<u32>,
}

/// The buffers and the progress stand for the run `run`.
#[verifier::opaque]
spec fn tracks(s: &Scheduler, p: &Progress, run: Run) -> bool {
    &&& s.ni + s.nn <= u32::MAX
    &&& s.csr.serves(s.ni + s.nn, s.no, s.nn)
    &&& s.internals@.len() == words_for(s.nn as int)
    &&& s.outputs@.len() == words_for(s.no as int)
    &&& run.wave == wave_of(s.internals@, s.outputs@, p.frontier)
    &&& run.wave.sources_below(s.ni + s.nn)
    &&& run.rounds == p.rounds
    &&& p.applied == capped(run.applied as int)
    &&& run.ring == p.detector@
    &&& p.detector@.well_formed()
    &&& run.seen == p.seen
}

impl Scheduler {
    /// Everything but the internal and the output words is as in
    /// `other`.
    spec fn same_setup(&self, other: &Scheduler) -> bool {
        &&& self.ni == other.ni
        &&& self.no == other.no
        &&& self.nn == other.nn
        &&& self.csr == other.csr
        &&& self.policy == other.policy
        &&& self.inputs == other.inputs
        &&& self.stable == other.stable
    }

    /// Seeds the frontier and sets up the detector.
    fn begin(&self, inputs: &Vec<u32>, max_rounds: u32, budget: u64, window: usize) -> (r: (
        Progress,
        Option<Termination>,
    ))
        requires
            self.well_formed(),
            inputs@.len() == words_for(self.ni as int),
            0 < window <= u32::MAX,
        ensures
            tracks(self, &r.0, self.start_run(inputs@, window)),
            r.1 == verdict(self.start_run(inputs@, window), max_rounds, budget),
            r.0.rounds == 0,
    {
        let frontier = seed_frontier(&self.inputs, inputs, &self.internals, self.ni, self.nn);
        let detector = CycleDetector::new(window);
        let ghost start = self.start_run(inputs@, window);
        let cause = judge(&frontier, 0, max_rounds, 0, budget, None, Ghost(start));
        let p = Progress { frontier, detector, rounds: 0, applied: 0, seen: None };
        proof {
            reveal(tracks);
            assert(wave_of(self.internals@, self.outputs@, p.frontier) == start.wave);
            assert(p.detector@ == start.ring);
        }
        (p, cause)
    }

    /// Runs one round and shows the new state to the detector.
    fn step(&mut self, p: &mut Progress, max_rounds: u32, budget: u64, Ghost(run): Ghost<Run>) -> (r:
        Option<Termination>)
        requires
            tracks(old(self), old(p), run),
            verdict(run, max_rounds, budget) is None,
        ensures
            tracks(final(self), final(p), advance(&old(self).csr, old(self).ni, old(self).nn, run)),
            r == verdict(
                advance(&old(self).csr, old(self).ni, old(self).nn, run),
                max_rounds,
                budget,
            ),
            final(self).same_setup(old(self)),
            final(p).rounds == old(p).rounds + 1,
    {
        proof {
            reveal(tracks);
        }
        let count: u64 = run_round(
            &self.csr,
            self.ni,
            self.no,
            self.nn,
            &mut self.internals,
            &mut self.outputs,
            &mut p.frontier,
        );
        p.rounds = p.rounds + 1;
        p.applied = p.applied.saturating_add(count);
        p.seen = p.detector.observe(self.internals.as_slice());
        let ghost next = advance(&old(self).csr, old(self).ni, old(self).nn, run);
        proof {
            assert(next.wave == wave_of(self.internals@, self.outputs@, p.frontier));
            assert(next.rounds == p.rounds);
            assert(p.applied == capped(next.applied as int));
            assert(next.ring == p.detector@);
            assert(next.seen == p.seen);
        }
        judge(&p.frontier, p.rounds, max_rounds, p.applied, budget, p.seen, Ghost(next))
    }

    /// Settles the internal state as the policy says, and notes what
    /// the next tick needs.
    fn finish(&mut self, p: &Progress, inputs: &Vec<u32>, cause: Termination, Ghost(run): Ghost<Run>)
        requires
            tracks(old(self), p, run),
            old(self).internals@.len() == old(self).stable@.len(),
        ensures
            final(self).internals@ == settled_internals(
                old(self).policy,
                cause,
                &old(self).csr,
                old(self).ni,
                old(self).nn,
                run.wave,
                old(self).stable@,
            ),
            final(self).internals@.len() == old(self).internals@.len(),
            final(self).inputs@ == inputs@,
            final(self).stable@ == (if cause is Quiescent {
                old(self).internals@
            } else {
                old(self).stable@
            }),
            final(self).ni == old(self).ni,
            final(self).no == old(self).no,
            final(self).nn == old(self).nn,
            final(self).csr == old(self).csr,
            final(self).policy == old(self).policy,
            final(self).outputs == old(self).outputs,
    {
        proof {
            reveal(tracks);
        }
        let ghost last = self.internals@;
        match cause {
            Termination::Oscillator(period) => {
                match self.policy {
                    Policy::FreezeLastStable => {
                        freeze_last_stable(self.internals.as_mut_slice(), self.stable.as_slice());
                        assert(self.internals@ =~= self.stable@);
                    },
                    Policy::ParityQuench => {
                        parity_quench(self.internals.as_mut_slice(), period);
                        assert(self.internals@ =~= quench(last, period));
                    },
                    Policy::ClampCommutative => {
                        clamp_window(
                            &self.csr,
                            self.ni,
                            self.no,
                            self.nn,
                            &mut self.internals,
                            &self.outputs,
                            &p.frontier,
                            period,
                        );
                    },
                }
            },
            Termination::Quiescent => {
                self.stable = copy_words(&self.internals);
            },
            _ => {},
        }
        self.inputs = copy_words(inputs);
    }

    /// Ends the tick: settles the state and draws up the result.
    fn conclude(&mut self, p: &Progress, inputs: &Vec<u32>, cause: Termination, Ghost(run): Ghost<
        Run,
    >) -> (r: ExecutionResult)
        requires
            tracks(old(self), p, run),
            old(self).inputs@.len() == words_for(old(self).ni as int),
            inputs@.len() == words_for(old(self).ni as int),
            old(self).stable@.len() == words_for(old(self).nn as int),
        ensures
            final(self).well_formed(),
            r.rounds == run.rounds,
            r.effects_applied == capped(run.applied as int),
            r.oscillator == (cause is Oscillator),
            r.period == (match cause {
                Termination::Oscillator(q) => q,
                _ => 0,
            }),
            r.policy == (if cause is Oscillator {
                Some(old(self).policy)
            } else {
                None
            }),
            r.internals@ == settled_internals(
                old(self).policy,
                cause,
                &old(self).csr,
                old(self).ni,
                old(self).nn,
                run.wave,
                old(self).stable@,
            ),
            r.outputs@ == run.wave.output,
            final(self).internals@ == r.internals@,
            final(self).outputs@ == r.outputs@,
            final(self).inputs@ == inputs@,
            final(self).stable@ == (if cause is Quiescent {
                r.internals@
            } else {
                old(self).stable@
            }),
            final(self).ni == old(self).ni,
            final(self).no == old(self).no,
            final(self).nn == old(self).nn,
            final(self).csr == old(self).csr,
            final(self).policy == old(self).policy,
    {
        proof {
            reveal(tracks);
        }
        self.finish(p, inputs, cause, Ghost(run));
        let oscillator: bool = matches!(cause, Termination::Oscillator(_));
        let period: u32 = match cause {
            Termination::Oscillator(q) => q,
            _ => 0,
        };
        ExecutionResult {
            rounds: p.rounds,
            effects_applied: p.applied,
            oscillator,
            period,
            policy: if oscillator { Some(self.policy) } else { None },
            internals: copy_words(&self.internals),
            outputs: copy_words(&self.outputs),
        }
    }

    /// The buffers for a chunk whose connections are wired, as those of
    /// every validated chunk are: its adjacency, its internal and output
    /// bits as words, all inputs clear, and its initial internal state
    /// as the last stable one.
    pub fn new(chunk: &MycosChunk, policy: Policy) -> (s: Scheduler)
        requires
            chunk@.wired(),
            chunk@.sized(),
            chunk@.connections.len() <= u32::MAX,
            chunk.input_count + chunk.internal_count <= u32::MAX,
            chunk.input_count + chunk.internal_count < usize::MAX,
        ensures
            s.well_formed(),
            s.ni == chunk.input_count,
            s.no == chunk.output_count,
            s.nn == chunk.internal_count,
            s.csr.groups(
                chunk_wires(chunk@.connections, chunk.input_count),
                chunk.input_count + chunk.internal_count,
            ),
            s.inputs@ == Seq::new(words_for(chunk.input_count as int) as nat, |i: int| 0u32),
            packs_words(
                s.internals@,
                unpack_bytes(chunk@.internal_bits, chunk.internal_count as int),
            ),
            packs_words(s.outputs@, unpack_bytes(chunk@.output_bits, chunk.output_count as int)),
            s.stable@ == s.internals@,
            s.policy == policy,
    {
        let csr = build_csr(chunk);
        proof {
            lemma_grouped_serves(
                &csr,
                chunk_wires(chunk@.connections, chunk.input_count),
                chunk.input_count + chunk.internal_count,
                chunk.output_count,
                chunk.internal_count,
            );
        }
        let internals = bytes_to_words(chunk.internal_bits.as_slice(), chunk.internal_count);
        let outputs = bytes_to_words(chunk.output_bits.as_slice(), chunk.output_count);
        let stable = copy_words(&internals);
        let inputs = zero_words(crate::layout::word_len(chunk.input_count));
        Scheduler {
            ni: chunk.input_count,
            no: chunk.output_count,
            nn: chunk.internal_count,
            csr,
            inputs,
            internals,
            outputs,
            stable,
            policy,
        }
    }

    /// Selects the policy for the ticks to come.
    pub fn set_policy(&mut self, policy: Policy)
        ensures
            *final(self) == (Scheduler { policy, ..*old(self) }),
    {
        self.policy = policy;
    }

    /// Runs one tick on the fresh input words `inputs`, with a cycle
    /// detector of `window` slots, as [`ticked`] says.
    pub fn tick(
        &mut self,
        inputs: &Vec<u32>,
        max_rounds: u32,
        effect_budget: u64,
        window: usize,
    ) -> (r: (ExecutionResult, Termination))
        requires
            old(self).well_formed(),
            inputs@.len() == words_for(old(self).ni as int),
            0 < window <= u32::MAX,
        ensures
            ticked(old(self), final(self), inputs@, max_rounds, effect_budget, window, r.0, r.1),
    {
        let ghost start = self.start_run(inputs@, window);
        let (mut p, mut cause) = self.begin(inputs, max_rounds, effect_budget, window);
        let ghost mut run: Run = start;
        let ghost mut steps: nat = 0;
        while cause.is_none()
            invariant
                self.same_setup(old(self)),
                tracks(self, &p, run),
                run == run_after(
                    &old(self).csr,
                    old(self).ni,
                    old(self).nn,
                    max_rounds,
                    effect_budget,
                    start,
                    steps,
                ),
                start.rounds == 0,
                cause == verdict(run, max_rounds, effect_budget),
                steps == p.rounds,
                p.rounds <= max_rounds,
            decreases max_rounds - p.rounds,
        {
            proof {
                lemma_run_ends(
                    &old(self).csr,
                    old(self).ni,
                    old(self).nn,
                    max_rounds,
                    effect_budget,
                    start,
                    steps,
                );
            }
            cause = self.step(&mut p, max_rounds, effect_budget, Ghost(run));
            proof {
                run = advance(&old(self).csr, old(self).ni, old(self).nn, run);
                steps = steps + 1;
            }
        }
        proof {
            lemma_run_ends(
                &old(self).csr,
                old(self).ni,
                old(self).nn,
                max_rounds,
                effect_budget,
                start,
                steps,
            );
            lemma_run_stays(
                &old(self).csr,
                old(self).ni,
                old(self).nn,
                max_rounds,
                effect_budget,
                start,
                steps,
                max_rounds as nat,
            );
        }
        let cause: Termination = cause.unwrap();
        let result = self.conclude(&p, inputs, cause, Ghost(run));
        (result, cause)
    }
}


/// The two adjacencies hold the same offsets and effects.
pub open spec fn same_adjacency(a: &CSR, b: &CSR) -> bool {
    &&& a.offs_on@ == b.offs_on@
    &&& a.offs_off@ == b.offs_off@
    &&& a.offs_tog@ == b.offs_tog@
    &&& a.effects@ == b.effects@
}

/// The two schedulers hold the same buffers, adjacency and policy.
pub open spec fn same_state(a: &Scheduler, b: &Scheduler) -> bool {
    &&& a.ni == b.ni
    &&& a.no == b.no
    &&& a.nn == b.nn
    &&& same_adjacency(&a.csr, &b.csr)
    &&& a.inputs@ == b.inputs@
    &&& a.internals@ == b.internals@
    &&& a.outputs@ == b.outputs@
    &&& a.stable@ == b.stable@
    &&& a.policy == b.policy
}

/// The two results report the same.
pub open spec fn same_report(a: ExecutionResult, b: ExecutionResult) -> bool {
    &&& a.rounds == b.rounds
    &&& a.effects_applied == b.effects_applied
    &&& a.oscillator == b.oscillator
    &&& a.period == b.period
    &&& a.policy == b.policy
    &&& a.internals@ == b.internals@
    &&& a.outputs@ == b.outputs@
}

/// Equal adjacencies expand a queue to the same effects.
proof fn lemma_stage_same(a: &CSR, b: &CSR, t: Trigger, queue: Seq<u32>)
    requires
        same_adjacency(a, b),
    ensures
        crate::wave::stage(a, t, queue) == crate::wave::stage(b, t, queue),
    decreases queue.len(),
{
    if queue.len() > 0 {
        lemma_stage_same(a, b, t, queue.drop_last());
        assert(a.bucket(t, queue.last() as int) == b.bucket(t, queue.last() as int));
    }
}

/// Equal adjacencies advance a run in the same way.
proof fn lemma_advance_same(a: &CSR, b: &CSR, ni: u32, nn: u32, run: Run)
    requires
        same_adjacency(a, b),
    ensures
        advance(a, ni, nn, run) == advance(b, ni, nn, run),
{
    reveal(next_wave);
    lemma_stage_same(a, b, Trigger::On, run.wave.on);
    lemma_stage_same(a, b, Trigger::Off, run.wave.off);
    lemma_stage_same(a, b, Trigger::Toggle, run.wave.toggle);
}

/// Equal adjacencies lead a run through the same states.
proof fn lemma_run_same(
    a: &CSR,
    b: &CSR,
    ni: u32,
    nn: u32,
    max_rounds: u32,
    budget: u64,
    start: Run,
    n: nat,
)
    requires
        same_adjacency(a, b),
    ensures
        run_after(a, ni, nn, max_rounds, budget, start, n) == run_after(
            b,
            ni,
            nn,
            max_rounds,
            budget,
            start,
            n,
        ),
    decreases n,
{
    if n > 0 {
        lemma_run_same(a, b, ni, nn, max_rounds, budget, start, (n - 1) as nat);
        lemma_advance_same(
            a,
            b,
            ni,
            nn,
            run_after(a, ni, nn, max_rounds, budget, start, (n - 1) as nat),
        );
    }
}

/// Equal adjacencies clamp a wave in the same way.
proof fn lemma_window_same(a: &CSR, b: &CSR, ni: u32, nn: u32, w: Wave, k: nat)
    requires
        same_adjacency(a, b),
    ensures
        wave_after(a, ni, nn, w, k) == wave_after(b, ni, nn, w, k),
        window_effects(a, ni, nn, w, k) == window_effects(b, ni, nn, w, k),
    decreases k,
{
    if k > 0 {
        lemma_window_same(a, b, ni, nn, w, (k - 1) as nat);
        let at = wave_after(a, ni, nn, w, (k - 1) as nat);
        reveal(next_wave);
        lemma_stage_same(a, b, Trigger::On, at.on);
        lemma_stage_same(a, b, Trigger::Off, at.off);
        lemma_stage_same(a, b, Trigger::Toggle, at.toggle);
    }
}

/// A tick is a function of what it starts from: two ticks that start
/// from the same state, on the same inputs and under the same limits,
/// end for the same reason, report the same, and leave the same state.
pub proof fn lemma_tick_deterministic(
    pre1: &Scheduler,
    pre2: &Scheduler,
    post1: &Scheduler,
    post2: &Scheduler,
    inputs: Seq<u32>,
    max_rounds: u32,
    budget: u64,
    window: usize,
    result1: ExecutionResult,
    result2: ExecutionResult,
    cause1: Termination,
    cause2: Termination,
)
    requires
        same_state(pre1, pre2),
        ticked(pre1, post1, inputs, max_rounds, budget, window, result1, cause1),
        ticked(pre2, post2, inputs, max_rounds, budget, window, result2, cause2),
    ensures
        cause1 == cause2,
        same_report(result1, result2),
        same_state(post1, post2),
{
    assert(pre1.start_run(inputs, window) == pre2.start_run(inputs, window));
    lemma_run_same(
        &pre1.csr,
        &pre2.csr,
        pre1.ni,
        pre1.nn,
        max_rounds,
        budget,
        pre1.start_run(inputs, window),
        max_rounds as nat,
    );
    match cause1 {
        Termination::Oscillator(p) => {
            lemma_window_same(
                &pre1.csr,
                &pre2.csr,
                pre1.ni,
                pre1.nn,
                pre1.final_run(inputs, max_rounds, budget, window).wave,
                p as nat,
            );
        },
        _ => {},
    }
}


/// The input words that a chunk brings along: its input bits, packed.
pub open spec fn initial_inputs(c: ChunkView) -> Seq<u32> {
    choose|w: Seq<u32>| packs_words(w, unpack_bytes(c.input_bits, c.input_count as int))
}

/// The input bits of a chunk as words.
pub fn first_inputs(chunk: &MycosChunk) -> (w: Vec<u32>)
    requires
        chunk@.sized(),
    ensures
        w@ == initial_inputs(chunk@),
        packs_words(w@, unpack_bytes(chunk@.input_bits, chunk.input_count as int)),
        w@.len() == words_for(chunk.input_count as int),
{
    let w = bytes_to_words(chunk.input_bits.as_slice(), chunk.input_count);
    proof {
        let bits = unpack_bytes(chunk@.input_bits, chunk.input_count as int);
        assert(packs_words(w@, bits));
        crate::layout::lemma_packing_unique(w@, initial_inputs(chunk@), bits);
    }
    w
}

} // verus!
