//! The seed tasks: which bits a task drives and observes, and for each
//! episode the stimulus and the expected outputs, tick by tick.

use vstd::prelude::*;
use crate::scoring::ScoringSpec;

verus! {

/// One bit of one chunk.
#[derive(Clone, Copy, Debug, PartialEq, Eq, Structural)]
pub struct Io {
    pub chunk_id: u32,
    pub bit_idx: u32,
}

/// The bits that a task drives and the bits that it observes.
#[derive(Clone, Debug)]
pub struct IoMap {
    pub inputs: Vec<Io>,
    pub outputs: Vec<Io>,
}

/// One episode: the input words and the expected output words of every
/// tick.
#[derive(Clone, Debug)]
pub struct EpisodeSpec {
    pub stimulus: Vec<Vec<u32>>,
    pub expected: Vec<Vec<u32>>,
}

/// A task: its name, its bits, its episodes, the number of ticks an
/// episode may take, and how it is scored.
#[derive(Clone, Debug)]
pub struct Task {
    pub name: &'static str,
    pub io: IoMap,
    pub episodes: Vec<EpisodeSpec>,
    pub tick_budget: u32,
    pub scoring: ScoringSpec,
}

/// Rows of words as mathematical sequences.
pub open spec fn rows(v: Seq<Vec<u32>>) -> Seq<Seq<u32>> {
    Seq::new(v.len(), |i: int| v[i]@)
}

/// The content of an episode: stimulus and expectation.
pub open spec fn episode_view(e: EpisodeSpec) -> (Seq<Seq<u32>>, Seq<Seq<u32>>) {
    (rows(e.stimulus@), rows(e.expected@))
}

/// The contents of the episodes of a task.
pub open spec fn episode_views(v: Seq<EpisodeSpec>) -> Seq<(Seq<Seq<u32>>, Seq<Seq<u32>>)> {
    Seq::new(v.len(), |i: int| episode_view(v[i]))
}

/// An episode of single-word ticks.
fn episode(stimulus: &[u32], expected: &[u32]) -> (e: EpisodeSpec)
    ensures
        episode_view(e) == (
            Seq::new(stimulus@.len(), |i: int| seq![stimulus@[i]]),
            Seq::new(expected@.len(), |i: int| seq![expected@[i]]),
        ),
{
    let s = column(stimulus);
    let x = column(expected);
    EpisodeSpec { stimulus: s, expected: x }
}

/// One single-word row for every word of `words`.
fn column(words: &[u32]) -> (v: Vec<Vec<u32>>)
    ensures
        rows(v@) == Seq::new(words@.len(), |i: int| seq![words@[i]]),
{
    let n: usize = words.len();
    let mut v: Vec<Vec<u32>> = Vec::new();
    let mut i: usize = 0;
    while i < n
        invariant
            i <= n,
            n == words@.len(),
            v@.len() == i,
            forall|j: int| 0 <= j < i ==> (#[trigger] v@[j])@ == seq![words@[j]],
        decreases n - i,
    {
        let mut row: Vec<u32> = Vec::new();
        row.push(words[i]);
        assert(row@ =~= seq![words@[i as int]]);
        v.push(row);
        i = i + 1;
    }
    assert(rows(v@) =~= Seq::new(words@.len(), |i: int| seq![words@[i]]));
    v
}

/// T-00 Wire-Echo: the output mirrors the input within the tick. Two
/// episodes of one tick: input 1 gives 1, input 0 gives 0.
pub fn t00_wire_echo() -> (t: Task)
    ensures
        t.name@ == "T-00 Wire-Echo"@,
        t.io.inputs@ == seq![Io { chunk_id: 0, bit_idx: 0 }],
        t.io.outputs@ == seq![Io { chunk_id: 0, bit_idx: 0 }],
        episode_views(t.episodes@) == seq![
            (seq![seq![1u32]], seq![seq![1u32]]),
            (seq![seq![0u32]], seq![seq![0u32]]),
        ],
        t.tick_budget == 1,
        t.scoring == ScoringSpec::Hamming,
{
    let e0 = episode(&[1], &[1]);
    let e1 = episode(&[0], &[0]);
    let mut episodes: Vec<EpisodeSpec> = Vec::new();
    episodes.push(e0);
    episodes.push(e1);
    let mut inputs: Vec<Io> = Vec::new();
    inputs.push(Io { chunk_id: 0, bit_idx: 0 });
    let mut outputs: Vec<Io> = Vec::new();
    outputs.push(Io { chunk_id: 0, bit_idx: 0 });
    proof {
        assert(inputs@ =~= seq![Io { chunk_id: 0, bit_idx: 0 }]);
        assert(outputs@ =~= seq![Io { chunk_id: 0, bit_idx: 0 }]);
        assert(episode_views(episodes@) =~~= seq![
            (seq![seq![1u32]], seq![seq![1u32]]),
            (seq![seq![0u32]], seq![seq![0u32]]),
        ]);
    }
    Task {
        name: "T-00 Wire-Echo",
        io: IoMap { inputs, outputs },
        episodes,
        tick_budget: 1,
        scoring: ScoringSpec::Hamming,
    }
}


/// T-01 XOR-2: the output is the exclusive or of the two inputs. Four
/// episodes of one tick, one for every pair of inputs.
pub fn t01_xor_2() -> (t: Task)
    ensures
        t.name@ == "T-01 XOR-2"@,
        t.io.inputs@ == seq![Io { chunk_id: 0, bit_idx: 0 }, Io { chunk_id: 0, bit_idx: 1 }],
        t.io.outputs@ == seq![Io { chunk_id: 0, bit_idx: 2 }],
        episode_views(t.episodes@) == seq![
            (seq![seq![0u32]], seq![seq![0u32]]),
            (seq![seq![1u32]], seq![seq![1u32]]),
            (seq![seq![2u32]], seq![seq![1u32]]),
            (seq![seq![3u32]], seq![seq![0u32]]),
        ],
        t.tick_budget == 1,
        t.scoring == ScoringSpec::Hamming,
{
    let e0 = episode(&[0], &[0]);
    let e1 = episode(&[1], &[1]);
    let e2 = episode(&[2], &[1]);
    let e3 = episode(&[3], &[0]);
    let mut episodes: Vec<EpisodeSpec> = Vec::new();
    episodes.push(e0);
    episodes.push(e1);
    episodes.push(e2);
    episodes.push(e3);
    let mut inputs: Vec<Io> = Vec::new();
    inputs.push(Io { chunk_id: 0, bit_idx: 0 });
    inputs.push(Io { chunk_id: 0, bit_idx: 1 });
    let mut outputs: Vec<Io> = Vec::new();
    outputs.push(Io { chunk_id: 0, bit_idx: 2 });
    proof {
        assert(inputs@ =~= seq![Io { chunk_id: 0, bit_idx: 0 }, Io { chunk_id: 0, bit_idx: 1 }]);
        assert(outputs@ =~= seq![Io { chunk_id: 0, bit_idx: 2 }]);
        assert(episode_views(episodes@) =~~= seq![
            (seq![seq![0u32]], seq![seq![0u32]]),
            (seq![seq![1u32]], seq![seq![1u32]]),
            (seq![seq![2u32]], seq![seq![1u32]]),
            (seq![seq![3u32]], seq![seq![0u32]]),
        ]);
    }
    Task {
        name: "T-01 XOR-2",
        io: IoMap { inputs, outputs },
        episodes,
        tick_budget: 1,
        scoring: ScoringSpec::Hamming,
    }
}

/// T-02 SR-Latch: a set-reset latch, with S on input bit 0 and R on
/// input bit 1. One episode of four ticks: set, hold, reset, hold.
pub fn t02_sr_latch() -> (t: Task)
    ensures
        t.name@ == "T-02 SR-Latch"@,
        t.io.inputs@ == seq![Io { chunk_id: 0, bit_idx: 0 }, Io { chunk_id: 0, bit_idx: 1 }],
        t.io.outputs@ == seq![Io { chunk_id: 0, bit_idx: 2 }],
        episode_views(t.episodes@) == seq![
            (
                seq![seq![1u32], seq![0u32], seq![2u32], seq![0u32]],
                seq![seq![1u32], seq![1u32], seq![0u32], seq![0u32]],
            ),
        ],
        t.tick_budget == 4,
        t.scoring == ScoringSpec::Hamming,
{
    let e0 = episode(&[1, 0, 2, 0], &[1, 1, 0, 0]);
    let mut episodes: Vec<EpisodeSpec> = Vec::new();
    episodes.push(e0);
    let mut inputs: Vec<Io> = Vec::new();
    inputs.push(Io { chunk_id: 0, bit_idx: 0 });
    inputs.push(Io { chunk_id: 0, bit_idx: 1 });
    let mut outputs: Vec<Io> = Vec::new();
    outputs.push(Io { chunk_id: 0, bit_idx: 2 });
    proof {
        assert(inputs@ =~= seq![Io { chunk_id: 0, bit_idx: 0 }, Io { chunk_id: 0, bit_idx: 1 }]);
        assert(outputs@ =~= seq![Io { chunk_id: 0, bit_idx: 2 }]);
        assert(episode_views(episodes@) =~~= seq![
            (
                seq![seq![1u32], seq![0u32], seq![2u32], seq![0u32]],
                seq![seq![1u32], seq![1u32], seq![0u32], seq![0u32]],
            ),
        ]);
    }
    Task {
        name: "T-02 SR-Latch",
        io: IoMap { inputs, outputs },
        episodes,
        tick_budget: 4,
        scoring: ScoringSpec::Hamming,
    }
}

/// T-03 Pulse-Counter: counts pulses modulo four on two output bits.
/// One episode of three pulses.
pub fn t03_pulse_counter() -> (t: Task)
    ensures
        t.name@ == "T-03 Pulse-Counter"@,
        t.io.inputs@ == seq![Io { chunk_id: 0, bit_idx: 0 }],
        t.io.outputs@ == seq![Io { chunk_id: 0, bit_idx: 1 }, Io { chunk_id: 0, bit_idx: 2 }],
        episode_views(t.episodes@) == seq![
            (seq![seq![1u32], seq![1u32], seq![1u32]], seq![seq![1u32], seq![2u32], seq![3u32]]),
        ],
        t.tick_budget == 3,
        t.scoring == ScoringSpec::Hamming,
{
    let e0 = episode(&[1, 1, 1], &[1, 2, 3]);
    let mut episodes: Vec<EpisodeSpec> = Vec::new();
    episodes.push(e0);
    let mut inputs: Vec<Io> = Vec::new();
    inputs.push(Io { chunk_id: 0, bit_idx: 0 });
    let mut outputs: Vec<Io> = Vec::new();
    outputs.push(Io { chunk_id: 0, bit_idx: 1 });
    outputs.push(Io { chunk_id: 0, bit_idx: 2 });
    proof {
        assert(inputs@ =~= seq![Io { chunk_id: 0, bit_idx: 0 }]);
        assert(outputs@ =~= seq![Io { chunk_id: 0, bit_idx: 1 }, Io { chunk_id: 0, bit_idx: 2 }]);
        assert(episode_views(episodes@) =~~= seq![
            (seq![seq![1u32], seq![1u32], seq![1u32]], seq![seq![1u32], seq![2u32], seq![3u32]]),
        ]);
    }
    Task {
        name: "T-03 Pulse-Counter",
        io: IoMap { inputs, outputs },
        episodes,
        tick_budget: 3,
        scoring: ScoringSpec::Hamming,
    }
}

/// T-04 Cross-Chunk Relay: an input of chunk 0 shows on an output of
/// chunk 1 one tick later. One episode of two ticks.
pub fn t04_cross_chunk_relay() -> (t: Task)
    ensures
        t.name@ == "T-04 Cross-Chunk Relay"@,
        t.io.inputs@ == seq![Io { chunk_id: 0, bit_idx: 0 }],
        t.io.outputs@ == seq![Io { chunk_id: 1, bit_idx: 0 }],
        episode_views(t.episodes@) == seq![
            (seq![seq![1u32], seq![0u32]], seq![seq![0u32], seq![1u32]]),
        ],
        t.tick_budget == 2,
        t.scoring == ScoringSpec::Hamming,
{
    let e0 = episode(&[1, 0], &[0, 1]);
    let mut episodes: Vec<EpisodeSpec> = Vec::new();
    episodes.push(e0);
    let mut inputs: Vec<Io> = Vec::new();
    inputs.push(Io { chunk_id: 0, bit_idx: 0 });
    let mut outputs: Vec<Io> = Vec::new();
    outputs.push(Io { chunk_id: 1, bit_idx: 0 });
    proof {
        assert(inputs@ =~= seq![Io { chunk_id: 0, bit_idx: 0 }]);
        assert(outputs@ =~= seq![Io { chunk_id: 1, bit_idx: 0 }]);
        assert(episode_views(episodes@) =~~= seq![
            (seq![seq![1u32], seq![0u32]], seq![seq![0u32], seq![1u32]]),
        ]);
    }
    Task {
        name: "T-04 Cross-Chunk Relay",
        io: IoMap { inputs, outputs },
        episodes,
        tick_budget: 2,
        scoring: ScoringSpec::Hamming,
    }
}

} // verus!
