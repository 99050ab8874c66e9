//! The evaluation driver: runs a population through the ticks of an
//! episode and reports what it did and what its outputs were.

use vstd::prelude::*;
use crate::chunk::{Action, Connection, MycosChunk, Section, Trigger};
use crate::engine::{advanced, capped32, fed, metrics_of, summarize, Metrics, MycosHandle};
use crate::genome::{ChunkGene, ChunkGeneView, ConnGene, Genome, LinkGene};
use crate::layout::{byte_len, packs_bytes, set_byte_bit, lemma_byte_bit_ops, bit_of_bytes};
use crate::link::Link;
use crate::policy::{ExecutionResult, Policy};
use crate::scheduler::Termination;
use crate::tasks::Task;

verus! {

/// The input words of a one-tick episode.
#[derive(Clone, Debug)]
pub struct Episode {
    pub inputs: Vec<u32>,
}

/// What an episode did: the rounds and the effects of its ticks added
/// up, each up to the largest `u32`; whether any chunk oscillated in any
/// tick; and the period of the first oscillation found, or zero.
#[derive(Clone, Copy, Debug, PartialEq, Eq, Structural)]
pub struct EpisodeMetrics {
    pub rounds: u32,
    pub effects: u32,
    pub oscillator: bool,
    pub period: u32,
}

impl Default for EpisodeMetrics {
    fn default() -> (m: EpisodeMetrics)
        ensures
            m == (EpisodeMetrics { rounds: 0, effects: 0, oscillator: false, period: 0 }),
    {
        EpisodeMetrics { rounds: 0, effects: 0, oscillator: false, period: 0 }
    }
}

/// What evaluating one genome gave: for every episode its metrics and
/// the output words captured at its end.
#[derive(Clone, Debug)]
pub struct Evaluation {
    pub metrics: Vec<EpisodeMetrics>,
    pub outputs: Vec<Vec<u32>>,
}

/// One tick of an episode: the engine before, the engine after its
/// inputs were stored, the engine after the tick, what the chunks
/// reported, and the effects over the links.
pub struct TickLog {
    pub start: MycosHandle,
    pub fed: MycosHandle,
    pub end: MycosHandle,
    pub reports: Seq<(ExecutionResult, Termination)>,
    pub link_effects: u64,
}

/// The period of the first oscillation among the first `k` reports, if
/// there is one.
pub open spec fn first_oscillation(reports: Seq<(ExecutionResult, Termination)>, k: int) -> Option<
    u32,
>
    decreases k,
{
    if k <= 0 {
        None
    } else {
        match first_oscillation(reports, k - 1) {
            Some(p) => Some(p),
            None => if reports[k - 1].0.oscillator {
                Some(reports[k - 1].0.period)
            } else {
                None
            },
        }
    }
}

/// The metrics of an episode after one more tick.
pub open spec fn with_tick(
    m: EpisodeMetrics,
    reports: Seq<(ExecutionResult, Termination)>,
    link_effects: u64,
) -> EpisodeMetrics {
    let t = metrics_of(reports, link_effects);
    let seen = first_oscillation(reports, reports.len() as int);
    EpisodeMetrics {
        rounds: capped32(m.rounds + t.rounds),
        effects: capped32(m.effects + t.effects),
        oscillator: m.oscillator || seen is Some,
        period: if m.oscillator {
            m.period
        } else {
            match seen {
                Some(p) => p,
                None => 0,
            }
        },
    }
}

/// The metrics of the first `k` ticks of an episode.
pub open spec fn episode_metrics(logs: Seq<TickLog>, k: int) -> EpisodeMetrics
    decreases k,
{
    if k <= 0 {
        EpisodeMetrics { rounds: 0, effects: 0, oscillator: false, period: 0 }
    } else {
        with_tick(episode_metrics(logs, k - 1), logs[k - 1].reports, logs[k - 1].link_effects)
    }
}

/// The output words of chunk `chunk_id`, or none if there is no such
/// chunk.
pub open spec fn watched(h: &MycosHandle, chunk_id: u32) -> Seq<u32> {
    if chunk_id < h.schedulers@.len() {
        h.schedulers@[chunk_id as int].outputs@
    } else {
        Seq::empty()
    }
}

/// `log` is a tick on the stimulus `words`: the words are stored for
/// chunk `input_chunk`, then the engine runs.
#[verifier::opaque]
pub open spec fn tick_logged(
    log: TickLog,
    input_chunk: u32,
    words: Seq<u32>,
    max_rounds: Option<u32>,
) -> bool {
    fed(&log.start, &log.fed, input_chunk, words) && advanced(
        &log.fed,
        &log.end,
        max_rounds,
        log.reports,
        log.link_effects,
    )
}

/// Tick `t` starts where the tick before it ended.
pub open spec fn follows(logs: Seq<TickLog>, t: int) -> bool {
    logs[t].start == logs[t - 1].end
}

/// `logs` are the ticks of an episode that leads the engine from
/// `first` to `last`: every tick stores the stimulus of its tick for
/// chunk `input_chunk` and then runs the engine, and every tick starts
/// where the one before it ended.
pub open spec fn episode_logged(
    logs: Seq<TickLog>,
    first: &MycosHandle,
    last: &MycosHandle,
    input_chunk: u32,
    stimulus: Seq<Vec<u32>>,
    max_rounds: Option<u32>,
) -> bool {
    &&& logs.len() == stimulus.len()
    &&& forall|t: int|
        0 <= t < logs.len() ==> tick_logged(#[trigger] logs[t], input_chunk, stimulus[t]@, max_rounds)
    &&& forall|t: int| 0 < t < logs.len() ==> #[trigger] follows(logs, t)
    &&& if logs.len() == 0 {
        *last == *first
    } else {
        logs[0].start == *first && logs[logs.len() - 1].end == *last
    }
}

/// The period of the first oscillation reported, if any.
fn find_oscillation(reports: &Vec<(ExecutionResult, Termination)>) -> (r: Option<u32>)
    ensures
        r == first_oscillation(reports@, reports@.len() as int),
{
    let n: usize = reports.len();
    let mut i: usize = 0;
    while i < n
        invariant
            i <= n,
            n == reports@.len(),
            first_oscillation(reports@, i as int) is None,
        decreases n - i,
    {
        if reports[i].0.oscillator {
            let p: u32 = reports[i].0.period;
            proof {
                lemma_oscillation_stays(reports@, i + 1, n as int);
            }
            return Some(p);
        }
        i = i + 1;
    }
    None
}

/// Once found, the first oscillation stays the first.
proof fn lemma_oscillation_stays(reports: Seq<(ExecutionResult, Termination)>, k: int, n: int)
    requires
        k <= n,
        first_oscillation(reports, k) is Some,
    ensures
        first_oscillation(reports, n) == first_oscillation(reports, k),
    decreases n - k,
{
    if k < n {
        lemma_oscillation_stays(reports, k, n - 1);
    }
}

/// A `u32` sum that stops at the largest `u32`.
fn add_capped(a: u32, b: u32) -> (r: u32)
    ensures
        r == capped32(a + b),
{
    if a > u32::MAX - b {
        u32::MAX
    } else {
        a + b
    }
}

/// One tick of an episode: stores `words` for chunk `input_chunk`,
/// runs the engine, and captures the output words of chunk
/// `output_chunk`. Returns the metrics of the tick, the first
/// oscillation found, and the captured words.
fn episode_tick(
    handle: &mut MycosHandle,
    input_chunk: u32,
    output_chunk: u32,
    words: &Vec<u32>,
    max_rounds: Option<u32>,
) -> (r: (Metrics, Option<u32>, Vec<u32>, Ghost<TickLog>))
    requires
        old(handle).well_formed(),
    ensures
        final(handle).well_formed(),
        r.3@.start == *old(handle),
        r.3@.end == *final(handle),
        tick_logged(r.3@, input_chunk, words@, max_rounds),
        r.0 == metrics_of(r.3@.reports, r.3@.link_effects),
        r.1 == first_oscillation(r.3@.reports, r.3@.reports.len() as int),
        r.2@ == watched(final(handle), output_chunk),
{
    let ghost start = *handle;
    handle.set_inputs(input_chunk, words);
    let ghost mid = *handle;
    let (reports, link_effects) = handle.tick_all(max_rounds);
    let tick: Metrics = summarize(&reports, link_effects);
    let seen: Option<u32> = find_oscillation(&reports);
    let captured: Vec<u32> = match handle.get_outputs(output_chunk) {
        Some(w) => w,
        None => Vec::new(),
    };
    let ghost log = TickLog { start, fed: mid, end: *handle, reports: reports@, link_effects };
    proof {
        reveal(tick_logged);
    }
    (tick, seen, captured, Ghost(log))
}

/// Runs an episode on the engine as it stands: for every tick, the
/// stimulus of the tick is stored as the input words of chunk
/// `input_chunk`, the engine is ticked, and the output words of chunk
/// `output_chunk` are captured. Returns the metrics of the episode and
/// the captured words, tick by tick.
pub fn run_episode(
    handle: &mut MycosHandle,
    input_chunk: u32,
    output_chunk: u32,
    stimulus: &Vec<Vec<u32>>,
    max_rounds: Option<u32>,
) -> (r: (EpisodeMetrics, Vec<Vec<u32>>))
    requires
        old(handle).well_formed(),
    ensures
        final(handle).well_formed(),
        r.1@.len() == stimulus@.len(),
        exists|logs: Seq<TickLog>| #[trigger]
            episode_logged(logs, old(handle), final(handle), input_chunk, stimulus@, max_rounds)
                && r.0 == episode_metrics(logs, logs.len() as int) && forall|t: int|
                0 <= t < logs.len() ==> (#[trigger] r.1@[t])@ == watched(&logs[t].end, output_chunk),
{
    let n: usize = stimulus.len();
    let mut metrics = EpisodeMetrics { rounds: 0, effects: 0, oscillator: false, period: 0 };
    let mut captured: Vec<Vec<u32>> = Vec::new();
    let ghost mut logs: Seq<TickLog> = Seq::empty();
    let mut t: usize = 0;
    while t < n
        invariant
            t <= n,
            n == stimulus@.len(),
            handle.well_formed(),
            captured@.len() == t,
            logs.len() == t,
            forall|k: int|
                0 <= k < t ==> tick_logged(#[trigger] logs[k], input_chunk, stimulus@[k]@, max_rounds),
            forall|k: int| 0 < k < t ==> #[trigger] follows(logs, k),
            t == 0 ==> *handle == *old(handle),
            t > 0 ==> logs[0].start == *old(handle) && logs[t - 1].end == *handle,
            metrics == episode_metrics(logs, t as int),
            forall|k: int|
                0 <= k < t ==> (#[trigger] captured@[k])@ == watched(&logs[k].end, output_chunk),
        decreases n - t,
    {
        let ghost before_logs = logs;
        let ghost before_captured = captured@;
        let (tick, seen, words, Ghost(log)) = episode_tick(
            handle,
            input_chunk,
            output_chunk,
            &stimulus[t],
            max_rounds,
        );
        metrics = EpisodeMetrics {
            rounds: add_capped(metrics.rounds, tick.rounds),
            effects: add_capped(metrics.effects, tick.effects),
            oscillator: metrics.oscillator || seen.is_some(),
            period: if metrics.oscillator {
                metrics.period
            } else {
                match seen {
                    Some(p) => p,
                    None => 0,
                }
            },
        };
        captured.push(words);
        proof {
            logs = logs.push(log);
            lemma_metrics_prefix(before_logs, logs, t as int);
            assert forall|k: int| 0 <= k < t + 1 implies tick_logged(
                #[trigger] logs[k],
                input_chunk,
                stimulus@[k]@,
                max_rounds,
            ) by {
                if k < t {
                    assert(logs[k] == before_logs[k]);
                }
            }
            assert forall|k: int| 0 < k < t + 1 implies #[trigger] follows(logs, k) by {
                assert(logs[k - 1] == before_logs[k - 1]);
                if k < t {
                    assert(logs[k] == before_logs[k]);
                    assert(follows(before_logs, k));
                }
            }
            if t > 0 {
                assert(logs[0] == before_logs[0]);
            }
            assert forall|k: int| 0 <= k < t + 1 implies (#[trigger] captured@[k])@ == watched(
                &logs[k].end,
                output_chunk,
            ) by {
                if k < t {
                    assert(captured@[k] == before_captured[k]);
                    assert(logs[k] == before_logs[k]);
                }
            }
        }
        t = t + 1;
    }
    proof {
        assert(episode_logged(logs, old(handle), handle, input_chunk, stimulus@, max_rounds));
    }
    (metrics, captured)
}

/// The metrics of the first ticks do not depend on the ticks behind
/// them.
proof fn lemma_metrics_prefix(short: Seq<TickLog>, long: Seq<TickLog>, k: int)
    requires
        0 <= k <= short.len(),
        k <= long.len(),
        forall|i: int| 0 <= i < k ==> short[i] == long[i],
    ensures
        episode_metrics(short, k) == episode_metrics(long, k),
    decreases k,
{
    if k > 0 {
        lemma_metrics_prefix(short, long, k - 1);
    }
}


/// The connection that a connection gene stands for.
pub open spec fn expressed_conn(c: ConnGene) -> Connection {
    Connection {
        from_section: Section::decode(c.from_section)->Ok_0,
        to_section: Section::decode(c.to_section)->Ok_0,
        trigger: Trigger::decode(c.trigger)->Ok_0,
        action: Action::decode(c.action)->Ok_0,
        from_index: c.from_index,
        to_index: c.to_index,
        order_tag: c.order_tag,
    }
}

/// The link that a link gene stands for.
pub open spec fn expressed_link(l: LinkGene) -> Link {
    Link {
        from_chunk: l.from_chunk,
        from_out_idx: l.from_out_idx,
        trigger: Trigger::decode(l.trigger)->Ok_0,
        action: Action::decode(l.action)->Ok_0,
        to_chunk: l.to_chunk,
        to_in_idx: l.to_in_idx,
        order_tag: l.order_tag,
    }
}

/// `c` is the chunk that the gene `g` stands for: the same counts, the
/// initial bits packed in bytes, the connections with their tags
/// decoded, and no metadata.
pub open spec fn expressed(c: &MycosChunk, g: ChunkGeneView) -> bool {
    &&& c.input_count == g.ni
    &&& c.output_count == g.no
    &&& c.internal_count == g.nn
    &&& packs_bytes(c@.input_bits, g.inputs_init)
    &&& packs_bytes(c@.output_bits, g.outputs_init)
    &&& packs_bytes(c@.internal_bits, g.internals_init)
    &&& c@.connections == Seq::new(g.conns.len(), |i: int| expressed_conn(g.conns[i]))
    &&& c@.name is None
    &&& c@.note is None
    &&& c@.build_hash is None
}

/// Packs the bits of a bit vector into bytes.
fn pack_bits(bits: &crate::genome::Bits) -> (bytes: Vec<u8>)
    requires
        bits@.len() <= u32::MAX,
    ensures
        packs_bytes(bytes@, bits@),
{
    let n: u32 = bits.len() as u32;
    let count: usize = byte_len(n);
    let mut bytes: Vec<u8> = Vec::new();
    let mut c: usize = 0;
    while c < count
        invariant
            c <= count,
            bytes@.len() == c,
            forall|j: int| 0 <= j < c ==> bytes@[j] == 0,
        decreases count - c,
    {
        bytes.push(0u8);
        c = c + 1;
    }
    proof {
        assert forall|i: int| 0 <= i < 8 * bytes@.len() implies !bit_of_bytes(bytes@, i) by {
            lemma_byte_bit_ops(0, 0, (i % 8) as u32);
        }
    }
    let mut i: u32 = 0;
    while i < n
        invariant
            i <= n,
            n == bits@.len(),
            bytes@.len() == crate::layout::bytes_for(n as int),
            forall|k: int| 0 <= k < i ==> bit_of_bytes(bytes@, k) == bits@[k],
            forall|k: int| i <= k < 8 * bytes@.len() ==> !bit_of_bytes(bytes@, k),
        decreases n - i,
    {
        if bits.get(i as usize) {
            set_byte_bit(&mut bytes, i, true);
        }
        i = i + 1;
    }
    bytes
}

/// The chunk that a chunk gene stands for, if the gene is valid.
pub fn express_chunk(g: &ChunkGene) -> (r: Option<MycosChunk>)
    ensures
        r is Some <==> g@.defect() is None,
        r matches Some(c) ==> expressed(&c, g@) && c@.well_formed(),
{
    match g.validate() {
        Ok(()) => {},
        Err(_) => {
            return None;
        },
    }
    let n: usize = g.conns.len();
    let mut connections: Vec<Connection> = Vec::new();
    let mut i: usize = 0;
    while i < n
        invariant
            i <= n,
            n == g@.conns.len(),
            crate::genome::conn_defect_from(g@, i as int) is None,
            connections@.len() == i,
            forall|k: int|
                0 <= k < i ==> (#[trigger] connections@[k]) == expressed_conn(g@.conns[k])
                    && crate::chunk::connection_defect(connections@[k], g.ni, g.no, g.nn) is None,
        decreases n - i,
    {
        let c: ConnGene = g.conns[i];
        assert(c.defect_in(g.ni, g.no, g.nn) is None);
        let from_section = if c.from_section == 0 { Section::Input } else { Section::Internal };
        let to_section = if c.to_section == 1 { Section::Internal } else { Section::Output };
        let trigger = if c.trigger == 0 {
            Trigger::On
        } else if c.trigger == 1 {
            Trigger::Off
        } else {
            Trigger::Toggle
        };
        let action = if c.action == 0 {
            Action::Enable
        } else if c.action == 1 {
            Action::Disable
        } else {
            Action::Toggle
        };
        connections.push(
            Connection {
                from_section,
                to_section,
                trigger,
                action,
                from_index: c.from_index,
                to_index: c.to_index,
                order_tag: c.order_tag,
            },
        );
        i = i + 1;
    }
    let input_bits = pack_bits(&g.inputs_init);
    let output_bits = pack_bits(&g.outputs_init);
    let internal_bits = pack_bits(&g.internals_init);
    let c = MycosChunk {
        input_bits,
        output_bits,
        internal_bits,
        input_count: g.ni,
        output_count: g.no,
        internal_count: g.nn,
        connections,
        name: None,
        note: None,
        build_hash: None,
    };
    proof {
        assert(c@.connections =~= Seq::new(g@.conns.len(), |i: int| expressed_conn(g@.conns[i])));
        assert forall|k: int| 0 <= k < c@.connections.len() implies (#[trigger] c@.defect(k))
            is None by {
            assert(crate::chunk::connection_defect(connections@[k], g.ni, g.no, g.nn) is None);
        }
    }
    Some(c)
}

/// The link that a link gene stands for, if its trigger and action
/// are valid.
pub fn express_link(l: &LinkGene) -> (r: Option<Link>)
    ensures
        r is Some <==> l.defect() is None,
        r matches Some(x) ==> x == expressed_link(*l),
{
    let trigger = match Trigger::try_from(l.trigger) {
        Ok(t) => t,
        Err(_) => {
            return None;
        },
    };
    let action = match Action::try_from(l.action) {
        Ok(a) => a,
        Err(_) => {
            return None;
        },
    };
    Some(
        Link {
            from_chunk: l.from_chunk,
            from_out_idx: l.from_out_idx,
            trigger,
            action,
            to_chunk: l.to_chunk,
            to_in_idx: l.to_in_idx,
            order_tag: l.order_tag,
        },
    )
}

/// The links that the link genes stand for.
pub open spec fn expressed_links(genes: Seq<LinkGene>) -> Seq<Link> {
    Seq::new(genes.len(), |i: int| expressed_link(genes[i]))
}

/// `h` is the engine that `genome` stands for, in its initial state
/// and under FreezeLastStable: its chunks and links are those that the
/// genes stand for.
pub open spec fn stands_for(h: &MycosHandle, genome: &Genome) -> bool {
    &&& h.well_formed()
    &&& h.chunks@.len() == genome.chunks@.len()
    &&& forall|i: int|
        0 <= i < genome.chunks@.len() ==> expressed(#[trigger] &h.chunks@[i], genome.chunks@[i]@)
    &&& h.links@ == expressed_links(genome.links@)
    &&& crate::engine::starts_from_chunks(h)
    &&& h.policy == Policy::FreezeLastStable
}

/// The chunks have the sizes of the chunk genes: the same counts of
/// bits and of connections.
pub open spec fn sized_as(chunks: Seq<MycosChunk>, genes: Seq<ChunkGene>) -> bool {
    chunks.len() == genes.len() && forall|i: int|
        0 <= i < genes.len() ==> (#[trigger] chunks[i]).input_count == genes[i].ni
            && chunks[i].output_count == genes[i].no && chunks[i].internal_count == genes[i].nn
            && chunks[i].connections@.len() == genes[i].conns@.len()
}

/// The genome stands for an engine: no gene has a defect by itself,
/// there are no more links than 32 bits count, and chunks of the genes'
/// sizes make a population that 32 bits can address and in which every
/// link is valid.
pub open spec fn expressible(genome: &Genome) -> bool {
    &&& forall|i: int|
        0 <= i < genome.chunks@.len() ==> (#[trigger] genome.chunks@[i])@.defect() is None
    &&& forall|j: int| 0 <= j < genome.links@.len() ==> (#[trigger] genome.links@[j]).defect() is None
    &&& genome.links@.len() <= u32::MAX
    &&& exists|chunks: Seq<MycosChunk>| #[trigger]
        sized_as(chunks, genome.chunks@) && crate::engine::addressable(chunks)
            && crate::link::links_valid(expressed_links(genome.links@), chunks)
}

/// Populations of the same sizes have the same bases.
proof fn lemma_same_sizes(c1: Seq<MycosChunk>, c2: Seq<MycosChunk>, k: int)
    requires
        c1.len() == c2.len(),
        0 <= k <= c1.len(),
        forall|i: int|
            0 <= i < c1.len() ==> (#[trigger] c1[i]).input_count == c2[i].input_count
                && c1[i].output_count == c2[i].output_count && c1[i].internal_count
                == c2[i].internal_count,
    ensures
        crate::link::inputs_before(c1, k) == crate::link::inputs_before(c2, k),
        crate::link::outputs_before(c1, k) == crate::link::outputs_before(c2, k),
        crate::link::internals_before(c1, k) == crate::link::internals_before(c2, k),
    decreases k,
{
    if k > 0 {
        lemma_same_sizes(c1, c2, k - 1);
        assert(c1[k - 1].input_count == c2[k - 1].input_count);
    }
}

/// Whether a population can be addressed, and whether links are valid
/// in it, depends on its sizes only.
proof fn lemma_sizes_decide(
    c1: Seq<MycosChunk>,
    c2: Seq<MycosChunk>,
    genes: Seq<ChunkGene>,
    links: Seq<Link>,
)
    requires
        sized_as(c1, genes),
        sized_as(c2, genes),
    ensures
        crate::engine::addressable(c1) == crate::engine::addressable(c2),
        crate::link::links_valid(links, c1) == crate::link::links_valid(links, c2),
{
    assert forall|i: int| 0 <= i < c1.len() implies (#[trigger] c1[i]).input_count
        == c2[i].input_count && c1[i].output_count == c2[i].output_count && c1[i].internal_count
        == c2[i].internal_count && c1[i].connections@.len() == c2[i].connections@.len() by {
        assert(c1[i].input_count == genes[i].ni);
        assert(c2[i].input_count == genes[i].ni);
    }
    lemma_same_sizes(c1, c2, c1.len() as int);
    assert forall|i: int| 0 <= i < c2.len() implies (#[trigger] c2[i]).input_count
        == c1[i].input_count && c2[i].connections@.len() == c1[i].connections@.len()
        && c2[i].internal_count == c1[i].internal_count by {
        assert(c1[i].input_count == c2[i].input_count);
    }
    assert forall|k: int| 0 <= k < links.len() implies crate::link::link_defect(
        #[trigger] links[k],
        c1,
    ) == crate::link::link_defect(links[k], c2) by {
        let l = links[k];
        if l.from_chunk < c1.len() {
            assert(c1[l.from_chunk as int].output_count == c2[l.from_chunk as int].output_count);
        }
        if l.to_chunk < c1.len() {
            assert(c1[l.to_chunk as int].input_count == c2[l.to_chunk as int].input_count);
        }
    }
}

/// Where a defect is found among the links, not every link is valid.
proof fn lemma_defect_found(links: Seq<Link>, chunks: Seq<MycosChunk>, i: int)
    requires
        crate::link::link_defect_from(links, chunks, i) is Some,
    ensures
        !crate::link::links_valid(links, chunks),
    decreases links.len() - i,
{
    if 0 <= i < links.len() {
        if crate::link::link_defect(links[i], chunks) is None {
            lemma_defect_found(links, chunks, i + 1);
        }
    }
}

/// A genome whose links are not all valid in chunks of its sizes,
/// or whose chunks of these sizes cannot be addressed, stands for no
/// engine.
proof fn lemma_unfit(genome: &Genome, given: Seq<MycosChunk>)
    requires
        sized_as(given, genome.chunks@),
        !(crate::engine::addressable(given) && crate::link::links_valid(
            expressed_links(genome.links@),
            given,
        )),
    ensures
        !expressible(genome),
{
    if expressible(genome) {
        let w = choose|w: Seq<MycosChunk>| #[trigger]
            sized_as(w, genome.chunks@) && crate::engine::addressable(w)
                && crate::link::links_valid(expressed_links(genome.links@), w);
        lemma_sizes_decide(w, given, genome.chunks@, expressed_links(genome.links@));
    }
}

/// The chunks that the chunk genes stand for, if all of them are
/// valid.
fn express_chunks(genome: &Genome) -> (r: Option<Vec<MycosChunk>>)
    ensures
        r is Some <==> (forall|i: int|
            0 <= i < genome.chunks@.len() ==> (#[trigger] genome.chunks@[i])@.defect() is None),
        r matches Some(chunks) ==> sized_as(chunks@, genome.chunks@) && forall|k: int|
            0 <= k < genome.chunks@.len() ==> expressed(#[trigger] &chunks@[k], genome.chunks@[k]@)
                && chunks@[k]@.well_formed(),
{
    let n: usize = genome.chunks.len();
    let mut chunks: Vec<MycosChunk> = Vec::new();
    let mut i: usize = 0;
    while i < n
        invariant
            i <= n,
            n == genome.chunks@.len(),
            chunks@.len() == i,
            forall|k: int|
                0 <= k < i ==> expressed(#[trigger] &chunks@[k], genome.chunks@[k]@)
                    && chunks@[k]@.well_formed(),
            forall|k: int| 0 <= k < i ==> (#[trigger] genome.chunks@[k])@.defect() is None,
        decreases n - i,
    {
        match express_chunk(&genome.chunks[i]) {
            Some(c) => {
                chunks.push(c);
            },
            None => {
                assert(genome.chunks@[i as int]@.defect() is Some);
                return None;
            },
        }
        i = i + 1;
    }
    proof {
        assert forall|k: int| 0 <= k < genome.chunks@.len() implies (#[trigger] chunks@[k]).input_count
            == genome.chunks@[k].ni && chunks@[k].output_count == genome.chunks@[k].no
            && chunks@[k].internal_count == genome.chunks@[k].nn && chunks@[k].connections@.len()
            == genome.chunks@[k].conns@.len() by {
            assert(expressed(&chunks@[k], genome.chunks@[k]@));
        }
    }
    Some(chunks)
}

/// The links that the link genes stand for, if all of them are valid
/// by themselves.
fn express_links(genome: &Genome) -> (r: Option<Vec<Link>>)
    ensures
        r is Some <==> (forall|j: int|
            0 <= j < genome.links@.len() ==> (#[trigger] genome.links@[j]).defect() is None),
        r matches Some(links) ==> links@ == expressed_links(genome.links@),
{
    let m: usize = genome.links.len();
    let mut links: Vec<Link> = Vec::new();
    let mut j: usize = 0;
    while j < m
        invariant
            j <= m,
            m == genome.links@.len(),
            links@.len() == j,
            forall|k: int| 0 <= k < j ==> (#[trigger] links@[k]) == expressed_link(genome.links@[k]),
            forall|k: int| 0 <= k < j ==> (#[trigger] genome.links@[k]).defect() is None,
        decreases m - j,
    {
        match express_link(&genome.links[j]) {
            Some(l) => {
                links.push(l);
            },
            None => {
                assert(genome.links@[j as int].defect() is Some);
                return None;
            },
        }
        j = j + 1;
    }
    assert(links@ =~= expressed_links(genome.links@));
    Some(links)
}

/// The engine that a genome stands for, if it stands for one.
pub fn express(genome: &Genome) -> (r: Option<MycosHandle>)
    ensures
        r is Some <==> expressible(genome),
        r matches Some(h) ==> stands_for(&h, genome),
{
    let chunks = match express_chunks(genome) {
        Some(c) => c,
        None => {
            return None;
        },
    };
    let links = match express_links(genome) {
        Some(l) => l,
        None => {
            return None;
        },
    };
    let mut h = MycosHandle::new();
    let ghost given = chunks@;
    match h.install_chunks(chunks) {
        Ok(()) => {},
        Err(_) => {
            proof {
                lemma_unfit(genome, given);
            }
            return None;
        },
    }
    match h.install_links(links) {
        Ok(()) => {},
        Err(_) => {
            proof {
                if crate::link::link_defect_from(expressed_links(genome.links@), given, 0) is Some {
                    lemma_defect_found(expressed_links(genome.links@), given, 0);
                    lemma_unfit(genome, given);
                }
            }
            return None;
        },
    }
    proof {
        assert(h.chunks@ == given);
        assert(sized_as(given, genome.chunks@) && crate::engine::addressable(given)
            && crate::link::links_valid(expressed_links(genome.links@), given));
    }
    Some(h)
}

/// The chunk that a task drives: that of its first input, or chunk 0.
pub open spec fn driven_chunk(task: &Task) -> u32 {
    if task.io.inputs@.len() > 0 {
        task.io.inputs@[0].chunk_id
    } else {
        0
    }
}

/// The chunk that a task observes: that of its first output, or
/// chunk 0.
pub open spec fn observed_chunk(task: &Task) -> u32 {
    if task.io.outputs@.len() > 0 {
        task.io.outputs@[0].chunk_id
    } else {
        0
    }
}

/// `metrics` and `words` are what the one-tick episode `episode` makes
/// of the engine that `genome` stands for: there is an engine `first`
/// that [`express`] can give for the genome, and a tick on the
/// episode's inputs leads it to an engine `last` with these metrics and
/// these output words.
pub open spec fn episode_outcome(
    first: &MycosHandle,
    last: &MycosHandle,
    logs: Seq<TickLog>,
    task: &Task,
    episode: Episode,
    metrics: EpisodeMetrics,
    words: Seq<u32>,
) -> bool {
    &&& episode_logged(logs, first, last, driven_chunk(task), seq![episode.inputs], None)
    &&& metrics == episode_metrics(logs, 1)
    &&& words == watched(last, observed_chunk(task))
}

/// `metrics` and `words` are what evaluating an episode gives: what
/// the episode makes of a fresh engine, if the genome stands for one;
/// else default metrics and no words.
pub open spec fn evaluated(
    genome: &Genome,
    task: &Task,
    episode: Episode,
    metrics: EpisodeMetrics,
    words: Seq<u32>,
) -> bool {
    if expressible(genome) {
        exists|first: MycosHandle, last: MycosHandle, logs: Seq<TickLog>|
            #[trigger] episode_outcome(&first, &last, logs, task, episode, metrics, words)
                && stands_for(&first, genome)
    } else {
        metrics == (EpisodeMetrics { rounds: 0, effects: 0, oscillator: false, period: 0 })
            && words.len() == 0
    }
}

/// Evaluates one genome on one-tick episodes. Every episode starts
/// from the initial state of the engine that the genome stands for. A
/// genome that stands for no engine gets default metrics and no output
/// words for every episode.
pub fn evaluate_genome(genome: &Genome, task: &Task, episodes: &Vec<Episode>) -> (e: Evaluation)
    ensures
        e.metrics@.len() == episodes@.len(),
        e.outputs@.len() == episodes@.len(),
        forall|k: int|
            0 <= k < episodes@.len() ==> evaluated(
                genome,
                task,
                episodes@[k],
                #[trigger] e.metrics@[k],
                e.outputs@[k]@,
            ),
{
    let input_chunk: u32 = if task.io.inputs.len() > 0 { task.io.inputs[0].chunk_id } else { 0 };
    let output_chunk: u32 = if task.io.outputs.len() > 0 { task.io.outputs[0].chunk_id } else { 0 };
    let n: usize = episodes.len();
    let mut metrics: Vec<EpisodeMetrics> = Vec::new();
    let mut outputs: Vec<Vec<u32>> = Vec::new();
    let mut k: usize = 0;
    while k < n
        invariant
            k <= n,
            n == episodes@.len(),
            input_chunk == driven_chunk(task),
            output_chunk == observed_chunk(task),
            metrics@.len() == k,
            outputs@.len() == k,
            forall|i: int|
                0 <= i < k ==> evaluated(
                    genome,
                    task,
                    episodes@[i],
                    #[trigger] metrics@[i],
                    outputs@[i]@,
                ),
        decreases n - k,
    {
        let ghost done_metrics = metrics@;
        let ghost done_outputs = outputs@;
        match express(genome) {
            Some(h) => {
                let mut h = h;
                let ghost first = h;
                let (tick, seen, words, Ghost(log)) = episode_tick(
                    &mut h,
                    input_chunk,
                    output_chunk,
                    &episodes[k].inputs,
                    None,
                );
                let m = EpisodeMetrics {
                    rounds: tick.rounds,
                    effects: tick.effects,
                    oscillator: seen.is_some(),
                    period: match seen {
                        Some(p) => p,
                        None => 0,
                    },
                };
                proof {
                    let logs = seq![log];
                    assert(logs[0] == log);
                    assert(episode_metrics(logs, 0) == (EpisodeMetrics {
                        rounds: 0,
                        effects: 0,
                        oscillator: false,
                        period: 0,
                    }));
                    assert(episode_outcome(&first, &h, logs, task, episodes@[k as int], m, words@));
                    assert(evaluated(genome, task, episodes@[k as int], m, words@));
                }
                metrics.push(m);
                outputs.push(words);
            },
            None => {
                metrics.push(EpisodeMetrics { rounds: 0, effects: 0, oscillator: false, period: 0 });
                outputs.push(Vec::new());
            },
        }
        proof {
            assert forall|i: int| 0 <= i < k + 1 implies evaluated(
                genome,
                task,
                episodes@[i],
                #[trigger] metrics@[i],
                outputs@[i]@,
            ) by {
                if i < k {
                    assert(metrics@[i] == done_metrics[i]);
                    assert(outputs@[i] == done_outputs[i]);
                }
            }
        }
        k = k + 1;
    }
    Evaluation { metrics, outputs }
}

/// `e` is what evaluating `genome` on `episodes` can give: for every
/// episode metrics and output words that are [`evaluated`].
pub open spec fn batch_entry(
    genome: &Genome,
    task: &Task,
    episodes: Seq<Episode>,
    e: Evaluation,
) -> bool {
    &&& e.metrics@.len() == episodes.len()
    &&& e.outputs@.len() == episodes.len()
    &&& forall|k: int|
        0 <= k < episodes.len() ==> evaluated(
            genome,
            task,
            episodes[k],
            #[trigger] e.metrics@[k],
            e.outputs@[k]@,
        )
}

/// Evaluates every genome as [`evaluate_genome`] does.
pub fn evaluate_batch(genomes: &Vec<Genome>, task: &Task, episodes: &Vec<Episode>) -> (results:
    Vec<Evaluation>)
    ensures
        results@.len() == genomes@.len(),
        forall|g: int|
            0 <= g < genomes@.len() ==> batch_entry(
                &genomes@[g],
                task,
                episodes@,
                #[trigger] results@[g],
            ),
{
    let n: usize = genomes.len();
    let mut results: Vec<Evaluation> = Vec::new();
    let mut g: usize = 0;
    while g < n
        invariant
            g <= n,
            n == genomes@.len(),
            results@.len() == g,
            forall|i: int|
                0 <= i < g ==> batch_entry(&genomes@[i], task, episodes@, #[trigger] results@[i]),
        decreases n - g,
    {
        let e = evaluate_genome(&genomes[g], task, episodes);
        results.push(e);
        g = g + 1;
    }
    results
}

/// `metrics` and `rows` are what episode `k` of `task` makes of the
/// engine that `genome` stands for: the episode starts from the initial
/// state of such an engine, every tick stores the stimulus of its tick
/// for the chunk that the task drives and runs the engine, and the
/// output words of the chunk that the task observes are captured after
/// every tick.
pub open spec fn task_outcome(
    genome: &Genome,
    task: &Task,
    max_rounds: Option<u32>,
    k: int,
    metrics: EpisodeMetrics,
    rows: Seq<Vec<u32>>,
) -> bool {
    exists|first: MycosHandle, last: MycosHandle, logs: Seq<TickLog>|
        stands_for(&first, genome) && #[trigger] episode_logged(
            logs,
            &first,
            &last,
            driven_chunk(task),
            task.episodes@[k].stimulus@,
            max_rounds,
        ) && metrics == episode_metrics(logs, logs.len() as int) && rows.len() == logs.len()
            && forall|t: int|
            0 <= t < logs.len() ==> (#[trigger] rows[t])@ == watched(
                &logs[t].end,
                observed_chunk(task),
            )
}

/// Runs every episode of a task on the engine that a genome stands
/// for, each from the initial state, and returns the metrics and the
/// captured output words of every episode, tick by tick. A genome that
/// stands for no engine is not run.
pub fn evaluate_task(genome: &Genome, task: &Task, max_rounds: Option<u32>) -> (r: Option<
    (Vec<EpisodeMetrics>, Vec<Vec<Vec<u32>>>),
>)
    ensures
        r is Some <==> expressible(genome),
        r matches Some(out) ==> out.0@.len() == task.episodes@.len() && out.1@.len()
            == task.episodes@.len() && forall|k: int|
            0 <= k < task.episodes@.len() ==> task_outcome(
                genome,
                task,
                max_rounds,
                k,
                #[trigger] out.0@[k],
                out.1@[k]@,
            ),
{
    if express(genome).is_none() {
        return None;
    }
    let input_chunk: u32 = if task.io.inputs.len() > 0 { task.io.inputs[0].chunk_id } else { 0 };
    let output_chunk: u32 = if task.io.outputs.len() > 0 { task.io.outputs[0].chunk_id } else { 0 };
    let n: usize = task.episodes.len();
    let mut metrics: Vec<EpisodeMetrics> = Vec::new();
    let mut outputs: Vec<Vec<Vec<u32>>> = Vec::new();
    let mut k: usize = 0;
    while k < n
        invariant
            k <= n,
            n == task.episodes@.len(),
            expressible(genome),
            input_chunk == driven_chunk(task),
            output_chunk == observed_chunk(task),
            metrics@.len() == k,
            outputs@.len() == k,
            forall|i: int|
                0 <= i < k ==> task_outcome(
                    genome,
                    task,
                    max_rounds,
                    i,
                    #[trigger] metrics@[i],
                    outputs@[i]@,
                ),
        decreases n - k,
    {
        let ghost done_metrics = metrics@;
        let ghost done_outputs = outputs@;
        let mut h: MycosHandle = match express(genome) {
            Some(h) => h,
            None => {
                return None;
            },
        };
        let ghost first = h;
        let (m, rows) = run_episode(
            &mut h,
            input_chunk,
            output_chunk,
            &task.episodes[k].stimulus,
            max_rounds,
        );
        proof {
            assert(task_outcome(genome, task, max_rounds, k as int, m, rows@)) by {
                let logs = choose|logs: Seq<TickLog>| #[trigger]
                    episode_logged(
                        logs,
                        &first,
                        &h,
                        input_chunk,
                        task.episodes@[k as int].stimulus@,
                        max_rounds,
                    ) && m == episode_metrics(logs, logs.len() as int) && forall|t: int|
                        0 <= t < logs.len() ==> (#[trigger] rows@[t])@ == watched(
                            &logs[t].end,
                            output_chunk,
                        );
                assert(stands_for(&first, genome) && episode_logged(
                    logs,
                    &first,
                    &h,
                    driven_chunk(task),
                    task.episodes@[k as int].stimulus@,
                    max_rounds,
                ));
            }
        }
        metrics.push(m);
        outputs.push(rows);
        proof {
            assert forall|i: int| 0 <= i < k + 1 implies task_outcome(
                genome,
                task,
                max_rounds,
                i,
                #[trigger] metrics@[i],
                outputs@[i]@,
            ) by {
                if i < k {
                    assert(metrics@[i] == done_metrics[i]);
                    assert(outputs@[i] == done_outputs[i]);
                }
            }
        }
        k = k + 1;
    }
    Some((metrics, outputs))
}

} // verus!
