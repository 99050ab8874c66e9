//! Reference execution of one chunk by event-queue simulation.
//!
//! Every bit that is set at the start queues an On and a Toggle event.
//! Events are taken one at a time, oldest first. An event fires the
//! connections of its source whose trigger matches its edge. What they
//! ask of one target bit is resolved by commutative precedence: Disable
//! over Enable over the parity of the Toggles. The targets are then
//! served one by one, and every internal bit that changes queues its
//! own events. The run ends when the queue is empty or the effect
//! budget is spent.

use vstd::prelude::*;
use std::collections::VecDeque;
use crate::chunk::{Action, ChunkView, Connection, MycosChunk, Section, Trigger};
use crate::layout::{
    bit_of_bytes, bit_of_words, bit_to_word, byte_bit_at, byte_len, bytes_for, clr_bit,
    lemma_byte_bit_ops, lemma_word_bit_ops, packs_bytes, packs_words, set_bit, set_byte_bit,
    unpack_bytes, unpack_words, word_bit_at, word_len, words_for, xor_bit,
};

verus! {

/// The largest number of effects that one run applies before it stops
/// taking events.
pub const MAX_EFFECTS: u64 = 5_000_000;

/// What a bit did: it rose, it fell, or it changed either way.
#[derive(Clone, Copy, Debug, PartialEq, Eq, Structural)]
pub enum Edge {
    On,
    Off,
    Toggle,
}

/// An edge shown by one bit.
#[derive(Clone, Copy, Debug, PartialEq, Eq, Structural)]
pub struct Event {
    pub section: Section,
    pub index: u32,
    pub edge: Edge,
}

/// What the connections fired by one event ask of one target bit,
/// resolved: the action that the bit is to take, or none if the
/// actions asked cancel out.
#[derive(Clone, Copy, Debug, PartialEq, Eq, Structural)]
pub struct Proposal {
    pub to_section: Section,
    pub to_index: u32,
    pub action: Option<Action>,
}

/// The state of a run: the internal and output bits, the events still
/// to be taken, and the number of effects applied so far.
pub struct Sim {
    pub internal: Seq<bool>,
    pub output: Seq<bool>,
    pub queue: Seq<Event>,
    pub applied: nat,
}

/// The bit after `action`.
pub open spec fn act(action: Action, bit: bool) -> bool {
    match action {
        Action::Enable => true,
        Action::Disable => false,
        Action::Toggle => !bit,
    }
}

/// The bit after a resolved action: it takes the action, or stays if
/// there is none.
pub open spec fn lands(action: Option<Action>, bit: bool) -> bool {
    match action {
        Some(a) => act(a, bit),
        None => bit,
    }
}

/// What the commutative precedence makes of actions that resolved to
/// `so_far`, and one more: a Disable wins, an Enable wins unless a
/// Disable stands, and a Toggle cancels a Toggle.
pub open spec fn joined(so_far: Option<Action>, more: Action) -> Option<Action> {
    match more {
        Action::Disable => Some(Action::Disable),
        Action::Enable => match so_far {
            Some(Action::Disable) => Some(Action::Disable),
            _ => Some(Action::Enable),
        },
        Action::Toggle => match so_far {
            Some(Action::Disable) => Some(Action::Disable),
            Some(Action::Enable) => Some(Action::Enable),
            Some(Action::Toggle) => None,
            None => Some(Action::Toggle),
        },
    }
}

/// `trigger` answers to `edge`.
pub open spec fn edge_fires(edge: Edge, trigger: Trigger) -> bool {
    match (edge, trigger) {
        (Edge::On, Trigger::On) => true,
        (Edge::Off, Trigger::Off) => true,
        (Edge::Toggle, Trigger::Toggle) => true,
        _ => false,
    }
}

/// Event `ev` fires connection `c`.
pub open spec fn fires(c: Connection, ev: Event) -> bool {
    c.from_section == ev.section && c.from_index == ev.index && edge_fires(ev.edge, c.trigger)
}

/// The place of the first proposal for the given target, or the number
/// of proposals if there is none.
pub open spec fn slot_of(ps: Seq<Proposal>, section: Section, index: u32) -> int
    decreases ps.len(),
{
    if ps.len() == 0 {
        0
    } else if ps[0].to_section == section && ps[0].to_index == index {
        0
    } else {
        1 + slot_of(ps.skip(1), section, index)
    }
}

/// The proposals once connection `c` has fired: a new target is added
/// at the end with the action of `c`; for a known target the action of
/// `c` is joined to what was resolved for it. Order tags play no part:
/// the precedence leaves no tie.
pub open spec fn merge(ps: Seq<Proposal>, c: Connection) -> Seq<Proposal> {
    let at = slot_of(ps, c.to_section, c.to_index);
    if at < ps.len() {
        ps.update(
            at,
            Proposal {
                to_section: c.to_section,
                to_index: c.to_index,
                action: joined(ps[at].action, c.action),
            },
        )
    } else {
        ps.push(Proposal { to_section: c.to_section, to_index: c.to_index, action: Some(c.action) })
    }
}

/// The proposals that event `ev` gathers from `conns`, taken in table
/// order.
pub open spec fn gather(conns: Seq<Connection>, ev: Event) -> Seq<Proposal>
    decreases conns.len(),
{
    if conns.len() == 0 {
        Seq::empty()
    } else {
        let before = gather(conns.drop_last(), ev);
        if fires(conns.last(), ev) {
            merge(before, conns.last())
        } else {
            before
        }
    }
}

/// The state once proposal `p` has been applied. A proposal on an
/// input bit is passed over. Any other counts as one effect, whether or
/// not it changes its bit; the target bit takes the resolved action, and,
/// if the target is internal and did change, queues the edge it showed
/// and a Toggle.
pub open spec fn apply_one(st: Sim, p: Proposal) -> Sim {
    let i = p.to_index as int;
    match p.to_section {
        Section::Input => st,
        Section::Output => Sim {
            output: st.output.update(i, lands(p.action, st.output[i])),
            applied: st.applied + 1,
            ..st
        },
        Section::Internal => {
            let before = st.internal[i];
            let after = lands(p.action, before);
            Sim {
                internal: st.internal.update(i, after),
                queue: if before != after {
                    st.queue.push(
                        Event {
                            section: Section::Internal,
                            index: p.to_index,
                            edge: if after { Edge::On } else { Edge::Off },
                        },
                    ).push(
                        Event { section: Section::Internal, index: p.to_index, edge: Edge::Toggle },
                    )
                } else {
                    st.queue
                },
                applied: st.applied + 1,
                ..st
            }
        },
    }
}

/// The state once the proposals `ps` have been applied in order.
pub open spec fn apply_all(st: Sim, ps: Seq<Proposal>) -> Sim
    decreases ps.len(),
{
    if ps.len() == 0 {
        st
    } else {
        apply_one(apply_all(st, ps.drop_last()), ps.last())
    }
}

/// Nothing is left to do: no event waits, or the budget is spent.
pub open spec fn halted(st: Sim) -> bool {
    st.queue.len() == 0 || st.applied >= MAX_EFFECTS
}

/// One step: a halted state stays as it is; otherwise the oldest event
/// is taken and what it gathers is applied.
pub open spec fn step(conns: Seq<Connection>, st: Sim) -> Sim {
    if halted(st) {
        st
    } else {
        apply_all(Sim { queue: st.queue.skip(1), ..st }, gather(conns, st.queue[0]))
    }
}

/// The state after `n` steps.
pub open spec fn after(conns: Seq<Connection>, st: Sim, n: nat) -> Sim
    decreases n,
{
    if n == 0 {
        st
    } else {
        step(conns, after(conns, st, (n - 1) as nat))
    }
}

/// The events that the set bits among `bits` queue at the start: for
/// each, in index order, an On and a Toggle.
pub open spec fn seed(bits: Seq<bool>, section: Section) -> Seq<Event>
    decreases bits.len(),
{
    if bits.len() == 0 {
        Seq::empty()
    } else {
        let before = seed(bits.drop_last(), section);
        let index = (bits.len() - 1) as u32;
        if bits.last() {
            before.push(Event { section, index, edge: Edge::On }).push(
                Event { section, index, edge: Edge::Toggle },
            )
        } else {
            before
        }
    }
}

/// The state in which a run of `c` starts.
pub open spec fn start_of(c: ChunkView) -> Sim {
    Sim {
        internal: unpack_bytes(c.internal_bits, c.internal_count as int),
        output: unpack_bytes(c.output_bits, c.output_count as int),
        queue: seed(unpack_bytes(c.input_bits, c.input_count as int), Section::Input) + seed(
            unpack_bytes(c.internal_bits, c.internal_count as int),
            Section::Internal,
        ),
        applied: 0,
    }
}

/// The run of `c` halts after `n` steps.
pub open spec fn halts_in(c: ChunkView, n: nat) -> bool {
    halted(after(c.connections, start_of(c), n))
}

/// The state in which the run of `c` comes to rest.
pub open spec fn settled(c: ChunkView) -> Sim {
    after(c.connections, start_of(c), choose|n: nat| halts_in(c, n))
}

/// Once halted, a run stays where it is: every halting number of steps
/// leads to the same state.
pub proof fn lemma_halted_stays(conns: Seq<Connection>, st: Sim, n: nat, m: nat)
    requires
        halted(after(conns, st, n)),
        n <= m,
    ensures
        after(conns, st, m) == after(conns, st, n),
    decreases m,
{
    if n < m {
        lemma_halted_stays(conns, st, n, (m - 1) as nat);
    }
}

/// A state reached by a halting number of steps is the settled state.
pub proof fn lemma_settled(c: ChunkView, n: nat)
    requires
        halts_in(c, n),
    ensures
        settled(c) == after(c.connections, start_of(c), n),
{
    let m = choose|m: nat| halts_in(c, m);
    if n <= m {
        lemma_halted_stays(c.connections, start_of(c), n, m);
    } else {
        lemma_halted_stays(c.connections, start_of(c), m, n);
    }
}


/// Applies `action` to bit `idx` of a word-packed bit vector. No other
/// bit changes.
pub fn set_bit_action(words: &mut Vec<u32>, idx: u32, action: Action)
    requires
        idx / 32 < old(words)@.len(),
    ensures
        final(words)@.len() == old(words)@.len(),
        forall|i: int|
            0 <= i < 32 * old(words)@.len() ==> bit_of_words(final(words)@, i) == (if i == idx {
                act(action, bit_of_words(old(words)@, idx as int))
            } else {
                bit_of_words(old(words)@, i)
            }),
{
    let (w, m) = bit_to_word(idx);
    let mut word: u32 = words[w as usize];
    let ghost before = word;
    match action {
        Action::Enable => set_bit(&mut word, m),
        Action::Disable => clr_bit(&mut word, m),
        Action::Toggle => xor_bit(&mut word, m),
    }
    words.set(w as usize, word);
    proof {
        assert forall|i: int| 0 <= i < 32 * old(words)@.len() implies bit_of_words(words@, i) == (
        if i == idx {
            act(action, bit_of_words(old(words)@, idx as int))
        } else {
            bit_of_words(old(words)@, i)
        }) by {
            if i / 32 == w {
                lemma_word_bit_ops(before, idx % 32, (i % 32) as u32);
            }
        }
    }
}

/// Repacks the first `bit_count` bits of `bytes` into 32-bit words.
pub fn bytes_to_words(bytes: &[u8], bit_count: u32) -> (out: Vec<u32>)
    requires
        bytes@.len() >= bytes_for(bit_count as int),
    ensures
        packs_words(out@, unpack_bytes(bytes@, bit_count as int)),
{
    let word_count: usize = word_len(bit_count);
    let mut out: Vec<u32> = Vec::new();
    let mut c: usize = 0;
    while c < word_count
        invariant
            c <= word_count,
            out@.len() == c,
            forall|j: int| 0 <= j < c ==> out@[j] == 0,
        decreases word_count - c,
    {
        out.push(0u32);
        c = c + 1;
    }
    proof {
        assert forall|i: int| 0 <= i < 32 * out@.len() implies !bit_of_words(out@, i) by {
            lemma_word_bit_ops(0, 0, (i % 32) as u32);
        }
    }
    let mut bit: u32 = 0;
    while bit < bit_count
        invariant
            bit <= bit_count,
            out@.len() == words_for(bit_count as int),
            bytes@.len() >= bytes_for(bit_count as int),
            forall|i: int| 0 <= i < bit ==> bit_of_words(out@, i) == bit_of_bytes(bytes@, i),
            forall|i: int| bit <= i < 32 * out@.len() ==> !bit_of_words(out@, i),
        decreases bit_count - bit,
    {
        if byte_bit_at(bytes, bit) {
            set_bit_action(&mut out, bit, Action::Enable);
        }
        bit = bit + 1;
    }
    out
}

/// Repacks the first `bit_count` bits of `words` into bytes.
pub fn words_to_bytes(words: &[u32], bit_count: u32) -> (out: Vec<u8>)
    requires
        words@.len() >= words_for(bit_count as int),
    ensures
        packs_bytes(out@, unpack_words(words@, bit_count as int)),
{
    let byte_count: usize = byte_len(bit_count);
    let mut out: Vec<u8> = Vec::new();
    let mut c: usize = 0;
    while c < byte_count
        invariant
            c <= byte_count,
            out@.len() == c,
            forall|j: int| 0 <= j < c ==> out@[j] == 0,
        decreases byte_count - c,
    {
        out.push(0u8);
        c = c + 1;
    }
    proof {
        assert forall|i: int| 0 <= i < 8 * out@.len() implies !bit_of_bytes(out@, i) by {
            lemma_byte_bit_ops(0, 0, (i % 8) as u32);
        }
    }
    let mut bit: u32 = 0;
    while bit < bit_count
        invariant
            bit <= bit_count,
            out@.len() == bytes_for(bit_count as int),
            words@.len() >= words_for(bit_count as int),
            forall|i: int| 0 <= i < bit ==> bit_of_bytes(out@, i) == bit_of_words(words@, i),
            forall|i: int| bit <= i < 8 * out@.len() ==> !bit_of_bytes(out@, i),
        decreases bit_count - bit,
    {
        if word_bit_at(words, bit) {
            set_byte_bit(&mut out, bit, true);
        }
        bit = bit + 1;
    }
    out
}


/// Where [`slot_of`] points: at the first proposal for the target.
pub proof fn lemma_slot_of(ps: Seq<Proposal>, section: Section, index: u32, j: int)
    requires
        0 <= j <= ps.len(),
        forall|i: int| 0 <= i < j ==> !(ps[i].to_section == section && ps[i].to_index == index),
        j == ps.len() || (ps[j].to_section == section && ps[j].to_index == index),
    ensures
        slot_of(ps, section, index) == j,
    decreases j,
{
    if j > 0 {
        let rest = ps.skip(1);
        assert forall|i: int| 0 <= i < j - 1 implies !(rest[i].to_section == section
            && rest[i].to_index == index) by {
            assert(rest[i] == ps[i + 1]);
        }
        lemma_slot_of(rest, section, index, j - 1);
    }
}

/// Every proposal has a valid target.
pub open spec fn targets_valid(ps: Seq<Proposal>, no: u32, nn: u32) -> bool {
    forall|i: int| 0 <= i < ps.len() ==> target_valid(#[trigger] ps[i], no, nn)
}

/// The proposal aims at an input bit, or at an internal or an output
/// bit that exists.
pub open spec fn target_valid(p: Proposal, no: u32, nn: u32) -> bool {
    p.to_section == Section::Input || (p.to_section == Section::Internal && p.to_index < nn) || (
    p.to_section == Section::Output && p.to_index < no)
}

fn edge_matches(edge: Edge, trigger: Trigger) -> (r: bool)
    ensures
        r == edge_fires(edge, trigger),
{
    match (edge, trigger) {
        (Edge::On, Trigger::On) => true,
        (Edge::Off, Trigger::Off) => true,
        (Edge::Toggle, Trigger::Toggle) => true,
        _ => false,
    }
}

/// Computes [`joined`].
fn join(so_far: Option<Action>, more: Action) -> (r: Option<Action>)
    ensures
        r == joined(so_far, more),
{
    match more {
        Action::Disable => Some(Action::Disable),
        Action::Enable => match so_far {
            Some(Action::Disable) => Some(Action::Disable),
            _ => Some(Action::Enable),
        },
        Action::Toggle => match so_far {
            Some(Action::Disable) => Some(Action::Disable),
            Some(Action::Enable) => Some(Action::Enable),
            Some(Action::Toggle) => None,
            None => Some(Action::Toggle),
        },
    }
}

/// Takes connection `c` into the proposals, as [`merge`] says.
fn merge_into(ps: &mut Vec<Proposal>, c: Connection)
    ensures
        final(ps)@ == merge(old(ps)@, c),
        final(ps)@.len() <= old(ps)@.len() + 1,
        forall|no: u32, nn: u32|
            targets_valid(old(ps)@, no, nn) && target_valid(
                Proposal { to_section: c.to_section, to_index: c.to_index, action: Some(c.action) },
                no,
                nn,
            ) ==> targets_valid(final(ps)@, no, nn),
{
    let n: usize = ps.len();
    let mut j: usize = 0;
    while j < n && !(ps[j].to_section == c.to_section && ps[j].to_index == c.to_index)
        invariant
            j <= n,
            n == ps@.len(),
            *ps == *old(ps),
            forall|i: int|
                0 <= i < j ==> !(ps@[i].to_section == c.to_section && ps@[i].to_index
                    == c.to_index),
        decreases n - j,
    {
        j = j + 1;
    }
    proof {
        lemma_slot_of(ps@, c.to_section, c.to_index, j as int);
    }
    if j < n {
        let resolved: Option<Action> = join(ps[j].action, c.action);
        ps.set(j, Proposal { to_section: c.to_section, to_index: c.to_index, action: resolved });
    } else {
        ps.push(Proposal { to_section: c.to_section, to_index: c.to_index, action: Some(c.action) });
    }
}

/// Gathers what event `ev` fires, as [`gather`] says.
fn gather_proposals(conns: &Vec<Connection>, ev: Event, Ghost(c): Ghost<ChunkView>) -> (ps: Vec<
    Proposal,
>)
    requires
        c.connections == conns@,
        c.runnable(),
    ensures
        ps@ == gather(conns@, ev),
        ps@.len() <= conns@.len(),
        targets_valid(ps@, c.output_count, c.internal_count),
{
    let n: usize = conns.len();
    let mut ps: Vec<Proposal> = Vec::new();
    let mut k: usize = 0;
    assert(conns@.take(0) =~= Seq::<Connection>::empty());
    while k < n
        invariant
            k <= n,
            n == conns@.len(),
            c.connections == conns@,
            c.runnable(),
            ps@ == gather(conns@.take(k as int), ev),
            ps@.len() <= k,
            targets_valid(ps@, c.output_count, c.internal_count),
        decreases n - k,
    {
        let conn: Connection = conns[k];
        proof {
            assert(conns@.take(k + 1).drop_last() =~= conns@.take(k as int));
            assert(c.connections[k as int].to_section == Section::Input || c.aims_inside(
                k as int,
            ));
        }
        if conn.from_section == ev.section && conn.from_index == ev.index && edge_matches(
            ev.edge,
            conn.trigger,
        ) {
            merge_into(&mut ps, conn);
        }
        k = k + 1;
    }
    assert(conns@.take(n as int) =~= conns@);
    ps
}

/// The running state of a simulation, with its bits packed in words.
struct Machine {
    internal: Vec<u32>,
    output: Vec<u32>,
    queue: VecDeque<Event>,
    applied: u128,
}

impl Machine {
    /// The state this machine stands for.
    spec fn sim(&self, no: u32, nn: u32) -> Sim {
        Sim {
            internal: unpack_words(self.internal@, nn as int),
            output: unpack_words(self.output@, no as int),
            queue: self.queue@,
            applied: self.applied as nat,
        }
    }

    /// The word vectors have room for all bits.
    spec fn fits(&self, no: u32, nn: u32) -> bool {
        self.internal@.len() == words_for(nn as int) && self.output@.len() == words_for(no as int)
    }

    /// Applies one proposal, as [`apply_one`] says.
    fn apply(&mut self, p: Proposal, no: u32, nn: u32)
        requires
            old(self).fits(no, nn),
            target_valid(p, no, nn),
            old(self).applied < u128::MAX,
        ensures
            final(self).fits(no, nn),
            final(self).sim(no, nn) == apply_one(old(self).sim(no, nn), p),
    {
        match p.to_section {
            Section::Input => {},
            Section::Output => {
                match p.action {
                    Some(a) => {
                        set_bit_action(&mut self.output, p.to_index, a);
                    },
                    None => {},
                }
                self.applied = self.applied + 1;
                proof {
                    let st = old(self).sim(no, nn);
                    assert(self.sim(no, nn).output =~= st.output.update(
                        p.to_index as int,
                        lands(p.action, st.output[p.to_index as int]),
                    ));
                }
            },
            Section::Internal => {
                let before: bool = word_bit_at(self.internal.as_slice(), p.to_index);
                match p.action {
                    Some(a) => {
                        set_bit_action(&mut self.internal, p.to_index, a);
                    },
                    None => {},
                }
                let after: bool = word_bit_at(self.internal.as_slice(), p.to_index);
                self.applied = self.applied + 1;
                if before != after {
                    let edge = if after { Edge::On } else { Edge::Off };
                    self.queue.push_back(
                        Event { section: Section::Internal, index: p.to_index, edge },
                    );
                    self.queue.push_back(
                        Event { section: Section::Internal, index: p.to_index, edge: Edge::Toggle },
                    );
                }
                proof {
                    let st = old(self).sim(no, nn);
                    assert(self.sim(no, nn).internal =~= st.internal.update(
                        p.to_index as int,
                        lands(p.action, st.internal[p.to_index as int]),
                    ));
                }
            },
        }
    }
}

/// What applying proposals can do to the effect count and the queue:
/// each proposal adds at most one effect, and each effect at most two
/// events.
pub proof fn lemma_apply_all_bounds(st: Sim, ps: Seq<Proposal>)
    ensures
        st.applied <= apply_all(st, ps).applied <= st.applied + ps.len(),
        apply_all(st, ps).queue.len() + 2 * st.applied <= st.queue.len() + 2 * apply_all(
            st,
            ps,
        ).applied,
    decreases ps.len(),
{
    if ps.len() > 0 {
        lemma_apply_all_bounds(st, ps.drop_last());
    }
}

/// Queues the events of the set bits among the first `count` bits of
/// `words`.
fn seed_events(queue: &mut VecDeque<Event>, words: &Vec<u32>, count: u32, section: Section)
    requires
        words@.len() >= words_for(count as int),
    ensures
        final(queue)@ == old(queue)@ + seed(unpack_words(words@, count as int), section),
{
    let ghost bits = unpack_words(words@, count as int);
    let mut i: u32 = 0;
    proof {
        assert(bits.take(0) =~= Seq::<bool>::empty());
        assert(queue@ + Seq::<Event>::empty() =~= queue@);
    }
    while i < count
        invariant
            i <= count,
            words@.len() >= words_for(count as int),
            bits == unpack_words(words@, count as int),
            queue@ == old(queue)@ + seed(bits.take(i as int), section),
        decreases count - i,
    {
        let ghost before = queue@;
        proof {
            assert(bits.take(i + 1).drop_last() =~= bits.take(i as int));
        }
        if word_bit_at(words.as_slice(), i) {
            queue.push_back(Event { section, index: i, edge: Edge::On });
            queue.push_back(Event { section, index: i, edge: Edge::Toggle });
            proof {
                let e1 = Event { section, index: i, edge: Edge::On };
                let e2 = Event { section, index: i, edge: Edge::Toggle };
                assert(queue@ =~= old(queue)@ + seed(bits.take(i as int), section).push(e1).push(
                    e2,
                ));
            }
        }
        i = i + 1;
    }
    proof {
        assert(bits.take(count as int) =~= bits);
    }
}

/// Runs `chunk` until it comes to rest and returns its input, output
/// and internal bits, packed in bytes. The input bits are those it
/// started with; the others are those of [`settled`].
pub fn execute(chunk: &MycosChunk) -> (r: (Vec<u8>, Vec<u8>, Vec<u8>))
    requires
        chunk@.runnable(),
    ensures
        packs_bytes(r.0@, unpack_bytes(chunk@.input_bits, chunk.input_count as int)),
        packs_bytes(r.1@, settled(chunk@).output),
        packs_bytes(r.2@, settled(chunk@).internal),
        settled(chunk@).output.len() == chunk.output_count,
        settled(chunk@).internal.len() == chunk.internal_count,
        exists|n: nat| halts_in(chunk@, n),
{
    let ni: u32 = chunk.input_count;
    let no: u32 = chunk.output_count;
    let nn: u32 = chunk.internal_count;
    let input: Vec<u32> = bytes_to_words(chunk.input_bits.as_slice(), ni);
    let output: Vec<u32> = bytes_to_words(chunk.output_bits.as_slice(), no);
    let internal: Vec<u32> = bytes_to_words(chunk.internal_bits.as_slice(), nn);
    let mut queue: VecDeque<Event> = VecDeque::new();
    seed_events(&mut queue, &input, ni, Section::Input);
    seed_events(&mut queue, &internal, nn, Section::Internal);
    let mut m = Machine { internal, output, queue, applied: 0 };
    let ghost conns = chunk@.connections;
    let ghost start = start_of(chunk@);
    let ghost cap: int = MAX_EFFECTS + conns.len();
    let ghost mut steps: nat = 0;
    proof {
        assert(unpack_words(input@, ni as int) =~= unpack_bytes(chunk@.input_bits, ni as int));
        assert(unpack_words(m.internal@, nn as int) =~= unpack_bytes(
            chunk@.internal_bits,
            nn as int,
        ));
        assert(unpack_words(m.output@, no as int) =~= unpack_bytes(chunk@.output_bits, no as int));
        assert(m.queue@ =~= start.queue);
    }
    while !(m.applied >= MAX_EFFECTS as u128 || m.queue.len() == 0)
        invariant
            m.fits(no, nn),
            no == chunk.output_count,
            nn == chunk.internal_count,
            conns == chunk@.connections,
            conns == chunk.connections@,
            chunk@.runnable(),
            start == start_of(chunk@),
            cap == MAX_EFFECTS + conns.len(),
            m.applied <= cap,
            m.sim(no, nn) == after(conns, start, steps),
        decreases m.queue@.len() + 2 * (cap - m.applied),
    {
        let ghost st = m.sim(no, nn);
        let ev: Event = m.queue.pop_front().unwrap();
        let ps: Vec<Proposal> = gather_proposals(&chunk.connections, ev, Ghost(chunk@));
        let ghost base = m.sim(no, nn);
        proof {
            assert(base.queue =~= st.queue.skip(1));
            assert(base == Sim { queue: st.queue.skip(1), ..st });
            lemma_apply_all_bounds(base, ps@);
            assert(ps@.take(0) =~= Seq::<Proposal>::empty());
        }
        let count: usize = ps.len();
        let mut j: usize = 0;
        while j < count
            invariant
                j <= count,
                count == ps@.len(),
                count <= conns.len(),
                m.fits(no, nn),
                targets_valid(ps@, no, nn),
                base.applied < MAX_EFFECTS,
                m.sim(no, nn) == apply_all(base, ps@.take(j as int)),
            decreases count - j,
        {
            proof {
                lemma_apply_all_bounds(base, ps@.take(j as int));
                assert(ps@.take(j + 1).drop_last() =~= ps@.take(j as int));
            }
            m.apply(ps[j], no, nn);
            j = j + 1;
        }
        proof {
            assert(ps@.take(count as int) =~= ps@);
            steps = steps + 1;
        }
    }
    proof {
        assert(halts_in(chunk@, steps));
        lemma_settled(chunk@, steps);
    }
    (
        words_to_bytes(input.as_slice(), ni),
        words_to_bytes(m.output.as_slice(), no),
        words_to_bytes(m.internal.as_slice(), nn),
    )
}

} // verus!
