//! Where the wavefront and the event queue agree.
//!
//! Both resolve what is asked of a bit by commutative precedence. A
//! round of the wavefront resolves all that the round asks of the bit at
//! once; the event queue resolves what one event asks of it, and takes
//! the events one after the other: that is [`lemma_gather_resolves`]. The
//! two part ways only where the connections of several events meet on
//! one bit. A round is calm if no two of its events fire connections at
//! the same bit. A tick that comes to rest through calm rounds leaves
//! the bits that the event queue leaves: that is
//! [`lemma_calm_tick_agrees`].
//!
//! The proof keeps the two in step round by round. The events that wait
//! at the start of a round are taken by the event queue one after the
//! other; in a calm round every bit is the target of at most one event,
//! so that the order of the events does not matter, and the events that
//! the changed bits queue are those of the next frontier.

use vstd::prelude::*;
use crate::chunk::{Action, ChunkView, Connection, Section, Trigger};
use crate::cpu_ref::{
    after, apply_all, apply_one, fires, gather, halted, halts_in, joined, lands, lemma_settled,
    merge, seed, settled, slot_of, start_of, step, Edge, Event, MAX_EFFECTS, Proposal, Sim,
};
use crate::layout::{
    bit_of_words, lemma_word_bit_ops, packs_words, unpack_bytes, unpack_words, words_for,
};
use crate::policy::ExecutionResult;
use crate::scheduler::{run_after, ticked, Run, Scheduler, Termination};
use crate::scheduler::{lit, seed_wave, stirred};
use crate::csr::{
    bucket_of, chunk_wires, effect_aligned, insert_effect, lemma_bucket_members,
    lemma_bucket_step, lemma_sort_effects, sort_effects, wire_of, Effect, Wire, CSR,
};
use crate::policy::{resolve, toggle_count};
use crate::wave::{
    asked, changed, commit, fallen, lemma_actions_push, lemma_commit_bit, next_wave, risen, settle,
    stage, staged, wave_after, Wave,
};

verus! {

/// The queue of `w` for the edge that `t` answers to.
pub open spec fn queue_of(w: Wave, t: Trigger) -> Seq<u32> {
    match t {
        Trigger::On => w.on,
        Trigger::Off => w.off,
        Trigger::Toggle => w.toggle,
    }
}

/// Connection `c` fires in the round that starts from `w`: its source
/// waits in the queue of its trigger.
pub open spec fn fired(w: Wave, ni: u32, c: Connection) -> bool {
    queue_of(w, c.trigger).contains(wire_of(c, ni).source)
}

/// Connection `c` aims at bit `b` of the internal section, or of the
/// output section.
pub open spec fn aims(c: Connection, internal: bool, b: int) -> bool {
    (c.to_section == Section::Internal) == internal && c.to_index == b
}

/// The round that starts from `w` is calm: no two events of it fire
/// connections at the same bit. Connections that fire in it and aim at
/// one bit leave one source on one edge.
pub open spec fn calm(conns: Seq<Connection>, ni: u32, w: Wave) -> bool {
    forall|k: int, m: int|
        0 <= k < conns.len() && 0 <= m < conns.len() && fired(w, ni, #[trigger] conns[k]) && fired(
            w,
            ni,
            #[trigger] conns[m],
        ) && conns[k].to_section == conns[m].to_section && conns[k].to_index == conns[m].to_index
            ==> wire_of(conns[k], ni).source == wire_of(conns[m], ni).source && conns[k].trigger
            == conns[m].trigger
}

/// No connection aims at an input.
pub open spec fn past_inputs(conns: Seq<Connection>) -> bool {
    forall|k: int| 0 <= k < conns.len() ==> (#[trigger] conns[k]).to_section != Section::Input
}

/// No source waits twice in a queue of `w`.
pub open spec fn unrepeated(w: Wave) -> bool {
    w.on.no_duplicates() && w.off.no_duplicates() && w.toggle.no_duplicates()
}

/// Effect `e` aims at bit `b` of the internal section, or of the output
/// section.
pub open spec fn aimed(e: Effect, internal: bool, b: int) -> bool {
    e.to_is_internal == internal && e.to_bit == b
}

/// What is asked of a bit by two runs of effects is what the first
/// asks, then what the second asks.
pub proof fn lemma_asked_add(x: Seq<Effect>, y: Seq<Effect>, internal: bool, b: int)
    ensures
        asked(x + y, internal, b) == asked(x, internal, b) + asked(y, internal, b),
    decreases y.len(),
{
    if y.len() == 0 {
        assert(x + y =~= x);
        assert(asked(x, internal, b) + asked(y, internal, b) =~= asked(x, internal, b));
    } else {
        assert((x + y).drop_last() =~= x + y.drop_last());
        assert((x + y).last() == y.last());
        lemma_asked_add(x, y.drop_last(), internal, b);
        let front = asked(x, internal, b) + asked(y.drop_last(), internal, b);
        if aimed(y.last(), internal, b) {
            assert(front.push(y.last().action) =~= asked(x, internal, b) + asked(
                y.drop_last(),
                internal,
                b,
            ).push(y.last().action));
        }
    }
}

/// Effects of which none aims at a bit ask nothing of it.
pub proof fn lemma_asked_none(x: Seq<Effect>, internal: bool, b: int)
    requires
        forall|i: int| 0 <= i < x.len() ==> !aimed(#[trigger] x[i], internal, b),
    ensures
        asked(x, internal, b) == Seq::<Action>::empty(),
    decreases x.len(),
{
    if x.len() > 0 {
        assert forall|i: int| 0 <= i < x.drop_last().len() implies !aimed(
            #[trigger] x.drop_last()[i],
            internal,
            b,
        ) by {
            assert(x.drop_last()[i] == x[i]);
        }
        lemma_asked_none(x.drop_last(), internal, b);
        assert(!aimed(x[x.len() - 1], internal, b));
    }
}

/// What one more effect adds to what is asked of a bit.
pub proof fn lemma_asked_push(s: Seq<Effect>, e: Effect, internal: bool, b: int)
    ensures
        asked(s.push(e), internal, b) == (if aimed(e, internal, b) {
            asked(s, internal, b).push(e.action)
        } else {
            asked(s, internal, b)
        }),
        asked(seq![e], internal, b) == (if aimed(e, internal, b) {
            seq![e.action]
        } else {
            Seq::<Action>::empty()
        }),
{
    assert(s.push(e).drop_last() =~= s);
    assert(s.push(e).last() == e);
    assert(seq![e].drop_last() =~= Seq::<Effect>::empty());
    assert(seq![e].last() == e);
    assert(asked(Seq::<Effect>::empty(), internal, b) =~= Seq::<Action>::empty());
    assert(Seq::<Action>::empty().push(e.action) =~= seq![e.action]);
}

/// Two runs of actions look the same to the precedence, which then
/// resolves them to the same: both or neither hold a Disable, both or
/// neither hold an Enable, and they hold as many Toggles.
pub open spec fn same_asks(a: Seq<Action>, b: Seq<Action>) -> bool {
    a.contains(Action::Disable) == b.contains(Action::Disable) && a.contains(Action::Enable)
        == b.contains(Action::Enable) && toggle_count(a) == toggle_count(b)
}

/// One more action keeps two runs looking the same.
proof fn lemma_same_push(a: Seq<Action>, b: Seq<Action>, x: Action)
    requires
        same_asks(a, b),
    ensures
        same_asks(a.push(x), b.push(x)),
{
    lemma_actions_push(a, x);
    lemma_actions_push(b, x);
    assert(a.push(x).contains(Action::Disable) == (a.contains(Action::Disable) || x
        == Action::Disable));
    assert(b.push(x).contains(Action::Disable) == (b.contains(Action::Disable) || x
        == Action::Disable));
    assert(a.push(x).contains(Action::Enable) == (a.contains(Action::Enable) || x
        == Action::Enable));
    assert(b.push(x).contains(Action::Enable) == (b.contains(Action::Enable) || x
        == Action::Enable));
}

/// The order of two actions at the end of a run does not show.
proof fn lemma_same_swap(a: Seq<Action>, x: Action, y: Action)
    ensures
        same_asks(a.push(x).push(y), a.push(y).push(x)),
{
    lemma_actions_push(a, x);
    lemma_actions_push(a, y);
    lemma_actions_push(a.push(x), y);
    lemma_actions_push(a.push(y), x);
    let l = a.push(x).push(y);
    let r = a.push(y).push(x);
    assert(l.contains(Action::Disable) == (a.push(x).contains(Action::Disable) || y
        == Action::Disable));
    assert(r.contains(Action::Disable) == (a.push(y).contains(Action::Disable) || x
        == Action::Disable));
    assert(a.push(x).contains(Action::Disable) == (a.contains(Action::Disable) || x
        == Action::Disable));
    assert(a.push(y).contains(Action::Disable) == (a.contains(Action::Disable) || y
        == Action::Disable));
    assert(l.contains(Action::Enable) == (a.push(x).contains(Action::Enable) || y
        == Action::Enable));
    assert(r.contains(Action::Enable) == (a.push(y).contains(Action::Enable) || x
        == Action::Enable));
    assert(a.push(x).contains(Action::Enable) == (a.contains(Action::Enable) || x
        == Action::Enable));
    assert(a.push(y).contains(Action::Enable) == (a.contains(Action::Enable) || y
        == Action::Enable));
}

/// Putting an effect into a sorted run asks of a bit what the run with
/// the effect at its end asks, but for the order.
proof fn lemma_asked_insert(s: Seq<Effect>, e: Effect, internal: bool, b: int)
    ensures
        same_asks(asked(insert_effect(s, e), internal, b), asked(s.push(e), internal, b)),
    decreases s.len(),
{
    if s.len() == 0 {
        assert(insert_effect(s, e) == seq![e]);
        assert(s.push(e) =~= seq![e]);
    } else if crate::csr::effect_le(s.last(), e) {
        assert(insert_effect(s, e) == s.push(e));
    } else {
        let front = s.drop_last();
        let last = s.last();
        assert(front.push(last) =~= s);
        lemma_asked_insert(front, e, internal, b);
        assert(insert_effect(s, e) == insert_effect(front, e).push(last));
        let ins = asked(insert_effect(front, e), internal, b);
        let fe = asked(front.push(e), internal, b);
        let f = asked(front, internal, b);
        lemma_asked_push(insert_effect(front, e), last, internal, b);
        lemma_asked_push(front, e, internal, b);
        lemma_asked_push(front, last, internal, b);
        lemma_asked_push(s, e, internal, b);
        lemma_asked_push(front.push(e), last, internal, b);
        // asked(insert(s, e)) looks like asked(front.push(e).push(last)),
        // which looks like asked(front.push(last).push(e)).
        if aimed(last, internal, b) {
            lemma_same_push(ins, fe, last.action);
            if aimed(e, internal, b) {
                lemma_same_swap(f, e.action, last.action);
            }
        }
    }
}

/// Sorting a run of effects leaves what is asked of a bit, but for the
/// order.
pub proof fn lemma_asked_sorted(x: Seq<Effect>, internal: bool, b: int)
    ensures
        same_asks(asked(sort_effects(x), internal, b), asked(x, internal, b)),
    decreases x.len(),
{
    if x.len() > 0 {
        let front = x.drop_last();
        let last = x.last();
        assert(front.push(last) =~= x);
        lemma_asked_sorted(front, internal, b);
        lemma_asked_insert(sort_effects(front), last, internal, b);
        lemma_asked_push(sort_effects(front), last, internal, b);
        lemma_asked_push(front, last, internal, b);
        if aimed(last, internal, b) {
            lemma_same_push(
                asked(sort_effects(front), internal, b),
                asked(front, internal, b),
                last.action,
            );
        }
    }
}

/// A run that looks the same as an empty one is empty.
proof fn lemma_same_empty(a: Seq<Action>, b: Seq<Action>)
    requires
        same_asks(a, b),
        b.len() == 0,
    ensures
        a.len() == 0,
{
    if a.len() > 0 {
        assert(toggle_count(b) == 0);
        assert(a.contains(a[0]));
        lemma_toggles_bound(a);
        match a[0] {
            Action::Toggle => {
                lemma_toggle_found(a, 0);
            },
            _ => {},
        }
    }
}

/// A run holds no more Toggles than actions.
proof fn lemma_toggles_bound(a: Seq<Action>)
    ensures
        toggle_count(a) <= a.len(),
    decreases a.len(),
{
    if a.len() > 0 {
        lemma_toggles_bound(a.drop_last());
    }
}

/// A run that holds a Toggle counts at least one.
proof fn lemma_toggle_found(a: Seq<Action>, i: int)
    requires
        0 <= i < a.len(),
        a[i] == Action::Toggle,
    ensures
        toggle_count(a) >= 1,
    decreases a.len(),
{
    if i < a.len() - 1 {
        assert(a.drop_last()[i] == a[i]);
        lemma_toggle_found(a.drop_last(), i);
    }
}

/// A bucket of which no wire aims at a bit asks nothing of it.
proof fn lemma_bucket_none(wires: Seq<Wire>, s: int, g: Trigger, internal: bool, b: int)
    requires
        forall|m: int|
            0 <= m < wires.len() && (#[trigger] wires[m]).source == s && wires[m].trigger == g
                ==> !aimed(wires[m].effect, internal, b),
    ensures
        asked(bucket_of(wires, s, g), internal, b) == Seq::<Action>::empty(),
{
    let x = bucket_of(wires, s, g);
    assert forall|i: int| 0 <= i < x.len() implies !aimed(#[trigger] x[i], internal, b) by {
        assert(x.contains(x[i]));
        lemma_bucket_members(wires, s, g, x[i]);
    }
    lemma_asked_none(x, internal, b);
}

/// The number under which the adjacency knows the bit that `ev` tells
/// of.
pub open spec fn source_no(ev: Event, ni: u32) -> u32 {
    if ev.section == Section::Input {
        ev.index
    } else {
        (ni + ev.index) as u32
    }
}

/// The event tells of an input or an internal bit that exists.
pub open spec fn in_range(ev: Event, ni: u32, nn: u32) -> bool {
    (ev.section == Section::Input && ev.index < ni) || (ev.section == Section::Internal
        && ev.index < nn)
}

/// The internal section, or the output section.
pub open spec fn section_of(internal: bool) -> Section {
    if internal {
        Section::Internal
    } else {
        Section::Output
    }
}

/// The bucket of an event asks of a bit what the connections that the
/// event fires ask of it, in table order: shown for the first `n`
/// connections.
proof fn lemma_bucket_asked_by(
    conns: Seq<Connection>,
    ni: u32,
    nn: u32,
    ev: Event,
    internal: bool,
    b: int,
    n: int,
)
    requires
        ni + nn <= u32::MAX,
        wired_from(conns, ni, nn),
        past_inputs(conns),
        in_range(ev, ni, nn),
        0 <= n <= conns.len(),
    ensures
        asked(
            bucket_of(chunk_wires(conns, ni).take(n), source_no(ev, ni) as int, answering(ev.edge)),
            internal,
            b,
        ) == asked_by(conns.take(n), ev, section_of(internal), b),
    decreases n,
{
    let wires = chunk_wires(conns, ni);
    let s = source_no(ev, ni) as int;
    let g = answering(ev.edge);
    if n == 0 {
        assert(wires.take(0) =~= Seq::<Wire>::empty());
        assert(conns.take(0) =~= Seq::<Connection>::empty());
        assert(asked(Seq::<Effect>::empty(), internal, b) =~= Seq::<Action>::empty());
    } else {
        lemma_bucket_asked_by(conns, ni, nn, ev, internal, b, n - 1);
        lemma_bucket_step(wires, n - 1, s, g);
        let c = conns[n - 1];
        assert(wires[n - 1] == wire_of(c, ni));
        assert(conns.take(n - 1).push(c) =~= conns.take(n));
        lemma_asked_by_push(conns.take(n - 1), c, ev, section_of(internal), b);
        lemma_asked_push(bucket_of(wires.take(n - 1), s, g), wires[n - 1].effect, internal, b);
        assert((wires[n - 1].source == s && wires[n - 1].trigger == g) == fires(c, ev));
        assert(aimed(wires[n - 1].effect, internal, b) == (c.to_section == section_of(internal)
            && c.to_index == b));
    }
}

/// A queue whose buckets ask nothing of a bit expands to effects that
/// ask nothing of it.
proof fn lemma_stage_none(csr: &CSR, g: Trigger, queue: Seq<u32>, internal: bool, b: int)
    requires
        forall|q: int|
            0 <= q < queue.len() ==> asked(
                csr.bucket(g, (#[trigger] queue[q]) as int),
                internal,
                b,
            ).len() == 0,
    ensures
        asked(stage(csr, g, queue), internal, b) == Seq::<Action>::empty(),
    decreases queue.len(),
{
    if queue.len() == 0 {
        assert(asked(Seq::<Effect>::empty(), internal, b) =~= Seq::<Action>::empty());
    } else {
        let front = queue.drop_last();
        assert forall|q: int| 0 <= q < front.len() implies asked(
            csr.bucket(g, (#[trigger] front[q]) as int),
            internal,
            b,
        ).len() == 0 by {
            assert(front[q] == queue[q]);
        }
        lemma_stage_none(csr, g, front, internal, b);
        let last = csr.bucket(g, queue.last() as int);
        assert(queue[queue.len() - 1] == queue.last());
        lemma_asked_add(stage(csr, g, front), last, internal, b);
        assert(asked(stage(csr, g, queue), internal, b) =~= Seq::<Action>::empty());
    }
}

/// A queue of whose buckets only one asks anything of a bit expands
/// to effects that ask of it what that bucket asks.
proof fn lemma_stage_only(
    csr: &CSR,
    g: Trigger,
    queue: Seq<u32>,
    internal: bool,
    b: int,
    q0: int,
)
    requires
        0 <= q0 < queue.len(),
        forall|q: int|
            0 <= q < queue.len() && q != q0 ==> asked(
                csr.bucket(g, (#[trigger] queue[q]) as int),
                internal,
                b,
            ).len() == 0,
    ensures
        asked(stage(csr, g, queue), internal, b) == asked(
            csr.bucket(g, queue[q0] as int),
            internal,
            b,
        ),
    decreases queue.len(),
{
    let front = queue.drop_last();
    let last = csr.bucket(g, queue.last() as int);
    let a = asked(csr.bucket(g, queue[q0] as int), internal, b);
    lemma_asked_add(stage(csr, g, front), last, internal, b);
    if q0 == queue.len() - 1 {
        assert forall|q: int| 0 <= q < front.len() implies asked(
            csr.bucket(g, (#[trigger] front[q]) as int),
            internal,
            b,
        ).len() == 0 by {
            assert(front[q] == queue[q]);
        }
        lemma_stage_none(csr, g, front, internal, b);
        assert(Seq::<Action>::empty() + a =~= a);
    } else {
        assert(front[q0] == queue[q0]);
        assert forall|q: int| 0 <= q < front.len() && q != q0 implies asked(
            csr.bucket(g, (#[trigger] front[q]) as int),
            internal,
            b,
        ).len() == 0 by {
            assert(front[q] == queue[q]);
        }
        lemma_stage_only(csr, g, front, internal, b, q0);
        assert(queue[queue.len() - 1] == queue.last());
        assert(asked(last, internal, b) =~= Seq::<Action>::empty());
        assert(a + Seq::<Action>::empty() =~= a);
    }
}

/// What the queue of one edge asks of a bit in a calm round: what the
/// connections fired by one event ask of it, but for the order; or
/// nothing, if no connection of that edge fires and aims at the bit.
proof fn lemma_queue_asks(
    csr: &CSR,
    conns: Seq<Connection>,
    ni: u32,
    nn: u32,
    w: Wave,
    g: Trigger,
    internal: bool,
    b: int,
)
    requires
        ni + nn <= u32::MAX,
        csr.groups(chunk_wires(conns, ni), ni + nn),
        w.sources_below(ni + nn),
        past_inputs(conns),
        wired_from(conns, ni, nn),
        calm(conns, ni, w),
        unrepeated(w),
    ensures
        forall|k: int|
            0 <= k < conns.len() && (#[trigger] conns[k]).trigger == g && fired(w, ni, conns[k])
                && aims(conns[k], internal, b) ==> same_asks(
                asked(stage(csr, g, queue_of(w, g)), internal, b),
                asked_by(conns, firing_event(conns[k]), section_of(internal), b),
            ),
        (forall|k: int|
            0 <= k < conns.len() && (#[trigger] conns[k]).trigger == g && fired(w, ni, conns[k])
                ==> !aims(conns[k], internal, b)) ==> asked(
            stage(csr, g, queue_of(w, g)),
            internal,
            b,
        ) == Seq::<Action>::empty(),
{
    let wires = chunk_wires(conns, ni);
    let queue = queue_of(w, g);
    assert forall|q: int| 0 <= q < queue.len() implies #[trigger] csr.bucket(g, queue[q] as int)
        == sort_effects(bucket_of(wires, queue[q] as int, g)) by {
        match g {
            Trigger::On => {
                assert(w.on[q] < ni + nn);
            },
            Trigger::Off => {
                assert(w.off[q] < ni + nn);
            },
            Trigger::Toggle => {
                assert(w.toggle[q] < ni + nn);
            },
        }
    }
    if exists|k: int|
        0 <= k < conns.len() && (#[trigger] conns[k]).trigger == g && fired(w, ni, conns[k])
            && aims(conns[k], internal, b) {
        let k0 = choose|k: int|
            0 <= k < conns.len() && (#[trigger] conns[k]).trigger == g && fired(w, ni, conns[k])
                && aims(conns[k], internal, b);
        let s0 = wires[k0].source;
        let ev0 = firing_event(conns[k0]);
        assert(queue.contains(s0));
        let q0 = choose|q: int| 0 <= q < queue.len() && queue[q] == s0;
        assert forall|q: int| 0 <= q < queue.len() && q != q0 implies asked(
            csr.bucket(g, (#[trigger] queue[q]) as int),
            internal,
            b,
        ).len() == 0 by {
            let s = queue[q] as int;
            assert forall|m: int|
                0 <= m < wires.len() && (#[trigger] wires[m]).source == s && wires[m].trigger
                    == g implies !aimed(wires[m].effect, internal, b) by {
                if aimed(wires[m].effect, internal, b) {
                    assert(queue.contains(wires[m].source));
                    assert(fired(w, ni, conns[m]));
                    assert(aims(conns[m], internal, b));
                    assert(conns[m].to_section == conns[k0].to_section);
                    assert(wire_of(conns[m], ni).source == wire_of(conns[k0], ni).source);
                    assert(queue[q] == queue[q0]);
                }
            }
            lemma_bucket_none(wires, s, g, internal, b);
            lemma_asked_sorted(bucket_of(wires, s, g), internal, b);
            lemma_same_empty(
                asked(sort_effects(bucket_of(wires, s, g)), internal, b),
                asked(bucket_of(wires, s, g), internal, b),
            );
        }
        lemma_stage_only(csr, g, queue, internal, b, q0);
        assert(in_range(ev0, ni, nn));
        assert(source_no(ev0, ni) == s0);
        assert(answering(ev0.edge) == g);
        lemma_bucket_asked_by(conns, ni, nn, ev0, internal, b, conns.len() as int);
        assert(wires.take(conns.len() as int) =~= wires);
        assert(conns.take(conns.len() as int) =~= conns);
        lemma_asked_sorted(bucket_of(wires, s0 as int, g), internal, b);
        assert forall|k: int|
            0 <= k < conns.len() && (#[trigger] conns[k]).trigger == g && fired(w, ni, conns[k])
                && aims(conns[k], internal, b) implies same_asks(
            asked(stage(csr, g, queue_of(w, g)), internal, b),
            asked_by(conns, firing_event(conns[k]), section_of(internal), b),
        ) by {
            assert(conns[k].to_section == conns[k0].to_section);
            assert(wire_of(conns[k], ni).source == wire_of(conns[k0], ni).source);
            assert(firing_event(conns[k]) == ev0);
        }
    } else {
        assert forall|q: int| 0 <= q < queue.len() implies asked(
            csr.bucket(g, (#[trigger] queue[q]) as int),
            internal,
            b,
        ).len() == 0 by {
            let s = queue[q] as int;
            assert forall|m: int|
                0 <= m < wires.len() && (#[trigger] wires[m]).source == s && wires[m].trigger
                    == g implies !aimed(wires[m].effect, internal, b) by {
                if aimed(wires[m].effect, internal, b) {
                    assert(queue.contains(wires[m].source));
                    assert(conns[m].trigger == g && fired(w, ni, conns[m]) && aims(
                        conns[m],
                        internal,
                        b,
                    ));
                }
            }
            lemma_bucket_none(wires, s, g, internal, b);
            lemma_asked_sorted(bucket_of(wires, s, g), internal, b);
            lemma_same_empty(
                asked(sort_effects(bucket_of(wires, s, g)), internal, b),
                asked(bucket_of(wires, s, g), internal, b),
            );
        }
        lemma_stage_none(csr, g, queue, internal, b);
    }
}

/// What a calm round asks of a bit: what the connections fired by one
/// event ask of it, but for the order; or nothing, if no connection fires
/// and aims at the bit.
pub proof fn lemma_round_asks(
    csr: &CSR,
    conns: Seq<Connection>,
    ni: u32,
    nn: u32,
    w: Wave,
    internal: bool,
    b: int,
)
    requires
        ni + nn <= u32::MAX,
        csr.groups(chunk_wires(conns, ni), ni + nn),
        w.sources_below(ni + nn),
        past_inputs(conns),
        wired_from(conns, ni, nn),
        calm(conns, ni, w),
        unrepeated(w),
    ensures
        forall|k: int|
            0 <= k < conns.len() && fired(w, ni, #[trigger] conns[k]) && aims(
                conns[k],
                internal,
                b,
            ) ==> same_asks(
                asked(staged(csr, w), internal, b),
                asked_by(conns, firing_event(conns[k]), section_of(internal), b),
            ),
        (forall|k: int|
            0 <= k < conns.len() && fired(w, ni, #[trigger] conns[k]) ==> !aims(
                conns[k],
                internal,
                b,
            )) ==> asked(staged(csr, w), internal, b) == Seq::<Action>::empty(),
{
    lemma_queue_asks(csr, conns, ni, nn, w, Trigger::On, internal, b);
    lemma_queue_asks(csr, conns, ni, nn, w, Trigger::Off, internal, b);
    lemma_queue_asks(csr, conns, ni, nn, w, Trigger::Toggle, internal, b);
    let on = stage(csr, Trigger::On, w.on);
    let off = stage(csr, Trigger::Off, w.off);
    let tog = stage(csr, Trigger::Toggle, w.toggle);
    lemma_asked_add(on, off, internal, b);
    lemma_asked_add(on + off, tog, internal, b);
    let none = Seq::<Action>::empty();
    assert forall|k: int|
        0 <= k < conns.len() && fired(w, ni, #[trigger] conns[k]) && aims(
            conns[k],
            internal,
            b,
        ) implies same_asks(
        asked(staged(csr, w), internal, b),
        asked_by(conns, firing_event(conns[k]), section_of(internal), b),
    ) by {
        assert forall|m: int|
            0 <= m < conns.len() && (#[trigger] conns[m]).trigger != conns[k].trigger && fired(
                w,
                ni,
                conns[m],
            ) implies !aims(conns[m], internal, b) by {
            if aims(conns[m], internal, b) {
                assert(conns[m].to_section == conns[k].to_section);
            }
        }
        match conns[k].trigger {
            Trigger::On => {
                assert(asked(off, internal, b) == none);
                assert(asked(tog, internal, b) == none);
                assert(asked(on, internal, b) + none + none =~= asked(on, internal, b));
            },
            Trigger::Off => {
                assert(asked(on, internal, b) == none);
                assert(asked(tog, internal, b) == none);
                assert(none + asked(off, internal, b) + none =~= asked(off, internal, b));
            },
            Trigger::Toggle => {
                assert(asked(on, internal, b) == none);
                assert(asked(off, internal, b) == none);
                assert(none + none + asked(tog, internal, b) =~= asked(tog, internal, b));
            },
        }
    }
    if forall|k: int|
        0 <= k < conns.len() && fired(w, ni, #[trigger] conns[k]) ==> !aims(conns[k], internal, b) {
        assert(asked(on, internal, b) == none);
        assert(asked(off, internal, b) == none);
        assert(asked(tog, internal, b) == none);
        assert(none + none =~= none);
    }
}

/// The proposals have different targets.
pub open spec fn apart(ps: Seq<Proposal>) -> bool {
    forall|x: int, y: int|
        0 <= x < ps.len() && 0 <= y < ps.len() && x != y ==> !((#[trigger] ps[x]).to_section == (
        #[trigger] ps[y]).to_section && ps[x].to_index == ps[y].to_index)
}

/// Event `ev` fires a connection at bit `t` of section `sec`.
pub open spec fn fired_at(conns: Seq<Connection>, ev: Event, sec: Section, t: int) -> bool {
    exists|m: int|
        0 <= m < conns.len() && #[trigger] fires(conns[m], ev) && conns[m].to_section == sec
            && conns[m].to_index == t
}

/// Something is asked of a bit exactly if the event fires a connection
/// at it.
proof fn lemma_asked_by_some(conns: Seq<Connection>, ev: Event, sec: Section, t: int)
    ensures
        asked_by(conns, ev, sec, t).len() > 0 <==> fired_at(conns, ev, sec, t),
    decreases conns.len(),
{
    if conns.len() > 0 {
        let front = conns.drop_last();
        let c = conns.last();
        lemma_asked_by_some(front, ev, sec, t);
        if fired_at(front, ev, sec, t) {
            let m = choose|m: int|
                0 <= m < front.len() && #[trigger] fires(front[m], ev) && front[m].to_section
                    == sec && front[m].to_index == t;
            assert(conns[m] == front[m]);
            assert(fires(conns[m], ev));
        }
        if fired_at(conns, ev, sec, t) {
            let m = choose|m: int|
                0 <= m < conns.len() && #[trigger] fires(conns[m], ev) && conns[m].to_section
                    == sec && conns[m].to_index == t;
            if m < front.len() {
                assert(front[m] == conns[m]);
                assert(fires(front[m], ev));
            }
        }
        if fires(c, ev) && c.to_section == sec && c.to_index == t {
            assert(fires(conns[conns.len() - 1], ev));
        }
    }
}

/// Proposal `p` is for bit `t` of section `sec`.
pub open spec fn asks(p: Proposal, sec: Section, t: int) -> bool {
    p.to_section == sec && p.to_index == t
}

/// Every proposal is for an internal or an output bit that exists.
pub open spec fn in_reach(ps: Seq<Proposal>, no: u32, nn: u32) -> bool {
    forall|x: int|
        0 <= x < ps.len() ==> ((#[trigger] ps[x]).to_section == Section::Internal && ps[x].to_index
            < nn) || (ps[x].to_section == Section::Output && ps[x].to_index < no)
}

/// The events that the proposals `ps` queue when they are applied to
/// the internal bits `bits`, each to a bit of its own: for every bit
/// that changes, the edge it shows and a Toggle.
pub open spec fn emitted(bits: Seq<bool>, ps: Seq<Proposal>) -> Seq<Event>
    decreases ps.len(),
{
    if ps.len() == 0 {
        Seq::empty()
    } else {
        let before = emitted(bits, ps.drop_last());
        let p = ps.last();
        let now = lands(p.action, bits[p.to_index as int]);
        if p.to_section == Section::Internal && now != bits[p.to_index as int] {
            before.push(
                Event {
                    section: Section::Internal,
                    index: p.to_index,
                    edge: if now { Edge::On } else { Edge::Off },
                },
            ).push(Event { section: Section::Internal, index: p.to_index, edge: Edge::Toggle })
        } else {
            before
        }
    }
}

/// What applying proposals with different targets does: every target
/// takes its action, every other bit stays, every proposal counts as an
/// effect, and the events of the internal bits that change are queued.
proof fn lemma_apply_apart(st: Sim, ps: Seq<Proposal>, no: u32, nn: u32)
    requires
        apart(ps),
        in_reach(ps, no, nn),
        st.internal.len() == nn,
        st.output.len() == no,
    ensures
        apply_all(st, ps).internal.len() == nn,
        apply_all(st, ps).output.len() == no,
        apply_all(st, ps).applied == st.applied + ps.len(),
        apply_all(st, ps).queue == st.queue + emitted(st.internal, ps),
        forall|x: int|
            0 <= x < ps.len() && (#[trigger] ps[x]).to_section == Section::Internal ==> apply_all(
                st,
                ps,
            ).internal[ps[x].to_index as int] == lands(ps[x].action,
                st.internal[ps[x].to_index as int],
            ),
        forall|x: int|
            0 <= x < ps.len() && (#[trigger] ps[x]).to_section == Section::Output ==> apply_all(
                st,
                ps,
            ).output[ps[x].to_index as int] == lands(ps[x].action, st.output[ps[x].to_index as int]),
        forall|t: int|
            0 <= t < nn && (forall|x: int|
                0 <= x < ps.len() ==> !asks(#[trigger] ps[x], Section::Internal, t))
                ==> #[trigger] apply_all(st, ps).internal[t] == st.internal[t],
        forall|t: int|
            0 <= t < no && (forall|x: int|
                0 <= x < ps.len() ==> !asks(#[trigger] ps[x], Section::Output, t))
                ==> #[trigger] apply_all(st, ps).output[t] == st.output[t],
    decreases ps.len(),
{
    if ps.len() == 0 {
        assert(st.queue + emitted(st.internal, ps) =~= st.queue);
    } else {
        let front = ps.drop_last();
        let p = ps.last();
        assert forall|x: int, y: int|
            0 <= x < front.len() && 0 <= y < front.len() && x != y implies !((
        #[trigger] front[x]).to_section == (#[trigger] front[y]).to_section && front[x].to_index
            == front[y].to_index) by {
            assert(front[x] == ps[x] && front[y] == ps[y]);
        }
        assert forall|x: int| 0 <= x < front.len() implies ((#[trigger] front[x]).to_section
            == Section::Internal && front[x].to_index < nn) || (front[x].to_section
            == Section::Output && front[x].to_index < no) by {
            assert(front[x] == ps[x]);
        }
        lemma_apply_apart(st, front, no, nn);
        let mid = apply_all(st, front);
        let r = apply_one(mid, p);
        assert(ps[ps.len() - 1] == p);
        let i = p.to_index as int;
        // The target of the last proposal is as it was.
        assert forall|x: int| 0 <= x < front.len() implies !asks(
            #[trigger] front[x],
            p.to_section,
            i,
        ) by {
            assert(front[x] == ps[x]);
        }
        if p.to_section == Section::Internal {
            assert(mid.internal[i] == st.internal[i]);
        } else {
            assert(mid.output[i] == st.output[i]);
        }
        assert(r.queue =~= st.queue + emitted(st.internal, ps));
        assert forall|x: int|
            0 <= x < ps.len() && (#[trigger] ps[x]).to_section == Section::Internal implies r.internal[ps[x].to_index as int]
            == lands(ps[x].action, st.internal[ps[x].to_index as int]) by {
            if x < front.len() {
                assert(front[x] == ps[x]);
            }
        }
        assert forall|x: int|
            0 <= x < ps.len() && (#[trigger] ps[x]).to_section == Section::Output implies r.output[ps[x].to_index as int]
            == lands(ps[x].action, st.output[ps[x].to_index as int]) by {
            if x < front.len() {
                assert(front[x] == ps[x]);
            }
        }
        assert forall|t: int|
            0 <= t < nn && (forall|x: int|
                0 <= x < ps.len() ==> !asks(#[trigger] ps[x], Section::Internal, t)) implies #[trigger] r.internal[t]
            == st.internal[t] by {
            assert forall|x: int| 0 <= x < front.len() implies !asks(
                #[trigger] front[x],
                Section::Internal,
                t,
            ) by {
                assert(front[x] == ps[x]);
            }
            assert(!asks(ps[ps.len() - 1], Section::Internal, t));
        }
        assert forall|t: int|
            0 <= t < no && (forall|x: int|
                0 <= x < ps.len() ==> !asks(#[trigger] ps[x], Section::Output, t)) implies #[trigger] r.output[t]
            == st.output[t] by {
            assert forall|x: int| 0 <= x < front.len() implies !asks(
                #[trigger] front[x],
                Section::Output,
                t,
            ) by {
                assert(front[x] == ps[x]);
            }
            assert(!asks(ps[ps.len() - 1], Section::Output, t));
        }
    }
}

/// What one more element adds to a sequence.
proof fn lemma_push_contains<T>(s: Seq<T>, a: T)
    ensures
        forall|x: T| #[trigger] s.push(a).contains(x) <==> (s.contains(x) || x == a),
{
    let t = s.push(a);
    assert forall|x: T| #[trigger] t.contains(x) <==> (s.contains(x) || x == a) by {
        if s.contains(x) {
            let w = choose|w: int| 0 <= w < s.len() && s[w] == x;
            assert(t[w] == x);
        }
        if x == a {
            assert(t[s.len() as int] == x);
        }
        if t.contains(x) {
            let w = choose|w: int| 0 <= w < t.len() && t[w] == x;
            if w < s.len() {
                assert(s[w] == x);
            }
        }
    }
}

/// What two sequences joined hold.
proof fn lemma_add_contains<T>(a: Seq<T>, b: Seq<T>)
    ensures
        forall|x: T| #[trigger] (a + b).contains(x) <==> (a.contains(x) || b.contains(x)),
{
    let t = a + b;
    assert forall|x: T| #[trigger] t.contains(x) <==> (a.contains(x) || b.contains(x)) by {
        if a.contains(x) {
            let w = choose|w: int| 0 <= w < a.len() && a[w] == x;
            assert(t[w] == x);
        }
        if b.contains(x) {
            let w = choose|w: int| 0 <= w < b.len() && b[w] == x;
            assert(t[a.len() + w] == x);
        }
        if t.contains(x) {
            let w = choose|w: int| 0 <= w < t.len() && t[w] == x;
            if w < a.len() {
                assert(a[w] == x);
            } else {
                assert(b[w - a.len()] == x);
            }
        }
    }
}

/// Two sequences without repeats that share nothing join to one
/// without repeats.
proof fn lemma_add_no_duplicates<T>(a: Seq<T>, b: Seq<T>)
    requires
        a.no_duplicates(),
        b.no_duplicates(),
        forall|i: int, j: int| 0 <= i < a.len() && 0 <= j < b.len() ==> a[i] != b[j],
    ensures
        (a + b).no_duplicates(),
{
    let t = a + b;
    assert forall|i: int, j: int| 0 <= i < t.len() && 0 <= j < t.len() && i != j implies t[i]
        != t[j] by {
        if i < a.len() && j < a.len() {
            assert(t[i] == a[i] && t[j] == a[j]);
        } else if i >= a.len() && j >= a.len() {
            assert(t[i] == b[i - a.len()] && t[j] == b[j - a.len()]);
        } else if i < a.len() {
            assert(t[i] == a[i] && t[j] == b[j - a.len()]);
        } else {
            assert(t[j] == a[j] && t[i] == b[i - a.len()]);
        }
    }
}

/// A bit that is `now` shows the edge `edge`: it shows a Toggle, and On
/// if it is set, Off if it is clear.
pub open spec fn shows(edge: Edge, now: bool) -> bool {
    edge == Edge::Toggle || (edge == Edge::On && now) || (edge == Edge::Off && !now)
}

/// Event `ev` is raised when the proposals `ps` are applied to the
/// internal bits `bits`: some proposal changes its bit, which then
/// shows its edge.
pub open spec fn raised_by(bits: Seq<bool>, ps: Seq<Proposal>, ev: Event) -> bool {
    exists|x: int|
        0 <= x < ps.len() && asks(#[trigger] ps[x], Section::Internal, ev.index as int)
            && ev.section == Section::Internal && lands(ps[x].action, bits[ev.index as int])
            != bits[ev.index as int] && shows(ev.edge, lands(ps[x].action, bits[ev.index as int]))
}

/// What proposals with different targets queue: no event twice, and
/// exactly the events that they raise.
proof fn lemma_emitted(bits: Seq<bool>, ps: Seq<Proposal>)
    requires
        apart(ps),
    ensures
        emitted(bits, ps).no_duplicates(),
        forall|ev: Event| #[trigger] emitted(bits, ps).contains(ev) <==> raised_by(bits, ps, ev),
    decreases ps.len(),
{
    if ps.len() == 0 {
        assert forall|ev: Event| #[trigger] emitted(bits, ps).contains(ev) <==> raised_by(
            bits,
            ps,
            ev,
        ) by {}
    } else {
        let front = ps.drop_last();
        let p = ps.last();
        assert(ps[ps.len() - 1] == p);
        assert forall|x: int, y: int|
            0 <= x < front.len() && 0 <= y < front.len() && x != y implies !((
        #[trigger] front[x]).to_section == (#[trigger] front[y]).to_section && front[x].to_index
            == front[y].to_index) by {
            assert(front[x] == ps[x] && front[y] == ps[y]);
        }
        lemma_emitted(bits, front);
        let before = emitted(bits, front);
        let i = p.to_index as int;
        let now = lands(p.action, bits[i]);
        let e1 = Event {
            section: Section::Internal,
            index: p.to_index,
            edge: if now { Edge::On } else { Edge::Off },
        };
        let e2 = Event { section: Section::Internal, index: p.to_index, edge: Edge::Toggle };
        let stirs = p.to_section == Section::Internal && now != bits[i];
        lemma_push_contains(before, e1);
        lemma_push_contains(before.push(e1), e2);
        // No earlier proposal is for the bit of the last one.
        assert forall|x: int| 0 <= x < front.len() implies !asks(
            #[trigger] front[x],
            p.to_section,
            i,
        ) by {
            assert(front[x] == ps[x]);
        }
        let all = emitted(bits, ps);
        assert(all == (if stirs {
            before.push(e1).push(e2)
        } else {
            before
        }));
        assert forall|ev: Event| raised_by(bits, front, ev) implies raised_by(bits, ps, ev) by {
            let x = choose|x: int|
                0 <= x < front.len() && asks(#[trigger] front[x], Section::Internal, ev.index as int)
                    && ev.section == Section::Internal && lands(front[x].action,
                    bits[ev.index as int],
                ) != bits[ev.index as int] && shows(
                    ev.edge,
                    lands(front[x].action, bits[ev.index as int]),
                );
            assert(ps[x] == front[x]);
            assert(asks(ps[x], Section::Internal, ev.index as int));
        }
        assert forall|ev: Event| #[trigger] all.contains(ev) implies raised_by(bits, ps, ev) by {
            if before.contains(ev) {
                assert(raised_by(bits, front, ev));
            } else {
                assert(stirs && (ev == e1 || ev == e2));
                assert(asks(ps[ps.len() - 1], Section::Internal, ev.index as int));
                assert(shows(ev.edge, now));
            }
        }
        assert forall|ev: Event| raised_by(bits, ps, ev) implies #[trigger] all.contains(ev) by {
            let x = choose|x: int|
                0 <= x < ps.len() && asks(#[trigger] ps[x], Section::Internal, ev.index as int)
                    && ev.section == Section::Internal && lands(ps[x].action,
                    bits[ev.index as int],
                ) != bits[ev.index as int] && shows(
                    ev.edge,
                    lands(ps[x].action, bits[ev.index as int]),
                );
            if x < front.len() {
                assert(front[x] == ps[x]);
                assert(asks(front[x], Section::Internal, ev.index as int));
                assert(raised_by(bits, front, ev));
                assert(before.contains(ev));
                assert(before.push(e1).contains(ev));
                assert(before.push(e1).push(e2).contains(ev));
                assert(all.contains(ev));
            } else {
                assert(ps[x] == p);
                assert(ev.index == p.to_index);
                assert(stirs);
                if ev.edge == Edge::Toggle {
                    assert(ev == e2);
                    assert(before.push(e1).push(e2).contains(e2));
                } else {
                    assert(ev == e1);
                    assert(before.push(e1).contains(e1));
                    assert(before.push(e1).push(e2).contains(e1));
                }
                assert(all.contains(ev));
            }
        }
        if stirs {
            assert(!raised_by(bits, front, e1)) by {
                if raised_by(bits, front, e1) {
                    let x = choose|x: int|
                        0 <= x < front.len() && asks(#[trigger] front[x], Section::Internal, i);
                    assert(!asks(front[x], p.to_section, i));
                }
            }
            assert(!raised_by(bits, front, e2)) by {
                if raised_by(bits, front, e2) {
                    let x = choose|x: int|
                        0 <= x < front.len() && asks(#[trigger] front[x], Section::Internal, i);
                    assert(!asks(front[x], p.to_section, i));
                }
            }
            assert(!before.contains(e1));
            assert(!before.contains(e2));
            let t = before.push(e1).push(e2);
            assert forall|a: int, c: int| 0 <= a < t.len() && 0 <= c < t.len() && a != c implies t[a]
                != t[c] by {
                if a < before.len() && c < before.len() {
                    assert(t[a] == before[a] && t[c] == before[c]);
                } else if a < before.len() {
                    assert(t[a] == before[a]);
                    assert(before.contains(t[a]));
                } else if c < before.len() {
                    assert(t[c] == before[c]);
                    assert(before.contains(t[c]));
                }
            }
        }
    }
}

/// Every connection aims at an internal or an output bit that exists.
pub open spec fn wired_to(conns: Seq<Connection>, no: u32, nn: u32) -> bool {
    forall|k: int|
        0 <= k < conns.len() ==> ((#[trigger] conns[k]).to_section == Section::Internal
            && conns[k].to_index < nn) || (conns[k].to_section == Section::Output
            && conns[k].to_index < no)
}

/// Among the events of `q` no bit is the target of two events: two
/// events that fire connections at one bit are one event.
pub open spec fn each_bit_once(conns: Seq<Connection>, q: Seq<Event>) -> bool {
    forall|i: int, k: int, i2: int, k2: int|
        0 <= i < q.len() && 0 <= i2 < q.len() && 0 <= k < conns.len() && 0 <= k2 < conns.len()
            && #[trigger] fires(conns[k], q[i]) && #[trigger] fires(conns[k2], q[i2])
            && conns[k].to_section == conns[k2].to_section && conns[k].to_index
            == conns[k2].to_index ==> i == i2
}

/// One of the first `j` events of `q` fires a connection at bit `t` of
/// section `sec`.
pub open spec fn touched(
    conns: Seq<Connection>,
    q: Seq<Event>,
    j: int,
    sec: Section,
    t: int,
) -> bool {
    exists|i: int, k: int|
        0 <= i < j && i < q.len() && 0 <= k < conns.len() && #[trigger] fires(conns[k], q[i])
            && conns[k].to_section == sec && conns[k].to_index == t
}

/// Event `ev` tells of an internal bit that is not in `now` what it
/// was in `before`.
pub open spec fn tells_change(before: Seq<bool>, now: Seq<bool>, ev: Event) -> bool {
    ev.section == Section::Internal && ev.index < now.len() && now[ev.index as int]
        != before[ev.index as int] && shows(ev.edge, now[ev.index as int])
}

/// The bits `now` of section `sec` are those that the first `j` events
/// of `q` make of `before`: a bit that none of them fires a connection
/// at is as it was, and every other has taken what the precedence makes
/// of the actions that its event asks of it.
pub open spec fn bits_drained(
    conns: Seq<Connection>,
    q: Seq<Event>,
    j: int,
    sec: Section,
    before: Seq<bool>,
    now: Seq<bool>,
) -> bool {
    &&& now.len() == before.len()
    &&& forall|t: int|
        0 <= t < before.len() ==> touched(conns, q, j, sec, t) || #[trigger] now[t] == before[t]
    &&& forall|i: int, k: int|
        0 <= i < j && i < q.len() && 0 <= k < conns.len() && #[trigger] fires(conns[k], q[i])
            && conns[k].to_section == sec && conns[k].to_index < before.len()
            ==> now[conns[k].to_index as int] == lands(
            resolve(asked_by(conns, q[i], sec, conns[k].to_index as int)),
            before[conns[k].to_index as int],
        )
}

/// State `s` is what the first `j` events of the queue of `st` make of
/// `st`: the other events still wait, followed by the events `fresh`
/// that tell of the internal bits that changed.
pub open spec fn drained(
    conns: Seq<Connection>,
    st: Sim,
    s: Sim,
    j: int,
    fresh: Seq<Event>,
) -> bool {
    &&& 0 <= j <= st.queue.len()
    &&& s.queue == st.queue.skip(j) + fresh
    &&& fresh.no_duplicates()
    &&& forall|ev: Event|
        #[trigger] fresh.contains(ev) <==> tells_change(st.internal, s.internal, ev)
    &&& bits_drained(conns, st.queue, j, Section::Internal, st.internal, s.internal)
    &&& bits_drained(conns, st.queue, j, Section::Output, st.output, s.output)
}

/// One more event, seen on the bits of one section.
proof fn lemma_bits_step(
    conns: Seq<Connection>,
    q: Seq<Event>,
    j: int,
    sec: Section,
    before: Seq<bool>,
    mid: Seq<bool>,
    now: Seq<bool>,
)
    requires
        0 <= j < q.len(),
        each_bit_once(conns, q),
        bits_drained(conns, q, j, sec, before, mid),
        now.len() == mid.len(),
        forall|x: int|
            0 <= x < gather(conns, q[j]).len() && (#[trigger] gather(conns, q[j])[x]).to_section
                == sec && gather(conns, q[j])[x].to_index < mid.len() ==> now[gather(
                conns,
                q[j],
            )[x].to_index as int] == lands(
                gather(conns, q[j])[x].action,
                mid[gather(conns, q[j])[x].to_index as int],
            ),
        forall|t: int|
            0 <= t < mid.len() && (forall|x: int|
                0 <= x < gather(conns, q[j]).len() ==> !asks(
                    #[trigger] gather(conns, q[j])[x],
                    sec,
                    t,
                )) ==> #[trigger] now[t] == mid[t],
    ensures
        bits_drained(conns, q, j + 1, sec, before, now),
        forall|x: int|
            0 <= x < gather(conns, q[j]).len() && (#[trigger] gather(conns, q[j])[x]).to_section
                == sec && gather(conns, q[j])[x].to_index < mid.len() ==> mid[gather(
                conns,
                q[j],
            )[x].to_index as int] == before[gather(conns, q[j])[x].to_index as int],
        forall|t: int|
            0 <= t < mid.len() && touched(conns, q, j, sec, t) ==> #[trigger] now[t] == mid[t],
{
    let ps = gather(conns, q[j]);
    lemma_gather_resolves(conns, q[j]);
    // A bit that this event has a proposal for is one that it fires a
    // connection at.
    assert forall|x: int, t: int| 0 <= x < ps.len() && #[trigger] asks(ps[x], sec, t) implies fired_at(
        conns,
        q[j],
        sec,
        t,
    ) by {
        assert(proposed(ps, sec, t));
        lemma_asked_by_some(conns, q[j], sec, t);
    }
    // The target of a proposal of this event was not touched before.
    assert forall|x: int|
        0 <= x < ps.len() && (#[trigger] ps[x]).to_section == sec && ps[x].to_index
            < mid.len() implies !touched(conns, q, j, sec, ps[x].to_index as int) by {
        let t = ps[x].to_index as int;
        assert(asks(ps[x], sec, t));
        assert(fired_at(conns, q[j], sec, t));
        let m = choose|m: int|
            0 <= m < conns.len() && #[trigger] fires(conns[m], q[j]) && conns[m].to_section == sec
                && conns[m].to_index == t;
        if touched(conns, q, j, sec, t) {
            let (i, k) = choose|i: int, k: int|
                0 <= i < j && i < q.len() && 0 <= k < conns.len() && #[trigger] fires(
                    conns[k],
                    q[i],
                ) && conns[k].to_section == sec && conns[k].to_index == t;
            assert(fires(conns[k], q[i]) && fires(conns[m], q[j]));
        }
    }
    assert forall|x: int|
        0 <= x < ps.len() && (#[trigger] ps[x]).to_section == sec && ps[x].to_index
            < mid.len() implies mid[ps[x].to_index as int] == before[ps[x].to_index as int] by {
        assert(!touched(conns, q, j, sec, ps[x].to_index as int));
    }
    // A bit that was touched before is not asked for by this event.
    assert forall|t: int| 0 <= t < mid.len() && touched(conns, q, j, sec, t) implies #[trigger] now[t]
        == mid[t] by {
        let (i, k) = choose|i: int, k: int|
            0 <= i < j && i < q.len() && 0 <= k < conns.len() && #[trigger] fires(conns[k], q[i])
                && conns[k].to_section == sec && conns[k].to_index == t;
        assert forall|x: int| 0 <= x < ps.len() implies !asks(#[trigger] ps[x], sec, t) by {
            if asks(ps[x], sec, t) {
                assert(fired_at(conns, q[j], sec, t));
                let m = choose|m: int|
                    0 <= m < conns.len() && #[trigger] fires(conns[m], q[j])
                        && conns[m].to_section == sec && conns[m].to_index == t;
                assert(fires(conns[k], q[i]) && fires(conns[m], q[j]));
            }
        }
    }
    assert forall|t: int| 0 <= t < before.len() implies touched(conns, q, j + 1, sec, t)
        || #[trigger] now[t] == before[t] by {
        if !touched(conns, q, j + 1, sec, t) {
            assert forall|x: int| 0 <= x < ps.len() implies !asks(#[trigger] ps[x], sec, t) by {
                if asks(ps[x], sec, t) {
                    assert(fired_at(conns, q[j], sec, t));
                    let m = choose|m: int|
                        0 <= m < conns.len() && #[trigger] fires(conns[m], q[j])
                            && conns[m].to_section == sec && conns[m].to_index == t;
                    assert(fires(conns[m], q[j]));
                }
            }
            assert(now[t] == mid[t]);
            if touched(conns, q, j, sec, t) {
                let (i, k) = choose|i: int, k: int|
                    0 <= i < j && i < q.len() && 0 <= k < conns.len() && #[trigger] fires(
                        conns[k],
                        q[i],
                    ) && conns[k].to_section == sec && conns[k].to_index == t;
                assert(fires(conns[k], q[i]));
            }
            assert(mid[t] == before[t]);
        }
    }
    assert forall|i: int, k: int|
        0 <= i < j + 1 && i < q.len() && 0 <= k < conns.len() && #[trigger] fires(conns[k], q[i])
            && conns[k].to_section == sec && conns[k].to_index
            < before.len() implies now[conns[k].to_index as int] == lands(
        resolve(asked_by(conns, q[i], sec, conns[k].to_index as int)),
        before[conns[k].to_index as int],
    ) by {
        let t = conns[k].to_index as int;
        if i < j {
            assert(touched(conns, q, j, sec, t));
            assert(now[t] == mid[t]);
        } else {
            assert(fired_at(conns, q[j], sec, t));
            lemma_asked_by_some(conns, q[j], sec, t);
            assert(proposed(ps, sec, t));
            let x = choose|x: int| 0 <= x < ps.len() && asks(#[trigger] ps[x], sec, t);
            assert(ps[x].to_section == sec && ps[x].to_index == t);
            assert(now[t] == lands(ps[x].action, mid[t]));
            assert(mid[t] == before[t]);
        }
    }
}

/// Taking one more event keeps a run drained: the bits take what the
/// event's connections ask, and the events of the internal bits that
/// change join the fresh ones.
proof fn lemma_drain_step(
    conns: Seq<Connection>,
    st: Sim,
    s: Sim,
    j: int,
    fresh: Seq<Event>,
    no: u32,
    nn: u32,
)
    requires
        drained(conns, st, s, j, fresh),
        j < st.queue.len(),
        each_bit_once(conns, st.queue),
        wired_to(conns, no, nn),
        st.internal.len() == nn,
        st.output.len() == no,
        s.applied < MAX_EFFECTS,
    ensures
        drained(
            conns,
            st,
            step(conns, s),
            j + 1,
            fresh + emitted(s.internal, gather(conns, st.queue[j])),
        ),
{
    let q = st.queue;
    let e = q[j];
    assert(s.queue[0] == e) by {
        assert(q.skip(j)[0] == q[j]);
    }
    assert(!halted(s));
    lemma_gather_resolves(conns, e);
    let ps = gather(conns, e);
    assert(in_reach(ps, no, nn)) by {
        assert forall|x: int| 0 <= x < ps.len() implies ((#[trigger] ps[x]).to_section
            == Section::Internal && ps[x].to_index < nn) || (ps[x].to_section == Section::Output
            && ps[x].to_index < no) by {
            let sec = ps[x].to_section;
            let t = ps[x].to_index as int;
            assert(asks(ps[x], sec, t));
            assert(proposed(ps, sec, t));
            lemma_asked_by_some(conns, e, sec, t);
            let m = choose|m: int|
                0 <= m < conns.len() && #[trigger] fires(conns[m], e) && conns[m].to_section
                    == sec && conns[m].to_index == t;
            assert(conns[m].to_section == sec);
        }
    }
    let s1 = Sim { queue: s.queue.skip(1), ..s };
    lemma_apply_apart(s1, ps, no, nn);
    let r = apply_all(s1, ps);
    assert(r == step(conns, s));
    let em = emitted(s.internal, ps);
    let fresh2 = fresh + em;
    assert(r.queue =~= q.skip(j + 1) + fresh2);
    lemma_bits_step(conns, q, j, Section::Internal, st.internal, s.internal, r.internal);
    lemma_bits_step(conns, q, j, Section::Output, st.output, s.output, r.output);
    lemma_emitted(s.internal, ps);
    lemma_add_contains(fresh, em);
    assert forall|ev: Event| #[trigger] fresh.contains(ev) implies tells_change(
        st.internal,
        r.internal,
        ev,
    ) by {
        assert(tells_change(st.internal, s.internal, ev));
        let t = ev.index as int;
        assert(touched(conns, q, j, Section::Internal, t) || s.internal[t] == st.internal[t]);
        assert(r.internal[t] == s.internal[t]);
    }
    assert forall|ev: Event| #[trigger] em.contains(ev) implies tells_change(
        st.internal,
        r.internal,
        ev,
    ) && !fresh.contains(ev) by {
        assert(raised_by(s.internal, ps, ev));
        let t = ev.index as int;
        let x = choose|x: int|
            0 <= x < ps.len() && asks(#[trigger] ps[x], Section::Internal, t) && ev.section
                == Section::Internal && lands(ps[x].action, s.internal[t]) != s.internal[t]
                && shows(ev.edge, lands(ps[x].action, s.internal[t]));
        assert(ps[x].to_section == Section::Internal && ps[x].to_index < nn);
        assert(r.internal[ps[x].to_index as int] == lands(ps[x].action,
            s.internal[ps[x].to_index as int],
        ));
        assert(s.internal[ps[x].to_index as int] == st.internal[ps[x].to_index as int]);
        if fresh.contains(ev) {
            assert(tells_change(st.internal, s.internal, ev));
        }
    }
    assert forall|ev: Event| tells_change(st.internal, r.internal, ev) implies #[trigger] fresh2.contains(
        ev,
    ) by {
        let t = ev.index as int;
        if exists|x: int| 0 <= x < ps.len() && asks(#[trigger] ps[x], Section::Internal, t) {
            let x = choose|x: int| 0 <= x < ps.len() && asks(#[trigger] ps[x], Section::Internal, t);
            assert(ps[x].to_section == Section::Internal && ps[x].to_index < nn);
            assert(r.internal[ps[x].to_index as int] == lands(ps[x].action,
                s.internal[ps[x].to_index as int],
            ));
            assert(s.internal[ps[x].to_index as int] == st.internal[ps[x].to_index as int]);
            assert(raised_by(s.internal, ps, ev));
            assert(em.contains(ev));
        } else {
            assert(r.internal[t] == s.internal[t]);
            assert(tells_change(st.internal, s.internal, ev));
            assert(fresh.contains(ev));
        }
    }
    assert forall|ev: Event| #[trigger] fresh2.contains(ev) <==> tells_change(
        st.internal,
        r.internal,
        ev,
    ) by {
        if fresh2.contains(ev) {
            if fresh.contains(ev) {
            } else {
                assert(em.contains(ev));
            }
        }
    }
    assert forall|a: int, c: int| 0 <= a < fresh.len() && 0 <= c < em.len() implies fresh[a]
        != em[c] by {
        assert(em.contains(em[c]));
        assert(fresh.contains(fresh[a]));
    }
    lemma_add_no_duplicates(fresh, em);
}

/// The effect budget never stops the run from `st` while events wait.
pub open spec fn unstopped(conns: Seq<Connection>, st: Sim) -> bool {
    forall|n: nat|
        (#[trigger] after(conns, st, n)).queue.len() > 0 ==> after(conns, st, n).applied
            < MAX_EFFECTS
}

/// The first `j` events of a queue in which no bit is the target of
/// two events, taken one after the other, leave the run drained,
/// unless the effect budget stops it.
proof fn lemma_drain(conns: Seq<Connection>, st: Sim, no: u32, nn: u32, j: nat) -> (fresh: Seq<
    Event,
>)
    requires
        j <= st.queue.len(),
        each_bit_once(conns, st.queue),
        wired_to(conns, no, nn),
        st.internal.len() == nn,
        st.output.len() == no,
        unstopped(conns, st),
    ensures
        drained(conns, st, after(conns, st, j), j as int, fresh),
    decreases j,
{
    if j == 0 {
        let none = Seq::<Event>::empty();
        assert(st.queue =~= st.queue.skip(0) + none);
        none
    } else {
        let before = lemma_drain(conns, st, no, nn, (j - 1) as nat);
        let s = after(conns, st, (j - 1) as nat);
        assert(s.queue.len() > 0) by {
            assert(s.queue[0] == st.queue.skip(j - 1)[0]);
        }
        assert(s.applied < MAX_EFFECTS);
        lemma_drain_step(conns, st, s, j - 1, before, no, nn);
        before + emitted(s.internal, gather(conns, st.queue[j - 1]))
    }
}

/// The trigger that answers to `edge`.
pub open spec fn answering(edge: Edge) -> Trigger {
    match edge {
        Edge::On => Trigger::On,
        Edge::Off => Trigger::Off,
        Edge::Toggle => Trigger::Toggle,
    }
}

/// Event `ev` waits in the wave `w`: its bit is an input or an internal
/// bit that exists, and its source is in the queue of its edge.
pub open spec fn waits(w: Wave, ni: u32, nn: u32, ev: Event) -> bool {
    match ev.section {
        Section::Input => ev.index < ni && queue_of(w, answering(ev.edge)).contains(ev.index),
        Section::Internal => ev.index < nn && queue_of(w, answering(ev.edge)).contains(
            (ni + ev.index) as u32,
        ),
        Section::Output => false,
    }
}

/// The event queue `q` holds the events that wait in `w`, each once.
pub open spec fn mirrors(q: Seq<Event>, w: Wave, ni: u32, nn: u32) -> bool {
    q.no_duplicates() && forall|ev: Event| #[trigger] q.contains(ev) <==> waits(w, ni, nn, ev)
}

/// The bits of the state `s` are those of the wave `w`.
pub open spec fn same_bits(s: Sim, w: Wave, no: u32, nn: u32) -> bool {
    s.internal == unpack_words(w.internal, nn as int) && s.output == unpack_words(
        w.output,
        no as int,
    )
}

/// Every connection leaves an input or an internal bit that exists.
pub open spec fn wired_from(conns: Seq<Connection>, ni: u32, nn: u32) -> bool {
    forall|k: int|
        0 <= k < conns.len() ==> ((#[trigger] conns[k]).from_section == Section::Input
            && conns[k].from_index < ni) || (conns[k].from_section == Section::Internal
            && conns[k].from_index < nn)
}

/// An event that waits in a wave and fires a connection makes the
/// connection fire in the round of the wave.
proof fn lemma_waits_fired(w: Wave, ni: u32, nn: u32, ev: Event, c: Connection)
    requires
        ni + nn <= u32::MAX,
        waits(w, ni, nn, ev),
        fires(c, ev),
    ensures
        fired(w, ni, c),
        answering(ev.edge) == c.trigger,
{
}

/// The event that makes connection `c` fire.
pub open spec fn firing_event(c: Connection) -> Event {
    Event {
        section: c.from_section,
        index: c.from_index,
        edge: match c.trigger {
            Trigger::On => Edge::On,
            Trigger::Off => Edge::Off,
            Trigger::Toggle => Edge::Toggle,
        },
    }
}

/// The event of a connection that fires in the round of a wave waits
/// in the wave, and fires the connection.
proof fn lemma_fired_waits(w: Wave, ni: u32, nn: u32, c: Connection)
    requires
        ni + nn <= u32::MAX,
        fired(w, ni, c),
        (c.from_section == Section::Input && c.from_index < ni) || (c.from_section
            == Section::Internal && c.from_index < nn),
    ensures
        waits(w, ni, nn, firing_event(c)),
        fires(c, firing_event(c)),
{
}

/// In a queue that mirrors the wave of a calm round no bit is the
/// target of two events.
proof fn lemma_calm_once(conns: Seq<Connection>, q: Seq<Event>, w: Wave, ni: u32, nn: u32)
    requires
        ni + nn <= u32::MAX,
        calm(conns, ni, w),
        mirrors(q, w, ni, nn),
    ensures
        each_bit_once(conns, q),
{
    assert forall|i: int, k: int, i2: int, k2: int|
        0 <= i < q.len() && 0 <= i2 < q.len() && 0 <= k < conns.len() && 0 <= k2 < conns.len()
            && #[trigger] fires(conns[k], q[i]) && #[trigger] fires(conns[k2], q[i2])
            && conns[k].to_section == conns[k2].to_section && conns[k].to_index
            == conns[k2].to_index implies i == i2 by {
        assert(q.contains(q[i]));
        assert(q.contains(q[i2]));
        lemma_waits_fired(w, ni, nn, q[i], conns[k]);
        lemma_waits_fired(w, ni, nn, q[i2], conns[k2]);
        assert(fired(w, ni, conns[k]) && fired(w, ni, conns[k2]));
        assert(wire_of(conns[k], ni).source == wire_of(conns[k2], ni).source);
        assert(conns[k].trigger == conns[k2].trigger);
        assert(q[i].section == q[i2].section && q[i].index == q[i2].index);
        assert(q[i].edge == q[i2].edge);
        assert(q[i] == q[i2]);
    }
}

/// The numbers `base + t` of the places `t` below `k` at which `flags`
/// is set, in order.
pub open spec fn picked(flags: Seq<bool>, base: int, k: int) -> Seq<u32>
    decreases k,
{
    if k <= 0 {
        Seq::empty()
    } else {
        let front = picked(flags, base, k - 1);
        if flags[k - 1] {
            front.push((base + k - 1) as u32)
        } else {
            front
        }
    }
}

/// What [`picked`] holds: the number of every set place, once.
proof fn lemma_picked(flags: Seq<bool>, base: int, k: int)
    requires
        0 <= base,
        0 <= k <= flags.len(),
        base + k <= u32::MAX + 1,
    ensures
        forall|x: u32|
            #[trigger] picked(flags, base, k).contains(x) <==> (base <= x < base + k && flags[x
                - base]),
        picked(flags, base, k).no_duplicates(),
    decreases k,
{
    if k > 0 {
        lemma_picked(flags, base, k - 1);
        let front = picked(flags, base, k - 1);
        let last = (base + k - 1) as u32;
        lemma_push_contains(front, last);
        if flags[k - 1] {
            assert(!front.contains(last));
            let t = front.push(last);
            assert forall|a: int, c: int| 0 <= a < t.len() && 0 <= c < t.len() && a != c implies t[a]
                != t[c] by {
                if a < front.len() && c < front.len() {
                    assert(t[a] == front[a] && t[c] == front[c]);
                } else if a < front.len() {
                    assert(front.contains(front[a]));
                } else {
                    assert(front.contains(front[c]));
                }
            }
        }
    }
}

/// The set bits of `words` as flags.
pub open spec fn set_flags(words: Seq<u32>, n: int) -> Seq<bool> {
    Seq::new(n as nat, |t: int| bit_of_words(words, t))
}

/// The bits that are set now or were set before, as flags.
pub open spec fn stirred_flags(before: Seq<u32>, now: Seq<u32>, n: int) -> Seq<bool> {
    Seq::new(n as nat, |t: int| bit_of_words(now, t) || bit_of_words(before, t))
}

/// The bits that rose, as flags.
pub open spec fn risen_flags(before: Seq<u32>, now: Seq<u32>, n: int) -> Seq<bool> {
    Seq::new(n as nat, |t: int| !bit_of_words(before, t) && bit_of_words(now, t))
}

/// The bits that fell, as flags.
pub open spec fn fallen_flags(before: Seq<u32>, now: Seq<u32>, n: int) -> Seq<bool> {
    Seq::new(n as nat, |t: int| bit_of_words(before, t) && !bit_of_words(now, t))
}

/// The bits that changed, as flags.
pub open spec fn changed_flags(before: Seq<u32>, now: Seq<u32>, n: int) -> Seq<bool> {
    Seq::new(n as nat, |t: int| bit_of_words(before, t) != bit_of_words(now, t))
}

/// The five lists of sources are picked by their flags.
proof fn lemma_lists_picked(before: Seq<u32>, now: Seq<u32>, base: u32, n: int, k: int)
    requires
        0 <= k <= n,
    ensures
        lit(now, base, k) == picked(set_flags(now, n), base as int, k),
        stirred(before, now, k) == picked(stirred_flags(before, now, n), 0, k),
        risen(before, now, base, k) == picked(risen_flags(before, now, n), base as int, k),
        fallen(before, now, base, k) == picked(fallen_flags(before, now, n), base as int, k),
        changed(before, now, base, k) == picked(changed_flags(before, now, n), base as int, k),
    decreases k,
{
    if k > 0 {
        lemma_lists_picked(before, now, base, n, k - 1);
    }
}

/// The frontier that a round leaves mirrors the change of the internal
/// bits: the events that wait in it are those that tell of a bit that
/// changed; no source waits twice, and every source exists.
proof fn lemma_frontier_waits(w: Wave, before: Seq<u32>, ni: u32, nn: u32)
    requires
        ni + nn <= u32::MAX,
        w.on == risen(before, w.internal, ni, nn as int),
        w.off == fallen(before, w.internal, ni, nn as int),
        w.toggle == changed(before, w.internal, ni, nn as int),
    ensures
        unrepeated(w),
        w.sources_below(ni + nn),
        forall|ev: Event|
            #[trigger] waits(w, ni, nn, ev) <==> tells_change(
                unpack_words(before, nn as int),
                unpack_words(w.internal, nn as int),
                ev,
            ),
{
    let n = nn as int;
    lemma_lists_picked(before, w.internal, ni, n, n);
    lemma_picked(risen_flags(before, w.internal, n), ni as int, n);
    lemma_picked(fallen_flags(before, w.internal, n), ni as int, n);
    lemma_picked(changed_flags(before, w.internal, n), ni as int, n);
    assert forall|i: int| 0 <= i < w.on.len() implies (#[trigger] w.on[i]) < ni + nn by {
        assert(w.on.contains(w.on[i]));
    }
    assert forall|i: int| 0 <= i < w.off.len() implies (#[trigger] w.off[i]) < ni + nn by {
        assert(w.off.contains(w.off[i]));
    }
    assert forall|i: int| 0 <= i < w.toggle.len() implies (#[trigger] w.toggle[i]) < ni + nn by {
        assert(w.toggle.contains(w.toggle[i]));
    }
    assert forall|ev: Event|
        #[trigger] waits(w, ni, nn, ev) <==> tells_change(
            unpack_words(before, nn as int),
            unpack_words(w.internal, nn as int),
            ev,
        ) by {
        match ev.section {
            Section::Input => {
                if ev.index < ni {
                    assert(!w.on.contains(ev.index));
                    assert(!w.off.contains(ev.index));
                    assert(!w.toggle.contains(ev.index));
                }
            },
            Section::Internal => {
                if ev.index < nn {
                    let x = (ni + ev.index) as u32;
                    assert(x - ni == ev.index);
                    assert(w.on.contains(x) <==> risen_flags(before, w.internal, n)[ev.index as int]);
                    assert(w.off.contains(x) <==> fallen_flags(before, w.internal, n)[ev.index as int]);
                    assert(w.toggle.contains(x) <==> changed_flags(
                        before,
                        w.internal,
                        n,
                    )[ev.index as int]);
                }
            },
            Section::Output => {},
        }
    }
}

/// What the seeds of a run hold: an On and a Toggle for every set bit,
/// each once.
proof fn lemma_seed(bits: Seq<bool>, section: Section)
    requires
        bits.len() <= u32::MAX,
    ensures
        seed(bits, section).no_duplicates(),
        forall|ev: Event|
            #[trigger] seed(bits, section).contains(ev) <==> (ev.section == section && ev.index
                < bits.len() && bits[ev.index as int] && (ev.edge == Edge::On || ev.edge
                == Edge::Toggle)),
    decreases bits.len(),
{
    if bits.len() > 0 {
        let front = bits.drop_last();
        lemma_seed(front, section);
        let before = seed(front, section);
        let index = (bits.len() - 1) as u32;
        let e1 = Event { section, index, edge: Edge::On };
        let e2 = Event { section, index, edge: Edge::Toggle };
        lemma_push_contains(before, e1);
        lemma_push_contains(before.push(e1), e2);
        let all = seed(bits, section);
        assert forall|ev: Event|
            #[trigger] all.contains(ev) <==> (ev.section == section && ev.index < bits.len()
                && bits[ev.index as int] && (ev.edge == Edge::On || ev.edge == Edge::Toggle)) by {
            if ev.index < front.len() {
                assert(front[ev.index as int] == bits[ev.index as int]);
            }
            if ev.section == section && ev.index == index && (ev.edge == Edge::On || ev.edge
                == Edge::Toggle) {
                assert(ev == e1 || ev == e2);
            }
        }
        if bits.last() {
            assert(!before.contains(e1));
            assert(!before.contains(e2));
            let t = before.push(e1).push(e2);
            assert forall|a: int, c: int| 0 <= a < t.len() && 0 <= c < t.len() && a != c implies t[a]
                != t[c] by {
                if a < before.len() && c < before.len() {
                    assert(t[a] == before[a] && t[c] == before[c]);
                } else if a < before.len() {
                    assert(before.contains(before[a]));
                } else if c < before.len() {
                    assert(before.contains(before[c]));
                }
            }
        }
    }
}

/// The effects that a queue expands to are aligned.
proof fn lemma_stage_aligned(
    csr: &CSR,
    conns: Seq<Connection>,
    ni: u32,
    nn: u32,
    g: Trigger,
    queue: Seq<u32>,
)
    requires
        csr.groups(chunk_wires(conns, ni), ni + nn),
        forall|q: int| 0 <= q < queue.len() ==> (#[trigger] queue[q]) < ni + nn,
    ensures
        forall|i: int|
            0 <= i < stage(csr, g, queue).len() ==> effect_aligned(#[trigger] stage(csr, g, queue)[i]),
    decreases queue.len(),
{
    if queue.len() > 0 {
        let front = queue.drop_last();
        assert forall|q: int| 0 <= q < front.len() implies (#[trigger] front[q]) < ni + nn by {
            assert(front[q] == queue[q]);
        }
        lemma_stage_aligned(csr, conns, ni, nn, g, front);
        let wires = chunk_wires(conns, ni);
        let s = queue.last() as int;
        assert(queue[queue.len() - 1] < ni + nn);
        let raw = bucket_of(wires, s, g);
        let bucket = csr.bucket(g, s);
        assert(bucket == sort_effects(raw));
        lemma_sort_effects(raw);
        let all = stage(csr, g, queue);
        let head = stage(csr, g, front);
        assert forall|i: int| 0 <= i < all.len() implies effect_aligned(#[trigger] all[i]) by {
            if i < head.len() {
                assert(all[i] == head[i]);
            } else {
                let e = bucket[i - head.len()];
                assert(all[i] == e);
                assert(raw.contains(sort_effects(raw)[i - head.len()]));
                lemma_bucket_members(wires, s, g, e);
            }
        }
    }
}

/// In a calm round a bit takes what the precedence makes of the actions
/// that the connections of one event ask of it, and stays as it is if
/// no connection fires and aims at it.
proof fn lemma_calm_bit(
    csr: &CSR,
    conns: Seq<Connection>,
    ni: u32,
    nn: u32,
    w: Wave,
    internal: bool,
    b: int,
)
    requires
        ni + nn <= u32::MAX,
        csr.groups(chunk_wires(conns, ni), ni + nn),
        w.sources_below(ni + nn),
        past_inputs(conns),
        wired_from(conns, ni, nn),
        calm(conns, ni, w),
        unrepeated(w),
        0 <= b < 32 * (if internal {
            w.internal.len()
        } else {
            w.output.len()
        }),
    ensures
        forall|k: int|
            0 <= k < conns.len() && fired(w, ni, #[trigger] conns[k]) && aims(
                conns[k],
                internal,
                b,
            ) ==> bit_of_words(
                commit(if internal { w.internal } else { w.output }, staged(csr, w), internal),
                b,
            ) == lands(
                resolve(asked_by(conns, firing_event(conns[k]), section_of(internal), b)),
                bit_of_words(if internal { w.internal } else { w.output }, b),
            ),
        (forall|k: int|
            0 <= k < conns.len() && fired(w, ni, #[trigger] conns[k]) ==> !aims(
                conns[k],
                internal,
                b,
            )) ==> bit_of_words(
            commit(if internal { w.internal } else { w.output }, staged(csr, w), internal),
            b,
        ) == bit_of_words(if internal { w.internal } else { w.output }, b),
{
    let words = if internal { w.internal } else { w.output };
    let effects = staged(csr, w);
    lemma_stage_aligned(csr, conns, ni, nn, Trigger::On, w.on);
    lemma_stage_aligned(csr, conns, ni, nn, Trigger::Off, w.off);
    lemma_stage_aligned(csr, conns, ni, nn, Trigger::Toggle, w.toggle);
    lemma_commit_bit(words, effects, internal, b);
    lemma_round_asks(csr, conns, ni, nn, w, internal, b);
    let old = bit_of_words(words, b);
    assert(settle(old, Seq::<Action>::empty()) == old) by {
        assert(!Seq::<Action>::empty().contains(Action::Disable));
        assert(!Seq::<Action>::empty().contains(Action::Enable));
        assert(toggle_count(Seq::<Action>::empty()) == 0);
    }
}

/// A calm round and the event queue agree on a bit: taking the events
/// that wait, one after the other, makes of the bit what the round makes
/// of it.
proof fn lemma_bit_agrees(
    csr: &CSR,
    conns: Seq<Connection>,
    ni: u32,
    nn: u32,
    q: Seq<Event>,
    w: Wave,
    internal: bool,
    before: Seq<bool>,
    now: Seq<bool>,
    t: int,
)
    requires
        ni + nn <= u32::MAX,
        csr.groups(chunk_wires(conns, ni), ni + nn),
        w.sources_below(ni + nn),
        past_inputs(conns),
        wired_from(conns, ni, nn),
        calm(conns, ni, w),
        unrepeated(w),
        mirrors(q, w, ni, nn),
        bits_drained(conns, q, q.len() as int, section_of(internal), before, now),
        0 <= t < before.len(),
        t < 32 * (if internal {
            w.internal.len()
        } else {
            w.output.len()
        }),
        before[t] == bit_of_words(if internal { w.internal } else { w.output }, t),
    ensures
        now[t] == bit_of_words(
            commit(if internal { w.internal } else { w.output }, staged(csr, w), internal),
            t,
        ),
{
    let sec = section_of(internal);
    let n = q.len() as int;
    lemma_calm_bit(csr, conns, ni, nn, w, internal, t);
    if touched(conns, q, n, sec, t) {
        let (i, k) = choose|i: int, k: int|
            0 <= i < n && i < q.len() && 0 <= k < conns.len() && #[trigger] fires(conns[k], q[i])
                && conns[k].to_section == sec && conns[k].to_index == t;
        assert(q.contains(q[i]));
        lemma_waits_fired(w, ni, nn, q[i], conns[k]);
        assert(fired(w, ni, conns[k]) && aims(conns[k], internal, t));
        assert(q[i] == firing_event(conns[k]));
        assert(now[conns[k].to_index as int] == lands(
            resolve(asked_by(conns, q[i], sec, conns[k].to_index as int)),
            before[conns[k].to_index as int],
        ));
    } else {
        assert(now[t] == before[t]);
        assert forall|k: int| 0 <= k < conns.len() && fired(w, ni, #[trigger] conns[k]) implies !aims(
            conns[k],
            internal,
            t,
        ) by {
            if aims(conns[k], internal, t) {
                lemma_fired_waits(w, ni, nn, conns[k]);
                let ev = firing_event(conns[k]);
                assert(q.contains(ev));
                let i = choose|i: int| 0 <= i < q.len() && q[i] == ev;
                assert(fires(conns[k], q[i]));
                assert(conns[k].to_section == sec);
            }
        }
    }
}

/// A calm round and the event queue agree: taking the events that
/// wait, one after the other, makes of the bits what the round makes of
/// them, and queues the events that wait after the round.
proof fn lemma_round_agrees(
    csr: &CSR,
    conns: Seq<Connection>,
    ni: u32,
    no: u32,
    nn: u32,
    st: Sim,
    w: Wave,
)
    requires
        ni + nn <= u32::MAX,
        csr.groups(chunk_wires(conns, ni), ni + nn),
        wired_to(conns, no, nn),
        wired_from(conns, ni, nn),
        w.sources_below(ni + nn),
        unrepeated(w),
        calm(conns, ni, w),
        w.internal.len() == words_for(nn as int),
        w.output.len() == words_for(no as int),
        same_bits(st, w, no, nn),
        mirrors(st.queue, w, ni, nn),
        unstopped(conns, st),
    ensures
        same_bits(after(conns, st, st.queue.len()), next_wave(csr, ni, nn, w), no, nn),
        mirrors(after(conns, st, st.queue.len()).queue, next_wave(csr, ni, nn, w), ni, nn),
        next_wave(csr, ni, nn, w).sources_below(ni + nn),
        unrepeated(next_wave(csr, ni, nn, w)),
        next_wave(csr, ni, nn, w).internal.len() == words_for(nn as int),
        next_wave(csr, ni, nn, w).output.len() == words_for(no as int),
{
    reveal(next_wave);
    let q = st.queue;
    let n = q.len();
    let w2 = next_wave(csr, ni, nn, w);
    let s2 = after(conns, st, n);
    lemma_calm_once(conns, q, w, ni, nn);
    let fresh = lemma_drain(conns, st, no, nn, n);
    assert(s2.queue =~= fresh);
    assert(past_inputs(conns));
    assert forall|t: int| 0 <= t < nn implies s2.internal[t] == bit_of_words(w2.internal, t) by {
        assert(st.internal[t] == bit_of_words(w.internal, t));
        lemma_bit_agrees(csr, conns, ni, nn, q, w, true, st.internal, s2.internal, t);
    }
    assert forall|t: int| 0 <= t < no implies s2.output[t] == bit_of_words(w2.output, t) by {
        assert(st.output[t] == bit_of_words(w.output, t));
        lemma_bit_agrees(csr, conns, ni, nn, q, w, false, st.output, s2.output, t);
    }
    assert(s2.internal =~= unpack_words(w2.internal, nn as int));
    assert(s2.output =~= unpack_words(w2.output, no as int));
    lemma_frontier_waits(w2, w.internal, ni, nn);
    assert forall|ev: Event| #[trigger] s2.queue.contains(ev) <==> waits(w2, ni, nn, ev) by {
        assert(fresh.contains(ev) <==> tells_change(st.internal, s2.internal, ev));
    }
}

/// The wave that a tick starts from, with all inputs clear before,
/// mirrors the start of the event queue: the same bits, and the same
/// events waiting, each once.
proof fn lemma_start_agrees(
    in_bits: Seq<bool>,
    int_bits: Seq<bool>,
    out_bits: Seq<bool>,
    inputs: Seq<u32>,
    internal: Seq<u32>,
    output: Seq<u32>,
    ni: u32,
    no: u32,
    nn: u32,
)
    requires
        ni + nn <= u32::MAX,
        in_bits.len() == ni,
        int_bits.len() == nn,
        out_bits.len() == no,
        packs_words(inputs, in_bits),
        packs_words(internal, int_bits),
        packs_words(output, out_bits),
    ensures
        seed_wave(
            ni,
            nn,
            Seq::new(words_for(ni as int) as nat, |i: int| 0u32),
            inputs,
            internal,
            output,
        ).sources_below(ni + nn),
        unrepeated(
            seed_wave(
                ni,
                nn,
                Seq::new(words_for(ni as int) as nat, |i: int| 0u32),
                inputs,
                internal,
                output,
            ),
        ),
        mirrors(
            seed(in_bits, Section::Input) + seed(int_bits, Section::Internal),
            seed_wave(
                ni,
                nn,
                Seq::new(words_for(ni as int) as nat, |i: int| 0u32),
                inputs,
                internal,
                output,
            ),
            ni,
            nn,
        ),
        int_bits == unpack_words(internal, nn as int),
        out_bits == unpack_words(output, no as int),
{
    let zeros = Seq::new(words_for(ni as int) as nat, |i: int| 0u32);
    let w = seed_wave(ni, nn, zeros, inputs, internal, output);
    assert(int_bits =~= unpack_words(internal, nn as int));
    assert(out_bits =~= unpack_words(output, no as int));
    assert forall|t: int| 0 <= t < ni implies !bit_of_words(zeros, t) by {
        lemma_word_bit_ops(0, 0, (t % 32) as u32);
    }
    lemma_lists_picked(zeros, inputs, 0, ni as int, ni as int);
    lemma_lists_picked(zeros, internal, ni, nn as int, nn as int);
    let a_on = lit(inputs, 0, ni as int);
    let a_tog = stirred(zeros, inputs, ni as int);
    let b = lit(internal, ni, nn as int);
    lemma_picked(set_flags(inputs, ni as int), 0, ni as int);
    lemma_picked(stirred_flags(zeros, inputs, ni as int), 0, ni as int);
    lemma_picked(fallen_flags(zeros, inputs, ni as int), 0, ni as int);
    lemma_picked(set_flags(internal, nn as int), ni as int, nn as int);
    assert forall|i: int, j: int| 0 <= i < a_on.len() && 0 <= j < b.len() implies a_on[i]
        != b[j] by {
        assert(a_on.contains(a_on[i]));
        assert(b.contains(b[j]));
    }
    assert forall|i: int, j: int| 0 <= i < a_tog.len() && 0 <= j < b.len() implies a_tog[i]
        != b[j] by {
        assert(a_tog.contains(a_tog[i]));
        assert(b.contains(b[j]));
    }
    lemma_add_no_duplicates(a_on, b);
    lemma_add_no_duplicates(a_tog, b);
    lemma_add_contains(a_on, b);
    lemma_add_contains(a_tog, b);
    assert forall|i: int| 0 <= i < w.on.len() implies (#[trigger] w.on[i]) < ni + nn by {
        assert(w.on.contains(w.on[i]));
    }
    assert forall|i: int| 0 <= i < w.off.len() implies (#[trigger] w.off[i]) < ni + nn by {
        assert(w.off.contains(w.off[i]));
    }
    assert forall|i: int| 0 <= i < w.toggle.len() implies (#[trigger] w.toggle[i]) < ni + nn by {
        assert(w.toggle.contains(w.toggle[i]));
    }
    let qa = seed(in_bits, Section::Input);
    let qb = seed(int_bits, Section::Internal);
    lemma_seed(in_bits, Section::Input);
    lemma_seed(int_bits, Section::Internal);
    assert forall|i: int, j: int| 0 <= i < qa.len() && 0 <= j < qb.len() implies qa[i]
        != qb[j] by {
        assert(qa.contains(qa[i]));
        assert(qb.contains(qb[j]));
    }
    lemma_add_no_duplicates(qa, qb);
    lemma_add_contains(qa, qb);
    assert forall|ev: Event| #[trigger] (qa + qb).contains(ev) <==> waits(w, ni, nn, ev) by {
        match ev.section {
            Section::Input => {
                if ev.index < ni {
                    let x = ev.index;
                    assert(!b.contains(x));
                    assert(a_on.contains(x) <==> set_flags(inputs, ni as int)[x as int]);
                    assert(a_tog.contains(x) <==> stirred_flags(zeros, inputs, ni as int)[x as int]);
                    assert(!w.off.contains(x));
                    assert(bit_of_words(inputs, x as int) == in_bits[x as int]);
                }
            },
            Section::Internal => {
                if ev.index < nn {
                    let x = (ni + ev.index) as u32;
                    assert(x - ni == ev.index);
                    assert(!a_on.contains(x));
                    assert(!a_tog.contains(x));
                    assert(!w.off.contains(x));
                    assert(b.contains(x) <==> set_flags(internal, nn as int)[ev.index as int]);
                    assert(bit_of_words(internal, ev.index as int) == int_bits[ev.index as int]);
                }
            },
            Section::Output => {},
        }
    }
}

/// Running `a` steps and then `b` more is running `a + b` steps.
proof fn lemma_after_add(conns: Seq<Connection>, st: Sim, a: nat, b: nat)
    ensures
        after(conns, st, a + b) == after(conns, after(conns, st, a), b),
    decreases b,
{
    if b > 0 {
        lemma_after_add(conns, st, a, (b - 1) as nat);
        assert((a + b - 1) as nat == a + (b - 1) as nat);
    }
}

/// A run that the budget never stops is not stopped later either.
proof fn lemma_unstopped_on(conns: Seq<Connection>, st: Sim, a: nat)
    requires
        unstopped(conns, st),
    ensures
        unstopped(conns, after(conns, st, a)),
{
    assert forall|n: nat|
        (#[trigger] after(conns, after(conns, st, a), n)).queue.len() > 0 implies after(
        conns,
        after(conns, st, a),
        n,
    ).applied < MAX_EFFECTS by {
        lemma_after_add(conns, st, a, n);
        assert(after(conns, st, a + n).queue.len() > 0);
    }
}

/// The number of steps in which the event queue takes the events of
/// the first `r` rounds: for every round, as many as events wait when
/// it begins.
pub open spec fn steps_for(conns: Seq<Connection>, st: Sim, r: nat) -> nat
    decreases r,
{
    if r == 0 {
        0
    } else {
        let n = steps_for(conns, st, (r - 1) as nat);
        n + after(conns, st, n).queue.len()
    }
}

/// The wave `w` and the state `s` of the event queue stand for the
/// same moment of a run.
pub open spec fn in_step(s: Sim, w: Wave, ni: u32, no: u32, nn: u32) -> bool {
    &&& same_bits(s, w, no, nn)
    &&& mirrors(s.queue, w, ni, nn)
    &&& w.sources_below(ni + nn)
    &&& unrepeated(w)
    &&& w.internal.len() == words_for(nn as int)
    &&& w.output.len() == words_for(no as int)
}

/// Through calm rounds the wavefront and the event queue stay in step.
proof fn lemma_rounds_agree(
    csr: &CSR,
    conns: Seq<Connection>,
    ni: u32,
    no: u32,
    nn: u32,
    st: Sim,
    w: Wave,
    r: nat,
)
    requires
        ni + nn <= u32::MAX,
        csr.groups(chunk_wires(conns, ni), ni + nn),
        wired_to(conns, no, nn),
        wired_from(conns, ni, nn),
        in_step(st, w, ni, no, nn),
        unstopped(conns, st),
        forall|k: nat| k < r ==> calm(conns, ni, #[trigger] wave_after(csr, ni, nn, w, k)),
    ensures
        in_step(
            after(conns, st, steps_for(conns, st, r)),
            wave_after(csr, ni, nn, w, r),
            ni,
            no,
            nn,
        ),
    decreases r,
{
    if r > 0 {
        lemma_rounds_agree(csr, conns, ni, no, nn, st, w, (r - 1) as nat);
        let n = steps_for(conns, st, (r - 1) as nat);
        let s = after(conns, st, n);
        let at = wave_after(csr, ni, nn, w, (r - 1) as nat);
        lemma_unstopped_on(conns, st, n);
        assert(calm(conns, ni, at));
        lemma_round_agrees(csr, conns, ni, no, nn, s, at);
        lemma_after_add(conns, st, n, s.queue.len());
    }
}

/// A run of the scheduler that started with no round counted is, after
/// any number of steps, in the wave that its rounds lead to.
proof fn lemma_run_wave(
    csr: &CSR,
    ni: u32,
    nn: u32,
    max_rounds: u32,
    budget: u64,
    start: Run,
    n: nat,
)
    requires
        start.rounds == 0,
    ensures
        run_after(csr, ni, nn, max_rounds, budget, start, n).wave == wave_after(
            csr,
            ni,
            nn,
            start.wave,
            run_after(csr, ni, nn, max_rounds, budget, start, n).rounds,
        ),
    decreases n,
{
    if n > 0 {
        lemma_run_wave(csr, ni, nn, max_rounds, budget, start, (n - 1) as nat);
    }
}

/// The scheduler `s` is as a new one is for `chunk`: it has the
/// adjacency of its connections and its internal and output bits, and
/// all inputs were clear before.
pub open spec fn made_for(s: &Scheduler, chunk: ChunkView) -> bool {
    &&& s.ni == chunk.input_count
    &&& s.no == chunk.output_count
    &&& s.nn == chunk.internal_count
    &&& s.ni + s.nn <= u32::MAX
    &&& s.csr.groups(chunk_wires(chunk.connections, s.ni), s.ni + s.nn)
    &&& s.inputs@ == Seq::new(words_for(s.ni as int) as nat, |i: int| 0u32)
    &&& packs_words(s.internals@, unpack_bytes(chunk.internal_bits, chunk.internal_count as int))
    &&& packs_words(s.outputs@, unpack_bytes(chunk.output_bits, chunk.output_count as int))
}

/// A tick that comes to rest through calm rounds ends where the event
/// queue ends. Take a chunk whose connections are wired, a scheduler
/// newly made for it, and a tick on the input bits of the chunk. If the
/// tick ends quiescent, if every round of it was calm, and if the event
/// queue came to rest with no event left, then the internal and the
/// output bits that the tick reports are those in which the event queue
/// settled.
pub proof fn lemma_calm_tick_agrees(
    chunk: ChunkView,
    pre: &Scheduler,
    post: &Scheduler,
    inputs: Seq<u32>,
    max_rounds: u32,
    budget: u64,
    window: usize,
    result: ExecutionResult,
    cause: Termination,
)
    requires
        chunk.wired(),
        made_for(pre, chunk),
        packs_words(inputs, unpack_bytes(chunk.input_bits, chunk.input_count as int)),
        ticked(pre, post, inputs, max_rounds, budget, window, result, cause),
        cause is Quiescent,
        forall|r: nat|
            r < result.rounds ==> calm(
                chunk.connections,
                pre.ni,
                #[trigger] wave_after(
                    &pre.csr,
                    pre.ni,
                    pre.nn,
                    pre.start_run(inputs, window).wave,
                    r,
                ),
            ),
        settled(chunk).queue.len() == 0,
    ensures
        unpack_words(result.internals@, chunk.internal_count as int) == settled(chunk).internal,
        unpack_words(result.outputs@, chunk.output_count as int) == settled(chunk).output,
{
    let conns = chunk.connections;
    let (ni, no, nn) = (pre.ni, pre.no, pre.nn);
    let st = start_of(chunk);
    let start = pre.start_run(inputs, window);
    let w = start.wave;
    let run = pre.final_run(inputs, max_rounds, budget, window);
    lemma_run_wave(&pre.csr, ni, nn, max_rounds, budget, start, max_rounds as nat);
    assert(run.wave.quiet());
    lemma_start_agrees(
        unpack_bytes(chunk.input_bits, ni as int),
        unpack_bytes(chunk.internal_bits, nn as int),
        unpack_bytes(chunk.output_bits, no as int),
        inputs,
        pre.internals@,
        pre.outputs@,
        ni,
        no,
        nn,
    );
    assert(wired_to(conns, no, nn) && wired_from(conns, ni, nn)) by {
        assert forall|k: int| 0 <= k < conns.len() implies (((#[trigger] conns[k]).to_section
            == Section::Internal && conns[k].to_index < nn) || (conns[k].to_section
            == Section::Output && conns[k].to_index < no)) && ((conns[k].from_section
            == Section::Input && conns[k].from_index < ni) || (conns[k].from_section
            == Section::Internal && conns[k].from_index < nn)) by {
            assert(chunk.leaves_inside(k) && chunk.aims_inside(k));
        }
    }
    assert(unstopped(conns, st)) by {
        assert forall|n: nat| (#[trigger] after(conns, st, n)).queue.len() > 0 implies after(
            conns,
            st,
            n,
        ).applied < MAX_EFFECTS by {
            if after(conns, st, n).applied >= MAX_EFFECTS {
                assert(halts_in(chunk, n));
                lemma_settled(chunk, n);
            }
        }
    }
    assert(in_step(st, w, ni, no, nn));
    let rounds = run.rounds;
    lemma_rounds_agree(&pre.csr, conns, ni, no, nn, st, w, rounds);
    let n = steps_for(conns, st, rounds);
    let end = after(conns, st, n);
    assert(end.queue.len() == 0) by {
        if end.queue.len() > 0 {
            assert(end.queue.contains(end.queue[0]));
            assert(waits(run.wave, ni, nn, end.queue[0]));
        }
    }
    assert(halts_in(chunk, n));
    lemma_settled(chunk, n);
}

/// The actions that the connections fired by `ev` ask of bit `t` of
/// section `sec`, in table order.
pub open spec fn asked_by(conns: Seq<Connection>, ev: Event, sec: Section, t: int) -> Seq<Action>
    decreases conns.len(),
{
    if conns.len() == 0 {
        Seq::empty()
    } else {
        let front = asked_by(conns.drop_last(), ev, sec, t);
        let c = conns.last();
        if fires(c, ev) && c.to_section == sec && c.to_index == t {
            front.push(c.action)
        } else {
            front
        }
    }
}

/// Some proposal is for bit `t` of section `sec`.
pub open spec fn proposed(ps: Seq<Proposal>, sec: Section, t: int) -> bool {
    exists|x: int| 0 <= x < ps.len() && asks(#[trigger] ps[x], sec, t)
}

/// Joining one more action is resolving with one more action.
pub proof fn lemma_resolve_push(s: Seq<Action>, a: Action)
    ensures
        resolve(s.push(a)) == joined(resolve(s), a),
{
    lemma_actions_push(s, a);
    let t = s.push(a);
    assert(t.contains(Action::Disable) == (s.contains(Action::Disable) || a == Action::Disable));
    assert(t.contains(Action::Enable) == (s.contains(Action::Enable) || a == Action::Enable));
}

/// Where [`slot_of`] points: at the first proposal for the target, or
/// behind the proposals if there is none.
proof fn lemma_slot_found(ps: Seq<Proposal>, sec: Section, index: u32)
    ensures
        0 <= slot_of(ps, sec, index) <= ps.len(),
        forall|i: int| 0 <= i < slot_of(ps, sec, index) ==> !asks(#[trigger] ps[i], sec, index as int),
        slot_of(ps, sec, index) < ps.len() ==> asks(
            ps[slot_of(ps, sec, index)],
            sec,
            index as int,
        ),
    decreases ps.len(),
{
    if ps.len() > 0 && !(ps[0].to_section == sec && ps[0].to_index == index) {
        let rest = ps.skip(1);
        lemma_slot_found(rest, sec, index);
        assert forall|i: int| 0 <= i < slot_of(ps, sec, index) implies !asks(
            #[trigger] ps[i],
            sec,
            index as int,
        ) by {
            if i > 0 {
                assert(rest[i - 1] == ps[i]);
            }
        }
    }
}

/// The proposals `g` are what the precedence makes of the connections
/// `conns` that `ev` fires: one proposal for every bit that one of them
/// aims at, no bit twice, and with it what [`resolve`] makes of all the
/// actions asked of that bit.
pub open spec fn resolves(g: Seq<Proposal>, conns: Seq<Connection>, ev: Event) -> bool {
    &&& apart(g)
    &&& forall|x: int|
        0 <= x < g.len() ==> (#[trigger] g[x]).action == resolve(
            asked_by(conns, ev, g[x].to_section, g[x].to_index as int),
        )
    &&& forall|sec: Section, t: int|
        #[trigger] proposed(g, sec, t) <==> asked_by(conns, ev, sec, t).len() > 0
}

/// What one more connection adds to what is asked of a bit.
proof fn lemma_asked_by_push(front: Seq<Connection>, c: Connection, ev: Event, sec: Section, t: int)
    ensures
        asked_by(front.push(c), ev, sec, t) == (if fires(c, ev) && c.to_section == sec
            && c.to_index == t {
            asked_by(front, ev, sec, t).push(c.action)
        } else {
            asked_by(front, ev, sec, t)
        }),
{
    assert(front.push(c).drop_last() =~= front);
    assert(front.push(c).last() == c);
}

/// A fired connection whose target has a proposal joins it.
proof fn lemma_join_resolves(f: Seq<Proposal>, front: Seq<Connection>, c: Connection, ev: Event)
    requires
        resolves(f, front, ev),
        fires(c, ev),
        slot_of(f, c.to_section, c.to_index) < f.len(),
    ensures
        resolves(merge(f, c), front.push(c), ev),
{
    let sec = c.to_section;
    let idx = c.to_index;
    let conns = front.push(c);
    lemma_slot_found(f, sec, idx);
    let at = slot_of(f, sec, idx);
    let g = merge(f, c);
    lemma_resolve_push(asked_by(front, ev, sec, idx as int), c.action);
    lemma_asked_by_push(front, c, ev, sec, idx as int);
    assert forall|x: int| 0 <= x < g.len() implies (#[trigger] g[x]).to_section == f[x].to_section
        && g[x].to_index == f[x].to_index by {}
    assert(apart(g)) by {
        assert forall|x: int, y: int| 0 <= x < g.len() && 0 <= y < g.len() && x != y implies !((
        #[trigger] g[x]).to_section == (#[trigger] g[y]).to_section && g[x].to_index
            == g[y].to_index) by {
            assert(g[x].to_section == f[x].to_section && g[x].to_index == f[x].to_index);
            assert(g[y].to_section == f[y].to_section && g[y].to_index == f[y].to_index);
        }
    }
    assert forall|x: int| 0 <= x < g.len() implies (#[trigger] g[x]).action == resolve(
        asked_by(conns, ev, g[x].to_section, g[x].to_index as int),
    ) by {
        lemma_asked_by_push(front, c, ev, g[x].to_section, g[x].to_index as int);
        if x != at {
            assert(g[x] == f[x]);
            assert(!(f[x].to_section == f[at].to_section && f[x].to_index == f[at].to_index));
        }
    }
    assert forall|s2: Section, t: int| #[trigger]
        proposed(g, s2, t) <==> asked_by(conns, ev, s2, t).len() > 0 by {
        lemma_asked_by_push(front, c, ev, s2, t);
        if proposed(f, s2, t) {
            let x = choose|x: int| 0 <= x < f.len() && asks(#[trigger] f[x], s2, t);
            assert(asks(g[x], s2, t));
        }
        if proposed(g, s2, t) {
            let x = choose|x: int| 0 <= x < g.len() && asks(#[trigger] g[x], s2, t);
            assert(asks(f[x], s2, t));
        }
        if s2 == sec && t == idx {
            assert(asks(f[at], s2, t));
        }
    }
}

/// A fired connection whose target has no proposal yet adds one.
proof fn lemma_add_resolves(f: Seq<Proposal>, front: Seq<Connection>, c: Connection, ev: Event)
    requires
        resolves(f, front, ev),
        fires(c, ev),
        slot_of(f, c.to_section, c.to_index) >= f.len(),
    ensures
        resolves(merge(f, c), front.push(c), ev),
{
    let sec = c.to_section;
    let idx = c.to_index;
    let conns = front.push(c);
    lemma_slot_found(f, sec, idx);
    let g = merge(f, c);
    let before = asked_by(front, ev, sec, idx as int);
    lemma_resolve_push(before, c.action);
    lemma_asked_by_push(front, c, ev, sec, idx as int);
    assert(!proposed(f, sec, idx as int));
    assert(before =~= Seq::<Action>::empty());
    assert(!before.contains(Action::Disable) && !before.contains(Action::Enable));
    assert(toggle_count(before) == 0);
    assert(resolve(before) == None::<Action>);
    assert(apart(g)) by {
        assert forall|x: int, y: int| 0 <= x < g.len() && 0 <= y < g.len() && x != y implies !((
        #[trigger] g[x]).to_section == (#[trigger] g[y]).to_section && g[x].to_index
            == g[y].to_index) by {
            if x < f.len() && y < f.len() {
                assert(g[x] == f[x] && g[y] == f[y]);
            } else if x < f.len() {
                assert(g[x] == f[x]);
                assert(!asks(f[x], sec, idx as int));
            } else {
                assert(g[y] == f[y]);
                assert(!asks(f[y], sec, idx as int));
            }
        }
    }
    assert forall|x: int| 0 <= x < g.len() implies (#[trigger] g[x]).action == resolve(
        asked_by(conns, ev, g[x].to_section, g[x].to_index as int),
    ) by {
        lemma_asked_by_push(front, c, ev, g[x].to_section, g[x].to_index as int);
        if x < f.len() {
            assert(g[x] == f[x]);
            assert(!asks(f[x], sec, idx as int));
        }
    }
    assert forall|s2: Section, t: int| #[trigger]
        proposed(g, s2, t) <==> asked_by(conns, ev, s2, t).len() > 0 by {
        lemma_asked_by_push(front, c, ev, s2, t);
        if proposed(f, s2, t) {
            let x = choose|x: int| 0 <= x < f.len() && asks(#[trigger] f[x], s2, t);
            assert(g[x] == f[x]);
            assert(asks(g[x], s2, t));
        }
        if proposed(g, s2, t) {
            let x = choose|x: int| 0 <= x < g.len() && asks(#[trigger] g[x], s2, t);
            if x < f.len() {
                assert(g[x] == f[x]);
                assert(asks(f[x], s2, t));
            }
        }
        if s2 == sec && t == idx {
            assert(asks(g[f.len() as int], s2, t));
        }
    }
}

/// What an event gathers is the commutative precedence at work: one
/// proposal for every bit that a connection fired by the event aims at,
/// no bit twice, and with it what [`resolve`] makes of all the actions
/// that the fired connections ask of that bit. Order tags play no part.
pub proof fn lemma_gather_resolves(conns: Seq<Connection>, ev: Event)
    ensures
        resolves(gather(conns, ev), conns, ev),
    decreases conns.len(),
{
    if conns.len() == 0 {
        assert(resolves(gather(conns, ev), conns, ev));
    } else {
        let front = conns.drop_last();
        let c = conns.last();
        lemma_gather_resolves(front, ev);
        assert(front.push(c) =~= conns);
        let f = gather(front, ev);
        if fires(c, ev) {
            if slot_of(f, c.to_section, c.to_index) < f.len() {
                lemma_join_resolves(f, front, c, ev);
            } else {
                lemma_add_resolves(f, front, c, ev);
            }
        } else {
            assert forall|sec: Section, t: int|
                asked_by(conns, ev, sec, t) == asked_by(front, ev, sec, t) by {
                lemma_asked_by_push(front, c, ev, sec, t);
            }
        }
    }
}

} // verus!
