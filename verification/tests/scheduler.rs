use mycos::chunk::{Action, Connection, MycosChunk, Section, Trigger};
use mycos::cpu_ref::{execute, words_to_bytes};
use mycos::pipeline::{first_plan, next_plan, Plan, Stage};
use mycos::policy::Policy;
use mycos::scheduler::{Scheduler, Termination};

fn conn(
    from_section: Section,
    from_index: u32,
    to_section: Section,
    to_index: u32,
    trigger: Trigger,
    action: Action,
    order_tag: u32,
) -> Connection {
    Connection { from_section, to_section, trigger, action, from_index, to_index, order_tag }
}

fn chunk(ni: u32, no: u32, nn: u32, connections: Vec<Connection>) -> MycosChunk {
    MycosChunk {
        input_bits: vec![0; ni.div_ceil(8) as usize],
        output_bits: vec![0; no.div_ceil(8) as usize],
        internal_bits: vec![0; nn.div_ceil(8) as usize],
        input_count: ni,
        output_count: no,
        internal_count: nn,
        connections,
        name: None,
        note: None,
        build_hash: None,
    }
}

fn wire_echo() -> MycosChunk {
    chunk(1, 1, 0, vec![conn(Section::Input, 0, Section::Output, 0, Trigger::On, Action::Enable, 0)])
}

fn tiny_toggle() -> MycosChunk {
    chunk(
        1,
        1,
        1,
        vec![
            conn(Section::Input, 0, Section::Internal, 0, Trigger::On, Action::Enable, 0),
            conn(Section::Internal, 0, Section::Output, 0, Trigger::On, Action::Enable, 0),
        ],
    )
}

fn xor2() -> MycosChunk {
    chunk(
        2,
        1,
        2,
        vec![
            conn(Section::Input, 0, Section::Internal, 0, Trigger::On, Action::Enable, 0),
            conn(Section::Input, 1, Section::Internal, 1, Trigger::On, Action::Enable, 0),
            conn(Section::Internal, 0, Section::Output, 0, Trigger::On, Action::Toggle, 0),
            conn(Section::Internal, 1, Section::Output, 0, Trigger::On, Action::Toggle, 0),
        ],
    )
}

fn sr_latch() -> MycosChunk {
    chunk(
        2,
        1,
        1,
        vec![
            conn(Section::Input, 0, Section::Internal, 0, Trigger::On, Action::Enable, 0),
            conn(Section::Input, 1, Section::Internal, 0, Trigger::On, Action::Disable, 1),
            conn(Section::Internal, 0, Section::Output, 0, Trigger::On, Action::Enable, 0),
            conn(Section::Internal, 0, Section::Output, 0, Trigger::Off, Action::Disable, 1),
        ],
    )
}

fn oscillator() -> MycosChunk {
    let mut c = chunk(
        0,
        0,
        2,
        vec![
            conn(Section::Internal, 0, Section::Internal, 1, Trigger::On, Action::Enable, 0),
            conn(Section::Internal, 0, Section::Internal, 0, Trigger::On, Action::Disable, 1),
            conn(Section::Internal, 1, Section::Internal, 0, Trigger::On, Action::Enable, 0),
            conn(Section::Internal, 1, Section::Internal, 1, Trigger::On, Action::Disable, 1),
        ],
    );
    c.internal_bits[0] = 0b01;
    c
}

/// One event asks several actions of one bit: both the round and the
/// event queue resolve them by precedence.
fn one_event_many_actions() -> MycosChunk {
    chunk(
        1,
        1,
        2,
        vec![
            conn(Section::Input, 0, Section::Internal, 0, Trigger::On, Action::Disable, 1),
            conn(Section::Input, 0, Section::Internal, 0, Trigger::On, Action::Enable, 5),
            conn(Section::Input, 0, Section::Internal, 1, Trigger::On, Action::Toggle, 0),
            conn(Section::Input, 0, Section::Internal, 1, Trigger::On, Action::Enable, 0),
            conn(Section::Input, 0, Section::Output, 0, Trigger::Toggle, Action::Toggle, 2),
            conn(Section::Input, 0, Section::Output, 0, Trigger::Toggle, Action::Toggle, 1),
            conn(Section::Input, 0, Section::Output, 0, Trigger::Toggle, Action::Toggle, 0),
        ],
    )
}

const ROUNDS: u32 = 64;
const BUDGET: u64 = 5_000_000;
const WINDOW: usize = 16;

#[test]
fn wire_echo_takes_one_round() {
    let mut s = Scheduler::new(&wire_echo(), Policy::FreezeLastStable);
    let (r, cause) = s.tick(&vec![1], ROUNDS, BUDGET, WINDOW);
    assert_eq!(cause, Termination::Quiescent);
    assert_eq!(r.outputs, vec![1]);
    assert_eq!(r.rounds, 1);
    assert_eq!(r.effects_applied, 1);
    assert!(!r.oscillator);
    assert_eq!(r.period, 0);
    assert_eq!(r.policy, None);
    assert!(r.internals.is_empty());
}

#[test]
fn tiny_toggle_final_state() {
    let mut s = Scheduler::new(&tiny_toggle(), Policy::FreezeLastStable);
    let (r, cause) = s.tick(&vec![1], ROUNDS, BUDGET, WINDOW);
    assert_eq!(cause, Termination::Quiescent);
    assert_eq!(words_to_bytes(&r.internals, 1), vec![0x01]);
    assert_eq!(words_to_bytes(&r.outputs, 1), vec![0x01]);
    assert_eq!(r.rounds, 2);
    assert_eq!(r.effects_applied, 2);
    assert_eq!(s.stable, vec![1]);
    assert_eq!(s.inputs, vec![1]);
}

#[test]
fn xor_episodes_finish_within_two_rounds() {
    for (stimulus, expected) in [(0b00u32, 0u32), (0b01, 1), (0b10, 1), (0b11, 0)] {
        let mut s = Scheduler::new(&xor2(), Policy::FreezeLastStable);
        let (r, cause) = s.tick(&vec![stimulus], ROUNDS, BUDGET, WINDOW);
        assert_eq!(cause, Termination::Quiescent);
        assert!(r.rounds <= 2);
        assert_eq!(r.outputs, vec![expected]);
        assert!(!r.oscillator);
    }
}

#[test]
fn sr_latch_sequence() {
    let mut s = Scheduler::new(&sr_latch(), Policy::FreezeLastStable);
    let mut q = Vec::new();
    for stimulus in [0b01u32, 0b00, 0b10, 0b00] {
        let (r, cause) = s.tick(&vec![stimulus], ROUNDS, BUDGET, WINDOW);
        assert_eq!(cause, Termination::Quiescent);
        q.push(r.outputs[0]);
    }
    assert_eq!(q, vec![1, 1, 0, 0]);
}

#[test]
fn oscillator_is_reported_with_period_two() {
    let mut s = Scheduler::new(&oscillator(), Policy::ParityQuench);
    let (r, cause) = s.tick(&vec![], ROUNDS, BUDGET, WINDOW);
    assert_eq!(cause, Termination::Oscillator(2));
    assert!(r.oscillator);
    assert_eq!(r.period, 2);
    assert_eq!(r.policy, Some(Policy::ParityQuench));
    assert_eq!(r.rounds, 3);
    assert_eq!(r.effects_applied, 6);
    // The state before the cycle was 0b01; an even period leaves the last round's
    // state, which is its complement on the two bits.
    assert_eq!(r.internals, vec![0b10]);
    assert_eq!(s.internals, vec![0b10]);
    assert_eq!(s.stable, vec![0b01]);
}

#[test]
fn freeze_goes_back_to_the_last_stable_state() {
    let mut s = Scheduler::new(&oscillator(), Policy::FreezeLastStable);
    let (r, cause) = s.tick(&vec![], ROUNDS, BUDGET, WINDOW);
    assert_eq!(cause, Termination::Oscillator(2));
    assert_eq!(r.policy, Some(Policy::FreezeLastStable));
    assert_eq!(r.internals, vec![0b01]);
}

#[test]
fn clamp_resolves_the_actions_of_one_period() {
    let mut s = Scheduler::new(&oscillator(), Policy::FreezeLastStable);
    s.set_policy(Policy::ClampCommutative);
    let (r, cause) = s.tick(&vec![], ROUNDS, BUDGET, WINDOW);
    assert_eq!(cause, Termination::Oscillator(2));
    assert_eq!(r.policy, Some(Policy::ClampCommutative));
    assert_eq!(r.rounds, 3);
    assert_eq!(r.effects_applied, 6);
    // Over one period either bit is asked to be set and to be cleared:
    // Disable wins.
    assert_eq!(r.internals, vec![0b00]);
    assert_eq!(s.internals, vec![0b00]);
    assert_eq!(s.stable, vec![0b01]);
}

#[test]
fn clamp_keeps_what_is_only_enabled_and_what_is_toggled_evenly() {
    // Bits 0 and 1 chase each other. Bit 2 is only ever enabled, bit 3
    // is toggled whenever bit 0 falls, bit 4 in every round.
    let mut c = chunk(
        0,
        0,
        5,
        vec![
            conn(Section::Internal, 0, Section::Internal, 1, Trigger::On, Action::Enable, 0),
            conn(Section::Internal, 0, Section::Internal, 0, Trigger::On, Action::Disable, 1),
            conn(Section::Internal, 0, Section::Internal, 2, Trigger::On, Action::Enable, 2),
            conn(Section::Internal, 0, Section::Internal, 4, Trigger::On, Action::Toggle, 3),
            conn(Section::Internal, 1, Section::Internal, 0, Trigger::On, Action::Enable, 0),
            conn(Section::Internal, 1, Section::Internal, 1, Trigger::On, Action::Disable, 1),
            conn(Section::Internal, 1, Section::Internal, 4, Trigger::On, Action::Toggle, 2),
            conn(Section::Internal, 0, Section::Internal, 3, Trigger::Off, Action::Toggle, 4),
        ],
    );
    c.internal_bits[0] = 0b00001;
    // The states of the rounds: 10110, 01101, 11110, 00101, 10110.
    let mut free = Scheduler::new(&c, Policy::ParityQuench);
    let (q, cause) = free.tick(&vec![], ROUNDS, BUDGET, WINDOW);
    assert_eq!(cause, Termination::Oscillator(4));
    assert_eq!(q.rounds, 5);
    assert_eq!(q.internals, vec![0b10110]);
    // Over the four rounds of a period bits 0 and 1 are set and cleared,
    // bit 2 is set, bit 3 is toggled twice and bit 4 four times.
    let mut s = Scheduler::new(&c, Policy::ClampCommutative);
    let (r, cause) = s.tick(&vec![], ROUNDS, BUDGET, WINDOW);
    assert_eq!(cause, Termination::Oscillator(4));
    assert_eq!(r.rounds, 5);
    assert_eq!(r.internals, vec![0b10100]);
}

#[test]
fn odd_period_is_quenched_by_complementing_every_word() {
    // A ring of three bits passes one set bit around: period 3.
    let mut c = chunk(
        0,
        0,
        3,
        vec![
            conn(Section::Internal, 0, Section::Internal, 1, Trigger::On, Action::Enable, 0),
            conn(Section::Internal, 0, Section::Internal, 0, Trigger::On, Action::Disable, 1),
            conn(Section::Internal, 1, Section::Internal, 2, Trigger::On, Action::Enable, 0),
            conn(Section::Internal, 1, Section::Internal, 1, Trigger::On, Action::Disable, 1),
            conn(Section::Internal, 2, Section::Internal, 0, Trigger::On, Action::Enable, 0),
            conn(Section::Internal, 2, Section::Internal, 2, Trigger::On, Action::Disable, 1),
        ],
    );
    c.internal_bits[0] = 0b001;
    let mut s = Scheduler::new(&c, Policy::ParityQuench);
    let (r, cause) = s.tick(&vec![], ROUNDS, BUDGET, WINDOW);
    assert_eq!(cause, Termination::Oscillator(3));
    assert_eq!(r.rounds, 4);
    assert_eq!(r.internals, vec![!0b010u32]);
}

#[test]
fn round_limit_comes_before_the_cycle() {
    let mut s = Scheduler::new(&oscillator(), Policy::ParityQuench);
    let (r, cause) = s.tick(&vec![], 2, BUDGET, WINDOW);
    assert_eq!(cause, Termination::RoundsExhausted);
    assert_eq!(r.rounds, 2);
    assert!(!r.oscillator);
    assert_eq!(r.internals, vec![0b01]);
    let mut s = Scheduler::new(&oscillator(), Policy::ParityQuench);
    let (r, cause) = s.tick(&vec![], 0, BUDGET, WINDOW);
    assert_eq!(cause, Termination::RoundsExhausted);
    assert_eq!(r.rounds, 0);
    assert_eq!(r.effects_applied, 0);
}

#[test]
fn effect_budget_stops_the_tick() {
    let mut s = Scheduler::new(&oscillator(), Policy::ParityQuench);
    let (r, cause) = s.tick(&vec![], ROUNDS, 2, WINDOW);
    assert_eq!(cause, Termination::EffectsExhausted);
    assert_eq!(r.rounds, 2);
    assert_eq!(r.effects_applied, 4);
    let mut s = Scheduler::new(&oscillator(), Policy::ParityQuench);
    let (r, cause) = s.tick(&vec![], ROUNDS, 1, WINDOW);
    assert_eq!(cause, Termination::EffectsExhausted);
    assert_eq!(r.rounds, 1);
    assert_eq!(r.effects_applied, 2);
}

#[test]
fn same_inputs_same_result() {
    for policy in [Policy::FreezeLastStable, Policy::ClampCommutative, Policy::ParityQuench] {
        for c in [wire_echo(), tiny_toggle(), xor2(), sr_latch(), oscillator()] {
            let inputs = vec![0b11u32; c.input_count.div_ceil(32) as usize];
            let mut a = Scheduler::new(&c, policy);
            let mut b = Scheduler::new(&c, policy);
            for _ in 0..3 {
                let ra = a.tick(&inputs, ROUNDS, BUDGET, WINDOW);
                let rb = b.tick(&inputs, ROUNDS, BUDGET, WINDOW);
                assert_eq!(ra, rb);
            }
        }
    }
}

#[test]
fn resting_tick_agrees_with_the_event_queue() {
    for (c, stimulus) in [
        (wire_echo(), 1u8),
        (tiny_toggle(), 1),
        (xor2(), 0b01),
        (xor2(), 0b11),
        (sr_latch(), 0b01),
        (sr_latch(), 0b10),
        (one_event_many_actions(), 1),
    ] {
        let mut fed = c.duplicate();
        fed.input_bits[0] = stimulus;
        let (_, out, int) = execute(&fed);
        let mut s = Scheduler::new(&c, Policy::FreezeLastStable);
        let (r, cause) = s.tick(&vec![stimulus as u32], ROUNDS, BUDGET, WINDOW);
        assert_eq!(cause, Termination::Quiescent);
        assert_eq!(words_to_bytes(&r.outputs, c.output_count), out);
        assert_eq!(words_to_bytes(&r.internals, c.internal_count), int);
    }
    let mut s = Scheduler::new(&one_event_many_actions(), Policy::FreezeLastStable);
    let (r, _) = s.tick(&vec![1], ROUNDS, BUDGET, WINDOW);
    assert_eq!((r.internals, r.outputs), (vec![0b10], vec![1]));
}

#[test]
fn enable_beats_toggle_inside_one_round() {
    // Where a round and the event queue part ways: what two events ask of one
    // bit in the same round is resolved together, not one event after the other.
    let c = chunk(
        1,
        0,
        1,
        vec![
            conn(Section::Input, 0, Section::Internal, 0, Trigger::On, Action::Enable, 0),
            conn(Section::Input, 0, Section::Internal, 0, Trigger::Toggle, Action::Toggle, 1),
        ],
    );
    let mut s = Scheduler::new(&c, Policy::FreezeLastStable);
    let (r, _) = s.tick(&vec![1], ROUNDS, BUDGET, WINDOW);
    assert_eq!(r.internals, vec![1]);
    let mut fed = c.duplicate();
    fed.input_bits[0] = 1;
    let (_, _, int) = execute(&fed);
    assert_eq!(int, vec![0]);
}

#[test]
fn cleared_inputs_show_off_and_toggle() {
    let c = chunk(
        1,
        2,
        0,
        vec![
            conn(Section::Input, 0, Section::Output, 0, Trigger::Off, Action::Enable, 0),
            conn(Section::Input, 0, Section::Output, 1, Trigger::Toggle, Action::Toggle, 0),
        ],
    );
    let mut s = Scheduler::new(&c, Policy::FreezeLastStable);
    let (r, _) = s.tick(&vec![0], ROUNDS, BUDGET, WINDOW);
    assert_eq!((r.outputs.clone(), r.rounds), (vec![0b00], 0));
    let (r, _) = s.tick(&vec![1], ROUNDS, BUDGET, WINDOW);
    assert_eq!(r.outputs, vec![0b10]);
    let (r, _) = s.tick(&vec![0], ROUNDS, BUDGET, WINDOW);
    assert_eq!(r.outputs, vec![0b01]);
    let (r, _) = s.tick(&vec![0], ROUNDS, BUDGET, WINDOW);
    assert_eq!((r.outputs.clone(), r.rounds), (vec![0b01], 0));
}

#[test]
fn kernel_plan_follows_the_frontier() {
    let p = first_plan();
    assert_eq!(p, Plan { stage: Stage::DetectEdges, round: 0 });
    assert_eq!(next_plan(p, true, 5), Plan { stage: Stage::Finalize, round: 0 });
    assert_eq!(next_plan(p, false, 0), Plan { stage: Stage::Finalize, round: 0 });
    let r0 = next_plan(p, false, 2);
    assert_eq!(r0, Plan { stage: Stage::Round, round: 0 });
    assert_eq!(next_plan(r0, true, 2), Plan { stage: Stage::Finalize, round: 0 });
    let r1 = next_plan(r0, false, 2);
    assert_eq!(r1, Plan { stage: Stage::Round, round: 1 });
    assert_eq!(next_plan(r1, true, 2), Plan { stage: Stage::Finalize, round: 1 });
    let f = next_plan(r1, false, 2);
    assert_eq!(f, Plan { stage: Stage::Finalize, round: 2 });
    let d = next_plan(f, false, 2);
    assert_eq!(d, Plan { stage: Stage::Done, round: 2 });
    assert_eq!(next_plan(d, true, 2), d);
}
