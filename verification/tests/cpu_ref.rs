use mycos::chunk::{encode_chunk, parse_chunk, Action, Connection, MycosChunk, Section, Trigger};
use mycos::cpu_ref::{bytes_to_words, execute, set_bit_action, words_to_bytes, MAX_EFFECTS};

fn conn(
    from_section: Section,
    from_index: u32,
    to_section: Section,
    to_index: u32,
    trigger: Trigger,
    action: Action,
    order_tag: u32,
) -> Connection {
    Connection { from_section, to_section, trigger, action, from_index, to_index, order_tag }
}

fn chunk(ni: u32, no: u32, nn: u32, connections: Vec<Connection>) -> MycosChunk {
    MycosChunk {
        input_bits: vec![0; ni.div_ceil(8) as usize],
        output_bits: vec![0; no.div_ceil(8) as usize],
        internal_bits: vec![0; nn.div_ceil(8) as usize],
        input_count: ni,
        output_count: no,
        internal_count: nn,
        connections,
        name: None,
        note: None,
        build_hash: None,
    }
}

fn tiny_toggle() -> MycosChunk {
    chunk(
        1,
        1,
        1,
        vec![
            conn(Section::Input, 0, Section::Internal, 0, Trigger::On, Action::Enable, 0),
            conn(Section::Internal, 0, Section::Output, 0, Trigger::On, Action::Enable, 0),
        ],
    )
}

#[test]
fn tiny_toggle_propagates() {
    let data = encode_chunk(&tiny_toggle());
    let mut chunk = parse_chunk(&data).unwrap();
    if !chunk.input_bits.is_empty() {
        chunk.input_bits[0] = 1;
    }
    let (_i, o, n) = execute(&chunk);
    assert_eq!(n[0], 1);
    assert_eq!(o[0], 1);
}

#[test]
fn tiny_toggle_final_bytes() {
    let mut c = tiny_toggle();
    c.input_bits[0] = 1;
    let (i, o, n) = execute(&c);
    assert_eq!(i, vec![0x01]);
    assert_eq!(n, vec![0x01]);
    assert_eq!(o, vec![0x01]);
}

#[test]
fn nothing_set_nothing_happens() {
    let c = tiny_toggle();
    let (i, o, n) = execute(&c);
    assert_eq!(i, vec![0]);
    assert_eq!(o, vec![0]);
    assert_eq!(n, vec![0]);
}

#[test]
fn wire_echo_sets_the_output() {
    let mut c = chunk(
        1,
        1,
        0,
        vec![conn(Section::Input, 0, Section::Output, 0, Trigger::On, Action::Enable, 0)],
    );
    c.input_bits[0] = 1;
    let (i, o, n) = execute(&c);
    assert_eq!(i, vec![1]);
    assert_eq!(o, vec![1]);
    assert!(n.is_empty());
    c.input_bits[0] = 0;
    let (_, o, _) = execute(&c);
    assert_eq!(o, vec![0]);
}

fn xor2() -> MycosChunk {
    // Int[0] and Int[1] follow the inputs; each rise flips Out[0].
    chunk(
        2,
        1,
        2,
        vec![
            conn(Section::Input, 0, Section::Internal, 0, Trigger::On, Action::Enable, 0),
            conn(Section::Input, 1, Section::Internal, 1, Trigger::On, Action::Enable, 0),
            conn(Section::Internal, 0, Section::Output, 0, Trigger::On, Action::Toggle, 0),
            conn(Section::Internal, 1, Section::Output, 0, Trigger::On, Action::Toggle, 0),
        ],
    )
}

#[test]
fn xor_of_two_inputs() {
    for (stimulus, expected) in [(0b00u8, 0u8), (0b01, 1), (0b10, 1), (0b11, 0)] {
        let mut c = xor2();
        c.input_bits[0] = stimulus;
        let (_, o, _) = execute(&c);
        assert_eq!(o[0], expected);
    }
}

fn sr_latch() -> MycosChunk {
    // S sets Int[0], R clears it; Q follows Int[0] both ways.
    chunk(
        2,
        1,
        1,
        vec![
            conn(Section::Input, 0, Section::Internal, 0, Trigger::On, Action::Enable, 0),
            conn(Section::Input, 1, Section::Internal, 0, Trigger::On, Action::Disable, 1),
            conn(Section::Internal, 0, Section::Output, 0, Trigger::On, Action::Enable, 0),
            conn(Section::Internal, 0, Section::Output, 0, Trigger::Off, Action::Disable, 1),
        ],
    )
}

#[test]
fn sr_latch_holds_its_state_between_runs() {
    let mut c = sr_latch();
    let mut seen = Vec::new();
    for stimulus in [0b01u8, 0b00, 0b10, 0b00] {
        c.input_bits[0] = stimulus;
        let (_, o, n) = execute(&c);
        c.output_bits = o;
        c.internal_bits = n;
        seen.push(c.output_bits[0]);
    }
    assert_eq!(seen, vec![1, 1, 0, 0]);
}

#[test]
fn disable_wins_over_enable_whatever_the_tags() {
    let mut c = chunk(
        1,
        0,
        1,
        vec![
            conn(Section::Input, 0, Section::Internal, 0, Trigger::On, Action::Disable, 1),
            conn(Section::Input, 0, Section::Internal, 0, Trigger::On, Action::Enable, 5),
        ],
    );
    c.input_bits[0] = 1;
    let (_, _, n) = execute(&c);
    assert_eq!(n, vec![0]);
    c.internal_bits[0] = 1;
    let (_, _, n) = execute(&c);
    assert_eq!(n, vec![0]);
    c.connections.swap(0, 1);
    let (_, _, n) = execute(&c);
    assert_eq!(n, vec![0]);
    c.connections[0].order_tag = 0;
    c.connections[1].order_tag = 9;
    let (_, _, n) = execute(&c);
    assert_eq!(n, vec![0]);
}

#[test]
fn enable_wins_over_toggles_and_toggles_count_by_parity() {
    let on = |action, tag| conn(Section::Input, 0, Section::Output, 0, Trigger::On, action, tag);
    let run = |actions: Vec<Action>, start: u8| {
        let connections = actions.into_iter().enumerate().map(|(k, a)| on(a, 9 - k as u32)).collect();
        let mut c = chunk(1, 1, 0, connections);
        c.input_bits[0] = 1;
        c.output_bits[0] = start;
        execute(&c).1
    };
    assert_eq!(run(vec![Action::Toggle, Action::Enable, Action::Toggle], 1), vec![1]);
    assert_eq!(run(vec![Action::Enable, Action::Toggle], 0), vec![1]);
    assert_eq!(run(vec![Action::Toggle, Action::Toggle], 0), vec![0]);
    assert_eq!(run(vec![Action::Toggle, Action::Toggle], 1), vec![1]);
    assert_eq!(run(vec![Action::Toggle, Action::Toggle, Action::Toggle], 0), vec![1]);
    assert_eq!(run(vec![Action::Toggle, Action::Enable, Action::Disable, Action::Toggle], 1), vec![0]);
    assert_eq!(run(vec![Action::Toggle], 1), vec![0]);
}

#[test]
fn events_are_resolved_one_by_one() {
    // The On event and the Toggle event of one input are two events: the
    // Enable of the first is applied before the Toggle of the second.
    let mut c = chunk(
        1,
        0,
        1,
        vec![
            conn(Section::Input, 0, Section::Internal, 0, Trigger::On, Action::Enable, 0),
            conn(Section::Input, 0, Section::Internal, 0, Trigger::Toggle, Action::Toggle, 1),
        ],
    );
    c.input_bits[0] = 1;
    let (_, _, n) = execute(&c);
    assert_eq!(n, vec![0]);
}

#[test]
fn toggle_events_fire_toggle_triggers_on_rise_and_fall() {
    let mut c = chunk(
        1,
        2,
        1,
        vec![
            conn(Section::Input, 0, Section::Internal, 0, Trigger::Toggle, Action::Disable, 0),
            conn(Section::Internal, 0, Section::Output, 0, Trigger::Off, Action::Enable, 0),
            conn(Section::Internal, 0, Section::Output, 1, Trigger::Toggle, Action::Toggle, 0),
        ],
    );
    c.input_bits[0] = 1;
    c.internal_bits[0] = 1;
    // Input Toggle clears Int[0]; the fall sets Out[0]; Int[0] shows Toggle twice
    // (once from its seed, once from the fall), so Out[1] flips twice.
    let (_, o, n) = execute(&c);
    assert_eq!(n, vec![0]);
    assert_eq!(o, vec![0b01]);
}

#[test]
fn feedback_loop_stops_at_the_effect_budget() {
    let mut c = chunk(
        0,
        0,
        1,
        vec![conn(Section::Internal, 0, Section::Internal, 0, Trigger::Toggle, Action::Toggle, 0)],
    );
    c.internal_bits[0] = 1;
    let (_, _, n) = execute(&c);
    assert_eq!(MAX_EFFECTS, 5_000_000);
    // One effect per event, each flipping the bit: an even budget ends where it began.
    assert_eq!(n, vec![1]);
}

#[test]
fn padding_bits_are_cleared_on_the_way_out() {
    let mut c = chunk(3, 0, 2, vec![]);
    c.input_bits[0] = 0b1111_1101;
    c.internal_bits[0] = 0b1111_1110;
    let (i, _, n) = execute(&c);
    assert_eq!(i, vec![0b0000_0101]);
    assert_eq!(n, vec![0b0000_0010]);
}

#[test]
fn repacking_is_lsb_first() {
    let words = bytes_to_words(&[0x01, 0x80, 0xFF, 0x00, 0x03], 34);
    assert_eq!(words, vec![0x00FF_8001, 0x0000_0003 & 0x3]);
    assert_eq!(words_to_bytes(&words, 34), vec![0x01, 0x80, 0xFF, 0x00, 0x03]);
    assert_eq!(bytes_to_words(&[0xFF], 3), vec![0b111]);
    assert_eq!(words_to_bytes(&[0xFFFF_FFFF], 9), vec![0xFF, 0x01]);
    assert_eq!(bytes_to_words(&[], 0), Vec::<u32>::new());
    assert_eq!(words_to_bytes(&[], 0), Vec::<u8>::new());
}

#[test]
fn actions_on_word_bits() {
    let mut words = vec![0u32, 0];
    set_bit_action(&mut words, 33, Action::Enable);
    assert_eq!(words, vec![0, 2]);
    set_bit_action(&mut words, 33, Action::Toggle);
    assert_eq!(words, vec![0, 0]);
    set_bit_action(&mut words, 31, Action::Toggle);
    assert_eq!(words, vec![0x8000_0000, 0]);
    set_bit_action(&mut words, 31, Action::Disable);
    set_bit_action(&mut words, 0, Action::Disable);
    assert_eq!(words, vec![0, 0]);
}
