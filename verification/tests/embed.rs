use mycos::chunk::{Action, Connection, MycosChunk, Section, Trigger};
use mycos::embed::{
    execute_gated_alias, execute_gated_copy, parse_embeds, Embed, EmbedError, IoMode,
};

fn gated_child() -> MycosChunk {
    MycosChunk {
        input_bits: vec![0],
        output_bits: vec![0],
        internal_bits: vec![0],
        input_count: 1,
        output_count: 1,
        internal_count: 1,
        connections: vec![
            Connection {
                from_section: Section::Input,
                to_section: Section::Internal,
                trigger: Trigger::On,
                action: Action::Enable,
                from_index: 0,
                to_index: 0,
                order_tag: 0,
            },
            Connection {
                from_section: Section::Internal,
                to_section: Section::Output,
                trigger: Trigger::On,
                action: Action::Enable,
                from_index: 0,
                to_index: 0,
                order_tag: 0,
            },
        ],
        name: None,
        note: None,
        build_hash: None,
    }
}

fn parent() -> MycosChunk {
    MycosChunk {
        input_bits: vec![],
        output_bits: vec![0],
        internal_bits: vec![0],
        input_count: 0,
        output_count: 1,
        internal_count: 2,
        connections: vec![],
        name: None,
        note: None,
        build_hash: None,
    }
}

#[test]
fn parse_basic_embed() {
    let data: Vec<u8> = vec![
        0, 0, 0, 0, // parent_chunk
        1, 0, 0, 0, // child_chunk
        0, 0, 0, 0, // gate_bit
        0, // io_mode alias
        0, 0, 0, // reserved
        1, 0, 0, 0, // map_in_count
        1, 0, 0, 0, // parent_bit
        0, 0, 0, 0, // child_in_bit
        1, 0, 0, 0, // map_out_count
        0, 0, 0, 0, // child_out_bit
        0, 0, 0, 0, // parent_bit
    ];
    let embeds = parse_embeds(&data).unwrap();
    assert_eq!(embeds.len(), 1);
    let e = &embeds[0];
    assert_eq!(e.parent_chunk, 0);
    assert_eq!(e.child_chunk, 1);
    assert_eq!(e.gate_bit, 0);
    assert_eq!(e.io_mode, IoMode::Alias);
    assert!(!e.gate_prev);
    assert_eq!(e.map_in, vec![(1, 0)]);
    assert_eq!(e.map_out, vec![(0, 0)]);
}

#[test]
fn gate_controls_child_alias() {
    let parent = parent();
    let child = gated_child();
    let embed = Embed {
        parent_chunk: 0,
        child_chunk: 1,
        gate_bit: 0,
        io_mode: IoMode::Alias,
        map_in: vec![(1, 0)],
        map_out: vec![(0, 0)],
        gate_prev: false,
    };

    let mut parent_state = parent.clone();
    parent_state.internal_bits[0] |= 1 << 1;
    execute_gated_alias(&mut parent_state, &child, &embed);
    assert_eq!(parent_state.output_bits[0], 0);

    let mut parent_state = parent.clone();
    parent_state.internal_bits[0] |= 1 << 0;
    parent_state.internal_bits[0] |= 1 << 1;
    execute_gated_alias(&mut parent_state, &child, &embed);
    assert_eq!(parent_state.output_bits[0], 1);
    assert_eq!(child.input_bits, vec![0]);
    assert_eq!(child.internal_bits, vec![0]);
}

#[test]
fn copy_mode_gate_edges() {
    let parent = parent();
    let mut child = gated_child();
    let mut embed = Embed {
        parent_chunk: 0,
        child_chunk: 1,
        gate_bit: 0,
        io_mode: IoMode::Copy,
        map_in: vec![(1, 0)],
        map_out: vec![(0, 0)],
        gate_prev: false,
    };

    let mut parent_state = parent.clone();
    parent_state.internal_bits[0] |= 1 << 1;
    execute_gated_copy(&mut parent_state, &mut child, &mut embed);
    assert_eq!(parent_state.output_bits[0], 0);
    assert!(!embed.gate_prev);

    parent_state.internal_bits[0] |= 1 << 0;
    execute_gated_copy(&mut parent_state, &mut child, &mut embed);
    assert_eq!(parent_state.output_bits[0], 1);
    assert!(embed.gate_prev);

    parent_state.internal_bits[0] &= !(1 << 1);
    execute_gated_copy(&mut parent_state, &mut child, &mut embed);
    assert_eq!(parent_state.output_bits[0], 1);

    parent_state.internal_bits[0] &= !(1 << 0);
    execute_gated_copy(&mut parent_state, &mut child, &mut embed);
    assert!(!embed.gate_prev);
}

#[test]
fn copy_mode_keeps_the_child_state() {
    let mut parent_state = parent();
    let mut child = gated_child();
    let mut embed = Embed {
        parent_chunk: 0,
        child_chunk: 1,
        gate_bit: 0,
        io_mode: IoMode::Copy,
        map_in: vec![(1, 0)],
        map_out: vec![(0, 0)],
        gate_prev: false,
    };
    parent_state.internal_bits[0] = 0b11;
    execute_gated_copy(&mut parent_state, &mut child, &mut embed);
    assert_eq!(child.input_bits, vec![1]);
    assert_eq!(child.internal_bits, vec![1]);
    assert_eq!(child.output_bits, vec![1]);
    parent_state.internal_bits[0] = 0b00;
    parent_state.output_bits[0] = 0;
    execute_gated_copy(&mut parent_state, &mut child, &mut embed);
    assert_eq!(parent_state.output_bits[0], 0);
    assert_eq!(child.output_bits, vec![1]);
}

#[test]
fn alias_mode_writes_zero_outputs_too() {
    let mut parent_state = parent();
    parent_state.internal_bits[0] = 0b01;
    parent_state.output_bits[0] = 1;
    let embed = Embed {
        parent_chunk: 0,
        child_chunk: 1,
        gate_bit: 0,
        io_mode: IoMode::Alias,
        map_in: vec![(1, 0)],
        map_out: vec![(0, 0)],
        gate_prev: false,
    };
    execute_gated_alias(&mut parent_state, &gated_child(), &embed);
    assert_eq!(parent_state.output_bits[0], 0);
}

#[test]
fn two_embed_records_in_one_file() {
    let mut data: Vec<u8> = vec![
        7, 0, 0, 0, 8, 0, 0, 0, 9, 0, 0, 0, 1, 0xAA, 0xBB, 0xCC, // header, copy mode
        0, 0, 0, 0, // no input pairs
        2, 0, 0, 0, // two output pairs
        1, 0, 0, 0, 2, 0, 0, 0, //
        3, 0, 0, 0, 4, 1, 0, 0, //
    ];
    data.extend_from_slice(&[
        1, 0, 0, 0, 2, 0, 0, 0, 3, 0, 0, 0, 0, 0, 0, 0, // header, alias mode
        0, 0, 0, 0, // no input pairs
        0, 0, 0, 0, // no output pairs
    ]);
    let embeds = parse_embeds(&data).unwrap();
    assert_eq!(embeds.len(), 2);
    assert_eq!(embeds[0].parent_chunk, 7);
    assert_eq!(embeds[0].child_chunk, 8);
    assert_eq!(embeds[0].gate_bit, 9);
    assert_eq!(embeds[0].io_mode, IoMode::Copy);
    assert!(embeds[0].map_in.is_empty());
    assert_eq!(embeds[0].map_out, vec![(1, 2), (3, 260)]);
    assert_eq!(embeds[1].io_mode, IoMode::Alias);
    assert!(embeds[1].map_out.is_empty());
    assert!(parse_embeds(&[]).unwrap().is_empty());
}

#[test]
fn malformed_embed_files_are_rejected() {
    let good: Vec<u8> = vec![
        0, 0, 0, 0, 1, 0, 0, 0, 0, 0, 0, 0, 0, 0, 0, 0, //
        1, 0, 0, 0, 1, 0, 0, 0, 0, 0, 0, 0, //
        1, 0, 0, 0, 0, 0, 0, 0, 0, 0, 0, 0, //
    ];
    assert!(parse_embeds(&good).is_ok());
    for cut in [1usize, 12, 19, 20, 27, 28, 31, 39] {
        assert!(matches!(parse_embeds(&good[..cut]), Err(EmbedError::UnexpectedEof)));
    }
    let mut bad_mode = good.clone();
    bad_mode[12] = 2;
    assert!(matches!(parse_embeds(&bad_mode), Err(EmbedError::InvalidIoMode(2))));
    assert!(matches!(parse_embeds(&bad_mode[..19]), Err(EmbedError::UnexpectedEof)));
    let mut huge = good.clone();
    huge[19] = 0xFF;
    assert!(matches!(parse_embeds(&huge), Err(EmbedError::UnexpectedEof)));
}
