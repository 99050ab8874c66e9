use mycos::chunk::{Action, Connection, MycosChunk, Section, Trigger};
use mycos::layout::bit_to_word;
use mycos::link::{
    build_link_csr, compute_base_offsets, parse_links, validate_links, ChunkOffsets, Link,
    LinkError,
};

fn tiny_toggle() -> MycosChunk {
    MycosChunk {
        input_bits: vec![0],
        output_bits: vec![0],
        internal_bits: vec![0],
        input_count: 1,
        output_count: 1,
        internal_count: 1,
        connections: vec![
            Connection {
                from_section: Section::Input,
                to_section: Section::Internal,
                trigger: Trigger::On,
                action: Action::Enable,
                from_index: 0,
                to_index: 0,
                order_tag: 0,
            },
            Connection {
                from_section: Section::Internal,
                to_section: Section::Output,
                trigger: Trigger::On,
                action: Action::Enable,
                from_index: 0,
                to_index: 0,
                order_tag: 0,
            },
        ],
        name: None,
        note: None,
        build_hash: None,
    }
}

fn noop() -> MycosChunk {
    MycosChunk {
        input_bits: vec![0],
        output_bits: vec![0],
        internal_bits: vec![],
        input_count: 2,
        output_count: 3,
        internal_count: 0,
        connections: vec![],
        name: None,
        note: None,
        build_hash: None,
    }
}

const LINKS_BASIC: [u8; 24] = [
    0, 0, 0, 0, // from_chunk
    0, 0, 0, 0, // from_out_idx
    0, // trigger On
    0, // action Enable
    0, 0, // reserved
    1, 0, 0, 0, // to_chunk
    0, 0, 0, 0, // to_in_idx
    0, 0, 0, 0, // order_tag
];

#[test]
fn parse_and_validate_basic() {
    let links = parse_links(&LINKS_BASIC).unwrap();
    assert_eq!(links.len(), 1);
    let chunks = vec![tiny_toggle(), noop()];
    validate_links(&links, &chunks).unwrap();
}

#[test]
fn invalid_to_in_index() {
    let mut data = LINKS_BASIC.to_vec();
    data[16] = 5;
    data[17] = 0;
    data[18] = 0;
    data[19] = 0;
    let links = parse_links(&data).unwrap();
    let chunks = vec![tiny_toggle(), noop()];
    assert!(matches!(
        validate_links(&links, &chunks),
        Err(LinkError::ToInIndexOutOfRange { .. })
    ));
}

#[test]
fn compute_offsets_and_map() {
    let chunks = vec![tiny_toggle(), noop()];
    let offs = compute_base_offsets(&chunks);
    assert_eq!(offs.len(), 2);
    assert_eq!(offs[0], ChunkOffsets { input: 0, output: 0, internal: 0 });
    assert_eq!(offs[1], ChunkOffsets { input: 1, output: 1, internal: 1 });

    let links = parse_links(&LINKS_BASIC).unwrap();
    let csr = build_link_csr(&links, &chunks);
    assert_eq!(csr.effects.len(), 1);
    let effect = csr.effects[0];
    assert_eq!(effect.to_bit, 1);
    let (word, mask) = bit_to_word(1);
    assert_eq!(effect.to_word, word);
    assert_eq!(effect.mask, mask);
    assert!(!effect.to_is_internal);

    assert_eq!(csr.offs_on[0], 0);
    assert_eq!(csr.offs_on[1], 1);
}

#[test]
fn link_record_fields_are_little_endian() {
    let data: Vec<u8> = vec![
        1, 2, 3, 4, // from_chunk
        5, 6, 7, 8, // from_out_idx
        2, // trigger Toggle
        1, // action Disable
        0xEE, 0xFF, // reserved, ignored
        9, 10, 11, 12, // to_chunk
        13, 14, 15, 16, // to_in_idx
        17, 18, 19, 20, // order_tag
    ];
    let links = parse_links(&data).unwrap();
    assert_eq!(
        links,
        vec![Link {
            from_chunk: 0x0403_0201,
            from_out_idx: 0x0807_0605,
            trigger: Trigger::Toggle,
            action: Action::Disable,
            to_chunk: 0x0C0B_0A09,
            to_in_idx: 0x100F_0E0D,
            order_tag: 0x1413_1211,
        }]
    );
}

#[test]
fn link_file_length_must_be_a_multiple_of_24() {
    assert_eq!(parse_links(&[]).unwrap(), Vec::new());
    assert_eq!(parse_links(&LINKS_BASIC[..23]).unwrap_err(), LinkError::UnexpectedEof);
    let mut data = LINKS_BASIC.to_vec();
    data.push(0);
    assert_eq!(parse_links(&data).unwrap_err(), LinkError::UnexpectedEof);
}

#[test]
fn bad_trigger_is_reported_before_bad_action() {
    let mut data = LINKS_BASIC.to_vec();
    data.extend_from_slice(&LINKS_BASIC);
    data[24 + 8] = 3;
    data[24 + 9] = 4;
    assert_eq!(parse_links(&data).unwrap_err(), LinkError::InvalidTrigger(3));
    data[24 + 8] = 1;
    assert_eq!(parse_links(&data).unwrap_err(), LinkError::InvalidAction(4));
    data[9] = 7;
    assert_eq!(parse_links(&data).unwrap_err(), LinkError::InvalidAction(7));
}

fn link(from_chunk: u32, from_out_idx: u32, to_chunk: u32, to_in_idx: u32) -> Link {
    Link {
        from_chunk,
        from_out_idx,
        trigger: Trigger::On,
        action: Action::Enable,
        to_chunk,
        to_in_idx,
        order_tag: 0,
    }
}

#[test]
fn each_link_defect_is_told_apart() {
    let chunks = vec![tiny_toggle(), noop()];
    assert_eq!(
        validate_links(&[link(2, 0, 9, 0)], &chunks),
        Err(LinkError::FromChunkOutOfRange(2))
    );
    assert_eq!(validate_links(&[link(1, 9, 2, 9)], &chunks), Err(LinkError::ToChunkOutOfRange(2)));
    assert_eq!(
        validate_links(&[link(0, 1, 1, 9)], &chunks),
        Err(LinkError::FromOutIndexOutOfRange { chunk: 0, index: 1 })
    );
    assert_eq!(
        validate_links(&[link(1, 2, 0, 1)], &chunks),
        Err(LinkError::ToInIndexOutOfRange { chunk: 0, index: 1 })
    );
    assert_eq!(validate_links(&[link(1, 2, 1, 1), link(0, 0, 0, 0)], &chunks), Ok(()));
    assert_eq!(
        validate_links(&[link(1, 2, 1, 1), link(0, 0, 0, 3), link(7, 0, 0, 0)], &chunks),
        Err(LinkError::ToInIndexOutOfRange { chunk: 0, index: 3 })
    );
    assert_eq!(validate_links(&[], &[]), Ok(()));
}

#[test]
fn base_offsets_are_prefix_sums() {
    let mut big = noop();
    big.internal_count = 40;
    let chunks = vec![noop(), tiny_toggle(), big, tiny_toggle()];
    let offs = compute_base_offsets(&chunks);
    assert_eq!(
        offs,
        vec![
            ChunkOffsets { input: 0, output: 0, internal: 0 },
            ChunkOffsets { input: 2, output: 3, internal: 0 },
            ChunkOffsets { input: 3, output: 4, internal: 1 },
            ChunkOffsets { input: 5, output: 7, internal: 41 },
        ]
    );
    assert!(compute_base_offsets(&[]).is_empty());
}

#[test]
fn link_adjacency_uses_global_ids() {
    let chunks = vec![noop(), tiny_toggle(), noop()];
    let mut a = link(2, 1, 1, 0);
    a.trigger = Trigger::Off;
    a.order_tag = 4;
    let mut b = link(1, 0, 2, 1);
    b.order_tag = 2;
    let mut c = link(1, 0, 0, 1);
    c.order_tag = 2;
    let mut d = link(1, 0, 0, 0);
    d.order_tag = 1;
    let csr = build_link_csr(&[a, b, c, d], &chunks);
    assert_eq!(csr.offs_on, vec![0, 0, 0, 0, 3, 3, 3, 3]);
    assert_eq!(csr.offs_off, vec![3, 3, 3, 3, 3, 3, 4, 4]);
    assert_eq!(csr.offs_tog, vec![4, 4, 4, 4, 4, 4, 4, 4]);
    let bits: Vec<u32> = csr.effects.iter().map(|e| e.to_bit).collect();
    assert_eq!(bits, vec![0, 4, 1, 2]);
    let tags: Vec<u32> = csr.effects.iter().map(|e| e.order_tag).collect();
    assert_eq!(tags, vec![1, 2, 2, 4]);
    assert!(csr.effects.iter().all(|e| !e.to_is_internal));
}
