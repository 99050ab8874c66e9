use mycos::chunk::{
    canonicalize_chunk, check_connection, encode_chunk, parse_chunk, read_u16, read_u32,
    validate_chunk, Action, Connection, Error, MycosChunk, Section, Trigger,
};

fn conn(
    from_section: Section,
    from_index: u32,
    to_section: Section,
    to_index: u32,
    trigger: Trigger,
    action: Action,
    order_tag: u32,
) -> Connection {
    Connection { from_section, to_section, trigger, action, from_index, to_index, order_tag }
}

fn tiny_toggle() -> MycosChunk {
    MycosChunk {
        input_bits: vec![0],
        output_bits: vec![0],
        internal_bits: vec![0],
        input_count: 1,
        output_count: 1,
        internal_count: 1,
        connections: vec![
            conn(Section::Input, 0, Section::Internal, 0, Trigger::On, Action::Enable, 0),
            conn(Section::Internal, 0, Section::Output, 0, Trigger::On, Action::Enable, 0),
        ],
        name: None,
        note: None,
        build_hash: None,
    }
}

fn tiny_toggle_bytes() -> Vec<u8> {
    encode_chunk(&tiny_toggle())
}

#[test]
fn parse_all_fixtures() {
    let chunk = parse_chunk(&tiny_toggle_bytes()).unwrap();
    validate_chunk(&chunk).unwrap();
    assert_eq!(chunk.input_count, 1);
    assert_eq!(chunk.output_count, 1);
    assert_eq!(chunk.internal_count, 1);
    assert_eq!(chunk.connections, tiny_toggle().connections);
}

#[test]
fn invalid_magic() {
    let mut data = tiny_toggle_bytes();
    data[0] = 0;
    let err = parse_chunk(&data).unwrap_err();
    assert!(matches!(err, Error::InvalidMagic));
}

#[test]
fn invalid_connection_edge() {
    let mut data = tiny_toggle_bytes();
    data[37] = 2;
    let chunk = parse_chunk(&data).unwrap();
    assert!(matches!(validate_chunk(&chunk), Err(Error::InvalidConnectionEdge { .. })));
}

#[test]
fn invalid_from_index() {
    let mut data = tiny_toggle_bytes();
    data[40] = 5;
    let chunk = parse_chunk(&data).unwrap();
    assert!(matches!(validate_chunk(&chunk), Err(Error::FromIndexOutOfRange { .. })));
}

#[test]
fn tlv_round_trip() {
    let chunk = MycosChunk {
        input_bits: vec![0],
        output_bits: Vec::new(),
        internal_bits: Vec::new(),
        input_count: 1,
        output_count: 0,
        internal_count: 0,
        connections: Vec::new(),
        name: Some("demo".to_string()),
        note: Some("note".to_string()),
        build_hash: Some(vec![1, 2, 3, 4]),
    };
    let data = encode_chunk(&chunk);
    let parsed = parse_chunk(&data).unwrap();
    assert_eq!(parsed.name.as_deref(), Some("demo"));
    assert_eq!(parsed.note.as_deref(), Some("note"));
    assert_eq!(parsed.build_hash.as_deref(), Some(&[1, 2, 3, 4][..]));
}

#[test]
fn encoded_layout_is_bit_exact() {
    let data = tiny_toggle_bytes();
    let expected: Vec<u8> = vec![
        b'M', b'Y', b'C', b'O', b'S', b'C', b'H', b'0', // magic
        1, 0, // version
        0, 0, // flags
        1, 0, 0, 0, // ni
        1, 0, 0, 0, // no
        1, 0, 0, 0, // nn
        2, 0, 0, 0, // connection count
        0, 0, 0, 0, // reserved
        0, 0, 0, // input, output, internal bits
        0, // pad
        0, 1, 0, 0, 0, 0, 0, 0, 0, 0, 0, 0, 0, 0, 0, 0, // In[0] -> Int[0]
        1, 2, 0, 0, 0, 0, 0, 0, 0, 0, 0, 0, 0, 0, 0, 0, // Int[0] -> Out[0]
    ];
    assert_eq!(data, expected);
}

#[test]
fn encode_then_parse_gives_the_chunk_back() {
    let chunk = MycosChunk {
        input_bits: vec![0b1010_0101, 0b1],
        output_bits: vec![0xFF, 0xEE, 0x01],
        internal_bits: vec![0x12],
        input_count: 9,
        output_count: 17,
        internal_count: 5,
        connections: vec![
            conn(Section::Internal, 4, Section::Output, 16, Trigger::Toggle, Action::Toggle, 7),
            conn(Section::Input, 8, Section::Internal, 0, Trigger::Off, Action::Disable, 0x0102_0304),
            conn(Section::Internal, 1, Section::Internal, 2, Trigger::On, Action::Enable, u32::MAX),
        ],
        name: Some("añb".to_string()),
        note: None,
        build_hash: Some(vec![9, 8, 7]),
    };
    let data = encode_chunk(&chunk);
    assert_eq!(data.len() % 4, 0);
    let parsed = parse_chunk(&data).unwrap();
    assert_eq!(parsed.input_bits, chunk.input_bits);
    assert_eq!(parsed.output_bits, chunk.output_bits);
    assert_eq!(parsed.internal_bits, chunk.internal_bits);
    assert_eq!(parsed.input_count, 9);
    assert_eq!(parsed.output_count, 17);
    assert_eq!(parsed.internal_count, 5);
    assert_eq!(parsed.connections, chunk.connections);
    assert_eq!(parsed.name, chunk.name);
    assert_eq!(parsed.note, None);
    assert_eq!(parsed.build_hash, chunk.build_hash);
    assert_eq!(encode_chunk(&parsed), data);
    validate_chunk(&parsed).unwrap();
}

#[test]
fn little_endian_order_tag_on_the_wire() {
    let mut chunk = tiny_toggle();
    chunk.connections[0].order_tag = 0x0A0B_0C0D;
    let data = encode_chunk(&chunk);
    assert_eq!(&data[48..52], &[0x0D, 0x0C, 0x0B, 0x0A]);
    let parsed = parse_chunk(&data).unwrap();
    assert_eq!(parsed.connections[0].order_tag, 0x0A0B_0C0D);
}

#[test]
fn short_input_is_unexpected_eof() {
    assert_eq!(parse_chunk(&[]).unwrap_err(), Error::UnexpectedEof);
    let data = tiny_toggle_bytes();
    assert_eq!(parse_chunk(&data[..31]).unwrap_err(), Error::UnexpectedEof);
    assert_eq!(parse_chunk(&data[..34]).unwrap_err(), Error::UnexpectedEof);
    assert_eq!(parse_chunk(&data[..51]).unwrap_err(), Error::UnexpectedEof);
    assert_eq!(parse_chunk(&data[..67]).unwrap_err(), Error::UnexpectedEof);
    assert!(parse_chunk(&data[..68]).is_ok());
}

#[test]
fn unsupported_version_is_reported_with_its_number() {
    let mut data = tiny_toggle_bytes();
    data[8] = 2;
    data[9] = 1;
    assert_eq!(parse_chunk(&data).unwrap_err(), Error::UnsupportedVersion(0x0102));
}

#[test]
fn flags_and_reserved_word_are_ignored() {
    let mut data = tiny_toggle_bytes();
    data[10] = 0xAA;
    data[11] = 0xBB;
    data[28] = 0xCC;
    data[31] = 0xDD;
    let parsed = parse_chunk(&data).unwrap();
    assert_eq!(parsed.connections, tiny_toggle().connections);
}

#[test]
fn bad_tags_in_a_record_are_reported_in_wire_order() {
    let mut data = tiny_toggle_bytes();
    data[36] = 3;
    data[37] = 9;
    data[38] = 7;
    data[39] = 8;
    assert_eq!(parse_chunk(&data).unwrap_err(), Error::InvalidSection(3));
    data[36] = 0;
    assert_eq!(parse_chunk(&data).unwrap_err(), Error::InvalidSection(9));
    data[37] = 1;
    assert_eq!(parse_chunk(&data).unwrap_err(), Error::InvalidTrigger(7));
    data[38] = 0;
    assert_eq!(parse_chunk(&data).unwrap_err(), Error::InvalidAction(8));
    data[39] = 2;
    assert_eq!(parse_chunk(&data).unwrap().connections[0].action, Action::Toggle);
}

#[test]
fn unknown_tlv_types_are_skipped() {
    let mut data = tiny_toggle_bytes();
    data.extend_from_slice(&[0x34, 0x12, 3, 0, 1, 2, 3, 0]);
    data.extend_from_slice(&[1, 0, 2, 0, b'h', b'i', 0, 0]);
    let parsed = parse_chunk(&data).unwrap();
    assert_eq!(parsed.name.as_deref(), Some("hi"));
    assert_eq!(parsed.note, None);
    assert_eq!(parsed.build_hash, None);
}

#[test]
fn later_tlv_of_a_type_replaces_the_earlier() {
    let mut data = tiny_toggle_bytes();
    data.extend_from_slice(&[2, 0, 1, 0, b'a', 0, 0, 0]);
    data.extend_from_slice(&[2, 0, 1, 0, b'b', 0, 0, 0]);
    let parsed = parse_chunk(&data).unwrap();
    assert_eq!(parsed.note.as_deref(), Some("b"));
}

#[test]
fn invalid_utf8_in_name_is_rejected() {
    let mut data = tiny_toggle_bytes();
    data.extend_from_slice(&[1, 0, 2, 0, 0xC3, 0x28, 0, 0]);
    assert_eq!(parse_chunk(&data).unwrap_err(), Error::InvalidUtf8);
    let mut data = tiny_toggle_bytes();
    data.extend_from_slice(&[3, 0, 2, 0, 0xC3, 0x28, 0, 0]);
    assert_eq!(parse_chunk(&data).unwrap().build_hash, Some(vec![0xC3, 0x28]));
}

#[test]
fn truncated_tlv_is_unexpected_eof() {
    let mut data = tiny_toggle_bytes();
    data.extend_from_slice(&[1, 0, 2]);
    assert_eq!(parse_chunk(&data).unwrap_err(), Error::UnexpectedEof);
    let mut data = tiny_toggle_bytes();
    data.extend_from_slice(&[1, 0, 2, 0, b'h', b'i']);
    assert_eq!(parse_chunk(&data).unwrap_err(), Error::UnexpectedEof);
}

#[test]
fn tags_map_to_their_wire_bytes() {
    assert_eq!(Section::Input.to_u8(), 0);
    assert_eq!(Section::Internal.to_u8(), 1);
    assert_eq!(Section::Output.to_u8(), 2);
    assert_eq!(Trigger::On.to_u8(), 0);
    assert_eq!(Trigger::Off.to_u8(), 1);
    assert_eq!(Trigger::Toggle.to_u8(), 2);
    assert_eq!(Action::Enable.to_u8(), 0);
    assert_eq!(Action::Disable.to_u8(), 1);
    assert_eq!(Action::Toggle.to_u8(), 2);
    assert_eq!(Section::try_from(2), Ok(Section::Output));
    assert_eq!(Section::try_from(3), Err(Error::InvalidSection(3)));
    assert_eq!(Trigger::try_from(1), Ok(Trigger::Off));
    assert_eq!(Trigger::try_from(255), Err(Error::InvalidTrigger(255)));
    assert_eq!(Action::try_from(0), Ok(Action::Enable));
    assert_eq!(Action::try_from(4), Err(Error::InvalidAction(4)));
}

#[test]
fn validation_reports_the_first_defect() {
    let mut chunk = tiny_toggle();
    chunk.connections = vec![
        conn(Section::Input, 0, Section::Internal, 0, Trigger::On, Action::Enable, 0),
        conn(Section::Internal, 0, Section::Output, 1, Trigger::On, Action::Enable, 0),
        conn(Section::Output, 0, Section::Input, 0, Trigger::On, Action::Enable, 0),
    ];
    assert_eq!(
        validate_chunk(&chunk),
        Err(Error::ToIndexOutOfRange { section: Section::Output, index: 1 })
    );
    chunk.connections.swap(1, 2);
    assert_eq!(
        validate_chunk(&chunk),
        Err(Error::InvalidConnectionEdge { from: Section::Output, to: Section::Input })
    );
}

#[test]
fn each_kind_of_defect_is_told_apart() {
    let ok = conn(Section::Internal, 1, Section::Internal, 1, Trigger::On, Action::Enable, 0);
    assert_eq!(check_connection(ok, 1, 1, 2), None);
    assert_eq!(
        check_connection(ok, 1, 1, 1),
        Some(Error::FromIndexOutOfRange { section: Section::Internal, index: 1 })
    );
    let to_bad = conn(Section::Internal, 0, Section::Internal, 2, Trigger::On, Action::Enable, 0);
    assert_eq!(
        check_connection(to_bad, 1, 1, 2),
        Some(Error::ToIndexOutOfRange { section: Section::Internal, index: 2 })
    );
    let in_out = conn(Section::Input, 0, Section::Output, 0, Trigger::On, Action::Enable, 0);
    assert_eq!(
        check_connection(in_out, 1, 1, 1),
        Some(Error::InvalidConnectionEdge { from: Section::Input, to: Section::Output })
    );
    let from_in = conn(Section::Input, 3, Section::Internal, 0, Trigger::On, Action::Enable, 0);
    assert_eq!(
        check_connection(from_in, 3, 1, 1),
        Some(Error::FromIndexOutOfRange { section: Section::Input, index: 3 })
    );
}

#[test]
fn cursor_reads_are_little_endian_and_bounded() {
    let bytes = [0x34, 0x12, 0x78, 0x56, 0x34, 0x12, 0xff];
    let mut cursor = 0usize;
    assert_eq!(read_u16(&bytes, &mut cursor), Ok(0x1234));
    assert_eq!(cursor, 2);
    assert_eq!(read_u32(&bytes, &mut cursor), Ok(0x1234_5678));
    assert_eq!(cursor, 6);
    assert_eq!(read_u16(&bytes, &mut cursor), Err(Error::UnexpectedEof));
    assert_eq!(read_u32(&bytes, &mut cursor), Err(Error::UnexpectedEof));
    assert_eq!(cursor, 6);
    let mut far = 9usize;
    assert_eq!(read_u16(&bytes, &mut far), Err(Error::UnexpectedEof));
    assert_eq!(far, 9);
}

#[test]
fn canonical_order_sorts_and_spreads_tags() {
    let mut chunk = tiny_toggle();
    chunk.internal_count = 2;
    chunk.connections = vec![
        conn(Section::Internal, 1, Section::Output, 0, Trigger::On, Action::Enable, 4),
        conn(Section::Input, 0, Section::Internal, 1, Trigger::Off, Action::Toggle, 7),
        conn(Section::Input, 0, Section::Internal, 0, Trigger::On, Action::Enable, 7),
        conn(Section::Internal, 0, Section::Output, 0, Trigger::On, Action::Disable, 2),
        conn(Section::Input, 0, Section::Internal, 0, Trigger::Toggle, Action::Enable, 3),
    ];
    canonicalize_chunk(&mut chunk);
    assert_eq!(
        chunk.connections,
        vec![
            conn(Section::Input, 0, Section::Internal, 0, Trigger::Toggle, Action::Enable, 3),
            conn(Section::Input, 0, Section::Internal, 1, Trigger::Off, Action::Toggle, 7),
            conn(Section::Input, 0, Section::Internal, 0, Trigger::On, Action::Enable, 8),
            conn(Section::Internal, 0, Section::Output, 0, Trigger::On, Action::Disable, 2),
            conn(Section::Internal, 1, Section::Output, 0, Trigger::On, Action::Enable, 4),
        ]
    );
    let bytes = encode_chunk(&chunk);
    assert_eq!(parse_chunk(&bytes).unwrap().connections, chunk.connections);
}
