use mycos::layout::{
    bit_to_word, byte_len, clr_bit, connection_table_offset, section_offsets, set_bit, word_len,
    xor_bit, HEADER_BYTES,
};

#[test]
fn bit_to_word_edges() {
    assert_eq!(bit_to_word(0), (0, 1));
    assert_eq!(bit_to_word(31), (0, 1u32 << 31));
    assert_eq!(bit_to_word(32), (1, 1));
    assert_eq!(bit_to_word(63), (1, 1u32 << 31));
}

#[test]
fn bit_ops_edges() {
    let mut words = [0u32; 2];
    let (w0, m0) = bit_to_word(0);
    set_bit(&mut words[w0 as usize], m0);
    assert_eq!(words[0], m0);

    let (w31, m31) = bit_to_word(31);
    set_bit(&mut words[w31 as usize], m31);
    assert_eq!(words[0], m0 | m31);

    let (w32, m32) = bit_to_word(32);
    set_bit(&mut words[w32 as usize], m32);
    assert_eq!(words[1], m32);

    xor_bit(&mut words[w0 as usize], m0);
    assert_eq!(words[0], m31);

    clr_bit(&mut words[w31 as usize], m31);
    assert_eq!(words[0], 0);
}

#[test]
fn section_offset_calculation() {
    let (i, o, n) = section_offsets(1, 1, 1);
    assert_eq!((i, o, n), (32, 33, 34));

    let (i2, o2, n2) = section_offsets(9, 17, 0);
    assert_eq!((i2, o2, n2), (32, 34, 37));

    let (i3, o3, n3) = section_offsets(0, 0, 0);
    assert_eq!((i3, o3, n3), (32, 32, 32));

    let conn_off = connection_table_offset(1, 1, 1);
    assert_eq!(conn_off, 36);
}

#[test]
fn bit_to_word_last_bit() {
    assert_eq!(bit_to_word(u32::MAX), (0x07FF_FFFF, 0x8000_0000));
}

#[test]
fn byte_and_word_lengths_round_up() {
    assert_eq!(HEADER_BYTES, 32);
    assert_eq!(byte_len(0), 0);
    assert_eq!(byte_len(1), 1);
    assert_eq!(byte_len(8), 1);
    assert_eq!(byte_len(9), 2);
    assert_eq!(byte_len(u32::MAX), 0x2000_0000);
    assert_eq!(word_len(0), 0);
    assert_eq!(word_len(32), 1);
    assert_eq!(word_len(33), 2);
    assert_eq!(word_len(u32::MAX), 0x0800_0000);
}

#[test]
fn connection_table_is_word_aligned() {
    assert_eq!(connection_table_offset(0, 0, 0), 32);
    assert_eq!(connection_table_offset(8, 8, 16), 36);
    assert_eq!(connection_table_offset(9, 17, 0), 40);
    assert_eq!(connection_table_offset(32, 0, 0), 36);
}
