use top_few::packed::{index_at, IDENTITY, IXS_BITS, IX_BITS, IX_MASK, NUM};

#[test]
fn identity_names_each_slot_at_its_own_position() {
    for pos in 0..16u32 {
        assert_eq!(index_at(IDENTITY, pos * 4), pos as usize);
    }
}

#[test]
fn index_at_reads_four_bits() {
    let word: u64 = 0x0123_4567_89AB_CDEF;
    assert_eq!(index_at(word, 0), 0xF);
    assert_eq!(index_at(word, 4), 0xE);
    assert_eq!(index_at(word, 32), 0x7);
    assert_eq!(index_at(word, 60), 0x0);
    assert_eq!(index_at(u64::MAX, 63), 1);
}

#[test]
fn constants_describe_sixteen_four_bit_fields() {
    assert_eq!(NUM, 16);
    assert_eq!(IX_BITS, 4);
    assert_eq!(IX_MASK, 0xF);
    assert_eq!(IXS_BITS, NUM as u32 * IX_BITS);
}
