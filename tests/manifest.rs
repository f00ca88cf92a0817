use lsm_tree::manifest::{decode_state, encode_state, State};

#[test]
fn manifest_round_trip() {
    let state = State {
        ss_table_block_size: 10,
        memtable_size: 100,
        level_0_ss_tables: 3,
        level_1_ss_tables: 70000,
        level_0_size: 10,
    };
    let bytes = encode_state(&state);
    assert_eq!(bytes, vec![10u8, 100, 3, 252, 0x70, 0x11, 0x01, 0x00, 10]);
    assert_eq!(decode_state(&bytes), Some(state));
    assert_eq!(decode_state(&bytes[..4].to_vec()), None);
}

#[test]
fn wide_counts_use_the_two_byte_form() {
    let state = State {
        ss_table_block_size: 251,
        memtable_size: 1,
        level_0_ss_tables: 0,
        level_1_ss_tables: 0,
        level_0_size: 1,
    };
    let bytes = encode_state(&state);
    assert_eq!(bytes, vec![251u8, 251, 0, 1, 0, 0, 1]);
    assert_eq!(decode_state(&bytes), Some(state));
}
