use idlebot::codec::{
    decode_author_id, decode_timestamp, encode_author_id, encode_timestamp, RECORD_WIDTH,
};

#[test]
fn author_id_matches_big_endian_bytes() {
    for id in [0u64, 1, 255, 256, 0x0102_0304_0506_0708, u64::MAX - 1, u64::MAX] {
        assert_eq!(encode_author_id(id), id.to_be_bytes());
        assert_eq!(decode_author_id(&id.to_be_bytes()), Some(id));
    }
}

#[test]
fn author_id_bytes_are_most_significant_first() {
    assert_eq!(encode_author_id(1), [0, 0, 0, 0, 0, 0, 0, 1]);
    assert_eq!(encode_author_id(0x0102_0304_0506_0708), [1, 2, 3, 4, 5, 6, 7, 8]);
    assert_eq!(decode_author_id(&[0, 0, 0, 0, 0, 0, 1, 0]), Some(256));
}

#[test]
fn timestamp_matches_big_endian_bytes() {
    for ts in [0i64, 1, -1, 1000, 2000, 1_462_015_105, -1_462_015_105, i64::MAX, i64::MIN] {
        assert_eq!(encode_timestamp(ts), ts.to_be_bytes());
        assert_eq!(decode_timestamp(&ts.to_be_bytes()), Some(ts));
    }
}

#[test]
fn timestamp_is_stored_in_twos_complement() {
    assert_eq!(encode_timestamp(1000), [0, 0, 0, 0, 0, 0, 3, 232]);
    assert_eq!(encode_timestamp(-1), [255; 8]);
    assert_eq!(encode_timestamp(i64::MIN), [128, 0, 0, 0, 0, 0, 0, 0]);
    assert_eq!(decode_timestamp(&[255, 255, 255, 255, 255, 255, 255, 254]), Some(-2));
}

#[test]
fn written_timestamp_is_read_back_exactly() {
    let mut ts: i64 = i64::MIN;
    let step: i64 = 0x0123_4567_89ab_cdef;
    for _ in 0..200 {
        assert_eq!(decode_timestamp(&encode_timestamp(ts)), Some(ts));
        ts = ts.wrapping_add(step);
    }
}

#[test]
fn written_author_id_is_read_back_exactly() {
    let mut id: u64 = 0;
    let step: u64 = 0x9e37_79b9_7f4a_7c15;
    for _ in 0..200 {
        assert_eq!(decode_author_id(&encode_author_id(id)), Some(id));
        id = id.wrapping_add(step);
    }
}

#[test]
fn wrong_length_is_not_decoded() {
    assert_eq!(RECORD_WIDTH, 8);
    assert_eq!(decode_author_id(&[]), None);
    assert_eq!(decode_author_id(&[0; 7]), None);
    assert_eq!(decode_author_id(&[0; 9]), None);
    assert_eq!(decode_timestamp(&[]), None);
    assert_eq!(decode_timestamp(&[0; 7]), None);
    assert_eq!(decode_timestamp(&[0; 9]), None);
}

#[test]
fn keys_sort_as_author_ids_do() {
    let ids = [0u64, 1, 2, 255, 256, 257, 65535, 65536, 1 << 40, u64::MAX - 1, u64::MAX];
    for a in ids {
        for b in ids {
            assert_eq!(a < b, encode_author_id(a) < encode_author_id(b));
        }
    }
}
