use lib::fnv::{fnv1a_64, fnv1a_64_update, FNV_OFFSET_BASIS};

#[test]
fn fnv1a_empty() {
    assert_eq!(fnv1a_64(b""), FNV_OFFSET_BASIS);
}

#[test]
fn fnv1a_known_values() {
    // FNV-1a 64-bit test vectors from the FNV reference.
    assert_eq!(fnv1a_64(b"a"), 0xaf63_dc4c_8601_ec8c);
    assert_eq!(fnv1a_64(b"foobar"), 0x8594_4171_f739_67e8);
}

#[test]
fn fnv1a_deterministic() {
    let data = b"the quick brown fox jumps over the lazy dog";
    assert_eq!(fnv1a_64(data), fnv1a_64(data));
}

#[test]
fn fnv1a_chunked_equals_whole() {
    let data = b"hello world, hashed a piece at a time";
    let mut state = FNV_OFFSET_BASIS;
    for chunk in data.chunks(5) {
        state = fnv1a_64_update(state, chunk);
    }
    assert_eq!(state, fnv1a_64(data));
    assert_eq!(fnv1a_64_update(FNV_OFFSET_BASIS, b""), FNV_OFFSET_BASIS);
}

#[test]
fn fnv1a_more_vectors() {
    assert_eq!(fnv1a_64(b"hello world"), 0x779a_65e7_023c_d2e7);
    assert_eq!(fnv1a_64(b"foo"), 0xdcb2_7518_fed9_d577);
}
