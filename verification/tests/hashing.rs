use rhh::{distance, hash_bytes, hash_key, hash_uint64, normalize_hash};

#[test]
fn test_hash() {
    let n = hash_key("xyz");
    assert_eq!(91681375387435871, n);
}

#[test]
fn hash_is_the_same_for_every_key_type() {
    let s = String::from("xyz");
    let v: Vec<u8> = vec![b'x', b'y', b'z'];
    let b: &[u8] = &[b'x', b'y', b'z'];
    assert_eq!(hash_key(&s), 91681375387435871);
    assert_eq!(hash_key(&v), 91681375387435871);
    assert_eq!(hash_key(&b), 91681375387435871);
    assert_eq!(hash_bytes(b), 91681375387435871);
}

#[test]
fn hash_depends_on_the_bytes() {
    assert_ne!(hash_key("xyz"), hash_key("xyy"));
    assert_ne!(hash_key("xyz"), hash_key("xyzz"));
    assert_ne!(hash_key("a"), 0x61);
}

#[test]
fn hash_of_a_negative_digest_is_folded() {
    // The digest of the empty input is 0xEF46DB3751D8E999, whose sign bit is set.
    assert_eq!(hash_key(""), 0x10B9_24C8_AE27_1667);
    assert_eq!(hash_key(""), 0u64.wrapping_sub(0xEF46_DB37_51D8_E999));
}

#[test]
fn hash_is_never_zero() {
    for i in 0..2000u64 {
        assert_ne!(hash_key(&i.to_string()), 0);
        assert_ne!(hash_uint64(i), 0);
    }
    assert_ne!(normalize_hash(0), 0);
    assert_ne!(normalize_hash(u64::MAX), 0);
    assert_ne!(normalize_hash(1 << 63), 0);
}

#[test]
fn hash_is_never_above_two_to_the_63rd() {
    for i in 0..2000u64 {
        assert!(hash_key(&i.to_string()) <= 1 << 63);
    }
}

#[test]
fn normalize_replaces_zero_by_one() {
    assert_eq!(normalize_hash(0), 1);
}

#[test]
fn normalize_keeps_the_positive_half() {
    assert_eq!(normalize_hash(1), 1);
    assert_eq!(normalize_hash(5), 5);
    assert_eq!(normalize_hash(0x7fff_ffff_ffff_ffff), 0x7fff_ffff_ffff_ffff);
}

#[test]
fn normalize_negates_the_negative_half() {
    assert_eq!(normalize_hash(u64::MAX), 1);
    assert_eq!(normalize_hash(u64::MAX - 1), 2);
    assert_eq!(normalize_hash(0x8000_0000_0000_0001), 0x7fff_ffff_ffff_ffff);
    assert_eq!(normalize_hash(0xEF46_DB37_51D8_E999), 0x10B9_24C8_AE27_1667);
}

#[test]
fn normalize_keeps_the_least_signed_value() {
    assert_eq!(normalize_hash(0x8000_0000_0000_0000), 0x8000_0000_0000_0000);
}

#[test]
fn integer_keys_hash_as_their_big_endian_bytes() {
    for key in [0u64, 1, 255, 256, 0x0102_0304_0506_0708, u64::MAX] {
        let bytes = key.to_be_bytes().to_vec();
        assert_eq!(hash_uint64(key), hash_key(&bytes));
    }
    let one: Vec<u8> = vec![0, 0, 0, 0, 0, 0, 0, 1];
    assert_eq!(hash_uint64(1), hash_key(&one));
    let little: Vec<u8> = vec![1, 0, 0, 0, 0, 0, 0, 0];
    assert_ne!(hash_uint64(1), hash_key(&little));
}

#[test]
fn distance_counts_forward_from_the_home_slot() {
    // hash 13 has home slot 5 in a table of 8
    assert_eq!(distance(13, 5, 8), 0);
    assert_eq!(distance(13, 6, 8), 1);
    assert_eq!(distance(13, 7, 8), 2);
    assert_eq!(distance(13, 0, 8), 3);
    assert_eq!(distance(13, 1, 8), 4);
    assert_eq!(distance(13, 4, 8), 7);
}

#[test]
fn distance_is_below_the_capacity() {
    for hash in 0..64u64 {
        for i in 0..16usize {
            let d = distance(hash, i, 16);
            assert!(d < 16);
            assert_eq!((hash & 15) + d & 15, i as u64);
        }
    }
}
