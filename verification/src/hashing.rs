//! The hash of a key: seed-0 XXH64 of its bytes, made non-zero and folded
//! into the non-negative half of the 64-bit range.

use vstd::prelude::*;
use std::hash::Hash;
use crate::key::AsByte;

verus! {

/// The XXH64 digest of `data` under `seed`.
pub uninterp spec fn xxh64(seed: u64, data: Seq<u8>) -> u64;

/// Calls `twox_hash::XxHash64::oneshot`, which hashes the whole of `data` in
/// one step. The digest depends on the seed and the bytes alone; nothing
/// else is claimed of it.
#[verifier::external_body]
fn xxh64_oneshot(seed: u64, data: &[u8]) -> (h: u64)
    ensures
        h == xxh64(seed, data@),
{
    twox_hash::XxHash64::oneshot(seed, data)
}

/// The hash that stands for a raw digest: 1 in place of 0, and in place of
/// a digest whose two's-complement reading is negative, the negation of that
/// reading, taken back as unsigned. The one digest without a positive
/// negation, two to the 63rd, stays as it is.
pub open spec fn fold_hash(raw: u64) -> u64 {
    if raw == 0 {
        1
    } else if raw > i64::MAX {
        (u64::MAX - raw + 1) as u64
    } else {
        raw
    }
}

/// The hash of a key with the given bytes.
pub open spec fn key_hash(bytes: Seq<u8>) -> u64 {
    fold_hash(xxh64(0, bytes))
}

/// `h` is a hash of `key`: the hash of bytes that `as_byte` gives for it.
pub open spec fn hashes_to<K: AsByte + ?Sized>(key: &K, h: u64) -> bool {
    exists|b: &[u8]| #[trigger] call_ensures(K::as_byte, (key,), b) && h == key_hash(b@)
}

/// The eight bytes of `key`, most significant first.
pub open spec fn be_bytes(key: u64) -> Seq<u8> {
    seq![
        ((key >> 56) & 0xff) as u8,
        ((key >> 48) & 0xff) as u8,
        ((key >> 40) & 0xff) as u8,
        ((key >> 32) & 0xff) as u8,
        ((key >> 24) & 0xff) as u8,
        ((key >> 16) & 0xff) as u8,
        ((key >> 8) & 0xff) as u8,
        (key & 0xff) as u8,
    ]
}

/// Turns a raw digest into a hash: never zero, and never above two to the
/// 63rd.
pub fn normalize_hash(raw: u64) -> (h: u64)
    ensures
        h == fold_hash(raw),
        h != 0,
        h <= 0x8000_0000_0000_0000,
{
    if raw == 0 {
        1
    } else if raw > 0x7fff_ffff_ffff_ffff {
        u64::MAX - raw + 1
    } else {
        raw
    }
}

/// Hashes a run of bytes.
pub fn hash_bytes(data: &[u8]) -> (h: u64)
    ensures
        h == key_hash(data@),
        h != 0,
{
    normalize_hash(xxh64_oneshot(0, data))
}

/// hash_key computes a hash of key. Hash is always non-zero.
pub fn hash_key<K>(key: &K) -> (h: u64) where K: Eq + Hash + AsByte + ?Sized
    ensures
        hashes_to(key, h),
        h != 0,
{
    hash_bytes(key.as_byte())
}

/// Hashes an integer key as its eight big-endian bytes, so that it hashes as
/// the byte key with those bytes does.
pub fn hash_uint64(key: u64) -> (h: u64)
    ensures
        h == key_hash(be_bytes(key)),
        h != 0,
{
    let mut buf: Vec<u8> = Vec::with_capacity(8);
    buf.push(((key >> 56) & 0xff) as u8);
    buf.push(((key >> 48) & 0xff) as u8);
    buf.push(((key >> 40) & 0xff) as u8);
    buf.push(((key >> 32) & 0xff) as u8);
    buf.push(((key >> 24) & 0xff) as u8);
    buf.push(((key >> 16) & 0xff) as u8);
    buf.push(((key >> 8) & 0xff) as u8);
    buf.push((key & 0xff) as u8);
    assert(buf@ =~= be_bytes(key));
    hash_bytes(buf.as_slice())
}

} // verus!
