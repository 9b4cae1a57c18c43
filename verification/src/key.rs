//! The byte view that every key offers to the hash function, and what the
//! map asks of a key type's equality.

use vstd::prelude::*;
use vstd::std_specs::cmp::PartialEqSpec;
use vstd::string::StringSliceAdditionalSpecFns;
use crate::hashing::hashes_to;

verus! {

/// A key that can be seen as a sequence of bytes. The bytes are used for
/// hashing only; whether two keys are the same key is decided by `==`.
pub trait AsByte {
    fn as_byte(&self) -> &[u8];
}

impl AsByte for String {
    /// The UTF-8 encoding of the string.
    fn as_byte(&self) -> (b: &[u8])
        ensures
            b@ == vstd::utf8::encode_utf8(self@),
    {
        self.as_str().as_bytes()
    }
}

impl AsByte for str {
    /// The UTF-8 encoding of the string.
    fn as_byte(&self) -> (b: &[u8])
        ensures
            b@ == self.spec_bytes(),
    {
        self.as_bytes()
    }
}

impl AsByte for Vec<u8> {
    fn as_byte(&self) -> (b: &[u8])
        ensures
            b@ == self@,
    {
        self.as_slice()
    }
}

impl<'a> AsByte for &'a [u8] {
    fn as_byte(&self) -> (b: &[u8])
        ensures
            b@ == self@,
    {
        self
    }
}

/// The equality of `K` is an equivalence relation.
pub open spec fn eq_is_equivalence<K: Eq>() -> bool {
    &&& forall|a: K| #[trigger] a.eq_spec(&a)
    &&& forall|a: K, b: K| #[trigger] a.eq_spec(&b) ==> b.eq_spec(&a)
    &&& forall|a: K, b: K, c: K| #[trigger] a.eq_spec(&b) && #[trigger] b.eq_spec(&c) ==> a.eq_spec(&c)
}

/// What the map needs of a key type: `==` computes `eq_spec`, which is an
/// equivalence relation, and keys that are equal hash alike, which they do
/// where `as_byte` gives the same bytes for them, every time. Keys that hash
/// alike need not be equal.
pub open spec fn obeys_key_model<K: Eq + AsByte>() -> bool {
    &&& K::obeys_eq_spec()
    &&& eq_is_equivalence::<K>()
    &&& forall|a: K, b: K, ha: u64, hb: u64|
        #![trigger a.eq_spec(&b), hashes_to(&a, ha), hashes_to(&b, hb)]
        a.eq_spec(&b) && hashes_to(&a, ha) && hashes_to(&b, hb) ==> ha == hb
}

/// Byte vectors compare by their contents, so they are keys as the map needs
/// them.
pub proof fn lemma_byte_vec_obeys_key_model()
    ensures
        obeys_key_model::<Vec<u8>>(),
{
    assert forall|a: Vec<u8>, b: Vec<u8>, ha: u64, hb: u64|
        #![trigger a.eq_spec(&b), hashes_to(&a, ha), hashes_to(&b, hb)]
        a.eq_spec(&b) && hashes_to(&a, ha) && hashes_to(&b, hb) implies ha == hb by {
        assert(a@ =~= b@);
    }
}

} // verus!
