//! An open-addressing hash map with Robin Hood displacement, verified with Verus.
//!
//! Keys are hashed through their byte view with seed-0 XXH64, folded into the
//! non-zero, non-negative range. The table is a flat power-of-two array of
//! slots that is probed linearly; insertion lets the entry that has travelled
//! farther keep the slot, and lookup stops as soon as it meets an entry that
//! sits closer to its home than the probe has already walked.

pub mod geometry;
pub mod hashing;
pub mod iter;
pub mod key;
pub mod laws;
pub mod listing;
pub mod map;
pub mod model;
pub mod slots;
pub mod walk;

pub use geometry::distance;
pub use hashing::{hash_bytes, hash_key, hash_uint64, normalize_hash};
pub use iter::{Iter, IterMut, Keys};
pub use key::AsByte;
pub use map::HashMap;
pub use slots::HashElem;
