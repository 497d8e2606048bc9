//! Recovery of passwords for a 6502-style checksum hash.
//!
//! A password is a sequence of characters from a fixed 42-character
//! alphabet; hashing it drives a 7-byte state through one forward step per
//! character.  Given a target state and a length, the engine enumerates
//! every password whose hash reaches the target, by meeting in the middle:
//! a backward table of all suffixes of a chosen depth, two reachability
//! tables that prune the forward search, and a depth-first search over the
//! remaining prefixes.

pub mod backward;
pub mod bitset;
pub mod cpu;
pub mod domain;
pub mod dp;
pub mod enumeration;
pub mod forward1;
pub mod forward2;
pub mod opt;
pub mod pruning;
pub mod target;
