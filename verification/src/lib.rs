//! Bit vectors whose words are leased from a bump-allocating arena.
//!
//! A [`BitVec`] is a growable sequence of bits, made for sets that are united
//! word by word, many times over. Its words live in a [`WordArena`], which
//! hands out runs of words by bumping a cursor through large chunks and takes
//! them back on a free list, so that short-lived vectors cost no trip to the
//! system allocator.
//!
//! The arena is an explicit value. A vector holds a [`Run`], a handle to its
//! words, and every operation on bits is handed the arena that the handle
//! belongs to. One arena serves one thread of work; the vectors leased from
//! it are to be used with it and with no other.
//!
//! Contracts are stated over three views: the bits of a vector
//! ([`BitVec::bits`]), the words behind a run ([`WordArena::region`]) and the
//! bookkeeping of the arena ([`WordArena::layout`]). The module [`model`]
//! holds what is true of bit sequences as such: union, resizing, equality
//! and order.

pub mod arena;
pub mod bits;
pub mod bitvec;
pub mod model;
pub mod set_bits;

pub use crate::arena::{arena_alloc, arena_free, Layout, Run, WordArena, ARENA_CHUNK_WORDS};
pub use crate::bitvec::BitVec;
pub use crate::set_bits::SetBitsIter;
