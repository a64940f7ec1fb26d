//! The decision-making core of an offline Monte-Carlo path tracer.
//!
//! A path tracer spends its time on two kinds of work.  One is arithmetic on
//! real numbers: where a ray meets a triangle, how much light a surface
//! scatters, what colour a pixel ends up with.  The other is deciding and
//! book-keeping: which boxes a ray has to visit, in which order its hits are
//! met, when a path ends, which seed a sample draws from, which texel a
//! position names.  This crate holds the second kind, and proves what it
//! states about it.
//!
//! Coordinates, distances and costs enter the crate as order keys: integers
//! that compare exactly as the numbers they stand for.  The crate compares,
//! sorts and counts them, and never computes with them, so what is proved of
//! keys holds of the numbers.  Whatever has to be computed from numbers is
//! handed in by the caller, as a key or as a closure.
//!
//! * [`keys`]: the order keys of single-precision numbers.
//! * [`aabb`]: bounding boxes and the slab test.
//! * [`order`]: stable sorting by key.
//! * [`events`], [`split`], [`kdtree`]: the k-d tree, from the planes that
//!   the items offer to the query that misses none of them.
//! * [`hits`]: what a ray meets, nearest first.
//! * [`path`]: the course of a light path, bounce by bounce.
//! * [`sampler`]: pixels, frame-buffer places and seeds.
//! * [`texture`]: bitmaps read by wrapping texel positions.
//! * [`config`], [`pipeline`]: options, their defaults, and the steps of a
//!   command.

pub mod aabb;
pub mod config;
pub mod events;
pub mod hits;
pub mod kdtree;
pub mod keys;
pub mod order;
pub mod path;
pub mod pipeline;
pub mod sampler;
pub mod split;
pub mod texture;
