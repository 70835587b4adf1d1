//! Verified core of a Monte-Carlo path tracer: the exact, integer side of
//! scene acceleration and texturing. Coordinates enter as ordered keys of
//! their IEEE-754 bit patterns, so that comparing, merging and sorting boxes
//! is integer work whose results Verus proves.
pub mod key;
pub mod aabb;
pub mod random;
pub mod permutation;
pub mod perlin;
pub mod bvh;
pub mod closest;
pub mod traverse;
pub mod texture;
pub mod pixels;
