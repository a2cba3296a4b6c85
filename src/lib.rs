//! Discrete core of a Monte Carlo path tracer: the bitmap store behind image
//! textures, the lattice tables of Perlin noise, the checkerboard parity rule,
//! the construction of a bounding volume hierarchy, and the nearest-hit
//! searches over it and over a plain list of surfaces.

pub mod bitmap;
mod random;
pub mod perlin;
pub mod checker;
pub mod probe;
pub mod world;
pub mod bvh;
