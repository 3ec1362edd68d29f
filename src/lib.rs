//! A HashLife-style Game of Life engine: a hash-consed, memoized quadtree over a
//! toroidal grid, advanced one generation at a time.
pub mod universe;
