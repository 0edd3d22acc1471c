//! A rectangular maze on an odd-by-odd lattice of characters: cells sit at
//! even coordinates, wall slots everywhere else.  The crate builds the
//! lattice, carves it with a randomized walk and searches it depth first.

pub mod grid;
pub mod solver;
pub mod chance;
pub mod generator;
pub mod growth;
