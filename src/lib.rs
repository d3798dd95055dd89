//! A search engine for straightedge-and-compass constructions: the parts of it
//! that work on plain values. Dependency sets and their interning table, the
//! records of how points and shapes were obtained, the double-hash index, the
//! order and the score of candidate steps, the choice among several ways of
//! finding the targets, the index arithmetic of the random walks, and the text
//! form of lines and circles.
pub mod deps;
pub mod hashset2;
pub mod problems;
pub mod action;
pub mod multimatch;
pub mod random_walk;
pub mod shape_text;
pub mod registry;
