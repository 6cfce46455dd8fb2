//! Verified core of the TriplClust curve-detection pipeline for 3D point clouds.
//!
//! The library holds the discrete decisions of the algorithm: parameter
//! validation, the hierarchical-clustering label bookkeeping, the collapse of
//! per-triplet labels onto points, and the directed-graph splitting of
//! clusters. Geometric computations on coordinates live outside the library
//! and hand their results in as plain values.

pub mod error;
pub mod text;
pub mod params;
pub mod pyerror;
pub mod fxcollections;
pub mod dendrogram;
pub mod cluster;
pub mod digraph;
pub mod triplet;
pub mod stitch;
