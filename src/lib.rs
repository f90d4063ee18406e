//! Structural analysis of molecular-dynamics snapshots in an orthorhombic
//! periodic box: minimum-image geometry, neighbour lists, cluster labelling
//! and ion-coordination classification.
//!
//! Coordinates and lengths are fixed-point integers on a grid whose spacing
//! the caller chooses, so that every comparison here is exact.

pub mod structs;
pub mod analysis;
pub mod cluster;
pub mod ions;
