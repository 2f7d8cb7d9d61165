//! Exact enumeration of the dominant building chains of a region.
//!
//! A region is an arborescence of buildings. A chain is a connected subtree
//! that holds the root, each of its buildings run either as storage or as
//! lodging. The library lays a region out in pre-order, walks every chain of
//! it, keeps the cheapest chain of each (lodging, storage) capacity and
//! reduces what it kept to the chains that no other chain dominates.

pub mod houseinfo;
pub mod building_nodes;
pub mod region_build;
pub mod region_nodes;
pub mod retain_traits;
pub mod split_walk;
pub mod subtree_counts;
pub mod walk;
pub mod chain;
pub mod chain_map;
pub mod dominance;
pub mod generate;
pub mod job_control;
pub mod list_buildings;
pub mod list_regions;
pub mod node_manipulation;
pub mod optimize;
