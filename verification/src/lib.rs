//! Multi-agent path finding for rectangular agents on a weighted grid, with waits.
//!
//! Agents occupy axis-aligned rectangles of cells. Entering a rectangle costs the sum of
//! the costs of its cells, in ticks during which the agent stays there. The single-agent
//! search plans one agent under constraints; the multi-agent search resolves overlaps in
//! space and time between the agents' plans by adding constraints.
//!
//! The modules, leaves first:
//! - `geometry`: cells, rectangles, three-way comparison.
//! - `model`: cell information, stays, plans, constraints, conflicts, unfolding of plans.
//! - `grid`: the dense grid and the footprint queries on a map.
//! - `map_ext`: the least entry of a map from keys to costs.
//! - `dijkstra`: least tolls of routes between footprints.
//! - `all_pairs`: the cost of the cheapest way between every two cells.
//! - `astar`: the problem, its validation, and the estimates.
//! - `search`: the search of one agent; `plans` and `order` hold what is proved of it.
//! - `conflicts`: plans side by side and their collisions; `overlap` holds what is proved.
//! - `explore`: resolving conflicts; `ranking` holds what is proved of it.
//! - `cbs`: the search over sets of constraints; `solution` and `node_order` hold what is
//!   proved of it.
//! - `layout`: formations of cells and the drawing of a problem.
pub mod all_pairs;
pub mod astar;
pub mod cbs;
pub mod conflicts;
pub mod dijkstra;
pub mod explore;
pub mod geometry;
pub mod grid;
pub mod layout;
pub mod map_ext;
pub mod model;
pub mod node_order;
pub mod order;
pub mod overlap;
pub mod plans;
pub mod ranking;
pub mod search;
pub mod solution;
