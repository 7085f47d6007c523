//! Simulation core of a trading-route game: a tile map with ports, shipping
//! routes found by weighted shortest-path search, ships that sail and trade
//! along them, and the bookkeeping around them.

pub mod audio;
pub mod color;
pub mod commands;
pub mod config;
pub mod fleet;
pub mod frontier;
pub mod geometry;
pub mod lookup;
pub mod mapfile;
pub mod path;
pub mod pathfinder;
pub mod port;
pub mod random;
pub mod route;
pub mod routebuilder;
pub mod shape;
pub mod ship;
pub mod shipbuilder;
pub mod shipyard;
pub mod tally;
pub mod tile;
pub mod time;
pub mod waypoint;
pub mod world;
