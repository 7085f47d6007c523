//! The settings of a game.

use vstd::prelude::*;

verus! {

/// Holds game specific configurations.
#[derive(Debug, Clone, Copy)]
pub struct Config {
    /// The factor between window and drawing coordinates.
    pub scaling: u32,
    /// Width of the grid, in cells.
    pub grid_width: u32,
    /// Height of the grid, in cells.
    pub grid_height: u32,
}

impl Default for Config {
    /// A grid of 60 by 30 cells, drawn to scale.
    fn default() -> (config: Config)
        ensures
            config.scaling == 1,
            config.grid_width == 60,
            config.grid_height == 30,
    {
        Config { scaling: 1, grid_width: 60, grid_height: 30 }
    }
}

} // verus!
