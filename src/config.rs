use vstd::prelude::*;

verus! {

/// The three numbers a game is made from: the board's width `x`, its height
/// `y`, and how many mines it holds.
#[derive(Clone, Copy, Debug, PartialEq, Eq, Structural)]
pub struct Config {
    pub x: usize,
    pub y: usize,
    pub mines: usize,
}

impl Config {
    pub open spec fn area(&self) -> int {
        self.x * self.y
    }

    /// A config a board can be made from: a non-empty area that fits in
    /// `usize` and room for every mine.
    pub open spec fn valid(&self) -> bool {
        &&& self.area() > 0
        &&& self.area() <= usize::MAX
        &&& self.mines <= self.area()
    }

    pub fn tile_count(&self) -> (r: usize)
        requires
            self.area() <= usize::MAX,
        ensures
            r == self.area(),
    {
        self.x * self.y
    }
}

/// The error a game's construction reports for a config it cannot use.
#[derive(Clone, Copy, Debug, PartialEq, Eq, Structural)]
pub struct ConfigError {
    config: Config,
}

impl ConfigError {
    pub closed spec fn spec_config(&self) -> Config {
        self.config
    }

    pub fn new(config: Config) -> (r: ConfigError)
        ensures
            r.spec_config() == config,
    {
        ConfigError { config: config }
    }

    /// The config that was refused.
    pub fn config(&self) -> (r: Config)
        ensures
            r == self.spec_config(),
    {
        self.config
    }
}

} // verus!
