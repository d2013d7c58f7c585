//! Game configuration: board dimensions, mine count, and an optional seed.

use vstd::prelude::*;

verus! {

/// Settings a board is built from. A command-line front end fills one in
/// from its arguments and hands it over as plain values.
pub struct Args {
    pub seed: Option<u64>,
    pub rows: usize,
    pub cols: usize,
    pub mines: usize,
}

impl Args {
    pub fn new(seed: Option<u64>, rows: usize, cols: usize, mines: usize) -> (r: Args)
        ensures
            r.seed == seed,
            r.rows == rows,
            r.cols == cols,
            r.mines == mines,
    {
        Args { seed, rows, cols, mines }
    }

    pub fn get_seed(&self) -> (r: Option<u64>)
        ensures
            r == self.seed,
    {
        self.seed
    }

    pub fn get_rows(&self) -> (r: usize)
        ensures
            r == self.rows,
    {
        self.rows
    }

    pub fn get_cols(&self) -> (r: usize)
        ensures
            r == self.cols,
    {
        self.cols
    }

    pub fn get_mines(&self) -> (r: usize)
        ensures
            r == self.mines,
    {
        self.mines
    }
}

} // verus!
