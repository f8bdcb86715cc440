//! A contestant of a tournament.
use crate::vec_tile::VecTile;
use vstd::prelude::*;

verus! {

/// A pattern with its name and its record in the current round.
#[derive(Debug, Clone)]
pub struct Player {
    pub tile: VecTile,
    pub name: String,
    pub wins: usize,
    pub losses: usize,
    pub point_difference: isize,
    pub keep: bool,
}

impl Player {
    /// A player with no games played; `keep` marks one that is never dropped.
    pub fn new(tile: VecTile, name: String, keep: bool) -> (r: Player)
        ensures
            r.tile == tile,
            r.name == name,
            r.wins == 0,
            r.losses == 0,
            r.point_difference == 0,
            r.keep == keep,
    {
        Player { tile: tile, name: name, wins: 0, losses: 0, point_difference: 0, keep: keep }
    }
}

} // verus!
