//! The client's current level and maze, and whether an incoming snapshot
//! belongs to it.

use vstd::prelude::*;
use crate::maze::{MazeData, MazeGrid, MazeSource};
use crate::maze_build::{build_and_validate, build_outcome, builds_surely, MazeBuildError};

verus! {

/// The level the client is playing and the maze it holds for it.
pub struct LevelState {
    level: u8,
    level_epoch: u32,
    maze: MazeData,
}

impl LevelState {
    pub closed spec fn spec_level(&self) -> u8 {
        self.level
    }

    pub closed spec fn spec_level_epoch(&self) -> u32 {
        self.level_epoch
    }

    pub closed spec fn spec_maze(&self) -> MazeData {
        self.maze
    }

    pub fn new(level: u8, level_epoch: u32, maze: MazeData) -> (s: Self)
        ensures
            s.spec_level() == level,
            s.spec_level_epoch() == level_epoch,
            s.spec_maze() == maze,
    {
        Self { level, level_epoch, maze }
    }

    pub fn maze(&self) -> (m: &MazeData)
        ensures
            *m == self.spec_maze(),
    {
        &self.maze
    }

    pub fn level(&self) -> (l: u8)
        ensures
            l == self.spec_level(),
    {
        self.level
    }

    pub fn level_epoch(&self) -> (e: u32)
        ensures
            e == self.spec_level_epoch(),
    {
        self.level_epoch
    }

    /// Whether a snapshot stamped with `incoming_epoch` belongs to the maze
    /// held now; a mismatch must be discarded, never rendered.
    pub fn accepts(&self, incoming_epoch: u32) -> (r: bool)
        ensures
            r == (incoming_epoch == self.spec_level_epoch()),
    {
        incoming_epoch == self.level_epoch
    }

    /// Applies a level change: the new maze is rebuilt and validated first,
    /// and only on success do level, epoch and maze change together. On
    /// failure the old, still valid, level stays in place.
    pub fn apply_level_changed(&mut self, level: u8, level_epoch: u32, source: MazeSource) -> (r: Result<
        (),
        MazeBuildError,
    >)
        ensures
            builds_surely(source) ==> r is Ok,
            exists|b: Result<MazeData, MazeBuildError>|
                {
                    &&& build_outcome(source, b)
                    &&& match b {
                        Ok(m) => {
                            &&& r is Ok
                            &&& final(self).spec_level() == level
                            &&& final(self).spec_level_epoch() == level_epoch
                            &&& final(self).spec_maze() == m
                            &&& m.grid.valid()
                        },
                        Err(e) => r == Err::<(), MazeBuildError>(e) && *final(self) == *old(self),
                    }
                },
    {
        let built = build_and_validate(source);
        let ghost b = built;
        match built {
            Ok(maze) => {
                self.level = level;
                self.level_epoch = level_epoch;
                self.maze = maze;
                proof {
                    assert(build_outcome(source, b));
                }
                Ok(())
            },
            Err(e) => {
                proof {
                    assert(build_outcome(source, b));
                }
                Err(e)
            },
        }
    }

    /// The held maze's center cell: where every player is placed right
    /// after a level change.
    pub fn spawn_cell(&self) -> (c: (u16, u16))
        ensures
            c == center_cell_spec(&self.spec_maze().grid),
    {
        center_cell(&self.maze.grid)
    }
}

/// The center cell of a grid.
pub open spec fn center_cell_spec(g: &MazeGrid) -> (u16, u16) {
    ((g.width / 2) as u16, (g.height / 2) as u16)
}

/// The center cell of `grid`, by integer halving of each dimension.
pub fn center_cell(grid: &MazeGrid) -> (c: (u16, u16))
    ensures
        c == center_cell_spec(grid),
        grid.width > 0 && grid.height > 0 ==> grid.in_grid(c),
{
    (grid.width / 2, grid.height / 2)
}

} // verus!
