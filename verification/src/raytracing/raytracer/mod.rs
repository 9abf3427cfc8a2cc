//! Where a rendering stands, and the settings it was started with.

use vstd::prelude::*;
use crate::raytracing::work::generator::GenerationMode;

verus! {

/// Where a rendering stands, with the cells commissioned and completed.
#[derive(Copy, Clone, Debug, PartialEq, Eq, Structural)]
pub enum RaytracerState {
    Created,
    Running { commissioned: usize, completed: usize },
    Paused { commissioned: usize, completed: usize },
    Finished { commissioned: usize, completed: usize },
    Stopped,
}

/// The grid, the effort for each cell and the mode by which the grid is cut.
#[derive(Clone, Debug)]
pub struct RaytracerSettings {
    pub width: u32,
    pub height: u32,
    pub samples_per_pixel: usize,
    pub max_bounces: usize,
    pub generation_mode: GenerationMode,
}

impl RaytracerState {
    /// The state of a rendering that was just started on a grid of `width`
    /// columns and `height` rows: every cell is commissioned, none is
    /// completed.
    pub fn started(width: u32, height: u32) -> (state: Self)
        requires
            width * height <= usize::MAX,
        ensures
            state == (RaytracerState::Running {
                commissioned: (width * height) as usize,
                completed: 0,
            }),
    {
        assert(width as usize * height as usize == width * height) by (nonlinear_arith)
            requires
                width * height <= usize::MAX,
        ;
        RaytracerState::Running { commissioned: width as usize * height as usize, completed: 0 }
    }

    /// The state after `results` more cells were completed. A running
    /// rendering counts them, and is finished once as many cells are
    /// completed as were commissioned. Any other state stays as it is.
    pub fn update(self, results: usize) -> (state: Self)
        requires
            self matches RaytracerState::Running { completed, .. } ==> completed + results
                <= usize::MAX,
        ensures
            state == match self {
                RaytracerState::Running { commissioned, completed } => if completed + results
                    >= commissioned {
                    RaytracerState::Finished {
                        commissioned,
                        completed: (completed + results) as usize,
                    }
                } else {
                    RaytracerState::Running {
                        commissioned,
                        completed: (completed + results) as usize,
                    }
                },
                _ => self,
            },
    {
        match self {
            RaytracerState::Running { commissioned, completed } => {
                let completed: usize = completed + results;
                if completed >= commissioned {
                    RaytracerState::Finished { commissioned, completed }
                } else {
                    RaytracerState::Running { commissioned, completed }
                }
            },
            _ => self,
        }
    }

    /// Whether the rendering runs, so that results are to be collected.
    pub fn is_running(&self) -> (running: bool)
        ensures
            running == (*self is Running),
    {
        match self {
            RaytracerState::Running { .. } => true,
            _ => false,
        }
    }
}

} // verus!
