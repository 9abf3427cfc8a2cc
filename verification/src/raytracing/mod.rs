//! Work units, their generation and the worker that works them off.

pub mod raytracer;
pub mod texture;
pub mod work;

use vstd::prelude::*;
use crate::raytracing::work::RaytracingWork;
use crate::workers::WorkContext;
use crate::workers::WorkData;
use crate::workers::WorkResult;
use crate::workers::WorkerLink;

verus! {

/// What a worker says after a step: whether its unit has cells left.
#[derive(Debug, Copy, Clone, PartialEq, Eq, Structural)]
pub enum TaskState {
    Continue,
    Finished,
}

/// How a worker goes on after a step on its unit.
#[derive(Debug, Copy, Clone, PartialEq, Eq, Structural)]
pub enum WorkerCourse {
    GoOn,
    UnitDone,
    PoolGone,
}

/// How a worker goes on after a step: it ends where the pool did not take
/// the result of the step, it is done with its unit where the step was the
/// last of the unit, and else it goes on with the next step.
pub fn course_after(sent: bool, state: TaskState) -> (course: WorkerCourse)
    ensures
        course == if !sent {
            WorkerCourse::PoolGone
        } else if state == TaskState::Finished {
            WorkerCourse::UnitDone
        } else {
            WorkerCourse::GoOn
        },
{
    if !sent {
        WorkerCourse::PoolGone
    } else {
        match state {
            TaskState::Finished => WorkerCourse::UnitDone,
            TaskState::Continue => WorkerCourse::GoOn,
        }
    }
}

/// The cells for which the results stand, in the order of the results.
pub open spec fn result_cells<V>(results: Seq<RaytracingResult<V>>) -> Seq<(int, int)> {
    Seq::new(results.len(), |i: int| (results[i].x as int, results[i].y as int))
}

/// What is computed for one cell of the grid. The worker asks for it once
/// for each cell that it takes from its unit, and says nothing of the value.
pub trait CellEvaluator {
    type Value;

    fn evaluate_cell(&self, x: u32, y: u32) -> Self::Value;
}

/// What a worker hands back for one cell: the cell and what was computed
/// for it.
#[derive(Debug, Copy, Clone, PartialEq, Default)]
pub struct RaytracingResult<V> {
    pub x: u32,
    pub y: u32,
    pub pixel_color: V,
}

/// The unit that a worker holds.
#[derive(Debug, Clone)]
pub struct RaytracingWorkerTaskState {
    pub data: RaytracingWork,
}

/// A worker: it holds at most one unit and works it off cell by cell.
#[derive(Debug, Clone)]
pub struct RaytracingWorker {
    pub current_task_state: Option<RaytracingWorkerTaskState>,
}

impl WorkData for RaytracingWork {

}

impl<V: 'static + Send> WorkResult for RaytracingResult<V> {

}

impl Default for RaytracingWorker {
    fn default() -> (worker: Self)
        ensures
            worker.current_task_state is None,
    {
        RaytracingWorker { current_task_state: None }
    }
}

impl RaytracingWorker {
    /// The unit that the worker holds, if it holds one, is well formed.
    pub open spec fn wf(self) -> bool {
        match self.current_task_state {
            None => true,
            Some(state) => state.data.wf(),
        }
    }

    /// The cells that the worker still has to work off: those of the unit
    /// it holds, none where it holds no unit.
    pub open spec fn pending(self) -> Seq<(int, int)> {
        match self.current_task_state {
            None => Seq::empty(),
            Some(state) => state.data.remaining(),
        }
    }

    /// The cells that the worker has to work off once it was handed `data`:
    /// those of the new unit, which takes the place of any unit held
    /// before, or those that were pending where no unit is handed over.
    pub open spec fn cells_at_hand(self, data: Option<RaytracingWork>) -> Seq<(int, int)> {
        match data {
            Some(unit) => unit.remaining(),
            None => self.pending(),
        }
    }

    /// One step of work: takes the next cell of the unit at hand, has its
    /// value computed and hands both back.
    ///
    /// With a new unit the worker drops what it held and goes on with the
    /// new unit. Without one it goes on with the unit it holds. Where no
    /// cell is left, or no unit is held, there is no result and the state is
    /// `Finished`. With the last cell of a unit the state is `Finished`
    /// too, and the worker holds no unit afterwards.
    pub fn execute<C: CellEvaluator>(&mut self, data: Option<RaytracingWork>, context: &C) -> (step:
        (Option<RaytracingResult<C::Value>>, TaskState))
        requires
            old(self).wf(),
            data matches Some(unit) ==> unit.wf(),
        ensures
            final(self).wf(),
            old(self).cells_at_hand(data).len() == 0 ==> step.0 is None && step.1
                == TaskState::Finished,
            old(self).cells_at_hand(data).len() > 0 ==> step.0 is Some && (
                step.0->0.x as int,
                step.0->0.y as int,
            ) == old(self).cells_at_hand(data)[0] && final(self).pending() == old(
                self,
            ).cells_at_hand(data).skip(1),
            step.1 == if old(self).cells_at_hand(data).len() <= 1 {
                TaskState::Finished
            } else {
                TaskState::Continue
            },
            step.1 == TaskState::Finished ==> final(self).current_task_state is None,
            step.1 == TaskState::Continue ==> final(self).current_task_state is Some,
    {
        match data {
            Some(data) => {
                self.current_task_state = Some(RaytracingWorkerTaskState { data });
            },
            None => {},
        }
        let mut cell: Option<(u32, u32)> = None;
        let mut exhausted: bool = true;
        match &mut self.current_task_state {
            None => {},
            Some(state) => {
                cell = state.data.get_next_work_pixel();
                exhausted = state.data.is_exhausted();
            },
        }
        match cell {
            None => {
                self.current_task_state = None;
                (None, TaskState::Finished)
            },
            Some((x, y)) => {
                let pixel_color = context.evaluate_cell(x, y);
                let result = RaytracingResult { x, y, pixel_color };
                if exhausted {
                    self.current_task_state = None;
                    (Some(result), TaskState::Finished)
                } else {
                    (Some(result), TaskState::Continue)
                }
            },
        }
    }

    /// Works a whole unit off, step by step, and hands each result to the
    /// pool as soon as it is there: one result for each cell of the unit, in
    /// the order of the cells. Gives `false` where the pool took a result no
    /// more: the worker is then to end, and holds what is left of the unit.
    /// A unit without cells is done at once.
    pub fn work_off<C: CellEvaluator + WorkContext>(
        &mut self,
        unit: RaytracingWork,
        link: &mut WorkerLink<C, RaytracingWork, RaytracingResult<C::Value>>,
    ) -> (alive: bool) where C::Value: 'static + Send
        requires
            unit.wf(),
        ensures
            final(self).wf(),
            final(link).shared() == old(link).shared(),
            alive ==> final(self).current_task_state is None,
            unit.remaining().len() == 0 ==> alive,
            exists|done: int|
                {
                    &&& 0 <= done <= unit.remaining().len()
                    &&& alive ==> done == unit.remaining().len()
                    &&& !alive ==> done > 0
                    &&& final(self).pending() == #[trigger] unit.remaining().skip(done)
                    &&& final(link).handed().len() == old(link).handed().len() + done
                    &&& final(link).handed().take(old(link).handed().len() as int) == old(
                        link,
                    ).handed()
                    &&& result_cells(final(link).handed()) == result_cells(old(link).handed())
                        + unit.remaining().take(done)
                    &&& final(link).taken() == old(link).taken() + if alive {
                        done
                    } else {
                        done - 1
                    }
                },
    {
        self.current_task_state = None;
        let ghost cells = unit.remaining();
        let ghost before = link.handed();
        let (result, state) = self.execute(Some(unit), link.context());
        let mut result = result;
        let mut state = state;
        let ghost mut done: int = if cells.len() == 0 {
            0
        } else {
            1
        };
        proof {
            assert(cells.skip(cells.len() as int) == Seq::<(int, int)>::empty());
            assert(cells.take(0) == Seq::<(int, int)>::empty());
            assert(before.take(before.len() as int) == before);
            assert(result_cells(before) + Seq::<(int, int)>::empty() == result_cells(before));
            if cells.len() == 0 {
                assert(cells.skip(0) == cells);
            }
        }
        loop
            invariant
                self.wf(),
                cells == unit.remaining(),
                before == old(link).handed(),
                link.shared() == old(link).shared(),
                0 <= done <= cells.len(),
                cells.len() > 0 ==> done > 0,
                self.pending() == cells.skip(done),
                cells.len() == 0 ==> result is None && state == TaskState::Finished,
                cells.len() > 0 ==> result is Some,
                result matches Some(found) ==> (found.x as int, found.y as int) == cells[done - 1],
                link.handed().len() == before.len() + done - if result is Some {
                    1int
                } else {
                    0int
                },
                link.handed().take(before.len() as int) == before,
                result_cells(link.handed()) == result_cells(before) + cells.take(
                    done - if result is Some {
                        1int
                    } else {
                        0int
                    },
                ),
                link.taken() == old(link).taken() + done - if result is Some {
                    1int
                } else {
                    0int
                },
                state == TaskState::Finished ==> self.current_task_state is None,
                state == TaskState::Continue ==> self.pending().len() > 0,
            decreases
                    self.pending().len() + if state == TaskState::Continue {
                        1int
                    } else {
                        0int
                    },
        {
            let ghost handed = link.handed();
            let sent = match result {
                Some(found) => {
                    let sent = link.send_result(found);
                    proof {
                        assert(link.handed().take(before.len() as int) == handed.take(
                            before.len() as int,
                        ));
                        assert(result_cells(link.handed()) == result_cells(handed).push(
                            cells[done - 1],
                        ));
                        assert(cells.take(done) == cells.take(done - 1).push(cells[done - 1]));
                        assert(result_cells(before) + cells.take(done - 1).push(cells[done - 1])
                            == (result_cells(before) + cells.take(done - 1)).push(
                            cells[done - 1],
                        ));
                    }
                    sent
                },
                None => true,
            };
            match course_after(sent, state) {
                WorkerCourse::PoolGone => {
                    return false;
                },
                WorkerCourse::UnitDone => {
                    return true;
                },
                WorkerCourse::GoOn => {
                    proof {
                        assert(cells.skip(done).skip(1) == cells.skip(done + 1));
                        done = done + 1;
                    }
                    let step = self.execute(None, link.context());
                    result = step.0;
                    state = step.1;
                },
            }
        }
    }
}

} // verus!
