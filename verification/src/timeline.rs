//! The history of a simulation as mathematics: checkpoints, and what moving
//! along them does.

use crate::protocol::{ModelView, Sim};
use crate::util::{bisect, RandomView};
use vstd::prelude::*;

verus! {

/// A simulation with its history.
#[verifier::ext_equal]
pub ghost struct StateView {
    pub current: ModelView,
    pub checkpoints: Seq<ModelView>,
    pub max_time: u64,
    pub initial: ModelView,
}

impl ModelView {
    /// The cluster with its clock set to `time`.
    pub open spec fn at_time(self, time: u64) -> ModelView {
        ModelView { time, ..self }
    }
}

/// Position of the checkpoint that bisection finds for `time`: in a history
/// that is in order, the latest at or before `time`.
pub open spec fn checkpoint_at(checkpoints: Seq<ModelView>, time: u64) -> int {
    let i = bisect(|i: int| checkpoints[i].time > time, 0, checkpoints.len() - 1);
    if i < 0 {
        0
    } else {
        i
    }
}

impl StateView {
    /// A simulation at its beginning, without a history.
    pub open spec fn fresh(initial: ModelView) -> StateView {
        StateView {
            current: initial.at_time(0),
            checkpoints: Seq::empty(),
            max_time: 0,
            initial: initial.at_time(0),
        }
    }

    /// Position of the checkpoint for `time`.
    pub open spec fn prev(self, time: u64) -> int {
        checkpoint_at(self.checkpoints, time)
    }

    /// The checkpoint that the present belongs to.
    pub open spec fn base(self) -> ModelView {
        self.checkpoints[self.prev(self.current.time)]
    }

    /// The present has been made a checkpoint.
    pub open spec fn saved(self) -> StateView {
        StateView { checkpoints: self.checkpoints.push(self.current), ..self }
    }

    /// The future has been discarded.
    pub open spec fn forked(self) -> StateView {
        let n = self.prev(self.current.time) + 1;
        StateView {
            checkpoints: if n < self.checkpoints.len() {
                self.checkpoints.take(n)
            } else {
                self.checkpoints
            },
            max_time: self.current.time,
            ..self
        }
    }

    /// The present is what it was at `time`.
    pub open spec fn rewound(self, time: u64) -> StateView {
        StateView { current: self.checkpoints[self.prev(time)].at_time(time), ..self }
    }

    /// The cluster one tick later, at `time`.
    pub open spec fn ticked(self, time: u64, rng: RandomView) -> Sim {
        Sim { model: self.current.at_time(time), rng }.updated()
    }

    /// The simulation has moved on to `time`; where that changed the cluster,
    /// it is a new checkpoint.
    pub open spec fn advanced(self, time: u64, rng: RandomView) -> StateView {
        let moved = StateView {
            current: self.ticked(time, rng).model,
            max_time: time,
            ..self
        };
        let base = moved.base();
        if moved.current.at_time(base.time) == base {
            moved
        } else {
            moved.saved()
        }
    }

    /// The present is at `time`: a time that was reached before is gone back
    /// to, one that was not is moved on to.
    pub open spec fn sought(self, time: u64, rng: RandomView) -> StateView {
        if time <= self.max_time {
            self.rewound(time)
        } else {
            self.advanced(time, rng)
        }
    }

    /// What is left of the source of chance after [`StateView::sought`].
    pub open spec fn rng_after(self, time: u64, rng: RandomView) -> RandomView {
        if time <= self.max_time {
            rng
        } else {
            self.ticked(time, rng).rng
        }
    }

    /// The history has been replaced; the present is its last checkpoint, or a
    /// cluster without servers if there is none.
    pub open spec fn imported(self, checkpoints: Seq<ModelView>, max_time: u64) -> StateView {
        StateView {
            current: if checkpoints.len() > 0 {
                checkpoints.last()
            } else {
                ModelView { time: 0, servers: Seq::empty(), messages: Seq::empty() }
            },
            checkpoints,
            max_time,
            ..self
        }
    }

    /// The history has been forgotten; the present is where it all began.
    pub open spec fn cleared(self) -> StateView {
        StateView {
            current: self.initial.at_time(0),
            checkpoints: Seq::empty(),
            max_time: 0,
            ..self
        }
    }
}

impl StateView {
    /// It is possible to go to `time`.
    pub open spec fn reaches(self, time: u64, rng: RandomView) -> bool {
        &&& self.checkpoints.len() > 0
        &&& time > self.max_time ==> Sim { model: self.current.at_time(time), rng }.can_update()
    }
}

} // verus!
