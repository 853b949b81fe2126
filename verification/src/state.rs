//! Time-travel layer over a [`Model`]. Wraps the model in a checkpoint history
//! so the timeline slider can scrub backward (`rewind`) and forward
//! (`advance`/`seek`). `fork` discards the future from the current point.

use crate::protocol::{ModelView, Sim};
use crate::raft::{same_messages, same_servers, Model};
use crate::timeline::StateView;
use crate::util::{at, bisect, decides, lemma_bisect, lower_count, RandomSource};
use vstd::prelude::*;

verus! {

/// A history that can be stored away.
pub struct Export {
    pub checkpoints: Vec<Model>,
    pub max_time: u64,
}

/// A simulation with its history.
pub struct State {
    pub current: Model,
    pub checkpoints: Vec<Model>,
    pub max_time: u64,
    pub initial: Model,
}

/// Models, seen mathematically.
pub open spec fn model_views(models: Seq<Model>) -> Seq<ModelView> {
    models.map_values(|m: Model| m@)
}

impl View for State {
    type V = StateView;

    open spec fn view(&self) -> StateView {
        StateView {
            current: self.current@,
            checkpoints: model_views(self.checkpoints@),
            max_time: self.max_time,
            initial: self.initial@,
        }
    }
}

fn copy_models(models: &Vec<Model>) -> (r: Vec<Model>)
    ensures
        model_views(r@) == model_views(models@),
{
    let mut r: Vec<Model> = Vec::new();
    let mut i: usize = 0;
    while i < models.len()
        invariant
            i <= models@.len(),
            model_views(r@) == model_views(models@).take(i as int),
        decreases models.len() - i,
    {
        let m = models[i].clone();
        let ghost before = model_views(r@);
        r.push(m);
        assert(model_views(r@) =~= before.push(m@));
        i += 1;
        assert(model_views(r@) =~= model_views(models@).take(i as int));
    }
    assert(model_views(r@) =~= model_views(models@));
    r
}

impl State {
    /// A simulation at its beginning, without a history.
    pub fn new(initial: Model) -> (state: State)
        ensures
            state@ == StateView::fresh(initial@),
    {
        let mut initial = initial;
        initial.time = 0;
        let state = State {
            current: initial.clone(),
            checkpoints: Vec::new(),
            max_time: 0,
            initial,
        };
        assert(model_views(state.checkpoints@) =~= Seq::empty());
        state
    }

    /// The latest time that was reached.
    pub fn get_max_time(&self) -> (t: u64)
        ensures
            t == self@.max_time,
    {
        self.max_time
    }

    /// Index of the latest checkpoint at or before `time`.
    pub fn prev(&self, time: u64) -> (i: usize)
        ensures
            i == self@.prev(time),
            self.checkpoints@.len() > 0 ==> i < self.checkpoints@.len(),
    {
        let ghost views = self@.checkpoints;
        let later = |m: &Model| -> (b: bool)
            ensures
                b == (m.time > time),
            { m.time > time };
        let n: usize = lower_count(&self.checkpoints, later);
        proof {
            let g = |m: Model| m.time > time;
            assert(decides(later, g));
            let greater = |i: int| views[i].time > time;
            lemma_same_bisect(at(self.checkpoints@, g), greater, 0, views.len() - 1);
            lemma_bisect(greater, 0, views.len() - 1);
        }
        if n == 0 {
            0
        } else {
            n - 1
        }
    }

    /// The checkpoint that the present belongs to.
    pub fn base(&self) -> (m: &Model)
        requires
            self.checkpoints@.len() > 0,
        ensures
            m@ == self@.base(),
    {
        let i: usize = self.prev(self.current.time);
        assert(self@.checkpoints[i as int] == self.checkpoints@[i as int]@);
        &self.checkpoints[i]
    }

    /// Makes the present the first checkpoint.
    pub fn init(&mut self)
        ensures
            final(self)@ == old(self)@.saved(),
    {
        self.save();
    }

    /// Discards the future.
    pub fn fork(&mut self)
        ensures
            final(self)@ == old(self)@.forked(),
    {
        let ghost before = self@.checkpoints;
        let i: usize = self.prev(self.current.time);
        if self.checkpoints.len() > 0 && i + 1 < self.checkpoints.len() {
            self.checkpoints.truncate(i + 1);
            assert(self@.checkpoints =~= before.take(i + 1));
        }
        self.max_time = self.current.time;
    }

    /// Goes back to `time`.
    pub fn rewind(&mut self, time: u64)
        requires
            old(self).checkpoints@.len() > 0,
        ensures
            final(self)@ == old(self)@.rewound(time),
    {
        let i: usize = self.prev(time);
        assert(self@.checkpoints[i as int] == self.checkpoints@[i as int]@);
        self.current = self.checkpoints[i].clone();
        self.current.time = time;
    }

    /// Makes the present a checkpoint.
    pub fn save(&mut self)
        ensures
            final(self)@ == old(self)@.saved(),
    {
        let copy = self.current.clone();
        let ghost before = self@.checkpoints;
        self.checkpoints.push(copy);
        assert(self@.checkpoints =~= before.push(copy@));
    }

    /// Moves on to `time`.
    pub fn advance(&mut self, time: u64, rng: &mut RandomSource)
        requires
            old(self).checkpoints@.len() > 0,
            (Sim { model: old(self)@.current.at_time(time), rng: old(rng)@ }).can_update(),
        ensures
            final(self)@ == old(self)@.advanced(time, old(rng)@),
            final(rng)@ == old(self)@.ticked(time, old(rng)@).rng,
    {
        self.max_time = time;
        self.current.time = time;
        if self.run_update(rng) {
            self.save();
        }
    }

    /// Ticks the model, then reports whether it changed enough (ignoring
    /// `time`) to warrant a new checkpoint.
    fn run_update(&mut self, rng: &mut RandomSource) -> (changed: bool)
        requires
            old(self).checkpoints@.len() > 0,
            old(self).current.sim(old(rng)).can_update(),
        ensures
            final(self).current.sim(final(rng)) == old(self).current.sim(old(rng)).updated(),
            final(self).checkpoints == old(self).checkpoints,
            final(self).max_time == old(self).max_time,
            final(self).initial == old(self).initial,
            changed == (final(self)@.current.at_time(final(self)@.base().time)
                != final(self)@.base()),
    {
        self.current.update(rng);
        let i: usize = self.prev(self.current.time);
        assert(self@.checkpoints[i as int] == self.checkpoints@[i as int]@);
        let base = &self.checkpoints[i];
        !(same_servers(&self.current.servers, &base.servers) && same_messages(
            &self.current.messages,
            &base.messages,
        ))
    }

    /// Goes to `time`, back or on.
    pub fn seek(&mut self, time: u64, rng: &mut RandomSource)
        requires
            old(self)@.reaches(time, old(rng)@),
        ensures
            final(self)@ == old(self)@.sought(time, old(rng)@),
            final(rng)@ == old(self)@.rng_after(time, old(rng)@),
    {
        if time <= self.max_time {
            self.rewind(time);
        } else {
            self.advance(time, rng);
        }
    }

    /// The history, to be stored away.
    pub fn export(&self) -> (e: Export)
        ensures
            model_views(e.checkpoints@) == self@.checkpoints,
            e.max_time == self@.max_time,
    {
        Export { checkpoints: copy_models(&self.checkpoints), max_time: self.max_time }
    }

    /// Takes up a history that was stored away, and goes to its last
    /// checkpoint; where it has none, to a cluster without servers.
    pub fn import(&mut self, e: Export)
        ensures
            final(self)@ == old(self)@.imported(model_views(e.checkpoints@), e.max_time),
    {
        let n: usize = e.checkpoints.len();
        self.current = if n > 0 {
            assert(model_views(e.checkpoints@)[n - 1] == e.checkpoints@[n - 1]@);
            e.checkpoints[n - 1].clone()
        } else {
            Model::new()
        };
        self.checkpoints = e.checkpoints;
        self.max_time = e.max_time;
    }

    /// Forgets the history and goes back to where it all began.
    pub fn clear(&mut self)
        ensures
            final(self)@ == old(self)@.cleared(),
    {
        self.checkpoints.clear();
        assert(model_views(self.checkpoints@) =~= Seq::empty());
        self.current = self.initial.clone();
        self.current.time = 0;
        self.max_time = 0;
    }
}

/// Bisection that is given the same answers ends at the same place.
proof fn lemma_same_bisect(f: spec_fn(int) -> bool, g: spec_fn(int) -> bool, low: int, high: int)
    requires
        forall|i: int| low <= i <= high ==> #[trigger] f(i) == #[trigger] g(i),
    ensures
        bisect(f, low, high) == bisect(g, low, high),
    decreases high - low + 1,
{
    if low <= high {
        let mid = (low + high) / 2;
        assert(f(mid) == g(mid));
        if f(mid) {
            lemma_same_bisect(f, g, low, mid - 1);
        } else {
            lemma_same_bisect(f, g, mid + 1, high);
        }
    }
}

} // verus!
