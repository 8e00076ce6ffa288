use vstd::prelude::*;

use crate::outcome::Outcome;

verus! {

/// The best leaf found so far: its depth and the outcome of reading its
/// working directory, or nothing before the first terminal-attached
/// descendant has been considered.
pub type Best = Option<(usize, Outcome)>;

/// Depth of the best leaf; 0 when there is none yet.
pub open spec fn depth_of(best: Best) -> usize {
    match best {
        Some((d, _)) => d,
        None => 0,
    }
}

/// Whether the best leaf holds a working directory that was read.
pub open spec fn holds_success(best: Best) -> bool {
    match best {
        Some((_, o)) => o is Ok,
        None => false,
    }
}

/// The outcome that the best leaf stands for, if any.
pub open spec fn outcome_of(best: Best) -> Option<Outcome> {
    match best {
        Some((_, o)) => Some(o),
        None => None,
    }
}

/// The replacement policy. A node no deeper than the best leaf changes
/// nothing. A strictly deeper one takes the place when its directory was read,
/// or when the best leaf holds a failure (or there is none): a deeper failure
/// claims the depth, while a shallower success is kept against it.
pub open spec fn considered(best: Best, depth: usize, outcome: Outcome) -> Best {
    if depth > depth_of(best) && (outcome is Ok || !holds_success(best)) {
        Some((depth, outcome))
    } else {
        best
    }
}

/// Keeps the deepest leaf seen so far during one walk.
pub struct CandidateTracker {
    best: Best,
}

impl View for CandidateTracker {
    type V = Best;

    closed spec fn view(&self) -> Best {
        self.best
    }
}

impl CandidateTracker {
    /// A tracker that has seen no leaf.
    pub fn new() -> (r: CandidateTracker)
        ensures
            r@ == None::<(usize, Outcome)>,
    {
        CandidateTracker { best: None }
    }

    /// Depth of the best leaf, 0 before there is one.
    pub fn max_depth(&self) -> (r: usize)
        ensures
            r == depth_of(self@),
    {
        match &self.best {
            Some((d, _)) => *d,
            None => 0,
        }
    }

    /// Whether a node at `depth` could change the best leaf, that is whether
    /// its working directory is worth reading.
    pub fn wants(&self, depth: usize) -> (r: bool)
        ensures
            r == (depth > depth_of(self@)),
    {
        depth > self.max_depth()
    }

    /// Offers a node at `depth` whose working directory read gave `outcome`.
    pub fn consider(&mut self, depth: usize, outcome: Outcome)
        ensures
            final(self)@ == considered(old(self)@, depth, outcome),
    {
        if depth <= self.max_depth() {
            return;
        }
        let best_is_ok = match &self.best {
            Some((_, o)) => o.is_ok(),
            None => false,
        };
        if outcome.is_ok() || !best_is_ok {
            self.best = Some((depth, outcome));
        }
    }

    /// Hands out the best leaf's outcome and leaves the tracker empty.
    pub fn take(&mut self) -> (r: Option<Outcome>)
        ensures
            r == outcome_of(old(self)@),
            final(self)@ == None::<(usize, Outcome)>,
    {
        match self.best.take() {
            Some((_, o)) => Some(o),
            None => None,
        }
    }

    /// The best leaf's outcome, if any leaf was found.
    pub fn finalize(self) -> (r: Option<Outcome>)
        ensures
            r == outcome_of(self@),
    {
        match self.best {
            Some((_, o)) => Some(o),
            None => None,
        }
    }
}

} // verus!
