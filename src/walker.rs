use vstd::prelude::*;

use crate::candidate::{considered, depth_of, Best, CandidateTracker};
use crate::outcome::{Failure, Outcome};

verus! {

/// What the walk needs to know next. The caller reads it from the live
/// system and hands it back as the matching [`Reply`].
#[derive(Clone, Copy, Debug, PartialEq, Eq, Structural)]
pub enum Request {
    /// Open the start process (answer: [`Reply::Opened`]).
    Open(u32),
    /// List the threads of the process and, for each, its direct children
    /// (answer: [`Reply::Children`]).

    Children(u32),
    /// Read the device number of the process's controlling terminal
    /// (answer: [`Reply::Terminal`]).
    Terminal(u32),
    /// Read the working directory of the process (answer: [`Reply::Cwd`]).
    Cwd(u32),
    /// The walk is over: [`Walker::into_outcome`] gives its result.
    Finished,
}

/// The children of a process as read thread by thread: a failure to list the
/// threads, or for each thread its children or the failure to read them.
pub type ThreadChildren = Result<Vec<Result<Vec<u32>, Failure>>, Failure>;

/// An answer to a [`Request`].
pub enum Reply {
    /// Whether the start process could be opened.
    Opened(Result<(), Failure>),
    /// The children of the process, thread by thread.
    Children(ThreadChildren),
    /// The controlling terminal's device number; 0 means none.
    Terminal(Result<i32, Failure>),
    /// The working directory of the process.
    Cwd(Outcome),
}

/// Whether a terminal read shows a controlling terminal. A failed read counts
/// as none, so the process is pruned.
pub open spec fn is_attached(tty: Result<i32, Failure>) -> bool {
    match tty {
        Ok(n) => n != 0,
        Err(_) => false,
    }
}

/// The children over all threads, in thread order; a thread whose children
/// could not be read adds none.
pub open spec fn gathered(threads: Seq<Result<Vec<u32>, Failure>>) -> Seq<u32>
    decreases threads.len(),
{
    if threads.len() == 0 {
        Seq::empty()
    } else {
        gathered(threads.drop_last()) + match threads.last() {
            Ok(v) => v@,
            Err(_) => Seq::empty(),
        }
    }
}

/// Whether the children of every thread could be read.
pub open spec fn all_listed(threads: Seq<Result<Vec<u32>, Failure>>) -> bool {
    forall|i: int| 0 <= i < threads.len() ==> (#[trigger] threads[i]) is Ok
}

/// Whether the children of every thread could be read. For the start process
/// anything less is fatal: the walk falls back to its own working directory.
pub fn fully_listed(threads: &Vec<Result<Vec<u32>, Failure>>) -> (r: bool)
    ensures
        r == all_listed(threads@),
{
    let mut i: usize = 0;
    while i < threads.len()
        invariant
            i <= threads@.len(),
            forall|j: int| 0 <= j < i ==> (#[trigger] threads@[j]) is Ok,
        decreases threads@.len() - i,
    {
        if threads[i].is_err() {
            return false;
        }
        i = i + 1;
    }
    true
}

/// The children that a listing gives, or `None` when the threads themselves
/// could not be listed.
pub open spec fn children_of(r: ThreadChildren) -> Option<Seq<u32>> {
    match r {
        Ok(threads) => Some(gathered(threads@)),
        Err(_) => None,
    }
}

/// Whether the terminal read `tty` shows a controlling terminal.
pub fn attached(tty: Result<i32, Failure>) -> (r: bool)
    ensures
        r == is_attached(tty),
{
    match tty {
        Ok(n) => n != 0,
        Err(_) => false,
    }
}

/// The union of the children of all threads, failures skipped.
pub fn gather(threads: &Vec<Result<Vec<u32>, Failure>>) -> (r: Vec<u32>)
    ensures
        r@ == gathered(threads@),
{
    let mut out: Vec<u32> = Vec::new();
    let mut i: usize = 0;
    while i < threads.len()
        invariant
            i <= threads@.len(),
            out@ == gathered(threads@.subrange(0, i as int)),
        decreases threads@.len() - i,
    {
        let ghost before = out@;
        assert(threads@.subrange(0, i + 1).drop_last() =~= threads@.subrange(0, i as int));
        match &threads[i] {
            Ok(v) => {
                let mut j: usize = 0;
                while j < v.len()
                    invariant
                        j <= v@.len(),
                        out@ =~= before + v@.subrange(0, j as int),
                    decreases v@.len() - j,
                {
                    out.push(v[j]);
                    j = j + 1;
                }
                assert(v@.subrange(0, v@.len() as int) =~= v@);
            },
            Err(_) => {
                assert(out@ =~= before + Seq::<u32>::empty());
            },
        }
        i = i + 1;
    }
    assert(threads@.subrange(0, threads@.len() as int) =~= threads@);
    out
}

/// Where the walk stands: which question is open, about which process and at
/// which depth.
pub enum Phase {
    /// Opening the start process.
    Open,
    /// Listing the start process's children.
    RootChildren,
    /// Reading the terminal of a process popped from the frontier at a depth.
    Terminal(usize, u32),
    /// Listing the children of a terminal-attached process at a depth.
    Children(usize, u32),
    /// Reading the working directory of a process deeper than the best leaf.
    Cwd(usize, u32),
    /// Reading the start process's own working directory, the fallback.
    RootCwd,
    /// Finished with this result.
    Done(Outcome),
}

/// The state of a walk as a value: the start process, the open question, the
/// frontier of (depth, pid) entries still to visit (the last one is visited
/// first) and the best leaf so far.
pub struct WalkState {
    pub root: u32,
    pub phase: Phase,
    pub frontier: Seq<(usize, u32)>,
    pub best: Best,
}

/// The state in which a walk from `root` begins.
pub open spec fn initial(root: u32) -> WalkState {
    WalkState { root, phase: Phase::Open, frontier: Seq::empty(), best: None }
}

/// The question that a walk in state `s` asks.
pub open spec fn request_of(s: WalkState) -> Request {
    match s.phase {
        Phase::Open => Request::Open(s.root),
        Phase::RootChildren => Request::Children(s.root),
        Phase::Terminal(_, p) => Request::Terminal(p),
        Phase::Children(_, p) => Request::Children(p),
        Phase::Cwd(_, p) => Request::Cwd(p),
        Phase::RootCwd => Request::Cwd(s.root),
        Phase::Done(_) => Request::Finished,
    }
}

/// `frontier` with an entry at `depth` for each of `kids`, in order.
pub open spec fn pushed(frontier: Seq<(usize, u32)>, depth: usize, kids: Seq<u32>) -> Seq<(usize, u32)> {
    frontier + Seq::new(kids.len(), |i: int| (depth, kids[i]))
}

/// Moves on to the next entry of the frontier; with none left the walk ends
/// with the best leaf's outcome, or, without one, asks for the start
/// process's own working directory.
pub open spec fn advanced(root: u32, frontier: Seq<(usize, u32)>, best: Best) -> WalkState {
    if frontier.len() > 0 {
        WalkState {
            root,
            phase: Phase::Terminal(frontier.last().0, frontier.last().1),
            frontier: frontier.drop_last(),
            best,
        }
    } else {
        match best {
            Some((_, o)) => WalkState { root, phase: Phase::Done(o), frontier, best: None },
            None => WalkState { root, phase: Phase::RootCwd, frontier, best },
        }
    }
}

/// The frontier after the children listing `kids` of a node at `depth`: a
/// failed listing adds nothing, and neither does a node at the largest depth
/// that `usize` holds.
pub open spec fn expanded(frontier: Seq<(usize, u32)>, depth: usize, kids: Option<Seq<u32>>) -> Seq<(usize, u32)> {
    match kids {
        Some(v) => if depth < usize::MAX {
            pushed(frontier, (depth + 1) as usize, v)
        } else {
            frontier
        },
        None => frontier,
    }
}

/// One move of the walk: state `s` answered with `reply`. A reply that does
/// not answer the open question changes nothing.
pub open spec fn step(s: WalkState, reply: Reply) -> WalkState {
    match s.phase {
        Phase::Open => match reply {
            Reply::Opened(Ok(_)) => WalkState { phase: Phase::RootChildren, ..s },
            Reply::Opened(Err(e)) => WalkState { phase: Phase::Done(Err(e)), ..s },
            _ => s,
        },
        Phase::RootChildren => match reply {
            Reply::Children(Ok(v)) => if all_listed(v@) {
                advanced(s.root, pushed(s.frontier, 1, gathered(v@)), s.best)
            } else {
                WalkState { phase: Phase::RootCwd, ..s }
            },
            Reply::Children(Err(_)) => WalkState { phase: Phase::RootCwd, ..s },
            _ => s,
        },
        Phase::Terminal(d, p) => match reply {
            Reply::Terminal(tty) => if is_attached(tty) {
                WalkState { phase: Phase::Children(d, p), ..s }
            } else {
                advanced(s.root, s.frontier, s.best)
            },
            _ => s,
        },
        Phase::Children(d, p) => match reply {
            Reply::Children(r) => if d > depth_of(s.best) {
                WalkState { phase: Phase::Cwd(d, p), frontier: expanded(s.frontier, d, children_of(r)), ..s }
            } else {
                advanced(s.root, expanded(s.frontier, d, children_of(r)), s.best)
            },
            _ => s,
        },
        Phase::Cwd(d, _) => match reply {
            Reply::Cwd(o) => advanced(s.root, s.frontier, considered(s.best, d, o)),
            _ => s,
        },
        Phase::RootCwd => match reply {
            Reply::Cwd(o) => WalkState { phase: Phase::Done(o), ..s },
            _ => s,
        },
        Phase::Done(_) => s,
    }
}

/// The result of a finished walk.
pub open spec fn result_of(s: WalkState) -> Option<Outcome> {
    match s.phase {
        Phase::Done(o) => Some(o),
        _ => None,
    }
}

/// A walk of the process tree below one start process, driven by its caller.
///
/// The caller asks [`Walker::request`] what to read, reads it and hands it to
/// [`Walker::answer`], until the request is [`Request::Finished`].
pub struct Walker {
    root: u32,
    phase: Phase,
    frontier: Vec<(usize, u32)>,
    tracker: CandidateTracker,
}

impl View for Walker {
    type V = WalkState;

    closed spec fn view(&self) -> WalkState {
        WalkState { root: self.root, phase: self.phase, frontier: self.frontier@, best: self.tracker@ }
    }
}

impl Walker {
    /// A walk that starts at process `root`.
    pub fn new(root: u32) -> (r: Walker)
        ensures
            r@ == initial(root),
    {
        let w = Walker { root, phase: Phase::Open, frontier: Vec::new(), tracker: CandidateTracker::new() };
        assert(w@.frontier =~= Seq::<(usize, u32)>::empty());
        w
    }

    /// The question that is open.
    pub fn request(&self) -> (r: Request)
        ensures
            r == request_of(self@),
    {
        match &self.phase {
            Phase::Open => Request::Open(self.root),
            Phase::RootChildren => Request::Children(self.root),
            Phase::Terminal(_, p) => Request::Terminal(*p),
            Phase::Children(_, p) => Request::Children(*p),
            Phase::Cwd(_, p) => Request::Cwd(*p),
            Phase::RootCwd => Request::Cwd(self.root),
            Phase::Done(_) => Request::Finished,
        }
    }

    fn push_children(&mut self, depth: usize, kids: Vec<u32>)
        ensures
            final(self)@ == (WalkState { frontier: pushed(old(self)@.frontier, depth, kids@), ..old(self)@ }),
    {
        let ghost start = self.frontier@;
        let mut i: usize = 0;
        while i < kids.len()
            invariant
                i <= kids@.len(),
                self.root == old(self).root,
                self.phase == old(self).phase,
                self.tracker@ == old(self).tracker@,
                self.frontier@ =~= start + Seq::new(i as nat, |j: int| (depth, kids@[j])),
            decreases kids@.len() - i,
        {
            self.frontier.push((depth, kids[i]));
            i = i + 1;
        }
        assert(self@.frontier =~= pushed(start, depth, kids@));
    }

    fn advance(&mut self)
        ensures
            final(self)@ == advanced(old(self)@.root, old(self)@.frontier, old(self)@.best),
    {
        match self.frontier.pop() {
            Some((d, p)) => {
                self.phase = Phase::Terminal(d, p);
            },
            None => {
                match self.tracker.take() {
                    Some(o) => {
                        self.phase = Phase::Done(o);
                    },
                    None => {
                        self.phase = Phase::RootCwd;
                    },
                }
            },
        }
    }

    fn expand(&mut self, depth: usize, kids: ThreadChildren)
        ensures
            final(self)@ == (WalkState { frontier: expanded(old(self)@.frontier, depth, children_of(kids)), ..old(self)@ }),
    {
        match kids {
            Ok(threads) => {
                if depth < usize::MAX {
                    self.push_children(depth + 1, gather(&threads));
                }
            },
            Err(_) => {},
        }
    }

    /// Hands in the answer to the open question and moves the walk on.
    pub fn answer(&mut self, reply: Reply)
        ensures
            final(self)@ == step(old(self)@, reply),
    {
        match self.phase {
            Phase::Open => match reply {
                Reply::Opened(Ok(_)) => {
                    self.phase = Phase::RootChildren;
                },
                Reply::Opened(Err(e)) => {
                    self.phase = Phase::Done(Err(e));
                },
                _ => {},
            },
            Phase::RootChildren => match reply {
                Reply::Children(Ok(threads)) => {
                    if fully_listed(&threads) {
                        self.push_children(1, gather(&threads));
                        self.advance();
                    } else {
                        self.phase = Phase::RootCwd;
                    }
                },
                Reply::Children(Err(_)) => {
                    self.phase = Phase::RootCwd;
                },
                _ => {},
            },
            Phase::Terminal(d, p) => match reply {
                Reply::Terminal(tty) => {
                    if attached(tty) {
                        self.phase = Phase::Children(d, p);
                    } else {
                        self.advance();
                    }
                },
                _ => {},
            },
            Phase::Children(d, p) => match reply {
                Reply::Children(r) => {
                    let wanted = self.tracker.wants(d);
                    self.expand(d, r);
                    if wanted {
                        self.phase = Phase::Cwd(d, p);
                    } else {
                        self.advance();
                    }
                },
                _ => {},
            },
            Phase::Cwd(d, _) => match reply {
                Reply::Cwd(o) => {
                    self.tracker.consider(d, o);
                    self.advance();
                },
                _ => {},
            },
            Phase::RootCwd => match reply {
                Reply::Cwd(o) => {
                    self.phase = Phase::Done(o);
                },
                _ => {},
            },
            Phase::Done(_) => {},
        }
    }

    /// The result of the walk once it is finished.
    pub fn into_outcome(self) -> (r: Option<Outcome>)
        ensures
            r == result_of(self@),
    {
        match self.phase {
            Phase::Done(o) => Some(o),
            _ => None,
        }
    }
}

} // verus!
