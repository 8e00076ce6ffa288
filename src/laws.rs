use vstd::prelude::*;

use crate::candidate::{considered, depth_of, Best};
use crate::outcome::{Failure, Outcome};
use crate::walker::{
    advanced, all_listed, children_of, initial, is_attached, request_of, result_of, step, Phase, Reply, Request, ThreadChildren,
    WalkState,
};

verus! {

/// What is known of one process in a fixed snapshot of the process table.
pub struct ProcInfo {
    pub tty: Result<i32, Failure>,
    pub cwd: Outcome,
    pub children: ThreadChildren,
}

/// A process table that does not change while it is walked: a process is
/// there exactly when its pid is a key.
pub type ProcTable = Map<u32, ProcInfo>;

/// How an unchanging table answers a request; a process that is not in it
/// reads as not found.
pub open spec fn reply_from(t: ProcTable, req: Request) -> Reply {
    match req {
        Request::Open(p) => if t.contains_key(p) {
            Reply::Opened(Ok(()))
        } else {
            Reply::Opened(Err(Failure::NotFound))
        },
        Request::Children(p) => if t.contains_key(p) {
            Reply::Children(t[p].children)
        } else {
            Reply::Children(Err(Failure::NotFound))
        },
        Request::Terminal(p) => if t.contains_key(p) {
            Reply::Terminal(t[p].tty)
        } else {
            Reply::Terminal(Err(Failure::NotFound))
        },
        Request::Cwd(p) => if t.contains_key(p) {
            Reply::Cwd(t[p].cwd)
        } else {
            Reply::Cwd(Err(Failure::NotFound))
        },
        Request::Finished => Reply::Opened(Ok(())),
    }
}

/// The walk from state `s` after `n` questions answered by table `t`.
pub open spec fn walk(t: ProcTable, s: WalkState, n: nat) -> WalkState
    decreases n,
{
    if n == 0 {
        s
    } else {
        walk(t, step(s, reply_from(t, request_of(s))), (n - 1) as nat)
    }
}

/// What reading the start process itself gives: its working directory, or
/// `NotFound` when it is not in the table.
pub open spec fn own_cwd(t: ProcTable, root: u32) -> Outcome {
    if t.contains_key(root) {
        t[root].cwd
    } else {
        Err(Failure::NotFound)
    }
}

/// Whether `p` reads as attached to a terminal in `t`.
pub open spec fn attached(t: ProcTable, p: u32) -> bool {
    t.contains_key(p) && is_attached(t[p].tty)
}

/// Whether no child of `root` in `t` is attached to a terminal.
pub open spec fn no_attached_children(t: ProcTable, root: u32) -> bool {
    t.contains_key(root) && children_of(t[root].children) is Some ==> forall|i: int|
        0 <= i < children_of(t[root].children)->Some_0.len() ==> !attached(
            t,
            #[trigger] children_of(t[root].children)->Some_0[i],
        )
}

spec fn falls_back(t: ProcTable, root: u32, s: WalkState) -> bool {
    &&& s.root == root
    &&& s.best is None
    &&& forall|i: int| 0 <= i < s.frontier.len() ==> !attached(t, #[trigger] s.frontier[i].1)
    &&& match s.phase {
        Phase::Open => s.frontier.len() == 0,
        Phase::RootChildren => s.frontier.len() == 0,
        Phase::Terminal(_, p) => !attached(t, p),
        Phase::RootCwd => true,
        Phase::Done(o) => o == own_cwd(t, root),
        _ => false,
    }
}

proof fn lemma_falls_back_step(t: ProcTable, root: u32, s: WalkState)
    requires
        no_attached_children(t, root),
        falls_back(t, root, s),
    ensures
        falls_back(t, root, step(s, reply_from(t, request_of(s)))),
{
    let s2 = step(s, reply_from(t, request_of(s)));
    match s.phase {
        Phase::RootChildren => {
            if t.contains_key(root) && t[root].children is Ok && all_listed(t[root].children->Ok_0@) {
                let kids = children_of(t[root].children)->Some_0;
                let f = s.frontier + Seq::new(kids.len(), |i: int| (1usize, kids[i]));
                assert forall|i: int| 0 <= i < f.len() implies !attached(t, #[trigger] f[i].1) by {
                    assert(f[i].1 == kids[i - s.frontier.len()]);
                }
                assert(s2 == advanced(root, f, s.best));
            }
        },
        Phase::Terminal(_, p) => {
            assert(s2 == advanced(root, s.frontier, s.best));
        },
        _ => {},
    }
}

proof fn lemma_falls_back_walk(t: ProcTable, root: u32, s: WalkState, n: nat)
    requires
        no_attached_children(t, root),
        falls_back(t, root, s),
    ensures
        falls_back(t, root, walk(t, s, n)),
    decreases n,
{
    if n > 0 {
        lemma_falls_back_step(t, root, s);
        lemma_falls_back_walk(t, root, step(s, reply_from(t, request_of(s))), (n - 1) as nat);
    }
}

/// When no process below the start process is attached to a terminal (it is
/// enough that none of its children is, since the walk never goes below a
/// process without one), a walk over an unchanging table never holds a
/// candidate, and once it is finished its result is the start process's own
/// working directory, or the failure to read it.
pub proof fn lemma_no_terminal_descendant(t: ProcTable, root: u32, n: nat)
    requires
        no_attached_children(t, root),
    ensures
        walk(t, initial(root), n).best is None,
        result_of(walk(t, initial(root), n)) is Some ==> result_of(walk(t, initial(root), n))
            == Some(own_cwd(t, root)),
{
    lemma_falls_back_walk(t, root, initial(root), n);
}

/// Whether `c` occurs exactly once in the listing `kids` and is the only
/// process in it attached to a terminal.
pub open spec fn listed_once(t: ProcTable, kids: Seq<u32>, c: u32) -> bool {
    &&& exists|a: int| 0 <= a < kids.len() && kids[a] == c
    &&& forall|a: int| 0 <= a < kids.len() && attached(t, #[trigger] kids[a]) ==> kids[a] == c
    &&& forall|a: int, b: int| 0 <= a < kids.len() && 0 <= b < kids.len() && kids[a] == c && kids[b] == c ==> a == b
}

/// The children that `t` lists for `p` (empty when they cannot be listed).
pub open spec fn kids_of(t: ProcTable, p: u32) -> Seq<u32> {
    match children_of(t[p].children) {
        Some(k) => k,
        None => Seq::empty(),
    }
}

/// Whether the terminal-attached processes below `chain[0]` form the single
/// chain `chain`: the start process's threads all list their children, each
/// link is listed once among the children of the one before, is attached to
/// a terminal and has a working directory that reads, and no other child of
/// a link is attached to a terminal.
pub open spec fn single_chain(t: ProcTable, chain: Seq<u32>) -> bool {
    &&& 2 <= chain.len() <= usize::MAX
    &&& t[chain[0]].children is Ok && all_listed(t[chain[0]].children->Ok_0@)
    &&& forall|i: int| 0 <= i < chain.len() ==> t.contains_key(#[trigger] chain[i])
    &&& forall|i: int| 0 <= i < chain.len() - 1 ==> children_of(t[#[trigger] chain[i]].children) is Some
    &&& forall|i: int| 0 <= i < chain.len() - 1 ==> listed_once(t, kids_of(t, #[trigger] chain[i]), chain[i + 1])
    &&& forall|i: int| 1 <= i < chain.len() ==> attached(t, #[trigger] chain[i]) && t[chain[i]].cwd is Ok
    &&& forall|a: int| 0 <= a < kids_of(t, chain.last()).len() ==> !attached(t, #[trigger] kids_of(t, chain.last())[a])
}

spec fn none_attached(t: ProcTable, f: Seq<(usize, u32)>) -> bool {
    forall|i: int| 0 <= i < f.len() ==> !attached(t, #[trigger] f[i].1)
}

spec fn one_attached(t: ProcTable, f: Seq<(usize, u32)>, e: (usize, u32)) -> bool {
    &&& attached(t, e.1)
    &&& exists|i: int| 0 <= i < f.len() && f[i] == e
    &&& forall|i: int| 0 <= i < f.len() && attached(t, #[trigger] f[i].1) ==> f[i] == e
    &&& forall|i: int, j: int| 0 <= i < f.len() && 0 <= j < f.len() && f[i] == e && f[j] == e ==> i == j
}

/// The frontier after a link at depth `d`: one attached entry, the next
/// link, or none after the last.
spec fn pending(t: ProcTable, chain: Seq<u32>, f: Seq<(usize, u32)>, d: int) -> bool {
    &&& d < chain.len() - 1 ==> one_attached(t, f, ((d + 1) as usize, chain[d + 1]))
    &&& d >= chain.len() - 1 ==> none_attached(t, f)
}

spec fn on_chain(t: ProcTable, chain: Seq<u32>, s: WalkState) -> bool {
    let k = chain.len() - 1;
    let j = depth_of(s.best) as int;
    &&& s.root == chain[0]
    &&& 0 <= j <= k
    &&& (s.best is None && j == 0) || (j >= 1 && s.best == Some((j as usize, t[chain[j]].cwd)))
    &&& match s.phase {
        Phase::Open => s.frontier.len() == 0 && s.best is None,
        Phase::RootChildren => s.frontier.len() == 0 && s.best is None,
        Phase::Terminal(d, p) => if attached(t, p) {
            d == j + 1 && d <= k && p == chain[d as int] && none_attached(t, s.frontier)
        } else {
            pending(t, chain, s.frontier, j)
        },
        Phase::Children(d, p) => d == j + 1 && d <= k && p == chain[d as int] && none_attached(t, s.frontier),
        Phase::Cwd(d, p) => d == j + 1 && d <= k && p == chain[d as int] && pending(t, chain, s.frontier, d as int),
        Phase::RootCwd => false,
        Phase::Done(o) => o == t[chain[k]].cwd,
    }
}

proof fn lemma_pop_one(t: ProcTable, f: Seq<(usize, u32)>, e: (usize, u32))
    requires
        one_attached(t, f, e),
    ensures
        f.len() > 0,
        attached(t, f.last().1) ==> f.last() == e && none_attached(t, f.drop_last()),
        !attached(t, f.last().1) ==> one_attached(t, f.drop_last(), e),
{
    let w = choose|i: int| 0 <= i < f.len() && f[i] == e;
    let g = f.drop_last();
    let n = f.len() - 1;
    if attached(t, f.last().1) {
        assert(f[n] == e);
        assert forall|i: int| 0 <= i < g.len() implies !attached(t, #[trigger] g[i].1) by {
            assert(g[i] == f[i]);
            if attached(t, f[i].1) {
                assert(f[i] == e);
            }
        }
    } else {
        assert(w != n);
        assert(g[w] == e);
        assert forall|i: int| 0 <= i < g.len() && attached(t, #[trigger] g[i].1) implies g[i] == e by {
            assert(g[i] == f[i]);
        }
        assert forall|i: int, j: int| 0 <= i < g.len() && 0 <= j < g.len() && g[i] == e && g[j] == e implies i == j by {
            assert(g[i] == f[i] && g[j] == f[j]);
        }
    }
}

proof fn lemma_pop_none(t: ProcTable, f: Seq<(usize, u32)>)
    requires
        none_attached(t, f),
        f.len() > 0,
    ensures
        !attached(t, f.last().1),
        none_attached(t, f.drop_last()),
{
    assert forall|i: int| 0 <= i < f.drop_last().len() implies !attached(t, #[trigger] f.drop_last()[i].1) by {
        assert(f.drop_last()[i] == f[i]);
    }
}

proof fn lemma_push_kids(t: ProcTable, f: Seq<(usize, u32)>, d: usize, kids: Seq<u32>, c: u32)
    requires
        none_attached(t, f),
        listed_once(t, kids, c),
        attached(t, c),
    ensures
        one_attached(t, f + Seq::new(kids.len(), |i: int| (d, kids[i])), (d, c)),
{
    let g = f + Seq::new(kids.len(), |i: int| (d, kids[i]));
    let a = choose|a: int| 0 <= a < kids.len() && kids[a] == c;
    assert(g[f.len() + a] == (d, c));
    assert forall|i: int| 0 <= i < g.len() && attached(t, #[trigger] g[i].1) implies g[i] == (d, c) by {
        if i >= f.len() {
            assert(g[i].1 == kids[i - f.len()]);
        }
    }
    assert forall|i: int, j: int| 0 <= i < g.len() && 0 <= j < g.len() && g[i] == (d, c) && g[j] == (d, c) implies i == j by {
        if i < f.len() {
            assert(g[i] == f[i]);
            assert(!attached(t, f[i].1));
        }
        if j < f.len() {
            assert(g[j] == f[j]);
            assert(!attached(t, f[j].1));
        }
        if i >= f.len() && j >= f.len() {
            assert(kids[i - f.len()] == c && kids[j - f.len()] == c);
        }
    }
}

proof fn lemma_push_none(t: ProcTable, f: Seq<(usize, u32)>, d: usize, kids: Seq<u32>)
    requires
        none_attached(t, f),
        forall|a: int| 0 <= a < kids.len() ==> !attached(t, #[trigger] kids[a]),
    ensures
        none_attached(t, f + Seq::new(kids.len(), |i: int| (d, kids[i]))),
{
    let g = f + Seq::new(kids.len(), |i: int| (d, kids[i]));
    assert forall|i: int| 0 <= i < g.len() implies !attached(t, #[trigger] g[i].1) by {
        if i >= f.len() {
            assert(g[i].1 == kids[i - f.len()]);
        }
    }
}

/// Moving on from a frontier in which the link after depth `j` is pending.
proof fn lemma_advance_on_chain(t: ProcTable, chain: Seq<u32>, s: WalkState, f: Seq<(usize, u32)>, best: Best)
    requires
        single_chain(t, chain),
        s.root == chain[0],
        ({
            let j = depth_of(best) as int;
            &&& 0 <= j <= chain.len() - 1
            &&& (best is None && j == 0) || (j >= 1 && best == Some((j as usize, t[chain[j]].cwd)))
            &&& pending(t, chain, f, j)
        }),
    ensures
        on_chain(t, chain, advanced(s.root, f, best)),
{
    let j = depth_of(best) as int;
    let k = chain.len() - 1;
    if j < k {
        lemma_pop_one(t, f, ((j + 1) as usize, chain[j + 1]));
    } else if f.len() > 0 {
        lemma_pop_none(t, f);
    }
}

proof fn lemma_chain_step(t: ProcTable, chain: Seq<u32>, s: WalkState)
    requires
        single_chain(t, chain),
        on_chain(t, chain, s),
    ensures
        on_chain(t, chain, step(s, reply_from(t, request_of(s)))),
{
    let k = chain.len() - 1;
    let root = chain[0];
    assert(t.contains_key(chain[0]));
    match s.phase {
        Phase::RootChildren => {
            assert(children_of(t[chain[0]].children) is Some);
            assert(listed_once(t, kids_of(t, chain[0]), chain[1]));
            assert(attached(t, chain[1]));
            lemma_push_kids(t, s.frontier, 1, kids_of(t, chain[0]), chain[1]);
            lemma_advance_on_chain(t, chain, s, crate::walker::pushed(s.frontier, 1, kids_of(t, chain[0])), s.best);
        },
        Phase::Terminal(d, p) => {
            if !attached(t, p) {
                lemma_advance_on_chain(t, chain, s, s.frontier, s.best);
            }
        },
        Phase::Children(d, p) => {
            let di = d as int;
            assert(t.contains_key(chain[di]));
            if di < k {
                assert(children_of(t[chain[di]].children) is Some);
                assert(listed_once(t, kids_of(t, chain[di]), chain[di + 1]));
                assert(attached(t, chain[di + 1]));
                lemma_push_kids(t, s.frontier, (d + 1) as usize, kids_of(t, chain[di]), chain[di + 1]);
            } else if children_of(t[p].children) is Some && d < usize::MAX {
                assert(chain.last() == chain[di]);
                lemma_push_none(t, s.frontier, (d + 1) as usize, kids_of(t, chain[di]));
            }
        },
        Phase::Cwd(d, p) => {
            let di = d as int;
            assert(attached(t, chain[di]) && t[chain[di]].cwd is Ok);
            lemma_advance_on_chain(t, chain, s, s.frontier, considered(s.best, d, t[p].cwd));
        },
        _ => {},
    }
}

proof fn lemma_chain_walk(t: ProcTable, chain: Seq<u32>, s: WalkState, n: nat)
    requires
        single_chain(t, chain),
        on_chain(t, chain, s),
    ensures
        on_chain(t, chain, walk(t, s, n)),
    decreases n,
{
    if n > 0 {
        lemma_chain_step(t, chain, s);
        lemma_chain_walk(t, chain, step(s, reply_from(t, request_of(s))), (n - 1) as nat);
    }
}

/// When the terminal-attached processes below the start process form one
/// chain whose working directories all read, a walk over an unchanging table
/// that has finished gives the working directory of the deepest link.
pub proof fn lemma_single_chain_gives_deepest(t: ProcTable, chain: Seq<u32>, n: nat)
    requires
        single_chain(t, chain),
    ensures
        result_of(walk(t, initial(chain[0]), n)) is Some ==> result_of(walk(t, initial(chain[0]), n))
            == Some(t[chain.last()].cwd),
{
    lemma_chain_walk(t, chain, initial(chain[0]), n);
}

/// Whether `rank` shows that `t` has no cycles: every child that a process
/// lists ranks below the process.
pub open spec fn ranked(t: ProcTable, rank: spec_fn(u32) -> nat) -> bool {
    forall|p: u32, i: int|
        t.contains_key(p) && 0 <= i < kids_of(t, p).len() ==> rank(#[trigger] kids_of(t, p)[i]) < rank(p)
}

spec fn weight(t: ProcTable, rank: spec_fn(u32) -> nat, p: u32) -> nat
    decreases rank(p), 1nat, 0nat,
{
    5 + if t.contains_key(p) {
        weight_all(t, rank, kids_of(t, p), rank(p))
    } else {
        0
    }
}

spec fn weight_all(t: ProcTable, rank: spec_fn(u32) -> nat, kids: Seq<u32>, bound: nat) -> nat
    decreases bound, 0nat, kids.len(),
{
    if kids.len() == 0 {
        0
    } else {
        weight_all(t, rank, kids.drop_last(), bound) + if rank(kids.last()) < bound {
            weight(t, rank, kids.last())
        } else {
            0
        }
    }
}

spec fn frontier_weight(t: ProcTable, rank: spec_fn(u32) -> nat, f: Seq<(usize, u32)>) -> nat
    decreases f.len(),
{
    if f.len() == 0 {
        0
    } else {
        frontier_weight(t, rank, f.drop_last()) + weight(t, rank, f.last().1)
    }
}

spec fn measure(t: ProcTable, rank: spec_fn(u32) -> nat, s: WalkState) -> nat {
    frontier_weight(t, rank, s.frontier) + match s.phase {
        Phase::Open => weight(t, rank, s.root) + 1,
        Phase::RootChildren => weight(t, rank, s.root),
        Phase::Terminal(_, p) => (weight(t, rank, p) - 1) as nat,
        Phase::Children(_, p) => (weight(t, rank, p) - 2) as nat,
        Phase::Cwd(_, _) => 2,
        Phase::RootCwd => 1,
        Phase::Done(_) => 0,
    }
}

proof fn lemma_push_weight(t: ProcTable, rank: spec_fn(u32) -> nat, f: Seq<(usize, u32)>, d: usize, kids: Seq<u32>, bound: nat)
    requires
        forall|i: int| 0 <= i < kids.len() ==> rank(#[trigger] kids[i]) < bound,
    ensures
        frontier_weight(t, rank, crate::walker::pushed(f, d, kids)) == frontier_weight(t, rank, f) + weight_all(t, rank, kids, bound),
    decreases kids.len(),
{
    if kids.len() > 0 {
        let g = crate::walker::pushed(f, d, kids);
        let k2 = kids.drop_last();
        assert(g.drop_last() =~= crate::walker::pushed(f, d, k2));
        assert(g.last() == (d, kids.last()));
        assert(rank(kids[kids.len() - 1]) < bound);
        assert forall|i: int| 0 <= i < k2.len() implies rank(#[trigger] k2[i]) < bound by {
            assert(k2[i] == kids[i]);
        }
        lemma_push_weight(t, rank, f, d, k2, bound);
    } else {
        assert(crate::walker::pushed(f, d, kids) =~= f);
    }
}

proof fn lemma_advance_weight(t: ProcTable, rank: spec_fn(u32) -> nat, root: u32, f: Seq<(usize, u32)>, best: Best)
    ensures
        measure(t, rank, advanced(root, f, best)) <= frontier_weight(t, rank, f) + 1,
{
}

proof fn lemma_measure_drops(t: ProcTable, rank: spec_fn(u32) -> nat, s: WalkState)
    requires
        ranked(t, rank),
        !(s.phase is Done),
    ensures
        measure(t, rank, step(s, reply_from(t, request_of(s)))) < measure(t, rank, s),
{
    let s2 = step(s, reply_from(t, request_of(s)));
    match s.phase {
        Phase::RootChildren => {
            let r = s.root;
            if t.contains_key(r) && t[r].children is Ok && all_listed(t[r].children->Ok_0@) {
                let kids = kids_of(t, r);
                assert forall|i: int| 0 <= i < kids.len() implies rank(#[trigger] kids[i]) < rank(r) by {
                    assert(rank(kids_of(t, r)[i]) < rank(r));
                }
                lemma_push_weight(t, rank, s.frontier, 1, kids, rank(r));
                lemma_advance_weight(t, rank, r, crate::walker::pushed(s.frontier, 1, kids), s.best);
            }
        },
        Phase::Terminal(_, p) => {
            lemma_advance_weight(t, rank, s.root, s.frontier, s.best);
        },
        Phase::Children(d, p) => {
            let f2 = crate::walker::expanded(s.frontier, d, children_of(reply_from(t, request_of(s))->Children_0));
            if t.contains_key(p) && t[p].children is Ok && d < usize::MAX {
                let kids = kids_of(t, p);
                assert forall|i: int| 0 <= i < kids.len() implies rank(#[trigger] kids[i]) < rank(p) by {
                    assert(rank(kids_of(t, p)[i]) < rank(p));
                }
                lemma_push_weight(t, rank, s.frontier, (d + 1) as usize, kids, rank(p));
            }
            assert(frontier_weight(t, rank, f2) + 5 <= frontier_weight(t, rank, s.frontier) + weight(t, rank, p));
            lemma_advance_weight(t, rank, s.root, f2, s.best);
        },
        Phase::Cwd(d, _) => {
            lemma_advance_weight(t, rank, s.root, s.frontier, considered(s.best, d, reply_from(t, request_of(s))->Cwd_0));
        },
        _ => {},
    }
}

proof fn lemma_finishes_from(t: ProcTable, rank: spec_fn(u32) -> nat, s: WalkState)
    requires
        ranked(t, rank),
    ensures
        exists|n: nat| (#[trigger] walk(t, s, n)).phase is Done,
    decreases measure(t, rank, s),
{
    if s.phase is Done {
        assert(walk(t, s, 0).phase is Done);
    } else {
        let s2 = step(s, reply_from(t, request_of(s)));
        lemma_measure_drops(t, rank, s);
        lemma_finishes_from(t, rank, s2);
        let n = choose|n: nat| (#[trigger] walk(t, s2, n)).phase is Done;
        assert(walk(t, s, n + 1) == walk(t, s2, n));
    }
}

/// Over an unchanging table without cycles (shown by a rank that every listed
/// child has below its parent), the walk from any pid finishes: after some
/// number of answered questions it has a result.
pub proof fn lemma_walk_finishes(t: ProcTable, rank: spec_fn(u32) -> nat, root: u32)
    requires
        ranked(t, rank),
    ensures
        exists|n: nat| (#[trigger] result_of(walk(t, initial(root), n))) is Some,
{
    lemma_finishes_from(t, rank, initial(root));
    let n = choose|n: nat| (#[trigger] walk(t, initial(root), n)).phase is Done;
    assert(result_of(walk(t, initial(root), n)) is Some);
}

spec fn only_attached_expanded(t: ProcTable, s: WalkState) -> bool {
    &&& s.phase is Children ==> attached(t, s.phase->Children_1)
    &&& s.phase is Cwd ==> attached(t, s.phase->Cwd_1)
}

proof fn lemma_only_attached_expanded(t: ProcTable, s: WalkState, n: nat)
    requires
        only_attached_expanded(t, s),
    ensures
        only_attached_expanded(t, walk(t, s, n)),
    decreases n,
{
    if n > 0 {
        lemma_only_attached_expanded(t, step(s, reply_from(t, request_of(s))), (n - 1) as nat);
    }
}

/// Over an unchanging table, a process that does not read as attached to a
/// terminal (its terminal is none, or cannot be read) is never expanded and
/// never has its working directory read, so it never becomes the best leaf
/// and the walk never goes below it, whatever lies deeper.
pub proof fn lemma_detached_never_expanded(t: ProcTable, root: u32, p: u32, n: nat)
    requires
        !attached(t, p),
    ensures
        !(walk(t, initial(root), n).phase is Children && walk(t, initial(root), n).phase->Children_1 == p),
        !(walk(t, initial(root), n).phase is Cwd && walk(t, initial(root), n).phase->Cwd_1 == p),
{
    lemma_only_attached_expanded(t, initial(root), n);
}

spec fn kept_or_deeper(before: WalkState, after: WalkState) -> bool {
    after.phase is Done || after.best == before.best || depth_of(after.best) > depth_of(before.best)
}

proof fn lemma_kept_or_deeper_step(s: WalkState, reply: Reply)
    ensures
        kept_or_deeper(s, step(s, reply)),
{
}

proof fn lemma_kept_or_deeper_walk(t: ProcTable, s: WalkState, n: nat)
    ensures
        kept_or_deeper(s, walk(t, s, n)),
    decreases n,
{
    if n > 0 {
        let s2 = step(s, reply_from(t, request_of(s)));
        lemma_kept_or_deeper_step(s, reply_from(t, request_of(s)));
        lemma_kept_or_deeper_walk(t, s2, (n - 1) as nat);
        if s2.phase is Done {
            lemma_done_stays(t, s2, (n - 1) as nat);
        }
    }
}

/// Over an unchanging table, once the walk holds a best leaf at depth `d`,
/// every later state before the end holds that same leaf or a strictly
/// deeper one: the first process to claim a depth keeps it against every
/// later arrival at that depth or above, even one whose working directory
/// reads where its own did not.
pub proof fn lemma_first_claim_kept(t: ProcTable, root: u32, n: nat, m: nat)
    requires
        n <= m,
        !(walk(t, initial(root), m).phase is Done),
    ensures
        walk(t, initial(root), m).best == walk(t, initial(root), n).best || depth_of(walk(t, initial(root), m).best)
            > depth_of(walk(t, initial(root), n).best),
{
    lemma_walk_split(t, initial(root), n, (m - n) as nat);
    assert(n + (m - n) as nat == m);
    lemma_kept_or_deeper_walk(t, walk(t, initial(root), n), (m - n) as nat);
}

/// A process found not to be attached to a terminal, or whose terminal could
/// not be read, is dropped: none of its
/// children is added to the frontier, its working directory is not read, and
/// the best leaf stays as it was.
pub proof fn lemma_detached_is_pruned(s: WalkState, tty: Result<i32, Failure>)
    requires
        s.phase is Terminal,
        !is_attached(tty),
    ensures
        step(s, Reply::Terminal(tty)) == advanced(s.root, s.frontier, s.best),
        s.frontier.len() > 0 ==> step(s, Reply::Terminal(tty)).frontier == s.frontier.drop_last(),
        s.frontier.len() > 0 ==> step(s, Reply::Terminal(tty)).best == s.best,
{
}

/// The depth of the best leaf never goes down.
pub proof fn lemma_depth_monotone(best: Best, depth: usize, outcome: Outcome)
    ensures
        depth_of(considered(best, depth, outcome)) >= depth_of(best),
{
}

/// Once a leaf has claimed depth `d`, nothing at depth `d` or above replaces
/// it, not even a node at depth `d` whose working directory was read where the
/// leaf's was not.
pub proof fn lemma_claimed_depth_is_kept(best: Best, depth: usize, first: Outcome, later_depth: usize, later: Outcome)
    requires
        depth_of(considered(best, depth, first)) == depth,
        later_depth <= depth,
    ensures
        considered(considered(best, depth, first), later_depth, later) == considered(best, depth, first),
{
}

/// The best leaf after offering each of `items` in turn.
pub open spec fn considered_all(best: Best, items: Seq<(usize, Outcome)>) -> Best
    decreases items.len(),
{
    if items.len() == 0 {
        best
    } else {
        considered_all(considered(best, items[0].0, items[0].1), items.drop_first())
    }
}

/// Along a single chain of terminal-attached processes, each deeper than the
/// one before and each with a working directory that was read, the best leaf
/// ends as the deepest one.
pub proof fn lemma_chain_gives_deepest(best: Best, items: Seq<(usize, Outcome)>)
    requires
        items.len() > 0,
        items[0].0 > depth_of(best),
        forall|i: int| 0 <= i < items.len() ==> (#[trigger] items[i]).1 is Ok,
        forall|i: int| 0 < i < items.len() ==> (#[trigger] items[i]).0 > items[i - 1].0,
    ensures
        considered_all(best, items) == Some(items.last()),
    decreases items.len(),
{
    let next = considered(best, items[0].0, items[0].1);
    assert(next == Some(items[0]));
    assert(considered_all(best, items) == considered_all(next, items.drop_first()));
    if items.len() == 1 {
        assert(items.drop_first().len() == 0);
        assert(items.last() == items[0]);
    } else {
        let rest = items.drop_first();
        assert(rest[0] == items[1]);
        assert forall|i: int| 0 < i < rest.len() implies (#[trigger] rest[i]).0 > rest[i - 1].0 by {
            assert(rest[i] == items[i + 1]);
            assert(rest[i - 1] == items[i]);
        }
        assert forall|i: int| 0 <= i < rest.len() implies (#[trigger] rest[i]).1 is Ok by {
            assert(rest[i] == items[i + 1]);
        }
        lemma_chain_gives_deepest(next, rest);
        assert(rest.last() == items.last());
    }
}

proof fn lemma_done_stays(t: ProcTable, s: WalkState, n: nat)
    requires
        s.phase is Done,
    ensures
        walk(t, s, n) == s,
    decreases n,
{
    if n > 0 {
        lemma_done_stays(t, step(s, reply_from(t, request_of(s))), (n - 1) as nat);
    }
}

proof fn lemma_walk_split(t: ProcTable, s: WalkState, n: nat, m: nat)
    ensures
        walk(t, s, n + m) == walk(t, walk(t, s, n), m),
    decreases n,
{
    if n > 0 {
        let s2 = step(s, reply_from(t, request_of(s)));
        lemma_walk_split(t, s2, (n - 1) as nat, m);
        assert((n + m - 1) as nat == (n - 1) as nat + m);
    }
}

/// An unchanging table gives the same answers to the same questions, and a
/// finished walk stays finished: so any two walks from the same pid over the
/// same table that have both finished, after however many questions, give the
/// same result.
pub proof fn lemma_finished_walks_agree(t: ProcTable, root: u32, n1: nat, n2: nat)
    requires
        result_of(walk(t, initial(root), n1)) is Some,
        result_of(walk(t, initial(root), n2)) is Some,
    ensures
        result_of(walk(t, initial(root), n1)) == result_of(walk(t, initial(root), n2)),
{
    if n1 <= n2 {
        lemma_walk_split(t, initial(root), n1, (n2 - n1) as nat);
        lemma_done_stays(t, walk(t, initial(root), n1), (n2 - n1) as nat);
        assert(n1 + (n2 - n1) as nat == n2);
    } else {
        lemma_walk_split(t, initial(root), n2, (n1 - n2) as nat);
        lemma_done_stays(t, walk(t, initial(root), n2), (n1 - n2) as nat);
        assert(n2 + (n1 - n2) as nat == n1);
    }
}

/// A terminal-attached node no deeper than the best leaf has its children
/// added but its working directory is never read, so it cannot take the
/// best leaf's place: the first node to claim a depth keeps it.
pub proof fn lemma_no_read_at_claimed_depth(s: WalkState, kids: ThreadChildren)
    requires
        s.phase is Children,
        s.phase->Children_0 <= depth_of(s.best),
    ensures
        !(step(s, Reply::Children(kids)).phase is Cwd),
        step(s, Reply::Children(kids)).frontier.len() > 0 ==> step(s, Reply::Children(kids)).best == s.best,
{
}

} // verus!
