use termcwd::candidate::CandidateTracker;
use termcwd::outcome::{Failure, Outcome};
use termcwd::walker::{attached, fully_listed, gather, Reply, Request, ThreadChildren, Walker};

struct Proc {
    pid: u32,
    tty: Result<i32, Failure>,
    cwd: Outcome,
    children: ThreadChildren,
}

fn tty(terminal: bool) -> Result<i32, Failure> {
    Ok(if terminal { 34816 } else { 0 })
}

fn node(pid: u32, terminal: bool, cwd: &str, children: Vec<u32>) -> Proc {
    Proc { pid, tty: tty(terminal), cwd: Ok(cwd.as_bytes().to_vec()), children: Ok(vec![Ok(children)]) }
}

fn find(table: &[Proc], pid: u32) -> Option<&Proc> {
    table.iter().find(|p| p.pid == pid)
}

fn resolve(table: &[Proc], root: u32) -> Outcome {
    let mut walker = Walker::new(root);
    for _ in 0..10_000 {
        let reply = match walker.request() {
            Request::Open(p) => Reply::Opened(find(table, p).map(|_| ()).ok_or(Failure::NotFound)),
            Request::Children(p) => {
                Reply::Children(find(table, p).map_or(Err(Failure::NotFound), |n| n.children.clone()))
            }
            Request::Terminal(p) => Reply::Terminal(find(table, p).map_or(Err(Failure::NotFound), |n| n.tty)),
            Request::Cwd(p) => Reply::Cwd(find(table, p).map_or(Err(Failure::NotFound), |n| n.cwd.clone())),
            Request::Finished => return walker.into_outcome().expect("a finished walk has a result"),
        };
        walker.answer(reply);
    }
    panic!("walk did not finish");
}

fn path(s: &str) -> Outcome {
    Ok(s.as_bytes().to_vec())
}

#[test]
fn deeper_branch_wins_over_shallow_sibling() {
    let table = vec![
        node(1, true, "/root", vec![2, 3]),
        node(2, true, "/x", vec![]),
        node(3, true, "/b", vec![4]),
        node(4, true, "/y", vec![]),
    ];
    assert_eq!(resolve(&table, 1), path("/y"));
}

#[test]
fn detached_ancestor_prunes_terminal_descendant() {
    let table = vec![
        node(1, true, "/root", vec![2]),
        node(2, false, "/a", vec![3]),
        node(3, true, "/z", vec![]),
    ];
    assert_eq!(resolve(&table, 1), path("/root"));
}

#[test]
fn missing_root_is_not_found() {
    let table = vec![node(1, true, "/root", vec![])];
    assert_eq!(resolve(&table, 99), Err(Failure::NotFound));
}

#[test]
fn no_terminal_descendants_gives_root_cwd() {
    let table = vec![
        node(1, false, "/home/u", vec![2, 3]),
        node(2, false, "/a", vec![]),
        node(3, false, "/b", vec![]),
    ];
    assert_eq!(resolve(&table, 1), path("/home/u"));
}

#[test]
fn no_terminal_descendants_and_unreadable_root() {
    let table = vec![
        Proc { pid: 1, tty: tty(true), cwd: Err(Failure::Unreadable), children: Ok(vec![Ok(vec![2])]) },
        node(2, false, "/a", vec![]),
    ];
    assert_eq!(resolve(&table, 1), Err(Failure::Unreadable));
}

#[test]
fn single_chain_gives_deepest() {
    let table = vec![
        node(1, true, "/0", vec![2]),
        node(2, true, "/1", vec![3]),
        node(3, true, "/2", vec![4]),
        node(4, true, "/3", vec![]),
    ];
    assert_eq!(resolve(&table, 1), path("/3"));
}

#[test]
fn failed_terminal_check_prunes_subtree() {
    // 2 is attached to a terminal, but reading its terminal fails
    let table = vec![
        node(1, true, "/root", vec![2, 5]),
        Proc { pid: 2, tty: Err(Failure::Unreadable), cwd: path("/a"), children: Ok(vec![Ok(vec![3])]) },
        node(3, true, "/deep", vec![4]),
        node(4, true, "/deeper", vec![]),
        node(5, true, "/five", vec![]),
    ];
    assert_eq!(resolve(&table, 1), path("/five"));
}

#[test]
fn first_claim_of_a_depth_is_kept() {
    // children are visited last first: 3 claims depth 1 with a failure
    let table = vec![
        node(1, true, "/root", vec![2, 3]),
        node(2, true, "/ok", vec![]),
        Proc { pid: 3, tty: tty(true), cwd: Err(Failure::Unreadable), children: Ok(vec![]) },
    ];
    assert_eq!(resolve(&table, 1), Err(Failure::Unreadable));
}

#[test]
fn first_success_at_a_depth_is_kept() {
    let table = vec![
        node(1, true, "/root", vec![2, 3]),
        node(2, true, "/two", vec![]),
        node(3, true, "/three", vec![]),
    ];
    assert_eq!(resolve(&table, 1), path("/three"));
}

#[test]
fn deeper_failure_does_not_replace_shallower_success() {
    let table = vec![
        node(1, true, "/root", vec![2]),
        node(2, true, "/a", vec![3]),
        Proc { pid: 3, tty: tty(true), cwd: Err(Failure::NotFound), children: Ok(vec![]) },
    ];
    assert_eq!(resolve(&table, 1), path("/a"));
}

#[test]
fn deeper_failure_replaces_shallower_failure() {
    let table = vec![
        node(1, true, "/root", vec![2]),
        Proc { pid: 2, tty: tty(true), cwd: Err(Failure::Unreadable), children: Ok(vec![Ok(vec![3])]) },
        Proc { pid: 3, tty: tty(true), cwd: Err(Failure::NotFound), children: Ok(vec![]) },
    ];
    assert_eq!(resolve(&table, 1), Err(Failure::NotFound));
}

#[test]
fn root_children_unreadable_gives_root_cwd() {
    let table = vec![
        Proc { pid: 1, tty: tty(true), cwd: path("/root"), children: Err(Failure::Enumeration) },
        node(2, true, "/a", vec![]),
    ];
    assert_eq!(resolve(&table, 1), path("/root"));
}

#[test]
fn failed_listing_below_root_is_not_fatal() {
    let table = vec![
        node(1, true, "/root", vec![2]),
        Proc { pid: 2, tty: tty(true), cwd: path("/a"), children: Err(Failure::Enumeration) },
    ];
    assert_eq!(resolve(&table, 1), path("/a"));
}

#[test]
fn vanished_child_is_skipped() {
    let table = vec![node(1, true, "/root", vec![7, 2]), node(2, true, "/a", vec![])];
    assert_eq!(resolve(&table, 1), path("/a"));
}

#[test]
fn repeated_resolution_gives_same_result() {
    let table = vec![
        node(1, true, "/root", vec![2, 3]),
        node(2, true, "/x", vec![]),
        node(3, true, "/b", vec![4]),
        node(4, true, "/y", vec![]),
    ];
    let first = resolve(&table, 1);
    let second = resolve(&table, 1);
    assert_eq!(first, second);
    assert_eq!(first, path("/y"));
}

#[test]
fn walker_asks_in_order() {
    let mut w = Walker::new(10);
    assert_eq!(w.request(), Request::Open(10));
    w.answer(Reply::Terminal(tty(true)));
    assert_eq!(w.request(), Request::Open(10));
    w.answer(Reply::Opened(Ok(())));
    assert_eq!(w.request(), Request::Children(10));
    w.answer(Reply::Children(Ok(vec![Ok(vec![11]), Ok(vec![]), Ok(vec![12])])));
    assert_eq!(w.request(), Request::Terminal(12));
    w.answer(Reply::Terminal(tty(true)));
    assert_eq!(w.request(), Request::Children(12));
    w.answer(Reply::Children(Ok(vec![Ok(vec![])])));
    assert_eq!(w.request(), Request::Cwd(12));
    w.answer(Reply::Cwd(path("/t")));
    assert_eq!(w.request(), Request::Terminal(11));
    w.answer(Reply::Terminal(tty(true)));
    assert_eq!(w.request(), Request::Children(11));
    w.answer(Reply::Children(Ok(vec![Ok(vec![])])));
    assert_eq!(w.request(), Request::Finished);
    assert_eq!(w.into_outcome(), Some(path("/t")));
}

#[test]
fn unfinished_walk_has_no_outcome() {
    let w = Walker::new(3);
    assert_eq!(w.into_outcome(), None);
}

#[test]
fn open_failure_finishes_at_once() {
    let mut w = Walker::new(3);
    w.answer(Reply::Opened(Err(Failure::Unreadable)));
    assert_eq!(w.request(), Request::Finished);
    assert_eq!(w.into_outcome(), Some(Err(Failure::Unreadable)));
}

#[test]
fn tracker_policy() {
    let mut t = CandidateTracker::new();
    assert_eq!(t.max_depth(), 0);
    assert!(!t.wants(0));
    assert!(t.wants(1));
    t.consider(2, Err(Failure::Unreadable));
    assert_eq!(t.max_depth(), 2);
    t.consider(2, path("/same"));
    assert_eq!(t.max_depth(), 2);
    t.consider(3, path("/deeper"));
    assert_eq!(t.max_depth(), 3);
    t.consider(4, Err(Failure::NotFound));
    assert_eq!(t.max_depth(), 3);
    assert!(t.wants(4));
    assert_eq!(t.take(), Some(path("/deeper")));
    assert_eq!(t.max_depth(), 0);
    assert_eq!(t.finalize(), None);
}

#[test]
fn tracker_finalize_gives_best() {
    let mut t = CandidateTracker::new();
    t.consider(1, path("/one"));
    t.consider(1, path("/other"));
    assert_eq!(t.finalize(), Some(path("/one")));
}

#[test]
fn zero_tty_or_failed_read_is_detached() {
    assert!(attached(Ok(34816)));
    assert!(attached(Ok(-1)));
    assert!(!attached(Ok(0)));
    assert!(!attached(Err(Failure::Unreadable)));
}

#[test]
fn children_are_gathered_over_threads() {
    let threads = vec![Ok(vec![4, 5]), Err(Failure::NotFound), Ok(vec![]), Ok(vec![9])];
    assert_eq!(gather(&threads), vec![4, 5, 9]);
    assert_eq!(gather(&vec![]), Vec::<u32>::new());
}

#[test]
fn child_spawned_from_second_thread_is_found() {
    let table = vec![
        Proc { pid: 1, tty: tty(true), cwd: path("/root"), children: Ok(vec![Ok(vec![]), Ok(vec![2])]) },
        Proc { pid: 2, tty: tty(true), cwd: path("/shell"), children: Ok(vec![Err(Failure::NotFound), Ok(vec![3])]) },
        node(3, true, "/editor", vec![]),
    ];
    assert_eq!(resolve(&table, 1), path("/editor"));
}

#[test]
fn zero_tty_child_is_pruned() {
    let table = vec![
        node(1, true, "/root", vec![2]),
        Proc { pid: 2, tty: Ok(0), cwd: path("/a"), children: Ok(vec![Ok(vec![3])]) },
        node(3, true, "/b", vec![]),
    ];
    assert_eq!(resolve(&table, 1), path("/root"));
}

#[test]
fn failed_thread_of_start_process_is_fatal() {
    let table = vec![
        Proc { pid: 1, tty: tty(true), cwd: path("/r"), children: Ok(vec![Err(Failure::Unreadable), Ok(vec![2])]) },
        node(2, true, "/a", vec![]),
    ];
    assert_eq!(resolve(&table, 1), path("/r"));
}

#[test]
fn failed_thread_of_start_process_with_unreadable_cwd() {
    let mut w = Walker::new(1);
    w.answer(Reply::Opened(Ok(())));
    w.answer(Reply::Children(Ok(vec![Ok(vec![2]), Err(Failure::NotFound)])));
    assert_eq!(w.request(), Request::Cwd(1));
    w.answer(Reply::Cwd(Err(Failure::Unreadable)));
    assert_eq!(w.request(), Request::Finished);
    assert_eq!(w.into_outcome(), Some(Err(Failure::Unreadable)));
}

#[test]
fn threads_fully_listed() {
    assert!(fully_listed(&vec![Ok(vec![1]), Ok(vec![])]));
    assert!(fully_listed(&vec![]));
    assert!(!fully_listed(&vec![Ok(vec![1]), Err(Failure::Enumeration)]));
}
