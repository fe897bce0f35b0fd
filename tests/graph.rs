use dep_graph::{DepGraph, DepNodeIndex};

fn read_both(g: &mut DepGraph<u64>, a: DepNodeIndex, b: DepNodeIndex) {
    g.read(a);
    g.read(b);
}

fn leaf(g: &mut DepGraph<u64>) -> DepNodeIndex {
    g.with_anon_task((), (), |_g: &mut DepGraph<u64>, (), ()| ()).1
}

#[test]
fn dummy_index() {
    assert!(DepNodeIndex::dummy().is_dummy());
    assert_eq!(DepNodeIndex::dummy().index, usize::MAX);
    assert!(!DepNodeIndex { index: 0 }.is_dummy());
}

#[test]
fn enabled_flag() {
    let on: DepGraph<u64> = DepGraph::new(true);
    let off: DepGraph<u64> = DepGraph::new(false);
    assert!(on.is_fully_enabled());
    assert!(!off.is_fully_enabled());
}

#[test]
fn anon_tasks_with_same_reads_share_a_node() {
    let mut g: DepGraph<u64> = DepGraph::new(true);
    let x = g.with_task(1, (), (), |_g: &mut DepGraph<u64>, (), ()| ());
    let _ = x;
    assert_eq!(g.node_count(), 1);
    let named = DepNodeIndex { index: 0 };
    let other = leaf(&mut g);
    let (_, a) = g.with_anon_task((), (), |g: &mut DepGraph<u64>, (), ()| read_both(g, named, other));
    let (_, b) = g.with_anon_task((), (), |g: &mut DepGraph<u64>, (), ()| read_both(g, named, other));
    assert_eq!(a, b);
    assert_eq!(g.node_count(), 3);
    // the same reads in another order give another node
    let (_, c) = g.with_anon_task((), (), |g: &mut DepGraph<u64>, (), ()| read_both(g, other, named));
    assert_ne!(a, c);
    assert_eq!(g.predecessors(a), vec![named, other]);
    assert_eq!(g.predecessors(c), vec![other, named]);
    // two anonymous tasks that read nothing share one node too
    assert_eq!(leaf(&mut g), other);
}

#[test]
fn named_task_creates_node_with_name() {
    let mut g: DepGraph<u64> = DepGraph::new(true);
    assert!(!g.contains_name(&7));
    let r = g.with_task(7, 40u64, 2u64, |_g: &mut DepGraph<u64>, a: u64, b: u64| a + b);
    assert_eq!(r, 42);
    assert!(g.contains_name(&7));
    assert!(!g.contains_name(&8));
    // a second node under the same name is not allowed: callers check first
    g.with_task(8, (), (), |_g: &mut DepGraph<u64>, (), ()| ());
    assert!(g.contains_name(&8));
    assert_eq!(g.node_count(), 2);
}

#[test]
fn named_tasks_never_share_nodes() {
    let mut g: DepGraph<u64> = DepGraph::new(true);
    g.with_task(1, (), (), |_g: &mut DepGraph<u64>, (), ()| ());
    g.with_task(2, (), (), |_g: &mut DepGraph<u64>, (), ()| ());
    assert_eq!(g.node_count(), 2);
    assert_eq!(g.predecessors(DepNodeIndex { index: 0 }), vec![]);
    assert_eq!(g.predecessors(DepNodeIndex { index: 1 }), vec![]);
}

#[test]
fn read_twice_records_once() {
    let mut g: DepGraph<u64> = DepGraph::new(true);
    let x = leaf(&mut g);
    let (_, n) = g.with_anon_task((), (), |g: &mut DepGraph<u64>, (), ()| read_both(g, x, x));
    assert_eq!(g.predecessors(n), vec![x]);
}

#[test]
fn read_outside_task_is_ignored() {
    let mut g: DepGraph<u64> = DepGraph::new(true);
    let x = leaf(&mut g);
    g.read(x);
    assert_eq!(g.node_count(), 1);
    let (_, n) = g.with_anon_task((), (), |_g: &mut DepGraph<u64>, (), ()| ());
    assert_eq!(n, x);
}

#[test]
fn nested_reads_go_to_innermost_task() {
    let mut g: DepGraph<u64> = DepGraph::new(true);
    let x = leaf(&mut g);
    let y = g.with_task(5, (), (), |_g: &mut DepGraph<u64>, (), ()| ());
    let _ = y;
    let y = DepNodeIndex { index: 1 };
    let ((_, inner), outer) = g.with_anon_task((), (), |g: &mut DepGraph<u64>, (), ()| {
        g.read(x);
        let r = g.with_anon_task((), (), |g: &mut DepGraph<u64>, (), ()| g.read(y));
        r
    });
    assert_eq!(g.predecessors(inner), vec![y]);
    assert_eq!(g.predecessors(outer), vec![x]);
}

#[test]
fn ignored_reads_are_dropped() {
    let mut g: DepGraph<u64> = DepGraph::new(true);
    let x = leaf(&mut g);
    let y = g.with_task(9, (), (), |_g: &mut DepGraph<u64>, (), ()| ());
    let _ = y;
    let y = DepNodeIndex { index: 1 };
    let before = g.node_count();
    let (v, n) = g.with_anon_task((), (), |g: &mut DepGraph<u64>, (), ()| {
        g.read(x);
        g.with_ignore(|g: &mut DepGraph<u64>| {
            g.read(y);
            17u32
        })
    });
    assert_eq!(v, 17);
    assert_eq!(g.predecessors(n), vec![x]);
    assert_eq!(g.node_count(), before + 1);
}

#[test]
fn disabled_graph_allocates_nothing() {
    let mut g: DepGraph<u64> = DepGraph::new(false);
    let (v, n) = g.with_anon_task(2u64, 3u64, |g: &mut DepGraph<u64>, a: u64, b: u64| {
        g.read(DepNodeIndex::dummy());
        a * b
    });
    assert_eq!(v, 6);
    assert!(n.is_dummy());
    let w = g.with_task(1, (), (), |_g: &mut DepGraph<u64>, (), ()| 4u8);
    assert_eq!(w, 4);
    g.read(DepNodeIndex::dummy());
    assert_eq!(g.with_ignore(|_g: &mut DepGraph<u64>| 9u8), 9);
    assert_eq!(g.node_count(), 0);
    assert!(!g.contains_name(&1));
}

#[test]
fn push_and_pop_by_hand() {
    let mut g: DepGraph<u64> = DepGraph::new(true);
    g.push_task();
    let a = g.pop_task(None);
    g.push_task();
    g.read(a);
    g.read(a);
    let b = g.pop_task(Some(3));
    assert_eq!(a.index, 0);
    assert_eq!(b.index, 1);
    assert_eq!(g.predecessors(b), vec![a]);
    g.push_task();
    g.read(a);
    let c = g.pop_task(None);
    assert_eq!(c.index, 2);
    g.push_task();
    g.read(a);
    assert_eq!(g.pop_task(None), c);
    let mut off: DepGraph<u64> = DepGraph::new(false);
    off.push_task();
    assert!(off.pop_task(Some(3)).is_dummy());
}
