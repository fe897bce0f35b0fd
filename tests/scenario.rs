use dep_graph::{AssertDepGraphSafe, CellState, DepCell, DepGraph, DepNodeIndex, Task};

struct Counter {
    counter: u64,
}

fn producer(c: CellState) -> DepNodeIndex {
    match c {
        CellState::Unlocked(p) => p,
        other => panic!("cell still locked: {:?}", other),
    }
}

#[test]
fn counter_through_three_tasks() {
    let mut graph: DepGraph<u64> = DepGraph::new(true);

    // task A creates the cell; nothing is read
    fn create(g: &mut DepGraph<u64>, t: &mut Task, _: (), _: ()) -> DepCell<Counter> {
        t.cell(g, Counter { counter: 0 })
    }
    let mut cell = graph.cell_task((), (), create);
    let node_a = producer(graph.cell_state(cell.id()));
    assert!(!node_a.is_dummy());
    assert_eq!(graph.predecessors(node_a), vec![]);

    // task B writes 5 and depends on A
    fn write<'t, 'env, 'x: 'env>(
        g: &mut DepGraph<u64>,
        t: &mut Task<'t, 'env>,
        c: AssertDepGraphSafe<&'x mut DepCell<Counter>>,
        _: (),
    ) {
        let v = t.borrow_mut(g, c.0);
        v.counter = 5;
    }
    graph.cell_task(AssertDepGraphSafe(&mut cell), (), write);
    let node_b = producer(graph.cell_state(cell.id()));
    assert_ne!(node_b, node_a);
    assert_eq!(graph.predecessors(node_b), vec![node_a]);

    // task C reads twice and depends on B once
    fn read_twice<'t, 'env, 'x: 'env>(
        g: &mut DepGraph<u64>,
        t: &mut Task<'t, 'env>,
        c: AssertDepGraphSafe<&'x DepCell<Counter>>,
        _: (),
    ) {
        t.borrow(g, c.0);
        let v = t.borrow(g, c.0);
        assert_eq!(v.counter, 5);
    }
    graph.cell_task(AssertDepGraphSafe(&cell), (), read_twice);
    let node_c = producer(graph.cell_state(cell.id()));
    assert_eq!(graph.predecessors(node_c), vec![node_b]);
    assert_eq!(graph.node_count(), 3);
}

#[test]
fn write_lock_refused_while_read_locked() {
    let mut graph: DepGraph<u64> = DepGraph::new(true);
    fn create(g: &mut DepGraph<u64>, t: &mut Task, _: (), _: ()) -> DepCell<Counter> {
        t.cell(g, Counter { counter: 1 })
    }
    let cell = graph.cell_task((), (), create);
    fn check<'t, 'env, 'x: 'env>(
        g: &mut DepGraph<u64>,
        t: &mut Task<'t, 'env>,
        c: AssertDepGraphSafe<&'x DepCell<Counter>>,
        _: (),
    ) {
        assert!(g.cell_state(c.0.id()).can_read(t.task_id()));
        assert!(g.cell_state(c.0.id()).can_write());
        t.borrow(g, c.0);
        let s = g.cell_state(c.0.id());
        assert_eq!(s, CellState::ReadLocked(t.task_id()));
        assert!(s.can_read(t.task_id()));
        assert!(!s.can_write());
    }
    graph.cell_task(AssertDepGraphSafe(&cell), (), check);
}

#[test]
fn cell_created_in_task_is_write_locked() {
    let mut graph: DepGraph<u64> = DepGraph::new(true);
    fn create(g: &mut DepGraph<u64>, t: &mut Task, _: (), _: ()) -> usize {
        let c = t.cell(g, Counter { counter: 0 });
        let s = g.cell_state(c.id());
        assert_eq!(s, CellState::WriteLocked(t.task_id()));
        assert!(!s.can_read(t.task_id()));
        c.id()
    }
    let id = graph.cell_task((), (), create);
    assert!(matches!(graph.cell_state(id), CellState::Unlocked(_)));
}

#[test]
fn nested_tasks_get_distinct_ids() {
    let mut graph: DepGraph<u64> = DepGraph::new(true);
    fn inner(_g: &mut DepGraph<u64>, t: &mut Task, outer: u64, _: ()) {
        assert_ne!(t.task_id().id, outer);
    }
    fn outer(g: &mut DepGraph<u64>, t: &mut Task, _: (), _: ()) {
        let id = t.task_id().id;
        g.cell_task(id, (), inner);
    }
    graph.cell_task((), (), outer);
}

#[test]
fn cells_on_disabled_graph() {
    let mut graph: DepGraph<u64> = DepGraph::new(false);
    fn create(g: &mut DepGraph<u64>, t: &mut Task, _: (), _: ()) -> DepCell<Counter> {
        t.cell(g, Counter { counter: 3 })
    }
    let cell = graph.cell_task((), (), create);
    assert!(producer(graph.cell_state(cell.id())).is_dummy());
    fn read<'t, 'env, 'x: 'env>(
        g: &mut DepGraph<u64>,
        t: &mut Task<'t, 'env>,
        c: AssertDepGraphSafe<&'x DepCell<Counter>>,
        _: (),
    ) {
        assert_eq!(t.borrow(g, c.0).counter, 3);
    }
    graph.cell_task(AssertDepGraphSafe(&cell), (), read);
    assert_eq!(graph.node_count(), 0);
}

#[test]
fn value_mut_on_own_cell() {
    let mut graph: DepGraph<u64> = DepGraph::new(true);
    fn create(g: &mut DepGraph<u64>, t: &mut Task, _: (), _: ()) -> DepCell<Counter> {
        let mut c = t.cell(g, Counter { counter: 1 });
        let before = t.with_value_mut(g, &mut c, |v: &mut Counter| {
            let b = v.counter;
            v.counter += 41;
            b
        });
        assert_eq!(before, 1);
        c
    }
    let cell = graph.cell_task((), (), create);
    fn read<'t, 'env, 'x: 'env>(
        g: &mut DepGraph<u64>,
        t: &mut Task<'t, 'env>,
        c: AssertDepGraphSafe<&'x DepCell<Counter>>,
        _: (),
    ) {
        assert_eq!(t.borrow(g, c.0).counter, 42);
    }
    graph.cell_task(AssertDepGraphSafe(&cell), (), read);
}

#[test]
fn new_cell_holds_value_and_node() {
    let mut graph: DepGraph<u64> = DepGraph::new(true);
    let cell = graph.new_cell(7u64, (), |_g: &mut DepGraph<u64>, a: u64, _: ()| Counter { counter: a });
    let p = producer(graph.cell_state(cell.id()));
    assert_eq!(p.index, 0);
    assert_eq!(graph.predecessors(p), vec![]);
    fn read<'t, 'env, 'x: 'env>(
        g: &mut DepGraph<u64>,
        t: &mut Task<'t, 'env>,
        c: AssertDepGraphSafe<&'x DepCell<Counter>>,
        _: (),
    ) {
        assert_eq!(t.borrow(g, c.0).counter, 7);
    }
    graph.cell_task(AssertDepGraphSafe(&cell), (), read);
    let q = producer(graph.cell_state(cell.id()));
    assert_eq!(graph.predecessors(q), vec![p]);
}
