use dep_graph::{AssertDepGraphSafe, CellState, DepCell, DepGraph, DepGraphSafe, Task};

struct TestCx {
    mirs: Vec<DepCell<Mir>>,
}

impl TestCx {
    fn new() -> Self {
        TestCx { mirs: vec![] }
    }

    fn add_mir(&mut self, graph: &mut DepGraph<()>) {
        let cell = graph.new_cell((), (), |_g: &mut DepGraph<()>, (), ()| Mir::new());
        self.mirs.push(cell);
    }
}

impl DepGraphSafe for TestCx {}

struct Mir {
    data: &'static u32,
    counter: usize,
}

const MIR_DATA: u32 = 22;

impl Mir {
    fn new() -> Self {
        Mir { data: &MIR_DATA, counter: 0 }
    }
}

fn inc_counters<'t, 'env, 'x: 'env>(
    g: &mut DepGraph<()>,
    task: &mut Task<'t, 'env>,
    cx: AssertDepGraphSafe<&'x mut TestCx>,
    amount: usize,
) {
    let cx: &'x mut TestCx = cx.0;
    for c in cx.mirs.iter_mut() {
        let m = task.borrow_mut(g, c);
        m.counter += amount;
    }
}

#[test]
fn basic_usage() {
    let mut graph: DepGraph<()> = DepGraph::new(true);
    let mut cx = TestCx::new();
    cx.add_mir(&mut graph);

    graph.cell_task(AssertDepGraphSafe(&mut cx), 1, inc_counters);
    fn check_one<'t, 'env, 'x: 'env>(
        g: &mut DepGraph<()>,
        task: &mut Task<'t, 'env>,
        cx: &'x TestCx,
        amount: usize,
    ) {
        for c in &cx.mirs {
            assert_eq!(task.borrow(g, c).counter, amount);
        }
    }
    graph.cell_task(&cx, 1, check_one);
}

#[test]
fn borrow_mut_twice() {
    let mut graph: DepGraph<()> = DepGraph::new(true);
    let mut cx = TestCx::new();
    cx.add_mir(&mut graph);

    fn take_twice<'t, 'env, 'x: 'env>(
        g: &mut DepGraph<()>,
        task: &mut Task<'t, 'env>,
        cx: AssertDepGraphSafe<&'x mut TestCx>,
        _: usize,
    ) {
        let cx: &'x mut TestCx = cx.0;
        for c in cx.mirs.iter_mut() {
            let id = c.id();
            task.borrow_mut(g, c);
            // a second write lock on a cell the task holds is refused
            assert!(!g.cell_state(id).can_write());
        }
    }
    graph.cell_task(AssertDepGraphSafe(&mut cx), 1, take_twice);
}

#[test]
fn borrow_twice() {
    let mut graph: DepGraph<()> = DepGraph::new(true);
    let mut cx = TestCx::new();
    cx.add_mir(&mut graph);

    fn verify_counters<'t, 'env, 'x: 'env>(
        g: &mut DepGraph<()>,
        task: &mut Task<'t, 'env>,
        cx: &'x TestCx,
        amount: usize,
    ) {
        for c in &cx.mirs {
            task.borrow(g, c);
            let m = task.borrow(g, c);
            assert_eq!(m.counter, amount);
            assert_eq!(*m.data, 22);
        }
    }
    graph.cell_task(&cx, 0, verify_counters);
}

#[test]
fn read_by_multiple_tasks() {
    let mut graph: DepGraph<()> = DepGraph::new(true);
    let mut cx = TestCx::new();
    cx.add_mir(&mut graph);

    fn verify_counters<'t, 'env, 'x: 'env>(
        g: &mut DepGraph<()>,
        task: &mut Task<'t, 'env>,
        cx: &'x TestCx,
        amount: usize,
    ) {
        for c in &cx.mirs {
            task.borrow(g, c);
            task.borrow(g, c);

            if amount > 0 {
                g.cell_task(cx, amount - 1, verify_nested);
            }
        }
    }
    fn verify_nested<'t, 'env, 'x: 'env>(
        g: &mut DepGraph<()>,
        task: &mut Task<'t, 'env>,
        cx: &'x TestCx,
        _: usize,
    ) {
        for c in &cx.mirs {
            // the cell is read-locked by the enclosing task, which is another task
            assert!(!g.cell_state(c.id()).can_read(task.task_id()));
            assert!(matches!(g.cell_state(c.id()), CellState::ReadLocked(_)));
        }
    }
    graph.cell_task(&cx, 1, verify_counters);
    assert!(matches!(graph.cell_state(cx.mirs[0].id()), CellState::Unlocked(_)));
}
