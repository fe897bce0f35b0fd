use std::marker::PhantomData;
use vstd::prelude::*;

use crate::graph::{after_read, body_effect, closes_frame, task_run, DepGraph, DepNodeIndex, DepNodeName};
use crate::safe::DepGraphSafe;

verus! {

/// Identity of one task invocation; fresh for every task started.
#[derive(Clone, Copy, Debug, PartialEq, Eq, Structural)]
pub struct TaskId {
    pub id: u64,
}

/// Lock state of a tracked cell.
#[derive(Clone, Copy, Debug, PartialEq, Eq, Structural)]
pub enum CellState {
    /// Free; the value was last produced by this node.
    Unlocked(DepNodeIndex),
    /// Shared access held by the given task.
    ReadLocked(TaskId),
    /// Exclusive access held by the given task.
    WriteLocked(TaskId),
}

impl CellState {
    /// True if the cell is locked, shared or exclusive, by task `t`.
    pub open spec fn locked_by(self, t: TaskId) -> bool {
        self == CellState::ReadLocked(t) || self == CellState::WriteLocked(t)
    }

    /// A write lock can be taken only on a free cell.
    pub open spec fn may_write(self) -> bool {
        self is Unlocked
    }

    /// A read lock can be taken on a free cell, or again by the task that
    /// already holds it shared.
    pub open spec fn may_read(self, t: TaskId) -> bool {
        self is Unlocked || self == CellState::ReadLocked(t)
    }

    pub fn can_write(&self) -> (r: bool)
        ensures
            r == self.may_write(),
    {
        match self {
            CellState::Unlocked(_) => true,
            _ => false,
        }
    }

    pub fn can_read(&self, t: TaskId) -> (r: bool)
        ensures
            r == self.may_read(t),
    {
        match self {
            CellState::Unlocked(_) => true,
            CellState::ReadLocked(holder) => holder.id == t.id,
            CellState::WriteLocked(_) => false,
        }
    }
}

/// A tracked cell: a value whose every access goes through a task, with its
/// lock state kept in the graph under the cell's id.
///
/// The cell owns its value. Several owners share a cell by holding shared
/// references to it; taking it write-locked needs a `&mut DepCell`. The cell
/// itself is not `Clone`: a copy would carry its own value under the same
/// lock.
pub struct DepCell<T> {
    id: usize,
    value: T,
}

impl<T> DepCell<T> {
    pub closed spec fn cell_id(&self) -> usize {
        self.id
    }

    pub closed spec fn value(&self) -> T {
        self.value
    }

    /// The id under which the graph keeps this cell's lock state.
    pub fn id(&self) -> (r: usize)
        ensures
            r == self.cell_id(),
    {
        self.id
    }
}

/// One running task: its identity and the cells it has locked.
///
/// `'t` is the task's scope. A body receives a `Task<'t, 'env>` for a `'t`
/// it cannot name in its result, and the views handed out by `borrow` and
/// `borrow_mut` live for `'t`, so none of them outlives the task. Cells
/// reached through the body's context live for `'env`, which outlasts `'t`.
pub struct Task<'t, 'env: 't> {
    task_id: TaskId,
    locked: Vec<usize>,
    scope: PhantomData<&'t mut &'env ()>,
}

impl<'t, 'env> Task<'t, 'env> {
    pub closed spec fn id(&self) -> TaskId {
        self.task_id
    }

    pub closed spec fn locked(&self) -> Seq<usize> {
        self.locked@
    }

    /// Every cell on the task's list is a cell of `g` locked by the task, and
    /// the task's identity was handed out by `g`.
    pub open spec fn holds<N>(&self, g: DepGraph<N>) -> bool {
        &&& self.id().id < g.next_task_id()
        &&& forall|k: int|
            0 <= k < self.locked().len() ==> #[trigger] self.locked()[k] < g.cells().len()
                && g.cells()[self.locked()[k] as int].locked_by(self.id())
    }

    pub fn task_id(&self) -> (r: TaskId)
        ensures
            r == self.id(),
    {
        self.task_id
    }

    /// Creates a cell holding `value`, write-locked by the task from the
    /// start. No read is recorded.
    pub fn cell<T, N: DepNodeName>(&mut self, graph: &mut DepGraph<N>, value: T) -> (r: DepCell<T>)
        requires
            old(graph).wf(),
            old(self).holds(*old(graph)),
        ensures
            final(graph).wf(),
            body_effect(*old(graph), *final(graph)),
            final(graph).cells() == old(graph).cells().push(CellState::WriteLocked(old(self).id())),
            final(graph).nodes() == old(graph).nodes(),
            final(graph).frames() == old(graph).frames(),
            final(graph).next_task_id() == old(graph).next_task_id(),
            r.cell_id() == old(graph).cells().len(),
            r.value() == value,
            final(self).id() == old(self).id(),
            final(self).locked() == old(self).locked().push(r.cell_id()),
            final(self).holds(*final(graph)),
    {
        let id = graph.add_cell(CellState::WriteLocked(self.task_id));
        self.locked.push(id);
        assert forall|k: int| 0 <= k < self.locked().len() implies #[trigger] self.locked()[k]
            < graph.cells().len() && graph.cells()[self.locked()[k] as int].locked_by(self.id()) by {
            if k < old(self).locked().len() {
                assert(old(self).locked()[k] == self.locked()[k]);
            }
        }
        DepCell { id, value }
    }

    /// Runs `f` on the value of a cell the task holds write-locked, such as
    /// one it created, and returns what `f` returned. The lock state and the
    /// graph stay as they are; the view given to `f` does not outlive the call.
    pub fn with_value_mut<T, U, N: DepNodeName, G: FnOnce(&mut T) -> U>(
        &self,
        graph: &DepGraph<N>,
        cell: &mut DepCell<T>,
        f: G,
    ) -> (r: U)
        requires
            old(cell).cell_id() < graph.cells().len(),
            graph.cells()[old(cell).cell_id() as int] == CellState::WriteLocked(self.id()),
            forall|v: &mut T| mut_ref_current(v) == old(cell).value() ==> #[trigger] call_requires(f, (v,)),
        ensures
            final(cell).cell_id() == old(cell).cell_id(),
            exists|v: &mut T|
                #[trigger] call_ensures(f, (v,), r) && mut_ref_current(v) == old(cell).value()
                    && mut_ref_future(v) == final(cell).value(),
    {
        let r = f(&mut cell.value);
        assert(exists|v: &mut T|
            #[trigger] call_ensures(f, (v,), r) && mut_ref_current(v) == old(cell).value()
                && mut_ref_future(v) == cell.value());
        r
    }

    /// Takes exclusive access to a free cell for the task's scope `'t`, and
    /// records a read of the node that last produced its value. A cell that
    /// is locked, by any task, cannot be taken.
    pub fn borrow_mut<'c: 't, T, N: DepNodeName>(
        &mut self,
        graph: &mut DepGraph<N>,
        cell: &'c mut DepCell<T>,
    ) -> (r: &'t mut T)
        requires
            old(graph).wf(),
            old(self).holds(*old(graph)),
            old(cell).cell_id() < old(graph).cells().len(),
            old(graph).cells()[old(cell).cell_id() as int].may_write(),
        ensures
            final(graph).wf(),
            body_effect(*old(graph), *final(graph)),
            ({
                let p = old(graph).cells()[old(cell).cell_id() as int]->Unlocked_0;
                final(graph).frames() == after_read(old(graph).frames(), p)
            }),
            final(graph).cells() == old(graph).cells().update(
                old(cell).cell_id() as int,
                CellState::WriteLocked(old(self).id()),
            ),
            final(graph).nodes() == old(graph).nodes(),
            final(graph).next_task_id() == old(graph).next_task_id(),
            final(self).id() == old(self).id(),
            final(self).locked() == old(self).locked().push(old(cell).cell_id()),
            final(self).holds(*final(graph)),
            *r == old(cell).value(),
            final(cell).value() == *final(r),
            final(cell).cell_id() == old(cell).cell_id(),
    {
        let id = cell.id;
        let state = graph.cell_state(id);
        if let CellState::Unlocked(p) = state {
            graph.read(p);
        }
        graph.set_cell_state(id, CellState::WriteLocked(self.task_id));
        self.locked.push(id);
        assert forall|k: int| 0 <= k < self.locked().len() implies #[trigger] self.locked()[k]
            < graph.cells().len() && graph.cells()[self.locked()[k] as int].locked_by(self.id()) by {
            if k < old(self).locked().len() {
                assert(old(self).locked()[k] == self.locked()[k]);
                assert(old(graph).cells()[self.locked()[k] as int].locked_by(self.id()));
            }
        }
        &mut cell.value
    }

    /// Takes shared access to a cell: a free cell becomes read-locked by this
    /// task and a read of its producer is recorded; a cell the task already
    /// holds shared is read again with no new record. A cell write-locked, or
    /// read-locked by another task, cannot be read.
    pub fn borrow<'c: 't, T, N: DepNodeName>(&mut self, graph: &mut DepGraph<N>, cell: &'c DepCell<T>) -> (r: &'t T)
        requires
            old(graph).wf(),
            old(self).holds(*old(graph)),
            cell.cell_id() < old(graph).cells().len(),
            old(graph).cells()[cell.cell_id() as int].may_read(old(self).id()),
        ensures
            final(graph).wf(),
            body_effect(*old(graph), *final(graph)),
            final(self).id() == old(self).id(),
            final(self).holds(*final(graph)),
            *r == cell.value(),
            old(graph).cells()[cell.cell_id() as int] matches CellState::Unlocked(p) ==> {
                &&& final(graph).frames() == after_read(old(graph).frames(), p)
                &&& final(graph).cells() == old(graph).cells().update(
                    cell.cell_id() as int,
                    CellState::ReadLocked(old(self).id()),
                )
                &&& final(graph).nodes() == old(graph).nodes()
                &&& final(graph).next_task_id() == old(graph).next_task_id()
                &&& final(self).locked() == old(self).locked().push(cell.cell_id())
            },
            old(graph).cells()[cell.cell_id() as int] is ReadLocked ==> {
                &&& *final(graph) == *old(graph)
                &&& *final(self) == *old(self)
            },
    {
        let id = cell.id;
        let state = graph.cell_state(id);
        if let CellState::Unlocked(p) = state {
            graph.read(p);
            graph.set_cell_state(id, CellState::ReadLocked(self.task_id));
            self.locked.push(id);
            assert forall|k: int| 0 <= k < self.locked().len() implies #[trigger] self.locked()[k]
                < graph.cells().len() && graph.cells()[self.locked()[k] as int].locked_by(self.id()) by {
                if k < old(self).locked().len() {
                    assert(old(self).locked()[k] == self.locked()[k]);
                    assert(old(graph).cells()[self.locked()[k] as int].locked_by(self.id()));
                }
            }
        }
        &cell.value
    }
}

/// True if the id `c` occurs in `s`.
pub open spec fn lists_cell(s: Seq<usize>, c: int) -> bool {
    exists|k: int| 0 <= k < s.len() && s[k] as int == c
}

/// Every cell locked in `post` was already locked, the same way, in `pre`,
/// or is on the list of the task `t`.
pub open spec fn locks_accounted<N>(pre: DepGraph<N>, post: DepGraph<N>, t: Task) -> bool {
    forall|c: int|
        0 <= c < post.cells().len() && !(#[trigger] post.cells()[c] is Unlocked) ==> (c
            < pre.cells().len() && post.cells()[c] == pre.cells()[c]) || lists_cell(t.locked(), c)
}

/// One run of `cell_task` from `pre` to `post`. A task with the fresh
/// identity `pre.next_task_id()` and no cells starts on `start`, which is
/// `pre` with that identity handed out and an empty frame opened (none on a
/// disabled graph). The body takes the graph to `end` and the task to
/// `task_end`. Then the frame is closed as an anonymous one, `n` being the
/// node that stands for it (the dummy index on a disabled graph), and every
/// cell on the task's list becomes free with `n` as its producer.
pub open spec fn cell_task_run<N>(
    pre: DepGraph<N>,
    start: DepGraph<N>,
    task_start: Task,
    end: DepGraph<N>,
    task_end: Task,
    n: DepNodeIndex,
    post: DepGraph<N>,
) -> bool {
    &&& task_start.id().id == pre.next_task_id()
    &&& task_start.locked() == Seq::<usize>::empty()
    &&& start.is_enabled() == pre.is_enabled()
    &&& start.nodes() == pre.nodes()
    &&& start.cells() == pre.cells()
    &&& start.next_task_id() == pre.next_task_id() + 1
    &&& start.frames() == if pre.is_enabled() {
        pre.frames().push(Seq::empty())
    } else {
        pre.frames()
    }
    &&& body_effect(start, end)
    &&& task_end.id() == task_start.id()
    &&& task_end.holds(end)
    &&& post.is_enabled() == end.is_enabled()
    &&& post.next_task_id() == end.next_task_id()
    &&& if end.is_enabled() {
        &&& post.frames() == end.frames().drop_last()
        &&& closes_frame(end.nodes(), None, end.frames().last(), n, post.nodes())
    } else {
        &&& n.spec_is_dummy()
        &&& post.frames() == end.frames()
        &&& post.nodes() == end.nodes()
    }
    &&& post.cells().len() == end.cells().len()
    &&& forall|c: int|
        0 <= c < end.cells().len() ==> #[trigger] post.cells()[c] == if lists_cell(task_end.locked(), c) {
            CellState::Unlocked(n)
        } else {
            end.cells()[c]
        }
}

impl<'t, 'env> Task<'t, 'env> {
    /// Ends the task's hold on its cells: every cell it locked becomes free,
    /// with `node`, the node the task produced, as its producer.
    fn release_locks<N: DepNodeName>(self, graph: &mut DepGraph<N>, node: DepNodeIndex)
        requires
            old(graph).wf(),
            self.holds(*old(graph)),
            old(graph).admits_state(CellState::Unlocked(node)),
        ensures
            final(graph).wf(),
            final(graph).cells().len() == old(graph).cells().len(),
            forall|c: int|
                0 <= c < old(graph).cells().len() ==> #[trigger] final(graph).cells()[c] == if lists_cell(self.locked(), c) {
                    CellState::Unlocked(node)
                } else {
                    old(graph).cells()[c]
                },
            final(graph).is_enabled() == old(graph).is_enabled(),
            final(graph).nodes() == old(graph).nodes(),
            final(graph).frames() == old(graph).frames(),
            final(graph).next_task_id() == old(graph).next_task_id(),
    {
        let mut i: usize = 0;
        while i < self.locked.len()
            invariant
                0 <= i <= self.locked().len(),
                graph.wf(),
                graph.admits_state(CellState::Unlocked(node)),
                graph.cells().len() == old(graph).cells().len(),
                graph.is_enabled() == old(graph).is_enabled(),
                graph.nodes() == old(graph).nodes(),
                graph.frames() == old(graph).frames(),
                graph.next_task_id() == old(graph).next_task_id(),
                self.holds(*old(graph)),
                forall|c: int|
                    0 <= c < old(graph).cells().len() ==> #[trigger] graph.cells()[c] == if lists_cell(self.locked().subrange(0, i as int), c) {
                        CellState::Unlocked(node)
                    } else {
                        old(graph).cells()[c]
                    },
            decreases self.locked().len() - i,
        {
            let id = self.locked[i];
            assert(id < old(graph).cells().len());
            graph.set_cell_state(id, CellState::Unlocked(node));
            proof {
                let prev = self.locked().subrange(0, i as int);
                let next = self.locked().subrange(0, i + 1);
                assert(next =~= prev.push(id));
                assert forall|c: int| 0 <= c < old(graph).cells().len() implies #[trigger] graph.cells()[c] == if lists_cell(next, c) {
                    CellState::Unlocked(node)
                } else {
                    old(graph).cells()[c]
                } by {
                    if lists_cell(prev, c) {
                        let j = choose|j: int| 0 <= j < prev.len() && prev[j] as int == c;
                        assert(next[j] as int == c);
                    }
                    if lists_cell(next, c) && c != id as int {
                        let j = choose|j: int| 0 <= j < next.len() && next[j] as int == c;
                        assert(next[i as int] == id);
                        assert(prev[j] as int == c);
                    }
                    if c == id as int {
                        assert(next[i as int] == id);
                    }
                }
            }
            i = i + 1;
        }
        assert(self.locked().subrange(0, self.locked().len() as int) =~= self.locked());
    }
}

impl<N: DepNodeName> DepGraph<N> {
    /// Runs `task(self, t, cx, arg)` as an anonymous task `t` with a fresh
    /// identity, through which the body reaches tracked cells. When the body
    /// returns, the node is created (or reused) and every cell the task
    /// locked becomes free with that node as its producer.
    pub fn cell_task<'env, C, A, R, F>(&mut self, cx: C, arg: A, task: F) -> (r: R) where
        C: DepGraphSafe + 'env,
        A: DepGraphSafe + 'env,
        F: for<'t> FnOnce(&mut DepGraph<N>, &mut Task<'t, 'env>, C, A) -> R,

        requires
            old(self).wf(),
            old(self).next_task_id() < u64::MAX,
            forall|g: &mut DepGraph<N>, t: &mut Task|
                mut_ref_current(g).wf() && mut_ref_current(t).holds(mut_ref_current(g))
                    && mut_ref_current(t).id().id >= old(self).next_task_id()
                    ==> #[trigger] call_requires(task, (g, t, cx, arg)),
            forall|g: &mut DepGraph<N>, t: &mut Task, r: R| #[trigger]
                call_ensures(task, (g, t, cx, arg), r) ==> {
                    &&& body_effect(mut_ref_current(g), mut_ref_future(g))
                    &&& mut_ref_future(t).id() == mut_ref_current(t).id()
                    &&& mut_ref_future(t).holds(mut_ref_future(g))
                    &&& locks_accounted(mut_ref_current(g), mut_ref_future(g), mut_ref_future(t))
                },
        ensures
            body_effect(*old(self), *final(self)),
            final(self).frames() == old(self).frames(),
            final(self).next_task_id() > old(self).next_task_id(),
            forall|c: int|
                0 <= c < final(self).cells().len() && !(#[trigger] final(self).cells()[c] is Unlocked)
                    ==> c < old(self).cells().len() && final(self).cells()[c] == old(self).cells()[c],
            exists|h: &mut DepGraph<N>, t: &mut Task, n: DepNodeIndex|
                call_ensures(task, (h, t, cx, arg), r) && #[trigger] cell_task_run(
                    *old(self),
                    mut_ref_current(h),
                    mut_ref_current(t),
                    mut_ref_future(h),
                    mut_ref_future(t),
                    n,
                    *final(self),
                ),
    {
        let task_id = self.start_task();
        let mut t = Task { task_id, locked: Vec::new(), scope: PhantomData };
        self.push_task();
        let ghost pushed = *self;
        let ghost t_start = t;
        let result = task(self, &mut t, cx, arg);
        let ghost after = *self;
        let ghost t_end = t;
        assert(exists|h: &mut DepGraph<N>, tt: &mut Task|
            #[trigger] call_ensures(task, (h, tt, cx, arg), result) && mut_ref_current(h) == pushed
                && mut_ref_future(h) == after && mut_ref_current(tt) == t_start && mut_ref_future(tt)
                == t_end);
        assert(body_effect(pushed, after));
        proof {
            if !self.is_enabled() {
                self.lemma_disabled_is_empty();
            }
        }
        let node = self.pop_task(None);
        t.release_locks(self, node);
        proof {
            old(self).lemma_cells_admitted();
            after.lemma_cells_admitted();
            assert(self.frames() =~= old(self).frames());
            assert forall|c: int|
                0 <= c < old(self).cells().len() && !(#[trigger] old(self).cells()[c] is Unlocked)
                    implies self.cells()[c] == old(self).cells()[c] by {
                assert(after.cells()[c] == old(self).cells()[c]);
                if lists_cell(t.locked(), c) {
                    let k = choose|k: int| 0 <= k < t.locked().len() && t.locked()[k] as int == c;
                    assert(after.cells()[t.locked()[k] as int].locked_by(t.id()));
                }
            }
            assert forall|c: int|
                0 <= c < self.cells().len() && !(#[trigger] self.cells()[c] is Unlocked)
                    implies c < old(self).cells().len() && self.cells()[c] == old(self).cells()[c] by {
                if !lists_cell(t.locked(), c) {
                    assert(after.cells()[c] == self.cells()[c]);
                    if c >= old(self).cells().len() || after.cells()[c] != old(self).cells()[c] {
                        assert(after.admits_state(after.cells()[c]));
                    }
                }
            }
            let (h, tt) = choose|h: &mut DepGraph<N>, tt: &mut Task|
                #[trigger] call_ensures(task, (h, tt, cx, arg), result) && mut_ref_current(h) == pushed
                    && mut_ref_future(h) == after && mut_ref_current(tt) == t_start && mut_ref_future(tt)
                    == t_end;
            assert(t_start.locked() =~= Seq::<usize>::empty());
            assert(cell_task_run(*old(self), pushed, t_start, after, t_end, node, *self));
            assert(call_ensures(task, (h, tt, cx, arg), result));
        }
        result
    }

    /// Computes a value with an anonymous task and wraps it in a new free
    /// cell whose producer is that task's node.
    pub fn new_cell<C, A, T, F>(&mut self, cx: C, arg: A, f: F) -> (r: DepCell<T>) where
        C: DepGraphSafe,
        A: DepGraphSafe,
        F: FnOnce(&mut DepGraph<N>, C, A) -> T,

        requires
            old(self).wf(),
            forall|g: &mut DepGraph<N>|
                mut_ref_current(g).wf() ==> #[trigger] call_requires(f, (g, cx, arg)),
            forall|g: &mut DepGraph<N>, r: T| #[trigger]
                call_ensures(f, (g, cx, arg), r) ==> body_effect(mut_ref_current(g), mut_ref_future(g)),
        ensures
            body_effect(*old(self), *final(self)),
            final(self).frames() == old(self).frames(),
            r.cell_id() + 1 == final(self).cells().len(),
            final(self).cells().last() is Unlocked,
            final(self).admits_state(final(self).cells().last()),
            exists|h: &mut DepGraph<N>, i: DepNodeIndex, mid: DepGraph<N>|
                call_ensures(f, (h, cx, arg), r.value()) && #[trigger] task_run(
                    *old(self),
                    mut_ref_current(h),
                    mut_ref_future(h),
                    None,
                    mid,
                    i,
                ) && final(self).cells() == mid.cells().push(CellState::Unlocked(i))
                    && final(self).nodes() == mid.nodes() && final(self).frames() == mid.frames()
                    && final(self).next_task_id() == mid.next_task_id(),
    {
        let (value, node) = self.with_anon_task(cx, arg, f);
        let ghost mid = *self;
        let id = self.add_cell(CellState::Unlocked(node));
        assert forall|c: int|
            0 <= c < old(self).cells().len() && !(#[trigger] old(self).cells()[c] is Unlocked)
                implies self.cells()[c] == old(self).cells()[c] by {
            assert(mid.cells()[c] == old(self).cells()[c]);
        }
        let r = DepCell { id, value };
        proof {
            let h = choose|h: &mut DepGraph<N>|
                #[trigger] call_ensures(f, (h, cx, arg), value) && task_run(
                    *old(self),
                    mut_ref_current(h),
                    mut_ref_future(h),
                    None,
                    mid,
                    node,
                );
            assert(r.value() == value);
            assert(task_run(*old(self), mut_ref_current(h), mut_ref_future(h), None, mid, node));
            assert(call_ensures(f, (h, cx, arg), r.value()));
        }
        r
    }
}

} // verus!
