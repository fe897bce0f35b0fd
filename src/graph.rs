use std::collections::HashSet;
use vstd::prelude::*;

use crate::cell::{CellState, TaskId};
use crate::safe::DepGraphSafe;

verus! {

broadcast use vstd::std_specs::hash::group_hash_axioms;

/// Handle of a node in the graph's node storage.
#[derive(Clone, Copy, Debug, Hash, PartialEq, Eq, Structural)]
pub struct DepNodeIndex {
    pub index: usize,
}

impl DepNodeIndex {
    /// The reserved index that stands for "tracking disabled".
    pub open spec fn spec_is_dummy(self) -> bool {
        self.index == usize::MAX
    }

    pub fn dummy() -> (r: Self)
        ensures
            r.spec_is_dummy(),
    {
        DepNodeIndex { index: usize::MAX }
    }

    pub fn is_dummy(self) -> (r: bool)
        ensures
            r == self.spec_is_dummy(),
    {
        self.index == usize::MAX
    }
}

/// Stable names of named nodes. Two names are the same name exactly when
/// they are equal values.
pub trait DepNodeName: Sized {
    fn same_name(&self, other: &Self) -> (r: bool)
        ensures
            r == (*self == *other),
    ;
}

impl DepNodeName for () {
    fn same_name(&self, other: &Self) -> (r: bool) {
        true
    }
}

impl DepNodeName for u64 {
    fn same_name(&self, other: &Self) -> (r: bool) {
        *self == *other
    }
}

impl DepNodeName for usize {
    fn same_name(&self, other: &Self) -> (r: bool) {
        *self == *other
    }
}

/// What a node is: its optional name and its predecessor list.
pub struct DepNodeView<N> {
    pub name: Option<N>,
    pub preds: Seq<DepNodeIndex>,
}

/// True if no two positions of `s` hold the same index.
pub open spec fn distinct_indices(s: Seq<DepNodeIndex>) -> bool {
    forall|a: int, b: int| 0 <= a < b < s.len() ==> s[a] != s[b]
}

/// `s` after a read of `v`: unchanged if `v` is already in it, else `v` appended.
pub open spec fn add_pred(s: Seq<DepNodeIndex>, v: DepNodeIndex) -> Seq<DepNodeIndex> {
    if s.contains(v) {
        s
    } else {
        s.push(v)
    }
}

/// True if some node of `nodes` carries the name `n`.
pub open spec fn name_taken<N>(nodes: Seq<DepNodeView<N>>, n: N) -> bool {
    exists|i: int| 0 <= i < nodes.len() && #[trigger] nodes[i].name == Some(n)
}

/// True if node `i` of `nodes` is anonymous with predecessor list `preds`.
pub open spec fn is_anon_node<N>(nodes: Seq<DepNodeView<N>>, preds: Seq<DepNodeIndex>, i: int) -> bool {
    0 <= i < nodes.len() && nodes[i].name is None && nodes[i].preds == preds
}

/// True if `nodes` holds an anonymous node with predecessor list `preds`.
pub open spec fn has_anon_node<N>(nodes: Seq<DepNodeView<N>>, preds: Seq<DepNodeIndex>) -> bool {
    exists|i: int| #[trigger] is_anon_node(nodes, preds, i)
}

/// What closing a frame with predecessor list `preds` does to node storage
/// `nodes`, given the index `r` it returns: an anonymous frame whose list
/// already names an anonymous node returns that node and adds nothing;
/// otherwise a new node is appended at the end.
pub open spec fn closes_frame<N>(
    nodes: Seq<DepNodeView<N>>,
    opt_name: Option<N>,
    preds: Seq<DepNodeIndex>,
    r: DepNodeIndex,
    nodes_after: Seq<DepNodeView<N>>,
) -> bool {
    if opt_name is None && has_anon_node(nodes, preds) {
        &&& is_anon_node(nodes, preds, r.index as int)
        &&& nodes_after == nodes
    } else {
        &&& r.index == nodes.len()
        &&& nodes_after == nodes.push(DepNodeView { name: opt_name, preds })
    }
}

/// The task stack after a read of `v`: recorded in the innermost frame, if
/// there is one.
pub open spec fn after_read(frames: Seq<Seq<DepNodeIndex>>, v: DepNodeIndex) -> Seq<Seq<DepNodeIndex>> {
    if frames.len() == 0 {
        frames
    } else {
        frames.update(frames.len() - 1, add_pred(frames.last(), v))
    }
}

struct DepNodeData<N> {
    opt_name: Option<N>,
    /// Position of this node's predecessor list in the interning table.
    predecessors: usize,
}

/// One frame per active task: the predecessors read so far, in the order of
/// first access, and the set of their indices.
struct TaskStackEntry {
    predecessors: Vec<DepNodeIndex>,
    predecessor_set: HashSet<usize>,
}

impl TaskStackEntry {
    spec fn wf(&self) -> bool {
        &&& distinct_indices(self.predecessors@)
        &&& forall|k: usize|
            #[trigger] self.predecessor_set@.contains(k) <==> exists|j: int|
                0 <= j < self.predecessors@.len() && #[trigger] self.predecessors@[j].index == k
    }
}

struct DepGraphNodes<N> {
    node_data: Vec<DepNodeData<N>>,
    /// Interning table: every distinct predecessor list, stored once.
    pred_lists: Vec<Vec<DepNodeIndex>>,
    /// For each interned list, the anonymous node named by it, if any.
    anon_nodes: Vec<Option<DepNodeIndex>>,
    task_stack: Vec<TaskStackEntry>,
}

impl<N> DepGraphNodes<N> {
    spec fn list_of(&self, i: int) -> int {
        self.node_data@[i].predecessors as int
    }

    spec fn node_view(&self, i: int) -> DepNodeView<N> {
        DepNodeView {
            name: self.node_data@[i].opt_name,
            preds: self.pred_lists@[self.list_of(i)]@,
        }
    }

    spec fn list_ids(&self) -> Seq<int> {
        Seq::new(self.node_data@.len(), |i: int| self.list_of(i))
    }

    spec fn nodes(&self) -> Seq<DepNodeView<N>> {
        Seq::new(self.node_data@.len(), |i: int| self.node_view(i))
    }

    spec fn frames(&self) -> Seq<Seq<DepNodeIndex>> {
        Seq::new(self.task_stack@.len(), |i: int| self.task_stack@[i].predecessors@)
    }

    spec fn wf(&self) -> bool {
        &&& self.node_data@.len() <= usize::MAX
        &&& self.anon_nodes@.len() == self.pred_lists@.len()
        &&& forall|i: int|
            0 <= i < self.node_data@.len() ==> (#[trigger] self.node_data@[i]).predecessors
                < self.pred_lists@.len()
        &&& forall|a: int, b: int|
            0 <= a < self.pred_lists@.len() && 0 <= b < self.pred_lists@.len() && a != b
                ==> #[trigger] self.pred_lists@[a]@ != #[trigger] self.pred_lists@[b]@
        &&& forall|l: int|
            0 <= l < self.anon_nodes@.len() ==> match #[trigger] self.anon_nodes@[l] {
                Some(x) => {
                    &&& x.index < self.node_data@.len()
                    &&& self.node_data@[x.index as int].opt_name is None
                    &&& self.list_of(x.index as int) == l
                },
                None => true,
            }
        &&& forall|i: int|
            0 <= i < self.node_data@.len() && (#[trigger] self.node_data@[i]).opt_name is None
                ==> self.anon_nodes@[self.list_of(i)] == Some(DepNodeIndex { index: i as usize })
        &&& forall|a: int, b: int|
            0 <= a < self.node_data@.len() && 0 <= b < self.node_data@.len() && a != b
                && (#[trigger] self.node_data@[a]).opt_name is Some
                && (#[trigger] self.node_data@[b]).opt_name is Some
                ==> self.node_data@[a].opt_name != self.node_data@[b].opt_name
        &&& forall|f: int| 0 <= f < self.task_stack@.len() ==> (#[trigger] self.task_stack@[f]).wf()
    }
}

/// Element-wise comparison of two predecessor lists.
fn same_list(a: &Vec<DepNodeIndex>, b: &Vec<DepNodeIndex>) -> (r: bool)
    ensures
        r == (a@ == b@),
{
    if a.len() != b.len() {
        return false;
    }
    let mut i: usize = 0;
    while i < a.len()
        invariant
            a@.len() == b@.len(),
            0 <= i <= a@.len(),
            forall|j: int| 0 <= j < i ==> a@[j] == b@[j],
        decreases a@.len() - i,
    {
        if a[i].index != b[i].index {
            return false;
        }
        i = i + 1;
    }
    assert(a@ =~= b@);
    true
}

impl<N: DepNodeName> DepGraphNodes<N> {
    fn new() -> (r: Self)
        ensures
            r.wf(),
            r.nodes() == Seq::<DepNodeView<N>>::empty(),
            r.frames() == Seq::<Seq<DepNodeIndex>>::empty(),
            r.node_data@.len() == 0,
            r.task_stack@.len() == 0,
            r.pred_lists@.len() == 0,
            r.anon_nodes@.len() == 0,
    {
        let r = DepGraphNodes {
            node_data: Vec::new(),
            pred_lists: Vec::new(),
            anon_nodes: Vec::new(),
            task_stack: Vec::new(),
        };
        assert(r.nodes() =~= Seq::<DepNodeView<N>>::empty());
        assert(r.frames() =~= Seq::<Seq<DepNodeIndex>>::empty());
        r
    }

    fn push_task(&mut self)
        requires
            old(self).wf(),
        ensures
            final(self).wf(),
            final(self).nodes() == old(self).nodes(),
            final(self).frames() == old(self).frames().push(Seq::empty()),
            final(self).pred_lists@ == old(self).pred_lists@,
            final(self).node_data@ == old(self).node_data@,
    {
        let entry = TaskStackEntry { predecessors: Vec::new(), predecessor_set: HashSet::new() };
        self.task_stack.push(entry);
        assert(final(self).frames() =~= old(self).frames().push(Seq::empty()));
        assert(final(self).nodes() =~= old(self).nodes());
    }

    fn read(&mut self, v: DepNodeIndex)
        requires
            old(self).wf(),
        ensures
            final(self).wf(),
            final(self).nodes() == old(self).nodes(),
            final(self).pred_lists@ == old(self).pred_lists@,
            final(self).node_data@ == old(self).node_data@,
            old(self).frames().len() == 0 ==> final(self).frames() == old(self).frames(),
            old(self).frames().len() > 0 ==> final(self).frames() == old(self).frames().update(
                old(self).frames().len() - 1,
                add_pred(old(self).frames().last(), v),
            ),
    {
        let n = self.task_stack.len();
        if n == 0 {
            return;
        }
        let mut top = self.task_stack.pop().unwrap();
        assert(top.wf());
        let fresh = top.predecessor_set.insert(v.index);
        if fresh {
            top.predecessors.push(v);
            assert forall|a: int, b: int| 0 <= a < b < top.predecessors@.len() implies
                top.predecessors@[a] != top.predecessors@[b] by {
                if b == top.predecessors@.len() - 1 {
                    if top.predecessors@[a] == v {
                        assert(old(self).task_stack@.last().predecessor_set@.contains(v.index));
                    }
                }
            }
            assert forall|k: usize| #[trigger] top.predecessor_set@.contains(k) implies exists|j: int|
                0 <= j < top.predecessors@.len() && #[trigger] top.predecessors@[j].index == k by {
                if k != v.index {
                    let old_top = old(self).task_stack@.last();
                    assert(old_top.predecessor_set@.contains(k));
                    let j = choose|j: int| 0 <= j < old_top.predecessors@.len() && #[trigger] old_top.predecessors@[j].index == k;
                    assert(top.predecessors@[j].index == k);
                } else {
                    assert(top.predecessors@[top.predecessors@.len() - 1].index == k);
                }
            }
        } else {
            proof {
                let old_top = old(self).task_stack@.last();
                let j = choose|j: int|
                    0 <= j < old_top.predecessors@.len() && #[trigger] old_top.predecessors@[j].index
                        == v.index;
                assert(old_top.predecessors@[j] == v);
                assert(old_top.predecessors@.contains(v));
            }
        }
        self.task_stack.push(top);
        assert(final(self).frames() =~= old(self).frames().update(
            old(self).frames().len() - 1,
            add_pred(old(self).frames().last(), v),
        ));
        assert(final(self).nodes() =~= old(self).nodes());
    }
}

impl<N: DepNodeName> DepGraphNodes<N> {
    /// Position of `preds` in the interning table, if it is there.
    fn find_list(&self, preds: &Vec<DepNodeIndex>) -> (r: Option<usize>)
        ensures
            match r {
                Some(i) => i < self.pred_lists@.len() && self.pred_lists@[i as int]@ == preds@,
                None => forall|l: int| 0 <= l < self.pred_lists@.len() ==> self.pred_lists@[l]@ != preds@,
            },
    {
        let mut i: usize = 0;
        while i < self.pred_lists.len()
            invariant
                0 <= i <= self.pred_lists@.len(),
                forall|l: int| 0 <= l < i ==> self.pred_lists@[l]@ != preds@,
            decreases self.pred_lists@.len() - i,
        {
            if same_list(&self.pred_lists[i], preds) {
                return Some(i);
            }
            i = i + 1;
        }
        None
    }

    /// Position of `preds` in the interning table, adding it if absent.
    fn intern(&mut self, preds: Vec<DepNodeIndex>) -> (id: usize)
        requires
            old(self).wf(),
        ensures
            final(self).wf(),
            final(self).node_data@ == old(self).node_data@,
            final(self).task_stack@ == old(self).task_stack@,
            final(self).nodes() == old(self).nodes(),
            id < final(self).pred_lists@.len(),
            final(self).pred_lists@[id as int]@ == preds@,
            final(self).pred_lists@.len() == old(self).pred_lists@.len()
                || final(self).pred_lists@.len() == old(self).pred_lists@.len() + 1,
            forall|l: int| 0 <= l < old(self).pred_lists@.len()
                ==> #[trigger] final(self).pred_lists@[l] == old(self).pred_lists@[l],
            final(self).pred_lists@.len() == old(self).pred_lists@.len() + 1 ==> final(self).anon_nodes@[id as int] is None,
    {
        if let Some(i) = self.find_list(&preds) {
            return i;
        }
        let id = self.pred_lists.len();
        self.pred_lists.push(preds);
        self.anon_nodes.push(None);
        assert(final(self).nodes() =~= old(self).nodes()) by {
            assert forall|k: int| 0 <= k < final(self).node_data@.len() implies
                final(self).node_view(k) == old(self).node_view(k) by {
                assert(old(self).node_data@[k].predecessors < old(self).pred_lists@.len());
            }
        }
        id
    }

    /// Index of the node named `name`, if there is one.
    fn find_name(&self, name: &N) -> (r: Option<usize>)
        requires
            self.wf(),
        ensures
            match r {
                Some(i) => i < self.nodes().len() && self.nodes()[i as int].name == Some(*name),
                None => !name_taken(self.nodes(), *name),
            },
    {
        let mut i: usize = 0;
        while i < self.node_data.len()
            invariant
                0 <= i <= self.node_data@.len(),
                forall|k: int| 0 <= k < i ==> self.node_data@[k].opt_name != Some(*name),
            decreases self.node_data@.len() - i,
        {
            match &self.node_data[i].opt_name {
                Some(n) => {
                    if n.same_name(name) {
                        return Some(i);
                    }
                },
                None => {},
            }
            i = i + 1;
        }
        proof {
            if name_taken(self.nodes(), *name) {
                let k = choose|k: int| 0 <= k < self.nodes().len() && #[trigger] self.nodes()[k].name == Some(*name);
                assert(self.node_data@[k].opt_name == Some(*name));
            }
        }
        None
    }

    /// Drops the innermost frame without creating a node.
    fn discard_task(&mut self)
        requires
            old(self).wf(),
            old(self).frames().len() > 0,
        ensures
            final(self).wf(),
            final(self).frames() == old(self).frames().drop_last(),
            final(self).node_data@ == old(self).node_data@,
            final(self).pred_lists@ == old(self).pred_lists@,
            final(self).nodes() == old(self).nodes(),
    {
        let _ = self.task_stack.pop();
        assert(self.frames() =~= old(self).frames().drop_last());
        assert(self.nodes() =~= old(self).nodes());
    }

    /// Closes the innermost frame and returns the node that stands for it.
    fn pop_task(&mut self, opt_name: Option<N>) -> (r: DepNodeIndex)
        requires
            old(self).wf(),
            old(self).frames().len() > 0,
            opt_name matches Some(n) ==> !name_taken(old(self).nodes(), n),
        ensures
            final(self).wf(),
            final(self).frames() == old(self).frames().drop_last(),
            closes_frame(old(self).nodes(), opt_name, old(self).frames().last(), r, final(self).nodes()),
            r.index < final(self).nodes().len(),
            forall|k: int| 0 <= k < old(self).nodes().len()
                ==> #[trigger] final(self).list_ids()[k] == old(self).list_ids()[k],
            final(self).list_ids().len() > old(self).list_ids().len()
                ==> final(self).nodes()[r.index as int].preds == final(self).pred_lists@[final(self).list_ids()[r.index as int]]@,
    {
        let entry = self.task_stack.pop().unwrap();
        let ghost preds = entry.predecessors@;
        assert(preds == old(self).frames().last());
        let ghost mid_nodes = self.nodes();
        assert(mid_nodes =~= old(self).nodes());
        let ghost mid_frames = self.frames();
        assert(mid_frames =~= old(self).frames().drop_last());
        let list = self.intern(entry.predecessors);
        if opt_name.is_none() {
            if let Some(index) = self.anon_nodes[list] {
                assert(is_anon_node(old(self).nodes(), preds, index.index as int));
                return index;
            } else {
                assert(!has_anon_node(old(self).nodes(), preds)) by {
                    if has_anon_node(old(self).nodes(), preds) {
                        let i = choose|i: int| #[trigger] is_anon_node(old(self).nodes(), preds, i);
                        assert(self.node_data@[i].opt_name is None);
                        assert(self.pred_lists@[self.list_of(i)]@ == preds);
                    }
                }
            }
        }
        let index = DepNodeIndex { index: self.node_data.len() };
        let ghost before = *self;
        if opt_name.is_none() {
            self.anon_nodes.set(list, Some(index));
        }
        self.node_data.push(DepNodeData { opt_name, predecessors: list });
        // the length of a vector always fits in usize
        let _ = self.node_data.len();
        proof {
            let nodes_after = old(self).nodes().push(DepNodeView { name: opt_name, preds });
            assert forall|k: int| 0 <= k < self.node_data@.len() implies
                #[trigger] self.node_view(k) == nodes_after[k] by {
                if k < before.node_data@.len() {
                    assert(before.node_view(k) == before.nodes()[k]);
                }
            }
            assert(self.nodes() =~= nodes_after);
            assert(self.frames() =~= mid_frames);
            assert(self.list_ids() =~= before.list_ids().push(list as int));
            assert forall|a: int, b: int|
                0 <= a < self.node_data@.len() && 0 <= b < self.node_data@.len() && a != b
                    && (#[trigger] self.node_data@[a]).opt_name is Some
                    && (#[trigger] self.node_data@[b]).opt_name is Some
                    implies self.node_data@[a].opt_name != self.node_data@[b].opt_name by {
                if a == index.index as int {
                    assert(old(self).nodes()[b].name == self.node_data@[b].opt_name);
                }
                if b == index.index as int {
                    assert(old(self).nodes()[a].name == self.node_data@[a].opt_name);
                }
            }
        }
        index
    }
}

/// The dependency graph: node storage, interning tables, the task stack, and
/// the lock table of the tracked cells.
pub struct DepGraph<N> {
    enabled: bool,
    nodes: DepGraphNodes<N>,
    cells: Vec<CellState>,
    next_task: u64,
}

/// True if `after` holds every node of `before`, unchanged and at the same index.
pub open spec fn extends_nodes<N>(before: Seq<DepNodeView<N>>, after: Seq<DepNodeView<N>>) -> bool {
    &&& before.len() <= after.len()
    &&& forall|i: int| 0 <= i < before.len() ==> #[trigger] after[i] == before[i]
}

/// What a task body may do to the graph, `pre` when it starts and `post`
/// when it returns: keep the graph well formed and its mode, leave the stack
/// as deep as it found it with every frame but the innermost unchanged, never
/// alter an existing node, and never touch a cell that was locked when it
/// started.
pub open spec fn body_effect<N>(pre: DepGraph<N>, post: DepGraph<N>) -> bool {
    &&& post.wf()
    &&& post.is_enabled() == pre.is_enabled()
    &&& post.frames().len() == pre.frames().len()
    &&& forall|k: int| 0 <= k < pre.frames().len() - 1 ==> #[trigger] post.frames()[k] == pre.frames()[k]
    &&& extends_nodes(pre.nodes(), post.nodes())
    &&& pre.cells().len() <= post.cells().len()
    &&& forall|c: int|
        0 <= c < pre.cells().len() && !(#[trigger] pre.cells()[c] is Unlocked) ==> post.cells()[c]
            == pre.cells()[c]
    &&& pre.next_task_id() <= post.next_task_id()
}

/// `start` is `pre` with an empty frame opened for a task; a disabled graph
/// opens none.
pub open spec fn frame_opened<N>(pre: DepGraph<N>, start: DepGraph<N>) -> bool {
    &&& start.is_enabled() == pre.is_enabled()
    &&& start.nodes() == pre.nodes()
    &&& start.cells() == pre.cells()
    &&& start.next_task_id() == pre.next_task_id()
    &&& start.frames() == if pre.is_enabled() {
        pre.frames().push(Seq::empty())
    } else {
        pre.frames()
    }
}

/// `post` is `end` with the innermost frame closed under `name`: on an
/// enabled graph the frame is dropped and `r` is the node chosen for it as
/// `closes_frame` says; on a disabled graph `r` is the dummy index and nothing
/// changes.
pub open spec fn frame_closed<N>(end: DepGraph<N>, name: Option<N>, r: DepNodeIndex, post: DepGraph<N>) -> bool {
    &&& post.is_enabled() == end.is_enabled()
    &&& post.cells() == end.cells()
    &&& post.next_task_id() == end.next_task_id()
    &&& if end.is_enabled() {
        &&& post.frames() == end.frames().drop_last()
        &&& closes_frame(end.nodes(), name, end.frames().last(), r, post.nodes())
    } else {
        &&& r.spec_is_dummy()
        &&& post.frames() == end.frames()
        &&& post.nodes() == end.nodes()
    }
}

/// `post` is `end` with the innermost frame dropped and no node created; a
/// disabled graph has no frame to drop.
pub open spec fn frame_dropped<N>(end: DepGraph<N>, post: DepGraph<N>) -> bool {
    &&& post.is_enabled() == end.is_enabled()
    &&& post.cells() == end.cells()
    &&& post.next_task_id() == end.next_task_id()
    &&& post.nodes() == end.nodes()
    &&& post.frames() == if end.is_enabled() {
        end.frames().drop_last()
    } else {
        end.frames()
    }
}

/// One run of a task under `name`, from `pre` to `post`: a frame is opened
/// (giving `start`), the body runs from `start` to `end`, and the frame is
/// closed, `r` being the node that stands for it.
pub open spec fn task_run<N>(
    pre: DepGraph<N>,
    start: DepGraph<N>,
    end: DepGraph<N>,
    name: Option<N>,
    post: DepGraph<N>,
    r: DepNodeIndex,
) -> bool {
    &&& frame_opened(pre, start)
    &&& body_effect(start, end)
    &&& frame_closed(end, name, r, post)
}

impl<N> DepGraph<N> {
    pub closed spec fn is_enabled(&self) -> bool {
        self.enabled
    }

    /// Every node created so far, by index.
    pub closed spec fn nodes(&self) -> Seq<DepNodeView<N>> {
        self.nodes.nodes()
    }

    /// For each node, the slot of its predecessor list in the interning table.
    pub closed spec fn list_ids(&self) -> Seq<int> {
        self.nodes.list_ids()
    }

    /// The task stack, innermost frame last: for each frame, the predecessors
    /// read so far in order of first access.
    pub closed spec fn frames(&self) -> Seq<Seq<DepNodeIndex>> {
        self.nodes.frames()
    }

    /// Lock state of every cell, by cell id.
    pub closed spec fn cells(&self) -> Seq<CellState> {
        self.cells@
    }

    /// The identity the next task started will get.
    pub closed spec fn next_task_id(&self) -> u64 {
        self.next_task
    }

    pub closed spec fn wf(&self) -> bool {
        &&& self.nodes.wf()
        &&& !self.enabled ==> self.nodes.node_data@.len() == 0 && self.nodes.task_stack@.len() == 0
        &&& forall|c: int| 0 <= c < self.cells@.len() ==> self.admits_state(#[trigger] self.cells@[c])
    }

    /// States a cell may be in: free with a producer that is a node of this
    /// graph (the dummy index on a disabled graph), or locked by a task that
    /// has been started.
    pub open spec fn admits_state(&self, s: CellState) -> bool {
        match s {
            CellState::Unlocked(p) => if self.is_enabled() {
                p.index < self.nodes().len() && !p.spec_is_dummy()
            } else {
                p.spec_is_dummy()
            },
            CellState::ReadLocked(t) => t.id < self.next_task_id(),
            CellState::WriteLocked(t) => t.id < self.next_task_id(),
        }
    }

    /// Every cell of a well-formed graph is in a state the graph admits.
    pub proof fn lemma_cells_admitted(&self)
        requires
            self.wf(),
        ensures
            forall|c: int| 0 <= c < self.cells().len() ==> self.admits_state(#[trigger] self.cells()[c]),
    {
    }

    /// A disabled graph never holds a node or a frame.
    pub proof fn lemma_disabled_is_empty(&self)
        requires
            self.wf(),
            !self.is_enabled(),
        ensures
            self.nodes().len() == 0,
            self.frames().len() == 0,
    {
    }
}

impl<N: DepNodeName> DepGraph<N> {
    pub fn new(enabled: bool) -> (r: Self)
        ensures
            r.wf(),
            r.is_enabled() == enabled,
            r.nodes() == Seq::<DepNodeView<N>>::empty(),
            r.frames() == Seq::<Seq<DepNodeIndex>>::empty(),
            r.cells() == Seq::<CellState>::empty(),
            r.next_task_id() == 0,
    {
        DepGraph { enabled, nodes: DepGraphNodes::new(), cells: Vec::new(), next_task: 0 }
    }

    /// True if the full dependency graph is being built.
    pub fn is_fully_enabled(&self) -> (r: bool)
        ensures
            r == self.is_enabled(),
    {
        self.enabled
    }

    /// True if some node already carries `name`.
    pub fn contains_name(&self, name: &N) -> (r: bool)
        requires
            self.wf(),
        ensures
            r == name_taken(self.nodes(), *name),
    {
        self.nodes.find_name(name).is_some()
    }

    /// Records that the innermost active task read the node `v`. Outside any
    /// task, and on a disabled graph, nothing is recorded.
    pub fn read(&mut self, v: DepNodeIndex)
        requires
            old(self).wf(),
            old(self).is_enabled() ==> !v.spec_is_dummy(),
            !old(self).is_enabled() ==> v.spec_is_dummy(),
        ensures
            final(self).wf(),
            body_effect(*old(self), *final(self)),
            final(self).nodes() == old(self).nodes(),
            final(self).cells() == old(self).cells(),
            final(self).next_task_id() == old(self).next_task_id(),
            final(self).frames() == after_read(old(self).frames(), v),
    {
        if self.enabled {
            self.nodes.read(v);
        }
    }

    /// Opens a frame for a new task.
    pub fn push_task(&mut self)
        requires
            old(self).wf(),
        ensures
            final(self).wf(),
            final(self).is_enabled() == old(self).is_enabled(),
            final(self).nodes() == old(self).nodes(),
            final(self).list_ids() == old(self).list_ids(),
            final(self).cells() == old(self).cells(),
            final(self).next_task_id() == old(self).next_task_id(),
            old(self).is_enabled() ==> final(self).frames() == old(self).frames().push(Seq::empty()),
            !old(self).is_enabled() ==> final(self).frames() == old(self).frames(),
    {
        if self.enabled {
            self.nodes.push_task();
            assert(self.nodes.list_ids() =~= old(self).nodes.list_ids());
        }
    }

    /// Closes the innermost frame and returns the node that stands for it:
    /// an anonymous frame reuses the anonymous node with the same predecessor
    /// list if there is one; otherwise a new node is created. A disabled
    /// graph returns the dummy index.
    pub fn pop_task(&mut self, name: Option<N>) -> (r: DepNodeIndex)
        requires
            old(self).wf(),
            old(self).is_enabled() ==> old(self).frames().len() > 0,
            name matches Some(n) ==> !name_taken(old(self).nodes(), n),
        ensures
            final(self).wf(),
            final(self).is_enabled() == old(self).is_enabled(),
            final(self).cells() == old(self).cells(),
            final(self).next_task_id() == old(self).next_task_id(),
            !old(self).is_enabled() ==> r.spec_is_dummy() && *final(self) == *old(self),
            final(self).admits_state(CellState::Unlocked(r)),
            old(self).is_enabled() ==> {
                &&& final(self).frames() == old(self).frames().drop_last()
                &&& closes_frame(old(self).nodes(), name, old(self).frames().last(), r, final(self).nodes())
                &&& r.index < final(self).nodes().len()
                &&& forall|k: int| 0 <= k < old(self).nodes().len()
                    ==> #[trigger] final(self).list_ids()[k] == old(self).list_ids()[k]
            },
    {
        if self.enabled {
            let r = self.nodes.pop_task(name);
            proof {
                assert forall|c: int| 0 <= c < self.cells@.len() implies self.admits_state(
                    #[trigger] self.cells@[c],
                ) by {
                    assert(old(self).admits_state(old(self).cells@[c]));
                }
            }
            r
        } else {
            DepNodeIndex::dummy()
        }
    }
}

impl<N: DepNodeName> DepGraph<N> {
    fn with_task_internal<C, A, R, F>(&mut self, key: Option<N>, cx: C, arg: A, task: F) -> (r: (
        R,
        DepNodeIndex,
    )) where C: DepGraphSafe, A: DepGraphSafe, F: FnOnce(&mut DepGraph<N>, C, A) -> R
        requires
            old(self).wf(),
            forall|g: &mut DepGraph<N>|
                mut_ref_current(g).wf() ==> #[trigger] call_requires(task, (g, cx, arg)),
            forall|g: &mut DepGraph<N>, r: R| #[trigger]
                call_ensures(task, (g, cx, arg), r) ==> body_effect(mut_ref_current(g), mut_ref_future(g)),
            key matches Some(n) ==> !name_taken(old(self).nodes(), n),
            forall|g: &mut DepGraph<N>, r: R| #[trigger]
                call_ensures(task, (g, cx, arg), r) ==> (key matches Some(n) ==> (name_taken(
                    mut_ref_future(g).nodes(),
                    n,
                ) ==> name_taken(mut_ref_current(g).nodes(), n))),
        ensures
            body_effect(*old(self), *final(self)),
            final(self).frames() == old(self).frames(),
            final(self).admits_state(CellState::Unlocked(r.1)),
            exists|h: &mut DepGraph<N>|
                #[trigger] call_ensures(task, (h, cx, arg), r.0) && task_run(
                    *old(self),
                    mut_ref_current(h),
                    mut_ref_future(h),
                    key,
                    *final(self),
                    r.1,
                ),
    {
        if !self.enabled {
            let result = task(self, cx, arg);
            let ghost after = *self;
            assert(exists|h: &mut DepGraph<N>|
                #[trigger] call_ensures(task, (h, cx, arg), result) && mut_ref_current(h) == *old(
                    self,
                ) && mut_ref_future(h) == after);
            assert(body_effect(*old(self), *self));
            assert(self.nodes() =~= old(self).nodes());
            assert(self.frames() =~= old(self).frames());
            let d = DepNodeIndex::dummy();
            proof {
                self.lemma_disabled_is_empty();
                let h = choose|h: &mut DepGraph<N>|
                    #[trigger] call_ensures(task, (h, cx, arg), result) && mut_ref_current(h) == *old(self)
                        && mut_ref_future(h) == after;
                assert(frame_opened(*old(self), *old(self)));
                assert(frame_closed(after, key, d, *self));
                assert(task_run(*old(self), mut_ref_current(h), mut_ref_future(h), key, *self, d));
            }
            let ret = (result, d);
            assert(ret.0 == result && ret.1 == d);
            assert(exists|h: &mut DepGraph<N>|
                #[trigger] call_ensures(task, (h, cx, arg), ret.0) && task_run(
                    *old(self),
                    mut_ref_current(h),
                    mut_ref_future(h),
                    key,
                    *self,
                    ret.1,
                ));
            ret
        } else {
            self.push_task();
            let ghost pushed = *self;
            let result = task(self, cx, arg);
            let ghost after = *self;
            assert(exists|h: &mut DepGraph<N>|
                #[trigger] call_ensures(task, (h, cx, arg), result) && mut_ref_current(h) == pushed
                    && mut_ref_future(h) == after);
            assert(body_effect(pushed, after));
            let node_index = self.pop_task(key);
            assert(closes_frame(after.nodes(), key, after.frames().last(), node_index, self.nodes()));
            proof {
                let h = choose|h: &mut DepGraph<N>|
                    #[trigger] call_ensures(task, (h, cx, arg), result) && mut_ref_current(h) == pushed
                        && mut_ref_future(h) == after;
                assert(frame_opened(*old(self), pushed));
                assert(frame_closed(after, key, node_index, *self));
                assert(task_run(*old(self), mut_ref_current(h), mut_ref_future(h), key, *self, node_index));
            }
            let ret = (result, node_index);
            assert(ret.0 == result && ret.1 == node_index);
            assert(exists|h: &mut DepGraph<N>|
                #[trigger] call_ensures(task, (h, cx, arg), ret.0) && task_run(
                    *old(self),
                    mut_ref_current(h),
                    mut_ref_future(h),
                    key,
                    *self,
                    ret.1,
                ));
            assert(self.frames() =~= old(self).frames());
            assert(extends_nodes(old(self).nodes(), self.nodes()));
            assert(self.nodes()[node_index.index as int].name == key);
            assert(body_effect(*old(self), *self));
            ret
        }
    }
}

impl<N: DepNodeName> DepGraph<N> {
    /// Runs `task(self, cx, arg)` as a task named `key`, and returns what it
    /// returned. On an enabled graph the new node carries `key` and has, as
    /// predecessors, what the task read. A name may be given to one node only.
    pub fn with_task<C, A, R, F>(&mut self, key: N, cx: C, arg: A, task: F) -> (r: R) where
        C: DepGraphSafe,
        A: DepGraphSafe,
        F: FnOnce(&mut DepGraph<N>, C, A) -> R,

        requires
            old(self).wf(),
            forall|g: &mut DepGraph<N>|
                mut_ref_current(g).wf() ==> #[trigger] call_requires(task, (g, cx, arg)),
            forall|g: &mut DepGraph<N>, r: R| #[trigger]
                call_ensures(task, (g, cx, arg), r) ==> body_effect(mut_ref_current(g), mut_ref_future(g)),
            !name_taken(old(self).nodes(), key),
            forall|g: &mut DepGraph<N>, r: R| #[trigger]
                call_ensures(task, (g, cx, arg), r) ==> (name_taken(mut_ref_future(g).nodes(), key)
                    ==> name_taken(mut_ref_current(g).nodes(), key)),
        ensures
            body_effect(*old(self), *final(self)),
            final(self).frames() == old(self).frames(),
            exists|h: &mut DepGraph<N>, i: DepNodeIndex|
                call_ensures(task, (h, cx, arg), r) && #[trigger] task_run(
                    *old(self),
                    mut_ref_current(h),
                    mut_ref_future(h),
                    Some(key),
                    *final(self),
                    i,
                ),
            old(self).is_enabled() ==> name_taken(final(self).nodes(), key),
            old(self).is_enabled() ==> old(self).nodes().len() < final(self).nodes().len(),
            !old(self).is_enabled() ==> final(self).nodes() == old(self).nodes(),
    {
        let ghost k = key;
        let (result, index) = self.with_task_internal(Some(key), cx, arg, task);
        proof {
            let h = choose|h: &mut DepGraph<N>|
                #[trigger] call_ensures(task, (h, cx, arg), result) && task_run(
                    *old(self),
                    mut_ref_current(h),
                    mut_ref_future(h),
                    Some(k),
                    *self,
                    index,
                );
            if old(self).is_enabled() {
                let end = mut_ref_future(h);
                assert(self.nodes()[index.index as int].name == Some(k));
                assert(old(self).nodes().len() <= end.nodes().len());
            }
        }
        result
    }

    /// Runs `task(self, cx, arg)` as an anonymous task, and returns what it
    /// returned with the index of the node that stands for it: the anonymous
    /// node with the same predecessor list if one exists, else a new one.
    pub fn with_anon_task<C, A, R, F>(&mut self, cx: C, arg: A, task: F) -> (r: (
        R,
        DepNodeIndex,
    )) where C: DepGraphSafe, A: DepGraphSafe, F: FnOnce(&mut DepGraph<N>, C, A) -> R
        requires
            old(self).wf(),
            forall|g: &mut DepGraph<N>|
                mut_ref_current(g).wf() ==> #[trigger] call_requires(task, (g, cx, arg)),
            forall|g: &mut DepGraph<N>, r: R| #[trigger]
                call_ensures(task, (g, cx, arg), r) ==> body_effect(mut_ref_current(g), mut_ref_future(g)),
        ensures
            body_effect(*old(self), *final(self)),
            final(self).frames() == old(self).frames(),
            final(self).admits_state(CellState::Unlocked(r.1)),
            exists|h: &mut DepGraph<N>|
                #[trigger] call_ensures(task, (h, cx, arg), r.0) && task_run(
                    *old(self),
                    mut_ref_current(h),
                    mut_ref_future(h),
                    None,
                    *final(self),
                    r.1,
                ),
    {
        self.with_task_internal(None, cx, arg, task)
    }

    /// Runs `op(self)` in a frame of its own that is then dropped, so that
    /// what it reads is attributed to no task.
    pub fn with_ignore<R, F>(&mut self, op: F) -> (r: R) where F: FnOnce(&mut DepGraph<N>) -> R
        requires
            old(self).wf(),
            forall|g: &mut DepGraph<N>| mut_ref_current(g).wf() ==> #[trigger] call_requires(op, (g,)),
            forall|g: &mut DepGraph<N>, r: R| #[trigger]
                call_ensures(op, (g,), r) ==> body_effect(mut_ref_current(g), mut_ref_future(g)),
        ensures
            body_effect(*old(self), *final(self)),
            final(self).frames() == old(self).frames(),
            exists|h: &mut DepGraph<N>|
                #[trigger] call_ensures(op, (h,), r) && frame_opened(*old(self), mut_ref_current(h))
                    && body_effect(mut_ref_current(h), mut_ref_future(h)) && frame_dropped(
                    mut_ref_future(h),
                    *final(self),
                ),
    {
        if !self.enabled {
            let result = op(self);
            let ghost after = *self;
            assert(exists|h: &mut DepGraph<N>|
                #[trigger] call_ensures(op, (h,), result) && mut_ref_current(h) == *old(self)
                    && mut_ref_future(h) == after);
            proof {
                assert(self.frames() =~= old(self).frames());
            }
            result
        } else {
            self.push_task();
            let ghost pushed = *self;
            let result = op(self);
            let ghost after = *self;
            assert(exists|h: &mut DepGraph<N>|
                #[trigger] call_ensures(op, (h,), result) && mut_ref_current(h) == pushed
                    && mut_ref_future(h) == after);
            assert(body_effect(pushed, *self));
            self.nodes.discard_task();
            assert(self.frames() =~= old(self).frames());
            result
        }
    }
}

impl<N: DepNodeName> DepGraph<N> {
    /// Lock state of the cell `id`.
    pub fn cell_state(&self, id: usize) -> (s: CellState)
        requires
            self.wf(),
            id < self.cells().len(),
        ensures
            s == self.cells()[id as int],
            self.admits_state(s),
    {
        self.cells[id]
    }

    /// Hands out a fresh task identity.
    pub(crate) fn start_task(&mut self) -> (t: TaskId)
        requires
            old(self).wf(),
            old(self).next_task_id() < u64::MAX,
        ensures
            final(self).wf(),
            t.id == old(self).next_task_id(),
            final(self).next_task_id() == old(self).next_task_id() + 1,
            final(self).is_enabled() == old(self).is_enabled(),
            final(self).nodes() == old(self).nodes(),
            final(self).frames() == old(self).frames(),
            final(self).cells() == old(self).cells(),
    {
        let t = TaskId { id: self.next_task };
        self.next_task = self.next_task + 1;
        assert forall|c: int| 0 <= c < self.cells@.len() implies self.admits_state(#[trigger] self.cells@[c]) by {
            assert(old(self).admits_state(old(self).cells@[c]));
        }
        t
    }

    /// Adds a cell in state `s` and returns its id.
    pub(crate) fn add_cell(&mut self, s: CellState) -> (id: usize)
        requires
            old(self).wf(),
            old(self).admits_state(s),
        ensures
            final(self).wf(),
            id == old(self).cells().len(),
            final(self).cells() == old(self).cells().push(s),
            final(self).is_enabled() == old(self).is_enabled(),
            final(self).nodes() == old(self).nodes(),
            final(self).frames() == old(self).frames(),
            final(self).next_task_id() == old(self).next_task_id(),
    {
        let id = self.cells.len();
        self.cells.push(s);
        id
    }

    /// Puts the cell `id` in state `s`.
    pub(crate) fn set_cell_state(&mut self, id: usize, s: CellState)
        requires
            old(self).wf(),
            old(self).admits_state(s),
            id < old(self).cells().len(),
        ensures
            final(self).wf(),
            final(self).cells() == old(self).cells().update(id as int, s),
            final(self).is_enabled() == old(self).is_enabled(),
            final(self).nodes() == old(self).nodes(),
            final(self).frames() == old(self).frames(),
            final(self).next_task_id() == old(self).next_task_id(),
    {
        self.cells.set(id, s);
    }
}

impl<N: DepNodeName> DepGraph<N> {
    /// Number of nodes created so far.
    pub fn node_count(&self) -> (r: usize)
        requires
            self.wf(),
        ensures
            r == self.nodes().len(),
    {
        self.nodes.node_data.len()
    }

    /// The predecessor list of `node`, in order of first access.
    pub fn predecessors(&self, node: DepNodeIndex) -> (r: Vec<DepNodeIndex>)
        requires
            self.wf(),
            node.index < self.nodes().len(),
        ensures
            r@ == self.nodes()[node.index as int].preds,
    {
        let list = &self.nodes.pred_lists[self.nodes.node_data[node.index].predecessors];
        let mut r: Vec<DepNodeIndex> = Vec::new();
        let mut i: usize = 0;
        while i < list.len()
            invariant
                0 <= i <= list@.len(),
                r@ == list@.subrange(0, i as int),
            decreases list@.len() - i,
        {
            r.push(list[i]);
            i = i + 1;
        }
        assert(r@ =~= list@);
        assert(self.nodes.node_view(node.index as int) == self.nodes()[node.index as int]);
        r
    }
}

impl<N> DepGraph<N> {
    /// In a well-formed graph an anonymous node is determined by its
    /// predecessor list: two anonymous nodes with equal lists are one node.
    pub proof fn lemma_anon_nodes_unique(&self, preds: Seq<DepNodeIndex>, i: int, j: int)
        requires
            self.wf(),
            is_anon_node(self.nodes(), preds, i),
            is_anon_node(self.nodes(), preds, j),
        ensures
            i == j,
    {
        let n = self.nodes;
        assert(n.node_view(i) == self.nodes()[i]);
        assert(n.node_view(j) == self.nodes()[j]);
        assert(n.node_data@[i].opt_name is None);
        assert(n.node_data@[j].opt_name is None);
        assert(n.list_of(i) == n.list_of(j));
        assert(n.anon_nodes@[n.list_of(i)] == Some(DepNodeIndex { index: i as usize }));
        assert(n.anon_nodes@[n.list_of(j)] == Some(DepNodeIndex { index: j as usize }));
    }

    /// Anonymous-node idempotence: two anonymous tasks that close with the
    /// same ordered predecessor list, the second one on a graph that still
    /// holds every node the first one left, return the same index.
    pub proof fn lemma_anon_idempotent(
        first_before: DepGraph<N>,
        first_after: DepGraph<N>,
        r1: DepNodeIndex,
        second_before: DepGraph<N>,
        second_after: DepGraph<N>,
        r2: DepNodeIndex,
        preds: Seq<DepNodeIndex>,
    )
        requires
            second_before.wf(),
            closes_frame(first_before.nodes(), None, preds, r1, first_after.nodes()),
            extends_nodes(first_after.nodes(), second_before.nodes()),
            closes_frame(second_before.nodes(), None, preds, r2, second_after.nodes()),
        ensures
            r1 == r2,
    {
        let m = second_before.nodes();
        assert(is_anon_node(first_after.nodes(), preds, r1.index as int));
        assert(m[r1.index as int] == first_after.nodes()[r1.index as int]);
        assert(is_anon_node(m, preds, r1.index as int));
        assert(has_anon_node(m, preds));
        assert(is_anon_node(m, preds, r2.index as int));
        second_before.lemma_anon_nodes_unique(preds, r1.index as int, r2.index as int);
    }

    /// Anonymous-node idempotence for whole task runs: two anonymous tasks
    /// on an enabled graph whose bodies leave the same ordered predecessor
    /// list, the second run starting from a graph that still holds every
    /// node the first one left, return the same index.
    pub proof fn lemma_anon_task_runs_idempotent(
        pre1: DepGraph<N>,
        start1: DepGraph<N>,
        end1: DepGraph<N>,
        post1: DepGraph<N>,
        r1: DepNodeIndex,
        pre2: DepGraph<N>,
        start2: DepGraph<N>,
        end2: DepGraph<N>,
        post2: DepGraph<N>,
        r2: DepNodeIndex,
    )
        requires
            pre1.is_enabled(),
            pre2.is_enabled(),
            task_run(pre1, start1, end1, None, post1, r1),
            task_run(pre2, start2, end2, None, post2, r2),
            extends_nodes(post1.nodes(), pre2.nodes()),
            end1.frames().last() == end2.frames().last(),
        ensures
            r1 == r2,
    {
        assert(extends_nodes(post1.nodes(), end2.nodes()));
        Self::lemma_anon_idempotent(end1, post1, r1, end2, post2, r2, end1.frames().last());
    }

    /// Named uniqueness: in a well-formed graph no two nodes carry the same
    /// name.
    pub proof fn lemma_names_unique(&self, i: int, j: int)
        requires
            self.wf(),
            0 <= i < self.nodes().len(),
            0 <= j < self.nodes().len(),
            self.nodes()[i].name is Some,
            self.nodes()[i].name == self.nodes()[j].name,
        ensures
            i == j,
    {
        assert(self.nodes.node_view(i) == self.nodes()[i]);
        assert(self.nodes.node_view(j) == self.nodes()[j]);
    }

    /// Interning: two nodes share one stored predecessor list exactly when
    /// their lists are equal as ordered sequences.
    pub proof fn lemma_interning(&self, i: int, j: int)
        requires
            self.wf(),
            0 <= i < self.nodes().len(),
            0 <= j < self.nodes().len(),
        ensures
            (self.list_ids()[i] == self.list_ids()[j]) <==> (self.nodes()[i].preds == self.nodes()[j].preds),
    {
        assert(self.nodes.node_view(i) == self.nodes()[i]);
        assert(self.nodes.node_view(j) == self.nodes()[j]);
        assert(self.nodes.node_data@[i].predecessors < self.nodes.pred_lists@.len());
        assert(self.nodes.node_data@[j].predecessors < self.nodes.pred_lists@.len());
    }

    /// Every frame of a well-formed graph lists each predecessor once.
    pub proof fn lemma_frames_distinct(&self, f: int)
        requires
            self.wf(),
            0 <= f < self.frames().len(),
        ensures
            distinct_indices(self.frames()[f]),
    {
        assert(self.nodes.task_stack@[f].wf());
    }

    /// Read dedup: reading `x` twice in the innermost task records it exactly
    /// once; the second read changes nothing.
    pub proof fn lemma_read_twice(&self, x: DepNodeIndex)
        requires
            self.wf(),
            self.frames().len() > 0,
        ensures
            after_read(after_read(self.frames(), x), x) == after_read(self.frames(), x),
            after_read(self.frames(), x).last().contains(x),
            distinct_indices(after_read(self.frames(), x).last()),
    {
        let s = self.frames().last();
        self.lemma_frames_distinct(self.frames().len() - 1);
        let once = after_read(self.frames(), x);
        assert(once.last() == add_pred(s, x));
        if !s.contains(x) {
            assert(s.push(x)[s.len() as int] == x);
            assert forall|a: int, b: int| 0 <= a < b < s.push(x).len() implies s.push(x)[a] != s.push(x)[b] by {
                if b == s.len() {
                    assert(s.push(x)[a] == s[a]);
                }
            }
        }
        assert(add_pred(add_pred(s, x), x) == add_pred(s, x));
        assert(after_read(once, x) =~= once);
    }
}

} // verus!
