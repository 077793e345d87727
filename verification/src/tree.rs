//! The checklist tree: leaf tasks with a completion flag, groups with
//! an ordered sequence of children.

use vstd::prelude::*;

use crate::nav::Selection;

verus! {

broadcast use vstd::std_specs::vec::group_vec_axioms, vstd::seq::group_seq_axioms;

/// Mathematical model of a checklist node: labels as character
/// sequences, children as a mathematical sequence.
#[verifier::ext_equal]
pub enum NodeView {
    Task { done: bool, label: Seq<char> },
    Group { label: Seq<char>, children: Seq<NodeView> },
}

impl NodeView {
    /// The label of a node, task or group alike.
    pub open spec fn label(self) -> Seq<char> {
        match self {
            NodeView::Task { label, .. } => label,
            NodeView::Group { label, .. } => label,
        }
    }

    /// Completion state of a node: a task is done when its flag is set;
    /// a group is done when every child is, vacuously for no children.
    pub open spec fn all_done(self) -> bool
        decreases self,
    {
        match self {
            NodeView::Task { done, .. } => done,
            NodeView::Group { children, .. } => all_done_seq(children),
        }
    }
}

/// Conjunction of `all_done` over a sequence of nodes.
pub open spec fn all_done_seq(cs: Seq<NodeView>) -> bool
    decreases cs,
{
    if cs.len() == 0 {
        true
    } else {
        cs[0].all_done() && all_done_seq(cs.subrange(1, cs.len() as int))
    }
}

/// A group is completed exactly when every one of its children is,
/// vacuously for a childless group; a task is completed by its own
/// flag. Chasing this through the children reaches every descendant
/// task.
pub proof fn lemma_group_done_iff_children_done(label: Seq<char>, children: Seq<NodeView>)
    ensures
        (NodeView::Group { label, children }).all_done() <==> (forall|k: int|
            0 <= k < children.len() ==> #[trigger] children[k].all_done()),
{
    all_done_seq_char(children);
}

/// The node a path addresses, walking child indices from `v`: the
/// empty path addresses `v` itself; the walk fails on a task with a
/// non-empty path left and on an index past the end of a group.
pub open spec fn get_spec(v: NodeView, path: Seq<u8>) -> Option<NodeView>
    decreases path.len(),
{
    if path.len() == 0 {
        Some(v)
    } else {
        match v {
            NodeView::Task { .. } => None,
            NodeView::Group { children, .. } => {
                if (path[0] as int) < children.len() {
                    get_spec(children[path[0] as int], path.subrange(1, path.len() as int))
                } else {
                    None
                }
            },
        }
    }
}

/// The path with its last index dropped: the address of the parent of
/// the node the path addresses. The empty path is left as it is.
pub open spec fn prior_of(path: Seq<u8>) -> Seq<u8> {
    if path.len() == 0 {
        path
    } else {
        path.subrange(0, path.len() - 1)
    }
}

/// The tree with the node addressed by `path` replaced by `w`; the
/// tree unchanged where the path goes out of bounds.
pub open spec fn set_spec(v: NodeView, path: Seq<u8>, w: NodeView) -> NodeView
    decreases path.len(),
{
    if path.len() == 0 {
        w
    } else {
        match v {
            NodeView::Task { .. } => v,
            NodeView::Group { label, children } => {
                if (path[0] as int) < children.len() {
                    NodeView::Group {
                        label,
                        children: children.update(
                            path[0] as int,
                            set_spec(children[path[0] as int], path.subrange(1, path.len() as int), w),
                        ),
                    }
                } else {
                    v
                }
            },
        }
    }
}

/// Writing back the very node a path addresses leaves the tree as it was.
pub proof fn lemma_set_get_id(v: NodeView, path: Seq<u8>)
    requires
        get_spec(v, path) is Some,
    ensures
        set_spec(v, path, get_spec(v, path).unwrap()) == v,
    decreases path.len(),
{
    if path.len() == 0 {
    } else {
        match v {
            NodeView::Task { .. } => {},
            NodeView::Group { label, children } => {
                let i = path[0] as int;
                let rest = path.subrange(1, path.len() as int);
                lemma_set_get_id(children[i], rest);
                assert(children.update(i, children[i]) =~= children);
                assert(set_spec(v, path, get_spec(v, path).unwrap()) =~= v);
            },
        }
    }
}

/// Walking a concatenated path is walking the first part, then the
/// second from wherever the first part landed.
pub proof fn lemma_get_spec_concat(v: NodeView, p: Seq<u8>, q: Seq<u8>)
    ensures
        get_spec(v, p + q) == match get_spec(v, p) {
            Some(u) => get_spec(u, q),
            None => None::<NodeView>,
        },
    decreases p.len(),
{
    if p.len() == 0 {
        assert(p + q =~= q);
    } else {
        match v {
            NodeView::Task { .. } => {
                assert((p + q)[0] == p[0]);
            },
            NodeView::Group { children, .. } => {
                let i = p[0] as int;
                let rest = p.subrange(1, p.len() as int);
                assert((p + q)[0] == p[0]);
                if i < children.len() {
                    lemma_get_spec_concat(children[i], rest, q);
                    assert((p + q).subrange(1, (p + q).len() as int) =~= rest + q);
                }
            },
        }
    }
}

/// Reading one step past a path reads inside the group the path addresses.
pub proof fn lemma_get_spec_snoc(v: NodeView, path: Seq<u8>, idx: u8)
    requires
        get_spec(v, path) is Some,
        get_spec(v, path).unwrap() is Group,
        (idx as int) < get_spec(v, path).unwrap()->Group_children.len(),
    ensures
        get_spec(v, path.push(idx)) == Some(
            get_spec(v, path).unwrap()->Group_children[idx as int],
        ),
    decreases path.len(),
{
    if path.len() == 0 {
        reveal_with_fuel(get_spec, 2);
        assert(path.push(idx)[0] == idx);
        assert(path.push(idx).subrange(1, 1) =~= Seq::<u8>::empty());
    } else {
        match v {
            NodeView::Task { .. } => {},
            NodeView::Group { children, .. } => {
                let i = path[0] as int;
                let rest = path.subrange(1, path.len() as int);
                lemma_get_spec_snoc(children[i], rest, idx);
                assert(path.push(idx).subrange(1, path.len() as int + 1) =~= rest.push(idx));
                assert(path.push(idx)[0] == path[0]);
            },
        }
    }
}

/// Writing one step past a path is writing into the group the path
/// addresses.
pub proof fn lemma_set_spec_snoc(v: NodeView, path: Seq<u8>, idx: u8, w: NodeView)
    requires
        get_spec(v, path) is Some,
        get_spec(v, path).unwrap() is Group,
        (idx as int) < get_spec(v, path).unwrap()->Group_children.len(),
    ensures
        set_spec(v, path.push(idx), w) == set_spec(
            v,
            path,
            set_spec(get_spec(v, path).unwrap(), seq![idx], w),
        ),
    decreases path.len(),
{
    if path.len() == 0 {
        assert(path.push(idx)[0] == idx);
        assert(path.push(idx).subrange(1, 1) =~= Seq::<u8>::empty());
        assert(seq![idx][0] == idx);
        assert(seq![idx].subrange(1, 1) =~= Seq::<u8>::empty());
    } else {
        match v {
            NodeView::Task { .. } => {},
            NodeView::Group { children, .. } => {
                let i = path[0] as int;
                let rest = path.subrange(1, path.len() as int);
                lemma_set_spec_snoc(children[i], rest, idx, w);
                assert(path.push(idx).subrange(1, path.len() as int + 1) =~= rest.push(idx));
                assert(path.push(idx)[0] == path[0]);
                assert(set_spec(v, path.push(idx), w) =~= set_spec(
                    v,
                    path,
                    set_spec(get_spec(v, path).unwrap(), seq![idx], w),
                ));
            },
        }
    }
}

/// The model of an updated sequence of nodes is the model of the
/// sequence with the model of the new member written in.
pub proof fn views_of_update(ts: Seq<TodoItem>, i: int, t: TodoItem)
    requires
        0 <= i < ts.len(),
    ensures
        views_of(ts.update(i, t)) =~= views_of(ts).update(i, node_view(t)),
{
    views_of_len(ts);
    views_of_len(ts.update(i, t));
    assert forall|k: int| 0 <= k < ts.len() implies views_of(ts.update(i, t))[k] == views_of(
        ts,
    ).update(i, node_view(t))[k] by {
        views_of_index(ts, k);
        views_of_index(ts.update(i, t), k);
    }
}

/// A new last child appended to a group; a task turns into a group
/// that keeps the task's label and holds the new node as its only
/// child, the former completion flag falling away.
pub open spec fn insert_spec(v: NodeView, w: NodeView) -> NodeView {
    match v {
        NodeView::Task { label, .. } => NodeView::Group { label, children: seq![w] },
        NodeView::Group { label, children } => NodeView::Group {
            label,
            children: children.push(w),
        },
    }
}

/// Every task of the subtree with its flag set to `value`; groups keep
/// their shape.
pub open spec fn complete_spec(v: NodeView, value: bool) -> NodeView
    decreases v,
{
    match v {
        NodeView::Task { label, .. } => NodeView::Task { done: value, label },
        NodeView::Group { label, children } => NodeView::Group {
            label,
            children: complete_seq(children, value),
        },
    }
}

/// `complete_spec` over each member of a sequence of nodes.
pub open spec fn complete_seq(cs: Seq<NodeView>, value: bool) -> Seq<NodeView>
    decreases cs,
{
    if cs.len() == 0 {
        cs
    } else {
        seq![complete_spec(cs[0], value)] + complete_seq(cs.subrange(1, cs.len() as int), value)
    }
}

/// `complete_seq` acts on each member separately.
pub proof fn complete_seq_char(cs: Seq<NodeView>, value: bool)
    ensures
        complete_seq(cs, value).len() == cs.len(),
        forall|k: int| 0 <= k < cs.len() ==> #[trigger] complete_seq(cs, value)[k]
            == complete_spec(cs[k], value),
    decreases cs.len(),
{
    if cs.len() != 0 {
        complete_seq_char(cs.subrange(1, cs.len() as int), value);
    }
}

/// Whether a selection names a child that a delete can remove: a
/// non-empty in-bounds path whose parent is a group.
pub open spec fn can_delete(v: NodeView, path: Seq<u8>) -> bool {
    &&& path.len() > 0
    &&& get_spec(v, prior_of(path)) is Some
    &&& get_spec(v, prior_of(path)).unwrap() is Group
    &&& (path.last() as int) < get_spec(v, prior_of(path)).unwrap()->Group_children.len()
}

/// The tree with the addressed child removed from its parent's
/// children; later siblings shift down by one.
pub open spec fn delete_spec(v: NodeView, path: Seq<u8>) -> NodeView
    recommends
        can_delete(v, path),
{
    let p = get_spec(v, prior_of(path)).unwrap();
    set_spec(
        v,
        prior_of(path),
        NodeView::Group {
            label: p->Group_label,
            children: p->Group_children.remove(path.last() as int),
        },
    )
}

/// The model of a sequence of nodes with one appended.
pub proof fn views_of_push(ts: Seq<TodoItem>, t: TodoItem)
    ensures
        views_of(ts.push(t)) =~= views_of(ts).push(node_view(t)),
{
    views_of_len(ts);
    views_of_len(ts.push(t));
    assert forall|k: int| 0 <= k < ts.len() + 1 implies views_of(ts.push(t))[k] == views_of(
        ts,
    ).push(node_view(t))[k] by {
        views_of_index(ts.push(t), k);
        if k < ts.len() {
            views_of_index(ts, k);
        }
    }
}

/// The model of a sequence of nodes with one taken out.
pub proof fn views_of_remove(ts: Seq<TodoItem>, i: int)
    requires
        0 <= i < ts.len(),
    ensures
        views_of(ts.remove(i)) =~= views_of(ts).remove(i),
{
    views_of_len(ts);
    views_of_len(ts.remove(i));
    assert forall|k: int| 0 <= k < ts.len() - 1 implies views_of(ts.remove(i))[k] == views_of(
        ts,
    ).remove(i)[k] by {
        views_of_index(ts.remove(i), k);
        if k < i {
            views_of_index(ts, k);
        } else {
            views_of_index(ts, k + 1);
        }
    }
}

/// A sequence of nodes is all done exactly when each member is.
pub proof fn all_done_seq_char(cs: Seq<NodeView>)
    ensures
        all_done_seq(cs) <==> (forall|k: int| 0 <= k < cs.len() ==> #[trigger] cs[k].all_done()),
    decreases cs.len(),
{
    if cs.len() != 0 {
        let tail = cs.subrange(1, cs.len() as int);
        all_done_seq_char(tail);
        if all_done_seq(cs) {
            assert forall|k: int| 0 <= k < cs.len() implies #[trigger] cs[k].all_done() by {
                if k >= 1 {
                    assert(cs[k] == tail[k - 1]);
                    assert(tail[k - 1].all_done());
                }
            }
        }
        if forall|k: int| 0 <= k < cs.len() ==> #[trigger] cs[k].all_done() {
            assert forall|k: int| 0 <= k < tail.len() implies #[trigger] tail[k].all_done() by {
                assert(tail[k] == cs[k + 1]);
            }
            assert(all_done_seq(tail));
            assert(cs[0].all_done());
        }
    }
}

/// A node of the checklist: either a task (completion flag, label) or a
/// group (label, ordered children).
pub enum TodoItem {
    Task(bool, String),
    Group(String, Vec<TodoItem>),
}

/// The model of a node, defined recursively over the children.
pub open spec fn node_view(t: TodoItem) -> NodeView
    decreases t,
    via node_view_decreases
{
    match t {
        TodoItem::Task(done, label) => NodeView::Task { done, label: label@ },
        TodoItem::Group(label, children) => NodeView::Group {
            label: label@,
            children: views_of(children@),
        },
    }
}

/// The models of a sequence of nodes, element by element.
pub open spec fn views_of(ts: Seq<TodoItem>) -> Seq<NodeView>
    decreases ts,
{
    if ts.len() == 0 {
        Seq::empty()
    } else {
        seq![node_view(ts[0])] + views_of(ts.subrange(1, ts.len() as int))
    }
}

/// A sequence of nodes has as many models as members.
pub broadcast proof fn views_of_len(ts: Seq<TodoItem>)
    ensures
        #[trigger] views_of(ts).len() == ts.len(),
    decreases ts.len(),
{
    if ts.len() != 0 {
        views_of_len(ts.subrange(1, ts.len() as int));
    }
}

/// The model of the sequence of nodes agrees with the model of each member.
pub broadcast proof fn views_of_index(ts: Seq<TodoItem>, i: int)
    requires
        0 <= i < ts.len(),
    ensures
        #[trigger] views_of(ts)[i] == node_view(ts[i]),
    decreases ts.len(),
{
    views_of_len(ts);
    if i > 0 {
        views_of_index(ts.subrange(1, ts.len() as int), i - 1);
    }
}

#[via_fn]
proof fn node_view_decreases(t: TodoItem) {
    if t is Group {
        assert(decreases_to!(t => t->Group_1));
        assert(decreases_to!(t->Group_1 => t->Group_1@));
    }
}

impl View for TodoItem {
    type V = NodeView;

    open spec fn view(&self) -> NodeView {
        node_view(*self)
    }
}

impl TodoItem {
    /// Derived completion state, recomputed on demand.
    #[verifier::loop_isolation(false)]
    pub fn completed(&self) -> (r: bool)
        ensures
            r == self@.all_done(),
        decreases *self,
    {
        match self {
            TodoItem::Task(done, _) => *done,
            TodoItem::Group(_, children) => {
                let mut done_so_far = true;
                let mut i: usize = 0;
                while i < children.len()
                    invariant
                        i <= children.len(),
                        done_so_far == forall|k: int|
                            0 <= k < i ==> #[trigger] views_of(children@)[k].all_done(),
                    decreases children.len() - i,
                {
                    proof {
                        views_of_len(children@);
                        views_of_index(children@, i as int);
                        assert(*children == self->Group_1);
                        assert(decreases_to!(*self => self->Group_1));
                        assert(decreases_to!(*children => children@));
                        assert(decreases_to!(children@ => children@[i as int]));
                    }
                    let child_done = children[i].completed();
                    done_so_far = done_so_far && child_done;
                    i += 1;
                }
                proof {
                    views_of_len(children@);
                    all_done_seq_char(views_of(children@));
                }
                done_so_far
            }
        }
    }

    /// The node's label.
    pub fn message(&self) -> (r: &str)
        ensures
            r@ == self@.label(),
    {
        match self {
            TodoItem::Task(_, msg) => msg.as_str(),
            TodoItem::Group(msg, _) => msg.as_str(),
        }
    }

    /// Whether the node is a group.
    pub fn is_group(&self) -> (r: bool)
        ensures
            r == (self@ is Group),
    {
        match self {
            TodoItem::Group(_, _) => true,
            _ => false,
        }
    }

    /// The node addressed by the first `m` indices of a selection.
    #[verifier::loop_isolation(false)]
    fn get_upto(&self, sel: &Selection, m: usize) -> (r: Option<&TodoItem>)
        requires
            m <= sel@.len(),
        ensures
            r is Some <==> get_spec(self@, sel@.subrange(0, m as int)) is Some,
            r matches Some(node) ==> Some(node@) == get_spec(self@, sel@.subrange(0, m as int)),
    {
        let ghost path = sel@.subrange(0, m as int);
        let mut cur: &TodoItem = self;
        let mut i: usize = 0;
        proof {
            assert(path.subrange(0, path.len() as int) =~= path);
        }
        while i < m
            invariant
                i <= m,
                get_spec(self@, path) == get_spec(cur@, path.subrange(i as int, path.len() as int)),
            decreases m - i,
        {
            let ghost rest = path.subrange(i as int, path.len() as int);
            match cur {
                TodoItem::Task(_, _) => {
                    return None;
                },
                TodoItem::Group(_, children) => {
                    let idx = sel.0[i] as usize;
                    if idx < children.len() {
                        proof {
                            views_of_len(children@);
                            views_of_index(children@, idx as int);
                            assert(rest.subrange(1, rest.len() as int)
                                =~= path.subrange(i + 1, path.len() as int));
                        }
                        cur = &children[idx];
                        i += 1;
                    } else {
                        proof {
                            views_of_len(children@);
                        }
                        return None;
                    }
                },
            }
        }
        Some(cur)
    }

    /// The node addressed by a selection, if the path stays in bounds.
    pub fn get(&self, sel: &Selection) -> (r: Option<&TodoItem>)
        ensures
            r is Some <==> get_spec(self@, sel@) is Some,
            r matches Some(node) ==> Some(node@) == get_spec(self@, sel@),
    {
        proof {
            assert(sel@.subrange(0, sel@.len() as int) =~= sel@);
        }
        self.get_upto(sel, sel.0.len())
    }

    /// The parent of the addressed node: the selection is resolved with
    /// its last index dropped, so the root comes back for a path of
    /// length one, and for the empty path as well.
    pub fn get_prior(&self, sel: &Selection) -> (r: Option<&TodoItem>)
        ensures
            r is Some <==> get_spec(self@, prior_of(sel@)) is Some,
            r matches Some(node) ==> Some(node@) == get_spec(self@, prior_of(sel@)),
    {
        if sel.0.len() == 0 {
            proof {
                assert(prior_of(sel@) =~= sel@);
            }
            Some(self)
        } else {
            proof {
                assert(prior_of(sel@) =~= sel@.subrange(0, sel@.len() - 1));
            }
            self.get_upto(sel, sel.0.len() - 1)
        }
    }

    /// The node addressed by the first `m` indices of a selection,
    /// behind a mutable reference.
    #[verifier::loop_isolation(false)]
    fn get_mut_upto(&mut self, sel: &Selection, m: usize) -> (r: Option<&mut TodoItem>)
        requires
            m <= sel@.len(),
        ensures
            r is Some <==> get_spec(old(self)@, sel@.subrange(0, m as int)) is Some,
            r is None ==> final(self)@ == old(self)@,
            r is Some ==> (*r.unwrap())@ == get_spec(old(self)@, sel@.subrange(0, m as int)).unwrap(),
            r is Some ==> final(self)@ == set_spec(
                old(self)@,
                sel@.subrange(0, m as int),
                (*final(r.unwrap()))@,
            ),
    {
        let ghost root = old(self)@;
        let ghost path = sel@.subrange(0, m as int);
        let mut cur: &mut TodoItem = self;
        let mut i: usize = 0;
        proof {
            assert(path.subrange(0, 0) =~= Seq::<u8>::empty());
        }
        while i < m
            invariant
                i <= m,
                Some((*cur)@) == get_spec(root, path.subrange(0, i as int)),
                after_borrow(*self)@ == set_spec(root, path.subrange(0, i as int), (*final(cur))@),
            decreases m - i,
        {
            let ghost prefix = path.subrange(0, i as int);
            let ghost rest = path.subrange(i as int, path.len() as int);
            let ghost cur_view = (*cur)@;
            proof {
                assert(path =~= prefix + rest);
                lemma_get_spec_concat(root, prefix, rest);
                assert(rest[0] == path[i as int]);
            }
            let idx_key = sel.0[i];
            let idx = idx_key as usize;
            match cur {
                TodoItem::Task(_, _) => {
                    proof {
                        lemma_set_get_id(root, prefix);
                    }
                    return None;
                },
                TodoItem::Group(_, children) => {
                    if idx < children.len() {
                        let ghost pre_children = children@;
                        let next = &mut children[idx];
                        proof {
                            reveal_with_fuel(set_spec, 2);
                            views_of_len(pre_children);
                            views_of_index(pre_children, idx as int);
                            views_of_update(pre_children, idx as int, *final(next));
                            lemma_get_spec_snoc(root, prefix, idx_key);
                            lemma_set_spec_snoc(root, prefix, idx_key, (*final(next))@);
                            assert(prefix.push(idx_key) =~= path.subrange(0, i as int + 1));
                            assert(seq![idx_key][0] == idx_key);
                            assert(seq![idx_key].subrange(1, 1) =~= Seq::<u8>::empty());
                            assert((*final(next))@ == views_of(pre_children.update(
                                idx as int,
                                *final(next),
                            ))[idx as int]);
                            assert(set_spec(cur_view, seq![idx_key], (*final(next))@) =~= NodeView::Group {
                                label: cur_view->Group_label,
                                children: views_of(pre_children).update(idx as int, (*final(next))@),
                            });
                        }
                        cur = next;
                        i += 1;
                    } else {
                        proof {
                            views_of_len(children@);
                            lemma_set_get_id(root, prefix);
                        }
                        return None;
                    }
                },
            }
        }
        proof {
            assert(path.subrange(0, path.len() as int) =~= path);
        }
        Some(cur)
    }

    /// The addressed node behind a mutable reference: changes made
    /// through the reference land at the selected path of the tree,
    /// and nothing else of the tree moves.
    pub fn get_mut(&mut self, sel: &Selection) -> (r: Option<&mut TodoItem>)
        ensures
            r is Some <==> get_spec(old(self)@, sel@) is Some,
            r is None ==> final(self)@ == old(self)@,
            r is Some ==> (*r.unwrap())@ == get_spec(old(self)@, sel@).unwrap(),
            r is Some ==> final(self)@ == set_spec(old(self)@, sel@, (*final(r.unwrap()))@),
    {
        proof {
            assert(sel@.subrange(0, sel@.len() as int) =~= sel@);
        }
        let m = sel.0.len();
        self.get_mut_upto(sel, m)
    }

    /// The parent of the addressed node, behind a mutable reference;
    /// nothing for the empty path, which has no parent.
    pub fn get_prior_mut(&mut self, sel: &Selection) -> (r: Option<&mut TodoItem>)
        ensures
            sel@.len() == 0 ==> r is None && final(self)@ == old(self)@,
            sel@.len() > 0 ==> {
                &&& (r is Some <==> get_spec(old(self)@, prior_of(sel@)) is Some)
                &&& (r is None ==> final(self)@ == old(self)@)
                &&& (r is Some ==> (*r.unwrap())@ == get_spec(old(self)@, prior_of(sel@)).unwrap())
                &&& (r is Some ==> final(self)@ == set_spec(
                    old(self)@,
                    prior_of(sel@),
                    (*final(r.unwrap()))@,
                ))
            },
    {
        if sel.0.len() == 0 {
            None
        } else {
            proof {
                assert(prior_of(sel@) =~= sel@.subrange(0, sel@.len() - 1));
            }
            self.get_mut_upto(sel, sel.0.len() - 1)
        }
    }

    /// Whether a selection addresses a node of this tree.
    pub fn bound(&self, sel: &Selection) -> (r: bool)
        ensures
            r == (get_spec(self@, sel@) is Some),
    {
        self.get(sel).is_some()
    }

    /// Appends `value` as a new last child. A task has no children, so
    /// it is promoted in place to a group that keeps its label and
    /// holds `value` as its only child; the task's completion flag is
    /// not carried over.
    pub fn insert(&mut self, value: TodoItem)
        ensures
            final(self)@ == insert_spec(old(self)@, value@),
    {
        let mut tmp = TodoItem::Task(false, String::new());
        core::mem::swap(self, &mut tmp);
        let ghost w = value@;
        match tmp {
            TodoItem::Group(label, mut children) => {
                let ghost pre = children@;
                children.push(value);
                proof {
                    views_of_push(pre, children@[pre.len() as int]);
                }
                *self = TodoItem::Group(label, children);
            },
            TodoItem::Task(_, label) => {
                let mut children: Vec<TodoItem> = Vec::new();
                children.push(value);
                proof {
                    reveal_with_fuel(views_of, 2);
                    assert(children@.subrange(1, 1) =~= Seq::<TodoItem>::empty());
                    assert(views_of(children@) =~= seq![w]);
                }
                *self = TodoItem::Group(label, children);
            },
        }
    }

    /// The node with every task of its subtree set to `value`, by value.
    #[verifier::loop_isolation(false)]
    fn into_completed(self, value: bool) -> (r: TodoItem)
        ensures
            r@ == complete_spec(self@, value),
        decreases self,
    {
        match self {
            TodoItem::Task(_, label) => TodoItem::Task(value, label),
            TodoItem::Group(label, mut children) => {
                let ghost orig = children@;
                let mut i: usize = 0;
                while i < children.len()
                    invariant
                        i <= children.len(),
                        children@.len() == orig.len(),
                        forall|k: int| i <= k < orig.len() ==> children@[k] == orig[k],
                        forall|k: int| 0 <= k < i ==> node_view(#[trigger] children@[k])
                            == complete_spec(node_view(orig[k]), value),
                    decreases children.len() - i,
                {
                    let child = children.remove(i);
                    proof {
                        assert(child == orig[i as int]);
                        assert(decreases_to!(self => self->Group_1));
                        assert(decreases_to!(self->Group_1 => self->Group_1@));
                        assert(decreases_to!(self->Group_1@ => self->Group_1@[i as int]));
                    }
                    let finished = child.into_completed(value);
                    children.insert(i, finished);
                    i += 1;
                }
                proof {
                    views_of_len(orig);
                    views_of_len(children@);
                    complete_seq_char(views_of(orig), value);
                    assert forall|k: int| 0 <= k < orig.len() implies views_of(children@)[k]
                        == complete_seq(views_of(orig), value)[k] by {
                        views_of_index(children@, k);
                        views_of_index(orig, k);
                    }
                    assert(views_of(children@) =~= complete_seq(views_of(orig), value));
                }
                TodoItem::Group(label, children)
            },
        }
    }

    /// Sets a task's flag to `value`; for a group, sets the flag of
    /// every task below it, so that `completed` afterwards reports
    /// `value` throughout.
    pub fn complete(&mut self, value: bool)
        ensures
            final(self)@ == complete_spec(old(self)@, value),
    {
        let mut tmp = TodoItem::Task(false, String::new());
        core::mem::swap(self, &mut tmp);
        let mut finished = tmp.into_completed(value);
        core::mem::swap(self, &mut finished);
    }

    /// Removes the child the selection addresses from its parent's
    /// children; later siblings shift down by one. Nothing moves when
    /// the path is empty, out of bounds, or names no group child.
    pub fn delete(&mut self, sel: &Selection) -> (r: Option<()>)
        ensures
            r is Some <==> can_delete(old(self)@, sel@),
            r is Some ==> final(self)@ == delete_spec(old(self)@, sel@),
            r is None ==> final(self)@ == old(self)@,
    {
        let end = match sel.get_end() {
            Some(e) => e,
            None => {
                return None;
            },
        };
        let ghost root = old(self)@;
        let ghost prior = prior_of(sel@);
        match self.get_prior_mut(sel) {
            None => None,
            Some(parent) => {
                match parent {
                    TodoItem::Group(_, children) => {
                        let idx = end as usize;
                        if idx < children.len() {
                            let ghost pre = children@;
                            children.remove(idx);
                            proof {
                                views_of_len(pre);
                                views_of_remove(pre, idx as int);
                            }
                            Some(())
                        } else {
                            proof {
                                views_of_len(children@);
                                lemma_set_get_id(root, prior);
                            }
                            None
                        }
                    },
                    TodoItem::Task(_, _) => {
                        proof {
                            lemma_set_get_id(root, prior);
                        }
                        None
                    },
                }
            },
        }
    }
}

} // verus!
