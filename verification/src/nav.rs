//! The cursor: a path of child indices from the tree root, and the four
//! directional moves with their feasibility rules.

use vstd::prelude::*;

use crate::tree::{get_spec, lemma_get_spec_snoc, prior_of, NodeView, TodoItem};

verus! {

/// A path from the tree root addressing one node: each element is a
/// child index, the empty path addresses the root. A selection may go
/// out of bounds when the tree shrinks; callers re-validate with
/// `TodoItem::bound` before trusting it.
pub struct Selection(pub Vec<u8>);

impl View for Selection {
    type V = Seq<u8>;

    open spec fn view(&self) -> Seq<u8> {
        self.0@
    }
}

/// The four directional moves of the cursor.
#[derive(Debug, Clone, Copy)]
pub enum CursMove {
    In,
    Out,
    Down,
    Up,
}

/// Feasibility of a move for a cursor standing at `path` in the tree
/// `v`.
///
/// `In` asks for an addressed group to descend into; `Out` for a
/// non-empty path whose parent can be resolved; `Down` for a next
/// sibling inside the parent group (an index is one byte, so a cursor
/// already at index 254 cannot advance); `Up` for a previous sibling.
pub open spec fn check_move_spec(v: NodeView, path: Seq<u8>, action: CursMove) -> bool {
    match action {
        CursMove::In => get_spec(v, path) is Some && get_spec(v, path).unwrap() is Group,
        CursMove::Out => path.len() > 0 && get_spec(v, prior_of(path)) is Some,
        CursMove::Down => {
            &&& path.len() > 0
            &&& get_spec(v, prior_of(path)) is Some
            &&& get_spec(v, prior_of(path)).unwrap() is Group
            &&& path.last() < 255
            &&& (path.last() as int) + 1 < get_spec(v, prior_of(path)).unwrap()->Group_children.len()
        },
        CursMove::Up => path.len() > 0 && get_spec(v, prior_of(path)) is Some && path.last() > 0,
    }
}

/// The path after a move: `In` descends to the first child, `Out`
/// drops the last index, `Down` and `Up` step to the neighbouring
/// sibling.
pub open spec fn do_move_spec(path: Seq<u8>, action: CursMove) -> Seq<u8> {
    match action {
        CursMove::In => path.push(0),
        CursMove::Out => prior_of(path),
        CursMove::Down => path.update(path.len() - 1, ((path.last() + 1) as u8)),
        CursMove::Up => path.update(path.len() - 1, ((path.last() - 1) as u8)),
    }
}

impl Selection {
    /// The last index of the path, if the path is non-empty.
    pub fn get_end(&self) -> (r: Option<u8>)
        ensures
            r == if self@.len() == 0 { Option::<u8>::None } else { Option::Some(self@.last()) },
    {
        if self.0.len() == 0 {
            None
        } else {
            Some(self.0[self.0.len() - 1])
        }
    }

    /// Applies a move to the path alone. The caller is responsible for
    /// having checked feasibility against the tree; this mutator only
    /// asks for what keeps the path arithmetic in range.
    pub fn do_move(&mut self, action: CursMove)
        requires
            match action {
                CursMove::Down => old(self)@.len() > 0 && old(self)@.last() < 255,
                CursMove::Up => old(self)@.len() > 0 && old(self)@.last() > 0,
                _ => true,
            },
        ensures
            final(self)@ == do_move_spec(old(self)@, action),
    {
        match action {
            CursMove::Down => {
                let clen = self.0.len();
                let v = self.0[clen - 1];
                self.0[clen - 1] = v + 1;
            },
            CursMove::Up => {
                let clen = self.0.len();
                let v = self.0[clen - 1];
                self.0[clen - 1] = v - 1;
            },
            CursMove::Out => {
                self.0.pop();
                proof {
                    if old(self)@.len() > 0 {
                        assert(self@ =~= prior_of(old(self)@));
                    }
                }
            },
            CursMove::In => {
                self.0.push(0);
            },
        }
    }
}

impl TodoItem {
    /// Whether `action` may move the cursor `sel` within this tree.
    pub fn check_move(&self, sel: &Selection, action: CursMove) -> (r: bool)
        ensures
            r == check_move_spec(self@, sel@, action),
    {
        match action {
            CursMove::Down => {
                if sel.0.len() == 0 {
                    return false;
                }
                match self.get_prior(sel) {
                    None => false,
                    Some(prior) => match prior {
                        TodoItem::Task(_, _) => false,
                        TodoItem::Group(_, children) => {
                            proof {
                                crate::tree::views_of_len(children@);
                            }
                            let prior_ind = sel.0[sel.0.len() - 1] as usize;
                            prior_ind < 255 && prior_ind + 1 < children.len()
                        },
                    },
                }
            },
            CursMove::Up => {
                if sel.0.len() == 0 {
                    return false;
                }
                if self.get_prior(sel).is_none() {
                    return false;
                }
                sel.0[sel.0.len() - 1] > 0
            },
            CursMove::Out => sel.0.len() > 0 && self.get_prior(sel).is_some(),
            CursMove::In => match self.get(sel) {
                None => false,
                Some(node) => node.is_group(),
            },
        }
    }

    /// Moves the cursor only where the move is feasible; an infeasible
    /// action leaves the selection untouched.
    pub fn do_move(&self, sel: &mut Selection, action: CursMove)
        ensures
            final(sel)@ == if check_move_spec(self@, old(sel)@, action) {
                do_move_spec(old(sel)@, action)
            } else {
                old(sel)@
            },
    {
        if self.check_move(sel, action) {
            sel.do_move(action);
        }
    }
}

/// The longest prefix of a path that still addresses a node: where a
/// stale path walks out of the shrunken tree, trailing indices fall
/// away until it is back in bounds; the empty path always addresses
/// the root.
pub open spec fn clamp_spec(v: NodeView, path: Seq<u8>) -> Seq<u8>
    decreases path.len(),
{
    if get_spec(v, path) is Some {
        path
    } else {
        clamp_spec(v, prior_of(path))
    }
}

impl TodoItem {
    /// Re-validates a selection after the tree shrank: pops trailing
    /// indices until the selection addresses a node again.
    #[verifier::loop_isolation(false)]
    pub fn revalidate(&self, sel: &mut Selection)
        ensures
            final(sel)@ == clamp_spec(self@, old(sel)@),
            get_spec(self@, final(sel)@) is Some,
    {
        while !self.bound(sel)
            invariant
                clamp_spec(self@, sel@) == clamp_spec(self@, old(sel)@),
            decreases sel@.len(),
        {
            let ghost pre = sel@;
            proof {
                assert(get_spec(self@, Seq::<u8>::empty()) is Some);
                assert(pre.len() > 0);
            }
            sel.0.pop();
            proof {
                assert(sel@ =~= prior_of(pre));
            }
        }
    }
}

/// The climb of the forward compound move: from `path`, step to the
/// next sibling if one exists, otherwise climb out and try again;
/// nothing once neither move is feasible.
pub open spec fn climb_spec(v: NodeView, path: Seq<u8>) -> Option<Seq<u8>>
    decreases path.len(),
{
    if check_move_spec(v, path, CursMove::Down) {
        Some(do_move_spec(path, CursMove::Down))
    } else if check_move_spec(v, path, CursMove::Out) {
        climb_spec(v, do_move_spec(path, CursMove::Out))
    } else {
        None
    }
}

/// Where the forward compound move lands: into a group's first child
/// when the cursor stands on a group, else on the next sibling of the
/// nearest ancestor that has one, else where it already stands.
pub open spec fn next_visible_spec(v: NodeView, path: Seq<u8>) -> Seq<u8> {
    if check_move_spec(v, path, CursMove::In) {
        do_move_spec(path, CursMove::In)
    } else {
        match climb_spec(v, path) {
            Some(p) => p,
            None => path,
        }
    }
}

/// The dive of the backward compound move: from an addressed node,
/// keep stepping to the last child until a task or a childless group
/// is reached. An index is one byte, so a group with more than 256
/// children is entered at child 255.
pub open spec fn descend_spec(v: NodeView, path: Seq<u8>) -> Seq<u8>
    decreases get_spec(v, path).unwrap()
    when get_spec(v, path) is Some
    via descend_spec_decreases
{
    let u = get_spec(v, path).unwrap();
    match u {
        NodeView::Task { .. } => path,
        NodeView::Group { children, .. } => {
            if children.len() == 0 {
                path
            } else {
                descend_spec(v, path.push(last_child_index(children.len() as int)))
            }
        },
    }
}

/// The byte index of a group's last reachable child.
pub open spec fn last_child_index(n: int) -> u8
    recommends
        n > 0,
{
    if n < 256 {
        (n - 1) as u8
    } else {
        255u8
    }
}

#[via_fn]
proof fn descend_spec_decreases(v: NodeView, path: Seq<u8>) {
    let u = get_spec(v, path).unwrap();
    if u is Group && u->Group_children.len() > 0 {
        let idx = last_child_index(u->Group_children.len() as int);
        lemma_get_spec_snoc(v, path, idx);
        assert(decreases_to!(u => u->Group_children));
        assert(decreases_to!(u->Group_children => u->Group_children[idx as int]));
    }
}

/// Where the backward compound move lands: on the deepest last
/// descendant of the previous sibling when there is one, else on the
/// parent, else where it already stands.
pub open spec fn prev_visible_spec(v: NodeView, path: Seq<u8>) -> Seq<u8> {
    if check_move_spec(v, path, CursMove::Up) {
        let up = do_move_spec(path, CursMove::Up);
        if get_spec(v, up) is Some {
            descend_spec(v, up)
        } else {
            up
        }
    } else if check_move_spec(v, path, CursMove::Out) {
        do_move_spec(path, CursMove::Out)
    } else {
        path
    }
}

impl TodoItem {
    /// The forward compound move: into a group, else to the next
    /// sibling, else out to the nearest ancestor with a next sibling
    /// and onto it; the selection stays put when nothing of the kind
    /// is feasible.
    #[verifier::loop_isolation(false)]
    pub fn next_visible(&self, sel: &mut Selection)
        ensures
            final(sel)@ == next_visible_spec(self@, old(sel)@),
    {
        if self.check_move(sel, CursMove::In) {
            sel.do_move(CursMove::In);
            return;
        }
        let mut popped: Vec<u8> = Vec::new();
        loop
            invariant
                old(sel)@ =~= sel@ + popped@.reverse(),
                climb_spec(self@, old(sel)@) == climb_spec(self@, sel@),
            decreases sel@.len(),
        {
            if self.check_move(sel, CursMove::Down) {
                sel.do_move(CursMove::Down);
                return;
            }
            if self.check_move(sel, CursMove::Out) {
                let ghost pre = sel@;
                let end = match sel.get_end() {
                    Some(e) => e,
                    None => {
                        proof {
                            assert(false);
                        }
                        0
                    },
                };
                popped.push(end);
                sel.do_move(CursMove::Out);
                proof {
                    assert(prior_of(pre).push(end) =~= pre);
                    assert(popped@.reverse() =~= seq![end] + popped@.drop_last().reverse());
                    assert(old(sel)@ =~= sel@ + popped@.reverse());
                }
            } else {
                while popped.len() > 0
                    invariant
                        old(sel)@ =~= sel@ + popped@.reverse(),
                    decreases popped@.len(),
                {
                    let ghost pre_popped = popped@;
                    let x = match popped.pop() {
                        Some(e) => e,
                        None => {
                            proof {
                                assert(false);
                            }
                            0
                        },
                    };
                    sel.0.push(x);
                    proof {
                        assert(pre_popped.reverse() =~= seq![x] + popped@.reverse());
                    }
                }
                proof {
                    assert(old(sel)@ =~= sel@);
                }
                return;
            }
        }
    }

    /// The backward compound move: onto the deepest last descendant of
    /// the previous sibling, else out to the parent; the selection
    /// stays put when neither is feasible.
    #[verifier::loop_isolation(false)]
    pub fn prev_visible(&self, sel: &mut Selection)
        ensures
            final(sel)@ == prev_visible_spec(self@, old(sel)@),
    {
        if self.check_move(sel, CursMove::Up) {
            sel.do_move(CursMove::Up);
            if !self.bound(sel) {
                return;
            }
            loop
                invariant
                    get_spec(self@, sel@) is Some,
                    descend_spec(self@, sel@) == prev_visible_spec(self@, old(sel)@),
                decreases get_spec(self@, sel@).unwrap(),
            {
                let node = match self.get(sel) {
                    Some(n) => n,
                    None => {
                        proof {
                            assert(false);
                        }
                        return;
                    },
                };
                match node {
                    TodoItem::Task(_, _) => {
                        return;
                    },
                    TodoItem::Group(_, children) => {
                        proof {
                            crate::tree::views_of_len(children@);
                        }
                        if children.len() == 0 {
                            return;
                        }
                        let last: u8 = if children.len() < 256 {
                            (children.len() - 1) as u8
                        } else {
                            255
                        };
                        proof {
                            lemma_get_spec_snoc(self@, sel@, last);
                        }
                        sel.0.push(last);
                    },
                }
            }
        } else if self.check_move(sel, CursMove::Out) {
            sel.do_move(CursMove::Out);
        }
    }
}

/// Entering a group and stepping back out leaves the cursor where it
/// stood: after a feasible `In`, `Out` is feasible and undoes it.
pub proof fn lemma_in_then_out(v: NodeView, path: Seq<u8>)
    requires
        check_move_spec(v, path, CursMove::In),
    ensures
        check_move_spec(v, do_move_spec(path, CursMove::In), CursMove::Out),
        do_move_spec(do_move_spec(path, CursMove::In), CursMove::Out) == path,
{
    assert(prior_of(path.push(0)) =~= path);
}

/// The sibling bounds of the cursor: `Down` is infeasible at the last
/// child of a group, `Up` at the first.
pub proof fn lemma_sibling_bounds(v: NodeView, path: Seq<u8>)
    requires
        path.len() > 0,
        get_spec(v, prior_of(path)) is Some,
        get_spec(v, prior_of(path)).unwrap() is Group,
    ensures
        path.last() as int == get_spec(v, prior_of(path)).unwrap()->Group_children.len() - 1
            ==> !check_move_spec(v, path, CursMove::Down),
        path.last() == 0 ==> !check_move_spec(v, path, CursMove::Up),
{
}

} // verus!
