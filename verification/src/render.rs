//! Depth-first rendering of the tree to bytes: one line per visible
//! node, tab-indented, with a status marker, and the selected node's
//! block wrapped in reverse-video start and reset sequences.

use vstd::prelude::*;

use crate::nav::Selection;
use crate::tree::{views_of, views_of_index, views_of_len, NodeView, TodoItem};

verus! {

broadcast use vstd::std_specs::vec::group_vec_axioms, vstd::seq::group_seq_axioms;

/// The reverse-video start sequence, `ESC [ 7 m`.
pub open spec fn rev_video_seq() -> Seq<u8> {
    seq![0x1bu8, 0x5bu8, 0x37u8, 0x6du8]
}

/// The attribute reset sequence, `ESC [ 0 m`.
pub open spec fn reset_seq() -> Seq<u8> {
    seq![0x1bu8, 0x5bu8, 0x30u8, 0x6du8]
}

/// The four-byte status marker: `[#] ` for a completed node, `[ ] `
/// otherwise.
pub open spec fn marker_seq(done: bool) -> Seq<u8> {
    if done {
        seq![0x5bu8, 0x23u8, 0x5du8, 0x20u8]
    } else {
        seq![0x5bu8, 0x20u8, 0x5du8, 0x20u8]
    }
}

/// `depth` tab bytes.
pub open spec fn tabs_seq(depth: u8) -> Seq<u8> {
    Seq::new(depth as nat, |i: int| 9u8)
}

/// The selection handed down to child number `i`: the remaining path
/// with its head consumed when the head names this child, nothing
/// otherwise, so no sibling of the selected branch is highlighted.
pub open spec fn child_sel(osel: Option<Seq<u8>>, i: int) -> Option<Seq<u8>> {
    match osel {
        Some(p) => if p.len() > 0 && p[0] == i {
            Some(p.subrange(1, p.len() as int))
        } else {
            None
        },
        None => None,
    }
}

/// Whether every node of the subtree can be rendered starting at
/// `depth` without the per-level byte counter running past 255.
pub open spec fn fits_depth_spec(v: NodeView, depth: u8) -> bool
    decreases v,
{
    match v {
        NodeView::Task { .. } => true,
        NodeView::Group { children, .. } => children.len() == 0 || (depth < 255 && fits_seq(
            children,
            (depth + 1) as u8,
        )),
    }
}

/// `fits_depth_spec` over each member of a sequence of nodes.
pub open spec fn fits_seq(cs: Seq<NodeView>, depth: u8) -> bool
    decreases cs,
{
    if cs.len() == 0 {
        true
    } else {
        fits_depth_spec(cs[0], depth) && fits_seq(cs.subrange(1, cs.len() as int), depth)
    }
}

/// `fits_seq` holds exactly when each member fits.
pub proof fn fits_seq_char(cs: Seq<NodeView>, depth: u8)
    ensures
        fits_seq(cs, depth) <==> (forall|k: int|
            0 <= k < cs.len() ==> #[trigger] fits_depth_spec(cs[k], depth)),
    decreases cs.len(),
{
    if cs.len() != 0 {
        let tail = cs.subrange(1, cs.len() as int);
        fits_seq_char(tail, depth);
        if fits_seq(cs, depth) {
            assert forall|k: int| 0 <= k < cs.len() implies #[trigger] fits_depth_spec(
                cs[k],
                depth,
            ) by {
                if k >= 1 {
                    assert(cs[k] == tail[k - 1]);
                    assert(fits_depth_spec(tail[k - 1], depth));
                }
            }
        }
        if forall|k: int| 0 <= k < cs.len() ==> #[trigger] fits_depth_spec(cs[k], depth) {
            assert forall|k: int| 0 <= k < tail.len() implies #[trigger] fits_depth_spec(
                tail[k],
                depth,
            ) by {
                assert(tail[k] == cs[k + 1]);
            }
            assert(fits_seq(tail, depth));
            assert(fits_depth_spec(cs[0], depth));
        }
    }
}

/// The bytes of one rendered subtree: the node's own line — an
/// optional reverse-video start, `depth` tabs, the status marker, the
/// UTF-8 bytes of the label and a newline — then each child in order
/// one level deeper, then, for the selected node, the reset sequence
/// closing its whole block.
pub open spec fn render_spec(v: NodeView, depth: u8, osel: Option<Seq<u8>>) -> Seq<u8>
    decreases v,
{
    let selected = osel matches Some(p) && p.len() == 0;
    let head = if selected {
        rev_video_seq()
    } else {
        Seq::<u8>::empty()
    };
    let line = head + tabs_seq(depth) + marker_seq(v.all_done()) + vstd::utf8::encode_utf8(
        v.label(),
    ) + seq![0x0au8];
    let foot = if selected {
        reset_seq()
    } else {
        Seq::<u8>::empty()
    };
    match v {
        NodeView::Task { .. } => line + foot,
        NodeView::Group { children, .. } => line + render_seq(
            children,
            (depth + 1) as u8,
            if selected {
                None
            } else {
                osel
            },
            0,
        ) + foot,
    }
}

/// The bytes of a run of siblings, `pos` being the child index of the
/// first of them within their parent.
pub open spec fn render_seq(cs: Seq<NodeView>, depth: u8, osel: Option<Seq<u8>>, pos: int) -> Seq<
    u8,
>
    decreases cs,
{
    if cs.len() == 0 {
        Seq::empty()
    } else {
        render_spec(cs[0], depth, child_sel(osel, pos)) + render_seq(
            cs.subrange(1, cs.len() as int),
            depth,
            osel,
            pos + 1,
        )
    }
}

/// The selection suffix still to be consumed at a node: the path minus
/// the indices already walked.
pub open spec fn sel_suffix(sel: Option<(&Selection, usize)>) -> Option<Seq<u8>> {
    match sel {
        Some(p) => Some(p.0@.subrange(p.1 as int, p.0@.len() as int)),
        None => None,
    }
}

/// Rendering one more sibling appends its bytes.
pub proof fn render_seq_snoc(cs: Seq<NodeView>, x: NodeView, depth: u8, osel: Option<Seq<u8>>, pos: int)
    ensures
        render_seq(cs.push(x), depth, osel, pos) =~= render_seq(cs, depth, osel, pos)
            + render_spec(x, depth, child_sel(osel, pos + cs.len())),
    decreases cs.len(),
{
    if cs.len() == 0 {
        reveal_with_fuel(render_seq, 2);
        assert(cs.push(x)[0] == x);
        assert(cs.push(x).subrange(1, 1) =~= Seq::<NodeView>::empty());
    } else {
        let tail = cs.subrange(1, cs.len() as int);
        render_seq_snoc(tail, x, depth, osel, pos + 1);
        assert(cs.push(x).subrange(1, cs.len() as int + 1) =~= tail.push(x));
        assert(cs.push(x)[0] == cs[0]);
    }
}

impl TodoItem {
    /// Whether the subtree can be rendered starting at `depth`: no
    /// descendant would stand deeper than level 255.
    #[verifier::loop_isolation(false)]
    pub fn fits_depth(&self, depth: u8) -> (r: bool)
        ensures
            r == fits_depth_spec(self@, depth),
        decreases *self,
    {
        match self {
            TodoItem::Task(_, _) => true,
            TodoItem::Group(_, children) => {
                if children.len() == 0 {
                    return true;
                }
                if depth == 255 {
                    proof {
                        views_of_len(children@);
                    }
                    return false;
                }
                let mut fits = true;
                let mut i: usize = 0;
                while i < children.len()
                    invariant
                        i <= children.len(),
                        depth < 255,
                        fits == forall|k: int|
                            0 <= k < i ==> #[trigger] fits_depth_spec(
                                views_of(children@)[k],
                                (depth + 1) as u8,
                            ),
                    decreases children.len() - i,
                {
                    proof {
                        views_of_len(children@);
                        views_of_index(children@, i as int);
                        assert(decreases_to!(*self => self->Group_1));
                        assert(decreases_to!(self->Group_1 => self->Group_1@));
                        assert(decreases_to!(self->Group_1@ => self->Group_1@[i as int]));
                    }
                    let child_fits = children[i].fits_depth(depth + 1);
                    fits = fits && child_fits;
                    i += 1;
                }
                proof {
                    views_of_len(children@);
                    fits_seq_char(views_of(children@), (depth + 1) as u8);
                }
                fits
            },
        }
    }

    /// Appends the node's own line: an optional reverse-video start,
    /// `depth` tabs, the status marker, the label bytes, a newline.
    #[verifier::loop_isolation(false)]
    fn render_line(&self, depth: u8, selected: bool, out: &mut Vec<u8>)
        ensures
            final(out)@ == old(out)@ + (if selected {
                rev_video_seq()
            } else {
                Seq::<u8>::empty()
            }) + tabs_seq(depth) + marker_seq(self@.all_done()) + vstd::utf8::encode_utf8(
                self@.label(),
            ) + seq![0x0au8],
    {
        if selected {
            out.push(0x1b);
            out.push(0x5b);
            out.push(0x37);
            out.push(0x6d);
            proof {
                assert(out@ =~= old(out)@ + rev_video_seq());
            }
        }
        let ghost after_head = out@;
        let mut d: u8 = 0;
        while d < depth
            invariant
                d <= depth,
                out@ =~= after_head + tabs_seq(d),
            decreases depth - d,
        {
            out.push(0x09);
            proof {
                assert(out@ =~= after_head + tabs_seq((d + 1) as u8));
            }
            d += 1;
        }
        let done = self.completed();
        out.push(0x5b);
        out.push(if done {
            0x23
        } else {
            0x20
        });
        out.push(0x5d);
        out.push(0x20);
        let ghost after_marker = out@;
        proof {
            assert(after_marker =~= after_head + tabs_seq(depth) + marker_seq(self@.all_done()));
        }
        let msg = self.message();
        let bytes = msg.as_bytes();
        let mut k: usize = 0;
        while k < bytes.len()
            invariant
                k <= bytes@.len(),
                out@ =~= after_marker + bytes@.subrange(0, k as int),
            decreases bytes@.len() - k,
        {
            out.push(bytes[k]);
            proof {
                assert(out@ =~= after_marker + bytes@.subrange(0, k + 1));
            }
            k += 1;
        }
        proof {
            assert(bytes@.subrange(0, bytes@.len() as int) =~= bytes@);
        }
        out.push(0x0a);
        proof {
            assert(final(out)@ =~= old(out)@ + (if selected {
                rev_video_seq()
            } else {
                Seq::<u8>::empty()
            }) + tabs_seq(depth) + marker_seq(self@.all_done()) + vstd::utf8::encode_utf8(
                self@.label(),
            ) + seq![0x0au8]);
        }
    }

    /// Renders the subtree into `out`, the whole tree when `sel` is
    /// the full remaining selection. The selected node's block is
    /// wrapped in reverse video.
    #[verifier::loop_isolation(false)]
    #[verifier::rlimit(60)]
    pub fn render_depth(&self, depth: u8, out: &mut Vec<u8>, sel: Option<(&Selection, usize)>)
        requires
            fits_depth_spec(self@, depth),
            sel matches Some(p) ==> p.1 <= p.0@.len(),
        ensures
            final(out)@ == old(out)@ + render_spec(self@, depth, sel_suffix(sel)),
        decreases *self,
    {
        let ghost osel = sel_suffix(sel);
        let selected = match sel {
            Some((s, pos)) => pos == s.0.len(),
            None => false,
        };
        proof {
            assert(selected == (osel matches Some(p) && p.len() == 0));
        }
        self.render_line(depth, selected, out);
        let ghost after_line = out@;
        match self {
            TodoItem::Task(_, _) => {},
            TodoItem::Group(_, children) => {
                let ghost cs = views_of(children@);
                let ghost child_osel: Option<Seq<u8>> = if selected {
                    None
                } else {
                    osel
                };
                proof {
                    views_of_len(children@);
                    if children@.len() > 0 {
                        fits_seq_char(cs, (depth + 1) as u8);
                    }
                    assert(cs.subrange(0, 0) =~= Seq::<NodeView>::empty());
                }
                let mut i: usize = 0;
                while i < children.len()
                    invariant
                        i <= children.len(),
                        out@ =~= after_line + render_seq(
                            cs.subrange(0, i as int),
                            (depth + 1) as u8,
                            child_osel,
                            0,
                        ),
                    decreases children.len() - i,
                {
                    let fsel: Option<(&Selection, usize)> = if selected {
                        None
                    } else {
                        match sel {
                            Some((s, pos)) => {
                                if s.0[pos] as usize == i {
                                    Some((s, pos + 1))
                                } else {
                                    None
                                }
                            },
                            None => None,
                        }
                    };
                    proof {
                        views_of_index(children@, i as int);
                        assert(sel_suffix(fsel) == child_sel(child_osel, i as int));
                        assert(decreases_to!(*self => self->Group_1));
                        assert(decreases_to!(self->Group_1 => self->Group_1@));
                        assert(decreases_to!(self->Group_1@ => self->Group_1@[i as int]));
                    }
                    children[i].render_depth(depth + 1, out, fsel);
                    proof {
                        render_seq_snoc(
                            cs.subrange(0, i as int),
                            cs[i as int],
                            (depth + 1) as u8,
                            child_osel,
                            0,
                        );
                        assert(cs.subrange(0, i as int).push(cs[i as int]) =~= cs.subrange(
                            0,
                            i as int + 1,
                        ));
                    }
                    i += 1;
                }
                proof {
                    assert(cs.subrange(0, children@.len() as int) =~= cs);
                }
            },
        }
        if selected {
            out.push(0x1b);
            out.push(0x5b);
            out.push(0x30);
            out.push(0x6d);
        }
        proof {
            assert(final(out)@ =~= old(out)@ + render_spec(self@, depth, osel));
        }
    }

    /// Renders the subtree with an optional selection counted from the
    /// root of the path.
    pub fn render(&self, depth: u8, out: &mut Vec<u8>, sel: Option<&Selection>)
        requires
            fits_depth_spec(self@, depth),
        ensures
            final(out)@ == old(out)@ + render_spec(
                self@,
                depth,
                match sel {
                    Some(s) => Some(s@),
                    None => None,
                },
            ),
    {
        let isel = match sel {
            Some(s) => Some((s, 0usize)),
            None => None,
        };
        proof {
            if sel is Some {
                assert(sel.unwrap()@.subrange(0, sel.unwrap()@.len() as int) =~= sel.unwrap()@);
            }
        }
        self.render_depth(depth, out, isel);
    }
}

} // verus!
