use vstd::prelude::*;
use vstd::view::View as _;

use crate::constraints::{lemma_tight_admits_only, BoxConstraints};
use crate::flex_layout::{sat_i64, shift};
use crate::geometry::{Offset, Size};
use crate::node::{NodeId, RenderNode};
use crate::registry::Registry;
use crate::tape::BuildContext;
use crate::tree::{LayoutError, RenderTree};
use crate::widgets::{consistent, View, Widget};

verus! {

/// A rectangle to outline on the drawing surface.
#[derive(Clone, Copy, Debug, PartialEq, Eq, Structural)]
pub struct DrawRect {
    pub offset: Offset,
    pub size: Size,
}

/// Why a frame was abandoned.
#[derive(Clone, Copy, Debug, PartialEq, Eq, Structural)]
pub enum FrameError {
    /// Layout failed.
    Layout(LayoutError),
    /// A node was to be painted before it had been laid out, or the tree is deeper
    /// than it has nodes.
    NotLaidOut,
}

/// `a` moved by `b`, each coordinate held inside the range of `i64`.
pub open spec fn translate(a: Offset, b: Offset) -> Offset {
    Offset { x: sat_i64(a.x + b.x) as i64, y: sat_i64(a.y + b.y) as i64 }
}

/// What painting node `id` at `offset` draws, in order; `None` when a node it
/// reaches has no size yet or the depth runs out.
pub open spec fn paint_spec(tree: RenderTree, id: int, offset: Offset, fuel: nat) -> Option<
    Seq<DrawRect>,
>
    decreases fuel, 0int,
{
    if fuel == 0 || id < 0 || id >= tree.nodes@.len() {
        None
    } else {
        match tree.nodes@[id] {
            RenderNode::View(v) => match v.child {
                Some(ch) => paint_spec(tree, ch as int, offset, (fuel - 1) as nat),
                None => Some(seq![]),
            },
            RenderNode::ConstrainedBox(b) => match b.size {
                Some(s) => Some(seq![DrawRect { offset, size: s }]),
                None => None,
            },
            RenderNode::Image(im) => match im.size {
                Some(s) => Some(seq![DrawRect { offset, size: s }]),
                None => None,
            },
            RenderNode::Flex(f) => match f.size {
                Some(s) => match children_paint(
                    tree,
                    f.children@,
                    offset,
                    (fuel - 1) as nat,
                    f.children@.len() as int,
                ) {
                    Some(rest) => Some(seq![DrawRect { offset, size: s }] + rest),
                    None => None,
                },
                None => None,
            },
        }
    }
}

/// What painting the first `k` children of a flex container at `offset` draws.
pub open spec fn children_paint(
    tree: RenderTree,
    slots: Seq<crate::node::RenderFlexible>,
    offset: Offset,
    fuel: nat,
    k: int,
) -> Option<Seq<DrawRect>>
    decreases fuel, 1 + if k > 0 {
        k
    } else {
        0
    },
{
    if k <= 0 || k > slots.len() {
        Some(seq![])
    } else {
        match children_paint(tree, slots, offset, fuel, k - 1) {
            Some(p) => match paint_spec(
                tree,
                slots[k - 1].inner as int,
                translate(offset, slots[k - 1].offset),
                fuel,
            ) {
                Some(q) => Some(p + q),
                None => None,
            },
            None => None,
        }
    }
}

/// Whether `p`, relative to a box's origin, lies inside a box of `size`.
pub open spec fn contains(size: Size, p: Offset) -> bool {
    0 <= p.x < size.width && 0 <= p.y < size.height
}

/// `a` moved back by `b`, each coordinate held inside the range of `i64`.
pub open spec fn untranslate(a: Offset, b: Offset) -> Offset {
    Offset { x: sat_i64(a.x - b.x) as i64, y: sat_i64(a.y - b.y) as i64 }
}

/// The nodes under position `p`, relative to node `id`'s origin, innermost first:
/// a laid-out node whose box holds `p`, after the hits among its children, each
/// tested at `p` moved into the child's frame.
pub open spec fn hit_spec(tree: RenderTree, id: int, p: Offset, fuel: nat) -> Seq<NodeId>
    decreases fuel, 0int,
{
    if fuel == 0 || id < 0 || id >= tree.nodes@.len() {
        seq![]
    } else {
        match tree.nodes@[id].size_of() {
            Some(s) => if contains(s, p) {
                let inner = match tree.nodes@[id] {
                    RenderNode::View(v) => match v.child {
                        Some(ch) => hit_spec(tree, ch as int, p, (fuel - 1) as nat),
                        None => seq![],
                    },
                    RenderNode::ConstrainedBox(b) => match b.child {
                        Some(ch) => hit_spec(tree, ch as int, p, (fuel - 1) as nat),
                        None => seq![],
                    },
                    RenderNode::Image(_) => seq![],
                    RenderNode::Flex(f) => children_hits(
                        tree,
                        f.children@,
                        p,
                        (fuel - 1) as nat,
                        f.children@.len() as int,
                    ),
                };
                inner.push(id as NodeId)
            } else {
                seq![]
            },
            None => seq![],
        }
    }
}

/// The hits among the first `k` children of a flex container, in child order.
pub open spec fn children_hits(
    tree: RenderTree,
    slots: Seq<crate::node::RenderFlexible>,
    p: Offset,
    fuel: nat,
    k: int,
) -> Seq<NodeId>
    decreases fuel, 1 + if k > 0 {
        k
    } else {
        0
    },
{
    if k <= 0 || k > slots.len() {
        seq![]
    } else {
        children_hits(tree, slots, p, fuel, k - 1) + hit_spec(
            tree,
            slots[k - 1].inner as int,
            untranslate(p, slots[k - 1].offset),
            fuel,
        )
    }
}

/// The nodes under `p`, relative to node `id`'s origin; see `hit_spec`.
pub fn hit_test(tree: &RenderTree, id: NodeId, p: Offset, fuel: usize) -> (r: Vec<NodeId>)
    requires
        tree.wf(),
    ensures
        r@ == hit_spec(*tree, id as int, p, fuel as nat),
    decreases fuel, 0usize,
{
    if fuel == 0 || id >= tree.len() {
        return Vec::new();
    }
    let s = match tree.size(id) {
        Some(s) => s,
        None => {
            return Vec::new();
        },
    };
    if !(0 <= p.x && p.x < s.width as i64 && 0 <= p.y && p.y < s.height as i64) {
        return Vec::new();
    }
    let mut out: Vec<NodeId> = match tree.node(id) {
        RenderNode::View(v) => match v.child {
            Some(ch) => hit_test(tree, ch, p, fuel - 1),
            None => Vec::new(),
        },
        RenderNode::ConstrainedBox(b) => match b.child {
            Some(ch) => hit_test(tree, ch, p, fuel - 1),
            None => Vec::new(),
        },
        RenderNode::Image(_) => Vec::new(),
        RenderNode::Flex(f) => {
            let mut acc: Vec<NodeId> = Vec::new();
            let mut k: usize = 0;
            while k < f.children.len()
                invariant
                    k <= f.children@.len(),
                    fuel > 0,
                    tree.wf(),
                    acc@ == children_hits(*tree, f.children@, p, (fuel - 1) as nat, k as int),
                decreases f.children@.len() - k,
            {
                let slot = f.children[k];
                let at = Offset::new(unshift(p.x, slot.offset.x), unshift(p.y, slot.offset.y));
                let mut q = hit_test(tree, slot.inner, at, fuel - 1);
                acc.append(&mut q);
                k = k + 1;
            }
            acc
        },
    };
    out.push(id);
    out
}

/// `pos - delta`, held inside the range of `i64`.
pub fn unshift(pos: i64, delta: i64) -> (r: i64)
    ensures
        r == sat_i64(pos - delta),
{
    if delta >= 0 {
        if pos < i64::MIN + delta {
            i64::MIN
        } else {
            pos - delta
        }
    } else {
        if pos > i64::MAX + delta {
            i64::MAX
        } else {
            pos - delta
        }
    }
}

/// Runs frames: rebuilds the render tree from the root declaration, lays it out to
/// fill the viewport, and paints it.
pub struct PipelineOwner {
    pub size: Size,
    pub root: Widget,
    pub tree: RenderTree,
    pub context: BuildContext,
    pub registry: Registry,
    pub render_view: Option<NodeId>,
}

impl PipelineOwner {
    pub open spec fn wf(self) -> bool {
        &&& self.tree.wf()
        &&& self.context.wf()
        &&& consistent(self.context, self.tree)
        &&& self.root.valid()
        &&& match self.render_view {
            Some(id) => id < self.tree.nodes@.len(),
            None => true,
        }
    }

    /// A pipeline for a viewport of `size` that shows `root` under a view.
    pub fn new(size: Size, root: Widget, registry: Registry) -> (r: PipelineOwner)
        requires
            root.valid(),
        ensures
            r.wf(),
            r.size == size,
            r.root == Widget::View(View { child: Box::new(root) }),
            r.tree.nodes@.len() == 0,
            r.render_view.is_none(),
            r.registry@ == registry@,
    {
        let root = Widget::View(View::new(root));
        PipelineOwner {
            size,
            root,
            tree: RenderTree::new(),
            context: BuildContext::new(),
            registry,
            render_view: None,
        }
    }

    /// Reconciles the root declaration with the tree from the first position of
    /// the tape, and drops what the previous frame built but this one did not reach.
    pub fn rebuild(&mut self) -> (r: NodeId)
        requires
            old(self).wf(),
        ensures
            final(self).wf(),
            final(self).render_view == Some(r),
            final(self).size == old(self).size,
            final(self).root == old(self).root,
            final(self).registry@ == old(self).registry@,
            old(self).tree.nodes@.len() <= final(self).tree.nodes@.len(),
            final(self).tree.nodes@[r as int].kind_of() == old(self).root.kind(),
            old(self).root.reflected_by(final(self).tree, r as int),
            old(self).context.entries@.len() > 0 && old(self).context.entries@[0].depth == 0
                && old(self).context.entries@[0].kind == old(self).root.kind() ==> r
                == old(self).context.entries@[0].node,
    {
        self.context.reset();
        let id = self.root.create(&mut self.context, &mut self.tree);
        let ghost before = self.context;
        self.context.finish();
        proof {
            assert forall|i: int| 0 <= i < self.context.entries@.len() implies {
                &&& (#[trigger] self.context.entries@[i]).node < self.tree.nodes@.len()
                &&& self.tree.nodes@[self.context.entries@[i].node as int].kind_of()
                    == self.context.entries@[i].kind
            } by {
                assert(self.context.entries@[i] == before.entries@[i]);
            }
        }
        self.render_view = Some(id);
        id
    }

    /// Lays the tree out under constraints tight to the viewport's size.
    pub fn flush_layout(&mut self) -> (r: Result<(), LayoutError>)
        requires
            old(self).wf(),
        ensures
            final(self).wf(),
            final(self).size == old(self).size,
            final(self).root == old(self).root,
            final(self).render_view == old(self).render_view,
            final(self).registry@ == old(self).registry@,
            final(self).tree.same_shape(old(self).tree),
            match old(self).render_view {
                Some(id) => {
                    &&& r.is_ok() <==> old(self).tree.layout_succeeds(old(self).registry@, id as int)
                    &&& r.is_ok() ==> final(self).tree.laid_out_tree(
                        id as int,
                        BoxConstraints::tight_spec(old(self).size),
                        old(self).tree.nodes@.len(),
                    )
                    &&& r.is_ok() ==> final(self).tree.nodes@[id as int].size_of() == Some(
                        old(self).size,
                    )
                },
                None => r.is_ok(),
            },
    {
        proof {
            crate::tree::lemma_same_shape_refl(self.tree);
        }
        match self.render_view {
            Some(id) => {
                let ghost t0 = self.tree;
                let c = BoxConstraints::tight(self.size);
                let r = self.tree.layout(&self.registry, id, &c);
                proof {
                    lemma_shape_keeps_consistency(self.context, t0, self.tree);
                    if r.is_ok() {
                        lemma_tight_admits_only(
                            self.size,
                            self.tree.nodes@[id as int].size_of().unwrap(),
                        );
                    }
                }
                r
            },
            None => Ok(()),
        }
    }

    /// What painting the tree from its root at the origin draws.
    pub fn flush_paint(&self) -> (r: Result<Vec<DrawRect>, FrameError>)
        requires
            self.wf(),
        ensures
            match self.render_view {
                Some(id) => match paint_spec(
                    self.tree,
                    id as int,
                    Offset { x: 0, y: 0 },
                    self.tree.nodes@.len(),
                ) {
                    Some(p) => r is Ok && r->Ok_0@ == p,
                    None => r == Err::<Vec<DrawRect>, FrameError>(FrameError::NotLaidOut),
                },
                None => r is Ok && r->Ok_0@.len() == 0,
            },
    {
        match self.render_view {
            Some(id) => match paint_at(&self.tree, id, Offset::zero(), self.tree.len()) {
                Some(p) => Ok(p),
                None => Err(FrameError::NotLaidOut),
            },
            None => Ok(Vec::new()),
        }
    }

    /// The nodes under `position`, relative to the viewport, innermost first: those
    /// that input at that position goes to.
    pub fn handle_event(&self, position: Offset) -> (r: Vec<NodeId>)
        requires
            self.wf(),
        ensures
            match self.render_view {
                Some(id) => r@ == hit_spec(self.tree, id as int, position, self.tree.nodes@.len()),
                None => r@.len() == 0,
            },
    {
        match self.render_view {
            Some(id) => hit_test(&self.tree, id, position, self.tree.len()),
            None => Vec::new(),
        }
    }

    /// One frame: rebuild, layout, paint.
    pub fn draw_frame(&mut self) -> (r: Result<Vec<DrawRect>, FrameError>)
        requires
            old(self).wf(),
        ensures
            final(self).wf(),
            final(self).render_view.is_some(),
            final(self).size == old(self).size,
            final(self).root == old(self).root,
            final(self).registry@ == old(self).registry@,
            old(self).root.reflected_by(final(self).tree, final(self).render_view->Some_0 as int),
            old(self).context.entries@.len() > 0 && old(self).context.entries@[0].depth == 0
                && old(self).context.entries@[0].kind == old(self).root.kind() ==> final(self).render_view
                == Some(old(self).context.entries@[0].node),
            r is Ok <==> final(self).tree.layout_succeeds(
                final(self).registry@,
                final(self).render_view->Some_0 as int,
            ),
            r is Ok ==> final(self).tree.laid_out_tree(
                final(self).render_view->Some_0 as int,
                BoxConstraints::tight_spec(old(self).size),
                final(self).tree.nodes@.len(),
            ),
            r is Ok ==> final(self).tree.nodes@[final(self).render_view->Some_0 as int].size_of()
                == Some(old(self).size),
            r is Ok ==> paint_spec(
                final(self).tree,
                final(self).render_view->Some_0 as int,
                Offset { x: 0, y: 0 },
                final(self).tree.nodes@.len(),
            ) == Some(r->Ok_0@),
    {
        let id = self.rebuild();
        let ghost t1 = self.tree;
        let res = self.flush_layout();
        proof {
            lemma_layout_succeeds_shape(self.tree, t1, self.registry@, id as int);
            lemma_reflected_shape(&self.root, self.tree, t1, id as int);
        }
        match res {
            Ok(()) => {},
            Err(e) => {
                return Err(FrameError::Layout(e));
            },
        }
        proof {
            lemma_paint_after_layout(
                self.tree,
                id as int,
                BoxConstraints::tight_spec(self.size),
                self.tree.nodes@.len(),
                Offset { x: 0, y: 0 },
            );
        }
        self.flush_paint()
    }
}

/// Painting node `id` at `offset`; see `paint_spec`.
pub fn paint_at(tree: &RenderTree, id: NodeId, offset: Offset, fuel: usize) -> (r: Option<
    Vec<DrawRect>,
>)
    requires
        tree.wf(),
    ensures
        match paint_spec(*tree, id as int, offset, fuel as nat) {
            Some(p) => r is Some && r->Some_0@ == p,
            None => r is None,
        },
    decreases fuel, 0usize,
{
    if fuel == 0 || id >= tree.len() {
        return None;
    }
    match tree.node(id) {
        RenderNode::View(v) => match v.child {
            Some(ch) => paint_at(tree, ch, offset, fuel - 1),
            None => Some(Vec::new()),
        },
        RenderNode::ConstrainedBox(b) => match b.size {
            Some(s) => Some(vec![DrawRect { offset, size: s }]),
            None => None,
        },
        RenderNode::Image(im) => match im.size {
            Some(s) => Some(vec![DrawRect { offset, size: s }]),
            None => None,
        },
        RenderNode::Flex(f) => match f.size {
            Some(s) => {
                let mut out: Vec<DrawRect> = vec![DrawRect { offset, size: s }];
                let mut k: usize = 0;
                while k < f.children.len()
                    invariant
                        k <= f.children@.len(),
                        fuel > 0,
                        tree.wf(),
                        id < tree.nodes@.len(),
                        tree.nodes@[id as int] == RenderNode::Flex(*f),
                        f.size == Some(s),
                        out@.len() >= 1,
                        out@[0] == (DrawRect { offset, size: s }),
                        children_paint(*tree, f.children@, offset, (fuel - 1) as nat, k as int)
                            == Some(out@.subrange(1, out@.len() as int)),
                    decreases f.children@.len() - k,
                {
                    let slot = f.children[k];
                    let at = Offset::new(shift(offset.x, slot.offset.x), shift(offset.y, slot.offset.y));
                    match paint_at(tree, slot.inner, at, fuel - 1) {
                        Some(mut q) => {
                            let ghost prev = out@;
                            let ghost qv = q@;
                            out.append(&mut q);
                            proof {
                                assert(out@.subrange(1, out@.len() as int) =~= prev.subrange(
                                    1,
                                    prev.len() as int,
                                ) + qv);
                            }
                        },
                        None => {
                            proof {
                                lemma_children_paint_none(
                                    *tree,
                                    f.children@,
                                    offset,
                                    (fuel - 1) as nat,
                                    k as int + 1,
                                    f.children@.len() as int,
                                );
                            }
                            return None;
                        },
                    }
                    k = k + 1;
                }
                proof {
                    assert(out@ =~= seq![DrawRect { offset, size: s }] + out@.subrange(
                        1,
                        out@.len() as int,
                    ));
                }
                Some(out)
            },
            None => None,
        },
    }
}

proof fn lemma_children_paint_none(
    tree: RenderTree,
    slots: Seq<crate::node::RenderFlexible>,
    offset: Offset,
    fuel: nat,
    k: int,
    n: int,
)
    requires
        1 <= k <= n <= slots.len(),
        children_paint(tree, slots, offset, fuel, k) is None,
    ensures
        children_paint(tree, slots, offset, fuel, n) is None,
    decreases n - k,
{
    if k < n {
        lemma_children_paint_none(tree, slots, offset, fuel, k + 1, n);
    }
}

/// A laid-out tree can be painted.
pub proof fn lemma_paint_after_layout(t: RenderTree, id: int, c: BoxConstraints, fuel: nat, offset: Offset)
    requires
        t.laid_out_tree(id, c, fuel),
    ensures
        paint_spec(t, id, offset, fuel) is Some,
    decreases fuel, 0int,
{
    match t.nodes@[id] {
        RenderNode::View(v) => {
            if v.child is Some {
                lemma_paint_after_layout(t, v.child->Some_0 as int, c, (fuel - 1) as nat, offset);
            }
        },
        RenderNode::Flex(f) => {
            lemma_children_paint_after_layout(
                t,
                f.children@,
                offset,
                (fuel - 1) as nat,
                f.children@.len() as int,
            );
        },
        _ => {},
    }
}

proof fn lemma_children_paint_after_layout(
    t: RenderTree,
    slots: Seq<crate::node::RenderFlexible>,
    offset: Offset,
    fuel: nat,
    k: int,
)
    requires
        k <= slots.len(),
        forall|j: int| 0 <= j < slots.len() ==> t.laid_out_tree(
            (#[trigger] slots[j]).inner as int,
            slots[j].constraints,
            fuel,
        ),
    ensures
        children_paint(t, slots, offset, fuel, k) is Some,
    decreases fuel, 1 + if k > 0 {
        k
    } else {
        0
    },
{
    if k > 0 {
        lemma_children_paint_after_layout(t, slots, offset, fuel, k - 1);
        lemma_paint_after_layout(
            t,
            slots[k - 1].inner as int,
            slots[k - 1].constraints,
            fuel,
            translate(offset, slots[k - 1].offset),
        );
    }
}

/// Whether a layout succeeds depends only on the tree's shape.
pub proof fn lemma_layout_succeeds_shape(a: RenderTree, b: RenderTree, reg: crate::tree::Handlers, id: int)
    requires
        a.same_shape(b),
    ensures
        a.layout_succeeds(reg, id) == b.layout_succeeds(reg, id),
{
    crate::tree::lemma_can_layout_shape(a, b, reg, id, a.nodes@.len());
    crate::tree::lemma_reach_shape(a, b, id, a.nodes@.len());
    assert(Seq::new(a.nodes@.len(), |x: int| false) == Seq::new(b.nodes@.len(), |x: int| false));
}

/// What a declaration fixes of its node survives layout.
pub proof fn lemma_reflected_shape(w: &Widget, a: RenderTree, b: RenderTree, id: int)
    requires
        a.same_shape(b),
        b.wf(),
        0 <= id < a.nodes@.len(),
        w.reflected_by(b, id),
    ensures
        w.reflected_by(a, id),
{
    assert(a.nodes@[id].same_shape(b.nodes@[id]));
    assert(b.nodes@[id].wf_in(b.nodes@.len()));
    match (w, a.nodes@[id], b.nodes@[id]) {
        (Widget::Flex(fw), RenderNode::Flex(x), RenderNode::Flex(y)) => {
            assert forall|j: int| 0 <= j < x.children@.len() implies {
                &&& (#[trigger] x.children@[j]).flex == fw.children@[j].flex
                &&& x.children@[j].fit == fw.children@[j].fit
                &&& a.nodes@[x.children@[j].inner as int].kind_of() == fw.children@[j].child.kind()
            } by {
                assert(x.children@[j].inner == y.children@[j].inner);
                assert(b.nodes@[id].child_ids()[j] == y.children@[j].inner);
                assert(b.nodes@[y.children@[j].inner as int].kind_of() == fw.children@[j].child.kind());
                assert(a.nodes@[x.children@[j].inner as int].same_shape(b.nodes@[x.children@[j].inner as int]));
            }
        },
        (Widget::View(vw), RenderNode::View(x), RenderNode::View(y)) => {
            if x.child is Some {
                let ch = x.child->Some_0 as int;
                assert(b.nodes@[id].child_ids()[0] == ch);
                assert(a.nodes@[ch].same_shape(b.nodes@[ch]));
            }
        },
        _ => {},
    }
}

/// Layout keeps node kinds, so the tape still names nodes of the kinds it says.
proof fn lemma_shape_keeps_consistency(cx: BuildContext, before: RenderTree, after: RenderTree)
    requires
        consistent(cx, before),
        after.same_shape(before),
    ensures
        consistent(cx, after),
{
    assert forall|i: int| 0 <= i < cx.entries@.len() implies {
        &&& (#[trigger] cx.entries@[i]).node < after.nodes@.len()
        &&& after.nodes@[cx.entries@[i].node as int].kind_of() == cx.entries@[i].kind
    } by {
        let n = cx.entries@[i].node as int;
        assert(after.nodes@[n].same_shape(before.nodes@[n]));
    }
}

} // verus!
