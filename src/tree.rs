use vstd::prelude::*;

use crate::constraints::BoxConstraints;
use crate::flex::{
    flexible_constraints, inflexible_constraints, inflexible_constraints_spec, CrossAxisAlignment,
    FlexFit,
};
use crate::flex_layout::{
    agree_before, agree_inflexible, allocated, arrange, cap, child_constraints, cross_extent,
    cross_max, flex_laid_out, flex_sum, free_space, last_flex, lemma_child_constraints_agree,
    lemma_flex_le_sum, lemma_flex_sum_nonneg, lemma_inflexible_agree, lemma_measures_agree,
    lemma_prefix_agree, main_sum, space_per_flex, total_flex,
};
use crate::geometry::{Axis, Size, UNBOUNDED};
use crate::node::{
    NodeId, RenderConstrainedBox, RenderFlex, RenderFlexible, RenderImage, RenderNode, RenderView,
};
use crate::registry::{ConstraintKind, LayoutHandler, NodeKind, Registry};

verus! {

/// Why a layout was abandoned. Each is a programming error of the caller's.
#[derive(Clone, Copy, Debug, PartialEq, Eq, Structural)]
pub enum LayoutError {
    /// No handler was registered for the pairing.
    Unregistered { constraint_kind: ConstraintKind, node_kind: NodeKind },
    /// The handler registered for the pairing lays out another kind of node.
    HandlerMismatch { node_kind: NodeKind, handler: LayoutHandler },
    /// A flex container asked for baseline alignment, which is not supported.
    UnsupportedAlignment,
    /// The tree is deeper than it has nodes: some node is its own descendant.
    TooDeep,
    /// A node was reached a second time: it sits in two parent slots.
    SharedNode,
}

pub type Handlers = Map<(ConstraintKind, NodeKind), LayoutHandler>;

/// A render tree: its nodes, each addressed by its index.
pub struct RenderTree {
    pub nodes: Vec<RenderNode>,
}

impl RenderTree {
    /// Every node refers only to nodes of the tree.
    pub open spec fn wf(self) -> bool {
        forall|i: int|
            0 <= i < self.nodes@.len() ==> #[trigger] self.nodes@[i].wf_in(self.nodes@.len())
    }

    /// The same nodes, kinds, settings and children; only what layout records differs.
    pub open spec fn same_shape(self, other: RenderTree) -> bool {
        &&& self.nodes@.len() == other.nodes@.len()
        &&& forall|i: int|
            0 <= i < self.nodes@.len() ==> #[trigger] self.nodes@[i].same_shape(other.nodes@[i])
    }

    /// The handler for a node of kind `k` is registered and fits it.
    pub open spec fn registered(reg: Handlers, k: NodeKind) -> bool {
        reg.contains_key((ConstraintKind::Box, k)) && reg[(ConstraintKind::Box, k)].target() == k
    }

    /// Whether laying out node `id` with `fuel` levels of depth succeeds: every node
    /// it reaches has a fitting handler, no flex container among them asks for
    /// baseline alignment, and no path from it is `fuel` nodes long.
    pub open spec fn can_layout(self, reg: Handlers, id: int, fuel: nat) -> bool
        decreases fuel,
    {
        if fuel == 0 || id < 0 || id >= self.nodes@.len() {
            false
        } else {
            let node = self.nodes@[id];
            &&& RenderTree::registered(reg, node.kind_of())
            &&& match node {
                RenderNode::View(v) => match v.child {
                    Some(ch) => self.can_layout(reg, ch as int, (fuel - 1) as nat),
                    None => true,
                },
                RenderNode::ConstrainedBox(b) => match b.child {
                    Some(ch) => self.can_layout(reg, ch as int, (fuel - 1) as nat),
                    None => true,
                },
                RenderNode::Image(_) => true,
                RenderNode::Flex(f) => f.cross_axis_alignment != CrossAxisAlignment::Baseline
                    && forall|j: int|
                    0 <= j < f.children@.len() ==> self.can_layout(
                        reg,
                        (#[trigger] f.children@[j]).inner as int,
                        (fuel - 1) as nat,
                    ),
            }
        }
    }

    /// What node `id` records after a layout under `c`: a view or a constrained box
    /// takes its child's size, a childless one the smallest size it admits; an
    /// image box and a flex container as their own policies say.
    pub open spec fn laid_out(self, id: int, c: BoxConstraints) -> bool {
        match self.nodes@[id] {
            RenderNode::View(v) => v.size == match v.child {
                Some(ch) => self.nodes@[ch as int].size_of(),
                None => Some(c.smallest_spec()),
            },
            RenderNode::ConstrainedBox(b) => b.size == match b.child {
                Some(ch) => self.nodes@[ch as int].size_of(),
                None => Some(b.childless_size(c)),
            },
            RenderNode::Image(im) => im.size == Some(im.layout_size(c)),
            RenderNode::Flex(f) => flex_laid_out(f, c),
        }
    }

    /// The nodes a layout of `id` with `fuel` levels visits, in the order it visits
    /// them: the node, then its children's, a flex container's children of weight
    /// zero before its flexible ones.
    pub open spec fn reach(self, id: int, fuel: nat) -> Seq<NodeId>
        decreases fuel, 2int,
    {
        if fuel == 0 || id < 0 || id >= self.nodes@.len() {
            seq![]
        } else {
            seq![id as NodeId] + self.child_reach(id, fuel)
        }
    }

    /// What `reach` visits after node `id` itself.
    pub open spec fn child_reach(self, id: int, fuel: nat) -> Seq<NodeId>
        decreases fuel, 1int,
    {
        if fuel == 0 || id < 0 || id >= self.nodes@.len() {
            seq![]
        } else {
            match self.nodes@[id] {
                RenderNode::View(v) => match v.child {
                    Some(ch) => self.reach(ch as int, (fuel - 1) as nat),
                    None => seq![],
                },
                RenderNode::ConstrainedBox(b) => match b.child {
                    Some(ch) => self.reach(ch as int, (fuel - 1) as nat),
                    None => seq![],
                },
                RenderNode::Image(_) => seq![],
                RenderNode::Flex(f) => self.slots_reach(
                    f.children@,
                    (fuel - 1) as nat,
                    f.children@.len() as int,
                    false,
                ) + self.slots_reach(f.children@, (fuel - 1) as nat, f.children@.len() as int, true),
            }
        }
    }

    /// What laying out the first `k` children that are flexible (`flexible`) or of
    /// weight zero visits.
    pub open spec fn slots_reach(
        self,
        slots: Seq<RenderFlexible>,
        fuel: nat,
        k: int,
        flexible: bool,
    ) -> Seq<NodeId>
        decreases fuel, 3 + if k > 0 {
            k
        } else {
            0
        },
    {
        if k <= 0 || k > slots.len() {
            seq![]
        } else {
            self.slots_reach(slots, fuel, k - 1, flexible) + if (slots[k - 1].flex > 0)
                == flexible {
                self.reach(slots[k - 1].inner as int, fuel)
            } else {
                seq![]
            }
        }
    }

    /// After a layout of node `id` under `c` with `fuel` levels: `id` records what
    /// its policy says, and so does every node below it, each under the constraints
    /// its parent gives it: a view's child under `c`, a constrained box's child under
    /// the box's constraints brought into `c`, a flex container's child under the
    /// constraints its slot records, with the size the slot records.
    pub open spec fn laid_out_tree(self, id: int, c: BoxConstraints, fuel: nat) -> bool
        decreases fuel,
    {
        if fuel == 0 || id < 0 || id >= self.nodes@.len() {
            false
        } else {
            &&& self.laid_out(id, c)
            &&& self.respects(id, c)
            &&& match self.nodes@[id] {
                RenderNode::View(v) => match v.child {
                    Some(ch) => self.laid_out_tree(ch as int, c, (fuel - 1) as nat),
                    None => true,
                },
                RenderNode::ConstrainedBox(b) => match b.child {
                    Some(ch) => self.laid_out_tree(
                        ch as int,
                        b.additional_constraints.enforce_spec(c),
                        (fuel - 1) as nat,
                    ),
                    None => true,
                },
                RenderNode::Image(_) => true,
                RenderNode::Flex(f) => forall|j: int|
                    0 <= j < f.children@.len() ==> {
                        &&& self.nodes@[(#[trigger] f.children@[j]).inner as int].size_of()
                            == Some(f.children@[j].size)
                        &&& self.laid_out_tree(
                            f.children@[j].inner as int,
                            f.children@[j].constraints,
                            (fuel - 1) as nat,
                        )
                    },
            }
        }
    }

    /// Node `id` has a size, and `c` admits it.
    pub open spec fn respects(self, id: int, c: BoxConstraints) -> bool {
        self.nodes@[id].size_of().is_some() && c.admits(self.nodes@[id].size_of().unwrap())
    }

    /// An empty tree.
    pub fn new() -> (r: RenderTree)
        ensures
            r.nodes@.len() == 0,
            r.wf(),
    {
        RenderTree { nodes: Vec::new() }
    }

    pub fn len(&self) -> (r: usize)
        ensures
            r == self.nodes@.len(),
    {
        self.nodes.len()
    }

    /// Adds `node`, whose children must already be in the tree, and returns its id.
    pub fn add(&mut self, node: RenderNode) -> (r: NodeId)
        requires
            old(self).wf(),
            node.wf_in(old(self).nodes@.len()),
        ensures
            r == old(self).nodes@.len(),
            final(self).nodes@ == old(self).nodes@.push(node),
            final(self).wf(),
    {
        let r = self.nodes.len();
        self.nodes.push(node);
        proof {
            assert forall|i: int| 0 <= i < self.nodes@.len() implies #[trigger] self.nodes@[i].wf_in(
                self.nodes@.len(),
            ) by {
                assert(old(self).nodes@.len() < self.nodes@.len());
                if i < r {
                    assert(old(self).nodes@[i].wf_in(old(self).nodes@.len()));
                }
            }
        }
        r
    }

    pub fn node(&self, id: NodeId) -> (r: &RenderNode)
        requires
            id < self.nodes@.len(),
        ensures
            *r == self.nodes@[id as int],
    {
        &self.nodes[id]
    }

    /// Node `id`'s last computed size; `None` before its first layout.
    pub fn size(&self, id: NodeId) -> (r: Option<Size>)
        requires
            id < self.nodes@.len(),
        ensures
            r == self.nodes@[id as int].size_of(),
    {
        self.nodes[id].size()
    }

    /// Node `id`'s size, which must have been computed by a layout.
    pub fn unwrap_size(&self, id: NodeId) -> (r: Size)
        requires
            id < self.nodes@.len(),
            self.nodes@[id as int].size_of().is_some(),
        ensures
            Some(r) == self.nodes@[id as int].size_of(),
    {
        match self.nodes[id].size() {
            Some(s) => s,
            None => Size::zero(),
        }
    }

    /// Replaces node `id`, keeping the tree well formed.
    pub fn set_node(&mut self, id: NodeId, node: RenderNode)
        requires
            old(self).wf(),
            id < old(self).nodes@.len(),
            node.wf_in(old(self).nodes@.len()),
        ensures
            final(self).nodes@ == old(self).nodes@.update(id as int, node),
            final(self).wf(),
    {
        self.nodes.set(id, node);
    }

    /// Lays out node `id` under `c`, and with it every node it reaches: constraints
    /// go down to the children, sizes come back up. Each node is laid out by the
    /// handler `reg` pairs with box constraints and its kind, and at most once: a
    /// node reached a second time sits in two parent slots, which is refused.
    pub fn layout(&mut self, reg: &Registry, id: NodeId, c: &BoxConstraints) -> (r: Result<
        (),
        LayoutError,
    >)
        requires
            old(self).wf(),
            c.wf(),
            id < old(self).nodes@.len(),
        ensures
            final(self).wf(),
            final(self).same_shape(*old(self)),
            r.is_ok() <==> old(self).layout_succeeds(reg@, id as int),
            r.is_ok() ==> final(self).laid_out_tree(id as int, *c, old(self).nodes@.len()),
            r.is_ok() && c.tight_both() ==> final(self).nodes@[id as int].size_of() == Some(
                c.smallest_spec(),
            ),
            !reg@.contains_key((ConstraintKind::Box, old(self).nodes@[id as int].kind_of())) ==> r
                == Err::<(), LayoutError>(
                LayoutError::Unregistered {
                    constraint_kind: ConstraintKind::Box,
                    node_kind: old(self).nodes@[id as int].kind_of(),
                },
            ) && *final(self) == *old(self),
    {
        let fuel = self.nodes.len();
        let mut visited: Vec<bool> = vec![false; fuel];
        proof {
            assert(visited@ =~= Seq::new(fuel as nat, |x: int| false));
        }
        let r = self.layout_at(&mut visited, reg, id, c, fuel);
        proof {
            if r.is_ok() && c.tight_both() {
                let s = c.smallest_spec();
                assert(BoxConstraints::tight_spec(s) == *c);
                crate::constraints::lemma_tight_admits_only(s, self.nodes@[id as int].size_of().unwrap());
            }
        }
        r
    }

    /// Laying out node `id` succeeds: every node it reaches has a fitting handler, no
    /// flex container among them asks for baseline alignment, there is no cycle, and
    /// no node is reached twice.
    pub open spec fn layout_succeeds(self, reg: Handlers, id: int) -> bool {
        &&& self.can_layout(reg, id, self.nodes@.len())
        &&& fresh(
            self.reach(id, self.nodes@.len()),
            Seq::new(self.nodes@.len(), |x: int| false),
        )
    }

    fn layout_at(
        &mut self,
        visited: &mut Vec<bool>,
        reg: &Registry,
        id: NodeId,
        c: &BoxConstraints,
        fuel: usize,
    ) -> (r: Result<(), LayoutError>)
        requires
            old(self).wf(),
            c.wf(),
            id < old(self).nodes@.len(),
            old(visited)@.len() == old(self).nodes@.len(),
        ensures
            final(self).wf(),
            final(self).same_shape(*old(self)),
            final(visited)@.len() == old(visited)@.len(),
            forall|x: int| 0 <= x < old(visited)@.len() && old(visited)@[x] ==> #[trigger] final(visited)@[x],
            forall|x: int|
                0 <= x < old(visited)@.len() && (old(visited)@[x] || !final(visited)@[x])
                    ==> #[trigger] final(self).nodes@[x] == old(self).nodes@[x],
            r.is_ok() <==> old(self).can_layout(reg@, id as int, fuel as nat) && fresh(
                old(self).reach(id as int, fuel as nat),
                old(visited)@,
            ),
            r.is_ok() ==> marks(final(visited)@, old(visited)@, old(self).reach(id as int, fuel as nat)),
            r.is_ok() ==> final(self).laid_out_tree(id as int, *c, fuel as nat),
            fuel > 0 && !old(visited)@[id as int] && !reg@.contains_key(
                (ConstraintKind::Box, old(self).nodes@[id as int].kind_of()),
            ) ==> r == Err::<(), LayoutError>(
                LayoutError::Unregistered {
                    constraint_kind: ConstraintKind::Box,
                    node_kind: old(self).nodes@[id as int].kind_of(),
                },
            ) && *final(self) == *old(self),
        decreases fuel, 1usize,
    {
        proof {
            lemma_same_shape_refl(*self);
        }
        if fuel == 0 {
            return Err(LayoutError::TooDeep);
        }
        let ghost v0 = visited@;
        let ghost t0 = *self;
        proof {
            assert(self.nodes@.len() == self.nodes.len());
            lemma_fresh_cons(id, self.child_reach(id as int, fuel as nat), v0);
            assert(self.reach(id as int, fuel as nat) == seq![id] + self.child_reach(
                id as int,
                fuel as nat,
            ));
        }
        if visited[id] {
            return Err(LayoutError::SharedNode);
        }
        let kind = self.nodes[id].ty_id();
        let handler = match reg.lookup(ConstraintKind::Box, kind) {
            Some(h) => h,
            None => {
                return Err(
                    LayoutError::Unregistered { constraint_kind: ConstraintKind::Box, node_kind: kind },
                );
            },
        };
        if handler.target_kind() != kind {
            return Err(LayoutError::HandlerMismatch { node_kind: kind, handler });
        }
        visited.set(id, true);
        let r = match handler {
            LayoutHandler::BoxView => self.layout_view(visited, reg, id, c, fuel),
            LayoutHandler::BoxConstrained => self.layout_constrained(visited, reg, id, c, fuel),
            LayoutHandler::BoxImage => self.layout_image(visited, reg, id, c, fuel),
            LayoutHandler::BoxFlex => self.layout_flex(visited, reg, id, c, fuel),
        };
        proof {
            if r.is_ok() {
                lemma_marks_concat(
                    v0,
                    v0.update(id as int, true),
                    visited@,
                    seq![id],
                    t0.child_reach(id as int, fuel as nat),
                );
            }
        }
        r
    }

    fn layout_view(
        &mut self,
        visited: &mut Vec<bool>,
        reg: &Registry,
        id: NodeId,
        c: &BoxConstraints,
        fuel: usize,
    ) -> (r: Result<(), LayoutError>)
        requires
            old(self).wf(),
            c.wf(),
            id < old(self).nodes@.len(),
            fuel > 0,
            old(self).nodes@[id as int].kind_of() == NodeKind::View,
            RenderTree::registered(reg@, NodeKind::View),
            old(visited)@.len() == old(self).nodes@.len(),
            old(visited)@[id as int],
        ensures
            final(self).wf(),
            final(self).same_shape(*old(self)),
            final(visited)@.len() == old(visited)@.len(),
            forall|x: int| 0 <= x < old(visited)@.len() && old(visited)@[x] ==> #[trigger] final(visited)@[x],
            forall|x: int|
                0 <= x < old(visited)@.len() && x != id && (old(visited)@[x] || !final(visited)@[x])
                    ==> #[trigger] final(self).nodes@[x] == old(self).nodes@[x],
            r.is_ok() <==> old(self).can_layout(reg@, id as int, fuel as nat) && fresh(
                old(self).child_reach(id as int, fuel as nat),
                old(visited)@,
            ),
            r.is_ok() ==> marks(final(visited)@, old(visited)@, old(self).child_reach(id as int, fuel as nat)),
            r.is_ok() ==> final(self).laid_out_tree(id as int, *c, fuel as nat),
        decreases fuel, 0usize,
    {
        proof {
            lemma_same_shape_refl(*self);
        }
        let ghost t0 = *self;
        let ghost v1 = visited@;
        let child = match &self.nodes[id] {
            RenderNode::View(v) => v.child,
            _ => None,
        };
        assert(self.nodes@[id as int].wf_in(self.nodes@.len()));
        let size = match child {
            Some(ch) => {
                assert(self.nodes@[id as int].child_ids()[0] == ch);
                let res = self.layout_at(visited, reg, ch, c, fuel - 1);
                if res.is_err() {
                    return res;
                }
                match self.nodes[ch].size() {
                    Some(s) => s,
                    None => c.smallest(),
                }
            },
            None => {
                proof {
                    assert(marks(visited@, v1, seq![])) by {
                        assert forall|x: int| 0 <= x < visited@.len() implies #[trigger] visited@[x]
                            == (v1[x] || seq![].contains(x as NodeId)) by {}
                    }
                }
                c.smallest()
            },
        };
        let ghost t1 = *self;
        assert(t1.nodes@[id as int].same_shape(t0.nodes@[id as int]));
        self.nodes.set(id, RenderNode::View(RenderView { size: Some(size), child }));
        proof {
            lemma_set_same_shape(t1, *self, id as int);
            lemma_same_shape_trans(*self, t1, t0);
            if child is Some {
                let ch = child->Some_0 as int;
                lemma_same_shape_sym(*self, t1);
                lemma_reach_shape(t1, t0, ch, (fuel - 1) as nat);
                assert forall|x: NodeId| #[trigger] t1.reach(ch, (fuel - 1) as nat).contains(x)
                    implies self.nodes@[x as int] == t1.nodes@[x as int] by {
                    let rc = t1.reach(ch, (fuel - 1) as nat);
                    let k = choose|k: int| 0 <= k < rc.len() && #[trigger] rc[k] == x;
                    assert(!v1[rc[k] as int]);
                    assert(x != id);
                }
                lemma_laid_out_tree_frame(t1, *self, ch, *c, (fuel - 1) as nat);
            }
        }
        Ok(())
    }

    fn layout_constrained(
        &mut self,
        visited: &mut Vec<bool>,
        reg: &Registry,
        id: NodeId,
        c: &BoxConstraints,
        fuel: usize,
    ) -> (r: Result<(), LayoutError>)
        requires
            old(self).wf(),
            c.wf(),
            id < old(self).nodes@.len(),
            fuel > 0,
            old(self).nodes@[id as int].kind_of() == NodeKind::ConstrainedBox,
            RenderTree::registered(reg@, NodeKind::ConstrainedBox),
            old(visited)@.len() == old(self).nodes@.len(),
            old(visited)@[id as int],
        ensures
            final(self).wf(),
            final(self).same_shape(*old(self)),
            final(visited)@.len() == old(visited)@.len(),
            forall|x: int| 0 <= x < old(visited)@.len() && old(visited)@[x] ==> #[trigger] final(visited)@[x],
            forall|x: int|
                0 <= x < old(visited)@.len() && x != id && (old(visited)@[x] || !final(visited)@[x])
                    ==> #[trigger] final(self).nodes@[x] == old(self).nodes@[x],
            r.is_ok() <==> old(self).can_layout(reg@, id as int, fuel as nat) && fresh(
                old(self).child_reach(id as int, fuel as nat),
                old(visited)@,
            ),
            r.is_ok() ==> marks(final(visited)@, old(visited)@, old(self).child_reach(id as int, fuel as nat)),
            r.is_ok() ==> final(self).laid_out_tree(id as int, *c, fuel as nat),
        decreases fuel, 0usize,
    {
        proof {
            lemma_same_shape_refl(*self);
        }
        let ghost t0 = *self;
        let ghost v1 = visited@;
        let mut b = match &self.nodes[id] {
            RenderNode::ConstrainedBox(b) => *b,
            _ => RenderConstrainedBox::new(BoxConstraints::default()),
        };
        assert(self.nodes@[id as int].wf_in(self.nodes@.len()));
        let merged = b.child_constraints(c);
        match b.child {
            Some(ch) => {
                assert(self.nodes@[id as int].child_ids()[0] == ch);
                let res = self.layout_at(visited, reg, ch, &merged, fuel - 1);
                if res.is_err() {
                    return res;
                }
                let size = match self.nodes[ch].size() {
                    Some(s) => s,
                    None => c.smallest(),
                };
                b.perform_layout(c, Some(size));
            },
            None => {
                proof {
                    assert(marks(visited@, v1, seq![])) by {
                        assert forall|x: int| 0 <= x < visited@.len() implies #[trigger] visited@[x]
                            == (v1[x] || seq![].contains(x as NodeId)) by {}
                    }
                }
                b.perform_layout(c, None);
            },
        }
        let ghost t1 = *self;
        assert(t1.nodes@[id as int].same_shape(t0.nodes@[id as int]));
        self.nodes.set(id, RenderNode::ConstrainedBox(b));
        proof {
            lemma_set_same_shape(t1, *self, id as int);
            lemma_same_shape_trans(*self, t1, t0);
            if b.child is Some {
                let ch = b.child->Some_0 as int;
                lemma_same_shape_sym(*self, t1);
                lemma_reach_shape(t1, t0, ch, (fuel - 1) as nat);
                assert forall|x: NodeId| #[trigger] t1.reach(ch, (fuel - 1) as nat).contains(x)
                    implies self.nodes@[x as int] == t1.nodes@[x as int] by {
                    let rc = t1.reach(ch, (fuel - 1) as nat);
                    let k = choose|k: int| 0 <= k < rc.len() && #[trigger] rc[k] == x;
                    assert(!v1[rc[k] as int]);
                    assert(x != id);
                }
                lemma_laid_out_tree_frame(t1, *self, ch, merged, (fuel - 1) as nat);
            }
        }
        Ok(())
    }

    fn layout_image(
        &mut self,
        visited: &mut Vec<bool>,
        reg: &Registry,
        id: NodeId,
        c: &BoxConstraints,
        fuel: usize,
    ) -> (r: Result<(), LayoutError>)
        requires
            old(self).wf(),
            c.wf(),
            id < old(self).nodes@.len(),
            fuel > 0,
            old(self).nodes@[id as int].kind_of() == NodeKind::Image,
            RenderTree::registered(reg@, NodeKind::Image),
            old(visited)@.len() == old(self).nodes@.len(),
            old(visited)@[id as int],
        ensures
            final(self).wf(),
            final(self).same_shape(*old(self)),
            final(visited)@.len() == old(visited)@.len(),
            forall|x: int| 0 <= x < old(visited)@.len() && old(visited)@[x] ==> #[trigger] final(visited)@[x],
            forall|x: int|
                0 <= x < old(visited)@.len() && x != id && (old(visited)@[x] || !final(visited)@[x])
                    ==> #[trigger] final(self).nodes@[x] == old(self).nodes@[x],
            r.is_ok() <==> old(self).can_layout(reg@, id as int, fuel as nat) && fresh(
                old(self).child_reach(id as int, fuel as nat),
                old(visited)@,
            ),
            r.is_ok() ==> marks(final(visited)@, old(visited)@, old(self).child_reach(id as int, fuel as nat)),
            r.is_ok() ==> final(self).laid_out_tree(id as int, *c, fuel as nat),
        decreases fuel, 0usize,
    {
        let ghost t0 = *self;
        let mut im = match &self.nodes[id] {
            RenderNode::Image(im) => *im,
            _ => RenderImage::new(None, None),
        };
        im.perform_layout(c);
        self.nodes.set(id, RenderNode::Image(im));
        proof {
            lemma_set_same_shape(t0, *self, id as int);
            assert(marks(visited@, visited@, seq![])) by {
                assert forall|x: int| 0 <= x < visited@.len() implies #[trigger] visited@[x]
                    == (visited@[x] || seq![].contains(x as NodeId)) by {}
            }
        }
        Ok(())
    }

    #[verifier::rlimit(60)]
    fn layout_flex(
        &mut self,
        visited: &mut Vec<bool>,
        reg: &Registry,
        id: NodeId,
        c: &BoxConstraints,
        fuel: usize,
    ) -> (r: Result<(), LayoutError>)
        requires
            old(self).wf(),
            c.wf(),
            id < old(self).nodes@.len(),
            fuel > 0,
            old(self).nodes@[id as int].kind_of() == NodeKind::Flex,
            RenderTree::registered(reg@, NodeKind::Flex),
            old(visited)@.len() == old(self).nodes@.len(),
            old(visited)@[id as int],
        ensures
            final(self).wf(),
            final(self).same_shape(*old(self)),
            final(visited)@.len() == old(visited)@.len(),
            forall|x: int| 0 <= x < old(visited)@.len() && old(visited)@[x] ==> #[trigger] final(visited)@[x],
            forall|x: int|
                0 <= x < old(visited)@.len() && x != id && (old(visited)@[x] || !final(visited)@[x])
                    ==> #[trigger] final(self).nodes@[x] == old(self).nodes@[x],
            r.is_ok() <==> old(self).can_layout(reg@, id as int, fuel as nat) && fresh(
                old(self).child_reach(id as int, fuel as nat),
                old(visited)@,
            ),
            r.is_ok() ==> marks(final(visited)@, old(visited)@, old(self).child_reach(id as int, fuel as nat)),
            r.is_ok() ==> final(self).laid_out_tree(id as int, *c, fuel as nat),
        decreases fuel, 0usize,
    {
        proof {
            lemma_same_shape_refl(*self);
        }
        let ghost t0 = *self;
        let ghost v1 = visited@;
        let ghost f0 = self.nodes@[id as int]->Flex_0;
        let shell = match &self.nodes[id] {
            RenderNode::Flex(f) => RenderFlex {
                size: None,
                children: Vec::new(),
                direction: f.direction,
                main_axis_size: f.main_axis_size,
                main_axis_alignment: f.main_axis_alignment,
                cross_axis_alignment: f.cross_axis_alignment,
                vertical_direction: f.vertical_direction,
                text_direction: f.text_direction,
                text_baseline: f.text_baseline,
                clip_behavior: f.clip_behavior,
                overflow: 0,
            },
            _ => RenderFlex::default(),
        };
        assert(shell.same_settings(f0));
        let mut slots: Vec<RenderFlexible> = Vec::new();
        match &self.nodes[id] {
            RenderNode::Flex(f) => {
                let mut k: usize = 0;
                while k < f.children.len()
                    invariant
                        k <= f.children@.len(),
                        slots@ == f.children@.subrange(0, k as int),
                    decreases f.children@.len() - k,
                {
                    slots.push(f.children[k]);
                    k = k + 1;
                }
                assert(slots@ =~= f.children@);
            },
            _ => {},
        }
        let ghost s0 = slots@;
        assert(t0.nodes@[id as int] == RenderNode::Flex(f0));
        assert(s0 == f0.children@);
        let ghost fl = (fuel - 1) as nat;
        let ghost a1 = t0.slots_reach(s0, fl, s0.len() as int, false);
        let ghost a2 = t0.slots_reach(s0, fl, s0.len() as int, true);
        assert(t0.child_reach(id as int, fuel as nat) == a1 + a2);
        proof {
            assert(marks(visited@, v1, t0.slots_reach(s0, fl, 0, false))) by {
                assert forall|x: int| 0 <= x < visited@.len() implies #[trigger] visited@[x]
                    == (v1[x] || t0.slots_reach(s0, fl, 0, false).contains(x as NodeId)) by {}
            }
        }
        if shell.cross_axis_alignment == CrossAxisAlignment::Baseline {
            return Err(LayoutError::UnsupportedAlignment);
        }
        assert(self.nodes@[id as int].wf_in(self.nodes@.len()));
        assert forall|j: int| 0 <= j < s0.len() implies (#[trigger] s0[j]).inner
            < self.nodes@.len() by {
            assert(self.nodes@[id as int].child_ids()[j] == s0[j].inner);
        }
        let dir = shell.direction;
        let cross = shell.cross_axis_alignment;
        let n = slots.len();
        let bound: u32 = match dir {
            Axis::Horizontal => c.max_width,
            Axis::Vertical => c.max_height,
        };
        let can_flex = bound < UNBOUNDED;
        let mut total: u32 = 0;
        let mut last: usize = 0;
        let mut allocated_size: u32 = 0;
        let mut cross_size: u32 = 0;
        // Children of weight zero first, unbounded along the main axis.
        let mut i: usize = 0;
        while i < n
            invariant
                0 <= i <= n,
                n == s0.len(),
                slots@.len() == n,
                c.wf(),
                dir == f0.direction,
                cross == f0.cross_axis_alignment,
                cross != CrossAxisAlignment::Baseline,
                self.wf(),
                self.same_shape(t0),
                fuel > 0,
                t0 == *old(self),
                id < t0.nodes@.len(),
                t0.nodes@[id as int] == RenderNode::Flex(f0),
                s0 == f0.children@,
                forall|j: int|
                    0 <= j < n ==> (#[trigger] slots@[j]).inner == s0[j].inner && slots@[j].flex
                        == s0[j].flex && slots@[j].fit == s0[j].fit,
                forall|j: int| 0 <= j < n ==> (#[trigger] s0[j]).inner < t0.nodes@.len(),
                forall|j: int| i <= j < n ==> #[trigger] slots@[j] == s0[j],
                forall|j: int|
                    0 <= j < i && (#[trigger] slots@[j]).flex == 0 ==> slots@[j].constraints
                        == inflexible_constraints_spec(dir, cross, *c)
                        && slots@[j].constraints.admits(slots@[j].size) && t0.can_layout(
                        reg@,
                        slots@[j].inner as int,
                        (fuel - 1) as nat,
                    ),
                visited@.len() == t0.nodes@.len(),
                v1 == old(visited)@,
                v1.len() == t0.nodes@.len(),
                v1[id as int],
                fl == (fuel - 1) as nat,
                a1 == t0.slots_reach(s0, fl, s0.len() as int, false),
                a2 == t0.slots_reach(s0, fl, s0.len() as int, true),
                t0.child_reach(id as int, fuel as nat) == a1 + a2,
                forall|x: int| 0 <= x < v1.len() && v1[x] ==> #[trigger] visited@[x],
                forall|x: int|
                    0 <= x < v1.len() && x != id && (v1[x] || !visited@[x]) ==> #[trigger] self.nodes@[x]
                        == t0.nodes@[x],
                fresh(t0.slots_reach(s0, fl, i as int, false), v1),
                marks(visited@, v1, t0.slots_reach(s0, fl, i as int, false)),
                forall|j: int|
                    0 <= j < i && (#[trigger] slots@[j]).flex == 0 ==> child_done(
                        *self,
                        visited@,
                        t0,
                        slots@[j],
                        id as int,
                        fl,
                    ),
                total == cap(flex_sum(slots@, i as int)),
                last == last_flex(slots@, i as int),
                allocated_size == cap(main_sum(slots@, dir, i as int, false)),
                cross_size == cross_max(slots@, dir, i as int, false),
            decreases n - i,
        {
            let slot = slots[i];
            let ghost before = slots@;
            if slot.flex > 0 {
                total = if total > UNBOUNDED - slot.flex {
                    UNBOUNDED
                } else {
                    total + slot.flex
                };
                last = i;
                proof {
                    lemma_prefix_agree(slots@, slots@, dir, i as int);
                    assert(t0.slots_reach(s0, fl, i + 1, false) =~= t0.slots_reach(s0, fl, i as int, false));
                }
            } else {
                let cc = inflexible_constraints(dir, cross, c);
                let ghost tb = *self;
                let ghost vb = visited@;
                let res = self.layout_at(visited, reg, slot.inner, &cc, fuel - 1);
                let ghost acc = t0.slots_reach(s0, fl, i as int, false);
                let ghost rr = t0.reach(slot.inner as int, fl);
                proof {
                    lemma_same_shape_trans(*self, tb, t0);
                    lemma_can_layout_shape(tb, t0, reg@, slot.inner as int, fl);
                    lemma_reach_shape(tb, t0, slot.inner as int, fl);
                    assert(s0[i as int] == slot);
                    assert(t0.slots_reach(s0, fl, i + 1, false) == acc + rr);
                    lemma_fresh_concat(acc, rr, v1, vb);
                }
                if res.is_err() {
                    proof {
                        assert(t0.nodes@[id as int] == RenderNode::Flex(f0));
                        assert(f0.children@[i as int] == s0[i as int]);
                        if t0.can_layout(reg@, id as int, fuel as nat) && fresh(a1 + a2, v1) {
                            lemma_fresh_prefix(a1, a2, v1);
                            lemma_slots_reach_prefix(t0, s0, fl, i + 1, n as int, false, v1);
                        }
                    }
                    return res;
                }
                let size = match self.nodes[slot.inner].size() {
                    Some(s) => s,
                    None => Size::zero(),
                };
                let m = size.main_size(dir);
                allocated_size = if allocated_size > UNBOUNDED - m {
                    UNBOUNDED
                } else {
                    allocated_size + m
                };
                let cs = size.cross_size(dir);
                if cs > cross_size {
                    cross_size = cs;
                }
                slots.set(i, RenderFlexible { constraints: cc, size, ..slot });
                proof {
                    assert(agree_before(before, slots@, i as int));
                    lemma_prefix_agree(before, slots@, dir, i as int);
                    lemma_marks_concat(v1, vb, visited@, acc, rr);
                    assert forall|j: int|
                        0 <= j < i + 1 && (#[trigger] slots@[j]).flex == 0 implies child_done(
                        *self,
                        visited@,
                        t0,
                        slots@[j],
                        id as int,
                        fl,
                    ) by {
                        if j < i {
                            assert(slots@[j] == before[j]);
                            lemma_child_done_preserved(tb, *self, vb, visited@, t0, before[j], id as int, fl);
                        } else {
                            assert(slots@[j].inner == slot.inner);
                            assert forall|x: NodeId| #[trigger] rr.contains(x) implies x < visited@.len()
                                && visited@[x as int] && x != id by {
                                let k = choose|k: int| 0 <= k < rr.len() && rr[k] == x;
                                assert(!vb[x as int]);
                            }
                        }
                    }
                }
            }
            i = i + 1;
        }
        // Then the flexible children, sharing what is left of the main axis.
        let free: u32 = if can_flex {
            if bound > allocated_size {
                bound - allocated_size
            } else {
                0
            }
        } else {
            0
        };
        let share: u32 = if total > 0 {
            free / total
        } else {
            0
        };
        let ghost s1 = slots@;
        proof {
            assert(free == free_space(f0, *c, s1));
            assert(total == total_flex(s1));
            assert(share == space_per_flex(f0, *c, s1));
            lemma_flex_sum_nonneg(s1, n as int);
        }
        let mut flex_space: u32 = 0;
        proof {
            assert(a1 + t0.slots_reach(s0, fl, 0, true) =~= a1);
        }
        i = 0;
        while i < n
            invariant
                0 <= i <= n,
                n == s0.len(),
                slots@.len() == n,
                c.wf(),
                dir == f0.direction,
                cross == f0.cross_axis_alignment,
                self.wf(),
                self.same_shape(t0),
                fuel > 0,
                t0 == *old(self),
                id < t0.nodes@.len(),
                t0.nodes@[id as int] == RenderNode::Flex(f0),
                s0 == f0.children@,
                can_flex == (bound < UNBOUNDED),
                bound == crate::flex::main_bound(dir, *c),
                forall|j: int|
                    0 <= j < n ==> (#[trigger] slots@[j]).inner == s0[j].inner && slots@[j].flex
                        == s0[j].flex && slots@[j].fit == s0[j].fit,
                forall|j: int| 0 <= j < n ==> (#[trigger] s0[j]).inner < t0.nodes@.len(),
                s1.len() == n,
                agree_inflexible(slots@, s1, n as int),
                forall|j: int| i <= j < n ==> #[trigger] slots@[j] == s1[j],
                forall|j: int|
                    0 <= j < n && (#[trigger] slots@[j]).flex == 0 ==> slots@[j].constraints
                        == inflexible_constraints_spec(dir, cross, *c)
                        && slots@[j].constraints.admits(slots@[j].size) && t0.can_layout(
                        reg@,
                        slots@[j].inner as int,
                        (fuel - 1) as nat,
                    ),
                forall|j: int|
                    0 <= j < i && (#[trigger] slots@[j]).flex > 0 ==> slots@[j].constraints
                        == child_constraints(f0, *c, slots@, j)
                        && slots@[j].constraints.admits(slots@[j].size) && t0.can_layout(
                        reg@,
                        slots@[j].inner as int,
                        (fuel - 1) as nat,
                    ),
                visited@.len() == t0.nodes@.len(),
                v1 == old(visited)@,
                v1.len() == t0.nodes@.len(),
                v1[id as int],
                fl == (fuel - 1) as nat,
                a1 == t0.slots_reach(s0, fl, s0.len() as int, false),
                a2 == t0.slots_reach(s0, fl, s0.len() as int, true),
                t0.child_reach(id as int, fuel as nat) == a1 + a2,
                forall|x: int| 0 <= x < v1.len() && v1[x] ==> #[trigger] visited@[x],
                forall|x: int|
                    0 <= x < v1.len() && x != id && (v1[x] || !visited@[x]) ==> #[trigger] self.nodes@[x]
                        == t0.nodes@[x],
                fresh(a1 + t0.slots_reach(s0, fl, i as int, true), v1),
                marks(visited@, v1, a1 + t0.slots_reach(s0, fl, i as int, true)),
                forall|j: int|
                    (0 <= j < n && (#[trigger] slots@[j]).flex == 0) || (0 <= j < i && slots@[j].flex > 0)
                        ==> child_done(*self, visited@, t0, slots@[j], id as int, fl),
                free == free_space(f0, *c, s1),
                total == total_flex(s1),
                share == space_per_flex(f0, *c, s1),
                flex_sum(s1, n as int) >= 0,
                last == last_flex(s1, n as int),
                flex_space == cap(main_sum(slots@, dir, i as int, true)),
                allocated_size == cap(
                    main_sum(slots@, dir, n as int, false) + main_sum(slots@, dir, i as int, true),
                ),
                cross_size == if cross_max(slots@, dir, n as int, false) >= cross_max(
                    slots@,
                    dir,
                    i as int,
                    true,
                ) {
                    cross_max(slots@, dir, n as int, false)
                } else {
                    cross_max(slots@, dir, i as int, true)
                },
            decreases n - i,
        {
            let slot = slots[i];
            let ghost before = slots@;
            proof {
                lemma_inflexible_agree(slots@, s1, dir, n as int);
            }
            if slot.flex > 0 {
                proof {
                    lemma_flex_le_sum(s1, n as int, i as int);
                    assert(s1[i as int].flex == slot.flex);
                    assert((share as int) * (slot.flex as int) <= free as int) by {
                        assert(slot.flex as int <= total as int);
                        if total > 0 {
                            assert((free as int / total as int) * (slot.flex as int) <= (
                            free as int / total as int) * (total as int)) by (nonlinear_arith)
                                requires
                                    slot.flex as int <= total as int,
                                    free as int / total as int >= 0,
                            ;
                            assert((free as int / total as int) * (total as int) <= free as int)
                                by (nonlinear_arith)
                                requires
                                    total as int > 0,
                                    free as int >= 0,
                            ;
                        }
                    }
                }
                let max_extent: u32 = if can_flex {
                    if i == last {
                        if free > flex_space {
                            free - flex_space
                        } else {
                            0
                        }
                    } else {
                        share * slot.flex
                    }
                } else {
                    UNBOUNDED
                };
                let min_extent: u32 = match slot.fit {
                    FlexFit::Tight => max_extent,
                    FlexFit::Loose => 0,
                };
                let cc = flexible_constraints(dir, cross, c, min_extent, max_extent);
                proof {
                    assert(agree_inflexible(slots@, s1, n as int));
                    assert(agree_before(slots@, slots@, i as int));
                    lemma_inflexible_agree(slots@, s1, dir, n as int);
                    assert(cc == child_constraints(f0, *c, slots@, i as int));
                }
                let ghost tb = *self;
                let ghost vb = visited@;
                let res = self.layout_at(visited, reg, slot.inner, &cc, fuel - 1);
                let ghost p = t0.slots_reach(s0, fl, i as int, true);
                let ghost acc = a1 + p;
                let ghost rr = t0.reach(slot.inner as int, fl);
                proof {
                    lemma_same_shape_trans(*self, tb, t0);
                    lemma_can_layout_shape(tb, t0, reg@, slot.inner as int, fl);
                    lemma_reach_shape(tb, t0, slot.inner as int, fl);
                    assert(s0[i as int].flex == slot.flex && s0[i as int].inner == slot.inner);
                    assert(t0.slots_reach(s0, fl, i + 1, true) == p + rr);
                    assert(a1 + (p + rr) =~= acc + rr);
                    lemma_fresh_concat(acc, rr, v1, vb);
                }
                if res.is_err() {
                    proof {
                        assert(t0.nodes@[id as int] == RenderNode::Flex(f0));
                        assert(f0.children@[i as int] == s0[i as int]);
                        if t0.can_layout(reg@, id as int, fuel as nat) && fresh(a1 + a2, v1) {
                            let w = with_marks(v1, a1);
                            assert(marks(w, v1, a1));
                            lemma_fresh_concat(a1, a2, v1, w);
                            lemma_slots_reach_prefix(t0, s0, fl, i + 1, n as int, true, w);
                            lemma_fresh_concat(a1, p + rr, v1, w);
                        }
                    }
                    return res;
                }
                let size = match self.nodes[slot.inner].size() {
                    Some(s) => s,
                    None => Size::zero(),
                };
                let m = size.main_size(dir);
                allocated_size = if allocated_size > UNBOUNDED - m {
                    UNBOUNDED
                } else {
                    allocated_size + m
                };
                flex_space = if flex_space > UNBOUNDED - m {
                    UNBOUNDED
                } else {
                    flex_space + m
                };
                let cs = size.cross_size(dir);
                if cs > cross_size {
                    cross_size = cs;
                }
                slots.set(i, RenderFlexible { constraints: cc, size, ..slot });
                proof {
                    assert(agree_before(before, slots@, i as int));
                    lemma_prefix_agree(before, slots@, dir, i as int);
                    assert(agree_inflexible(before, slots@, n as int));
                    lemma_inflexible_agree(before, slots@, dir, n as int);
                    assert forall|j: int|
                        0 <= j < i + 1 && (#[trigger] slots@[j]).flex > 0 implies slots@[j].constraints
                        == child_constraints(f0, *c, slots@, j) by {
                        assert(agree_before(before, slots@, j));
                        lemma_child_constraints_agree(f0, f0, *c, before, slots@, j);
                    }
                    lemma_marks_concat(v1, vb, visited@, acc, rr);
                    assert(a1 + t0.slots_reach(s0, fl, i + 1, true) == acc + rr);
                    assert forall|j: int|
                        (0 <= j < n && (#[trigger] slots@[j]).flex == 0) || (0 <= j < i + 1
                            && slots@[j].flex > 0) implies child_done(
                        *self,
                        visited@,
                        t0,
                        slots@[j],
                        id as int,
                        fl,
                    ) by {
                        if j != i {
                            assert(slots@[j] == before[j]);
                            lemma_child_done_preserved(tb, *self, vb, visited@, t0, before[j], id as int, fl);
                        } else {
                            assert(slots@[j].inner == slot.inner);
                            assert forall|x: NodeId| #[trigger] rr.contains(x) implies x < visited@.len()
                                && visited@[x as int] && x != id by {
                                let k = choose|k: int| 0 <= k < rr.len() && rr[k] == x;
                                assert(!vb[x as int]);
                            }
                        }
                    }
                }
            } else {
                proof {
                    lemma_prefix_agree(slots@, slots@, dir, i as int);
                    assert(t0.slots_reach(s0, fl, i + 1, true) =~= t0.slots_reach(s0, fl, i as int, true));
                }
            }
            i = i + 1;
        }
        let ghost s2 = slots@;
        proof {
            assert forall|j: int| 0 <= j < n implies (#[trigger] s2[j]).constraints
                == child_constraints(f0, *c, s2, j) && s2[j].constraints.admits(s2[j].size)
                && t0.can_layout(reg@, s2[j].inner as int, (fuel - 1) as nat) by {
                if s2[j].flex == 0 {
                } else {
                }
            }
            assert(cross_size == cross_extent(dir, s2));
            assert(allocated_size == allocated(dir, s2));
        }
        let (size, overflow) = arrange(&shell, c, &mut slots, allocated_size, cross_size);
        let ghost s3 = slots@;
        let new_node = RenderFlex { size: Some(size), children: slots, overflow, ..shell };
        proof {
            assert(new_node.same_settings(f0));
            assert forall|j: int| 0 <= j < n implies (#[trigger] s3[j]).flex == s2[j].flex
                && s3[j].fit == s2[j].fit && s3[j].size == s2[j].size by {
                assert(s3[j] == (RenderFlexible { offset: s3[j].offset, ..s2[j] }));
            }
            lemma_measures_agree(shell, new_node, *c, s2, s3);
            lemma_measures_agree(f0, new_node, *c, s2, s3);
            assert forall|j: int| 0 <= j < s3.len() implies {
                &&& (#[trigger] s3[j]).constraints == child_constraints(new_node, *c, s3, j)
                &&& s3[j].constraints.admits(s3[j].size)
                &&& s3[j].offset == crate::flex_layout::child_offset(
                    new_node,
                    crate::flex_layout::flex_size(new_node, *c, s3),
                    s3,
                    j,
                )
            } by {
                assert(s3[j] == (RenderFlexible {
                    offset: crate::flex_layout::child_offset(shell, size, s2, j),
                    ..s2[j]
                }));
            }
            assert(flex_laid_out(new_node, *c));
            assert forall|j: int| 0 <= j < f0.children@.len() implies t0.can_layout(
                reg@,
                (#[trigger] f0.children@[j]).inner as int,
                (fuel - 1) as nat,
            ) by {
                assert(f0.children@[j] == s0[j]);
                assert(s2[j].inner == s0[j].inner);
            }
        }
        let ghost t1 = *self;
        self.nodes.set(id, RenderNode::Flex(new_node));
        proof {
            assert(t0.nodes@[id as int] == RenderNode::Flex(f0));
            assert(t1.nodes@[id as int].same_shape(t0.nodes@[id as int]));
            lemma_set_same_shape(t1, *self, id as int);
            lemma_same_shape_trans(*self, t1, t0);
            assert forall|j: int| 0 <= j < n implies {
                &&& self.nodes@[(#[trigger] s3[j]).inner as int].size_of() == Some(s3[j].size)
                &&& self.laid_out_tree(s3[j].inner as int, s3[j].constraints, fl)
            } by {
                assert(s2[j] == slots@[j] || true);
                assert(child_done(t1, visited@, t0, s2[j], id as int, fl));
                lemma_child_done_preserved(t1, *self, visited@, visited@, t0, s2[j], id as int, fl);
                assert(s3[j] == (RenderFlexible { offset: s3[j].offset, ..s2[j] }));
            }
            assert(self.nodes@[id as int] == RenderNode::Flex(new_node));
            assert(self.laid_out_tree(id as int, *c, fuel as nat));
        }
        Ok(())
    }
}

/// A layout under tight constraints, which every successful layout respects,
/// gives exactly the size the constraints were made from.
pub proof fn lemma_tight_layout_yields_size(tree: RenderTree, id: int, size: Size)
    requires
        0 <= id < tree.nodes@.len(),
        tree.respects(id, BoxConstraints::tight_spec(size)),
    ensures
        tree.nodes@[id].size_of() == Some(size),
{
    crate::constraints::lemma_tight_admits_only(size, tree.nodes@[id].size_of().unwrap());
}

pub proof fn lemma_same_shape_refl(t: RenderTree)
    ensures
        t.same_shape(t),
{
}

pub proof fn lemma_same_shape_trans(a: RenderTree, b: RenderTree, c: RenderTree)
    requires
        a.same_shape(b),
        b.same_shape(c),
    ensures
        a.same_shape(c),
{
    assert forall|i: int| 0 <= i < a.nodes@.len() implies #[trigger] a.nodes@[i].same_shape(
        c.nodes@[i],
    ) by {
        assert(a.nodes@[i].same_shape(b.nodes@[i]));
        assert(b.nodes@[i].same_shape(c.nodes@[i]));
        match (a.nodes@[i], b.nodes@[i], c.nodes@[i]) {
            (RenderNode::Flex(x), RenderNode::Flex(y), RenderNode::Flex(z)) => {
                assert forall|j: int| 0 <= j < x.children@.len() implies (
                #[trigger] x.children@[j]).inner == z.children@[j].inner && x.children@[j].flex
                    == z.children@[j].flex && x.children@[j].fit == z.children@[j].fit by {
                    assert(y.children@[j].inner == z.children@[j].inner);
                }
            },
            _ => {},
        }
    }
}

/// Replacing node `id` by one of the same shape keeps the tree's shape, and keeps
/// it well formed.
pub proof fn lemma_set_same_shape(before: RenderTree, after: RenderTree, id: int)
    requires
        before.wf(),
        0 <= id < before.nodes@.len(),
        after.nodes@.len() == before.nodes@.len(),
        forall|i: int| 0 <= i < before.nodes@.len() && i != id ==> after.nodes@[i] == before.nodes@[i],
        after.nodes@[id].same_shape(before.nodes@[id]),
    ensures
        after.same_shape(before),
        after.wf(),
{
    lemma_same_shape_refl(before);
    assert forall|i: int| 0 <= i < after.nodes@.len() implies #[trigger] after.nodes@[i].wf_in(
        after.nodes@.len(),
    ) by {
        assert(before.nodes@[i].wf_in(before.nodes@.len()));
        if i == id {
            lemma_node_same_shape_wf(after.nodes@[i], before.nodes@[i], before.nodes@.len());
        }
    }
}

pub proof fn lemma_node_same_shape_wf(a: RenderNode, b: RenderNode, len: nat)
    requires
        a.same_shape(b),
        b.wf_in(len),
    ensures
        a.wf_in(len),
{
    match (a, b) {
        (RenderNode::Flex(x), RenderNode::Flex(y)) => {
            assert forall|i: int| 0 <= i < a.child_ids().len() implies #[trigger] a.child_ids()[i]
                < len by {
                assert(a.child_ids()[i] == x.children@[i].inner);
                assert(b.child_ids()[i] == y.children@[i].inner);
            }
        },
        (RenderNode::View(x), RenderNode::View(y)) => {
            assert(a.child_ids() == b.child_ids());
        },
        (RenderNode::ConstrainedBox(x), RenderNode::ConstrainedBox(y)) => {
            assert(a.child_ids() == b.child_ids());
        },
        _ => {},
    }
}

/// No node occurs twice in `s`, and none is marked in `vis`.
pub open spec fn fresh(s: Seq<NodeId>, vis: Seq<bool>) -> bool {
    &&& forall|i: int| 0 <= i < s.len() ==> #[trigger] s[i] < vis.len() && !vis[s[i] as int]
    &&& forall|i: int, j: int| 0 <= i < j < s.len() ==> #[trigger] s[i] != #[trigger] s[j]
}

/// `after` marks what `before` marks and the nodes of `s`, and nothing else.
pub open spec fn marks(after: Seq<bool>, before: Seq<bool>, s: Seq<NodeId>) -> bool {
    &&& after.len() == before.len()
    &&& forall|x: int| 0 <= x < after.len() ==> #[trigger] after[x] == (before[x] || s.contains(x as NodeId))
}

pub proof fn lemma_fresh_concat(a: Seq<NodeId>, b: Seq<NodeId>, v: Seq<bool>, w: Seq<bool>)
    requires
        marks(w, v, a),
    ensures
        fresh(a + b, v) <==> fresh(a, v) && fresh(b, w),
{
    let s = a + b;
    if fresh(s, v) {
        assert forall|i: int| 0 <= i < a.len() implies #[trigger] a[i] < v.len() && !v[a[i] as int] by {
            assert(s[i] == a[i]);
        }
        assert forall|i: int, j: int| 0 <= i < j < a.len() implies #[trigger] a[i] != #[trigger] a[j] by {
            assert(s[i] == a[i]);
            assert(s[j] == a[j]);
        }
        assert forall|i: int| 0 <= i < b.len() implies #[trigger] b[i] < w.len() && !w[b[i] as int] by {
            assert(s[a.len() + i] == b[i]);
            if a.contains(b[i]) {
                let k = choose|k: int| 0 <= k < a.len() && a[k] == b[i];
                assert(s[k] == a[k]);
            }
        }
        assert forall|i: int, j: int| 0 <= i < j < b.len() implies #[trigger] b[i] != #[trigger] b[j] by {
            assert(s[a.len() + i] == b[i]);
            assert(s[a.len() + j] == b[j]);
        }
    }
    if fresh(a, v) && fresh(b, w) {
        assert forall|i: int| 0 <= i < s.len() implies #[trigger] s[i] < v.len() && !v[s[i] as int] by {
            if i >= a.len() {
                assert(s[i] == b[i - a.len()]);
            }
        }
        assert forall|i: int, j: int| 0 <= i < j < s.len() implies #[trigger] s[i] != #[trigger] s[j] by {
            if j < a.len() {
            } else if i >= a.len() {
                assert(s[i] == b[i - a.len()]);
                assert(s[j] == b[j - a.len()]);
            } else {
                assert(s[j] == b[j - a.len()]);
                assert(a.contains(a[i]));
                assert(w[a[i] as int]);
            }
        }
    }
}

pub proof fn lemma_fresh_cons(id: NodeId, cr: Seq<NodeId>, v0: Seq<bool>)
    requires
        id < v0.len(),
        v0.len() <= usize::MAX,
    ensures
        fresh(seq![id] + cr, v0) <==> !v0[id as int] && fresh(cr, v0.update(id as int, true)),
        marks(v0.update(id as int, true), v0, seq![id]),
{
    let v1 = v0.update(id as int, true);
    let a = seq![id];
    assert forall|x: int| 0 <= x < v1.len() implies #[trigger] v1[x] == (v0[x] || a.contains(
        x as NodeId,
    )) by {
        assert(x as NodeId as int == x);
        if x == id {
            assert(a[0] == id);
        }
        if a.contains(x as NodeId) {
            assert(a[0] == x as NodeId);
        }
    }
    lemma_fresh_concat(a, cr, v0, v1);
    if !v0[id as int] {
        assert(fresh(a, v0));
    }
    if fresh(a, v0) {
        assert(a[0] == id);
    }
}

pub proof fn lemma_marks_concat(
    v: Seq<bool>,
    w: Seq<bool>,
    u: Seq<bool>,
    a: Seq<NodeId>,
    b: Seq<NodeId>,
)
    requires
        marks(w, v, a),
        marks(u, w, b),
    ensures
        marks(u, v, a + b),
{
    assert forall|x: int| 0 <= x < u.len() implies #[trigger] u[x] == (v[x] || (a + b).contains(
        x as NodeId,
    )) by {
        let s = a + b;
        if a.contains(x as NodeId) {
            let k = choose|k: int| 0 <= k < a.len() && a[k] == x as NodeId;
            assert(s[k] == a[k]);
        }
        if b.contains(x as NodeId) {
            let k = choose|k: int| 0 <= k < b.len() && b[k] == x as NodeId;
            assert(s[a.len() + k] == b[k]);
        }
        if s.contains(x as NodeId) {
            let k = choose|k: int| 0 <= k < s.len() && s[k] == x as NodeId;
            if k < a.len() {
                assert(a[k] == s[k]);
            } else {
                assert(b[k - a.len()] == s[k]);
            }
        }
    }
}

/// The marks `v` with the nodes of `a` added.
pub open spec fn with_marks(v: Seq<bool>, a: Seq<NodeId>) -> Seq<bool> {
    Seq::new(v.len(), |x: int| v[x] || a.contains(x as NodeId))
}

pub proof fn lemma_fresh_prefix(a: Seq<NodeId>, b: Seq<NodeId>, v: Seq<bool>)
    requires
        fresh(a + b, v),
    ensures
        fresh(a, v),
{
    lemma_fresh_concat(a, b, v, with_marks(v, a));
}

pub proof fn lemma_slots_reach_prefix(
    t: RenderTree,
    slots: Seq<RenderFlexible>,
    fuel: nat,
    k: int,
    m: int,
    flexible: bool,
    v: Seq<bool>,
)
    requires
        0 <= k <= m <= slots.len(),
        fresh(t.slots_reach(slots, fuel, m, flexible), v),
    ensures
        fresh(t.slots_reach(slots, fuel, k, flexible), v),
    decreases m - k,
{
    if k < m {
        let last = if (slots[m - 1].flex > 0) == flexible {
            t.reach(slots[m - 1].inner as int, fuel)
        } else {
            seq![]
        };
        lemma_fresh_prefix(t.slots_reach(slots, fuel, m - 1, flexible), last, v);
        lemma_slots_reach_prefix(t, slots, fuel, k, m - 1, flexible, v);
    }
}

/// A flex child whose layout is done: its node has the size its slot records, it and
/// everything below it are laid out, and every node it reached is marked and is not
/// its container.
pub open spec fn child_done(
    t: RenderTree,
    vis: Seq<bool>,
    t0: RenderTree,
    slot: RenderFlexible,
    parent: int,
    fuel: nat,
) -> bool {
    &&& t.nodes@[slot.inner as int].size_of() == Some(slot.size)
    &&& t.laid_out_tree(slot.inner as int, slot.constraints, fuel)
    &&& forall|x: NodeId| #[trigger] t0.reach(slot.inner as int, fuel).contains(x) ==> x < vis.len() && vis[x as int] && x != parent
}

pub proof fn lemma_child_done_preserved(
    t1: RenderTree,
    t2: RenderTree,
    v1: Seq<bool>,
    v2: Seq<bool>,
    t0: RenderTree,
    slot: RenderFlexible,
    parent: int,
    fuel: nat,
)
    requires
        child_done(t1, v1, t0, slot, parent, fuel),
        t1.same_shape(t0),
        t2.same_shape(t0),
        v1.len() == v2.len(),
        v1.len() == t1.nodes@.len(),
        forall|x: int| 0 <= x < v1.len() && v1[x] ==> #[trigger] v2[x],
        forall|x: int|
            0 <= x < t1.nodes@.len() && x != parent && v1[x] ==> #[trigger] t2.nodes@[x] == t1.nodes@[x],
    ensures
        child_done(t2, v2, t0, slot, parent, fuel),
{
    lemma_reach_shape(t1, t0, slot.inner as int, fuel);
    lemma_same_shape_sym(t2, t0);
    lemma_same_shape_trans(t1, t0, t2);
    assert forall|x: NodeId| #[trigger] t1.reach(slot.inner as int, fuel).contains(x) implies t2.nodes@[x as int] == t1.nodes@[x as int] by {
        assert(t0.reach(slot.inner as int, fuel).contains(x));
    }
    lemma_laid_out_tree_frame(t1, t2, slot.inner as int, slot.constraints, fuel);
    let r = t1.reach(slot.inner as int, fuel);
    assert(r == seq![slot.inner] + t1.child_reach(slot.inner as int, fuel));
    assert(r[0] == slot.inner);
    assert(t0.reach(slot.inner as int, fuel).contains(slot.inner));
    assert forall|x: NodeId| #[trigger] t0.reach(slot.inner as int, fuel).contains(x) implies x < v2.len() && v2[x as int] && x != parent by {
        assert(v1[x as int]);
    }
}

pub proof fn lemma_same_shape_sym(a: RenderTree, b: RenderTree)
    requires
        a.same_shape(b),
    ensures
        b.same_shape(a),
{
    assert forall|i: int| 0 <= i < b.nodes@.len() implies #[trigger] b.nodes@[i].same_shape(a.nodes@[i]) by {
        assert(a.nodes@[i].same_shape(b.nodes@[i]));
        match (a.nodes@[i], b.nodes@[i]) {
            (RenderNode::Flex(x), RenderNode::Flex(y)) => {
                assert forall|j: int| 0 <= j < y.children@.len() implies (
                #[trigger] y.children@[j]).inner == x.children@[j].inner && y.children@[j].flex
                    == x.children@[j].flex && y.children@[j].fit == x.children@[j].fit by {
                    assert(x.children@[j].inner == y.children@[j].inner);
                }
            },
            _ => {},
        }
    }
}

/// What layout visits depends only on the tree's shape.
pub proof fn lemma_reach_shape(a: RenderTree, b: RenderTree, id: int, fuel: nat)
    requires
        a.same_shape(b),
    ensures
        a.reach(id, fuel) == b.reach(id, fuel),
        a.child_reach(id, fuel) == b.child_reach(id, fuel),
    decreases fuel, 1int,
{
    if fuel > 0 && 0 <= id < a.nodes@.len() {
        assert(a.nodes@[id].same_shape(b.nodes@[id]));
        match a.nodes@[id] {
            RenderNode::View(x) => {
                if x.child is Some {
                    lemma_reach_shape(a, b, x.child->Some_0 as int, (fuel - 1) as nat);
                }
            },
            RenderNode::ConstrainedBox(x) => {
                if x.child is Some {
                    lemma_reach_shape(a, b, x.child->Some_0 as int, (fuel - 1) as nat);
                }
            },
            RenderNode::Flex(x) => {
                let y = b.nodes@[id]->Flex_0;
                let n = x.children@.len() as int;
                lemma_slots_reach_shape(a, b, x.children@, y.children@, (fuel - 1) as nat, n, false);
                lemma_slots_reach_shape(a, b, x.children@, y.children@, (fuel - 1) as nat, n, true);
            },
            _ => {},
        }
    }
}

pub proof fn lemma_slots_reach_shape(
    a: RenderTree,
    b: RenderTree,
    s1: Seq<RenderFlexible>,
    s2: Seq<RenderFlexible>,
    fuel: nat,
    k: int,
    flexible: bool,
)
    requires
        a.same_shape(b),
        s1.len() == s2.len(),
        forall|j: int| 0 <= j < s1.len() ==> (#[trigger] s1[j]).inner == s2[j].inner && s1[j].flex == s2[j].flex,
    ensures
        a.slots_reach(s1, fuel, k, flexible) == b.slots_reach(s2, fuel, k, flexible),
    decreases fuel, 3 + if k > 0 {
        k
    } else {
        0
    },
{
    if k > 0 && k <= s1.len() {
        lemma_slots_reach_shape(a, b, s1, s2, fuel, k - 1, flexible);
        assert(s1[k - 1].inner == s2[k - 1].inner);
        lemma_reach_shape(a, b, s1[k - 1].inner as int, fuel);
    }
}

/// A child's visits are among its container's.
pub proof fn lemma_slot_reach_within(
    t: RenderTree,
    slots: Seq<RenderFlexible>,
    fuel: nat,
    k: int,
    flexible: bool,
    j: int,
    x: NodeId,
)
    requires
        0 <= j < k <= slots.len(),
        (slots[j].flex > 0) == flexible,
        t.reach(slots[j].inner as int, fuel).contains(x),
    ensures
        t.slots_reach(slots, fuel, k, flexible).contains(x),
    decreases k,
{
    let prev = t.slots_reach(slots, fuel, k - 1, flexible);
    let last = if (slots[k - 1].flex > 0) == flexible {
        t.reach(slots[k - 1].inner as int, fuel)
    } else {
        seq![]
    };
    assert(t.slots_reach(slots, fuel, k, flexible) == prev + last);
    if j < k - 1 {
        lemma_slot_reach_within(t, slots, fuel, k - 1, flexible, j, x);
        let i = choose|i: int| 0 <= i < prev.len() && prev[i] == x;
        assert((prev + last)[i] == x);
    } else {
        let i = choose|i: int| 0 <= i < last.len() && last[i] == x;
        assert((prev + last)[prev.len() + i] == x);
    }
}

/// A record that holds of a tree holds of any tree that agrees with it on the
/// nodes the layout visited.
pub proof fn lemma_laid_out_tree_frame(
    t1: RenderTree,
    t2: RenderTree,
    id: int,
    c: BoxConstraints,
    fuel: nat,
)
    requires
        t1.laid_out_tree(id, c, fuel),
        t1.same_shape(t2),
        forall|x: NodeId| #[trigger] t1.reach(id, fuel).contains(x) ==> t2.nodes@[x as int] == t1.nodes@[x as int],
    ensures
        t2.laid_out_tree(id, c, fuel),
    decreases fuel,
{
    let r = t1.reach(id, fuel);
    let cr = t1.child_reach(id, fuel);
    assert(fuel > 0 && 0 <= id < t1.nodes@.len());
    assert(t1.nodes@.len() == t1.nodes.len());
    assert(id as NodeId as int == id);
    assert(r == seq![id as NodeId] + cr);
    assert(r[0] == id as NodeId);
    assert(r.contains(id as NodeId));
    assert forall|x: NodeId| #[trigger] cr.contains(x) implies t2.nodes@[x as int]
        == t1.nodes@[x as int] by {
        let i = choose|i: int| 0 <= i < cr.len() && cr[i] == x;
        assert(r[i + 1] == x);
        assert(r.contains(x));
    }
    assert(t2.nodes@[id] == t1.nodes@[id]);
    assert(t2.respects(id, c));
    match t1.nodes@[id] {
        RenderNode::View(v) => {
            if v.child is Some {
                let ch = v.child->Some_0 as int;
                assert(cr == t1.reach(ch, (fuel - 1) as nat));
                lemma_laid_out_tree_frame(t1, t2, ch, c, (fuel - 1) as nat);
                let rc = t1.reach(ch, (fuel - 1) as nat);
                assert(rc == seq![ch as NodeId] + t1.child_reach(ch, (fuel - 1) as nat));
                assert(rc[0] == ch as NodeId);
                assert(cr.contains(ch as NodeId));
                assert(t2.nodes@[ch] == t1.nodes@[ch]);
                assert(t2.laid_out(id, c));
            }
        },
        RenderNode::ConstrainedBox(b) => {
            if b.child is Some {
                let ch = b.child->Some_0 as int;
                assert(cr == t1.reach(ch, (fuel - 1) as nat));
                lemma_laid_out_tree_frame(
                    t1,
                    t2,
                    ch,
                    b.additional_constraints.enforce_spec(c),
                    (fuel - 1) as nat,
                );
                let rc = t1.reach(ch, (fuel - 1) as nat);
                assert(rc == seq![ch as NodeId] + t1.child_reach(ch, (fuel - 1) as nat));
                assert(rc[0] == ch as NodeId);
                assert(cr.contains(ch as NodeId));
                assert(t2.nodes@[ch] == t1.nodes@[ch]);
            }
        },
        RenderNode::Flex(f) => {
            let n = f.children@.len() as int;
            let a1 = t1.slots_reach(f.children@, (fuel - 1) as nat, n, false);
            let a2 = t1.slots_reach(f.children@, (fuel - 1) as nat, n, true);
            assert(cr == a1 + a2);
            assert forall|j: int| 0 <= j < n implies {
                &&& t2.nodes@[(#[trigger] f.children@[j]).inner as int].size_of()
                    == Some(f.children@[j].size)
                &&& t2.laid_out_tree(
                    f.children@[j].inner as int,
                    f.children@[j].constraints,
                    (fuel - 1) as nat,
                )
            } by {
                let inner = f.children@[j].inner as int;
                let fl = f.children@[j].flex > 0;
                assert forall|x: NodeId| #[trigger] t1.reach(inner, (fuel - 1) as nat).contains(x)
                    implies t2.nodes@[x as int] == t1.nodes@[x as int] by {
                    lemma_slot_reach_within(t1, f.children@, (fuel - 1) as nat, n, fl, j, x);
                    if fl {
                        let i = choose|i: int| 0 <= i < a2.len() && a2[i] == x;
                        assert((a1 + a2)[a1.len() + i] == x);
                    } else {
                        let i = choose|i: int| 0 <= i < a1.len() && a1[i] == x;
                        assert((a1 + a2)[i] == x);
                    }
                    assert(cr.contains(x));
                }
                lemma_laid_out_tree_frame(t1, t2, inner, f.children@[j].constraints, (fuel - 1) as nat);
                let rc = t1.reach(inner, (fuel - 1) as nat);
                assert(rc[0] == inner as NodeId);
                assert(rc.contains(inner as NodeId));
            }
        },
        _ => {},
    }
}

/// Layout is repeatable: two trees of the same shape, each laid out from `id` under
/// `c`, record the same size for `id`, and a flex container records the same
/// overflow and the same child records.
pub proof fn lemma_layout_repeatable(
    t1: RenderTree,
    t2: RenderTree,
    id: int,
    c: BoxConstraints,
    fuel: nat,
)
    requires
        t1.same_shape(t2),
        t1.laid_out_tree(id, c, fuel),
        t2.laid_out_tree(id, c, fuel),
    ensures
        t1.nodes@[id].size_of() == t2.nodes@[id].size_of(),
        t1.nodes@[id] is Flex ==> t1.nodes@[id]->Flex_0.overflow == t2.nodes@[id]->Flex_0.overflow
            && t1.nodes@[id]->Flex_0.children@ == t2.nodes@[id]->Flex_0.children@,
    decreases fuel, 0int,
{
    assert(t1.nodes@[id].same_shape(t2.nodes@[id]));
    match (t1.nodes@[id], t2.nodes@[id]) {
        (RenderNode::View(x), RenderNode::View(y)) => {
            if x.child is Some {
                lemma_layout_repeatable(t1, t2, x.child->Some_0 as int, c, (fuel - 1) as nat);
            }
        },
        (RenderNode::ConstrainedBox(x), RenderNode::ConstrainedBox(y)) => {
            if x.child is Some {
                lemma_layout_repeatable(
                    t1,
                    t2,
                    x.child->Some_0 as int,
                    x.additional_constraints.enforce_spec(c),
                    (fuel - 1) as nat,
                );
            }
        },
        (RenderNode::Flex(x), RenderNode::Flex(y)) => {
            let s1 = x.children@;
            let s2 = y.children@;
            let n = s1.len() as int;
            assert forall|j: int| 0 <= j < n && (#[trigger] s1[j]).flex == 0 implies s1[j].size
                == s2[j].size by {
                assert(s1[j].inner == s2[j].inner && s1[j].flex == s2[j].flex);
                assert(s1[j].constraints == child_constraints(x, c, s1, j));
                assert(s2[j].constraints == child_constraints(y, c, s2, j));
                lemma_layout_repeatable(t1, t2, s1[j].inner as int, s1[j].constraints, (fuel - 1) as nat);
            }
            assert(agree_inflexible(s1, s2, n)) by {
                assert forall|j: int| 0 <= j < n implies (#[trigger] s1[j]).flex == s2[j].flex && (s1[j].flex
                    == 0 ==> s1[j].size == s2[j].size) by {
                    assert(s1[j].flex == s2[j].flex);
                }
            }
            assert forall|j: int| 0 <= j < n implies (#[trigger] s1[j]).constraints == child_constraints(x, c, s1, j) by {}
            assert forall|j: int| 0 <= j < n implies (#[trigger] s2[j]).constraints == child_constraints(y, c, s2, j) by {}
            lemma_slots_repeatable(t1, t2, x, y, c, (fuel - 1) as nat, n);
            assert forall|j: int| 0 <= j < n implies (#[trigger] s1[j]).flex == s2[j].flex && s1[j].fit
                == s2[j].fit && s1[j].size == s2[j].size by {
                assert(s1[j].flex == s2[j].flex && s1[j].fit == s2[j].fit);
            }
            crate::flex_layout::lemma_measures_agree(x, y, c, s1, s2);
            assert forall|j: int| 0 <= j < n implies #[trigger] s1[j] == s2[j] by {
                assert(s1[j].inner == s2[j].inner);
                assert(s1[j].constraints == child_constraints(x, c, s1, j));
                assert(s2[j].constraints == child_constraints(y, c, s2, j));
                assert(s1[j].offset == crate::flex_layout::child_offset(x, crate::flex_layout::flex_size(x, c, s1), s1, j));
                assert(s2[j].offset == crate::flex_layout::child_offset(y, crate::flex_layout::flex_size(y, c, s2), s2, j));
            }
            assert(s1 =~= s2);
        },
        _ => {},
    }
}

/// The children of two same-shaped, laid-out flex containers agree on their sizes,
/// child by child, given that those of weight zero do.
#[verifier::rlimit(50)]
proof fn lemma_slots_repeatable(
    t1: RenderTree,
    t2: RenderTree,
    x: RenderFlex,
    y: RenderFlex,
    c: BoxConstraints,
    fuel: nat,
    k: int,
)
    requires
        t1.same_shape(t2),
        RenderNode::Flex(x).same_shape(RenderNode::Flex(y)),
        0 <= k <= x.children@.len(),
        forall|j: int|
            0 <= j < x.children@.len() ==> (#[trigger] x.children@[j]).constraints == child_constraints(
                x,
                c,
                x.children@,
                j,
            ),
        forall|j: int|
            0 <= j < y.children@.len() ==> (#[trigger] y.children@[j]).constraints == child_constraints(
                y,
                c,
                y.children@,
                j,
            ),
        agree_inflexible(x.children@, y.children@, x.children@.len() as int),
        forall|j: int|
            0 <= j < x.children@.len() ==> {
                &&& t1.nodes@[(#[trigger] x.children@[j]).inner as int].size_of() == Some(x.children@[j].size)
                &&& t1.laid_out_tree(x.children@[j].inner as int, x.children@[j].constraints, fuel)
            },
        forall|j: int|
            0 <= j < y.children@.len() ==> {
                &&& t2.nodes@[(#[trigger] y.children@[j]).inner as int].size_of() == Some(y.children@[j].size)
                &&& t2.laid_out_tree(y.children@[j].inner as int, y.children@[j].constraints, fuel)
            },
    ensures
        agree_before(x.children@, y.children@, k),
    decreases fuel, 1 + k,
{
    let s1 = x.children@;
    let s2 = y.children@;
    if k > 0 {
        lemma_slots_repeatable(t1, t2, x, y, c, fuel, k - 1);
        let j = k - 1;
        assert(s1[j].inner == s2[j].inner && s1[j].flex == s2[j].flex && s1[j].fit == s2[j].fit);
        if s1[j].flex > 0 {
            crate::flex_layout::lemma_child_constraints_agree(x, y, c, s1, s2, j);
            assert(s1[j].constraints == s2[j].constraints);
            lemma_layout_repeatable(t1, t2, s1[j].inner as int, s1[j].constraints, fuel);
        }
        assert(agree_before(s1, s2, k)) by {
            assert forall|i: int| 0 <= i < k implies (#[trigger] s1[i]).flex == s2[i].flex && s1[i].size
                == s2[i].size by {
                if i < j {
                    assert(agree_before(s1, s2, j));
                }
            }
        }
    }
}

/// Whether a layout succeeds depends only on the tree's shape.
pub proof fn lemma_can_layout_shape(a: RenderTree, b: RenderTree, reg: Handlers, id: int, fuel: nat)
    requires
        a.same_shape(b),
    ensures
        a.can_layout(reg, id, fuel) == b.can_layout(reg, id, fuel),
    decreases fuel,
{
    if fuel > 0 && 0 <= id < a.nodes@.len() {
        let na = a.nodes@[id];
        let nb = b.nodes@[id];
        assert(na.same_shape(nb));
        assert(na.kind_of() == nb.kind_of());
        match na {
            RenderNode::View(x) => {
                let y = nb->View_0;
                if x.child is Some {
                    lemma_can_layout_shape(a, b, reg, x.child->Some_0 as int, (fuel - 1) as nat);
                }
            },
            RenderNode::ConstrainedBox(x) => {
                let y = nb->ConstrainedBox_0;
                if x.child is Some {
                    lemma_can_layout_shape(a, b, reg, x.child->Some_0 as int, (fuel - 1) as nat);
                }
            },
            RenderNode::Flex(x) => {
                let y = nb->Flex_0;
                assert(x.children@.len() == y.children@.len());
                assert forall|j: int| 0 <= j < x.children@.len() implies a.can_layout(
                    reg,
                    (#[trigger] x.children@[j]).inner as int,
                    (fuel - 1) as nat,
                ) == b.can_layout(reg, y.children@[j].inner as int, (fuel - 1) as nat) by {
                    lemma_can_layout_shape(a, b, reg, x.children@[j].inner as int, (fuel - 1) as nat);
                }
                if a.can_layout(reg, id, fuel) {
                    assert forall|j: int| 0 <= j < y.children@.len() implies b.can_layout(
                        reg,
                        (#[trigger] y.children@[j]).inner as int,
                        (fuel - 1) as nat,
                    ) by {
                        assert(x.children@[j].inner == y.children@[j].inner);
                    }
                }
                if b.can_layout(reg, id, fuel) {
                    assert forall|j: int| 0 <= j < x.children@.len() implies a.can_layout(
                        reg,
                        (#[trigger] x.children@[j]).inner as int,
                        (fuel - 1) as nat,
                    ) by {
                        assert(x.children@[j].inner == y.children@[j].inner);
                        assert(b.can_layout(reg, y.children@[j].inner as int, (fuel - 1) as nat));
                    }
                }
            },
            _ => {},
        }
    }
}

} // verus!
