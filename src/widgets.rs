use vstd::prelude::*;
use vstd::view::View as _;

use crate::constraints::BoxConstraints;
use crate::flex::{CrossAxisAlignment, FlexFit, MainAxisAlignment, MainAxisSize};
use crate::geometry::{Axis, Clip, TextBaseline, TextDirection, VerticalDirection};
use crate::node::{
    NodeId, RenderConstrainedBox, RenderFlex, RenderFlexible, RenderNode, RenderView,
};
use crate::registry::NodeKind;
use crate::tape::{BuildContext, TapeEntry};
use crate::tree::RenderTree;

verus! {

/// Every node the tape names is in the tree and of the kind the tape says.
pub open spec fn consistent(cx: BuildContext, tree: RenderTree) -> bool {
    forall|i: int|
        0 <= i < cx.entries@.len() ==> {
            &&& (#[trigger] cx.entries@[i]).node < tree.nodes@.len()
            &&& tree.nodes@[cx.entries@[i].node as int].kind_of() == cx.entries@[i].kind
        }
}

/// What a build step keeps: a well formed tree that only grows, a tape that names
/// its nodes, and node kinds that stay as they were.
pub open spec fn build_step(
    cx0: BuildContext,
    t0: RenderTree,
    cx1: BuildContext,
    t1: RenderTree,
) -> bool {
    &&& t1.wf()
    &&& cx1.wf()
    &&& consistent(cx1, t1)
    &&& t0.nodes@.len() <= t1.nodes@.len()
    &&& forall|i: int|
        0 <= i < t0.nodes@.len() ==> (#[trigger] t1.nodes@[i]).kind_of() == t0.nodes@[i].kind_of()
    &&& cx1.depth == cx0.depth
    &&& cx1.states() == cx0.states()
}

/// The entries from the cursor on: what this frame has yet to reach.
pub open spec fn rest(cx: BuildContext) -> Seq<TapeEntry> {
    cx.entries@.subrange(cx.cursor as int, cx.entries@.len() as int)
}

/// Nothing of the current scope is left: the entry at the cursor, if any, belongs
/// to an enclosing scope.
pub open spec fn exhausted(cx: BuildContext) -> bool {
    cx.cursor < cx.entries@.len() ==> cx.entries@[cx.cursor as int].depth < cx.depth
}

/// `a` is what is left of `b` after dropping some of its first entries.
pub open spec fn is_suffix(a: Seq<TapeEntry>, b: Seq<TapeEntry>) -> bool {
    a.len() <= b.len() && a == b.subrange(b.len() - a.len(), b.len() as int)
}

/// Every entry not yet reached names a node below `bound`.
pub open spec fn rest_below(cx: BuildContext, bound: int) -> bool {
    forall|i: int| 0 <= i < rest(cx).len() ==> (#[trigger] rest(cx)[i]).node < bound
}

/// The children of node `id` are all nodes from `bound` on: built afresh.
pub open spec fn children_new(tree: RenderTree, id: int, bound: int) -> bool {
    match tree.nodes@[id] {
        RenderNode::Flex(f) => forall|j: int| 0 <= j < f.children@.len() ==> (#[trigger] f.children@[j]).inner >= bound,
        RenderNode::View(v) => match v.child {
            Some(c) => c >= bound,
            None => true,
        },
        _ => true,
    }
}

/// Once a child of node `id` is built afresh, so is every later child.
pub open spec fn later_children_new(tree: RenderTree, id: int, bound: int) -> bool {
    match tree.nodes@[id] {
        RenderNode::Flex(f) => forall|j: int, k: int|
            0 <= j < k < f.children@.len() && #[trigger] f.children@[j].inner >= bound ==> #[trigger] f.children@[k].inner >= bound,
        _ => true,
    }
}

proof fn lemma_suffix_trans(a: Seq<TapeEntry>, b: Seq<TapeEntry>, c: Seq<TapeEntry>)
    requires
        is_suffix(a, b),
        is_suffix(b, c),
    ensures
        is_suffix(a, c),
{
    assert(a =~= c.subrange(c.len() - a.len(), c.len() as int));
}

proof fn lemma_suffix_below(a: BuildContext, b: BuildContext, bound: int)
    requires
        is_suffix(rest(a), rest(b)),
        rest_below(b, bound),
    ensures
        rest_below(a, bound),
{
    let ra = rest(a);
    let rb = rest(b);
    assert forall|i: int| 0 <= i < ra.len() implies (#[trigger] ra[i]).node < bound by {
        assert(ra[i] == rb[rb.len() - ra.len() + i]);
    }
}

/// What dropping the rest of the current scope leaves at and after the cursor.
proof fn lemma_discard_rest(cx: BuildContext)
    requires
        cx.wf(),
    ensures
        ({
            let e = crate::tape::run_end(cx.entries@, cx.cursor as int, cx.depth as int);
            let w = cx.without_scope_rest();
            &&& cx.cursor <= e <= cx.entries@.len()
            &&& w.len() == cx.entries@.len() - (e - cx.cursor)
            &&& forall|i: int| 0 <= i < cx.cursor ==> #[trigger] w[i] == cx.entries@[i]
            &&& w.subrange(cx.cursor as int, w.len() as int) == cx.entries@.subrange(e, cx.entries@.len() as int)
            &&& e < cx.entries@.len() ==> cx.entries@[e].depth < cx.depth
            &&& exhausted(cx) ==> e == cx.cursor
        }),
{
    let s = cx.entries@;
    crate::tape::lemma_run_end_bounds(s, cx.cursor as int, cx.depth as int);
    let e = crate::tape::run_end(s, cx.cursor as int, cx.depth as int);
    let w = cx.without_scope_rest();
    assert(w.subrange(cx.cursor as int, w.len() as int) =~= s.subrange(e, s.len() as int));
}

/// The previous frame's nodes of the scope of depth `d` that starts `r`, in order:
/// each entry at depth `d`, the deeper entries after it (its own subtree) skipped.
pub open spec fn sib_list(r: Seq<TapeEntry>, d: int) -> Seq<TapeEntry>
    decreases r.len(),
{
    if r.len() == 0 || r[0].depth != d {
        seq![]
    } else {
        let e = crate::tape::run_end(r, 1, d + 1);
        if 1 <= e && e <= r.len() {
            seq![r[0]] + sib_list(r.subrange(e, r.len() as int), d)
        } else {
            seq![]
        }
    }
}

/// `r1` is `r0` with its run of depth `d` or deeper at the front replaced by other
/// entries of depth `d` or deeper: a step inside a scope leaves what follows the
/// scope as it was.
pub open spec fn keeps_outer(r0: Seq<TapeEntry>, r1: Seq<TapeEntry>, d: int) -> bool {
    let e = crate::tape::run_end(r0, 0, d);
    let t = r0.len() - e;
    &&& 0 <= t <= r1.len()
    &&& r1.subrange(r1.len() - t, r1.len() as int) == r0.subrange(e, r0.len() as int)
    &&& forall|i: int| 0 <= i < r1.len() - t ==> #[trigger] r1[i].depth >= d
}

proof fn lemma_run_end_shift(s: Seq<TapeEntry>, k: int, j: int, d: int)
    requires
        0 <= k <= s.len(),
        0 <= j,
    ensures
        crate::tape::run_end(s.subrange(k, s.len() as int), j, d) == crate::tape::run_end(s, k + j, d) - k,
    decreases s.len() - k - j,
{
    let t = s.subrange(k, s.len() as int);
    if j < t.len() {
        assert(t[j] == s[k + j]);
        if t[j].depth >= d {
            lemma_run_end_shift(s, k, j + 1, d);
        }
    }
}

proof fn lemma_run_end_skip(s: Seq<TapeEntry>, from: int, k: int, d: int)
    requires
        0 <= from <= k <= s.len(),
        forall|i: int| from <= i < k ==> #[trigger] s[i].depth >= d,
    ensures
        crate::tape::run_end(s, from, d) == crate::tape::run_end(s, k, d),
    decreases k - from,
{
    if from < k {
        lemma_run_end_skip(s, from + 1, k, d);
    }
}

proof fn lemma_keeps_outer_refl(r: Seq<TapeEntry>, d: int)
    ensures
        keeps_outer(r, r, d),
{
    crate::tape::lemma_run_end_bounds(r, 0, d);
    let e = crate::tape::run_end(r, 0, d);
    assert(r.subrange(r.len() - (r.len() - e), r.len() as int) =~= r.subrange(e, r.len() as int));
}

/// Where the run of depth `d` or deeper at the front of `r1` ends, when `r1` keeps
/// what follows that run in `r0`.
proof fn lemma_keeps_outer_split(r0: Seq<TapeEntry>, r1: Seq<TapeEntry>, d: int)
    requires
        keeps_outer(r0, r1, d),
    ensures
        crate::tape::run_end(r1, 0, d) == r1.len() - (r0.len() - crate::tape::run_end(r0, 0, d)),
{
    crate::tape::lemma_run_end_bounds(r0, 0, d);
    let e = crate::tape::run_end(r0, 0, d);
    let y = r1.len() - (r0.len() - e);
    lemma_run_end_skip(r1, 0, y, d);
    if y < r1.len() {
        assert(r1[y] == r1.subrange(y, r1.len() as int)[0]);
        assert(r0.subrange(e, r0.len() as int)[0] == r0[e]);
    }
}

proof fn lemma_keeps_outer_trans(r0: Seq<TapeEntry>, r1: Seq<TapeEntry>, r2: Seq<TapeEntry>, d: int)
    requires
        keeps_outer(r0, r1, d),
        keeps_outer(r1, r2, d),
    ensures
        keeps_outer(r0, r2, d),
{
    lemma_keeps_outer_split(r0, r1, d);
    crate::tape::lemma_run_end_bounds(r0, 0, d);
    let e0 = crate::tape::run_end(r0, 0, d);
    let t = r0.len() - e0;
    let e1 = crate::tape::run_end(r1, 0, d);
    assert(r1.subrange(e1, r1.len() as int) == r0.subrange(e0, r0.len() as int));
    assert(r2.subrange(r2.len() - t, r2.len() as int) =~= r0.subrange(e0, r0.len() as int));
}

/// Closing a scope of depth `d + 1` opened after the tape was at `r` with the cursor
/// on a node of depth `d`: `r1` is what followed that node (all of `r` past it on a
/// hit, what follows the dropped scope rest on a miss), `rm` what the children left.
proof fn lemma_scope_close(r: Seq<TapeEntry>, r1: Seq<TapeEntry>, rm: Seq<TapeEntry>, d: int, hit: bool)
    requires
        d >= 0,
        hit ==> r.len() > 0 && r[0].depth == d && r1 == r.subrange(1, r.len() as int),
        !hit ==> r1 == r.subrange(crate::tape::run_end(r, 0, d), r.len() as int),
        keeps_outer(r1, rm, d + 1),
    ensures
        ({
            let rf = rm.subrange(crate::tape::run_end(rm, 0, d + 1), rm.len() as int);
            &&& keeps_outer(r, rf, d)
            &&& hit ==> rf == r.subrange(crate::tape::run_end(r, 1, d + 1), r.len() as int)
        }),
{
    lemma_keeps_outer_split(r1, rm, d + 1);
    crate::tape::lemma_run_end_bounds(r1, 0, d + 1);
    crate::tape::lemma_run_end_bounds(r, 0, d);
    let e1 = crate::tape::run_end(r1, 0, d + 1);
    let em = crate::tape::run_end(rm, 0, d + 1);
    let rf = rm.subrange(em, rm.len() as int);
    assert(rf =~= r1.subrange(e1, r1.len() as int));
    let e = crate::tape::run_end(r, 0, d);
    if hit {
        lemma_run_end_shift(r, 1, 0, d + 1);
        let e2 = crate::tape::run_end(r, 1, d + 1);
        crate::tape::lemma_run_end_bounds(r, 1, d + 1);
        assert(rf =~= r.subrange(e2, r.len() as int));
        assert forall|i: int| 0 <= i < e2 implies #[trigger] r[i].depth >= d by {}
        lemma_run_end_skip(r, 0, e2, d);
        crate::tape::lemma_run_end_bounds(r, e2, d);
        assert(rf.subrange(rf.len() - (r.len() - e), rf.len() as int) =~= r.subrange(e, r.len() as int));
        assert forall|i: int| 0 <= i < rf.len() - (r.len() - e) implies #[trigger] rf[i].depth >= d by {
            assert(rf[i] == r[e2 + i]);
        }
    } else {
        if r1.len() > 0 {
            assert(r1[0] == r[e]);
        }
        assert(e1 == 0);
        assert(rf =~= r.subrange(e, r.len() as int));
        assert(rf.subrange(rf.len() - (r.len() - e), rf.len() as int) =~= r.subrange(e, r.len() as int));
    }
}

/// Without a nested scope, the step over the node at the cursor keeps what follows
/// the current scope.
proof fn lemma_open_keeps_outer(r: Seq<TapeEntry>, r1: Seq<TapeEntry>, d: int, hit: bool)
    requires
        hit ==> r.len() > 0 && r[0].depth == d && r1 == r.subrange(1, r.len() as int),
        !hit ==> r1 == r.subrange(crate::tape::run_end(r, 0, d), r.len() as int),
    ensures
        keeps_outer(r, r1, d),
{
    crate::tape::lemma_run_end_bounds(r, 0, d);
    let e = crate::tape::run_end(r, 0, d);
    if hit {
        crate::tape::lemma_run_end_bounds(r, 1, d);
        lemma_run_end_skip(r, 0, 1, d);
        assert(r1.subrange(r1.len() - (r.len() - e), r1.len() as int) =~= r.subrange(e, r.len() as int));
        assert forall|i: int| 0 <= i < r1.len() - (r.len() - e) implies #[trigger] r1[i].depth >= d by {
            assert(r1[i] == r[1 + i]);
        }
    } else {
        assert(r1.subrange(r1.len() - (r.len() - e), r1.len() as int) =~= r.subrange(e, r.len() as int));
    }
}

/// What reconciling declaration `w` with the tape at `c0` and the tree `t0` does,
/// ending at `c1` and `t1` and returning node `r`.
pub open spec fn created(
    w: Widget,
    c0: BuildContext,
    t0: RenderTree,
    c1: BuildContext,
    t1: RenderTree,
    r: NodeId,
) -> bool {
    &&& build_step(c0, t0, c1, t1)
    &&& r < t1.nodes@.len()
    &&& t1.nodes@[r as int].kind_of() == w.kind()
    &&& c0.depth < usize::MAX ==> w.reflected_by(t1, r as int)
    &&& c0.hit(w.kind()) ==> r == c0.entries@[c0.cursor as int].node
    &&& !c0.hit(w.kind()) ==> r == t0.nodes@.len()
    &&& forall|i: int| 0 <= i < c0.cursor ==> #[trigger] c1.entries@[i] == c0.entries@[i]
    &&& c0.cursor < c1.cursor <= c1.entries@.len()
    &&& c1.entries@[c0.cursor as int] == (TapeEntry { kind: w.kind(), node: r, depth: c0.depth })
    &&& is_suffix(rest(c1), rest(c0))
    &&& exhausted(c0) ==> rest(c1) == rest(c0)
    &&& !c0.hit(w.kind()) ==> exhausted(c1)
    &&& !c0.hit(w.kind()) ==> children_new(t1, r as int, t0.nodes@.len() as int)
    &&& later_children_new(t1, r as int, t0.nodes@.len() as int)
    &&& keeps_outer(rest(c0), rest(c1), c0.depth as int)
    &&& c0.hit(w.kind()) && c0.depth < usize::MAX ==> rest(c1) == rest(c0).subrange(
        crate::tape::run_end(rest(c0), 1, c0.depth + 1),
        rest(c0).len() as int,
    )
    &&& c0.hit(w.kind()) && c0.depth + 1 < usize::MAX ==> w.reuses_children(
        t1,
        r as int,
        sib_list(rest(c0).subrange(1, rest(c0).len() as int), c0.depth + 1),
        t0.nodes@.len() as int,
    )
}

/// A box with constraints of its own.
#[derive(Clone, Copy, Debug, PartialEq, Eq, Structural)]
pub struct ConstrainedBox {
    pub constraints: BoxConstraints,
}

impl Default for ConstrainedBox {
    /// A box that fills as much as it is allowed.
    fn default() -> (r: ConstrainedBox)
        ensures
            r.constraints == BoxConstraints::expand_spec(None, None),
    {
        ConstrainedBox { constraints: BoxConstraints::expand(None, None) }
    }
}

/// A child of a flex container with its weight and fit.
#[derive(Debug)]
pub struct Flexible {
    pub flex: u32,
    pub fit: FlexFit,
    pub child: Box<Widget>,
}

impl Flexible {
    /// `child` with weight one, free to be smaller than its share.
    pub fn from_widget(child: Widget) -> (r: Flexible)
        ensures
            r.flex == 1,
            r.fit == FlexFit::Loose,
            *r.child == child,
    {
        Flexible { flex: 1, fit: FlexFit::Loose, child: Box::new(child) }
    }
}

/// A row or a column of flexible children.
#[derive(Debug)]
pub struct Flex {
    pub direction: Axis,
    pub main_axis_size: MainAxisSize,
    pub main_axis_alignment: MainAxisAlignment,
    pub cross_axis_alignment: CrossAxisAlignment,
    pub vertical_direction: VerticalDirection,
    pub text_direction: Option<TextDirection>,
    pub text_baseline: Option<TextBaseline>,
    pub clip_behavior: Clip,
    pub children: Vec<Flexible>,
}

impl Flex {
    /// A left-to-right row that takes the whole main axis, packs its children at the
    /// start and centres them across.
    pub fn new(children: Vec<Flexible>) -> (r: Flex)
        ensures
            r.direction == Axis::Horizontal,
            r.main_axis_size == MainAxisSize::Max,
            r.main_axis_alignment == MainAxisAlignment::Start,
            r.cross_axis_alignment == CrossAxisAlignment::Center,
            r.vertical_direction == VerticalDirection::Down,
            r.text_direction == Some(TextDirection::LTR),
            r.text_baseline.is_none(),
            r.clip_behavior == Clip::Disabled,
            r.children@ == children@,
    {
        Flex {
            direction: Axis::Horizontal,
            main_axis_size: MainAxisSize::Max,
            main_axis_alignment: MainAxisAlignment::Start,
            cross_axis_alignment: CrossAxisAlignment::Center,
            vertical_direction: VerticalDirection::Down,
            text_direction: Some(TextDirection::LTR),
            text_baseline: None,
            clip_behavior: Clip::Disabled,
            children,
        }
    }

    /// The first `k` declared children each find a cached node of their kind, in
    /// order, among the previous frame's nodes `sib` of the scope.
    pub open spec fn cached_upto(&self, sib: Seq<TapeEntry>, k: int) -> bool {
        forall|i: int| 0 <= i < k ==> i < sib.len() && #[trigger] sib[i].kind == self.children@[i].child.kind()
    }

    /// Reconciles the children in order, within the scope the caller opened, and
    /// returns their slots. Once a child is built afresh, so is every later one.
    fn create_children(&self, cx: &mut BuildContext, tree: &mut RenderTree, l0: Ghost<int>) -> (slots:
        Vec<RenderFlexible>)
        requires
            old(tree).wf(),
            old(cx).wf(),
            consistent(*old(cx), *old(tree)),
            forall|j: int| 0 <= j < self.children@.len() ==> (#[trigger] self.children@[j]).child.valid(),
            rest_below(*old(cx), l0@),
            l0@ <= old(tree).nodes@.len(),
        ensures
            build_step(*old(cx), *old(tree), *final(cx), *final(tree)),
            slots@.len() == self.children@.len(),
            forall|j: int|
                0 <= j < slots@.len() ==> (#[trigger] slots@[j]).inner < final(tree).nodes@.len()
                    && slots@[j].flex == self.children@[j].flex && slots@[j].fit == self.children@[j].fit
                    && final(tree).nodes@[slots@[j].inner as int].kind_of() == self.children@[j].child.kind(),
            is_suffix(rest(*final(cx)), rest(*old(cx))),
            rest_below(*final(cx), l0@),
            forall|k: int| 0 <= k < old(cx).cursor ==> #[trigger] final(cx).entries@[k] == old(cx).entries@[k],
            old(cx).cursor <= final(cx).cursor,
            exhausted(*old(cx)) ==> rest(*final(cx)) == rest(*old(cx)) && forall|j: int|
                0 <= j < slots@.len() ==> (#[trigger] slots@[j]).inner >= l0@,
            exhausted(*old(cx)) ==> exhausted(*final(cx)),
            forall|j: int| 0 <= j < slots@.len() && (#[trigger] slots@[j]).inner >= l0@ ==> exhausted(*final(cx)),
            forall|j: int, k: int|
                0 <= j < k < slots@.len() && #[trigger] slots@[j].inner >= l0@ ==> #[trigger] slots@[k].inner >= l0@,
            keeps_outer(rest(*old(cx)), rest(*final(cx)), old(cx).depth as int),
            old(cx).depth < usize::MAX ==> forall|j: int|
                0 <= j < slots@.len() ==> {
                    &&& self.cached_upto(sib_list(rest(*old(cx)), old(cx).depth as int), j + 1) ==> (#[trigger] slots@[j]).inner
                        == sib_list(rest(*old(cx)), old(cx).depth as int)[j].node
                    &&& !self.cached_upto(sib_list(rest(*old(cx)), old(cx).depth as int), j + 1) ==> slots@[j].inner >= l0@
                },
        decreases self,
    {
        let ghost c1 = *cx;
        let ghost sib1 = sib_list(rest(c1), c1.depth as int);
        proof {
            lemma_keeps_outer_refl(rest(c1), c1.depth as int);
            assert(sib1.subrange(0, sib1.len() as int) =~= sib1);
        }
        let ghost t1 = *tree;
        let ghost mut gone: bool = exhausted(c1);
        assert(rest(c1) =~= rest(c1).subrange(0, rest(c1).len() as int));
        let mut slots: Vec<RenderFlexible> = Vec::new();
        let mut i: usize = 0;
        while i < self.children.len()
            invariant
                i <= self.children@.len(),
                slots@.len() == i,
                forall|j: int|
                    0 <= j < i ==> (#[trigger] slots@[j]).inner < tree.nodes@.len()
                        && slots@[j].flex == self.children@[j].flex && slots@[j].fit
                        == self.children@[j].fit && tree.nodes@[slots@[j].inner as int].kind_of()
                        == self.children@[j].child.kind(),
                forall|j: int| 0 <= j < self.children@.len() ==> (#[trigger] self.children@[j]).child.valid(),
                tree.wf(),
                cx.wf(),
                consistent(*cx, *tree),
                cx.depth == c1.depth,
                cx.states() == c1.states(),
                t1.nodes@.len() <= tree.nodes@.len(),
                forall|k: int|
                    0 <= k < t1.nodes@.len() ==> (#[trigger] tree.nodes@[k]).kind_of()
                        == t1.nodes@[k].kind_of(),
                is_suffix(rest(*cx), rest(c1)),
                rest_below(*cx, l0@),
                l0@ <= t1.nodes@.len(),
                forall|k: int| 0 <= k < c1.cursor ==> #[trigger] cx.entries@[k] == c1.entries@[k],
                c1.cursor <= cx.cursor,
                gone ==> exhausted(*cx),
                exhausted(c1) ==> gone && rest(*cx) == rest(c1),
                exhausted(c1) ==> forall|j: int| 0 <= j < i ==> (#[trigger] slots@[j]).inner >= l0@,
                forall|j: int| 0 <= j < i && (#[trigger] slots@[j]).inner >= l0@ ==> gone,
                forall|j: int, k: int|
                    0 <= j < k < i && #[trigger] slots@[j].inner >= l0@ ==> #[trigger] slots@[k].inner >= l0@,
                sib1 == sib_list(rest(c1), c1.depth as int),
                keeps_outer(rest(c1), rest(*cx), c1.depth as int),
                c1.depth < usize::MAX && self.cached_upto(sib1, i as int) ==> i <= sib1.len() && sib_list(
                    rest(*cx),
                    c1.depth as int,
                ) == sib1.subrange(i as int, sib1.len() as int),
                c1.depth < usize::MAX && !self.cached_upto(sib1, i as int) ==> gone,
                c1.depth < usize::MAX ==> forall|j: int|
                    0 <= j < i ==> {
                        &&& self.cached_upto(sib1, j + 1) ==> (#[trigger] slots@[j]).inner == sib1[j].node
                        &&& !self.cached_upto(sib1, j + 1) ==> slots@[j].inner >= l0@
                    },
            decreases self.children@.len() - i,
        {
            let fl = &self.children[i];
            assert(decreases_to!(self.children => self.children@));
            assert(decreases_to!(self.children@ => self.children@[i as int]));
            assert(decreases_to!(self.children@[i as int] => self.children@[i as int].child));
            let ghost cb = *cx;
            let ghost was_cached = self.cached_upto(sib1, i as int);
            let child_id = fl.child.create(cx, tree);
            let ghost was_gone = gone;
            proof {
                lemma_keeps_outer_trans(rest(c1), rest(cb), rest(*cx), c1.depth as int);
                let kind_i = self.children@[i as int].child.kind();
                lemma_child_reuse(cb, *cx, sib1, i as int, kind_i, child_id, was_cached);
                if was_cached {
                    assert(self.cached_upto(sib1, i + 1) <==> (i < sib1.len() && sib1[i as int].kind
                        == kind_i)) by {
                        if i < sib1.len() && sib1[i as int].kind == kind_i {
                            assert forall|k: int| 0 <= k < i + 1 implies k < sib1.len()
                                && #[trigger] sib1[k].kind == self.children@[k].child.kind() by {
                                if k < i {
                                    assert(self.cached_upto(sib1, i as int));
                                }
                            }
                        }
                    }
                }
                if !was_cached {
                    assert(!self.cached_upto(sib1, i + 1)) by {
                        if self.cached_upto(sib1, i + 1) {
                            assert forall|k: int| 0 <= k < i implies k < sib1.len()
                                && #[trigger] sib1[k].kind == self.children@[k].child.kind() by {}
                        }
                    }
                }
                lemma_suffix_trans(rest(*cx), rest(cb), rest(c1));
                lemma_suffix_below(*cx, cb, l0@);
                if cb.hit(self.children@[i as int].child.kind()) {
                    assert(rest(cb)[0] == cb.entries@[cb.cursor as int]);
                }
                gone = gone || child_id as int >= l0@;
            }
            slots.push(RenderFlexible::new(child_id, fl.flex, fl.fit));
            proof {
                assert(slots@[i as int].inner == child_id);
                if self.cached_upto(sib1, i + 1) {
                    assert(was_cached);
                }
                assert forall|j: int| 0 <= j < i + 1 && c1.depth < usize::MAX implies {
                    &&& self.cached_upto(sib1, j + 1) ==> (#[trigger] slots@[j]).inner == sib1[j].node
                    &&& !self.cached_upto(sib1, j + 1) ==> slots@[j].inner >= l0@
                } by {
                    if j == i {
                        if !self.cached_upto(sib1, j + 1) {
                            if was_gone {
                            }
                        }
                    }
                }
                assert forall|j: int, k: int|
                    0 <= j < k < i + 1 && #[trigger] slots@[j].inner >= l0@ implies #[trigger] slots@[k].inner
                    >= l0@ by {
                    if k == i {
                        assert(was_gone);
                    }
                }
            }
            i = i + 1;
        }
        slots
    }
}

/// The root of a widget tree.
#[derive(Debug)]
pub struct View {
    pub child: Box<Widget>,
}

impl View {
    pub fn new(child: Widget) -> (r: View)
        ensures
            *r.child == child,
    {
        View { child: Box::new(child) }
    }
}

/// A declaration of what to show, made fresh each frame.
#[derive(Debug)]
pub enum Widget {
    ConstrainedBox(ConstrainedBox),
    Flex(Flex),
    View(View),
}

impl Widget {
    pub open spec fn kind(&self) -> NodeKind {
        match self {
            Widget::ConstrainedBox(_) => NodeKind::ConstrainedBox,
            Widget::Flex(_) => NodeKind::Flex,
            Widget::View(_) => NodeKind::View,
        }
    }

    /// Every constrained box in the declaration has well-formed constraints.
    pub open spec fn valid(&self) -> bool
        decreases self,
    {
        match self {
            Widget::ConstrainedBox(w) => w.constraints.wf(),
            Widget::Flex(f) => forall|i: int|
                0 <= i < f.children@.len() ==> (#[trigger] f.children@[i]).child.valid(),
            Widget::View(v) => v.child.valid(),
        }
    }

    /// Node `id` of `tree` carries this declaration's settings, and its children are
    /// of the kinds of the declared children.
    pub open spec fn reflected_by(&self, tree: RenderTree, id: int) -> bool {
        match (self, tree.nodes@[id]) {
            (Widget::ConstrainedBox(w), RenderNode::ConstrainedBox(n)) => n.additional_constraints
                == w.constraints,
            (Widget::Flex(w), RenderNode::Flex(n)) => {
                &&& n.direction == w.direction
                &&& n.main_axis_size == w.main_axis_size
                &&& n.main_axis_alignment == w.main_axis_alignment
                &&& n.cross_axis_alignment == w.cross_axis_alignment
                &&& n.vertical_direction == w.vertical_direction
                &&& n.text_direction == w.text_direction
                &&& n.text_baseline == w.text_baseline
                &&& n.clip_behavior == w.clip_behavior
                &&& n.children@.len() == w.children@.len()
                &&& forall|j: int|
                    0 <= j < n.children@.len() ==> {
                        &&& (#[trigger] n.children@[j]).flex == w.children@[j].flex
                        &&& n.children@[j].fit == w.children@[j].fit
                        &&& tree.nodes@[n.children@[j].inner as int].kind_of()
                            == w.children@[j].child.kind()
                    }
            },
            (Widget::View(w), RenderNode::View(n)) => match n.child {
                Some(c) => tree.nodes@[c as int].kind_of() == w.child.kind(),
                None => false,
            },
            _ => false,
        }
    }

    /// Node `id`'s children are the cached nodes `sib` of the previous frame, in order,
    /// up to the first declared child whose kind differs from its cached node's, and
    /// nodes from `bound` on (built afresh) from there.
    pub open spec fn reuses_children(&self, tree: RenderTree, id: int, sib: Seq<TapeEntry>, bound: int) -> bool {
        match (self, tree.nodes@[id]) {
            (Widget::Flex(w), RenderNode::Flex(f)) => forall|j: int|
                0 <= j < f.children@.len() ==> {
                    &&& w.cached_upto(sib, j + 1) ==> (#[trigger] f.children@[j]).inner == sib[j].node
                    &&& !w.cached_upto(sib, j + 1) ==> f.children@[j].inner >= bound
                },
            (Widget::View(w), RenderNode::View(v)) => match v.child {
                Some(c) => {
                    &&& sib.len() > 0 && sib[0].kind == w.child.kind() ==> c == sib[0].node
                    &&& !(sib.len() > 0 && sib[0].kind == w.child.kind()) ==> c >= bound
                },
                None => false,
            },
            _ => true,
        }
    }

    /// Whether every constrained box in the declaration has well-formed constraints.
    pub fn is_valid(&self) -> (r: bool)
        ensures
            r == self.valid(),
        decreases self,
    {
        match self {
            Widget::ConstrainedBox(w) => w.constraints.min_width <= w.constraints.max_width
                && w.constraints.min_height <= w.constraints.max_height,
            Widget::Flex(f) => {
                let mut i: usize = 0;
                while i < f.children.len()
                    invariant
                        i <= f.children@.len(),
                        *self == Widget::Flex(*f),
                        forall|j: int| 0 <= j < i ==> (#[trigger] f.children@[j]).child.valid(),
                    decreases f.children@.len() - i,
                {
                    assert(decreases_to!(*self => self->Flex_0));
                    assert(decreases_to!(self->Flex_0 => f.children));
                    assert(decreases_to!(f.children => f.children@));
                    assert(decreases_to!(f.children@ => f.children@[i as int]));
                    assert(decreases_to!(f.children@[i as int] => f.children@[i as int].child));
                    if !f.children[i].child.is_valid() {
                        return false;
                    }
                    i = i + 1;
                }
                true
            },
            Widget::View(v) => {
                assert(decreases_to!(*self => self->View_0));
                assert(decreases_to!(self->View_0 => v.child));
                v.child.is_valid()
            },
        }
    }

    /// This widget with a weight and fit, as a child of a flex container.
    pub fn into_flexible(self, flex: u32, fit: FlexFit) -> (r: Flexible)
        ensures
            r.flex == flex,
            r.fit == fit,
            *r.child == self,
    {
        Flexible { flex, fit, child: Box::new(self) }
    }

    /// Brings the render node at the tape's cursor up to date with this declaration
    /// and returns its id: the cached node when it is of the same kind, updated in
    /// place, else a new node. Children are reconciled in a nested scope; a tape
    /// already nested `usize::MAX` deep has no room for one, and the node gets none.
    #[verifier::rlimit(100)]
    pub fn create(&self, cx: &mut BuildContext, tree: &mut RenderTree) -> (r: NodeId)
        requires
            old(tree).wf(),
            old(cx).wf(),
            consistent(*old(cx), *old(tree)),
            self.valid(),
        ensures
            created(*self, *old(cx), *old(tree), *final(cx), *final(tree), r),
        decreases self, 0int,
    {
        let ghost c0 = *cx;
        let ghost l0 = tree.nodes@.len() as int;
        proof {
            assert forall|i: int| 0 <= i < rest(c0).len() implies (#[trigger] rest(c0)[i]).node < l0 by {
                assert(rest(c0)[i] == c0.entries@[c0.cursor + i]);
            }
        }
        match self {
            Widget::ConstrainedBox(w) => w.create(cx, tree),
            Widget::Flex(w) => {
                let id = open_node(cx, tree, RenderNode::Flex(RenderFlex::default()));
                let ghost cx1 = *cx;
                proof {
                    lemma_suffix_below(cx1, c0, l0);
                }
                let mut slots: Vec<RenderFlexible> = Vec::new();
                if cx.depth < usize::MAX {
                    cx.begin();
                    assert(decreases_to!(*self => self->Flex_0));
                    let ghost c2 = *cx;
                    proof {
                        assert(rest(c2) == rest(cx1));
                    }
                    slots = w.create_children(cx, tree, Ghost(l0));
                    let ghost before = *cx;
                    proof {
                        lemma_discard_rest(before);
                    }
                    cx.end();
                    proof {
                        lemma_discard_keeps_consistency(before, *tree);
                        assert(rest(*cx) =~= rest(before).subrange(
                            rest(before).len() - rest(*cx).len(),
                            rest(before).len() as int,
                        ));
                        lemma_suffix_trans(rest(*cx), rest(before), rest(cx1));
                        lemma_suffix_trans(rest(*cx), rest(cx1), rest(c0));
                        assert forall|k: int| 0 <= k < c0.cursor implies #[trigger] cx.entries@[k]
                            == c0.entries@[k] by {
                            assert(cx.entries@[k] == before.entries@[k]);
                            assert(before.entries@[k] == cx1.entries@[k]);
                        }
                        assert(cx.entries@[c0.cursor as int] == before.entries@[c0.cursor as int]);
                        assert(before.entries@[c0.cursor as int] == cx1.entries@[c0.cursor as int]);
                        if !c0.hit(NodeKind::Flex) {
                            assert(rest(*cx) =~= rest(before));
                        }
                        lemma_end_rest(before);
                        assert(rest(*cx) =~= before.without_scope_rest().subrange(
                            before.cursor as int,
                            before.without_scope_rest().len() as int,
                        ));
                        if c0.hit(NodeKind::Flex) {
                            assert(rest(c0)[0] == c0.entries@[c0.cursor as int]);
                        }
                        lemma_scope_close(rest(c0), rest(cx1), rest(before), c0.depth as int, c0.hit(NodeKind::Flex));
                    }
                } else {
                    proof {
                        if c0.hit(NodeKind::Flex) {
                            assert(rest(c0)[0] == c0.entries@[c0.cursor as int]);
                        }
                        lemma_open_keeps_outer(rest(c0), rest(cx1), c0.depth as int, c0.hit(NodeKind::Flex));
                    }
                }
                let (size, overflow) = match tree.node(id) {
                    RenderNode::Flex(f) => (f.size, f.overflow),
                    _ => (None, 0),
                };
                let node = RenderFlex {
                    size,
                    children: slots,
                    direction: w.direction,
                    main_axis_size: w.main_axis_size,
                    main_axis_alignment: w.main_axis_alignment,
                    cross_axis_alignment: w.cross_axis_alignment,
                    vertical_direction: w.vertical_direction,
                    text_direction: w.text_direction,
                    text_baseline: w.text_baseline,
                    clip_behavior: w.clip_behavior,
                    overflow,
                };
                replace_same_kind(cx, tree, id, RenderNode::Flex(node));
                id
            },
            Widget::View(w) => {
                let id = open_node(cx, tree, RenderNode::View(RenderView::new()));
                let ghost cx1 = *cx;
                let ghost t1 = *tree;
                proof {
                    lemma_suffix_below(cx1, c0, l0);
                }
                let mut child: Option<NodeId> = None;
                if cx.depth < usize::MAX {
                    cx.begin();
                    assert(decreases_to!(*self => self->View_0));
                    assert(decreases_to!(self->View_0 => w.child));
                    let ghost c2 = *cx;
                    proof {
                        assert(rest(c2) == rest(cx1));
                    }
                    let ch = w.child.create(cx, tree);
                    child = Some(ch);
                    let ghost before = *cx;
                    proof {
                        lemma_discard_rest(before);
                        if c2.hit(w.child.kind()) {
                            assert(rest(c2)[0] == c2.entries@[c2.cursor as int]);
                        }
                        let sib = sib_list(rest(c2), c2.depth as int);
                        assert(sib.subrange(0, sib.len() as int) =~= sib);
                        lemma_child_reuse(c2, before, sib, 0, w.child.kind(), ch, true);
                    }
                    cx.end();
                    proof {
                        lemma_discard_keeps_consistency(before, *tree);
                        assert(rest(*cx) =~= rest(before).subrange(
                            rest(before).len() - rest(*cx).len(),
                            rest(before).len() as int,
                        ));
                        lemma_suffix_trans(rest(*cx), rest(before), rest(cx1));
                        lemma_suffix_trans(rest(*cx), rest(cx1), rest(c0));
                        assert forall|k: int| 0 <= k < c0.cursor implies #[trigger] cx.entries@[k]
                            == c0.entries@[k] by {
                            assert(cx.entries@[k] == before.entries@[k]);
                            assert(before.entries@[k] == cx1.entries@[k]);
                        }
                        assert(cx.entries@[c0.cursor as int] == before.entries@[c0.cursor as int]);
                        assert(before.entries@[c0.cursor as int] == cx1.entries@[c0.cursor as int]);
                        if !c0.hit(NodeKind::View) {
                            assert(rest(*cx) =~= rest(before));
                        }
                        lemma_end_rest(before);
                        assert(rest(*cx) =~= before.without_scope_rest().subrange(
                            before.cursor as int,
                            before.without_scope_rest().len() as int,
                        ));
                        if c0.hit(NodeKind::View) {
                            assert(rest(c0)[0] == c0.entries@[c0.cursor as int]);
                        }
                        lemma_scope_close(rest(c0), rest(cx1), rest(before), c0.depth as int, c0.hit(NodeKind::View));
                    }
                } else {
                    proof {
                        if c0.hit(NodeKind::View) {
                            assert(rest(c0)[0] == c0.entries@[c0.cursor as int]);
                        }
                        lemma_open_keeps_outer(rest(c0), rest(cx1), c0.depth as int, c0.hit(NodeKind::View));
                    }
                }
                let size = match tree.node(id) {
                    RenderNode::View(v) => v.size,
                    _ => None,
                };
                replace_same_kind(cx, tree, id, RenderNode::View(RenderView { size, child }));
                id
            },
        }
    }
}

impl ConstrainedBox {
    /// Reconciles a constrained box: a cached one keeps its size and child and takes
    /// the new constraints.
    pub fn create(&self, cx: &mut BuildContext, tree: &mut RenderTree) -> (r: NodeId)
        requires
            old(tree).wf(),
            old(cx).wf(),
            consistent(*old(cx), *old(tree)),
            self.constraints.wf(),
        ensures
            build_step(*old(cx), *old(tree), *final(cx), *final(tree)),
            r < final(tree).nodes@.len(),
            final(tree).nodes@[r as int].kind_of() == NodeKind::ConstrainedBox,
            final(cx).cursor == old(cx).cursor + 1,
            old(cx).hit(NodeKind::ConstrainedBox) ==> {
                &&& r == old(cx).entries@[old(cx).cursor as int].node
                &&& final(tree).nodes@ == old(tree).nodes@.update(
                    r as int,
                    RenderNode::ConstrainedBox(
                        RenderConstrainedBox {
                            additional_constraints: self.constraints,
                            ..old(tree).nodes@[r as int]->ConstrainedBox_0
                        },
                    ),
                )
            },
            !old(cx).hit(NodeKind::ConstrainedBox) ==> {
                &&& r == old(tree).nodes@.len()
                &&& final(tree).nodes@ == old(tree).nodes@.push(
                    RenderNode::ConstrainedBox(
                        RenderConstrainedBox {
                            size: None,
                            additional_constraints: self.constraints,
                            child: None,
                        },
                    ),
                )
            },
            forall|i: int| 0 <= i < old(cx).cursor ==> #[trigger] final(cx).entries@[i] == old(cx).entries@[i],
            old(cx).cursor < final(cx).cursor <= final(cx).entries@.len(),
            final(cx).entries@[old(cx).cursor as int] == (TapeEntry {
                kind: NodeKind::ConstrainedBox,
                node: r,
                depth: old(cx).depth,
            }),
            is_suffix(rest(*final(cx)), rest(*old(cx))),
            exhausted(*old(cx)) ==> rest(*final(cx)) == rest(*old(cx)),
            !old(cx).hit(NodeKind::ConstrainedBox) ==> exhausted(*final(cx)),
            keeps_outer(rest(*old(cx)), rest(*final(cx)), old(cx).depth as int),
            old(cx).hit(NodeKind::ConstrainedBox) && old(cx).depth < usize::MAX ==> rest(*final(cx))
                == rest(*old(cx)).subrange(
                crate::tape::run_end(rest(*old(cx)), 1, old(cx).depth + 1),
                rest(*old(cx)).len() as int,
            ),
            final(cx).depth == old(cx).depth,
    {
        let id = open_node(
            cx,
            tree,
            RenderNode::ConstrainedBox(RenderConstrainedBox::new(self.constraints)),
        );
        let b = match tree.node(id) {
            RenderNode::ConstrainedBox(b) => *b,
            _ => RenderConstrainedBox::new(self.constraints),
        };
        let updated = RenderConstrainedBox { additional_constraints: self.constraints, ..b };
        proof {
            assert(tree.nodes@[id as int].wf_in(tree.nodes@.len()));
            assert(RenderNode::ConstrainedBox(updated).child_ids() == tree.nodes@[id as int].child_ids());
        }
        let ghost mid = tree.nodes@;
        let ghost c1 = *cx;
        close_empty_scope(cx, tree);
        proof {
            lemma_leaf_step(*old(cx), c1, *cx, NodeKind::ConstrainedBox);
        }
        replace_same_kind(cx, tree, id, RenderNode::ConstrainedBox(updated));
        proof {
            if !old(cx).hit(NodeKind::ConstrainedBox) {
                assert(tree.nodes@ =~= mid);
            }
        }
        id
    }
}

/// Finds the node of `fresh`'s kind at the tape's cursor, or adds `fresh` to the tree
/// and records it there.
fn open_node(cx: &mut BuildContext, tree: &mut RenderTree, fresh: RenderNode) -> (r: NodeId)
    requires
        old(tree).wf(),
        old(cx).wf(),
        consistent(*old(cx), *old(tree)),
        fresh.wf_in(old(tree).nodes@.len()),
    ensures
        build_step(*old(cx), *old(tree), *final(cx), *final(tree)),
        r < final(tree).nodes@.len(),
        final(tree).nodes@[r as int].kind_of() == fresh.kind_of(),
        final(cx).cursor == old(cx).cursor + 1,
        old(cx).hit(fresh.kind_of()) ==> r == old(cx).entries@[old(cx).cursor as int].node
            && final(tree).nodes@ == old(tree).nodes@ && final(cx).entries@ == old(cx).entries@,
        !old(cx).hit(fresh.kind_of()) ==> final(cx).entries@ == old(cx).without_scope_rest().insert(
            old(cx).cursor as int,
            TapeEntry { kind: fresh.kind_of(), node: r, depth: old(cx).depth },
        ),
        !old(cx).hit(fresh.kind_of()) ==> r == old(tree).nodes@.len() && final(tree).nodes@ == old(
            tree,
        ).nodes@.push(fresh),
        forall|i: int| 0 <= i < old(cx).cursor ==> #[trigger] final(cx).entries@[i] == old(cx).entries@[i],
        old(cx).cursor < final(cx).cursor <= final(cx).entries@.len(),
        final(cx).entries@[old(cx).cursor as int] == (TapeEntry {
            kind: fresh.kind_of(),
            node: r,
            depth: old(cx).depth,
        }),
        is_suffix(rest(*final(cx)), rest(*old(cx))),
        exhausted(*old(cx)) ==> rest(*final(cx)) == rest(*old(cx)),
        !old(cx).hit(fresh.kind_of()) ==> exhausted(*final(cx)),
        old(cx).hit(fresh.kind_of()) ==> rest(*final(cx)) == rest(*old(cx)).subrange(
            1,
            rest(*old(cx)).len() as int,
        ),
        !old(cx).hit(fresh.kind_of()) ==> rest(*final(cx)) == rest(*old(cx)).subrange(
            crate::tape::run_end(rest(*old(cx)), 0, old(cx).depth as int),
            rest(*old(cx)).len() as int,
        ),
        final(cx).depth == old(cx).depth,
{
    let kind = fresh.ty_id();
    proof {
        lemma_discard_rest(*old(cx));
    }
    match cx.reuse(kind) {
        Some(id) => {
            proof {
                assert(rest(*cx) =~= rest(*old(cx)).subrange(1, rest(*old(cx)).len() as int));
            }
            id
        },
        None => {
            proof {
                lemma_discard_keeps_consistency(*old(cx), *tree);
            }
            let id = tree.add(fresh);
            proof {
                assert forall|i: int| 0 <= i < cx.entries@.len() implies {
                    &&& (#[trigger] cx.entries@[i]).node < tree.nodes@.len()
                    &&& tree.nodes@[cx.entries@[i].node as int].kind_of() == cx.entries@[i].kind
                } by {
                    assert(cx.entries@ == old(cx).without_scope_rest());
                }
            }
            let ghost mid = *cx;
            proof {
                let ro = rest(*old(cx));
                assert(rest(mid) == mid.entries@.subrange(mid.cursor as int, mid.entries@.len() as int));
                assert(rest(mid) =~= ro.subrange(ro.len() - rest(mid).len(), ro.len() as int));
                lemma_run_end_shift(old(cx).entries@, old(cx).cursor as int, 0, old(cx).depth as int);
                crate::tape::lemma_run_end_bounds(old(cx).entries@, old(cx).cursor as int, old(cx).depth as int);
                assert(rest(mid) =~= ro.subrange(
                    crate::tape::run_end(ro, 0, old(cx).depth as int),
                    ro.len() as int,
                ));
            }
            cx.record(kind, id);
            proof {
                assert(rest(*cx) =~= rest(mid));
                assert forall|i: int| 0 <= i < old(cx).cursor implies #[trigger] cx.entries@[i] == old(cx).entries@[i] by {
                    assert(cx.entries@[i] == mid.entries@[i]);
                }
            }
            id
        },
    }
}

/// What closing a scope leaves from the cursor on: what followed the scope's rest.
proof fn lemma_end_rest(before: BuildContext)
    requires
        before.wf(),
    ensures
        before.without_scope_rest().subrange(
            before.cursor as int,
            before.without_scope_rest().len() as int,
        ) == rest(before).subrange(
            crate::tape::run_end(rest(before), 0, before.depth as int),
            rest(before).len() as int,
        ),
        crate::tape::run_end(rest(before), 0, before.depth as int) <= rest(before).len(),
{
    lemma_discard_rest(before);
    lemma_run_end_shift(before.entries@, before.cursor as int, 0, before.depth as int);
    crate::tape::lemma_run_end_bounds(before.entries@, before.cursor as int, before.depth as int);
    let e = crate::tape::run_end(before.entries@, before.cursor as int, before.depth as int);
    assert(rest(before).subrange(e - before.cursor, rest(before).len() as int) =~= before.entries@.subrange(
        e,
        before.entries@.len() as int,
    ));
}

/// Opens and closes the scope of a node without children, dropping what the previous
/// frame had below it.
fn close_empty_scope(cx: &mut BuildContext, tree: &RenderTree)
    requires
        old(cx).wf(),
        consistent(*old(cx), *tree),
    ensures
        final(cx).wf(),
        consistent(*final(cx), *tree),
        final(cx).depth == old(cx).depth,
        final(cx).cursor == old(cx).cursor,
        final(cx).states() == old(cx).states(),
        forall|i: int| 0 <= i < old(cx).cursor ==> #[trigger] final(cx).entries@[i] == old(cx).entries@[i],
        old(cx).depth < usize::MAX ==> rest(*final(cx)) == rest(*old(cx)).subrange(
            crate::tape::run_end(rest(*old(cx)), 0, old(cx).depth + 1),
            rest(*old(cx)).len() as int,
        ),
        old(cx).depth == usize::MAX ==> *final(cx) == *old(cx),
{
    if cx.depth < usize::MAX {
        cx.begin();
        let ghost before = *cx;
        proof {
            lemma_discard_rest(before);
            lemma_end_rest(before);
            assert(rest(before) == rest(*old(cx)));
        }
        cx.end();
        proof {
            lemma_discard_keeps_consistency(before, *tree);
            assert(rest(*cx) =~= before.without_scope_rest().subrange(
                before.cursor as int,
                before.without_scope_rest().len() as int,
            ));
        }
    }
}

/// The tape facts of a step over a node without children: `c1` is the tape after
/// the node at the cursor was found or recorded, `c2` after its empty scope closed.
proof fn lemma_leaf_step(c0: BuildContext, c1: BuildContext, c2: BuildContext, kind: NodeKind)
    requires
        c0.wf(),
        c1.wf(),
        c2.wf(),
        c1.depth == c0.depth,
        c2.depth == c0.depth,
        c0.hit(kind) ==> rest(c1) == rest(c0).subrange(1, rest(c0).len() as int),
        !c0.hit(kind) ==> rest(c1) == rest(c0).subrange(
            crate::tape::run_end(rest(c0), 0, c0.depth as int),
            rest(c0).len() as int,
        ),
        !c0.hit(kind) ==> exhausted(c1),
        exhausted(c0) ==> rest(c1) == rest(c0),
        c0.depth < usize::MAX ==> rest(c2) == rest(c1).subrange(
            crate::tape::run_end(rest(c1), 0, c1.depth + 1),
            rest(c1).len() as int,
        ),
        c0.depth == usize::MAX ==> c2 == c1,
    ensures
        keeps_outer(rest(c0), rest(c2), c0.depth as int),
        c0.hit(kind) && c0.depth < usize::MAX ==> rest(c2) == rest(c0).subrange(
            crate::tape::run_end(rest(c0), 1, c0.depth + 1),
            rest(c0).len() as int,
        ),
        is_suffix(rest(c2), rest(c0)),
        exhausted(c0) ==> rest(c2) == rest(c0),
        !c0.hit(kind) ==> exhausted(c2),
{
    let r = rest(c0);
    let r1 = rest(c1);
    let d = c0.depth as int;
    let hit = c0.hit(kind);
    if hit {
        assert(r[0] == c0.entries@[c0.cursor as int]);
    }
    crate::tape::lemma_run_end_bounds(r, 0, d);
    crate::tape::lemma_run_end_bounds(r1, 0, d + 1);
    if !hit && r1.len() > 0 {
        assert(r1[0] == c1.entries@[c1.cursor as int]);
    }
    if c0.depth < usize::MAX {
        lemma_keeps_outer_refl(r1, d + 1);
        lemma_scope_close(r, r1, r1, d, hit);
        if !hit {
            assert(rest(c2) =~= r1);
        }
        if exhausted(c0) && r.len() > 0 {
            assert(r[0] == c0.entries@[c0.cursor as int]);
            assert(rest(c2) =~= r1);
        }
    } else {
        lemma_open_keeps_outer(r, r1, d, hit);
    }
    let e = r.len() - rest(c2).len();
    assert(rest(c2) =~= r.subrange(e, r.len() as int)) by {
        lemma_keeps_outer_split(r, rest(c2), d);
        if hit {
            crate::tape::lemma_run_end_bounds(r, 1, d + 1);
        }
    }
    if exhausted(c2) == false && !hit {
        assert(rest(c2) =~= r1);
    }
}

/// One child's reconciliation inside a scope whose cached nodes from the `i`th on are
/// what `sib_list` finds at `cb`'s cursor: on a hit the child is that cached node and
/// the cached list moves on by one; on a miss the child is new.
proof fn lemma_child_reuse(
    cb: BuildContext,
    ca: BuildContext,
    sib1: Seq<TapeEntry>,
    i: int,
    kind: NodeKind,
    child_id: NodeId,
    cached: bool,
)
    requires
        cb.wf(),
        0 <= i,
        cached && cb.depth < usize::MAX ==> i <= sib1.len() && sib_list(rest(cb), cb.depth as int)
            == sib1.subrange(i, sib1.len() as int),
        cb.hit(kind) ==> child_id == cb.entries@[cb.cursor as int].node,
        cb.hit(kind) && cb.depth < usize::MAX ==> rest(ca) == rest(cb).subrange(
            crate::tape::run_end(rest(cb), 1, cb.depth + 1),
            rest(cb).len() as int,
        ),
    ensures
        cached && cb.depth < usize::MAX ==> (cb.hit(kind) <==> i < sib1.len() && sib1[i].kind == kind),
        cached && cb.depth < usize::MAX && cb.hit(kind) ==> child_id == sib1[i].node && i + 1 <= sib1.len()
            && sib_list(rest(ca), cb.depth as int) == sib1.subrange(i + 1, sib1.len() as int),
{
    let r = rest(cb);
    let d = cb.depth as int;
    if cached && cb.depth < usize::MAX {
        if r.len() > 0 {
            assert(r[0] == cb.entries@[cb.cursor as int]);
            crate::tape::lemma_run_end_bounds(r, 1, d + 1);
            if r[0].depth == d {
                let e = crate::tape::run_end(r, 1, d + 1);
                let tail = sib_list(r.subrange(e, r.len() as int), d);
                assert(sib_list(r, d) == seq![r[0]] + tail);
                assert(sib_list(r, d).len() > 0);
                assert(sib1.subrange(i, sib1.len() as int).len() > 0);
                assert(sib1.subrange(i, sib1.len() as int)[0] == sib1[i]);
                assert(sib1[i] == r[0]);
                if cb.hit(kind) {
                    assert(rest(ca) == r.subrange(e, r.len() as int));
                    assert(tail =~= sib_list(r, d).subrange(1, sib_list(r, d).len() as int));
                    assert(tail =~= sib1.subrange(i + 1, sib1.len() as int));
                }
            } else {
                assert(sib_list(r, d).len() == 0);
            }
        } else {
            assert(sib_list(r, d).len() == 0);
        }
    }
}

/// Replaces node `id` by `node` of the same kind.
fn replace_same_kind(cx: &BuildContext, tree: &mut RenderTree, id: NodeId, node: RenderNode)
    requires
        old(tree).wf(),
        consistent(*cx, *old(tree)),
        id < old(tree).nodes@.len(),
        node.kind_of() == old(tree).nodes@[id as int].kind_of(),
        node.wf_in(old(tree).nodes@.len()),
    ensures
        final(tree).wf(),
        final(tree).nodes@ == old(tree).nodes@.update(id as int, node),
        consistent(*cx, *final(tree)),
{
    tree.set_node(id, node);
}

/// Dropping the rest of a scope keeps the tape naming only nodes of the tree.
proof fn lemma_discard_keeps_consistency(cx: BuildContext, tree: RenderTree)
    requires
        cx.wf(),
        consistent(cx, tree),
    ensures
        forall|i: int|
            0 <= i < cx.without_scope_rest().len() ==> {
                &&& (#[trigger] cx.without_scope_rest()[i]).node < tree.nodes@.len()
                &&& tree.nodes@[cx.without_scope_rest()[i].node as int].kind_of()
                    == cx.without_scope_rest()[i].kind
            },
{
    let s = cx.entries@;
    crate::tape::lemma_run_end_bounds(s, cx.cursor as int, cx.depth as int);
    let e = crate::tape::run_end(s, cx.cursor as int, cx.depth as int);
    let w = cx.without_scope_rest();
    assert forall|i: int| 0 <= i < w.len() implies {
        &&& (#[trigger] w[i]).node < tree.nodes@.len()
        &&& tree.nodes@[w[i].node as int].kind_of() == w[i].kind
    } by {
        if i < cx.cursor {
            assert(w[i] == s[i]);
        } else {
            assert(w[i] == s[i - cx.cursor + e]);
        }
    }
}

} // verus!
