use vstd::prelude::*;

verus! {

/// The kind of a constraints value that a layout can be asked to respect.
#[derive(Clone, Copy, Debug, PartialEq, Eq, Structural)]
pub enum ConstraintKind {
    Box,
    Sliver,
}

/// The concrete kind of a render node.
#[derive(Clone, Copy, Debug, PartialEq, Eq, Structural)]
pub enum NodeKind {
    View,
    ConstrainedBox,
    Image,
    Flex,
}

/// A layout implementation that the registry hands out for a pairing.
#[derive(Clone, Copy, Debug, PartialEq, Eq, Structural)]
pub enum LayoutHandler {
    BoxView,
    BoxConstrained,
    BoxImage,
    BoxFlex,
}

impl LayoutHandler {
    /// The node kind whose layout this handler performs.
    pub open spec fn target(self) -> NodeKind {
        match self {
            LayoutHandler::BoxView => NodeKind::View,
            LayoutHandler::BoxConstrained => NodeKind::ConstrainedBox,
            LayoutHandler::BoxImage => NodeKind::Image,
            LayoutHandler::BoxFlex => NodeKind::Flex,
        }
    }

    pub fn target_kind(&self) -> (r: NodeKind)
        ensures
            r == self.target(),
    {
        match self {
            LayoutHandler::BoxView => NodeKind::View,
            LayoutHandler::BoxConstrained => NodeKind::ConstrainedBox,
            LayoutHandler::BoxImage => NodeKind::Image,
            LayoutHandler::BoxFlex => NodeKind::Flex,
        }
    }
}

#[derive(Clone, Copy, Debug, PartialEq, Eq, Structural)]
pub struct RegistryEntry {
    pub constraint_kind: ConstraintKind,
    pub node_kind: NodeKind,
    pub handler: LayoutHandler,
}

/// The handler of the latest entry in `s` for the pairing, if any.
pub open spec fn lookup(s: Seq<RegistryEntry>, ck: ConstraintKind, nk: NodeKind) -> Option<
    LayoutHandler,
>
    decreases s.len(),
{
    if s.len() == 0 {
        None
    } else if s.last().constraint_kind == ck && s.last().node_kind == nk {
        Some(s.last().handler)
    } else {
        lookup(s.drop_last(), ck, nk)
    }
}

/// Maps each (constraint kind, node kind) pairing to the handler that lays such a
/// node out under such constraints. A later registration of a pairing replaces
/// the earlier one.
pub struct Registry {
    entries: Vec<RegistryEntry>,
}

impl View for Registry {
    type V = Map<(ConstraintKind, NodeKind), LayoutHandler>;

    closed spec fn view(&self) -> Self::V {
        Map::new(
            |k: (ConstraintKind, NodeKind)| lookup(self.entries@, k.0, k.1).is_some(),
            |k: (ConstraintKind, NodeKind)| lookup(self.entries@, k.0, k.1).unwrap(),
        )
    }
}

impl Registry {
    /// A registry with no pairing.
    pub fn new() -> (r: Registry)
        ensures
            r@ == Map::<(ConstraintKind, NodeKind), LayoutHandler>::empty(),
    {
        let r = Registry { entries: Vec::new() };
        assert(r@ =~= Map::<(ConstraintKind, NodeKind), LayoutHandler>::empty());
        r
    }

    /// Makes `handler` the layout for nodes of kind `nk` under constraints of kind `ck`.
    pub fn register(&mut self, ck: ConstraintKind, nk: NodeKind, handler: LayoutHandler)
        ensures
            final(self)@ == old(self)@.insert((ck, nk), handler),
    {
        let ghost before = self.entries@;
        self.entries.push(RegistryEntry { constraint_kind: ck, node_kind: nk, handler });
        proof {
            assert(self.entries@.drop_last() =~= before);
            assert(self@ =~= old(self)@.insert((ck, nk), handler));
        }
    }

    /// The handler registered for the pairing, if any.
    pub fn lookup(&self, ck: ConstraintKind, nk: NodeKind) -> (r: Option<LayoutHandler>)
        ensures
            r == (if self@.contains_key((ck, nk)) {
                Some(self@[(ck, nk)])
            } else {
                None
            }),
    {
        let mut i = self.entries.len();
        assert(self.entries@.subrange(0, i as int) =~= self.entries@);
        while i > 0
            invariant
                i <= self.entries@.len(),
                lookup(self.entries@, ck, nk) == lookup(self.entries@.subrange(0, i as int), ck, nk),
            decreases i,
        {
            let e = self.entries[i - 1];
            assert(self.entries@.subrange(0, i as int).last() == e);
            if e.constraint_kind == ck && e.node_kind == nk {
                return Some(e.handler);
            }
            assert(self.entries@.subrange(0, i as int).drop_last() =~= self.entries@.subrange(
                0,
                i - 1,
            ));
            i = i - 1;
        }
        None
    }
}

/// The registry that pairs box constraints with each node kind of this library.
pub fn initialize_registry() -> (r: Registry)
    ensures
        r@ == map![
            (ConstraintKind::Box, NodeKind::View) => LayoutHandler::BoxView,
            (ConstraintKind::Box, NodeKind::ConstrainedBox) => LayoutHandler::BoxConstrained,
            (ConstraintKind::Box, NodeKind::Image) => LayoutHandler::BoxImage,
            (ConstraintKind::Box, NodeKind::Flex) => LayoutHandler::BoxFlex,
        ],
{
    let mut r = Registry::new();
    r.register(ConstraintKind::Box, NodeKind::View, LayoutHandler::BoxView);
    r.register(ConstraintKind::Box, NodeKind::ConstrainedBox, LayoutHandler::BoxConstrained);
    r.register(ConstraintKind::Box, NodeKind::Image, LayoutHandler::BoxImage);
    r.register(ConstraintKind::Box, NodeKind::Flex, LayoutHandler::BoxFlex);
    assert(r@ =~= map![
        (ConstraintKind::Box, NodeKind::View) => LayoutHandler::BoxView,
        (ConstraintKind::Box, NodeKind::ConstrainedBox) => LayoutHandler::BoxConstrained,
        (ConstraintKind::Box, NodeKind::Image) => LayoutHandler::BoxImage,
        (ConstraintKind::Box, NodeKind::Flex) => LayoutHandler::BoxFlex,
    ]);
    r
}

} // verus!
