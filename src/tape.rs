use vstd::prelude::*;

use crate::node::NodeId;
use crate::registry::NodeKind;

verus! {

/// A node the previous frame produced: its kind, its id, and how deeply nested
/// the scope that produced it was.
#[derive(Clone, Copy, Debug, PartialEq, Eq, Structural)]
pub struct TapeEntry {
    pub kind: NodeKind,
    pub node: NodeId,
    pub depth: usize,
}

/// The first index from `from` on whose entry lies outside a scope of depth
/// `depth`, or the length: the end of the run that a scope owns.
pub open spec fn run_end(s: Seq<TapeEntry>, from: int, depth: int) -> int
    decreases s.len() - from,
{
    if from < 0 || from >= s.len() || s[from].depth < depth {
        from
    } else {
        run_end(s, from + 1, depth)
    }
}

pub proof fn lemma_run_end_bounds(s: Seq<TapeEntry>, from: int, depth: int)
    requires
        0 <= from <= s.len(),
    ensures
        from <= run_end(s, from, depth) <= s.len(),
        forall|j: int| from <= j < run_end(s, from, depth) ==> #[trigger] s[j].depth >= depth,
        run_end(s, from, depth) < s.len() ==> s[run_end(s, from, depth)].depth < depth,
    decreases s.len() - from,
{
    if from < s.len() && s[from].depth >= depth {
        lemma_run_end_bounds(s, from + 1, depth);
    }
}

/// The build cache: the previous frame's nodes in the order that frame produced
/// them, flattened over its nested scopes, with a cursor that this frame advances.
pub struct BuildContext {
    pub entries: Vec<TapeEntry>,
    pub cursor: usize,
    pub depth: usize,
    pub states: Vec<StateEntry>,
}

/// One piece of persistent state, keyed by its owner's stable key and a slot.
#[derive(Clone, Copy, Debug, PartialEq, Eq, Structural)]
pub struct StateEntry {
    pub key: u64,
    pub slot: u32,
    pub value: u64,
}

pub open spec fn state_lookup(s: Seq<StateEntry>, key: u64, slot: u32) -> Option<u64>
    decreases s.len(),
{
    if s.len() == 0 {
        None
    } else if s.last().key == key && s.last().slot == slot {
        Some(s.last().value)
    } else {
        state_lookup(s.drop_last(), key, slot)
    }
}

impl BuildContext {
    pub open spec fn wf(self) -> bool {
        self.cursor <= self.entries@.len()
    }

    /// The persistent state, by key and slot.
    pub closed spec fn states(self) -> Map<(u64, u32), u64> {
        Map::new(
            |k: (u64, u32)| state_lookup(self.states@, k.0, k.1).is_some(),
            |k: (u64, u32)| state_lookup(self.states@, k.0, k.1).unwrap(),
        )
    }

    /// Whether the entry at the cursor is of kind `kind` and of the current scope.
    pub open spec fn hit(self, kind: NodeKind) -> bool {
        &&& self.cursor < self.entries@.len()
        &&& self.entries@[self.cursor as int].depth == self.depth
        &&& self.entries@[self.cursor as int].kind == kind
    }

    /// The entries with the rest of the current scope, from the cursor on, taken out.
    pub open spec fn without_scope_rest(self) -> Seq<TapeEntry> {
        let s = self.entries@;
        s.subrange(0, self.cursor as int) + s.subrange(
            run_end(s, self.cursor as int, self.depth as int),
            s.len() as int,
        )
    }

    /// An empty cache with no state.
    pub fn new() -> (r: BuildContext)
        ensures
            r.wf(),
            r.entries@.len() == 0,
            r.cursor == 0,
            r.depth == 0,
            r.states() == Map::<(u64, u32), u64>::empty(),
    {
        let r = BuildContext { entries: Vec::new(), cursor: 0, depth: 0, states: Vec::new() };
        assert(r.states() =~= Map::<(u64, u32), u64>::empty());
        r
    }

    /// Starts a frame: the cursor goes back to the first entry.
    pub fn reset(&mut self)
        ensures
            final(self).wf(),
            final(self).entries@ == old(self).entries@,
            final(self).cursor == 0,
            final(self).depth == 0,
            final(self).states() == old(self).states(),
    {
        self.cursor = 0;
        self.depth = 0;
    }

    /// Ends a frame: entries the frame did not reach are dropped.
    pub fn finish(&mut self)
        requires
            old(self).wf(),
        ensures
            final(self).wf(),
            final(self).entries@ == old(self).entries@.subrange(0, old(self).cursor as int),
            final(self).cursor == old(self).cursor,
            final(self).depth == old(self).depth,
            final(self).states() == old(self).states(),
    {
        self.entries.truncate(self.cursor);
    }

    /// Opens a nested scope for a node's children.
    pub fn begin(&mut self)
        requires
            old(self).depth < usize::MAX,
        ensures
            final(self).entries@ == old(self).entries@,
            final(self).cursor == old(self).cursor,
            final(self).depth == old(self).depth + 1,
            final(self).states() == old(self).states(),
    {
        self.depth = self.depth + 1;
    }

    /// Closes the innermost scope: its entries that this frame did not reach are
    /// dropped, so that the enclosing scope continues after it.
    pub fn end(&mut self)
        requires
            old(self).wf(),
            old(self).depth > 0,
        ensures
            final(self).wf(),
            final(self).entries@ == old(self).without_scope_rest(),
            final(self).cursor == old(self).cursor,
            final(self).depth == old(self).depth - 1,
            final(self).states() == old(self).states(),
    {
        self.discard_scope_rest();
        self.depth = self.depth - 1;
    }

    fn discard_scope_rest(&mut self)
        requires
            old(self).wf(),
        ensures
            final(self).wf(),
            final(self).entries@ == old(self).without_scope_rest(),
            final(self).cursor == old(self).cursor,
            final(self).depth == old(self).depth,
            final(self).states@ == old(self).states@,
    {
        let ghost s = self.entries@;
        let mut end = self.cursor;
        proof {
            lemma_run_end_bounds(s, self.cursor as int, self.depth as int);
        }
        while end < self.entries.len() && self.entries[end].depth >= self.depth
            invariant
                self.entries@ == s,
                self.cursor <= end <= s.len(),
                run_end(s, self.cursor as int, self.depth as int) == run_end(
                    s,
                    end as int,
                    self.depth as int,
                ),
            decreases s.len() - end,
        {
            end = end + 1;
        }
        let mut tail = self.entries.split_off(end);
        self.entries.truncate(self.cursor);
        self.entries.append(&mut tail);
    }

    /// Looks for a node of kind `kind` at the cursor. On a hit the cursor moves
    /// past it and its id is returned. Otherwise the entry there and the rest of
    /// the current scope are dropped, and the caller is to build a new node and
    /// `record` it.
    pub fn reuse(&mut self, kind: NodeKind) -> (r: Option<NodeId>)
        requires
            old(self).wf(),
        ensures
            final(self).wf(),
            final(self).depth == old(self).depth,
            final(self).states() == old(self).states(),
            old(self).hit(kind) ==> r == Some(old(self).entries@[old(self).cursor as int].node)
                && final(self).entries@ == old(self).entries@ && final(self).cursor == old(
                self,
            ).cursor + 1,
            !old(self).hit(kind) ==> r.is_none() && final(self).entries@ == old(
                self,
            ).without_scope_rest() && final(self).cursor == old(self).cursor,
    {
        if self.cursor < self.entries.len() {
            let e = self.entries[self.cursor];
            if e.depth == self.depth && e.kind == kind {
                self.cursor = self.cursor + 1;
                return Some(e.node);
            }
        }
        self.discard_scope_rest();
        None
    }

    /// Records a node built at the cursor, and moves the cursor past it.
    pub fn record(&mut self, kind: NodeKind, node: NodeId)
        requires
            old(self).wf(),
        ensures
            final(self).wf(),
            final(self).entries@ == old(self).entries@.insert(
                old(self).cursor as int,
                TapeEntry { kind, node, depth: old(self).depth },
            ),
            final(self).cursor == old(self).cursor + 1,
            final(self).depth == old(self).depth,
            final(self).states() == old(self).states(),
    {
        self.entries.insert(self.cursor, TapeEntry { kind, node, depth: self.depth });
        let n = self.entries.len();
        assert(self.cursor < n);
        self.cursor = self.cursor + 1;
    }

    /// The state kept under `key` and `slot`; `init` is stored and returned the
    /// first time.
    pub fn state_slot(&mut self, key: u64, slot: u32, init: u64) -> (r: u64)
        ensures
            final(self).entries@ == old(self).entries@,
            final(self).cursor == old(self).cursor,
            final(self).depth == old(self).depth,
            old(self).states().contains_key((key, slot)) ==> r == old(self).states()[(key, slot)]
                && final(self).states() == old(self).states(),
            !old(self).states().contains_key((key, slot)) ==> r == init && final(self).states()
                == old(self).states().insert((key, slot), init),
    {
        match self.get_state(key, slot) {
            Some(v) => v,
            None => {
                self.set_state(key, slot, init);
                init
            },
        }
    }

    /// The state kept under `key` and slot zero.
    pub fn state(&mut self, key: u64, init: u64) -> (r: u64)
        ensures
            final(self).entries@ == old(self).entries@,
            final(self).cursor == old(self).cursor,
            final(self).depth == old(self).depth,
            old(self).states().contains_key((key, 0)) ==> r == old(self).states()[(key, 0u32)]
                && final(self).states() == old(self).states(),
            !old(self).states().contains_key((key, 0)) ==> r == init && final(self).states()
                == old(self).states().insert((key, 0u32), init),
    {
        self.state_slot(key, 0, init)
    }

    /// The state kept under `key` and `slot`, if any.
    pub fn get_state(&self, key: u64, slot: u32) -> (r: Option<u64>)
        ensures
            r == (if self.states().contains_key((key, slot)) {
                Some(self.states()[(key, slot)])
            } else {
                None
            }),
    {
        let mut i = self.states.len();
        assert(self.states@.subrange(0, i as int) =~= self.states@);
        while i > 0
            invariant
                i <= self.states@.len(),
                state_lookup(self.states@, key, slot) == state_lookup(
                    self.states@.subrange(0, i as int),
                    key,
                    slot,
                ),
            decreases i,
        {
            let e = self.states[i - 1];
            assert(self.states@.subrange(0, i as int).last() == e);
            if e.key == key && e.slot == slot {
                return Some(e.value);
            }
            assert(self.states@.subrange(0, i as int).drop_last() =~= self.states@.subrange(
                0,
                i - 1,
            ));
            i = i - 1;
        }
        None
    }

    /// Keeps `value` under `key` and `slot`.
    pub fn set_state(&mut self, key: u64, slot: u32, value: u64)
        ensures
            final(self).entries@ == old(self).entries@,
            final(self).cursor == old(self).cursor,
            final(self).depth == old(self).depth,
            final(self).states() == old(self).states().insert((key, slot), value),
    {
        let ghost before = self.states@;
        self.states.push(StateEntry { key, slot, value });
        proof {
            assert(self.states@.drop_last() =~= before);
            assert(self.states() =~= old(self).states().insert((key, slot), value));
        }
    }
}

/// A node recorded at the cursor is found again, with its id, by a later frame
/// that reaches the same position in the same scope with the tape unchanged.
pub proof fn lemma_recorded_node_is_reused(t: BuildContext, kind: NodeKind, node: NodeId, later: BuildContext)
    requires
        t.wf(),
        later.entries@ == t.entries@.insert(
            t.cursor as int,
            TapeEntry { kind, node, depth: t.depth },
        ),
        later.cursor == t.cursor,
        later.depth == t.depth,
    ensures
        later.hit(kind),
        later.entries@[later.cursor as int].node == node,
{
}

/// A kind that differs from the one cached at the cursor drops that entry and every
/// later entry of the same scope; the entries outside the scope's rest are kept in
/// order.
pub proof fn lemma_kind_change_discards_scope_rest(t: BuildContext, kind: NodeKind)
    requires
        t.wf(),
        t.cursor < t.entries@.len(),
        t.entries@[t.cursor as int].depth == t.depth,
        t.entries@[t.cursor as int].kind != kind,
    ensures
        !t.hit(kind),
        ({
            let e = run_end(t.entries@, t.cursor as int, t.depth as int);
            &&& t.cursor < e <= t.entries@.len()
            &&& forall|j: int| t.cursor <= j < e ==> #[trigger] t.entries@[j].depth >= t.depth
            &&& e < t.entries@.len() ==> t.entries@[e].depth < t.depth
            &&& t.without_scope_rest().len() == t.entries@.len() - (e - t.cursor)
            &&& t.without_scope_rest().subrange(0, t.cursor as int) == t.entries@.subrange(
                0,
                t.cursor as int,
            )
            &&& t.without_scope_rest().subrange(t.cursor as int, t.without_scope_rest().len() as int)
                == t.entries@.subrange(e, t.entries@.len() as int)
        }),
{
    let s = t.entries@;
    lemma_run_end_bounds(s, t.cursor as int, t.depth as int);
    let e = run_end(s, t.cursor as int, t.depth as int);
    assert(e == run_end(s, t.cursor + 1, t.depth as int));
    lemma_run_end_bounds(s, t.cursor + 1, t.depth as int);
    let w = t.without_scope_rest();
    assert(w.subrange(0, t.cursor as int) =~= s.subrange(0, t.cursor as int));
    assert(w.subrange(t.cursor as int, w.len() as int) =~= s.subrange(e, s.len() as int));
}

} // verus!
