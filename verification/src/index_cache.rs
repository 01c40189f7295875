//! A frontier cache: the containers a scan has walked, with one resume point each.
//!
//! Caches the *containers* a scan has walked - not whole resolved paths - so a
//! later query that lands in a container already entered starts near the target
//! instead of at the container's open. Each [`ContainerNode`] holds an object
//! child-table (`name -> value_start`) plus a resume frontier; arrays keep a single
//! `(index, offset)` landmark. Nothing here stores source bytes: the burst-window
//! resident bound is untouched.
//!
//! Pure memoization over an immutable source - entries are never invalidated, only
//! evicted for memory (whole-node LRU under a children budget).

use vstd::prelude::*;

use crate::cache::{
    advance, find_member, law_table_keeps_its_cap, law_table_names_nothing_twice, lemma_place,
    lemma_place_is, lemma_written, lookup, merge_resume, merge_table, names_once, place,
    table_members, table_view, tabled, written, KeyView, NodeKey, Table,
};
use crate::path::{steps, Segment};
use crate::resolve::{member_marks, ContainerKind, MemberMark, ValueLocation};

verus! {

/// Per-container cap on tabled object members. A huge object doesn't get an
/// unbounded table; past the cap it stops tabling and keeps only the frontier, so
/// one giant container can't exhaust the global budget on its own.
pub const PER_CONTAINER_MEMBERS: usize = 256;

/// Resume landmark for a container: where a scan that re-enters it should pick up.
/// Object frontiers carry only the high-water member-start offset (member scanning
/// threads no carry); array frontiers carry the `(index, offset)` of the furthest
/// resolved element, to seed the comma popcount.
#[derive(Debug, Clone, Copy, PartialEq, Eq, Structural)]
pub enum Frontier {
    Object { offset: u64 },
    Array { index: usize, offset: u64 },
}

/// Just past a container's open.
pub open spec fn past_open(value_start: u64) -> u64 {
    if value_start < u64::MAX {
        (value_start + 1) as u64
    } else {
        u64::MAX
    }
}

/// Where a scan of a container that nothing is known of starts.
pub open spec fn fresh_frontier(kind: ContainerKind, value_start: u64) -> Frontier {
    match kind {
        ContainerKind::Object => Frontier::Object { offset: past_open(value_start) },
        ContainerKind::Array => Frontier::Array { index: 0, offset: past_open(value_start) },
    }
}

/// What a [`ContainerNode`] holds.
pub struct NodeView {
    pub kind: ContainerKind,
    pub value_start: u64,
    pub close: Option<u64>,
    pub child_count: Option<u64>,
    pub members: Table,
    pub frontier: Frontier,
    pub last_used: u64,
}

impl NodeView {
    /// Weight toward the budget: one slot for the node plus one per tabled member.
    pub open spec fn weight(self) -> nat {
        1 + self.members.len()
    }

    /// The node with an object scan merged into it. A frontier that an array scan
    /// left is dropped: the scan counts from the container's open.
    pub open spec fn with_object(
        self,
        value_start: u64,
        new: Seq<MemberMark>,
        terminal: Option<u64>,
        cap: nat,
    ) -> NodeView {
        let from = match self.frontier {
            Frontier::Object { offset } => offset,
            Frontier::Array { .. } => past_open(value_start),
        };
        let (table, frozen) = merge_table(self.members, new, cap);
        NodeView {
            members: table,
            frontier: Frontier::Object { offset: merge_resume(from, frozen, new, terminal) },
            ..self
        }
    }

    /// The node with an array scan merged into it: its landmark moves to an index
    /// that is no lower.
    pub open spec fn with_array(self, landmark: Option<(usize, u64)>) -> NodeView {
        match landmark {
            Some((index, offset)) => {
                let ahead = match self.frontier {
                    Frontier::Array { index: current, .. } => index >= current,
                    Frontier::Object { .. } => true,
                };
                if ahead {
                    NodeView { frontier: Frontier::Array { index, offset }, ..self }
                } else {
                    self
                }
            },
            None => self,
        }
    }
}

/// A node that knows nothing yet.
pub open spec fn fresh_node(kind: ContainerKind, value_start: u64, last_used: u64) -> NodeView {
    NodeView {
        kind,
        value_start,
        close: None,
        child_count: None,
        members: Seq::empty(),
        frontier: fresh_frontier(kind, value_start),
        last_used,
    }
}

/// A walked container: the offsets of the children seen so far, the scalars learned
/// about it, and a resume point. `members` is empty for arrays.
#[derive(Debug)]
pub struct ContainerNode {
    kind: ContainerKind,
    value_start: u64,
    close: Option<u64>,
    child_count: Option<u64>,
    /// Object members `name -> value_start`, for every member in `[open, frontier]`
    /// up to the per-container cap. A flat vec: containers are small or capped, so
    /// linear lookup is cheaper than a hash map's per-entry overhead.
    members: Vec<(String, u64)>,
    frontier: Frontier,
    last_used: u64,
}

impl View for ContainerNode {
    type V = NodeView;

    closed spec fn view(&self) -> NodeView {
        NodeView {
            kind: self.kind,
            value_start: self.value_start,
            close: self.close,
            child_count: self.child_count,
            members: table_view(self.members@),
            frontier: self.frontier,
            last_used: self.last_used,
        }
    }
}

impl ContainerNode {
    fn new(kind: ContainerKind, value_start: u64, tick: u64) -> (n: Self)
        ensures
            n@ == fresh_node(kind, value_start, tick),
    {
        let offset: u64 = value_start.saturating_add(1);
        let frontier = match kind {
            ContainerKind::Object => Frontier::Object { offset },
            ContainerKind::Array => Frontier::Array { index: 0, offset },
        };
        let n = ContainerNode {
            kind,
            value_start,
            close: None,
            child_count: None,
            members: Vec::new(),
            frontier,
            last_used: tick,
        };
        assert(n@.members =~= Seq::empty());
        n
    }

    pub fn kind(&self) -> (k: ContainerKind)
        ensures
            k == self@.kind,
    {
        self.kind
    }

    pub fn child_count(&self) -> (n: Option<u64>)
        ensures
            n == self@.child_count,
    {
        self.child_count
    }

    pub fn frontier(&self) -> (f: Frontier)
        ensures
            f == self@.frontier,
    {
        self.frontier
    }

    /// `value_start` of a tabled member, or `None` if not in the table.
    pub fn member(&self, name: &str) -> (r: Option<u64>)
        ensures
            r == tabled(self@.members, name@),
    {
        find_member(&self.members, name)
    }

    /// How many members are tabled.
    pub fn member_count(&self) -> (n: usize)
        ensures
            n == self@.members.len(),
    {
        self.members.len()
    }

    /// The container's full `[start, end)` once its close is known.
    pub fn location(&self) -> (r: Option<ValueLocation>)
        ensures
            r == (match self@.close {
                Some(end) => Some(ValueLocation { start: self@.value_start, end }),
                None => None,
            }),
    {
        match self.close {
            Some(end) => Some(ValueLocation { start: self.value_start, end }),
            None => None,
        }
    }

    /// Weight toward the global budget: one slot for the node itself plus one per
    /// tabled child offset.
    fn weight(&self) -> (n: u128)
        ensures
            n == self@.weight(),
            n <= usize::MAX + 1,
    {
        1 + self.members.len() as u128
    }

    fn merge_object(
        &mut self,
        value_start: u64,
        new: &[(String, u64, u64)],
        terminal: Option<u64>,
        cap: usize,
    )
        ensures
            final(self)@ == old(self)@.with_object(
                value_start,
                member_marks(new@),
                terminal,
                cap as nat,
            ),
    {
        let from: u64 = match self.frontier {
            Frontier::Object { offset } => offset,
            Frontier::Array { .. } => value_start.saturating_add(1),
        };
        let frozen: Option<u64> = table_members(&mut self.members, new, cap);
        self.frontier = Frontier::Object { offset: advance(from, frozen, new, terminal) };
    }

    fn merge_array(&mut self, landmark: Option<(usize, u64)>)
        ensures
            final(self)@ == old(self)@.with_array(landmark),
    {
        if let Some((index, offset)) = landmark {
            let ahead: bool = match self.frontier {
                Frontier::Array { index: current, .. } => index >= current,
                Frontier::Object { .. } => true,
            };
            if ahead {
                self.frontier = Frontier::Array { index, offset };
            }
        }
    }
}

/// What a write does to a node.
enum Change<'a> {
    Object { members: &'a [(String, u64, u64)], terminal: Option<u64>, cap: usize },
    Array(Option<(usize, u64)>),
    Close(u64),
    Count(u64),
}

impl NodeView {
    /// The node after a write.
    closed spec fn changed(self, value_start: u64, change: Change) -> NodeView {
        match change {
            Change::Object { members, terminal, cap } => self.with_object(
                value_start,
                member_marks(members@),
                terminal,
                cap as nat,
            ),
            Change::Array(landmark) => self.with_array(landmark),
            Change::Close(at) => NodeView { close: Some(at), ..self },
            Change::Count(n) => NodeView { child_count: Some(n), ..self },
        }
    }
}

impl ContainerNode {
    fn apply(&mut self, value_start: u64, change: Change)
        ensures
            final(self)@ == old(self)@.changed(value_start, change),
    {
        match change {
            Change::Object { members, terminal, cap } => self.merge_object(
                value_start,
                members,
                terminal,
                cap,
            ),
            Change::Array(landmark) => self.merge_array(landmark),
            Change::Close(at) => self.close = Some(at),
            Change::Count(n) => self.child_count = Some(n),
        }
    }
}

// ---- the cache

/// The nodes of a cache, each with its key.
pub type Nodes = Seq<(KeyView, NodeView)>;

/// The slots that nodes take up together.
pub open spec fn weights(nodes: Nodes) -> nat
    decreases nodes.len(),
{
    if nodes.len() == 0 {
        0
    } else {
        weights(nodes.drop_last()) + nodes.last().1.weight()
    }
}

/// The place of the node that was used least recently among the first `n`.
pub open spec fn stalest(nodes: Nodes, n: int) -> int
    decreases n,
{
    if n <= 1 {
        0
    } else {
        let best = stalest(nodes, n - 1);
        if nodes[n - 1].1.last_used < nodes[best].1.last_used {
            n - 1
        } else {
            best
        }
    }
}

/// The nodes once enough are evicted, one after the other, to keep the budget.
pub open spec fn trimmed(nodes: Nodes, budget: nat) -> Nodes
    decreases nodes.len(),
{
    if weights(nodes) <= budget || nodes.len() == 0 {
        nodes
    } else {
        proof {
            lemma_stalest(nodes, nodes.len() as int);
        }
        trimmed(nodes.remove(stalest(nodes, nodes.len() as int)), budget)
    }
}

/// What an [`IndexCache`] holds.
pub struct CacheView {
    pub budget: nat,
    pub tick: nat,
    pub nodes: Nodes,
}

impl CacheView {
    /// What every node of the cache keeps: it was used no later than the clock says,
    /// and its table names nothing twice and holds no more than it may.
    pub open spec fn keeps(self, node: NodeView) -> bool {
        &&& node.last_used <= self.tick
        &&& names_once(node.members)
        &&& node.members.len() <= self.table_cap()
    }

    /// No key occurs twice, each node keeps what nodes keep, and they all keep within
    /// the budget.
    pub open spec fn wf(self) -> bool {
        &&& forall|i: int, j: int|
            0 <= i < j < self.nodes.len() ==> self.nodes[i].0 != self.nodes[j].0
        &&& forall|i: int| 0 <= i < self.nodes.len() ==> self.keeps((#[trigger] self.nodes[i]).1)
        &&& weights(self.nodes) <= self.budget
    }

    /// Most members that a table holds.
    pub open spec fn table_cap(self) -> nat {
        if self.budget < PER_CONTAINER_MEMBERS {
            self.budget
        } else {
            PER_CONTAINER_MEMBERS as nat
        }
    }

    /// The node that a write to a key starts from.
    pub open spec fn before_write(
        self,
        key: KeyView,
        kind: ContainerKind,
        value_start: u64,
    ) -> NodeView {
        match lookup(self.nodes, key) {
            Some(node) => node,
            None => fresh_node(kind, value_start, (self.tick + 1) as u64),
        }
    }

    /// The cache after a write to the node of a key, which is made if it is not
    /// there: `node` is what the write turns it into.
    pub open spec fn after_write(self, key: KeyView, node: NodeView) -> CacheView {
        if self.budget == 0 {
            self
        } else {
            CacheView {
                tick: self.tick + 1,
                nodes: trimmed(
                    written(
                        self.nodes,
                        key,
                        NodeView { last_used: (self.tick + 1) as u64, ..node },
                    ),
                    self.budget,
                ),
                ..self
            }
        }
    }

    /// The cache after a touch of the node of a key.
    pub open spec fn touched(self, key: KeyView) -> CacheView {
        let i = place(self.nodes, key);
        CacheView {
            tick: self.tick + 1,
            nodes: if i < self.nodes.len() {
                self.nodes.update(
                    i,
                    (
                        self.nodes[i].0,
                        NodeView { last_used: (self.tick + 1) as u64, ..self.nodes[i].1 },
                    ),
                )
            } else {
                self.nodes
            },
            ..self
        }
    }
}

pub proof fn lemma_weights_update(nodes: Nodes, i: int, x: (KeyView, NodeView))
    requires
        0 <= i < nodes.len(),
    ensures
        weights(nodes.update(i, x)) == weights(nodes) - nodes[i].1.weight() + x.1.weight(),
        weights(nodes) >= nodes[i].1.weight(),
    decreases nodes.len(),
{
    let after = nodes.update(i, x);
    if i < nodes.len() - 1 {
        lemma_weights_update(nodes.drop_last(), i, x);
        assert(after.drop_last() =~= nodes.drop_last().update(i, x));
    } else {
        assert(after.drop_last() =~= nodes.drop_last());
    }
}

proof fn lemma_weights_remove(nodes: Nodes, i: int)
    requires
        0 <= i < nodes.len(),
    ensures
        weights(nodes.remove(i)) == weights(nodes) - nodes[i].1.weight(),
    decreases nodes.len(),
{
    let after = nodes.remove(i);
    if i < nodes.len() - 1 {
        lemma_weights_remove(nodes.drop_last(), i);
        assert(after.drop_last() =~= nodes.drop_last().remove(i));
        assert(after.last() == nodes.last());
    } else {
        assert(after =~= nodes.drop_last());
    }
}

pub proof fn lemma_weights_push(nodes: Nodes, x: (KeyView, NodeView))
    ensures
        weights(nodes.push(x)) == weights(nodes) + x.1.weight(),
{
    assert(nodes.push(x).drop_last() =~= nodes);
}

/// The stalest node is a node, and none of those looked at was used before it.
pub proof fn lemma_stalest(nodes: Nodes, n: int)
    requires
        0 < n <= nodes.len(),
    ensures
        0 <= stalest(nodes, n) < n,
        forall|i: int|
            0 <= i < n ==> (#[trigger] nodes[i]).1.last_used >= nodes[stalest(
                nodes,
                n,
            )].1.last_used,
    decreases n,
{
    if n > 1 {
        lemma_stalest(nodes, n - 1);
    }
}

/// Evicting leaves a part of the nodes, within the budget.
proof fn lemma_trimmed(nodes: Nodes, budget: nat)
    ensures
        weights(trimmed(nodes, budget)) <= budget,
        forall|i: int|
            0 <= i < trimmed(nodes, budget).len() ==> nodes.contains(
                #[trigger] trimmed(nodes, budget)[i],
            ),
        (forall|i: int, j: int| 0 <= i < j < nodes.len() ==> nodes[i].0 != nodes[j].0) ==> (forall|
            i: int,
            j: int,
        |
            0 <= i < j < trimmed(nodes, budget).len() ==> trimmed(nodes, budget)[i].0 != trimmed(
                nodes,
                budget,
            )[j].0),
    decreases nodes.len(),
{
    if weights(nodes) <= budget || nodes.len() == 0 {
    } else {
        let n = nodes.len() as int;
        lemma_stalest(nodes, n);
        let v = stalest(nodes, n);
        let rest = nodes.remove(v);
        lemma_trimmed(rest, budget);
        let out = trimmed(nodes, budget);
        assert(out == trimmed(rest, budget));
        assert forall|i: int| 0 <= i < out.len() implies nodes.contains(#[trigger] out[i]) by {
            assert(rest.contains(out[i]));
            let k = choose|k: int| 0 <= k < rest.len() && rest[k] == out[i];
            assert(rest[k] == nodes[if k < v {
                k
            } else {
                k + 1
            }]);
        }
        if forall|i: int, j: int| 0 <= i < j < nodes.len() ==> nodes[i].0 != nodes[j].0 {
            assert forall|i: int, j: int| 0 <= i < j < rest.len() implies rest[i].0
                != rest[j].0 by {
                assert(rest[i] == nodes[if i < v {
                    i
                } else {
                    i + 1
                }]);
                assert(rest[j] == nodes[if j < v {
                    j
                } else {
                    j + 1
                }]);
            }
        }
    }
}

/// The nodes that a list of entries holds.
pub open spec fn nodes_view(nodes: Seq<(NodeKey, ContainerNode)>) -> Nodes {
    nodes.map_values(|e: (NodeKey, ContainerNode)| (e.0@, e.1@))
}

/// A flat map of container nodes keyed by `(anchor, path)`, so eviction is
/// per-container with no tree-orphaning.
pub struct IndexCache {
    /// Max combined slots (`held`); `0` disables the cache entirely.
    budget: usize,
    /// Current combined slots across all nodes (`sum(1 + members.len())`).
    held: u128,
    /// Monotonic recency clock; the largest value is the most-recently-used.
    tick: u64,
    nodes: Vec<(NodeKey, ContainerNode)>,
}

impl View for IndexCache {
    type V = CacheView;

    closed spec fn view(&self) -> CacheView {
        CacheView {
            budget: self.budget as nat,
            tick: self.tick as nat,
            nodes: nodes_view(self.nodes@),
        }
    }
}

impl IndexCache {
    /// The view is well-formed, and the slots are counted.
    pub closed spec fn wf(&self) -> bool {
        &&& self@.wf()
        &&& self.held == weights(self@.nodes)
    }

    /// What a well-formed cache shows is well-formed.
    pub proof fn lemma_wf(&self)
        requires
            self.wf(),
        ensures
            self@.wf(),
            self@.budget <= usize::MAX,
            self@.tick <= u64::MAX,
    {
    }

    pub fn new(budget: usize) -> (c: Self)
        ensures
            c.wf(),
            c@ == (CacheView { budget: budget as nat, tick: 0, nodes: Seq::empty() }),
    {
        let c = IndexCache { budget, held: 0, tick: 0, nodes: Vec::new() };
        assert(c@.nodes =~= Seq::empty());
        c
    }

    pub fn is_enabled(&self) -> (r: bool)
        ensures
            r == (self@.budget > 0),
    {
        self.budget > 0
    }

    /// Where the node of a key is.
    fn find(&self, anchor: u64, path: &[Segment]) -> (r: Option<usize>)
        ensures
            ({
                let p = place(self@.nodes, (anchor, steps(path@)));
                match r {
                    Some(i) => i == p && i < self.nodes@.len(),
                    None => p == self@.nodes.len(),
                }
            }),
            self@.nodes.len() == self.nodes@.len(),
    {
        let ghost key = (anchor, steps(path@));
        let mut i: usize = 0;
        while i < self.nodes.len()
            invariant
                i <= self.nodes@.len(),
                key == (anchor, steps(path@)),
                forall|k: int| 0 <= k < i ==> (#[trigger] self@.nodes[k]).0 != key,
            decreases self.nodes@.len() - i,
        {
            if self.nodes[i].0.names(anchor, path) {
                proof {
                    assert(self@.nodes[i as int].0 == key);
                    lemma_place_is(self@.nodes, key, i as int);
                }
                return Some(i);
            }
            i = i + 1;
        }
        proof {
            lemma_place_is(self@.nodes, key, i as int);
        }
        None
    }

    pub fn get(&self, anchor: u64, path: &[Segment]) -> (r: Option<&ContainerNode>)
        ensures
            match r {
                Some(node) => lookup(self@.nodes, (anchor, steps(path@))) == Some(node@),
                None => lookup(self@.nodes, (anchor, steps(path@))) is None,
            },
    {
        match self.find(anchor, path) {
            Some(i) => {
                assert(self@.nodes[i as int].1 == self.nodes@[i as int].1@);
                Some(&self.nodes[i].1)
            },
            None => None,
        }
    }

    /// Note that the node at `i` was used.
    fn mark_used(&mut self, i: usize)
        requires
            old(self).wf(),
            old(self)@.tick < u64::MAX,
            i < old(self)@.nodes.len(),
        ensures
            final(self).wf(),
            final(self)@ == (CacheView {
                tick: old(self)@.tick + 1,
                nodes: old(self)@.nodes.update(
                    i as int,
                    (
                        old(self)@.nodes[i as int].0,
                        NodeView {
                            last_used: (old(self)@.tick + 1) as u64,
                            ..old(self)@.nodes[i as int].1
                        },
                    ),
                ),
                ..old(self)@
            }),
    {
        let ghost before = self@;
        self.tick = self.tick + 1;
        let tick: u64 = self.tick;
        let ghost at = before.nodes[i as int];
        assert(at == (self.nodes@[i as int].0@, self.nodes@[i as int].1@));
        let entry = &mut self.nodes[i];
        entry.1.last_used = tick;
        proof {
            let x = (at.0, NodeView { last_used: tick, ..at.1 });
            assert(self@.nodes =~= before.nodes.update(i as int, x));
            assert(before.keeps(at.1));
            lemma_weights_update(before.nodes, i as int, x);
        }
    }

    /// Bump a node's recency on a cache hit so hot shallow containers persist.
    pub fn touch(&mut self, anchor: u64, path: &[Segment])
        requires
            old(self).wf(),
            old(self)@.tick < u64::MAX,
        ensures
            final(self).wf(),
            final(self)@ == old(self)@.touched((anchor, steps(path@))),
    {
        match self.find(anchor, path) {
            Some(i) => self.mark_used(i),
            None => {
                self.tick = self.tick + 1;
            },
        }
    }

    /// The place of the node of a key, which is made if it is not there. Its recency
    /// is the next tick.
    fn open_write(
        &mut self,
        anchor: u64,
        path: &[Segment],
        kind: ContainerKind,
        value_start: u64,
    ) -> (i: usize)
        requires
            old(self).wf(),
            old(self)@.tick < u64::MAX,
        ensures
            final(self).held == weights(final(self)@.nodes),
            weights(final(self)@.nodes) <= weights(old(self)@.nodes) + 1,
            ({
                let key = (anchor, steps(path@));
                let node = old(self)@.before_write(key, kind, value_start);
                &&& i == place(old(self)@.nodes, key)
                &&& i < final(self)@.nodes.len()
                &&& final(self)@ == (CacheView {
                    tick: old(self)@.tick + 1,
                    nodes: written(
                        old(self)@.nodes,
                        key,
                        NodeView { last_used: (old(self)@.tick + 1) as u64, ..node },
                    ),
                    ..old(self)@
                })
            }),
    {
        let ghost before = self@;
        let ghost key = (anchor, steps(path@));
        let ghost node = before.before_write(key, kind, value_start);
        proof {
            lemma_place(before.nodes, key);
        }
        match self.find(anchor, path) {
            Some(i) => {
                self.mark_used(i);
                proof {
                    let x = (key, NodeView { last_used: (before.tick + 1) as u64, ..node });
                    lemma_weights_update(before.nodes, i as int, x);
                    assert(self@.nodes =~= written(before.nodes, key, x.1));
                }
                i
            },
            None => {
                self.tick = self.tick + 1;
                let i: usize = self.nodes.len();
                let fresh = ContainerNode::new(kind, value_start, self.tick);
                self.nodes.push((NodeKey::new(anchor, path), fresh));
                self.held = self.held + 1;
                proof {
                    let x = (key, NodeView { last_used: (before.tick + 1) as u64, ..node });
                    assert(x.1 == node);
                    assert(self@.nodes =~= before.nodes.push(x));
                    lemma_weights_push(before.nodes, x);
                    assert(x.1.weight() == 1);
                    assert(self@.nodes[i as int] == x);
                }
                i
            },
        }
    }

    /// Write back an object scan: merge the members seen (in scan order) up to the
    /// per-container cap, then advance the frontier to the high-water resume point
    /// (`terminal` = the matched member's start, or the close position). If the cap is
    /// hit, the frontier freezes at the first un-tabled member so every member before
    /// it stays tabled - the resume-correctness invariant.
    pub fn record_object_scan(
        &mut self,
        anchor: u64,
        path: &[Segment],
        value_start: u64,
        members: &[(String, u64, u64)],
        terminal: Option<u64>,
    )
        requires
            old(self).wf(),
            old(self)@.tick < u64::MAX,
        ensures
            final(self).wf(),
            ({
                let key = (anchor, steps(path@));
                final(self)@ == old(self)@.after_write(
                    key,
                    old(self)@.before_write(key, ContainerKind::Object, value_start).with_object(
                        value_start,
                        member_marks(members@),
                        terminal,
                        old(self)@.table_cap(),
                    ),
                )
            }),
    {
        if !self.is_enabled() {
            return;
        }
        let cap: usize = if self.budget < PER_CONTAINER_MEMBERS {
            self.budget
        } else {
            PER_CONTAINER_MEMBERS
        };
        let change = Change::Object { members, terminal, cap };
        self.write(anchor, path, ContainerKind::Object, value_start, change);
    }

    /// Write back an array scan: advance the single `(index, offset)` frontier
    /// landmark forward (a query for an earlier index never rewinds it).
    pub fn record_array_scan(
        &mut self,
        anchor: u64,
        path: &[Segment],
        value_start: u64,
        frontier: Option<(usize, u64)>,
    )
        requires
            old(self).wf(),
            old(self)@.tick < u64::MAX,
        ensures
            final(self).wf(),
            ({
                let key = (anchor, steps(path@));
                final(self)@ == old(self)@.after_write(
                    key,
                    old(self)@.before_write(key, ContainerKind::Array, value_start).with_array(
                        frontier,
                    ),
                )
            }),
    {
        if !self.is_enabled() {
            return;
        }
        self.write(anchor, path, ContainerKind::Array, value_start, Change::Array(frontier));
    }

    /// Record a container's matching-close offset (`}`/`]` + 1).
    pub fn record_close(
        &mut self,
        anchor: u64,
        path: &[Segment],
        kind: ContainerKind,
        value_start: u64,
        close: u64,
    )
        requires
            old(self).wf(),
            old(self)@.tick < u64::MAX,
        ensures
            final(self).wf(),
            ({
                let key = (anchor, steps(path@));
                let node = old(self)@.before_write(key, kind, value_start);
                final(self)@ == old(self)@.after_write(
                    key,
                    (NodeView { close: Some(close), ..node }),
                )
            }),
    {
        if !self.is_enabled() {
            return;
        }
        self.write(anchor, path, kind, value_start, Change::Close(close));
    }

    /// Record a container's child count.
    pub fn record_child_count(
        &mut self,
        anchor: u64,
        path: &[Segment],
        kind: ContainerKind,
        value_start: u64,
        count: u64,
    )
        requires
            old(self).wf(),
            old(self)@.tick < u64::MAX,
        ensures
            final(self).wf(),
            ({
                let key = (anchor, steps(path@));
                let node = old(self)@.before_write(key, kind, value_start);
                final(self)@ == old(self)@.after_write(
                    key,
                    (NodeView { child_count: Some(count), ..node }),
                )
            }),
    {
        if !self.is_enabled() {
            return;
        }
        self.write(anchor, path, kind, value_start, Change::Count(count));
    }

    /// Write to the node of a key, which is made if it is not there, and keep the
    /// budget.
    fn write(
        &mut self,
        anchor: u64,
        path: &[Segment],
        kind: ContainerKind,
        value_start: u64,
        change: Change,
    )
        requires
            old(self).wf(),
            old(self)@.tick < u64::MAX,
            old(self)@.budget > 0,
            match change {
                Change::Object { members, terminal, cap } => cap == old(self)@.table_cap(),
                _ => true,
            },
        ensures
            final(self).wf(),
            ({
                let key = (anchor, steps(path@));
                final(self)@ == old(self)@.after_write(
                    key,
                    old(self)@.before_write(key, kind, value_start).changed(value_start, change),
                )
            }),
    {
        let ghost before = self@;
        let ghost key = (anchor, steps(path@));
        let i: usize = self.open_write(anchor, path, kind, value_start);
        let ghost open = self@;
        let ghost what = change;
        let was: u128 = self.weight_at(i);
        {
            let entry = &mut self.nodes[i];
            entry.1.apply(value_start, change);
        }
        let ghost node = open.nodes[i as int].1.changed(value_start, change);
        proof {
            lemma_place(before.nodes, key);
            let x = (key, node);
            assert(self@.nodes =~= open.nodes.update(i as int, x));
            lemma_weights_update(open.nodes, i as int, x);
            let made = before.before_write(key, kind, value_start).changed(value_start, change);
            assert(node == (NodeView { last_used: (before.tick + 1) as u64, ..made }));
            assert(self@.nodes =~= written(before.nodes, key, node));
            lemma_written(before.nodes, key, node);
            assert(before.keeps(before.before_write(key, kind, value_start)) || lookup(
                before.nodes,
                key,
            ) is None);
            if let Change::Object { members, terminal, cap } = what {
                let table = before.before_write(key, kind, value_start).members;
                law_table_names_nothing_twice(table, member_marks(members@), cap as nat);
                law_table_keeps_its_cap(table, member_marks(members@), cap as nat);
            }
            assert(self@.keeps(node));
            assert forall|k: int| 0 <= k < self@.nodes.len() implies self@.keeps(
                (#[trigger] self@.nodes[k]).1,
            ) by {
                let x = self@.nodes[k];
                assert(x == (key, node) || before.nodes.contains(x));
            }
        }
        let now: u128 = self.weight_at(i);
        self.held = self.held - was + now;
        self.evict_to_budget();
    }

    fn weight_at(&self, i: usize) -> (n: u128)
        requires
            i < self@.nodes.len(),
        ensures
            n == self@.nodes[i as int].1.weight(),
            n <= usize::MAX + 1,
    {
        assert(self@.nodes[i as int].1 == self.nodes@[i as int].1@);
        self.nodes[i].1.weight()
    }

    /// Evict least-recently-used whole nodes until the budget holds. Children go with
    /// their node (no orphaning); freshly-written nodes carry the highest tick and
    /// survive over stale ones.
    fn evict_to_budget(&mut self)
        requires
            old(self).held == weights(old(self)@.nodes),
            forall|i: int, j: int|
                0 <= i < j < old(self)@.nodes.len() ==> old(self)@.nodes[i].0
                    != old(self)@.nodes[j].0,
            forall|i: int|
                0 <= i < old(self)@.nodes.len() ==> old(self)@.keeps(
                    (#[trigger] old(self)@.nodes[i]).1,
                ),
        ensures
            final(self).wf(),
            final(self)@ == (CacheView {
                nodes: trimmed(old(self)@.nodes, old(self)@.budget),
                ..old(self)@
            }),
    {
        let ghost before = self@;
        proof {
            lemma_trimmed(before.nodes, before.budget);
        }
        while self.held > self.budget as u128 && self.nodes.len() > 0
            invariant
                self.held == weights(self@.nodes),
                trimmed(self@.nodes, before.budget) == trimmed(before.nodes, before.budget),
                self@ == (CacheView { nodes: self@.nodes, ..before }),
            decreases self.nodes@.len(),
        {
            let ghost at = self@.nodes;
            let v: usize = self.first_victim();
            proof {
                lemma_stalest(at, at.len() as int);
                lemma_weights_remove(at, v as int);
                lemma_weights_update(at, v as int, at[v as int]);
            }
            let weight: u128 = self.weight_at(v);
            self.nodes.remove(v);
            self.held = self.held - weight;
            assert(self@.nodes =~= at.remove(v as int));
        }
        assert(self@.nodes == trimmed(before.nodes, before.budget)) by {
            if self@.nodes.len() == 0 {
                assert(weights(self@.nodes) == 0);
            }
        }
        assert forall|i: int| 0 <= i < self@.nodes.len() implies self@.keeps(
            (#[trigger] self@.nodes[i]).1,
        ) by {
            assert(before.nodes.contains(self@.nodes[i]));
        }
    }

    /// The place of the node that was used least recently.
    fn first_victim(&self) -> (v: usize)
        requires
            self.nodes@.len() > 0,
        ensures
            v == stalest(self@.nodes, self@.nodes.len() as int),
            v < self.nodes@.len(),
    {
        let mut best: usize = 0;
        let mut n: usize = 1;
        while n < self.nodes.len()
            invariant
                0 < n <= self.nodes@.len(),
                best < n,
                best == stalest(self@.nodes, n as int),
            decreases self.nodes@.len() - n,
        {
            let a: &ContainerNode = &self.nodes[n].1;
            let b: &ContainerNode = &self.nodes[best].1;
            assert(self@.nodes[n as int].1 == a@);
            assert(self@.nodes[best as int].1 == b@);
            if a.last_used < b.last_used {
                best = n;
            }
            n = n + 1;
        }
        best
    }

    /// The combined slots across all nodes.
    pub fn held(&self) -> (n: usize)
        requires
            self.wf(),
        ensures
            n == weights(self@.nodes),
            n <= self@.budget,
    {
        self.held as usize
    }

    pub fn node_count(&self) -> (n: usize)
        ensures
            n == self@.nodes.len(),
    {
        self.nodes.len()
    }

    /// Recompute `held` from scratch: the incremental accounting matches the actual
    /// node weights.
    pub fn recomputed_held(&self) -> (n: usize)
        requires
            self.wf(),
        ensures
            n == weights(self@.nodes),
    {
        let mut total: u128 = 0;
        let mut i: usize = 0;
        assert(self@.nodes.take(0) =~= Seq::empty());
        while i < self.nodes.len()
            invariant
                i <= self.nodes@.len(),
                total == weights(self@.nodes.take(i as int)),
                total <= i * (usize::MAX + 1),
            decreases self.nodes@.len() - i,
        {
            let w: u128 = self.weight_at(i);
            proof {
                let up = self@.nodes.take(i + 1);
                assert(up.drop_last() =~= self@.nodes.take(i as int));
                assert(up.last() == self@.nodes[i as int]);
                assert((i + 1) * (usize::MAX + 1) == i * (usize::MAX + 1) + (usize::MAX + 1))
                    by (nonlinear_arith);
                assert((i + 1) * (usize::MAX + 1) <= (usize::MAX + 1) * (usize::MAX + 1))
                    by (nonlinear_arith)
                    requires
                        i + 1 <= usize::MAX + 1,
                ;
                assert((usize::MAX + 1) * (usize::MAX + 1) <= u128::MAX + 1) by (nonlinear_arith)
                    requires
                        usize::MAX <= u64::MAX,
                ;
            }
            if i == 0 {
                total = w;
            } else {
                total = total + w;
            }
            i = i + 1;
        }
        assert(self@.nodes.take(i as int) =~= self@.nodes);
        total as usize
    }
}

// ---- laws

/// A cache without a budget records nothing.
pub proof fn law_no_budget_records_nothing(cache: CacheView, key: KeyView, node: NodeView)
    requires
        cache.budget == 0,
    ensures
        cache.after_write(key, node) == cache,
{
}

/// Whatever is written, the nodes keep within the budget, and none is there that
/// was not there before the write but the one written.
pub proof fn law_budget_is_kept(cache: CacheView, key: KeyView, node: NodeView)
    requires
        cache.wf(),
        names_once(node.members),
        node.members.len() <= cache.table_cap(),
    ensures
        cache.after_write(key, node).wf(),
        forall|i: int|
            0 <= i < cache.after_write(key, node).nodes.len() ==> {
                let x = #[trigger] cache.after_write(key, node).nodes[i];
                x.0 == key || cache.nodes.contains(x)
            },
{
    if cache.budget > 0 {
        let made = NodeView { last_used: (cache.tick + 1) as u64, ..node };
        let open = written(cache.nodes, key, made);
        lemma_written(cache.nodes, key, made);
        lemma_trimmed(open, cache.budget);
        let out = cache.after_write(key, node).nodes;
        assert forall|i: int| 0 <= i < out.len() implies ({
            let x = #[trigger] out[i];
            x.0 == key || cache.nodes.contains(x)
        }) by {
            assert(open.contains(out[i]));
            let k = choose|k: int| 0 <= k < open.len() && open[k] == out[i];
            assert(open[k] == (key, made) || cache.nodes.contains(open[k]));
        }
        let next = cache.after_write(key, node);
        assert forall|i: int| 0 <= i < out.len() implies next.keeps((#[trigger] out[i]).1) by {
            assert(open.contains(out[i]));
            let k = choose|k: int| 0 <= k < open.len() && open[k] == out[i];
            assert(open[k] == (key, made) || cache.nodes.contains(open[k]));
        }
    }
}

/// Eviction is least-recently-used first: what stays was used no earlier than what
/// went.
pub proof fn law_least_recently_used_goes_first(nodes: Nodes, budget: nat, kept: int, gone: int)
    requires
        forall|i: int, j: int| 0 <= i < j < nodes.len() ==> nodes[i].0 != nodes[j].0,
        0 <= kept < trimmed(nodes, budget).len(),
        0 <= gone < nodes.len(),
        !trimmed(nodes, budget).contains(nodes[gone]),
    ensures
        trimmed(nodes, budget)[kept].1.last_used >= nodes[gone].1.last_used,
    decreases nodes.len(),
{
    if weights(nodes) <= budget || nodes.len() == 0 {
        assert(trimmed(nodes, budget)[gone] == nodes[gone]);
    } else {
        let n = nodes.len() as int;
        lemma_stalest(nodes, n);
        let v = stalest(nodes, n);
        let rest = nodes.remove(v);
        let out = trimmed(nodes, budget);
        assert(out == trimmed(rest, budget));
        lemma_trimmed(nodes, budget);
        assert forall|i: int, j: int| 0 <= i < j < rest.len() implies rest[i].0 != rest[j].0 by {
            assert(rest[i] == nodes[if i < v {
                i
            } else {
                i + 1
            }]);
            assert(rest[j] == nodes[if j < v {
                j
            } else {
                j + 1
            }]);
        }
        if gone == v {
            assert(nodes.contains(out[kept]));
            let k = choose|k: int| 0 <= k < nodes.len() && nodes[k] == out[kept];
            assert(nodes[k].1.last_used >= nodes[v].1.last_used);
        } else {
            let g = if gone < v {
                gone
            } else {
                gone - 1
            };
            assert(rest[g] == nodes[gone]);
            law_least_recently_used_goes_first(rest, budget, kept, g);
        }
    }
}

/// A touched node is last in line for eviction: every other one was used before it,
/// and where it has to go, none of the others is left.
pub proof fn law_a_touched_node_goes_last(cache: CacheView, key: KeyView, budget: nat)
    requires
        cache.wf(),
        cache.tick < u64::MAX,
        lookup(cache.nodes, key) is Some,
    ensures
        ({
            let nodes = cache.touched(key).nodes;
            let touched = lookup(nodes, key)->0;
            &&& lookup(nodes, key) is Some
            &&& touched.last_used == cache.tick + 1
            &&& forall|i: int|
                0 <= i < nodes.len() && (#[trigger] nodes[i]).0 != key ==> nodes[i].1.last_used
                    < touched.last_used
            &&& !trimmed(nodes, budget).contains((key, touched)) ==> trimmed(nodes, budget).len()
                == 0
        }),
{
    let nodes = cache.touched(key).nodes;
    let touched = lookup(nodes, key)->0;
    let p = place(cache.nodes, key);
    lemma_place(cache.nodes, key);
    assert forall|i: int| 0 <= i < p implies (#[trigger] nodes[i]).0 != key by {
        assert(nodes[i] == cache.nodes[i]);
    }
    lemma_place_is(nodes, key, p);
    assert(nodes[p] == (key, touched));
    assert forall|i: int| 0 <= i < nodes.len() && i != p implies (
    #[trigger] nodes[i]).1.last_used < touched.last_used by {
        assert(nodes[i] == cache.nodes[i]);
        assert(cache.keeps(cache.nodes[i].1));
    }
    let out = trimmed(nodes, budget);
    if !out.contains((key, touched)) && out.len() > 0 {
        assert forall|i: int, j: int| 0 <= i < j < nodes.len() implies nodes[i].0
            != nodes[j].0 by {
            assert(nodes[i].0 == cache.nodes[i].0);
            assert(nodes[j].0 == cache.nodes[j].0);
        }
        law_least_recently_used_goes_first(nodes, budget, 0, p);
        lemma_trimmed(nodes, budget);
        assert(nodes.contains(out[0]));
        let k = choose|k: int| 0 <= k < nodes.len() && nodes[k] == out[0];
        assert(out.contains(out[0]));
    }
}

/// An array's landmark never moves to a lower index, and an object's frontier never
/// moves back.
pub proof fn law_frontier_only_advances(
    node: NodeView,
    value_start: u64,
    new: Seq<MemberMark>,
    terminal: Option<u64>,
    cap: nat,
    landmark: Option<(usize, u64)>,
)
    ensures
        match (node.frontier, node.with_array(landmark).frontier) {
            (Frontier::Array { index: a, .. }, Frontier::Array { index: b, .. }) => a <= b,
            _ => true,
        },
        match (node.frontier, node.with_object(value_start, new, terminal, cap).frontier) {
            (Frontier::Object { offset: a }, Frontier::Object { offset: b }) => a <= b,
            _ => true,
        },
{
}

} // verus!
