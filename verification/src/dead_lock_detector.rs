//! The deadlock detector: a wait-for graph over operation ids, updated as
//! operations block and unblock. If there are mutual references between
//! nodes (incoming and outgoing), or a longer circle between nodes, there
//! is a deadlock: detection runs from the endpoints of each new edge, and
//! the youngest operation in the reported cycle is chosen as the victim.

use vstd::prelude::*;

verus! {

/// Mathematical image of a [`LockNode`].
#[verifier::ext_equal]
pub ghost struct NodeV {
    pub op_id: Seq<char>,
    pub rid: Seq<char>,
    pub stamp: u64,
}

/// A node of the wait-for graph: an operation, the resource it is blocked
/// on (empty until it blocks), and an arrival stamp recording creation
/// order — the victim policy aborts the youngest.
#[derive(Debug, Clone)]
pub struct LockNode {
    op_id: String,
    rid: String,
    stamp: u64,
}

impl View for LockNode {
    type V = NodeV;

    closed spec fn view(&self) -> NodeV {
        NodeV { op_id: self.op_id@, rid: self.rid@, stamp: self.stamp }
    }
}

impl LockNode {
    pub fn new(op_id: String, rid: String, stamp: u64) -> (r: Self)
        ensures
            r@ == (NodeV { op_id: op_id@, rid: rid@, stamp }),
    {
        Self { op_id, rid, stamp }
    }

    pub fn op_id(&self) -> (r: &String)
        ensures
            r@ == self@.op_id,
    {
        &self.op_id
    }

    /// A field-for-field copy with a contract.
    pub fn clone_node(&self) -> (r: Self)
        ensures
            r@ == self@,
    {
        LockNode { op_id: self.op_id.clone(), rid: self.rid.clone(), stamp: self.stamp }
    }
}

/// Mathematical image of a [`WaitEdge`].
#[verifier::ext_equal]
pub ghost struct EdgeV {
    pub from: Seq<char>,
    pub to: Seq<char>,
}

/// A wait-for edge: `from` is blocked on a lock held by `to`.
#[derive(Debug, Clone)]
pub struct WaitEdge {
    pub from: String,
    pub to: String,
}

impl View for WaitEdge {
    type V = EdgeV;

    open spec fn view(&self) -> EdgeV {
        EdgeV { from: self.from@, to: self.to@ }
    }
}

/// The views of the node and edge vectors.
pub open spec fn node_views(s: Seq<LockNode>) -> Seq<NodeV> {
    s.map_values(|n: LockNode| n@)
}

pub open spec fn edge_views(s: Seq<WaitEdge>) -> Seq<EdgeV> {
    s.map_values(|e: WaitEdge| e@)
}

/// Mathematical image of the whole detector.
#[verifier::ext_equal]
pub ghost struct DetectorV {
    pub nodes: Seq<NodeV>,
    pub edges: Seq<EdgeV>,
    pub next_stamp: u64,
}

impl DetectorV {
    pub open spec fn has_node(self, op_id: Seq<char>) -> bool {
        exists|i: int| 0 <= i < self.nodes.len() && (#[trigger] self.nodes[i]).op_id == op_id
    }

    pub open spec fn node_index(self, op_id: Seq<char>) -> int {
        choose|i: int| 0 <= i < self.nodes.len() && (#[trigger] self.nodes[i]).op_id == op_id
    }

    /// The arrival stamp of an operation's node.
    pub open spec fn stamp_of(self, op_id: Seq<char>) -> u64 {
        self.nodes[self.node_index(op_id)].stamp
    }

    /// The resource the operation's node was last blocked on.
    pub open spec fn rid_of(self, op_id: Seq<char>) -> Seq<char> {
        self.nodes[self.node_index(op_id)].rid
    }

    /// Is there a recorded "`a` waits for `b`" edge?
    pub open spec fn has_edge(self, a: Seq<char>, b: Seq<char>) -> bool {
        exists|i: int|
            0 <= i < self.edges.len() && (#[trigger] self.edges[i]).from == a
                && self.edges[i].to == b
    }

    /// Node ids are distinct, and every edge endpoint has a node.
    pub open spec fn wf(self) -> bool {
        &&& forall|i: int, j: int|
            0 <= i < self.nodes.len() && 0 <= j < self.nodes.len() && i != j ==> (
            #[trigger] self.nodes[i]).op_id != (#[trigger] self.nodes[j]).op_id
        &&& forall|i: int|
            0 <= i < self.edges.len() ==> self.has_node((#[trigger] self.edges[i]).from)
                && self.has_node(self.edges[i].to)
    }

    /// A genuine cycle: consecutive elements are edges, and the last one
    /// closes back on the first.
    pub open spec fn is_cycle(self, c: Seq<Seq<char>>) -> bool {
        &&& c.len() >= 1
        &&& forall|i: int| 0 <= i < c.len() - 1 ==> self.has_edge(#[trigger] c[i], c[i + 1])
        &&& self.has_edge(c[c.len() - 1], c[0])
    }
}

/// The wait-for graph: nodes stamped in arrival order, edges recorded
/// exactly while the waiting relation is real.
#[derive(Debug)]
pub struct DealLockDetector {
    nodes: Vec<LockNode>,
    edges: Vec<WaitEdge>,
    next_stamp: u64,
}

impl View for DealLockDetector {
    type V = DetectorV;

    closed spec fn view(&self) -> DetectorV {
        DetectorV {
            nodes: node_views(self.nodes@),
            edges: edge_views(self.edges@),
            next_stamp: self.next_stamp,
        }
    }
}

impl DealLockDetector {
    pub fn new() -> (r: Self)
        ensures
            r@.wf(),
            r@.nodes.len() == 0,
            r@.edges.len() == 0,
    {
        let r = Self { nodes: Vec::new(), edges: Vec::new(), next_stamp: 0 };
        proof {
            assert(r@.nodes =~= Seq::<NodeV>::empty());
            assert(r@.edges =~= Seq::<EdgeV>::empty());
        }
        r
    }

    fn find_node(&self, op_id: &String) -> (r: Option<usize>)
        ensures
            match r {
                Some(i) => 0 <= i < self@.nodes.len() && self@.nodes[i as int].op_id == op_id@
                    && self@.has_node(op_id@),
                None => !self@.has_node(op_id@),
            },
    {
        let mut i: usize = 0;
        while i < self.nodes.len()
            invariant
                i <= self.nodes.len(),
                forall|k: int| 0 <= k < i ==> (#[trigger] self@.nodes[k]).op_id != op_id@,
            decreases self.nodes.len() - i,
        {
            if self.nodes[i].op_id == *op_id {
                proof {
                    assert((#[trigger] self@.nodes[i as int]).op_id == op_id@);
                }
                return Some(i);
            }
            i = i + 1;
        }
        None
    }

    /// Does the graph record an `a` waits-for `b` edge?
    pub fn edge_exists(&self, a: &String, b: &String) -> (r: bool)
        ensures
            r == self@.has_edge(a@, b@),
    {
        let mut i: usize = 0;
        while i < self.edges.len()
            invariant
                i <= self.edges.len(),
                forall|k: int|
                    0 <= k < i ==> !((#[trigger] self@.edges[k]).from == a@ && self@.edges[k].to
                        == b@),
            decreases self.edges.len() - i,
        {
            if self.edges[i].from == *a && self.edges[i].to == *b {
                proof {
                    assert((#[trigger] self@.edges[i as int]).from == a@ && self@.edges[
                        i as int].to == b@);
                }
                return true;
            }
            i = i + 1;
        }
        false
    }

    /// Does the node for `op_id` exist (is the operation anywhere in the
    /// waiting relation)?
    pub fn has_incoming(&self, op_id: &String) -> (r: bool)
        ensures
            r == exists|i: int|
                0 <= i < self@.edges.len() && (#[trigger] self@.edges[i]).to == op_id@,
    {
        let mut i: usize = 0;
        while i < self.edges.len()
            invariant
                i <= self.edges.len(),
                forall|k: int| 0 <= k < i ==> (#[trigger] self@.edges[k]).to != op_id@,
            decreases self.edges.len() - i,
        {
            if self.edges[i].to == *op_id {
                proof {
                    assert((#[trigger] self@.edges[i as int]).to == op_id@);
                }
                return true;
            }
            i = i + 1;
        }
        false
    }

    /// Is some edge recorded as leaving `op_id`?
    pub fn has_outgoing(&self, op_id: &String) -> (r: bool)
        ensures
            r == exists|i: int|
                0 <= i < self@.edges.len() && (#[trigger] self@.edges[i]).from == op_id@,
    {
        let mut i: usize = 0;
        while i < self.edges.len()
            invariant
                i <= self.edges.len(),
                forall|k: int| 0 <= k < i ==> (#[trigger] self@.edges[k]).from != op_id@,
            decreases self.edges.len() - i,
        {
            if self.edges[i].from == *op_id {
                proof {
                    assert((#[trigger] self@.edges[i as int]).from == op_id@);
                }
                return true;
            }
            i = i + 1;
        }
        false
    }

    /// The resource the node of `op_id` was last blocked on.
    pub fn node_rid(&self, op_id: &String) -> (r: Option<String>)
        requires
            self@.wf(),
        ensures
            match r {
                Some(rid) => self@.has_node(op_id@) && rid@ == self@.rid_of(op_id@),
                None => !self@.has_node(op_id@),
            },
    {
        match self.find_node(op_id) {
            Some(i) => {
                proof {
                    let c = self@.node_index(op_id@);
                    if c != i as int {
                        assert(self@.nodes[c].op_id == op_id@);
                        assert(false);
                    }
                }
                Some(self.nodes[i].rid.clone())
            },
            None => None,
        }
    }

    /// Makes sure a node exists for `op_id`; a waiter's node also records
    /// the resource it blocks on. Fresh nodes take the next arrival stamp.
    fn ensure_node(&mut self, op_id: &String, rid: Option<&String>)
        requires
            old(self)@.wf(),
        ensures
            final(self)@.wf(),
            final(self)@.has_node(op_id@),
            final(self)@.edges == old(self)@.edges,
            forall|o: Seq<char>|
                o != op_id@ ==> (#[trigger] final(self)@.has_node(o) <==> old(self)@.has_node(o)),
            rid is Some && old(self)@.has_node(op_id@) ==> final(self)@.rid_of(op_id@)
                == rid->Some_0@,
    {
        let ghost t1 = self@;
        match self.find_node(op_id) {
            Some(i) => {
                match rid {
                    Some(r) => {
                        let stamp = self.nodes[i].stamp;
                        let node = LockNode::new(op_id.clone(), r.clone(), stamp);
                        let ghost nv = node@;
                        let _ = self.nodes.remove(i);
                        self.nodes.insert(i, node);
                        proof {
                            assert(self@.nodes =~= t1.nodes.update(i as int, nv));
                            assert(self@.edges == t1.edges);
                            lemma_node_update(t1, self@, i as int);
                        }
                    },
                    None => {},
                }
            },
            None => {
                let stamp = self.next_stamp;
                let rid_s = match rid {
                    Some(r) => r.clone(),
                    None => String::new(),
                };
                let node = LockNode::new(op_id.clone(), rid_s, stamp);
                let ghost nv = node@;
                self.nodes.push(node);
                if self.next_stamp < u64::MAX {
                    self.next_stamp = self.next_stamp + 1;
                }
                proof {
                    assert(self@.nodes =~= t1.nodes.push(nv));
                    assert(self@.edges == t1.edges);
                    lemma_node_push(t1, self@, nv);
                }
            },
        }
    }

    /// Records one wait-for edge per currently conflicting holder: called
    /// exactly when an acquire attempt finds a conflict.
    pub fn add_wait_edge(&mut self, waiter_id: &String, rid: &String, holder_ids: &Vec<String>)
        requires
            old(self)@.wf(),
        ensures
            final(self)@.wf(),
            final(self)@.has_node(waiter_id@),
            forall|a: Seq<char>, b: Seq<char>| #[trigger]
                final(self)@.has_edge(a, b) <==> old(self)@.has_edge(a, b) || (a == waiter_id@
                    && exists|k: int|
                    0 <= k < holder_ids@.len() && (#[trigger] holder_ids@[k])@ == b),
    {
        self.ensure_node(waiter_id, Some(rid));
        let mut k: usize = 0;
        while k < holder_ids.len()
            invariant
                self@.wf(),
                k <= holder_ids.len(),
                self@.has_node(waiter_id@),
                forall|a: Seq<char>, b: Seq<char>| #[trigger]
                    self@.has_edge(a, b) <==> old(self)@.has_edge(a, b) || (a == waiter_id@
                        && exists|m: int| 0 <= m < k && (#[trigger] holder_ids@[m])@ == b),
            decreases holder_ids.len() - k,
        {
            let ghost head = self@;
            let holder = &holder_ids[k];
            self.ensure_node(holder, None);
            let ghost t1 = self@;
            proof {
                assert(t1.edges == head.edges);
                assert forall|a: Seq<char>, b: Seq<char>| #[trigger]
                    t1.has_edge(a, b) <==> head.has_edge(a, b) by {
                    if t1.has_edge(a, b) {
                        let i = choose|i: int|
                            0 <= i < t1.edges.len() && (#[trigger] t1.edges[i]).from == a
                                && t1.edges[i].to == b;
                        assert(head.edges[i].from == a && head.edges[i].to == b);
                    }
                    if head.has_edge(a, b) {
                        let i = choose|i: int|
                            0 <= i < head.edges.len() && (#[trigger] head.edges[i]).from == a
                                && head.edges[i].to == b;
                        assert(t1.edges[i].from == a && t1.edges[i].to == b);
                    }
                }
            }
            let e = WaitEdge { from: waiter_id.clone(), to: holder.clone() };
            let ghost ev = e@;
            self.edges.push(e);
            proof {
                assert(self@.edges =~= t1.edges.push(ev));
                assert(self@.nodes == t1.nodes);
                assert(t1.has_node(waiter_id@)) by {
                    if holder_ids@[k as int]@ == waiter_id@ {
                    } else {
                        assert(head.has_node(waiter_id@));
                    }
                }
                assert(self@.has_node(waiter_id@)) by {
                    let i = choose|i: int|
                        0 <= i < t1.nodes.len() && (#[trigger] t1.nodes[i]).op_id == waiter_id@;
                    assert(self@.nodes[i].op_id == waiter_id@);
                }
                assert forall|a: Seq<char>, b: Seq<char>| #[trigger]
                    self@.has_edge(a, b) <==> t1.has_edge(a, b) || (a == waiter_id@ && b
                        == holder_ids@[k as int]@) by {
                    if t1.has_edge(a, b) {
                        let i = choose|i: int|
                            0 <= i < t1.edges.len() && (#[trigger] t1.edges[i]).from == a
                                && t1.edges[i].to == b;
                        assert(self@.edges[i].from == a && self@.edges[i].to == b);
                    }
                    if a == waiter_id@ && b == holder_ids@[k as int]@ {
                        assert(self@.edges[self@.edges.len() - 1].from == a
                            && self@.edges[self@.edges.len() - 1].to == b);
                    }
                    if self@.has_edge(a, b) {
                        let i = choose|i: int|
                            0 <= i < self@.edges.len() && (#[trigger] self@.edges[i]).from == a
                                && self@.edges[i].to == b;
                        if i < t1.edges.len() {
                            assert(t1.edges[i].from == a && t1.edges[i].to == b);
                        }
                    }
                }
                assert forall|i: int| 0 <= i < self@.edges.len() implies self@.has_node(
                    (#[trigger] self@.edges[i]).from,
                ) && self@.has_node(self@.edges[i].to) by {
                    if i < t1.edges.len() {
                        assert(t1.has_node(t1.edges[i].from) && t1.has_node(t1.edges[i].to));
                    } else {
                        assert(self@.edges[i].from == waiter_id@);
                        assert(self@.edges[i].to == holder_ids@[k as int]@);
                        assert(t1.has_node(waiter_id@));
                        assert(t1.has_node(holder_ids@[k as int]@));
                    }
                }
                assert forall|a: Seq<char>, b: Seq<char>| #[trigger]
                    self@.has_edge(a, b) <==> old(self)@.has_edge(a, b) || (a == waiter_id@
                        && exists|m: int|
                        0 <= m < k + 1 && (#[trigger] holder_ids@[m])@ == b) by {
                    if self@.has_edge(a, b) {
                        if !t1.has_edge(a, b) {
                            assert(a == waiter_id@ && b == holder_ids@[k as int]@);
                            assert((#[trigger] holder_ids@[k as int])@ == b);
                        } else {
                            assert(head.has_edge(a, b));
                        }
                    }
                    if old(self)@.has_edge(a, b) {
                        assert(head.has_edge(a, b));
                        assert(t1.has_edge(a, b));
                    }
                    if a == waiter_id@ && exists|m: int|
                        0 <= m < k + 1 && (#[trigger] holder_ids@[m])@ == b {
                        let m = choose|m: int| 0 <= m < k + 1 && (#[trigger] holder_ids@[m])@ == b;
                        if m < k {
                            assert(head.has_edge(a, b));
                            assert(t1.has_edge(a, b));
                        } else {
                            assert(b == holder_ids@[k as int]@);
                        }
                    }
                }
            }
            k = k + 1;
        }
    }

    /// Removes the node of `op_id` and every edge touching it: called on
    /// release, abort and timeout, so no stale edge survives.
    pub fn remove_node(&mut self, op_id: &String)
        requires
            old(self)@.wf(),
        ensures
            final(self)@.wf(),
            !final(self)@.has_node(op_id@),
            forall|o: Seq<char>|
                o != op_id@ ==> (#[trigger] final(self)@.has_node(o) <==> old(self)@.has_node(o)),
            forall|a: Seq<char>, b: Seq<char>| #[trigger]
                final(self)@.has_edge(a, b) <==> old(self)@.has_edge(a, b) && a != op_id@ && b
                    != op_id@,
    {
        let ghost t1 = self@;
        let mut kept_nodes: Vec<LockNode> = Vec::new();
        let mut i: usize = 0;
        while i < self.nodes.len()
            invariant
                i <= self.nodes.len(),
                *self == *old(self),
                node_views(kept_nodes@) == remove_node_spec(
                    self@.nodes.subrange(0, i as int),
                    op_id@,
                ),
            decreases self.nodes.len() - i,
        {
            let ghost pre = self@.nodes.subrange(0, i + 1 as int);
            proof {
                assert(pre.drop_last() =~= self@.nodes.subrange(0, i as int));
                assert(pre.last() == self@.nodes[i as int]);
            }
            if !(self.nodes[i].op_id == *op_id) {
                let n = self.nodes[i].clone_node();
                kept_nodes.push(n);
            }
            proof {
                assert(node_views(kept_nodes@) =~= remove_node_spec(pre, op_id@));
            }
            i = i + 1;
        }
        let mut kept_edges: Vec<WaitEdge> = Vec::new();
        let mut j: usize = 0;
        while j < self.edges.len()
            invariant
                j <= self.edges.len(),
                *self == *old(self),
                edge_views(kept_edges@) == remove_edges_spec(
                    self@.edges.subrange(0, j as int),
                    op_id@,
                ),
            decreases self.edges.len() - j,
        {
            let ghost pre = self@.edges.subrange(0, j + 1 as int);
            proof {
                assert(pre.drop_last() =~= self@.edges.subrange(0, j as int));
                assert(pre.last() == self@.edges[j as int]);
            }
            if !(self.edges[j].from == *op_id) && !(self.edges[j].to == *op_id) {
                let e = WaitEdge { from: self.edges[j].from.clone(), to: self.edges[j].to.clone() };
                kept_edges.push(e);
            }
            proof {
                assert(edge_views(kept_edges@) =~= remove_edges_spec(pre, op_id@));
            }
            j = j + 1;
        }
        self.nodes = kept_nodes;
        self.edges = kept_edges;
        proof {
            assert(t1.nodes.subrange(0, t1.nodes.len() as int) =~= t1.nodes);
            assert(t1.edges.subrange(0, t1.edges.len() as int) =~= t1.edges);
            lemma_remove_node_props(t1.nodes, op_id@);
            lemma_remove_edges_props(t1.edges, op_id@);
            let t3 = self@;
            assert(t3.nodes == remove_node_spec(t1.nodes, op_id@));
            assert(t3.edges == remove_edges_spec(t1.edges, op_id@));
            if t3.has_node(op_id@) {
                let k = choose|k: int|
                    0 <= k < t3.nodes.len() && (#[trigger] t3.nodes[k]).op_id == op_id@;
                assert(false);
            }
            assert forall|o: Seq<char>|
                o != op_id@ implies (#[trigger] t3.has_node(o) <==> t1.has_node(o)) by {
                if t1.has_node(o) {
                    let m = choose|m: int|
                        0 <= m < t1.nodes.len() && (#[trigger] t1.nodes[m]).op_id == o;
                    assert(t1.nodes.contains(t1.nodes[m]));
                    assert(remove_node_spec(t1.nodes, op_id@).contains(t1.nodes[m]));
                    let k = choose|k: int|
                        0 <= k < t3.nodes.len() && (#[trigger] t3.nodes[k]) == t1.nodes[m];
                    assert(t3.nodes[k].op_id == o);
                }
                if t3.has_node(o) {
                    let k = choose|k: int|
                        0 <= k < t3.nodes.len() && (#[trigger] t3.nodes[k]).op_id == o;
                }
            }
            assert forall|a: Seq<char>, b: Seq<char>| #[trigger]
                t3.has_edge(a, b) <==> (t1.has_edge(a, b) && a != op_id@ && b != op_id@) by {
                if t3.has_edge(a, b) {
                    let k = choose|k: int|
                        0 <= k < t3.edges.len() && (#[trigger] t3.edges[k]).from == a
                            && t3.edges[k].to == b;
                    assert(t1.edges.contains(t3.edges[k]));
                    let m = choose|m: int|
                        0 <= m < t1.edges.len() && (#[trigger] t1.edges[m]) == t3.edges[k];
                    assert(t1.edges[m].from == a && t1.edges[m].to == b);
                }
                if t1.has_edge(a, b) && a != op_id@ && b != op_id@ {
                    let m = choose|m: int|
                        0 <= m < t1.edges.len() && (#[trigger] t1.edges[m]).from == a
                            && t1.edges[m].to == b;
                    assert(t1.edges.contains(t1.edges[m]));
                    assert(remove_edges_spec(t1.edges, op_id@).contains(t1.edges[m]));
                    let k = choose|k: int|
                        0 <= k < t3.edges.len() && (#[trigger] t3.edges[k]) == t1.edges[m];
                    assert(t3.edges[k].from == a && t3.edges[k].to == b);
                }
            }
            assert forall|x: int, y: int|
                0 <= x < t3.nodes.len() && 0 <= y < t3.nodes.len() && x != y implies (
            #[trigger] t3.nodes[x]).op_id != (#[trigger] t3.nodes[y]).op_id by {
                lemma_remove_node_pair(t1.nodes, op_id@, x, y);
            }
            assert forall|x: int| 0 <= x < t3.edges.len() implies t3.has_node(
                (#[trigger] t3.edges[x]).from,
            ) && t3.has_node(t3.edges[x].to) by {
                assert(t1.edges.contains(t3.edges[x]));
                let m = choose|m: int|
                    0 <= m < t1.edges.len() && (#[trigger] t1.edges[m]) == t3.edges[x];
                assert(t1.has_node(t1.edges[m].from) && t1.has_node(t1.edges[m].to));
                let f = choose|n: int|
                    0 <= n < t1.nodes.len() && (#[trigger] t1.nodes[n]).op_id == t1.edges[m].from;
                let g = choose|n: int|
                    0 <= n < t1.nodes.len() && (#[trigger] t1.nodes[n]).op_id == t1.edges[m].to;
                assert(t3.has_node(t1.edges[m].from));
                assert(t3.has_node(t1.edges[m].to));
            }
        }
    }

    /// Best-effort depth-first search: a returned path is a genuine edge
    /// chain starting at `current` whose last element has an edge to
    /// `target`. Exhausted fuel ends a branch, never fabricates a path.
    fn dfs(&self, current: &String, target: &String, fuel: u64) -> (r: Option<Vec<String>>)
        ensures
            match r {
                Some(p) => p@.len() >= 1 && p@[0]@ == current@ && (forall|i: int|
                    0 <= i < p@.len() - 1 ==> self@.has_edge(
                        (#[trigger] p@[i])@,
                        p@[i + 1]@,
                    )) && self@.has_edge(p@[p@.len() - 1]@, target@),
                None => true,
            },
        decreases fuel,
    {
        if self.edge_exists(current, target) {
            let mut p: Vec<String> = Vec::new();
            p.push(current.clone());
            return Some(p);
        }
        if fuel == 0 {
            return None;
        }
        let mut i: usize = 0;
        while i < self.edges.len()
            invariant
                i <= self.edges.len(),
                fuel >= 1,
            decreases self.edges.len() - i,
        {
            if self.edges[i].from == *current {
                let nxt = self.edges[i].to.clone();
                proof {
                    assert((#[trigger] self@.edges[i as int]).from == current@
                        && self@.edges[i as int].to == nxt@);
                }
                match self.dfs(&nxt, target, fuel - 1) {
                    Some(mut p2) => {
                        let ghost pre = p2@;
                        p2.insert(0, current.clone());
                        proof {
                            assert(p2@[0]@ == current@);
                            assert forall|j: int|
                                0 <= j < p2@.len() - 1 implies self@.has_edge(
                                (#[trigger] p2@[j])@,
                                p2@[j + 1]@,
                            ) by {
                                if j == 0 {
                                    assert(p2@[1] == pre[0]);
                                    assert(self@.has_edge(current@, nxt@));
                                } else {
                                    assert(p2@[j] == pre[j - 1] && p2@[j + 1] == pre[j]);
                                }
                            }
                            assert(p2@[p2@.len() - 1] == pre[pre.len() - 1]);
                        }
                        return Some(p2);
                    },
                    None => {},
                }
            }
            i = i + 1;
        }
        None
    }

    /// Cycle detection from a freshly blocked operation: the cheap
    /// incremental check finds every two-operation cycle through `start`
    /// outright (the `None` answer refutes them), and a bounded
    /// depth-first search reports longer cycles. A returned sequence is
    /// always a genuine cycle beginning at `start`, every member a node.
    pub fn detect(&self, start: &String) -> (r: Option<Vec<String>>)
        requires
            self@.wf(),
        ensures
            match r {
                Some(c) => c@.len() >= 1 && c@[0]@ == start@ && self@.is_cycle(id_views(c@)) && (
                forall|i: int| 0 <= i < c@.len() ==> self@.has_node((#[trigger] c@[i])@)),
                None => !(exists|b: Seq<char>|
                    self@.has_edge(start@, b) && self@.has_edge(b, start@)),
            },
    {
        let mut i: usize = 0;
        while i < self.edges.len()
            invariant
                self@.wf(),
                i <= self.edges.len(),
                forall|m: int|
                    0 <= m < i && (#[trigger] self@.edges[m]).from == start@
                        ==> !self@.has_edge(self@.edges[m].to, start@),
            decreases self.edges.len() - i,
        {
            if self.edges[i].from == *start {
                let b = self.edges[i].to.clone();
                proof {
                    assert((#[trigger] self@.edges[i as int]).from == start@
                        && self@.edges[i as int].to == b@);
                }
                if self.edge_exists(&b, start) {
                    let mut c: Vec<String> = Vec::new();
                    c.push(start.clone());
                    c.push(b);
                    proof {
                        let cv = id_views(c@);
                        assert(cv.len() == 2 && cv[0] == start@ && cv[1]
                            == self@.edges[i as int].to);
                        assert(self@.has_edge(cv[0], cv[1]));
                        assert(self@.has_edge(cv[1], cv[0]));
                        assert(self@.is_cycle(cv));
                        lemma_cycle_nodes(self@, cv);
                        assert forall|j: int| 0 <= j < c@.len() implies self@.has_node(
                            (#[trigger] c@[j])@,
                        ) by {
                            assert(cv[j] == c@[j]@);
                        }
                    }
                    return Some(c);
                }
            }
            i = i + 1;
        }
        let fuel: u64 = if self.nodes.len() < 1000 {
            self.nodes.len() as u64
        } else {
            1000
        };
        let mut j: usize = 0;
        while j < self.edges.len()
            invariant
                self@.wf(),
                j <= self.edges.len(),
                forall|m: int|
                    0 <= m < self@.edges.len() && (#[trigger] self@.edges[m]).from == start@
                        ==> !self@.has_edge(self@.edges[m].to, start@),
            decreases self.edges.len() - j,
        {
            if self.edges[j].from == *start {
                let nxt = self.edges[j].to.clone();
                proof {
                    assert((#[trigger] self@.edges[j as int]).from == start@
                        && self@.edges[j as int].to == nxt@);
                }
                match self.dfs(&nxt, start, fuel) {
                    Some(mut p) => {
                        let ghost pre = p@;
                        p.insert(0, start.clone());
                        proof {
                            let cv = id_views(p@);
                            assert(cv.len() == pre.len() + 1);
                            assert(cv[0] == start@);
                            assert forall|m: int| 0 <= m < cv.len() - 1 implies self@.has_edge(
                                #[trigger] cv[m],
                                cv[m + 1],
                            ) by {
                                if m == 0 {
                                    assert(p@[1] == pre[0]);
                                    assert(self@.has_edge(start@, nxt@));
                                } else {
                                    assert(p@[m] == pre[m - 1] && p@[m + 1] == pre[m]);
                                    assert(self@.has_edge(pre[m - 1]@, pre[m]@));
                                }
                            }
                            assert(p@[p@.len() - 1] == pre[pre.len() - 1]);
                            assert(self@.has_edge(cv[cv.len() - 1], cv[0]));
                            assert(self@.is_cycle(cv));
                            lemma_cycle_nodes(self@, cv);
                            assert forall|m: int| 0 <= m < p@.len() implies self@.has_node(
                                (#[trigger] p@[m])@,
                            ) by {
                                assert(cv[m] == p@[m]@);
                            }
                        }
                        return Some(p);
                    },
                    None => {},
                }
            }
            j = j + 1;
        }
        proof {
            if exists|b: Seq<char>| self@.has_edge(start@, b) && self@.has_edge(b, start@) {
                let b = choose|b: Seq<char>|
                    self@.has_edge(start@, b) && self@.has_edge(b, start@);
                let m = choose|m: int|
                    0 <= m < self@.edges.len() && (#[trigger] self@.edges[m]).from == start@
                        && self@.edges[m].to == b;
                assert(!self@.has_edge(self@.edges[m].to, start@));
                assert(false);
            }
        }
        None
    }

    /// The stamp of an operation's node: how recently it entered the
    /// waiting relation.
    fn node_stamp(&self, op_id: &String) -> (r: u64)
        requires
            self@.wf(),
            self@.has_node(op_id@),
        ensures
            r == self@.stamp_of(op_id@),
    {
        match self.find_node(op_id) {
            Some(i) => {
                proof {
                    let c = self@.node_index(op_id@);
                    if c != i as int {
                        assert(self@.nodes[c].op_id == op_id@);
                        assert(false);
                    }
                }
                self.nodes[i].stamp
            },
            None => {
                proof {
                    assert(false);
                }
                0
            },
        }
    }

    /// Deterministic victim selection: the youngest operation in the
    /// cycle — the one whose node carries the greatest arrival stamp —
    /// is aborted, so the oldest operation in a cycle is never chosen and
    /// repeated cycles cannot starve a long-running operation.
    pub fn select_victim(&self, cycle: &Vec<String>) -> (r: String)
        requires
            self@.wf(),
            cycle@.len() >= 1,
            forall|i: int| 0 <= i < cycle@.len() ==> self@.has_node((#[trigger] cycle@[i])@),
        ensures
            exists|i: int| 0 <= i < cycle@.len() && (#[trigger] cycle@[i])@ == r@,
            forall|i: int|
                0 <= i < cycle@.len() ==> self@.stamp_of((#[trigger] cycle@[i])@)
                    <= self@.stamp_of(r@),
    {
        let mut best: usize = 0;
        let mut best_stamp = self.node_stamp(&cycle[0]);
        let mut i: usize = 1;
        while i < cycle.len()
            invariant
                1 <= i <= cycle@.len(),
                0 <= best < i,
                self@.wf(),
                cycle@.len() >= 1,
                forall|k: int| 0 <= k < cycle@.len() ==> self@.has_node((#[trigger] cycle@[k])@),
                best_stamp == self@.stamp_of(cycle@[best as int]@),
                forall|k: int|
                    0 <= k < i ==> self@.stamp_of((#[trigger] cycle@[k])@) <= best_stamp,
            decreases cycle@.len() - i,
        {
            let s = self.node_stamp(&cycle[i]);
            if s > best_stamp {
                best = i;
                best_stamp = s;
            }
            i = i + 1;
        }
        let r = cycle[best].clone();
        proof {
            assert((#[trigger] cycle@[best as int])@ == r@);
        }
        r
    }
}

/// The views of a vector of ids.
pub open spec fn id_views(s: Seq<String>) -> Seq<Seq<char>> {
    s.map_values(|x: String| x@)
}

/// Every member of a cycle is a node: each has an outgoing edge, and a
/// well-formed graph keeps edge endpoints among its nodes.
proof fn lemma_cycle_nodes(d: DetectorV, c: Seq<Seq<char>>)
    requires
        d.wf(),
        d.is_cycle(c),
    ensures
        forall|i: int| 0 <= i < c.len() ==> d.has_node(#[trigger] c[i]),
{
    assert forall|i: int| 0 <= i < c.len() implies d.has_node(#[trigger] c[i]) by {
        if i < c.len() - 1 {
            assert(d.has_edge(c[i], c[i + 1]));
            let m = choose|m: int|
                0 <= m < d.edges.len() && (#[trigger] d.edges[m]).from == c[i] && d.edges[m].to
                    == c[i + 1];
            assert(d.has_node(d.edges[m].from));
        } else {
            assert(d.has_edge(c[c.len() - 1], c[0]));
            let m = choose|m: int|
                0 <= m < d.edges.len() && (#[trigger] d.edges[m]).from == c[c.len() - 1]
                    && d.edges[m].to == c[0];
            assert(d.has_node(d.edges[m].from));
        }
    }
}


pub open spec fn remove_node_spec(s: Seq<NodeV>, op_id: Seq<char>) -> Seq<NodeV>
    decreases s.len(),
{
    if s.len() == 0 {
        Seq::<NodeV>::empty()
    } else {
        let rest = remove_node_spec(s.drop_last(), op_id);
        if s.last().op_id == op_id {
            rest
        } else {
            rest.push(s.last())
        }
    }
}

/// The edges of `s` with every edge touching `op_id` removed, order kept.
pub open spec fn remove_edges_spec(s: Seq<EdgeV>, op_id: Seq<char>) -> Seq<EdgeV>
    decreases s.len(),
{
    if s.len() == 0 {
        Seq::<EdgeV>::empty()
    } else {
        let rest = remove_edges_spec(s.drop_last(), op_id);
        if s.last().from == op_id || s.last().to == op_id {
            rest
        } else {
            rest.push(s.last())
        }
    }
}

/// Membership in `remove_node_spec`.
proof fn lemma_remove_node_props(s: Seq<NodeV>, op_id: Seq<char>)
    ensures
        forall|n: NodeV| #[trigger]
            remove_node_spec(s, op_id).contains(n) <==> s.contains(n) && n.op_id != op_id,
        forall|j: int|
            0 <= j < remove_node_spec(s, op_id).len() ==> s.contains(
                #[trigger] remove_node_spec(s, op_id)[j],
            ) && remove_node_spec(s, op_id)[j].op_id != op_id,
    decreases s.len(),
{
    if s.len() > 0 {
        lemma_remove_node_props(s.drop_last(), op_id);
        let rest = remove_node_spec(s.drop_last(), op_id);
        assert forall|n: NodeV| s.contains(n) && n.op_id != op_id implies #[trigger] remove_node_spec(
            s,
            op_id,
        ).contains(n) by {
            let i = choose|i: int| 0 <= i < s.len() && s[i] == n;
            if i < s.len() - 1 {
                assert(s.drop_last()[i] == n);
                assert(s.drop_last().contains(n));
                assert(rest.contains(n));
                let j = choose|j: int| 0 <= j < rest.len() && rest[j] == n;
                assert(remove_node_spec(s, op_id)[j] == n);
            } else {
                assert(n == s.last());
                let r = remove_node_spec(s, op_id);
                assert(r[r.len() - 1] == n);
            }
        }
        assert forall|n: NodeV| #[trigger]
            remove_node_spec(s, op_id).contains(n) implies s.contains(n) && n.op_id != op_id by {
            let r = remove_node_spec(s, op_id);
            let j = choose|j: int| 0 <= j < r.len() && r[j] == n;
            if s.last().op_id != op_id && j == r.len() - 1 {
                assert(n == s.last());
                assert(s[s.len() - 1] == n);
            } else {
                assert(rest[j] == n);
                assert(rest.contains(n));
                let i = choose|i: int| 0 <= i < s.drop_last().len() && s.drop_last()[i] == n;
                assert(s[i] == n);
            }
        }
    }
    assert forall|j: int| 0 <= j < remove_node_spec(s, op_id).len() implies s.contains(
        #[trigger] remove_node_spec(s, op_id)[j],
    ) && remove_node_spec(s, op_id)[j].op_id != op_id by {
        assert(remove_node_spec(s, op_id).contains(remove_node_spec(s, op_id)[j]));
    }
}

/// Membership in `remove_edges_spec`.
proof fn lemma_remove_edges_props(s: Seq<EdgeV>, op_id: Seq<char>)
    ensures
        forall|e: EdgeV| #[trigger]
            remove_edges_spec(s, op_id).contains(e) <==> s.contains(e) && e.from != op_id && e.to
                != op_id,
        forall|j: int|
            0 <= j < remove_edges_spec(s, op_id).len() ==> s.contains(
                #[trigger] remove_edges_spec(s, op_id)[j],
            ) && remove_edges_spec(s, op_id)[j].from != op_id && remove_edges_spec(s, op_id)[j].to
                != op_id,
    decreases s.len(),
{
    if s.len() > 0 {
        lemma_remove_edges_props(s.drop_last(), op_id);
        let rest = remove_edges_spec(s.drop_last(), op_id);
        assert forall|e: EdgeV|
            s.contains(e) && e.from != op_id && e.to != op_id implies #[trigger] remove_edges_spec(
            s,
            op_id,
        ).contains(e) by {
            let i = choose|i: int| 0 <= i < s.len() && s[i] == e;
            if i < s.len() - 1 {
                assert(s.drop_last()[i] == e);
                assert(s.drop_last().contains(e));
                assert(rest.contains(e));
                let j = choose|j: int| 0 <= j < rest.len() && rest[j] == e;
                assert(remove_edges_spec(s, op_id)[j] == e);
            } else {
                assert(e == s.last());
                let r = remove_edges_spec(s, op_id);
                assert(r[r.len() - 1] == e);
            }
        }
        assert forall|e: EdgeV| #[trigger] remove_edges_spec(s, op_id).contains(e) implies s.contains(
            e,
        ) && e.from != op_id && e.to != op_id by {
            let r = remove_edges_spec(s, op_id);
            let j = choose|j: int| 0 <= j < r.len() && r[j] == e;
            if !(s.last().from == op_id || s.last().to == op_id) && j == r.len() - 1 {
                assert(e == s.last());
                assert(s[s.len() - 1] == e);
            } else {
                assert(rest[j] == e);
                assert(rest.contains(e));
                let i = choose|i: int| 0 <= i < s.drop_last().len() && s.drop_last()[i] == e;
                assert(s[i] == e);
            }
        }
    }
    assert forall|j: int| 0 <= j < remove_edges_spec(s, op_id).len() implies s.contains(
        #[trigger] remove_edges_spec(s, op_id)[j],
    ) && remove_edges_spec(s, op_id)[j].from != op_id && remove_edges_spec(s, op_id)[j].to
        != op_id by {
        assert(remove_edges_spec(s, op_id).contains(remove_edges_spec(s, op_id)[j]));
    }
}

/// Distinct positions of `remove_node_spec`'s result keep distinct ids.
proof fn lemma_remove_node_pair(s: Seq<NodeV>, op_id: Seq<char>, a: int, b: int)
    requires
        forall|x: int, y: int|
            0 <= x < s.len() && 0 <= y < s.len() && x != y ==> (#[trigger] s[x]).op_id != (
            #[trigger] s[y]).op_id,
        0 <= a < remove_node_spec(s, op_id).len(),
        0 <= b < remove_node_spec(s, op_id).len(),
        a != b,
    ensures
        remove_node_spec(s, op_id)[a].op_id != remove_node_spec(s, op_id)[b].op_id,
    decreases s.len(),
{
    let r = remove_node_spec(s, op_id);
    let rest = remove_node_spec(s.drop_last(), op_id);
    lemma_remove_node_props(s.drop_last(), op_id);
    if s.last().op_id != op_id && a == r.len() - 1 {
        assert(r[a] == s.last());
        assert(rest[b] == r[b]);
        assert(s.drop_last().contains(r[b]));
        let p = choose|p: int| 0 <= p < s.drop_last().len() && s.drop_last()[p] == r[b];
        assert(s[p] == r[b]);
        assert(s[p].op_id != s[s.len() - 1].op_id);
    } else if s.last().op_id != op_id && b == r.len() - 1 {
        assert(r[b] == s.last());
        assert(rest[a] == r[a]);
        assert(s.drop_last().contains(r[a]));
        let p = choose|p: int| 0 <= p < s.drop_last().len() && s.drop_last()[p] == r[a];
        assert(s[p] == r[a]);
        assert(s[p].op_id != s[s.len() - 1].op_id);
    } else {
        lemma_remove_node_pair(s.drop_last(), op_id, a, b);
        assert(r[a] == rest[a] && r[b] == rest[b]);
    }
}

/// Updating one node in place (same id) keeps the graph well-formed.
proof fn lemma_node_update(t1: DetectorV, t2: DetectorV, i: int)
    requires
        t1.wf(),
        0 <= i < t1.nodes.len(),
        t2.nodes.len() == t1.nodes.len(),
        forall|j: int| 0 <= j < t1.nodes.len() && j != i ==> t2.nodes[j] == t1.nodes[j],
        t2.nodes[i].op_id == t1.nodes[i].op_id,
        t2.nodes[i].stamp == t1.nodes[i].stamp,
        t2.edges == t1.edges,
        t2.next_stamp == t1.next_stamp,
    ensures
        t2.wf(),
        t2.has_node(t1.nodes[i].op_id),
        forall|o: Seq<char>| #[trigger] t2.has_node(o) <==> t1.has_node(o),
        t2.node_index(t1.nodes[i].op_id) == i,
        t2.rid_of(t1.nodes[i].op_id) == t2.nodes[i].rid,
{
    assert forall|o: Seq<char>| #[trigger] t2.has_node(o) <==> t1.has_node(o) by {
        if t1.has_node(o) {
            let j = choose|j: int| 0 <= j < t1.nodes.len() && (#[trigger] t1.nodes[j]).op_id == o;
            assert(t2.nodes[j].op_id == o);
        }
        if t2.has_node(o) {
            let j = choose|j: int| 0 <= j < t2.nodes.len() && (#[trigger] t2.nodes[j]).op_id == o;
            assert(t1.nodes[j].op_id == o);
        }
    }
    assert(t2.nodes[i].op_id == t1.nodes[i].op_id);
    let c = t2.node_index(t1.nodes[i].op_id);
    if c != i {
        assert(t2.nodes[c].op_id != t2.nodes[i].op_id);
    }
    assert forall|x: int| 0 <= x < t2.edges.len() implies t2.has_node(
        (#[trigger] t2.edges[x]).from,
    ) && t2.has_node(t2.edges[x].to) by {
        assert(t1.has_node(t1.edges[x].from) && t1.has_node(t1.edges[x].to));
    }
}

/// Appending a fresh node keeps the graph well-formed.
proof fn lemma_node_push(t1: DetectorV, t2: DetectorV, nv: NodeV)
    requires
        t1.wf(),
        !t1.has_node(nv.op_id),
        t2.nodes == t1.nodes.push(nv),
        t2.edges == t1.edges,
        nv.stamp == t1.next_stamp,
        t2.next_stamp == if t1.next_stamp < u64::MAX {
            (t1.next_stamp + 1) as u64
        } else {
            t1.next_stamp
        },
    ensures
        t2.wf(),
        t2.has_node(nv.op_id),
        forall|o: Seq<char>| o != nv.op_id ==> (#[trigger] t2.has_node(o) <==> t1.has_node(o)),
{
    let n = t1.nodes.len() as int;
    assert(t2.nodes[n] == nv);
    assert(t2.has_node(nv.op_id));
    assert forall|o: Seq<char>| o != nv.op_id implies (#[trigger] t2.has_node(o) <==> t1.has_node(
        o,
    )) by {
        if t1.has_node(o) {
            let j = choose|j: int| 0 <= j < t1.nodes.len() && (#[trigger] t1.nodes[j]).op_id == o;
            assert(t2.nodes[j].op_id == o);
        }
        if t2.has_node(o) {
            let j = choose|j: int| 0 <= j < t2.nodes.len() && (#[trigger] t2.nodes[j]).op_id == o;
            assert(j != n);
            assert(t1.nodes[j].op_id == o);
        }
    }
    assert forall|x: int, y: int|
        0 <= x < t2.nodes.len() && 0 <= y < t2.nodes.len() && x != y implies (
    #[trigger] t2.nodes[x]).op_id != (#[trigger] t2.nodes[y]).op_id by {
        if x < n && y < n {
        } else if x == n {
            assert(t1.nodes[y].op_id != nv.op_id);
        } else {
            assert(t1.nodes[x].op_id != nv.op_id);
        }
    }
    assert forall|x: int| 0 <= x < t2.edges.len() implies t2.has_node(
        (#[trigger] t2.edges[x]).from,
    ) && t2.has_node(t2.edges[x].to) by {
        assert(t1.has_node(t1.edges[x].from) && t1.has_node(t1.edges[x].to));
        let f = choose|j: int|
            0 <= j < t1.nodes.len() && (#[trigger] t1.nodes[j]).op_id == t1.edges[x].from;
        let t = choose|j: int|
            0 <= j < t1.nodes.len() && (#[trigger] t1.nodes[j]).op_id == t1.edges[x].to;
        assert(t2.nodes[f].op_id == t2.edges[x].from);
        assert(t2.nodes[t].op_id == t2.edges[x].to);
    }
}

} // verus!
