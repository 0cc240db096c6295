//! The dependency-graph input: a typed DAG of API calls and constants.
//!
//! Acyclicity is by construction: every edge runs from a strictly deeper
//! node to a shallower one (`src.depth > dst.depth`), so no walk along edges
//! can loop. The validity invariant (`graph_wf`) also keeps node ids unique,
//! edge endpoints present, incoming ports distinct, and constants free of
//! incoming edges.

use vstd::prelude::*;

use crate::rng::rand_wf;
use crate::rng::BytesRand;
use crate::rng::Rand;
use crate::schema::schema_wf;
use crate::schema::type_eq_spec;
use crate::schema::ConstantValue;
use crate::schema::EndpointName;
use crate::schema::Schema;
use crate::schema::Signature;
use crate::schema::Type;
use crate::RailcarError;

verus! {

/// Identifier of a node within a graph.
pub type NodeId = usize;

/// Depths this far from zero are never produced; the bound leaves room for
/// completion and merging without overflow.
pub const MAX_DEPTH_MAGNITUDE: i64 = 0x4000_0000_0000_0000;

/// An edge arriving at a node: which node feeds it, at which argument port,
/// and in which evaluation order.
#[derive(Clone, Copy, Debug)]
pub struct IncomingEdge {
    pub src: NodeId,
    pub evaluation_order: usize,
    pub port: usize,
}

/// An edge leaving a node, naming the consumer.
#[derive(Clone, Copy, Debug)]
pub struct OutgoingEdge {
    pub dst: NodeId,
}

/// What a node computes: a constant of a concrete type, or an API call with
/// a concrete signature and the context bytes that seed its constants.
#[derive(Debug)]
pub enum NodePayload {
    Constant { typ: Type, value: ConstantValue },
    Api { signature: Signature, name: EndpointName, context: Vec<u8> },
}

/// One node of the graph.
#[derive(Debug)]
pub struct Node {
    pub id: NodeId,
    pub payload: NodePayload,
    pub incoming: Vec<IncomingEdge>,
    pub outgoing: Vec<OutgoingEdge>,
    pub depth: i64,
}

/// The graph input: a root node, the nodes, and the schema snapshot the
/// mutations consult.
#[derive(Debug)]
pub struct Graph {
    pub root: NodeId,
    pub nodes: Vec<Node>,
    pub schema: Schema,
}

/// Position of the node with this id, if any.
pub open spec fn spec_node_find(nodes: Seq<Node>, id: NodeId) -> Option<int>
    decreases nodes.len(),
{
    if nodes.len() == 0 {
        Option::None
    } else if nodes[0].id == id {
        Option::Some(0)
    } else {
        match spec_node_find(nodes.drop_first(), id) {
            Option::Some(p) => Option::Some(p + 1),
            Option::None => Option::None,
        }
    }
}

/// Whether some node has this id.
pub open spec fn spec_graph_has(nodes: Seq<Node>, id: NodeId) -> bool {
    exists|i: int| 0 <= i < nodes.len() && (#[trigger] nodes[i]).id == id
}

/// The depth of the node with this id (zero when absent).
pub open spec fn spec_depth_of(nodes: Seq<Node>, id: NodeId) -> int {
    if exists|i: int| 0 <= i < nodes.len() && (#[trigger] nodes[i]).id == id {
        let i = choose|i: int| 0 <= i < nodes.len() && (#[trigger] nodes[i]).id == id;
        nodes[i].depth as int
    } else {
        0
    }
}

/// The deepest node's depth (zero over no nodes).
pub open spec fn spec_max_depth(nodes: Seq<Node>) -> int
    decreases nodes.len(),
{
    if nodes.len() == 0 {
        0
    } else if nodes.len() == 1 {
        nodes[0].depth as int
    } else {
        let rest = spec_max_depth(nodes.drop_last());
        if nodes.last().depth > rest {
            nodes.last().depth as int
        } else {
            rest
        }
    }
}

/// Over at least one node, the maximum depth is attained and bounds the rest.
pub proof fn lemma_max_depth_attained(nodes: Seq<Node>)
    requires
        nodes.len() > 0,
    ensures
        exists|j: int| 0 <= j < nodes.len() && (#[trigger] nodes[j]).depth == spec_max_depth(nodes),
        forall|j: int| 0 <= j < nodes.len() ==> (#[trigger] nodes[j]).depth <= spec_max_depth(nodes),
    decreases nodes.len(),
{
    if nodes.len() > 1 {
        lemma_max_depth_attained(nodes.drop_last());
        let m = spec_max_depth(nodes.drop_last());
        assert forall|j: int|
            0 <= j < nodes.len() implies (#[trigger] nodes[j]).depth <= spec_max_depth(nodes) by {
            if j < nodes.len() - 1 {
                assert(nodes.drop_last()[j] == nodes[j]);
            }
        }
        if nodes.last().depth > m {
            assert(nodes[nodes.len() - 1].depth == spec_max_depth(nodes));
        } else {
            let w = choose|j: int|
                0 <= j < nodes.drop_last().len() && (#[trigger] nodes.drop_last()[j]).depth == m;
            assert(nodes.drop_last()[w] == nodes[w]);
            assert(nodes[w].depth == spec_max_depth(nodes));
        }
    }
}

/// A uniform depth shift moves the maximum by the same offset.
proof fn lemma_max_depth_shifted(pres: Seq<Node>, now: Seq<Node>, off: int)
    requires
        pres.len() > 0,
        spec_depths_shifted(pres, now, off),
    ensures
        spec_max_depth(now) == spec_max_depth(pres) + off,
    decreases pres.len(),
{
    if pres.len() > 1 {
        assert(spec_depths_shifted(pres.drop_last(), now.drop_last(), off));
        lemma_max_depth_shifted(pres.drop_last(), now.drop_last(), off);
        assert(now.last().depth == pres.last().depth + off);
    }
}

/// No node id repeats.
pub open spec fn spec_node_ids_unique(nodes: Seq<Node>) -> bool {
    forall|i: int, j: int|
        0 <= i < j < nodes.len() ==> (#[trigger] nodes[i]).id != (#[trigger] nodes[j]).id
}

/// One node's edges are sound within the graph: every endpoint exists,
/// every incoming edge descends strictly in depth, ports are distinct, and a
/// constant node has no incoming edges.
pub open spec fn spec_node_edges_ok(nodes: Seq<Node>, n: Node) -> bool {
    &&& forall|e: int|
        0 <= e < n.incoming@.len() ==> spec_graph_has(nodes, (#[trigger] n.incoming@[e]).src)
            && spec_depth_of(nodes, n.incoming@[e].src) > n.depth
    &&& forall|e: int|
        0 <= e < n.outgoing@.len() ==> spec_graph_has(nodes, (#[trigger] n.outgoing@[e]).dst)
            && spec_depth_of(nodes, n.outgoing@[e].dst) < n.depth
    &&& forall|e: int, e2: int|
        0 <= e < e2 < n.incoming@.len() ==> (#[trigger] n.incoming@[e]).port != (
        #[trigger] n.incoming@[e2]).port
    &&& (n.payload is Constant ==> n.incoming@.len() == 0)
    &&& (n.payload is Api ==> forall|e: int|
        0 <= e < n.incoming@.len() ==> (#[trigger] n.incoming@[e]).port
            < n.payload->Api_signature.args@.len())
}

/// The graph validity invariant.
pub open spec fn graph_wf(g: Graph) -> bool {
    &&& spec_node_ids_unique(g.nodes@)
    &&& spec_graph_has(g.nodes@, g.root)
    &&& forall|i: int| 0 <= i < g.nodes@.len() ==> spec_node_edges_ok(g.nodes@, #[trigger] g.nodes@[i])
    &&& forall|i: int|
        0 <= i < g.nodes@.len() ==> -MAX_DEPTH_MAGNITUDE < (#[trigger] g.nodes@[i]).depth
            < MAX_DEPTH_MAGNITUDE
}

/// The root has no incoming edges; completion re-roots until this holds.
pub open spec fn spec_rooted(g: Graph) -> bool {
    match spec_node_find(g.nodes@, g.root) {
        Option::Some(i) => g.nodes@[i].incoming@.len() == 0,
        Option::None => false,
    }
}

/// A found position is in range and carries the id.
pub proof fn lemma_node_find_props(nodes: Seq<Node>, id: NodeId)
    requires
        spec_node_find(nodes, id) is Some,
    ensures
        0 <= spec_node_find(nodes, id)->0 < nodes.len(),
        nodes[spec_node_find(nodes, id)->0].id == id,
    decreases nodes.len(),
{
    if nodes.len() > 0 && nodes[0].id != id {
        lemma_node_find_props(nodes.drop_first(), id);
    }
}

/// A present id is found.
pub proof fn lemma_node_find_some(nodes: Seq<Node>, id: NodeId)
    requires
        spec_graph_has(nodes, id),
    ensures
        spec_node_find(nodes, id) is Some,
    decreases nodes.len(),
{
    if nodes.len() > 0 && nodes[0].id != id {
        let j = choose|j: int| 0 <= j < nodes.len() && (#[trigger] nodes[j]).id == id;
        assert(nodes.drop_first()[j - 1].id == id);
        lemma_node_find_some(nodes.drop_first(), id);
    }
}

/// With unique ids, the found position is the only one with the id, and the
/// depth lookup agrees with it.
pub proof fn lemma_node_find_unique(nodes: Seq<Node>, id: NodeId, j: int)
    requires
        spec_node_ids_unique(nodes),
        0 <= j < nodes.len(),
        nodes[j].id == id,
    ensures
        spec_node_find(nodes, id) == Option::Some(j),
        spec_depth_of(nodes, id) == nodes[j].depth as int,
{
    lemma_node_find_some(nodes, id);
    lemma_node_find_props(nodes, id);
    let p = spec_node_find(nodes, id)->0;
    if p != j {
        assert(nodes[p].id == nodes[j].id);
        assert(false);
    }
    let c = choose|i: int| 0 <= i < nodes.len() && (#[trigger] nodes[i]).id == id;
    if c != j {
        assert(false);
    }
}

impl Node {
    /// A constant node: a typed value, no edges yet.
    pub fn constant(id: NodeId, typ: Type, value: ConstantValue, depth: i64) -> (r: Node)
        requires
            !(typ is Class),
        ensures
            r.id == id,
            r.depth == depth,
            r.incoming@.len() == 0,
            r.outgoing@.len() == 0,
            r.payload is Constant,
    {
        Node {
            id,
            payload: NodePayload::Constant { typ, value },
            incoming: Vec::new(),
            outgoing: Vec::new(),
            depth,
        }
    }

    /// An API node: a named endpoint with its concrete signature and the
    /// context bytes that seed its constant children.
    pub fn api(id: NodeId, api: EndpointName, signature: Signature, context: Vec<u8>, depth: i64)
        -> (r: Node)
        ensures
            r.id == id,
            r.depth == depth,
            r.incoming@.len() == 0,
            r.outgoing@.len() == 0,
            r.payload is Api,
            r.payload->Api_signature == signature,
            r.payload->Api_name == api,
    {
        Node {
            id,
            payload: NodePayload::Api { signature, name: api, context },
            incoming: Vec::new(),
            outgoing: Vec::new(),
            depth,
        }
    }

    /// One past the highest evaluation order among the incoming edges.
    pub fn next_eval_order(&self) -> (r: usize)
        ensures
            forall|e: int|
                0 <= e < self.incoming@.len() ==> (#[trigger] self.incoming@[e]).evaluation_order
                    < r || r == usize::MAX,
    {
        let n = self.incoming.len();
        let mut best: usize = 0;
        let mut k: usize = 0;
        while k < n
            invariant
                n == self.incoming@.len(),
                k <= n,
                forall|e: int|
                    0 <= e < k ==> (#[trigger] self.incoming@[e]).evaluation_order < best || best
                        == usize::MAX,
            decreases n - k,
        {
            let o = self.incoming[k].evaluation_order;
            if o >= best {
                if o == usize::MAX {
                    best = usize::MAX;
                } else {
                    best = o + 1;
                }
            }
            k = k + 1;
        }
        best
    }

    /// The type a node's value has: a constant's type, or an API node's
    /// return type.
    pub fn get_type(&self) -> (r: &Type)
        ensures
            *r == spec_type_of_node(*self),
    {
        match &self.payload {
            NodePayload::Api { signature, .. } => &signature.ret,
            NodePayload::Constant { typ, .. } => typ,
        }
    }

    /// Whether a node is a constant.
    pub fn is_const(&self) -> (r: bool)
        ensures
            r == (self.payload is Constant),
    {
        match &self.payload {
            NodePayload::Constant { .. } => true,
            NodePayload::Api { .. } => false,
        }
    }

    /// An API node is fulfilled when every argument port has an incoming
    /// edge; a constant always is.
    pub fn is_fulfilled(&self) -> (r: bool)
        ensures
            r == spec_fulfilled(*self),
    {
        match &self.payload {
            NodePayload::Constant { .. } => true,
            NodePayload::Api { signature, .. } => self.incoming.len() == signature.args.len(),
        }
    }
}

/// The type a node's value has.
pub open spec fn spec_type_of_node(n: Node) -> Type {
    match n.payload {
        NodePayload::Api { signature, .. } => signature.ret,
        NodePayload::Constant { typ, .. } => typ,
    }
}

/// Every argument port of an API node has an incoming edge.
pub open spec fn spec_fulfilled(n: Node) -> bool {
    match n.payload {
        NodePayload::Constant { .. } => true,
        NodePayload::Api { signature, .. } => n.incoming@.len() == signature.args@.len(),
    }
}

impl Graph {
    /// Position of the node with this id.
    pub fn find_node(&self, id: NodeId) -> (r: Option<usize>)
        ensures
            match r {
                Option::Some(p) => p < self.nodes@.len() && self.nodes@[p as int].id == id && forall|
                    j: int,
                |
                    0 <= j < p ==> (#[trigger] self.nodes@[j]).id != id,
                Option::None => forall|j: int|
                    0 <= j < self.nodes@.len() ==> (#[trigger] self.nodes@[j]).id != id,
            },
    {
        let n = self.nodes.len();
        let mut k: usize = 0;
        while k < n
            invariant
                n == self.nodes@.len(),
                k <= n,
                forall|j: int| 0 <= j < k ==> (#[trigger] self.nodes@[j]).id != id,
            decreases n - k,
        {
            if self.nodes[k].id == id {
                return Some(k);
            }
            k = k + 1;
        }
        None
    }

    /// One past the largest node id (zero in an empty graph); `None` when
    /// the id space is spent, which needs a node whose id is the largest
    /// representable one.
    pub fn next_node_id(&self) -> (r: Option<NodeId>)
        ensures
            match r {
                Option::Some(id) => !spec_graph_has(self.nodes@, id),
                Option::None => spec_graph_has(self.nodes@, usize::MAX),
            },
    {
        let n = self.nodes.len();
        let mut max: usize = 0;
        let mut k: usize = 0;
        while k < n
            invariant
                n == self.nodes@.len(),
                k <= n,
                forall|j: int| 0 <= j < k ==> (#[trigger] self.nodes@[j]).id <= max,
                k == 0 ==> max == 0,
                k > 0 && max > 0 ==> exists|j: int|
                    0 <= j < k && (#[trigger] self.nodes@[j]).id == max,
            decreases n - k,
        {
            if self.nodes[k].id > max {
                max = self.nodes[k].id;
            } else {
                if self.nodes[k].id == max {
                    proof {
                        assert(self.nodes@[k as int].id == max);
                    }
                }
            }
            k = k + 1;
        }
        if max == usize::MAX {
            proof {
                assert(n > 0);
            }
            None
        } else {
            Some(max + 1)
        }
    }

    /// The deepest node's depth (zero in an empty graph).
    pub fn max_depth(&self) -> (r: i64)
        ensures
            forall|i: int| 0 <= i < self.nodes@.len() ==> (#[trigger] self.nodes@[i]).depth <= r,
            self.nodes@.len() == 0 ==> r == 0,
            r == spec_max_depth(self.nodes@),
    {
        let n = self.nodes.len();
        let mut best: i64 = 0;
        let mut started: bool = false;
        let mut k: usize = 0;
        while k < n
            invariant
                n == self.nodes@.len(),
                k <= n,
                n > 0 && k > 0 ==> started,
                k == 0 ==> !started && best == 0,
                started ==> forall|i: int|
                    0 <= i < k ==> (#[trigger] self.nodes@[i]).depth <= best,
                k > 0 ==> best == spec_max_depth(self.nodes@.take(k as int)),
            decreases n - k,
        {
            let d = self.nodes[k].depth;
            proof {
                assert(self.nodes@.take(k as int + 1).drop_last() =~= self.nodes@.take(k as int));
                assert(self.nodes@.take(k as int + 1).last() == self.nodes@[k as int]);
            }
            if !started || d > best {
                best = d;
            }
            started = true;
            k = k + 1;
        }
        proof {
            if n > 0 {
                assert(self.nodes@.take(n as int) =~= self.nodes@);
            }
        }
        best
    }

    /// The shallowest node's depth (zero in an empty graph).
    pub fn min_depth(&self) -> (r: i64)
        ensures
            forall|i: int| 0 <= i < self.nodes@.len() ==> (#[trigger] self.nodes@[i]).depth >= r,
            self.nodes@.len() == 0 ==> r == 0,
    {
        let n = self.nodes.len();
        let mut best: i64 = 0;
        let mut started: bool = false;
        let mut k: usize = 0;
        while k < n
            invariant
                n == self.nodes@.len(),
                k <= n,
                n > 0 && k > 0 ==> started,
                k == 0 ==> !started && best == 0,
                started ==> forall|i: int|
                    0 <= i < k ==> (#[trigger] self.nodes@[i]).depth >= best,
            decreases n - k,
        {
            let d = self.nodes[k].depth;
            if !started || d < best {
                best = d;
            }
            started = true;
            k = k + 1;
        }
        best
    }

    /// A graph of one root node.
    pub fn from_node(root: Node, schema: Schema) -> (r: Graph)
        requires
            root.incoming@.len() == 0,
            root.outgoing@.len() == 0,
            -MAX_DEPTH_MAGNITUDE < root.depth < MAX_DEPTH_MAGNITUDE,
        ensures
            graph_wf(r),
            spec_rooted(r),
            r.nodes@.len() == 1,
            r.nodes@[0] == root,
            r.root == root.id,
            r.schema == schema,
    {
        let root_id = root.id;
        let mut nodes: Vec<Node> = Vec::new();
        nodes.push(root);
        let g = Graph { root: root_id, nodes, schema };
        proof {
            assert(g.nodes@[0].id == root_id);
        }
        g
    }
}


/// Lookups by id agree between two node lists whose ids and depths agree
/// pointwise.
pub proof fn lemma_has_depth_congruent(pres: Seq<Node>, now: Seq<Node>)
    requires
        pres.len() == now.len(),
        forall|j: int|
            0 <= j < pres.len() ==> (#[trigger] now[j]).id == pres[j].id && now[j].depth
                == pres[j].depth,
    ensures
        forall|id: NodeId| spec_graph_has(pres, id) == spec_graph_has(now, id),
        forall|id: NodeId|
            spec_graph_has(pres, id) ==> spec_depth_of(pres, id) == spec_depth_of(now, id)
                || !spec_node_ids_unique(pres),
{
    assert forall|id: NodeId| spec_graph_has(pres, id) == spec_graph_has(now, id) by {
        if spec_graph_has(pres, id) {
            let j = choose|j: int| 0 <= j < pres.len() && (#[trigger] pres[j]).id == id;
            assert(now[j].id == id);
        }
        if spec_graph_has(now, id) {
            let j = choose|j: int| 0 <= j < now.len() && (#[trigger] now[j]).id == id;
            assert(pres[j].id == id);
        }
    }
    assert forall|id: NodeId|
        spec_graph_has(pres, id) && spec_node_ids_unique(pres) implies spec_depth_of(pres, id)
        == spec_depth_of(now, id) by {
        let j = choose|j: int| 0 <= j < pres.len() && (#[trigger] pres[j]).id == id;
        lemma_node_find_unique(pres, id, j);
        assert forall|i2: int, j2: int|
            0 <= i2 < j2 < now.len() implies (#[trigger] now[i2]).id != (#[trigger] now[j2]).id
            by {
            assert(pres[i2].id != pres[j2].id);
        }
        lemma_node_find_unique(now, id, j);
    }
}

impl Graph {
    /// Replace the node at a position, keeping its id and depth.
    fn replace_node(&mut self, i: usize, node: Node)
        requires
            i < old(self).nodes@.len(),
            node.id == old(self).nodes@[i as int].id,
            node.depth == old(self).nodes@[i as int].depth,
        ensures
            final(self).nodes@ == old(self).nodes@.update(i as int, node),
            final(self).root == old(self).root,
            final(self).schema == old(self).schema,
    {
        let _ = self.nodes.remove(i);
        self.nodes.insert(i, node);
        proof {
            assert(self.nodes@ =~= old(self).nodes@.update(i as int, node));
        }
    }

    /// Add the edge `src -> dst` at this port and evaluation order. Both
    /// nodes must exist, the producer strictly deeper, the port free, and
    /// the consumer an API node.
    #[verifier::rlimit(100)]
    #[verifier::spinoff_prover]
    pub fn connect(&mut self, src: NodeId, dst: NodeId, port: usize, evaluation_order: usize)
        requires
            graph_wf(*old(self)),
            src != dst,
            spec_graph_has(old(self).nodes@, src),
            spec_graph_has(old(self).nodes@, dst),
            spec_depth_of(old(self).nodes@, src) > spec_depth_of(old(self).nodes@, dst),
            (match spec_node_find(old(self).nodes@, dst) {
                Option::Some(j) => old(self).nodes@[j].payload is Api && port < old(
                    self,
                ).nodes@[j].payload->Api_signature.args@.len() && (forall|e: int|
                    0 <= e < old(self).nodes@[j].incoming@.len() ==> (#[trigger] old(
                        self,
                    ).nodes@[j].incoming@[e]).port != port),
                Option::None => false,
            }),
        ensures
            graph_wf(*final(self)),
            final(self).root == old(self).root,
            final(self).schema == old(self).schema,
            final(self).nodes@.len() == old(self).nodes@.len(),
            forall|j: int|
                0 <= j < final(self).nodes@.len() ==> {
                    let n = #[trigger] final(self).nodes@[j];
                    let o = old(self).nodes@[j];
                    &&& n.id == o.id
                    &&& n.depth == o.depth
                    &&& n.payload == o.payload
                },
            (match (spec_node_find(old(self).nodes@, src), spec_node_find(old(self).nodes@, dst)) {
                (Option::Some(si), Option::Some(di)) => {
                    &&& final(self).nodes@[si].outgoing@ == old(self).nodes@[si].outgoing@.push(
                        OutgoingEdge { dst },
                    )
                    &&& final(self).nodes@[si].incoming@ == old(self).nodes@[si].incoming@
                    &&& final(self).nodes@[di].incoming@ == old(self).nodes@[di].incoming@.push(
                        IncomingEdge { src, evaluation_order, port },
                    )
                    &&& final(self).nodes@[di].outgoing@ == old(self).nodes@[di].outgoing@
                    &&& forall|j: int|
                        0 <= j < final(self).nodes@.len() && j != si && j != di
                            ==> #[trigger] final(self).nodes@[j] == old(self).nodes@[j]
                },
                _ => false,
            }),
    {
        let si = match self.find_node(src) {
            Some(i) => i,
            None => {
                proof {
                    assert(false);
                }
                return ;
            },
        };
        let di = match self.find_node(dst) {
            Some(i) => i,
            None => {
                proof {
                    assert(false);
                }
                return ;
            },
        };
        proof {
            lemma_node_find_unique(self.nodes@, src, si as int);
            lemma_node_find_unique(self.nodes@, dst, di as int);
        }
        let ghost pres = self.nodes@;
        // producer side
        let mut src_node = self.nodes.remove(si);
        src_node.outgoing.push(OutgoingEdge { dst });
        self.nodes.insert(si, src_node);
        proof {
            assert(self.nodes@ =~= pres.update(
                si as int,
                Node {
                    id: pres[si as int].id,
                    payload: self.nodes@[si as int].payload,
                    incoming: self.nodes@[si as int].incoming,
                    outgoing: self.nodes@[si as int].outgoing,
                    depth: pres[si as int].depth,
                },
            ));
        }
        let ghost mid = self.nodes@;
        // consumer side
        let mut dst_node = self.nodes.remove(di);
        dst_node.incoming.push(IncomingEdge { src, evaluation_order, port });
        self.nodes.insert(di, dst_node);
        proof {
            assert(self.nodes@ =~= mid.update(
                di as int,
                Node {
                    id: mid[di as int].id,
                    payload: self.nodes@[di as int].payload,
                    incoming: self.nodes@[di as int].incoming,
                    outgoing: self.nodes@[di as int].outgoing,
                    depth: mid[di as int].depth,
                },
            ));
            let now = self.nodes@;
            assert(pres.len() == now.len());
            assert forall|j: int|
                0 <= j < pres.len() implies (#[trigger] now[j]).id == pres[j].id && now[j].depth
                == pres[j].depth && now[j].payload == pres[j].payload by {
                if j != si && j != di {
                    assert(now[j] == pres[j]);
                }
            }
            lemma_has_depth_congruent(pres, now);
            assert forall|i: int| 0 <= i < now.len() implies spec_node_edges_ok(
                now,
                #[trigger] now[i],
            ) by {
                assert(spec_node_edges_ok(pres, pres[i]));
                let n = now[i];
                assert forall|e: int|
                    0 <= e < n.incoming@.len() implies spec_graph_has(
                    now,
                    (#[trigger] n.incoming@[e]).src,
                ) && spec_depth_of(now, n.incoming@[e].src) > n.depth by {
                    if i == di as int && e == n.incoming@.len() - 1 {
                        assert(n.incoming@[e].src == src);
                        lemma_node_find_unique(pres, src, si as int);
                        lemma_node_find_unique(pres, dst, di as int);
                    } else {
                        assert(n.incoming@[e] == pres[i].incoming@[e]);
                    }
                }
                assert forall|e: int|
                    0 <= e < n.outgoing@.len() implies spec_graph_has(
                    now,
                    (#[trigger] n.outgoing@[e]).dst,
                ) && spec_depth_of(now, n.outgoing@[e].dst) < n.depth by {
                    if i == si as int && e == n.outgoing@.len() - 1 {
                        assert(n.outgoing@[e].dst == dst);
                        lemma_node_find_unique(pres, src, si as int);
                        lemma_node_find_unique(pres, dst, di as int);
                    } else {
                        assert(n.outgoing@[e] == pres[i].outgoing@[e]);
                    }
                }
                assert forall|e: int, e2: int|
                    0 <= e < e2 < n.incoming@.len() implies (#[trigger] n.incoming@[e]).port != (
                #[trigger] n.incoming@[e2]).port by {
                    if i == di as int {
                        if e2 == n.incoming@.len() - 1 {
                            assert(n.incoming@[e] == pres[i].incoming@[e]);
                        } else {
                            assert(n.incoming@[e] == pres[i].incoming@[e]);
                            assert(n.incoming@[e2] == pres[i].incoming@[e2]);
                        }
                    } else {
                        assert(n.incoming@[e] == pres[i].incoming@[e]);
                        assert(n.incoming@[e2] == pres[i].incoming@[e2]);
                    }
                }
                if n.payload is Constant {
                    assert(i != di as int);
                    assert(n.incoming@ == pres[i].incoming@);
                }
                if n.payload is Api {
                    assert forall|e: int| 0 <= e < n.incoming@.len() implies (
                    #[trigger] n.incoming@[e]).port < n.payload->Api_signature.args@.len() by {
                        if i == di as int && e == n.incoming@.len() - 1 {
                        } else {
                            assert(n.incoming@[e] == pres[i].incoming@[e]);
                        }
                    }
                }
            }
        }
    }

    /// Remove the first outgoing edge `src -> dst`, if present.
    fn drop_outgoing(&mut self, src: NodeId, dst: NodeId)
        requires
            graph_wf(*old(self)),
        ensures
            graph_wf(*final(self)),
            final(self).root == old(self).root,
            final(self).schema == old(self).schema,
            final(self).nodes@.len() == old(self).nodes@.len(),
            spec_out_half_dropped(old(self).nodes@, final(self).nodes@, src, dst),
            forall|j: int|
                0 <= j < final(self).nodes@.len() ==> {
                    let n = #[trigger] final(self).nodes@[j];
                    let o = old(self).nodes@[j];
                    &&& n.id == o.id
                    &&& n.depth == o.depth
                    &&& n.payload == o.payload
                    &&& n.incoming@ == o.incoming@
                },
    {
        let ghost pres = self.nodes@;
        let si_opt = self.find_node(src);
        match si_opt {
            Some(si) => {
                let m = self.nodes[si].outgoing.len();
                let mut e: usize = 0;
                let mut hit: bool = false;
                while e < m && !hit
                    invariant
                        si < self.nodes@.len(),
                        m == self.nodes@[si as int].outgoing@.len(),
                        e <= m,
                        hit ==> e < m && self.nodes@[si as int].outgoing@[e as int].dst == dst,
                        forall|q: int|
                            0 <= q < e ==> (#[trigger] self.nodes@[si as int].outgoing@[q]).dst
                                != dst,
                    decreases m - e, (if hit {
                        0int
                    } else {
                        1int
                    }),
                {
                    if self.nodes[si].outgoing[e].dst == dst {
                        hit = true;
                    } else {
                        e = e + 1;
                    }
                }
                if !hit {
                    proof {
                        lemma_first_out_none(pres[si as int].outgoing@, dst);
                        lemma_node_find_unique(pres, src, si as int);
                    }
                }
                if hit {
                    proof {
                        lemma_node_find_unique(pres, src, si as int);
                        lemma_first_out_match(pres[si as int].outgoing@, e as int, dst);
                    }
                    let mut src_node = self.nodes.remove(si);
                    let _ = src_node.outgoing.remove(e);
                    self.nodes.insert(si, src_node);
                    proof {
                        let now = self.nodes@;
                        assert(now =~= pres.update(si as int, now[si as int]));
                        assert(now[si as int].outgoing@ =~= pres[si as int].outgoing@.remove(
                            e as int,
                        ));
                        assert(now[si as int].incoming@ =~= pres[si as int].incoming@);
                        assert forall|e3: int|
                            0 <= e3 < now[si as int].outgoing@.len() implies spec_out_listed(
                            pres[si as int].outgoing@,
                            #[trigger] now[si as int].outgoing@[e3],
                        ) by {
                            if e3 < e {
                                assert(now[si as int].outgoing@[e3] == pres[
                                si as int].outgoing@[e3]);
                            } else {
                                assert(now[si as int].outgoing@[e3] == pres[si as int].outgoing@[e3
                                    + 1]);
                            }
                        }
                        assert forall|e3: int|
                            0 <= e3 < now[si as int].incoming@.len() implies spec_inc_listed(
                            pres[si as int].incoming@,
                            #[trigger] now[si as int].incoming@[e3],
                        ) by {
                            assert(now[si as int].incoming@[e3] == pres[si as int].incoming@[e3]);
                        }
                        lemma_wf_after_edge_drop(pres, self.nodes@, si as int);
                    }
                }
            },
            None => {
                proof {
                    if spec_node_find(pres, src) is Some {
                        lemma_node_find_props(pres, src);
                    }
                }
            },
        }
    }

    /// Remove the first incoming edge of `dst` whose producer is `src`, if
    /// present.
    #[verifier::rlimit(100)]
    #[verifier::spinoff_prover]
    fn drop_incoming(&mut self, src: NodeId, dst: NodeId)
        requires
            graph_wf(*old(self)),
        ensures
            graph_wf(*final(self)),
            final(self).root == old(self).root,
            final(self).schema == old(self).schema,
            final(self).nodes@.len() == old(self).nodes@.len(),
            spec_inc_half_dropped(old(self).nodes@, final(self).nodes@, src, dst),
            forall|j: int|
                0 <= j < final(self).nodes@.len() ==> {
                    let n = #[trigger] final(self).nodes@[j];
                    let o = old(self).nodes@[j];
                    &&& n.id == o.id
                    &&& n.depth == o.depth
                    &&& n.payload == o.payload
                    &&& n.outgoing@ == o.outgoing@
                },
    {
        let ghost mid = self.nodes@;
        let di_opt = self.find_node(dst);
        match di_opt {
            Some(di) => {
                let m = self.nodes[di].incoming.len();
                let mut e: usize = 0;
                let mut hit: bool = false;
                while e < m && !hit
                    invariant
                        di < self.nodes@.len(),
                        m == self.nodes@[di as int].incoming@.len(),
                        e <= m,
                        hit ==> e < m && self.nodes@[di as int].incoming@[e as int].src == src,
                        forall|q: int|
                            0 <= q < e ==> (#[trigger] self.nodes@[di as int].incoming@[q]).src
                                != src,
                    decreases m - e, (if hit {
                        0int
                    } else {
                        1int
                    }),
                {
                    if self.nodes[di].incoming[e].src == src {
                        hit = true;
                    } else {
                        e = e + 1;
                    }
                }
                if !hit {
                    proof {
                        lemma_first_inc_none(mid[di as int].incoming@, src);
                        lemma_node_find_unique(mid, dst, di as int);
                    }
                }
                if hit {
                    proof {
                        lemma_node_find_unique(mid, dst, di as int);
                        lemma_first_inc_match(mid[di as int].incoming@, e as int, src);
                    }
                    let mut dst_node = self.nodes.remove(di);
                    let _ = dst_node.incoming.remove(e);
                    self.nodes.insert(di, dst_node);
                    proof {
                        let now = self.nodes@;
                        assert(now =~= mid.update(di as int, now[di as int]));
                        assert(now[di as int].incoming@ =~= mid[di as int].incoming@.remove(
                            e as int,
                        ));
                        assert(now[di as int].outgoing@ =~= mid[di as int].outgoing@);
                        assert forall|e3: int|
                            0 <= e3 < now[di as int].incoming@.len() implies spec_inc_listed(
                            mid[di as int].incoming@,
                            #[trigger] now[di as int].incoming@[e3],
                        ) by {
                            if e3 < e {
                                assert(now[di as int].incoming@[e3] == mid[
                                di as int].incoming@[e3]);
                            } else {
                                assert(now[di as int].incoming@[e3] == mid[di as int].incoming@[e3
                                    + 1]);
                            }
                        }
                        assert forall|e3: int|
                            0 <= e3 < now[di as int].outgoing@.len() implies spec_out_listed(
                            mid[di as int].outgoing@,
                            #[trigger] now[di as int].outgoing@[e3],
                        ) by {
                            assert(now[di as int].outgoing@[e3] == mid[di as int].outgoing@[e3]);
                        }
                        assert forall|e3: int, e4: int|
                            0 <= e3 < e4 < now[di as int].incoming@.len() implies (#[trigger] now[
                        di as int].incoming@[e3]).port != (#[trigger] now[
                        di as int].incoming@[e4]).port by {
                            let o3: int = if e3 < e {
                                e3
                            } else {
                                e3 + 1
                            };
                            let o4: int = if e4 < e {
                                e4
                            } else {
                                e4 + 1
                            };
                            assert(now[di as int].incoming@[e3] == mid[di as int].incoming@[o3]);
                            assert(now[di as int].incoming@[e4] == mid[di as int].incoming@[o4]);
                        }
                        lemma_wf_after_edge_drop(mid, self.nodes@, di as int);
                    }
                }
            },
            None => {
                proof {
                    if spec_node_find(mid, dst) is Some {
                        lemma_node_find_props(mid, dst);
                    }
                }
            },
        }
    }

    /// Remove the first outgoing edge `src -> dst` and the first incoming
    /// edge `dst <- src`, whichever of the two are present.
    pub fn disconnect(&mut self, src: NodeId, dst: NodeId)
        requires
            graph_wf(*old(self)),
        ensures
            graph_wf(*final(self)),
            final(self).root == old(self).root,
            final(self).schema == old(self).schema,
            final(self).nodes@.len() == old(self).nodes@.len(),
            exists|mid: Seq<Node>|
                #[trigger] spec_out_half_dropped(old(self).nodes@, mid, src, dst)
                    && spec_inc_half_dropped(mid, final(self).nodes@, src, dst),
            forall|j: int|
                0 <= j < final(self).nodes@.len() ==> {
                    let n = #[trigger] final(self).nodes@[j];
                    let o = old(self).nodes@[j];
                    &&& n.id == o.id
                    &&& n.depth == o.depth
                    &&& n.payload == o.payload
                },
    {
        self.drop_outgoing(src, dst);
        let ghost half = self.nodes@;
        self.drop_incoming(src, dst);
        proof {
            assert(spec_out_half_dropped(old(self).nodes@, half, src, dst));
            assert(spec_inc_half_dropped(half, self.nodes@, src, dst));
        }
    }
}

/// Position of the first outgoing edge to `dst`, if any.
pub open spec fn spec_first_out(l: Seq<OutgoingEdge>, dst: NodeId) -> Option<int>
    decreases l.len(),
{
    if l.len() == 0 {
        Option::None
    } else if l[0].dst == dst {
        Option::Some(0)
    } else {
        match spec_first_out(l.drop_first(), dst) {
            Option::Some(p) => Option::Some(p + 1),
            Option::None => Option::None,
        }
    }
}

/// Position of the first incoming edge from `src`, if any.
pub open spec fn spec_first_inc(l: Seq<IncomingEdge>, src: NodeId) -> Option<int>
    decreases l.len(),
{
    if l.len() == 0 {
        Option::None
    } else if l[0].src == src {
        Option::Some(0)
    } else {
        match spec_first_inc(l.drop_first(), src) {
            Option::Some(p) => Option::Some(p + 1),
            Option::None => Option::None,
        }
    }
}

/// The first-match position over outgoing edges is what a left-to-right
/// scan finds.
proof fn lemma_first_out_match(l: Seq<OutgoingEdge>, e: int, dst: NodeId)
    requires
        0 <= e < l.len(),
        l[e].dst == dst,
        forall|q: int| 0 <= q < e ==> (#[trigger] l[q]).dst != dst,
    ensures
        spec_first_out(l, dst) == Option::Some(e),
    decreases e,
{
    if e > 0 {
        assert forall|q: int| 0 <= q < e - 1 implies (#[trigger] l.drop_first()[q]).dst != dst by {
            assert(l.drop_first()[q] == l[q + 1]);
        }
        lemma_first_out_match(l.drop_first(), e - 1, dst);
    }
}

/// A scan that found nothing means no first match exists.
proof fn lemma_first_out_none(l: Seq<OutgoingEdge>, dst: NodeId)
    requires
        forall|q: int| 0 <= q < l.len() ==> (#[trigger] l[q]).dst != dst,
    ensures
        spec_first_out(l, dst) is None,
    decreases l.len(),
{
    if l.len() > 0 {
        lemma_first_out_none(l.drop_first(), dst);
    }
}

/// The first-match position over incoming edges is what a left-to-right
/// scan finds.
proof fn lemma_first_inc_match(l: Seq<IncomingEdge>, e: int, src: NodeId)
    requires
        0 <= e < l.len(),
        l[e].src == src,
        forall|q: int| 0 <= q < e ==> (#[trigger] l[q]).src != src,
    ensures
        spec_first_inc(l, src) == Option::Some(e),
    decreases e,
{
    if e > 0 {
        assert forall|q: int| 0 <= q < e - 1 implies (#[trigger] l.drop_first()[q]).src != src by {
            assert(l.drop_first()[q] == l[q + 1]);
        }
        lemma_first_inc_match(l.drop_first(), e - 1, src);
    }
}

/// A scan that found nothing means no first match exists.
proof fn lemma_first_inc_none(l: Seq<IncomingEdge>, src: NodeId)
    requires
        forall|q: int| 0 <= q < l.len() ==> (#[trigger] l[q]).src != src,
    ensures
        spec_first_inc(l, src) is None,
    decreases l.len(),
{
    if l.len() > 0 {
        lemma_first_inc_none(l.drop_first(), src);
    }
}

/// What dropping the outgoing half of the edge `a -> b` leaves: the first
/// matching edge removed from `a`'s list when both the node and a match
/// exist, everything else untouched.
pub open spec fn spec_out_half_dropped(pres: Seq<Node>, now: Seq<Node>, a: NodeId, b: NodeId) -> bool {
    match spec_node_find(pres, a) {
        Option::Some(si) => match spec_first_out(pres[si].outgoing@, b) {
            Option::Some(e) => {
                &&& now.len() == pres.len()
                &&& (forall|j: int| 0 <= j < pres.len() && j != si ==> #[trigger] now[j] == pres[j])
                &&& now[si].outgoing@ == pres[si].outgoing@.remove(e)
                &&& now[si].incoming@ == pres[si].incoming@
                &&& now[si].id == pres[si].id
                &&& now[si].depth == pres[si].depth
                &&& now[si].payload == pres[si].payload
            },
            Option::None => now == pres,
        },
        Option::None => now == pres,
    }
}

/// What dropping the incoming half of the edge `a -> b` leaves, on `b`'s
/// side.
pub open spec fn spec_inc_half_dropped(pres: Seq<Node>, now: Seq<Node>, a: NodeId, b: NodeId) -> bool {
    match spec_node_find(pres, b) {
        Option::Some(di) => match spec_first_inc(pres[di].incoming@, a) {
            Option::Some(e) => {
                &&& now.len() == pres.len()
                &&& (forall|j: int| 0 <= j < pres.len() && j != di ==> #[trigger] now[j] == pres[j])
                &&& now[di].incoming@ == pres[di].incoming@.remove(e)
                &&& now[di].outgoing@ == pres[di].outgoing@
                &&& now[di].id == pres[di].id
                &&& now[di].depth == pres[di].depth
                &&& now[di].payload == pres[di].payload
            },
            Option::None => now == pres,
        },
        Option::None => now == pres,
    }
}

/// Whether this incoming edge occurs in the list.
pub open spec fn spec_inc_listed(l: Seq<IncomingEdge>, x: IncomingEdge) -> bool {
    exists|e: int| 0 <= e < l.len() && (#[trigger] l[e]) == x
}

/// Whether this outgoing edge occurs in the list.
pub open spec fn spec_out_listed(l: Seq<OutgoingEdge>, x: OutgoingEdge) -> bool {
    exists|e: int| 0 <= e < l.len() && (#[trigger] l[e]) == x
}

/// Dropping edges from one node keeps the invariant: edge lists only
/// shrink, ids and depths stay.
proof fn lemma_wf_after_edge_drop(pres: Seq<Node>, now: Seq<Node>, i: int)
    requires
        spec_node_ids_unique(pres),
        forall|j: int| 0 <= j < pres.len() ==> spec_node_edges_ok(pres, #[trigger] pres[j]),
        0 <= i < pres.len(),
        now.len() == pres.len(),
        forall|j: int| 0 <= j < pres.len() && j != i ==> #[trigger] now[j] == pres[j],
        now[i].id == pres[i].id,
        now[i].depth == pres[i].depth,
        now[i].payload == pres[i].payload,
        forall|e: int|
            0 <= e < now[i].incoming@.len() ==> spec_inc_listed(
                pres[i].incoming@,
                #[trigger] now[i].incoming@[e],
            ),
        forall|e: int|
            0 <= e < now[i].outgoing@.len() ==> spec_out_listed(
                pres[i].outgoing@,
                #[trigger] now[i].outgoing@[e],
            ),
        forall|e: int, e2: int|
            0 <= e < e2 < now[i].incoming@.len() ==> (#[trigger] now[i].incoming@[e]).port != (
            #[trigger] now[i].incoming@[e2]).port,
        now[i].incoming@.len() <= pres[i].incoming@.len(),
    ensures
        spec_node_ids_unique(now),
        forall|j: int| 0 <= j < now.len() ==> spec_node_edges_ok(now, #[trigger] now[j]),
        forall|id: NodeId| spec_graph_has(pres, id) == spec_graph_has(now, id),
{
    assert forall|i2: int, j2: int|
        0 <= i2 < j2 < now.len() implies (#[trigger] now[i2]).id != (#[trigger] now[j2]).id by {
        assert(now[i2].id == pres[i2].id && now[j2].id == pres[j2].id) by {
            if i2 != i {
                assert(now[i2] == pres[i2]);
            }
            if j2 != i {
                assert(now[j2] == pres[j2]);
            }
        }
    }
    assert forall|j: int|
        0 <= j < pres.len() implies (#[trigger] now[j]).id == pres[j].id && now[j].depth
        == pres[j].depth by {
        if j != i {
            assert(now[j] == pres[j]);
        }
    }
    lemma_has_depth_congruent(pres, now);
    assert forall|j: int| 0 <= j < now.len() implies spec_node_edges_ok(now, #[trigger] now[j])
        by {
        assert(spec_node_edges_ok(pres, pres[j]));
        let n = now[j];
        assert forall|e: int|
            0 <= e < n.incoming@.len() implies spec_graph_has(
            now,
            (#[trigger] n.incoming@[e]).src,
        ) && spec_depth_of(now, n.incoming@[e].src) > n.depth by {
            if j == i {
                assert(spec_inc_listed(pres[i].incoming@, n.incoming@[e]));
                let e2 = choose|e2: int|
                    0 <= e2 < pres[i].incoming@.len() && (#[trigger] pres[i].incoming@[e2])
                        == n.incoming@[e];
                assert(spec_graph_has(pres, pres[i].incoming@[e2].src));
            } else {
                assert(n == pres[j]);
            }
        }
        assert forall|e: int|
            0 <= e < n.outgoing@.len() implies spec_graph_has(
            now,
            (#[trigger] n.outgoing@[e]).dst,
        ) && spec_depth_of(now, n.outgoing@[e].dst) < n.depth by {
            if j == i {
                assert(spec_out_listed(pres[i].outgoing@, n.outgoing@[e]));
                let e2 = choose|e2: int|
                    0 <= e2 < pres[i].outgoing@.len() && (#[trigger] pres[i].outgoing@[e2])
                        == n.outgoing@[e];
                assert(spec_graph_has(pres, pres[i].outgoing@[e2].dst));
            } else {
                assert(n == pres[j]);
            }
        }
        if j != i {
            assert(n == pres[j]);
        } else {
            if n.payload is Constant {
                assert(pres[i].incoming@.len() == 0);
            }
            if n.payload is Api {
                assert forall|e: int| 0 <= e < n.incoming@.len() implies (
                #[trigger] n.incoming@[e]).port < n.payload->Api_signature.args@.len() by {
                    assert(spec_inc_listed(pres[i].incoming@, n.incoming@[e]));
                    let e2 = choose|e2: int|
                        0 <= e2 < pres[i].incoming@.len() && (#[trigger] pres[i].incoming@[e2])
                            == n.incoming@[e];
                }
            }
        }
    }
}

/// `a` has an outgoing edge to `b`.
pub open spec fn spec_has_out_edge(nodes: Seq<Node>, a: NodeId, b: NodeId) -> bool {
    exists|i: int, e: int|
        0 <= i < nodes.len() && (#[trigger] nodes[i]).id == a && 0 <= e < nodes[i].outgoing@.len()
            && (#[trigger] nodes[i].outgoing@[e]).dst == b
}

/// `a` has an incoming edge from `b`.
pub open spec fn spec_has_inc_edge(nodes: Seq<Node>, a: NodeId, b: NodeId) -> bool {
    exists|i: int, e: int|
        0 <= i < nodes.len() && (#[trigger] nodes[i]).id == a && 0 <= e < nodes[i].incoming@.len()
            && (#[trigger] nodes[i].incoming@[e]).src == b
}

/// Two nodes are adjacent ignoring direction: an edge runs between them
/// either way.
pub open spec fn spec_adjacent(nodes: Seq<Node>, a: NodeId, b: NodeId) -> bool {
    spec_has_out_edge(nodes, a, b) || spec_has_inc_edge(nodes, a, b)
}

/// A path of undirected steps from `root` to `x`.
pub open spec fn spec_udj_path(nodes: Seq<Node>, root: NodeId, x: NodeId, p: Seq<NodeId>) -> bool {
    &&& p.len() >= 1
    &&& p[0] == root
    &&& p.last() == x
    &&& forall|k: int| 0 <= k < p.len() - 1 ==> spec_adjacent(nodes, #[trigger] p[k], p[k + 1])
}

/// Whether `x` is reachable from `root` by undirected steps.
pub open spec fn spec_udj_reachable(nodes: Seq<Node>, root: NodeId, x: NodeId) -> bool {
    exists|p: Seq<NodeId>| spec_udj_path(nodes, root, x, p)
}

/// A reachable node's neighbour is reachable.
proof fn lemma_reach_step(nodes: Seq<Node>, root: NodeId, x: NodeId, y: NodeId)
    requires
        spec_udj_reachable(nodes, root, x),
        spec_adjacent(nodes, x, y),
    ensures
        spec_udj_reachable(nodes, root, y),
{
    let p = choose|p: Seq<NodeId>| spec_udj_path(nodes, root, x, p);
    let p2 = p.push(y);
    assert forall|k: int| 0 <= k < p2.len() - 1 implies spec_adjacent(
        nodes,
        #[trigger] p2[k],
        p2[k + 1],
    ) by {
        if k < p.len() - 1 {
            assert(p2[k] == p[k] && p2[k + 1] == p[k + 1]);
        } else {
            assert(p2[k] == x && p2[k + 1] == y);
        }
    }
    assert(spec_udj_path(nodes, root, y, p2));
}

/// Everything reachable lies in any adjacency-closed set holding the root.
proof fn lemma_reach_in_closed(nodes: Seq<Node>, root: NodeId, x: NodeId, visited: Seq<NodeId>)
    requires
        spec_udj_reachable(nodes, root, x),
        spec_id_listed(visited, root),
        forall|a: NodeId, b: NodeId|
            spec_id_listed(visited, a) && #[trigger] spec_adjacent(nodes, a, b)
                && spec_graph_has(nodes, b) ==> spec_id_listed(visited, b),
    ensures
        spec_graph_has(nodes, x) ==> spec_id_listed(visited, x),
        x == root ==> spec_id_listed(visited, x),
{
    let p = choose|p: Seq<NodeId>| spec_udj_path(nodes, root, x, p);
    lemma_path_in_closed(nodes, root, x, visited, p);
}

/// Induction over the path for `lemma_reach_in_closed`.
proof fn lemma_path_in_closed(
    nodes: Seq<Node>,
    root: NodeId,
    x: NodeId,
    visited: Seq<NodeId>,
    p: Seq<NodeId>,
)
    requires
        spec_udj_path(nodes, root, x, p),
        spec_id_listed(visited, root),
        forall|a: NodeId, b: NodeId|
            spec_id_listed(visited, a) && #[trigger] spec_adjacent(nodes, a, b)
                && spec_graph_has(nodes, b) ==> spec_id_listed(visited, b),
    ensures
        spec_graph_has(nodes, x) ==> spec_id_listed(visited, x),
        x == root ==> spec_id_listed(visited, x),
    decreases p.len(),
{
    if p.len() == 1 {
        assert(x == root);
    } else {
        let q = p.drop_last();
        let y = q.last();
        assert(spec_udj_path(nodes, root, y, q)) by {
            assert forall|k: int| 0 <= k < q.len() - 1 implies spec_adjacent(
                nodes,
                #[trigger] q[k],
                q[k + 1],
            ) by {
                assert(q[k] == p[k] && q[k + 1] == p[k + 1]);
            }
        }
        lemma_path_in_closed(nodes, root, y, visited, q);
        assert(spec_adjacent(nodes, y, x)) by {
            assert(p[p.len() - 2] == y && p[p.len() - 1] == x);
        }
        if spec_graph_has(nodes, x) {
            if y == root || spec_graph_has(nodes, y) {
                assert(spec_id_listed(visited, y));
            } else {
                // an adjacency from y names y as a present node
                if spec_has_out_edge(nodes, y, x) {
                    let (i, e) = choose|i: int, e: int|
                        0 <= i < nodes.len() && (#[trigger] nodes[i]).id == y && 0 <= e
                            < nodes[i].outgoing@.len() && (#[trigger] nodes[i].outgoing@[e]).dst
                            == x;
                    assert(spec_graph_has(nodes, y));
                } else {
                    let (i, e) = choose|i: int, e: int|
                        0 <= i < nodes.len() && (#[trigger] nodes[i]).id == y && 0 <= e
                            < nodes[i].incoming@.len() && (#[trigger] nodes[i].incoming@[e]).src
                            == x;
                    assert(spec_graph_has(nodes, y));
                }
                assert(false);
            }
        }
    }
}

/// Whether an id occurs in a list.
pub open spec fn spec_id_listed(l: Seq<NodeId>, id: NodeId) -> bool {
    exists|i: int| 0 <= i < l.len() && (#[trigger] l[i]) == id
}

impl Graph {
    /// The value type of the node with this id.
    pub fn get_type(&self, id: NodeId) -> (r: Option<&Type>)
        ensures
            match r {
                Option::Some(t) => spec_graph_has(self.nodes@, id),
                Option::None => !spec_graph_has(self.nodes@, id),
            },
    {
        match self.find_node(id) {
            Some(i) => {
                proof {
                    assert(self.nodes@[i as int].id == id);
                }
                Some(self.nodes[i].get_type())
            },
            None => None,
        }
    }

    /// Whether the whole graph passes its validity check: root present and
    /// without incoming edges, all edges between present nodes, ports
    /// distinct.
    pub fn is_valid(&self) -> (r: bool)
        requires
            graph_wf(*self),
        ensures
            r == spec_rooted(*self),
    {
        let ri = match self.find_node(self.root) {
            Some(i) => i,
            None => {
                proof {
                    lemma_node_find_some(self.nodes@, self.root);
                    lemma_node_find_props(self.nodes@, self.root);
                }
                return false;
            },
        };
        proof {
            lemma_node_find_unique(self.nodes@, self.root, ri as int);
        }
        self.nodes[ri].incoming.len() == 0
    }

    /// Follow incoming edges from the current root until a node with none
    /// is reached, and make it the root.
    pub fn reroot(&mut self)
        requires
            graph_wf(*old(self)),
        ensures
            graph_wf(*final(self)),
            final(self).nodes == old(self).nodes,
            final(self).schema == old(self).schema,
            spec_rooted(*final(self)),
    {
        let mut current: usize = match self.find_node(self.root) {
            Some(i) => i,
            None => {
                proof {
                    lemma_node_find_some(self.nodes@, self.root);
                    lemma_node_find_props(self.nodes@, self.root);
                }
                return ;
            },
        };
        proof {
            lemma_node_find_unique(self.nodes@, self.root, current as int);
        }
        loop
            invariant
                graph_wf(*self),
                *self == *old(self),
                current < self.nodes@.len(),
            ensures
                current < self.nodes@.len(),
                self.nodes@[current as int].incoming@.len() == 0,
                *self == *old(self),
            decreases MAX_DEPTH_MAGNITUDE - self.nodes@[current as int].depth,
        {
            if self.nodes[current].incoming.len() == 0 {
                break ;
            }
            let src = self.nodes[current].incoming[0].src;
            proof {
                assert(spec_node_edges_ok(self.nodes@, self.nodes@[current as int]));
                assert(spec_graph_has(self.nodes@, src));
                lemma_node_find_some(self.nodes@, src);
                lemma_node_find_props(self.nodes@, src);
            }
            let next = match self.find_node(src) {
                Some(i) => i,
                None => {
                    proof {
                        assert(false);
                    }
                    return ;
                },
            };
            proof {
                lemma_node_find_unique(self.nodes@, src, next as int);
                assert(spec_depth_of(self.nodes@, src) > self.nodes@[current as int].depth);
            }
            current = next;
        }
        let new_root = self.nodes[current].id;
        self.root = new_root;
        proof {
            lemma_node_find_unique(self.nodes@, new_root, current as int);
        }
    }

    /// Mark-and-sweep from the root over undirected adjacency: drop exactly
    /// the nodes no undirected walk from the root reaches, and the edges
    /// that pointed at them.
    pub fn cleanup(&mut self)
        requires
            graph_wf(*old(self)),
        ensures
            graph_wf(*final(self)),
            final(self).root == old(self).root,
            final(self).schema == old(self).schema,
            // kept exactly the reachable nodes
            forall|j: int|
                0 <= j < final(self).nodes@.len() ==> spec_udj_reachable(
                    old(self).nodes@,
                    old(self).root,
                    (#[trigger] final(self).nodes@[j]).id,
                ),
            forall|j: int|
                0 <= j < old(self).nodes@.len() && spec_udj_reachable(
                    old(self).nodes@,
                    old(self).root,
                    (#[trigger] old(self).nodes@[j]).id,
                ) ==> spec_graph_has(final(self).nodes@, old(self).nodes@[j].id),
            // survivors keep id, depth and payload shape, and exactly the
            // edges whose far endpoint also survived
            forall|j: int|
                0 <= j < final(self).nodes@.len() ==> spec_survivor_witness(
                    old(self).nodes@,
                    final(self).nodes@,
                    #[trigger] final(self).nodes@[j],
                ),
    {
        let ghost pres = self.nodes@;
        let ghost root = self.root;
        // mark
        let mut visited: Vec<NodeId> = Vec::new();
        visited.push(self.root);
        proof {
            assert(visited@[0] == root);
            assert(spec_udj_path(pres, root, root, seq![root]));
        }
        let mut widx: usize = 0;
        while widx < visited.len()
            invariant
                graph_wf(*self),
                *self == *old(self),
                pres == old(self).nodes@,
                root == old(self).root,
                widx <= visited@.len(),
                spec_id_listed(visited@, root),
                forall|v: int|
                    0 <= v < visited@.len() ==> spec_udj_reachable(
                        pres,
                        root,
                        #[trigger] visited@[v],
                    ),
                forall|v: int, v2: int|
                    0 <= v < v2 < visited@.len() ==> (#[trigger] visited@[v]) != (
                    #[trigger] visited@[v2]),
                // everything adjacent to a processed entry is already listed
                forall|v: int, b: NodeId|
                    0 <= v < widx && #[trigger] spec_adjacent(pres, visited@[v], b)
                        && spec_graph_has(pres, b) ==> spec_id_listed(visited@, b),
                forall|v: int| 0 <= v < visited@.len() ==> spec_graph_has(
                    pres,
                    #[trigger] visited@[v],
                ),
            decreases pres.len() + 1 - widx,
        {
            let cur = visited[widx];
            let ci_opt = self.find_node(cur);
            match ci_opt {
                Some(ci) => {
                    proof {
                        lemma_node_find_unique(self.nodes@, cur, ci as int);
                    }
                    let ghost prevlen = visited@.len();
                    // neighbours along outgoing edges
                    let m1 = self.nodes[ci].outgoing.len();
                    let mut e: usize = 0;
                    while e < m1
                        invariant
                            graph_wf(*self),
                            *self == *old(self),
                            pres == old(self).nodes@,
                            root == old(self).root,
                            ci < self.nodes@.len(),
                            self.nodes@[ci as int].id == cur,
                            m1 == self.nodes@[ci as int].outgoing@.len(),
                            e <= m1,
                            widx < visited@.len(),
                            visited@[widx as int] == cur,
                            spec_id_listed(visited@, root),
                            forall|v: int|
                                0 <= v < visited@.len() ==> spec_udj_reachable(
                                    pres,
                                    root,
                                    #[trigger] visited@[v],
                                ),
                            forall|v: int, v2: int|
                                0 <= v < v2 < visited@.len() ==> (#[trigger] visited@[v]) != (
                                #[trigger] visited@[v2]),
                            forall|v: int, b: NodeId|
                                0 <= v < widx && #[trigger] spec_adjacent(pres, visited@[v], b)
                                    && spec_graph_has(pres, b) ==> spec_id_listed(visited@, b),
                            forall|e2: int|
                                0 <= e2 < e ==> spec_id_listed(
                                    visited@,
                                    (#[trigger] self.nodes@[ci as int].outgoing@[e2]).dst,
                                ),
                            forall|v: int| 0 <= v < visited@.len() ==> spec_graph_has(
                                pres,
                                #[trigger] visited@[v],
                            ),
                        decreases m1 - e,
                    {
                        let nb = self.nodes[ci].outgoing[e].dst;
                        let mut seen = false;
                        let vn = visited.len();
                        let mut v: usize = 0;
                        while v < vn && !seen
                            invariant
                                vn == visited@.len(),
                                v <= vn,
                                seen ==> spec_id_listed(visited@, nb),
                                !seen ==> forall|v2: int|
                                    0 <= v2 < v ==> (#[trigger] visited@[v2]) != nb,
                            decreases vn - v, (if seen {
                                0int
                            } else {
                                1int
                            }),
                        {
                            if visited[v] == nb {
                                seen = true;
                            } else {
                                v = v + 1;
                            }
                        }
                        if !seen {
                            let ghost prev = visited@;
                            proof {
                                assert(spec_has_out_edge(pres, cur, nb)) by {
                                    assert(pres[ci as int].id == cur && pres[
                                    ci as int].outgoing@[e as int].dst == nb);
                                }
                                lemma_reach_step(pres, root, cur, nb);
                            }
                            visited.push(nb);
                            proof {
                                lemma_after_mark_push(prev, visited@, pres, root, nb);
                            }
                        }
                        e = e + 1;
                    }
                    // neighbours along incoming edges
                    let m2 = self.nodes[ci].incoming.len();
                    let mut e9: usize = 0;
                    while e9 < m2
                        invariant
                            graph_wf(*self),
                            *self == *old(self),
                            pres == old(self).nodes@,
                            root == old(self).root,
                            ci < self.nodes@.len(),
                            self.nodes@[ci as int].id == cur,
                            m2 == self.nodes@[ci as int].incoming@.len(),
                            e9 <= m2,
                            widx < visited@.len(),
                            visited@[widx as int] == cur,
                            spec_id_listed(visited@, root),
                            forall|v: int|
                                0 <= v < visited@.len() ==> spec_udj_reachable(
                                    pres,
                                    root,
                                    #[trigger] visited@[v],
                                ),
                            forall|v: int, v2: int|
                                0 <= v < v2 < visited@.len() ==> (#[trigger] visited@[v]) != (
                                #[trigger] visited@[v2]),
                            forall|v: int, b: NodeId|
                                0 <= v < widx && #[trigger] spec_adjacent(pres, visited@[v], b)
                                    && spec_graph_has(pres, b) ==> spec_id_listed(visited@, b),
                            forall|e2: int|
                                0 <= e2 < self.nodes@[ci as int].outgoing@.len()
                                    ==> spec_id_listed(
                                    visited@,
                                    (#[trigger] self.nodes@[ci as int].outgoing@[e2]).dst,
                                ),
                            forall|e2: int|
                                0 <= e2 < e9 ==> spec_id_listed(
                                    visited@,
                                    (#[trigger] self.nodes@[ci as int].incoming@[e2]).src,
                                ),
                            forall|v: int| 0 <= v < visited@.len() ==> spec_graph_has(
                                pres,
                                #[trigger] visited@[v],
                            ),
                        decreases m2 - e9,
                    {
                        let nb = self.nodes[ci].incoming[e9].src;
                        let mut seen = false;
                        let vn = visited.len();
                        let mut v: usize = 0;
                        while v < vn && !seen
                            invariant
                                vn == visited@.len(),
                                v <= vn,
                                seen ==> spec_id_listed(visited@, nb),
                                !seen ==> forall|v2: int|
                                    0 <= v2 < v ==> (#[trigger] visited@[v2]) != nb,
                            decreases vn - v, (if seen {
                                0int
                            } else {
                                1int
                            }),
                        {
                            if visited[v] == nb {
                                seen = true;
                            } else {
                                v = v + 1;
                            }
                        }
                        if !seen {
                            let ghost prev = visited@;
                            proof {
                                assert(spec_has_inc_edge(pres, cur, nb)) by {
                                    assert(pres[ci as int].id == cur && pres[
                                    ci as int].incoming@[e9 as int].src == nb);
                                }
                                lemma_reach_step(pres, root, cur, nb);
                            }
                            visited.push(nb);
                            proof {
                                lemma_after_mark_push(prev, visited@, pres, root, nb);
                            }
                        }
                        e9 = e9 + 1;
                    }
                },
                None => {},
            }
            proof {
                assert forall|v: int, b: NodeId|
                    0 <= v < widx + 1 && #[trigger] spec_adjacent(pres, visited@[v], b)
                        && spec_graph_has(pres, b) implies spec_id_listed(visited@, b) by {
                    if v == widx {
                        if spec_graph_has(pres, visited@[v]) {
                            let ci2 = choose|i: int|
                                0 <= i < pres.len() && (#[trigger] pres[i]).id == visited@[v];
                            let (i, e) = choose|i: int, e: int|
                                0 <= i < pres.len() && ((#[trigger] pres[i]).id == visited@[v] && 0
                                    <= e < pres[i].outgoing@.len() && (
                                #[trigger] pres[i].outgoing@[e]).dst == b) || (0 <= i < pres.len()
                                    && pres[i].id == visited@[v] && 0 <= e
                                    < pres[i].incoming@.len() && pres[i].incoming@[e].src == b);
                        } else {
                            let (i, e) = choose|i: int, e: int|
                                0 <= i < pres.len() && ((#[trigger] pres[i]).id == visited@[v] && 0
                                    <= e < pres[i].outgoing@.len() && (
                                #[trigger] pres[i].outgoing@[e]).dst == b) || (0 <= i < pres.len()
                                    && pres[i].id == visited@[v] && 0 <= e
                                    < pres[i].incoming@.len() && pres[i].incoming@[e].src == b);
                            assert(spec_graph_has(pres, visited@[v]));
                            assert(false);
                        }
                    }
                }
            }
            proof {
                lemma_distinct_present_bound(visited@, pres);
            }
            widx = widx + 1;
        }
        // sweep: keep the visited nodes, prune edges to dropped ones
        let ghost marked = visited@;
        let mut kept: Vec<Node> = Vec::new();
        let n = self.nodes.len();
        let mut k: usize = 0;
        while k < n
            invariant
                graph_wf(*self),
                *self == *old(self),
                pres == old(self).nodes@,
                root == old(self).root,
                marked == visited@,
                n == pres.len(),
                k <= n,
                spec_id_listed(marked, root),
                forall|v: int|
                    0 <= v < marked.len() ==> spec_udj_reachable(pres, root, #[trigger] marked[v]),
                forall|a: NodeId, b: NodeId|
                    spec_id_listed(marked, a) && #[trigger] spec_adjacent(pres, a, b)
                        && spec_graph_has(pres, b) ==> spec_id_listed(marked, b),
                forall|j: int|
                    0 <= j < kept@.len() ==> spec_kept_witness(
                        pres,
                        marked,
                        #[trigger] kept@[j],
                        k as int,
                    ),
                forall|j2: int|
                    0 <= j2 < k && spec_id_listed(marked, (#[trigger] pres[j2]).id)
                        ==> spec_pres_kept(pres, marked, kept@, j2),
                forall|j: int, j2: int|
                    0 <= j < j2 < kept@.len() ==> (#[trigger] kept@[j]).id != (
                    #[trigger] kept@[j2]).id,
            decreases n - k,
        {
            let node = &self.nodes[k];
            let mut listed = false;
            let vn = visited.len();
            let mut v: usize = 0;
            while v < vn && !listed
                invariant
                    vn == visited@.len(),
                    k < n,
                    n == self.nodes@.len(),
                    *self == *old(self),
                    pres == old(self).nodes@,
                    *node == pres[k as int],
                    v <= vn,
                    listed ==> spec_id_listed(visited@, pres[k as int].id),
                    !listed ==> forall|v2: int|
                        0 <= v2 < v ==> (#[trigger] visited@[v2]) != pres[k as int].id,
                decreases vn - v, (if listed {
                    0int
                } else {
                    1int
                }),
            {
                if visited[v] == node.id {
                    listed = true;
                } else {
                    v = v + 1;
                }
            }
            if listed {
                proof {
                    assert(spec_node_edges_ok(pres, pres[k as int]));
                }
                let pruned = prune_node(node, &visited);
                let ghost before = kept@;
                kept.push(pruned);
                proof {
                    assert(spec_kept_node(pres, marked, kept@[before.len() as int], k as int));
                    assert forall|j: int| 0 <= j < kept@.len() implies spec_kept_witness(
                        pres,
                        marked,
                        #[trigger] kept@[j],
                        k as int + 1,
                    ) by {
                        if j < before.len() {
                            let j2 = choose|j2: int|
                                0 <= j2 < k && #[trigger] spec_kept_node(
                                    pres,
                                    marked,
                                    before[j],
                                    j2,
                                );
                            assert(kept@[j] == before[j]);
                            assert(spec_kept_node(pres, marked, kept@[j], j2));
                        }
                    }
                    assert forall|j2: int|
                        0 <= j2 < k + 1 && spec_id_listed(marked, (#[trigger] pres[j2]).id)
                        implies spec_pres_kept(pres, marked, kept@, j2) by {
                        if j2 < k {
                            let j = choose|j: int|
                                0 <= j < before.len() && #[trigger] spec_kept_node(
                                    pres,
                                    marked,
                                    before[j],
                                    j2,
                                );
                            assert(kept@[j] == before[j]);
                            assert(spec_kept_node(pres, marked, kept@[j], j2));
                        } else {
                            assert(spec_kept_node(
                                pres,
                                marked,
                                kept@[before.len() as int],
                                k as int,
                            ));
                        }
                    }
                    assert forall|j: int, j2: int|
                        0 <= j < j2 < kept@.len() implies (#[trigger] kept@[j]).id != (
                    #[trigger] kept@[j2]).id by {
                        let a = choose|a: int|
                            0 <= a < k + 1 && #[trigger] spec_kept_node(pres, marked, kept@[j], a);
                        let b = choose|b: int|
                            0 <= b < k + 1 && #[trigger] spec_kept_node(pres, marked, kept@[j2], b);
                        if a == b {
                            if j < before.len() && j2 < before.len() {
                                assert(before[j].id != before[j2].id);
                            } else {
                                assert(kept@[j].id == pres[a].id && kept@[j2].id == pres[b].id);
                                if j2 == before.len() && j < before.len() {
                                    let a2 = choose|a2: int|
                                        0 <= a2 < k && #[trigger] spec_kept_node(
                                            pres,
                                            marked,
                                            before[j],
                                            a2,
                                        );
                                    assert(pres[a2].id == pres[a].id);
                                    assert(a2 < k && a == k as int);
                                    assert(false);
                                }
                            }
                        } else {
                            assert(pres[a].id != pres[b].id);
                        }
                    }
                }
            } else {
                proof {
                    assert(!spec_id_listed(marked, pres[k as int].id));
                    assert forall|j: int| 0 <= j < kept@.len() implies spec_kept_witness(
                        pres,
                        marked,
                        #[trigger] kept@[j],
                        k as int + 1,
                    ) by {
                        let j2 = choose|j2: int|
                            0 <= j2 < k && #[trigger] spec_kept_node(pres, marked, kept@[j], j2);
                    }
                    assert forall|j2: int|
                        0 <= j2 < k + 1 && spec_id_listed(marked, (#[trigger] pres[j2]).id)
                        implies spec_pres_kept(pres, marked, kept@, j2) by {
                        if j2 >= k {
                            assert(false);
                        }
                    }
                }
            }
            k = k + 1;
        }
        self.nodes = kept;
        proof {
            // root is visited and so kept
            let ri = choose|i: int| 0 <= i < pres.len() && (#[trigger] pres[i]).id == root;
            assert(spec_id_listed(marked, pres[ri].id));
            lemma_cleanup_wf(pres, marked, self.nodes@, root);
            assert forall|j: int| 0 <= j < self.nodes@.len() implies spec_udj_reachable(
                pres,
                root,
                (#[trigger] self.nodes@[j]).id,
            ) by {
                assert(spec_kept_witness(pres, marked, self.nodes@[j], pres.len() as int));
                let j2 = choose|j2: int|
                    0 <= j2 < pres.len() && #[trigger] spec_kept_node(
                        pres,
                        marked,
                        self.nodes@[j],
                        j2,
                    );
                let v = choose|v: int|
                    0 <= v < marked.len() && (#[trigger] marked[v]) == self.nodes@[j].id;
            }
            assert forall|j: int|
                0 <= j < pres.len() && spec_udj_reachable(pres, root, (#[trigger] pres[j]).id)
                implies spec_graph_has(self.nodes@, pres[j].id) by {
                lemma_reach_in_closed(pres, root, pres[j].id, marked);
                assert(spec_id_listed(marked, pres[j].id));
                assert(spec_pres_kept(pres, marked, self.nodes@, j));
                let jj = choose|jj: int|
                    0 <= jj < self.nodes@.len() && #[trigger] spec_kept_node(
                        pres,
                        marked,
                        self.nodes@[jj],
                        j,
                    );
                assert(self.nodes@[jj].id == pres[j].id);
            }
            // ids of the final graph are exactly the marked, kept ids
            assert forall|x: NodeId| spec_graph_has(self.nodes@, x) implies spec_id_listed(
                marked,
                x,
            ) by {
                let k2 = choose|k2: int|
                    0 <= k2 < self.nodes@.len() && (#[trigger] self.nodes@[k2]).id == x;
                assert(spec_kept_witness(pres, marked, self.nodes@[k2], pres.len() as int));
                let j3 = choose|j3: int|
                    0 <= j3 < pres.len() && #[trigger] spec_kept_node(
                        pres,
                        marked,
                        self.nodes@[k2],
                        j3,
                    );
            }
            assert forall|x: NodeId|
                spec_id_listed(marked, x) && spec_graph_has(pres, x) implies spec_graph_has(
                self.nodes@,
                x,
            ) by {
                let j3 = choose|j3: int| 0 <= j3 < pres.len() && (#[trigger] pres[j3]).id == x;
                assert(spec_pres_kept(pres, marked, self.nodes@, j3));
                let jj = choose|jj: int|
                    0 <= jj < self.nodes@.len() && #[trigger] spec_kept_node(
                        pres,
                        marked,
                        self.nodes@[jj],
                        j3,
                    );
                assert(self.nodes@[jj].id == x);
            }
            assert forall|j: int| 0 <= j < self.nodes@.len() implies spec_survivor_witness(
                pres,
                self.nodes@,
                #[trigger] self.nodes@[j],
            ) by {
                assert(spec_kept_witness(pres, marked, self.nodes@[j], pres.len() as int));
                let j2 = choose|j2: int|
                    0 <= j2 < pres.len() && #[trigger] spec_kept_node(
                        pres,
                        marked,
                        self.nodes@[j],
                        j2,
                    );
                let nj = self.nodes@[j];
                assert forall|e: int|
                    0 <= e < nj.incoming@.len() implies spec_inc_listed(
                    pres[j2].incoming@,
                    #[trigger] nj.incoming@[e],
                ) && spec_graph_has(self.nodes@, nj.incoming@[e].src) by {
                    assert(spec_id_listed(marked, nj.incoming@[e].src));
                    let w = choose|w: int|
                        0 <= w < pres[j2].incoming@.len() && (#[trigger] pres[j2].incoming@[w])
                            == nj.incoming@[e];
                    assert(spec_node_edges_ok(pres, pres[j2]));
                    assert(spec_graph_has(pres, nj.incoming@[e].src));
                }
                assert forall|e: int|
                    0 <= e < nj.outgoing@.len() implies spec_out_listed(
                    pres[j2].outgoing@,
                    #[trigger] nj.outgoing@[e],
                ) && spec_graph_has(self.nodes@, nj.outgoing@[e].dst) by {
                    assert(spec_id_listed(marked, nj.outgoing@[e].dst));
                    let w = choose|w: int|
                        0 <= w < pres[j2].outgoing@.len() && (#[trigger] pres[j2].outgoing@[w])
                            == nj.outgoing@[e];
                    assert(spec_node_edges_ok(pres, pres[j2]));
                    assert(spec_graph_has(pres, nj.outgoing@[e].dst));
                }
                assert forall|e: int|
                    0 <= e < pres[j2].incoming@.len() && spec_graph_has(
                        self.nodes@,
                        (#[trigger] pres[j2].incoming@[e]).src,
                    ) implies spec_inc_listed(nj.incoming@, pres[j2].incoming@[e]) by {
                    assert(spec_id_listed(marked, pres[j2].incoming@[e].src));
                }
                assert forall|e: int|
                    0 <= e < pres[j2].outgoing@.len() && spec_graph_has(
                        self.nodes@,
                        (#[trigger] pres[j2].outgoing@[e]).dst,
                    ) implies spec_out_listed(nj.outgoing@, pres[j2].outgoing@[e]) by {
                    assert(spec_id_listed(marked, pres[j2].outgoing@[e].dst));
                }
                assert(spec_survivor(pres, self.nodes@, nj, j2));
            }
        }
    }
}

/// Distinct ids that all occur among the nodes cannot outnumber them.
proof fn lemma_distinct_present_bound(visited: Seq<NodeId>, nodes: Seq<Node>)
    requires
        forall|v: int, v2: int|
            0 <= v < v2 < visited.len() ==> (#[trigger] visited[v]) != (#[trigger] visited[v2]),
        forall|v: int| 0 <= v < visited.len() ==> spec_graph_has(nodes, #[trigger] visited[v]),
    ensures
        visited.len() <= nodes.len(),
{
    broadcast use vstd::seq_lib::seq_to_set_is_finite;
    broadcast use vstd::set::group_set_axioms;

    let ids = nodes.map_values(|n: Node| n.id);
    assert(visited.no_duplicates());
    visited.unique_seq_to_set();
    assert forall|x: NodeId| visited.to_set().contains(x) implies ids.to_set().contains(x) by {
        let v = choose|v: int| 0 <= v < visited.len() && visited[v] == x;
        assert(spec_graph_has(nodes, x));
        let i = choose|i: int| 0 <= i < nodes.len() && (#[trigger] nodes[i]).id == x;
        assert(ids[i] == x);
        assert(ids.contains(x));
    }
    vstd::set_lib::lemma_len_subset(visited.to_set(), ids.to_set());
    ids.lemma_cardinality_of_set();
}

/// Pushing a fresh id onto the marked list keeps its facts: old entries
/// stay listed, reachability and distinctness extend.
proof fn lemma_after_mark_push(
    prev: Seq<NodeId>,
    now: Seq<NodeId>,
    pres: Seq<Node>,
    root: NodeId,
    nb: NodeId,
)
    requires
        now == prev.push(nb),
        spec_id_listed(prev, root),
        forall|v: int| 0 <= v < prev.len() ==> spec_udj_reachable(pres, root, #[trigger] prev[v]),
        spec_udj_reachable(pres, root, nb),
        forall|v2: int| 0 <= v2 < prev.len() ==> (#[trigger] prev[v2]) != nb,
        forall|v: int, v2: int|
            0 <= v < v2 < prev.len() ==> (#[trigger] prev[v]) != (#[trigger] prev[v2]),
    ensures
        spec_id_listed(now, root),
        forall|v: int| 0 <= v < now.len() ==> spec_udj_reachable(pres, root, #[trigger] now[v]),
        forall|v: int, v2: int|
            0 <= v < v2 < now.len() ==> (#[trigger] now[v]) != (#[trigger] now[v2]),
        forall|id: NodeId| spec_id_listed(prev, id) ==> spec_id_listed(now, id),
        spec_id_listed(now, nb),
{
    let v0 = choose|v: int| 0 <= v < prev.len() && (#[trigger] prev[v]) == root;
    assert(now[v0] == root);
    assert forall|v: int| 0 <= v < now.len() implies spec_udj_reachable(
        pres,
        root,
        #[trigger] now[v],
    ) by {
        if v < prev.len() {
            assert(now[v] == prev[v]);
        } else {
            assert(now[v] == nb);
        }
    }
    assert forall|v: int, v2: int|
        0 <= v < v2 < now.len() implies (#[trigger] now[v]) != (#[trigger] now[v2]) by {
        if v2 < prev.len() {
            assert(now[v] == prev[v] && now[v2] == prev[v2]);
        } else {
            assert(now[v] == prev[v] && now[v2] == nb);
        }
    }
    assert forall|id: NodeId| spec_id_listed(prev, id) implies spec_id_listed(now, id) by {
        let v = choose|v: int| 0 <= v < prev.len() && (#[trigger] prev[v]) == id;
        assert(now[v] == id);
    }
    assert(now[prev.len() as int] == nb);
}

/// A survivor of the sweep, stated without the marking: the node at `j2`
/// kept its id, depth and payload shape; its edge lists shrank to exactly
/// the original edges whose far endpoint also survived.
pub open spec fn spec_survivor(pres: Seq<Node>, now: Seq<Node>, nj: Node, j2: int) -> bool {
    &&& 0 <= j2 < pres.len()
    &&& nj.id == pres[j2].id
    &&& nj.depth == pres[j2].depth
    &&& (nj.payload is Constant <==> pres[j2].payload is Constant)
    &&& (nj.payload is Api ==> pres[j2].payload is Api && nj.payload->Api_signature.args@.len()
        == pres[j2].payload->Api_signature.args@.len())
    &&& forall|e: int|
        0 <= e < nj.incoming@.len() ==> spec_inc_listed(
            pres[j2].incoming@,
            #[trigger] nj.incoming@[e],
        ) && spec_graph_has(now, nj.incoming@[e].src)
    &&& forall|e: int|
        0 <= e < nj.outgoing@.len() ==> spec_out_listed(
            pres[j2].outgoing@,
            #[trigger] nj.outgoing@[e],
        ) && spec_graph_has(now, nj.outgoing@[e].dst)
    &&& forall|e: int|
        0 <= e < pres[j2].incoming@.len() && spec_graph_has(
            now,
            (#[trigger] pres[j2].incoming@[e]).src,
        ) ==> spec_inc_listed(nj.incoming@, pres[j2].incoming@[e])
    &&& forall|e: int|
        0 <= e < pres[j2].outgoing@.len() && spec_graph_has(
            now,
            (#[trigger] pres[j2].outgoing@[e]).dst,
        ) ==> spec_out_listed(nj.outgoing@, pres[j2].outgoing@[e])
}

/// Some original position explains this survivor.
pub open spec fn spec_survivor_witness(pres: Seq<Node>, now: Seq<Node>, nj: Node) -> bool {
    exists|j2: int| #[trigger] spec_survivor(pres, now, nj, j2)
}

/// Some original position under `bound` explains this kept node.
pub open spec fn spec_kept_witness(pres: Seq<Node>, marked: Seq<NodeId>, kept_n: Node, bound: int) -> bool {
    exists|j2: int| 0 <= j2 < bound && #[trigger] spec_kept_node(pres, marked, kept_n, j2)
}

/// Some kept node explains the original at `j2`.
pub open spec fn spec_pres_kept(pres: Seq<Node>, marked: Seq<NodeId>, kept: Seq<Node>, j2: int) -> bool {
    exists|j: int| 0 <= j < kept.len() && #[trigger] spec_kept_node(pres, marked, kept[j], j2)
}

/// `kept` is `pres[j2]` restricted to marked edge endpoints: every kept
/// edge is an original one with a marked endpoint, and every original edge
/// with a marked endpoint is kept.
pub open spec fn spec_kept_node(pres: Seq<Node>, marked: Seq<NodeId>, kept: Node, j2: int) -> bool {
    &&& 0 <= j2 < pres.len()
    &&& kept.id == pres[j2].id
    &&& kept.depth == pres[j2].depth
    &&& (kept.payload is Constant <==> pres[j2].payload is Constant)
    &&& (kept.payload is Api ==> pres[j2].payload is Api
        && kept.payload->Api_signature.args@.len()
        == pres[j2].payload->Api_signature.args@.len())
    &&& spec_id_listed(marked, kept.id)
    &&& forall|e: int|
        0 <= e < kept.incoming@.len() ==> spec_inc_listed(
            pres[j2].incoming@,
            #[trigger] kept.incoming@[e],
        ) && spec_id_listed(marked, kept.incoming@[e].src)
    &&& forall|e: int|
        0 <= e < kept.outgoing@.len() ==> spec_out_listed(
            pres[j2].outgoing@,
            #[trigger] kept.outgoing@[e],
        ) && spec_id_listed(marked, kept.outgoing@[e].dst)
    &&& forall|e: int|
        0 <= e < pres[j2].incoming@.len() && spec_id_listed(
            marked,
            (#[trigger] pres[j2].incoming@[e]).src,
        ) ==> spec_inc_listed(kept.incoming@, pres[j2].incoming@[e])
    &&& forall|e: int|
        0 <= e < pres[j2].outgoing@.len() && spec_id_listed(
            marked,
            (#[trigger] pres[j2].outgoing@[e]).dst,
        ) ==> spec_out_listed(kept.outgoing@, pres[j2].outgoing@[e])
    &&& forall|e: int, e2: int|
        0 <= e < e2 < kept.incoming@.len() ==> (#[trigger] kept.incoming@[e]).port != (
        #[trigger] kept.incoming@[e2]).port
    &&& (kept.payload is Constant ==> kept.incoming@.len() == 0)
}

/// Filter a node's edges down to marked endpoints.
fn prune_node(node: &Node, visited: &Vec<NodeId>) -> (r: Node)
    requires
        forall|e2: int, e3: int|
            0 <= e2 < e3 < node.incoming@.len() ==> (#[trigger] node.incoming@[e2]).port != (
            #[trigger] node.incoming@[e3]).port,
    ensures
        r.id == node.id,
        r.depth == node.depth,
        (r.payload is Constant <==> node.payload is Constant),
        (r.payload is Api <==> node.payload is Api),
        r.payload is Api ==> r.payload->Api_signature.args@.len()
            == node.payload->Api_signature.args@.len(),
        forall|e: int|
            0 <= e < r.incoming@.len() ==> spec_inc_listed(
                node.incoming@,
                #[trigger] r.incoming@[e],
            ) && spec_id_listed(visited@, r.incoming@[e].src),
        forall|e: int|
            0 <= e < r.outgoing@.len() ==> spec_out_listed(
                node.outgoing@,
                #[trigger] r.outgoing@[e],
            ) && spec_id_listed(visited@, r.outgoing@[e].dst),
        forall|e: int|
            0 <= e < node.incoming@.len() && spec_id_listed(
                visited@,
                (#[trigger] node.incoming@[e]).src,
            ) ==> spec_inc_listed(r.incoming@, node.incoming@[e]),
        forall|e: int|
            0 <= e < node.outgoing@.len() && spec_id_listed(
                visited@,
                (#[trigger] node.outgoing@[e]).dst,
            ) ==> spec_out_listed(r.outgoing@, node.outgoing@[e]),
        forall|e: int, e2: int|
            0 <= e < e2 < r.incoming@.len() ==> (#[trigger] r.incoming@[e]).port != (
            #[trigger] r.incoming@[e2]).port,
        node.incoming@.len() == 0 ==> r.incoming@.len() == 0,
{
    let mut incoming: Vec<IncomingEdge> = Vec::new();
    let m1 = node.incoming.len();
    let mut e: usize = 0;
    while e < m1
        invariant
            m1 == node.incoming@.len(),
            e <= m1,
            forall|e2: int|
                0 <= e2 < incoming@.len() ==> spec_inc_listed(
                    node.incoming@,
                    #[trigger] incoming@[e2],
                ) && spec_id_listed(visited@, incoming@[e2].src),
            forall|e2: int|
                0 <= e2 < incoming@.len() ==> exists|o: int|
                    0 <= o < e && (#[trigger] incoming@[e2]) == node.incoming@[o],
            forall|e2: int|
                0 <= e2 < e && spec_id_listed(visited@, (#[trigger] node.incoming@[e2]).src)
                    ==> spec_inc_listed(incoming@, node.incoming@[e2]),
            forall|e2: int, e3: int|
                0 <= e2 < e3 < node.incoming@.len() ==> (#[trigger] node.incoming@[e2]).port != (
                #[trigger] node.incoming@[e3]).port,
            forall|e2: int, e3: int|
                0 <= e2 < e3 < incoming@.len() ==> (#[trigger] incoming@[e2]).port != (
                #[trigger] incoming@[e3]).port,
            incoming@.len() <= e,
        decreases m1 - e,
    {
        let edge = node.incoming[e];
        let mut seen = false;
        let vn = visited.len();
        let mut v: usize = 0;
        while v < vn && !seen
            invariant
                vn == visited@.len(),
                v <= vn,
                seen ==> spec_id_listed(visited@, edge.src),
                !seen ==> forall|v2: int| 0 <= v2 < v ==> (#[trigger] visited@[v2]) != edge.src,
                e < m1,
                edge == node.incoming@[e as int],
            decreases vn - v, (if seen {
                0int
            } else {
                1int
            }),
        {
            if visited[v] == edge.src {
                seen = true;
            } else {
                v = v + 1;
            }
        }
        if seen {
            let ghost before = incoming@;
            incoming.push(edge);
            proof {
                assert(incoming@.last() == node.incoming@[e as int]);
                assert(spec_inc_listed(incoming@, node.incoming@[e as int])) by {
                    assert(incoming@[incoming@.len() - 1] == node.incoming@[e as int]);
                }
                assert forall|e2: int|
                    0 <= e2 < e + 1 && spec_id_listed(
                        visited@,
                        (#[trigger] node.incoming@[e2]).src,
                    ) implies spec_inc_listed(incoming@, node.incoming@[e2]) by {
                    if e2 < e {
                        let w = choose|w: int|
                            0 <= w < before.len() && (#[trigger] before[w]) == node.incoming@[e2];
                        assert(incoming@[w] == node.incoming@[e2]);
                    }
                }
                assert forall|e2: int, e3: int|
                    0 <= e2 < e3 < incoming@.len() implies (#[trigger] incoming@[e2]).port != (
                #[trigger] incoming@[e3]).port by {
                    if e3 == before.len() {
                        assert(incoming@[e2] == before[e2]);
                        let o = choose|o: int|
                            0 <= o < e && (#[trigger] before[e2]) == node.incoming@[o];
                        assert(node.incoming@[o].port != node.incoming@[e as int].port);
                    } else {
                        assert(incoming@[e2] == before[e2] && incoming@[e3] == before[e3]);
                    }
                }
                assert forall|e2: int|
                    0 <= e2 < incoming@.len() implies exists|o: int|
                    0 <= o < e + 1 && (#[trigger] incoming@[e2]) == node.incoming@[o] by {
                    if e2 < before.len() {
                        let o = choose|o: int|
                            0 <= o < e && (#[trigger] before[e2]) == node.incoming@[o];
                        assert(incoming@[e2] == node.incoming@[o]);
                    } else {
                        assert(incoming@[e2] == node.incoming@[e as int]);
                    }
                }
            }
        } else {
            proof {
                assert(!spec_id_listed(visited@, node.incoming@[e as int].src));
                assert forall|e2: int|
                    0 <= e2 < incoming@.len() implies exists|o: int|
                    0 <= o < e + 1 && (#[trigger] incoming@[e2]) == node.incoming@[o] by {
                    let o = choose|o: int|
                        0 <= o < e && (#[trigger] incoming@[e2]) == node.incoming@[o];
                }
            }
        }
        e = e + 1;
    }
    let mut outgoing: Vec<OutgoingEdge> = Vec::new();
    let m2 = node.outgoing.len();
    let mut e8: usize = 0;
    while e8 < m2
        invariant
            m2 == node.outgoing@.len(),
            e8 <= m2,
            forall|e2: int|
                0 <= e2 < outgoing@.len() ==> spec_out_listed(
                    node.outgoing@,
                    #[trigger] outgoing@[e2],
                ) && spec_id_listed(visited@, outgoing@[e2].dst),
            forall|e2: int|
                0 <= e2 < e8 && spec_id_listed(visited@, (#[trigger] node.outgoing@[e2]).dst)
                    ==> spec_out_listed(outgoing@, node.outgoing@[e2]),
        decreases m2 - e8,
    {
        let edge = node.outgoing[e8];
        let mut seen = false;
        let vn = visited.len();
        let mut v: usize = 0;
        while v < vn && !seen
            invariant
                vn == visited@.len(),
                v <= vn,
                seen ==> spec_id_listed(visited@, edge.dst),
                !seen ==> forall|v2: int| 0 <= v2 < v ==> (#[trigger] visited@[v2]) != edge.dst,
                e8 < m2,
                edge == node.outgoing@[e8 as int],
            decreases vn - v, (if seen {
                0int
            } else {
                1int
            }),
        {
            if visited[v] == edge.dst {
                seen = true;
            } else {
                v = v + 1;
            }
        }
        if seen {
            let ghost before_out = outgoing@;
            outgoing.push(edge);
            proof {
                assert(outgoing@.last() == node.outgoing@[e8 as int]);
                assert forall|e2: int|
                    0 <= e2 < e8 + 1 && spec_id_listed(
                        visited@,
                        (#[trigger] node.outgoing@[e2]).dst,
                    ) implies spec_out_listed(outgoing@, node.outgoing@[e2]) by {
                    if e2 < e8 {
                        let w = choose|w: int|
                            0 <= w < before_out.len() && (#[trigger] before_out[w])
                                == node.outgoing@[e2];
                        assert(outgoing@[w] == node.outgoing@[e2]);
                    } else {
                        assert(outgoing@[outgoing@.len() - 1] == node.outgoing@[e2]);
                    }
                }
            }
        } else {
            proof {
                assert(!spec_id_listed(visited@, node.outgoing@[e8 as int].dst));
            }
        }
        e8 = e8 + 1;
    }
    let cloned_payload: NodePayload = clone_payload(&node.payload);
    Node { id: node.id, payload: cloned_payload, incoming, outgoing, depth: node.depth }
}

/// Deep copy of a node payload.
pub fn clone_payload(p: &NodePayload) -> (r: NodePayload)
    ensures
        (r is Constant <==> *p is Constant),
        (r is Api <==> *p is Api),
        *p is Api ==> r->Api_signature.args@.len() == p->Api_signature.args@.len(),
{
    match p {
        NodePayload::Constant { typ, value } => NodePayload::Constant {
            typ: crate::schema::clone_type(typ),
            value: value.clone(),
        },
        NodePayload::Api { signature, name, context } => {
            let mut ctx: Vec<u8> = Vec::new();
            let m = context.len();
            let mut i: usize = 0;
            while i < m
                invariant
                    m == context@.len(),
                    i <= m,
                    ctx@.len() == i,
                    forall|j: int| 0 <= j < i ==> ctx@[j] == context@[j],
                decreases m - i,
            {
                ctx.push(context[i]);
                i = i + 1;
            }
            NodePayload::Api { signature: signature.clone(), name: name.clone(), context: ctx }
        },
    }
}

/// The pruned survivors of a marked sweep form a valid graph again.
proof fn lemma_cleanup_wf(pres: Seq<Node>, marked: Seq<NodeId>, kept: Seq<Node>, root: NodeId)
    requires
        spec_node_ids_unique(pres),
        forall|j: int| 0 <= j < pres.len() ==> spec_node_edges_ok(pres, #[trigger] pres[j]),
        forall|j: int|
            0 <= j < pres.len() ==> -MAX_DEPTH_MAGNITUDE < (#[trigger] pres[j]).depth
                < MAX_DEPTH_MAGNITUDE,
        spec_graph_has(pres, root),
        spec_id_listed(marked, root),
        forall|j: int|
            0 <= j < kept.len() ==> spec_kept_witness(pres, marked, #[trigger] kept[j], pres.len() as int),
        forall|j2: int|
            0 <= j2 < pres.len() && spec_id_listed(marked, (#[trigger] pres[j2]).id)
                ==> spec_pres_kept(pres, marked, kept, j2),
        forall|j: int, j2: int|
            0 <= j < j2 < kept.len() ==> (#[trigger] kept[j]).id != (#[trigger] kept[j2]).id,
    ensures
        spec_node_ids_unique(kept),
        spec_graph_has(kept, root),
        forall|j: int| 0 <= j < kept.len() ==> spec_node_edges_ok(kept, #[trigger] kept[j]),
        forall|j: int|
            0 <= j < kept.len() ==> -MAX_DEPTH_MAGNITUDE < (#[trigger] kept[j]).depth
                < MAX_DEPTH_MAGNITUDE,
{
    let ri = choose|i: int| 0 <= i < pres.len() && (#[trigger] pres[i]).id == root;
    assert(spec_id_listed(marked, pres[ri].id));
    assert(spec_pres_kept(pres, marked, kept, ri));
    let rj = choose|j: int|
        0 <= j < kept.len() && #[trigger] spec_kept_node(pres, marked, kept[j], ri);
    assert(kept[rj].id == root);
    assert forall|j: int|
        0 <= j < kept.len() implies -MAX_DEPTH_MAGNITUDE < (#[trigger] kept[j]).depth
        < MAX_DEPTH_MAGNITUDE by {
        assert(spec_kept_witness(pres, marked, kept[j], pres.len() as int));
        let j2 = choose|j2: int|
            0 <= j2 < pres.len() && #[trigger] spec_kept_node(pres, marked, kept[j], j2);
    }
    assert forall|j: int| 0 <= j < kept.len() implies spec_node_edges_ok(kept, #[trigger] kept[j])
        by {
        assert(spec_kept_witness(pres, marked, kept[j], pres.len() as int));
        let j2 = choose|j2: int|
            0 <= j2 < pres.len() && #[trigger] spec_kept_node(pres, marked, kept[j], j2);
        let n = kept[j];
        assert(spec_node_edges_ok(pres, pres[j2]));
        assert forall|e: int|
            0 <= e < n.incoming@.len() implies spec_graph_has(
            kept,
            (#[trigger] n.incoming@[e]).src,
        ) && spec_depth_of(kept, n.incoming@[e].src) > n.depth by {
            let oe = choose|oe: int|
                0 <= oe < pres[j2].incoming@.len() && (#[trigger] pres[j2].incoming@[oe])
                    == n.incoming@[e];
            let src = n.incoming@[e].src;
            assert(spec_graph_has(pres, src));
            let sj2 = choose|i: int| 0 <= i < pres.len() && (#[trigger] pres[i]).id == src;
            assert(spec_id_listed(marked, src));
            assert(spec_pres_kept(pres, marked, kept, sj2));
            let sj = choose|sj: int|
                0 <= sj < kept.len() && #[trigger] spec_kept_node(pres, marked, kept[sj], sj2);
            assert(kept[sj].id == src);
            lemma_node_find_unique(pres, src, sj2);
            assert forall|i2: int, j3: int|
                0 <= i2 < j3 < kept.len() implies (#[trigger] kept[i2]).id != (
            #[trigger] kept[j3]).id by {}
            lemma_node_find_unique(kept, src, sj);
            assert(spec_depth_of(kept, src) == kept[sj].depth as int);
            assert(kept[sj].depth == pres[sj2].depth);
        }
        if n.payload is Api {
            assert forall|e: int| 0 <= e < n.incoming@.len() implies (
            #[trigger] n.incoming@[e]).port < n.payload->Api_signature.args@.len() by {
                let oe = choose|oe: int|
                    0 <= oe < pres[j2].incoming@.len() && (#[trigger] pres[j2].incoming@[oe])
                        == n.incoming@[e];
            }
        }
        assert forall|e: int|
            0 <= e < n.outgoing@.len() implies spec_graph_has(
            kept,
            (#[trigger] n.outgoing@[e]).dst,
        ) && spec_depth_of(kept, n.outgoing@[e].dst) < n.depth by {
            let oe = choose|oe: int|
                0 <= oe < pres[j2].outgoing@.len() && (#[trigger] pres[j2].outgoing@[oe])
                    == n.outgoing@[e];
            let dst = n.outgoing@[e].dst;
            assert(spec_graph_has(pres, dst));
            let dj2 = choose|i: int| 0 <= i < pres.len() && (#[trigger] pres[i]).id == dst;
            assert(spec_id_listed(marked, dst));
            assert(spec_pres_kept(pres, marked, kept, dj2));
            let dj = choose|dj: int|
                0 <= dj < kept.len() && #[trigger] spec_kept_node(pres, marked, kept[dj], dj2);
            assert(kept[dj].id == dst);
            lemma_node_find_unique(pres, dst, dj2);
            lemma_node_find_unique(kept, dst, dj);
            assert(spec_depth_of(kept, dst) == kept[dj].depth as int);
            assert(kept[dj].depth == pres[dj2].depth);
        }
    }
}

/// Probability of reusing an existing node for an unfilled port.
pub const FILL_REUSE_RATE: u64 = 0;

/// Probability of closing an unfilled port with a constant rather than a
/// producing call (as a fixed-point weight).
pub const FILL_CONSTANT_RATE: u64 = 0x8000_0000;

/// Some incoming edge fills port `p`.
pub open spec fn spec_port_present(n: Node, p: int) -> bool {
    exists|e: int| 0 <= e < n.incoming@.len() && (#[trigger] n.incoming@[e]).port == p
}

/// Every argument port of this API node has an incoming edge.
pub open spec fn spec_ports_filled(n: Node) -> bool {
    n.payload is Api ==> forall|p: int|
        0 <= p < n.payload->Api_signature.args@.len() ==> #[trigger] spec_port_present(n, p)
}

/// How many nodes still have an open argument port: the work a completion
/// pass starts with.
pub open spec fn spec_unfilled_count(nodes: Seq<Node>) -> int
    decreases nodes.len(),
{
    if nodes.len() == 0 {
        0
    } else {
        spec_unfilled_count(nodes.drop_last()) + if spec_ports_filled(nodes.last()) {
            0int
        } else {
            1int
        }
    }
}

/// The open-port count is non-negative, and zero exactly when every node's
/// ports are filled.
pub proof fn lemma_unfilled_count(nodes: Seq<Node>)
    ensures
        spec_unfilled_count(nodes) >= 0,
        (spec_unfilled_count(nodes) == 0) == (forall|j: int|
            0 <= j < nodes.len() ==> spec_ports_filled(#[trigger] nodes[j])),
    decreases nodes.len(),
{
    if nodes.len() > 0 {
        lemma_unfilled_count(nodes.drop_last());
        if spec_unfilled_count(nodes) == 0 {
            assert forall|j: int| 0 <= j < nodes.len() implies spec_ports_filled(
                #[trigger] nodes[j],
            ) by {
                if j < nodes.len() - 1 {
                    assert(nodes.drop_last()[j] == nodes[j]);
                } else {
                    assert(nodes[j] == nodes.last());
                }
            }
        }
        if forall|j: int| 0 <= j < nodes.len() ==> spec_ports_filled(#[trigger] nodes[j]) {
            assert forall|j: int| 0 <= j < nodes.drop_last().len() implies spec_ports_filled(
                #[trigger] nodes.drop_last()[j],
            ) by {
                assert(nodes.drop_last()[j] == nodes[j]);
            }
        }
    }
}

/// A node with every port filled, distinct in-range ports, is fulfilled.
pub proof fn lemma_filled_is_fulfilled(n: Node)
    requires
        spec_ports_filled(n),
        forall|e: int, e2: int|
            0 <= e < e2 < n.incoming@.len() ==> (#[trigger] n.incoming@[e]).port != (
            #[trigger] n.incoming@[e2]).port,
        n.payload is Api ==> forall|e: int|
            0 <= e < n.incoming@.len() ==> (#[trigger] n.incoming@[e]).port
                < n.payload->Api_signature.args@.len(),
        n.payload is Constant ==> n.incoming@.len() == 0,
    ensures
        spec_fulfilled(n),
{
    broadcast use vstd::seq_lib::seq_to_set_is_finite;
    broadcast use vstd::set::group_set_axioms;

    match n.payload {
        NodePayload::Constant { .. } => {},
        NodePayload::Api { signature, .. } => {
            let argc = signature.args@.len() as int;
            let ports = n.incoming@.map_values(|e: IncomingEdge| e.port);
            assert(ports.no_duplicates()) by {
                assert forall|a: int, b: int|
                    0 <= a < ports.len() && 0 <= b < ports.len() && a != b implies ports[a]
                    != ports[b] by {
                    if a < b {
                        assert(n.incoming@[a].port != n.incoming@[b].port);
                    } else {
                        assert(n.incoming@[b].port != n.incoming@[a].port);
                    }
                }
            }
            ports.unique_seq_to_set();
            let range = Set::new(|p: usize| 0 <= p < argc);
            assert(range =~= Set::new(|p: usize| p < argc));
            vstd::set_lib::lemma_int_range(0, argc);
            let irange = vstd::set_lib::set_int_range(0, argc);
            // ports as a set is exactly the port range
            assert forall|p: usize| ports.to_set().contains(p) implies irange.contains(p as int)
                by {
                let e = choose|e: int| 0 <= e < ports.len() && ports[e] == p;
                assert(n.incoming@[e].port == p);
            }
            assert forall|p: int| irange.contains(p) implies exists|q: usize|
                ports.to_set().contains(q) && q as int == p by {
                assert(0 <= p < argc);
                assert(spec_port_present(n, p));
                let e = choose|e: int|
                    0 <= e < n.incoming@.len() && (#[trigger] n.incoming@[e]).port == p;
                assert(ports[e] == n.incoming@[e].port);
                assert(ports.to_set().contains(n.incoming@[e].port));
            }
            let mapped = ports.to_set().map(|p: usize| p as int);
            assert(mapped =~= irange) by {
                assert forall|x: int| mapped.contains(x) implies irange.contains(x) by {
                    let q = choose|q: usize| ports.to_set().contains(q) && q as int == x;
                }
                assert forall|x: int| irange.contains(x) implies mapped.contains(x) by {
                    let q = choose|q: usize| ports.to_set().contains(q) && q as int == x;
                    assert(ports.to_set().contains(q));
                }
            }
            vstd::set_lib::lemma_map_size(ports.to_set(), mapped, |p: usize| p as int);
            assert(ports.to_set().len() == argc);
            assert(ports.len() == n.incoming@.len());
        },
    }
}

impl Graph {
    /// Start a graph: pick a non-builtin endpoint, sample its signature, and
    /// make it the root node at depth zero.
    pub fn seed(rand: &mut Rand, schema: &Schema) -> (r: Result<Graph, RailcarError>)
        requires
            rand_wf(*old(rand)),
            schema_wf(*schema),
        ensures
            rand_wf(*final(rand)),
            r is Ok ==> graph_wf(r->Ok_0) && spec_rooted(r->Ok_0) && schema_wf((r->Ok_0).schema),
            r is Ok ==> {
                let g = r->Ok_0;
                &&& crate::schema::schema_eq_spec(g.schema, *schema)
                &&& g.nodes@.len() == 1
                &&& g.nodes@[0].depth == 0
                &&& g.nodes@[0].payload is Api
                &&& crate::schema::spec_schema_has(*schema, g.nodes@[0].payload->Api_name@)
            },
            (crate::schema::schema_ready(*schema) && exists|i: int|
                0 <= i < schema.entries@.len() && !((#[trigger] schema.entries@[i]).1.builtin
                    == Option::Some(true))) ==> r is Ok,
    {
        let n = schema.entries.len();
        let mut cands: Vec<usize> = Vec::new();
        let mut e: usize = 0;
        while e < n
            invariant
                n == schema.entries@.len(),
                e <= n,
                forall|c: int| 0 <= c < cands@.len() ==> (#[trigger] cands@[c]) < n,
                forall|i: int|
                    0 <= i < e && !((#[trigger] schema.entries@[i]).1.builtin == Option::Some(
                        true,
                    )) ==> cands@.len() > 0,
            decreases n - e,
        {
            let skip = match schema.entries[e].1.builtin {
                Some(b) => b,
                None => false,
            };
            if !skip {
                cands.push(e);
            }
            e = e + 1;
        }
        if cands.len() == 0 {
            return Err(RailcarError::Unknown("no non-builtin endpoint to seed from".to_owned()));
        }
        let pick = cands[rand.pick_index(cands.len())];
        let name = schema.entries[pick].0.clone();
        proof {
            let ei = pick as int;
            assert(crate::schema::sig_guess_wf(schema.entries@[ei].1));
        }
        let signature = match schema.entries[pick].1.sample_signature(rand) {
            Ok(s) => s,
            Err(e2) => {
                return Err(e2);
            },
        };
        let context = crate::rng::context_byte_seq(rand, None);
        proof {
            assert(schema.entries@[pick as int].0@ == name@);
            assert(crate::schema::spec_schema_has(*schema, name@));
        }
        let root = Node::api(0, name, signature, context, 0);
        Ok(Graph::from_node(root, schema.clone()))
    }

    /// Fill every open argument port of the node with this id: reuse a
    /// strictly deeper value of the right type, mint a producing call, or
    /// fall back to a constant sampled from the node's context bytes. Newly
    /// minted nodes go on the worklist.
    #[verifier::rlimit(100)]
    #[verifier::spinoff_prover]
    pub fn fill_node(
        &mut self,
        rand: &mut Rand,
        id: NodeId,
        remaining: &mut Vec<NodeId>,
        use_endpoints: bool,
    ) -> (r: Result<(), RailcarError>)
        requires
            rand_wf(*old(rand)),
            graph_wf(*old(self)),
            schema_wf(old(self).schema),
        ensures
            rand_wf(*final(rand)),
            r is Ok ==> {
                &&& graph_wf(*final(self))
                &&& schema_wf(final(self).schema)
                &&& final(self).schema == old(self).schema
                &&& final(self).root == old(self).root
                &&& final(self).nodes@.len() >= old(self).nodes@.len()
                &&& forall|t: int| 0 <= t < old(remaining)@.len() ==> final(remaining)@[t] == old(
                    remaining,
                )@[t]
                &&& final(remaining)@.len() >= old(remaining)@.len()
                &&& forall|t: int|
                    old(remaining)@.len() <= t < final(remaining)@.len() ==> spec_graph_has(
                        final(self).nodes@,
                        #[trigger] final(remaining)@[t],
                    )
                &&& forall|j: int|
                    0 <= j < final(self).nodes@.len() && !spec_ports_filled(
                        #[trigger] final(self).nodes@[j],
                    ) ==> final(self).nodes@[j].id != id && ((exists|k2: int|
                        0 <= k2 < old(self).nodes@.len() && (#[trigger] old(self).nodes@[k2]).id
                            == final(self).nodes@[j].id && !spec_ports_filled(old(self).nodes@[k2]))
                        || spec_id_in_list_from(
                        final(remaining)@,
                        old(remaining)@.len() as int,
                        final(self).nodes@[j].id,
                    ))
                &&& forall|id2: NodeId|
                    spec_graph_has(old(self).nodes@, id2) ==> spec_graph_has(
                        final(self).nodes@,
                        id2,
                    )
            },
    {
        let ghost olds = old(self).nodes@;
        let ghost oldrem = old(remaining)@;
        let ci = match self.find_node(id) {
            Some(i) => i,
            None => {
                return Ok(());
            },
        };
        proof {
            lemma_node_find_unique(self.nodes@, id, ci as int);
        }
        let (argc, context) = {
            let node = &self.nodes[ci];
            match &node.payload {
                NodePayload::Constant { .. } => {
                    proof {
                        assert(spec_ports_filled(self.nodes@[ci as int]));
                        assert forall|j: int|
                            0 <= j < self.nodes@.len() && !spec_ports_filled(
                                #[trigger] self.nodes@[j],
                            ) implies self.nodes@[j].id != id && ((exists|k2: int|
                            0 <= k2 < olds.len() && (#[trigger] olds[k2]).id == self.nodes@[j].id
                                && !spec_ports_filled(olds[k2])) || spec_id_in_list_from(
                            remaining@,
                            oldrem.len() as int,
                            self.nodes@[j].id,
                        )) by {
                            if self.nodes@[j].id == id {
                                assert(j == ci as int);
                            }
                        }
                    }
                    return Ok(());
                },
                NodePayload::Api { signature, context, .. } => {
                    let mut ctx: Vec<u8> = Vec::new();
                    let m = context.len();
                    let mut i: usize = 0;
                    while i < m
                        invariant
                            m == context@.len(),
                            i <= m,
                            ctx@.len() == i,
                        decreases m - i,
                    {
                        ctx.push(context[i]);
                        i = i + 1;
                    }
                    // the context seeds the constants deterministically; a
                    // short buffer is padded out so it can seed at all
                    while ctx.len() < 8
                        invariant
                            true,
                        decreases 8 - ctx@.len(),
                    {
                        ctx.push(0);
                    }
                    (signature.args.len(), ctx)
                },
            }
        };
        let mut context_rand = Rand::from_bytes(context.as_slice());
        let mut port: usize = 0;
        while port < argc
            invariant
                rand_wf(*rand),
                rand_wf(context_rand),
                graph_wf(*self),
                schema_wf(self.schema),
                self.schema == old(self).schema,
                self.root == old(self).root,
                olds == old(self).nodes@,
                oldrem == old(remaining)@,
                self.nodes@.len() >= olds.len(),
                ci < self.nodes@.len(),
                self.nodes@[ci as int].id == id,
                self.nodes@[ci as int].payload is Api,
                argc == self.nodes@[ci as int].payload->Api_signature.args@.len(),
                port <= argc,
                forall|p2: int| 0 <= p2 < port ==> spec_port_present(
                    self.nodes@[ci as int],
                    p2,
                ),
                remaining@.len() >= oldrem.len(),
                forall|t: int| 0 <= t < oldrem.len() ==> remaining@[t] == oldrem[t],
                forall|t: int|
                    oldrem.len() <= t < remaining@.len() ==> spec_graph_has(
                        self.nodes@,
                        #[trigger] remaining@[t],
                    ),
                forall|j: int|
                    0 <= j < self.nodes@.len() && !spec_ports_filled(#[trigger] self.nodes@[j])
                        && j != ci ==> ((exists|k2: int|
                        0 <= k2 < olds.len() && (#[trigger] olds[k2]).id == self.nodes@[j].id
                            && !spec_ports_filled(olds[k2])) || spec_id_in_list_from(
                        remaining@,
                        oldrem.len() as int,
                        self.nodes@[j].id,
                    )),
                forall|id2: NodeId| spec_graph_has(olds, id2) ==> spec_graph_has(
                    self.nodes@,
                    id2,
                ),
            decreases argc - port,
        {
            // an already-filled port stays
            let filled = {
                let node = &self.nodes[ci];
                let m = node.incoming.len();
                let mut e: usize = 0;
                let mut f = false;
                while e < m && !f
                    invariant
                        m == node.incoming@.len(),
                        e <= m,
                        f ==> spec_port_present(*node, port as int),
                        !f ==> forall|e2: int|
                            0 <= e2 < e ==> (#[trigger] node.incoming@[e2]).port != port,
                    decreases m - e, (if f {
                        0int
                    } else {
                        1int
                    }),
                {
                    if node.incoming[e].port == port {
                        f = true;
                    } else {
                        e = e + 1;
                    }
                }
                f
            };
            if !filled {
                let ghost preseq = self.nodes@;
                let ghost prerem = remaining@;
                proof {
                    lemma_node_find_unique(self.nodes@, id, ci as int);
                }
                match self.fill_one_port(
                    rand,
                    &mut context_rand,
                    id,
                    port,
                    remaining,
                    use_endpoints,
                ) {
                    Ok(()) => {},
                    Err(e) => {
                        return Err(e);
                    },
                }
                proof {
                    assert(spec_node_find(preseq, id) == Option::Some(ci as int));
                    lemma_node_find_props(self.nodes@, id);
                    assert(self.nodes@[ci as int].id == id);
                    assert forall|p2: int| 0 <= p2 < port + 1 implies spec_port_present(
                        self.nodes@[ci as int],
                        p2,
                    ) by {
                        if p2 < port {
                            assert(spec_port_present(preseq[ci as int], p2));
                        }
                    }
                    assert forall|t: int|
                        oldrem.len() <= t < remaining@.len() implies spec_graph_has(
                        self.nodes@,
                        #[trigger] remaining@[t],
                    ) by {
                        if t < prerem.len() {
                            assert(remaining@[t] == prerem[t]);
                            assert(spec_graph_has(preseq, remaining@[t]));
                        }
                    }
                    assert forall|j: int|
                        0 <= j < self.nodes@.len() && !spec_ports_filled(
                            #[trigger] self.nodes@[j],
                        ) && j != ci as int implies ((exists|k2: int|
                        0 <= k2 < olds.len() && (#[trigger] olds[k2]).id == self.nodes@[j].id
                            && !spec_ports_filled(olds[k2])) || spec_id_in_list_from(
                        remaining@,
                        oldrem.len() as int,
                        self.nodes@[j].id,
                    )) by {
                        if j < preseq.len() {
                            assert(self.nodes@[j].incoming@ == preseq[j].incoming@
                                && self.nodes@[j].payload == preseq[j].payload
                                && self.nodes@[j].id == preseq[j].id);
                            assert(!spec_ports_filled(preseq[j])) by {
                                if spec_ports_filled(preseq[j]) {
                                    if self.nodes@[j].payload is Api {
                                        assert forall|p: int|
                                            0 <= p
                                                < self.nodes@[j].payload->Api_signature.args@.len()
                                            implies #[trigger] spec_port_present(
                                            self.nodes@[j],
                                            p,
                                        ) by {
                                            assert(spec_port_present(preseq[j], p));
                                            let e = choose|e: int|
                                                0 <= e < preseq[j].incoming@.len() && (
                                                #[trigger] preseq[j].incoming@[e]).port == p;
                                            assert(self.nodes@[j].incoming@[e].port == p);
                                        }
                                    }
                                    assert(false);
                                }
                            }
                            if spec_id_in_list_from(prerem, oldrem.len() as int, preseq[j].id) {
                                let t = choose|t: int|
                                    oldrem.len() <= t < prerem.len() && prerem[t] == preseq[j].id;
                                assert(remaining@[t] == preseq[j].id);
                            }
                        } else {
                            assert(spec_id_in_list_from(
                                remaining@,
                                prerem.len() as int,
                                self.nodes@[j].id,
                            ));
                            let t = choose|t: int|
                                prerem.len() <= t < remaining@.len() && remaining@[t]
                                    == self.nodes@[j].id;
                        }
                    }
                }
            }
            port = port + 1;
        }
        proof {
            assert(spec_ports_filled(self.nodes@[ci as int]));
        }
        Ok(())
    }
}

/// Some entry of `l[from ..]` is this id.
pub open spec fn spec_id_in_list_from(l: Seq<NodeId>, from: int, id: NodeId) -> bool {
    exists|t: int| from <= t < l.len() && l[t] == id
}

/// Appending a node with a fresh id and no edges keeps the invariant, and
/// leaves every lookup of an old id unchanged.
pub proof fn lemma_push_node(nodes: Seq<Node>, n: Node)
    requires
        spec_node_ids_unique(nodes),
        forall|j: int| 0 <= j < nodes.len() ==> spec_node_edges_ok(nodes, #[trigger] nodes[j]),
        !spec_graph_has(nodes, n.id),
        n.incoming@.len() == 0,
        n.outgoing@.len() == 0,
    ensures
        spec_node_ids_unique(nodes.push(n)),
        forall|j: int|
            0 <= j < nodes.push(n).len() ==> spec_node_edges_ok(
                nodes.push(n),
                #[trigger] nodes.push(n)[j],
            ),
        forall|id: NodeId| spec_graph_has(nodes, id) ==> spec_graph_has(nodes.push(n), id),
        forall|id: NodeId|
            spec_graph_has(nodes, id) ==> spec_depth_of(nodes.push(n), id) == spec_depth_of(
                nodes,
                id,
            ),
        spec_graph_has(nodes.push(n), n.id),
        spec_depth_of(nodes.push(n), n.id) == n.depth as int,
{
    let now = nodes.push(n);
    assert forall|i: int, j: int| 0 <= i < j < now.len() implies (#[trigger] now[i]).id != (
    #[trigger] now[j]).id by {
        if j == nodes.len() {
            assert(now[i] == nodes[i]);
            if now[i].id == n.id {
                assert(spec_graph_has(nodes, n.id));
            }
        } else {
            assert(now[i] == nodes[i] && now[j] == nodes[j]);
        }
    }
    assert forall|id: NodeId| spec_graph_has(nodes, id) implies spec_graph_has(now, id)
        && spec_depth_of(now, id) == spec_depth_of(nodes, id) by {
        let j = choose|j: int| 0 <= j < nodes.len() && (#[trigger] nodes[j]).id == id;
        assert(now[j].id == id);
        lemma_node_find_unique(nodes, id, j);
        lemma_node_find_unique(now, id, j);
    }
    assert(now[nodes.len() as int].id == n.id);
    lemma_node_find_unique(now, n.id, nodes.len() as int);
    assert forall|j: int| 0 <= j < now.len() implies spec_node_edges_ok(now, #[trigger] now[j])
        by {
        if j < nodes.len() {
            assert(now[j] == nodes[j]);
            assert(spec_node_edges_ok(nodes, nodes[j]));
            let m = now[j];
            assert forall|e: int|
                0 <= e < m.incoming@.len() implies spec_graph_has(
                now,
                (#[trigger] m.incoming@[e]).src,
            ) && spec_depth_of(now, m.incoming@[e].src) > m.depth by {
                assert(spec_graph_has(nodes, m.incoming@[e].src));
            }
            assert forall|e: int|
                0 <= e < m.outgoing@.len() implies spec_graph_has(
                now,
                (#[trigger] m.outgoing@[e]).dst,
            ) && spec_depth_of(now, m.outgoing@[e].dst) < m.depth by {
                assert(spec_graph_has(nodes, m.outgoing@[e].dst));
            }
        }
    }
}

impl Graph {
    /// Fill one open port of the API node with this id: reuse a strictly
    /// deeper node of the right type, or mint a producing call or a
    /// constant, connect it, and queue the new node when it has open ports
    /// of its own.
    #[verifier::rlimit(100)]
    #[verifier::spinoff_prover]
    fn fill_one_port(
        &mut self,
        rand: &mut Rand,
        context_rand: &mut Rand,
        id: NodeId,
        port: usize,
        remaining: &mut Vec<NodeId>,
        use_endpoints: bool,
    ) -> (r: Result<(), RailcarError>)
        requires
            rand_wf(*old(rand)),
            rand_wf(*old(context_rand)),
            graph_wf(*old(self)),
            schema_wf(old(self).schema),
            (match spec_node_find(old(self).nodes@, id) {
                Option::Some(ci) => old(self).nodes@[ci].payload is Api && (port as int) < old(
                    self,
                ).nodes@[ci].payload->Api_signature.args@.len() && !spec_port_present(
                    old(self).nodes@[ci],
                    port as int,
                ),
                Option::None => false,
            }),
        ensures
            rand_wf(*final(rand)),
            rand_wf(*final(context_rand)),
            r is Ok ==> {
                &&& graph_wf(*final(self))
                &&& final(self).schema == old(self).schema
                &&& final(self).root == old(self).root
                &&& final(self).nodes@.len() >= old(self).nodes@.len()
                &&& forall|t: int| 0 <= t < old(remaining)@.len() ==> final(remaining)@[t] == old(
                    remaining,
                )@[t]
                &&& final(remaining)@.len() >= old(remaining)@.len()
                &&& forall|t: int|
                    old(remaining)@.len() <= t < final(remaining)@.len() ==> spec_graph_has(
                        final(self).nodes@,
                        #[trigger] final(remaining)@[t],
                    )
                &&& (match (
                    spec_node_find(old(self).nodes@, id),
                    spec_node_find(final(self).nodes@, id),
                ) {
                    (Option::Some(ci), Option::Some(ci2)) => {
                        &&& ci == ci2
                        &&& final(self).nodes@[ci2].payload == old(self).nodes@[ci].payload
                        &&& spec_port_present(final(self).nodes@[ci2], port as int)
                        &&& forall|p2: int|
                            spec_port_present(old(self).nodes@[ci], p2)
                                ==> #[trigger] spec_port_present(final(self).nodes@[ci2], p2)
                    },
                    _ => false,
                })
                &&& forall|j: int|
                    0 <= j < old(self).nodes@.len() && j != spec_node_find(
                        old(self).nodes@,
                        id,
                    )->0 ==> (#[trigger] final(self).nodes@[j]).incoming@ == old(
                        self,
                    ).nodes@[j].incoming@ && final(self).nodes@[j].payload == old(
                        self,
                    ).nodes@[j].payload && final(self).nodes@[j].id == old(self).nodes@[j].id
                &&& forall|j: int|
                    old(self).nodes@.len() <= j < final(self).nodes@.len() && !spec_ports_filled(
                        #[trigger] final(self).nodes@[j],
                    ) ==> spec_id_in_list_from(
                        final(remaining)@,
                        old(remaining)@.len() as int,
                        final(self).nodes@[j].id,
                    )
                &&& forall|id2: NodeId|
                    spec_graph_has(old(self).nodes@, id2) ==> spec_graph_has(
                        final(self).nodes@,
                        id2,
                    )
            },
            r is Err ==> {
                let ci = spec_node_find(old(self).nodes@, id)->0;
                ||| spec_graph_has(old(self).nodes@, usize::MAX)
                ||| old(self).nodes@[ci].depth >= MAX_DEPTH_MAGNITUDE - 1
                ||| old(self).nodes@[ci].payload->Api_signature.args@[port as int] is Class
            },
    {
        let ghost olds = old(self).nodes@;
        let ci = match self.find_node(id) {
            Some(i) => i,
            None => {
                proof {
                    lemma_node_find_props(olds, id);
                    assert(false);
                }
                return Err(RailcarError::Unknown("node not in graph".to_owned()));
            },
        };
        proof {
            lemma_node_find_unique(self.nodes@, id, ci as int);
        }
        let consumer_depth = self.nodes[ci].depth;
        let eval_order = self.nodes[ci].next_eval_order();
        let arg: Type = match &self.nodes[ci].payload {
            NodePayload::Api { signature, .. } => crate::schema::clone_type(&signature.args[port]),
            NodePayload::Constant { .. } => {
                proof {
                    assert(false);
                }
                return Err(RailcarError::Unknown("constant node has no ports".to_owned()));
            },
        };
        // reuse a strictly deeper node of the same type, sometimes
        if rand.coinflip(FILL_REUSE_RATE) {
            let mut cands: Vec<NodeId> = Vec::new();
            let n = self.nodes.len();
            let mut j: usize = 0;
            while j < n
                invariant
                    graph_wf(*self),
                    n == self.nodes@.len(),
                    j <= n,
                    ci < n,
                    self.nodes@[ci as int].id == id,
                    forall|c: int|
                        0 <= c < cands@.len() ==> spec_graph_has(
                            self.nodes@,
                            #[trigger] cands@[c],
                        ) && spec_depth_of(self.nodes@, cands@[c]) > self.nodes@[ci as int].depth
                            && cands@[c] != id,
                decreases n - j,
            {
                let deeper = self.nodes[j].depth > self.nodes[ci].depth;
                if deeper && crate::schema::type_eq(self.nodes[j].get_type(), &arg) {
                    proof {
                        lemma_node_find_unique(self.nodes@, self.nodes@[j as int].id, j as int);
                    }
                    cands.push(self.nodes[j].id);
                }
                j = j + 1;
            }
            if cands.len() > 0 {
                let src = cands[rand.pick_index(cands.len())];
                proof {
                    lemma_node_find_some(self.nodes@, src);
                    lemma_node_find_props(self.nodes@, src);
                }
                self.connect(src, id, port, eval_order);
                proof {
                    lemma_connect_effects(olds, self.nodes@, src, id, port as int, ci as int);
                    assert forall|j: int|
                        0 <= j < self.nodes@.len() implies (#[trigger] self.nodes@[j]).id
                        == olds[j].id && self.nodes@[j].depth == olds[j].depth by {}
                    lemma_has_depth_congruent(olds, self.nodes@);
                    lemma_node_find_unique(self.nodes@, id, ci as int);
                    assert forall|j: int|
                        0 <= j < olds.len() && j != ci as int implies (
                    #[trigger] self.nodes@[j]).incoming@ == olds[j].incoming@
                        && self.nodes@[j].payload == olds[j].payload && self.nodes@[j].id
                        == olds[j].id by {
                        let si = spec_node_find(olds, src)->0;
                        if j != si {
                            assert(self.nodes@[j] == olds[j]);
                        }
                    }
                }
                return Ok(());
            }
        }
        // otherwise mint a producer
        let new_id = match self.next_node_id() {
            Some(i) => i,
            None => {
                return Err(RailcarError::Unknown("node id space spent".to_owned()));
            },
        };
        if consumer_depth >= MAX_DEPTH_MAGNITUDE - 1 {
            return Err(RailcarError::Unknown("depth space spent".to_owned()));
        }
        let new_depth = consumer_depth + 1;
        let use_api = use_endpoints && rand.coinflip(
            crate::rng::WEIGHT_ONE - FILL_CONSTANT_RATE,
        );
        let is_class = match &arg {
            Type::Class(_) => true,
            _ => false,
        };
        let new_node: Node = if is_class {
            // classes always need construction
            let query = crate::schema::SignatureQuery {
                args: None,
                ret: Some(crate::schema::clone_type(&arg)),
                callconv: if use_api {
                    None
                } else {
                    Some(crate::schema::CallConvention::Constructor)
                },
            };
            match self.schema.concretize(rand, query) {
                Some((name, sig, _)) => {
                    let ctx = crate::rng::context_byte_seq(rand, None);
                    Node::api(new_id, name, sig, ctx, new_depth)
                },
                None => {
                    return Err(
                        RailcarError::Unknown("cannot find an endpoint to build a class".to_owned()),
                    );
                },
            }
        } else if use_api {
            let query = crate::schema::SignatureQuery {
                args: None,
                ret: Some(crate::schema::clone_type(&arg)),
                callconv: None,
            };
            match self.schema.concretize(rand, query) {
                Some((name, sig, _)) => {
                    let ctx = crate::rng::context_byte_seq(rand, None);
                    Node::api(new_id, name, sig, ctx, new_depth)
                },
                None => {
                    let value = match crate::schema::sample_constant(&arg, context_rand) {
                        Ok(v) => v,
                        Err(e) => {
                            proof {
                                assert(false);
                            }
                            return Err(e);
                        },
                    };
                    Node::constant(new_id, arg, value, new_depth)
                },
            }
        } else {
            let value = match crate::schema::sample_constant(&arg, context_rand) {
                Ok(v) => v,
                Err(e) => {
                    proof {
                        assert(false);
                    }
                    return Err(e);
                },
            };
            Node::constant(new_id, arg, value, new_depth)
        };
        let queue_it = match &new_node.payload {
            NodePayload::Api { signature, .. } => signature.args.len() > 0,
            NodePayload::Constant { .. } => false,
        };
        proof {
            lemma_push_node(self.nodes@, new_node);
        }
        let ghost mid = self.nodes@;
        self.nodes.push(new_node);
        proof {
            assert(graph_wf(*self));
            lemma_node_find_unique(self.nodes@, id, ci as int);
        }
        let ghost pushed = self.nodes@;
        self.connect(new_id, id, port, eval_order);
        proof {
            assert(pushed == mid.push(new_node));
            lemma_node_find_unique(pushed, id, ci as int);
            lemma_connect_effects(pushed, self.nodes@, new_id, id, port as int, ci as int);
            assert forall|j: int|
                0 <= j < self.nodes@.len() implies (#[trigger] self.nodes@[j]).id == pushed[j].id
                && self.nodes@[j].depth == pushed[j].depth by {}
            lemma_has_depth_congruent(pushed, self.nodes@);
            lemma_node_find_unique(self.nodes@, id, ci as int);
            assert forall|j: int|
                0 <= j < olds.len() && j != ci as int implies (
            #[trigger] self.nodes@[j]).incoming@ == olds[j].incoming@ && self.nodes@[j].payload
                == olds[j].payload && self.nodes@[j].id == olds[j].id by {
                let si = spec_node_find(pushed, new_id)->0;
                assert(pushed[j] == olds[j]);
                if j != si {
                    assert(self.nodes@[j] == pushed[j]);
                } else {
                    assert(self.nodes@[j].incoming@ == pushed[j].incoming@);
                }
            }
            assert forall|id2: NodeId|
                spec_graph_has(olds, id2) implies spec_graph_has(self.nodes@, id2) by {
                assert(spec_graph_has(pushed, id2));
            }
        }
        if queue_it {
            let ghost prerem = remaining@;
            remaining.push(new_id);
            proof {
                assert(remaining@[prerem.len() as int] == new_id);
            }
        }
        proof {
            assert forall|j: int|
                olds.len() <= j < self.nodes@.len() && !spec_ports_filled(
                    #[trigger] self.nodes@[j],
                ) implies spec_id_in_list_from(
                remaining@,
                old(remaining)@.len() as int,
                self.nodes@[j].id,
            ) by {
                assert(j == olds.len());
                assert(self.nodes@[j].id == new_id);
                if !queue_it {
                    match self.nodes@[j].payload {
                        NodePayload::Api { signature, .. } => {
                            assert(spec_ports_filled(self.nodes@[j]));
                            assert(false);
                        },
                        NodePayload::Constant { .. } => {
                            assert(spec_ports_filled(self.nodes@[j]));
                            assert(false);
                        },
                    }
                } else {
                    assert(remaining@[old(remaining)@.len() as int] == new_id);
                }
            }
        }
        Ok(())
    }
}

/// What a `connect` did, phrased for the caller that just ran it: the
/// consumer at `ci` gained exactly one incoming edge at `port` from `src`,
/// everything else kept its incoming list and payload.
proof fn lemma_connect_effects(
    pres: Seq<Node>,
    now: Seq<Node>,
    src: NodeId,
    dst: NodeId,
    port: int,
    ci: int,
)
    requires
        now.len() == pres.len(),
        0 <= ci < pres.len(),
        0 <= port <= usize::MAX,
        spec_node_ids_unique(pres),
        pres[ci].id == dst,
        forall|j: int|
            0 <= j < now.len() ==> (#[trigger] now[j]).id == pres[j].id && now[j].payload
                == pres[j].payload,
        (match (spec_node_find(pres, src), spec_node_find(pres, dst)) {
            (Option::Some(si), Option::Some(di)) => {
                &&& now[di].incoming@.len() == pres[di].incoming@.len() + 1
                &&& now[di].incoming@.last().port == port as usize
                &&& (forall|e: int|
                    0 <= e < pres[di].incoming@.len() ==> #[trigger] now[di].incoming@[e]
                        == pres[di].incoming@[e])
                &&& forall|j: int|
                    0 <= j < now.len() && j != si && j != di ==> #[trigger] now[j] == pres[j]
                &&& now[si].incoming@ == pres[si].incoming@
            },
            _ => false,
        }),
    ensures
        spec_port_present(now[ci], port),
        forall|p2: int|
            spec_port_present(pres[ci], p2) ==> #[trigger] spec_port_present(now[ci], p2),
        forall|j: int|
            0 <= j < now.len() && j != ci && spec_ports_filled(pres[j])
                ==> spec_ports_filled(#[trigger] now[j]),
        forall|j: int|
            0 <= j < now.len() && j != ci && !spec_ports_filled(pres[j]) ==> !spec_ports_filled(
                #[trigger] now[j],
            ),
{
    lemma_node_find_unique(pres, dst, ci);
    let di = spec_node_find(pres, dst)->0;
    assert(di == ci);
    assert(now[ci].incoming@.len() == pres[ci].incoming@.len() + 1);
    assert(now[ci].incoming@.last().port == port as usize);
    assert(spec_port_present(now[ci], port)) by {
        assert(now[ci].incoming@[now[ci].incoming@.len() - 1].port == port);
    }
    assert forall|p2: int|
        spec_port_present(pres[ci], p2) implies #[trigger] spec_port_present(now[ci], p2) by {
        let e = choose|e: int|
            0 <= e < pres[ci].incoming@.len() && (#[trigger] pres[ci].incoming@[e]).port == p2;
        assert(now[ci].incoming@[e].port == p2);
    }
    let si = spec_node_find(pres, src)->0;
    assert forall|j: int|
        0 <= j < now.len() && j != ci implies (#[trigger] now[j]).incoming@ == pres[j].incoming@
        by {
        if j != si {
            assert(now[j] == pres[j]);
        }
    }
    assert forall|j: int|
        0 <= j < now.len() && j != ci && spec_ports_filled(pres[j]) implies spec_ports_filled(
        #[trigger] now[j],
    ) by {
        if now[j].payload is Api {
            assert forall|p: int|
                0 <= p < now[j].payload->Api_signature.args@.len() implies
                #[trigger] spec_port_present(now[j], p) by {
                assert(spec_port_present(pres[j], p));
                let e = choose|e: int|
                    0 <= e < pres[j].incoming@.len() && (#[trigger] pres[j].incoming@[e]).port
                        == p;
                assert(now[j].incoming@[e].port == p);
            }
        }
    }
    assert forall|j: int|
        0 <= j < now.len() && j != ci && !spec_ports_filled(pres[j]) implies !spec_ports_filled(
        #[trigger] now[j],
    ) by {
        assert(pres[j].payload is Api);
        let p = choose|p: int|
            0 <= p < pres[j].payload->Api_signature.args@.len() && !(
            #[trigger] spec_port_present(pres[j], p));
        if spec_port_present(now[j], p) {
            let e = choose|e: int|
                0 <= e < now[j].incoming@.len() && (#[trigger] now[j].incoming@[e]).port == p;
            assert(pres[j].incoming@[e].port == p);
        }
    }
}

impl Graph {
    /// Run the completion worklist: fill every node with open ports, minting
    /// producers as allowed, for at most `max_completion_iter` items (then
    /// `HugeGraph`); only the first `max_complete_with_endpoints` fills may
    /// mint API nodes. Ends by re-rooting. A graph with no open ports always
    /// completes; one that starts with more open nodes than the budget never
    /// does.
    pub fn limited_complete(
        &mut self,
        rand: &mut Rand,
        max_completion_iter: usize,
        max_complete_with_endpoints: usize,
    ) -> (r: Result<(), RailcarError>)
        requires
            rand_wf(*old(rand)),
            graph_wf(*old(self)),
            schema_wf(old(self).schema),
        ensures
            rand_wf(*final(rand)),
            r is Ok ==> {
                &&& graph_wf(*final(self))
                &&& schema_wf(final(self).schema)
                &&& final(self).schema == old(self).schema
                &&& spec_rooted(*final(self))
                &&& forall|j: int|
                    0 <= j < final(self).nodes@.len() ==> spec_fulfilled(
                        #[trigger] final(self).nodes@[j],
                    )
            },
            (forall|j: int|
                0 <= j < old(self).nodes@.len() ==> spec_ports_filled(
                    #[trigger] old(self).nodes@[j],
                )) ==> r is Ok,
            spec_unfilled_count(old(self).nodes@) > max_completion_iter ==> r is Err,
    {
        let mut remaining: Vec<NodeId> = Vec::new();
        let n0 = self.nodes.len();
        let mut k: usize = 0;
        while k < n0
            invariant
                *self == *old(self),
                graph_wf(*self),
                n0 == self.nodes@.len(),
                k <= n0,
                forall|t: int|
                    0 <= t < remaining@.len() ==> spec_graph_has(
                        self.nodes@,
                        #[trigger] remaining@[t],
                    ),
                forall|j: int|
                    0 <= j < k && !spec_ports_filled(#[trigger] self.nodes@[j])
                        ==> spec_id_in_list_from(remaining@, 0, self.nodes@[j].id),
                remaining@.len() == spec_unfilled_count(self.nodes@.take(k as int)),
            decreases n0 - k,
        {
            proof {
                assert(self.nodes@.take(k as int + 1).drop_last() =~= self.nodes@.take(k as int));
                assert(self.nodes@.take(k as int + 1).last() == self.nodes@[k as int]);
            }
            let node = &self.nodes[k];
            let open_ports: bool = match &node.payload {
                NodePayload::Constant { .. } => false,
                NodePayload::Api { signature, .. } => {
                    let argc = signature.args.len();
                    let mut p: usize = 0;
                    let mut missing = false;
                    while p < argc && !missing
                        invariant
                            k < n0,
                            n0 == self.nodes@.len(),
                            *node == self.nodes@[k as int],
                            node.payload is Api,
                            argc == node.payload->Api_signature.args@.len(),
                            p <= argc,
                            missing ==> !spec_ports_filled(*node),
                            !missing ==> forall|p2: int|
                                0 <= p2 < p ==> spec_port_present(*node, p2),
                        decreases argc - p, (if missing {
                            0int
                        } else {
                            1int
                        }),
                    {
                        let m = node.incoming.len();
                        let mut e: usize = 0;
                        let mut f = false;
                        while e < m && !f
                            invariant
                                m == node.incoming@.len(),
                                e <= m,
                                f ==> spec_port_present(*node, p as int),
                                !f ==> forall|e2: int|
                                    0 <= e2 < e ==> (#[trigger] node.incoming@[e2]).port != p,
                            decreases m - e, (if f {
                                0int
                            } else {
                                1int
                            }),
                        {
                            if node.incoming[e].port == p {
                                f = true;
                            } else {
                                e = e + 1;
                            }
                        }
                        if !f {
                            missing = true;
                            proof {
                                assert(!spec_port_present(*node, p as int));
                            }
                        } else {
                            p = p + 1;
                        }
                    }
                    missing
                },
            };
            if open_ports {
                let ghost prerem = remaining@;
                remaining.push(self.nodes[k].id);
                proof {
                    assert(remaining@[prerem.len() as int] == self.nodes@[k as int].id);
                    assert forall|j: int|
                        0 <= j < k + 1 && !spec_ports_filled(#[trigger] self.nodes@[j]) implies
                        spec_id_in_list_from(remaining@, 0, self.nodes@[j].id) by {
                        if j < k {
                            let t = choose|t: int|
                                0 <= t < prerem.len() && prerem[t] == self.nodes@[j].id;
                            assert(remaining@[t] == self.nodes@[j].id);
                        }
                    }
                }
            } else {
                proof {
                    assert(spec_ports_filled(self.nodes@[k as int]));
                }
            }
            k = k + 1;
        }
        proof {
            assert(self.nodes@.take(n0 as int) =~= self.nodes@);
        }
        let mut widx: usize = 0;
        let mut it: usize = 0;
        while widx < remaining.len()
            invariant
                rand_wf(*rand),
                graph_wf(*self),
                schema_wf(self.schema),
                self.schema == old(self).schema,
                widx <= remaining@.len(),
                it <= max_completion_iter,
                widx == it,
                remaining@.len() >= spec_unfilled_count(old(self).nodes@),
                spec_unfilled_count(old(self).nodes@) == 0 ==> remaining@.len() == 0,
                forall|t: int|
                    0 <= t < remaining@.len() ==> spec_graph_has(
                        self.nodes@,
                        #[trigger] remaining@[t],
                    ),
                forall|j: int|
                    0 <= j < self.nodes@.len() && !spec_ports_filled(#[trigger] self.nodes@[j])
                        ==> spec_id_in_list_from(remaining@, widx as int, self.nodes@[j].id),
            decreases max_completion_iter - it,
        {
            proof {
                lemma_unfilled_count(old(self).nodes@);
            }
            let id = remaining[widx];
            let ghost prerem = remaining@;
            let ghost preseq = self.nodes@;
            widx = widx + 1;
            let use_endpoints = it < max_complete_with_endpoints;
            match self.fill_node(rand, id, &mut remaining, use_endpoints) {
                Ok(()) => {},
                Err(e) => {
                    return Err(e);
                },
            }
            proof {
                assert forall|t: int|
                    0 <= t < remaining@.len() implies spec_graph_has(
                    self.nodes@,
                    #[trigger] remaining@[t],
                ) by {
                    if t < prerem.len() {
                        assert(remaining@[t] == prerem[t]);
                        assert(spec_graph_has(preseq, prerem[t]));
                    }
                }
                assert forall|j: int|
                    0 <= j < self.nodes@.len() && !spec_ports_filled(#[trigger] self.nodes@[j])
                    implies spec_id_in_list_from(remaining@, widx as int, self.nodes@[j].id) by {
                    let cid = self.nodes@[j].id;
                    assert(cid != id);
                    if exists|k2: int|
                        0 <= k2 < preseq.len() && (#[trigger] preseq[k2]).id == cid
                            && !spec_ports_filled(preseq[k2]) {
                        let k2 = choose|k2: int|
                            0 <= k2 < preseq.len() && (#[trigger] preseq[k2]).id == cid
                                && !spec_ports_filled(preseq[k2]);
                        assert(spec_id_in_list_from(prerem, widx - 1, cid));
                        let t = choose|t: int| widx - 1 <= t < prerem.len() && prerem[t] == cid;
                        if t == widx - 1 {
                            assert(false);
                        }
                        assert(remaining@[t] == cid);
                    } else {
                        assert(spec_id_in_list_from(remaining@, prerem.len() as int, cid));
                        let t = choose|t: int|
                            prerem.len() <= t < remaining@.len() && remaining@[t] == cid;
                    }
                }
            }
            if it >= max_completion_iter {
                return Err(RailcarError::HugeGraph);
            }
            it = it + 1;
        }
        self.reroot();
        proof {
            lemma_unfilled_count(old(self).nodes@);
            assert forall|j: int| 0 <= j < self.nodes@.len() implies spec_fulfilled(
                #[trigger] self.nodes@[j],
            ) by {
                if !spec_ports_filled(self.nodes@[j]) {
                    assert(spec_id_in_list_from(remaining@, widx as int, self.nodes@[j].id));
                    assert(false);
                }
                assert(spec_node_edges_ok(self.nodes@, self.nodes@[j]));
                lemma_filled_is_fulfilled(self.nodes@[j]);
            }
        }
        Ok(())
    }

    /// Run completion with the standard budgets.
    pub fn complete(&mut self, rand: &mut Rand) -> (r: Result<(), RailcarError>)
        requires
            rand_wf(*old(rand)),
            graph_wf(*old(self)),
            schema_wf(old(self).schema),
        ensures
            rand_wf(*final(rand)),
            r is Ok ==> {
                &&& graph_wf(*final(self))
                &&& schema_wf(final(self).schema)
                &&& final(self).schema == old(self).schema
                &&& spec_rooted(*final(self))
                &&& forall|j: int|
                    0 <= j < final(self).nodes@.len() ==> spec_fulfilled(
                        #[trigger] final(self).nodes@[j],
                    )
            },
            (forall|j: int|
                0 <= j < old(self).nodes@.len() ==> spec_ports_filled(
                    #[trigger] old(self).nodes@[j],
                )) ==> r is Ok,
            spec_unfilled_count(old(self).nodes@) > crate::MAX_COMPLETION_ITER ==> r is Err,
    {
        self.limited_complete(rand, crate::MAX_COMPLETION_ITER, crate::MAX_COMPLETE_WITH_ENDPOINTS)
    }

    /// Generate a graph from scratch: seed one endpoint, then complete.
    pub fn create(rand: &mut Rand, schema: &Schema) -> (r: Result<Graph, RailcarError>)
        requires
            rand_wf(*old(rand)),
            schema_wf(*schema),
        ensures
            rand_wf(*final(rand)),
            r is Ok ==> {
                &&& graph_wf(r->Ok_0)
                &&& spec_rooted(r->Ok_0)
                &&& forall|j: int|
                    0 <= j < (r->Ok_0).nodes@.len() ==> spec_fulfilled(
                        #[trigger] (r->Ok_0).nodes@[j],
                    )
                &&& crate::schema::schema_eq_spec((r->Ok_0).schema, *schema)
            },
    {
        let mut g = match Graph::seed(rand, schema) {
            Ok(g) => g,
            Err(e) => {
                return Err(e);
            },
        };
        match g.complete(rand) {
            Ok(()) => Ok(g),
            Err(e) => Err(e),
        }
    }

    /// Generate a small graph: one endpoint with constant inputs only.
    pub fn create_small(rand: &mut Rand, schema: &Schema) -> (r: Result<Graph, RailcarError>)
        requires
            rand_wf(*old(rand)),
            schema_wf(*schema),
        ensures
            rand_wf(*final(rand)),
            r is Ok ==> {
                &&& graph_wf(r->Ok_0)
                &&& spec_rooted(r->Ok_0)
                &&& forall|j: int|
                    0 <= j < (r->Ok_0).nodes@.len() ==> spec_fulfilled(
                        #[trigger] (r->Ok_0).nodes@[j],
                    )
                &&& crate::schema::schema_eq_spec((r->Ok_0).schema, *schema)
            },
    {
        let mut g = match Graph::seed(rand, schema) {
            Ok(g) => g,
            Err(e) => {
                return Err(e);
            },
        };
        match g.limited_complete(rand, crate::MAX_COMPLETION_ITER, 0) {
            Ok(()) => Ok(g),
            Err(e) => Err(e),
        }
    }

    /// Build a graph deterministically from a byte buffer: the bytes back
    /// the draws; a buffer shorter than a seed's worth is laid over the
    /// big-endian bytes of `seed` instead. Same bytes, same graph.
    pub fn create_from_bytes(seed: u64, bytes: &[u8], schema: &Schema) -> (r: Result<
        Graph,
        RailcarError,
    >)
        requires
            schema_wf(*schema),
        ensures
            r is Ok ==> {
                &&& graph_wf(r->Ok_0)
                &&& spec_rooted(r->Ok_0)
                &&& forall|j: int|
                    0 <= j < (r->Ok_0).nodes@.len() ==> spec_fulfilled(
                        #[trigger] (r->Ok_0).nodes@[j],
                    )
                &&& crate::schema::schema_eq_spec((r->Ok_0).schema, *schema)
            },
    {
        if bytes.len() >= 8 {
            let mut rand = Rand::from_bytes(bytes);
            Graph::create(&mut rand, schema)
        } else {
            let mut seed_bytes: Vec<u8> = Vec::new();
            let mut i: usize = 0;
            while i < 8
                invariant
                    i <= 8,
                    seed_bytes@.len() == i,
                decreases 8 - i,
            {
                let shift = (56 - 8 * i) as u64;
                seed_bytes.push(#[verifier::truncate] ((seed >> shift) as u8));
                i = i + 1;
            }
            let mut j: usize = 0;
            while j < bytes.len()
                invariant
                    j <= bytes@.len(),
                    bytes@.len() < 8,
                    seed_bytes@.len() == 8,
                decreases bytes@.len() - j,
            {
                let b = bytes[j];
                let _ = seq_replace(&mut seed_bytes, j, b);
                j = j + 1;
            }
            let mut rand = Rand::from_bytes(seed_bytes.as_slice());
            Graph::create(&mut rand, schema)
        }
    }
}

/// Overwrite one byte of a buffer.
fn seq_replace(v: &mut Vec<u8>, i: usize, b: u8) -> (r: bool)
    requires
        i < old(v)@.len(),
    ensures
        final(v)@ == old(v)@.update(i as int, b),
        r,
{
    v.set(i, b);
    true
}

/// Equality of two graphs at the level of their contents: same root, and
/// node by node the same id, depth, edges and payload contents.
pub open spec fn graph_like(a: Graph, b: Graph) -> bool {
    &&& a.root == b.root
    &&& a.nodes@.len() == b.nodes@.len()
    &&& forall|j: int| 0 <= j < a.nodes@.len() ==> node_like(#[trigger] a.nodes@[j], b.nodes@[j])
}

/// Equality of two nodes at the level of their contents.
pub open spec fn node_like(a: Node, b: Node) -> bool {
    &&& a.id == b.id
    &&& a.depth == b.depth
    &&& a.incoming@ == b.incoming@
    &&& a.outgoing@ == b.outgoing@
    &&& payload_like(a.payload, b.payload)
}

/// Equality of two payloads at the level of their contents.
pub open spec fn payload_like(a: NodePayload, b: NodePayload) -> bool {
    match (a, b) {
        (
            NodePayload::Constant { typ: ta, value: va },
            NodePayload::Constant { typ: tb, value: vb },
        ) => crate::schema::type_eq_spec(ta, tb) && crate::schema::const_eq_spec(va, vb),
        (
            NodePayload::Api { signature: sa, name: na, context: ca },
            NodePayload::Api { signature: sb, name: nb, context: cb },
        ) => crate::schema::sig_eq_spec(sa, sb) && na@ == nb@ && ca@ == cb@,
        _ => false,
    }
}

/// Deep copy of a payload, content-equal to the original.
pub fn clone_payload_exact(p: &NodePayload) -> (r: NodePayload)
    ensures
        payload_like(r, *p),
        payload_like(*p, r),
        (r is Constant <==> *p is Constant),
        *p is Api ==> r->Api_signature.args@.len() == p->Api_signature.args@.len(),
{
    match p {
        NodePayload::Constant { typ, value } => NodePayload::Constant {
            typ: crate::schema::clone_type(typ),
            value: value.clone(),
        },
        NodePayload::Api { signature, name, context } => {
            let mut ctx: Vec<u8> = Vec::new();
            let m = context.len();
            let mut i: usize = 0;
            while i < m
                invariant
                    m == context@.len(),
                    i <= m,
                    ctx@.len() == i,
                    forall|j: int| 0 <= j < i ==> ctx@[j] == context@[j],
                decreases m - i,
            {
                ctx.push(context[i]);
                i = i + 1;
            }
            proof {
                assert(ctx@ =~= context@);
            }
            NodePayload::Api { signature: signature.clone(), name: name.clone(), context: ctx }
        },
    }
}

impl Graph {
    /// Deep copy of the graph, content-equal to the original; the schema
    /// snapshot is copied with it.
    pub fn clone_graph(&self) -> (r: Graph)
        ensures
            graph_like(r, *self),
            graph_like(*self, r),
            crate::schema::schema_eq_spec(r.schema, self.schema),
            schema_wf(self.schema) ==> schema_wf(r.schema),
            crate::schema::schema_ready(self.schema) ==> crate::schema::schema_ready(r.schema),
            graph_wf(*self) ==> graph_wf(r),
    {
        let n = self.nodes.len();
        let mut nodes: Vec<Node> = Vec::new();
        let mut k: usize = 0;
        while k < n
            invariant
                n == self.nodes@.len(),
                k <= n,
                nodes@.len() == k,
                forall|j: int|
                    0 <= j < k ==> node_like(#[trigger] nodes@[j], self.nodes@[j]) && node_like(
                        self.nodes@[j],
                        nodes@[j],
                    ),
            decreases n - k,
        {
            let src = &self.nodes[k];
            let mut incoming: Vec<IncomingEdge> = Vec::new();
            let m1 = src.incoming.len();
            let mut e: usize = 0;
            while e < m1
                invariant
                    m1 == src.incoming@.len(),
                    e <= m1,
                    incoming@.len() == e,
                    forall|j: int| 0 <= j < e ==> incoming@[j] == src.incoming@[j],
                decreases m1 - e,
            {
                incoming.push(src.incoming[e]);
                e = e + 1;
            }
            let mut outgoing: Vec<OutgoingEdge> = Vec::new();
            let m2 = src.outgoing.len();
            let mut e2: usize = 0;
            while e2 < m2
                invariant
                    m2 == src.outgoing@.len(),
                    e2 <= m2,
                    outgoing@.len() == e2,
                    forall|j: int| 0 <= j < e2 ==> outgoing@[j] == src.outgoing@[j],
                decreases m2 - e2,
            {
                outgoing.push(src.outgoing[e2]);
                e2 = e2 + 1;
            }
            proof {
                assert(incoming@ =~= src.incoming@);
                assert(outgoing@ =~= src.outgoing@);
            }
            let copied = Node {
                id: src.id,
                payload: clone_payload_exact(&src.payload),
                incoming,
                outgoing,
                depth: src.depth,
            };
            nodes.push(copied);
            k = k + 1;
        }
        let r = Graph { root: self.root, nodes, schema: self.schema.clone() };
        proof {
            if graph_wf(*self) {
                assert forall|j: int|
                    0 <= j < r.nodes@.len() implies (#[trigger] r.nodes@[j]).id
                    == self.nodes@[j].id && r.nodes@[j].depth == self.nodes@[j].depth by {}
                lemma_has_depth_congruent(self.nodes@, r.nodes@);
                assert forall|i: int, j: int|
                    0 <= i < j < r.nodes@.len() implies (#[trigger] r.nodes@[i]).id != (
                #[trigger] r.nodes@[j]).id by {
                    assert(self.nodes@[i].id != self.nodes@[j].id);
                }
                assert forall|i: int| 0 <= i < r.nodes@.len() implies spec_node_edges_ok(
                    r.nodes@,
                    #[trigger] r.nodes@[i],
                ) by {
                    assert(spec_node_edges_ok(self.nodes@, self.nodes@[i]));
                    let nref = r.nodes@[i];
                    assert(nref.incoming@ == self.nodes@[i].incoming@);
                    assert(nref.outgoing@ == self.nodes@[i].outgoing@);
                    assert((nref.payload is Constant) == (self.nodes@[i].payload is Constant));
                    if nref.payload is Api {
                        assert(self.nodes@[i].payload is Api);
                        assert(nref.payload->Api_signature.args@.len()
                            == self.nodes@[i].payload->Api_signature.args@.len());
                    }
                }
            }
        }
        r
    }
}


impl crate::HasSeqLen for Graph {
    fn seq_len_of(&self) -> usize {
        self.nodes.len()
    }
}

impl Graph {
    /// Raise every node id, every edge endpoint and the root by `by`, so
    /// this graph's id space can sit above another's before a merge. When
    /// some id has no room left, nothing changes and `false` comes back.
    pub fn offset_ids(&mut self, by: usize) -> (r: bool)
        requires
            graph_wf(*old(self)),
        ensures
            graph_wf(*final(self)),
            final(self).schema == old(self).schema,
            !r ==> *final(self) == *old(self),
            r ==> {
                &&& final(self).root == old(self).root + by
                &&& final(self).nodes@.len() == old(self).nodes@.len()
                &&& forall|j: int|
                    0 <= j < final(self).nodes@.len() ==> {
                        let n = #[trigger] final(self).nodes@[j];
                        let o = old(self).nodes@[j];
                        &&& n.id == o.id + by
                        &&& n.depth == o.depth
                        &&& n.payload == o.payload
                        &&& n.incoming@.len() == o.incoming@.len()
                        &&& n.outgoing@.len() == o.outgoing@.len()
                        &&& (forall|e: int|
                            0 <= e < n.incoming@.len() ==> (#[trigger] n.incoming@[e]).src
                                == o.incoming@[e].src + by && n.incoming@[e].port
                                == o.incoming@[e].port && n.incoming@[e].evaluation_order
                                == o.incoming@[e].evaluation_order)
                        &&& (forall|e: int|
                            0 <= e < n.outgoing@.len() ==> (#[trigger] n.outgoing@[e]).dst
                                == o.outgoing@[e].dst + by)
                    }
            },
            (forall|j: int|
                0 <= j < old(self).nodes@.len() ==> (#[trigger] old(self).nodes@[j]).id + by
                    <= usize::MAX) ==> r,
    {
        // every id needs room
        let n = self.nodes.len();
        let mut k: usize = 0;
        while k < n
            invariant
                *self == *old(self),
                graph_wf(*self),
                n == self.nodes@.len(),
                k <= n,
                forall|j: int| 0 <= j < k ==> (#[trigger] self.nodes@[j]).id + by <= usize::MAX,
            decreases n - k,
        {
            if self.nodes[k].id > usize::MAX - by {
                return false;
            }
            k = k + 1;
        }
        let ghost pres = self.nodes@;
        let mut out: Vec<Node> = Vec::new();
        let mut k2: usize = 0;
        while k2 < n
            invariant
                graph_wf(*old(self)),
                pres == old(self).nodes@,
                self.root == old(self).root,
                self.schema == old(self).schema,
                n == pres.len(),
                k2 <= n,
                self.nodes@ =~= pres.skip(k2 as int),
                forall|j: int| 0 <= j < n ==> (#[trigger] pres[j]).id + by <= usize::MAX,
                out@.len() == k2,
                forall|j: int|
                    0 <= j < k2 ==> {
                        let nn = #[trigger] out@[j];
                        let o = pres[j];
                        &&& nn.id == o.id + by
                        &&& nn.depth == o.depth
                        &&& nn.payload == o.payload
                        &&& nn.incoming@.len() == o.incoming@.len()
                        &&& nn.outgoing@.len() == o.outgoing@.len()
                        &&& (forall|e: int|
                            0 <= e < nn.incoming@.len() ==> (#[trigger] nn.incoming@[e]).src
                                == o.incoming@[e].src + by && nn.incoming@[e].port
                                == o.incoming@[e].port && nn.incoming@[e].evaluation_order
                                == o.incoming@[e].evaluation_order)
                        &&& (forall|e: int|
                            0 <= e < nn.outgoing@.len() ==> (#[trigger] nn.outgoing@[e]).dst
                                == o.outgoing@[e].dst + by)
                    },
            decreases n - k2,
        {
            proof {
                assert(pres.skip(k2 as int)[0] == pres[k2 as int]);
                assert(spec_node_edges_ok(pres, pres[k2 as int]));
                assert forall|e2: int|
                    0 <= e2 < pres[k2 as int].incoming@.len() implies (#[trigger] pres[
                k2 as int].incoming@[e2]).src + by <= usize::MAX by {
                    let osrc = pres[k2 as int].incoming@[e2].src;
                    let w = choose|w: int| 0 <= w < pres.len() && (#[trigger] pres[w]).id == osrc;
                }
                assert forall|e2: int|
                    0 <= e2 < pres[k2 as int].outgoing@.len() implies (#[trigger] pres[
                k2 as int].outgoing@[e2]).dst + by <= usize::MAX by {
                    let odst = pres[k2 as int].outgoing@[e2].dst;
                    let w = choose|w: int| 0 <= w < pres.len() && (#[trigger] pres[w]).id == odst;
                }
            }
            let node = self.nodes.remove(0);
            proof {
                assert(node == pres[k2 as int]);
                assert(self.nodes@ =~= pres.skip(k2 as int + 1));
            }
            let mut incoming: Vec<IncomingEdge> = Vec::new();
            let m1 = node.incoming.len();
            let mut e: usize = 0;
            while e < m1
                invariant
                    m1 == node.incoming@.len(),
                    e <= m1,
                    incoming@.len() == e,
                    forall|e2: int|
                        0 <= e2 < e ==> (#[trigger] incoming@[e2]).src as int
                            == node.incoming@[e2].src + by && incoming@[e2].port
                            == node.incoming@[e2].port && incoming@[e2].evaluation_order
                            == node.incoming@[e2].evaluation_order,
                    forall|e2: int|
                        0 <= e2 < m1 ==> (#[trigger] node.incoming@[e2]).src + by <= usize::MAX,
                decreases m1 - e,
            {
                let edge = node.incoming[e];
                incoming.push(
                    IncomingEdge {
                        src: edge.src + by,
                        evaluation_order: edge.evaluation_order,
                        port: edge.port,
                    },
                );
                e = e + 1;
            }
            let mut outgoing: Vec<OutgoingEdge> = Vec::new();
            let m2 = node.outgoing.len();
            let mut e8: usize = 0;
            while e8 < m2
                invariant
                    m2 == node.outgoing@.len(),
                    e8 <= m2,
                    outgoing@.len() == e8,
                    forall|e2: int|
                        0 <= e2 < e8 ==> (#[trigger] outgoing@[e2]).dst as int
                            == node.outgoing@[e2].dst + by,
                    forall|e2: int|
                        0 <= e2 < m2 ==> (#[trigger] node.outgoing@[e2]).dst + by <= usize::MAX,
                decreases m2 - e8,
            {
                let edge = node.outgoing[e8];
                outgoing.push(OutgoingEdge { dst: edge.dst + by });
                e8 = e8 + 1;
            }
            let shifted = Node {
                id: node.id + by,
                payload: node.payload,
                incoming,
                outgoing,
                depth: node.depth,
            };
            out.push(shifted);
            k2 = k2 + 1;
        }
        let new_root = self.root + by;
        self.nodes = out;
        self.root = new_root;
        proof {
            lemma_offset_wf(pres, self.nodes@, by as int);
            let ri = choose|i: int| 0 <= i < pres.len() && (#[trigger] pres[i]).id == old(
                self,
            ).root;
            assert(self.nodes@[ri].id == old(self).root + by);
        }
        true
    }

    /// Shift every depth so the deepest node sits at `depth`; used to slide
    /// one graph strictly below another before a merge. When a shifted
    /// depth would leave the representable band, nothing changes and
    /// `false` comes back.
    pub fn set_max_depth(&mut self, depth: i64) -> (r: bool)
        requires
            graph_wf(*old(self)),
            -MAX_DEPTH_MAGNITUDE < depth < MAX_DEPTH_MAGNITUDE,
        ensures
            graph_wf(*final(self)),
            final(self).schema == old(self).schema,
            final(self).root == old(self).root,
            !r ==> *final(self) == *old(self),
            r ==> spec_depths_shifted(
                old(self).nodes@,
                final(self).nodes@,
                depth - spec_max_depth(old(self).nodes@),
            ),
            r ==> spec_max_depth(final(self).nodes@) == depth,
            (forall|j: int|
                0 <= j < old(self).nodes@.len() ==> -(MAX_DEPTH_MAGNITUDE - 1) < (
                #[trigger] old(self).nodes@[j]).depth + (depth - spec_max_depth(old(self).nodes@))
                    < MAX_DEPTH_MAGNITUDE) ==> r,
    {
        proof {
            lemma_max_depth_attained(self.nodes@);
        }
        let current_max = self.max_depth();
        let off: i64 = if depth >= current_max {
            let d128 = (depth as i128) - (current_max as i128);
            if d128 >= (MAX_DEPTH_MAGNITUDE as i128) * 2 {
                return false;
            }
            (depth - current_max) as i64
        } else {
            let d128 = (depth as i128) - (current_max as i128);
            if d128 <= -((MAX_DEPTH_MAGNITUDE as i128) * 2) {
                return false;
            }
            depth - current_max
        };
        // every shifted depth must stay in band
        let n = self.nodes.len();
        let mut k: usize = 0;
        while k < n
            invariant
                *self == *old(self),
                graph_wf(*self),
                n == self.nodes@.len(),
                k <= n,
                -(MAX_DEPTH_MAGNITUDE as int) * 2 < off < (MAX_DEPTH_MAGNITUDE as int) * 2,
                off == depth - spec_max_depth(self.nodes@),
                forall|j: int|
                    0 <= j < k ==> -MAX_DEPTH_MAGNITUDE < (#[trigger] self.nodes@[j]).depth + off
                        < MAX_DEPTH_MAGNITUDE,
            decreases n - k,
        {
            let d = self.nodes[k].depth;
            let shifted = (d as i128) + (off as i128);
            if shifted <= -((MAX_DEPTH_MAGNITUDE as i128) - 1) || shifted
                >= (MAX_DEPTH_MAGNITUDE as i128) {
                return false;
            }
            k = k + 1;
        }
        let ghost pres = self.nodes@;
        let mut k2: usize = 0;
        while k2 < n
            invariant
                graph_wf(*old(self)),
                pres == old(self).nodes@,
                self.root == old(self).root,
                self.schema == old(self).schema,
                n == self.nodes@.len(),
                n == pres.len(),
                k2 <= n,
                -(MAX_DEPTH_MAGNITUDE as int) * 2 < off < (MAX_DEPTH_MAGNITUDE as int) * 2,
                forall|j: int|
                    0 <= j < n ==> -MAX_DEPTH_MAGNITUDE < (#[trigger] pres[j]).depth + off
                        < MAX_DEPTH_MAGNITUDE,
                forall|j: int|
                    0 <= j < k2 ==> (#[trigger] self.nodes@[j]).depth == pres[j].depth + off
                        && self.nodes@[j].id == pres[j].id && self.nodes@[j].payload
                        == pres[j].payload && self.nodes@[j].incoming@ == pres[j].incoming@
                        && self.nodes@[j].outgoing@ == pres[j].outgoing@,
                forall|j: int| k2 <= j < n ==> #[trigger] self.nodes@[j] == pres[j],
            decreases n - k2,
        {
            let mut node = self.nodes.remove(k2);
            node.depth = node.depth + off;
            self.nodes.insert(k2, node);
            proof {
                assert(self.nodes@ =~= pres.map(
                    |j: int, nd: Node|
                        if j <= k2 {
                            self.nodes@[j]
                        } else {
                            nd
                        },
                ));
            }
            k2 = k2 + 1;
        }
        proof {
            assert(spec_depths_shifted(pres, self.nodes@, off as int));
            lemma_shift_wf(pres, self.nodes@, off as int);
            lemma_max_depth_shifted(pres, self.nodes@, off as int);
            let ri = choose|i: int| 0 <= i < pres.len() && (#[trigger] pres[i]).id == old(
                self,
            ).root;
            assert(self.nodes@[ri].id == old(self).root);
        }
        true
    }
}

/// Every depth moved by the same offset, all else untouched.
pub open spec fn spec_depths_shifted(pres: Seq<Node>, now: Seq<Node>, off: int) -> bool {
    &&& now.len() == pres.len()
    &&& forall|j: int|
        0 <= j < pres.len() ==> {
            let n = #[trigger] now[j];
            let o = pres[j];
            &&& n.depth == o.depth + off
            &&& n.id == o.id
            &&& n.payload == o.payload
            &&& n.incoming@ == o.incoming@
            &&& n.outgoing@ == o.outgoing@
        }
}

/// A uniform id shift keeps the invariant.
proof fn lemma_offset_wf(pres: Seq<Node>, now: Seq<Node>, by: int)
    requires
        spec_node_ids_unique(pres),
        forall|j: int| 0 <= j < pres.len() ==> spec_node_edges_ok(pres, #[trigger] pres[j]),
        forall|j: int|
            0 <= j < pres.len() ==> -MAX_DEPTH_MAGNITUDE < (#[trigger] pres[j]).depth
                < MAX_DEPTH_MAGNITUDE,
        now.len() == pres.len(),
        by >= 0,
        forall|j: int|
            0 <= j < now.len() ==> {
                let n = #[trigger] now[j];
                let o = pres[j];
                &&& n.id == o.id + by
                &&& n.depth == o.depth
                &&& n.payload == o.payload
                &&& n.incoming@.len() == o.incoming@.len()
                &&& n.outgoing@.len() == o.outgoing@.len()
                &&& (forall|e: int|
                    0 <= e < n.incoming@.len() ==> (#[trigger] n.incoming@[e]).src
                        == o.incoming@[e].src + by && n.incoming@[e].port == o.incoming@[e].port)
                &&& (forall|e: int|
                    0 <= e < n.outgoing@.len() ==> (#[trigger] n.outgoing@[e]).dst
                        == o.outgoing@[e].dst + by)
            },
    ensures
        spec_node_ids_unique(now),
        forall|j: int| 0 <= j < now.len() ==> spec_node_edges_ok(now, #[trigger] now[j]),
        forall|j: int|
            0 <= j < now.len() ==> -MAX_DEPTH_MAGNITUDE < (#[trigger] now[j]).depth
                < MAX_DEPTH_MAGNITUDE,
        forall|id: NodeId|
            spec_graph_has(pres, id) && id + by <= usize::MAX ==> spec_graph_has(
                now,
                (id + by) as NodeId,
            ),
{
    assert forall|i: int, j: int| 0 <= i < j < now.len() implies (#[trigger] now[i]).id != (
    #[trigger] now[j]).id by {
        assert(pres[i].id != pres[j].id);
    }
    assert forall|id: NodeId|
        spec_graph_has(pres, id) && id + by <= usize::MAX implies spec_graph_has(
        now,
        (id + by) as NodeId,
    ) by {
        let j = choose|j: int| 0 <= j < pres.len() && (#[trigger] pres[j]).id == id;
        assert(now[j].id == id + by);
    }
    assert forall|j: int| 0 <= j < now.len() implies spec_node_edges_ok(now, #[trigger] now[j])
        by {
        assert(spec_node_edges_ok(pres, pres[j]));
        let n = now[j];
        assert forall|e: int|
            0 <= e < n.incoming@.len() implies spec_graph_has(
            now,
            (#[trigger] n.incoming@[e]).src,
        ) && spec_depth_of(now, n.incoming@[e].src) > n.depth by {
            let osrc = pres[j].incoming@[e].src;
            assert(spec_graph_has(pres, osrc));
            let w = choose|w: int| 0 <= w < pres.len() && (#[trigger] pres[w]).id == osrc;
            lemma_node_find_unique(pres, osrc, w);
            assert(now[w].id == n.incoming@[e].src);
            lemma_node_find_unique(now, now[w].id, w);
        }
        assert forall|e: int|
            0 <= e < n.outgoing@.len() implies spec_graph_has(
            now,
            (#[trigger] n.outgoing@[e]).dst,
        ) && spec_depth_of(now, n.outgoing@[e].dst) < n.depth by {
            let odst = pres[j].outgoing@[e].dst;
            assert(spec_graph_has(pres, odst));
            let w = choose|w: int| 0 <= w < pres.len() && (#[trigger] pres[w]).id == odst;
            lemma_node_find_unique(pres, odst, w);
            assert(now[w].id == n.outgoing@[e].dst);
            lemma_node_find_unique(now, now[w].id, w);
        }
        if n.payload is Constant {
            assert(pres[j].payload is Constant);
        }
        if n.payload is Api {
            assert(pres[j].payload is Api);
            assert forall|e: int| 0 <= e < n.incoming@.len() implies (
            #[trigger] n.incoming@[e]).port < n.payload->Api_signature.args@.len() by {
                assert(n.incoming@[e].port == pres[j].incoming@[e].port);
            }
        }
    }
}

/// A uniform depth shift keeps the invariant, provided the band holds.
proof fn lemma_shift_wf(pres: Seq<Node>, now: Seq<Node>, off: int)
    requires
        spec_node_ids_unique(pres),
        forall|j: int| 0 <= j < pres.len() ==> spec_node_edges_ok(pres, #[trigger] pres[j]),
        spec_depths_shifted(pres, now, off),
        forall|j: int|
            0 <= j < now.len() ==> -MAX_DEPTH_MAGNITUDE < (#[trigger] now[j]).depth
                < MAX_DEPTH_MAGNITUDE,
    ensures
        spec_node_ids_unique(now),
        forall|j: int| 0 <= j < now.len() ==> spec_node_edges_ok(now, #[trigger] now[j]),
        forall|id: NodeId| spec_graph_has(pres, id) ==> spec_graph_has(now, id),
{
    assert forall|i: int, j: int| 0 <= i < j < now.len() implies (#[trigger] now[i]).id != (
    #[trigger] now[j]).id by {
        assert(pres[i].id != pres[j].id);
    }
    assert forall|id: NodeId| spec_graph_has(pres, id) implies spec_graph_has(now, id) by {
        let j = choose|j: int| 0 <= j < pres.len() && (#[trigger] pres[j]).id == id;
        assert(now[j].id == id);
    }
    assert forall|j: int| 0 <= j < now.len() implies spec_node_edges_ok(now, #[trigger] now[j])
        by {
        assert(spec_node_edges_ok(pres, pres[j]));
        let n = now[j];
        assert forall|e: int|
            0 <= e < n.incoming@.len() implies spec_graph_has(
            now,
            (#[trigger] n.incoming@[e]).src,
        ) && spec_depth_of(now, n.incoming@[e].src) > n.depth by {
            let osrc = pres[j].incoming@[e].src;
            assert(n.incoming@[e] == pres[j].incoming@[e]);
            assert(spec_graph_has(pres, osrc));
            let w = choose|w: int| 0 <= w < pres.len() && (#[trigger] pres[w]).id == osrc;
            lemma_node_find_unique(pres, osrc, w);
            assert(now[w].id == osrc);
            lemma_node_find_unique(now, osrc, w);
        }
        assert forall|e: int|
            0 <= e < n.outgoing@.len() implies spec_graph_has(
            now,
            (#[trigger] n.outgoing@[e]).dst,
        ) && spec_depth_of(now, n.outgoing@[e].dst) < n.depth by {
            let odst = pres[j].outgoing@[e].dst;
            assert(n.outgoing@[e] == pres[j].outgoing@[e]);
            assert(spec_graph_has(pres, odst));
            let w = choose|w: int| 0 <= w < pres.len() && (#[trigger] pres[w]).id == odst;
            lemma_node_find_unique(pres, odst, w);
            assert(now[w].id == odst);
            lemma_node_find_unique(now, odst, w);
        }
        if n.payload is Constant {
            assert(pres[j].payload is Constant);
            assert(n.incoming@.len() == 0);
        }
        if n.payload is Api {
            assert(pres[j].payload is Api);
        }
    }
}
} // verus!
