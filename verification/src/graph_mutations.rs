//! Structure-preserving mutations over graph inputs. Each operator leaves
//! the graph valid; one whose completion pass exceeds its budget restores
//! the pre-mutation state and reports `Undo`.

use vstd::prelude::*;

use crate::graph::graph_like;
use crate::graph::graph_wf;
use crate::graph::spec_graph_has;
use crate::graph::spec_node_find;
use crate::graph::Graph;
use crate::graph::Node;
use crate::graph::NodeId;
use crate::graph::MAX_DEPTH_MAGNITUDE;
use crate::rng::rand_wf;
use crate::rng::Rand;
use crate::schema::schema_wf;
use crate::schema::SignatureQuery;
use crate::MutationResult;
use crate::RailcarError;

verus! {

/// Remove one outgoing edge of some node and complete what that opens.
pub struct Truncate {}

/// Attach a new consuming call to some node's value.
pub struct Extend {}

/// Remove one edge, seen from the producing side.
pub struct TruncateDestructor {}

/// Remove one edge, seen from the consuming side.
pub struct TruncateConstructor {}

/// Shared tail of the edge-removing operators: re-root at `new_root`,
/// complete and clean up; a budget blowup restores the backup.
fn complete_and_cleanup(
    g: &mut Graph,
    rand: &mut Rand,
    new_root: NodeId,
    backup: Graph,
) -> (r: Result<MutationResult, RailcarError>)
    requires
        rand_wf(*old(rand)),
        graph_wf(*old(g)),
        schema_wf(old(g).schema),
        spec_graph_has(old(g).nodes@, new_root),
        graph_wf(backup),
        schema_wf(backup.schema),
    ensures
        rand_wf(*final(rand)),
        r is Ok ==> graph_wf(*final(g)) && schema_wf(final(g).schema),
        r != Ok::<MutationResult, RailcarError>(MutationResult::Skipped),
        r == Ok::<MutationResult, RailcarError>(MutationResult::Undo) ==> *final(g) == backup,
        r is Err ==> !(r->Err_0 is HugeGraph),
{
    g.root = new_root;
    proof {
        assert(graph_wf(*g));
    }
    match g.complete(rand) {
        Ok(()) => {
            g.cleanup();
            Ok(MutationResult::Mutated)
        },
        Err(e) => {
            match e {
                RailcarError::HugeGraph => {
                    *g = backup;
                    Ok(MutationResult::Undo)
                },
                _ => Err(e),
            }
        },
    }
}

impl Truncate {
    /// Remove a random outgoing edge and complete from the producing side.
    pub fn mutate(&self, rand: &mut Rand, g: &mut Graph) -> (r: Result<
        MutationResult,
        RailcarError,
    >)
        requires
            rand_wf(*old(rand)),
            graph_wf(*old(g)),
            schema_wf(old(g).schema),
        ensures
            rand_wf(*final(rand)),
            r is Ok ==> graph_wf(*final(g)) && schema_wf(final(g).schema),
            r == Ok::<MutationResult, RailcarError>(MutationResult::Skipped) ==> *final(g) == *old(
                g,
            ),
            r == Ok::<MutationResult, RailcarError>(MutationResult::Skipped) <==> (forall|j: int|
                0 <= j < old(g).nodes@.len() ==> (#[trigger] old(g).nodes@[j]).outgoing@.len()
                    == 0),
            r == Ok::<MutationResult, RailcarError>(MutationResult::Undo) ==> graph_like(
                *final(g),
                *old(g),
            ) && graph_like(*old(g), *final(g)),
            r is Err ==> !(r->Err_0 is HugeGraph),
    {
        let n = g.nodes.len();
        let mut cands: Vec<(NodeId, usize)> = Vec::new();
        let mut k: usize = 0;
        while k < n
            invariant
                rand_wf(*rand),
                *g == *old(g),
                graph_wf(*g),
                n == g.nodes@.len(),
                k <= n,
                cands@.len() == 0 ==> forall|j: int|
                    0 <= j < k ==> (#[trigger] g.nodes@[j]).outgoing@.len() == 0,
                cands@.len() > 0 ==> exists|j: int|
                    0 <= j < n && (#[trigger] g.nodes@[j]).outgoing@.len() > 0,
                forall|c: int|
                    0 <= c < cands@.len() ==> spec_graph_has(
                        g.nodes@,
                        (#[trigger] cands@[c]).0,
                    ) && (match spec_node_find(g.nodes@, cands@[c].0) {
                        Option::Some(i) => (cands@[c].1 as int) < g.nodes@[i].outgoing@.len(),
                        Option::None => false,
                    }),
            decreases n - k,
        {
            let m = g.nodes[k].outgoing.len();
            if m > 0 {
                let out_idx = rand.pick_index(m);
                proof {
                    crate::graph::lemma_node_find_unique(g.nodes@, g.nodes@[k as int].id, k as int);
                }
                cands.push((g.nodes[k].id, out_idx));
            }
            k = k + 1;
        }
        if cands.len() == 0 {
            return Ok(MutationResult::Skipped);
        }
        let backup = g.clone_graph();
        let (src_id, out_idx) = cands[rand.pick_index(cands.len())];
        let si = match g.find_node(src_id) {
            Some(i) => i,
            None => {
                proof {
                    assert(false);
                }
                return Err(RailcarError::Unknown("node vanished".to_owned()));
            },
        };
        proof {
            crate::graph::lemma_node_find_unique(g.nodes@, src_id, si as int);
        }
        if out_idx >= g.nodes[si].outgoing.len() {
            proof {
                assert(false);
            }
            return Err(RailcarError::Unknown("edge vanished".to_owned()));
        }
        let dst_id = g.nodes[si].outgoing[out_idx].dst;
        g.disconnect(src_id, dst_id);
        proof {
            assert(g.nodes@[si as int].id == src_id);
        }
        complete_and_cleanup(g, rand, src_id, backup)
    }
}

impl TruncateDestructor {
    /// Remove a random edge picked from the producing side; re-root there.
    pub fn mutate(&self, rand: &mut Rand, g: &mut Graph) -> (r: Result<
        MutationResult,
        RailcarError,
    >)
        requires
            rand_wf(*old(rand)),
            graph_wf(*old(g)),
            schema_wf(old(g).schema),
        ensures
            rand_wf(*final(rand)),
            r is Ok ==> graph_wf(*final(g)) && schema_wf(final(g).schema),
            r == Ok::<MutationResult, RailcarError>(MutationResult::Skipped) ==> *final(g) == *old(
                g,
            ),
            r == Ok::<MutationResult, RailcarError>(MutationResult::Skipped) <==> (forall|j: int|
                0 <= j < old(g).nodes@.len() ==> (#[trigger] old(g).nodes@[j]).outgoing@.len()
                    == 0),
            r == Ok::<MutationResult, RailcarError>(MutationResult::Undo) ==> graph_like(
                *final(g),
                *old(g),
            ) && graph_like(*old(g), *final(g)),
            r is Err ==> !(r->Err_0 is HugeGraph),
    {
        let op = Truncate {  };
        op.mutate(rand, g)
    }
}

impl TruncateConstructor {
    /// Remove a random incoming edge of some node and complete the port it
    /// frees, re-rooting at the consuming side.
    pub fn mutate(&self, rand: &mut Rand, g: &mut Graph) -> (r: Result<
        MutationResult,
        RailcarError,
    >)
        requires
            rand_wf(*old(rand)),
            graph_wf(*old(g)),
            schema_wf(old(g).schema),
        ensures
            rand_wf(*final(rand)),
            r is Ok ==> graph_wf(*final(g)) && schema_wf(final(g).schema),
            r == Ok::<MutationResult, RailcarError>(MutationResult::Skipped) ==> *final(g) == *old(
                g,
            ),
            r == Ok::<MutationResult, RailcarError>(MutationResult::Skipped) <==> (forall|j: int|
                0 <= j < old(g).nodes@.len() ==> (#[trigger] old(g).nodes@[j]).incoming@.len()
                    == 0),
            r == Ok::<MutationResult, RailcarError>(MutationResult::Undo) ==> graph_like(
                *final(g),
                *old(g),
            ) && graph_like(*old(g), *final(g)),
            r is Err ==> !(r->Err_0 is HugeGraph),
    {
        let n = g.nodes.len();
        let mut cands: Vec<(NodeId, NodeId)> = Vec::new();
        let mut k: usize = 0;
        while k < n
            invariant
                rand_wf(*rand),
                *g == *old(g),
                graph_wf(*g),
                n == g.nodes@.len(),
                k <= n,
                cands@.len() == 0 ==> forall|j: int|
                    0 <= j < k ==> (#[trigger] g.nodes@[j]).incoming@.len() == 0,
                cands@.len() > 0 ==> exists|j: int|
                    0 <= j < n && (#[trigger] g.nodes@[j]).incoming@.len() > 0,
                forall|c: int|
                    0 <= c < cands@.len() ==> spec_graph_has(g.nodes@, (#[trigger] cands@[c]).1),
            decreases n - k,
        {
            let m = g.nodes[k].incoming.len();
            if m > 0 {
                let inc_idx = rand.pick_index(m);
                proof {
                    crate::graph::lemma_node_find_unique(g.nodes@, g.nodes@[k as int].id, k as int);
                }
                cands.push((g.nodes[k].incoming[inc_idx].src, g.nodes[k].id));
            }
            k = k + 1;
        }
        if cands.len() == 0 {
            return Ok(MutationResult::Skipped);
        }
        let backup = g.clone_graph();
        let (src_id, dst_id) = cands[rand.pick_index(cands.len())];
        g.disconnect(src_id, dst_id);
        proof {
            let c = choose|i: int|
                0 <= i < old(g).nodes@.len() && (#[trigger] old(g).nodes@[i]).id == dst_id;
            assert(g.nodes@[c].id == dst_id);
        }
        complete_and_cleanup(g, rand, dst_id, backup)
    }
}

impl Extend {
    /// Pick a node whose value is not `Undefined`, concretize an endpoint
    /// that can consume it, attach the new call one level shallower, and
    /// complete its remaining ports.
    pub fn mutate(&self, rand: &mut Rand, g: &mut Graph) -> (r: Result<
        MutationResult,
        RailcarError,
    >)
        requires
            rand_wf(*old(rand)),
            graph_wf(*old(g)),
            schema_wf(old(g).schema),
        ensures
            rand_wf(*final(rand)),
            r is Ok ==> graph_wf(*final(g)) && schema_wf(final(g).schema),
            r == Ok::<MutationResult, RailcarError>(MutationResult::Skipped) ==> *final(g) == *old(
                g,
            ),
            r == Ok::<MutationResult, RailcarError>(MutationResult::Undo) ==> graph_like(
                *final(g),
                *old(g),
            ) && graph_like(*old(g), *final(g)),
            r is Err ==> !(r->Err_0 is HugeGraph),
    {
        let n = g.nodes.len();
        let mut cands: Vec<NodeId> = Vec::new();
        let mut k: usize = 0;
        while k < n
            invariant
                rand_wf(*rand),
                *g == *old(g),
                graph_wf(*g),
                n == g.nodes@.len(),
                k <= n,
                forall|c: int|
                    0 <= c < cands@.len() ==> spec_graph_has(g.nodes@, #[trigger] cands@[c]),
            decreases n - k,
        {
            let not_undefined = match g.nodes[k].get_type() {
                crate::schema::Type::Undefined => false,
                _ => true,
            };
            if not_undefined {
                proof {
                    crate::graph::lemma_node_find_unique(g.nodes@, g.nodes@[k as int].id, k as int);
                }
                cands.push(g.nodes[k].id);
            }
            k = k + 1;
        }
        if cands.len() == 0 {
            return Ok(MutationResult::Skipped);
        }
        let id = cands[rand.pick_index(cands.len())];
        let ci = match g.find_node(id) {
            Some(i) => i,
            None => {
                proof {
                    assert(false);
                }
                return Err(RailcarError::Unknown("node vanished".to_owned()));
            },
        };
        proof {
            crate::graph::lemma_node_find_unique(g.nodes@, id, ci as int);
        }
        let typ = crate::schema::clone_type(g.nodes[ci].get_type());
        let query = SignatureQuery {
            args: Some(vec![crate::schema::clone_type(&typ)]),
            ret: None,
            callconv: None,
        };
        let (name, sig) = match g.schema.concretize(rand, query) {
            Some((name, sig, _)) => (name, sig),
            None => {
                return Ok(MutationResult::Skipped);
            },
        };
        let port = match sig.find_port(&typ) {
            Some(p) => p,
            None => {
                return Err(
                    RailcarError::Unknown(
                        "a signature concretized to consume a value must accept it".to_owned(),
                    ),
                );
            },
        };
        let new_id = match g.next_node_id() {
            Some(i) => i,
            None => {
                return Ok(MutationResult::Skipped);
            },
        };
        let depth = g.nodes[ci].depth;
        if depth <= -(MAX_DEPTH_MAGNITUDE - 1) {
            return Ok(MutationResult::Skipped);
        }
        let backup = g.clone_graph();
        let new_depth = depth - 1;
        let ctx = crate::rng::context_byte_seq(rand, None);
        let new_node = Node::api(new_id, name, sig, ctx, new_depth);
        proof {
            crate::graph::lemma_push_node(g.nodes@, new_node);
        }
        g.nodes.push(new_node);
        proof {
            assert(graph_wf(*g));
            crate::graph::lemma_node_find_unique(g.nodes@, id, ci as int);
            crate::graph::lemma_node_find_unique(g.nodes@, new_id, g.nodes@.len() - 1);
        }
        g.connect(id, new_id, port, 0);
        match g.complete(rand) {
            Ok(()) => Ok(MutationResult::Mutated),
            Err(e) => {
                match e {
                    RailcarError::HugeGraph => {
                        *g = backup;
                        Ok(MutationResult::Undo)
                    },
                    _ => Err(e),
                }
            },
        }
    }
}


/// Byte-havoc the context of an API node that feeds on constants, then
/// resample those constants from the new context, deterministically.
pub struct Context {}

/// Number of havoc steps is `2` to the power of a draw below this bound.
pub const MAX_CONTEXT_MUTATION_ITERATIONS_LOG2: u64 = 7;

/// Swapping one node's payload for one of the same shape (same kind, and
/// for an API node the same argument count) keeps the invariant.
proof fn lemma_wf_after_payload_swap(pres: Seq<Node>, now: Seq<Node>, i: int)
    requires
        crate::graph::spec_node_ids_unique(pres),
        forall|j: int|
            0 <= j < pres.len() ==> crate::graph::spec_node_edges_ok(pres, #[trigger] pres[j]),
        0 <= i < pres.len(),
        now.len() == pres.len(),
        forall|j: int| 0 <= j < pres.len() && j != i ==> #[trigger] now[j] == pres[j],
        now[i].id == pres[i].id,
        now[i].depth == pres[i].depth,
        now[i].incoming@ == pres[i].incoming@,
        now[i].outgoing@ == pres[i].outgoing@,
        now[i].payload is Constant ==> now[i].incoming@.len() == 0,
        now[i].payload is Api ==> now[i].incoming@.len() == 0 || (pres[i].payload is Api
            && now[i].payload->Api_signature.args@.len()
            == pres[i].payload->Api_signature.args@.len()),
    ensures
        crate::graph::spec_node_ids_unique(now),
        forall|j: int|
            0 <= j < now.len() ==> crate::graph::spec_node_edges_ok(now, #[trigger] now[j]),
        forall|id: NodeId|
            crate::graph::spec_graph_has(pres, id) == crate::graph::spec_graph_has(now, id),
{
    assert forall|i2: int, j2: int|
        0 <= i2 < j2 < now.len() implies (#[trigger] now[i2]).id != (#[trigger] now[j2]).id by {
        assert(now[i2].id == pres[i2].id && now[j2].id == pres[j2].id) by {
            if i2 != i {
                assert(now[i2] == pres[i2]);
            }
            if j2 != i {
                assert(now[j2] == pres[j2]);
            }
        }
    }
    assert forall|j: int|
        0 <= j < pres.len() implies (#[trigger] now[j]).id == pres[j].id && now[j].depth
        == pres[j].depth by {
        if j != i {
            assert(now[j] == pres[j]);
        }
    }
    crate::graph::lemma_has_depth_congruent(pres, now);
    assert forall|j: int| 0 <= j < now.len() implies crate::graph::spec_node_edges_ok(
        now,
        #[trigger] now[j],
    ) by {
        assert(crate::graph::spec_node_edges_ok(pres, pres[j]));
        if j != i {
            assert(now[j] == pres[j]);
        }
        let n = now[j];
        assert(n.incoming@ == pres[j].incoming@);
        assert(n.outgoing@ == pres[j].outgoing@);
        assert forall|e: int|
            0 <= e < n.incoming@.len() implies crate::graph::spec_graph_has(
            now,
            (#[trigger] n.incoming@[e]).src,
        ) && crate::graph::spec_depth_of(now, n.incoming@[e].src) > n.depth by {
            assert(crate::graph::spec_graph_has(pres, pres[j].incoming@[e].src));
        }
        assert forall|e: int|
            0 <= e < n.outgoing@.len() implies crate::graph::spec_graph_has(
            now,
            (#[trigger] n.outgoing@[e]).dst,
        ) && crate::graph::spec_depth_of(now, n.outgoing@[e].dst) < n.depth by {
            assert(crate::graph::spec_graph_has(pres, pres[j].outgoing@[e].dst));
        }
    }
}

/// One pass of byte-level havoc over a buffer: bit flips, byte overwrites
/// and wrapping increments, a power-of-two number of times. The length is
/// untouched.
pub fn havoc_bytes(rand: &mut Rand, bytes: &mut Vec<u8>)
    requires
        rand_wf(*old(rand)),
    ensures
        rand_wf(*final(rand)),
        final(bytes)@.len() == old(bytes)@.len(),
{
    let exp = rand.between(1, MAX_CONTEXT_MUTATION_ITERATIONS_LOG2);
    let num: u64 = 1u64 << (exp as u64);
    let mut step: u64 = 0;
    while step < num
        invariant
            rand_wf(*rand),
            step <= num,
            bytes@.len() == old(bytes)@.len(),
        decreases num - step,
    {
        if bytes.len() > 0 {
            let pos = rand.pick_index(bytes.len());
            let op = rand.below(3);
            let b = bytes[pos];
            let b2: u8 = if op == 0 {
                let bit = rand.below(8);
                b ^ (1u8 << (bit as u8))
            } else if op == 1 {
                #[verifier::truncate] (rand.next() as u8)
            } else {
                b.wrapping_add(1)
            };
            bytes.set(pos, b2);
        }
        step = step + 1;
    }
}

impl Context {
    /// Pick an API node with a resampleable constant input, havoc its
    /// context bytes, and resample every eligible constant child from a
    /// byte-backed draw source seeded by the new context.
    #[verifier::rlimit(60)]
    #[verifier::spinoff_prover]
    pub fn mutate(&self, rand: &mut Rand, g: &mut Graph) -> (r: Result<
        MutationResult,
        RailcarError,
    >)
        requires
            rand_wf(*old(rand)),
            graph_wf(*old(g)),
            schema_wf(old(g).schema),
        ensures
            rand_wf(*final(rand)),
            r is Ok ==> graph_wf(*final(g)) && schema_wf(final(g).schema),
            r is Ok ==> (r->Ok_0 is Mutated || r->Ok_0 is Skipped),
            r == Ok::<MutationResult, RailcarError>(MutationResult::Skipped) ==> *final(g) == *old(
                g,
            ),
    {
        // candidates: API nodes with a resampleable constant input
        let n = g.nodes.len();
        let mut cands: Vec<NodeId> = Vec::new();
        let mut k: usize = 0;
        while k < n
            invariant
                rand_wf(*rand),
                *g == *old(g),
                graph_wf(*g),
                n == g.nodes@.len(),
                k <= n,
                forall|c: int|
                    0 <= c < cands@.len() ==> crate::graph::spec_graph_has(
                        g.nodes@,
                        #[trigger] cands@[c],
                    ),
            decreases n - k,
        {
            if self.has_resampleable_input(g, k) {
                proof {
                    crate::graph::lemma_node_find_unique(g.nodes@, g.nodes@[k as int].id, k as int);
                }
                cands.push(g.nodes[k].id);
            }
            k = k + 1;
        }
        if cands.len() == 0 {
            return Ok(MutationResult::Skipped);
        }
        let id = cands[rand.pick_index(cands.len())];
        let ci = match g.find_node(id) {
            Some(i) => i,
            None => {
                proof {
                    assert(false);
                }
                return Err(RailcarError::Unknown("node vanished".to_owned()));
            },
        };
        proof {
            crate::graph::lemma_node_find_unique(g.nodes@, id, ci as int);
        }
        // havoc the context and write it back
        let new_context: Vec<u8> = match &g.nodes[ci].payload {
            crate::graph::NodePayload::Api { context, .. } => {
                let mut ctx: Vec<u8> = Vec::new();
                let m = context.len();
                let mut i: usize = 0;
                while i < m
                    invariant
                        m == context@.len(),
                        i <= m,
                        ctx@.len() == i,
                    decreases m - i,
                {
                    ctx.push(context[i]);
                    i = i + 1;
                }
                ctx
            },
            crate::graph::NodePayload::Constant { .. } => {
                return Ok(MutationResult::Skipped);
            },
        };
        let mut ctx = new_context;
        havoc_bytes(rand, &mut ctx);
        crate::rng::extend_context_byte_seq(rand, &mut ctx, None);
        let ctx_copy = {
            let mut c2: Vec<u8> = Vec::new();
            let m = ctx.len();
            let mut i: usize = 0;
            while i < m
                invariant
                    m == ctx@.len(),
                    i <= m,
                    c2@.len() == i,
                decreases m - i,
            {
                c2.push(ctx[i]);
                i = i + 1;
            }
            c2
        };
        {
            let ghost pres = g.nodes@;
            let mut node = g.nodes.remove(ci);
            match node.payload {
                crate::graph::NodePayload::Api { signature, name, context: _ } => {
                    node.payload = crate::graph::NodePayload::Api { signature, name, context: ctx };
                },
                crate::graph::NodePayload::Constant { .. } => {
                    proof {
                        assert(false);
                    }
                    return Err(RailcarError::Unknown("payload changed shape".to_owned()));
                },
            }
            g.nodes.insert(ci, node);
            proof {
                assert(g.nodes@ =~= pres.update(ci as int, g.nodes@[ci as int]));
                lemma_wf_after_payload_swap(pres, g.nodes@, ci as int);
            }
        }
        // resample the eligible constant children from the new context
        if ctx_copy.len() < 8 {
            return Ok(MutationResult::Mutated);
        }
        let mut const_rand = Rand::from_bytes(ctx_copy.as_slice());
        let edge_count = g.nodes[ci].incoming.len();
        let mut e: usize = 0;
        while e < edge_count
            invariant
                rand_wf(*rand),
                rand_wf(const_rand),
                graph_wf(*g),
                schema_wf(g.schema),
                g.schema == old(g).schema,
                ci < g.nodes@.len(),
                edge_count == g.nodes@[ci as int].incoming@.len(),
                e <= edge_count,
            decreases edge_count - e,
        {
            let src_id = g.nodes[ci].incoming[e].src;
            proof {
                assert(crate::graph::spec_node_edges_ok(g.nodes@, g.nodes@[ci as int]));
                crate::graph::lemma_node_find_some(g.nodes@, src_id);
                crate::graph::lemma_node_find_props(g.nodes@, src_id);
            }
            let si = match g.find_node(src_id) {
                Some(i) => i,
                None => {
                    proof {
                        assert(false);
                    }
                    return Err(RailcarError::Unknown("edge endpoint vanished".to_owned()));
                },
            };
            let eligible = match &g.nodes[si].payload {
                crate::graph::NodePayload::Constant { typ, .. } => match typ {
                    crate::schema::Type::Null => false,
                    crate::schema::Type::Undefined => false,
                    crate::schema::Type::Class(_) => false,
                    _ => true,
                },
                crate::graph::NodePayload::Api { .. } => false,
            };
            if eligible && si != ci {
                let ghost pres = g.nodes@;
                let mut src_node = g.nodes.remove(si);
                let adjusted_ci = if si < ci {
                    ci - 1
                } else {
                    ci
                };
                match src_node.payload {
                    crate::graph::NodePayload::Constant { typ, value: _ } => {
                        proof {
                            assert(!(typ is Class));
                        }
                        let new_value = match crate::schema::sample_constant(
                            &typ,
                            &mut const_rand,
                        ) {
                            Ok(v) => v,
                            Err(err) => {
                                proof {
                                    assert(false);
                                }
                                return Err(err);
                            },
                        };
                        src_node.payload = crate::graph::NodePayload::Constant {
                            typ,
                            value: new_value,
                        };
                    },
                    crate::graph::NodePayload::Api { .. } => {
                        proof {
                            assert(false);
                        }
                        return Err(RailcarError::Unknown("payload changed shape".to_owned()));
                    },
                }
                g.nodes.insert(si, src_node);
                proof {
                    assert(g.nodes@ =~= pres.update(si as int, g.nodes@[si as int]));
                    lemma_wf_after_payload_swap(pres, g.nodes@, si as int);
                    assert(g.nodes@[ci as int] == pres[ci as int]);
                }
                let _ = adjusted_ci;
            }
            e = e + 1;
        }
        Ok(MutationResult::Mutated)
    }

    /// Whether the node at this position is an API node fed by a constant
    /// worth resampling (anything but `Null`, `Undefined` or a class).
    fn has_resampleable_input(&self, g: &Graph, k: usize) -> (r: bool)
        requires
            graph_wf(*g),
            k < g.nodes@.len(),
    {
        let is_api = match &g.nodes[k].payload {
            crate::graph::NodePayload::Api { .. } => true,
            crate::graph::NodePayload::Constant { .. } => false,
        };
        if !is_api {
            return false;
        }
        let m = g.nodes[k].incoming.len();
        let mut e: usize = 0;
        while e < m
            invariant
                graph_wf(*g),
                k < g.nodes@.len(),
                m == g.nodes@[k as int].incoming@.len(),
                e <= m,
            decreases m - e,
        {
            let src_id = g.nodes[k].incoming[e].src;
            proof {
                assert(crate::graph::spec_node_edges_ok(g.nodes@, g.nodes@[k as int]));
                crate::graph::lemma_node_find_some(g.nodes@, src_id);
                crate::graph::lemma_node_find_props(g.nodes@, src_id);
            }
            match g.find_node(src_id) {
                Some(si) => {
                    let good = match &g.nodes[si].payload {
                        crate::graph::NodePayload::Constant { typ, .. } => match typ {
                            crate::schema::Type::Null => false,
                            crate::schema::Type::Undefined => false,
                            crate::schema::Type::Class(_) => false,
                            _ => true,
                        },
                        crate::graph::NodePayload::Api { .. } => false,
                    };
                    if good {
                        return true;
                    }
                },
                None => {},
            }
            e = e + 1;
        }
        false
    }
}

/// Attach a consuming call to a node that nothing consumes yet.
pub struct ExtendDestructor {}

/// Replace a producerless node by a call of a different endpoint that
/// returns the same type.
pub struct ExtendConstructor {}

impl ExtendDestructor {
    /// Pick a sink node (no outgoing edges, value not `Undefined`),
    /// concretize an endpoint that can consume it, attach the new call one
    /// level shallower, and complete.
    pub fn mutate(&self, rand: &mut Rand, g: &mut Graph) -> (r: Result<
        MutationResult,
        RailcarError,
    >)
        requires
            rand_wf(*old(rand)),
            graph_wf(*old(g)),
            schema_wf(old(g).schema),
        ensures
            rand_wf(*final(rand)),
            r is Ok ==> graph_wf(*final(g)) && schema_wf(final(g).schema),
            r == Ok::<MutationResult, RailcarError>(MutationResult::Skipped) ==> *final(g) == *old(
                g,
            ),
            r == Ok::<MutationResult, RailcarError>(MutationResult::Undo) ==> graph_like(
                *final(g),
                *old(g),
            ) && graph_like(*old(g), *final(g)),
            r is Err ==> !(r->Err_0 is HugeGraph),
    {
        let n = g.nodes.len();
        let mut cands: Vec<NodeId> = Vec::new();
        let mut k: usize = 0;
        while k < n
            invariant
                rand_wf(*rand),
                *g == *old(g),
                graph_wf(*g),
                n == g.nodes@.len(),
                k <= n,
                forall|c: int|
                    0 <= c < cands@.len() ==> spec_graph_has(g.nodes@, #[trigger] cands@[c]),
            decreases n - k,
        {
            let sink = g.nodes[k].outgoing.len() == 0;
            let not_undefined = match g.nodes[k].get_type() {
                crate::schema::Type::Undefined => false,
                _ => true,
            };
            if sink && not_undefined {
                proof {
                    crate::graph::lemma_node_find_unique(g.nodes@, g.nodes@[k as int].id, k as int);
                }
                cands.push(g.nodes[k].id);
            }
            k = k + 1;
        }
        if cands.len() == 0 {
            return Ok(MutationResult::Skipped);
        }
        let id = cands[rand.pick_index(cands.len())];
        let ci = match g.find_node(id) {
            Some(i) => i,
            None => {
                proof {
                    assert(false);
                }
                return Err(RailcarError::Unknown("node vanished".to_owned()));
            },
        };
        proof {
            crate::graph::lemma_node_find_unique(g.nodes@, id, ci as int);
        }
        let typ = crate::schema::clone_type(g.nodes[ci].get_type());
        let query = SignatureQuery {
            args: Some(vec![crate::schema::clone_type(&typ)]),
            ret: None,
            callconv: None,
        };
        let (name, sig) = match g.schema.concretize(rand, query) {
            Some((name, sig, _)) => (name, sig),
            None => {
                return Ok(MutationResult::Skipped);
            },
        };
        let port = match sig.find_port(&typ) {
            Some(p) => p,
            None => {
                return Err(
                    RailcarError::Unknown(
                        "a signature concretized to consume a value must accept it".to_owned(),
                    ),
                );
            },
        };
        let new_id = match g.next_node_id() {
            Some(i) => i,
            None => {
                return Ok(MutationResult::Skipped);
            },
        };
        let depth = g.nodes[ci].depth;
        if depth <= -(MAX_DEPTH_MAGNITUDE - 1) {
            return Ok(MutationResult::Skipped);
        }
        let backup = g.clone_graph();
        let ctx = crate::rng::context_byte_seq(rand, None);
        let new_node = Node::api(new_id, name, sig, ctx, depth - 1);
        proof {
            crate::graph::lemma_push_node(g.nodes@, new_node);
        }
        g.nodes.push(new_node);
        proof {
            assert(graph_wf(*g));
            crate::graph::lemma_node_find_unique(g.nodes@, id, ci as int);
            crate::graph::lemma_node_find_unique(g.nodes@, new_id, g.nodes@.len() - 1);
        }
        g.connect(id, new_id, port, 0);
        match g.complete(rand) {
            Ok(()) => Ok(MutationResult::Mutated),
            Err(e) => {
                match e {
                    RailcarError::HugeGraph => {
                        *g = backup;
                        Ok(MutationResult::Undo)
                    },
                    _ => Err(e),
                }
            },
        }
    }
}

impl ExtendConstructor {
    /// Pick a node with no producers, concretize some endpoint returning its
    /// type, and swap the node's payload for that call; its consumers are
    /// untouched, and a completion pass fills the new call's ports.
    pub fn mutate(&self, rand: &mut Rand, g: &mut Graph) -> (r: Result<
        MutationResult,
        RailcarError,
    >)
        requires
            rand_wf(*old(rand)),
            graph_wf(*old(g)),
            schema_wf(old(g).schema),
        ensures
            rand_wf(*final(rand)),
            r is Ok ==> graph_wf(*final(g)) && schema_wf(final(g).schema),
            r == Ok::<MutationResult, RailcarError>(MutationResult::Skipped) ==> *final(g) == *old(
                g,
            ),
            r == Ok::<MutationResult, RailcarError>(MutationResult::Undo) ==> graph_like(
                *final(g),
                *old(g),
            ) && graph_like(*old(g), *final(g)),
            r is Err ==> !(r->Err_0 is HugeGraph),
    {
        let n = g.nodes.len();
        let mut cands: Vec<NodeId> = Vec::new();
        let mut k: usize = 0;
        while k < n
            invariant
                rand_wf(*rand),
                *g == *old(g),
                graph_wf(*g),
                n == g.nodes@.len(),
                k <= n,
                forall|c: int|
                    0 <= c < cands@.len() ==> spec_graph_has(g.nodes@, #[trigger] cands@[c]),
            decreases n - k,
        {
            if g.nodes[k].incoming.len() == 0 {
                proof {
                    crate::graph::lemma_node_find_unique(g.nodes@, g.nodes@[k as int].id, k as int);
                }
                cands.push(g.nodes[k].id);
            }
            k = k + 1;
        }
        if cands.len() == 0 {
            return Ok(MutationResult::Skipped);
        }
        let id = cands[rand.pick_index(cands.len())];
        let ci = match g.find_node(id) {
            Some(i) => i,
            None => {
                proof {
                    assert(false);
                }
                return Err(RailcarError::Unknown("node vanished".to_owned()));
            },
        };
        proof {
            crate::graph::lemma_node_find_unique(g.nodes@, id, ci as int);
        }
        if g.nodes[ci].incoming.len() > 0 {
            return Ok(MutationResult::Skipped);
        }
        let typ = crate::schema::clone_type(g.nodes[ci].get_type());
        let query = SignatureQuery {
            args: None,
            ret: Some(typ),
            callconv: None,
        };
        let (name, sig) = match g.schema.concretize(rand, query) {
            Some((name, sig, _)) => (name, sig),
            None => {
                return Ok(MutationResult::Skipped);
            },
        };
        let backup = g.clone_graph();
        let ctx = crate::rng::context_byte_seq(rand, None);
        {
            let ghost pres = g.nodes@;
            let mut node = g.nodes.remove(ci);
            node.payload = crate::graph::NodePayload::Api { signature: sig, name, context: ctx };
            g.nodes.insert(ci, node);
            proof {
                assert(g.nodes@ =~= pres.update(ci as int, g.nodes@[ci as int]));
                assert(g.nodes@[ci as int].incoming@.len() == 0);
                lemma_wf_after_payload_swap(pres, g.nodes@, ci as int);
            }
        }
        match g.complete(rand) {
            Ok(()) => Ok(MutationResult::Mutated),
            Err(e) => {
                match e {
                    RailcarError::HugeGraph => {
                        *g = backup;
                        Ok(MutationResult::Undo)
                    },
                    _ => Err(e),
                }
            },
        }
    }
}

/// Reorder a node's outgoing edges and shuffle the evaluation order of its
/// incoming edges; the graph's structure is otherwise untouched.
pub struct Priority {}

/// Swapping a node's edge order (and its incoming evaluation orders) keeps
/// the invariant: sources, destinations and ports are the same edges.
proof fn lemma_wf_after_reorder(pres: Seq<Node>, now: Seq<Node>, i: int)
    requires
        crate::graph::spec_node_ids_unique(pres),
        forall|j: int|
            0 <= j < pres.len() ==> crate::graph::spec_node_edges_ok(pres, #[trigger] pres[j]),
        0 <= i < pres.len(),
        now.len() == pres.len(),
        forall|j: int| 0 <= j < pres.len() && j != i ==> #[trigger] now[j] == pres[j],
        now[i].id == pres[i].id,
        now[i].depth == pres[i].depth,
        now[i].payload == pres[i].payload,
        forall|e: int|
            0 <= e < now[i].outgoing@.len() ==> crate::graph::spec_out_listed(
                pres[i].outgoing@,
                #[trigger] now[i].outgoing@[e],
            ),
        now[i].incoming@.len() == pres[i].incoming@.len(),
        forall|e: int|
            0 <= e < now[i].incoming@.len() ==> (#[trigger] now[i].incoming@[e]).src
                == pres[i].incoming@[e].src && now[i].incoming@[e].port
                == pres[i].incoming@[e].port,
    ensures
        crate::graph::spec_node_ids_unique(now),
        forall|j: int|
            0 <= j < now.len() ==> crate::graph::spec_node_edges_ok(now, #[trigger] now[j]),
        forall|id: NodeId|
            crate::graph::spec_graph_has(pres, id) == crate::graph::spec_graph_has(now, id),
{
    assert forall|i2: int, j2: int|
        0 <= i2 < j2 < now.len() implies (#[trigger] now[i2]).id != (#[trigger] now[j2]).id by {
        assert(now[i2].id == pres[i2].id && now[j2].id == pres[j2].id) by {
            if i2 != i {
                assert(now[i2] == pres[i2]);
            }
            if j2 != i {
                assert(now[j2] == pres[j2]);
            }
        }
    }
    assert forall|j: int|
        0 <= j < pres.len() implies (#[trigger] now[j]).id == pres[j].id && now[j].depth
        == pres[j].depth by {
        if j != i {
            assert(now[j] == pres[j]);
        }
    }
    crate::graph::lemma_has_depth_congruent(pres, now);
    assert forall|j: int| 0 <= j < now.len() implies crate::graph::spec_node_edges_ok(
        now,
        #[trigger] now[j],
    ) by {
        assert(crate::graph::spec_node_edges_ok(pres, pres[j]));
        let n = now[j];
        assert forall|e: int|
            0 <= e < n.incoming@.len() implies crate::graph::spec_graph_has(
            now,
            (#[trigger] n.incoming@[e]).src,
        ) && crate::graph::spec_depth_of(now, n.incoming@[e].src) > n.depth by {
            if j == i {
                assert(n.incoming@[e].src == pres[i].incoming@[e].src);
                assert(crate::graph::spec_graph_has(pres, pres[i].incoming@[e].src));
            } else {
                assert(n == pres[j]);
                assert(crate::graph::spec_graph_has(pres, n.incoming@[e].src));
            }
        }
        assert forall|e: int|
            0 <= e < n.outgoing@.len() implies crate::graph::spec_graph_has(
            now,
            (#[trigger] n.outgoing@[e]).dst,
        ) && crate::graph::spec_depth_of(now, n.outgoing@[e].dst) < n.depth by {
            if j == i {
                assert(crate::graph::spec_out_listed(pres[i].outgoing@, n.outgoing@[e]));
                let w = choose|w: int|
                    0 <= w < pres[i].outgoing@.len() && (#[trigger] pres[i].outgoing@[w])
                        == n.outgoing@[e];
                assert(crate::graph::spec_graph_has(pres, pres[i].outgoing@[w].dst));
            } else {
                assert(n == pres[j]);
                assert(crate::graph::spec_graph_has(pres, n.outgoing@[e].dst));
            }
        }
        assert forall|e: int, e2: int|
            0 <= e < e2 < n.incoming@.len() implies (#[trigger] n.incoming@[e]).port != (
        #[trigger] n.incoming@[e2]).port by {
            if j == i {
                assert(pres[i].incoming@[e].port != pres[i].incoming@[e2].port);
            } else {
                assert(n == pres[j]);
            }
        }
        if n.payload is Constant {
            if j == i {
                assert(pres[i].incoming@.len() == 0);
            } else {
                assert(n == pres[j]);
            }
        }
        if n.payload is Api {
            assert forall|e: int| 0 <= e < n.incoming@.len() implies (
            #[trigger] n.incoming@[e]).port < n.payload->Api_signature.args@.len() by {
                if j == i {
                    assert(n.incoming@[e].port == pres[i].incoming@[e].port);
                } else {
                    assert(n == pres[j]);
                }
            }
        }
    }
}

impl Priority {
    /// Pick a node with at least two outgoing edges or two incoming edges;
    /// shuffle its outgoing order and the evaluation orders of its inputs.
    #[verifier::rlimit(60)]
    #[verifier::spinoff_prover]
    pub fn mutate(&self, rand: &mut Rand, g: &mut Graph) -> (r: Result<
        MutationResult,
        RailcarError,
    >)
        requires
            rand_wf(*old(rand)),
            graph_wf(*old(g)),
            schema_wf(old(g).schema),
        ensures
            rand_wf(*final(rand)),
            r is Ok,
            graph_wf(*final(g)) && schema_wf(final(g).schema),
            r == Ok::<MutationResult, RailcarError>(MutationResult::Skipped) ==> *final(g) == *old(
                g,
            ),
            r == Ok::<MutationResult, RailcarError>(MutationResult::Skipped) <==> (forall|j: int|
                0 <= j < old(g).nodes@.len() ==> (#[trigger] old(g).nodes@[j]).outgoing@.len() < 2
                    && old(g).nodes@[j].incoming@.len() < 2),
    {
        let n = g.nodes.len();
        let mut cands: Vec<NodeId> = Vec::new();
        let mut k: usize = 0;
        while k < n
            invariant
                rand_wf(*rand),
                *g == *old(g),
                graph_wf(*g),
                n == g.nodes@.len(),
                k <= n,
                cands@.len() == 0 ==> forall|j: int|
                    0 <= j < k ==> (#[trigger] g.nodes@[j]).outgoing@.len() < 2
                        && g.nodes@[j].incoming@.len() < 2,
                cands@.len() > 0 ==> exists|j: int|
                    0 <= j < n && ((#[trigger] g.nodes@[j]).outgoing@.len() >= 2
                        || g.nodes@[j].incoming@.len() >= 2),
                forall|c: int|
                    0 <= c < cands@.len() ==> spec_graph_has(g.nodes@, #[trigger] cands@[c]),
            decreases n - k,
        {
            if g.nodes[k].outgoing.len() >= 2 || g.nodes[k].incoming.len() >= 2 {
                proof {
                    crate::graph::lemma_node_find_unique(g.nodes@, g.nodes@[k as int].id, k as int);
                }
                cands.push(g.nodes[k].id);
            }
            k = k + 1;
        }
        if cands.len() == 0 {
            return Ok(MutationResult::Skipped);
        }
        let id = cands[rand.pick_index(cands.len())];
        let ci = match g.find_node(id) {
            Some(i) => i,
            None => {
                proof {
                    assert(false);
                }
                return Err(RailcarError::Unknown("node vanished".to_owned()));
            },
        };
        let ghost pres = g.nodes@;
        let mut node = g.nodes.remove(ci);
        // shuffle the outgoing order
        if node.outgoing.len() >= 2 {
            let m = node.outgoing.len();
            let mut i: usize = m - 1;
            while i >= 1
                invariant
                    rand_wf(*rand),
                    m == node.outgoing@.len(),
                    m >= 2,
                    i <= m - 1,
                    forall|e: int|
                        0 <= e < m ==> crate::graph::spec_out_listed(
                            pres[ci as int].outgoing@,
                            #[trigger] node.outgoing@[e],
                        ),
                    node.incoming@ == pres[ci as int].incoming@,
                    node.id == pres[ci as int].id,
                    node.depth == pres[ci as int].depth,
                    node.payload == pres[ci as int].payload,
                decreases i,
            {
                let pick = rand.pick_index(i);
                let a = node.outgoing[pick];
                let b = node.outgoing[i - 1];
                node.outgoing.set(pick, b);
                node.outgoing.set(i - 1, a);
                proof {
                    assert forall|e: int| 0 <= e < m implies crate::graph::spec_out_listed(
                        pres[ci as int].outgoing@,
                        #[trigger] node.outgoing@[e],
                    ) by {
                        if e == pick as int {
                            assert(node.outgoing@[e] == b);
                        } else if e == i - 1 {
                            assert(node.outgoing@[e] == a);
                        }
                    }
                }
                i = i - 1;
            }
        }
        proof {
            assert forall|e: int|
                0 <= e < node.outgoing@.len() implies crate::graph::spec_out_listed(
                pres[ci as int].outgoing@,
                #[trigger] node.outgoing@[e],
            ) by {
                if node.outgoing@.len() < 2 {
                    assert(node.outgoing@ == pres[ci as int].outgoing@);
                    assert(node.outgoing@[e] == pres[ci as int].outgoing@[e]);
                }
            }
        }
        // shuffle the evaluation orders among the incoming edges
        if node.incoming.len() >= 2 {
            let m = node.incoming.len();
            let mut orders: Vec<usize> = Vec::new();
            let mut e: usize = 0;
            while e < m
                invariant
                    m == node.incoming@.len(),
                    e <= m,
                    orders@.len() == e,
                decreases m - e,
            {
                orders.push(node.incoming[e].evaluation_order);
                e = e + 1;
            }
            let mut i: usize = m - 1;
            while i >= 1
                invariant
                    rand_wf(*rand),
                    m >= 2,
                    orders@.len() == m,
                    i <= m - 1,
                decreases i,
            {
                let pick = rand.pick_index(i);
                let a = orders[pick];
                let b = orders[i - 1];
                orders.set(pick, b);
                orders.set(i - 1, a);
                i = i - 1;
            }
            let mut e2: usize = 0;
            while e2 < m
                invariant
                    m == node.incoming@.len(),
                    orders@.len() == m,
                    e2 <= m,
                    node.incoming@.len() == pres[ci as int].incoming@.len(),
                    forall|e3: int|
                        0 <= e3 < m ==> (#[trigger] node.incoming@[e3]).src
                            == pres[ci as int].incoming@[e3].src && node.incoming@[e3].port
                            == pres[ci as int].incoming@[e3].port,
                    node.id == pres[ci as int].id,
                    node.depth == pres[ci as int].depth,
                    node.payload == pres[ci as int].payload,
                    forall|e3: int|
                        0 <= e3 < node.outgoing@.len() ==> crate::graph::spec_out_listed(
                            pres[ci as int].outgoing@,
                            #[trigger] node.outgoing@[e3],
                        ),
                decreases m - e2,
            {
                let old_edge = node.incoming[e2];
                let new_order = orders[e2];
                node.incoming.set(
                    e2,
                    crate::graph::IncomingEdge {
                        src: old_edge.src,
                        evaluation_order: new_order,
                        port: old_edge.port,
                    },
                );
                e2 = e2 + 1;
            }
        }
        g.nodes.insert(ci, node);
        proof {
            assert(g.nodes@ =~= pres.update(ci as int, g.nodes@[ci as int]));
            lemma_wf_after_reorder(pres, g.nodes@, ci as int);
        }
        Ok(MutationResult::Mutated)
    }
}
} // verus!
