//! The parametric input: a byte buffer plus a schema snapshot. The graph it
//! stands for is materialized on demand, as a pure function of the seed,
//! the bytes and the schema.

use vstd::prelude::*;

use crate::graph::graph_wf;
use crate::graph::spec_fulfilled;
use crate::graph::spec_rooted;
use crate::graph::Graph;
use crate::schema::schema_wf;
use crate::schema::Schema;
use crate::RailcarError;

verus! {

/// A graph described by bytes: mutations work on the bytes, and the graph
/// is rebuilt deterministically at execution time.
#[derive(Debug)]
pub struct ParametricGraph {
    pub schema: Schema,
    pub bytes: Vec<u8>,
}

impl ParametricGraph {
    pub fn new(schema: Schema, bytes: Vec<u8>) -> (r: ParametricGraph)
        ensures
            r.schema == schema,
            r.bytes == bytes,
    {
        ParametricGraph { schema, bytes }
    }

    /// The byte buffer the mutations work on.
    pub fn bytes(&self) -> (r: &Vec<u8>)
        ensures
            r == &self.bytes,
    {
        &self.bytes
    }

    /// Materialize the graph this input stands for. The result is a
    /// function of the seed, the bytes and the schema alone: the same
    /// arguments build the same graph.
    pub fn materialize(&self, seed: u64) -> (r: Result<Graph, RailcarError>)
        requires
            schema_wf(self.schema),
        ensures
            r is Ok ==> {
                &&& graph_wf(r->Ok_0)
                &&& spec_rooted(r->Ok_0)
                &&& forall|j: int|
                    0 <= j < (r->Ok_0).nodes@.len() ==> spec_fulfilled(
                        #[trigger] (r->Ok_0).nodes@[j],
                    )
            },
    {
        Graph::create_from_bytes(seed, self.bytes.as_slice(), &self.schema)
    }
}


impl crate::HasSeqLen for ParametricGraph {
    fn seq_len_of(&self) -> usize {
        1
    }
}

impl crate::CanValidate for ParametricGraph {
    fn check_valid(&self) -> bool {
        true
    }
}
} // verus!
