use railcar::feedback::{
    bucket, ApiProgressFeedback, CoverageFeedback, ExitKind, Observation, StdFeedback,
    TotalEdgesFeedback, UniqCrashFeedback, ValidityFeedback,
};
use railcar::graph::Graph;
use railcar::parametric::ParametricGraph;
use railcar::rng::{Distribution, Rand, WEIGHT_ONE};
use railcar::scheduler::ValidityTestcaseScore;
use railcar::schema::{CallConvention, Schema, SignatureGuess, TypeGuess, TypeKind};
use railcar::shmem::ShMemView;
use railcar::worker::{
    classify_exit, decode_frame, encode_frame, Supervisor, WorkerAction, WorkerPhase,
};
use railcar::feedback::InputValidityMetadata;
use railcar::COVERAGE_MAP_SIZE;

fn kind_only(kind: TypeKind) -> TypeGuess {
    TypeGuess {
        is_any: false,
        kind: Distribution {
            entries: vec![(kind, WEIGHT_ONE)],
        },
        object_shape: None,
        array_value_type: None,
        class_type: None,
    }
}

fn small_schema() -> Schema {
    Schema {
        entries: vec![
            (
                "produce".to_string(),
                SignatureGuess {
                    args: vec![],
                    ret: kind_only(TypeKind::Number),
                    callconv: CallConvention::Free,
                    builtin: None,
                },
            ),
            (
                "consume".to_string(),
                SignatureGuess {
                    args: vec![kind_only(TypeKind::Number), kind_only(TypeKind::String)],
                    ret: kind_only(TypeKind::String),
                    callconv: CallConvention::Free,
                    builtin: None,
                },
            ),
        ],
    }
}

// --- graphs ---

#[test]
fn graph_create_is_valid() {
    let schema = small_schema();
    for seed in 0..30 {
        let mut rand = Rand::with_seed(seed);
        let graph = Graph::create(&mut rand, &schema).expect("graph creation failed");
        assert!(graph.is_valid(), "a created graph passes its validity check");
        for node in graph.nodes.iter() {
            assert!(node.is_fulfilled(), "every node of a completed graph is fulfilled");
        }
    }
}

#[test]
fn graph_edges_descend_in_depth() {
    let schema = small_schema();
    let mut rand = Rand::with_seed(7);
    let graph = Graph::create(&mut rand, &schema).expect("graph creation failed");
    for node in graph.nodes.iter() {
        for inc in node.incoming.iter() {
            let src = graph
                .nodes
                .iter()
                .find(|n| n.id == inc.src)
                .expect("edge endpoint exists");
            assert!(src.depth > node.depth, "incoming edges descend strictly");
        }
        for out in node.outgoing.iter() {
            let dst = graph
                .nodes
                .iter()
                .find(|n| n.id == out.dst)
                .expect("edge endpoint exists");
            assert!(dst.depth < node.depth, "outgoing edges descend strictly");
        }
    }
}

#[test]
fn graph_root_has_no_incoming() {
    let schema = small_schema();
    let mut rand = Rand::with_seed(11);
    let graph = Graph::create(&mut rand, &schema).expect("graph creation failed");
    let root = graph
        .nodes
        .iter()
        .find(|n| n.id == graph.root)
        .expect("root exists");
    assert!(root.incoming.is_empty());
}

#[test]
fn parametric_materialization_is_pure() {
    let schema = small_schema();
    let bytes: Vec<u8> = (0..64).collect();
    let input = ParametricGraph::new(schema.clone(), bytes.clone());
    let a = input.materialize(42).expect("materialization failed");
    let input2 = ParametricGraph::new(schema, bytes);
    let b = input2.materialize(42).expect("materialization failed");

    assert_eq!(a.root, b.root);
    assert_eq!(a.nodes.len(), b.nodes.len());
    for (na, nb) in a.nodes.iter().zip(b.nodes.iter()) {
        assert_eq!(na.id, nb.id);
        assert_eq!(na.depth, nb.depth);
        assert_eq!(na.incoming.len(), nb.incoming.len());
        assert_eq!(na.outgoing.len(), nb.outgoing.len());
    }
}

#[test]
fn parametric_short_buffer_falls_back_to_seed() {
    let schema = small_schema();
    let input = ParametricGraph::new(schema.clone(), vec![1, 2, 3]);
    let a = input.materialize(99).expect("materialization failed");
    let input2 = ParametricGraph::new(schema, vec![1, 2, 3]);
    let b = input2.materialize(99).expect("materialization failed");
    assert_eq!(a.nodes.len(), b.nodes.len());
}

// --- shared memory ---

#[test]
fn shmem_record_hit_counts_up() {
    let mut view = ShMemView::new();
    assert_eq!(view.coverage.len(), COVERAGE_MAP_SIZE);
    view.record_hit(5);
    view.record_hit(5);
    assert_eq!(view.coverage[5], 2);
}

#[test]
fn shmem_record_hit_wraps_saturated_cell_to_one() {
    let mut view = ShMemView::new();
    for _ in 0..255 {
        view.record_hit(9);
    }
    assert_eq!(view.coverage[9], 255);
    view.record_hit(9);
    assert_eq!(view.coverage[9], 1, "a saturated cell wraps back to one");
}

// --- feedbacks ---

#[test]
fn bucket_classes() {
    assert_eq!(bucket(0), 0);
    assert_eq!(bucket(1), 1);
    assert_eq!(bucket(2), 2);
    assert_eq!(bucket(3), 4);
    assert_eq!(bucket(4), 8);
    assert_eq!(bucket(9), 16);
    assert_eq!(bucket(20), 32);
    assert_eq!(bucket(100), 64);
    assert_eq!(bucket(255), 128);
}

#[test]
fn coverage_feedback_reports_novelty_once_absorbed() {
    let mut feedback = CoverageFeedback::new(8);
    let mut map = vec![0u8; 8];
    map[3] = 1;
    assert!(feedback.is_interesting(&map));
    feedback.absorb(&map);
    assert!(!feedback.is_interesting(&map), "the same map is stale after absorbing");
    map[3] = 200;
    assert!(feedback.is_interesting(&map), "a higher bucket is novel again");
}

#[test]
fn total_edges_feedback_monotone() {
    let mut feedback = TotalEdgesFeedback::new();
    assert_eq!(feedback.is_interesting(5).unwrap(), true);
    assert_eq!(feedback.is_interesting(5).unwrap(), false);
    assert_eq!(feedback.is_interesting(9).unwrap(), true);
    assert_eq!(feedback.edges, 9);
}

#[test]
fn total_edges_feedback_rejects_decrease() {
    let mut feedback = TotalEdgesFeedback::new();
    assert!(feedback.is_interesting(9).unwrap());
    let result = feedback.is_interesting(3);
    assert!(result.is_err(), "a shrinking edge total errors out");
    assert_eq!(feedback.edges, 9, "the record never decreases");
}

#[test]
fn api_progress_peaks_at_full_chains() {
    assert_eq!(ApiProgressFeedback::progress(10, 10), 100);
    assert_eq!(ApiProgressFeedback::progress(0, 0), -100);
    assert_eq!(ApiProgressFeedback::progress(10, 12), 96);

    let mut feedback = ApiProgressFeedback::new();
    assert!(feedback.is_interesting(10, 10));
    assert!(!feedback.is_interesting(10, 10), "the same peak is not novel twice");
}

#[test]
fn validity_feedback_counts_valid_runs() {
    let mut feedback = ValidityFeedback::new();
    assert!(feedback.is_interesting(true));
    assert!(!feedback.is_interesting(false));
    assert!(feedback.is_interesting(true));
    assert_eq!(feedback.meta.num_valid_executions, 2);
    let meta = feedback.append_metadata().unwrap();
    assert!(meta.is_valid);
    assert_eq!(feedback.meta.num_valid_corpus, 1);
}

#[test]
fn std_feedback_gates_valid_crashes() {
    let mut feedback = StdFeedback::new(true, 8);
    let mut map = vec![0u8; 8];
    map[0] = 1;
    let obs = Observation {
        exit: ExitKind::Crash,
        is_valid: true,
        coverage: &map,
        total_edges: 3,
        num_calls_executed: 1,
    };
    let interesting = feedback.is_interesting(obs, 1).unwrap();
    assert!(!interesting, "a valid crash never enters the corpus");

    let invalid_crash = Observation {
        exit: ExitKind::Crash,
        is_valid: false,
        coverage: &map,
        total_edges: 3,
        num_calls_executed: 1,
    };
    let interesting_invalid = feedback.is_interesting(invalid_crash, 1).unwrap();
    assert!(!interesting_invalid, "an invalid crash never enters the corpus either");

    let obs2 = Observation {
        exit: ExitKind::Normal,
        is_valid: true,
        coverage: &map,
        total_edges: 3,
        num_calls_executed: 1,
    };
    let interesting2 = feedback.is_interesting(obs2, 1).unwrap();
    assert!(interesting2, "new coverage on a clean run is interesting");
}

#[test]
fn uniq_crash_feedback_wants_valid_new_crashes() {
    let mut objective = UniqCrashFeedback::new(8);
    let mut map = vec![0u8; 8];
    map[1] = 1;

    let clean = Observation {
        exit: ExitKind::Normal,
        is_valid: true,
        coverage: &map,
        total_edges: 0,
        num_calls_executed: 0,
    };
    assert!(!objective.is_interesting(clean));

    let invalid_crash = Observation {
        exit: ExitKind::Crash,
        is_valid: false,
        coverage: &map,
        total_edges: 0,
        num_calls_executed: 0,
    };
    assert!(!objective.is_interesting(invalid_crash));

    let valid_crash = Observation {
        exit: ExitKind::Crash,
        is_valid: true,
        coverage: &map,
        total_edges: 0,
        num_calls_executed: 0,
    };
    assert!(objective.is_interesting(valid_crash));
    objective.append_metadata(&map);

    let repeat = Observation {
        exit: ExitKind::Crash,
        is_valid: true,
        coverage: &map,
        total_edges: 0,
        num_calls_executed: 0,
    };
    assert!(
        !objective.is_interesting(repeat),
        "a crash with stale coverage is not unique"
    );
}

#[test]
fn validity_score_doubles_valid_inputs() {
    assert_eq!(
        ValidityTestcaseScore::compute(10, InputValidityMetadata { is_valid: true }),
        20
    );
    assert_eq!(
        ValidityTestcaseScore::compute(10, InputValidityMetadata { is_valid: false }),
        10
    );
}

// --- worker supervisor ---

#[test]
fn worker_restart_on_crash() {
    let mut supervisor = Supervisor::new();
    supervisor.on_init_reply(true).expect("init should succeed");
    assert_eq!(supervisor.phase, WorkerPhase::Ready);

    // the child dies on the first invocation: the transport faults
    assert!(supervisor.start_invoke());
    let (exit, action) = supervisor.on_invoke_reply(None);
    assert_eq!(exit, ExitKind::Crash, "a failed round-trip reports a crash");
    assert_eq!(
        action,
        WorkerAction::RestartChild,
        "the supervisor restarts the child"
    );
    assert_eq!(supervisor.restarts, 1);

    // the next invocation proceeds normally
    assert!(supervisor.start_invoke());
    let (exit2, action2) = supervisor.on_invoke_reply(Some(0));
    assert_eq!(exit2, ExitKind::Normal);
    assert_eq!(action2, WorkerAction::Proceed);
}

#[test]
fn worker_exit_codes_classify() {
    assert_eq!(classify_exit(0), ExitKind::Normal);
    assert_eq!(classify_exit(1), ExitKind::Normal, "an expected error is still clean");
    assert_eq!(classify_exit(2), ExitKind::Crash);
    assert_eq!(classify_exit(3), ExitKind::Crash);
}

#[test]
fn worker_harness_panic_aborts() {
    let mut supervisor = Supervisor::new();
    supervisor.on_init_reply(true).expect("init should succeed");
    assert!(supervisor.start_invoke());
    let (_, action) = supervisor.on_invoke_reply(Some(3));
    assert_eq!(
        action,
        WorkerAction::Abort,
        "a harness panic stops the whole client"
    );
    assert_eq!(supervisor.phase, WorkerPhase::Terminated);
    assert!(!supervisor.start_invoke(), "a terminated child takes no input");
}

#[test]
fn frame_round_trip() {
    let payload: Vec<u8> = vec![9, 8, 7, 6, 5];
    let framed = encode_frame(&payload).expect("payload fits a frame");
    assert_eq!(framed.len(), payload.len() + 4);

    let (decoded, used) = decode_frame(&framed).expect("a whole frame decodes");
    assert_eq!(decoded, payload);
    assert_eq!(used, framed.len());
}

#[test]
fn frame_decodes_from_a_stream() {
    let first: Vec<u8> = vec![1, 2, 3];
    let second: Vec<u8> = vec![4, 5];
    let mut stream = encode_frame(&first).unwrap();
    stream.extend(encode_frame(&second).unwrap());

    let (p1, used1) = decode_frame(&stream).expect("first frame decodes");
    assert_eq!(p1, first);
    let rest: Vec<u8> = stream[used1..].to_vec();
    let (p2, used2) = decode_frame(&rest).expect("second frame decodes");
    assert_eq!(p2, second);
    assert_eq!(used2, rest.len());
}

#[test]
fn frame_incomplete_buffer_waits() {
    let payload: Vec<u8> = vec![1, 2, 3, 4];
    let mut framed = encode_frame(&payload).unwrap();
    framed.pop();
    assert!(decode_frame(&framed).is_none(), "a partial frame is not decoded");
}

// --- graph mutations ---

use railcar::graph_mutations::{Context, Extend, Priority, Truncate, TruncateConstructor};
use railcar::graph::{Node, NodePayload, IncomingEdge, OutgoingEdge};
use railcar::schema::Signature;
use railcar::MutationResult;

#[test]
fn graph_mutations_keep_validity() {
    let schema = small_schema();
    let mut rand = Rand::with_seed(3);
    let mut graph = Graph::create(&mut rand, &schema).expect("graph creation failed");

    for _ in 0..20 {
        let pick = rand.below(3);
        let outcome = match pick {
            0 => Truncate {}.mutate(&mut rand, &mut graph),
            1 => Extend {}.mutate(&mut rand, &mut graph),
            _ => TruncateConstructor {}.mutate(&mut rand, &mut graph),
        };
        outcome.expect("mutation failed");
        for node in graph.nodes.iter() {
            for inc in node.incoming.iter() {
                let src = graph.nodes.iter().find(|n| n.id == inc.src).unwrap();
                assert!(src.depth > node.depth);
            }
        }
    }
}

/// A schema whose constructor demands more of its own class: completing any
/// freed port cascades past the completion budget.
fn explosive_schema() -> Schema {
    let class_guess = TypeGuess {
        is_any: false,
        kind: Distribution {
            entries: vec![(TypeKind::Class, WEIGHT_ONE)],
        },
        object_shape: None,
        array_value_type: None,
        class_type: Some(Distribution {
            entries: vec![("Chain".to_string(), WEIGHT_ONE)],
        }),
    };
    Schema {
        entries: vec![(
            "Chain".to_string(),
            SignatureGuess {
                args: vec![class_guess.clone(), class_guess.clone(), class_guess.clone()],
                ret: class_guess,
                callconv: CallConvention::Constructor,
            builtin: None,
            },
        )],
    }
}

#[test]
fn graph_priority_and_context_keep_validity() {
    let schema = small_schema();
    let mut rand = Rand::with_seed(23);
    let mut graph = Graph::create(&mut rand, &schema).expect("graph creation failed");
    for _ in 0..10 {
        Priority {}.mutate(&mut rand, &mut graph).expect("priority failed");
        Context {}.mutate(&mut rand, &mut graph).expect("context failed");
        for node in graph.nodes.iter() {
            for inc in node.incoming.iter() {
                let src = graph.nodes.iter().find(|n| n.id == inc.src).unwrap();
                assert!(src.depth > node.depth);
            }
        }
    }
}

#[test]
fn graph_offset_ids_shifts_everything() {
    let schema = small_schema();
    let mut rand = Rand::with_seed(13);
    let mut graph = Graph::create(&mut rand, &schema).expect("graph creation failed");
    let ids: Vec<usize> = graph.nodes.iter().map(|n| n.id).collect();
    let root = graph.root;

    assert!(graph.offset_ids(1000));
    assert_eq!(graph.root, root + 1000);
    for (node, old_id) in graph.nodes.iter().zip(ids.iter()) {
        assert_eq!(node.id, old_id + 1000);
        for inc in node.incoming.iter() {
            assert!(graph.nodes.iter().any(|m| m.id == inc.src));
        }
    }
}

#[test]
fn graph_set_max_depth_slides_depths() {
    let schema = small_schema();
    let mut rand = Rand::with_seed(17);
    let mut graph = Graph::create(&mut rand, &schema).expect("graph creation failed");
    let max_before = graph.nodes.iter().map(|n| n.depth).max().unwrap();

    assert!(graph.set_max_depth(-5));
    let max_after = graph.nodes.iter().map(|n| n.depth).max().unwrap();
    assert_eq!(max_after, -5);
    let shift = -5 - max_before;
    let _ = shift;
    for node in graph.nodes.iter() {
        for inc in node.incoming.iter() {
            let src = graph.nodes.iter().find(|m| m.id == inc.src).unwrap();
            assert!(src.depth > node.depth, "depth order survives the slide");
        }
    }
}

#[test]
fn graph_huge_graph_reverts() {
    // two chained constructor nodes; removing the edge forces a completion
    // pass that cascades past the budget and must undo
    let schema = explosive_schema();
    let chain_type = railcar::schema::Type::Class("Chain".to_string());
    let sig = Signature {
        args: vec![chain_type.clone(), chain_type.clone(), chain_type.clone()],
        ret: chain_type,
        callconv: CallConvention::Constructor,
    };
    let consumer = Node {
        id: 0,
        payload: NodePayload::Api {
            signature: sig.clone(),
            name: "Chain".to_string(),
            context: vec![0; 16],
        },
        incoming: vec![IncomingEdge {
            src: 1,
            evaluation_order: 0,
            port: 0,
        }],
        outgoing: vec![],
        depth: 0,
    };
    let producer = Node {
        id: 1,
        payload: NodePayload::Api {
            signature: sig,
            name: "Chain".to_string(),
            context: vec![0; 16],
        },
        incoming: vec![],
        outgoing: vec![OutgoingEdge { dst: 0 }],
        depth: 1,
    };
    let mut graph = Graph {
        root: 0,
        nodes: vec![consumer, producer],
        schema,
    };

    let node_count = graph.nodes.len();
    let ids: Vec<usize> = graph.nodes.iter().map(|n| n.id).collect();

    let mut rand = Rand::with_seed(1);
    let outcome = TruncateConstructor {}
        .mutate(&mut rand, &mut graph)
        .expect("mutation should not error");
    assert_eq!(
        outcome,
        MutationResult::Undo,
        "a completion blowup reports an undo"
    );
    assert_eq!(graph.nodes.len(), node_count, "the revert restores the node count");
    let ids_after: Vec<usize> = graph.nodes.iter().map(|n| n.id).collect();
    assert_eq!(ids, ids_after, "the revert restores the nodes");
}
