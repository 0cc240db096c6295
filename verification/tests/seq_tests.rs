use railcar::MutationResult;
use railcar::rng::{Distribution, Rand, WEIGHT_ONE};
use railcar::schema::{CallConvention, Schema, SignatureGuess, Type, TypeGuess, TypeKind};
use railcar::seq::{
    ApiCallArg, ApiSeq, Crossover, ExtendSeq, FuzzHavoc, HavocSeq, RemovePrefixSeq,
    RemoveSuffixSeq, SpliceSeq,
};

fn kind_only(kind: TypeKind) -> TypeGuess {
    TypeGuess {
        is_any: false,
        kind: Distribution {
            entries: vec![(kind, WEIGHT_ONE)],
        },
        object_shape: None,
        array_value_type: None,
        class_type: None,
    }
}

fn entry(
    name: &str,
    args: Vec<TypeGuess>,
    ret: TypeGuess,
    callconv: CallConvention,
) -> (String, SignatureGuess) {
    (
        name.to_string(),
        SignatureGuess {
            args,
            ret,
            callconv,
            builtin: None,
        },
    )
}

/// A schema shaped like an image codec: encode and decode endpoints over
/// numbers and strings, plus a decoder class.
fn codec_like_schema() -> Schema {
    let decoder_class = TypeGuess {
        is_any: false,
        kind: Distribution {
            entries: vec![(TypeKind::Class, WEIGHT_ONE)],
        },
        object_shape: None,
        array_value_type: None,
        class_type: Some(Distribution {
            entries: vec![("Decoder".to_string(), WEIGHT_ONE)],
        }),
    };
    Schema {
        entries: vec![
            entry(
                "encode",
                vec![kind_only(TypeKind::Number), kind_only(TypeKind::String)],
                kind_only(TypeKind::String),
                CallConvention::Free,
            ),
            entry(
                "decode",
                vec![kind_only(TypeKind::String)],
                kind_only(TypeKind::Number),
                CallConvention::Free,
            ),
            entry(
                "Decoder",
                vec![kind_only(TypeKind::Number)],
                decoder_class.clone(),
                CallConvention::Constructor,
            ),
            entry(
                "run",
                vec![decoder_class],
                kind_only(TypeKind::Number),
                CallConvention::Method,
            ),
        ],
    }
}

/// A schema shaped like a text parser: parse and build endpoints over
/// strings, objects and booleans.
fn parser_like_schema() -> Schema {
    let options = TypeGuess {
        is_any: false,
        kind: Distribution {
            entries: vec![(TypeKind::Object, WEIGHT_ONE)],
        },
        object_shape: Some(vec![
            ("trim".to_string(), kind_only(TypeKind::Boolean)),
            ("depth".to_string(), kind_only(TypeKind::Number)),
        ]),
        array_value_type: None,
        class_type: None,
    };
    Schema {
        entries: vec![
            entry(
                "parse",
                vec![kind_only(TypeKind::String), options],
                kind_only(TypeKind::Object).clone(),
                CallConvention::Free,
            ),
            entry(
                "build",
                vec![kind_only(TypeKind::Boolean)],
                kind_only(TypeKind::String),
                CallConvention::Free,
            ),
        ],
    }
}

fn generate_seq(rand: &mut Rand, schema: &Schema) -> ApiSeq {
    let mut fuzz: Vec<u8> = Vec::new();
    for _ in 0..64 {
        fuzz.push(rand.between(0, 255) as u8);
    }
    ApiSeq::create(rand, schema, fuzz).expect("failed to create a sequence")
}

fn apply_random_mutation(rand: &mut Rand, input: &mut ApiSeq, schema: &Schema) {
    let pick = rand.below(4);
    let _ = match pick {
        0 => SpliceSeq {}.mutate(rand, schema, input),
        1 => ExtendSeq {}.mutate(rand, schema, input),
        2 => RemoveSuffixSeq {}.mutate(rand, input),
        _ => RemovePrefixSeq {}.mutate(rand, schema, input),
    };
}

#[test]
fn mutation_stability_jpeg_js() {
    let schema = codec_like_schema();
    let mut rand = Rand::with_seed(12345);
    let mut input = generate_seq(&mut rand, &schema);

    for _ in 0..100 {
        apply_random_mutation(&mut rand, &mut input, &schema);
        assert!(input.is_valid());
    }
}

#[test]
fn mutation_stability_fast_xml_parser() {
    let schema = parser_like_schema();
    let mut rand = Rand::with_seed(12345);
    let mut input = generate_seq(&mut rand, &schema);

    for _ in 0..100 {
        apply_random_mutation(&mut rand, &mut input, &schema);
        assert!(input.is_valid());
    }
}

#[test]
fn stress_test_generate_and_mutate() {
    let schemas = [codec_like_schema(), parser_like_schema()];

    for schema in &schemas {
        for seed in 0..200 {
            let mut rand = Rand::with_seed(seed);
            let mut input = generate_seq(&mut rand, schema);
            assert!(input.is_valid());

            for _ in 0..20 {
                apply_random_mutation(&mut rand, &mut input, schema);
                assert!(input.is_valid());
            }

            assert!(input.seq_len() >= 1, "a sequence keeps at least one call");
        }
    }
}

#[test]
fn mutation_determinism() {
    let schema = codec_like_schema();
    let seed = 77777;

    let mut rand_a = Rand::with_seed(seed);
    let mut input_a = generate_seq(&mut rand_a, &schema);

    let mut rand_b = Rand::with_seed(seed);
    let mut input_b = generate_seq(&mut rand_b, &schema);

    assert_eq!(input_a, input_b, "initial generation should be identical");

    for i in 0..50 {
        let pick_a = rand_a.below(4);
        let pick_b = rand_b.below(4);
        assert_eq!(pick_a, pick_b, "random picks diverged at iteration {i}");

        apply_pick(pick_a, &mut rand_a, &mut input_a, &schema);
        apply_pick(pick_b, &mut rand_b, &mut input_b, &schema);

        assert_eq!(
            input_a, input_b,
            "inputs diverged after mutation at iteration {i}"
        );
    }
}

fn apply_pick(pick: u64, rand: &mut Rand, input: &mut ApiSeq, schema: &Schema) {
    let _ = match pick {
        0 => SpliceSeq {}.mutate(rand, schema, input),
        1 => ExtendSeq {}.mutate(rand, schema, input),
        2 => RemoveSuffixSeq {}.mutate(rand, input),
        _ => RemovePrefixSeq {}.mutate(rand, schema, input),
    };
}

#[test]
fn create_with_empty_schema_fails() {
    let schema = Schema { entries: vec![] };
    let mut rand = Rand::with_seed(42);
    let mut fuzz: Vec<u8> = Vec::new();
    for _ in 0..64 {
        fuzz.push(rand.between(0, 255) as u8);
    }
    let result = ApiSeq::create(&mut rand, &schema, fuzz);
    assert!(result.is_err(), "creating from an empty schema should fail");
}

#[test]
fn create_with_single_no_arg_endpoint() {
    let schema = Schema {
        entries: vec![entry(
            "simple_fn",
            vec![],
            kind_only(TypeKind::Number),
            CallConvention::Free,
        )],
    };

    for seed in 0..50 {
        let mut rand = Rand::with_seed(seed);
        let seq = generate_seq(&mut rand, &schema);
        assert!(seq.is_valid());
        assert_eq!(
            seq.seq().len(),
            1,
            "a single no-argument endpoint should produce one-call sequences"
        );
        assert_eq!(seq.seq()[0].name, "simple_fn");
    }
}

#[test]
fn create_with_constructor_only_schema() {
    let class_guess = TypeGuess {
        is_any: false,
        kind: Distribution {
            entries: vec![(TypeKind::Class, WEIGHT_ONE)],
        },
        object_shape: None,
        array_value_type: None,
        class_type: Some(Distribution {
            entries: vec![("MyClass".to_string(), WEIGHT_ONE)],
        }),
    };
    let schema = Schema {
        entries: vec![entry(
            "MyClass",
            vec![],
            class_guess,
            CallConvention::Constructor,
        )],
    };

    for seed in 0..50 {
        let mut rand = Rand::with_seed(seed);
        let seq = generate_seq(&mut rand, &schema);
        assert!(seq.is_valid());
    }
}

#[test]
fn composition_mutate_then_fresh_ids_then_complete() {
    let schema = codec_like_schema();

    for seed in 0..100 {
        let mut rand = Rand::with_seed(seed);
        let mut input = generate_seq(&mut rand, &schema);
        assert!(input.is_valid());

        for _ in 0..5 {
            apply_random_mutation(&mut rand, &mut input, &schema);
        }
        assert!(input.is_valid());

        input.generate_fresh_ids();

        assert!(input.is_valid());
    }
}

#[test]
fn composition_remove_then_complete() {
    let schema = codec_like_schema();

    for seed in 0..100 {
        let mut rand = Rand::with_seed(seed);
        let mut seq = generate_seq(&mut rand, &schema);
        assert!(seq.is_valid());

        if seq.seq().len() >= 2 {
            let idx = rand.between(0, (seq.seq().len() - 1) as u64) as usize;
            seq.remove(idx);

            seq.complete(&mut rand, &schema).expect("complete failed");
            assert!(seq.is_valid());
        }
    }
}

#[test]
fn composition_shift_then_complete() {
    let schema = codec_like_schema();

    for seed in 0..100 {
        let mut rand = Rand::with_seed(seed);
        let mut seq = generate_seq(&mut rand, &schema);
        assert!(seq.is_valid());

        seq.shift();

        seq.complete(&mut rand, &schema).expect("complete failed");
        assert!(seq.is_valid());
    }
}

#[test]
fn test_shift_replaces_first_call_refs() {
    let schema = codec_like_schema();
    let mut rand = Rand::with_seed(42);
    let mut seq = generate_seq(&mut rand, &schema);

    let first_id = seq.seq()[0].id;

    seq.shift();

    for call in seq.seq().iter() {
        for arg in call.args.iter() {
            if let ApiCallArg::Output(id) = arg {
                assert_ne!(
                    *id, first_id,
                    "shift should replace every use of the first call with a hole"
                );
            }
        }
    }
}

#[test]
fn test_complete_fills_missing() {
    let schema = codec_like_schema();
    let mut rand = Rand::with_seed(42);

    let mut seq = ApiSeq {
        fuzz: vec![1, 2, 3],
        seq: vec![railcar::seq::ApiCall {
            id: 0,
            name: "encode".to_string(),
            args: vec![ApiCallArg::Missing, ApiCallArg::Missing],
            conv: CallConvention::Free,
        }],
    };

    seq.complete(&mut rand, &schema).expect("complete failed");
    assert!(seq.is_valid());
}

#[test]
fn test_generate_fresh_ids_changes_all_ids() {
    let schema = codec_like_schema();
    let mut rand = Rand::with_seed(42);
    let mut seq = generate_seq(&mut rand, &schema);

    let old_ids: Vec<u64> = seq.seq().iter().map(|c| c.id).collect();

    seq.generate_fresh_ids();

    for call in seq.seq().iter() {
        assert!(
            !old_ids.contains(&call.id),
            "renumbering should produce entirely new ids"
        );
    }
}

#[test]
fn test_generate_fresh_ids_preserves_references() {
    let schema = codec_like_schema();
    let mut rand = Rand::with_seed(42);
    let mut seq = generate_seq(&mut rand, &schema);

    seq.generate_fresh_ids();

    let mut seen: Vec<u64> = Vec::new();
    for call in seq.seq().iter() {
        for arg in call.args.iter() {
            if let ApiCallArg::Output(id) = arg {
                assert!(
                    seen.contains(id),
                    "an output reference must name an earlier call"
                );
            }
        }
        seen.push(call.id);
    }
}

#[test]
fn test_unequal_seq() {
    let seq_a = ApiSeq {
        fuzz: vec![],
        seq: vec![railcar::seq::ApiCall {
            id: 0,
            name: "encode".to_string(),
            args: vec![
                ApiCallArg::Constant(Type::Number),
                ApiCallArg::Constant(Type::Number),
            ],
            conv: CallConvention::Free,
        }],
    };
    let seq_b = ApiSeq {
        fuzz: vec![],
        seq: vec![railcar::seq::ApiCall {
            id: 9,
            name: "encode".to_string(),
            args: vec![
                ApiCallArg::Constant(Type::Undefined),
                ApiCallArg::Constant(Type::Undefined),
            ],
            conv: CallConvention::Free,
        }],
    };

    assert_ne!(seq_a, seq_b);
}

#[test]
fn test_crossover_valid() {
    let schema = codec_like_schema();
    for seed in 0..50 {
        let mut rand = Rand::with_seed(seed);
        let mut input = generate_seq(&mut rand, &schema);
        let other = generate_seq(&mut rand, &schema);
        assert!(input.is_valid());
        assert!(other.is_valid());

        let outcome = Crossover {}
            .mutate(&mut rand, &schema, &mut input, &other)
            .expect("crossover failed");
        let _ = outcome;
        assert!(input.is_valid(), "a crossed-over sequence stays valid");
    }
}

#[test]
fn test_crossover_fresh_ids_disjoint_tail() {
    // after a crossover the spliced tail must reference only calls that
    // exist and sit earlier; run several and re-complete to shake it out
    let schema = parser_like_schema();
    let mut rand = Rand::with_seed(9);
    let mut input = generate_seq(&mut rand, &schema);
    for _ in 0..20 {
        let other = generate_seq(&mut rand, &schema);
        Crossover {}
            .mutate(&mut rand, &schema, &mut input, &other)
            .expect("crossover failed");
        assert!(input.is_valid());
    }
}

#[test]
fn fuzz_havoc_keeps_structure() {
    let schema = codec_like_schema();
    let mut rand = Rand::with_seed(5);
    let mut input = generate_seq(&mut rand, &schema);
    let names: Vec<String> = input.seq().iter().map(|c| c.name.clone()).collect();
    let fuzz_len = input.bytes().len();

    for _ in 0..10 {
        FuzzHavoc {}
            .mutate(&mut rand, &mut input)
            .expect("fuzz havoc cannot fail");
        assert!(input.is_valid());
    }
    let names_after: Vec<String> = input.seq().iter().map(|c| c.name.clone()).collect();
    assert_eq!(names, names_after, "havoc on the fuzz bytes leaves the calls alone");
    assert_eq!(input.bytes().len(), fuzz_len);
}

#[test]
fn fuzz_buffer_independence() {
    let schema = codec_like_schema();

    for seed in 0..50 {
        let mut rand_a = Rand::with_seed(seed);
        let fuzz_a: Vec<u8> = vec![0; 64];
        let seq_a = ApiSeq::create(&mut rand_a, &schema, fuzz_a).expect("create failed");
        assert!(seq_a.is_valid());

        let mut rand_b = Rand::with_seed(seed);
        let fuzz_b: Vec<u8> = vec![255; 64];
        let seq_b = ApiSeq::create(&mut rand_b, &schema, fuzz_b).expect("create failed");
        assert!(seq_b.is_valid());

        assert_eq!(
            seq_a.seq().len(),
            seq_b.seq().len(),
            "the fuzz buffer must not affect the structure for seed {seed}"
        );

        for (ca, cb) in seq_a.seq().iter().zip(seq_b.seq().iter()) {
            assert_eq!(
                ca.name, cb.name,
                "the fuzz buffer must not affect call names for seed {seed}"
            );
        }
    }
}

#[test]
fn fuzz_buffer_empty() {
    let schema = codec_like_schema();
    let mut rand = Rand::with_seed(42);
    let seq = ApiSeq::create(&mut rand, &schema, vec![]).expect("create with empty fuzz failed");
    assert!(seq.is_valid());
}

#[test]
fn fuzz_buffer_large() {
    let schema = codec_like_schema();
    let mut rand = Rand::with_seed(42);
    let fuzz: Vec<u8> = (0..8192).map(|i| (i % 256) as u8).collect();
    let seq = ApiSeq::create(&mut rand, &schema, fuzz).expect("create with large fuzz failed");
    assert!(seq.is_valid());
}

#[test]
fn splice_on_long_sequence_reports_mutated_never_undo() {
    let schema = codec_like_schema();
    let mut rand = Rand::with_seed(77);
    for _ in 0..20 {
        let mut input = generate_seq(&mut rand, &schema);
        while input.seq_len() < 2 {
            let _ = ExtendSeq {}.mutate(&mut rand, &schema, &mut input);
        }
        let before_len = input.seq_len();
        let outcome = SpliceSeq {}
            .mutate(&mut rand, &schema, &mut input)
            .expect("splice failed on a ready schema");
        assert_eq!(outcome, MutationResult::Mutated, "a long sequence is always spliced");
        assert!(input.seq_len() + 1 >= before_len, "at most one call is removed net");
        assert!(input.is_valid());
    }
}

#[test]
fn complete_keeps_existing_call_order() {
    let schema = codec_like_schema();
    let mut rand = Rand::with_seed(5);
    for _ in 0..20 {
        let mut input = generate_seq(&mut rand, &schema);
        if input.seq_len() < 2 {
            continue;
        }
        let ids_before: Vec<u64> = input.seq.iter().map(|c| c.id).collect();
        input
            .complete(&mut rand, &schema)
            .expect("completion failed on a ready schema");
        // the surviving old ids appear in their old relative order
        let ids_after: Vec<u64> = input.seq.iter().map(|c| c.id).collect();
        let mut last_pos = 0;
        for id in ids_before.iter() {
            let pos = ids_after
                .iter()
                .position(|x| x == id)
                .expect("an old call vanished during completion");
            assert!(pos >= last_pos, "completion reordered the old calls");
            last_pos = pos;
        }
    }
}

#[test]
fn havoc_step_is_deterministic_and_keeps_validity() {
    let schema = codec_like_schema();
    let mut a = Rand::with_seed(321);
    let mut b = Rand::with_seed(321);
    let mut ia = generate_seq(&mut a, &schema);
    let mut ib = generate_seq(&mut b, &schema);
    for _ in 0..50 {
        let ra = HavocSeq {}.mutate(&mut a, &schema, &mut ia).expect("havoc step failed");
        let rb = HavocSeq {}.mutate(&mut b, &schema, &mut ib).expect("havoc step failed");
        assert_eq!(ra.0, rb.0, "the drawn operator is a function of the generator state");
        assert_eq!(ra.1, rb.1);
        assert!(ia.is_valid());
        assert!(ia.eq_seq(&ib), "two runs with one seed stay equal");
    }
}
