use railcar::rng::{Distribution, Rand, WEIGHT_ONE};
use railcar::schema::{
    sample_constant, CallConvention, ConstantValue, Schema, Signature, SignatureGuess,
    SignatureQuery, Type, TypeGuess, TypeKind,
};

fn kind_only(kind: TypeKind) -> TypeGuess {
    TypeGuess {
        is_any: false,
        kind: Distribution {
            entries: vec![(kind, WEIGHT_ONE)],
        },
        object_shape: None,
        array_value_type: None,
        class_type: None,
    }
}

fn number_guess() -> TypeGuess {
    kind_only(TypeKind::Number)
}

fn string_guess() -> TypeGuess {
    kind_only(TypeKind::String)
}

fn boolean_guess() -> TypeGuess {
    kind_only(TypeKind::Boolean)
}

fn make_schema(entries: Vec<(&str, SignatureGuess)>) -> Schema {
    Schema {
        entries: entries
            .into_iter()
            .map(|(name, guess)| (name.to_string(), guess))
            .collect(),
    }
}

#[test]
fn test_can_guess_simple_types() {
    let ng = number_guess();
    assert!(ng.can_guess(&Type::Number));
    assert!(!ng.can_guess(&Type::String));

    let sg = string_guess();
    assert!(sg.can_guess(&Type::String));
    assert!(!sg.can_guess(&Type::Number));

    let bg = boolean_guess();
    assert!(bg.can_guess(&Type::Boolean));
    assert!(!bg.can_guess(&Type::Number));

    let ug = kind_only(TypeKind::Undefined);
    assert!(ug.can_guess(&Type::Undefined));
    assert!(!ug.can_guess(&Type::Number));

    let nlg = kind_only(TypeKind::Null);
    assert!(nlg.can_guess(&Type::Null));
    assert!(!nlg.can_guess(&Type::String));

    let fg = kind_only(TypeKind::Function);
    assert!(fg.can_guess(&Type::Function));
    assert!(!fg.can_guess(&Type::Number));
}

#[test]
fn test_can_guess_any() {
    let guess = TypeGuess::any();
    assert!(guess.can_guess(&Type::Number));
    assert!(guess.can_guess(&Type::String));
    assert!(guess.can_guess(&Type::Boolean));
    assert!(guess.can_guess(&Type::Object(vec![])));
    assert!(guess.can_guess(&Type::Class("Foo".to_string())));
    assert!(guess.can_guess(&Type::Array(Box::new(Type::Number))));
    assert!(guess.can_guess(&Type::Undefined));
    assert!(guess.can_guess(&Type::Null));
    assert!(guess.can_guess(&Type::Function));
}

#[test]
fn test_can_guess_class() {
    let guess = TypeGuess {
        is_any: false,
        kind: Distribution {
            entries: vec![(TypeKind::Class, WEIGHT_ONE)],
        },
        object_shape: None,
        array_value_type: None,
        class_type: Some(Distribution {
            entries: vec![("MyClass".to_string(), WEIGHT_ONE)],
        }),
    };

    assert!(guess.can_guess(&Type::Class("MyClass".to_string())));
    assert!(!guess.can_guess(&Type::Class("OtherClass".to_string())));
}

#[test]
fn test_can_guess_object() {
    let guess = TypeGuess {
        is_any: false,
        kind: Distribution {
            entries: vec![(TypeKind::Object, WEIGHT_ONE)],
        },
        object_shape: Some(vec![
            ("x".to_string(), number_guess()),
            ("y".to_string(), string_guess()),
        ]),
        array_value_type: None,
        class_type: None,
    };

    let matching = Type::Object(vec![
        ("x".to_string(), Type::Number),
        ("y".to_string(), Type::String),
    ]);
    assert!(guess.can_guess(&matching));

    let wrong_field = Type::Object(vec![("x".to_string(), Type::String)]);
    assert!(!guess.can_guess(&wrong_field));

    let missing_field = Type::Object(vec![("z".to_string(), Type::Number)]);
    assert!(!guess.can_guess(&missing_field));
}

#[test]
fn test_can_guess_array() {
    let guess = TypeGuess {
        is_any: false,
        kind: Distribution {
            entries: vec![(TypeKind::Array, WEIGHT_ONE)],
        },
        object_shape: None,
        array_value_type: Some(Box::new(number_guess())),
        class_type: None,
    };

    assert!(guess.can_guess(&Type::Array(Box::new(Type::Number))));
    assert!(!guess.can_guess(&Type::Array(Box::new(Type::String))));
}

#[test]
fn test_overlaps_same_kind() {
    let a = number_guess();
    let b = TypeGuess {
        is_any: false,
        kind: Distribution {
            entries: vec![
                (TypeKind::Number, WEIGHT_ONE / 2),
                (TypeKind::String, WEIGHT_ONE / 2),
            ],
        },
        object_shape: None,
        array_value_type: None,
        class_type: None,
    };
    assert!(a.overlaps(&b));
}

#[test]
fn test_overlaps_disjoint() {
    let a = number_guess();
    let b = string_guess();
    assert!(!a.overlaps(&b));
}

#[test]
fn test_overlaps_any() {
    let a = TypeGuess::any();
    let b = number_guess();
    assert!(a.overlaps(&b));
    assert!(b.overlaps(&a));
}

#[test]
fn test_probability_of_matching() {
    let seven_tenths = WEIGHT_ONE / 10 * 7;
    let three_tenths = WEIGHT_ONE - seven_tenths;
    let guess = TypeGuess {
        is_any: false,
        kind: Distribution {
            entries: vec![
                (TypeKind::Number, seven_tenths),
                (TypeKind::String, three_tenths),
            ],
        },
        object_shape: None,
        array_value_type: None,
        class_type: None,
    };
    assert_eq!(guess.probability_of(&Type::Number), seven_tenths);
}

#[test]
fn test_probability_of_non_matching() {
    let guess = number_guess();
    assert_eq!(guess.probability_of(&Type::String), 0);
}

#[test]
fn test_probability_of_any() {
    let guess = TypeGuess::any();
    assert_eq!(guess.probability_of(&Type::Boolean), WEIGHT_ONE);
}

#[test]
fn test_sample_type_guess_number() {
    let guess = number_guess();
    let mut rand = Rand::with_seed(42);
    let result = guess.sample_type(&mut rand).unwrap();
    assert!(matches!(result, Type::Number));
}

#[test]
fn test_sample_type_guess_any() {
    let guess = TypeGuess::any();
    let mut rand = Rand::with_seed(42);
    let result = guess.sample_type(&mut rand);
    assert!(result.is_ok());
}

#[test]
fn test_can_receive_matching() {
    let sig = SignatureGuess {
        args: vec![number_guess(), string_guess()],
        ret: number_guess(),
        callconv: CallConvention::Free,
        builtin: None,
    };
    let ports = sig.can_receive(&vec![Type::Number]);
    assert_eq!(ports, Some(vec![0]));
}

#[test]
fn test_can_receive_no_match() {
    let sig = SignatureGuess {
        args: vec![number_guess()],
        ret: number_guess(),
        callconv: CallConvention::Free,
        builtin: None,
    };
    let ports = sig.can_receive(&vec![Type::String]);
    assert_eq!(ports, None);
}

#[test]
fn test_can_receive_multiple_args() {
    let sig = SignatureGuess {
        args: vec![number_guess(), string_guess(), boolean_guess()],
        ret: number_guess(),
        callconv: CallConvention::Free,
        builtin: None,
    };
    let ports = sig.can_receive(&vec![Type::String, Type::Boolean]);
    assert_eq!(ports, Some(vec![1, 2]));
}

#[test]
fn test_concretize_by_return_type() {
    let schema = make_schema(vec![
        (
            "foo",
            SignatureGuess {
                args: vec![],
                ret: number_guess(),
                callconv: CallConvention::Free,
                builtin: None,
            },
        ),
        (
            "bar",
            SignatureGuess {
                args: vec![],
                ret: string_guess(),
                callconv: CallConvention::Free,
                builtin: None,
            },
        ),
    ]);
    let mut rand = Rand::with_seed(42);
    let query = SignatureQuery {
        args: None,
        ret: Some(Type::String),
        callconv: None,
    };
    let result = schema.concretize(&mut rand, query);
    assert!(result.is_some());
    let (name, sig, _) = result.unwrap();
    assert_eq!(name, "bar");
    assert!(matches!(sig.ret, Type::String));
}

#[test]
fn test_concretize_by_callconv() {
    let schema = make_schema(vec![
        (
            "free_fn",
            SignatureGuess {
                args: vec![],
                ret: number_guess(),
                callconv: CallConvention::Free,
                builtin: None,
            },
        ),
        (
            "ctor",
            SignatureGuess {
                args: vec![],
                ret: number_guess(),
                callconv: CallConvention::Constructor,
                builtin: None,
            },
        ),
    ]);
    let mut rand = Rand::with_seed(42);
    let query = SignatureQuery {
        args: None,
        ret: None,
        callconv: Some(CallConvention::Constructor),
    };
    let result = schema.concretize(&mut rand, query);
    assert!(result.is_some());
    let (name, sig, _) = result.unwrap();
    assert_eq!(name, "ctor");
    assert_eq!(sig.callconv, CallConvention::Constructor);
}

#[test]
fn test_concretize_no_match() {
    let schema = make_schema(vec![(
        "foo",
        SignatureGuess {
            args: vec![],
            ret: number_guess(),
            callconv: CallConvention::Free,
            builtin: None,
        },
    )]);
    let mut rand = Rand::with_seed(42);
    let query = SignatureQuery {
        args: None,
        ret: Some(Type::Boolean),
        callconv: None,
    };
    let result = schema.concretize(&mut rand, query);
    assert!(result.is_none());
}

#[test]
fn test_type_sample_number() {
    let mut rand = Rand::with_seed(42);
    let result = sample_constant(&Type::Number, &mut rand).unwrap();
    assert!(matches!(result, ConstantValue::Number(_)));
}

#[test]
fn test_type_sample_string() {
    let mut rand = Rand::with_seed(42);
    let result = sample_constant(&Type::String, &mut rand).unwrap();
    assert!(matches!(result, ConstantValue::String(_)));
}

#[test]
fn test_type_sample_boolean() {
    let mut rand = Rand::with_seed(42);
    let result = sample_constant(&Type::Boolean, &mut rand).unwrap();
    assert!(matches!(result, ConstantValue::Boolean(_)));
}

#[test]
fn test_type_sample_object() {
    let mut rand = Rand::with_seed(42);
    let shape = Type::Object(vec![
        ("a".to_string(), Type::Number),
        ("b".to_string(), Type::String),
    ]);
    let result = sample_constant(&shape, &mut rand).unwrap();
    match result {
        ConstantValue::Object(props) => {
            assert_eq!(props.len(), 2);
            assert_eq!(props[0].0, "a");
            assert_eq!(props[1].0, "b");
            assert!(matches!(props[0].1, ConstantValue::Number(_)));
            assert!(matches!(props[1].1, ConstantValue::String(_)));
        }
        _ => panic!("expected an object constant"),
    }
}

#[test]
fn test_type_sample_class_fails() {
    let mut rand = Rand::with_seed(42);
    let result = sample_constant(&Type::Class("Foo".to_string()), &mut rand);
    assert!(result.is_err());
}

#[test]
fn test_type_sample_array() {
    let mut rand = Rand::with_seed(42);
    let result = sample_constant(&Type::Array(Box::new(Type::Number)), &mut rand).unwrap();
    assert!(matches!(result, ConstantValue::Array(_)));
}

#[test]
fn test_find_port() {
    let sig = Signature {
        args: vec![Type::Number, Type::String, Type::Boolean],
        ret: Type::Undefined,
        callconv: CallConvention::Free,
    };
    assert_eq!(sig.find_port(&Type::String), Some(1));
    assert_eq!(sig.find_port(&Type::Boolean), Some(2));
    assert_eq!(sig.find_port(&Type::Null), None);
}
