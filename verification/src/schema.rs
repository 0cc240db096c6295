//! Schema model: types, probabilistic type guesses, signatures, and
//! schema queries (concretization).

use vstd::prelude::*;

use crate::rng::Distribution;
use crate::rng::Rand;
use crate::rng::rand_wf;
use crate::rng::spec_keys_unique;
use crate::rng::spec_weight_sum;
use crate::rng::TrySample;
use crate::RailcarError;

verus! {

/// Name of a schema entry (function, method or class constructor).
pub type EndpointName = String;

/// How an endpoint is invoked.
#[derive(Clone, Copy, Debug, PartialEq, Eq, Structural)]
pub enum CallConvention {
    Free,
    Method,
    Constructor,
}

/// The nine type tags.
#[derive(Clone, Copy, Debug, PartialEq, Eq, Structural)]
pub enum TypeKind {
    Number,
    String,
    Boolean,
    Object,
    Class,
    Array,
    Undefined,
    Null,
    Function,
}

impl TypeKind {
    /// The kinds a sampled constant can take (`Function` is excluded, as in
    /// the schema-variation mutations).
    pub fn kinds() -> (r: Vec<TypeKind>)
        ensures
            r@ == seq![
                TypeKind::Number,
                TypeKind::String,
                TypeKind::Boolean,
                TypeKind::Object,
                TypeKind::Class,
                TypeKind::Array,
                TypeKind::Undefined,
                TypeKind::Null,
            ],
    {
        let mut v: Vec<TypeKind> = Vec::new();
        v.push(TypeKind::Number);
        v.push(TypeKind::String);
        v.push(TypeKind::Boolean);
        v.push(TypeKind::Object);
        v.push(TypeKind::Class);
        v.push(TypeKind::Array);
        v.push(TypeKind::Undefined);
        v.push(TypeKind::Null);
        proof {
            assert(v@ =~= seq![
                TypeKind::Number,
                TypeKind::String,
                TypeKind::Boolean,
                TypeKind::Object,
                TypeKind::Class,
                TypeKind::Array,
                TypeKind::Undefined,
                TypeKind::Null,
            ]);
        }
        v
    }
}

/// A concrete type: the shape a constant or an API value can take.
/// `Class` names an endpoint whose call convention is `Constructor`.
#[derive(Debug)]
pub enum Type {
    Number,
    String,
    Boolean,
    Object(Vec<(String, Type)>),
    Class(EndpointName),
    Array(Box<Type>),
    Undefined,
    Null,
    Function,
}

/// The tag of a concrete type.
pub open spec fn spec_kind_of(t: Type) -> TypeKind {
    match t {
        Type::Number => TypeKind::Number,
        Type::String => TypeKind::String,
        Type::Boolean => TypeKind::Boolean,
        Type::Object(_) => TypeKind::Object,
        Type::Class(_) => TypeKind::Class,
        Type::Array(_) => TypeKind::Array,
        Type::Undefined => TypeKind::Undefined,
        Type::Null => TypeKind::Null,
        Type::Function => TypeKind::Function,
    }
}

impl Type {
    /// The tag of this type.
    pub fn kind_of(&self) -> (r: TypeKind)
        ensures
            r == spec_kind_of(*self),
    {
        match self {
            Type::Number => TypeKind::Number,
            Type::String => TypeKind::String,
            Type::Boolean => TypeKind::Boolean,
            Type::Object(_) => TypeKind::Object,
            Type::Class(_) => TypeKind::Class,
            Type::Array(_) => TypeKind::Array,
            Type::Undefined => TypeKind::Undefined,
            Type::Null => TypeKind::Null,
            Type::Function => TypeKind::Function,
        }
    }
}

/// String equality by contents.
pub fn str_eq(a: &String, b: &String) -> (r: bool)
    ensures
        r == (a@ == b@),
{
    *a == *b
}

/// Equality of two types at the level of their contents: names compare by
/// their character sequences, object shapes entry by entry.
pub open spec fn type_eq_spec(a: Type, b: Type) -> bool
    decreases a,
{
    match (a, b) {
        (Type::Number, Type::Number) => true,
        (Type::String, Type::String) => true,
        (Type::Boolean, Type::Boolean) => true,
        (Type::Undefined, Type::Undefined) => true,
        (Type::Null, Type::Null) => true,
        (Type::Function, Type::Function) => true,
        (Type::Class(x), Type::Class(y)) => x@ == y@,
        (Type::Array(x), Type::Array(y)) => type_eq_spec(*x, *y),
        (Type::Object(x), Type::Object(y)) => {
            &&& x@.len() == y@.len()
            &&& forall|i: int|
                0 <= i < x@.len() ==> (#[trigger] x@[i]).0@ == y@[i].0@ && type_eq_spec(
                    x@[i].1,
                    y@[i].1,
                )
        },
        _ => false,
    }
}

/// Type-content equality is reflexive.
pub proof fn lemma_type_eq_refl(a: Type)
    ensures
        type_eq_spec(a, a),
    decreases a,
{
    match a {
        Type::Array(x) => {
            lemma_type_eq_refl(*x);
        },
        Type::Object(x) => {
            assert forall|i: int| 0 <= i < x@.len() implies (#[trigger] x@[i]).0@ == x@[i].0@
                && type_eq_spec(x@[i].1, x@[i].1) by {
                lemma_type_eq_refl(x@[i].1);
            }
        },
        _ => {},
    }
}

/// Deep structural equality of two types.
pub fn type_eq(a: &Type, b: &Type) -> (r: bool)
    ensures
        r == type_eq_spec(*a, *b),
    decreases *a,
{
    match (a, b) {
        (Type::Number, Type::Number) => true,
        (Type::String, Type::String) => true,
        (Type::Boolean, Type::Boolean) => true,
        (Type::Undefined, Type::Undefined) => true,
        (Type::Null, Type::Null) => true,
        (Type::Function, Type::Function) => true,
        (Type::Class(x), Type::Class(y)) => str_eq(x, y),
        (Type::Array(x), Type::Array(y)) => type_eq(x, y),
        (Type::Object(x), Type::Object(y)) => {
            if x.len() != y.len() {
                return false;
            }
            let n = x.len();
            let mut i: usize = 0;
            while i < n
                invariant
                    n == x@.len(),
                    n == y@.len(),
                    i <= n,
                    a == Type::Object(*x),
                    b == Type::Object(*y),
                    forall|j: int|
                        0 <= j < i ==> (#[trigger] x@[j]).0@ == y@[j].0@ && type_eq_spec(
                            x@[j].1,
                            y@[j].1,
                        ),
                decreases n - i,
            {
                let pa = &x[i];
                let pb = &y[i];
                if !str_eq(&pa.0, &pb.0) {
                    return false;
                }
                proof {
                    assert(decreases_to!(*a => a->Object_0));
                    assert(decreases_to!(a->Object_0 => a->Object_0@));
                    assert(decreases_to!(a->Object_0@ => a->Object_0@[i as int]));
                    assert(decreases_to!(a->Object_0@[i as int] => a->Object_0@[i as int].1));
                }
                if !type_eq(&pa.1, &pb.1) {
                    return false;
                }
                i = i + 1;
            }
            true
        },
        _ => false,
    }
}

/// Deep copy of a type; the copy has the same contents.
pub fn clone_type(t: &Type) -> (r: Type)
    ensures
        type_eq_spec(r, *t),
        type_eq_spec(*t, r),
    decreases *t,
{
    match t {
        Type::Number => Type::Number,
        Type::String => Type::String,
        Type::Boolean => Type::Boolean,
        Type::Undefined => Type::Undefined,
        Type::Null => Type::Null,
        Type::Function => Type::Function,
        Type::Class(name) => Type::Class(name.clone()),
        Type::Array(inner) => Type::Array(Box::new(clone_type(inner))),
        Type::Object(entries) => {
            let n = entries.len();
            let mut out: Vec<(String, Type)> = Vec::new();
            let mut i: usize = 0;
            while i < n
                invariant
                    n == entries@.len(),
                    i <= n,
                    out@.len() == i,
                    t == Type::Object(*entries),
                    forall|j: int|
                        0 <= j < i ==> (#[trigger] out@[j]).0@ == entries@[j].0@ && type_eq_spec(
                            out@[j].1,
                            entries@[j].1,
                        ) && type_eq_spec(entries@[j].1, out@[j].1),
                decreases n - i,
            {
                let (k, v) = &entries[i];
                proof {
                    assert(decreases_to!(*t => t->Object_0));
                    assert(decreases_to!(t->Object_0 => t->Object_0@));
                    assert(decreases_to!(t->Object_0@ => t->Object_0@[i as int]));
                    assert(decreases_to!(t->Object_0@[i as int] => t->Object_0@[i as int].1));
                }
                let cv = clone_type(v);
                out.push((k.clone(), cv));
                i = i + 1;
            }
            Type::Object(out)
        },
    }
}

impl Clone for Type {
    fn clone(&self) -> (r: Type)
        ensures
            type_eq_spec(r, *self),
            type_eq_spec(*self, r),
    {
        clone_type(self)
    }
}

impl PartialEq for Type {
    fn eq(&self, other: &Type) -> (r: bool) {
        type_eq(self, other)
    }
}

impl vstd::std_specs::cmp::PartialEqSpecImpl for Type {
    open spec fn obeys_eq_spec() -> bool {
        true
    }

    open spec fn eq_spec(&self, other: &Type) -> bool {
        type_eq_spec(*self, *other)
    }
}

/// A constant value, parallel to `Type`. `Class` has no constant form:
/// class instances only arise from constructor calls.
#[derive(Debug)]
pub enum ConstantValue {
    Number(u64),
    String(String),
    Boolean(bool),
    Object(Vec<(String, ConstantValue)>),
    Array(Vec<ConstantValue>),
    Undefined,
    Null,
    Function,
}

/// Equality of two constant values at the level of their contents.
pub open spec fn const_eq_spec(a: ConstantValue, b: ConstantValue) -> bool
    decreases a,
{
    match (a, b) {
        (ConstantValue::Number(x), ConstantValue::Number(y)) => x == y,
        (ConstantValue::String(x), ConstantValue::String(y)) => x@ == y@,
        (ConstantValue::Boolean(x), ConstantValue::Boolean(y)) => x == y,
        (ConstantValue::Undefined, ConstantValue::Undefined) => true,
        (ConstantValue::Null, ConstantValue::Null) => true,
        (ConstantValue::Function, ConstantValue::Function) => true,
        (ConstantValue::Object(x), ConstantValue::Object(y)) => {
            &&& x@.len() == y@.len()
            &&& forall|i: int|
                0 <= i < x@.len() ==> (#[trigger] x@[i]).0@ == y@[i].0@ && const_eq_spec(
                    x@[i].1,
                    y@[i].1,
                )
        },
        (ConstantValue::Array(x), ConstantValue::Array(y)) => {
            &&& x@.len() == y@.len()
            &&& forall|i: int| 0 <= i < x@.len() ==> const_eq_spec(#[trigger] x@[i], y@[i])
        },
        _ => false,
    }
}

/// Deep copy of a constant value; the copy has the same contents.
pub fn clone_constant(v: &ConstantValue) -> (r: ConstantValue)
    ensures
        const_eq_spec(r, *v),
        const_eq_spec(*v, r),
    decreases *v,
{
    match v {
        ConstantValue::Number(n) => ConstantValue::Number(*n),
        ConstantValue::String(s) => ConstantValue::String(s.clone()),
        ConstantValue::Boolean(b) => ConstantValue::Boolean(*b),
        ConstantValue::Undefined => ConstantValue::Undefined,
        ConstantValue::Null => ConstantValue::Null,
        ConstantValue::Function => ConstantValue::Function,
        ConstantValue::Object(entries) => {
            let n = entries.len();
            let mut out: Vec<(String, ConstantValue)> = Vec::new();
            let mut i: usize = 0;
            while i < n
                invariant
                    n == entries@.len(),
                    i <= n,
                    out@.len() == i,
                    v == ConstantValue::Object(*entries),
                    forall|j: int|
                        0 <= j < i ==> (#[trigger] out@[j]).0@ == entries@[j].0@ && const_eq_spec(
                            out@[j].1,
                            entries@[j].1,
                        ) && const_eq_spec(entries@[j].1, out@[j].1),
                decreases n - i,
            {
                let (k, e) = &entries[i];
                proof {
                    assert(decreases_to!(*v => v->Object_0));
                    assert(decreases_to!(v->Object_0 => v->Object_0@));
                    assert(decreases_to!(v->Object_0@ => v->Object_0@[i as int]));
                    assert(decreases_to!(v->Object_0@[i as int] => v->Object_0@[i as int].1));
                }
                let ce = clone_constant(e);
                out.push((k.clone(), ce));
                i = i + 1;
            }
            ConstantValue::Object(out)
        },
        ConstantValue::Array(items) => {
            let n = items.len();
            let mut out: Vec<ConstantValue> = Vec::new();
            let mut i: usize = 0;
            while i < n
                invariant
                    n == items@.len(),
                    i <= n,
                    out@.len() == i,
                    v == ConstantValue::Array(*items),
                    forall|j: int|
                        0 <= j < i ==> const_eq_spec(#[trigger] out@[j], items@[j])
                            && const_eq_spec(items@[j], out@[j]),
                decreases n - i,
            {
                proof {
                    assert(decreases_to!(*v => v->Array_0));
                    assert(decreases_to!(v->Array_0 => v->Array_0@));
                    assert(decreases_to!(v->Array_0@ => v->Array_0@[i as int]));
                }
                let ce = clone_constant(&items[i]);
                out.push(ce);
                i = i + 1;
            }
            ConstantValue::Array(out)
        },
    }
}

impl Clone for ConstantValue {
    fn clone(&self) -> (r: ConstantValue)
        ensures
            const_eq_spec(r, *self),
            const_eq_spec(*self, r),
    {
        clone_constant(self)
    }
}

/// First weight stored for `key`, if any.
pub open spec fn spec_kind_get(entries: Seq<(TypeKind, u64)>, key: TypeKind) -> Option<u64>
    decreases entries.len(),
{
    if entries.len() == 0 {
        Option::None
    } else if entries[0].0 == key {
        Option::Some(entries[0].1)
    } else {
        spec_kind_get(entries.drop_first(), key)
    }
}

/// Whether a kind distribution mentions `key`.
pub open spec fn spec_kind_has(entries: Seq<(TypeKind, u64)>, key: TypeKind) -> bool {
    exists|i: int| 0 <= i < entries.len() && (#[trigger] entries[i]).0 == key
}

/// Whether a name-keyed distribution mentions a name with these characters.
pub open spec fn spec_name_has(entries: Seq<(String, u64)>, name: Seq<char>) -> bool {
    exists|i: int| 0 <= i < entries.len() && (#[trigger] entries[i]).0@ == name
}

/// No two entries share a name, comparing names by their characters.
pub open spec fn spec_name_keys_unique<X>(entries: Seq<(String, X)>) -> bool {
    forall|i: int, j: int|
        0 <= i < j < entries.len() ==> (#[trigger] entries[i]).0@ != (#[trigger] entries[j]).0@
}

/// Look up the weight stored for `key`.
pub fn kind_weight(d: &Distribution<TypeKind>, key: TypeKind) -> (r: Option<u64>)
    ensures
        r == spec_kind_get(d.entries@, key),
{
    let n = d.entries.len();
    proof {
        assert(d.entries@.skip(0) =~= d.entries@);
    }
    let mut i: usize = 0;
    while i < n
        invariant
            n == d.entries@.len(),
            i <= n,
            spec_kind_get(d.entries@, key) == spec_kind_get(d.entries@.skip(i as int), key),
        decreases n - i,
    {
        let e = &d.entries[i];
        proof {
            assert(d.entries@.skip(i as int)[0] == d.entries@[i as int]);
            assert(d.entries@.skip(i as int).drop_first() =~= d.entries@.skip(i as int + 1));
        }
        if e.0 == key {
            return Some(e.1);
        }
        i = i + 1;
    }
    proof {
        assert(d.entries@.skip(n as int) =~= Seq::<(TypeKind, u64)>::empty());
    }
    None
}

/// Whether the kind distribution mentions `key`.
pub fn kind_contains(d: &Distribution<TypeKind>, key: TypeKind) -> (r: bool)
    ensures
        r == spec_kind_has(d.entries@, key),
{
    let n = d.entries.len();
    let mut i: usize = 0;
    while i < n
        invariant
            n == d.entries@.len(),
            i <= n,
            forall|j: int| 0 <= j < i ==> (#[trigger] d.entries@[j]).0 != key,
        decreases n - i,
    {
        if d.entries[i].0 == key {
            return true;
        }
        i = i + 1;
    }
    false
}

/// Whether the name distribution mentions `name`.
pub fn name_dist_contains(d: &Distribution<EndpointName>, name: &String) -> (r: bool)
    ensures
        r == spec_name_has(d.entries@, name@),
{
    let n = d.entries.len();
    let mut i: usize = 0;
    while i < n
        invariant
            n == d.entries@.len(),
            i <= n,
            forall|j: int| 0 <= j < i ==> (#[trigger] d.entries@[j]).0@ != name@,
        decreases n - i,
    {
        if str_eq(&d.entries[i].0, name) {
            return true;
        }
        i = i + 1;
    }
    false
}

/// Index of the shape entry whose name has these characters, if any.
pub fn find_prop(shape: &Vec<(String, TypeGuess)>, name: &String) -> (r: Option<usize>)
    ensures
        match r {
            Option::Some(j) => j < shape@.len() && shape@[j as int].0@ == name@,
            Option::None => forall|q: int|
                0 <= q < shape@.len() ==> (#[trigger] shape@[q]).0@ != name@,
        },
{
    let m = shape.len();
    let mut j: usize = 0;
    while j < m
        invariant
            m == shape@.len(),
            j <= m,
            forall|q: int| 0 <= q < j ==> (#[trigger] shape@[q]).0@ != name@,
        decreases m - j,
    {
        if str_eq(&shape[j].0, name) {
            return Some(j);
        }
        j = j + 1;
    }
    None
}

/// A probabilistic type descriptor: a distribution over type tags, plus the
/// structure needed for tags that carry one (object shape, array element,
/// class names). `is_any` admits every type outright.
#[derive(Debug)]
pub struct TypeGuess {
    pub is_any: bool,
    pub kind: Distribution<TypeKind>,
    pub object_shape: Option<Vec<(String, TypeGuess)>>,
    pub array_value_type: Option<Box<TypeGuess>>,
    pub class_type: Option<Distribution<EndpointName>>,
}

/// Structural soundness of a guess: whenever the kind distribution mentions a
/// structured tag, the matching descriptor is present, and nested guesses are
/// sound too. Shape and class names are duplicate-free.
pub open spec fn guess_wf(g: TypeGuess) -> bool
    decreases g,
{
    &&& spec_keys_unique(g.kind.entries@)
    &&& (spec_kind_has(g.kind.entries@, TypeKind::Object) ==> g.object_shape is Some)
    &&& (spec_kind_has(g.kind.entries@, TypeKind::Array) ==> g.array_value_type is Some)
    &&& (spec_kind_has(g.kind.entries@, TypeKind::Class) ==> g.class_type is Some)
    &&& (match g.object_shape {
        Option::Some(shape) => {
            &&& spec_name_keys_unique(shape@)
            &&& forall|i: int| 0 <= i < shape@.len() ==> guess_wf((#[trigger] shape@[i]).1)
        },
        Option::None => true,
    })
    &&& (match g.array_value_type {
        Option::Some(inner) => guess_wf(*inner),
        Option::None => true,
    })
    &&& (match g.class_type {
        Option::Some(d) => spec_name_keys_unique(d.entries@),
        Option::None => true,
    })
}

/// Whether some shape entry has this name and admits this type.
pub open spec fn spec_prop_matches(shape: Seq<(String, TypeGuess)>, key: Seq<char>, pt: Type) -> bool
    decreases pt, 1int,
{
    exists|j: int|
        0 <= j < shape.len() && (#[trigger] shape[j]).0@ == key && spec_can_guess(shape[j].1, pt)
}

/// Whether a guess admits a concrete type: anything if `is_any`; otherwise
/// the type's tag must be mentioned, class names must be known, object
/// entries must each match a shape entry by name, and array elements must be
/// admitted recursively.
pub open spec fn spec_can_guess(g: TypeGuess, t: Type) -> bool
    decreases t, 0int,
{
    if g.is_any {
        true
    } else if !spec_kind_has(g.kind.entries@, spec_kind_of(t)) {
        false
    } else {
        match t {
            Type::Class(cls) => match g.class_type {
                Option::Some(d) => spec_name_has(d.entries@, cls@),
                Option::None => false,
            },
            Type::Object(obj) => match g.object_shape {
                Option::Some(shape) => forall|i: int|
                    0 <= i < obj@.len() ==> spec_prop_matches(
                        shape@,
                        (#[trigger] obj@[i]).0@,
                        obj@[i].1,
                    ),
                Option::None => false,
            },
            Type::Array(inner) => match g.array_value_type {
                Option::Some(guess) => spec_can_guess(*guess, *inner),
                Option::None => false,
            },
            _ => true,
        }
    }
}

impl TypeGuess {
    /// The guess that admits everything.
    pub fn any() -> (r: TypeGuess)
        ensures
            r.is_any,
            guess_wf(r),
            spec_guess_ready(r),
            forall|t: Type| spec_can_guess(r, t),
    {
        TypeGuess {
            is_any: true,
            kind: Distribution::new(),
            object_shape: None,
            array_value_type: None,
            class_type: None,
        }
    }

    /// Whether this guess admits the concrete type `t`.
    pub fn can_guess(&self, t: &Type) -> (r: bool)
        requires
            guess_wf(*self),
        ensures
            r == spec_can_guess(*self, *t),
        decreases *t,
    {
        if self.is_any {
            return true;
        }
        let kind = t.kind_of();
        if !kind_contains(&self.kind, kind) {
            return false;
        }
        match t {
            Type::Class(cls) => match &self.class_type {
                Some(d) => name_dist_contains(d, cls),
                None => false,
            },
            Type::Object(obj) => match &self.object_shape {
                Some(shape) => {
                    let n = obj.len();
                    let mut i: usize = 0;
                    while i < n
                        invariant
                            n == obj@.len(),
                            t == Type::Object(*obj),
                            self.object_shape == Option::Some(*shape),
                            guess_wf(*self),
                            !self.is_any,
                            spec_kind_has(self.kind.entries@, spec_kind_of(*t)),
                            i <= n,
                            forall|k: int|
                                0 <= k < i ==> spec_prop_matches(
                                    shape@,
                                    (#[trigger] obj@[k]).0@,
                                    obj@[k].1,
                                ),
                        decreases n - i,
                    {
                        let entry = &obj[i];
                        match find_prop(shape, &entry.0) {
                            None => {
                                proof {
                                    assert(!spec_prop_matches(
                                        shape@,
                                        obj@[i as int].0@,
                                        obj@[i as int].1,
                                    ));
                                    assert(*t is Object);
                                    assert(t->Object_0 == *obj);
                                    assert(!spec_can_guess(*self, *t));
                                }
                                return false;
                            },
                            Some(jj) => {
                                proof {
                                    assert(decreases_to!(*t => t->Object_0));
                                    assert(decreases_to!(t->Object_0 => t->Object_0@));
                                    assert(decreases_to!(t->Object_0@ => t->Object_0@[i as int]));
                                    assert(decreases_to!(t->Object_0@[i as int] => t->Object_0@[i as int].1));
                                }
                                let se = &shape[jj];
                                if se.1.can_guess(&entry.1) {
                                    proof {
                                        assert(0 <= jj < shape@.len() && shape@[jj as int].0@
                                            == obj@[i as int].0@ && spec_can_guess(
                                            shape@[jj as int].1,
                                            obj@[i as int].1,
                                        ));
                                        assert(spec_prop_matches(
                                            shape@,
                                            obj@[i as int].0@,
                                            obj@[i as int].1,
                                        ));
                                    }
                                } else {
                                    proof {
                                        assert forall|q: int|
                                            0 <= q < shape@.len() && (#[trigger] shape@[q]).0@
                                                == obj@[i as int].0@ implies !spec_can_guess(
                                            shape@[q].1,
                                            obj@[i as int].1,
                                        ) by {
                                            if q != jj {
                                                assert(shape@[q].0@ != shape@[jj as int].0@);
                                            }
                                        }
                                        assert(!spec_prop_matches(
                                            shape@,
                                            obj@[i as int].0@,
                                            obj@[i as int].1,
                                        ));
                                        assert(*t is Object);
                                        assert(t->Object_0 == *obj);
                                        assert(!spec_can_guess(*self, *t));
                                    }
                                    return false;
                                }
                            },
                        }
                        i = i + 1;
                    }
                    proof {
                        assert(*t is Object);
                        assert(forall|k: int|
                            0 <= k < obj@.len() ==> spec_prop_matches(
                                shape@,
                                (#[trigger] obj@[k]).0@,
                                obj@[k].1,
                            ));
                        assert(spec_can_guess(*self, *t));
                    }
                    true
                },
                None => false,
            },
            Type::Array(inner) => match &self.array_value_type {
                Some(guess) => {
                    proof {
                        assert(decreases_to!(*t => t->Array_0));
                    }
                    guess.can_guess(inner)
                },
                None => false,
            },
            _ => true,
        }
    }
}

/// Whether two guesses can describe a common type: either admits everything,
/// or some tag is mentioned by both.
pub open spec fn spec_overlaps(a: TypeGuess, b: TypeGuess) -> bool {
    ||| a.is_any
    ||| b.is_any
    ||| exists|i: int|
        0 <= i < a.kind.entries@.len() && spec_kind_has(
            b.kind.entries@,
            (#[trigger] a.kind.entries@[i]).0,
        )
}

impl TypeGuess {
    /// Whether this guess and `other` can describe a common type.
    pub fn overlaps(&self, other: &TypeGuess) -> (r: bool)
        ensures
            r == spec_overlaps(*self, *other),
    {
        if self.is_any || other.is_any {
            return true;
        }
        let n = self.kind.entries.len();
        let mut i: usize = 0;
        while i < n
            invariant
                n == self.kind.entries@.len(),
                i <= n,
                forall|k: int|
                    0 <= k < i ==> !spec_kind_has(
                        other.kind.entries@,
                        (#[trigger] self.kind.entries@[k]).0,
                    ),
        decreases n - i,
        {
            if kind_contains(&other.kind, self.kind.entries[i].0) {
                return true;
            }
            i = i + 1;
        }
        false
    }

    /// The probability this guess assigns to a concrete type: everything has
    /// probability one under `is_any`, an inadmissible type has zero, and
    /// otherwise the tag's stored weight answers.
    pub fn probability_of(&self, t: &Type) -> (r: u64)
        requires
            guess_wf(*self),
        ensures
            self.is_any ==> r == crate::rng::WEIGHT_ONE,
            !self.is_any && !spec_can_guess(*self, *t) ==> r == 0,
            !self.is_any && spec_can_guess(*self, *t) ==> Option::Some(r) == spec_kind_get(
                self.kind.entries@,
                spec_kind_of(*t),
            ),
    {
        if self.is_any {
            return crate::rng::WEIGHT_ONE;
        }
        if !self.can_guess(t) {
            return 0;
        }
        match kind_weight(&self.kind, t.kind_of()) {
            Some(w) => w,
            None => {
                proof {
                    lemma_kind_has_get(self.kind.entries@, spec_kind_of(*t));
                }
                0
            },
        }
    }
}


/// A distribution from which sampling is sure to succeed: a single entry, or
/// weights that reach a full unit.
pub open spec fn spec_dist_ready<K>(entries: Seq<(K, u64)>) -> bool {
    entries.len() == 1 || (entries.len() > 1 && spec_weight_sum(entries)
        >= crate::rng::WEIGHT_ONE as int)
}

/// Whether sampling from this guess is sure to succeed: every distribution in
/// it is ready, recursively.
pub open spec fn spec_guess_ready(g: TypeGuess) -> bool
    decreases g,
{
    &&& (!g.is_any ==> spec_dist_ready(g.kind.entries@))
    &&& (match g.class_type {
        Option::Some(d) => !g.is_any ==> spec_dist_ready(d.entries@),
        Option::None => true,
    })
    &&& (match g.object_shape {
        Option::Some(shape) => forall|i: int|
            0 <= i < shape@.len() ==> spec_guess_ready((#[trigger] shape@[i]).1),
        Option::None => true,
    })
    &&& (match g.array_value_type {
        Option::Some(inner) => spec_guess_ready(*inner),
        Option::None => true,
    })
}

/// Equality of two guesses at the level of their contents.
pub open spec fn guess_eq_spec(a: TypeGuess, b: TypeGuess) -> bool
    decreases a,
{
    &&& a.is_any == b.is_any
    &&& a.kind.entries@ == b.kind.entries@
    &&& (match (a.object_shape, b.object_shape) {
        (Option::Some(x), Option::Some(y)) => {
            &&& x@.len() == y@.len()
            &&& forall|i: int|
                0 <= i < x@.len() ==> (#[trigger] x@[i]).0@ == y@[i].0@ && guess_eq_spec(
                    x@[i].1,
                    y@[i].1,
                )
        },
        (Option::None, Option::None) => true,
        _ => false,
    })
    &&& (match (a.array_value_type, b.array_value_type) {
        (Option::Some(x), Option::Some(y)) => guess_eq_spec(*x, *y),
        (Option::None, Option::None) => true,
        _ => false,
    })
    &&& (match (a.class_type, b.class_type) {
        (Option::Some(x), Option::Some(y)) => {
            &&& x.entries@.len() == y.entries@.len()
            &&& forall|i: int|
                0 <= i < x.entries@.len() ==> (#[trigger] x.entries@[i]).0@ == y.entries@[i].0@
                    && x.entries@[i].1 == y.entries@[i].1
        },
        (Option::None, Option::None) => true,
        _ => false,
    })
}

/// Deep copy of a kind-keyed distribution.
pub fn clone_kind_dist(d: &Distribution<TypeKind>) -> (r: Distribution<TypeKind>)
    ensures
        r.entries@ == d.entries@,
{
    let n = d.entries.len();
    let mut out: Vec<(TypeKind, u64)> = Vec::new();
    let mut i: usize = 0;
    while i < n
        invariant
            n == d.entries@.len(),
            i <= n,
            out@.len() == i,
            forall|j: int| 0 <= j < i ==> out@[j] == d.entries@[j],
        decreases n - i,
    {
        let e = d.entries[i];
        out.push(e);
        i = i + 1;
    }
    proof {
        assert(out@ =~= d.entries@);
    }
    Distribution { entries: out }
}

/// Deep copy of a name-keyed distribution.
pub fn clone_name_dist(d: &Distribution<EndpointName>) -> (r: Distribution<EndpointName>)
    ensures
        r.entries@ == d.entries@,
{
    let n = d.entries.len();
    let mut out: Vec<(EndpointName, u64)> = Vec::new();
    let mut i: usize = 0;
    while i < n
        invariant
            n == d.entries@.len(),
            i <= n,
            out@.len() == i,
            forall|j: int| 0 <= j < i ==> out@[j] == d.entries@[j],
        decreases n - i,
    {
        let e = &d.entries[i];
        out.push((e.0.clone(), e.1));
        i = i + 1;
    }
    proof {
        assert(out@ =~= d.entries@);
    }
    Distribution { entries: out }
}

/// Deep copy of a guess; the copy has the same contents, and stays sound and
/// ready to sample when the original was.
pub fn clone_guess(g: &TypeGuess) -> (r: TypeGuess)
    ensures
        guess_eq_spec(r, *g),
        guess_wf(*g) ==> guess_wf(r),
        spec_guess_ready(*g) ==> spec_guess_ready(r),
    decreases *g,
{
    let kind = clone_kind_dist(&g.kind);
    let object_shape: Option<Vec<(String, TypeGuess)>> = match &g.object_shape {
        None => None,
        Some(shape) => {
            let m = shape.len();
            let mut out: Vec<(String, TypeGuess)> = Vec::new();
            let mut i: usize = 0;
            while i < m
                invariant
                    m == shape@.len(),
                    g.object_shape == Option::Some(*shape),
                    i <= m,
                    out@.len() == i,
                    forall|j: int|
                        0 <= j < i ==> (#[trigger] out@[j]).0@ == shape@[j].0@ && guess_eq_spec(
                            out@[j].1,
                            shape@[j].1,
                        ) && (guess_wf(shape@[j].1) ==> guess_wf(out@[j].1)) && (spec_guess_ready(
                            shape@[j].1,
                        ) ==> spec_guess_ready(out@[j].1)),
                decreases m - i,
            {
                let e = &shape[i];
                proof {
                    assert(decreases_to!(*g => g.object_shape));
                    assert(decreases_to!(g.object_shape => g.object_shape->0));
                    assert(decreases_to!(g.object_shape->0 => g.object_shape->0@));
                    assert(decreases_to!(g.object_shape->0@ => g.object_shape->0@[i as int]));
                    assert(decreases_to!(g.object_shape->0@[i as int] => g.object_shape->0@[i as int].1));
                }
                let cg = clone_guess(&e.1);
                out.push((e.0.clone(), cg));
                i = i + 1;
            }
            Some(out)
        },
    };
    let array_value_type: Option<Box<TypeGuess>> = match &g.array_value_type {
        None => None,
        Some(inner) => {
            proof {
                assert(decreases_to!(*g => g.array_value_type));
                assert(decreases_to!(g.array_value_type => g.array_value_type->0));
            }
            Some(Box::new(clone_guess(inner)))
        },
    };
    let class_type: Option<Distribution<EndpointName>> = match &g.class_type {
        None => None,
        Some(d) => Some(clone_name_dist(d)),
    };
    TypeGuess { is_any: g.is_any, kind, object_shape, array_value_type, class_type }
}

impl Clone for TypeGuess {
    fn clone(&self) -> (r: TypeGuess)
        ensures
            guess_eq_spec(r, *self),
            guess_wf(*self) ==> guess_wf(r),
            spec_guess_ready(*self) ==> spec_guess_ready(r),
    {
        clone_guess(self)
    }
}


/// A mentioned key is found by the first-match lookup.
pub proof fn lemma_kind_has_get(entries: Seq<(TypeKind, u64)>, key: TypeKind)
    requires
        spec_kind_has(entries, key),
    ensures
        spec_kind_get(entries, key) is Some,
    decreases entries.len(),
{
    if entries.len() > 0 && entries[0].0 != key {
        let i = choose|i: int| 0 <= i < entries.len() && (#[trigger] entries[i]).0 == key;
        assert(entries.drop_first()[i - 1].0 == key);
        lemma_kind_has_get(entries.drop_first(), key);
    }
}

/// An entry's key is mentioned by the distribution.
pub proof fn lemma_kind_entry_has(entries: Seq<(TypeKind, u64)>, i: int)
    requires
        0 <= i < entries.len(),
    ensures
        spec_kind_has(entries, entries[i].0),
{
}

/// Sample a concrete type admitted by no guess in particular: one of the
/// eight constant-capable tags, with empty structure.
pub fn any_type(rand: &mut Rand) -> (r: Type)
    requires
        rand_wf(*old(rand)),
    ensures
        rand_wf(*final(rand)),
{
    let choice = rand.between(0, 7);
    if choice == 0 {
        Type::Number
    } else if choice == 1 {
        Type::String
    } else if choice == 2 {
        Type::Boolean
    } else if choice == 3 {
        Type::Object(Vec::new())
    } else if choice == 4 {
        Type::Class("Uint8Array".to_owned())
    } else if choice == 5 {
        Type::Array(Box::new(Type::Number))
    } else if choice == 6 {
        Type::Undefined
    } else {
        Type::Null
    }
}

impl TypeGuess {
    /// Sample a concrete type that this guess admits. Fails only on a
    /// distribution that is empty or sums short of one full unit.
    pub fn sample_type(&self, rand: &mut Rand) -> (r: Result<Type, RailcarError>)
        requires
            rand_wf(*old(rand)),
        ensures
            rand_wf(*final(rand)),
            guess_wf(*self) && r is Ok ==> spec_can_guess(*self, r->Ok_0),
            guess_wf(*self) && spec_guess_ready(*self) ==> r is Ok,
        decreases *self,
    {
        if self.is_any {
            return Ok(any_type(rand));
        }
        let idx = match self.kind.sample_index(rand) {
            Ok(i) => i,
            Err(e) => {
                return Err(e);
            },
        };
        let kind = self.kind.entries[idx].0;
        proof {
            lemma_kind_entry_has(self.kind.entries@, idx as int);
        }
        match kind {
            TypeKind::Undefined => Ok(Type::Undefined),
            TypeKind::Number => Ok(Type::Number),
            TypeKind::String => Ok(Type::String),
            TypeKind::Boolean => Ok(Type::Boolean),
            TypeKind::Null => Ok(Type::Null),
            TypeKind::Function => Ok(Type::Function),
            TypeKind::Object => {
                match &self.object_shape {
                    Some(shape) => {
                        let m = shape.len();
                        let mut props: Vec<(String, Type)> = Vec::new();
                        let mut i: usize = 0;
                        while i < m
                            invariant
                                rand_wf(*rand),
                                m == shape@.len(),
                                self.object_shape == Option::Some(*shape),
                                guess_wf(*self) ==> forall|j: int|
                                    0 <= j < m ==> guess_wf((#[trigger] shape@[j]).1),
                                spec_guess_ready(*self) ==> forall|j: int|
                                    0 <= j < m ==> spec_guess_ready((#[trigger] shape@[j]).1),
                                i <= m,
                                props@.len() == i,
                                guess_wf(*self) ==> forall|j: int|
                                    0 <= j < i ==> (#[trigger] props@[j]).0@ == shape@[j].0@
                                        && spec_can_guess(shape@[j].1, props@[j].1),
                            decreases m - i,
                        {
                            let e = &shape[i];
                            proof {
                                assert(decreases_to!(*self => self.object_shape));
                                assert(decreases_to!(self.object_shape => self.object_shape->0));
                                assert(decreases_to!(self.object_shape->0 => self.object_shape->0@));
                                assert(decreases_to!(self.object_shape->0@ => self.object_shape->0@[i as int]));
                                assert(decreases_to!(self.object_shape->0@[i as int] => self.object_shape->0@[i as int].1));
                            }
                            let sampled = match e.1.sample_type(rand) {
                                Ok(t) => t,
                                Err(err) => {
                                    return Err(err);
                                },
                            };
                            props.push((e.0.clone(), sampled));
                            i = i + 1;
                        }
                        let out = Type::Object(props);
                        proof {
                            if guess_wf(*self) {
                                assert forall|k: int| 0 <= k < out->Object_0@.len() implies
                                    spec_prop_matches(
                                    shape@,
                                    (#[trigger] out->Object_0@[k]).0@,
                                    out->Object_0@[k].1,
                                ) by {
                                    assert(0 <= k < shape@.len() && shape@[k].0@
                                        == out->Object_0@[k].0@ && spec_can_guess(
                                        shape@[k].1,
                                        out->Object_0@[k].1,
                                    ));
                                }
                                assert(spec_can_guess(*self, out));
                            }
                        }
                        Ok(out)
                    },
                    None => Err(
                        RailcarError::Unknown(
                            "guess should have object shape if it can be an object".to_owned(),
                        ),
                    ),
                }
            },
            TypeKind::Class => {
                match &self.class_type {
                    Some(d) => {
                        let cidx = match d.sample_index(rand) {
                            Ok(i) => i,
                            Err(e) => {
                                return Err(e);
                            },
                        };
                        let name = d.entries[cidx].0.clone();
                        proof {
                            assert(spec_name_has(d.entries@, name@));
                        }
                        Ok(Type::Class(name))
                    },
                    None => Err(
                        RailcarError::Unknown(
                            "guess should have class name if it can be a class".to_owned(),
                        ),
                    ),
                }
            },
            TypeKind::Array => {
                match &self.array_value_type {
                    Some(guess) => {
                        proof {
                            assert(decreases_to!(*self => self.array_value_type));
                            assert(decreases_to!(self.array_value_type => self.array_value_type->0));
                        }
                        match guess.sample_type(rand) {
                            Ok(t) => Ok(Type::Array(Box::new(t))),
                            Err(e) => Err(e),
                        }
                    },
                    None => Err(
                        RailcarError::Unknown(
                            "guess should have array type if it can be an array".to_owned(),
                        ),
                    ),
                }
            },
        }
    }
}

/// Sample a constant value shaped like the type `t`. Class-typed fields and
/// elements take `Null` (classes are only built by constructor calls); a
/// class at the top level is the one failure.
pub fn sample_constant(t: &Type, rand: &mut Rand) -> (r: Result<ConstantValue, RailcarError>)
    requires
        rand_wf(*old(rand)),
    ensures
        rand_wf(*final(rand)),
        r is Err <==> *t is Class,
    decreases *t,
{
    match t {
        Type::Number => Ok(ConstantValue::Number(crate::rng::number(rand))),
        Type::String => Ok(ConstantValue::String(crate::rng::string(rand))),
        Type::Boolean => Ok(ConstantValue::Boolean(crate::rng::boolean(rand))),
        Type::Undefined => Ok(ConstantValue::Undefined),
        Type::Null => Ok(ConstantValue::Null),
        Type::Function => Ok(ConstantValue::Function),
        Type::Class(_) => Err(RailcarError::Unknown("cannot construct classes".to_owned())),
        Type::Object(entries) => {
            let m = entries.len();
            let mut props: Vec<(String, ConstantValue)> = Vec::new();
            let mut i: usize = 0;
            while i < m
                invariant
                    rand_wf(*rand),
                    m == entries@.len(),
                    t == Type::Object(*entries),
                    i <= m,
                decreases m - i,
            {
                let e = &entries[i];
                let is_class = match &e.1 {
                    Type::Class(_) => true,
                    _ => false,
                };
                if is_class {
                    props.push((e.0.clone(), ConstantValue::Null));
                } else {
                    proof {
                        assert(decreases_to!(*t => t->Object_0));
                        assert(decreases_to!(t->Object_0 => t->Object_0@));
                        assert(decreases_to!(t->Object_0@ => t->Object_0@[i as int]));
                        assert(decreases_to!(t->Object_0@[i as int] => t->Object_0@[i as int].1));
                    }
                    match sample_constant(&e.1, rand) {
                        Ok(v) => props.push((e.0.clone(), v)),
                        Err(e) => {
                            return Err(e);
                        },
                    }
                }
                i = i + 1;
            }
            Ok(ConstantValue::Object(props))
        },
        Type::Array(typ) => {
            let count = crate::rng::size(rand);
            let mut items: Vec<ConstantValue> = Vec::new();
            let mut i: usize = 0;
            let is_class = match &**typ {
                Type::Class(_) => true,
                _ => false,
            };
            while i < count
                invariant
                    rand_wf(*rand),
                    t == Type::Array(*typ),
                    is_class == (*t->Array_0 is Class),
                    i <= count,
                decreases count - i,
            {
                if is_class {
                    items.push(ConstantValue::Null);
                } else {
                    proof {
                        assert(decreases_to!(*t => t->Array_0));
                    }
                    match sample_constant(typ, rand) {
                        Ok(v) => items.push(v),
                        Err(e) => {
                            return Err(e);
                        },
                    }
                }
                i = i + 1;
            }
            Ok(ConstantValue::Array(items))
        },
    }
}

/// A probabilistic signature: a guess for each argument port and the return.
#[derive(Debug)]
pub struct SignatureGuess {
    pub args: Vec<TypeGuess>,
    pub ret: TypeGuess,
    pub callconv: CallConvention,
    pub builtin: Option<bool>,
}

/// Soundness of every guess in a signature guess.
pub open spec fn sig_guess_wf(s: SignatureGuess) -> bool {
    &&& guess_wf(s.ret)
    &&& forall|i: int| 0 <= i < s.args@.len() ==> guess_wf(#[trigger] s.args@[i])
}

/// Readiness of every guess in a signature guess.
pub open spec fn sig_guess_ready(s: SignatureGuess) -> bool {
    &&& spec_guess_ready(s.ret)
    &&& forall|i: int| 0 <= i < s.args@.len() ==> spec_guess_ready(#[trigger] s.args@[i])
}

/// Equality of signature guesses at the level of their contents.
pub open spec fn sig_guess_eq_spec(a: SignatureGuess, b: SignatureGuess) -> bool {
    &&& a.args@.len() == b.args@.len()
    &&& forall|i: int| 0 <= i < a.args@.len() ==> guess_eq_spec(#[trigger] a.args@[i], b.args@[i])
    &&& guess_eq_spec(a.ret, b.ret)
    &&& a.callconv == b.callconv
    &&& a.builtin == b.builtin
}

impl Clone for SignatureGuess {
    fn clone(&self) -> (r: SignatureGuess)
        ensures
            sig_guess_eq_spec(r, *self),
            sig_guess_wf(*self) ==> sig_guess_wf(r),
            sig_guess_ready(*self) ==> sig_guess_ready(r),
    {
        let n = self.args.len();
        let mut args: Vec<TypeGuess> = Vec::new();
        let mut i: usize = 0;
        while i < n
            invariant
                n == self.args@.len(),
                i <= n,
                args@.len() == i,
                forall|j: int|
                    0 <= j < i ==> guess_eq_spec(#[trigger] args@[j], self.args@[j]) && (guess_wf(
                        self.args@[j],
                    ) ==> guess_wf(args@[j])) && (spec_guess_ready(self.args@[j])
                        ==> spec_guess_ready(args@[j])),
            decreases n - i,
        {
            args.push(clone_guess(&self.args[i]));
            i = i + 1;
        }
        SignatureGuess {
            args,
            ret: clone_guess(&self.ret),
            callconv: self.callconv,
            builtin: self.builtin,
        }
    }
}

/// A concrete signature.
#[derive(Debug)]
pub struct Signature {
    pub args: Vec<Type>,
    pub ret: Type,
    pub callconv: CallConvention,
}

/// Equality of signatures at the level of their contents.
pub open spec fn sig_eq_spec(a: Signature, b: Signature) -> bool {
    &&& a.args@.len() == b.args@.len()
    &&& forall|i: int| 0 <= i < a.args@.len() ==> type_eq_spec(#[trigger] a.args@[i], b.args@[i])
    &&& type_eq_spec(a.ret, b.ret)
    &&& a.callconv == b.callconv
}

impl Clone for Signature {
    fn clone(&self) -> (r: Signature)
        ensures
            sig_eq_spec(r, *self),
            sig_eq_spec(*self, r),
    {
        let n = self.args.len();
        let mut args: Vec<Type> = Vec::new();
        let mut i: usize = 0;
        while i < n
            invariant
                n == self.args@.len(),
                i <= n,
                args@.len() == i,
                forall|j: int|
                    0 <= j < i ==> type_eq_spec(#[trigger] args@[j], self.args@[j]) && type_eq_spec(
                        self.args@[j],
                        args@[j],
                    ),
            decreases n - i,
        {
            args.push(clone_type(&self.args[i]));
            i = i + 1;
        }
        Signature { args, ret: clone_type(&self.ret), callconv: self.callconv }
    }
}

impl Signature {
    /// The first argument port whose type equals `typ`, if any.
    pub fn find_port(&self, typ: &Type) -> (r: Option<usize>)
        ensures
            match r {
                Option::Some(i) => i < self.args@.len() && type_eq_spec(self.args@[i as int], *typ)
                    && forall|j: int| 0 <= j < i ==> !type_eq_spec(#[trigger] self.args@[j], *typ),
                Option::None => forall|j: int|
                    0 <= j < self.args@.len() ==> !type_eq_spec(#[trigger] self.args@[j], *typ),
            },
    {
        let n = self.args.len();
        let mut i: usize = 0;
        while i < n
            invariant
                n == self.args@.len(),
                i <= n,
                forall|j: int| 0 <= j < i ==> !type_eq_spec(#[trigger] self.args@[j], *typ),
            decreases n - i,
        {
            if type_eq(&self.args[i], typ) {
                return Some(i);
            }
            i = i + 1;
        }
        None
    }
}

impl SignatureGuess {
    /// Sample a concrete signature: one type per argument port, one for the
    /// return, same calling convention.
    pub fn sample_signature(&self, rand: &mut Rand) -> (r: Result<Signature, RailcarError>)
        requires
            rand_wf(*old(rand)),
        ensures
            rand_wf(*final(rand)),
            sig_guess_wf(*self) && r is Ok ==> {
                &&& (r->Ok_0).args@.len() == self.args@.len()
                &&& forall|i: int|
                    0 <= i < self.args@.len() ==> spec_can_guess(
                        #[trigger] self.args@[i],
                        (r->Ok_0).args@[i],
                    )
                &&& spec_can_guess(self.ret, (r->Ok_0).ret)
                &&& (r->Ok_0).callconv == self.callconv
            },
            sig_guess_wf(*self) && sig_guess_ready(*self) ==> r is Ok,
    {
        let n = self.args.len();
        let mut args: Vec<Type> = Vec::new();
        let mut i: usize = 0;
        while i < n
            invariant
                rand_wf(*rand),
                n == self.args@.len(),
                i <= n,
                args@.len() == i,
                sig_guess_wf(*self) ==> forall|j: int|
                    0 <= j < i ==> spec_can_guess(#[trigger] self.args@[j], args@[j]),
                sig_guess_wf(*self) && sig_guess_ready(*self) ==> true,
            decreases n - i,
        {
            match self.args[i].sample_type(rand) {
                Ok(t) => args.push(t),
                Err(e) => {
                    proof {
                        if sig_guess_wf(*self) && sig_guess_ready(*self) {
                            assert(guess_wf(self.args@[i as int]));
                            assert(spec_guess_ready(self.args@[i as int]));
                            assert(false);
                        }
                    }
                    return Err(e);
                },
            }
            i = i + 1;
        }
        let ret = match self.ret.sample_type(rand) {
            Ok(t) => t,
            Err(e) => {
                proof {
                    if sig_guess_wf(*self) && sig_guess_ready(*self) {
                        assert(false);
                    }
                }
                return Err(e);
            },
        };
        Ok(Signature { args, ret, callconv: self.callconv })
    }
}

/// A query over the schema: optional pinned argument types, return type and
/// calling convention.
#[derive(Debug)]
pub struct SignatureQuery {
    pub args: Option<Vec<Type>>,
    pub ret: Option<Type>,
    pub callconv: Option<CallConvention>,
}


/// First unused port from `j` on whose guess admits `t`, if any.
pub open spec fn spec_first_port(
    guesses: Seq<TypeGuess>,
    used: Seq<bool>,
    t: Type,
    j: int,
) -> Option<usize>
    decreases guesses.len() - j,
{
    if j < 0 || j >= guesses.len() {
        Option::None
    } else if !used[j] && spec_can_guess(guesses[j], t) {
        Option::Some(j as usize)
    } else {
        spec_first_port(guesses, used, t, j + 1)
    }
}

/// Greedy left-to-right port assignment for the argument types `args[k ..]`,
/// given the ports already taken.
pub open spec fn spec_greedy_ports(
    guesses: Seq<TypeGuess>,
    args: Seq<Type>,
    k: int,
    used: Seq<bool>,
) -> Option<Seq<usize>>
    decreases args.len() - k,
{
    if k < 0 || k >= args.len() {
        Option::Some(Seq::empty())
    } else {
        match spec_first_port(guesses, used, args[k], 0) {
            Option::None => Option::None,
            Option::Some(p) => match spec_greedy_ports(
                guesses,
                args,
                k + 1,
                used.update(p as int, true),
            ) {
                Option::None => Option::None,
                Option::Some(rest) => Option::Some(seq![p] + rest),
            },
        }
    }
}

impl SignatureGuess {
    /// Assign each argument type a distinct port that admits it, greedily
    /// left to right. The result is exactly the greedy assignment; `None`
    /// when some argument fits no remaining port.
    pub fn can_receive(&self, args: &Vec<Type>) -> (r: Option<Vec<usize>>)
        requires
            sig_guess_wf(*self),
        ensures
            match r {
                Option::Some(ports) => {
                    &&& spec_greedy_ports(
                        self.args@,
                        args@,
                        0,
                        Seq::new(self.args@.len(), |i: int| false),
                    ) == Option::Some(ports@)
                    &&& ports@.len() == args@.len()
                    &&& forall|i: int|
                        0 <= i < ports@.len() ==> (#[trigger] ports@[i]) < self.args@.len()
                            && spec_can_guess(self.args@[ports@[i] as int], args@[i])
                    &&& forall|i: int, j: int|
                        0 <= i < j < ports@.len() ==> (#[trigger] ports@[i]) != (
                        #[trigger] ports@[j])
                },
                Option::None => spec_greedy_ports(
                    self.args@,
                    args@,
                    0,
                    Seq::new(self.args@.len(), |i: int| false),
                ) is None,
            },
    {
        let n_ports = self.args.len();
        let n_args = args.len();
        let mut used: Vec<bool> = Vec::new();
        let mut u: usize = 0;
        while u < n_ports
            invariant
                u <= n_ports,
                used@.len() == u,
                forall|j: int| 0 <= j < u ==> !(#[trigger] used@[j]),
            decreases n_ports - u,
        {
            used.push(false);
            u = u + 1;
        }
        proof {
            assert(used@ =~= Seq::new(self.args@.len(), |i: int| false));
        }
        let ghost init_used = used@;
        let mut ports: Vec<usize> = Vec::new();
        let mut k: usize = 0;
        while k < n_args
            invariant
                init_used == Seq::new(self.args@.len(), |i: int| false),
                n_ports == self.args@.len(),
                n_args == args@.len(),
                sig_guess_wf(*self),
                k <= n_args,
                ports@.len() == k,
                used@.len() == n_ports,
                forall|i: int|
                    0 <= i < k ==> (#[trigger] ports@[i]) < n_ports && spec_can_guess(
                        self.args@[ports@[i] as int],
                        args@[i],
                    ),
                forall|j: int| 0 <= j < n_ports ==> (#[trigger] used@[j] <==> exists|i: int|
                    0 <= i < k && ports@[i] == j),
                forall|i: int, j: int|
                    0 <= i < j < k ==> (#[trigger] ports@[i]) != (#[trigger] ports@[j]),
                (match spec_greedy_ports(self.args@, args@, k as int, used@) {
                    Option::None => spec_greedy_ports(self.args@, args@, 0, init_used) is None,
                    Option::Some(rest) => spec_greedy_ports(self.args@, args@, 0, init_used)
                        == Option::Some(ports@ + rest),
                }),
            decreases n_args - k,
        {
            let arg = &args[k];
            let mut j: usize = 0;
            let mut found: Option<usize> = None;
            while j < n_ports
                invariant
                    n_ports == self.args@.len(),
                    n_args == args@.len(),
                    k < n_args,
                    sig_guess_wf(*self),
                    used@.len() == n_ports,
                    *arg == args@[k as int],
                    j <= n_ports,
                    found is None ==> spec_first_port(self.args@, used@, args@[k as int], 0)
                        == spec_first_port(self.args@, used@, args@[k as int], j as int),
                    (match found {
                        Option::Some(p) => spec_first_port(self.args@, used@, args@[k as int], 0)
                            == Option::Some(p) && p < n_ports && !used@[p as int]
                            && spec_can_guess(self.args@[p as int], args@[k as int]),
                        Option::None => true,
                    }),
                decreases n_ports - j,
            {
                if found.is_none() {
                    let free = !used[j];
                    if free && self.args[j].can_guess(arg) {
                        found = Some(j);
                    }
                }
                j = j + 1;
            }
            match found {
                None => {
                    proof {
                        assert(spec_first_port(self.args@, used@, args@[k as int], n_ports as int)
                            is None);
                        assert(spec_greedy_ports(self.args@, args@, k as int, used@) is None);
                    }
                    return None;
                },
                Some(p) => {
                    let ghost old_used = used@;
                    let ghost old_ports = ports@;
                    ports.push(p);
                    used.set(p, true);
                    proof {
                        assert(used@ =~= old_used.update(p as int, true));
                        assert forall|i: int| 0 <= i < k implies (#[trigger] ports@[i]) != p by {
                            assert(old_ports[i] == ports@[i]);
                            assert(old_used[old_ports[i] as int]);
                            assert(!old_used[p as int]);
                        }
                        assert forall|jj: int| 0 <= jj < n_ports implies (#[trigger] used@[jj]
                            <==> exists|i: int| 0 <= i < k + 1 && ports@[i] == jj) by {
                            if jj == p as int {
                                assert(ports@[k as int] == p);
                            } else {
                                if used@[jj] {
                                    let i = choose|i: int| 0 <= i < k && old_ports[i] == jj;
                                    assert(ports@[i] == jj);
                                }
                            }
                        }
                        let rest = spec_greedy_ports(self.args@, args@, k as int, old_used);
                        assert(rest == (match spec_greedy_ports(
                            self.args@,
                            args@,
                            k as int + 1,
                            used@,
                        ) {
                            Option::None => Option::None,
                            Option::Some(r2) => Option::Some(seq![p] + r2),
                        }));
                        match spec_greedy_ports(self.args@, args@, k as int + 1, used@) {
                            Option::None => {},
                            Option::Some(r2) => {
                                assert(old_ports + (seq![p] + r2) =~= ports@ + r2);
                            },
                        }
                    }
                    k = k + 1;
                },
            }
        }
        proof {
            assert(spec_greedy_ports(self.args@, args@, n_args as int, used@) == Option::Some(
                Seq::<usize>::empty(),
            ));
            assert(ports@ + Seq::<usize>::empty() =~= ports@);
        }
        Some(ports)
    }
}

/// The schema: an ordered association of endpoint names to signature
/// guesses, with no name repeated.
#[derive(Debug)]
pub struct Schema {
    pub entries: Vec<(EndpointName, SignatureGuess)>,
}

/// Soundness of a schema: names unique, every guess in it sound.
pub open spec fn schema_wf(s: Schema) -> bool {
    &&& spec_name_keys_unique(s.entries@)
    &&& forall|i: int| 0 <= i < s.entries@.len() ==> sig_guess_wf((#[trigger] s.entries@[i]).1)
}

/// Readiness of every distribution in a schema.
pub open spec fn schema_ready(s: Schema) -> bool {
    forall|i: int| 0 <= i < s.entries@.len() ==> sig_guess_ready((#[trigger] s.entries@[i]).1)
}

/// Whether the schema has an entry with this name.
pub open spec fn spec_schema_has(s: Schema, name: Seq<char>) -> bool {
    exists|i: int| 0 <= i < s.entries@.len() && (#[trigger] s.entries@[i]).0@ == name
}

impl Schema {
    /// The empty schema.
    pub fn new() -> (r: Schema)
        ensures
            r.entries@.len() == 0,
            schema_wf(r),
    {
        Schema { entries: Vec::new() }
    }

    pub fn len(&self) -> (r: usize)
        ensures
            r == self.entries@.len(),
    {
        self.entries.len()
    }

    pub fn is_empty(&self) -> (r: bool)
        ensures
            r == (self.entries@.len() == 0),
    {
        self.entries.len() == 0
    }

    /// Add an entry; a repeated name is refused.
    pub fn insert(&mut self, name: String, guess: SignatureGuess) -> (r: bool)
        requires
            schema_wf(*old(self)),
            sig_guess_wf(guess),
        ensures
            schema_wf(*final(self)),
            r == !spec_schema_has(*old(self), name@),
            r ==> final(self).entries@.len() == old(self).entries@.len() + 1
                && final(self).entries@[old(self).entries@.len() as int].0@ == name@
                && final(self).entries@[old(self).entries@.len() as int].1 == guess,
            !r ==> *final(self) == *old(self),
            forall|i: int|
                0 <= i < old(self).entries@.len() ==> final(self).entries@[i] == old(
                    self,
                ).entries@[i],
    {
        let n = self.entries.len();
        let mut i: usize = 0;
        while i < n
            invariant
                *self == *old(self),
                schema_wf(*self),
                n == self.entries@.len(),
                i <= n,
                forall|j: int| 0 <= j < i ==> (#[trigger] self.entries@[j]).0@ != name@,
            decreases n - i,
        {
            if str_eq(&self.entries[i].0, &name) {
                return false;
            }
            i = i + 1;
        }
        self.entries.push((name, guess));
        true
    }

    /// The signature guess stored under `name`, if any.
    pub fn get(&self, name: &String) -> (r: Option<&SignatureGuess>)
        ensures
            match r {
                Option::Some(g) => exists|i: int|
                    0 <= i < self.entries@.len() && (#[trigger] self.entries@[i]).0@ == name@
                        && self.entries@[i].1 == *g,
                Option::None => !spec_schema_has(*self, name@),
            },
    {
        let n = self.entries.len();
        let mut i: usize = 0;
        while i < n
            invariant
                n == self.entries@.len(),
                i <= n,
                forall|j: int| 0 <= j < i ==> (#[trigger] self.entries@[j]).0@ != name@,
            decreases n - i,
        {
            if str_eq(&self.entries[i].0, name) {
                return Some(&self.entries[i].1);
            }
            i = i + 1;
        }
        None
    }

    /// The names of the entries, in order.
    pub fn keys(&self) -> (r: Vec<String>)
        ensures
            r@.len() == self.entries@.len(),
            forall|i: int| 0 <= i < r@.len() ==> (#[trigger] r@[i])@ == self.entries@[i].0@,
    {
        let n = self.entries.len();
        let mut out: Vec<String> = Vec::new();
        let mut i: usize = 0;
        while i < n
            invariant
                n == self.entries@.len(),
                i <= n,
                out@.len() == i,
                forall|j: int| 0 <= j < i ==> (#[trigger] out@[j])@ == self.entries@[j].0@,
            decreases n - i,
        {
            out.push(self.entries[i].0.clone());
            i = i + 1;
        }
        out
    }

    /// The names whose call convention is `Constructor`: exactly the
    /// constructor entries' names, in schema order, each once per entry.
    pub fn classes(&self) -> (r: Vec<EndpointName>)
        ensures
            r@.len() == spec_constructor_names(self.entries@).len(),
            forall|i: int|
                0 <= i < r@.len() ==> (#[trigger] r@[i])@ == spec_constructor_names(
                    self.entries@,
                )[i]@,
            forall|i: int|
                0 <= i < r@.len() ==> spec_is_constructor_name(*self, (#[trigger] r@[i])@),
            forall|e: int|
                0 <= e < self.entries@.len() && (#[trigger] self.entries@[e]).1.callconv
                    == CallConvention::Constructor ==> spec_name_listed(
                    r@,
                    self.entries@[e].0@,
                ),
    {
        let n = self.entries.len();
        let mut out: Vec<EndpointName> = Vec::new();
        let mut i: usize = 0;
        proof {
            assert(self.entries@.take(0) =~= Seq::<(EndpointName, SignatureGuess)>::empty());
        }
        while i < n
            invariant
                n == self.entries@.len(),
                i <= n,
                out@.len() == spec_constructor_names(self.entries@.take(i as int)).len(),
                forall|k: int|
                    0 <= k < out@.len() ==> (#[trigger] out@[k])@ == spec_constructor_names(
                        self.entries@.take(i as int),
                    )[k]@,
                forall|k: int|
                    0 <= k < out@.len() ==> spec_is_constructor_name(
                        *self,
                        (#[trigger] out@[k])@,
                    ),
                forall|e: int|
                    0 <= e < i && (#[trigger] self.entries@[e]).1.callconv
                        == CallConvention::Constructor ==> spec_name_listed(
                        out@,
                        self.entries@[e].0@,
                    ),
            decreases n - i,
        {
            proof {
                assert(self.entries@.take(i as int + 1) =~= self.entries@.take(i as int).push(
                    self.entries@[i as int],
                ));
                lemma_constructor_names_snoc(
                    self.entries@.take(i as int),
                    self.entries@[i as int],
                );
            }
            let e = &self.entries[i];
            let is_ctor = match e.1.callconv {
                CallConvention::Constructor => true,
                _ => false,
            };
            if is_ctor {
                let ghost before = out@;
                out.push(e.0.clone());
                proof {
                    assert(out@[before.len() as int]@ == self.entries@[i as int].0@);
                    assert(spec_is_constructor_name(*self, out@[before.len() as int]@));
                    assert forall|k: int| 0 <= k < out@.len() implies spec_is_constructor_name(
                        *self,
                        (#[trigger] out@[k])@,
                    ) by {
                        if k < before.len() {
                            assert(out@[k] == before[k]);
                        }
                    }
                    assert forall|ee: int|
                        0 <= ee < i + 1 && (#[trigger] self.entries@[ee]).1.callconv
                            == CallConvention::Constructor implies spec_name_listed(
                        out@,
                        self.entries@[ee].0@,
                    ) by {
                        if ee < i {
                            let k = choose|k: int|
                                0 <= k < before.len() && (#[trigger] before[k])@
                                    == self.entries@[ee].0@;
                            assert(out@[k]@ == self.entries@[ee].0@);
                        } else {
                            assert(out@[before.len() as int]@ == self.entries@[ee].0@);
                        }
                    }
                }
            }
            i = i + 1;
        }
        proof {
            assert(self.entries@.take(n as int) =~= self.entries@);
        }
        out
    }
}

/// The names of the constructor entries, in schema order, each once per
/// entry.
pub open spec fn spec_constructor_names(entries: Seq<(EndpointName, SignatureGuess)>) -> Seq<
    EndpointName,
>
    decreases entries.len(),
{
    if entries.len() == 0 {
        Seq::empty()
    } else {
        let rest = spec_constructor_names(entries.drop_first());
        if entries[0].1.callconv == CallConvention::Constructor {
            seq![entries[0].0] + rest
        } else {
            rest
        }
    }
}

/// Appending one entry appends its name to the constructor list exactly
/// when it is a constructor.
proof fn lemma_constructor_names_snoc(entries: Seq<(EndpointName, SignatureGuess)>, x: (EndpointName, SignatureGuess))
    ensures
        spec_constructor_names(entries.push(x)) == spec_constructor_names(entries) + (if x.1.callconv
            == CallConvention::Constructor {
            seq![x.0]
        } else {
            Seq::<EndpointName>::empty()
        }),
    decreases entries.len(),
{
    let tail: Seq<EndpointName> = if x.1.callconv == CallConvention::Constructor {
        seq![x.0]
    } else {
        Seq::empty()
    };
    if entries.len() == 0 {
        assert(entries.push(x)[0] == x);
        assert(entries.push(x).drop_first() =~= Seq::<(EndpointName, SignatureGuess)>::empty());
        assert(spec_constructor_names(Seq::<(EndpointName, SignatureGuess)>::empty())
            =~= Seq::<EndpointName>::empty());
        assert(spec_constructor_names(entries) =~= Seq::<EndpointName>::empty());
        if x.1.callconv == CallConvention::Constructor {
            assert(spec_constructor_names(entries.push(x)) =~= seq![x.0]);
            assert(spec_constructor_names(entries) + tail =~= seq![x.0]);
        } else {
            assert(spec_constructor_names(entries.push(x)) =~= Seq::<EndpointName>::empty());
            assert(spec_constructor_names(entries) + tail =~= Seq::<EndpointName>::empty());
        }
        assert(spec_constructor_names(entries.push(x)) =~= spec_constructor_names(entries) + tail);
    } else {
        assert(entries.push(x)[0] == entries[0]);
        assert(entries.push(x).drop_first() =~= entries.drop_first().push(x));
        lemma_constructor_names_snoc(entries.drop_first(), x);
        if entries[0].1.callconv == CallConvention::Constructor {
            assert(spec_constructor_names(entries.push(x)) =~= spec_constructor_names(entries)
                + tail);
        } else {
            assert(spec_constructor_names(entries.push(x)) =~= spec_constructor_names(entries)
                + tail);
        }
    }
}

/// Whether the schema has a constructor entry with this name.
pub open spec fn spec_is_constructor_name(s: Schema, name: Seq<char>) -> bool {
    exists|e: int|
        0 <= e < s.entries@.len() && (#[trigger] s.entries@[e]).0@ == name
            && s.entries@[e].1.callconv == CallConvention::Constructor
}

/// Whether some name in the list has these characters.
pub open spec fn spec_name_listed(l: Seq<String>, name: Seq<char>) -> bool {
    exists|k: int| 0 <= k < l.len() && (#[trigger] l[k])@ == name
}

/// Whether a schema entry passes every predicate of a query: the queried
/// return type is admitted, the calling convention matches, and the queried
/// argument types have a greedy port assignment.
pub open spec fn spec_passes(g: SignatureGuess, query: SignatureQuery) -> bool {
    &&& (match query.ret {
        Option::Some(t) => spec_can_guess(g.ret, t),
        Option::None => true,
    })
    &&& (match query.callconv {
        Option::Some(c) => g.callconv == c,
        Option::None => true,
    })
    &&& (match query.args {
        Option::Some(qargs) => spec_greedy_ports(
            g.args@,
            qargs@,
            0,
            Seq::new(g.args@.len(), |i: int| false),
        ) is Some,
        Option::None => true,
    })
}


/// The ports handed back with a candidate: present exactly when the query
/// pins arguments, and then exactly the greedy assignment, distinct and
/// admissible.
pub open spec fn spec_ports_ok(g: SignatureGuess, q: SignatureQuery, ports: Option<Vec<usize>>) -> bool {
    match (q.args, ports) {
        (Option::Some(qa), Option::Some(pv)) => {
            &&& Option::Some(pv@) == spec_greedy_ports(
                g.args@,
                qa@,
                0,
                Seq::new(g.args@.len(), |i: int| false),
            )
            &&& pv@.len() == qa@.len()
            &&& forall|i: int|
                0 <= i < pv@.len() ==> (#[trigger] pv@[i]) < g.args@.len() && spec_can_guess(
                    g.args@[pv@[i] as int],
                    qa@[i],
                )
            &&& forall|i: int, j: int|
                0 <= i < j < pv@.len() ==> (#[trigger] pv@[i]) != (#[trigger] pv@[j])
        },
        (Option::None, Option::None) => true,
        _ => false,
    }
}

/// A candidate produced by the filter: a real entry that passes the query,
/// with its port assignment.
pub open spec fn spec_candidate_ok(s: Schema, q: SignatureQuery, c: (usize, Option<Vec<usize>>)) -> bool {
    &&& (c.0 as int) < s.entries@.len()
    &&& spec_passes(s.entries@[c.0 as int].1, q)
    &&& spec_ports_ok(s.entries@[c.0 as int].1, q, c.1)
}

/// Whether the candidate list mentions entry `e`.
pub open spec fn spec_candidate_listed(cands: Seq<(usize, Option<Vec<usize>>)>, e: int) -> bool {
    exists|t: int| 0 <= t < cands.len() && (#[trigger] cands[t]).0 == e
}

/// Whether any entry of the schema passes the query.
pub open spec fn spec_any_passes(s: Schema, q: SignatureQuery) -> bool {
    exists|e: int| 0 <= e < s.entries@.len() && spec_passes((#[trigger] s.entries@[e]).1, q)
}

impl Schema {
    /// Keep exactly the entries that pass every query predicate, each with
    /// its greedy port assignment when the query pins arguments.
    fn filter(&self, query: &SignatureQuery) -> (r: Vec<(usize, Option<Vec<usize>>)>)
        requires
            schema_wf(*self),
        ensures
            forall|t: int| 0 <= t < r@.len() ==> spec_candidate_ok(*self, *query, #[trigger] r@[t]),
            forall|e: int|
                0 <= e < self.entries@.len() && spec_passes((#[trigger] self.entries@[e]).1, *query)
                    ==> spec_candidate_listed(r@, e),
            r@.len() == 0 ==> !spec_any_passes(*self, *query),
    {
        let n = self.entries.len();
        let mut out: Vec<(usize, Option<Vec<usize>>)> = Vec::new();
        let mut e: usize = 0;
        while e < n
            invariant
                schema_wf(*self),
                n == self.entries@.len(),
                e <= n,
                forall|t: int|
                    0 <= t < out@.len() ==> spec_candidate_ok(*self, *query, #[trigger] out@[t]),
                forall|e2: int|
                    0 <= e2 < e && spec_passes((#[trigger] self.entries@[e2]).1, *query)
                        ==> spec_candidate_listed(out@, e2),
            decreases n - e,
        {
            let g = &self.entries[e].1;
            let ret_ok = match &query.ret {
                Some(t) => g.ret.can_guess(t),
                None => true,
            };
            let cc_ok = match &query.callconv {
                Some(c) => {
                    let gc = g.callconv;
                    gc == *c
                },
                None => true,
            };
            if ret_ok && cc_ok {
                let ports: Option<Option<Vec<usize>>> = match &query.args {
                    Some(qa) => {
                        match g.can_receive(qa) {
                            Some(pv) => Some(Some(pv)),
                            None => None,
                        }
                    },
                    None => Some(None),
                };
                match ports {
                    Some(pv) => {
                        let ghost before = out@;
                        out.push((e, pv));
                        proof {
                            assert(spec_passes(self.entries@[e as int].1, *query));
                            assert(spec_candidate_ok(*self, *query, out@[before.len() as int]));
                            assert forall|t: int| 0 <= t < out@.len() implies spec_candidate_ok(
                                *self,
                                *query,
                                #[trigger] out@[t],
                            ) by {
                                if t < before.len() {
                                    assert(out@[t] == before[t]);
                                }
                            }
                            assert forall|e2: int|
                                0 <= e2 < e + 1 && spec_passes(
                                    (#[trigger] self.entries@[e2]).1,
                                    *query,
                                ) implies spec_candidate_listed(out@, e2) by {
                                if e2 < e {
                                    let t = choose|t: int|
                                        0 <= t < before.len() && (#[trigger] before[t]).0 == e2;
                                    assert(out@[t].0 == e2);
                                } else {
                                    assert(out@[before.len() as int].0 == e2);
                                }
                            }
                        }
                    },
                    None => {
                        proof {
                            assert(!spec_passes(self.entries@[e as int].1, *query));
                        }
                    },
                }
            } else {
                proof {
                    assert(!spec_passes(self.entries@[e as int].1, *query));
                }
            }
            e = e + 1;
        }
        proof {
            if out@.len() == 0 {
                assert forall|e2: int|
                    0 <= e2 < self.entries@.len() implies !spec_passes(
                    (#[trigger] self.entries@[e2]).1,
                    *query,
                ) by {
                    if spec_passes(self.entries@[e2].1, *query) {
                        assert(spec_candidate_listed(out@, e2));
                    }
                }
            }
        }
        out
    }
}

/// Build a concrete signature from a guess under a query: pinned argument
/// types land on their assigned ports, everything else is sampled.
/// The slot `p` is one the query pinned through the port assignment.
pub open spec fn spec_port_pinned(ports: Option<Vec<usize>>, p: int) -> bool {
    match ports {
        Option::Some(pv) => exists|t: int| 0 <= t < pv@.len() && (#[trigger] pv@[t]) == p,
        Option::None => false,
    }
}

pub fn patch(
    rand: &mut Rand,
    query: &SignatureQuery,
    guess: &SignatureGuess,
    ports: &Option<Vec<usize>>,
) -> (r: Result<Signature, RailcarError>)
    requires
        rand_wf(*old(rand)),
        sig_guess_wf(*guess),
        match (query.args, *ports) {
            (Option::Some(qa), Option::Some(pv)) => {
                &&& pv@.len() == qa@.len()
                &&& forall|i: int| 0 <= i < pv@.len() ==> (#[trigger] pv@[i]) < guess.args@.len()
                &&& forall|i: int, j: int|
                    0 <= i < j < pv@.len() ==> (#[trigger] pv@[i]) != (#[trigger] pv@[j])
            },
            (Option::Some(_), Option::None) => false,
            (Option::None, _) => true,
        },
    ensures
        rand_wf(*final(rand)),
        r is Ok ==> {
            let sig = r->Ok_0;
            &&& sig.callconv == guess.callconv
            &&& sig.args@.len() == guess.args@.len()
            &&& (match query.ret {
                Option::Some(t) => type_eq_spec(sig.ret, t),
                Option::None => true,
            })
            &&& (match (query.args, *ports) {
                (Option::Some(qa), Option::Some(pv)) => forall|i: int|
                    0 <= i < pv@.len() ==> type_eq_spec(
                        sig.args@[(#[trigger] pv@[i]) as int],
                        qa@[i],
                    ),
                _ => true,
            })
            &&& (query.ret is None ==> spec_can_guess(guess.ret, sig.ret))
            &&& (forall|p2: int|
                0 <= p2 < sig.args@.len() && !spec_port_pinned(*ports, p2) ==> spec_can_guess(
                    guess.args@[p2],
                    #[trigger] sig.args@[p2],
                ))
        },
        sig_guess_ready(*guess) ==> r is Ok,
{
    let ret: Type = match &query.ret {
        Some(t) => clone_type(t),
        None => {
            match guess.ret.sample_type(rand) {
                Ok(t) => t,
                Err(e) => {
                    return Err(e);
                },
            }
        },
    };
    proof {
        if query.ret is Some {
            lemma_type_eq_refl(query.ret->0);
        }
    }
    let n = guess.args.len();
    let mut args: Vec<Type> = Vec::new();
    let mut p: usize = 0;
    while p < n
        invariant
            rand_wf(*rand),
            n == guess.args@.len(),
            sig_guess_wf(*guess),
            match (query.args, *ports) {
                (Option::Some(qa), Option::Some(pv)) => {
                    &&& pv@.len() == qa@.len()
                    &&& forall|i: int|
                        0 <= i < pv@.len() ==> (#[trigger] pv@[i]) < guess.args@.len()
                    &&& forall|i: int, j: int|
                        0 <= i < j < pv@.len() ==> (#[trigger] pv@[i]) != (#[trigger] pv@[j])
                },
                (Option::Some(_), Option::None) => false,
                (Option::None, _) => true,
            },
            p <= n,
            args@.len() == p,
            match (query.args, *ports) {
                (Option::Some(qa), Option::Some(pv)) => forall|i: int|
                    0 <= i < pv@.len() && (#[trigger] pv@[i]) < p ==> type_eq_spec(
                        args@[pv@[i] as int],
                        qa@[i],
                    ),
                _ => true,
            },
            forall|p2: int|
                0 <= p2 < p && !spec_port_pinned(*ports, p2) ==> spec_can_guess(
                    guess.args@[p2],
                    #[trigger] args@[p2],
                ),
        decreases n - p,
    {
        let mut mapped: Option<usize> = None;
        match (&query.args, ports) {
            (Some(qa), Some(pv)) => {
                let m = pv.len();
                let mut t: usize = 0;
                let mut hit: bool = false;
                while t < m && !hit
                    invariant
                        m == pv@.len(),
                        t <= m,
                        hit ==> t < m && pv@[t as int] == p,
                        !hit ==> forall|j: int| 0 <= j < t ==> (#[trigger] pv@[j]) != p,
                    decreases m - t, (if hit { 0int } else { 1int }),
                {
                    if pv[t] == p {
                        hit = true;
                    } else {
                        t = t + 1;
                    }
                }
                if hit {
                    mapped = Some(t);
                    proof {
                        assert(pv@[t as int] == p);
                    }
                }
            },
            _ => {},
        }
        match mapped {
            Some(t) => {
                match (&query.args, ports) {
                    (Some(qa), Some(pv)) => {
                        let ghost pre_args = args@;
                        let cloned = clone_type(&qa[t]);
                        args.push(cloned);
                        proof {
                            assert(type_eq_spec(args@[p as int], qa@[t as int]));
                            assert forall|i: int|
                                0 <= i < pv@.len() && (#[trigger] pv@[i]) < p + 1 implies
                                type_eq_spec(args@[pv@[i] as int], query.args->0@[i]) by {
                                if pv@[i] == p {
                                    if i != t as int {
                                        assert(false);
                                    }
                                } else {
                                    assert(args@[pv@[i] as int] == pre_args[pv@[i] as int]);
                                }
                            }
                        }
                    },
                    _ => {
                        proof {
                            assert(false);
                        }
                        return Err(RailcarError::Unknown("unreachable".to_owned()));
                    },
                }
            },
            None => {
                match guess.args[p].sample_type(rand) {
                    Ok(ty) => {
                        args.push(ty);
                    },
                    Err(e) => {
                        proof {
                            if sig_guess_ready(*guess) {
                                assert(false);
                            }
                        }
                        return Err(e);
                    },
                }
            },
        }
        p = p + 1;
    }
    Ok(Signature { args, ret, callconv: guess.callconv })
}

/// What `concretize` promises of a hit: some entry with this name passes
/// the query (with these ports as its greedy assignment), every slot the
/// query left open is admitted by that entry's guess, and the signature
/// agrees with everything the query pinned.
pub open spec fn spec_concretize_sound(
    s: Schema,
    q: SignatureQuery,
    name: Seq<char>,
    sig: Signature,
    ports: Option<Vec<usize>>,
) -> bool {
    &&& spec_schema_has(s, name)
    &&& exists|e: int|
        {
            let g = (#[trigger] s.entries@[e]).1;
            &&& 0 <= e < s.entries@.len()
            &&& s.entries@[e].0@ == name
            &&& spec_passes(g, q)
            &&& spec_ports_ok(g, q, ports)
            &&& sig.callconv == g.callconv
            &&& sig.args@.len() == g.args@.len()
            &&& (q.ret is None ==> spec_can_guess(g.ret, sig.ret))
            &&& (forall|p: int|
                0 <= p < sig.args@.len() && !spec_port_pinned(ports, p) ==> spec_can_guess(
                    g.args@[p],
                    #[trigger] sig.args@[p],
                ))
        }
    &&& (match q.callconv {
        Option::Some(c) => sig.callconv == c,
        Option::None => true,
    })
    &&& (match q.ret {
        Option::Some(t) => type_eq_spec(sig.ret, t),
        Option::None => true,
    })
    &&& (match (q.args, ports) {
        (Option::Some(qa), Option::Some(pv)) => {
            &&& pv@.len() == qa@.len()
            &&& (forall|i: int|
                0 <= i < pv@.len() ==> (#[trigger] pv@[i]) < sig.args@.len() && type_eq_spec(
                    sig.args@[pv@[i] as int],
                    qa@[i],
                ))
            &&& (forall|i: int, j: int|
                0 <= i < j < pv@.len() ==> (#[trigger] pv@[i]) != (#[trigger] pv@[j]))
        },
        (Option::None, _) => true,
        _ => false,
    })
}

impl Schema {
    /// Pick one uniformly among the candidates that pass the query, and
    /// materialize a concrete signature for it. `None` when no entry passes,
    /// or when a sample falls short; with every distribution ready, a
    /// passing entry guarantees a hit.
    pub fn concretize(&self, rand: &mut Rand, query: SignatureQuery) -> (r: Option<
        (EndpointName, Signature, Option<Vec<usize>>),
    >)
        requires
            rand_wf(*old(rand)),
            schema_wf(*self),
        ensures
            rand_wf(*final(rand)),
            match r {
                Option::Some(hit) => spec_concretize_sound(*self, query, hit.0@, hit.1, hit.2)
                    && spec_any_passes(*self, query),
                Option::None => !(spec_any_passes(*self, query) && schema_ready(*self)),
            },
    {
        let candidates = self.filter(&query);
        if candidates.len() == 0 {
            proof {
                assert(!spec_any_passes(*self, query));
            }
            return None;
        }
        let pick: usize = if crate::ENABLE_LIKELIHOOD_BASED_CONCRETIZATION {
            pick_candidate(rand, self, &query, &candidates)
        } else {
            rand.pick_index(candidates.len())
        };
        let cand = &candidates[pick];
        let e = cand.0;
        proof {
            assert(spec_candidate_ok(*self, query, candidates@[pick as int]));
        }
        let name = self.entries[e].0.clone();
        let guess = &self.entries[e].1;
        match patch(rand, &query, guess, &cand.1) {
            Ok(sig) => {
                let ports_out: Option<Vec<usize>> = match &cand.1 {
                    Some(pv) => {
                        let m = pv.len();
                        let mut out: Vec<usize> = Vec::new();
                        let mut i: usize = 0;
                        while i < m
                            invariant
                                m == pv@.len(),
                                i <= m,
                                out@.len() == i,
                                forall|j: int| 0 <= j < i ==> out@[j] == pv@[j],
                            decreases m - i,
                        {
                            out.push(pv[i]);
                            i = i + 1;
                        }
                        proof {
                            assert(out@ =~= pv@);
                        }
                        Some(out)
                    },
                    None => None,
                };
                proof {
                    assert(spec_schema_has(*self, name@));
                    let g = self.entries@[e as int].1;
                    assert(spec_passes(g, query));
                    assert(spec_ports_ok(g, query, cand.1));
                    if query.args is Some {
                        assert(cand.1 is Some && ports_out is Some);
                        assert(ports_out->0@ == cand.1->0@);
                        assert(spec_ports_ok(g, query, ports_out));
                    } else {
                        assert(cand.1 is None && ports_out is None);
                        assert(spec_ports_ok(g, query, ports_out));
                    }
                    assert forall|p2: int|
                        0 <= p2 < sig.args@.len() && !spec_port_pinned(ports_out, p2) implies
                        spec_can_guess(g.args@[p2], #[trigger] sig.args@[p2]) by {
                        if spec_port_pinned(cand.1, p2) {
                            let t = choose|t: int|
                                0 <= t < cand.1->0@.len() && (#[trigger] cand.1->0@[t]) == p2;
                            assert(ports_out->0@[t] == p2);
                            assert(false);
                        }
                    }
                    assert(spec_concretize_sound(*self, query, name@, sig, ports_out)) by {
                        let ei = e as int;
                        assert((#[trigger] self.entries@[ei]).0@ == name@);
                    }
                }
                Some((name, sig, ports_out))
            },
            Err(_) => {
                proof {
                    if schema_ready(*self) {
                        assert(sig_guess_ready(self.entries@[e as int].1));
                        assert(false);
                    }
                }
                None
            },
        }
    }
}

/// Likelihood of a candidate under the query: the product of the
/// probabilities the entry assigns to each pinned argument (at its port) and
/// to the pinned return type.
fn compute_likelihood(s: &Schema, query: &SignatureQuery, cand: &(usize, Option<Vec<usize>>)) -> (r:
    u64)
    requires
        schema_wf(*s),
        spec_candidate_ok(*s, *query, *cand),
    ensures
        r <= crate::rng::WEIGHT_ONE,
{
    let g = &s.entries[cand.0].1;
    let mut like: u64 = crate::rng::WEIGHT_ONE;
    match &query.ret {
        Some(t) => {
            let p = g.ret.probability_of(t);
            like = mul_prob(like, p);
        },
        None => {},
    }
    match (&query.args, &cand.1) {
        (Some(qa), Some(pv)) => {
            let m = qa.len();
            let mut i: usize = 0;
            while i < m
                invariant
                    schema_wf(*s),
                    spec_candidate_ok(*s, *query, *cand),
                    (cand.0 as int) < s.entries@.len(),
                    *g == s.entries@[cand.0 as int].1,
                    query.args == Option::Some(*qa),
                    cand.1 == Option::Some(*pv),
                    m == qa@.len(),
                    i <= m,
                    like <= crate::rng::WEIGHT_ONE,
                decreases m - i,
            {
                proof {
                    assert(spec_ports_ok(s.entries@[cand.0 as int].1, *query, cand.1));
                    assert((pv@[i as int]) < g.args@.len());
                }
                let port = pv[i];
                let p = g.args[port].probability_of(&qa[i]);
                like = mul_prob(like, p);
                i = i + 1;
            }
        },
        _ => {},
    }
    like
}

/// Fixed-point product of two probabilities; a weight beyond one unit
/// counts as one unit.
fn mul_prob(a: u64, b: u64) -> (r: u64)
    requires
        a <= crate::rng::WEIGHT_ONE,
    ensures
        r <= a,
        r <= crate::rng::WEIGHT_ONE,
{
    let b2: u64 = if b > crate::rng::WEIGHT_ONE {
        crate::rng::WEIGHT_ONE
    } else {
        b
    };
    proof {
        assert((a as int) * (b2 as int) <= (a as int) * (crate::rng::WEIGHT_ONE as int)) by (
        nonlinear_arith)
            requires
                b2 <= crate::rng::WEIGHT_ONE,
                a >= 0,
        ;
    }
    let wide: u128 = (a as u128) * (b2 as u128);
    let r128: u128 = wide / (crate::rng::WEIGHT_ONE as u128);
    proof {
        vstd::arithmetic::div_mod::lemma_div_is_ordered(
            (a as int) * (b2 as int),
            (a as int) * (crate::rng::WEIGHT_ONE as int),
            crate::rng::WEIGHT_ONE as int,
        );
        vstd::arithmetic::div_mod::lemma_div_by_multiple(a as int, crate::rng::WEIGHT_ONE as int);
    }
    r128 as u64
}

/// Pick a candidate index weighted by likelihood; candidates with no mass,
/// or a draw past the accumulated mass, fall back to the first candidate.
fn pick_candidate(
    rand: &mut Rand,
    s: &Schema,
    query: &SignatureQuery,
    candidates: &Vec<(usize, Option<Vec<usize>>)>,
) -> (r: usize)
    requires
        rand_wf(*old(rand)),
        schema_wf(*s),
        candidates@.len() > 0,
        forall|t: int|
            0 <= t < candidates@.len() ==> spec_candidate_ok(*s, *query, #[trigger] candidates@[t]),
    ensures
        rand_wf(*final(rand)),
        r < candidates@.len(),
{
    let n = candidates.len();
    let mut weights: Vec<(usize, u64)> = Vec::new();
    let mut total: u64 = 0;
    let mut i: usize = 0;
    while i < n
        invariant
            rand_wf(*rand),
            schema_wf(*s),
            n == candidates@.len(),
            forall|t: int|
                0 <= t < candidates@.len() ==> spec_candidate_ok(
                    *s,
                    *query,
                    #[trigger] candidates@[t],
                ),
            i <= n,
            weights@.len() == i,
        decreases n - i,
    {
        let w = compute_likelihood(s, query, &candidates[i]);
        weights.push((i, w));
        total = if w > u64::MAX - total {
            u64::MAX
        } else {
            total + w
        };
        i = i + 1;
    }
    if total == 0 {
        return 0;
    }
    // normalize and walk the masses in order
    let draw = rand.next_unit();
    let scaled: u64 = mul_div(draw, total);
    let mut acc: u64 = 0;
    let mut k: usize = 0;
    while k < n
        invariant
            rand_wf(*rand),
            n == weights@.len(),
            n == candidates@.len(),
            n > 0,
            k <= n,
        decreases n - k,
    {
        let w = weights[k].1;
        if w > u64::MAX - acc {
            return k;
        }
        acc = acc + w;
        if scaled < acc {
            return k;
        }
        k = k + 1;
    }
    0
}

/// `draw * total / WEIGHT_ONE`: the draw rescaled to a total mass.
fn mul_div(draw: u64, total: u64) -> (r: u64)
    requires
        draw < crate::rng::WEIGHT_ONE,
    ensures
        r <= total,
{
    proof {
        assert((draw as int) * (total as int) <= (crate::rng::WEIGHT_ONE as int) * (
        u64::MAX as int)) by (nonlinear_arith)
            requires
                draw <= crate::rng::WEIGHT_ONE,
                total <= u64::MAX,
        ;
    }
    let wide: u128 = (draw as u128) * (total as u128);
    let q: u128 = wide / (crate::rng::WEIGHT_ONE as u128);
    proof {
        assert((draw as int) * (total as int) <= (crate::rng::WEIGHT_ONE as int - 1) * (
        total as int)) by (nonlinear_arith)
            requires
                draw < crate::rng::WEIGHT_ONE,
                total >= 0,
        ;
        assert(((crate::rng::WEIGHT_ONE as int - 1) * (total as int)) / (
        crate::rng::WEIGHT_ONE as int) <= total as int) by (nonlinear_arith);
        vstd::arithmetic::div_mod::lemma_div_is_ordered(
            (draw as int) * (total as int),
            (crate::rng::WEIGHT_ONE as int - 1) * (total as int),
            crate::rng::WEIGHT_ONE as int,
        );
    }
    q as u64
}

impl TrySample<Type> for TypeGuess {
    fn sample(&self, rand: &mut Rand) -> Result<Type, RailcarError> {
        if !rand_check(rand) {
            return Err(RailcarError::Unknown("draw source out of shape".to_owned()));
        }
        self.sample_type(rand)
    }
}

impl TrySample<ConstantValue> for Type {
    fn sample(&self, rand: &mut Rand) -> Result<ConstantValue, RailcarError> {
        if !rand_check(rand) {
            return Err(RailcarError::Unknown("draw source out of shape".to_owned()));
        }
        sample_constant(self, rand)
    }
}

impl TrySample<Signature> for SignatureGuess {
    fn sample(&self, rand: &mut Rand) -> Result<Signature, RailcarError> {
        if !rand_check(rand) {
            return Err(RailcarError::Unknown("draw source out of shape".to_owned()));
        }
        self.sample_signature(rand)
    }
}

/// Runtime check of the draw source's internal consistency, for callers that
/// cannot supply it as a precondition.
pub fn rand_check(rand: &Rand) -> (r: bool)
    ensures
        r == rand_wf(*rand),
{
    match rand {
        Rand::Std(_) => true,
        Rand::Bytes(b) => b.pointer <= b.buf.len(),
    }
}

/// Equality of schemas at the level of their contents.
pub open spec fn schema_eq_spec(a: Schema, b: Schema) -> bool {
    &&& a.entries@.len() == b.entries@.len()
    &&& forall|i: int|
        0 <= i < a.entries@.len() ==> (#[trigger] a.entries@[i]).0@ == b.entries@[i].0@
            && sig_guess_eq_spec(a.entries@[i].1, b.entries@[i].1)
}

impl Clone for Schema {
    fn clone(&self) -> (r: Schema)
        ensures
            schema_eq_spec(r, *self),
            schema_wf(*self) ==> schema_wf(r),
            schema_ready(*self) ==> schema_ready(r),
    {
        let n = self.entries.len();
        let mut entries: Vec<(EndpointName, SignatureGuess)> = Vec::new();
        let mut i: usize = 0;
        while i < n
            invariant
                n == self.entries@.len(),
                i <= n,
                entries@.len() == i,
                forall|j: int|
                    0 <= j < i ==> (#[trigger] entries@[j]).0@ == self.entries@[j].0@
                        && sig_guess_eq_spec(entries@[j].1, self.entries@[j].1) && (sig_guess_wf(
                        self.entries@[j].1,
                    ) ==> sig_guess_wf(entries@[j].1)) && (sig_guess_ready(self.entries@[j].1)
                        ==> sig_guess_ready(entries@[j].1)),
            decreases n - i,
        {
            let e = &self.entries[i];
            entries.push((e.0.clone(), e.1.clone()));
            i = i + 1;
        }
        Schema { entries }
    }
}

/// Whether a guess can only be a class: a single kind entry, and it is
/// `Class`.
pub open spec fn spec_only_class(g: TypeGuess) -> bool {
    g.kind.entries@.len() == 1 && spec_kind_has(g.kind.entries@, TypeKind::Class)
}

/// Whether this guess can only be a class.
pub fn only_class(g: &TypeGuess) -> (r: bool)
    ensures
        r == spec_only_class(*g),
{
    g.kind.entries.len() == 1 && kind_contains(&g.kind, TypeKind::Class)
}

/// The kind distribution with one key taken out. Remaining keys keep their
/// order and weights.
fn kind_dist_without(d: &Distribution<TypeKind>, key: TypeKind) -> (r: Distribution<TypeKind>)
    requires
        spec_keys_unique(d.entries@),
    ensures
        spec_keys_unique(r.entries@),
        !spec_kind_has(r.entries@, key),
        forall|j: int|
            0 <= j < r.entries@.len() ==> spec_kind_has(
                d.entries@,
                (#[trigger] r.entries@[j]).0,
            ) && r.entries@[j].0 != key,
        (exists|i: int|
            0 <= i < d.entries@.len() && (#[trigger] d.entries@[i]).0 != key)
            ==> r.entries@.len() > 0,
    {
    let n = d.entries.len();
    let mut out: Vec<(TypeKind, u64)> = Vec::new();
    let mut i: usize = 0;
    while i < n
        invariant
            spec_keys_unique(d.entries@),
            n == d.entries@.len(),
            i <= n,
            forall|j: int, j2: int|
                0 <= j < j2 < out@.len() ==> (#[trigger] out@[j]).0 != (#[trigger] out@[j2]).0,
            forall|j: int|
                0 <= j < out@.len() ==> (#[trigger] out@[j]).0 != key && exists|i2: int|
                    0 <= i2 < i && out@[j] == (#[trigger] d.entries@[i2]),
            forall|i2: int|
                0 <= i2 < i && (#[trigger] d.entries@[i2]).0 != key ==> exists|j: int|
                    0 <= j < out@.len() && (#[trigger] out@[j]) == d.entries@[i2],
        decreases n - i,
    {
        let e = d.entries[i];
        if !(e.0 == key) {
            let ghost before = out@;
            out.push(e);
            proof {
                assert(out@[before.len() as int] == d.entries@[i as int]);
                assert forall|j: int, j2: int|
                    0 <= j < j2 < out@.len() implies (#[trigger] out@[j]).0 != (
                #[trigger] out@[j2]).0 by {
                    if j2 == before.len() {
                        let i2 = choose|i2: int|
                            0 <= i2 < i && out@[j] == (#[trigger] d.entries@[i2]);
                        assert(d.entries@[i2].0 != d.entries@[i as int].0);
                    }
                }
                assert forall|i2: int|
                    0 <= i2 < i + 1 && (#[trigger] d.entries@[i2]).0 != key implies exists|j: int|
                    0 <= j < out@.len() && (#[trigger] out@[j]) == d.entries@[i2] by {
                    if i2 < i {
                        let j = choose|j: int|
                            0 <= j < before.len() && (#[trigger] before[j]) == d.entries@[i2];
                        assert(out@[j] == d.entries@[i2]);
                    } else {
                        assert(out@[before.len() as int] == d.entries@[i2]);
                    }
                }
            }
        }
        i = i + 1;
    }
    proof {
        if exists|i2: int| 0 <= i2 < d.entries@.len() && (#[trigger] d.entries@[i2]).0 != key {
            let i2 = choose|i2: int|
                0 <= i2 < d.entries@.len() && (#[trigger] d.entries@[i2]).0 != key;
            assert(exists|j: int|
                0 <= j < out@.len() && (#[trigger] out@[j]) == d.entries@[i2]);
        }
        assert forall|j: int| 0 <= j < out@.len() implies spec_kind_has(
            d.entries@,
            (#[trigger] out@[j]).0,
        ) && out@[j].0 != key by {
            let i2 = choose|i2: int| 0 <= i2 < n && out@[j] == (#[trigger] d.entries@[i2]);
            lemma_kind_entry_has(d.entries@, i2);
        }
    }
    Distribution { entries: out }
}

/// The guess with the `Class` kind stripped out and the remaining weights
/// redistributed; the class-name distribution is dropped with it.
pub fn strip_class(rand: &mut Rand, guess: &TypeGuess) -> (r: TypeGuess)
    requires
        rand_wf(*old(rand)),
        guess_wf(*guess),
    ensures
        rand_wf(*final(rand)),
        guess_wf(r),
        r.is_any == guess.is_any,
        spec_guess_ready(*guess) && !spec_only_class(*guess) && !guess.is_any ==> spec_guess_ready(
            r,
        ),
        guess.is_any && spec_guess_ready(*guess) ==> spec_guess_ready(r),
{
    let cloned = clone_guess(guess);
    let mut kind = kind_dist_without(&cloned.kind, TypeKind::Class);
    proof {
        assert(cloned.kind.entries@ == guess.kind.entries@);
        if spec_guess_ready(*guess) && !spec_only_class(*guess) && !guess.is_any {
            // a ready, not-class-only distribution keeps at least one key
            if guess.kind.entries@.len() == 1 {
                assert(guess.kind.entries@[0].0 != TypeKind::Class) by {
                    if guess.kind.entries@[0].0 == TypeKind::Class {
                        lemma_kind_entry_has(guess.kind.entries@, 0);
                    }
                }
            } else {
                assert(guess.kind.entries@.len() > 1);
                assert(guess.kind.entries@[0].0 != TypeKind::Class || guess.kind.entries@[1].0
                    != TypeKind::Class);
            }
        }
    }
    if kind.entries.len() > 0 {
        kind.redistribute(rand);
    }
    let r = TypeGuess {
        is_any: cloned.is_any,
        kind,
        object_shape: cloned.object_shape,
        array_value_type: cloned.array_value_type,
        class_type: None,
    };
    proof {
        assert(guess_wf(r));
        if spec_guess_ready(*guess) && ((!spec_only_class(*guess) && !guess.is_any)
            || guess.is_any) {
            assert(spec_guess_ready(cloned));
            if !r.is_any {
                assert(r.kind.entries@.len() > 0);
                assert(spec_weight_sum(r.kind.entries@) == crate::rng::WEIGHT_ONE as int
                    || r.kind.entries@.len() == 1);
            }
            assert(spec_guess_ready(r));
        }
    }
    r
}
} // verus!