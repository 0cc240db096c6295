//! The primary input: a linear API-call sequence whose arguments may reuse
//! the outputs of earlier calls.
//!
//! The validity invariant (`seq_wf`): every `Output` argument names a call
//! strictly earlier in the sequence, no argument is `Missing`, and call ids
//! are unique. `create`, `complete` and every mutation keep it.

use vstd::prelude::*;

use crate::rng::rand_wf;
use crate::rng::spec_rand_value;
use crate::rng::Rand;
use crate::schema::clone_type;
use crate::schema::sample_constant;
use crate::schema::spec_kind_has;
use crate::schema::spec_schema_has;
use crate::schema::schema_ready;
use crate::schema::schema_wf;
use crate::schema::type_eq_spec;
use crate::schema::CallConvention;
use crate::schema::EndpointName;
use crate::schema::Schema;
use crate::schema::SignatureGuess;
use crate::schema::Type;
use crate::schema::TypeGuess;
use crate::schema::TypeKind;
use crate::RailcarError;
use crate::MAX_SEQ_LEN;

verus! {

/// Opaque identifier of a call within a sequence.
pub type CallId = u64;

/// How many work items one completion pass will process before it falls back
/// to filling the rest with constants. Keeps completion terminating on
/// schemas whose constructors endlessly demand further constructions.
pub const SEQ_COMPLETION_BUDGET: usize = 512;

/// One argument of a call: an earlier call's output, a constant type
/// template (the worker materializes a value for it), or a hole.
#[derive(Debug)]
pub enum ApiCallArg {
    Output(CallId),
    Constant(Type),
    Missing,
}

/// One call of the sequence.
#[derive(Debug)]
pub struct ApiCall {
    pub id: CallId,
    pub name: EndpointName,
    pub args: Vec<ApiCallArg>,
    pub conv: CallConvention,
}

/// The sequence input: an auxiliary fuzz byte blob plus the calls.
#[derive(Debug)]
pub struct ApiSeq {
    pub fuzz: Vec<u8>,
    pub seq: Vec<ApiCall>,
}

/// Some call among the first `k` has this id.
pub open spec fn spec_id_before(s: Seq<ApiCall>, k: int, id: CallId) -> bool {
    exists|j: int| 0 <= j < k && (#[trigger] s[j]).id == id
}

/// Some call has this id.
pub open spec fn spec_has_id(s: Seq<ApiCall>, id: CallId) -> bool {
    spec_id_before(s, s.len() as int, id)
}

/// No id is repeated.
pub open spec fn spec_ids_unique(s: Seq<ApiCall>) -> bool {
    forall|i: int, j: int| 0 <= i < j < s.len() ==> (#[trigger] s[i]).id != (#[trigger] s[j]).id
}

/// An argument standing at call `k` is sound: an output reference points to
/// an earlier call. `Missing` is allowed here; `seq_wf` excludes it.
pub open spec fn spec_arg_refs_ok(s: Seq<ApiCall>, k: int, a: ApiCallArg) -> bool {
    match a {
        ApiCallArg::Output(id) => spec_id_before(s, k, id),
        ApiCallArg::Constant(_) => true,
        ApiCallArg::Missing => true,
    }
}

/// All output references point strictly backwards.
pub open spec fn spec_refs_ok(s: Seq<ApiCall>) -> bool {
    forall|k: int, t: int|
        0 <= k < s.len() && 0 <= t < s[k].args@.len() ==> spec_arg_refs_ok(
            s,
            k,
            #[trigger] s[k].args@[t],
        )
}

/// A call with no holes.
pub open spec fn spec_call_complete(c: ApiCall) -> bool {
    forall|t: int| 0 <= t < c.args@.len() ==> !((#[trigger] c.args@[t]) is Missing)
}

/// No call has a hole.
pub open spec fn spec_no_missing(s: Seq<ApiCall>) -> bool {
    forall|k: int| 0 <= k < s.len() ==> spec_call_complete(#[trigger] s[k])
}

/// A sequence mid-edit: references backwards and ids unique, holes allowed.
pub open spec fn seq_pre_wf(s: Seq<ApiCall>) -> bool {
    spec_ids_unique(s) && spec_refs_ok(s)
}

/// The full validity invariant of a sequence.
pub open spec fn seq_wf(s: Seq<ApiCall>) -> bool {
    seq_pre_wf(s) && spec_no_missing(s)
}

/// Every call's endpoint name is in the schema.
pub open spec fn spec_names_known(s: Seq<ApiCall>, schema: Schema) -> bool {
    forall|k: int| 0 <= k < s.len() ==> spec_schema_has(schema, (#[trigger] s[k]).name@)
}

/// The call's shape follows a schema entry of its name: its argument count
/// and calling convention are that entry's.
pub open spec fn spec_call_matches(schema: Schema, c: ApiCall) -> bool {
    exists|e: int|
        0 <= e < schema.entries@.len() && (#[trigger] schema.entries@[e]).0@ == c.name@
            && c.args@.len() == schema.entries@[e].1.args@.len() && c.conv
            == schema.entries@[e].1.callconv
}

/// Every call's shape follows a schema entry of its name.
pub open spec fn spec_calls_match(s: Seq<ApiCall>, schema: Schema) -> bool {
    forall|k: int| 0 <= k < s.len() ==> spec_call_matches(schema, #[trigger] s[k])
}

/// An edit that keeps every call's name, convention and argument count
/// keeps the schema fit.
pub proof fn lemma_calls_match_shape(schema: Schema, pres: Seq<ApiCall>, now: Seq<ApiCall>)
    requires
        now.len() == pres.len(),
        forall|j: int|
            0 <= j < now.len() ==> (#[trigger] now[j]).name@ == pres[j].name@ && now[j].conv
                == pres[j].conv && now[j].args@.len() == pres[j].args@.len(),
        spec_calls_match(pres, schema),
    ensures
        spec_calls_match(now, schema),
{
    assert forall|k: int| 0 <= k < now.len() implies spec_call_matches(schema, #[trigger] now[k]) by {
        assert(spec_call_matches(schema, pres[k]));
        let e = choose|e: int|
            0 <= e < schema.entries@.len() && (#[trigger] schema.entries@[e]).0@ == pres[k].name@
                && pres[k].args@.len() == schema.entries@[e].1.args@.len() && pres[k].conv
                == schema.entries@[e].1.callconv;
        assert(schema.entries@[e].0@ == now[k].name@);
    }
}

/// Inserting a call that fits the schema keeps the schema fit.
pub proof fn lemma_calls_match_insert(
    schema: Schema,
    pres: Seq<ApiCall>,
    now: Seq<ApiCall>,
    m: int,
    c: ApiCall,
)
    requires
        0 <= m <= pres.len(),
        now.len() == pres.len() + 1,
        forall|j: int| 0 <= j < m ==> #[trigger] now[j] == pres[j],
        forall|j: int| m < j < now.len() ==> #[trigger] now[j] == pres[j - 1],
        now[m] == c,
        spec_calls_match(pres, schema),
        spec_call_matches(schema, c),
    ensures
        spec_calls_match(now, schema),
{
    assert forall|k: int| 0 <= k < now.len() implies spec_call_matches(schema, #[trigger] now[k]) by {
        if k < m {
            assert(now[k] == pres[k]);
        } else if k > m {
            assert(now[k] == pres[k - 1]);
        }
    }
}

/// Equality of two arguments at the level of their contents, with output
/// references compared by the producer's position in its own sequence.
pub open spec fn arg_eq_at(a: Seq<ApiCall>, b: Seq<ApiCall>, x: ApiCallArg, y: ApiCallArg) -> bool {
    match (x, y) {
        (ApiCallArg::Missing, ApiCallArg::Missing) => true,
        (ApiCallArg::Constant(ta), ApiCallArg::Constant(tb)) => type_eq_spec(ta, tb),
        (ApiCallArg::Output(ia), ApiCallArg::Output(ib)) => spec_index_of(a, ia) == spec_index_of(
            b,
            ib,
        ),
        _ => false,
    }
}

/// Position of the first call with this id, if any.
pub open spec fn spec_index_of(s: Seq<ApiCall>, id: CallId) -> Option<int>
    decreases s.len(),
{
    if s.len() == 0 {
        Option::None
    } else if s[0].id == id {
        Option::Some(0)
    } else {
        match spec_index_of(s.drop_first(), id) {
            Option::Some(p) => Option::Some(p + 1),
            Option::None => Option::None,
        }
    }
}

/// Sequence equality as the tests use it: equal fuzz bytes, and call by
/// call the same name and positionally equal arguments. Ids themselves are
/// opaque and do not matter.
pub open spec fn api_seq_eq_spec(a: ApiSeq, b: ApiSeq) -> bool {
    &&& a.fuzz@ == b.fuzz@
    &&& a.seq@.len() == b.seq@.len()
    &&& forall|k: int|
        0 <= k < a.seq@.len() ==> (#[trigger] a.seq@[k]).name@ == b.seq@[k].name@
            && a.seq@[k].conv == b.seq@[k].conv && a.seq@[k].args@.len() == b.seq@[k].args@.len()
    &&& forall|k: int, t: int|
        0 <= k < a.seq@.len() && 0 <= t < a.seq@[k].args@.len() ==> arg_eq_at(
            a.seq@,
            b.seq@,
            #[trigger] a.seq@[k].args@[t],
            b.seq@[k].args@[t],
        )
}

/// Deep copy of an argument.
pub fn clone_arg(a: &ApiCallArg) -> (r: ApiCallArg)
    ensures
        r is Output <==> *a is Output,
        r is Missing <==> *a is Missing,
        r is Constant <==> *a is Constant,
        *a is Output ==> r->Output_0 == a->Output_0,
        *a is Constant ==> type_eq_spec(r->Constant_0, a->Constant_0) && type_eq_spec(
            a->Constant_0,
            r->Constant_0,
        ),
{
    match a {
        ApiCallArg::Output(id) => ApiCallArg::Output(*id),
        ApiCallArg::Constant(t) => ApiCallArg::Constant(clone_type(t)),
        ApiCallArg::Missing => ApiCallArg::Missing,
    }
}

/// Equality of calls at the level of their contents (ids included).
pub open spec fn call_like(a: ApiCall, b: ApiCall) -> bool {
    &&& a.id == b.id
    &&& a.name@ == b.name@
    &&& a.conv == b.conv
    &&& a.args@.len() == b.args@.len()
    &&& forall|t: int|
        0 <= t < a.args@.len() ==> {
            let x = #[trigger] a.args@[t];
            let y = b.args@[t];
            match (x, y) {
                (ApiCallArg::Missing, ApiCallArg::Missing) => true,
                (ApiCallArg::Constant(ta), ApiCallArg::Constant(tb)) => type_eq_spec(ta, tb)
                    && type_eq_spec(tb, ta),
                (ApiCallArg::Output(ia), ApiCallArg::Output(ib)) => ia == ib,
                _ => false,
            }
        }
}

/// Deep copy of a call.
pub fn clone_call(c: &ApiCall) -> (r: ApiCall)
    ensures
        call_like(r, *c),
        call_like(*c, r),
{
    let n = c.args.len();
    let mut args: Vec<ApiCallArg> = Vec::new();
    let mut t: usize = 0;
    while t < n
        invariant
            n == c.args@.len(),
            t <= n,
            args@.len() == t,
            forall|j: int|
                0 <= j < t ==> {
                    let x = #[trigger] args@[j];
                    let y = c.args@[j];
                    match (x, y) {
                        (ApiCallArg::Missing, ApiCallArg::Missing) => true,
                        (ApiCallArg::Constant(ta), ApiCallArg::Constant(tb)) => type_eq_spec(
                            ta,
                            tb,
                        ) && type_eq_spec(tb, ta),
                        (ApiCallArg::Output(ia), ApiCallArg::Output(ib)) => ia == ib,
                        _ => false,
                    }
                },
        decreases n - t,
    {
        args.push(clone_arg(&c.args[t]));
        t = t + 1;
    }
    ApiCall { id: c.id, name: c.name.clone(), args, conv: c.conv }
}

/// Equality of whole sequences at the level of their contents (ids
/// included); stronger than `api_seq_eq_spec`.
pub open spec fn api_seq_like(a: ApiSeq, b: ApiSeq) -> bool {
    &&& a.fuzz@ == b.fuzz@
    &&& a.seq@.len() == b.seq@.len()
    &&& forall|k: int| 0 <= k < a.seq@.len() ==> call_like(#[trigger] a.seq@[k], b.seq@[k])
}

impl Clone for ApiSeq {
    fn clone(&self) -> (r: ApiSeq)
        ensures
            api_seq_like(r, *self),
            api_seq_like(*self, r),
    {
        let n = self.seq.len();
        let mut seq: Vec<ApiCall> = Vec::new();
        let mut k: usize = 0;
        while k < n
            invariant
                n == self.seq@.len(),
                k <= n,
                seq@.len() == k,
                forall|j: int|
                    0 <= j < k ==> call_like(#[trigger] seq@[j], self.seq@[j]) && call_like(
                        self.seq@[j],
                        seq@[j],
                    ),
            decreases n - k,
        {
            seq.push(clone_call(&self.seq[k]));
            k = k + 1;
        }
        let mut fuzz: Vec<u8> = Vec::new();
        let m = self.fuzz.len();
        let mut i: usize = 0;
        while i < m
            invariant
                m == self.fuzz@.len(),
                i <= m,
                fuzz@.len() == i,
                forall|j: int| 0 <= j < i ==> fuzz@[j] == self.fuzz@[j],
            decreases m - i,
        {
            fuzz.push(self.fuzz[i]);
            i = i + 1;
        }
        proof {
            assert(fuzz@ =~= self.fuzz@);
        }
        ApiSeq { fuzz, seq }
    }
}

impl ApiSeq {
    /// The calls.
    pub fn seq(&self) -> (r: &Vec<ApiCall>)
        ensures
            r == &self.seq,
    {
        &self.seq
    }

    /// The calls, mutably. The caller answers for the invariant afterwards.
    pub fn seq_mut(&mut self) -> (r: &mut Vec<ApiCall>)
        ensures
            *r == old(self).seq,
            final(self).seq == *final(r),
            final(self).fuzz@ == old(self).fuzz@,
    {
        &mut self.seq
    }

    /// Number of calls.
    pub fn seq_len(&self) -> (r: usize)
        ensures
            r == self.seq@.len(),
    {
        self.seq.len()
    }

    /// The auxiliary fuzz bytes.
    pub fn bytes(&self) -> (r: &Vec<u8>)
        ensures
            r == &self.fuzz,
    {
        &self.fuzz
    }

    /// Position of the call with this id, if any.
    pub fn index_of(&self, id: CallId) -> (r: Option<usize>)
        ensures
            match r {
                Option::Some(p) => p < self.seq@.len() && self.seq@[p as int].id == id && forall|
                    j: int,
                |
                    0 <= j < p ==> (#[trigger] self.seq@[j]).id != id,
                Option::None => forall|j: int|
                    0 <= j < self.seq@.len() ==> (#[trigger] self.seq@[j]).id != id,
            },
    {
        let n = self.seq.len();
        let mut k: usize = 0;
        while k < n
            invariant
                n == self.seq@.len(),
                k <= n,
                forall|j: int| 0 <= j < k ==> (#[trigger] self.seq@[j]).id != id,
            decreases n - k,
        {
            if self.seq[k].id == id {
                return Some(k);
            }
            k = k + 1;
        }
        None
    }

    /// A call id not yet in use: one past the largest, when that leaves
    /// room.
    fn next_fresh_id(&self) -> (r: Option<CallId>)
        ensures
            match r {
                Option::Some(id) => (forall|j: int|
                    0 <= j < self.seq@.len() ==> (#[trigger] self.seq@[j]).id < id) && ((
                self.seq@.len() == 0 && id == 1) || exists|j: int|
                    0 <= j < self.seq@.len() && (#[trigger] self.seq@[j]).id + 1 == id),
                Option::None => spec_has_id(self.seq@, u64::MAX),
            },
    {
        let n = self.seq.len();
        let mut max: u64 = 0;
        let mut k: usize = 0;
        while k < n
            invariant
                n == self.seq@.len(),
                k <= n,
                forall|j: int| 0 <= j < k ==> (#[trigger] self.seq@[j]).id <= max,
                k == 0 ==> max == 0,
                k > 0 ==> max == 0 || exists|j: int|
                    0 <= j < k && (#[trigger] self.seq@[j]).id == max,
                k > 0 && max == 0 ==> self.seq@[0].id == 0 || exists|j: int|
                    0 <= j < k && (#[trigger] self.seq@[j]).id == max,
            decreases n - k,
        {
            let id = self.seq[k].id;
            if id > max {
                max = id;
            } else {
                if id == max {
                    proof {
                        assert(self.seq@[k as int].id == max);
                    }
                }
            }
            k = k + 1;
        }
        proof {
            if n > 0 {
                if max == 0 {
                    assert(self.seq@[0].id <= max);
                    assert(self.seq@[0].id == max);
                }
            }
        }
        if max == u64::MAX {
            None
        } else {
            Some(max + 1)
        }
    }

    /// Whether the sequence satisfies the validity invariant: every output
    /// reference points to an earlier call, no argument is a hole, and ids
    /// are unique.
    pub fn is_valid(&self) -> (r: bool)
        ensures
            r == seq_wf(self.seq@),
    {
        let n = self.seq.len();
        let mut k: usize = 0;
        while k < n
            invariant
                n == self.seq@.len(),
                k <= n,
                forall|i: int, j: int|
                    0 <= i < j < k ==> (#[trigger] self.seq@[i]).id != (#[trigger] self.seq@[j]).id,
                forall|k2: int, t: int|
                    0 <= k2 < k && 0 <= t < self.seq@[k2].args@.len() ==> spec_arg_refs_ok(
                        self.seq@,
                        k2,
                        #[trigger] self.seq@[k2].args@[t],
                    ) && !((#[trigger] self.seq@[k2].args@[t]) is Missing),
            decreases n - k,
        {
            // ids unique so far
            let mut j: usize = 0;
            while j < k
                invariant
                    n == self.seq@.len(),
                    k < n,
                    j <= k,
                    forall|i: int| 0 <= i < j ==> (#[trigger] self.seq@[i]).id != self.seq@[
                    k as int].id,
                decreases k - j,
            {
                if self.seq[j].id == self.seq[k].id {
                    proof {
                        assert(!spec_ids_unique(self.seq@));
                    }
                    return false;
                }
                j = j + 1;
            }
            // arguments of call k
            let argc = self.seq[k].args.len();
            let mut t: usize = 0;
            while t < argc
                invariant
                    n == self.seq@.len(),
                    k < n,
                    argc == self.seq@[k as int].args@.len(),
                    t <= argc,
                    forall|t2: int|
                        0 <= t2 < t ==> spec_arg_refs_ok(
                            self.seq@,
                            k as int,
                            #[trigger] self.seq@[k as int].args@[t2],
                        ) && !((#[trigger] self.seq@[k as int].args@[t2]) is Missing),
                decreases argc - t,
            {
                let bad: bool = match &self.seq[k].args[t] {
                    ApiCallArg::Constant(_) => false,
                    ApiCallArg::Missing => true,
                    ApiCallArg::Output(out) => {
                        let out = *out;
                        let mut j2: usize = 0;
                        let mut found: bool = false;
                        while j2 < k && !found
                            invariant
                                n == self.seq@.len(),
                                k < n,
                                j2 <= k,
                                found ==> j2 < k && self.seq@[j2 as int].id == out,
                                !found ==> forall|i: int|
                                    0 <= i < j2 ==> (#[trigger] self.seq@[i]).id != out,
                            decreases k - j2, (if found { 0int } else { 1int }),
                        {
                            if self.seq[j2].id == out {
                                found = true;
                            } else {
                                j2 = j2 + 1;
                            }
                        }
                        !found
                    },
                };
                if bad {
                    proof {
                        assert(!seq_wf(self.seq@));
                    }
                    return false;
                }
                t = t + 1;
            }
            k = k + 1;
        }
        true
    }
}


/// A call whose arguments are all holes.
pub open spec fn spec_fresh_call(c: ApiCall, argc: int) -> bool {
    c.args@.len() == argc && forall|t: int| 0 <= t < argc ==> (#[trigger] c.args@[t]) is Missing
}

/// Inserting a call with an unused id and no output references keeps the
/// invariant.
proof fn lemma_insert_keeps_pre_wf(s: Seq<ApiCall>, k: int, c: ApiCall)
    requires
        seq_pre_wf(s),
        0 <= k <= s.len(),
        !spec_has_id(s, c.id),
        forall|t: int| 0 <= t < c.args@.len() ==> !((#[trigger] c.args@[t]) is Output),
    ensures
        seq_pre_wf(s.insert(k, c)),
{
    let s2 = s.insert(k, c);
    assert forall|i: int, j: int| 0 <= i < j < s2.len() implies (#[trigger] s2[i]).id != (
    #[trigger] s2[j]).id by {
        let oi: int = if i < k { i } else { i - 1 };
        let oj: int = if j < k { j } else { j - 1 };
        if i == k {
            assert(s2[j] == s[oj]);
        } else if j == k {
            assert(s2[i] == s[oi]);
        } else {
            assert(s2[i] == s[oi] && s2[j] == s[oj]);
        }
    }
    assert forall|k2: int, t: int|
        0 <= k2 < s2.len() && 0 <= t < s2[k2].args@.len() implies spec_arg_refs_ok(
        s2,
        k2,
        #[trigger] s2[k2].args@[t],
    ) by {
        if k2 != k {
            let ok2: int = if k2 < k { k2 } else { k2 - 1 };
            assert(s2[k2] == s[ok2]);
            match s[ok2].args@[t] {
                ApiCallArg::Output(id) => {
                    let j = choose|j: int| 0 <= j < ok2 && (#[trigger] s[j]).id == id;
                    let nj: int = if j < k { j } else { j + 1 };
                    assert(s2[nj] == s[j]);
                    assert(nj < k2);
                },
                _ => {},
            }
        }
    }
}

impl ApiSeq {
    /// Overwrite one argument of one call.
    fn set_arg(&mut self, k: usize, t: usize, a: ApiCallArg)
        requires
            k < old(self).seq@.len(),
            t < old(self).seq@[k as int].args@.len(),
        ensures
            final(self).fuzz@ == old(self).fuzz@,
            final(self).seq@.len() == old(self).seq@.len(),
            final(self).seq@[k as int].args@ == old(self).seq@[k as int].args@.update(t as int, a),
            final(self).seq@[k as int].id == old(self).seq@[k as int].id,
            final(self).seq@[k as int].name == old(self).seq@[k as int].name,
            final(self).seq@[k as int].conv == old(self).seq@[k as int].conv,
            forall|j: int|
                0 <= j < old(self).seq@.len() && j != k ==> final(self).seq@[j] == old(
                    self,
                ).seq@[j],
    {
        let mut call = self.seq.remove(k);
        call.args.set(t, a);
        self.seq.insert(k, call);
        proof {
            assert(self.seq@ =~= old(self).seq@.update(
                k as int,
                ApiCall {
                    id: old(self).seq@[k as int].id,
                    name: old(self).seq@[k as int].name,
                    args: self.seq@[k as int].args,
                    conv: old(self).seq@[k as int].conv,
                },
            ));
        }
    }

    /// Add a fresh, unfulfilled call at the end: `argc` holes, a new id. When
    /// the id space is spent, nothing changes and `None` comes back.
    pub fn append(&mut self, name: EndpointName, argc: usize, conv: CallConvention) -> (r: Option<
        CallId,
    >)
        requires
            seq_pre_wf(old(self).seq@),
        ensures
            final(self).fuzz@ == old(self).fuzz@,
            seq_pre_wf(final(self).seq@),
            match r {
                Option::Some(id) => {
                    &&& final(self).seq@.len() == old(self).seq@.len() + 1
                    &&& forall|j: int|
                        0 <= j < old(self).seq@.len() ==> final(self).seq@[j] == old(self).seq@[j]
                    &&& final(self).seq@.last().id == id
                    &&& final(self).seq@.last().name == name
                    &&& final(self).seq@.last().conv == conv
                    &&& spec_fresh_call(final(self).seq@.last(), argc as int)
                    &&& !spec_has_id(old(self).seq@, id)
                },
                Option::None => *final(self) == *old(self) && spec_has_id(
                    old(self).seq@,
                    u64::MAX,
                ),
            },
    {
        let id = match self.next_fresh_id() {
            Some(id) => id,
            None => {
                return None;
            },
        };
        let mut args: Vec<ApiCallArg> = Vec::new();
        let mut t: usize = 0;
        while t < argc
            invariant
                t <= argc,
                args@.len() == t,
                forall|j: int| 0 <= j < t ==> (#[trigger] args@[j]) is Missing,
            decreases argc - t,
        {
            args.push(ApiCallArg::Missing);
            t = t + 1;
        }
        let call = ApiCall { id, name, args, conv };
        proof {
            lemma_insert_keeps_pre_wf(self.seq@, self.seq@.len() as int, call);
            assert(self.seq@.insert(self.seq@.len() as int, call) =~= self.seq@.push(call));
        }
        self.seq.push(call);
        Some(id)
    }

    /// Remove the call at `index`; later references to its output become
    /// holes.
    pub fn remove(&mut self, index: usize)
        requires
            seq_pre_wf(old(self).seq@),
            index < old(self).seq@.len(),
        ensures
            final(self).fuzz@ == old(self).fuzz@,
            seq_pre_wf(final(self).seq@),
            final(self).seq@.len() == old(self).seq@.len() - 1,
            forall|j: int| 0 <= j < index ==> final(self).seq@[j] == old(self).seq@[j],
            forall|j: int|
                index <= j < final(self).seq@.len() ==> spec_call_without_ref(
                    #[trigger] final(self).seq@[j],
                    old(self).seq@[j + 1],
                    old(self).seq@[index as int].id,
                ),
    {
        let removed_id: CallId = self.seq[index].id;
        let ghost pre = self.seq@;
        let removed = self.seq.remove(index);
        proof {
            assert forall|i: int, j: int|
                0 <= i < j < self.seq@.len() implies (#[trigger] self.seq@[i]).id != (
            #[trigger] self.seq@[j]).id by {
                let oi: int = if i < index { i } else { i + 1 };
                let oj: int = if j < index { j } else { j + 1 };
                assert(self.seq@[i] == pre[oi] && self.seq@[j] == pre[oj]);
            }
        }
        let n = self.seq.len();
        let mut k: usize = index;
        while k < n
            invariant
                n == self.seq@.len(),
                n == pre.len() - 1,
                index <= k <= n,
                spec_ids_unique(self.seq@),
                self.fuzz@ == old(self).fuzz@,
                forall|j: int| 0 <= j < index ==> self.seq@[j] == pre[j],
                forall|j: int|
                    index <= j < k ==> spec_call_without_ref(
                        #[trigger] self.seq@[j],
                        pre[j + 1],
                        removed_id,
                    ),
                forall|j: int| k <= j < n ==> self.seq@[j] == pre[j + 1],
                pre == old(self).seq@,
                removed_id == old(self).seq@[index as int].id,
            decreases n - k,
        {
            let argc = self.seq[k].args.len();
            let mut t: usize = 0;
            while t < argc
                invariant
                    n == self.seq@.len(),
                    n == pre.len() - 1,
                    index <= k < n,
                    argc == self.seq@[k as int].args@.len(),
                    t <= argc,
                    spec_ids_unique(self.seq@),
                    self.fuzz@ == old(self).fuzz@,
                    forall|j: int| 0 <= j < index ==> self.seq@[j] == pre[j],
                    forall|j: int|
                        index <= j < k ==> spec_call_without_ref(
                            #[trigger] self.seq@[j],
                            pre[j + 1],
                            removed_id,
                        ),
                    forall|j: int| k < j < n ==> self.seq@[j] == pre[j + 1],
                    self.seq@[k as int].id == pre[k + 1].id,
                    self.seq@[k as int].name == pre[k + 1].name,
                    self.seq@[k as int].conv == pre[k + 1].conv,
                    argc == pre[k + 1].args@.len(),
                    forall|t2: int|
                        0 <= t2 < t ==> spec_arg_without_ref(
                            #[trigger] self.seq@[k as int].args@[t2],
                            pre[k + 1].args@[t2],
                            removed_id,
                        ),
                    forall|t2: int|
                        t <= t2 < argc ==> #[trigger] self.seq@[k as int].args@[t2] == pre[k
                            + 1].args@[t2],
                decreases argc - t,
            {
                let is_removed_ref: bool = match &self.seq[k].args[t] {
                    ApiCallArg::Output(out) => *out == removed_id,
                    _ => false,
                };
                if is_removed_ref {
                    self.set_arg(k, t, ApiCallArg::Missing);
                }
                t = t + 1;
            }
            k = k + 1;
        }
        proof {
            assert forall|k2: int, t2: int|
                0 <= k2 < self.seq@.len() && 0 <= t2 < self.seq@[k2].args@.len() implies
                spec_arg_refs_ok(self.seq@, k2, #[trigger] self.seq@[k2].args@[t2]) by {
                let a = self.seq@[k2].args@[t2];
                match a {
                    ApiCallArg::Output(out) => {
                        let ok2: int = if k2 < index { k2 } else { k2 + 1 };
                        assert(pre[ok2].args@[t2] == a || spec_call_without_ref(
                            self.seq@[k2],
                            pre[ok2],
                            removed_id,
                        ));
                        assert(pre[ok2].args@[t2] is Output && pre[ok2].args@[t2]->Output_0
                            == out);
                        assert(out != removed_id);
                        let j = choose|j: int| 0 <= j < ok2 && (#[trigger] pre[j]).id == out;
                        assert(j != index);
                        let nj: int = if j < index { j } else { j - 1 };
                        assert(self.seq@[nj].id == pre[j].id || spec_call_without_ref(
                            self.seq@[nj],
                            pre[j],
                            removed_id,
                        ));
                        assert(self.seq@[nj].id == out);
                        assert(nj < k2);
                    },
                    _ => {},
                }
            }
        }
    }

    /// Turn every reference to the first call's output into a hole. The
    /// first call itself stays; a completion pass follows this in the
    /// mutation that uses it.
    pub fn shift(&mut self)
        requires
            seq_pre_wf(old(self).seq@),
            old(self).seq@.len() >= 1,
        ensures
            final(self).fuzz@ == old(self).fuzz@,
            seq_pre_wf(final(self).seq@),
            final(self).seq@.len() == old(self).seq@.len(),
            forall|j: int|
                0 <= j < final(self).seq@.len() ==> spec_call_without_ref(
                    #[trigger] final(self).seq@[j],
                    old(self).seq@[j],
                    old(self).seq@[0].id,
                ),
    {
        let first_id: CallId = self.seq[0].id;
        let ghost pre = self.seq@;
        let n = self.seq.len();
        let mut k: usize = 0;
        while k < n
            invariant
                n == self.seq@.len(),
                n == pre.len(),
                k <= n,
                spec_ids_unique(self.seq@),
                self.fuzz@ == old(self).fuzz@,
                forall|j: int|
                    0 <= j < k ==> spec_call_without_ref(
                        #[trigger] self.seq@[j],
                        pre[j],
                        first_id,
                    ),
                forall|j: int| k <= j < n ==> self.seq@[j] == pre[j],
                pre == old(self).seq@,
                n >= 1,
                first_id == old(self).seq@[0].id,
            decreases n - k,
        {
            let argc = self.seq[k].args.len();
            let mut t: usize = 0;
            while t < argc
                invariant
                    n == self.seq@.len(),
                    n == pre.len(),
                    k < n,
                    argc == self.seq@[k as int].args@.len(),
                    t <= argc,
                    spec_ids_unique(self.seq@),
                    self.fuzz@ == old(self).fuzz@,
                    forall|j: int|
                        0 <= j < k ==> spec_call_without_ref(
                            #[trigger] self.seq@[j],
                            pre[j],
                            first_id,
                        ),
                    forall|j: int| k < j < n ==> self.seq@[j] == pre[j],
                    self.seq@[k as int].id == pre[k as int].id,
                    self.seq@[k as int].name == pre[k as int].name,
                    self.seq@[k as int].conv == pre[k as int].conv,
                    argc == pre[k as int].args@.len(),
                    forall|t2: int|
                        0 <= t2 < t ==> spec_arg_without_ref(
                            #[trigger] self.seq@[k as int].args@[t2],
                            pre[k as int].args@[t2],
                            first_id,
                        ),
                    forall|t2: int|
                        t <= t2 < argc ==> #[trigger] self.seq@[k as int].args@[t2]
                            == pre[k as int].args@[t2],
                decreases argc - t,
            {
                let is_first_ref: bool = match &self.seq[k].args[t] {
                    ApiCallArg::Output(out) => *out == first_id,
                    _ => false,
                };
                if is_first_ref {
                    self.set_arg(k, t, ApiCallArg::Missing);
                }
                t = t + 1;
            }
            k = k + 1;
        }
        proof {
            assert forall|k2: int, t2: int|
                0 <= k2 < self.seq@.len() && 0 <= t2 < self.seq@[k2].args@.len() implies
                spec_arg_refs_ok(self.seq@, k2, #[trigger] self.seq@[k2].args@[t2]) by {
                let a = self.seq@[k2].args@[t2];
                match a {
                    ApiCallArg::Output(out) => {
                        assert(pre[k2].args@[t2] is Output && pre[k2].args@[t2]->Output_0 == out);
                        let j = choose|j: int| 0 <= j < k2 && (#[trigger] pre[j]).id == out;
                        assert(self.seq@[j].id == out);
                    },
                    _ => {},
                }
            }
        }
    }
}

/// `new` is `old` with every reference to `id` replaced by a hole, all else
/// untouched.
pub open spec fn spec_call_without_ref(new: ApiCall, old_c: ApiCall, id: CallId) -> bool {
    &&& new.id == old_c.id
    &&& new.name == old_c.name
    &&& new.conv == old_c.conv
    &&& new.args@.len() == old_c.args@.len()
    &&& forall|t: int|
        0 <= t < new.args@.len() ==> spec_arg_without_ref(
            #[trigger] new.args@[t],
            old_c.args@[t],
            id,
        )
}

/// `new` is `old` with a reference to `id` replaced by a hole.
pub open spec fn spec_arg_without_ref(new: ApiCallArg, old_a: ApiCallArg, id: CallId) -> bool {
    if old_a is Output && old_a->Output_0 == id {
        new is Missing
    } else {
        new == old_a
    }
}

/// What the first-match position means.
pub proof fn lemma_index_of_first_match(s: Seq<ApiCall>, j: int, id: CallId)
    requires
        0 <= j < s.len(),
        s[j].id == id,
        forall|i: int| 0 <= i < j ==> (#[trigger] s[i]).id != id,
    ensures
        spec_index_of(s, id) == Option::Some(j),
    decreases j,
{
    if j > 0 {
        assert(s[0].id != id);
        assert(s.drop_first()[j - 1].id == id);
        assert forall|i: int| 0 <= i < j - 1 implies (#[trigger] s.drop_first()[i]).id != id by {
            assert(s.drop_first()[i] == s[i + 1]);
        }
        lemma_index_of_first_match(s.drop_first(), j - 1, id);
    }
}

/// A found position is in range and carries the id.
pub proof fn lemma_index_of_props(s: Seq<ApiCall>, id: CallId)
    requires
        spec_index_of(s, id) is Some,
    ensures
        0 <= spec_index_of(s, id)->0 < s.len(),
        s[spec_index_of(s, id)->0].id == id,
    decreases s.len(),
{
    if s.len() > 0 && s[0].id != id {
        lemma_index_of_props(s.drop_first(), id);
    }
}

/// A present id is found by the first-match position.
pub proof fn lemma_index_of_some_of_has(s: Seq<ApiCall>, id: CallId)
    requires
        spec_has_id(s, id),
    ensures
        spec_index_of(s, id) is Some,
    decreases s.len(),
{
    if s.len() > 0 && s[0].id != id {
        let j = choose|j: int| 0 <= j < s.len() && (#[trigger] s[j]).id == id;
        assert(s.drop_first()[j - 1].id == id);
        lemma_index_of_some_of_has(s.drop_first(), id);
    }
}

/// The new ids are `base + position`, and a nonzero base lies above every
/// old id, so the new ids are all fresh.
pub open spec fn spec_renumbered_from(news: Seq<ApiCall>, olds: Seq<ApiCall>, base: CallId) -> bool {
    &&& forall|k: int| 0 <= k < news.len() ==> (#[trigger] news[k]).id == base + k
    &&& (base == 0 || forall|j: int| 0 <= j < olds.len() ==> (#[trigger] olds[j]).id < base)
}

/// An argument after renumbering: a reference is replaced by the new id of
/// its producer (the base plus the producer's position in the old
/// sequence), everything else is untouched.
pub open spec fn spec_renumbered_arg(
    new_a: ApiCallArg,
    old_a: ApiCallArg,
    olds: Seq<ApiCall>,
    base: CallId,
) -> bool {
    match old_a {
        ApiCallArg::Output(id) => match spec_index_of(olds, id) {
            Option::Some(p) => new_a == ApiCallArg::Output((base + p) as CallId),
            Option::None => new_a is Missing,
        },
        _ => new_a == old_a,
    }
}

impl ApiSeq {
    /// Renumber every call id and rewrite every output reference
    /// consistently; used to avoid id collisions when two sequences are
    /// merged. Whenever the id space leaves room past the largest old id,
    /// the new ids are all fresh. The sequence is unchanged up to ids.
    pub fn generate_fresh_ids(&mut self)
        requires
            seq_pre_wf(old(self).seq@),
        ensures
            final(self).fuzz@ == old(self).fuzz@,
            seq_pre_wf(final(self).seq@),
            final(self).seq@.len() == old(self).seq@.len(),
            exists|base: CallId|
                {
                    &&& #[trigger] spec_renumbered_from(final(self).seq@, old(self).seq@, base)
                    &&& forall|k: int, t: int|
                        0 <= k < final(self).seq@.len() && 0 <= t
                            < final(self).seq@[k].args@.len() ==> spec_renumbered_arg(
                            #[trigger] final(self).seq@[k].args@[t],
                            old(self).seq@[k].args@[t],
                            old(self).seq@,
                            base,
                        )
                },
            (forall|j: int|
                0 <= j < old(self).seq@.len() ==> (#[trigger] old(self).seq@[j]).id + old(
                    self,
                ).seq@.len() < u64::MAX) ==> forall|k: int, j: int|
                0 <= k < final(self).seq@.len() && 0 <= j < old(self).seq@.len() ==> (
                #[trigger] final(self).seq@[k]).id != (#[trigger] old(self).seq@[j]).id,
            forall|k: int|
                0 <= k < final(self).seq@.len() ==> {
                    let c = #[trigger] final(self).seq@[k];
                    let oc = old(self).seq@[k];
                    &&& c.name == oc.name
                    &&& c.conv == oc.conv
                    &&& c.args@.len() == oc.args@.len()
                },
            spec_no_missing(old(self).seq@) ==> spec_no_missing(final(self).seq@),
    {
        let ghost pre = self.seq@;
        let n = self.seq.len();
        let fresh_opt = self.next_fresh_id();
        let base: CallId = match fresh_opt {
            Some(f) => {
                if n == 0 || f <= u64::MAX - ((n - 1) as u64) {
                    f
                } else {
                    0
                }
            },
            None => 0,
        };
        proof {
            assert(base as int + n as int <= u64::MAX as int + 1);
            assert(base == 0 || forall|j: int|
                0 <= j < pre.len() ==> (#[trigger] pre[j]).id < base);
            // with room above the largest id, the fresh base is taken
            if forall|j: int| 0 <= j < pre.len() ==> (#[trigger] pre[j]).id + pre.len()
                < u64::MAX {
                if n > 0 {
                    match fresh_opt {
                        Option::Some(f) => {
                            let w = choose|j: int|
                                0 <= j < pre.len() && (#[trigger] pre[j]).id + 1 == f;
                            assert(pre[w].id + n < u64::MAX);
                            assert(f <= u64::MAX - ((n - 1) as u64));
                            assert(base == f && base != 0);
                        },
                        Option::None => {
                            let w = choose|j: int|
                                0 <= j < pre.len() && (#[trigger] pre[j]).id == u64::MAX;
                            assert(pre[w].id + pre.len() < u64::MAX);
                            assert(false);
                        },
                    }
                } else {
                    assert(base != 0);
                }
            }
        }
        // snapshot the old ids by position
        let mut ids: Vec<CallId> = Vec::new();
        let mut k: usize = 0;
        while k < n
            invariant
                n == self.seq@.len(),
                k <= n,
                ids@.len() == k,
                *self == *old(self),
                forall|j: int| 0 <= j < k ==> ids@[j] == self.seq@[j].id,
            decreases n - k,
        {
            ids.push(self.seq[k].id);
            k = k + 1;
        }
        // rewrite the references, then the ids
        k = 0;
        while k < n
            invariant
                seq_pre_wf(pre),
                pre == old(self).seq@,
                n == self.seq@.len(),
                n == pre.len(),
                self.fuzz@ == old(self).fuzz@,
                ids@.len() == n,
                forall|j: int| 0 <= j < n ==> ids@[j] == pre[j].id,
                k <= n,
                forall|j: int|
                    0 <= j < n ==> {
                        let c = #[trigger] self.seq@[j];
                        &&& c.id == pre[j].id
                        &&& c.name == pre[j].name
                        &&& c.conv == pre[j].conv
                        &&& c.args@.len() == pre[j].args@.len()
                    },
                base as int + n as int <= u64::MAX as int + 1,
                forall|j: int, t: int|
                    0 <= j < k && 0 <= t < self.seq@[j].args@.len() ==> spec_renumbered_arg(
                        #[trigger] self.seq@[j].args@[t],
                        pre[j].args@[t],
                        pre,
                        base,
                    ),
                forall|j: int| k <= j < n ==> (#[trigger] self.seq@[j]).args@ == pre[j].args@,
            decreases n - k,
        {
            let argc = self.seq[k].args.len();
            let mut t: usize = 0;
            while t < argc
                invariant
                    seq_pre_wf(pre),
                    pre == old(self).seq@,
                    n == self.seq@.len(),
                    n == pre.len(),
                    self.fuzz@ == old(self).fuzz@,
                    ids@.len() == n,
                    forall|j: int| 0 <= j < n ==> ids@[j] == pre[j].id,
                    k < n,
                    argc == self.seq@[k as int].args@.len(),
                    t <= argc,
                    forall|j: int|
                        0 <= j < n ==> {
                            let c = #[trigger] self.seq@[j];
                            &&& c.id == pre[j].id
                            &&& c.name == pre[j].name
                            &&& c.conv == pre[j].conv
                            &&& c.args@.len() == pre[j].args@.len()
                        },
                    base as int + n as int <= u64::MAX as int + 1,
                    forall|j: int, t2: int|
                        0 <= j < k && 0 <= t2 < self.seq@[j].args@.len() ==> spec_renumbered_arg(
                            #[trigger] self.seq@[j].args@[t2],
                            pre[j].args@[t2],
                            pre,
                            base,
                        ),
                    forall|j: int| k < j < n ==> (#[trigger] self.seq@[j]).args@ == pre[j].args@,
                    forall|t2: int|
                        0 <= t2 < t ==> spec_renumbered_arg(
                            #[trigger] self.seq@[k as int].args@[t2],
                            pre[k as int].args@[t2],
                            pre,
                            base,
                        ),
                    forall|t2: int|
                        t <= t2 < argc ==> #[trigger] self.seq@[k as int].args@[t2]
                            == pre[k as int].args@[t2],
                decreases argc - t,
            {
                let out: Option<CallId> = match &self.seq[k].args[t] {
                    ApiCallArg::Output(id) => Some(*id),
                    _ => None,
                };
                match out {
                    Some(oid) => {
                        // find the producer's position among the old ids
                        let mut p: usize = 0;
                        let mut hit: bool = false;
                        while p < n && !hit
                            invariant
                                n == ids@.len(),
                                p <= n,
                                hit ==> p < n && ids@[p as int] == oid,
                                forall|i: int| 0 <= i < p ==> ids@[i] != oid,
                            decreases n - p, (if hit {
                                0int
                            } else {
                                1int
                            }),
                        {
                            if ids[p] == oid {
                                hit = true;
                            } else {
                                p = p + 1;
                            }
                        }
                        if hit {
                            proof {
                                assert(pre[p as int].id == oid);
                                assert forall|i: int| 0 <= i < p implies (#[trigger] pre[i]).id
                                    != oid by {
                                    assert(ids@[i] != oid);
                                }
                                lemma_index_of_first_match(pre, p as int, oid);
                            }
                            let nid: CallId = base + (p as u64);
                            self.set_arg(k, t, ApiCallArg::Output(nid));
                            proof {
                                assert(self.seq@[k as int].args@[t as int] == ApiCallArg::Output(
                                    nid,
                                ));
                                assert(spec_index_of(pre, oid) == Option::Some(p as int));
                                assert(spec_renumbered_arg(
                                    self.seq@[k as int].args@[t as int],
                                    pre[k as int].args@[t as int],
                                    pre,
                                    base,
                                ));
                            }
                        } else {
                            proof {
                                if spec_index_of(pre, oid) is Some {
                                    lemma_index_of_props(pre, oid);
                                    let q = spec_index_of(pre, oid)->0;
                                    assert(ids@[q] == oid);
                                }
                            }
                            self.set_arg(k, t, ApiCallArg::Missing);
                            proof {
                                assert(spec_index_of(pre, oid) is None);
                                assert(spec_renumbered_arg(
                                    self.seq@[k as int].args@[t as int],
                                    pre[k as int].args@[t as int],
                                    pre,
                                    base,
                                ));
                            }
                        }
                    },
                    None => {
                        proof {
                            assert(spec_renumbered_arg(
                                self.seq@[k as int].args@[t as int],
                                pre[k as int].args@[t as int],
                                pre,
                                base,
                            ));
                        }
                    },
                }
                t = t + 1;
            }
            k = k + 1;
        }
        // renumber the ids to positions
        k = 0;
        let ghost mid = self.seq@;
        while k < n
            invariant
                n == self.seq@.len(),
                n == mid.len(),
                self.fuzz@ == old(self).fuzz@,
                k <= n,
                base as int + n as int <= u64::MAX as int + 1,
                forall|j: int| 0 <= j < k ==> (#[trigger] self.seq@[j]).id == (base + j) as CallId,
                forall|j: int|
                    0 <= j < n ==> {
                        let c = #[trigger] self.seq@[j];
                        &&& c.name == mid[j].name
                        &&& c.conv == mid[j].conv
                        &&& c.args@ == mid[j].args@
                    },
                forall|j: int| k <= j < n ==> (#[trigger] self.seq@[j]).id == mid[j].id,
            decreases n - k,
        {
            let mut call = self.seq.remove(k);
            call.id = base + (k as u64);
            self.seq.insert(k, call);
            proof {
                assert forall|j: int| 0 <= j < n implies ((#[trigger] self.seq@[j]).name
                    == mid[j].name && self.seq@[j].conv == mid[j].conv && self.seq@[j].args@
                    == mid[j].args@) by {
                    if j != k {
                        assert(self.seq@[j] == old_at(mid, self.seq@, j));
                    }
                }
            }
            k = k + 1;
        }
        proof {
            // references point at positions strictly before their call
            assert forall|k2: int, t2: int|
                0 <= k2 < self.seq@.len() && 0 <= t2 < self.seq@[k2].args@.len() implies
                spec_arg_refs_ok(self.seq@, k2, #[trigger] self.seq@[k2].args@[t2]) by {
                match self.seq@[k2].args@[t2] {
                    ApiCallArg::Output(pid) => {
                        assert(self.seq@[k2].args@ == mid[k2].args@);
                        assert(spec_renumbered_arg(
                            mid[k2].args@[t2],
                            pre[k2].args@[t2],
                            pre,
                            base,
                        ));
                        let old_a = pre[k2].args@[t2];
                        assert(old_a is Output);
                        let oid = old_a->Output_0;
                        match spec_index_of(pre, oid) {
                            Option::None => {
                                assert(mid[k2].args@[t2] is Missing);
                                assert(false);
                            },
                            Option::Some(p) => {
                                assert(mid[k2].args@[t2] == ApiCallArg::Output((base
                                    + p) as CallId));
                                lemma_index_of_props(pre, oid);
                                assert(0 <= p < pre.len());
                                assert(pid == (base + p) as CallId);
                                assert(spec_arg_refs_ok(pre, k2, old_a));
                                let j = choose|j: int|
                                    0 <= j < k2 && (#[trigger] pre[j]).id == oid;
                                assert(pre[p].id == oid);
                                if p != j {
                                    assert(false);
                                }
                                assert(self.seq@[p].id == pid);
                                assert(spec_id_before(self.seq@, k2, pid));
                            },
                        }
                    },
                    _ => {},
                }
            }
            assert(spec_renumbered_from(self.seq@, pre, base));
            assert forall|k2: int, t2: int|
                0 <= k2 < self.seq@.len() && 0 <= t2 < self.seq@[k2].args@.len() implies
                spec_renumbered_arg(
                #[trigger] self.seq@[k2].args@[t2],
                pre[k2].args@[t2],
                pre,
                base,
            ) by {
                assert(self.seq@[k2].args@ == mid[k2].args@);
                assert(spec_renumbered_arg(mid[k2].args@[t2], pre[k2].args@[t2], pre, base));
            }
            // no hole appears where none was
            if spec_no_missing(pre) {
                assert forall|k2: int| 0 <= k2 < self.seq@.len() implies spec_call_complete(
                    #[trigger] self.seq@[k2],
                ) by {
                    assert forall|t2: int|
                        0 <= t2 < self.seq@[k2].args@.len() implies !((
                    #[trigger] self.seq@[k2].args@[t2]) is Missing) by {
                        assert(self.seq@[k2].args@ == mid[k2].args@);
                        assert(spec_renumbered_arg(
                            mid[k2].args@[t2],
                            pre[k2].args@[t2],
                            pre,
                            base,
                        ));
                        let old_a = pre[k2].args@[t2];
                        assert(spec_call_complete(pre[k2]));
                        assert(!(old_a is Missing));
                        match old_a {
                            ApiCallArg::Output(oid) => {
                                assert(spec_arg_refs_ok(pre, k2, old_a));
                                lemma_index_of_some_of_has(pre, oid);
                            },
                            _ => {},
                        }
                    }
                }
            }
        }
    }
}

/// The call untouched by an id renumbering step, at spec level.
pub open spec fn old_at(mid: Seq<ApiCall>, now: Seq<ApiCall>, j: int) -> ApiCall {
    now[j]
}

/// Some entry of the worklist suffix `wl[from ..]` is this id.
pub open spec fn spec_id_in_suffix(wl: Seq<CallId>, from: int, id: CallId) -> bool {
    exists|t: int| from <= t < wl.len() && wl[t] == id
}

/// Strategy for filling one missing argument.
enum ArgFillStrategy {
    Constant,
    Reuse,
    New,
}

impl ApiSeq {
    /// Pick how to fill an argument: class-only guesses choose between reuse
    /// and a new producing call; others choose among new call, reuse and
    /// constant; an overlong sequence is closed out with reuse or constants.
    fn pick_arg_fill_strat(&self, rand: &mut Rand, guess: &TypeGuess) -> (r: ArgFillStrategy)
        requires
            crate::rng::rand_wf(*old(rand)),
        ensures
            crate::rng::rand_wf(*final(rand)),
    {
        if crate::schema::only_class(guess) {
            if self.seq.len() > MAX_SEQ_LEN {
                return ArgFillStrategy::Reuse;
            }
            if rand.coinflip(crate::rng::WEIGHT_HALF) {
                ArgFillStrategy::Reuse
            } else {
                ArgFillStrategy::New
            }
        } else {
            if self.seq.len() > MAX_SEQ_LEN {
                return ArgFillStrategy::Constant;
            }
            let idx = rand.below(3);
            if idx == 0 {
                ArgFillStrategy::New
            } else if idx == 1 {
                ArgFillStrategy::Reuse
            } else {
                ArgFillStrategy::Constant
            }
        }
    }

    /// Among the calls before `index` whose return guess overlaps this one,
    /// pick one and hand back its id.
    fn find_output_before(
        &self,
        rand: &mut Rand,
        index: usize,
        guess: &TypeGuess,
        schema: &Schema,
    ) -> (r: Option<CallId>)
        requires
            crate::rng::rand_wf(*old(rand)),
            index <= self.seq@.len(),
        ensures
            crate::rng::rand_wf(*final(rand)),
            match r {
                Option::Some(out) => spec_id_before(self.seq@, index as int, out),
                Option::None => true,
            },
    {
        let mut cands: Vec<CallId> = Vec::new();
        let mut j: usize = 0;
        while j < index
            invariant
                crate::rng::rand_wf(*rand),
                index <= self.seq@.len(),
                j <= index,
                forall|c: int|
                    0 <= c < cands@.len() ==> spec_id_before(
                        self.seq@,
                        index as int,
                        #[trigger] cands@[c],
                    ),
            decreases index - j,
        {
            let keep: bool = match schema.get(&self.seq[j].name) {
                Some(sig) => sig.ret.overlaps(guess),
                None => false,
            };
            if keep {
                cands.push(self.seq[j].id);
                proof {
                    assert(self.seq@[j as int].id == cands@[cands@.len() - 1]);
                }
            }
            j = j + 1;
        }
        if cands.len() == 0 {
            return None;
        }
        let pick = rand.pick_index(cands.len());
        Some(cands[pick])
    }
}

/// Among the schema entries whose return guess overlaps the target, pick one
/// and hand back its index.
fn pick_api(rand: &mut Rand, schema: &Schema, target: &TypeGuess) -> (r: Option<usize>)
    requires
        crate::rng::rand_wf(*old(rand)),
    ensures
        crate::rng::rand_wf(*final(rand)),
        match r {
            Option::Some(e) => e < schema.entries@.len(),
            Option::None => true,
        },
{
    let n = schema.entries.len();
    let mut cands: Vec<usize> = Vec::new();
    let mut e: usize = 0;
    while e < n
        invariant
            crate::rng::rand_wf(*rand),
            n == schema.entries@.len(),
            e <= n,
            forall|c: int| 0 <= c < cands@.len() ==> (#[trigger] cands@[c]) < n,
        decreases n - e,
    {
        if schema.entries[e].1.ret.overlaps(target) {
            cands.push(e);
        }
        e = e + 1;
    }
    if cands.len() == 0 {
        return None;
    }
    let pick = rand.pick_index(cands.len());
    Some(cands[pick])
}

impl ApiSeq {
    /// Fill every hole of the call with this id: reuse an earlier output,
    /// mint a new producing call right before it, or fall back to a constant.
    /// A newly minted call is all holes; its id goes on the worklist.
    #[verifier::rlimit(100)]
    #[verifier::spinoff_prover]
    fn complete_one(
        &mut self,
        rand: &mut Rand,
        schema: &Schema,
        wl: &mut Vec<CallId>,
        id: CallId,
    ) -> (r: Result<(), RailcarError>)
        requires
            crate::rng::rand_wf(*old(rand)),
            schema_wf(*schema),
            seq_pre_wf(old(self).seq@),
            spec_names_known(old(self).seq@, *schema),
        ensures
            crate::rng::rand_wf(*final(rand)),
            r is Ok ==> {
                &&& seq_pre_wf(final(self).seq@)
                &&& spec_names_known(final(self).seq@, *schema)
                &&& final(self).fuzz@ == old(self).fuzz@
                &&& final(wl)@.len() >= old(wl)@.len()
                &&& forall|t: int| 0 <= t < old(wl)@.len() ==> final(wl)@[t] == old(wl)@[t]
                &&& forall|t: int|
                    old(wl)@.len() <= t < final(wl)@.len() ==> spec_has_id(
                        final(self).seq@,
                        #[trigger] final(wl)@[t],
                    )
                &&& forall|k: int|
                    0 <= k < final(self).seq@.len() && !spec_call_complete(
                        #[trigger] final(self).seq@[k],
                    ) ==> final(self).seq@[k].id != id && ((exists|k2: int|
                        0 <= k2 < old(self).seq@.len() && (#[trigger] old(self).seq@[k2]).id
                            == final(self).seq@[k].id && !spec_call_complete(old(self).seq@[k2]))
                        || spec_id_in_suffix(
                        final(wl)@,
                        old(wl)@.len() as int,
                        final(self).seq@[k].id,
                    ))
                &&& forall|id2: CallId|
                    spec_has_id(old(self).seq@, id2) ==> spec_has_id(final(self).seq@, id2)
                &&& final(self).seq@.len() >= old(self).seq@.len()
                &&& spec_order_kept(old(self).seq@, final(self).seq@)
                &&& (spec_calls_match(old(self).seq@, *schema) ==> spec_calls_match(
                    final(self).seq@,
                    *schema,
                ))
            },
            (schema_ready(*schema)) ==> r is Ok,
    {
        let ghost olds = old(self).seq@;
        let ghost oldwl = old(wl)@;
        proof {
            lemma_order_kept_refl(olds);
        }
        let call_idx0 = match self.index_of(id) {
            Some(p) => p,
            None => {
                return Ok(());
            },
        };
        let mut call_idx: usize = call_idx0;
        let name = self.seq[call_idx].name.clone();
        let argc = self.seq[call_idx].args.len();
        let any_guess = TypeGuess::any();
        let sig: &SignatureGuess = match schema.get(&name) {
            Some(g) => g,
            None => {
                proof {
                    assert(spec_schema_has(*schema, olds[call_idx0 as int].name@));
                    assert(false);
                }
                return Err(RailcarError::Unknown("endpoint not in schema".to_owned()));
            },
        };
        let ghost sig_g = *sig;
        proof {
            let e = choose|i: int|
                0 <= i < schema.entries@.len() && (#[trigger] schema.entries@[i]).0@ == name@
                    && schema.entries@[i].1 == sig_g;
            assert(crate::schema::sig_guess_wf(sig_g));
            if schema_ready(*schema) {
                assert(crate::schema::sig_guess_ready(schema.entries@[e].1));
            }
        }
        let mut arg_idx: usize = 0;
        while arg_idx < argc
            invariant
                crate::rng::rand_wf(*rand),
                schema_wf(*schema),
                crate::schema::sig_guess_wf(sig_g),
                sig_g == *sig,
                schema_ready(*schema) ==> crate::schema::sig_guess_ready(sig_g),
                crate::schema::guess_wf(any_guess),
                any_guess.is_any,
                crate::schema::spec_guess_ready(any_guess),
                seq_pre_wf(self.seq@),
                spec_names_known(self.seq@, *schema),
                self.fuzz@ == olds_fuzz(*old(self)),
                olds == old(self).seq@,
                oldwl == old(wl)@,
                call_idx < self.seq@.len(),
                self.seq@[call_idx as int].id == id,
                argc == self.seq@[call_idx as int].args@.len(),
                arg_idx <= argc,
                forall|t: int|
                    0 <= t < arg_idx ==> !((#[trigger] self.seq@[call_idx as int].args@[t])
                        is Missing),
                wl@.len() >= oldwl.len(),
                forall|t: int| 0 <= t < oldwl.len() ==> wl@[t] == oldwl[t],
                forall|t: int|
                    oldwl.len() <= t < wl@.len() ==> spec_has_id(self.seq@, #[trigger] wl@[t]),
                forall|k: int|
                    0 <= k < self.seq@.len() && !spec_call_complete(#[trigger] self.seq@[k]) && k
                        != call_idx ==> ((exists|k2: int|
                        0 <= k2 < olds.len() && (#[trigger] olds[k2]).id == self.seq@[k].id
                            && !spec_call_complete(olds[k2])) || spec_id_in_suffix(
                        wl@,
                        oldwl.len() as int,
                        self.seq@[k].id,
                    )),
                forall|id2: CallId| spec_has_id(olds, id2) ==> spec_has_id(self.seq@, id2),
                self.seq@.len() >= olds.len(),
                spec_order_kept(olds, self.seq@),
                spec_calls_match(olds, *schema) ==> spec_calls_match(self.seq@, *schema),
            decreases argc - arg_idx,
        {
            let ghost iter_seq = self.seq@;
            let ghost iter_wl = wl@;
            let ghost iter_call_idx = call_idx as int;
            let is_missing = match &self.seq[call_idx].args[arg_idx] {
                ApiCallArg::Missing => true,
                _ => false,
            };
            if !is_missing {
                arg_idx = arg_idx + 1;
                continue ;
            }
            let guess: &TypeGuess = if arg_idx < sig.args.len() {
                &sig.args[arg_idx]
            } else {
                &any_guess
            };
            proof {
                assert(crate::schema::guess_wf(*guess));
            }
            let strat = self.pick_arg_fill_strat(rand, guess);
            let mut filled = false;
            match strat {
                ArgFillStrategy::Reuse => {
                    match self.find_output_before(rand, call_idx, guess, schema) {
                        Some(out) => {
                            let ghost pres = self.seq@;
                            self.set_arg(call_idx, arg_idx, ApiCallArg::Output(out));
                            proof {
                                lemma_after_set_arg(
                                    pres,
                                    self.seq@,
                                    call_idx as int,
                                    arg_idx as int,
                                    ApiCallArg::Output(out),
                                );
                                lemma_order_kept_ids_preserved(olds, pres, self.seq@);
                                if spec_calls_match(olds, *schema) {
                                    lemma_calls_match_shape(*schema, pres, self.seq@);
                                }
                            }
                            filled = true;
                        },
                        None => {},
                    }
                },
                _ => {},
            }
            let try_new: bool = !filled && match strat {
                ArgFillStrategy::Constant => false,
                _ => true,
            };
            if try_new {
                match pick_api(rand, schema, guess) {
                    Some(api_idx) => {
                        let new_name = schema.entries[api_idx].0.clone();
                        let new_argc = schema.entries[api_idx].1.args.len();
                        let new_conv = schema.entries[api_idx].1.callconv;
                        match self.next_fresh_id() {
                            Some(new_id) => {
                                let mut new_args: Vec<ApiCallArg> = Vec::new();
                                let mut t2: usize = 0;
                                while t2 < new_argc
                                    invariant
                                        t2 <= new_argc,
                                        new_args@.len() == t2,
                                        forall|j: int|
                                            0 <= j < t2 ==> (#[trigger] new_args@[j]) is Missing,
                                    decreases new_argc - t2,
                                {
                                    new_args.push(ApiCallArg::Missing);
                                    t2 = t2 + 1;
                                }
                                let new_call = ApiCall {
                                    id: new_id,
                                    name: new_name,
                                    args: new_args,
                                    conv: new_conv,
                                };
                                let ghost pres = self.seq@;
                                proof {
                                    lemma_insert_keeps_pre_wf(
                                        self.seq@,
                                        call_idx as int,
                                        new_call,
                                    );
                                }
                                self.seq.insert(call_idx, new_call);
                                let new_len = self.seq.len();
                                proof {
                                    assert(call_idx + 1 <= new_len);
                                    lemma_after_insert(
                                        pres,
                                        self.seq@,
                                        call_idx as int,
                                        new_call,
                                        *schema,
                                    );
                                    assert forall|j: int| 0 <= j < olds.len() implies (
                                    #[trigger] olds[j]).id != new_id by {
                                        if olds[j].id == new_id {
                                            assert(spec_has_id(olds, new_id));
                                            assert(spec_has_id(pres, new_id));
                                            let w = choose|t: int|
                                                0 <= t < pres.len() && (#[trigger] pres[t]).id
                                                    == new_id;
                                            assert(pres[w].id < new_id);
                                        }
                                    }
                                    lemma_order_kept_insert(
                                        olds,
                                        pres,
                                        self.seq@,
                                        call_idx as int,
                                        new_call,
                                    );
                                    if spec_calls_match(olds, *schema) {
                                        assert(schema.entries@[api_idx as int].0@
                                            == new_call.name@);
                                        assert(spec_call_matches(*schema, new_call));
                                        lemma_calls_match_insert(
                                            *schema,
                                            pres,
                                            self.seq@,
                                            call_idx as int,
                                            new_call,
                                        );
                                    }
                                }
                                let ghost pres2 = self.seq@;
                                self.set_arg(
                                    call_idx + 1,
                                    arg_idx,
                                    ApiCallArg::Output(new_id),
                                );
                                proof {
                                    assert(pres2[call_idx as int].id == new_id);
                                    lemma_after_set_arg(
                                        pres2,
                                        self.seq@,
                                        call_idx as int + 1,
                                        arg_idx as int,
                                        ApiCallArg::Output(new_id),
                                    );
                                    lemma_order_kept_ids_preserved(olds, pres2, self.seq@);
                                    if spec_calls_match(olds, *schema) {
                                        lemma_calls_match_shape(*schema, pres2, self.seq@);
                                    }
                                }
                                let ghost prewl = wl@;
                                wl.push(new_id);
                                proof {
                                    assert(wl@[prewl.len() as int] == new_id);
                                    assert(spec_id_in_suffix(wl@, oldwl.len() as int, new_id));
                                    assert forall|t3: int|
                                        oldwl.len() <= t3 < wl@.len() implies spec_has_id(
                                        self.seq@,
                                        #[trigger] wl@[t3],
                                    ) by {
                                        if t3 < prewl.len() {
                                            assert(wl@[t3] == prewl[t3]);
                                        } else {
                                            assert(wl@[t3] == new_id);
                                            assert(self.seq@[call_idx as int].id == new_id);
                                        }
                                    }
                                    assert forall|k: int|
                                        0 <= k < self.seq@.len() && !spec_call_complete(
                                            #[trigger] self.seq@[k],
                                        ) && k != iter_call_idx + 1 implies ((exists|k2: int|
                                        0 <= k2 < olds.len() && (#[trigger] olds[k2]).id
                                            == self.seq@[k].id && !spec_call_complete(olds[k2]))
                                        || spec_id_in_suffix(
                                        wl@,
                                        oldwl.len() as int,
                                        self.seq@[k].id,
                                    )) by {
                                        if k == iter_call_idx {
                                            assert(self.seq@[k].id == new_id);
                                        } else {
                                            let pk: int = if k < iter_call_idx {
                                                k
                                            } else {
                                                k - 1
                                            };
                                            assert(pres2[k] == pres[pk]);
                                            assert(self.seq@[k].id == pres2[k].id);
                                            assert(!spec_call_complete(pres2[k]));
                                            assert(!spec_call_complete(iter_seq[pk]));
                                            assert(iter_seq[pk].id == self.seq@[k].id);
                                            if spec_id_in_suffix(
                                                iter_wl,
                                                oldwl.len() as int,
                                                iter_seq[pk].id,
                                            ) {
                                                let t4 = choose|t4: int|
                                                    oldwl.len() <= t4 < iter_wl.len()
                                                        && iter_wl[t4] == iter_seq[pk].id;
                                                assert(wl@[t4] == iter_seq[pk].id);
                                            }
                                        }
                                    }
                                }
                                call_idx = call_idx + 1;
                                filled = true;
                            },
                            None => {},
                        }
                    },
                    None => {},
                }
            }
            if !filled {
                // constants close the argument out
                let arg_value: ApiCallArg = if crate::schema::only_class(guess) {
                    ApiCallArg::Constant(Type::Null)
                } else {
                    let stripped = crate::schema::strip_class(rand, guess);
                    match stripped.sample_type(rand) {
                        Ok(ty) => ApiCallArg::Constant(ty),
                        Err(e) => {
                            proof {
                                if schema_ready(*schema) {
                                    assert(crate::schema::spec_guess_ready(*guess));
                                    assert(crate::schema::spec_guess_ready(stripped));
                                    assert(false);
                                }
                            }
                            return Err(e);
                        },
                    }
                };
                let ghost pres = self.seq@;
                self.set_arg(call_idx, arg_idx, arg_value);
                proof {
                    lemma_after_set_arg(
                        pres,
                        self.seq@,
                        call_idx as int,
                        arg_idx as int,
                        arg_value,
                    );
                    lemma_order_kept_ids_preserved(olds, pres, self.seq@);
                    if spec_calls_match(olds, *schema) {
                        lemma_calls_match_shape(*schema, pres, self.seq@);
                    }
                }
            }
            arg_idx = arg_idx + 1;
        }
        Ok(())
    }
}

/// The fuzz bytes of a sequence, by view.
pub open spec fn olds_fuzz(s: ApiSeq) -> Seq<u8> {
    s.fuzz@
}

/// After one argument is overwritten with a sound non-hole value, the
/// invariant and per-call completeness facts carry over.
proof fn lemma_after_set_arg(pres: Seq<ApiCall>, now: Seq<ApiCall>, k: int, t: int, a: ApiCallArg)
    requires
        seq_pre_wf(pres),
        0 <= k < pres.len(),
        0 <= t < pres[k].args@.len(),
        now.len() == pres.len(),
        now[k].args@ == pres[k].args@.update(t, a),
        now[k].id == pres[k].id,
        now[k].name == pres[k].name,
        now[k].conv == pres[k].conv,
        forall|j: int| 0 <= j < pres.len() && j != k ==> now[j] == pres[j],
        spec_arg_refs_ok(pres, k, a),
    ensures
        seq_pre_wf(now),
        forall|j: int| 0 <= j < now.len() ==> (#[trigger] now[j]).id == pres[j].id,
        forall|j: int|
            0 <= j < now.len() && j != k && spec_call_complete(pres[j]) ==> spec_call_complete(
                #[trigger] now[j],
            ),
        forall|j: int|
            0 <= j < now.len() && j != k && !spec_call_complete(pres[j]) ==> !spec_call_complete(
                #[trigger] now[j],
            ),
        forall|t2: int|
            0 <= t2 < now[k].args@.len() && t2 != t ==> #[trigger] now[k].args@[t2]
                == pres[k].args@[t2],
        now[k].args@[t] == a,
        forall|id2: CallId| spec_has_id(pres, id2) ==> spec_has_id(now, id2),
{
    assert forall|j: int| 0 <= j < now.len() implies (#[trigger] now[j]).id == pres[j].id by {
        if j != k {
            assert(now[j] == pres[j]);
        }
    }
    assert forall|k2: int, t2: int|
        0 <= k2 < now.len() && 0 <= t2 < now[k2].args@.len() implies spec_arg_refs_ok(
        now,
        k2,
        #[trigger] now[k2].args@[t2],
    ) by {
        let a2 = now[k2].args@[t2];
        let was: ApiCallArg = if k2 == k && t2 == t {
            a
        } else {
            pres[k2].args@[t2]
        };
        assert(a2 == was);
        match a2 {
            ApiCallArg::Output(id2) => {
                assert(spec_arg_refs_ok(pres, k2, was));
                let j = choose|j: int| 0 <= j < k2 && (#[trigger] pres[j]).id == id2;
                assert(now[j].id == id2);
            },
            _ => {},
        }
    }
    assert forall|id2: CallId| spec_has_id(pres, id2) implies spec_has_id(now, id2) by {
        let j = choose|j: int| 0 <= j < pres.len() && (#[trigger] pres[j]).id == id2;
        assert(now[j].id == id2);
    }
}

/// After a fresh all-hole call is inserted, ids persist and completeness
/// facts shift by one position past the insertion point.
proof fn lemma_after_insert(pres: Seq<ApiCall>, now: Seq<ApiCall>, k: int, c: ApiCall, schema: Schema)
    requires
        seq_pre_wf(pres),
        0 <= k <= pres.len(),
        now == pres.insert(k, c),
        !spec_has_id(pres, c.id),
        forall|t: int| 0 <= t < c.args@.len() ==> (#[trigger] c.args@[t]) is Missing,
        spec_names_known(pres, schema),
        spec_schema_has(schema, c.name@),
    ensures
        now.len() == pres.len() + 1,
        spec_names_known(now, schema),
        forall|id2: CallId| spec_has_id(pres, id2) ==> spec_has_id(now, id2),
        forall|j: int| 0 <= j < k ==> #[trigger] now[j] == pres[j],
        forall|j: int| k < j < now.len() ==> #[trigger] now[j] == pres[j - 1],
        now[k] == c,
        spec_has_id(now, c.id),
{
    assert forall|j: int| 0 <= j < now.len() implies spec_schema_has(
        schema,
        (#[trigger] now[j]).name@,
    ) by {
        if j < k {
            assert(now[j] == pres[j]);
        } else if j > k {
            assert(now[j] == pres[j - 1]);
        }
    }
    assert forall|id2: CallId| spec_has_id(pres, id2) implies spec_has_id(now, id2) by {
        let j = choose|j: int| 0 <= j < pres.len() && (#[trigger] pres[j]).id == id2;
        if j < k {
            assert(now[j].id == id2);
        } else {
            assert(now[j + 1].id == id2);
        }
    }
    assert(now[k] == c);
}

/// The calls of `olds` stand in `news` in their old relative order: wherever
/// two old ids occur in `news`, their positions compare as the old positions
/// did. Kept opaque so that only the order lemmas unfold it.
#[verifier::opaque]
pub open spec fn spec_order_kept(olds: Seq<ApiCall>, news: Seq<ApiCall>) -> bool {
    forall|j: int, j2: int, p: int, q: int|
        0 <= j < j2 < olds.len() && 0 <= p < news.len() && 0 <= q < news.len() && (
        #[trigger] news[p]).id == (#[trigger] olds[j]).id && (#[trigger] news[q]).id == (
        #[trigger] olds[j2]).id ==> p < q
}

/// A sequence with unique ids keeps its own order.
pub proof fn lemma_order_kept_refl(s: Seq<ApiCall>)
    requires
        spec_ids_unique(s),
    ensures
        spec_order_kept(s, s),
{
    reveal(spec_order_kept);
    assert forall|j: int, j2: int, p: int, q: int|
        0 <= j < j2 < s.len() && 0 <= p < s.len() && 0 <= q < s.len() && (#[trigger] s[p]).id == (
        #[trigger] s[j]).id && (#[trigger] s[q]).id == (#[trigger] s[j2]).id implies p < q by {
        if p < j {
            assert(s[p].id != s[j].id);
        } else if j < p {
            assert(s[j].id != s[p].id);
        }
        if q < j2 {
            assert(s[q].id != s[j2].id);
        } else if j2 < q {
            assert(s[j2].id != s[q].id);
        }
    }
}

/// An edit that keeps every id at its position keeps the order.
pub proof fn lemma_order_kept_ids_preserved(olds: Seq<ApiCall>, s: Seq<ApiCall>, news: Seq<ApiCall>)
    requires
        spec_order_kept(olds, s),
        news.len() == s.len(),
        forall|j: int| 0 <= j < news.len() ==> (#[trigger] news[j]).id == s[j].id,
    ensures
        spec_order_kept(olds, news),
{
    reveal(spec_order_kept);
    assert forall|j: int, j2: int, p: int, q: int|
        0 <= j < j2 < olds.len() && 0 <= p < news.len() && 0 <= q < news.len() && (
        #[trigger] news[p]).id == (#[trigger] olds[j]).id && (#[trigger] news[q]).id == (
        #[trigger] olds[j2]).id implies p < q by {
        assert(s[p].id == olds[j].id);
        assert(s[q].id == olds[j2].id);
    }
}

/// Inserting a call whose id is none of the old ids keeps the order.
pub proof fn lemma_order_kept_insert(
    olds: Seq<ApiCall>,
    s: Seq<ApiCall>,
    news: Seq<ApiCall>,
    m: int,
    c: ApiCall,
)
    requires
        spec_order_kept(olds, s),
        0 <= m <= s.len(),
        news.len() == s.len() + 1,
        forall|j: int| 0 <= j < m ==> #[trigger] news[j] == s[j],
        forall|j: int| m < j < news.len() ==> #[trigger] news[j] == s[j - 1],
        news[m] == c,
        forall|j: int| 0 <= j < olds.len() ==> (#[trigger] olds[j]).id != c.id,
    ensures
        spec_order_kept(olds, news),
{
    reveal(spec_order_kept);
    assert forall|j: int, j2: int, p: int, q: int|
        0 <= j < j2 < olds.len() && 0 <= p < news.len() && 0 <= q < news.len() && (
        #[trigger] news[p]).id == (#[trigger] olds[j]).id && (#[trigger] news[q]).id == (
        #[trigger] olds[j2]).id implies p < q by {
        assert(p != m && q != m);
        let p2: int = if p < m {
            p
        } else {
            p - 1
        };
        let q2: int = if q < m {
            q
        } else {
            q - 1
        };
        assert(news[p] == s[p2]);
        assert(news[q] == s[q2]);
        assert(p2 < q2);
    }
}

/// Keeping order is transitive over a middle sequence that holds every old
/// id.
pub proof fn lemma_order_kept_trans(a: Seq<ApiCall>, b: Seq<ApiCall>, c: Seq<ApiCall>)
    requires
        spec_order_kept(a, b),
        spec_order_kept(b, c),
        forall|j: int| 0 <= j < a.len() ==> spec_has_id(b, (#[trigger] a[j]).id),
    ensures
        spec_order_kept(a, c),
{
    reveal(spec_order_kept);
    assert forall|j: int, j2: int, p: int, q: int|
        0 <= j < j2 < a.len() && 0 <= p < c.len() && 0 <= q < c.len() && (#[trigger] c[p]).id == (
        #[trigger] a[j]).id && (#[trigger] c[q]).id == (#[trigger] a[j2]).id implies p < q by {
        assert(spec_has_id(b, a[j].id));
        assert(spec_has_id(b, a[j2].id));
        let pb = choose|t: int| 0 <= t < b.len() && (#[trigger] b[t]).id == a[j].id;
        let qb = choose|t: int| 0 <= t < b.len() && (#[trigger] b[t]).id == a[j2].id;
        assert(pb < qb);
        assert(c[p].id == b[pb].id);
        assert(c[q].id == b[qb].id);
    }
}

impl ApiSeq {
    /// Fill every remaining hole with a constant, in place: a class-only
    /// hole takes `Null`, any other samples a non-class constant type.
    fn fill_constants(&mut self, rand: &mut Rand, schema: &Schema) -> (r: Result<
        (),
        RailcarError,
    >)
        requires
            crate::rng::rand_wf(*old(rand)),
            schema_wf(*schema),
            seq_pre_wf(old(self).seq@),
            spec_names_known(old(self).seq@, *schema),
        ensures
            crate::rng::rand_wf(*final(rand)),
            r is Ok ==> {
                &&& seq_wf(final(self).seq@)
                &&& spec_names_known(final(self).seq@, *schema)
                &&& final(self).fuzz@ == old(self).fuzz@
                &&& final(self).seq@.len() == old(self).seq@.len()
                &&& forall|j: int|
                    0 <= j < final(self).seq@.len() ==> (#[trigger] final(self).seq@[j]).id == old(
                        self,
                    ).seq@[j].id
                &&& (spec_calls_match(old(self).seq@, *schema) ==> spec_calls_match(
                    final(self).seq@,
                    *schema,
                ))
            },
            schema_ready(*schema) ==> r is Ok,
    {
        let any_guess = TypeGuess::any();
        let n = self.seq.len();
        let mut k: usize = 0;
        while k < n
            invariant
                crate::rng::rand_wf(*rand),
                schema_wf(*schema),
                crate::schema::guess_wf(any_guess),
                any_guess.is_any,
                crate::schema::spec_guess_ready(any_guess),
                n == self.seq@.len(),
                n == old(self).seq@.len(),
                seq_pre_wf(self.seq@),
                spec_names_known(self.seq@, *schema),
                self.fuzz@ == old(self).fuzz@,
                k <= n,
                forall|j: int| 0 <= j < k ==> spec_call_complete(#[trigger] self.seq@[j]),
                forall|j: int| 0 <= j < n ==> (#[trigger] self.seq@[j]).id == old(self).seq@[j].id,
                spec_calls_match(old(self).seq@, *schema) ==> spec_calls_match(self.seq@, *schema),
            decreases n - k,
        {
            let name = self.seq[k].name.clone();
            let sig: &SignatureGuess = match schema.get(&name) {
                Some(g) => g,
                None => {
                    proof {
                        assert(spec_schema_has(*schema, self.seq@[k as int].name@));
                        assert(false);
                    }
                    return Err(RailcarError::Unknown("endpoint not in schema".to_owned()));
                },
            };
            let ghost sig_g = *sig;
            proof {
                let e = choose|i: int|
                    0 <= i < schema.entries@.len() && (#[trigger] schema.entries@[i]).0@ == name@
                        && schema.entries@[i].1 == sig_g;
                assert(crate::schema::sig_guess_wf(sig_g));
                if schema_ready(*schema) {
                    assert(crate::schema::sig_guess_ready(schema.entries@[e].1));
                }
            }
            let argc = self.seq[k].args.len();
            let mut t: usize = 0;
            while t < argc
                invariant
                    crate::rng::rand_wf(*rand),
                    schema_wf(*schema),
                    crate::schema::guess_wf(any_guess),
                    any_guess.is_any,
                    crate::schema::spec_guess_ready(any_guess),
                    crate::schema::sig_guess_wf(sig_g),
                    sig_g == *sig,
                    schema_ready(*schema) ==> crate::schema::sig_guess_ready(sig_g),
                    n == self.seq@.len(),
                    n == old(self).seq@.len(),
                    seq_pre_wf(self.seq@),
                    spec_names_known(self.seq@, *schema),
                    self.fuzz@ == old(self).fuzz@,
                    k < n,
                    argc == self.seq@[k as int].args@.len(),
                    t <= argc,
                    forall|j: int| 0 <= j < k ==> spec_call_complete(#[trigger] self.seq@[j]),
                    forall|j: int|
                        0 <= j < n ==> (#[trigger] self.seq@[j]).id == old(self).seq@[j].id,
                    spec_calls_match(old(self).seq@, *schema) ==> spec_calls_match(
                        self.seq@,
                        *schema,
                    ),
                    forall|t2: int|
                        0 <= t2 < t ==> !((#[trigger] self.seq@[k as int].args@[t2]) is Missing),
                decreases argc - t,
            {
                let is_missing = match &self.seq[k].args[t] {
                    ApiCallArg::Missing => true,
                    _ => false,
                };
                if is_missing {
                    let guess: &TypeGuess = if t < sig.args.len() {
                        &sig.args[t]
                    } else {
                        &any_guess
                    };
                    proof {
                        assert(crate::schema::guess_wf(*guess));
                    }
                    let arg_value: ApiCallArg = if crate::schema::only_class(guess) {
                        ApiCallArg::Constant(Type::Null)
                    } else {
                        let stripped = crate::schema::strip_class(rand, guess);
                        match stripped.sample_type(rand) {
                            Ok(ty) => ApiCallArg::Constant(ty),
                            Err(e) => {
                                proof {
                                    if schema_ready(*schema) {
                                        assert(crate::schema::spec_guess_ready(*guess));
                                        assert(crate::schema::spec_guess_ready(stripped));
                                        assert(false);
                                    }
                                }
                                return Err(e);
                            },
                        }
                    };
                    let ghost pres = self.seq@;
                    self.set_arg(k, t, arg_value);
                    proof {
                        lemma_after_set_arg(pres, self.seq@, k as int, t as int, arg_value);
                        if spec_calls_match(old(self).seq@, *schema) {
                            lemma_calls_match_shape(*schema, pres, self.seq@);
                        }
                        assert forall|j: int|
                            0 <= j < k implies spec_call_complete(#[trigger] self.seq@[j]) by {
                            assert(spec_call_complete(pres[j]));
                        }
                        assert forall|j: int|
                            0 <= j < self.seq@.len() implies spec_schema_has(
                            *schema,
                            (#[trigger] self.seq@[j]).name@,
                        ) by {
                            assert(self.seq@[j].name == pres[j].name);
                        }
                    }
                }
                t = t + 1;
            }
            k = k + 1;
        }
        Ok(())
    }

    /// Run the completion worklist: fill every call that still has a hole,
    /// minting producing calls as needed; a run that exceeds its budget is
    /// closed out with constants.
    #[verifier::rlimit(100)]
    #[verifier::spinoff_prover]
    pub fn complete(&mut self, rand: &mut Rand, schema: &Schema) -> (r: Result<(), RailcarError>)
        requires
            crate::rng::rand_wf(*old(rand)),
            schema_wf(*schema),
            seq_pre_wf(old(self).seq@),
            spec_names_known(old(self).seq@, *schema),
        ensures
            crate::rng::rand_wf(*final(rand)),
            r is Ok ==> {
                &&& seq_wf(final(self).seq@)
                &&& spec_names_known(final(self).seq@, *schema)
                &&& final(self).fuzz@ == old(self).fuzz@
                &&& final(self).seq@.len() >= old(self).seq@.len()
                &&& spec_order_kept(old(self).seq@, final(self).seq@)
                &&& forall|id2: CallId|
                    spec_has_id(old(self).seq@, id2) ==> spec_has_id(final(self).seq@, id2)
                &&& (spec_calls_match(old(self).seq@, *schema) ==> spec_calls_match(
                    final(self).seq@,
                    *schema,
                ))
            },
            schema_ready(*schema) ==> r is Ok,
            spec_no_missing(old(self).seq@) ==> r is Ok && *final(self) == *old(self),
    {
        let mut wl: Vec<CallId> = Vec::new();
        let n0 = self.seq.len();
        let mut k: usize = 0;
        while k < n0
            invariant
                *self == *old(self),
                n0 == self.seq@.len(),
                k <= n0,
                spec_no_missing(old(self).seq@) ==> wl@.len() == 0,
                forall|t: int| 0 <= t < wl@.len() ==> spec_has_id(self.seq@, #[trigger] wl@[t]),
                forall|j: int|
                    0 <= j < k && !spec_call_complete(#[trigger] self.seq@[j])
                        ==> spec_id_in_suffix(wl@, 0, self.seq@[j].id),
            decreases n0 - k,
        {
            let mut incomplete = false;
            let argc = self.seq[k].args.len();
            let mut t: usize = 0;
            while t < argc
                invariant
                    n0 == self.seq@.len(),
                    k < n0,
                    argc == self.seq@[k as int].args@.len(),
                    t <= argc,
                    incomplete ==> !spec_call_complete(self.seq@[k as int]),
                    !incomplete ==> forall|t2: int|
                        0 <= t2 < t ==> !((#[trigger] self.seq@[k as int].args@[t2]) is Missing),
                decreases argc - t,
            {
                let m = match &self.seq[k].args[t] {
                    ApiCallArg::Missing => true,
                    _ => false,
                };
                if m {
                    incomplete = true;
                }
                t = t + 1;
            }
            if incomplete {
                let ghost prewl = wl@;
                wl.push(self.seq[k].id);
                proof {
                    assert(wl@[prewl.len() as int] == self.seq@[k as int].id);
                    assert forall|j: int|
                        0 <= j < k + 1 && !spec_call_complete(#[trigger] self.seq@[j]) implies
                        spec_id_in_suffix(wl@, 0, self.seq@[j].id) by {
                        if j < k {
                            let t4 = choose|t4: int|
                                0 <= t4 < prewl.len() && prewl[t4] == self.seq@[j].id;
                            assert(wl@[t4] == self.seq@[j].id);
                        } else {
                            assert(wl@[prewl.len() as int] == self.seq@[j].id);
                        }
                    }
                }
            } else {
                proof {
                    assert(spec_call_complete(self.seq@[k as int]));
                }
            }
            k = k + 1;
        }
        proof {
            lemma_order_kept_refl(old(self).seq@);
        }
        let mut widx: usize = 0;
        let mut budget: usize = SEQ_COMPLETION_BUDGET;
        while widx < wl.len() && budget > 0
            invariant
                crate::rng::rand_wf(*rand),
                schema_wf(*schema),
                seq_pre_wf(self.seq@),
                spec_names_known(self.seq@, *schema),
                self.fuzz@ == old(self).fuzz@,
                self.seq@.len() >= old(self).seq@.len(),
                spec_no_missing(old(self).seq@) ==> wl@.len() == 0 && *self == *old(self),
                widx <= wl@.len(),
                spec_order_kept(old(self).seq@, self.seq@),
                forall|id2: CallId|
                    spec_has_id(old(self).seq@, id2) ==> spec_has_id(self.seq@, id2),
                spec_calls_match(old(self).seq@, *schema) ==> spec_calls_match(
                    self.seq@,
                    *schema,
                ),
                forall|t: int| 0 <= t < wl@.len() ==> spec_has_id(self.seq@, #[trigger] wl@[t]),
                forall|j: int|
                    0 <= j < self.seq@.len() && !spec_call_complete(#[trigger] self.seq@[j])
                        ==> spec_id_in_suffix(wl@, widx as int, self.seq@[j].id),
            decreases budget,
        {
            let id = wl[widx];
            let ghost prewl = wl@;
            let ghost preseq = self.seq@;
            widx = widx + 1;
            budget = budget - 1;
            match self.complete_one(rand, schema, &mut wl, id) {
                Ok(()) => {},
                Err(e) => {
                    proof {
                        if schema_ready(*schema) {
                            assert(false);
                        }
                    }
                    return Err(e);
                },
            }
            proof {
                lemma_order_kept_trans(old(self).seq@, preseq, self.seq@);
                assert forall|j: int|
                    0 <= j < self.seq@.len() && !spec_call_complete(#[trigger] self.seq@[j])
                        implies spec_id_in_suffix(wl@, widx as int, self.seq@[j].id) by {
                    let cid = self.seq@[j].id;
                    assert(cid != id);
                    if exists|k2: int|
                        0 <= k2 < preseq.len() && (#[trigger] preseq[k2]).id == cid
                            && !spec_call_complete(preseq[k2]) {
                        let k2 = choose|k2: int|
                            0 <= k2 < preseq.len() && (#[trigger] preseq[k2]).id == cid
                                && !spec_call_complete(preseq[k2]);
                        assert(spec_id_in_suffix(prewl, widx - 1, cid));
                        let t4 = choose|t4: int|
                            widx - 1 <= t4 < prewl.len() && prewl[t4] == cid;
                        if t4 == widx - 1 {
                            assert(prewl[t4] == id);
                            assert(false);
                        }
                        assert(wl@[t4] == cid);
                    } else {
                        assert(spec_id_in_suffix(wl@, prewl.len() as int, cid));
                        let t4 = choose|t4: int|
                            prewl.len() <= t4 < wl@.len() && wl@[t4] == cid;
                        assert(widx as int <= t4);
                    }
                }
            }
        }
        if widx < wl.len() {
            // out of budget: close the rest out with constants
            let ghost prefill = self.seq@;
            match self.fill_constants(rand, schema) {
                Ok(()) => {},
                Err(e) => {
                    proof {
                        if schema_ready(*schema) {
                            assert(false);
                        }
                    }
                    return Err(e);
                },
            }
            proof {
                lemma_order_kept_ids_preserved(old(self).seq@, prefill, self.seq@);
                assert forall|id2: CallId|
                    spec_has_id(old(self).seq@, id2) implies spec_has_id(self.seq@, id2) by {
                    assert(spec_has_id(prefill, id2));
                    let w = choose|t: int|
                        0 <= t < prefill.len() && (#[trigger] prefill[t]).id == id2;
                    assert(self.seq@[w].id == id2);
                }
            }
        } else {
            proof {
                assert forall|j: int|
                    0 <= j < self.seq@.len() implies spec_call_complete(#[trigger] self.seq@[j])
                    by {
                    if !spec_call_complete(self.seq@[j]) {
                        assert(spec_id_in_suffix(wl@, widx as int, self.seq@[j].id));
                    }
                }
            }
        }
        Ok(())
    }

    /// Generate a sequence from scratch: one call of some endpoint, then a
    /// completion pass. Fails exactly on the empty schema (given a sound,
    /// ready schema).
    pub fn create(rand: &mut Rand, schema: &Schema, fuzz: Vec<u8>) -> (r: Result<
        ApiSeq,
        RailcarError,
    >)
        requires
            crate::rng::rand_wf(*old(rand)),
            schema_wf(*schema),
        ensures
            crate::rng::rand_wf(*final(rand)),
            schema.entries@.len() == 0 ==> r is Err,
            schema_ready(*schema) && schema.entries@.len() > 0 ==> r is Ok,
            r is Ok ==> {
                &&& seq_wf((r->Ok_0).seq@)
                &&& (r->Ok_0).seq@.len() >= 1
                &&& spec_names_known((r->Ok_0).seq@, *schema)
                &&& spec_calls_match((r->Ok_0).seq@, *schema)
                &&& (r->Ok_0).fuzz@ == fuzz@
            },
            (r is Ok && (forall|i: int|
                0 <= i < schema.entries@.len() ==> (#[trigger] schema.entries@[i]).1.args@.len()
                    == 0)) ==> (r->Ok_0).seq@.len() == 1,
            (r is Ok && schema.entries@.len() == 1 && schema.entries@[0].1.args@.len() == 0) ==> (
            r->Ok_0).seq@[0].name@ == schema.entries@[0].0@,
    {
        if schema.entries.len() == 0 {
            return Err(RailcarError::Unknown("empty schema".to_owned()));
        }
        let pick = rand.pick_index(schema.entries.len());
        let name = schema.entries[pick].0.clone();
        let argc = schema.entries[pick].1.args.len();
        let conv = schema.entries[pick].1.callconv;
        let mut out = ApiSeq { fuzz, seq: Vec::new() };
        proof {
            assert(seq_pre_wf(out.seq@));
        }
        match out.append(name, argc, conv) {
            Some(_) => {},
            None => {
                proof {
                    assert(false);
                }
                return Err(RailcarError::Unknown("id space spent".to_owned()));
            },
        }
        proof {
            assert(spec_schema_has(*schema, out.seq@[0].name@));
            assert(spec_names_known(out.seq@, *schema));
            assert(schema.entries@[pick as int].0@ == out.seq@[0].name@);
            assert(spec_call_matches(*schema, out.seq@[0]));
            assert(spec_calls_match(out.seq@, *schema));
            if schema.entries@[pick as int].1.args@.len() == 0 {
                assert(spec_call_complete(out.seq@[0]));
                assert(spec_no_missing(out.seq@));
            }
        }
        match out.complete(rand, schema) {
            Ok(()) => Ok(out),
            Err(e) => Err(e),
        }
    }
}

impl ApiSeq {
    /// Positional equality: same fuzz bytes, and call by call the same name,
    /// convention and arguments, with output references compared by the
    /// producer's position.
    pub fn eq_seq(&self, other: &ApiSeq) -> (r: bool)
        ensures
            r == api_seq_eq_spec(*self, *other),
    {
        let n = self.seq.len();
        if n != other.seq.len() {
            return false;
        }
        // fuzz bytes
        let m = self.fuzz.len();
        if m != other.fuzz.len() {
            return false;
        }
        let mut i: usize = 0;
        while i < m
            invariant
                m == self.fuzz@.len(),
                m == other.fuzz@.len(),
                i <= m,
                forall|j: int| 0 <= j < i ==> self.fuzz@[j] == other.fuzz@[j],
            decreases m - i,
        {
            if self.fuzz[i] != other.fuzz[i] {
                return false;
            }
            i = i + 1;
        }
        proof {
            assert(self.fuzz@ =~= other.fuzz@);
        }
        let mut k: usize = 0;
        while k < n
            invariant
                n == self.seq@.len(),
                n == other.seq@.len(),
                self.fuzz@ == other.fuzz@,
                k <= n,
                forall|j: int|
                    0 <= j < k ==> (#[trigger] self.seq@[j]).name@ == other.seq@[j].name@
                        && self.seq@[j].conv == other.seq@[j].conv && self.seq@[j].args@.len()
                        == other.seq@[j].args@.len(),
                forall|j: int, t: int|
                    0 <= j < k && 0 <= t < self.seq@[j].args@.len() ==> arg_eq_at(
                        self.seq@,
                        other.seq@,
                        #[trigger] self.seq@[j].args@[t],
                        other.seq@[j].args@[t],
                    ),
            decreases n - k,
        {
            if !crate::schema::str_eq(&self.seq[k].name, &other.seq[k].name) {
                return false;
            }
            let ca = self.seq[k].conv;
            let cb = other.seq[k].conv;
            if !(ca == cb) {
                return false;
            }
            let argc = self.seq[k].args.len();
            if argc != other.seq[k].args.len() {
                return false;
            }
            let mut t: usize = 0;
            while t < argc
                invariant
                    n == self.seq@.len(),
                    n == other.seq@.len(),
                    k < n,
                    argc == self.seq@[k as int].args@.len(),
                    argc == other.seq@[k as int].args@.len(),
                    t <= argc,
                    forall|t2: int|
                        0 <= t2 < t ==> arg_eq_at(
                            self.seq@,
                            other.seq@,
                            #[trigger] self.seq@[k as int].args@[t2],
                            other.seq@[k as int].args@[t2],
                        ),
                decreases argc - t,
            {
                let ok: bool = match (&self.seq[k].args[t], &other.seq[k].args[t]) {
                    (ApiCallArg::Missing, ApiCallArg::Missing) => true,
                    (ApiCallArg::Constant(ta), ApiCallArg::Constant(tb)) => crate::schema::type_eq(
                        ta,
                        tb,
                    ),
                    (ApiCallArg::Output(ia), ApiCallArg::Output(ib)) => {
                        let pa = self.index_of(*ia);
                        let pb = other.index_of(*ib);
                        proof {
                            lemma_index_exec_to_spec(self.seq@, *ia, pa);
                            lemma_index_exec_to_spec(other.seq@, *ib, pb);
                        }
                        match (pa, pb) {
                            (Some(x), Some(y)) => x == y,
                            (None, None) => true,
                            _ => false,
                        }
                    },
                    _ => false,
                };
                if !ok {
                    return false;
                }
                t = t + 1;
            }
            k = k + 1;
        }
        true
    }
}

/// Tie the executable first-match search to the spec position.
proof fn lemma_index_exec_to_spec(s: Seq<ApiCall>, id: CallId, r: Option<usize>)
    requires
        match r {
            Option::Some(p) => p < s.len() && s[p as int].id == id && forall|j: int|
                0 <= j < p ==> (#[trigger] s[j]).id != id,
            Option::None => forall|j: int| 0 <= j < s.len() ==> (#[trigger] s[j]).id != id,
        },
    ensures
        match r {
            Option::Some(p) => spec_index_of(s, id) == Option::Some(p as int),
            Option::None => spec_index_of(s, id) is None,
        },
{
    match r {
        Option::Some(p) => {
            lemma_index_of_first_match(s, p as int, id);
        },
        Option::None => {
            if spec_index_of(s, id) is Some {
                lemma_index_of_props(s, id);
            }
        },
    }
}

impl PartialEq for ApiSeq {
    fn eq(&self, other: &ApiSeq) -> (r: bool) {
        self.eq_seq(other)
    }
}

impl vstd::std_specs::cmp::PartialEqSpecImpl for ApiSeq {
    open spec fn obeys_eq_spec() -> bool {
        true
    }

    open spec fn eq_spec(&self, other: &ApiSeq) -> bool {
        api_seq_eq_spec(*self, *other)
    }
}

/// Truncating a sequence keeps the invariant.
pub proof fn lemma_take_keeps_wf(s: Seq<ApiCall>, m: int)
    requires
        0 <= m <= s.len(),
        seq_pre_wf(s),
    ensures
        seq_pre_wf(s.take(m)),
        spec_no_missing(s) ==> spec_no_missing(s.take(m)),
{
    let s2 = s.take(m);
    assert forall|k2: int, t2: int|
        0 <= k2 < s2.len() && 0 <= t2 < s2[k2].args@.len() implies spec_arg_refs_ok(
        s2,
        k2,
        #[trigger] s2[k2].args@[t2],
    ) by {
        assert(s2[k2] == s[k2]);
        match s2[k2].args@[t2] {
            ApiCallArg::Output(id) => {
                assert(spec_arg_refs_ok(s, k2, s[k2].args@[t2]));
                let j = choose|j: int| 0 <= j < k2 && (#[trigger] s[j]).id == id;
                assert(s2[j].id == id);
            },
            _ => {},
        }
    }
    assert forall|k2: int| 0 <= k2 < s2.len() && spec_no_missing(s) implies spec_call_complete(
        #[trigger] s2[k2],
    ) by {
        assert(s2[k2] == s[k2]);
        assert(spec_call_complete(s[k2]));
    }
}

/// Remove one random call and complete the holes that leaves.
pub struct SpliceSeq {}

/// Append one random endpoint's call and complete it.
pub struct ExtendSeq {}

/// Drop the last call.
pub struct RemoveSuffixSeq {}

/// Drop the last call (the single-operator spelling).
pub struct TruncateSeq {}

/// Blank out uses of the first call's output and complete the holes.
pub struct RemovePrefixSeq {}

impl SpliceSeq {
    pub fn mutate(&self, rand: &mut Rand, schema: &Schema, input: &mut ApiSeq) -> (r: Result<
        crate::MutationResult,
        RailcarError,
    >)
        requires
            crate::rng::rand_wf(*old(rand)),
            schema_wf(*schema),
            seq_wf(old(input).seq@),
            spec_names_known(old(input).seq@, *schema),
        ensures
            crate::rng::rand_wf(*final(rand)),
            r is Ok ==> seq_wf(final(input).seq@) && spec_names_known(final(input).seq@, *schema),
            r == Ok::<crate::MutationResult, RailcarError>(crate::MutationResult::Skipped)
                ==> *final(input) == *old(input),
            old(input).seq@.len() < 2 ==> r == Ok::<crate::MutationResult, RailcarError>(
                crate::MutationResult::Skipped,
            ),
            old(input).seq@.len() >= 2 ==> r != Ok::<crate::MutationResult, RailcarError>(
                crate::MutationResult::Skipped,
            ),
            r is Ok ==> (r->Ok_0 is Mutated || r->Ok_0 is Skipped),
            (old(input).seq@.len() >= 2 && r is Ok) ==> {
                let ri = (spec_rand_value(*old(rand)) % (old(input).seq@.len() as u64)) as int;
                &&& r->Ok_0 is Mutated
                &&& final(input).fuzz@ == old(input).fuzz@
                &&& final(input).seq@.len() >= old(input).seq@.len() - 1
                &&& exists|mid: Seq<ApiCall>|
                    {
                        &&& mid.len() == old(input).seq@.len() - 1
                        &&& (forall|j: int| 0 <= j < ri ==> #[trigger] mid[j] == old(input).seq@[j])
                        &&& (forall|j: int|
                            ri <= j < mid.len() ==> spec_call_without_ref(
                                #[trigger] mid[j],
                                old(input).seq@[j + 1],
                                old(input).seq@[ri].id,
                            ))
                        &&& #[trigger] spec_order_kept(mid, final(input).seq@)
                    }
            },
            schema_ready(*schema) ==> r is Ok,
    {
        if input.seq.len() < 2 {
            return Ok(crate::MutationResult::Skipped);
        }
        let n = input.seq.len();
        let to_remove = rand.between(0, (n - 1) as u64) as usize;
        proof {
            assert(to_remove < input.seq@.len());
        }
        let ghost pre = input.seq@;
        input.remove(to_remove);
        proof {
            assert forall|j: int| 0 <= j < input.seq@.len() implies spec_schema_has(
                *schema,
                (#[trigger] input.seq@[j]).name@,
            ) by {
                if j < to_remove {
                    assert(input.seq@[j] == pre[j]);
                } else {
                    assert(spec_call_without_ref(
                        input.seq@[j],
                        pre[j + 1],
                        pre[to_remove as int].id,
                    ));
                }
            }
        }
        let ghost removed = input.seq@;
        match input.complete(rand, schema) {
            Ok(()) => {
                proof {
                    assert(spec_order_kept(removed, input.seq@));
                }
                Ok(crate::MutationResult::Mutated)
            },
            Err(e) => Err(e),
        }
    }
}

impl ExtendSeq {
    pub fn mutate(&self, rand: &mut Rand, schema: &Schema, input: &mut ApiSeq) -> (r: Result<
        crate::MutationResult,
        RailcarError,
    >)
        requires
            crate::rng::rand_wf(*old(rand)),
            schema_wf(*schema),
            seq_wf(old(input).seq@),
            spec_names_known(old(input).seq@, *schema),
        ensures
            crate::rng::rand_wf(*final(rand)),
            r is Ok ==> seq_wf(final(input).seq@) && spec_names_known(final(input).seq@, *schema),
            r == Ok::<crate::MutationResult, RailcarError>(crate::MutationResult::Skipped)
                ==> *final(input) == *old(input) && spec_has_id(old(input).seq@, u64::MAX),
            r == Ok::<crate::MutationResult, RailcarError>(crate::MutationResult::Mutated)
                ==> final(input).seq@.len() > old(input).seq@.len(),
            r is Ok ==> (r->Ok_0 is Mutated || r->Ok_0 is Skipped),
            schema_ready(*schema) && schema.entries@.len() > 0 ==> r is Ok,
            schema.entries@.len() == 0 ==> r is Err,
    {
        if schema.entries.len() == 0 {
            return Err(RailcarError::Unknown("empty schema".to_owned()));
        }
        let pick = rand.pick_index(schema.entries.len());
        let name = schema.entries[pick].0.clone();
        let argc = schema.entries[pick].1.args.len();
        let conv = schema.entries[pick].1.callconv;
        match input.append(name, argc, conv) {
            Some(_) => {},
            None => {
                return Ok(crate::MutationResult::Skipped);
            },
        }
        proof {
            assert(spec_schema_has(*schema, schema.entries@[pick as int].0@));
            assert forall|j: int| 0 <= j < input.seq@.len() implies spec_schema_has(
                *schema,
                (#[trigger] input.seq@[j]).name@,
            ) by {
                if j < old(input).seq@.len() {
                    assert(input.seq@[j] == old(input).seq@[j]);
                }
            }
        }
        match input.complete(rand, schema) {
            Ok(()) => Ok(crate::MutationResult::Mutated),
            Err(e) => Err(e),
        }
    }
}

impl RemoveSuffixSeq {
    pub fn mutate(&self, rand: &mut Rand, input: &mut ApiSeq) -> (r: Result<
        crate::MutationResult,
        RailcarError,
    >)
        requires
            crate::rng::rand_wf(*old(rand)),
            seq_wf(old(input).seq@),
        ensures
            crate::rng::rand_wf(*final(rand)),
            r is Ok,
            seq_wf(final(input).seq@),
            old(input).seq@.len() < 2 ==> r == Ok::<crate::MutationResult, RailcarError>(
                crate::MutationResult::Skipped,
            ) && *final(input) == *old(input),
            old(input).seq@.len() >= 2 ==> r == Ok::<crate::MutationResult, RailcarError>(
                crate::MutationResult::Mutated,
            ) && final(input).seq@ == old(input).seq@.take(old(input).seq@.len() - 1)
                && final(input).fuzz@ == old(input).fuzz@,
    {
        if input.seq.len() < 2 {
            return Ok(crate::MutationResult::Skipped);
        }
        let new_size = input.seq.len() - 1;
        input.seq.truncate(new_size);
        proof {
            lemma_take_keeps_wf(old(input).seq@, new_size as int);
        }
        Ok(crate::MutationResult::Mutated)
    }
}

impl TruncateSeq {
    pub fn mutate(&self, rand: &mut Rand, input: &mut ApiSeq) -> (r: Result<
        crate::MutationResult,
        RailcarError,
    >)
        requires
            crate::rng::rand_wf(*old(rand)),
            seq_wf(old(input).seq@),
        ensures
            crate::rng::rand_wf(*final(rand)),
            r is Ok,
            seq_wf(final(input).seq@),
            old(input).seq@.len() < 2 ==> r == Ok::<crate::MutationResult, RailcarError>(
                crate::MutationResult::Skipped,
            ) && *final(input) == *old(input),
            old(input).seq@.len() >= 2 ==> r == Ok::<crate::MutationResult, RailcarError>(
                crate::MutationResult::Mutated,
            ) && final(input).seq@ == old(input).seq@.take(old(input).seq@.len() - 1)
                && final(input).fuzz@ == old(input).fuzz@,
    {
        let op = RemoveSuffixSeq {  };
        op.mutate(rand, input)
    }
}

impl RemovePrefixSeq {
    pub fn mutate(&self, rand: &mut Rand, schema: &Schema, input: &mut ApiSeq) -> (r: Result<
        crate::MutationResult,
        RailcarError,
    >)
        requires
            crate::rng::rand_wf(*old(rand)),
            schema_wf(*schema),
            seq_wf(old(input).seq@),
            spec_names_known(old(input).seq@, *schema),
        ensures
            crate::rng::rand_wf(*final(rand)),
            r is Ok ==> seq_wf(final(input).seq@) && spec_names_known(final(input).seq@, *schema),
            old(input).seq@.len() < 2 ==> r == Ok::<crate::MutationResult, RailcarError>(
                crate::MutationResult::Skipped,
            ) && *final(input) == *old(input),
            old(input).seq@.len() >= 2 ==> r != Ok::<crate::MutationResult, RailcarError>(
                crate::MutationResult::Skipped,
            ),
            r is Ok ==> (r->Ok_0 is Mutated || r->Ok_0 is Skipped),
            (old(input).seq@.len() >= 2 && r is Ok) ==> r->Ok_0 is Mutated,
            schema_ready(*schema) ==> r is Ok,
    {
        if input.seq.len() < 2 {
            return Ok(crate::MutationResult::Skipped);
        }
        let ghost pre = input.seq@;
        input.shift();
        proof {
            assert forall|j: int| 0 <= j < input.seq@.len() implies spec_schema_has(
                *schema,
                (#[trigger] input.seq@[j]).name@,
            ) by {
                assert(spec_call_without_ref(input.seq@[j], pre[j], pre[0].id));
            }
        }
        match input.complete(rand, schema) {
            Ok(()) => Ok(crate::MutationResult::Mutated),
            Err(e) => Err(e),
        }
    }
}

impl crate::HasSeqLen for ApiSeq {
    fn seq_len_of(&self) -> usize {
        self.seq.len()
    }
}

impl crate::CanValidate for ApiSeq {
    fn check_valid(&self) -> bool {
        self.is_valid()
    }
}

/// Appending a call whose references name existing calls keeps the
/// invariant.
proof fn lemma_push_call_keeps_pre_wf(s: Seq<ApiCall>, c: ApiCall)
    requires
        seq_pre_wf(s),
        !spec_has_id(s, c.id),
        forall|t: int|
            0 <= t < c.args@.len() && (#[trigger] c.args@[t]) is Output ==> spec_has_id(
                s,
                c.args@[t]->Output_0,
            ),
    ensures
        seq_pre_wf(s.push(c)),
{
    let s2 = s.push(c);
    assert forall|i: int, j: int| 0 <= i < j < s2.len() implies (#[trigger] s2[i]).id != (
    #[trigger] s2[j]).id by {
        if j == s.len() {
            assert(s2[i] == s[i]);
            if s2[i].id == c.id {
                assert(spec_has_id(s, c.id));
            }
        } else {
            assert(s2[i] == s[i] && s2[j] == s[j]);
        }
    }
    assert forall|k: int, t: int|
        0 <= k < s2.len() && 0 <= t < s2[k].args@.len() implies spec_arg_refs_ok(
        s2,
        k,
        #[trigger] s2[k].args@[t],
    ) by {
        if k < s.len() {
            assert(s2[k] == s[k]);
            match s[k].args@[t] {
                ApiCallArg::Output(id) => {
                    assert(spec_arg_refs_ok(s, k, s[k].args@[t]));
                    let j = choose|j: int| 0 <= j < k && (#[trigger] s[j]).id == id;
                    assert(s2[j].id == id);
                },
                _ => {},
            }
        } else {
            match c.args@[t] {
                ApiCallArg::Output(id) => {
                    let j = choose|j: int| 0 <= j < s.len() && (#[trigger] s[j]).id == id;
                    assert(s2[j].id == id);
                    assert(j < k);
                },
                _ => {},
            }
        }
    }
}

/// Splice a random tail of another sequence onto a random prefix of this
/// one: the tail's calls get fresh ids, references into the dropped part of
/// the other sequence become holes, and a completion pass closes everything
/// out.
pub struct Crossover {}

impl Crossover {
    #[verifier::rlimit(100)]
    #[verifier::spinoff_prover]
    pub fn mutate(
        &self,
        rand: &mut Rand,
        schema: &Schema,
        input: &mut ApiSeq,
        other: &ApiSeq,
    ) -> (r: Result<crate::MutationResult, RailcarError>)
        requires
            crate::rng::rand_wf(*old(rand)),
            schema_wf(*schema),
            seq_wf(old(input).seq@),
            seq_wf(other.seq@),
            spec_names_known(old(input).seq@, *schema),
            spec_names_known(other.seq@, *schema),
        ensures
            crate::rng::rand_wf(*final(rand)),
            r is Ok ==> seq_wf(final(input).seq@) && spec_names_known(final(input).seq@, *schema),
            r == Ok::<crate::MutationResult, RailcarError>(crate::MutationResult::Skipped)
                ==> *final(input) == *old(input),
            r is Ok ==> (r->Ok_0 is Mutated || r->Ok_0 is Skipped),
            r == Ok::<crate::MutationResult, RailcarError>(crate::MutationResult::Skipped) ==> (
            other.seq@.len() == u64::MAX || old(input).seq@.len() == u64::MAX || exists|j: int|
                0 <= j < old(input).seq@.len() && (#[trigger] old(input).seq@[j]).id >= u64::MAX
                    - other.seq@.len()),
            schema_ready(*schema) ==> r is Ok,
    {
        // a random tail of the other sequence
        let other_len = other.seq.len();
        if other_len as u64 == u64::MAX {
            return Ok(crate::MutationResult::Skipped);
        }
        let cut2: usize = rand.between(0, other_len as u64) as usize;
        let suffix_len = other_len - cut2;
        // fresh ids for the tail sit right above this sequence's largest
        let base: CallId = match input.next_fresh_id() {
            Some(f) => {
                if suffix_len == 0 || f <= u64::MAX - ((suffix_len - 1) as u64) {
                    f
                } else {
                    // no room to mint distinct ids for the tail
                    proof {
                        if input.seq@.len() == 0 {
                            assert(f == 1);
                            assert(suffix_len >= 1 && suffix_len < u64::MAX);
                            assert(false);
                        }
                        let w = choose|j: int|
                            0 <= j < input.seq@.len() && (#[trigger] input.seq@[j]).id + 1 == f;
                        assert(input.seq@[w].id >= u64::MAX - other.seq@.len());
                    }
                    return Ok(crate::MutationResult::Skipped);
                }
            },
            None => {
                proof {
                    let w = choose|j: int|
                        0 <= j < input.seq@.len() && (#[trigger] input.seq@[j]).id == u64::MAX;
                    assert(input.seq@[w].id >= u64::MAX - other.seq@.len());
                }
                return Ok(crate::MutationResult::Skipped);
            },
        };
        // a random prefix of this sequence
        let input_len = input.seq.len();
        if input_len as u64 == u64::MAX {
            return Ok(crate::MutationResult::Skipped);
        }
        let cut1: usize = rand.between(0, input_len as u64) as usize;
        input.seq.truncate(cut1);
        proof {
            lemma_take_keeps_wf(old(input).seq@, cut1 as int);
            assert forall|j: int| 0 <= j < input.seq@.len() implies spec_schema_has(
                *schema,
                (#[trigger] input.seq@[j]).name@,
            ) by {
                assert(input.seq@[j] == old(input).seq@[j]);
            }
            assert forall|j: int| 0 <= j < input.seq@.len() implies (
            #[trigger] input.seq@[j]).id < base by {
                assert(input.seq@[j] == old(input).seq@[j]);
            }
        }
        // copy the tail over, remapping its internal references and turning
        // references into the dropped part into holes
        let mut k: usize = cut2;
        while k < other_len
            invariant
                crate::rng::rand_wf(*rand),
                schema_wf(*schema),
                seq_wf(other.seq@),
                spec_names_known(other.seq@, *schema),
                other_len == other.seq@.len(),
                cut2 <= k <= other_len,
                base as int + (other_len - cut2) <= u64::MAX as int + 1,
                input.fuzz@ == old(input).fuzz@,
                seq_pre_wf(input.seq@),
                spec_names_known(input.seq@, *schema),
                input.seq@.len() == cut1 + (k - cut2),
                forall|j: int|
                    0 <= j < cut1 ==> (#[trigger] input.seq@[j]).id < base,
                forall|j: int|
                    cut1 <= j < input.seq@.len() ==> (#[trigger] input.seq@[j]).id == base + (j
                        - cut1),
            decreases other_len - k,
        {
            let src_call = &other.seq[k];
            let new_id: CallId = base + ((k - cut2) as u64);
            let argc = src_call.args.len();
            let mut args: Vec<ApiCallArg> = Vec::new();
            let mut t: usize = 0;
            while t < argc
                invariant
                    seq_wf(other.seq@),
                    other_len == other.seq@.len(),
                    cut2 <= k < other_len,
                    base as int + (other_len - cut2) <= u64::MAX as int + 1,
                    *src_call == other.seq@[k as int],
                    argc == src_call.args@.len(),
                    t <= argc,
                    args@.len() == t,
                    forall|t2: int|
                        0 <= t2 < t && (#[trigger] args@[t2]) is Output ==> base
                            <= args@[t2]->Output_0 && (args@[t2]->Output_0 as int) < base + (k
                            - cut2),
                decreases argc - t,
            {
                let arg: ApiCallArg = match &src_call.args[t] {
                    ApiCallArg::Missing => ApiCallArg::Missing,
                    ApiCallArg::Constant(ty) => ApiCallArg::Constant(crate::schema::clone_type(
                        ty,
                    )),
                    ApiCallArg::Output(oid) => {
                        // the producer sits earlier in the other sequence;
                        // keep the reference only when it is in the tail
                        match other.index_of(*oid) {
                            Some(p) => {
                                proof {
                                    assert(spec_arg_refs_ok(
                                        other.seq@,
                                        k as int,
                                        other.seq@[k as int].args@[t as int],
                                    ));
                                    let w = choose|w: int|
                                        0 <= w < k && (#[trigger] other.seq@[w]).id == *oid;
                                    assert(p <= w);
                                }
                                if p >= cut2 {
                                    ApiCallArg::Output(base + ((p - cut2) as u64))
                                } else {
                                    ApiCallArg::Missing
                                }
                            },
                            None => ApiCallArg::Missing,
                        }
                    },
                };
                proof {
                    if arg is Output {
                        assert(base <= arg->Output_0 && (arg->Output_0 as int) < base + (k
                            - cut2));
                    }
                }
                args.push(arg);
                t = t + 1;
            }
            let call = ApiCall {
                id: new_id,
                name: src_call.name.clone(),
                args,
                conv: src_call.conv,
            };
            proof {
                assert(!spec_has_id(input.seq@, new_id)) by {
                    if spec_has_id(input.seq@, new_id) {
                        let j = choose|j: int|
                            0 <= j < input.seq@.len() && (#[trigger] input.seq@[j]).id == new_id;
                        if j < cut1 {
                            assert(input.seq@[j].id < base);
                        } else {
                            assert(input.seq@[j].id == base + (j - cut1));
                            assert(j - cut1 < k - cut2);
                        }
                        assert(false);
                    }
                }
                assert forall|t2: int|
                    0 <= t2 < call.args@.len() && (#[trigger] call.args@[t2]) is Output implies
                    spec_has_id(input.seq@, call.args@[t2]->Output_0) by {
                    let v = call.args@[t2]->Output_0;
                    let jpos = cut1 + (v - base);
                    assert(cut1 <= jpos < input.seq@.len());
                    assert(input.seq@[jpos].id == base + (jpos - cut1));
                    assert(input.seq@[jpos].id == v);
                }
                lemma_push_call_keeps_pre_wf(input.seq@, call);
                assert(spec_schema_has(*schema, call.name@)) by {
                    assert(spec_schema_has(*schema, other.seq@[k as int].name@));
                }
            }
            let ghost prev = input.seq@;
            input.seq.push(call);
            proof {
                assert forall|j: int| 0 <= j < input.seq@.len() implies spec_schema_has(
                    *schema,
                    (#[trigger] input.seq@[j]).name@,
                ) by {
                    if j < prev.len() {
                        assert(input.seq@[j] == prev[j]);
                    }
                }
            }
            k = k + 1;
        }
        match input.complete(rand, schema) {
            Ok(()) => Ok(crate::MutationResult::Mutated),
            Err(e) => Err(e),
        }
    }
}

/// Byte-level havoc over the auxiliary fuzz buffer; the call structure is
/// untouched, so validity is untouched with it.
pub struct FuzzHavoc {}

impl FuzzHavoc {
    pub fn mutate(&self, rand: &mut Rand, input: &mut ApiSeq) -> (r: Result<
        crate::MutationResult,
        RailcarError,
    >)
        requires
            crate::rng::rand_wf(*old(rand)),
            seq_wf(old(input).seq@),
        ensures
            crate::rng::rand_wf(*final(rand)),
            r == Ok::<crate::MutationResult, RailcarError>(crate::MutationResult::Mutated),
            final(input).seq == old(input).seq,
            final(input).fuzz@.len() == old(input).fuzz@.len(),
            seq_wf(final(input).seq@),
    {
        crate::graph_mutations::havoc_bytes(rand, &mut input.fuzz);
        Ok(crate::MutationResult::Mutated)
    }
}

/// The sequence operator one havoc step applies.
#[derive(Clone, Copy, Debug, PartialEq, Eq, Structural)]
pub enum SeqOperator {
    Splice,
    Extend,
    RemoveSuffix,
    RemovePrefix,
}

/// The operator a draw selects: uniform over the four operators.
pub open spec fn spec_seq_operator_of(v: u64) -> SeqOperator {
    if v % 4 == 0 {
        SeqOperator::Splice
    } else if v % 4 == 1 {
        SeqOperator::Extend
    } else if v % 4 == 2 {
        SeqOperator::RemoveSuffix
    } else {
        SeqOperator::RemovePrefix
    }
}

/// The havoc scheduler over sequences: each step draws one operator
/// uniformly and applies it.
pub struct HavocSeq {}

impl HavocSeq {
    /// One havoc step. The operator applied is pinned by the draw; whatever
    /// it does, a valid sequence stays valid.
    pub fn mutate(&self, rand: &mut Rand, schema: &Schema, input: &mut ApiSeq) -> (r: Result<
        (SeqOperator, crate::MutationResult),
        RailcarError,
    >)
        requires
            crate::rng::rand_wf(*old(rand)),
            schema_wf(*schema),
            seq_wf(old(input).seq@),
            spec_names_known(old(input).seq@, *schema),
        ensures
            crate::rng::rand_wf(*final(rand)),
            r is Ok ==> seq_wf(final(input).seq@) && spec_names_known(final(input).seq@, *schema),
            r is Ok ==> (r->Ok_0).0 == spec_seq_operator_of(spec_rand_value(*old(rand))),
            schema_ready(*schema) && schema.entries@.len() > 0 ==> r is Ok,
    {
        let pick = rand.below(4);
        let op: SeqOperator = if pick == 0 {
            SeqOperator::Splice
        } else if pick == 1 {
            SeqOperator::Extend
        } else if pick == 2 {
            SeqOperator::RemoveSuffix
        } else {
            SeqOperator::RemovePrefix
        };
        let outcome = match op {
            SeqOperator::Splice => SpliceSeq {  }.mutate(rand, schema, input),
            SeqOperator::Extend => ExtendSeq {  }.mutate(rand, schema, input),
            SeqOperator::RemoveSuffix => {
                let ghost pre = input.seq@;
                let r2 = RemoveSuffixSeq {  }.mutate(rand, input);
                proof {
                    assert forall|j: int| 0 <= j < input.seq@.len() implies spec_schema_has(
                        *schema,
                        (#[trigger] input.seq@[j]).name@,
                    ) by {
                        assert(input.seq@[j] == pre[j]);
                    }
                }
                r2
            },
            SeqOperator::RemovePrefix => RemovePrefixSeq {  }.mutate(rand, schema, input),
        };
        match outcome {
            Ok(m) => Ok((op, m)),
            Err(e) => Err(e),
        }
    }
}
} // verus!
