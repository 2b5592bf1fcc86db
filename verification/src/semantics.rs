//! The meaning of sets, patterns and constraints, as spec functions
//! over the ghost projections.
//!
//! Everything here is stated against a [`CtxSem`]: a pattern's meaning
//! depends on the current value sets of the metavariables it refers to.
//! A reference that is unbound, or whose indices fall outside the
//! context, constrains nothing and therefore matches every value.

use crate::constraint::ConSem;
use crate::constraint::ConstraintSem;
use crate::constraint::FuncSem;
use crate::constraint::spec_func_eval;
use crate::context::CtxSem;
use crate::data_type::TParamSem;
use crate::data_type::TypeSem;
use crate::data_type::lemma_tparam_smaller;
use crate::data_type::tparam_size;
use crate::data_type::type_size;
use crate::metavars::DataSem;
use crate::pattern::PatSem;
use crate::reference::RefSem;
use crate::sets::Boolean;
use crate::sets::ranges_have;
use crate::valueset::DtSetSem;
use crate::valueset::VSetSem;
use crate::valueset::ValSem;
use vstd::prelude::*;

verus! {

/// Fuel for the three-valued query family: cover, intersection and
/// superset checks recurse through metavariable references, which may
/// form cycles; an exhausted budget answers with the always-sound
/// "unknown" (or over-reports an intersection).
pub const QUERY_FUEL: u64 = 32;

/// The data block an alias index leads to, if the indices are in range.
pub open spec fn data_at(c: CtxSem, a: usize) -> Option<DataSem> {
    if (a as int) < c.aliases.len() {
        let d = c.aliases[a as int];
        if (d as int) < c.datas.len() {
            Some(c.datas[d as int])
        } else {
            None
        }
    } else {
        None
    }
}

/// The index of the data block a bound reference leads to.
pub open spec fn ref_didx(c: CtxSem, r: RefSem) -> int {
    match r.alias {
        Some(a) => c.aliases[a as int] as int,
        None => -1,
    }
}

/// The data block a reference leads to, if bound and in range.
pub open spec fn ref_data(c: CtxSem, r: RefSem) -> Option<DataSem> {
    match r.alias {
        Some(a) => data_at(c, a),
        None => None,
    }
}

/// The boolean a reference's metavariable is resolved to: the boolean
/// partition holds exactly one value and the other partitions are
/// empty.
pub open spec fn spec_ref_bool_value(c: CtxSem, r: RefSem) -> Option<bool> {
    match ref_data(c, r) {
        Some(ds) => if ds.values.integers.len() == 0 && ds.values.data_types.repr_empty() {
            match ds.values.booleans {
                Boolean::Only(b) => Some(b),
                _ => None,
            }
        } else {
            None
        },
        None => None,
    }
}

/// The integer a reference's metavariable is resolved to.
pub open spec fn spec_ref_int_value(c: CtxSem, r: RefSem) -> Option<i64> {
    match ref_data(c, r) {
        Some(ds) => if ds.values.booleans is Empty && ds.values.data_types.repr_empty()
            && ds.values.integers.len() == 1 && ds.values.integers[0].lo
            == ds.values.integers[0].hi {
            Some(ds.values.integers[0].lo)
        } else {
            None
        },
        None => None,
    }
}

/// The plain (boolean or integer) value a reference's metavariable is
/// resolved to, if any.
pub open spec fn spec_ref_plain_value(c: CtxSem, r: RefSem) -> Option<ValSem> {
    match spec_ref_bool_value(c, r) {
        Some(b) => Some(ValSem::Boolean(b)),
        None => match spec_ref_int_value(c, r) {
            Some(i) => Some(ValSem::Integer(i)),
            None => None,
        },
    }
}

/// The value a reference's metavariable is resolved to when the
/// resolution needs no pattern concretization: a plain value, or the
/// single entry of an exact data-type partition.
pub open spec fn spec_ref_exact_value(c: CtxSem, r: RefSem) -> Option<ValSem> {
    match spec_ref_plain_value(c, r) {
        Some(v) => Some(v),
        None => match ref_data(c, r) {
            Some(ds) => if ds.values.booleans is Empty && ds.values.integers.len() == 0 {
                match ds.values.data_types {
                    DtSetSem::Exact(ts) => if ts.len() == 1 {
                        Some(ValSem::DataType(ts[0]))
                    } else {
                        None
                    },
                    _ => None,
                }
            } else {
                None
            },
            None => None,
        },
    }
}

/// Whether a reference's metavariable still admits the boolean `b`.
pub open spec fn spec_ref_has_bool(c: CtxSem, r: RefSem, b: bool) -> bool {
    match ref_data(c, r) {
        Some(ds) => ds.values.booleans.has(b),
        None => true,
    }
}

/// Whether a reference's metavariable still admits the integer `v`.
pub open spec fn spec_ref_has_int(c: CtxSem, r: RefSem, v: int) -> bool {
    match ref_data(c, r) {
        Some(ds) => ranges_have(ds.values.integers, v),
        None => true,
    }
}

/// Whether a reference's metavariable still admits the data type `t`.
pub open spec fn spec_ref_has_type(c: CtxSem, r: RefSem, t: TypeSem) -> bool
    decreases type_size(t), 3int, 0int,
{
    match ref_data(c, r) {
        Some(ds) => spec_dtset_has(c, ds.values.data_types, t),
        None => true,
    }
}

/// Whether a data-type set contains the concrete type `t`.
pub open spec fn spec_dtset_has(c: CtxSem, s: DtSetSem, t: TypeSem) -> bool
    decreases type_size(t), 2int, 0int,
{
    match s {
        DtSetSem::All => true,
        DtSetSem::Patterns(ps) => spec_any_pat_matches(c, ps, t),
        DtSetSem::Exact(ts) => spec_any_type_is(ts, t),
    }
}

/// Unfolds set membership for a pattern union.
pub proof fn lemma_dtset_has_patterns(c: CtxSem, ps: Seq<PatSem>, t: TypeSem)
    ensures
        spec_dtset_has(c, DtSetSem::Patterns(ps), t) == spec_any_pat_matches(c, ps, t),
{
}

/// Unfolds set membership for an exact type list.
pub proof fn lemma_dtset_has_exact(c: CtxSem, ts: Seq<TypeSem>, t: TypeSem)
    ensures
        spec_dtset_has(c, DtSetSem::Exact(ts), t) == spec_any_type_is(ts, t),
{
}

/// Whether some pattern of the sequence matches `t`.
pub open spec fn spec_any_pat_matches(c: CtxSem, ps: Seq<PatSem>, t: TypeSem) -> bool
    decreases type_size(t), 1int, ps.len(),
{
    if ps.len() == 0 {
        false
    } else {
        spec_pat_matches(c, ps[0], t) || spec_any_pat_matches(c, ps.drop_first(), t)
    }
}

/// Some pattern of the sequence matches `t` exactly when one of its
/// positions matches `t`.
pub proof fn lemma_any_pat_matches(c: CtxSem, ps: Seq<PatSem>, t: TypeSem)
    ensures
        spec_any_pat_matches(c, ps, t) <==> exists|i: int|
            0 <= i < ps.len() && #[trigger] spec_pat_matches(c, ps[i], t),
    decreases ps.len(),
{
    if ps.len() > 0 {
        lemma_any_pat_matches(c, ps.drop_first(), t);
        if spec_any_pat_matches(c, ps, t) {
            if spec_pat_matches(c, ps[0], t) {
            } else {
                let i = choose|i: int|
                    0 <= i < ps.drop_first().len() && #[trigger] spec_pat_matches(
                        c,
                        ps.drop_first()[i],
                        t,
                    );
                assert(ps.drop_first()[i] == ps[i + 1]);
                assert(spec_pat_matches(c, ps[i + 1], t));
            }
        }
        if exists|i: int| 0 <= i < ps.len() && #[trigger] spec_pat_matches(c, ps[i], t) {
            let i = choose|i: int|
                0 <= i < ps.len() && #[trigger] spec_pat_matches(c, ps[i], t);
            if i > 0 {
                assert(ps.drop_first()[i - 1] == ps[i]);
                assert(spec_pat_matches(c, ps.drop_first()[i - 1], t));
            }
        }
    }
}

/// Whether some entry of the sequence is the type `t`.
pub open spec fn spec_any_type_is(ts: Seq<TypeSem>, t: TypeSem) -> bool
    decreases ts.len(),
{
    if ts.len() == 0 {
        false
    } else {
        ts[0] == t || spec_any_type_is(ts.drop_first(), t)
    }
}

/// Some entry of the sequence is `t` exactly when one of its positions
/// is `t`.
pub proof fn lemma_any_type_is(ts: Seq<TypeSem>, t: TypeSem)
    ensures
        spec_any_type_is(ts, t) <==> exists|i: int| 0 <= i < ts.len() && #[trigger] ts[i] == t,
    decreases ts.len(),
{
    if ts.len() > 0 {
        lemma_any_type_is(ts.drop_first(), t);
        if spec_any_type_is(ts, t) {
            if ts[0] == t {
            } else {
                let i = choose|i: int|
                    0 <= i < ts.drop_first().len() && #[trigger] ts.drop_first()[i] == t;
                assert(ts.drop_first()[i] == ts[i + 1]);
            }
        }
        if exists|i: int| 0 <= i < ts.len() && #[trigger] ts[i] == t {
            let i = choose|i: int| 0 <= i < ts.len() && #[trigger] ts[i] == t;
            if i > 0 {
                assert(ts.drop_first()[i - 1] == ts[i]);
            }
        }
    }
}

/// Whether the concrete type `t` matches the pattern `p` under the
/// context: class identity; nullability only when the referenced
/// metavariable is resolved; variation only when specified; parameters
/// element-wise when specified.
pub open spec fn spec_pat_matches(c: CtxSem, p: PatSem, t: TypeSem) -> bool
    decreases type_size(t), 0int, 0int,
    via spec_pat_matches_decreases
{
    &&& p.class == t.class
    &&& match p.nullable {
        Some(r) => match spec_ref_bool_value(c, r) {
            Some(b) => b == t.nullable,
            None => true,
        },
        None => true,
    }
    &&& match p.variation {
        Some(v) => v == t.variation,
        None => true,
    }
    &&& match p.parameters {
        Some(prs) => prs.len() == t.parameters.len() && forall|k: int|
            0 <= k < prs.len() ==> spec_pparam_matches(c, #[trigger] prs[k], t.parameters[k]),
        None => true,
    }
}

#[via_fn]
proof fn spec_pat_matches_decreases(c: CtxSem, p: PatSem, t: TypeSem) {
    assert forall|k: int| 0 <= k < t.parameters.len() implies tparam_size(
        #[trigger] t.parameters[k],
    ) < type_size(t) by {
        lemma_tparam_smaller(t, k);
    }
}

/// Whether the concrete parameter `tp` matches the metavariable
/// reference of a pattern-parameter position.
pub open spec fn spec_pparam_matches(c: CtxSem, r: RefSem, tp: TParamSem) -> bool
    decreases tparam_size(tp), 4int, 0int,
{
    match tp {
        TParamSem::Typ(t) => spec_ref_has_type(c, r, t),
        TParamSem::Unsigned(u) => u <= i64::MAX as u64 && spec_ref_has_int(c, r, u as int),
    }
}

/// Whether a value set still admits the value `v`.
pub open spec fn spec_vset_has(c: CtxSem, vs: VSetSem, v: ValSem) -> bool {
    match v {
        ValSem::Boolean(b) => vs.booleans.has(b),
        ValSem::Integer(i) => ranges_have(vs.integers, i as int),
        ValSem::DataType(t) => spec_dtset_has(c, vs.data_types, t),
    }
}

/// Whether a reference's metavariable still admits the value `v`.
pub open spec fn spec_ref_has(c: CtxSem, r: RefSem, v: ValSem) -> bool {
    match ref_data(c, r) {
        Some(ds) => spec_vset_has(c, ds.values, v),
        None => true,
    }
}

/// The projection of the constraint that forces a metavariable to one
/// boolean.
pub open spec fn forced_bool_con(b: bool, reason: Seq<char>) -> ConstraintSem {
    ConstraintSem {
        data: ConSem::Within(
            VSetSem {
                booleans: Boolean::Only(b),
                integers: Seq::empty(),
                data_types: DtSetSem::Patterns(Seq::empty()),
            },
        ),
        reason,
    }
}

/// The projection of the constraint that forces a metavariable to one
/// integer.
pub open spec fn forced_int_con(v: i64, reason: Seq<char>) -> ConstraintSem {
    ConstraintSem {
        data: ConSem::Within(
            VSetSem {
                booleans: Boolean::Empty,
                integers: seq![crate::sets::IntRange { lo: v, hi: v }],
                data_types: DtSetSem::Patterns(Seq::empty()),
            },
        ),
        reason,
    }
}

/// The projection of the constraint that forces a metavariable to one
/// concrete type.
pub open spec fn forced_type_con(t: TypeSem, reason: Seq<char>) -> ConstraintSem {
    ConstraintSem {
        data: ConSem::Within(
            VSetSem {
                booleans: Boolean::Empty,
                integers: Seq::empty(),
                data_types: DtSetSem::Exact(seq![t]),
            },
        ),
        reason,
    }
}

/// The projection of the constraint that forces a parameter position's
/// metavariable to the given concrete parameter.
pub open spec fn forced_param_con(tp: TParamSem, reason: Seq<char>) -> ConstraintSem {
    match tp {
        TParamSem::Unsigned(u) => forced_int_con(u as i64, reason),
        TParamSem::Typ(ts) => forced_type_con(ts, reason),
    }
}

/// Whether a parameter position's metavariable holds exactly the given
/// concrete parameter.
pub open spec fn spec_forced_param(c: CtxSem, rs: RefSem, tp: TParamSem) -> bool {
    match tp {
        TParamSem::Unsigned(u) => u <= i64::MAX as u64 && spec_ref_int_value(c, rs) == Some(
            u as i64,
        ),
        TParamSem::Typ(ts) => spec_ref_exact_value(c, rs) == Some(ValSem::DataType(ts)),
    }
}

/// Whether a parameter position's metavariable holds exactly the given
/// concrete parameter, or already carried the identical forcing
/// constraint when it was consulted.
pub open spec fn spec_forced_or_recorded(
    c: CtxSem,
    rs: RefSem,
    tp: TParamSem,
    reason: Seq<char>,
) -> bool {
    spec_forced_param(c, rs, tp) || (match ref_data(c, rs) {
        Some(ds) => cons_contain(ds.constraints, forced_param_con(tp, reason)),
        None => false,
    })
}

/// Whether a nullability metavariable is resolved to the given boolean,
/// or already carried the identical forcing constraint.
pub open spec fn spec_forced_bool_or_recorded(
    c: CtxSem,
    rs: RefSem,
    b: bool,
    reason: Seq<char>,
) -> bool {
    spec_ref_bool_value(c, rs) == Some(b) || (match ref_data(c, rs) {
        Some(ds) => cons_contain(ds.constraints, forced_bool_con(b, reason)),
        None => false,
    })
}

/// The projection of the constraint that a nullability metavariable is
/// a boolean.
pub open spec fn kind_bool_con(reason: Seq<char>) -> ConstraintSem {
    ConstraintSem {
        data: ConSem::Within(
            VSetSem {
                booleans: Boolean::All,
                integers: Seq::empty(),
                data_types: DtSetSem::Patterns(Seq::empty()),
            },
        ),
        reason,
    }
}

/// The projection of the constraint that a parameter metavariable is a
/// data type.
pub open spec fn kind_type_con(reason: Seq<char>) -> ConstraintSem {
    ConstraintSem {
        data: ConSem::Within(
            VSetSem {
                booleans: Boolean::Empty,
                integers: Seq::empty(),
                data_types: DtSetSem::All,
            },
        ),
        reason,
    }
}

/// The projection of the constraint that a parameter metavariable is an
/// unsigned integer in machine range.
pub open spec fn kind_int_con(reason: Seq<char>) -> ConstraintSem {
    ConstraintSem {
        data: ConSem::Within(
            VSetSem {
                booleans: Boolean::Empty,
                integers: seq![crate::sets::IntRange { lo: 0, hi: i64::MAX }],
                data_types: DtSetSem::Patterns(Seq::empty()),
            },
        ),
        reason,
    }
}

/// Recording a constraint keeps every previously recorded constraint.
pub proof fn lemma_step_keeps_contained(
    c: CtxSem,
    pre: DataSem,
    con0: ConstraintSem,
    post: DataSem,
    ok: bool,
    con: ConstraintSem,
)
    requires
        data_step(c, pre, con0, post, ok),
        cons_contain(pre.constraints, con),
    ensures
        cons_contain(post.constraints, con),
{
    if !cons_contain(pre.constraints, con0) {
        let i = choose|i: int| 0 <= i < pre.constraints.len() && #[trigger] pre.constraints[i]
            == con;
        assert(post.constraints[i] == con);
    }
}

/// An empty-representation data-type set has no members.
pub proof fn lemma_empty_has_none(c: CtxSem, s: DtSetSem, t: TypeSem)
    requires
        s.repr_empty(),
    ensures
        !spec_dtset_has(c, s, t),
{
}

/// A value set holding a value is not empty by representation.
pub proof fn lemma_has_nonempty(c: CtxSem, vs: VSetSem, v: ValSem)
    requires
        spec_vset_has(c, vs, v),
    ensures
        !vs.repr_empty(),
{
    match v {
        ValSem::Boolean(b) => {
            assert(vs.booleans.has(b));
        },
        ValSem::Integer(_) => {},
        ValSem::DataType(t) => {
            match vs.data_types {
                DtSetSem::All => {},
                DtSetSem::Patterns(ps) => {
                    assert(spec_any_pat_matches(c, ps, t));
                },
                DtSetSem::Exact(ts) => {
                    assert(spec_any_type_is(ts, t));
                },
            }
        },
    }
}

/// No data block's value set is empty by representation: the state of a
/// context in which no contradiction has been detected.
pub open spec fn ctx_sets_nonempty(c: CtxSem) -> bool {
    forall|d: int| 0 <= d < c.datas.len() ==> !(#[trigger] c.datas[d]).values.repr_empty()
}

/// The resolved plain values of the references of a function
/// constraint, if every one is resolved.
pub open spec fn spec_fun_args(c: CtxSem, refs: Seq<RefSem>) -> Option<Seq<ValSem>>
    decreases refs.len(),
{
    if refs.len() == 0 {
        Some(Seq::empty())
    } else {
        match spec_fun_args(c, refs.drop_last()) {
            Some(vs) => match spec_ref_plain_value(c, refs[refs.len() - 1]) {
                Some(v) => Some(vs.push(v)),
                None => None,
            },
            None => None,
        }
    }
}

/// Composing one more resolved argument extends the argument list.
pub proof fn lemma_fun_args_step(c: CtxSem, refs: Seq<RefSem>, i: int)
    requires
        0 <= i < refs.len(),
    ensures
        spec_fun_args(c, refs.subrange(0, i + 1)) == (match spec_fun_args(
            c,
            refs.subrange(0, i),
        ) {
            Some(vs) => match spec_ref_plain_value(c, refs[i]) {
                Some(v) => Some(vs.push(v)),
                None => None::<Seq<ValSem>>,
            },
            None => None::<Seq<ValSem>>,
        }),
{
    let s = refs.subrange(0, i + 1);
    assert(s.drop_last() =~= refs.subrange(0, i));
    assert(s[s.len() - 1] == refs[i]);
}

/// One unresolved reference leaves the whole argument list unresolved.
pub proof fn lemma_fun_args_unresolved(c: CtxSem, refs: Seq<RefSem>, i: int)
    requires
        0 <= i < refs.len(),
        spec_ref_plain_value(c, refs[i]) is None,
    ensures
        spec_fun_args(c, refs) is None,
    decreases refs.len(),
{
    if i < refs.len() - 1 {
        lemma_fun_args_unresolved(c, refs.drop_last(), i);
        assert(refs.drop_last()[i] == refs[i]);
    }
}

/// The value a function constraint forces, if all inputs are resolved
/// and the function is defined on them.
pub open spec fn spec_fun_forced(c: CtxSem, f: FuncSem, refs: Seq<RefSem>) -> Option<ValSem> {
    match spec_fun_args(c, refs) {
        Some(args) => spec_func_eval(f, args),
        None => None,
    }
}

/// How applying one constraint transforms a value set.  The boolean and
/// integer partitions are exact intersections; the data-type partition
/// shrinks, keeps everything the constraint admits, and is exact
/// whenever either operand lists concrete types.  A function constraint
/// whose inputs are all resolved reduces the set to the function's
/// value; otherwise it leaves the set unchanged.
pub open spec fn constrain_rel(c: CtxSem, pre: VSetSem, con: ConSem, post: VSetSem) -> bool {
    &&& (forall|b: bool| post.booleans.has(b) ==> pre.booleans.has(b))
    &&& (forall|v: int| ranges_have(post.integers, v) ==> ranges_have(pre.integers, v))
    &&& (forall|t: TypeSem| spec_dtset_has(c, post.data_types, t) ==> spec_dtset_has(
        c,
        pre.data_types,
        t,
    ))
    &&& match con {
        ConSem::Within(w) => {
            &&& (forall|b: bool| post.booleans.has(b) == (pre.booleans.has(b)
                && w.booleans.has(b)))
            &&& (forall|v: int| ranges_have(post.integers, v) == (ranges_have(pre.integers, v)
                && ranges_have(w.integers, v)))
            &&& (forall|t: TypeSem| spec_dtset_has(c, pre.data_types, t) && spec_dtset_has(
                c,
                w.data_types,
                t,
            ) ==> spec_dtset_has(c, post.data_types, t))
            &&& (pre.data_types.repr_empty() ==> post.data_types.repr_empty())
            &&& (w.data_types.repr_empty() ==> post.data_types.repr_empty())
            &&& (match w.data_types {
                DtSetSem::Exact(wts) => (match post.data_types {
                    DtSetSem::Exact(pts) => pts.len() <= wts.len() && forall|j: int|
                        0 <= j < pts.len() ==> spec_any_type_is(wts, #[trigger] pts[j]),
                    _ => false,
                }),
                _ => true,
            })
            &&& ((pre.data_types is Exact || w.data_types is Exact) ==> forall|t: TypeSem|
                spec_dtset_has(c, post.data_types, t) == (spec_dtset_has(c, pre.data_types, t)
                    && spec_dtset_has(c, w.data_types, t)))
        },
        ConSem::Pattern(p) => {
            &&& (forall|b: bool| !post.booleans.has(b))
            &&& (forall|v: int| !ranges_have(post.integers, v))
            &&& (pre.data_types.repr_empty() ==> post.data_types.repr_empty())
            &&& (forall|t: TypeSem| spec_dtset_has(c, pre.data_types, t) && spec_pat_matches(
                c,
                p,
                t,
            ) ==> spec_dtset_has(c, post.data_types, t))
            &&& (pre.data_types is Exact ==> forall|t: TypeSem|
                spec_dtset_has(c, post.data_types, t) == (spec_dtset_has(c, pre.data_types, t)
                    && spec_pat_matches(c, p, t)))
        },
        ConSem::Function(f, refs) => match spec_fun_forced(c, f, refs) {
            Some(v) => {
                &&& (forall|w: ValSem| spec_vset_has(c, post, w) == (spec_vset_has(c, pre, w)
                    && w == v))
                &&& (match v {
                    ValSem::Boolean(b) => post.booleans == (if pre.booleans.has(b) {
                        crate::sets::Boolean::Only(b)
                    } else {
                        crate::sets::Boolean::Empty
                    }) && post.integers.len() == 0 && post.data_types.repr_empty(),
                    ValSem::Integer(x) => post.booleans is Empty && post.data_types.repr_empty()
                        && (if ranges_have(pre.integers, x as int) {
                        post.integers.len() == 1 && post.integers[0].lo == x
                            && post.integers[0].hi == x
                    } else {
                        post.integers.len() == 0
                    }),
                    ValSem::DataType(t) => post.booleans is Empty && post.integers.len() == 0
                        && (match post.data_types {
                        DtSetSem::Exact(ts) => if spec_dtset_has(c, pre.data_types, t) {
                            ts.len() == 1 && ts[0] == t
                        } else {
                            ts.len() == 0
                        },
                        _ => false,
                    }),
                })
            },
            None => post == pre,
        },
    }
}

/// Whether the projected constraint list holds the projected
/// constraint.
pub open spec fn cons_contain(cs: Seq<ConstraintSem>, con: ConstraintSem) -> bool {
    exists|i: int| 0 <= i < cs.len() && #[trigger] cs[i] == con
}

/// Whether every membership constraint in the list admits the boolean
/// `b`; constraints of other kinds are ignored.
pub open spec fn within_all_bool(cs: Seq<ConstraintSem>, b: bool) -> bool {
    forall|k: int| 0 <= k < cs.len() ==> (match (#[trigger] cs[k]).data {
        ConSem::Within(w) => w.booleans.has(b),
        _ => true,
    })
}

/// Whether every membership constraint in the list admits the integer
/// `v`; constraints of other kinds are ignored.
pub open spec fn within_all_int(cs: Seq<ConstraintSem>, v: int) -> bool {
    forall|k: int| 0 <= k < cs.len() ==> (match (#[trigger] cs[k]).data {
        ConSem::Within(w) => ranges_have(w.integers, v),
        _ => true,
    })
}

/// How recording one constraint transforms a data block: a duplicate
/// changes nothing; a new constraint is appended, the value set is
/// transformed by [`constrain_rel`], and the update flag is raised.
/// `ok` says whether the block kept a non-empty value set.
pub open spec fn data_step(
    c: CtxSem,
    pre: DataSem,
    con: ConstraintSem,
    post: DataSem,
    ok: bool,
) -> bool {
    if cons_contain(pre.constraints, con) {
        post == pre && ok
    } else {
        &&& post.constraints == pre.constraints.push(con)
        &&& constrain_rel(c, pre.values, con.data, post.values)
        &&& post.updated
        &&& post.complete == pre.complete
        &&& post.aliases == pre.aliases
        &&& (ok <==> !post.values.repr_empty())
    }
}

} // verus!
