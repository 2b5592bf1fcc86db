//! Data-type patterns: symbolic descriptions of data types with
//! embedded metavariable references.
//!
//! A pattern names a class, refers its nullability to a boolean
//! metavariable, optionally fixes a variation, and optionally lists a
//! parameter pack whose entries refer to metavariables.  Matching a
//! concrete type against a pattern consults the current value sets of
//! the referenced metavariables in a [`crate::context::Context`].

use crate::constraint::Constraint;
use crate::constraint::ConstraintSem;
use crate::context::Context;
use crate::data_type;
use crate::data_type::Class;
use crate::diag::Diagnostic;
use crate::sets::Integer;
use crate::valueset::DataType;
use crate::valueset::Value;
use crate::valueset::ValueSet;
use crate::data_type::Variation;
use crate::data_type::lemma_params_sem;
use crate::data_type::lemma_tparam_smaller;
use crate::data_type::tparam_size;
use crate::data_type::type_size;
use crate::reference::RefSem;
use crate::reference::Reference;
use crate::semantics::spec_pat_matches;
use crate::semantics::spec_pparam_matches;
use crate::semantics::spec_ref_has_int;
use crate::semantics::spec_ref_has_type;
use vstd::prelude::*;

verus! {

/// Ghost projection of a pattern.
pub ghost struct PatSem {
    /// Class id.
    pub class: u64,
    /// The nullability metavariable, if one was supplied.
    pub nullable: Option<RefSem>,
    /// The variation: `None` when unspecified, `Some(None)` for the base
    /// variation, `Some(Some(id))` for a named variation.
    pub variation: Option<Option<u64>>,
    /// The parameter pack: `None` when unspecified, else the referenced
    /// metavariables in order.
    pub parameters: Option<Seq<RefSem>>,
}

/// A parameter within a data-type parameter pack.
#[derive(Debug)]
pub struct Parameter {
    /// Name of this parameter, used only when the class expects named
    /// members.
    pub name: Option<String>,
    /// The metavariable holding the value of this parameter.
    pub value: Reference,
}

impl Clone for Parameter {
    /// Copies the parameter; the name and the reference's projection
    /// carry over.
    fn clone(&self) -> (res: Self)
        ensures
            res.value.sem() == self.value.sem(),
            (match (res.name, self.name) {
                (Some(a), Some(b)) => a@ == b@,
                (None, None) => true,
                _ => false,
            }),
    {
        Parameter {
            name: match &self.name {
                Some(n) => Some(n.clone()),
                None => None,
            },
            value: self.value.clone(),
        }
    }
}

/// A pattern that matches some set of data types.
#[derive(Debug)]
pub struct Pattern {
    /// Type class.
    pub class: Class,
    /// Nullability, referred to a boolean metavariable.  `None` matches
    /// any nullability.
    pub nullable: Option<Reference>,
    /// Type variation: `None` matches any variation.
    pub variation: Option<Variation>,
    /// Parameters: `None` matches any parameter pack the class allows.
    pub parameters: Option<Vec<Parameter>>,
}

/// Semantic projections of a sequence of pattern parameters.
pub open spec fn pparams_sem(s: Seq<Parameter>) -> Seq<RefSem>
    decreases s,
{
    if s.len() == 0 {
        Seq::empty()
    } else {
        pparams_sem(s.drop_last()).push(s[s.len() - 1].value.sem())
    }
}

/// The projection of a parameter sequence is the sequence of the
/// references' projections.
pub proof fn lemma_pparams_sem(s: Seq<Parameter>)
    ensures
        pparams_sem(s).len() == s.len(),
        forall|i: int| 0 <= i < s.len() ==> #[trigger] pparams_sem(s)[i] == s[i].value.sem(),
    decreases s,
{
    if s.len() > 0 {
        lemma_pparams_sem(s.drop_last());
        assert forall|i: int| 0 <= i < s.len() implies #[trigger] pparams_sem(s)[i]
            == s[i].value.sem() by {
            if i < s.len() - 1 {
                assert(pparams_sem(s)[i] == pparams_sem(s.drop_last())[i]);
                assert(s.drop_last()[i] == s[i]);
            }
        }
    }
}

impl Pattern {
    /// Semantic projection of the pattern.
    pub open spec fn sem(self) -> PatSem {
        PatSem {
            class: self.class.id,
            nullable: match self.nullable {
                Some(r) => Some(r.sem()),
                None => None,
            },
            variation: match self.variation {
                Some(v) => Some(v.sem()),
                None => None,
            },
            parameters: match self.parameters {
                Some(ps) => Some(pparams_sem(ps@)),
                None => None,
            },
        }
    }
}

impl Clone for Pattern {
    /// Copies the pattern; its projection carries over.
    fn clone(&self) -> (res: Self)
        ensures
            res.sem() == self.sem(),
    {
        let parameters = match &self.parameters {
            Some(ps) => {
                let mut v: Vec<Parameter> = Vec::new();
                let mut i: usize = 0;
                while i < ps.len()
                    invariant
                        i <= ps@.len(),
                        v@.len() == i,
                        forall|k: int| 0 <= k < i ==> #[trigger] v@[k].value.sem()
                            == ps@[k].value.sem(),
                    decreases ps@.len() - i,
                {
                    let p = &ps[i];
                    v.push(p.clone());
                    i += 1;
                }
                proof {
                    lemma_pparams_sem(v@);
                    lemma_pparams_sem(ps@);
                    assert(pparams_sem(v@) =~= pparams_sem(ps@));
                }
                Some(v)
            },
            None => None,
        };
        Pattern {
            class: self.class.clone(),
            nullable: match &self.nullable {
                Some(r) => Some(r.clone()),
                None => None,
            },
            variation: match &self.variation {
                Some(v) => Some(v.clone()),
                None => None,
            },
            parameters,
        }
    }
}

impl Pattern {
    /// Returns whether the given concrete type matches this pattern
    /// under the context.  Parameter names are ignored.
    pub fn matches(&self, ctx: &Context, concrete: &crate::data_type::DataType) -> (r: bool)
        requires
            ctx.wf(),
        ensures
            r == spec_pat_matches(ctx.sem(), self.sem(), concrete.sem()),
        decreases type_size(concrete.sem()), 1int,
    {
        if self.class.id != concrete.class.id {
            return false;
        }
        if let Some(nullable) = &self.nullable {
            if let Some(b) = ctx.ref_bool_value(nullable) {
                if b != concrete.nullable {
                    return false;
                }
            }
        }
        if let Some(variation) = &self.variation {
            if !variation.same_as(&concrete.variation) {
                return false;
            }
        }
        if let Some(parameters) = &self.parameters {
            let n = parameters.len();
            if n != concrete.parameters.len() {
                proof {
                    lemma_pparams_sem(parameters@);
                    lemma_params_sem(concrete.parameters@);
                }
                return false;
            }
            let mut i: usize = 0;
            while i < n
                invariant
                    ctx.wf(),
                    self.parameters == Some(*parameters),
                    n == parameters@.len(),
                    n == concrete.parameters@.len(),
                    i <= n,
                    forall|k: int| 0 <= k < i ==> spec_pparam_matches(
                        ctx.sem(),
                        (#[trigger] parameters@[k]).value.sem(),
                        concrete.parameters@[k].sem(),
                    ),
                decreases n - i,
            {
                proof {
                    lemma_params_sem(concrete.parameters@);
                    lemma_tparam_smaller(concrete.sem(), i as int);
                }
                let p = &parameters[i];
                let cp = &concrete.parameters[i];
                if !p.matches(ctx, cp) {
                    proof {
                        lemma_pparams_sem(parameters@);
                        lemma_params_sem(concrete.parameters@);
                        assert(pparams_sem(parameters@)[i as int] == parameters@[
                            i as int
                        ].value.sem());
                        assert(concrete.sem().parameters[i as int] == concrete.parameters@[
                            i as int
                        ].sem());
                        assert(!spec_pparam_matches(
                            ctx.sem(),
                            pparams_sem(parameters@)[i as int],
                            concrete.sem().parameters[i as int],
                        ));
                    }
                    return false;
                }
                i += 1;
            }
            proof {
                lemma_pparams_sem(parameters@);
                lemma_params_sem(concrete.parameters@);
                assert forall|k: int| 0 <= k < pparams_sem(parameters@).len()
                    implies spec_pparam_matches(
                    ctx.sem(),
                    #[trigger] pparams_sem(parameters@)[k],
                    concrete.sem().parameters[k],
                ) by {
                    assert(pparams_sem(parameters@)[k] == parameters@[k].value.sem());
                    assert(concrete.sem().parameters[k] == concrete.parameters@[k].sem());
                }
            }
        }
        true
    }
}

impl Parameter {
    /// Returns whether the given concrete parameter value is still a
    /// possible value of this position's metavariable.  The parameter
    /// name is not checked.
    pub fn matches(&self, ctx: &Context, parameter: &crate::data_type::Parameter) -> (r: bool)
        requires
            ctx.wf(),
        ensures
            r == spec_pparam_matches(ctx.sem(), self.value.sem(), parameter.sem()),
        decreases tparam_size(parameter.sem()), 4int,
    {
        match parameter {
            crate::data_type::Parameter::Typ(t) => self.value.admits_type(ctx, t),
            crate::data_type::Parameter::Named(_, t) => self.value.admits_type(ctx, t),
            crate::data_type::Parameter::Unsigned(u) => {
                if *u > i64::MAX as u64 {
                    return false;
                }
                self.value.admits_int(ctx, *u as i64)
            },
        }
    }
}

impl Pattern {
    /// Returns whether the two patterns are structurally the same:
    /// equal class ids and equal references, with parameter names
    /// ignored.
    pub fn same_as(&self, other: &Pattern) -> (r: bool)
        ensures
            r == (self.sem() == other.sem()),
    {
        if self.class.id != other.class.id {
            return false;
        }
        let nulls = match (&self.nullable, &other.nullable) {
            (Some(a), Some(b)) => a.same_as(b),
            (None, None) => true,
            _ => false,
        };
        if !nulls {
            return false;
        }
        let vars = match (&self.variation, &other.variation) {
            (Some(a), Some(b)) => a.same_as(b),
            (None, None) => true,
            _ => false,
        };
        if !vars {
            return false;
        }
        match (&self.parameters, &other.parameters) {
            (Some(a), Some(b)) => {
                if a.len() != b.len() {
                    proof {
                        lemma_pparams_sem(a@);
                        lemma_pparams_sem(b@);
                    }
                    return false;
                }
                let n = a.len();
                let mut i: usize = 0;
                while i < n
                    invariant
                        n == a@.len(),
                        n == b@.len(),
                        i <= n,
                        self.parameters == Some(*a),
                        other.parameters == Some(*b),
                        self.sem().class == other.sem().class,
                        self.sem().nullable == other.sem().nullable,
                        self.sem().variation == other.sem().variation,
                        forall|k: int| 0 <= k < i ==> (#[trigger] a@[k]).value.sem()
                            == b@[k].value.sem(),
                    decreases n - i,
                {
                    let pa = &a[i];
                    let pb = &b[i];
                    if !pa.value.same_as(&pb.value) {
                        proof {
                            lemma_pparams_sem(a@);
                            lemma_pparams_sem(b@);
                            assert(pparams_sem(a@)[i as int] != pparams_sem(b@)[i as int]);
                        }
                        return false;
                    }
                    i += 1;
                }
                proof {
                    lemma_pparams_sem(a@);
                    lemma_pparams_sem(b@);
                    assert(pparams_sem(a@) =~= pparams_sem(b@));
                }
                true
            },
            (None, None) => true,
            _ => false,
        }
    }
}

/// Whether two patterns' nullability fields admit a common value:
/// false exactly when both carry a metavariable and the two are
/// resolved to different booleans.
pub open spec fn nullable_compatible(c: crate::context::CtxSem, p1: PatSem, p2: PatSem) -> bool {
    match (p1.nullable, p2.nullable) {
        (Some(r1), Some(r2)) => match (
            crate::semantics::spec_ref_bool_value(c, r1),
            crate::semantics::spec_ref_bool_value(c, r2),
        ) {
            (Some(b1), Some(b2)) => b1 == b2,
            _ => true,
        },
        _ => true,
    }
}

/// Whether two patterns' variation fields admit a common variation:
/// false exactly when both are specified and differ.
pub open spec fn variation_compatible(p1: PatSem, p2: PatSem) -> bool {
    match (p1.variation, p2.variation) {
        (Some(v1), Some(v2)) => v1 == v2,
        _ => true,
    }
}

/// Whether an exact parameter value fits a declared parameter kind: a
/// non-negative integer in an unsigned slot, or a data type in a
/// data-type slot.
pub open spec fn param_value_fits(
    v: crate::valueset::ValSem,
    kind: Option<crate::data_type::ParameterKind>,
) -> bool {
    match v {
        crate::valueset::ValSem::Integer(x) => x >= 0 && kind == Some(
            crate::data_type::ParameterKind::Unsigned,
        ),
        crate::valueset::ValSem::Boolean(_) => false,
        crate::valueset::ValSem::DataType(_) => kind == Some(
            crate::data_type::ParameterKind::DataType,
        ),
    }
}

/// Whether every metavariable a pattern references is pinned down: the
/// nullability is resolved, a parameter pack of fitting arity is
/// specified, and every parameter holds an exact value.
pub open spec fn pattern_resolved(c: crate::context::CtxSem, p: PatSem, cls: Class) -> bool {
    &&& (match p.nullable {
        Some(rs) => crate::semantics::spec_ref_bool_value(c, rs) is Some,
        None => false,
    })
    &&& (match p.parameters {
        Some(prs) => cls.arity_ok(prs.len() as int) && forall|k: int|
            0 <= k < prs.len() ==> crate::semantics::spec_ref_exact_value(
                c,
                #[trigger] prs[k],
            ) is Some,
        None => false,
    })
}

/// Whether every metavariable a pattern references is ready to take on
/// a matched type's fields: each is bound to an open block whose set
/// still admits the corresponding field by representation, and no two
/// references share a block.
pub open spec fn match_ready(
    c: crate::context::CtxSem,
    p: PatSem,
    t: crate::data_type::TypeSem,
) -> bool {
    &&& (match p.nullable {
        Some(rs) => (match crate::semantics::ref_data(c, rs) {
            Some(ds) => !ds.complete && ds.values.booleans.has(t.nullable),
            None => false,
        }),
        None => true,
    })
    &&& (match p.parameters {
        Some(prs) => (forall|k: int|
            0 <= k < prs.len() ==> (match crate::semantics::ref_data(c, #[trigger] prs[k]) {
                Some(ds) => !ds.complete && (match t.parameters[k] {
                    crate::data_type::TParamSem::Unsigned(u) => u <= i64::MAX as u64
                        && crate::sets::ranges_have(ds.values.integers, u as int),
                    crate::data_type::TParamSem::Typ(tt) => (match ds.values.data_types {
                        crate::valueset::DtSetSem::All => true,
                        crate::valueset::DtSetSem::Exact(ts) => crate::semantics::spec_any_type_is(
                            ts,
                            tt,
                        ),
                        crate::valueset::DtSetSem::Patterns(_) => false,
                    }),
                }),
                None => false,
            })) && (forall|k1: int, k2: int|
            0 <= k1 < k2 < prs.len() ==> crate::semantics::ref_didx(c, #[trigger] prs[k1])
                != crate::semantics::ref_didx(c, #[trigger] prs[k2])) && (match p.nullable {
            Some(rs) => forall|k: int|
                0 <= k < prs.len() ==> crate::semantics::ref_didx(c, rs)
                    != crate::semantics::ref_didx(c, #[trigger] prs[k]),
            None => true,
        }),
        None => true,
    })
}

impl Pattern {
    /// Returns whether some data type can match both patterns.  A `true`
    /// answer may be conservative; a `false` answer is definite: no type
    /// matches both.
    pub fn intersects_with(&self, ctx: &Context, other: &Pattern) -> (r: bool)
        requires
            ctx.wf(),
        ensures
            forall|t: crate::data_type::TypeSem| spec_pat_matches(ctx.sem(), self.sem(), t)
                && spec_pat_matches(ctx.sem(), other.sem(), t) ==> r,
            self.sem().class != other.sem().class ==> !r,
            self.sem().class == other.sem().class && !nullable_compatible(
                ctx.sem(),
                self.sem(),
                other.sem(),
            ) ==> !r,
            self.sem().class == other.sem().class && nullable_compatible(
                ctx.sem(),
                self.sem(),
                other.sem(),
            ) && !variation_compatible(self.sem(), other.sem()) ==> !r,
            self.sem().class == other.sem().class && nullable_compatible(
                ctx.sem(),
                self.sem(),
                other.sem(),
            ) && variation_compatible(self.sem(), other.sem()) && (match (
                self.sem().parameters,
                other.sem().parameters,
            ) {
                (Some(a), Some(b)) => a.len() != b.len(),
                _ => false,
            }) ==> !r,
    {
        self.intersects_at(ctx, other, crate::semantics::QUERY_FUEL)
    }

    /// Fuel-bounded intersection check; exhausted fuel over-reports.
    pub(crate) fn intersects_at(&self, ctx: &Context, other: &Pattern, fuel: u64) -> (r: bool)
        requires
            ctx.wf(),
        ensures
            forall|t: crate::data_type::TypeSem| spec_pat_matches(ctx.sem(), self.sem(), t)
                && spec_pat_matches(ctx.sem(), other.sem(), t) ==> r,
            self.sem().class != other.sem().class ==> !r,
            self.sem().class == other.sem().class && !nullable_compatible(
                ctx.sem(),
                self.sem(),
                other.sem(),
            ) ==> !r,
            self.sem().class == other.sem().class && nullable_compatible(
                ctx.sem(),
                self.sem(),
                other.sem(),
            ) && !variation_compatible(self.sem(), other.sem()) ==> !r,
            fuel >= 1 && self.sem().class == other.sem().class && nullable_compatible(
                ctx.sem(),
                self.sem(),
                other.sem(),
            ) && variation_compatible(self.sem(), other.sem()) && (match (
                self.sem().parameters,
                other.sem().parameters,
            ) {
                (Some(a), Some(b)) => a.len() != b.len(),
                _ => false,
            }) ==> !r,
        decreases fuel, 1int,
    {
        if self.class.id != other.class.id {
            return false;
        }
        if let (Some(n1), Some(n2)) = (&self.nullable, &other.nullable) {
            if let (Some(b1), Some(b2)) = (ctx.ref_bool_value(n1), ctx.ref_bool_value(n2)) {
                if b1 != b2 {
                    return false;
                }
            }
        }
        if let (Some(v1), Some(v2)) = (&self.variation, &other.variation) {
            if !v1.same_as(v2) {
                return false;
            }
        }
        if fuel == 0 {
            return true;
        }
        if let (Some(ps1), Some(ps2)) = (&self.parameters, &other.parameters) {
            let n = ps1.len();
            if n != ps2.len() {
                proof {
                    lemma_pparams_sem(ps1@);
                    lemma_pparams_sem(ps2@);
                }
                return false;
            }
            let mut i: usize = 0;
            while i < n
                invariant
                    ctx.wf(),
                    fuel >= 1,
                    self.parameters == Some(*ps1),
                    other.parameters == Some(*ps2),
                    self.sem().class == other.sem().class,
                    nullable_compatible(ctx.sem(), self.sem(), other.sem()),
                    variation_compatible(self.sem(), other.sem()),
                    n == ps1@.len(),
                    n == ps2@.len(),
                    i <= n,
                decreases n - i,
            {
                let r1 = &ps1[i].value;
                let r2 = &ps2[i].value;
                if let (Some(d1), Some(d2)) = (ctx.data_index_of(r1), ctx.data_index_of(r2)) {
                    let va = &ctx.datas[d1].values;
                    let vb = &ctx.datas[d2].values;
                    proof {
                        crate::context::lemma_datas_sem(ctx.datas@);
                    }
                    if !va.intersects_at(ctx, vb, fuel - 1) {
                        proof {
                            lemma_pparams_sem(ps1@);
                            lemma_pparams_sem(ps2@);
                            assert forall|t: crate::data_type::TypeSem| !(spec_pat_matches(
                                ctx.sem(),
                                self.sem(),
                                t,
                            ) && spec_pat_matches(ctx.sem(), other.sem(), t)) by {
                                if spec_pat_matches(ctx.sem(), self.sem(), t)
                                    && spec_pat_matches(ctx.sem(), other.sem(), t) {
                                    assert(spec_pparam_matches(
                                        ctx.sem(),
                                        pparams_sem(ps1@)[i as int],
                                        t.parameters[i as int],
                                    ));
                                    assert(spec_pparam_matches(
                                        ctx.sem(),
                                        pparams_sem(ps2@)[i as int],
                                        t.parameters[i as int],
                                    ));
                                    match t.parameters[i as int] {
                                        crate::data_type::TParamSem::Typ(tt) => {
                                            assert(crate::semantics::spec_vset_has(
                                                ctx.sem(),
                                                va.sem(),
                                                crate::valueset::ValSem::DataType(tt),
                                            ));
                                            assert(crate::semantics::spec_vset_has(
                                                ctx.sem(),
                                                vb.sem(),
                                                crate::valueset::ValSem::DataType(tt),
                                            ));
                                        },
                                        crate::data_type::TParamSem::Unsigned(u) => {
                                            assert(crate::semantics::spec_vset_has(
                                                ctx.sem(),
                                                va.sem(),
                                                crate::valueset::ValSem::Integer(u as i64),
                                            ));
                                            assert(crate::semantics::spec_vset_has(
                                                ctx.sem(),
                                                vb.sem(),
                                                crate::valueset::ValSem::Integer(u as i64),
                                            ));
                                        },
                                    }
                                }
                            }
                        }
                        return false;
                    }
                }
                i += 1;
            }
            proof {
                lemma_pparams_sem(ps1@);
                lemma_pparams_sem(ps2@);
            }
        }
        true
    }
}

impl Pattern {
    /// Three-valued cover check: whether every type matching the other
    /// pattern also matches this one.  `Some(_)` answers are only given
    /// when further constraining of the referenced metavariables cannot
    /// change them; `Some(true)` is sound against every concrete type.
    pub fn covers(&self, ctx: &Context, other: &Pattern) -> (r: Option<bool>)
        requires
            ctx.wf(),
        ensures
            r == Some(true) && crate::semantics::ctx_sets_nonempty(ctx.sem()) ==> forall|
                t: crate::data_type::TypeSem,
            |
                spec_pat_matches(ctx.sem(), other.sem(), t) ==> spec_pat_matches(
                    ctx.sem(),
                    self.sem(),
                    t,
                ),
            self.sem().class != other.sem().class ==> r == Some(false),
            self.sem().class == other.sem().class && self.sem().nullable is Some
                && other.sem().nullable is None ==> r == Some(false),
            self.sem().class == other.sem().class && self.sem().nullable is None && (match
                self.sem().variation {
                Some(v) => other.sem().variation != Some(v),
                None => false,
            }) ==> r == Some(false),
            self.sem().class == other.sem().class && self.sem().nullable is None && (match
                self.sem().variation {
                Some(v) => other.sem().variation == Some(v),
                None => true,
            }) && (match (self.sem().parameters, other.sem().parameters) {
                (Some(a), Some(b)) => a.len() != b.len(),
                (Some(_), None) => true,
                _ => false,
            }) ==> r == Some(false),
    {
        self.covers_at(ctx, other, crate::semantics::QUERY_FUEL)
    }

    /// Fuel-bounded cover check; exhausted fuel defers.
    pub(crate) fn covers_at(&self, ctx: &Context, other: &Pattern, fuel: u64) -> (r: Option<
        bool,
    >)
        requires
            ctx.wf(),
        ensures
            r == Some(true) && crate::semantics::ctx_sets_nonempty(ctx.sem()) ==> forall|
                t: crate::data_type::TypeSem,
            |
                spec_pat_matches(ctx.sem(), other.sem(), t) ==> spec_pat_matches(
                    ctx.sem(),
                    self.sem(),
                    t,
                ),
            fuel >= 1 && self.sem().class != other.sem().class ==> r == Some(false),
            fuel >= 1 && self.sem().class == other.sem().class && self.sem().nullable is Some
                && other.sem().nullable is None ==> r == Some(false),
            fuel >= 1 && self.sem().class == other.sem().class && self.sem().nullable is None
                && (match self.sem().variation {
                Some(v) => other.sem().variation != Some(v),
                None => false,
            }) ==> r == Some(false),
            fuel >= 1 && self.sem().class == other.sem().class && self.sem().nullable is None
                && (match self.sem().variation {
                Some(v) => other.sem().variation == Some(v),
                None => true,
            }) && (match (self.sem().parameters, other.sem().parameters) {
                (Some(a), Some(b)) => a.len() != b.len(),
                (Some(_), None) => true,
                _ => false,
            }) ==> r == Some(false),
        decreases fuel, 4int,
    {
        if fuel == 0 {
            return None;
        }
        if self.class.id != other.class.id {
            return Some(false);
        }
        if let Some(n1) = &self.nullable {
            match &other.nullable {
                Some(n2) => match n1.covers_at(ctx, n2, fuel - 1) {
                    Some(true) => {},
                    Some(false) => {
                        return Some(false);
                    },
                    None => {
                        return None;
                    },
                },
                None => {
                    return Some(false);
                },
            }
        }
        if let Some(v1) = &self.variation {
            match &other.variation {
                Some(v2) => {
                    if !v1.same_as(v2) {
                        return Some(false);
                    }
                },
                None => {
                    return Some(false);
                },
            }
        }
        let ghost c = ctx.sem();
        let ghost nul_ok = crate::semantics::ctx_sets_nonempty(c) ==> (match (
            self.sem().nullable,
            other.sem().nullable,
        ) {
            (Some(r1), Some(r2)) => (match crate::semantics::spec_ref_bool_value(c, r1) {
                Some(b) => crate::semantics::spec_ref_bool_value(c, r2) == Some(b),
                None => true,
            }),
            (Some(_), None) => false,
            _ => true,
        });
        proof {
            assert(nul_ok);
        }
        if let Some(ps1) = &self.parameters {
            match &other.parameters {
                Some(ps2) => {
                    let n = ps1.len();
                    if n != ps2.len() {
                        proof {
                            lemma_pparams_sem(ps1@);
                            lemma_pparams_sem(ps2@);
                        }
                        return Some(false);
                    }
                    let mut k: usize = 0;
                    while k < n
                        invariant
                            ctx.wf(),
                            c == ctx.sem(),
                            self.parameters == Some(*ps1),
                            other.parameters == Some(*ps2),
                            self.sem().class == other.sem().class,
                            nul_ok,
                            !(self.sem().nullable is Some && other.sem().nullable is None),
                            (self.sem().variation matches Some(v) ==> other.sem().variation
                                == Some(v)),
                            n == ps1@.len(),
                            n == ps2@.len(),
                            k <= n,
                            fuel >= 1,
                            crate::semantics::ctx_sets_nonempty(c) ==> forall|kk: int|
                                #![trigger pparams_sem(ps1@)[kk]]
                                0 <= kk < k ==> ((forall|t: crate::data_type::TypeSem|
                                    spec_ref_has_type(c, pparams_sem(ps2@)[kk], t)
                                        ==> spec_ref_has_type(c, pparams_sem(ps1@)[kk], t))
                                    && (forall|v: int|
                                    spec_ref_has_int(c, pparams_sem(ps2@)[kk], v)
                                        ==> spec_ref_has_int(c, pparams_sem(ps1@)[kk], v))),
                        decreases n - k,
                    {
                        let r1 = &ps1[k].value;
                        let r2 = &ps2[k].value;
                        let cv = r1.covers_at(ctx, r2, fuel - 1);
                        if cv != Some(true) {
                            proof {
                                lemma_pparams_sem(ps1@);
                                lemma_pparams_sem(ps2@);
                            }
                            return cv;
                        }
                        proof {
                            lemma_pparams_sem(ps1@);
                            lemma_pparams_sem(ps2@);
                        }
                        k += 1;
                    }
                    proof {
                        lemma_pparams_sem(ps1@);
                        lemma_pparams_sem(ps2@);
                        if crate::semantics::ctx_sets_nonempty(c) {
                            assert forall|t: crate::data_type::TypeSem| spec_pat_matches(
                                c,
                                other.sem(),
                                t,
                            ) implies spec_pat_matches(c, self.sem(), t) by {
                                lemma_covers_transfer(c, self.sem(), other.sem(), t);
                            }
                        }
                    }
                    return Some(true);
                },
                None => {
                    return Some(false);
                },
            }
        }
        proof {
            if crate::semantics::ctx_sets_nonempty(c) {
                assert forall|t: crate::data_type::TypeSem| spec_pat_matches(
                    c,
                    other.sem(),
                    t,
                ) implies spec_pat_matches(c, self.sem(), t) by {
                    lemma_covers_transfer(c, self.sem(), other.sem(), t);
                }
            }
        }
        Some(true)
    }
}

/// Lifts the field-wise transfer facts to whole-pattern matching: when
/// the covering pattern's nullability, variation and parameter
/// references each admit at least what the covered pattern's do, a type
/// matching the covered pattern matches the covering one.
proof fn lemma_covers_transfer(
    c: crate::context::CtxSem,
    p1: PatSem,
    p2: PatSem,
    t: crate::data_type::TypeSem,
)
    requires
        p1.class == p2.class,
        (match (p1.nullable, p2.nullable) {
            (Some(r1), Some(r2)) => (match crate::semantics::spec_ref_bool_value(c, r1) {
                Some(b) => crate::semantics::spec_ref_bool_value(c, r2) == Some(b),
                None => true,
            }),
            (Some(_), None) => false,
            _ => true,
        }),
        (p1.variation matches Some(v) ==> p2.variation == Some(v)),
        (match (p1.parameters, p2.parameters) {
            (Some(a), Some(b)) => a.len() == b.len() && forall|kk: int|
                #![trigger a[kk]]
                0 <= kk < a.len() ==> ((forall|tt: crate::data_type::TypeSem|
                    spec_ref_has_type(c, b[kk], tt) ==> spec_ref_has_type(c, a[kk], tt)) && (
                forall|v: int| spec_ref_has_int(c, b[kk], v) ==> spec_ref_has_int(c, a[kk], v))),
            (Some(_), None) => false,
            _ => true,
        }),
        spec_pat_matches(c, p2, t),
    ensures
        spec_pat_matches(c, p1, t),
{
    match (p1.parameters, p2.parameters) {
        (Some(a), Some(b)) => {
            assert(b.len() == t.parameters.len());
            assert forall|kk: int| 0 <= kk < a.len() implies spec_pparam_matches(
                c,
                #[trigger] a[kk],
                t.parameters[kk],
            ) by {
                assert(spec_pparam_matches(c, b[kk], t.parameters[kk]));
                match t.parameters[kk] {
                    crate::data_type::TParamSem::Typ(tt) => {
                        assert(spec_ref_has_type(c, b[kk], tt));
                        assert(spec_ref_has_type(c, a[kk], tt));
                    },
                    crate::data_type::TParamSem::Unsigned(u) => {
                        if u <= i64::MAX as u64 {
                            assert(spec_ref_has_int(c, b[kk], u as int));
                            assert(spec_ref_has_int(c, a[kk], u as int));
                        }
                    },
                }
            }
        },
        _ => {},
    }
}

impl Pattern {
    /// Binds all metavariable references in this pattern to the given
    /// context.  The class, variation and parameter names are kept.
    pub fn bind(&mut self, ctx: &mut Context)
        requires
            old(ctx).wf(),
        ensures
            final(ctx).wf(),
            final(self).sem().class == old(self).sem().class,
            final(self).sem().variation == old(self).sem().variation,
            final(self).nullable is Some <==> old(self).nullable is Some,
            final(self).parameters is Some <==> old(self).parameters is Some,
            final(ctx).datas@.len() >= old(ctx).datas@.len(),
            forall|k: int|
                #![trigger old(ctx).sem().datas[k]]
                0 <= k < old(ctx).datas@.len() ==> final(ctx).sem().datas[k] == old(
                    ctx,
                ).sem().datas[k],
            (match (old(self).nullable, final(self).nullable) {
                (Some(r0), Some(r)) => (r0.alias is None ==> (match r.alias {
                    Some(a) => (a as int) < final(ctx).aliases@.len(),
                    None => false,
                })) && (r0.alias is Some ==> r.alias == r0.alias),
                (None, None) => true,
                _ => false,
            }),
            (match (old(self).parameters, final(self).parameters) {
                (Some(ps0), Some(ps)) => ps@.len() == ps0@.len() && forall|k: int|
                    0 <= k < ps@.len() ==> (((#[trigger] ps0@[k]).value.alias is None ==> (match
                        ps@[k].value.alias {
                        Some(a) => (a as int) < final(ctx).aliases@.len(),
                        None => false,
                    })) && (ps0@[k].value.alias is Some ==> ps@[k].value.alias
                        == ps0@[k].value.alias) && (match (ps@[k].name, ps0@[k].name) {
                        (Some(a), Some(b)) => a@ == b@,
                        (None, None) => true,
                        _ => false,
                    })),
                (None, None) => true,
                _ => false,
            }),
    {
        let nullable = match &self.nullable {
            Some(r) => {
                let mut r2 = r.clone();
                r2.bind(ctx);
                Some(r2)
            },
            None => None,
        };
        let parameters = match &self.parameters {
            Some(ps) => {
                let n = ps.len();
                let mut out: Vec<Parameter> = Vec::new();
                let mut i: usize = 0;
                while i < n
                    invariant
                        ctx.wf(),
                        n == ps@.len(),
                        i <= n,
                        out@.len() == i,
                        ctx.datas@.len() >= old(ctx).datas@.len(),
                        ctx.aliases@.len() >= old(ctx).aliases@.len(),
                        forall|k: int|
                            #![trigger old(ctx).sem().datas[k]]
                            0 <= k < old(ctx).datas@.len() ==> ctx.sem().datas[k] == old(
                                ctx,
                            ).sem().datas[k],
                        (match (old(self).nullable, nullable) {
                            (Some(r0), Some(r)) => (r0.alias is None ==> (match r.alias {
                                Some(a) => (a as int) < ctx.aliases@.len(),
                                None => false,
                            })) && (r0.alias is Some ==> r.alias == r0.alias),
                            (None, None) => true,
                            _ => false,
                        }),
                        forall|k: int| 0 <= k < i ==> (((#[trigger] ps@[k]).value.alias is None
                            ==> (match out@[k].value.alias {
                            Some(a) => (a as int) < ctx.aliases@.len(),
                            None => false,
                        })) && (ps@[k].value.alias is Some ==> out@[k].value.alias
                            == ps@[k].value.alias) && (match (out@[k].name, ps@[k].name) {
                            (Some(a), Some(b)) => a@ == b@,
                            (None, None) => true,
                            _ => false,
                        })),
                    decreases n - i,
                {
                    let mut p = ps[i].clone();
                    let mut r2 = p.value.clone();
                    r2.bind(ctx);
                    out.push(Parameter { name: p.name, value: r2 });
                    i += 1;
                }
                Some(out)
            },
            None => None,
        };
        let class = self.class.clone();
        let variation = match &self.variation {
            Some(v) => Some(v.clone()),
            None => None,
        };
        *self = Pattern { class, nullable, variation, parameters };
    }

    /// Emits the constraints implied by the pattern's shape: the
    /// nullability metavariable must be a boolean, and each parameter
    /// metavariable must have the metatype its position's kind declares.
    /// A parameter pack of the wrong length, or a naming mismatch
    /// against the class, is an immediate arity error; a metavariable
    /// already constrained to an incompatible metatype surfaces as a
    /// kind error.
    #[verifier::rlimit(100)]
    pub fn apply_static_constraints(&self, ctx: &mut Context) -> (r: Result<(), Diagnostic>)
        requires
            old(ctx).wf(),
        ensures
            final(ctx).wf(),
            final(ctx).datas@.len() == old(ctx).datas@.len(),
            (r matches Err(Diagnostic::ArityMismatch(_))) <==> (match self.parameters {
                Some(ps) => !self.class.arity_ok(ps@.len() as int) || (exists|k: int|
                    0 <= k < ps@.len() && ((#[trigger] ps@[k].name is Some) != self.class.named)),
                None => false,
            }),
            r is Ok ==> (match self.sem().nullable {
                Some(rs) => (match crate::semantics::ref_data(final(ctx).sem(), rs) {
                    Some(ds) => crate::semantics::cons_contain(
                        ds.constraints,
                        crate::semantics::kind_bool_con("nullability must be a boolean"@),
                    ),
                    None => false,
                }),
                None => true,
            }),
            r is Ok ==> (match self.sem().parameters {
                Some(prs) => forall|k: int| 0 <= k < prs.len() ==> (match
                    crate::semantics::ref_data(final(ctx).sem(), #[trigger] prs[k]) {
                    Some(ds) => crate::semantics::cons_contain(
                        ds.constraints,
                        (match self.class.kind_at(k) {
                            Some(crate::data_type::ParameterKind::Unsigned) =>
                                crate::semantics::kind_int_con(
                                "parameter kind declared by the class"@,
                            ),
                            _ => crate::semantics::kind_type_con(
                                "parameter kind declared by the class"@,
                            ),
                        }),
                    ),
                    None => false,
                }),
                None => true,
            }),
    {
        if let Some(ps) = &self.parameters {
            if !self.class.check_arity(ps.len()) {
                return Err(Diagnostic::ArityMismatch(ps.len()));
            }
            let n = ps.len();
            let mut i: usize = 0;
            while i < n
                invariant
                    *ctx == *old(ctx),
                    ctx.wf(),
                    self.parameters == Some(*ps),
                    self.class.arity_ok(ps@.len() as int),
                    n == ps@.len(),
                    i <= n,
                    forall|k: int| 0 <= k < i ==> ((#[trigger] ps@[k].name is Some)
                        == self.class.named),
                decreases n - i,
            {
                let has_name = ps[i].name.is_some();
                if has_name != self.class.named {
                    return Err(Diagnostic::ArityMismatch(ps.len()));
                }
                i += 1;
            }
        }
        if let Some(r) = &self.nullable {
            let vs = ValueSet::of_booleans(crate::sets::Boolean::full());
            let c = Constraint {
                data: crate::constraint::ConstraintType::Within(vs),
                reason: "nullability must be a boolean".to_owned(),
            };
            proof {
                assert(c.sem() == crate::semantics::kind_bool_con(
                    "nullability must be a boolean"@,
                ));
            }
            match ctx.data_index_of(r) {
                Some(d) => {
                    if ctx.datas[d].is_complete() {
                        return Err(Diagnostic::TypeKindMismatch(
                            "metavariable is already closed".to_owned(),
                        ));
                    }
                    proof {
                        crate::context::lemma_datas_sem(ctx.datas@);
                    }
                    let ghost c0 = ctx.sem();
                    let res = ctx.constrain_data(d, c);
                    if let Err(_) = res {
                        return Err(Diagnostic::TypeKindMismatch(
                            "nullability must be a boolean".to_owned(),
                        ));
                    }
                    proof {
                        crate::context::lemma_datas_sem(ctx.datas@);
                        let c1 = ctx.sem();
                        assert(crate::semantics::ref_data(c1, r.sem()) == Some(
                            c1.datas[d as int],
                        ));
                        assert(crate::semantics::cons_contain(
                            c1.datas[d as int].constraints,
                            c.sem(),
                        )) by {
                            let pre = c0.datas[d as int];
                            let post = c1.datas[d as int];
                            if !crate::semantics::cons_contain(pre.constraints, c.sem()) {
                                assert(post.constraints[post.constraints.len() - 1]
                                    == c.sem());
                            } else {
                                let j = choose|j: int|
                                    0 <= j < pre.constraints.len()
                                        && #[trigger] pre.constraints[j] == c.sem();
                                assert(post.constraints[j] == c.sem());
                            }
                        }
                    }
                },
                None => {
                    return Err(Diagnostic::TypeKindMismatch(
                        "metavariable is not bound".to_owned(),
                    ));
                },
            }
        }
        if let Some(ps) = &self.parameters {
            let n = ps.len();
            let mut i: usize = 0;
            while i < n
                invariant
                    ctx.wf(),
                    self.parameters == Some(*ps),
                    self.class.arity_ok(ps@.len() as int),
                    forall|k: int| 0 <= k < ps@.len() ==> ((#[trigger] ps@[k].name is Some)
                        == self.class.named),
                    n == ps@.len(),
                    ctx.datas@.len() == old(ctx).datas@.len(),
                    i <= n,
                    (match self.sem().nullable {
                        Some(rs) => (match crate::semantics::ref_data(ctx.sem(), rs) {
                            Some(ds) => crate::semantics::cons_contain(
                                ds.constraints,
                                crate::semantics::kind_bool_con(
                                    "nullability must be a boolean"@,
                                ),
                            ),
                            None => false,
                        }),
                        None => true,
                    }),
                    forall|k: int| 0 <= k < i ==> (match crate::semantics::ref_data(
                        ctx.sem(),
                        #[trigger] pparams_sem(ps@)[k],
                    ) {
                        Some(ds) => crate::semantics::cons_contain(
                            ds.constraints,
                            (match self.class.kind_at(k) {
                                Some(crate::data_type::ParameterKind::Unsigned) =>
                                    crate::semantics::kind_int_con(
                                    "parameter kind declared by the class"@,
                                ),
                                _ => crate::semantics::kind_type_con(
                                    "parameter kind declared by the class"@,
                                ),
                            }),
                        ),
                        None => false,
                    }),
                decreases n - i,
            {
                let kind = self.class.kind_of(i);
                let vs = match kind {
                    Some(crate::data_type::ParameterKind::DataType) => ValueSet::of_data_types(
                        DataType::full(),
                    ),
                    Some(crate::data_type::ParameterKind::Unsigned) => ValueSet::of_integers(
                        Integer::range(0, i64::MAX),
                    ),
                    None => ValueSet::of_data_types(DataType::full()),
                };
                let c = Constraint {
                    data: crate::constraint::ConstraintType::Within(vs),
                    reason: "parameter kind declared by the class".to_owned(),
                };
                proof {
                    lemma_pparams_sem(ps@);
                    assert(c.sem() == (match self.class.kind_at(i as int) {
                        Some(crate::data_type::ParameterKind::Unsigned) =>
                            crate::semantics::kind_int_con(
                            "parameter kind declared by the class"@,
                        ),
                        _ => crate::semantics::kind_type_con(
                            "parameter kind declared by the class"@,
                        ),
                    })) by {
                        match self.class.kind_at(i as int) {
                            Some(crate::data_type::ParameterKind::Unsigned) => {
                                assert(c.sem().data->Within_0.integers =~= seq![
                                    crate::sets::IntRange { lo: 0, hi: i64::MAX },
                                ]);
                            },
                            _ => {},
                        }
                    }
                }
                match ctx.data_index_of(&ps[i].value) {
                    Some(d) => {
                        if ctx.datas[d].is_complete() {
                            return Err(Diagnostic::TypeKindMismatch(
                                "metavariable is already closed".to_owned(),
                            ));
                        }
                        proof {
                            crate::context::lemma_datas_sem(ctx.datas@);
                        }
                        let ghost c0 = ctx.sem();
                        let res = ctx.constrain_data(d, c);
                        if let Err(_) = res {
                            return Err(Diagnostic::TypeKindMismatch(
                                "parameter kind declared by the class".to_owned(),
                            ));
                        }
                        proof {
                            crate::context::lemma_datas_sem(ctx.datas@);
                            let c1 = ctx.sem();
                            assert(c1.datas.len() == c0.datas.len());
                            assert(crate::semantics::ref_data(c1, ps@[i as int].value.sem())
                                == Some(c1.datas[d as int]));
                            assert(crate::semantics::cons_contain(
                                c1.datas[d as int].constraints,
                                c.sem(),
                            )) by {
                                let pre = c0.datas[d as int];
                                let post = c1.datas[d as int];
                                if !crate::semantics::cons_contain(
                                    pre.constraints,
                                    c.sem(),
                                ) {
                                    assert(post.constraints[post.constraints.len() - 1]
                                        == c.sem());
                                } else {
                                    let j = choose|j: int|
                                        0 <= j < pre.constraints.len()
                                            && #[trigger] pre.constraints[j] == c.sem();
                                    assert(post.constraints[j] == c.sem());
                                }
                            }
                            match self.sem().nullable {
                                Some(rs) => {
                                    lemma_pin_preserved(
                                        c0,
                                        c1,
                                        d as int,
                                        c.sem(),
                                        rs,
                                        crate::semantics::kind_bool_con(
                                            "nullability must be a boolean"@,
                                        ),
                                    );
                                },
                                None => {},
                            }
                            assert forall|k: int| 0 <= k < i implies (match
                                crate::semantics::ref_data(
                                c1,
                                #[trigger] pparams_sem(ps@)[k],
                            ) {
                                Some(ds) => crate::semantics::cons_contain(
                                    ds.constraints,
                                    (match self.class.kind_at(k) {
                                        Some(crate::data_type::ParameterKind::Unsigned) =>
                                            crate::semantics::kind_int_con(
                                            "parameter kind declared by the class"@,
                                        ),
                                        _ => crate::semantics::kind_type_con(
                                            "parameter kind declared by the class"@,
                                        ),
                                    }),
                                ),
                                None => false,
                            }) by {
                                lemma_pin_preserved(
                                    c0,
                                    c1,
                                    d as int,
                                    c.sem(),
                                    pparams_sem(ps@)[k],
                                    (match self.class.kind_at(k) {
                                        Some(crate::data_type::ParameterKind::Unsigned) =>
                                            crate::semantics::kind_int_con(
                                            "parameter kind declared by the class"@,
                                        ),
                                        _ => crate::semantics::kind_type_con(
                                            "parameter kind declared by the class"@,
                                        ),
                                    }),
                                );
                            }
                        }
                    },
                    None => {
                        return Err(Diagnostic::TypeKindMismatch(
                            "metavariable is not bound".to_owned(),
                        ));
                    },
                }
                i += 1;
            }
            proof {
                lemma_pparams_sem(ps@);
            }
        }
        Ok(())
    }

    /// Forces the value of each referenced metavariable to the
    /// corresponding field of the given concrete type, and copies the
    /// type's variation into the pattern.
    #[verifier::rlimit(100)]
    pub fn apply_match_constraints(&mut self, ctx: &mut Context, concrete: &data_type::DataType)
        -> (r: Result<(), Diagnostic>)
        requires
            old(ctx).wf(),
        ensures
            final(ctx).wf(),
            final(self).sem().class == old(self).sem().class,
            final(self).sem().nullable == old(self).sem().nullable,
            final(self).sem().parameters == old(self).sem().parameters,
            r is Ok ==> final(self).sem().variation == Some(concrete.sem().variation),
            r is Ok ==> (match old(self).sem().nullable {
                Some(rs) => crate::semantics::spec_forced_bool_or_recorded(
                    final(ctx).sem(),
                    rs,
                    concrete.sem().nullable,
                    "nullability of the matched type"@,
                ),
                None => true,
            }),
            r is Ok ==> (match old(self).sem().parameters {
                Some(prs) => prs.len() == concrete.sem().parameters.len() && forall|k: int|
                    0 <= k < prs.len() ==> crate::semantics::spec_forced_or_recorded(
                        final(ctx).sem(),
                        #[trigger] prs[k],
                        concrete.sem().parameters[k],
                        "parameter of the matched type"@,
                    ),
                None => true,
            }),
            old(self).sem().class == concrete.sem().class && (match old(
                self,
            ).sem().parameters {
                Some(prs) => prs.len() == concrete.sem().parameters.len(),
                None => true,
            }) && match_ready(old(ctx).sem(), old(self).sem(), concrete.sem()) ==> r is Ok,
    {
        let ghost ready = old(self).sem().class == concrete.sem().class && (match old(
            self,
        ).sem().parameters {
            Some(prs) => prs.len() == concrete.sem().parameters.len(),
            None => true,
        }) && match_ready(old(ctx).sem(), old(self).sem(), concrete.sem());
        proof {
            crate::data_type::lemma_params_sem(concrete.parameters@);
        }
        if self.class.id != concrete.class.id {
            return Err(Diagnostic::TypeKindMismatch(
                "matched type is of another class".to_owned(),
            ));
        }
        if let Some(ps) = &self.parameters {
            if ps.len() != concrete.parameters.len() {
                proof {
                    lemma_pparams_sem(ps@);
                }
                return Err(Diagnostic::ArityMismatch(concrete.parameters.len()));
            }
        }
        if let Some(r) = &self.nullable {
            let vs = ValueSet::of_booleans(crate::sets::Boolean::singleton(concrete.nullable));
            let c = Constraint {
                data: crate::constraint::ConstraintType::Within(vs),
                reason: "nullability of the matched type".to_owned(),
            };
            proof {
                assert(c.sem() == crate::semantics::forced_bool_con(
                    concrete.nullable,
                    "nullability of the matched type"@,
                ));
            }
            match ctx.data_index_of(r) {
                Some(d) => {
                    if ctx.datas[d].is_complete() {
                        proof {
                            if ready {
                                crate::context::lemma_datas_sem(ctx.datas@);
                                assert(false);
                            }
                        }
                        return Err(Diagnostic::TypeKindMismatch(
                            "metavariable is already closed".to_owned(),
                        ));
                    }
                    proof {
                        crate::context::lemma_datas_sem(ctx.datas@);
                    }
                    let res = ctx.constrain_data(d, c);
                    if let Err(d2) = res {
                        proof {
                            if ready {
                                let rs = old(self).sem().nullable->Some_0;
                                let csem0 = old(ctx).sem();
                                let pre = csem0.datas[d as int];
                                let post = ctx.sem().datas[d as int];
                                assert(crate::semantics::ref_data(csem0, rs) == Some(pre));
                                if crate::semantics::cons_contain(pre.constraints, c.sem()) {
                                    assert(false);
                                } else {
                                    assert(pre.values.booleans.has(concrete.sem().nullable));
                                    assert(c.sem().data->Within_0.booleans.has(
                                        concrete.sem().nullable,
                                    ));
                                    assert(post.values.booleans.has(concrete.sem().nullable));
                                    assert(!post.values.repr_empty());
                                    assert(false);
                                }
                            }
                        }
                        return Err(d2);
                    }
                    proof {
                        crate::context::lemma_datas_sem(ctx.datas@);
                        let rs = r.sem();
                        let c1 = ctx.sem();
                        assert(crate::semantics::ref_data(c1, rs) == Some(
                            c1.datas[d as int],
                        ));
                        assert(crate::semantics::cons_contain(
                            c1.datas[d as int].constraints,
                            crate::semantics::forced_bool_con(
                                concrete.nullable,
                                "nullability of the matched type"@,
                            ),
                        )) by {
                            let pre = old(ctx).sem().datas[d as int];
                            let post = c1.datas[d as int];
                            if !crate::semantics::cons_contain(pre.constraints, c.sem()) {
                                assert(post.constraints[post.constraints.len() - 1]
                                    == c.sem());
                            } else {
                                let j = choose|j: int|
                                    0 <= j < pre.constraints.len()
                                        && #[trigger] pre.constraints[j] == c.sem();
                                assert(post.constraints[j] == c.sem());
                            }
                        }
                    }
                },
                None => {
                    proof {
                        if ready {
                            assert(false);
                        }
                    }
                    return Err(Diagnostic::TypeKindMismatch(
                        "metavariable is not bound".to_owned(),
                    ));
                },
            }
        }
        proof {
            if ready {
                match old(self).sem().parameters {
                    Some(prs) => {
                        assert forall|k: int|
                            0 <= k < prs.len() implies crate::semantics::ref_data(
                            ctx.sem(),
                            #[trigger] prs[k],
                        ) == crate::semantics::ref_data(old(ctx).sem(), prs[k]) by {
                            match old(self).sem().nullable {
                                Some(rs) => {
                                    let t_k = crate::semantics::ref_didx(
                                        old(ctx).sem(),
                                        prs[k],
                                    );
                                    assert(t_k != crate::semantics::ref_didx(
                                        old(ctx).sem(),
                                        rs,
                                    ));
                                    assert(ctx.sem().aliases == old(ctx).sem().aliases);
                                    if 0 <= t_k < old(ctx).sem().datas.len() {
                                        assert(ctx.sem().datas[t_k] == old(
                                            ctx,
                                        ).sem().datas[t_k]);
                                    }
                                },
                                None => {},
                            }
                        }
                    },
                    None => {},
                }
            }
        }
        let nparams = match &self.parameters {
            Some(ps) => ps.len(),
            None => 0,
        };
        let mut i: usize = 0;
        while i < nparams
            invariant
                ctx.wf(),
                (match self.parameters {
                    Some(ps) => nparams == ps@.len(),
                    None => nparams == 0,
                }),
                nparams <= concrete.parameters@.len(),
                i <= nparams,
                *self == *old(self),
                (match old(self).sem().nullable {
                    Some(rs) => (match crate::semantics::ref_data(ctx.sem(), rs) {
                        Some(ds) => crate::semantics::cons_contain(
                            ds.constraints,
                            crate::semantics::forced_bool_con(
                                concrete.sem().nullable,
                                "nullability of the matched type"@,
                            ),
                        ),
                        None => false,
                    }),
                    None => true,
                }),
                (match old(self).sem().parameters {
                    Some(prs) => forall|k: int|
                        0 <= k < i ==> (match crate::semantics::ref_data(
                            ctx.sem(),
                            #[trigger] prs[k],
                        ) {
                            Some(ds) => crate::semantics::cons_contain(
                                ds.constraints,
                                crate::semantics::forced_param_con(
                                    concrete.sem().parameters[k],
                                    "parameter of the matched type"@,
                                ),
                            ),
                            None => false,
                        }),
                    None => true,
                }),
                ready == (old(self).sem().class == concrete.sem().class && (match old(
                    self,
                ).sem().parameters {
                    Some(prs) => prs.len() == concrete.sem().parameters.len(),
                    None => true,
                }) && match_ready(old(ctx).sem(), old(self).sem(), concrete.sem())),
                ready ==> ctx.sem().aliases == old(ctx).sem().aliases,
                ready ==> ctx.sem().datas.len() == old(ctx).sem().datas.len(),
                ready ==> (match old(self).sem().parameters {
                    Some(prs) => forall|k: int|
                        i <= k < prs.len() ==> crate::semantics::ref_data(
                            ctx.sem(),
                            #[trigger] prs[k],
                        ) == crate::semantics::ref_data(old(ctx).sem(), prs[k]),
                    None => true,
                }),
            decreases nparams - i,
        {
            let p = match &self.parameters {
                Some(ps) => {
                    proof {
                        lemma_pparams_sem(ps@);
                    }
                    &ps[i]
                },
                None => {
                    proof {
                        assert(false);
                    }
                    return Err(Diagnostic::IllFormedConcreteType);
                },
            };
            let cp = &concrete.parameters[i];
            let vs = match cp {
                data_type::Parameter::Typ(t) => {
                    let mut ts: Vec<data_type::DataType> = Vec::new();
                    ts.push(t.clone());
                    proof {
                        crate::valueset::lemma_types_sem(ts@);
                        assert(crate::valueset::types_sem(ts@) =~= seq![
                            concrete.parameters@[i as int].sem()->Typ_0,
                        ]);
                    }
                    ValueSet::of_data_types(DataType::Exact(ts))
                },
                data_type::Parameter::Named(_, t) => {
                    let mut ts: Vec<data_type::DataType> = Vec::new();
                    ts.push(t.clone());
                    proof {
                        crate::valueset::lemma_types_sem(ts@);
                        assert(crate::valueset::types_sem(ts@) =~= seq![
                            concrete.parameters@[i as int].sem()->Typ_0,
                        ]);
                    }
                    ValueSet::of_data_types(DataType::Exact(ts))
                },
                data_type::Parameter::Unsigned(u) => {
                    if *u > i64::MAX as u64 {
                        proof {
                            if ready {
                                crate::data_type::lemma_params_sem(concrete.parameters@);
                                let prs = old(self).sem().parameters->Some_0;
                                assert(concrete.sem().parameters[i as int]
                                    == crate::data_type::TParamSem::Unsigned(*u));
                                assert(crate::semantics::ref_data(
                                    old(ctx).sem(),
                                    prs[i as int],
                                ) is Some);
                                assert(false);
                            }
                        }
                        return Err(Diagnostic::IllFormedConcreteType);
                    }
                    ValueSet::of_integers(Integer::singleton(*u as i64))
                },
            };
            let c = Constraint {
                data: crate::constraint::ConstraintType::Within(vs),
                reason: "parameter of the matched type".to_owned(),
            };
            proof {
                crate::data_type::lemma_params_sem(concrete.parameters@);
                assert(c.sem() == crate::semantics::forced_param_con(
                    concrete.sem().parameters[i as int],
                    "parameter of the matched type"@,
                )) by {
                    match concrete.parameters@[i as int].sem() {
                        crate::data_type::TParamSem::Unsigned(u) => {
                            assert(c.sem().data->Within_0.integers =~= seq![
                                crate::sets::IntRange { lo: u as i64, hi: u as i64 },
                            ]);
                        },
                        crate::data_type::TParamSem::Typ(ts2) => {
                            assert(c.sem().data->Within_0.integers =~= Seq::<
                                crate::sets::IntRange,
                            >::empty());
                        },
                    }
                }
            }
            let rref = &p.value;
            match ctx.data_index_of(rref) {
                Some(d) => {
                    if ctx.datas[d].is_complete() {
                        proof {
                            if ready {
                                crate::context::lemma_datas_sem(ctx.datas@);
                                assert(false);
                            }
                        }
                        return Err(Diagnostic::TypeKindMismatch(
                            "metavariable is already closed".to_owned(),
                        ));
                    }
                    proof {
                        crate::context::lemma_datas_sem(ctx.datas@);
                    }
                    let ghost c0 = ctx.sem();
                    let res = ctx.constrain_data(d, c);
                    if let Err(d2) = res {
                        proof {
                            if ready {
                                crate::data_type::lemma_params_sem(concrete.parameters@);
                                let prs = old(self).sem().parameters->Some_0;
                                let pre = c0.datas[d as int];
                                let post = ctx.sem().datas[d as int];
                                assert(crate::semantics::ref_data(c0, prs[i as int]) == Some(
                                    pre,
                                ));
                                assert(crate::semantics::ref_data(old(ctx).sem(), prs[i as int])
                                    == Some(pre));
                                if crate::semantics::cons_contain(pre.constraints, c.sem()) {
                                    assert(false);
                                } else {
                                    match concrete.sem().parameters[i as int] {
                                        crate::data_type::TParamSem::Unsigned(u) => {
                                            assert(crate::sets::ranges_have(
                                                pre.values.integers,
                                                u as int,
                                            ));
                                            assert(crate::sets::ranges_have(
                                                c.sem().data->Within_0.integers,
                                                u as int,
                                            ));
                                            assert(crate::sets::ranges_have(
                                                post.values.integers,
                                                u as int,
                                            ));
                                            assert(post.values.integers.len() > 0);
                                            assert(false);
                                        },
                                        crate::data_type::TParamSem::Typ(tt) => {
                                            assert(crate::semantics::spec_dtset_has(
                                                c0,
                                                pre.values.data_types,
                                                tt,
                                            ));
                                            assert(c.sem().data->Within_0.data_types
                                                is Exact);
                                            assert(crate::semantics::spec_dtset_has(
                                                c0,
                                                c.sem().data->Within_0.data_types,
                                                tt,
                                            )) by {
                                                let wts = c.sem().data->Within_0.data_types->Exact_0;
                                                assert(wts[0] == tt);
                                                crate::semantics::lemma_any_type_is(wts, tt);
                                            }
                                            assert(crate::semantics::spec_dtset_has(
                                                c0,
                                                post.values.data_types,
                                                tt,
                                            ));
                                            match post.values.data_types {
                                                crate::valueset::DtSetSem::Exact(pts) => {
                                                    crate::semantics::lemma_any_type_is(
                                                        pts,
                                                        tt,
                                                    );
                                                    assert(pts.len() > 0);
                                                },
                                                _ => {
                                                    assert(false);
                                                },
                                            }
                                            assert(!post.values.repr_empty());
                                            assert(false);
                                        },
                                    }
                                }
                            }
                        }
                        return Err(d2);
                    }
                    proof {
                        crate::context::lemma_datas_sem(ctx.datas@);
                        let c1 = ctx.sem();
                        assert(c1.datas.len() == c0.datas.len());
                        assert(crate::semantics::ref_data(c1, rref.sem()) == Some(
                            c1.datas[d as int],
                        ));
                        assert(crate::semantics::cons_contain(
                            c1.datas[d as int].constraints,
                            c.sem(),
                        )) by {
                            let pre = c0.datas[d as int];
                            let post = c1.datas[d as int];
                            if !crate::semantics::cons_contain(pre.constraints, c.sem()) {
                                assert(post.constraints[post.constraints.len() - 1]
                                    == c.sem());
                            } else {
                                let j = choose|j: int|
                                    0 <= j < pre.constraints.len()
                                        && #[trigger] pre.constraints[j] == c.sem();
                                assert(post.constraints[j] == c.sem());
                            }
                        }
                        // Earlier pins survive: blocks other than `d`
                        // are unchanged, and `d`'s constraint list only
                        // grew.
                        match old(self).sem().nullable {
                            Some(rs) => {
                                lemma_pin_preserved(
                                    c0,
                                    c1,
                                    d as int,
                                    c.sem(),
                                    rs,
                                    crate::semantics::forced_bool_con(
                                        concrete.sem().nullable,
                                        "nullability of the matched type"@,
                                    ),
                                );
                            },
                            None => {},
                        }
                        match old(self).sem().parameters {
                            Some(prs) => {
                                assert forall|k: int| 0 <= k < i implies (match
                                    crate::semantics::ref_data(c1, #[trigger] prs[k]) {
                                    Some(ds) => crate::semantics::cons_contain(
                                        ds.constraints,
                                        crate::semantics::forced_param_con(
                                            concrete.sem().parameters[k],
                                            "parameter of the matched type"@,
                                        ),
                                    ),
                                    None => false,
                                }) by {
                                    lemma_pin_preserved(
                                        c0,
                                        c1,
                                        d as int,
                                        c.sem(),
                                        prs[k],
                                        crate::semantics::forced_param_con(
                                            concrete.sem().parameters[k],
                                            "parameter of the matched type"@,
                                        ),
                                    );
                                }
                                if ready {
                                    assert forall|k: int|
                                        i + 1 <= k < prs.len()
                                            implies crate::semantics::ref_data(
                                        ctx.sem(),
                                        #[trigger] prs[k],
                                    ) == crate::semantics::ref_data(
                                        old(ctx).sem(),
                                        prs[k],
                                    ) by {
                                        assert(crate::semantics::ref_data(c0, prs[k])
                                            == crate::semantics::ref_data(
                                            old(ctx).sem(),
                                            prs[k],
                                        ));
                                        let t_k = crate::semantics::ref_didx(c0, prs[k]);
                                        assert(crate::semantics::ref_didx(
                                            old(ctx).sem(),
                                            prs[k],
                                        ) != crate::semantics::ref_didx(
                                            old(ctx).sem(),
                                            prs[i as int],
                                        ));
                                        assert(crate::semantics::ref_data(c0, prs[i as int])
                                            == Some(c0.datas[d as int]));
                                        if 0 <= t_k < c0.datas.len() {
                                            assert(ctx.sem().datas[t_k] == c0.datas[t_k]);
                                        }
                                    }
                                }
                            },
                            None => {},
                        }
                    }
                },
                None => {
                    proof {
                        if ready {
                            assert(false);
                        }
                    }
                    return Err(Diagnostic::TypeKindMismatch(
                        "metavariable is not bound".to_owned(),
                    ));
                },
            }
            i += 1;
        }
        if let Some(ps) = &self.parameters {
            proof {
                lemma_pparams_sem(ps@);
                crate::data_type::lemma_params_sem(concrete.parameters@);
            }
        }
        let variation = Some(concrete.variation.clone());
        self.variation = variation;
        Ok(())
    }
}

impl Pattern {
    /// Returns the concrete type this pattern denotes, if its class is
    /// fixed, its nullability metavariable is resolved, its variation is
    /// fixed (or base), and every parameter metavariable is resolved to
    /// a plain value or a single listed type.  An unspecified variation
    /// concretizes to the base variation; the match round trip relies on
    /// this normalization.  `Err` reports a resolved pattern whose
    /// parameters break the class's rules.
    pub fn make_concrete(&self, ctx: &Context) -> (r: Result<
        Option<data_type::DataType>,
        Diagnostic,
    >)
        requires
            ctx.wf(),
        ensures
            (match r {
                Ok(Some(t)) => {
                    &&& spec_pat_matches(ctx.sem(), self.sem(), t.sem())
                    &&& t.sem().class == self.sem().class
                    &&& (match self.sem().variation {
                        Some(v) => t.sem().variation == v,
                        None => t.sem().variation is None,
                    })
                    &&& (match self.sem().nullable {
                        Some(rs) => crate::semantics::spec_ref_bool_value(ctx.sem(), rs)
                            == Some(t.sem().nullable),
                        None => false,
                    })
                },
                _ => true,
            }),
            pattern_resolved(ctx.sem(), self.sem(), self.class) && (match self.sem().parameters {
                Some(prs) => forall|k: int|
                    0 <= k < prs.len() ==> (match crate::semantics::spec_ref_exact_value(
                        ctx.sem(),
                        #[trigger] prs[k],
                    ) {
                        Some(v) => param_value_fits(v, self.class.kind_at(k)),
                        None => true,
                    }),
                None => true,
            }) ==> r matches Ok(Some(_)),
            pattern_resolved(ctx.sem(), self.sem(), self.class) && (match self.sem().parameters {
                Some(prs) => exists|k: int|
                    0 <= k < prs.len() && (match crate::semantics::spec_ref_exact_value(
                        ctx.sem(),
                        #[trigger] prs[k],
                    ) {
                        Some(v) => !param_value_fits(v, self.class.kind_at(k)),
                        None => false,
                    }),
                None => false,
            }) ==> r is Err,
            r is Err ==> (match self.sem().nullable {
                Some(rs) => crate::semantics::spec_ref_bool_value(ctx.sem(), rs) is Some,
                None => false,
            }) && (match self.sem().parameters {
                Some(prs) => !self.class.arity_ok(prs.len() as int) || (exists|k: int|
                    0 <= k < prs.len() && (match crate::semantics::spec_ref_exact_value(
                        ctx.sem(),
                        #[trigger] prs[k],
                    ) {
                        Some(v) => !param_value_fits(v, self.class.kind_at(k)),
                        None => false,
                    })),
                None => false,
            }),
    {
        let nullable = match &self.nullable {
            Some(r) => match ctx.ref_bool_value(r) {
                Some(b) => b,
                None => {
                    return Ok(None);
                },
            },
            None => {
                return Ok(None);
            },
        };
        let variation = match &self.variation {
            Some(v) => v.clone(),
            None => Variation::Base,
        };
        let ps = match &self.parameters {
            Some(ps) => ps,
            None => {
                return Ok(None);
            },
        };
        let n = ps.len();
        if !self.class.check_arity(n) {
            proof {
                lemma_pparams_sem(ps@);
            }
            return Err(Diagnostic::IllFormedConcreteType);
        }
        proof {
            lemma_pparams_sem(ps@);
        }
        let mut parameters: Vec<data_type::Parameter> = Vec::new();
        let mut i: usize = 0;
        while i < n
            invariant
                ctx.wf(),
                self.parameters == Some(*ps),
                n == ps@.len(),
                i <= n,
                parameters@.len() == i,
                forall|k: int| 0 <= k < i ==> spec_pparam_matches(
                    ctx.sem(),
                    pparams_sem(ps@)[k],
                    (#[trigger] parameters@[k]).sem(),
                ),
                forall|k: int| 0 <= k < i ==> (match crate::semantics::spec_ref_exact_value(
                    ctx.sem(),
                    #[trigger] pparams_sem(ps@)[k],
                ) {
                    Some(v) => param_value_fits(v, self.class.kind_at(k)),
                    None => true,
                }),
                (match self.sem().nullable {
                    Some(rs) => crate::semantics::spec_ref_bool_value(ctx.sem(), rs) == Some(
                        nullable,
                    ),
                    None => false,
                }),
                self.class.arity_ok(n as int),
                pparams_sem(ps@).len() == n,
            decreases n - i,
        {
            proof {
                lemma_pparams_sem(ps@);
            }
            let p = &ps[i];
            let kind = self.class.kind_of(i);
            proof {
                lemma_pparams_sem(ps@);
            }
            match ctx.ref_exact_value(&p.value) {
                Some(Value::Integer(v)) => {
                    if v < 0 {
                        proof {
                            let rs = pparams_sem(ps@)[i as int];
                            assert((match crate::semantics::spec_ref_exact_value(
                                ctx.sem(),
                                rs,
                            ) {
                                Some(w) => !param_value_fits(w, self.class.kind_at(i as int)),
                                None => false,
                            }));
                        }
                        return Err(Diagnostic::IllFormedConcreteType);
                    }
                    if !matches!(kind, Some(crate::data_type::ParameterKind::Unsigned)) {
                        proof {
                            let rs = pparams_sem(ps@)[i as int];
                            assert((match crate::semantics::spec_ref_exact_value(
                                ctx.sem(),
                                rs,
                            ) {
                                Some(w) => !param_value_fits(w, self.class.kind_at(i as int)),
                                None => false,
                            }));
                        }
                        return Err(Diagnostic::IllFormedConcreteType);
                    }
                    parameters.push(data_type::Parameter::Unsigned(v as u64));
                    proof {
                        assert(parameters@[i as int].sem()
                            == crate::data_type::TParamSem::Unsigned(v as u64));
                        let rs = pparams_sem(ps@)[i as int];
                        assert(rs == ps@[i as int].value.sem());
                        assert(crate::semantics::spec_ref_int_value(ctx.sem(), rs) == Some(v));
                        match crate::semantics::ref_data(ctx.sem(), rs) {
                            Some(ds) => {
                                assert(ds.values.integers[0].lo <= v as int
                                    <= ds.values.integers[0].hi);
                                assert(crate::sets::ranges_have(ds.values.integers, v as int));
                            },
                            None => {
                                assert(false);
                            },
                        }
                        assert(spec_pparam_matches(
                            ctx.sem(),
                            rs,
                            parameters@[i as int].sem(),
                        ));
                    }
                },
                Some(Value::Boolean(_)) => {
                    proof {
                        let rs = pparams_sem(ps@)[i as int];
                        assert((match crate::semantics::spec_ref_exact_value(ctx.sem(), rs) {
                            Some(v) => !param_value_fits(v, self.class.kind_at(i as int)),
                            None => false,
                        }));
                    }
                    return Err(Diagnostic::IllFormedConcreteType);
                },
                Some(Value::DataType(t)) => {
                    if !matches!(kind, Some(crate::data_type::ParameterKind::DataType)) {
                        proof {
                            let rs = pparams_sem(ps@)[i as int];
                            assert((match crate::semantics::spec_ref_exact_value(
                                ctx.sem(),
                                rs,
                            ) {
                                Some(v) => !param_value_fits(v, self.class.kind_at(i as int)),
                                None => false,
                            }));
                        }
                        return Err(Diagnostic::IllFormedConcreteType);
                    }
                    let ghost tsem = t.sem();
                    match &p.name {
                        Some(nm) => parameters.push(data_type::Parameter::Named(
                            nm.clone(),
                            t,
                        )),
                        None => parameters.push(data_type::Parameter::Typ(t)),
                    }
                    proof {
                        assert(parameters@[i as int].sem() == crate::data_type::TParamSem::Typ(
                            tsem,
                        ));
                        let rs = pparams_sem(ps@)[i as int];
                        assert(rs == ps@[i as int].value.sem());
                        match crate::semantics::ref_data(ctx.sem(), rs) {
                            Some(ds) => {
                                match ds.values.data_types {
                                    crate::valueset::DtSetSem::Exact(ts1) => {
                                        assert(ts1[0] == tsem);
                                        crate::semantics::lemma_any_type_is(ts1, tsem);
                                        crate::semantics::lemma_dtset_has_exact(
                                            ctx.sem(),
                                            ts1,
                                            tsem,
                                        );
                                    },
                                    _ => {
                                        assert(false);
                                    },
                                }
                            },
                            None => {
                                assert(false);
                            },
                        }
                        assert(spec_pparam_matches(
                            ctx.sem(),
                            rs,
                            parameters@[i as int].sem(),
                        ));
                    }
                },
                None => {
                    return Ok(None);
                },
            }
            i += 1;
        }
        let t = data_type::DataType {
            class: self.class.clone(),
            nullable,
            variation,
            parameters,
        };
        proof {
            crate::data_type::lemma_params_sem(t.parameters@);
            lemma_pparams_sem(ps@);
            assert(t.sem().parameters.len() == n as int);
            assert(spec_pat_matches(ctx.sem(), self.sem(), t.sem())) by {
                assert forall|k: int| 0 <= k < n implies spec_pparam_matches(
                    ctx.sem(),
                    #[trigger] pparams_sem(ps@)[k],
                    t.sem().parameters[k],
                ) by {
                    assert(t.sem().parameters[k] == t.parameters@[k].sem());
                }
            }
        }
        Ok(Some(t))
    }
}

/// A recorded constraint stays recorded in the block a reference leads
/// to when one block steps and the rest of the context is unchanged.
proof fn lemma_pin_preserved(
    c0: crate::context::CtxSem,
    c1: crate::context::CtxSem,
    d: int,
    con0: ConstraintSem,
    rs: RefSem,
    con: ConstraintSem,
)
    requires
        c1.aliases == c0.aliases,
        c1.datas.len() == c0.datas.len(),
        0 <= d < c0.datas.len(),
        crate::semantics::data_step(c0, c0.datas[d], con0, c1.datas[d], true),
        forall|k: int| 0 <= k < c0.datas.len() && k != d ==> #[trigger] c1.datas[k]
            == c0.datas[k],
        (match crate::semantics::ref_data(c0, rs) {
            Some(ds) => crate::semantics::cons_contain(ds.constraints, con),
            None => false,
        }),
    ensures
        (match crate::semantics::ref_data(c1, rs) {
            Some(ds) => crate::semantics::cons_contain(ds.constraints, con),
            None => false,
        }),
{
    match rs.alias {
        Some(a) => {
            let dd = c0.aliases[a as int] as int;
            if dd != d {
                assert(c1.datas[dd] == c0.datas[dd]);
            } else {
                crate::semantics::lemma_step_keeps_contained(
                    c0,
                    c0.datas[dd],
                    con0,
                    c1.datas[dd],
                    true,
                    con,
                );
            }
        },
        None => {},
    }
}

} // verus!
