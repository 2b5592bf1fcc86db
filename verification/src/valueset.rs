//! Metavalues and symbolic sets of them.
//!
//! A [`Value`] is a concrete value a metavariable may take: a boolean, a
//! 64-bit signed integer, or a concrete data type.  A [`ValueSet`] is the
//! engine's over-approximation of the values a metavariable may still
//! take, partitioned by metatype: a [`crate::sets::Boolean`] set, a
//! [`crate::sets::Integer`] interval union, and a [`DataType`] set that
//! is either universal, a union of patterns, or a finite list of
//! concrete types.

use crate::data_type;
use crate::data_type::TypeSem;
use crate::data_type::type_size;
use crate::pattern::PatSem;
use crate::pattern::Pattern;
use crate::sets::Boolean;
use crate::sets::IntRange;
use crate::sets::Integer;
use crate::sets::ranges_have;
use crate::context::Context;
use crate::context::CtxSem;
use crate::constraint::Constraint;
use crate::constraint::ConstraintType;
use crate::constraint::con_wf;
use crate::constraint::refs_sem;
use crate::semantics::spec_dtset_has;
use crate::semantics::spec_pat_matches;
use crate::semantics::spec_vset_has;
use crate::diag::Diagnostic;
use vstd::prelude::*;

verus! {

/// Ghost projection of a metavalue.
pub ghost enum ValSem {
    /// A boolean value.
    Boolean(bool),
    /// An integer value.
    Integer(i64),
    /// A concrete data type.
    DataType(TypeSem),
}

/// A concrete metavalue.
#[derive(Debug)]
pub enum Value {
    /// A boolean value.
    Boolean(bool),
    /// An integer value.
    Integer(i64),
    /// A concrete data type.
    DataType(data_type::DataType),
}

impl Value {
    /// Semantic projection of the value.
    pub open spec fn sem(self) -> ValSem {
        match self {
            Value::Boolean(b) => ValSem::Boolean(b),
            Value::Integer(i) => ValSem::Integer(i),
            Value::DataType(t) => ValSem::DataType(t.sem()),
        }
    }
}

impl Clone for Value {
    /// Copies the value; its projection carries over.
    fn clone(&self) -> (res: Self)
        ensures
            res.sem() == self.sem(),
    {
        match self {
            Value::Boolean(b) => Value::Boolean(*b),
            Value::Integer(i) => Value::Integer(*i),
            Value::DataType(t) => Value::DataType(t.clone()),
        }
    }
}

/// Semantic projections of a sequence of values.
pub open spec fn vals_sem(s: Seq<Value>) -> Seq<ValSem>
    decreases s,
{
    if s.len() == 0 {
        Seq::empty()
    } else {
        vals_sem(s.drop_last()).push(s[s.len() - 1].sem())
    }
}

/// The projection of a value sequence is the sequence of the values'
/// projections.
pub proof fn lemma_vals_sem(s: Seq<Value>)
    ensures
        vals_sem(s).len() == s.len(),
        forall|i: int| 0 <= i < s.len() ==> #[trigger] vals_sem(s)[i] == s[i].sem(),
    decreases s,
{
    if s.len() > 0 {
        lemma_vals_sem(s.drop_last());
        assert forall|i: int| 0 <= i < s.len() implies #[trigger] vals_sem(s)[i]
            == s[i].sem() by {
            if i < s.len() - 1 {
                assert(vals_sem(s)[i] == vals_sem(s.drop_last())[i]);
                assert(s.drop_last()[i] == s[i]);
            }
        }
    }
}

/// Ghost projection of a data-type set.
pub ghost enum DtSetSem {
    /// The universal set.
    All,
    /// The union of the given patterns.
    Patterns(Seq<PatSem>),
    /// Exactly the given concrete types.
    Exact(Seq<TypeSem>),
}

impl DtSetSem {
    /// Whether the representation is the empty set.
    pub open spec fn repr_empty(self) -> bool {
        match self {
            DtSetSem::All => false,
            DtSetSem::Patterns(ps) => ps.len() == 0,
            DtSetSem::Exact(ts) => ts.len() == 0,
        }
    }
}

/// A set of data-type metavalues.
#[derive(Debug)]
pub enum DataType {
    /// The set contains all data types.
    All,
    /// The set consists of all data types matched by at least one of
    /// these patterns.
    Patterns(Vec<Pattern>),
    /// The set consists of exactly these concrete types.
    Exact(Vec<data_type::DataType>),
}

/// Semantic projections of a sequence of patterns.
pub open spec fn pats_sem(s: Seq<Pattern>) -> Seq<PatSem>
    decreases s,
{
    if s.len() == 0 {
        Seq::empty()
    } else {
        pats_sem(s.drop_last()).push(s[s.len() - 1].sem())
    }
}

/// The projection of a pattern sequence is the sequence of the patterns'
/// projections.
pub proof fn lemma_pats_sem(s: Seq<Pattern>)
    ensures
        pats_sem(s).len() == s.len(),
        forall|i: int| 0 <= i < s.len() ==> #[trigger] pats_sem(s)[i] == s[i].sem(),
    decreases s,
{
    if s.len() > 0 {
        lemma_pats_sem(s.drop_last());
        assert forall|i: int| 0 <= i < s.len() implies #[trigger] pats_sem(s)[i]
            == s[i].sem() by {
            if i < s.len() - 1 {
                assert(pats_sem(s)[i] == pats_sem(s.drop_last())[i]);
                assert(s.drop_last()[i] == s[i]);
            }
        }
    }
}

/// Semantic projections of a sequence of concrete types.
pub open spec fn types_sem(s: Seq<data_type::DataType>) -> Seq<TypeSem>
    decreases s,
{
    if s.len() == 0 {
        Seq::empty()
    } else {
        types_sem(s.drop_last()).push(s[s.len() - 1].sem())
    }
}

/// The projection of a type sequence is the sequence of the types'
/// projections.
pub proof fn lemma_types_sem(s: Seq<data_type::DataType>)
    ensures
        types_sem(s).len() == s.len(),
        forall|i: int| 0 <= i < s.len() ==> #[trigger] types_sem(s)[i] == s[i].sem(),
    decreases s,
{
    if s.len() > 0 {
        lemma_types_sem(s.drop_last());
        assert forall|i: int| 0 <= i < s.len() implies #[trigger] types_sem(s)[i]
            == s[i].sem() by {
            if i < s.len() - 1 {
                assert(types_sem(s)[i] == types_sem(s.drop_last())[i]);
                assert(s.drop_last()[i] == s[i]);
            }
        }
    }
}

impl DataType {
    /// Semantic projection of the set.
    pub open spec fn sem(self) -> DtSetSem {
        match self {
            DataType::All => DtSetSem::All,
            DataType::Patterns(ps) => DtSetSem::Patterns(pats_sem(ps@)),
            DataType::Exact(ts) => DtSetSem::Exact(types_sem(ts@)),
        }
    }

    /// Returns the set containing all possible values.
    pub fn full() -> (r: Self)
        ensures
            r.sem() == DtSetSem::All,
    {
        DataType::All
    }

    /// Returns the empty set.
    pub fn empty() -> (r: Self)
        ensures
            r.sem().repr_empty(),
            r.sem() == DtSetSem::Patterns(Seq::<PatSem>::empty()),
            forall|c: CtxSem, t: TypeSem| !spec_dtset_has(c, r.sem(), t),
    {
        let r = DataType::Patterns(Vec::new());
        proof {
            assert(pats_sem(Seq::<Pattern>::empty()) =~= Seq::<PatSem>::empty());
            assert forall|c: CtxSem, t: TypeSem| !spec_dtset_has(c, r.sem(), t) by {
                assert(pats_sem(Seq::<Pattern>::empty()).len() == 0);
            }
        }
        r
    }

    /// Returns whether this is the empty set (by representation; a
    /// pattern that no type matches is not detected here).
    pub fn is_empty(&self) -> (r: bool)
        ensures
            r == self.sem().repr_empty(),
    {
        proof {
            match self {
                DataType::Patterns(ps) => lemma_pats_sem(ps@),
                DataType::Exact(ts) => lemma_types_sem(ts@),
                DataType::All => (),
            }
        }
        match self {
            DataType::All => false,
            DataType::Patterns(ps) => ps.len() == 0,
            DataType::Exact(ts) => ts.len() == 0,
        }
    }
}

impl Clone for DataType {
    /// Copies the set; its projection carries over.
    fn clone(&self) -> (res: Self)
        ensures
            res.sem() == self.sem(),
    {
        match self {
            DataType::All => DataType::All,
            DataType::Patterns(ps) => {
                let mut v: Vec<Pattern> = Vec::new();
                let mut i: usize = 0;
                while i < ps.len()
                    invariant
                        i <= ps@.len(),
                        v@.len() == i,
                        forall|k: int| 0 <= k < i ==> #[trigger] v@[k].sem() == ps@[k].sem(),
                    decreases ps@.len() - i,
                {
                    let p = &ps[i];
                    v.push(p.clone());
                    i += 1;
                }
                proof {
                    lemma_pats_sem(v@);
                    lemma_pats_sem(ps@);
                    assert(pats_sem(v@) =~= pats_sem(ps@));
                }
                DataType::Patterns(v)
            },
            DataType::Exact(ts) => {
                let mut v: Vec<data_type::DataType> = Vec::new();
                let mut i: usize = 0;
                while i < ts.len()
                    invariant
                        i <= ts@.len(),
                        v@.len() == i,
                        forall|k: int| 0 <= k < i ==> #[trigger] v@[k].sem() == ts@[k].sem(),
                    decreases ts@.len() - i,
                {
                    let t = &ts[i];
                    v.push(t.clone());
                    i += 1;
                }
                proof {
                    lemma_types_sem(v@);
                    lemma_types_sem(ts@);
                    assert(types_sem(v@) =~= types_sem(ts@));
                }
                DataType::Exact(v)
            },
        }
    }
}

/// Ghost projection of a combined value set.
pub ghost struct VSetSem {
    /// The boolean partition.
    pub booleans: Boolean,
    /// The intervals of the integer partition.
    pub integers: Seq<IntRange>,
    /// The data-type partition.
    pub data_types: DtSetSem,
}

impl VSetSem {
    /// Whether every partition is empty by representation.
    pub open spec fn repr_empty(self) -> bool {
        self.booleans is Empty && self.integers.len() == 0 && self.data_types.repr_empty()
    }
}

/// A set of metavalues of any supported metatype: the union of its three
/// partitions.
#[derive(Debug)]
pub struct ValueSet {
    /// The booleans contained in the set.
    pub booleans: Boolean,
    /// The integers contained in the set.
    pub integers: Integer,
    /// The data types contained in the set.
    pub data_types: DataType,
}

impl ValueSet {
    /// Semantic projection of the set.
    pub open spec fn sem(self) -> VSetSem {
        VSetSem {
            booleans: self.booleans,
            integers: self.integers.ranges@,
            data_types: self.data_types.sem(),
        }
    }

    /// Whether the integer partition is canonical.
    pub open spec fn wf(self) -> bool {
        self.integers.wf()
    }

    /// Returns the set containing all possible values.
    pub fn full() -> (r: Self)
        ensures
            r.wf(),
            r.sem().booleans is All,
            forall|v: int| i64::MIN <= v <= i64::MAX ==> ranges_have(r.sem().integers, v),
            r.sem().data_types == DtSetSem::All,
    {
        let r = ValueSet {
            booleans: Boolean::full(),
            integers: Integer::full(),
            data_types: DataType::full(),
        };
        proof {
            assert forall|v: int| i64::MIN <= v <= i64::MAX implies ranges_have(
                r.sem().integers,
                v,
            ) by {
                assert(r.integers.has(v));
            }
        }
        r
    }

    /// Returns the empty set.
    pub fn empty() -> (r: Self)
        ensures
            r.wf(),
            r.sem().repr_empty(),
    {
        ValueSet {
            booleans: Boolean::empty(),
            integers: Integer::empty(),
            data_types: DataType::empty(),
        }
    }

    /// Returns the set holding the given booleans and nothing else.
    pub fn of_booleans(booleans: Boolean) -> (r: Self)
        ensures
            r.wf(),
            r.sem().booleans == booleans,
            r.sem().integers == Seq::<IntRange>::empty(),
            r.sem().data_types == DtSetSem::Patterns(Seq::<PatSem>::empty()),
    {
        let r = ValueSet {
            booleans,
            integers: Integer::empty(),
            data_types: DataType::empty(),
        };
        proof {
            assert(r.sem().integers =~= Seq::<IntRange>::empty());
        }
        r
    }

    /// Returns the set holding the given integers and nothing else.
    pub fn of_integers(integers: Integer) -> (r: Self)
        ensures
            r.wf() == integers.wf(),
            r.sem().booleans is Empty,
            r.sem().integers == integers.ranges@,
            r.sem().data_types == DtSetSem::Patterns(Seq::<PatSem>::empty()),
    {
        ValueSet { booleans: Boolean::empty(), integers, data_types: DataType::empty() }
    }

    /// Returns the set holding the given data types and nothing else.
    pub fn of_data_types(data_types: DataType) -> (r: Self)
        ensures
            r.wf(),
            r.sem().booleans == (Boolean::Empty),
            r.sem().integers == Seq::<IntRange>::empty(),
            r.sem().data_types == data_types.sem(),
    {
        let r = ValueSet { booleans: Boolean::empty(), integers: Integer::empty(), data_types };
        proof {
            assert(r.sem().integers =~= Seq::<IntRange>::empty());
        }
        r
    }

    /// Returns whether every partition is empty by representation.  A
    /// non-empty representation may still denote the empty set when a
    /// pattern is unsatisfiable.
    pub fn is_empty(&self) -> (r: bool)
        requires
            self.wf(),
        ensures
            r == self.sem().repr_empty(),
    {
        let be = self.booleans.is_empty();
        proof {
            if be {
                assert(!self.booleans.has(true) && !self.booleans.has(false));
                assert(!(self.booleans is All) && !(self.booleans is Only));
            }
        }
        let ie = self.integers.is_empty();
        proof {
            if ie {
                if self.integers.ranges@.len() > 0 {
                    assert(self.integers.has(self.integers.ranges@[0].lo as int));
                }
            }
        }
        be && ie && self.data_types.is_empty()
    }
}

impl Clone for ValueSet {
    /// Copies the set; its projection carries over.
    fn clone(&self) -> (res: Self)
        ensures
            res.sem() == self.sem(),
            res.wf() == self.wf(),
    {
        ValueSet {
            booleans: self.booleans,
            integers: self.integers.clone(),
            data_types: self.data_types.clone(),
        }
    }
}

impl DataType {
    /// Returns whether the set contains the given concrete type.
    pub fn contains(&self, ctx: &Context, value: &data_type::DataType) -> (r: bool)
        requires
            ctx.wf(),
        ensures
            r == spec_dtset_has(ctx.sem(), self.sem(), value.sem()),
        decreases type_size(value.sem()), 2int,
    {
        match self {
            DataType::All => true,
            DataType::Patterns(ps) => {
                let n = ps.len();
                let mut i: usize = 0;
                while i < n
                    invariant
                        ctx.wf(),
                        *self == DataType::Patterns(*ps),
                        n == ps@.len(),
                        i <= n,
                        forall|k: int| 0 <= k < i ==> !spec_pat_matches(
                            ctx.sem(),
                            (#[trigger] ps@[k]).sem(),
                            value.sem(),
                        ),
                    decreases n - i,
                {
                    let p = &ps[i];
                    if p.matches(ctx, value) {
                        proof {
                            lemma_pats_sem(ps@);
                            assert(pats_sem(ps@)[i as int] == ps@[i as int].sem());
                            crate::semantics::lemma_any_pat_matches(
                                ctx.sem(),
                                pats_sem(ps@),
                                value.sem(),
                            );
                        }
                        return true;
                    }
                    i += 1;
                }
                proof {
                    lemma_pats_sem(ps@);
                    assert forall|k: int| 0 <= k < pats_sem(ps@).len() implies !spec_pat_matches(
                        ctx.sem(),
                        #[trigger] pats_sem(ps@)[k],
                        value.sem(),
                    ) by {
                        assert(pats_sem(ps@)[k] == ps@[k].sem());
                    }
                    crate::semantics::lemma_any_pat_matches(
                        ctx.sem(),
                        pats_sem(ps@),
                        value.sem(),
                    );
                }
                false
            },
            DataType::Exact(ts) => {
                let n = ts.len();
                let mut i: usize = 0;
                while i < n
                    invariant
                        ctx.wf(),
                        *self == DataType::Exact(*ts),
                        n == ts@.len(),
                        i <= n,
                        forall|k: int| 0 <= k < i ==> (#[trigger] ts@[k]).sem() != value.sem(),
                    decreases n - i,
                {
                    let t = &ts[i];
                    if t.same_as(value) {
                        proof {
                            lemma_types_sem(ts@);
                            assert(types_sem(ts@)[i as int] == ts@[i as int].sem());
                            crate::semantics::lemma_any_type_is(types_sem(ts@), value.sem());
                        }
                        return true;
                    }
                    i += 1;
                }
                proof {
                    lemma_types_sem(ts@);
                    assert forall|k: int| 0 <= k < types_sem(ts@).len() implies #[trigger] types_sem(
                        ts@,
                    )[k] != value.sem() by {
                        assert(types_sem(ts@)[k] == ts@[k].sem());
                    }
                    crate::semantics::lemma_any_type_is(types_sem(ts@), value.sem());
                }
                false
            },
        }
    }
}

impl ValueSet {
    /// Returns whether the set contains the given value.
    pub fn contains(&self, ctx: &Context, value: &Value) -> (r: bool)
        requires
            ctx.wf(),
        ensures
            r == spec_vset_has(ctx.sem(), self.sem(), value.sem()),
    {
        match value {
            Value::Boolean(b) => self.booleans.contains(*b),
            Value::Integer(i) => self.integers.contains(*i),
            Value::DataType(t) => self.data_types.contains(ctx, t),
        }
    }
}

impl DataType {
    /// Returns whether the two sets have the same representation.
    pub fn same_as(&self, other: &DataType) -> (r: bool)
        ensures
            r == (self.sem() == other.sem()),
    {
        match (self, other) {
            (DataType::All, DataType::All) => true,
            (DataType::Patterns(a), DataType::Patterns(b)) => {
                if a.len() != b.len() {
                    proof {
                        lemma_pats_sem(a@);
                        lemma_pats_sem(b@);
                    }
                    return false;
                }
                let n = a.len();
                let mut i: usize = 0;
                while i < n
                    invariant
                        n == a@.len(),
                        n == b@.len(),
                        i <= n,
                        *self == (DataType::Patterns(*a)),
                        *other == (DataType::Patterns(*b)),
                        forall|k: int| 0 <= k < i ==> (#[trigger] a@[k]).sem() == b@[k].sem(),
                    decreases n - i,
                {
                    let pa = &a[i];
                    let pb = &b[i];
                    if !pa.same_as(pb) {
                        proof {
                            lemma_pats_sem(a@);
                            lemma_pats_sem(b@);
                            assert(pats_sem(a@)[i as int] != pats_sem(b@)[i as int]);
                        }
                        return false;
                    }
                    i += 1;
                }
                proof {
                    lemma_pats_sem(a@);
                    lemma_pats_sem(b@);
                    assert(pats_sem(a@) =~= pats_sem(b@));
                }
                true
            },
            (DataType::Exact(a), DataType::Exact(b)) => {
                if a.len() != b.len() {
                    proof {
                        lemma_types_sem(a@);
                        lemma_types_sem(b@);
                    }
                    return false;
                }
                let n = a.len();
                let mut i: usize = 0;
                while i < n
                    invariant
                        n == a@.len(),
                        n == b@.len(),
                        i <= n,
                        *self == (DataType::Exact(*a)),
                        *other == (DataType::Exact(*b)),
                        forall|k: int| 0 <= k < i ==> (#[trigger] a@[k]).sem() == b@[k].sem(),
                    decreases n - i,
                {
                    let ta = &a[i];
                    let tb = &b[i];
                    if !ta.same_as(tb) {
                        proof {
                            lemma_types_sem(a@);
                            lemma_types_sem(b@);
                            assert(types_sem(a@)[i as int] != types_sem(b@)[i as int]);
                        }
                        return false;
                    }
                    i += 1;
                }
                proof {
                    lemma_types_sem(a@);
                    lemma_types_sem(b@);
                    assert(types_sem(a@) =~= types_sem(b@));
                }
                true
            },
            _ => false,
        }
    }
}

impl ValueSet {
    /// Returns whether the two sets have the same representation.
    pub fn same_as(&self, other: &ValueSet) -> (r: bool)
        ensures
            r == (self.sem() == other.sem()),
    {
        let booleans = match (&self.booleans, &other.booleans) {
            (Boolean::All, Boolean::All) => true,
            (Boolean::Empty, Boolean::Empty) => true,
            (Boolean::Only(a), Boolean::Only(b)) => *a == *b,
            _ => false,
        };
        booleans && self.integers.same_as(&other.integers) && self.data_types.same_as(
            &other.data_types,
        )
    }
}

impl DataType {
    /// Returns whether the two sets can share a data type.  A `true`
    /// answer may be conservative; a `false` answer is definite.
    pub fn intersects_with(&self, ctx: &Context, other: &DataType) -> (r: bool)
        requires
            ctx.wf(),
        ensures
            forall|t: TypeSem| spec_dtset_has(ctx.sem(), self.sem(), t) && spec_dtset_has(
                ctx.sem(),
                other.sem(),
                t,
            ) ==> r,
            self.sem().repr_empty() || other.sem().repr_empty() ==> r == false,
    {
        self.intersects_at(ctx, other, crate::semantics::QUERY_FUEL)
    }

    /// Fuel-bounded intersection check; exhausted fuel over-reports.
    pub(crate) fn intersects_at(&self, ctx: &Context, other: &DataType, fuel: u64) -> (r: bool)
        requires
            ctx.wf(),
        ensures
            forall|t: TypeSem| spec_dtset_has(ctx.sem(), self.sem(), t) && spec_dtset_has(
                ctx.sem(),
                other.sem(),
                t,
            ) ==> r,
            self.sem().repr_empty() || other.sem().repr_empty() ==> r == false,
        decreases fuel, 2int,
    {
        match (self, other) {
            (DataType::All, _) => !other.is_empty(),
            (_, DataType::All) => !self.is_empty(),
            (DataType::Patterns(xs), DataType::Patterns(ys)) => {
                let n = xs.len();
                let m = ys.len();
                let mut i: usize = 0;
                while i < n
                    invariant
                        ctx.wf(),
                        *self == (DataType::Patterns(*xs)),
                        *other == (DataType::Patterns(*ys)),
                        n == xs@.len(),
                        m == ys@.len(),
                        i <= n,
                        forall|t: TypeSem, k: int|
                            #![trigger spec_pat_matches(ctx.sem(), pats_sem(xs@)[k], t)]
                            0 <= k < i ==> !(spec_pat_matches(ctx.sem(), pats_sem(xs@)[k], t)
                                && spec_dtset_has(ctx.sem(), other.sem(), t)),
                    decreases n - i,
                {
                    let mut j: usize = 0;
                    while j < m
                        invariant
                            ctx.wf(),
                            *self == (DataType::Patterns(*xs)),
                            *other == (DataType::Patterns(*ys)),
                            n == xs@.len(),
                            m == ys@.len(),
                            i < n,
                            j <= m,
                            forall|t: TypeSem, k: int|
                                #![trigger spec_pat_matches(ctx.sem(), pats_sem(ys@)[k], t)]
                                0 <= k < j ==> !(spec_pat_matches(
                                    ctx.sem(),
                                    pats_sem(xs@)[i as int],
                                    t,
                                ) && spec_pat_matches(ctx.sem(), pats_sem(ys@)[k], t)),
                        decreases m - j,
                    {
                        let x = &xs[i];
                        let y = &ys[j];
                        if x.intersects_at(ctx, y, fuel) {
                            return true;
                        }
                        proof {
                            lemma_pats_sem(xs@);
                            lemma_pats_sem(ys@);
                        }
                        j += 1;
                    }
                    proof {
                        lemma_pats_sem(xs@);
                        lemma_pats_sem(ys@);
                        assert forall|t: TypeSem| !(spec_pat_matches(
                            ctx.sem(),
                            pats_sem(xs@)[i as int],
                            t,
                        ) && spec_dtset_has(ctx.sem(), other.sem(), t)) by {
                            if spec_pat_matches(ctx.sem(), pats_sem(xs@)[i as int], t)
                                && spec_dtset_has(ctx.sem(), other.sem(), t) {
                                crate::semantics::lemma_any_pat_matches(
                                    ctx.sem(),
                                    pats_sem(ys@),
                                    t,
                                );
                            }
                        }
                    }
                    i += 1;
                }
                proof {
                    lemma_pats_sem(xs@);
                    assert forall|t: TypeSem| !(spec_dtset_has(ctx.sem(), self.sem(), t)
                        && spec_dtset_has(ctx.sem(), other.sem(), t)) by {
                        if spec_dtset_has(ctx.sem(), self.sem(), t) {
                            crate::semantics::lemma_any_pat_matches(ctx.sem(), pats_sem(xs@), t);
                        }
                    }
                }
                false
            },
            (DataType::Patterns(_), DataType::Exact(ts)) => {
                let n = ts.len();
                let mut i: usize = 0;
                while i < n
                    invariant
                        ctx.wf(),
                        *other == (DataType::Exact(*ts)),
                        n == ts@.len(),
                        i <= n,
                        forall|k: int| 0 <= k < i ==> !spec_dtset_has(
                            ctx.sem(),
                            self.sem(),
                            (#[trigger] types_sem(ts@)[k]),
                        ),
                    decreases n - i,
                {
                    let t = &ts[i];
                    proof {
                        lemma_types_sem(ts@);
                    }
                    if self.contains(ctx, t) {
                        return true;
                    }
                    i += 1;
                }
                proof {
                    lemma_types_sem(ts@);
                    assert forall|t: TypeSem| !(spec_dtset_has(ctx.sem(), self.sem(), t)
                        && spec_dtset_has(ctx.sem(), other.sem(), t)) by {
                        if spec_dtset_has(ctx.sem(), other.sem(), t) {
                            crate::semantics::lemma_any_type_is(types_sem(ts@), t);
                        }
                    }
                }
                false
            },
            (DataType::Exact(ts), _) => {
                let n = ts.len();
                let mut i: usize = 0;
                while i < n
                    invariant
                        ctx.wf(),
                        *self == (DataType::Exact(*ts)),
                        n == ts@.len(),
                        i <= n,
                        forall|k: int| 0 <= k < i ==> !spec_dtset_has(
                            ctx.sem(),
                            other.sem(),
                            (#[trigger] types_sem(ts@)[k]),
                        ),
                    decreases n - i,
                {
                    let t = &ts[i];
                    proof {
                        lemma_types_sem(ts@);
                    }
                    if other.contains(ctx, t) {
                        return true;
                    }
                    i += 1;
                }
                proof {
                    lemma_types_sem(ts@);
                    assert forall|t: TypeSem| !(spec_dtset_has(ctx.sem(), self.sem(), t)
                        && spec_dtset_has(ctx.sem(), other.sem(), t)) by {
                        if spec_dtset_has(ctx.sem(), self.sem(), t) {
                            crate::semantics::lemma_any_type_is(types_sem(ts@), t);
                        }
                    }
                }
                false
            },
        }
    }
}

impl ValueSet {
    /// Returns whether the two sets can share a value.  A `true` answer
    /// may be conservative; a `false` answer is definite.
    pub fn intersects_with(&self, ctx: &Context, other: &ValueSet) -> (r: bool)
        requires
            ctx.wf(),
            self.wf(),
            other.wf(),
        ensures
            forall|w: crate::valueset::ValSem| spec_vset_has(ctx.sem(), self.sem(), w)
                && spec_vset_has(ctx.sem(), other.sem(), w) ==> r,
            self.sem().repr_empty() || other.sem().repr_empty() ==> r == false,
    {
        self.intersects_at(ctx, other, crate::semantics::QUERY_FUEL)
    }

    /// Fuel-bounded intersection check; exhausted fuel over-reports.
    pub(crate) fn intersects_at(&self, ctx: &Context, other: &ValueSet, fuel: u64) -> (r: bool)
        requires
            ctx.wf(),
            self.wf(),
            other.wf(),
        ensures
            forall|w: crate::valueset::ValSem| spec_vset_has(ctx.sem(), self.sem(), w)
                && spec_vset_has(ctx.sem(), other.sem(), w) ==> r,
            self.sem().repr_empty() || other.sem().repr_empty() ==> r == false,
        decreases fuel, 3int,
    {
        let r = self.booleans.intersects_with(&other.booleans) || self.integers.intersects_with(
            &other.integers,
        ) || self.data_types.intersects_at(ctx, &other.data_types, fuel);
        proof {
            if !r {
                assert forall|w: crate::valueset::ValSem| !(spec_vset_has(
                    ctx.sem(),
                    self.sem(),
                    w,
                ) && spec_vset_has(ctx.sem(), other.sem(), w)) by {
                    match w {
                        crate::valueset::ValSem::Boolean(b) => {
                            assert(!(self.booleans.has(b) && other.booleans.has(b)));
                        },
                        crate::valueset::ValSem::Integer(iv) => {
                            assert(!(self.integers.has(iv as int) && other.integers.has(
                                iv as int,
                            )));
                        },
                        crate::valueset::ValSem::DataType(_) => {},
                    }
                }
            }
        }
        r
    }
}

/// Membership carries from a pattern list to a longer one that keeps
/// the old entries in place.
proof fn lemma_any_pat_extend(c: CtxSem, s1: Seq<PatSem>, s2: Seq<PatSem>, t: TypeSem)
    requires
        s1.len() <= s2.len(),
        forall|k: int| 0 <= k < s1.len() ==> #[trigger] s2[k] == s1[k],
        crate::semantics::spec_any_pat_matches(c, s1, t),
    ensures
        crate::semantics::spec_any_pat_matches(c, s2, t),
{
    crate::semantics::lemma_any_pat_matches(c, s1, t);
    crate::semantics::lemma_any_pat_matches(c, s2, t);
    let k = choose|k: int|
        0 <= k < s1.len() && #[trigger] spec_pat_matches(c, s1[k], t);
    assert(s2[k] == s1[k]);
    assert(spec_pat_matches(c, s2[k], t));
}

/// Membership carries from a type list to a longer one that keeps the
/// old entries in place.
proof fn lemma_any_type_extend(s1: Seq<TypeSem>, s2: Seq<TypeSem>, t: TypeSem)
    requires
        s1.len() <= s2.len(),
        forall|k: int| 0 <= k < s1.len() ==> #[trigger] s2[k] == s1[k],
        crate::semantics::spec_any_type_is(s1, t),
    ensures
        crate::semantics::spec_any_type_is(s2, t),
{
    crate::semantics::lemma_any_type_is(s1, t);
    crate::semantics::lemma_any_type_is(s2, t);
    let k = choose|k: int| 0 <= k < s1.len() && #[trigger] s1[k] == t;
    assert(s2[k] == s1[k]);
}

impl DataType {
    /// Restricts this set to members of `w`.  The result shrinks, keeps
    /// every member of both sets, and is the exact intersection whenever
    /// either side lists concrete types.
    pub(crate) fn within(&self, ctx: &Context, w: &DataType) -> (r: DataType)
        requires
            ctx.wf(),
        ensures
            forall|t: TypeSem| spec_dtset_has(ctx.sem(), r.sem(), t) ==> spec_dtset_has(
                ctx.sem(),
                self.sem(),
                t,
            ),
            forall|t: TypeSem| spec_dtset_has(ctx.sem(), self.sem(), t) && spec_dtset_has(
                ctx.sem(),
                w.sem(),
                t,
            ) ==> spec_dtset_has(ctx.sem(), r.sem(), t),
            (self.sem() is Exact || w.sem() is Exact) ==> forall|t: TypeSem| spec_dtset_has(
                ctx.sem(),
                r.sem(),
                t,
            ) ==> spec_dtset_has(ctx.sem(), w.sem(), t),
            self.sem().repr_empty() ==> r.sem().repr_empty(),
            w.sem().repr_empty() ==> r.sem().repr_empty(),
            (match w.sem() {
                DtSetSem::Exact(wts) => (match r.sem() {
                    DtSetSem::Exact(pts) => pts.len() <= wts.len() && forall|j: int|
                        0 <= j < pts.len() ==> crate::semantics::spec_any_type_is(
                            wts,
                            #[trigger] pts[j],
                        ),
                    _ => false,
                }),
                _ => true,
            }),
    {
        match (self, w) {
            (DataType::All, _) => {
                let r = w.clone();
                proof {
                    if let DtSetSem::Exact(wts) = w.sem() {
                        assert forall|j: int| 0 <= j < wts.len()
                            implies crate::semantics::spec_any_type_is(
                            wts,
                            #[trigger] wts[j],
                        ) by {
                            crate::semantics::lemma_any_type_is(wts, wts[j]);
                        }
                    }
                }
                r
            },
            (_, DataType::All) => self.clone(),
            (DataType::Patterns(xs), DataType::Patterns(ys)) => {
                let n = xs.len();
                let mut kept: Vec<Pattern> = Vec::new();
                let mut i: usize = 0;
                while i < n
                    invariant
                        ctx.wf(),
                        *self == (DataType::Patterns(*xs)),
                        *w == (DataType::Patterns(*ys)),
                        n == xs@.len(),
                        i <= n,
                        kept@.len() <= i,
                        ys@.len() == 0 ==> kept@.len() == 0,
                        forall|k: int|
                            #![trigger kept@[k]]
                            0 <= k < kept@.len() ==> exists|k2: int|
                                0 <= k2 < n && kept@[k].sem() == pats_sem(xs@)[k2],
                        forall|t: TypeSem, k: int|
                            #![trigger spec_pat_matches(ctx.sem(), pats_sem(xs@)[k], t)]
                            0 <= k < i && spec_pat_matches(ctx.sem(), pats_sem(xs@)[k], t)
                                && spec_dtset_has(ctx.sem(), w.sem(), t)
                                ==> crate::semantics::spec_any_pat_matches(
                                ctx.sem(),
                                pats_sem(kept@),
                                t,
                            ),
                    decreases n - i,
                {
                    let x = &xs[i];
                    let mut hit = false;
                    let m = ys.len();
                    let mut j: usize = 0;
                    while j < m && !hit
                        invariant
                            ctx.wf(),
                            *w == (DataType::Patterns(*ys)),
                            m == ys@.len(),
                            i < n,
                            n == xs@.len(),
                            j <= m,
                            x == &xs[i as int],
                            !hit ==> forall|t: TypeSem, k: int|
                                #![trigger spec_pat_matches(ctx.sem(), pats_sem(ys@)[k], t)]
                                0 <= k < j ==> !(spec_pat_matches(ctx.sem(), x.sem(), t)
                                    && spec_pat_matches(ctx.sem(), pats_sem(ys@)[k], t)),
                            hit ==> j >= 1,
                        decreases m - j,
                    {
                        let y = &ys[j];
                        if x.intersects_at(ctx, y, crate::semantics::QUERY_FUEL) {
                            hit = true;
                        }
                        proof {
                            lemma_pats_sem(ys@);
                        }
                        j += 1;
                    }
                    proof {
                        assert(hit || j == m);
                    }
                    let ghost oldkept = kept@;
                    if hit {
                        kept.push(x.clone());
                    }
                    proof {
                        lemma_pats_sem(xs@);
                        lemma_pats_sem(oldkept);
                        lemma_pats_sem(kept@);
                        if hit {
                            assert(kept@[kept@.len() - 1].sem() == pats_sem(xs@)[i as int]);
                            assert forall|k: int|
                                #![trigger kept@[k]]
                                0 <= k < kept@.len() implies exists|k2: int|
                                0 <= k2 < n && kept@[k].sem() == pats_sem(xs@)[k2] by {
                                if k < oldkept.len() {
                                    assert(kept@[k] == oldkept[k]);
                                }
                            }
                        }
                        assert forall|t: TypeSem, k: int|
                            0 <= k < i + 1 && #[trigger] spec_pat_matches(
                                ctx.sem(),
                                pats_sem(xs@)[k],
                                t,
                            ) && spec_dtset_has(ctx.sem(), w.sem(), t)
                            implies crate::semantics::spec_any_pat_matches(
                            ctx.sem(),
                            pats_sem(kept@),
                            t,
                        ) by {
                            if k < i {
                                assert(crate::semantics::spec_any_pat_matches(
                                    ctx.sem(),
                                    pats_sem(oldkept),
                                    t,
                                ));
                                lemma_any_pat_extend(
                                    ctx.sem(),
                                    pats_sem(oldkept),
                                    pats_sem(kept@),
                                    t,
                                );
                            } else {
                                if hit {
                                    assert(pats_sem(kept@)[kept@.len() - 1] == pats_sem(
                                        xs@,
                                    )[i as int]);
                                    assert(spec_pat_matches(
                                        ctx.sem(),
                                        pats_sem(kept@)[kept@.len() - 1],
                                        t,
                                    ));
                                    crate::semantics::lemma_any_pat_matches(
                                        ctx.sem(),
                                        pats_sem(kept@),
                                        t,
                                    );
                                } else {
                                    lemma_pats_sem(ys@);
                                    crate::semantics::lemma_dtset_has_patterns(
                                        ctx.sem(),
                                        pats_sem(ys@),
                                        t,
                                    );
                                    crate::semantics::lemma_any_pat_matches(
                                        ctx.sem(),
                                        pats_sem(ys@),
                                        t,
                                    );
                                    assert(w.sem() == DtSetSem::Patterns(pats_sem(ys@)));
                                    assert(crate::semantics::spec_any_pat_matches(
                                        ctx.sem(),
                                        pats_sem(ys@),
                                        t,
                                    ));
                                    let kk = choose|kk: int|
                                        0 <= kk < pats_sem(ys@).len()
                                            && #[trigger] spec_pat_matches(
                                            ctx.sem(),
                                            pats_sem(ys@)[kk],
                                            t,
                                        );
                                    assert(0 <= kk < m);
                                    assert(spec_pat_matches(
                                        ctx.sem(),
                                        pats_sem(ys@)[kk],
                                        t,
                                    ));
                                    assert(x.sem() == pats_sem(xs@)[i as int]);
                                    assert(spec_pat_matches(ctx.sem(), x.sem(), t));
                                    assert(!(spec_pat_matches(ctx.sem(), x.sem(), t)
                                        && spec_pat_matches(
                                        ctx.sem(),
                                        pats_sem(ys@)[kk],
                                        t,
                                    )));
                                    assert(false);
                                }
                            }
                        }
                    }
                    i += 1;
                }
                let r = DataType::Patterns(kept);
                proof {
                    lemma_pats_sem(xs@);
                    if let DataType::Patterns(kv) = &r {
                        lemma_pats_sem(kv@);
                        assert forall|t: TypeSem| spec_dtset_has(ctx.sem(), r.sem(), t)
                            implies spec_dtset_has(ctx.sem(), self.sem(), t) by {
                            crate::semantics::lemma_any_pat_matches(ctx.sem(), pats_sem(kv@), t);
                            let k = choose|k: int|
                                0 <= k < pats_sem(kv@).len() && #[trigger] spec_pat_matches(
                                    ctx.sem(),
                                    pats_sem(kv@)[k],
                                    t,
                                );
                            assert(pats_sem(kv@)[k] == kv@[k].sem());
                            let k2 = choose|k2: int|
                                0 <= k2 < n && (#[trigger] kv@[k]).sem() == pats_sem(xs@)[k2];
                            assert(spec_pat_matches(ctx.sem(), pats_sem(xs@)[k2], t));
                            crate::semantics::lemma_any_pat_matches(ctx.sem(), pats_sem(xs@), t);
                        }
                        assert forall|t: TypeSem| spec_dtset_has(ctx.sem(), self.sem(), t)
                            && spec_dtset_has(ctx.sem(), w.sem(), t) implies spec_dtset_has(
                            ctx.sem(),
                            r.sem(),
                            t,
                        ) by {
                            crate::semantics::lemma_any_pat_matches(ctx.sem(), pats_sem(xs@), t);
                        }
                    }
                }
                r
            },
            (x, DataType::Exact(ts)) => {
                let kept = filter_types(ctx, ts, x);
                let r = DataType::Exact(kept);
                proof {
                    lemma_types_sem(ts@);
                    if let DataType::Exact(kv) = &r {
                        lemma_types_sem(kv@);
                        assert forall|t: TypeSem| spec_dtset_has(ctx.sem(), self.sem(), t)
                            && spec_dtset_has(ctx.sem(), w.sem(), t) implies spec_dtset_has(
                            ctx.sem(),
                            r.sem(),
                            t,
                        ) by {}
                        assert forall|t: TypeSem| spec_dtset_has(ctx.sem(), r.sem(), t)
                            implies spec_dtset_has(ctx.sem(), self.sem(), t) && spec_dtset_has(
                            ctx.sem(),
                            w.sem(),
                            t,
                        ) by {}
                    }
                }
                r
            },
            (DataType::Exact(ts), y) => {
                let kept = filter_types(ctx, ts, y);
                let r = DataType::Exact(kept);
                proof {
                    lemma_types_sem(ts@);
                    if let DataType::Exact(kv) = &r {
                        lemma_types_sem(kv@);
                        assert forall|t: TypeSem| spec_dtset_has(ctx.sem(), self.sem(), t)
                            && spec_dtset_has(ctx.sem(), w.sem(), t) implies spec_dtset_has(
                            ctx.sem(),
                            r.sem(),
                            t,
                        ) by {}
                        assert forall|t: TypeSem| spec_dtset_has(ctx.sem(), r.sem(), t)
                            implies spec_dtset_has(ctx.sem(), self.sem(), t) && spec_dtset_has(
                            ctx.sem(),
                            w.sem(),
                            t,
                        ) by {}
                    }
                }
                r
            },
        }
    }
}

/// Keeps the listed concrete types that are members of the given set.
fn filter_types(ctx: &Context, ts: &Vec<data_type::DataType>, s: &DataType) -> (r: Vec<
    data_type::DataType,
>)
    requires
        ctx.wf(),
    ensures
        forall|t: TypeSem| crate::semantics::spec_any_type_is(types_sem(r@), t) == (
        crate::semantics::spec_any_type_is(types_sem(ts@), t) && spec_dtset_has(
            ctx.sem(),
            s.sem(),
            t,
        )),
        types_sem(r@).len() <= types_sem(ts@).len(),
        forall|j: int| 0 <= j < types_sem(r@).len() ==> crate::semantics::spec_any_type_is(
            types_sem(ts@),
            #[trigger] types_sem(r@)[j],
        ),
        s.sem().repr_empty() ==> types_sem(r@).len() == 0,
{
    let n = ts.len();
    let mut kept: Vec<data_type::DataType> = Vec::new();
    let mut i: usize = 0;
    while i < n
        invariant
            ctx.wf(),
            n == ts@.len(),
            i <= n,
            kept@.len() <= i,
            s.sem().repr_empty() ==> kept@.len() == 0,
            forall|k: int|
                #![trigger kept@[k]]
                0 <= k < kept@.len() ==> spec_dtset_has(ctx.sem(), s.sem(), kept@[k].sem()) && (
                exists|k2: int| 0 <= k2 < n && kept@[k].sem() == types_sem(ts@)[k2]),
            forall|k: int|
                #![trigger types_sem(ts@)[k]]
                0 <= k < i && spec_dtset_has(ctx.sem(), s.sem(), types_sem(ts@)[k])
                    ==> crate::semantics::spec_any_type_is(types_sem(kept@), types_sem(ts@)[k]),
        decreases n - i,
    {
        let t = &ts[i];
        let ghost oldkept = kept@;
        let keep = s.contains(ctx, t);
        if keep {
            kept.push(t.clone());
        }
        proof {
            lemma_types_sem(ts@);
            lemma_types_sem(oldkept);
            lemma_types_sem(kept@);
            if s.sem().repr_empty() {
                crate::semantics::lemma_empty_has_none(ctx.sem(), s.sem(), t.sem());
            }
            if keep {
                assert(kept@[kept@.len() - 1].sem() == types_sem(ts@)[i as int]);
                assert forall|k: int|
                    #![trigger kept@[k]]
                    0 <= k < kept@.len() implies spec_dtset_has(
                    ctx.sem(),
                    s.sem(),
                    kept@[k].sem(),
                ) && (exists|k2: int| 0 <= k2 < n && kept@[k].sem() == types_sem(ts@)[k2]) by {
                    if k < oldkept.len() {
                        assert(kept@[k] == oldkept[k]);
                    }
                }
            }
            assert forall|k: int|
                0 <= k < i + 1 && spec_dtset_has(
                    ctx.sem(),
                    s.sem(),
                    #[trigger] types_sem(ts@)[k],
                ) implies crate::semantics::spec_any_type_is(
                types_sem(kept@),
                types_sem(ts@)[k],
            ) by {
                if k < i {
                    assert(crate::semantics::spec_any_type_is(
                        types_sem(oldkept),
                        types_sem(ts@)[k],
                    ));
                    lemma_any_type_extend(
                        types_sem(oldkept),
                        types_sem(kept@),
                        types_sem(ts@)[k],
                    );
                } else {
                    assert(keep);
                    assert(types_sem(kept@)[kept@.len() - 1] == types_sem(ts@)[i as int]);
                    crate::semantics::lemma_any_type_is(types_sem(kept@), types_sem(ts@)[k]);
                }
            }
        }
        i += 1;
    }
    proof {
        lemma_types_sem(ts@);
        lemma_types_sem(kept@);
        assert forall|j: int| 0 <= j < types_sem(kept@).len()
            implies crate::semantics::spec_any_type_is(
            types_sem(ts@),
            #[trigger] types_sem(kept@)[j],
        ) by {
            assert(types_sem(kept@)[j] == kept@[j].sem());
            let k2 = choose|k2: int|
                0 <= k2 < n && (#[trigger] kept@[j]).sem() == types_sem(ts@)[k2];
            crate::semantics::lemma_any_type_is(types_sem(ts@), kept@[j].sem());
        }
        assert forall|t: TypeSem| crate::semantics::spec_any_type_is(types_sem(kept@), t) == (
        crate::semantics::spec_any_type_is(types_sem(ts@), t) && spec_dtset_has(
            ctx.sem(),
            s.sem(),
            t,
        )) by {
            if crate::semantics::spec_any_type_is(types_sem(kept@), t) {
                crate::semantics::lemma_any_type_is(types_sem(kept@), t);
                let k = choose|k: int|
                    0 <= k < types_sem(kept@).len() && #[trigger] types_sem(kept@)[k] == t;
                assert(types_sem(kept@)[k] == kept@[k].sem());
                let k2 = choose|k2: int|
                    0 <= k2 < n && (#[trigger] kept@[k]).sem() == types_sem(ts@)[k2];
                crate::semantics::lemma_any_type_is(types_sem(ts@), t);
            }
            if crate::semantics::spec_any_type_is(types_sem(ts@), t) && spec_dtset_has(
                ctx.sem(),
                s.sem(),
                t,
            ) {
                crate::semantics::lemma_any_type_is(types_sem(ts@), t);
                let k = choose|k: int|
                    0 <= k < types_sem(ts@).len() && #[trigger] types_sem(ts@)[k] == t;
            }
        }
    }
    kept
}

impl DataType {
    /// Restricts this set to types matching the given pattern.
    pub(crate) fn restrict_to_pattern(&self, ctx: &Context, p: &Pattern) -> (r: DataType)
        requires
            ctx.wf(),
        ensures
            forall|t: TypeSem| spec_dtset_has(ctx.sem(), r.sem(), t) ==> spec_dtset_has(
                ctx.sem(),
                self.sem(),
                t,
            ),
            forall|t: TypeSem| spec_dtset_has(ctx.sem(), self.sem(), t) && spec_pat_matches(
                ctx.sem(),
                p.sem(),
                t,
            ) ==> spec_dtset_has(ctx.sem(), r.sem(), t),
            self.sem() is Exact ==> forall|t: TypeSem| spec_dtset_has(ctx.sem(), r.sem(), t)
                ==> spec_pat_matches(ctx.sem(), p.sem(), t),
            self.sem().repr_empty() ==> r.sem().repr_empty(),
    {
        match self {
            DataType::All => {
                let mut ps: Vec<Pattern> = Vec::new();
                ps.push(p.clone());
                let r = DataType::Patterns(ps);
                proof {
                    if let DataType::Patterns(pv) = &r {
                        lemma_pats_sem(pv@);
                        assert forall|t: TypeSem| spec_pat_matches(
                            ctx.sem(),
                            p.sem(),
                            t,
                        ) implies spec_dtset_has(ctx.sem(), r.sem(), t) by {
                            assert(pats_sem(pv@)[0] == p.sem());
                            crate::semantics::lemma_any_pat_matches(ctx.sem(), pats_sem(pv@), t);
                        }
                    }
                }
                r
            },
            DataType::Patterns(_) => {
                let mut ys: Vec<Pattern> = Vec::new();
                ys.push(p.clone());
                let w = DataType::Patterns(ys);
                proof {
                    if let DataType::Patterns(yv) = &w {
                        lemma_pats_sem(yv@);
                        assert forall|t: TypeSem| spec_pat_matches(
                            ctx.sem(),
                            p.sem(),
                            t,
                        ) implies spec_dtset_has(ctx.sem(), w.sem(), t) by {
                            assert(pats_sem(yv@)[0] == p.sem());
                            crate::semantics::lemma_any_pat_matches(ctx.sem(), pats_sem(yv@), t);
                        }
                    }
                }
                let r = self.within(ctx, &w);
                r
            },
            DataType::Exact(ts) => {
                let n = ts.len();
                let mut kept: Vec<data_type::DataType> = Vec::new();
                let mut i: usize = 0;
                while i < n
                    invariant
                        ctx.wf(),
                        *self == (DataType::Exact(*ts)),
                        n == ts@.len(),
                        i <= n,
                        kept@.len() <= i,
                        forall|k: int|
                            #![trigger kept@[k]]
                            0 <= k < kept@.len() ==> spec_pat_matches(
                                ctx.sem(),
                                p.sem(),
                                kept@[k].sem(),
                            ) && (exists|k2: int|
                                0 <= k2 < n && kept@[k].sem() == types_sem(ts@)[k2]),
                        forall|k: int|
                            #![trigger types_sem(ts@)[k]]
                            0 <= k < i && spec_pat_matches(ctx.sem(), p.sem(), types_sem(ts@)[k])
                                ==> crate::semantics::spec_any_type_is(
                                types_sem(kept@),
                                types_sem(ts@)[k],
                            ),
                    decreases n - i,
                {
                    let t = &ts[i];
                    let ghost oldkept = kept@;
                    proof {
                        lemma_types_sem(ts@);
                    }
                    let keep = p.matches(ctx, t);
                    if keep {
                        kept.push(t.clone());
                    }
                    proof {
                        lemma_types_sem(ts@);
                        lemma_types_sem(oldkept);
                        lemma_types_sem(kept@);
                        if keep {
                            assert(kept@[kept@.len() - 1].sem() == types_sem(ts@)[i as int]);
                            assert forall|k: int|
                                #![trigger kept@[k]]
                                0 <= k < kept@.len() implies spec_pat_matches(
                                ctx.sem(),
                                p.sem(),
                                kept@[k].sem(),
                            ) && (exists|k2: int|
                                0 <= k2 < n && kept@[k].sem() == types_sem(ts@)[k2]) by {
                                if k < oldkept.len() {
                                    assert(kept@[k] == oldkept[k]);
                                }
                            }
                        }
                        assert forall|k: int|
                            0 <= k < i + 1 && spec_pat_matches(
                                ctx.sem(),
                                p.sem(),
                                #[trigger] types_sem(ts@)[k],
                            ) implies crate::semantics::spec_any_type_is(
                            types_sem(kept@),
                            types_sem(ts@)[k],
                        ) by {
                            if k < i {
                                assert(crate::semantics::spec_any_type_is(
                                    types_sem(oldkept),
                                    types_sem(ts@)[k],
                                ));
                                lemma_any_type_extend(
                                    types_sem(oldkept),
                                    types_sem(kept@),
                                    types_sem(ts@)[k],
                                );
                            } else {
                                assert(keep);
                                assert(types_sem(kept@)[kept@.len() - 1] == types_sem(
                                    ts@,
                                )[i as int]);
                                crate::semantics::lemma_any_type_is(
                                    types_sem(kept@),
                                    types_sem(ts@)[k],
                                );
                            }
                        }
                    }
                    i += 1;
                }
                let r = DataType::Exact(kept);
                proof {
                    lemma_types_sem(ts@);
                    if let DataType::Exact(kv) = &r {
                        lemma_types_sem(kv@);
                        assert forall|t: TypeSem| spec_dtset_has(ctx.sem(), r.sem(), t)
                            implies spec_dtset_has(ctx.sem(), self.sem(), t) && spec_pat_matches(
                            ctx.sem(),
                            p.sem(),
                            t,
                        ) by {
                            crate::semantics::lemma_any_type_is(types_sem(kv@), t);
                            let k = choose|k: int|
                                0 <= k < types_sem(kv@).len() && #[trigger] types_sem(kv@)[k]
                                    == t;
                            assert(types_sem(kv@)[k] == kv@[k].sem());
                            let k2 = choose|k2: int|
                                0 <= k2 < n && (#[trigger] kv@[k]).sem() == types_sem(ts@)[k2];
                            crate::semantics::lemma_any_type_is(types_sem(ts@), t);
                        }
                        assert forall|t: TypeSem| spec_dtset_has(ctx.sem(), self.sem(), t)
                            && spec_pat_matches(ctx.sem(), p.sem(), t) implies spec_dtset_has(
                            ctx.sem(),
                            r.sem(),
                            t,
                        ) by {
                            crate::semantics::lemma_any_type_is(types_sem(ts@), t);
                        }
                    }
                }
                r
            },
        }
    }
}

impl Boolean {
    /// Remove all values in the set that do not satisfy the given
    /// constraint.  Function constraints are enforced at the combined
    /// level and leave the partition unchanged here.
    pub fn constrain(&mut self, constraint: &Constraint)
        ensures
            constraint.data is Within ==> forall|b: bool| final(self).has(b) == (old(self).has(b)
                && constraint.data->Within_0.sem().booleans.has(b)),
            constraint.data is Pattern ==> forall|b: bool| !final(self).has(b),
            constraint.data is Function ==> *final(self) == *old(self),
    {
        match &constraint.data {
            ConstraintType::Within(w) => self.intersect_with(&w.booleans),
            ConstraintType::Pattern(_) => {
                *self = Boolean::Empty;
            },
            ConstraintType::Function(_, _) => {},
        }
    }
}

impl Integer {
    /// Remove all values in the set that do not satisfy the given
    /// constraint.  Function constraints are enforced at the combined
    /// level and leave the partition unchanged here.
    pub fn constrain(&mut self, constraint: &Constraint)
        requires
            old(self).wf(),
            con_wf(*constraint),
        ensures
            final(self).wf(),
            constraint.data is Within ==> forall|v: int| final(self).has(v) == (old(self).has(v)
                && ranges_have(constraint.data->Within_0.sem().integers, v)),
            constraint.data is Pattern ==> forall|v: int| !final(self).has(v),
            constraint.data is Function ==> final(self).ranges@ == old(self).ranges@,
    {
        match &constraint.data {
            ConstraintType::Within(w) => {
                let ghost pre = *self;
                let r = self.intersect(&w.integers);
                *self = r;
                proof {
                    assert(constraint.data->Within_0 == *w);
                    assert forall|v: int| self.has(v) == (pre.has(v) && ranges_have(
                        constraint.data->Within_0.sem().integers,
                        v,
                    )) by {
                        assert(r.has(v) == (pre.has(v) && w.integers.has(v)));
                    }
                }
            },
            ConstraintType::Pattern(_) => {
                *self = Integer::empty();
            },
            ConstraintType::Function(_, _) => {},
        }
    }
}

/// The partition-level shrink facts that follow from restricting a set
/// to a single value.
proof fn lemma_single_rel(c: CtxSem, pre: VSetSem, post: VSetSem, v: ValSem)
    requires
        forall|w: ValSem| spec_vset_has(c, post, w) == (spec_vset_has(c, pre, w) && w == v),
    ensures
        forall|b: bool| post.booleans.has(b) ==> pre.booleans.has(b),
        forall|vv: int| ranges_have(post.integers, vv) ==> ranges_have(pre.integers, vv),
        forall|t: TypeSem| spec_dtset_has(c, post.data_types, t) ==> spec_dtset_has(
            c,
            pre.data_types,
            t,
        ),
{
    assert forall|b: bool| post.booleans.has(b) implies pre.booleans.has(b) by {
        assert(spec_vset_has(c, post, ValSem::Boolean(b)) == (spec_vset_has(
            c,
            pre,
            ValSem::Boolean(b),
        ) && ValSem::Boolean(b) == v));
    }
    assert forall|vv: int| ranges_have(post.integers, vv) implies ranges_have(
        pre.integers,
        vv,
    ) by {
        let idx = choose|idx: int|
            #![trigger post.integers[idx]]
            0 <= idx < post.integers.len() && post.integers[idx].lo <= vv
                <= post.integers[idx].hi;
        let x = vv as i64;
        assert(vv == x as int);
        assert(spec_vset_has(c, post, ValSem::Integer(x)) == (spec_vset_has(
            c,
            pre,
            ValSem::Integer(x),
        ) && ValSem::Integer(x) == v));
    }
    assert forall|t: TypeSem| spec_dtset_has(c, post.data_types, t) implies spec_dtset_has(
        c,
        pre.data_types,
        t,
    ) by {
        assert(spec_vset_has(c, post, ValSem::DataType(t)) == (spec_vset_has(
            c,
            pre,
            ValSem::DataType(t),
        ) && ValSem::DataType(t) == v));
    }
}

impl DataType {
    /// Remove all values in the set that do not satisfy the given
    /// constraint.  Function constraints are enforced at the combined
    /// level and leave the partition unchanged here.
    pub fn constrain(&mut self, ctx: &Context, constraint: &Constraint)
        requires
            ctx.wf(),
        ensures
            constraint.data is Within ==> {
                let w = constraint.data->Within_0;
                &&& (forall|t: TypeSem| spec_dtset_has(ctx.sem(), final(self).sem(), t)
                    ==> spec_dtset_has(ctx.sem(), old(self).sem(), t))
                &&& (forall|t: TypeSem| spec_dtset_has(ctx.sem(), old(self).sem(), t)
                    && spec_dtset_has(ctx.sem(), w.sem().data_types, t) ==> spec_dtset_has(
                    ctx.sem(),
                    final(self).sem(),
                    t,
                ))
                &&& ((old(self).sem() is Exact || w.sem().data_types is Exact) ==> forall|
                    t: TypeSem,
                |
                    spec_dtset_has(ctx.sem(), final(self).sem(), t) ==> spec_dtset_has(
                        ctx.sem(),
                        w.sem().data_types,
                        t,
                    ))
                &&& (old(self).sem().repr_empty() ==> final(self).sem().repr_empty())
                &&& (w.sem().data_types.repr_empty() ==> final(self).sem().repr_empty())
                &&& (match w.sem().data_types {
                    DtSetSem::Exact(wts) => (match final(self).sem() {
                        DtSetSem::Exact(pts) => pts.len() <= wts.len() && forall|j: int|
                            0 <= j < pts.len() ==> crate::semantics::spec_any_type_is(
                                wts,
                                #[trigger] pts[j],
                            ),
                        _ => false,
                    }),
                    _ => true,
                })
            },
            constraint.data is Pattern ==> {
                let p = constraint.data->Pattern_0;
                &&& (forall|t: TypeSem| spec_dtset_has(ctx.sem(), final(self).sem(), t)
                    ==> spec_dtset_has(ctx.sem(), old(self).sem(), t))
                &&& (forall|t: TypeSem| spec_dtset_has(ctx.sem(), old(self).sem(), t)
                    && spec_pat_matches(ctx.sem(), p.sem(), t) ==> spec_dtset_has(
                    ctx.sem(),
                    final(self).sem(),
                    t,
                ))
                &&& (old(self).sem() is Exact ==> forall|t: TypeSem| spec_dtset_has(
                    ctx.sem(),
                    final(self).sem(),
                    t,
                ) ==> spec_pat_matches(ctx.sem(), p.sem(), t))
                &&& (old(self).sem().repr_empty() ==> final(self).sem().repr_empty())
            },
            constraint.data is Function ==> final(self).sem() == old(self).sem(),
    {
        match &constraint.data {
            ConstraintType::Within(w) => {
                let nv = self.within(ctx, &w.data_types);
                *self = nv;
            },
            ConstraintType::Pattern(p) => {
                let nv = self.restrict_to_pattern(ctx, p);
                *self = nv;
            },
            ConstraintType::Function(_, _) => {},
        }
    }
}

impl ValueSet {
    /// Restricts this set to the given single value.
    pub(crate) fn restricted_to_value(&self, ctx: &Context, v: &Value) -> (r: ValueSet)
        requires
            ctx.wf(),
            self.wf(),
        ensures
            r.wf(),
            forall|w: ValSem| spec_vset_has(ctx.sem(), r.sem(), w) == (spec_vset_has(
                ctx.sem(),
                self.sem(),
                w,
            ) && w == v.sem()),
            (match v.sem() {
                ValSem::Boolean(b) => r.sem().booleans == (if self.sem().booleans.has(b) {
                    Boolean::Only(b)
                } else {
                    Boolean::Empty
                }) && r.sem().integers.len() == 0 && r.sem().data_types.repr_empty(),
                ValSem::Integer(x) => r.sem().booleans is Empty
                    && r.sem().data_types.repr_empty() && (if crate::sets::ranges_have(
                    self.sem().integers,
                    x as int,
                ) {
                    r.sem().integers.len() == 1 && r.sem().integers[0].lo == x
                        && r.sem().integers[0].hi == x
                } else {
                    r.sem().integers.len() == 0
                }),
                ValSem::DataType(t) => r.sem().booleans is Empty && r.sem().integers.len()
                    == 0 && (match r.sem().data_types {
                    DtSetSem::Exact(ts) => if spec_dtset_has(
                        ctx.sem(),
                        self.sem().data_types,
                        t,
                    ) {
                        ts.len() == 1 && ts[0] == t
                    } else {
                        ts.len() == 0
                    },
                    _ => false,
                }),
            }),
    {
        match v {
            Value::Boolean(b) => {
                let r = ValueSet {
                    booleans: if self.booleans.contains(*b) {
                        Boolean::Only(*b)
                    } else {
                        Boolean::Empty
                    },
                    integers: Integer::empty(),
                    data_types: DataType::empty(),
                };
                proof {
                    assert forall|w: ValSem| spec_vset_has(ctx.sem(), r.sem(), w) == (
                    spec_vset_has(ctx.sem(), self.sem(), w) && w == v.sem()) by {
                        match w {
                            ValSem::Boolean(_) => {},
                            ValSem::Integer(_) => {},
                            ValSem::DataType(_) => {},
                        }
                    }
                }
                r
            },
            Value::Integer(iv) => {
                let r = ValueSet {
                    booleans: Boolean::empty(),
                    integers: if self.integers.contains(*iv) {
                        Integer::singleton(*iv)
                    } else {
                        Integer::empty()
                    },
                    data_types: DataType::empty(),
                };
                proof {
                    assert forall|w: ValSem| spec_vset_has(ctx.sem(), r.sem(), w) == (
                    spec_vset_has(ctx.sem(), self.sem(), w) && w == v.sem()) by {
                        match w {
                            ValSem::Boolean(_) => {},
                            ValSem::Integer(_) => {},
                            ValSem::DataType(_) => {},
                        }
                    }
                }
                r
            },
            Value::DataType(t) => {
                let mut ts: Vec<data_type::DataType> = Vec::new();
                if self.data_types.contains(ctx, t) {
                    ts.push(t.clone());
                }
                let r = ValueSet {
                    booleans: Boolean::empty(),
                    integers: Integer::empty(),
                    data_types: DataType::Exact(ts),
                };
                proof {
                    if let DataType::Exact(tv) = &r.data_types {
                        lemma_types_sem(tv@);
                        assert forall|w: ValSem| spec_vset_has(ctx.sem(), r.sem(), w) == (
                        spec_vset_has(ctx.sem(), self.sem(), w) && w == v.sem()) by {
                            match w {
                                ValSem::Boolean(_) => {},
                                ValSem::Integer(_) => {},
                                ValSem::DataType(wt) => {
                                    crate::semantics::lemma_dtset_has_exact(
                                        ctx.sem(),
                                        types_sem(tv@),
                                        wt,
                                    );
                                    crate::semantics::lemma_any_type_is(types_sem(tv@), wt);
                                    if tv@.len() > 0 {
                                        assert(types_sem(tv@)[0] == t.sem());
                                    }
                                },
                            }
                        }
                    }
                }
                r
            },
        }
    }

    /// Remove all values in the set that do not satisfy the given
    /// constraint: membership constraints intersect; pattern constraints
    /// restrict to matching data types; function constraints whose
    /// inputs are all resolved reduce the set to the function's value.
    pub fn constrain(&mut self, ctx: &Context, constraint: &Constraint)
        requires
            ctx.wf(),
            old(self).wf(),
            con_wf(*constraint),
        ensures
            final(self).wf(),
            crate::semantics::constrain_rel(
                ctx.sem(),
                old(self).sem(),
                constraint.data.sem(),
                final(self).sem(),
            ),
    {
        let ghost pre0 = *self;
        match &constraint.data {
            ConstraintType::Function(f, refs) => {
                let ghost pre = *self;
                let n = refs.len();
                let mut args: Vec<Value> = Vec::new();
                let mut resolved = true;
                let mut i: usize = 0;
                proof {
                    crate::constraint::lemma_refs_sem(refs@);
                    assert(refs_sem(refs@).subrange(0, 0) =~= Seq::<
                        crate::reference::RefSem,
                    >::empty());
                }
                while i < n && resolved
                    invariant
                        ctx.wf(),
                        constraint.data == (ConstraintType::Function(*f, *refs)),
                        n == refs@.len(),
                        i <= n,
                        resolved ==> crate::semantics::spec_fun_args(
                            ctx.sem(),
                            refs_sem(refs@).subrange(0, i as int),
                        ) == Some(vals_sem(args@)),
                        !resolved ==> crate::semantics::spec_fun_args(
                            ctx.sem(),
                            refs_sem(refs@),
                        ) is None,
                    decreases n - i,
                {
                    let rr = &refs[i];
                    proof {
                        crate::constraint::lemma_refs_sem(refs@);
                    }
                    match ctx.ref_plain_value(rr) {
                        Some(v) => {
                            let ghost oldargs = args@;
                            args.push(v);
                            proof {
                                crate::semantics::lemma_fun_args_step(
                                    ctx.sem(),
                                    refs_sem(refs@),
                                    i as int,
                                );
                                crate::valueset::lemma_vals_sem(args@);
                                crate::valueset::lemma_vals_sem(oldargs);
                                assert(args@.drop_last() =~= oldargs);
                                assert(vals_sem(args@) == vals_sem(oldargs).push(
                                    args@[args@.len() - 1].sem(),
                                ));
                            }
                        },
                        None => {
                            resolved = false;
                            proof {
                                crate::semantics::lemma_fun_args_unresolved(
                                    ctx.sem(),
                                    refs_sem(refs@),
                                    i as int,
                                );
                            }
                        },
                    }
                    i += 1;
                }
                if resolved {
                    proof {
                        assert(refs_sem(refs@).subrange(0, n as int) =~= refs_sem(refs@));
                    }
                    match f.evaluate(&args) {
                        Some(v) => {
                            let nv = self.restricted_to_value(ctx, &v);
                            *self = nv;
                            proof {
                                assert(crate::semantics::spec_fun_forced(
                                    ctx.sem(),
                                    f.sem(),
                                    refs_sem(refs@),
                                ) == Some(v.sem()));
                                lemma_single_rel(ctx.sem(), pre.sem(), self.sem(), v.sem());
                            }
                        },
                        None => {
                            proof {
                                assert(crate::semantics::spec_fun_forced(
                                    ctx.sem(),
                                    f.sem(),
                                    refs_sem(refs@),
                                ) is None);
                            }
                        },
                    }
                } else {
                }
            },
            ConstraintType::Within(_) => {
                let mut bs = self.booleans;
                bs.constrain(constraint);
                let mut ints = self.integers.clone();
                let ghost ints0 = ints;
                ints.constrain(constraint);
                let mut dts = self.data_types.clone();
                let ghost dts0 = dts;
                dts.constrain(ctx, constraint);
                let ghost dtsf = dts;
                *self = ValueSet { booleans: bs, integers: ints, data_types: dts };
                proof {
                    assert(ints0.ranges@ == pre0.integers.ranges@);
                    assert(dts0.sem() == pre0.data_types.sem());
                    assert(self.data_types == dtsf);
                    assert(dts0.sem().repr_empty() ==> dtsf.sem().repr_empty());
                    assert(constraint.data.sem() == crate::constraint::ConSem::Within(
                        constraint.data->Within_0.sem(),
                    ));
                    assert(forall|b: bool| self.sem().booleans.has(b) ==> pre0.sem().booleans.has(
                        b,
                    ));
                    assert forall|v: int| ranges_have(self.sem().integers, v) == (ranges_have(
                        pre0.sem().integers,
                        v,
                    ) && ranges_have(constraint.data->Within_0.sem().integers, v)) by {
                        assert(self.integers.has(v) == (ints0.has(v) && ranges_have(
                            constraint.data->Within_0.sem().integers,
                            v,
                        )));
                    }
                    assert(forall|t: TypeSem| spec_dtset_has(ctx.sem(), self.sem().data_types, t)
                        ==> spec_dtset_has(ctx.sem(), pre0.sem().data_types, t));
                    assert(forall|b: bool| self.sem().booleans.has(b) == (pre0.sem().booleans.has(
                        b,
                    ) && constraint.data->Within_0.sem().booleans.has(b)));
                    assert(forall|t: TypeSem| spec_dtset_has(ctx.sem(), pre0.sem().data_types, t)
                        && spec_dtset_has(
                        ctx.sem(),
                        constraint.data->Within_0.sem().data_types,
                        t,
                    ) ==> spec_dtset_has(ctx.sem(), self.sem().data_types, t));
                    assert((pre0.sem().data_types is Exact
                        || constraint.data->Within_0.sem().data_types is Exact) ==> forall|
                        t: TypeSem,
                    |
                        spec_dtset_has(ctx.sem(), self.sem().data_types, t) ==> spec_dtset_has(
                            ctx.sem(),
                            constraint.data->Within_0.sem().data_types,
                            t,
                        ));
                    assert(pre0.sem().data_types.repr_empty()
                        ==> self.sem().data_types.repr_empty());
                    assert(constraint.data->Within_0.sem().data_types.repr_empty()
                        ==> self.sem().data_types.repr_empty());
                    assert(match constraint.data->Within_0.sem().data_types {
                        DtSetSem::Exact(wts) => (match self.sem().data_types {
                            DtSetSem::Exact(pts) => pts.len() <= wts.len() && forall|j: int|
                                0 <= j < pts.len() ==> crate::semantics::spec_any_type_is(
                                    wts,
                                    #[trigger] pts[j],
                                ),
                            _ => false,
                        }),
                        _ => true,
                    });
                    assert(crate::semantics::constrain_rel(
                        ctx.sem(),
                        pre0.sem(),
                        constraint.data.sem(),
                        self.sem(),
                    ));
                }
            },
            ConstraintType::Pattern(_) => {
                let mut bs = self.booleans;
                bs.constrain(constraint);
                let mut ints = self.integers.clone();
                let ghost ints0 = ints;
                ints.constrain(constraint);
                let mut dts = self.data_types.clone();
                let ghost dts0 = dts;
                dts.constrain(ctx, constraint);
                *self = ValueSet { booleans: bs, integers: ints, data_types: dts };
                proof {
                    assert(ints0.ranges@ == pre0.integers.ranges@);
                    assert(dts0.sem() == pre0.data_types.sem());
                    assert(constraint.data.sem() == crate::constraint::ConSem::Pattern(
                        constraint.data->Pattern_0.sem(),
                    ));
                    assert forall|v: int| !ranges_have(self.sem().integers, v) by {
                        assert(!self.integers.has(v));
                    }
                    assert(forall|b: bool| !self.sem().booleans.has(b));
                    assert(forall|t: TypeSem| spec_dtset_has(ctx.sem(), self.sem().data_types, t)
                        ==> spec_dtset_has(ctx.sem(), pre0.sem().data_types, t));
                    assert(forall|t: TypeSem| spec_dtset_has(ctx.sem(), pre0.sem().data_types, t)
                        && spec_pat_matches(ctx.sem(), constraint.data->Pattern_0.sem(), t)
                        ==> spec_dtset_has(ctx.sem(), self.sem().data_types, t));
                    assert(pre0.sem().data_types is Exact ==> forall|t: TypeSem|
                        spec_dtset_has(ctx.sem(), self.sem().data_types, t) ==> spec_pat_matches(
                            ctx.sem(),
                            constraint.data->Pattern_0.sem(),
                            t,
                        ));
                    assert(crate::semantics::constrain_rel(
                        ctx.sem(),
                        pre0.sem(),
                        constraint.data.sem(),
                        self.sem(),
                    ));
                }
            },
        }
    }
}

impl ValueSet {
    /// Three-valued superset check; `Some(true)` transfers membership
    /// of every metatype.
    pub fn superset_of(&self, ctx: &Context, other: &ValueSet) -> (r: Option<bool>)
        requires
            ctx.wf(),
            self.wf(),
            other.wf(),
        ensures
            r == Some(true) && crate::semantics::ctx_sets_nonempty(ctx.sem()) ==> {
                &&& (forall|t: TypeSem| spec_dtset_has(ctx.sem(), other.sem().data_types, t)
                    ==> spec_dtset_has(ctx.sem(), self.sem().data_types, t))
                &&& (forall|v: int| ranges_have(other.sem().integers, v) ==> ranges_have(
                    self.sem().integers,
                    v,
                ))
                &&& (forall|b: bool| other.sem().booleans.has(b) ==> self.sem().booleans.has(b))
                &&& (self.sem().data_types.repr_empty() ==> other.sem().data_types.repr_empty())
                &&& (self.sem().integers.len() == 0 ==> other.sem().integers.len() == 0)
            },
            other.sem().repr_empty() ==> r == Some(true),
            self.sem().repr_empty() && !other.sem().repr_empty() ==> r == Some(false),
    {
        self.superset_at(ctx, other, crate::semantics::QUERY_FUEL)
    }

    /// Fuel-bounded superset check.
    pub(crate) fn superset_at(&self, ctx: &Context, other: &ValueSet, fuel: u64) -> (r: Option<
        bool,
    >)
        requires
            ctx.wf(),
            self.wf(),
            other.wf(),
        ensures
            r == Some(true) && crate::semantics::ctx_sets_nonempty(ctx.sem()) ==> {
                &&& (forall|t: TypeSem| spec_dtset_has(ctx.sem(), other.sem().data_types, t)
                    ==> spec_dtset_has(ctx.sem(), self.sem().data_types, t))
                &&& (forall|v: int| ranges_have(other.sem().integers, v) ==> ranges_have(
                    self.sem().integers,
                    v,
                ))
                &&& (forall|b: bool| other.sem().booleans.has(b) ==> self.sem().booleans.has(b))
                &&& (self.sem().data_types.repr_empty() ==> other.sem().data_types.repr_empty())
                &&& (self.sem().integers.len() == 0 ==> other.sem().integers.len() == 0)
            },
            fuel >= 1 && other.sem().repr_empty() ==> r == Some(true),
            fuel >= 1 && self.sem().repr_empty() && !other.sem().repr_empty() ==> r == Some(
                false,
            ),
        decreases fuel, 6int,
    {
        let bools = self.booleans.superset_of(&other.booleans);
        let ints = self.integers.superset_of(&other.integers);
        let r = match self.data_types.superset_at(ctx, &other.data_types, fuel) {
            Some(d) => Some(d && bools && ints),
            None => None,
        };
        proof {
            if r == Some(true) {
                assert forall|v: int| ranges_have(other.sem().integers, v) implies ranges_have(
                    self.sem().integers,
                    v,
                ) by {
                    assert(other.integers.has(v) ==> self.integers.has(v));
                }
                if self.sem().integers.len() == 0 {
                    if other.integers.ranges.len() > 0 {
                        assert(other.integers.has(other.integers.ranges@[0].lo as int));
                        assert(self.integers.has(other.integers.ranges@[0].lo as int));
                    }
                }
            }
            if fuel >= 1 && self.sem().repr_empty() && !other.sem().repr_empty() {
                if !other.sem().data_types.repr_empty() {
                    assert(r == Some(false));
                } else if other.integers.ranges.len() > 0 {
                    let v = other.integers.ranges@[0].lo as int;
                    assert(other.integers.has(v));
                    assert(!self.integers.has(v));
                    assert(!ints);
                    assert(r == Some(false));
                } else {
                    let b = (match other.booleans {
                        Boolean::All => true,
                        Boolean::Only(bb) => bb,
                        Boolean::Empty => true,
                    });
                    assert(other.sem().booleans.has(b));
                    assert(!self.sem().booleans.has(b));
                    assert(!bools);
                    assert(r == Some(false));
                }
            }
        }
        r
    }
}

impl DataType {
    /// Three-valued superset check over data-type sets; conservative:
    /// `None` whenever union reasoning would be needed.
    pub fn superset_of(&self, ctx: &Context, other: &DataType) -> (r: Option<bool>)
        requires
            ctx.wf(),
        ensures
            r == Some(true) && crate::semantics::ctx_sets_nonempty(ctx.sem()) ==> (forall|
                t: TypeSem,
            |
                spec_dtset_has(ctx.sem(), other.sem(), t) ==> spec_dtset_has(
                    ctx.sem(),
                    self.sem(),
                    t,
                )) && (self.sem().repr_empty() ==> other.sem().repr_empty()),
            other.sem().repr_empty() ==> r == Some(true),
            !other.sem().repr_empty() && self.sem() is All ==> r == Some(true),
            !other.sem().repr_empty() && !(self.sem() is All) && self.sem().repr_empty() ==> r
                == Some(false),
            !other.sem().repr_empty() && !(self.sem() is All) && !self.sem().repr_empty()
                && other.sem() is All ==> r == Some(false),
    {
        self.superset_at(ctx, other, crate::semantics::QUERY_FUEL)
    }

    /// Fuel-bounded superset check: every pattern of the other set must
    /// be covered by exactly one intersecting pattern of this set; a
    /// pattern intersecting more than one is beyond this approximation
    /// and defers.  A definite answer from an exact type list reads the
    /// pattern side at the moment of the query; the solver therefore
    /// consults it only after the system is closed, and `Data::covers`
    /// additionally gates definite answers on the completion flags.
    pub(crate) fn superset_at(&self, ctx: &Context, other: &DataType, fuel: u64) -> (r: Option<
        bool,
    >)
        requires
            ctx.wf(),
        ensures
            r == Some(true) && crate::semantics::ctx_sets_nonempty(ctx.sem()) ==> (forall|
                t: TypeSem,
            |
                spec_dtset_has(ctx.sem(), other.sem(), t) ==> spec_dtset_has(
                    ctx.sem(),
                    self.sem(),
                    t,
                )) && (self.sem().repr_empty() ==> other.sem().repr_empty()),
            fuel >= 1 && other.sem().repr_empty() ==> r == Some(true),
            fuel >= 1 && !other.sem().repr_empty() && self.sem() is All ==> r == Some(true),
            fuel >= 1 && !other.sem().repr_empty() && !(self.sem() is All)
                && self.sem().repr_empty() ==> r == Some(false),
            fuel >= 1 && !other.sem().repr_empty() && !(self.sem() is All)
                && !self.sem().repr_empty() && other.sem() is All ==> r == Some(false),
        decreases fuel, 5int,
    {
        if fuel == 0 {
            return None;
        }
        if other.is_empty() {
            proof {
                match other {
                    DataType::Patterns(ps) => {
                        lemma_pats_sem(ps@);
                        assert forall|t: TypeSem| !spec_dtset_has(
                            ctx.sem(),
                            other.sem(),
                            t,
                        ) by {
                            crate::semantics::lemma_any_pat_matches(
                                ctx.sem(),
                                pats_sem(ps@),
                                t,
                            );
                        }
                    },
                    DataType::Exact(ts) => {
                        lemma_types_sem(ts@);
                        assert forall|t: TypeSem| !spec_dtset_has(
                            ctx.sem(),
                            other.sem(),
                            t,
                        ) by {
                            crate::semantics::lemma_any_type_is(types_sem(ts@), t);
                        }
                    },
                    DataType::All => {},
                }
            }
            return Some(true);
        }
        if !matches!(self, DataType::All) && self.is_empty() {
            // The spec's rule: an empty union covers nothing non-empty.
            return Some(false);
        }
        match (self, other) {
            (DataType::All, _) => Some(true),
            (_, DataType::All) => Some(false),
            (x, DataType::Exact(ts)) => {
                let n = ts.len();
                let mut i: usize = 0;
                while i < n
                    invariant
                        ctx.wf(),
                        *other == (DataType::Exact(*ts)),
                        n == ts@.len(),
                        i <= n,
                        !other.sem().repr_empty(),
                        self.sem() is All || !self.sem().repr_empty(),
                        forall|k: int| 0 <= k < i ==> spec_dtset_has(
                            ctx.sem(),
                            x.sem(),
                            (#[trigger] types_sem(ts@)[k]),
                        ),
                        x == self,
                    decreases n - i,
                {
                    let t = &ts[i];
                    proof {
                        lemma_types_sem(ts@);
                    }
                    if !x.contains(ctx, t) {
                        return None;
                    }
                    i += 1;
                }
                proof {
                    lemma_types_sem(ts@);
                    assert forall|t: TypeSem| spec_dtset_has(
                        ctx.sem(),
                        other.sem(),
                        t,
                    ) implies spec_dtset_has(ctx.sem(), self.sem(), t) by {
                        crate::semantics::lemma_any_type_is(types_sem(ts@), t);
                    }
                    if self.sem().repr_empty() {
                        assert(spec_dtset_has(ctx.sem(), x.sem(), types_sem(ts@)[0]));
                        match x {
                            DataType::Patterns(ps) => {
                                lemma_pats_sem(ps@);
                                crate::semantics::lemma_any_pat_matches(
                                    ctx.sem(),
                                    pats_sem(ps@),
                                    types_sem(ts@)[0],
                                );
                            },
                            DataType::Exact(es) => {
                                lemma_types_sem(es@);
                                crate::semantics::lemma_any_type_is(
                                    types_sem(es@),
                                    types_sem(ts@)[0],
                                );
                            },
                            DataType::All => {},
                        }
                    }
                }
                Some(true)
            },
            (DataType::Exact(_), DataType::Patterns(_)) => None,
            (DataType::Patterns(xs), DataType::Patterns(ys)) => {
                if xs.len() == 0 {
                    return Some(false);
                }
                let m = ys.len();
                let mut j: usize = 0;
                while j < m
                    invariant
                        ctx.wf(),
                        *self == (DataType::Patterns(*xs)),
                        *other == (DataType::Patterns(*ys)),
                        m == ys@.len(),
                        j <= m,
                        !other.sem().repr_empty(),
                        !self.sem().repr_empty(),
                        crate::semantics::ctx_sets_nonempty(ctx.sem()) ==> forall|
                            t: TypeSem,
                            k: int,
                        |
                            #![trigger spec_pat_matches(ctx.sem(), pats_sem(ys@)[k], t)]
                            0 <= k < j && spec_pat_matches(ctx.sem(), pats_sem(ys@)[k], t)
                                ==> spec_dtset_has(ctx.sem(), self.sem(), t),
                    decreases m - j,
                {
                    let y = &ys[j];
                    let n = xs.len();
                    let mut count: usize = 0;
                    let mut winner: usize = 0;
                    let mut i: usize = 0;
                    while i < n
                        invariant
                            ctx.wf(),
                            *self == (DataType::Patterns(*xs)),
                            *other == (DataType::Patterns(*ys)),
                            n == xs@.len(),
                            i <= n,
                            j < m,
                            m == ys@.len(),
                            y == &ys[j as int],
                            !other.sem().repr_empty(),
                            !self.sem().repr_empty(),
                            count <= i,
                            count > 0 ==> (winner as int) < i,
                            count == 0 ==> forall|t: TypeSem, k: int|
                                #![trigger spec_pat_matches(ctx.sem(), pats_sem(xs@)[k], t)]
                                0 <= k < i ==> !(spec_pat_matches(ctx.sem(), y.sem(), t)
                                    && spec_pat_matches(ctx.sem(), pats_sem(xs@)[k], t)),
                        decreases n - i,
                    {
                        let x = &xs[i];
                        if x.intersects_at(ctx, y, fuel) {
                            if count == 0 {
                                winner = i;
                            }
                            count = count + 1;
                        }
                        proof {
                            lemma_pats_sem(xs@);
                        }
                        i += 1;
                    }
                    if count == 0 {
                        proof {
                            lemma_pats_sem(xs@);
                            lemma_pats_sem(ys@);
                        }
                        return Some(false);
                    }
                    if count > 1 {
                        return None;
                    }
                    let x = &xs[winner];
                    match x.covers_at(ctx, y, fuel) {
                        Some(true) => {
                            proof {
                                lemma_pats_sem(xs@);
                                lemma_pats_sem(ys@);
                                if crate::semantics::ctx_sets_nonempty(ctx.sem()) {
                                    assert forall|t: TypeSem, k: int|
                                        0 <= k < j + 1 && #[trigger] spec_pat_matches(
                                            ctx.sem(),
                                            pats_sem(ys@)[k],
                                            t,
                                        ) implies spec_dtset_has(ctx.sem(), self.sem(), t) by {
                                        if k == j {
                                            assert(spec_pat_matches(ctx.sem(), y.sem(), t));
                                            assert(spec_pat_matches(
                                                ctx.sem(),
                                                pats_sem(xs@)[winner as int],
                                                t,
                                            ));
                                            crate::semantics::lemma_any_pat_matches(
                                                ctx.sem(),
                                                pats_sem(xs@),
                                                t,
                                            );
                                        }
                                    }
                                }
                            }
                        },
                        Some(false) => {
                            // Only one union member meets this target
                            // pattern, and it definitely does not
                            // cover it: whatever the target admits
                            // beyond that member meets no member at
                            // all, so the union misses it.
                            return Some(false);
                        },
                        None => {
                            return None;
                        },
                    }
                    j += 1;
                }
                proof {
                    lemma_pats_sem(ys@);
                    if crate::semantics::ctx_sets_nonempty(ctx.sem()) {
                        assert forall|t: TypeSem| spec_dtset_has(
                            ctx.sem(),
                            other.sem(),
                            t,
                        ) implies spec_dtset_has(ctx.sem(), self.sem(), t) by {
                            crate::semantics::lemma_any_pat_matches(
                                ctx.sem(),
                                pats_sem(ys@),
                                t,
                            );
                        }
                    }
                }
                proof {
                    lemma_pats_sem(xs@);
                }
                Some(true)
            },
        }
    }
}

impl DataType {
    /// If this set holds exactly one listed type, or one pattern that
    /// denotes a concrete type, return it.
    pub fn value(&self, ctx: &Context) -> (r: Result<Option<data_type::DataType>, Diagnostic>)
        requires
            ctx.wf(),
        ensures
            (match r {
                Ok(Some(t)) => spec_dtset_has(ctx.sem(), self.sem(), t.sem()),
                _ => true,
            }),
            (match self.sem() {
                DtSetSem::Exact(ts) => ts.len() == 1 ==> (r matches Ok(Some(t)) && t.sem()
                    == ts[0]),
                _ => true,
            }),
            self.sem() is All ==> r == Ok::<Option<data_type::DataType>, Diagnostic>(None),
            (match self.sem() {
                DtSetSem::Exact(ts) => ts.len() != 1 ==> r == Ok::<Option<data_type::DataType>, Diagnostic>(None),
                _ => true,
            }),
            r is Err ==> (match self.sem() {
                DtSetSem::Patterns(ps) => ps.len() == 1,
                _ => false,
            }),
            (match self.sem() {
                DtSetSem::Patterns(ps) => ps.len() != 1 ==> r == Ok::<
                    Option<data_type::DataType>,
                    Diagnostic,
                >(None),
                _ => true,
            }),
    {
        match self {
            DataType::Exact(ts) => {
                if ts.len() == 1 {
                    let t = ts[0].clone();
                    proof {
                        lemma_types_sem(ts@);
                        crate::semantics::lemma_any_type_is(types_sem(ts@), t.sem());
                        crate::semantics::lemma_dtset_has_exact(
                            ctx.sem(),
                            types_sem(ts@),
                            t.sem(),
                        );
                    }
                    Ok(Some(t))
                } else {
                    proof {
                        lemma_types_sem(ts@);
                    }
                    Ok(None)
                }
            },
            DataType::Patterns(ps) => {
                if ps.len() == 1 {
                    let r = ps[0].make_concrete(ctx);
                    proof {
                        lemma_pats_sem(ps@);
                        match &r {
                            Ok(Some(t)) => {
                                assert(pats_sem(ps@)[0] == ps@[0].sem());
                                crate::semantics::lemma_any_pat_matches(
                                    ctx.sem(),
                                    pats_sem(ps@),
                                    t.sem(),
                                );
                            },
                            _ => {},
                        }
                    }
                    r
                } else {
                    Ok(None)
                }
            },
            DataType::All => Ok(None),
        }
    }
}

impl ValueSet {
    /// If this set contains exactly one value, return it: the boolean
    /// or integer partition must be a singleton with the other
    /// partitions empty, or the data-type partition must denote a
    /// single concrete type.
    pub fn value(&self, ctx: &Context) -> (r: Result<Option<Value>, Diagnostic>)
        requires
            ctx.wf(),
            self.wf(),
        ensures
            (match r {
                Ok(Some(v)) => spec_vset_has(ctx.sem(), self.sem(), v.sem()) && (match v.sem() {
                    ValSem::Boolean(b) => self.sem().booleans
                        == (crate::sets::Boolean::Only(b)) && self.sem().integers.len() == 0
                        && self.sem().data_types.repr_empty(),
                    ValSem::Integer(iv) => self.sem().booleans is Empty
                        && self.sem().integers.len() == 1 && self.sem().integers[0]
                        == (crate::sets::IntRange { lo: iv, hi: iv })
                        && self.sem().data_types.repr_empty(),
                    ValSem::DataType(_) => self.sem().booleans is Empty
                        && self.sem().integers.len() == 0,
                }),
                _ => true,
            }),
            (match self.sem().booleans {
                crate::sets::Boolean::Only(b) => self.sem().integers.len() == 0
                    && self.sem().data_types.repr_empty() ==> r == Ok::<Option<Value>, Diagnostic>(
                    Some(Value::Boolean(b)),
                ),
                _ => true,
            }),
            self.sem().booleans is Empty && self.sem().integers.len() == 1
                && self.sem().integers[0].lo == self.sem().integers[0].hi
                && self.sem().data_types.repr_empty() ==> r == Ok::<Option<Value>, Diagnostic>(
                Some(Value::Integer(self.sem().integers[0].lo)),
            ),
            (match self.sem().data_types {
                DtSetSem::Exact(ts) => self.sem().booleans is Empty
                    && self.sem().integers.len() == 0 && ts.len() == 1 ==> (r matches Ok(
                    Some(v),
                ) && v.sem() == ValSem::DataType(ts[0])),
                _ => true,
            }),
            r is Err ==> self.sem().booleans is Empty && self.sem().integers.len() == 0 && (
            match self.sem().data_types {
                DtSetSem::Patterns(ps) => ps.len() == 1,
                _ => false,
            }),
    {
        let be = self.booleans.is_empty();
        let ie = self.integers.ranges.len() == 0;
        let de = self.data_types.is_empty();
        proof {
            if be {
                match self.booleans {
                    crate::sets::Boolean::All => {
                        assert(self.booleans.has(true));
                    },
                    crate::sets::Boolean::Only(b0) => {
                        assert(self.booleans.has(b0));
                    },
                    crate::sets::Boolean::Empty => {},
                }
            }
        }
        if !be && ie && de {
            match self.booleans {
                crate::sets::Boolean::Only(b) => Ok(Some(Value::Boolean(b))),
                _ => Ok(None),
            }
        } else if be && !ie && de {
            match self.integers.value() {
                Some(v) => {
                    proof {
                        assert(self.integers.has(v as int));
                        if self.integers.ranges@.len() > 1 {
                            assert(self.integers.has(self.integers.ranges@[0].lo as int));
                            assert(self.integers.has(self.integers.ranges@[1].lo as int));
                            self.integers.lemma_ordered_pub(0, 1);
                            assert(false);
                        }
                        assert(self.integers.ranges@[0].lo == v && self.integers.ranges@[0].hi
                            == v) by {
                            assert(self.integers.has(self.integers.ranges@[0].lo as int));
                            assert(self.integers.has(self.integers.ranges@[0].hi as int));
                        }
                    }
                    Ok(Some(Value::Integer(v)))
                },
                None => Ok(None),
            }
        } else if be && ie && !de {
            match self.data_types.value(ctx) {
                Ok(Some(t)) => Ok(Some(Value::DataType(t))),
                Ok(None) => Ok(None),
                Err(d) => Err(d),
            }
        } else {
            Ok(None)
        }
    }
}

} // verus!
