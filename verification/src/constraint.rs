//! Constraints on metavariables, and the function vocabulary.
//!
//! A constraint either restricts a metavariable to a set of values,
//! equates it with the result of a pure function over other
//! metavariables, or requires it to be a data type matching a pattern.
//! Every constraint carries a human-readable reason used in diagnostics.

use crate::data_type::Class;
use crate::data_type::DataType;
use crate::data_type::Parameter;
use crate::data_type::TypeSem;
use crate::data_type::Variation;
use crate::pattern::PatSem;
use crate::pattern::Pattern;
use crate::reference::RefSem;
use crate::reference::Reference;
use crate::valueset::ValSem;
use crate::valueset::Value;
use crate::valueset::VSetSem;
use crate::valueset::ValueSet;
use vstd::prelude::*;

verus! {

/// Largest magnitude accepted by the decimal-result evaluator; far above
/// any sensible precision, and small enough that the inference formula
/// cannot overflow.
pub const DECIMAL_ARG_MAX: i64 = 1_000_000_000;

/// Ghost projection of a function symbol.
pub ghost enum FuncSem {
    /// Integer addition.
    IntAdd,
    /// Integer subtraction.
    IntSub,
    /// Integer minimum.
    IntMin,
    /// Integer maximum.
    IntMax,
    /// Decimal-result inference for addition, by result class id.
    DecimalAdd(u64),
}

/// A pure function drawn from the engine's closed vocabulary.
#[derive(Debug)]
pub enum Function {
    /// Integer addition of two values.
    IntAdd,
    /// Integer subtraction of two values.
    IntSub,
    /// Integer minimum of two values.
    IntMin,
    /// Integer maximum of two values.
    IntMax,
    /// Decimal-result inference for addition: takes precision and scale
    /// of both operands and yields the result decimal type, built with
    /// the carried class.
    DecimalAdd(Class),
}

impl Function {
    /// Semantic projection of the function symbol.
    pub open spec fn sem(self) -> FuncSem {
        match self {
            Function::IntAdd => FuncSem::IntAdd,
            Function::IntSub => FuncSem::IntSub,
            Function::IntMin => FuncSem::IntMin,
            Function::IntMax => FuncSem::IntMax,
            Function::DecimalAdd(c) => FuncSem::DecimalAdd(c.id),
        }
    }
}

impl Clone for Function {
    /// Copies the function symbol; its projection carries over.
    fn clone(&self) -> (res: Self)
        ensures
            res.sem() == self.sem(),
    {
        match self {
            Function::IntAdd => Function::IntAdd,
            Function::IntSub => Function::IntSub,
            Function::IntMin => Function::IntMin,
            Function::IntMax => Function::IntMax,
            Function::DecimalAdd(c) => Function::DecimalAdd(c.clone()),
        }
    }
}

/// What the decimal-addition rule yields for precisions and scales
/// `(p1, s1, p2, s2)`: the result keeps the larger scale and widens the
/// integer part by one digit.
pub open spec fn spec_decimal_add(class: u64, p1: int, s1: int, p2: int, s2: int) -> TypeSem {
    let s = if s1 >= s2 {
        s1
    } else {
        s2
    };
    let d = if p1 - s1 >= p2 - s2 {
        p1 - s1
    } else {
        p2 - s2
    };
    TypeSem {
        class,
        nullable: false,
        variation: None,
        parameters: seq![
            crate::data_type::TParamSem::Unsigned((d + s + 1) as u64),
            crate::data_type::TParamSem::Unsigned(s as u64),
        ],
    }
}

/// The value of a function symbol on a list of argument values, if the
/// arguments fit its signature and no machine limit is exceeded.
pub open spec fn spec_func_eval(f: FuncSem, args: Seq<ValSem>) -> Option<ValSem> {
    match f {
        FuncSem::IntAdd => if args.len() == 2 && args[0] is Integer && args[1] is Integer {
            let a = args[0]->Integer_0 as int;
            let b = args[1]->Integer_0 as int;
            if i64::MIN <= a + b <= i64::MAX {
                Some(ValSem::Integer((a + b) as i64))
            } else {
                None
            }
        } else {
            None
        },
        FuncSem::IntSub => if args.len() == 2 && args[0] is Integer && args[1] is Integer {
            let a = args[0]->Integer_0 as int;
            let b = args[1]->Integer_0 as int;
            if i64::MIN <= a - b <= i64::MAX {
                Some(ValSem::Integer((a - b) as i64))
            } else {
                None
            }
        } else {
            None
        },
        FuncSem::IntMin => if args.len() == 2 && args[0] is Integer && args[1] is Integer {
            let a = args[0]->Integer_0;
            let b = args[1]->Integer_0;
            Some(ValSem::Integer(if a <= b {
                a
            } else {
                b
            }))
        } else {
            None
        },
        FuncSem::IntMax => if args.len() == 2 && args[0] is Integer && args[1] is Integer {
            let a = args[0]->Integer_0;
            let b = args[1]->Integer_0;
            Some(ValSem::Integer(if a >= b {
                a
            } else {
                b
            }))
        } else {
            None
        },
        FuncSem::DecimalAdd(class) => if args.len() == 4 && args[0] is Integer && args[1]
            is Integer && args[2] is Integer && args[3] is Integer {
            let p1 = args[0]->Integer_0;
            let s1 = args[1]->Integer_0;
            let p2 = args[2]->Integer_0;
            let s2 = args[3]->Integer_0;
            if 0 <= p1 <= DECIMAL_ARG_MAX && 0 <= s1 <= DECIMAL_ARG_MAX && 0 <= p2
                <= DECIMAL_ARG_MAX && 0 <= s2 <= DECIMAL_ARG_MAX {
                Some(
                    ValSem::DataType(
                        spec_decimal_add(class, p1 as int, s1 as int, p2 as int, s2 as int),
                    ),
                )
            } else {
                None
            }
        } else {
            None
        },
    }
}

impl Function {
    /// Evaluates the function on the given argument values.
    pub fn evaluate(&self, args: &Vec<Value>) -> (r: Option<Value>)
        ensures
            match r {
                Some(v) => spec_func_eval(self.sem(), crate::valueset::vals_sem(args@)) == Some(
                    v.sem(),
                ),
                None => spec_func_eval(self.sem(), crate::valueset::vals_sem(args@)) is None,
            },
    {
        proof {
            crate::valueset::lemma_vals_sem(args@);
        }
        match self {
            Function::IntAdd => {
                if args.len() == 2 {
                    if let (Value::Integer(a), Value::Integer(b)) = (&args[0], &args[1]) {
                        return match a.checked_add(*b) {
                            Some(x) => Some(Value::Integer(x)),
                            None => None,
                        };
                    }
                }
                None
            },
            Function::IntSub => {
                if args.len() == 2 {
                    if let (Value::Integer(a), Value::Integer(b)) = (&args[0], &args[1]) {
                        return match a.checked_sub(*b) {
                            Some(x) => Some(Value::Integer(x)),
                            None => None,
                        };
                    }
                }
                None
            },
            Function::IntMin => {
                if args.len() == 2 {
                    if let (Value::Integer(a), Value::Integer(b)) = (&args[0], &args[1]) {
                        return Some(Value::Integer(if *a <= *b {
                            *a
                        } else {
                            *b
                        }));
                    }
                }
                None
            },
            Function::IntMax => {
                if args.len() == 2 {
                    if let (Value::Integer(a), Value::Integer(b)) = (&args[0], &args[1]) {
                        return Some(Value::Integer(if *a >= *b {
                            *a
                        } else {
                            *b
                        }));
                    }
                }
                None
            },
            Function::DecimalAdd(class) => {
                if args.len() == 4 {
                    if let (
                        Value::Integer(p1),
                        Value::Integer(s1),
                        Value::Integer(p2),
                        Value::Integer(s2),
                    ) = (&args[0], &args[1], &args[2], &args[3]) {
                        let (p1, s1, p2, s2) = (*p1, *s1, *p2, *s2);
                        if 0 <= p1 && p1 <= DECIMAL_ARG_MAX && 0 <= s1 && s1 <= DECIMAL_ARG_MAX
                            && 0 <= p2 && p2 <= DECIMAL_ARG_MAX && 0 <= s2 && s2
                            <= DECIMAL_ARG_MAX {
                            let s = if s1 >= s2 {
                                s1
                            } else {
                                s2
                            };
                            let d1 = p1 - s1;
                            let d2 = p2 - s2;
                            let d = if d1 >= d2 {
                                d1
                            } else {
                                d2
                            };
                            let mut parameters: Vec<Parameter> = Vec::new();
                            parameters.push(Parameter::Unsigned((d + s + 1) as u64));
                            parameters.push(Parameter::Unsigned(s as u64));
                            let t = DataType {
                                class: class.clone(),
                                nullable: false,
                                variation: Variation::Base,
                                parameters,
                            };
                            proof {
                                crate::data_type::lemma_params_sem(t.parameters@);
                                assert(t.sem().parameters =~= spec_decimal_add(
                                    class.id,
                                    p1 as int,
                                    s1 as int,
                                    p2 as int,
                                    s2 as int,
                                ).parameters);
                            }
                            return Some(Value::DataType(t));
                        }
                    }
                }
                None
            },
        }
    }
}

/// Ghost projection of a constraint body.
pub ghost enum ConSem {
    /// Membership in a value set.
    Within(VSetSem),
    /// Equality with a function of other metavariables, by their
    /// references.
    Function(FuncSem, Seq<RefSem>),
    /// Matching a data-type pattern.
    Pattern(PatSem),
}

/// Ghost projection of a constraint, including its reason text.
pub ghost struct ConstraintSem {
    /// The projected body.
    pub data: ConSem,
    /// The reason text.
    pub reason: Seq<char>,
}

/// The types of constraints that can be imposed on metavariables.
#[derive(Debug)]
pub enum ConstraintType {
    /// The value must be contained in this set.
    Within(ValueSet),
    /// The value must equal the return value of the given function over
    /// the given metavariables.
    Function(Function, Vec<Reference>),
    /// The value must be a data type matching the given pattern.
    Pattern(Pattern),
}

/// A constraint on a metavariable.
#[derive(Debug)]
pub struct Constraint {
    /// The data for the constraint.
    pub data: ConstraintType,
    /// A human-readable reason for the existence of the constraint, used
    /// for error messages when constraints conflict.
    pub reason: String,
}

/// Semantic projections of a sequence of references.
pub open spec fn refs_sem(s: Seq<Reference>) -> Seq<RefSem>
    decreases s,
{
    if s.len() == 0 {
        Seq::empty()
    } else {
        refs_sem(s.drop_last()).push(s[s.len() - 1].sem())
    }
}

/// The projection of a reference sequence is the sequence of the
/// references' projections.
pub proof fn lemma_refs_sem(s: Seq<Reference>)
    ensures
        refs_sem(s).len() == s.len(),
        forall|i: int| 0 <= i < s.len() ==> #[trigger] refs_sem(s)[i] == s[i].sem(),
    decreases s,
{
    if s.len() > 0 {
        lemma_refs_sem(s.drop_last());
        assert forall|i: int| 0 <= i < s.len() implies #[trigger] refs_sem(s)[i]
            == s[i].sem() by {
            if i < s.len() - 1 {
                assert(refs_sem(s)[i] == refs_sem(s.drop_last())[i]);
                assert(s.drop_last()[i] == s[i]);
            }
        }
    }
}

impl ConstraintType {
    /// Semantic projection of the constraint body.
    pub open spec fn sem(self) -> ConSem {
        match self {
            ConstraintType::Within(vs) => ConSem::Within(vs.sem()),
            ConstraintType::Function(f, refs) => ConSem::Function(f.sem(), refs_sem(refs@)),
            ConstraintType::Pattern(p) => ConSem::Pattern(p.sem()),
        }
    }
}

impl Constraint {
    /// Semantic projection of the constraint.
    pub open spec fn sem(self) -> ConstraintSem {
        ConstraintSem { data: self.data.sem(), reason: self.reason@ }
    }
}

/// Whether a constraint body's embedded sets are well-formed.
pub open spec fn ct_wf(d: ConstraintType) -> bool {
    match d {
        ConstraintType::Within(vs) => vs.wf(),
        _ => true,
    }
}

/// Whether a constraint's embedded sets are well-formed.
pub open spec fn con_wf(c: Constraint) -> bool {
    ct_wf(c.data)
}

impl Clone for ConstraintType {
    /// Copies the constraint body; its projection carries over.
    fn clone(&self) -> (res: Self)
        ensures
            res.sem() == self.sem(),
            ct_wf(res) == ct_wf(*self),
    {
        match self {
            ConstraintType::Within(vs) => ConstraintType::Within(vs.clone()),
            ConstraintType::Function(f, refs) => {
                let mut rs: Vec<Reference> = Vec::new();
                let mut i: usize = 0;
                while i < refs.len()
                    invariant
                        i <= refs@.len(),
                        rs@.len() == i,
                        forall|k: int| 0 <= k < i ==> #[trigger] rs@[k].sem() == refs@[k].sem(),
                    decreases refs@.len() - i,
                {
                    let r = &refs[i];
                    rs.push(r.clone());
                    i += 1;
                }
                proof {
                    lemma_refs_sem(rs@);
                    lemma_refs_sem(refs@);
                    assert(refs_sem(rs@) =~= refs_sem(refs@));
                }
                ConstraintType::Function(f.clone(), rs)
            },
            ConstraintType::Pattern(p) => ConstraintType::Pattern(p.clone()),
        }
    }
}

impl Clone for Constraint {
    /// Copies the constraint; its projection carries over.
    fn clone(&self) -> (res: Self)
        ensures
            res.sem() == self.sem(),
            con_wf(res) == con_wf(*self),
    {
        Constraint { data: self.data.clone(), reason: self.reason.clone() }
    }
}

impl Function {
    /// Returns whether the two function symbols are the same.
    pub fn same_as(&self, other: &Function) -> (r: bool)
        ensures
            r == (self.sem() == other.sem()),
    {
        match (self, other) {
            (Function::IntAdd, Function::IntAdd) => true,
            (Function::IntSub, Function::IntSub) => true,
            (Function::IntMin, Function::IntMin) => true,
            (Function::IntMax, Function::IntMax) => true,
            (Function::DecimalAdd(a), Function::DecimalAdd(b)) => a.id == b.id,
            _ => false,
        }
    }
}

impl ConstraintType {
    /// Returns whether the two constraint bodies are structurally the
    /// same.
    pub fn same_as(&self, other: &ConstraintType) -> (r: bool)
        ensures
            r == (self.sem() == other.sem()),
    {
        match (self, other) {
            (ConstraintType::Within(a), ConstraintType::Within(b)) => a.same_as(b),
            (ConstraintType::Pattern(a), ConstraintType::Pattern(b)) => a.same_as(b),
            (ConstraintType::Function(fa, ra), ConstraintType::Function(fb, rb)) => {
                if !fa.same_as(fb) {
                    return false;
                }
                if ra.len() != rb.len() {
                    proof {
                        lemma_refs_sem(ra@);
                        lemma_refs_sem(rb@);
                    }
                    return false;
                }
                let n = ra.len();
                let mut i: usize = 0;
                while i < n
                    invariant
                        n == ra@.len(),
                        n == rb@.len(),
                        i <= n,
                        *self == (ConstraintType::Function(*fa, *ra)),
                        *other == (ConstraintType::Function(*fb, *rb)),
                        fa.sem() == fb.sem(),
                        forall|k: int| 0 <= k < i ==> (#[trigger] ra@[k]).sem() == rb@[k].sem(),
                    decreases n - i,
                {
                    let xa = &ra[i];
                    let xb = &rb[i];
                    if !xa.same_as(xb) {
                        proof {
                            lemma_refs_sem(ra@);
                            lemma_refs_sem(rb@);
                            assert(refs_sem(ra@)[i as int] != refs_sem(rb@)[i as int]);
                        }
                        return false;
                    }
                    i += 1;
                }
                proof {
                    lemma_refs_sem(ra@);
                    lemma_refs_sem(rb@);
                    assert(refs_sem(ra@) =~= refs_sem(rb@));
                }
                true
            },
            _ => false,
        }
    }
}

impl Constraint {
    /// Returns whether the two constraints are structurally the same,
    /// reason text included.
    pub fn same_as(&self, other: &Constraint) -> (r: bool)
        ensures
            r == (self.sem() == other.sem()),
    {
        self.data.same_as(&other.data) && self.reason == other.reason
    }
}

} // verus!
