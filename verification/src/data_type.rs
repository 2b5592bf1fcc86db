//! Concrete data types and type classes.
//!
//! A *class* is the uninterpreted head of a type (`DECIMAL`, `LIST`, or a
//! user-defined name); it declares how many parameters a type of the class
//! takes and of which kind.  A concrete [`DataType`] is a class together
//! with a nullability flag, a variation, and fully resolved parameters.
//!
//! Classes and variations are identified by a numeric id; the registry
//! that hands them out is responsible for keeping ids unique.  The name
//! strings only serve display purposes, so every semantic statement is
//! phrased over the ghost projections ([`TypeSem`], [`TParamSem`]) that
//! drop names and keep ids and plain values.

use vstd::prelude::*;

verus! {

/// A built-in simple scalar type, as used in the structure of
/// user-defined types.
#[derive(Clone, Copy, Debug, PartialEq, Eq, Structural)]
pub enum Simple {
    /// A boolean.
    Boolean,
    /// An 8-bit signed integer.
    I8,
    /// A 16-bit signed integer.
    I16,
    /// A 32-bit signed integer.
    I32,
    /// A 64-bit signed integer.
    I64,
    /// A unicode string.
    Text,
    /// A byte string.
    Binary,
}

/// The kind of value a class expects at a parameter position.
#[derive(Clone, Copy, Debug, PartialEq, Eq, Structural)]
pub enum ParameterKind {
    /// The position holds a data type.
    DataType,
    /// The position holds an unsigned integer.
    Unsigned,
}

/// A type class: the uninterpreted head of a data type, together with its
/// arity and parameter-kind rules.
#[derive(Debug)]
pub struct Class {
    /// Identity of the class; the registry keeps ids unique.
    pub id: u64,
    /// Display name of the class.
    pub name: String,
    /// Kind of each declared parameter position.
    pub kinds: Vec<ParameterKind>,
    /// Whether the class accepts any number of trailing parameters of the
    /// last declared kind (a struct-like class).
    pub variadic: bool,
    /// Whether parameters of this class carry names.
    pub named: bool,
}

impl Class {
    /// The kind expected at parameter position `i`, if any.
    pub open spec fn kind_at(self, i: int) -> Option<ParameterKind> {
        if 0 <= i < self.kinds@.len() {
            Some(self.kinds@[i])
        } else if self.variadic && self.kinds@.len() > 0 && i >= 0 {
            Some(self.kinds@[self.kinds@.len() - 1])
        } else {
            None
        }
    }

    /// Whether a parameter pack of length `n` fits the class's arity rules.
    pub open spec fn arity_ok(self, n: int) -> bool {
        if self.variadic {
            n >= self.kinds@.len()
        } else {
            n == self.kinds@.len()
        }
    }

    /// Returns the declared kind at position `i`.
    pub fn kind_of(&self, i: usize) -> (r: Option<ParameterKind>)
        ensures
            r == self.kind_at(i as int),
    {
        if i < self.kinds.len() {
            Some(self.kinds[i])
        } else if self.variadic && self.kinds.len() > 0 {
            Some(self.kinds[self.kinds.len() - 1])
        } else {
            None
        }
    }

    /// Checks the arity rule against a parameter-pack length.
    pub fn check_arity(&self, n: usize) -> (r: bool)
        ensures
            r == self.arity_ok(n as int),
    {
        if self.variadic {
            n >= self.kinds.len()
        } else {
            n == self.kinds.len()
        }
    }

    /// Whether types of this class take parameters at all.
    pub fn has_parameters(&self) -> (r: bool)
        ensures
            r == (self.kinds@.len() > 0),
    {
        self.kinds.len() > 0
    }
}

/// A type variation: the base variation of a class, or a named refinement
/// registered by the user.  Variations are compared by id.
#[derive(Debug)]
pub enum Variation {
    /// The base variation of the class.
    Base,
    /// A user-registered variation, by id and display name.
    User(u64, String),
}

impl Variation {
    /// Semantic projection: `None` for base, the id otherwise.
    pub open spec fn sem(self) -> Option<u64> {
        match self {
            Variation::Base => None,
            Variation::User(id, _) => Some(id),
        }
    }

    /// Whether the two variations are the same (by id).
    pub fn same_as(&self, other: &Variation) -> (r: bool)
        ensures
            r == (self.sem() == other.sem()),
    {
        match (self, other) {
            (Variation::Base, Variation::Base) => true,
            (Variation::User(a, _), Variation::User(b, _)) => *a == *b,
            _ => false,
        }
    }
}

/// A parameter of a concrete data type.
#[derive(Debug)]
pub enum Parameter {
    /// A data type, as in `LIST<i32>`.
    Typ(DataType),
    /// A named data type, as in a named-struct member.
    Named(String, DataType),
    /// An unsigned integer, as in `DECIMAL<10, 2>`.
    Unsigned(u64),
}

/// A concrete, fully resolved data type.
#[derive(Debug)]
pub struct DataType {
    /// The class of the type.
    pub class: Class,
    /// Whether values of the type may be null.
    pub nullable: bool,
    /// The variation of the type.
    pub variation: Variation,
    /// The parameters of the type.
    pub parameters: Vec<Parameter>,
}

/// Ghost projection of a concrete type: ids and plain values only, with
/// parameter names dropped.  Two types with equal projections are the
/// same type for every judgment the engine makes.
pub ghost enum TParamSem {
    /// A data-type parameter.
    Typ(TypeSem),
    /// An unsigned-integer parameter.
    Unsigned(u64),
}

/// Ghost projection of a concrete data type.
pub ghost struct TypeSem {
    /// Class id.
    pub class: u64,
    /// Nullability.
    pub nullable: bool,
    /// Variation id, `None` for the base variation.
    pub variation: Option<u64>,
    /// Projections of the parameters.
    pub parameters: Seq<TParamSem>,
}

impl Parameter {
    /// Semantic projection of the parameter.
    pub open spec fn sem(self) -> TParamSem
        decreases self,
    {
        match self {
            Parameter::Typ(t) => TParamSem::Typ(t.sem()),
            Parameter::Named(_, t) => TParamSem::Typ(t.sem()),
            Parameter::Unsigned(u) => TParamSem::Unsigned(u),
        }
    }
}

/// Semantic projections of a sequence of parameters.
pub open spec fn params_sem(s: Seq<Parameter>) -> Seq<TParamSem>
    decreases s,
{
    if s.len() == 0 {
        Seq::empty()
    } else {
        params_sem(s.drop_last()).push(s[s.len() - 1].sem())
    }
}

/// The projection of a parameter sequence is the sequence of the
/// parameters' projections.
pub proof fn lemma_params_sem(s: Seq<Parameter>)
    ensures
        params_sem(s).len() == s.len(),
        forall|i: int| 0 <= i < s.len() ==> #[trigger] params_sem(s)[i] == s[i].sem(),
    decreases s,
{
    if s.len() > 0 {
        lemma_params_sem(s.drop_last());
        assert forall|i: int| 0 <= i < s.len() implies #[trigger] params_sem(s)[i]
            == s[i].sem() by {
            if i < s.len() - 1 {
                assert(params_sem(s)[i] == params_sem(s.drop_last())[i]);
                assert(s.drop_last()[i] == s[i]);
            }
        }
    }
}

impl DataType {
    /// Semantic projection of the type.
    pub open spec fn sem(self) -> TypeSem
        decreases self,
    {
        TypeSem {
            class: self.class.id,
            nullable: self.nullable,
            variation: self.variation.sem(),
            parameters: params_sem(self.parameters@),
        }
    }
}


impl Clone for Class {
    /// Copies the class; identity and rules carry over.
    fn clone(&self) -> (res: Self)
        ensures
            res.id == self.id,
            res.name@ == self.name@,
            res.kinds@ == self.kinds@,
            res.variadic == self.variadic,
            res.named == self.named,
    {
        let mut kinds: Vec<ParameterKind> = Vec::new();
        let mut i: usize = 0;
        while i < self.kinds.len()
            invariant
                i <= self.kinds@.len(),
                kinds@ == self.kinds@.subrange(0, i as int),
            decreases self.kinds@.len() - i,
        {
            kinds.push(self.kinds[i]);
            i += 1;
        }
        proof {
            assert(kinds@ =~= self.kinds@);
        }
        Class {
            id: self.id,
            name: self.name.clone(),
            kinds,
            variadic: self.variadic,
            named: self.named,
        }
    }
}

impl Clone for Variation {
    /// Copies the variation; the id carries over.
    fn clone(&self) -> (res: Self)
        ensures
            res.sem() == self.sem(),
    {
        match self {
            Variation::Base => Variation::Base,
            Variation::User(id, name) => Variation::User(*id, name.clone()),
        }
    }
}

impl Clone for Parameter {
    /// Copies the parameter; its semantic projection carries over.
    fn clone(&self) -> (res: Self)
        ensures
            res.sem() == self.sem(),
        decreases tparam_size(self.sem()),
    {
        match self {
            Parameter::Typ(t) => Parameter::Typ(t.clone()),
            Parameter::Named(n, t) => Parameter::Named(n.clone(), t.clone()),
            Parameter::Unsigned(u) => Parameter::Unsigned(*u),
        }
    }
}

impl Clone for DataType {
    /// Copies the type; its semantic projection carries over.
    fn clone(&self) -> (res: Self)
        ensures
            res.sem() == self.sem(),
        decreases type_size(self.sem()),
    {
        let mut parameters: Vec<Parameter> = Vec::new();
        let mut i: usize = 0;
        while i < self.parameters.len()
            invariant
                i <= self.parameters@.len(),
                parameters@.len() == i,
                forall|k: int| 0 <= k < i ==> #[trigger] parameters@[k].sem()
                    == self.parameters@[k].sem(),
            decreases self.parameters@.len() - i,
        {
            proof {
                lemma_params_sem(self.parameters@);
                lemma_tparam_smaller(self.sem(), i as int);
                assert(self.sem().parameters[i as int] == self.parameters@[i as int].sem());
            }
            let p = &self.parameters[i];
            parameters.push(p.clone());
            i += 1;
        }
        let res = DataType {
            class: self.class.clone(),
            nullable: self.nullable,
            variation: self.variation.clone(),
            parameters,
        };
        proof {
            lemma_params_sem(res.parameters@);
            lemma_params_sem(self.parameters@);
            assert(res.sem().parameters =~= self.sem().parameters);
        }
        res
    }
}

impl DataType {
    /// Returns whether the two types are the same: equal class ids,
    /// nullability, variation ids, and parameters, with parameter names
    /// ignored.
    pub fn same_as(&self, other: &DataType) -> (r: bool)
        ensures
            r == (self.sem() == other.sem()),
        decreases type_size(self.sem()), 1int,
    {
        if self.class.id != other.class.id {
            return false;
        }
        if self.nullable != other.nullable {
            return false;
        }
        if !self.variation.same_as(&other.variation) {
            return false;
        }
        if self.parameters.len() != other.parameters.len() {
            proof {
                lemma_params_sem(self.parameters@);
                lemma_params_sem(other.parameters@);
            }
            return false;
        }
        let n = self.parameters.len();
        let mut i: usize = 0;
        while i < n
            invariant
                n == self.parameters@.len(),
                n == other.parameters@.len(),
                i <= n,
                type_size(self.sem()) == type_size(self.sem()),
                forall|k: int| 0 <= k < i ==> #[trigger] self.parameters@[k].sem()
                    == other.parameters@[k].sem(),
            decreases n - i,
        {
            proof {
                lemma_params_sem(self.parameters@);
                lemma_tparam_smaller(self.sem(), i as int);
            }
            let a = &self.parameters[i];
            let b = &other.parameters[i];
            if !a.same_as(b) {
                proof {
                    lemma_params_sem(self.parameters@);
                    lemma_params_sem(other.parameters@);
                }
                return false;
            }
            i += 1;
        }
        proof {
            lemma_params_sem(self.parameters@);
            lemma_params_sem(other.parameters@);
            assert(self.sem().parameters =~= other.sem().parameters);
        }
        true
    }
}

impl Parameter {
    /// Returns whether the two parameters hold the same value, names
    /// ignored.
    pub fn same_as(&self, other: &Parameter) -> (r: bool)
        ensures
            r == (self.sem() == other.sem()),
        decreases tparam_size(self.sem()), 2int,
    {
        match (self, other) {
            (Parameter::Unsigned(a), Parameter::Unsigned(b)) => *a == *b,
            (Parameter::Typ(a), Parameter::Typ(b)) => a.same_as(b),
            (Parameter::Typ(a), Parameter::Named(_, b)) => a.same_as(b),
            (Parameter::Named(_, a), Parameter::Typ(b)) => a.same_as(b),
            (Parameter::Named(_, a), Parameter::Named(_, b)) => a.same_as(b),
            _ => false,
        }
    }
}

/// Size of a projected parameter, for termination measures.
pub open spec fn tparam_size(p: TParamSem) -> nat
    decreases p,
{
    match p {
        TParamSem::Typ(t) => 1 + type_size(t),
        TParamSem::Unsigned(_) => 1,
    }
}

/// Combined size of a sequence of projected parameters.
pub open spec fn tparams_size(s: Seq<TParamSem>) -> nat
    decreases s,
{
    if s.len() == 0 {
        0
    } else {
        tparam_size(s[s.len() - 1]) + tparams_size(s.drop_last())
    }
}

/// Size of a projected type, for termination measures.
pub open spec fn type_size(t: TypeSem) -> nat
    decreases t,
{
    1 + tparams_size(t.parameters)
}

/// Every parameter of a type is smaller than the type.
pub proof fn lemma_tparam_smaller(t: TypeSem, i: int)
    requires
        0 <= i < t.parameters.len(),
    ensures
        tparam_size(t.parameters[i]) < type_size(t),
{
    lemma_tparams_size_bound(t.parameters, i);
}

/// An element's size is bounded by the sequence's combined size.
pub proof fn lemma_tparams_size_bound(s: Seq<TParamSem>, i: int)
    requires
        0 <= i < s.len(),
    ensures
        tparam_size(s[i]) <= tparams_size(s),
    decreases s.len(),
{
    if i == s.len() - 1 {
    } else {
        lemma_tparams_size_bound(s.drop_last(), i);
    }
}

} // verus!
