//! References to metavariables.
//!
//! A [`Reference`] is a user-facing handle: a key saying how the
//! metavariable is addressed, an optional display description, and — once
//! bound to a [`crate::context::Context`] — the index of the alias block
//! the key resolved to.

use crate::constraint::Constraint;
use crate::context::Context;
use crate::context::lemma_alias_targets;
use crate::context::lemma_datas_sem;
use crate::context::lemma_gen_lookup_at;
use crate::context::spec_gen_lookup;
use crate::metavars::Alias;
use crate::metavars::Data;
use crate::data_type::TypeSem;
use crate::data_type::type_size;
use crate::diag::Diagnostic;
use crate::semantics::spec_ref_has;
use crate::semantics::spec_ref_has_int;
use crate::semantics::spec_ref_has_type;
use crate::valueset::Value;
use vstd::prelude::*;

verus! {

/// Ghost projection of a metavariable key.
pub ghost enum KeySem {
    /// A named metavariable; the name is stored case-folded.
    Generic(Seq<char>),
    /// A unique inferred metavariable.
    Inferred(u64),
    /// The type of the function parameter with the given index.
    FunctionParameterType(usize),
    /// The return type of the function being solved for.
    FunctionReturnType,
}

/// Ghost projection of a reference: its key and, if bound, the alias
/// index it resolved to.
pub ghost struct RefSem {
    /// The key.
    pub key: KeySem,
    /// The alias index, if bound.
    pub alias: Option<usize>,
}

/// The method through which a metavariable is referenced.
#[derive(Debug)]
pub enum Key {
    /// A named metavariable; the name is stored case-folded.
    Generic(String),
    /// A unique inferred metavariable.
    Inferred(u64),
    /// The type of the function parameter with the given index.
    FunctionParameterType(usize),
    /// The return type of the function being solved for.
    FunctionReturnType,
}

impl Key {
    /// Semantic projection of the key.
    pub open spec fn sem(self) -> KeySem {
        match self {
            Key::Generic(s) => KeySem::Generic(s@),
            Key::Inferred(id) => KeySem::Inferred(id),
            Key::FunctionParameterType(i) => KeySem::FunctionParameterType(i),
            Key::FunctionReturnType => KeySem::FunctionReturnType,
        }
    }
}

impl Clone for Key {
    /// Copies the key; its projection carries over.
    fn clone(&self) -> (res: Self)
        ensures
            res.sem() == self.sem(),
    {
        match self {
            Key::Generic(s) => Key::Generic(s.clone()),
            Key::Inferred(id) => Key::Inferred(*id),
            Key::FunctionParameterType(i) => Key::FunctionParameterType(*i),
            Key::FunctionReturnType => Key::FunctionReturnType,
        }
    }
}

/// A reference to a metavariable.
#[derive(Debug)]
pub struct Reference {
    /// The method through which the metavariable is referenced.
    pub key: Key,
    /// The raw string the user used to refer to the metavariable, if
    /// any; kept for diagnostics.
    pub description: Option<String>,
    /// Index of the alias block for this metavariable, set by `bind`.
    pub alias: Option<usize>,
}

impl Reference {
    /// Semantic projection of the reference.
    pub open spec fn sem(self) -> RefSem {
        RefSem { key: self.key.sem(), alias: self.alias }
    }

    /// Creates an (unbound) named reference to a metavariable.  The key
    /// is the ASCII-case-folded name; the description keeps the original
    /// spelling.
    pub fn new_generic(name: &str) -> (r: Self)
        ensures
            r.sem().key == KeySem::Generic(ascii_lower(name@)),
            r.sem().alias is None,
            (match r.description {
                Some(d) => d@ == name@,
                None => false,
            }),
    {
        let key = ascii_fold(name);
        Reference {
            key: Key::Generic(key),
            description: Some(name.to_owned()),
            alias: None,
        }
    }

    /// Creates a reference to a new, unique metavariable.  The context
    /// hands out the unique id; copies of the returned reference refer
    /// to the same metavariable.
    pub fn new_inferred(ctx: &mut Context, description: Option<&str>) -> (r: Self)
        ensures
            r.sem().key == KeySem::Inferred(old(ctx).next_id),
            r.sem().alias is None,
            final(ctx).sem() == old(ctx).sem(),
            old(ctx).next_id < u64::MAX ==> final(ctx).next_id == old(ctx).next_id + 1,
    {
        let id = ctx.fresh_id();
        Reference {
            key: Key::Inferred(id),
            description: match description {
                Some(d) => Some(d.to_owned()),
                None => None,
            },
            alias: None,
        }
    }

    /// Creates a reference to the type of the index'th parameter of the
    /// function being solved for.
    pub fn new_function_parameter_type(index: usize) -> (r: Self)
        ensures
            r.sem().key == KeySem::FunctionParameterType(index),
            r.sem().alias is None,
    {
        Reference { key: Key::FunctionParameterType(index), description: None, alias: None }
    }

    /// Creates a reference to the return type of the function being
    /// solved for.
    pub fn new_function_return_type() -> (r: Self)
        ensures
            r.sem().key == KeySem::FunctionReturnType,
            r.sem().alias is None,
    {
        Reference { key: Key::FunctionReturnType, description: None, alias: None }
    }
}

impl Clone for Reference {
    /// Copies the reference; its projection carries over.
    fn clone(&self) -> (res: Self)
        ensures
            res.sem() == self.sem(),
    {
        Reference {
            key: self.key.clone(),
            description: match &self.description {
                Some(d) => Some(d.clone()),
                None => None,
            },
            alias: self.alias,
        }
    }
}

/// ASCII case folding of a character sequence.
pub open spec fn ascii_lower(s: Seq<char>) -> Seq<char> {
    s.map_values(|c: char| ascii_lower_char(c))
}

/// ASCII case folding of one character.
pub open spec fn ascii_lower_char(c: char) -> char {
    if 'A' <= c <= 'Z' {
        (c as u8 + 0x20) as char
    } else {
        c
    }
}

/// Folds a string to ASCII lower case, character by character.  An
/// upper-case letter is replaced by the matching entry of a lower-case
/// alphabet; every other character is copied through.
pub fn ascii_fold(s: &str) -> (r: String)
    ensures
        r@ == ascii_lower(s@),
{
    let lower = "abcdefghijklmnopqrstuvwxyz";
    proof {
        reveal_strlit("abcdefghijklmnopqrstuvwxyz");
    }
    let mut out = String::new();
    let n = s.unicode_len();
    let mut i: usize = 0;
    while i < n
        invariant
            n == s@.len(),
            i <= n,
            lower@ == "abcdefghijklmnopqrstuvwxyz"@,
            out@ == ascii_lower(s@).subrange(0, i as int),
        decreases n - i,
    {
        proof {
            reveal_strlit("abcdefghijklmnopqrstuvwxyz");
        }
        let c = s.get_char(i);
        if 'A' <= c && c <= 'Z' {
            let idx = (c as u8 - 0x41) as usize;
            let piece = lower.substring_char(idx, idx + 1);
            out.append(piece);
            proof {
                assert(piece@ =~= seq![lower@[idx as int]]);
                assert(lower@[idx as int] == ascii_lower_char(c));
                assert(out@ =~= ascii_lower(s@).subrange(0, i + 1));
            }
        } else {
            let piece = s.substring_char(i, i + 1);
            out.append(piece);
            proof {
                assert(piece@ =~= seq![s@[i as int]]);
                assert(s@[i as int] == ascii_lower_char(s@[i as int]));
                assert(out@ =~= ascii_lower(s@).subrange(0, i + 1));
            }
        }
        i += 1;
    }
    proof {
        assert(out@ =~= ascii_lower(s@));
    }
    out
}

impl Reference {
    /// Returns whether the referenced metavariable still admits the
    /// given concrete type.
    pub fn admits_type(&self, ctx: &Context, t: &crate::data_type::DataType) -> (r: bool)
        requires
            ctx.wf(),
        ensures
            r == spec_ref_has_type(ctx.sem(), self.sem(), t.sem()),
        decreases type_size(t.sem()), 3int,
    {
        match ctx.data_index_of(self) {
            Some(d) => ctx.datas[d].values.data_types.contains(ctx, t),
            None => true,
        }
    }


    /// Returns whether the referenced metavariable still admits the
    /// given integer.
    pub fn admits_int(&self, ctx: &Context, v: i64) -> (r: bool)
        requires
            ctx.wf(),
        ensures
            r == spec_ref_has_int(ctx.sem(), self.sem(), v as int),
    {
        match ctx.data_index_of(self) {
            Some(d) => ctx.datas[d].values.integers.contains(v),
            None => true,
        }
    }

    /// Returns whether this metavariable still has the given value as a
    /// possibility.  An unbound reference admits everything.
    pub fn matches(&self, ctx: &Context, value: &Value) -> (r: bool)
        requires
            ctx.wf(),
        ensures
            r == spec_ref_has(ctx.sem(), self.sem(), value.sem()),
    {
        match ctx.data_index_of(self) {
            Some(d) => ctx.datas[d].matches(ctx, value),
            None => true,
        }
    }
}

impl Reference {
    /// Returns whether the two references are structurally the same:
    /// equal keys and equal binding state.  The display description is
    /// not compared.
    pub fn same_as(&self, other: &Reference) -> (r: bool)
        ensures
            r == (self.sem() == other.sem()),
    {
        let keys: bool = match (&self.key, &other.key) {
            (Key::Generic(a), Key::Generic(b)) => *a == *b,
            (Key::Inferred(a), Key::Inferred(b)) => *a == *b,
            (Key::FunctionParameterType(a), Key::FunctionParameterType(b)) => *a == *b,
            (Key::FunctionReturnType, Key::FunctionReturnType) => true,
            _ => false,
        };
        if !keys {
            return false;
        }
        match (&self.alias, &other.alias) {
            (Some(a), Some(b)) => *a == *b,
            (None, None) => true,
            _ => false,
        }
    }
}

impl Reference {
    /// Binds this metavariable reference to the given context:
    /// idempotent; a generic name resolves to the alias of its earlier
    /// occurrences, every other key gets its dedicated slot, and a
    /// fresh alias and data block are allocated on first use.
    pub fn bind(&mut self, ctx: &mut Context)
        requires
            old(ctx).wf(),
        ensures
            final(ctx).wf(),
            final(self).sem().key == old(self).sem().key,
            final(self).alias is Some,
            old(self).alias is None ==> (match final(self).alias {
                Some(a) => (a as int) < final(ctx).aliases@.len(),
                None => false,
            }),
            final(ctx).datas@.len() >= old(ctx).datas@.len(),
            final(ctx).aliases@.len() >= old(ctx).aliases@.len(),
            forall|k: int|
                #![trigger old(ctx).sem().datas[k]]
                0 <= k < old(ctx).datas@.len() ==> final(ctx).sem().datas[k] == old(
                    ctx,
                ).sem().datas[k],
            forall|k: int|
                #![trigger old(ctx).sem().aliases[k]]
                0 <= k < old(ctx).aliases@.len() ==> final(ctx).sem().aliases[k] == old(
                    ctx,
                ).sem().aliases[k],
            old(self).alias is Some ==> *final(self) == *old(self) && *final(ctx) == *old(ctx),
            old(self).alias is None ==> (match final(self).alias {
                Some(a) => (a as int) < final(ctx).aliases@.len() && ((a as int) < old(
                    ctx,
                ).aliases@.len() || {
                    let di = final(ctx).sem().aliases[a as int] as int;
                    &&& di == old(ctx).datas@.len()
                    &&& final(ctx).sem().datas[di].constraints.len() == 0
                    &&& !final(ctx).sem().datas[di].complete
                    &&& final(ctx).sem().datas[di].values.booleans is All
                    &&& final(ctx).sem().datas[di].values.data_types is All
                }),
                None => false,
            }),
            old(self).alias is None && old(self).key is Generic ==> (match spec_gen_lookup(
                old(ctx).generics@,
                old(self).key->Generic_0@,
            ) {
                Some(a) => (a as int) < old(ctx).aliases@.len() ==> final(self).alias == Some(a)
                    && final(ctx).generics == old(ctx).generics,
                None => final(self).alias is Some && spec_gen_lookup(
                    final(ctx).generics@,
                    old(self).key->Generic_0@,
                ) == final(self).alias,
            }),
            old(self).alias is None && old(self).key is Inferred ==> (match
                crate::context::spec_inf_lookup(
                old(ctx).inferreds@,
                old(self).key->Inferred_0,
            ) {
                Some(a) => (a as int) < old(ctx).aliases@.len() ==> final(self).alias == Some(a)
                    && final(ctx).inferreds == old(ctx).inferreds,
                None => final(self).alias is Some && crate::context::spec_inf_lookup(
                    final(ctx).inferreds@,
                    old(self).key->Inferred_0,
                ) == final(self).alias,
            }),
    {
        if self.alias.is_some() {
            return ;
        }
        let a = match &self.key {
            Key::Generic(name) => match ctx.lookup_generic(name) {
                Some(a) => if a < ctx.aliases.len() {
                    a
                } else {
                    let a2 = ctx.alloc_alias(name.clone());
                    a2
                },
                None => {
                    let ghost gens0 = ctx.generics@;
                    let a2 = ctx.alloc_alias(name.clone());
                    let entry = (name.clone(), a2);
                    ctx.generics.push(entry);
                    proof {
                        crate::context::lemma_gen_lookup_none(gens0, name@);
                        assert forall|k: int| 0 <= k < gens0.len() implies (
                        #[trigger] ctx.generics@[k]).0@ != name@ by {
                            assert(ctx.generics@[k] == gens0[k]);
                        }
                        lemma_gen_lookup_at(ctx.generics@, name@, gens0.len() as int);
                        assert(ctx.generics@.skip(gens0.len() as int) =~= seq![
                            ctx.generics@[gens0.len() as int],
                        ]);
                        assert(ctx.generics@[gens0.len() as int].0@ == name@);
                        assert(spec_gen_lookup(ctx.generics@, name@) == Some(a2));
                    }
                    a2
                },
            },
            Key::Inferred(id) => match ctx.lookup_inferred(*id) {
                Some(a) => if a < ctx.aliases.len() {
                    a
                } else {
                    let a2 = ctx.alloc_alias(String::new());
                    a2
                },
                None => {
                    let ghost infs0 = ctx.inferreds@;
                    let id2 = *id;
                    let a2 = ctx.alloc_alias(String::new());
                    let entry = (id2, a2);
                    ctx.inferreds.push(entry);
                    proof {
                        crate::context::lemma_inf_lookup_none(infs0, id2);
                        assert forall|k: int| 0 <= k < infs0.len() implies (
                        #[trigger] ctx.inferreds@[k]).0 != id2 by {
                            assert(ctx.inferreds@[k] == infs0[k]);
                        }
                        crate::context::lemma_inf_lookup_at(
                            ctx.inferreds@,
                            id2,
                            infs0.len() as int,
                        );
                        assert(ctx.inferreds@.skip(infs0.len() as int) =~= seq![
                            ctx.inferreds@[infs0.len() as int],
                        ]);
                        assert(ctx.inferreds@[infs0.len() as int].0 == id2);
                        assert(crate::context::spec_inf_lookup(ctx.inferreds@, id2) == Some(
                            a2,
                        ));
                    }
                    a2
                },
            },
            Key::FunctionParameterType(idx) => match ctx.lookup_fparam(*idx) {
                Some(a) => if a < ctx.aliases.len() {
                    a
                } else {
                    let idx2 = *idx;
                    let a2 = ctx.alloc_alias(String::new());
                    let entry = (idx2, a2);
                    ctx.fparams.push(entry);
                    a2
                },
                None => {
                    let idx2 = *idx;
                    let a2 = ctx.alloc_alias(String::new());
                    let entry = (idx2, a2);
                    ctx.fparams.push(entry);
                    a2
                },
            },
            Key::FunctionReturnType => match ctx.fret {
                Some(a) => if a < ctx.aliases.len() {
                    a
                } else {
                    let a2 = ctx.alloc_alias(String::new());
                    ctx.fret = Some(a2);
                    a2
                },
                None => {
                    let a2 = ctx.alloc_alias(String::new());
                    ctx.fret = Some(a2);
                    a2
                },
            },
        };
        self.alias = Some(a);
    }

    /// Constrains the value of the referred metavariable.  The
    /// constraint is only added if no structurally equal constraint is
    /// recorded yet.
    #[verifier::rlimit(60)]
    pub fn constrain(&self, ctx: &mut Context, constraint: Constraint) -> (r: Result<
        (),
        Diagnostic,
    >)
        requires
            old(ctx).wf(),
            crate::semantics::ref_data(old(ctx).sem(), self.sem()) is Some,
            crate::constraint::con_wf(constraint),
            (match crate::semantics::ref_data(old(ctx).sem(), self.sem()) {
                Some(ds) => ds.complete ==> crate::semantics::cons_contain(
                    ds.constraints,
                    constraint.sem(),
                ),
                None => false,
            }),
        ensures
            final(ctx).wf(),
            final(ctx).datas@.len() == old(ctx).datas@.len(),
            final(ctx).sem().aliases == old(ctx).sem().aliases,
            crate::semantics::data_step(
                old(ctx).sem(),
                old(ctx).sem().datas[crate::semantics::ref_didx(old(ctx).sem(), self.sem())],
                constraint.sem(),
                final(ctx).sem().datas[crate::semantics::ref_didx(old(ctx).sem(), self.sem())],
                r is Ok,
            ),
            forall|k: int|
                #![trigger old(ctx).sem().datas[k]]
                0 <= k < old(ctx).datas@.len() && k != crate::semantics::ref_didx(
                    old(ctx).sem(),
                    self.sem(),
                ) ==> final(ctx).sem().datas[k] == old(ctx).sem().datas[k],
            r is Err ==> (r matches Err(Diagnostic::OverConstrained(w)) && w@.len() >= 1
                && (forall|j: int| 0 <= j < w@.len() ==> crate::semantics::cons_contain(
                final(ctx).sem().datas[crate::semantics::ref_didx(
                    old(ctx).sem(),
                    self.sem(),
                )].constraints,
                #[trigger] crate::metavars::cons_sem(w@)[j],
            )) && crate::semantics::cons_contain(
                crate::metavars::cons_sem(w@),
                constraint.sem(),
            )),
    {
        match ctx.data_index_of(self) {
            Some(d) => {
                proof {
                    crate::context::lemma_alias_targets(ctx.aliases@);
                    crate::context::lemma_datas_sem(ctx.datas@);
                    assert((d as int) == crate::semantics::ref_didx(ctx.sem(), self.sem()));
                }
                ctx.constrain_data(d, constraint)
            },
            None => {
                proof {
                    assert(false);
                }
                Err(Diagnostic::IllFormedConcreteType)
            },
        }
    }
}

impl Reference {
    /// Adds an equality constraint between this metavariable and the
    /// other: their data blocks are merged and every alias of the
    /// other's block is redirected to the merged block.  Both
    /// references must have been bound.
    #[verifier::rlimit(100)]
    pub fn constrain_equal(&self, ctx: &mut Context, other: &Reference) -> (r: Result<
        (),
        Diagnostic,
    >)
        requires
            old(ctx).wf(),
            crate::semantics::ref_data(old(ctx).sem(), self.sem()) is Some,
            crate::semantics::ref_data(old(ctx).sem(), other.sem()) is Some,
            crate::semantics::ref_didx(old(ctx).sem(), self.sem())
                != crate::semantics::ref_didx(old(ctx).sem(), other.sem()) ==> (match
                crate::semantics::ref_data(old(ctx).sem(), self.sem()) {
                Some(ds) => !ds.complete,
                None => false,
            }) && (match crate::semantics::ref_data(old(ctx).sem(), other.sem()) {
                Some(ds) => !ds.complete,
                None => false,
            }),
        ensures
            final(ctx).wf(),
            final(ctx).datas@.len() == old(ctx).datas@.len(),
            final(ctx).aliases@.len() == old(ctx).aliases@.len(),
            crate::semantics::ref_didx(final(ctx).sem(), self.sem())
                == crate::semantics::ref_didx(final(ctx).sem(), other.sem()),
            crate::semantics::ref_didx(old(ctx).sem(), self.sem())
                == crate::semantics::ref_didx(old(ctx).sem(), other.sem()) ==> *final(ctx)
                == *old(ctx) && r is Ok,
            crate::semantics::ref_didx(old(ctx).sem(), self.sem())
                != crate::semantics::ref_didx(old(ctx).sem(), other.sem()) ==> {
                let di = crate::semantics::ref_didx(old(ctx).sem(), self.sem());
                let dj = crate::semantics::ref_didx(old(ctx).sem(), other.sem());
                &&& (forall|b: bool| final(ctx).sem().datas[di].values.booleans.has(b) ==> old(
                    ctx,
                ).sem().datas[di].values.booleans.has(b))
                &&& (forall|v: int| crate::sets::ranges_have(
                    final(ctx).sem().datas[di].values.integers,
                    v,
                ) ==> crate::sets::ranges_have(old(ctx).sem().datas[di].values.integers, v))
                &&& (((forall|k: int|
                    0 <= k < old(ctx).sem().datas[dj].constraints.len() ==> (#[trigger] old(
                        ctx,
                    ).sem().datas[dj].constraints[k]).data is Within) && (forall|k: int|
                    0 <= k < old(ctx).sem().datas[dj].constraints.len()
                        ==> !crate::semantics::cons_contain(
                        old(ctx).sem().datas[di].constraints,
                        #[trigger] old(ctx).sem().datas[dj].constraints[k],
                    ))) ==> (forall|b: bool|
                    final(ctx).sem().datas[di].values.booleans.has(b) == (old(
                        ctx,
                    ).sem().datas[di].values.booleans.has(b)
                        && crate::semantics::within_all_bool(
                        old(ctx).sem().datas[dj].constraints,
                        b,
                    ))) && (forall|v: int|
                    crate::sets::ranges_have(final(ctx).sem().datas[di].values.integers, v)
                        == (crate::sets::ranges_have(
                        old(ctx).sem().datas[di].values.integers,
                        v,
                    ) && crate::semantics::within_all_int(
                        old(ctx).sem().datas[dj].constraints,
                        v,
                    ))))
            },
            r is Err ==> (r matches Err(Diagnostic::OverConstrained(w)) && w@.len() >= 1),
    {
        let da = match ctx.data_index_of(self) {
            Some(d) => d,
            None => {
                proof {
                    assert(false);
                }
                return Err(Diagnostic::IllFormedConcreteType);
            },
        };
        let db = match ctx.data_index_of(other) {
            Some(d) => d,
            None => {
                proof {
                    assert(false);
                }
                return Err(Diagnostic::IllFormedConcreteType);
            },
        };
        proof {
            lemma_alias_targets(ctx.aliases@);
            lemma_datas_sem(ctx.datas@);
        }
        if da == db {
            return Ok(());
        }
        let a_self = match self.alias {
            Some(a) => a,
            None => {
                proof {
                    assert(false);
                }
                return Err(Diagnostic::IllFormedConcreteType);
            },
        };
        let a_other = match other.alias {
            Some(a) => a,
            None => {
                proof {
                    assert(false);
                }
                return Err(Diagnostic::IllFormedConcreteType);
            },
        };
        // Copy the list of aliases that point at the other block.
        let mut moved: Vec<usize> = Vec::new();
        let m = ctx.datas[db].aliases.len();
        let mut i: usize = 0;
        while i < m
            invariant
                m == ctx.datas@[db as int].aliases@.len(),
                (db as int) < ctx.datas@.len(),
                i <= m,
                moved@ == ctx.datas@[db as int].aliases@.subrange(0, i as int),
            decreases m - i,
        {
            let a = ctx.datas[db].aliases[i];
            moved.push(a);
            proof {
                assert(moved@ =~= ctx.datas@[db as int].aliases@.subrange(0, i + 1));
            }
            i += 1;
        }
        proof {
            assert(moved@ =~= ctx.datas@[db as int].aliases@);
        }
        // Redirect them, and the other reference's own alias, to this
        // block.
        let ghost aliases0 = ctx.aliases@;
        let ghost datas0 = ctx.datas@;
        proof {
            lemma_alias_targets(ctx.aliases@);
            lemma_datas_sem(ctx.datas@);
            assert forall|k: int| 0 <= k < moved@.len() implies (#[trigger] moved@[k] as int)
                < aliases0.len() && aliases0[moved@[k] as int].data == db by {
                assert(ctx.sem().datas[db as int].aliases[k] == moved@[k]);
                assert((ctx.sem().aliases[moved@[k] as int] as int) == db as int);
                assert(ctx.sem().aliases[moved@[k] as int] == ctx.aliases@[
                    moved@[k] as int
                ].data);
            }
            assert((a_other as int) < aliases0.len()) by {
                assert(crate::semantics::ref_data(old(ctx).sem(), other.sem()) is Some);
            }
            assert((a_self as int) < aliases0.len()) by {
                assert(crate::semantics::ref_data(old(ctx).sem(), self.sem()) is Some);
            }
        }
        let mut j: usize = 0;
        while j < moved.len()
            invariant
                j <= moved@.len(),
                ctx.aliases@.len() == aliases0.len(),
                ctx.datas@ == datas0,
                (da as int) < ctx.datas@.len(),
                (db as int) < ctx.datas@.len(),
                (a_other as int) < aliases0.len(),
                da != db,
                forall|k: int| 0 <= k < moved@.len() ==> (#[trigger] moved@[k] as int)
                    < aliases0.len() && aliases0[moved@[k] as int].data == db,
                forall|x: int|
                    #![trigger ctx.aliases@[x]]
                    0 <= x < aliases0.len() ==> (ctx.aliases@[x] == aliases0[x] || (
                    aliases0[x].data == db && ctx.aliases@[x].data == da)),
                forall|x: int|
                    #![trigger aliases0[x]]
                    0 <= x < aliases0.len() && aliases0[x].data != db ==> ctx.aliases@[x]
                        == aliases0[x],
                forall|k: int| 0 <= k < j ==> ctx.aliases@[#[trigger] moved@[k] as int].data
                    == da,
            decreases moved@.len() - j,
        {
            let a = moved[j];
            let name = ctx.aliases[a].name.clone();
            ctx.aliases.set(a, Alias { data: da, name });
            j += 1;
        }
        let name2 = ctx.aliases[a_other].name.clone();
        ctx.aliases.set(a_other, Alias { data: da, name: name2 });
        // Merge the blocks.
        let mut bblk = ctx.datas[db].clone();
        let ph = Data::placeholder();
        self_datas_set(ctx, db, ph);
        proof {
            lemma_alias_targets(ctx.aliases@);
            lemma_datas_sem(ctx.datas@);
            lemma_datas_sem(datas0);
            lemma_alias_targets(aliases0);
            let c1 = ctx.sem();
            assert(ctx.wf()) by {
                assert forall|x: int|
                    #![trigger c1.aliases[x]]
                    0 <= x < c1.aliases.len() implies (c1.aliases[x] as int)
                    < c1.datas.len() by {
                    assert(c1.aliases[x] == ctx.aliases@[x].data);
                    assert(old(ctx).sem().aliases[x] == aliases0[x].data);
                    assert((old(ctx).sem().aliases[x] as int) < old(ctx).sem().datas.len());
                }
                assert forall|dd: int, k: int|
                    #![trigger c1.datas[dd].aliases[k]]
                    0 <= dd < c1.datas.len() && 0 <= k < c1.datas[dd].aliases.len() implies (
                c1.datas[dd].aliases[k] as int) < c1.aliases.len() && (c1.aliases[c1.datas[
                    dd
                ].aliases[k] as int] as int) == dd by {
                    if dd == db {
                        assert(c1.datas[dd].aliases.len() == 0);
                    } else {
                        let e = c1.datas[dd].aliases[k];
                        assert(ctx.datas@[dd] == datas0[dd]);
                        assert(old(ctx).sem().datas[dd].aliases[k] == e);
                        assert((old(ctx).sem().aliases[e as int] as int) == dd);
                        assert(aliases0[e as int].data == dd);
                        assert(ctx.aliases@[e as int] == aliases0[e as int]);
                        assert(c1.aliases[e as int] == ctx.aliases@[e as int].data);
                    }
                }
                assert forall|dd: int| 0 <= dd < ctx.datas@.len() implies (
                #[trigger] ctx.datas@[dd]).wf() by {
                    if dd != db {
                        assert(ctx.datas@[dd] == old(ctx).datas@[dd]);
                    }
                }
            }
        }
        let mut ablk = ctx.datas[da].clone();
        let ghost abp = ablk.sem();
        let ghost bbp = bblk.sem();
        proof {
            lemma_datas_sem(datas0);
            lemma_datas_sem(old(ctx).datas@);
            assert(abp == old(ctx).sem().datas[da as int]);
            assert(bbp == old(ctx).sem().datas[db as int]);
        }
        let res = ablk.merge_with(ctx, &mut bblk);
        let ghost abm = ablk.sem();
        self_datas_set(ctx, da, ablk);
        proof {
            lemma_alias_targets(ctx.aliases@);
            lemma_alias_targets(aliases0);
            lemma_datas_sem(ctx.datas@);
            lemma_datas_sem(old(ctx).datas@);
            let c0 = old(ctx).sem();
            let c1 = ctx.sem();
            assert(c1.aliases.len() == c0.aliases.len());
            assert(c1.datas.len() == c0.datas.len());
            assert forall|x: int|
                #![trigger c1.aliases[x]]
                0 <= x < c1.aliases.len() implies (c1.aliases[x] as int) < c1.datas.len() by {
                assert(c1.aliases[x] == ctx.aliases@[x].data);
                assert(c0.aliases[x] == aliases0[x].data);
                assert((c0.aliases[x] as int) < c0.datas.len());
            }
            assert(c1.datas[da as int] == abm);
            assert(abm.aliases == c0.datas[da as int].aliases + c0.datas[db as int].aliases);
            assert(moved@ == c0.datas[db as int].aliases);
            assert forall|dd: int, k: int|
                #![trigger c1.datas[dd].aliases[k]]
                0 <= dd < c1.datas.len() && 0 <= k < c1.datas[dd].aliases.len() implies (
            c1.datas[dd].aliases[k] as int) < c1.aliases.len() && (c1.aliases[c1.datas[
                dd
            ].aliases[k] as int] as int) == dd by {
                if dd == da {
                    let alen = c0.datas[da as int].aliases.len();
                    if k < alen {
                        let e = c1.datas[dd].aliases[k];
                        assert(e == c0.datas[da as int].aliases[k]);
                        assert(c0.aliases[e as int] as int == da);
                        assert(aliases0[e as int].data == da);
                        assert(ctx.aliases@[e as int] == aliases0[e as int]);
                    } else {
                        let e = c1.datas[dd].aliases[k];
                        assert(e == c0.datas[db as int].aliases[k - alen]);
                        assert(moved@[k - alen] == e);
                        assert(ctx.aliases@[e as int].data == da);
                    }
                } else if dd == db {
                    assert(c1.datas[dd].aliases.len() == 0);
                } else {
                    let e = c1.datas[dd].aliases[k];
                    assert(c1.datas[dd] == c0.datas[dd]);
                    assert(c0.aliases[e as int] as int == dd);
                    assert(aliases0[e as int].data == dd);
                    assert(ctx.aliases@[e as int] == aliases0[e as int]);
                }
            }
            assert forall|dd: int| 0 <= dd < ctx.datas@.len() implies (
            #[trigger] ctx.datas@[dd]).wf() by {
                if dd != da && dd != db {
                    assert(ctx.datas@[dd] == old(ctx).datas@[dd]);
                }
            }
            assert(ctx.aliases@[a_self as int].data == da);
            assert(ctx.aliases@[a_other as int].data == da);
            if ((forall|k: int|
                0 <= k < bbp.constraints.len() ==> (#[trigger] bbp.constraints[k]).data
                    is Within) && (forall|k: int|
                0 <= k < bbp.constraints.len() ==> !crate::semantics::cons_contain(
                    abp.constraints,
                    #[trigger] bbp.constraints[k],
                ))) {
                assert(forall|b: bool|
                    abm.values.booleans.has(b) == (abp.values.booleans.has(b)
                        && crate::semantics::within_all_bool(bbp.constraints, b)));
                assert(forall|v: int|
                    crate::sets::ranges_have(abm.values.integers, v) == (
                    crate::sets::ranges_have(abp.values.integers, v)
                        && crate::semantics::within_all_int(bbp.constraints, v)));
            }
        }
        res
    }
}

/// Stores a data block at the given index; a plain wrapper so that the
/// surrounding borrow of the context ends before the next step.
fn self_datas_set(ctx: &mut Context, d: usize, blk: Data)
    requires
        d < old(ctx).datas@.len(),
    ensures
        final(ctx).datas@ == old(ctx).datas@.update(d as int, blk),
        final(ctx).aliases@ == old(ctx).aliases@,
        final(ctx).generics == old(ctx).generics,
        final(ctx).inferreds == old(ctx).inferreds,
        final(ctx).fparams == old(ctx).fparams,
        final(ctx).fret == old(ctx).fret,
{
    ctx.datas.set(d, blk);
}

impl Reference {
    /// Three-valued cover check between the referenced metavariables:
    /// `Some(true)` is definite and transfers every remaining
    /// possibility of the other metavariable to this one.
    pub fn covers(&self, ctx: &Context, other: &Reference) -> (r: Option<bool>)
        requires
            ctx.wf(),
        ensures
            r == Some(true) && crate::semantics::ctx_sets_nonempty(ctx.sem()) ==> {
                &&& (forall|t: TypeSem| spec_ref_has_type(ctx.sem(), other.sem(), t)
                    ==> spec_ref_has_type(ctx.sem(), self.sem(), t))
                &&& (forall|v: int| spec_ref_has_int(ctx.sem(), other.sem(), v)
                    ==> spec_ref_has_int(ctx.sem(), self.sem(), v))
                &&& (forall|b: bool| crate::semantics::spec_ref_has_bool(
                    ctx.sem(),
                    other.sem(),
                    b,
                ) ==> crate::semantics::spec_ref_has_bool(ctx.sem(), self.sem(), b))
                &&& (match crate::semantics::spec_ref_bool_value(ctx.sem(), self.sem()) {
                    Some(b) => crate::semantics::spec_ref_bool_value(ctx.sem(), other.sem())
                        == Some(b),
                    None => true,
                })
            },
            (match (
                crate::semantics::ref_data(ctx.sem(), self.sem()),
                crate::semantics::ref_data(ctx.sem(), other.sem()),
            ) {
                (Some(ds), Some(dt)) => (ds.complete && dt.values.repr_empty() ==> r == Some(
                    true,
                )) && (ds.values.repr_empty() && !dt.values.repr_empty() ==> r == Some(
                    false,
                )),
                _ => true,
            }),
    {
        self.covers_at(ctx, other, crate::semantics::QUERY_FUEL)
    }

    /// Fuel-bounded cover check; exhausted fuel or unbound references
    /// defer.
    #[verifier::rlimit(60)]
    pub(crate) fn covers_at(&self, ctx: &Context, other: &Reference, fuel: u64) -> (r: Option<
        bool,
    >)
        requires
            ctx.wf(),
        ensures
            r == Some(true) && crate::semantics::ctx_sets_nonempty(ctx.sem()) ==> {
                &&& (forall|t: TypeSem| spec_ref_has_type(ctx.sem(), other.sem(), t)
                    ==> spec_ref_has_type(ctx.sem(), self.sem(), t))
                &&& (forall|v: int| spec_ref_has_int(ctx.sem(), other.sem(), v)
                    ==> spec_ref_has_int(ctx.sem(), self.sem(), v))
                &&& (forall|b: bool| crate::semantics::spec_ref_has_bool(
                    ctx.sem(),
                    other.sem(),
                    b,
                ) ==> crate::semantics::spec_ref_has_bool(ctx.sem(), self.sem(), b))
                &&& (match crate::semantics::spec_ref_bool_value(ctx.sem(), self.sem()) {
                    Some(b) => crate::semantics::spec_ref_bool_value(ctx.sem(), other.sem())
                        == Some(b),
                    None => true,
                })
            },
            fuel >= 2 ==> (match (
                crate::semantics::ref_data(ctx.sem(), self.sem()),
                crate::semantics::ref_data(ctx.sem(), other.sem()),
            ) {
                (Some(ds), Some(dt)) => (ds.complete && dt.values.repr_empty() ==> r == Some(
                    true,
                )) && (ds.values.repr_empty() && !dt.values.repr_empty() ==> r == Some(
                    false,
                )),
                _ => true,
            }),
        decreases fuel, 8int,
    {
        if fuel == 0 {
            return None;
        }
        let da = match ctx.data_index_of(self) {
            Some(d) => d,
            None => {
                return None;
            },
        };
        let db = match ctx.data_index_of(other) {
            Some(d) => d,
            None => {
                return None;
            },
        };
        proof {
            lemma_datas_sem(ctx.datas@);
        }
        let r = ctx.datas[da].covers_at(ctx, &ctx.datas[db], fuel - 1);
        proof {
            if r == Some(true) && crate::semantics::ctx_sets_nonempty(ctx.sem()) {
                let c = ctx.sem();
                let dsa = c.datas[da as int];
                let dsb = c.datas[db as int];
                assert(crate::semantics::ref_data(c, self.sem()) == Some(dsa));
                assert(crate::semantics::ref_data(c, other.sem()) == Some(dsb));
                assert forall|t: TypeSem| spec_ref_has_type(c, other.sem(), t)
                    implies spec_ref_has_type(c, self.sem(), t) by {
                    assert(crate::semantics::spec_dtset_has(c, dsb.values.data_types, t));
                    assert(crate::semantics::spec_dtset_has(c, dsa.values.data_types, t));
                }
                assert forall|v: int| spec_ref_has_int(c, other.sem(), v)
                    implies spec_ref_has_int(c, self.sem(), v) by {
                    assert(crate::sets::ranges_have(dsb.values.integers, v));
                    assert(crate::sets::ranges_have(dsa.values.integers, v));
                }
                assert forall|b: bool| crate::semantics::spec_ref_has_bool(c, other.sem(), b)
                    implies crate::semantics::spec_ref_has_bool(c, self.sem(), b) by {
                    assert(dsb.values.booleans.has(b));
                    assert(dsa.values.booleans.has(b));
                }
                match crate::semantics::spec_ref_bool_value(c, self.sem()) {
                    Some(b1) => {
                        assert(!dsb.values.repr_empty());
                        assert(dsb.values.integers.len() == 0);
                        assert(dsb.values.data_types.repr_empty());
                        match dsb.values.booleans {
                            crate::sets::Boolean::All => {
                                assert(dsb.values.booleans.has(!b1));
                                assert(dsa.values.booleans.has(!b1));
                                assert(false);
                            },
                            crate::sets::Boolean::Only(b2) => {
                                assert(dsb.values.booleans.has(b2));
                                assert(dsa.values.booleans.has(b2));
                            },
                            crate::sets::Boolean::Empty => {
                                assert(false);
                            },
                        }
                    },
                    None => {},
                }
            }
        }
        r
    }
}

impl Reference {
    /// If the referenced metavariable has been reduced to only one
    /// possible value, return it.  Unbound references have none.
    pub fn value(&self, ctx: &Context) -> (r: Result<Option<Value>, Diagnostic>)
        requires
            ctx.wf(),
        ensures
            (match r {
                Ok(Some(v)) => crate::semantics::spec_ref_has(ctx.sem(), self.sem(), v.sem()),
                _ => true,
            }),
            crate::semantics::ref_data(ctx.sem(), self.sem()) is None ==> r == Ok::<Option<Value>, Diagnostic>(None),
            (match crate::semantics::ref_data(ctx.sem(), self.sem()) {
                Some(ds) => {
                    &&& (match ds.values.booleans {
                        crate::sets::Boolean::Only(b) => ds.values.integers.len() == 0
                            && ds.values.data_types.repr_empty() ==> r == Ok::<Option<Value>, Diagnostic>(
                            Some(Value::Boolean(b)),
                        ),
                        _ => true,
                    })
                    &&& (ds.values.booleans is Empty && ds.values.integers.len() == 1
                        && ds.values.integers[0].lo == ds.values.integers[0].hi
                        && ds.values.data_types.repr_empty() ==> r == Ok::<Option<Value>, Diagnostic>(
                        Some(Value::Integer(ds.values.integers[0].lo)),
                    ))
                    &&& (match ds.values.data_types {
                        crate::valueset::DtSetSem::Exact(ts) => ds.values.booleans is Empty
                            && ds.values.integers.len() == 0 && ts.len() == 1 ==> (r matches Ok(
                            Some(v),
                        ) && v.sem() == crate::valueset::ValSem::DataType(ts[0])),
                        _ => true,
                    })
                },
                None => true,
            }),
    {
        match ctx.data_index_of(self) {
            Some(d) => {
                proof {
                    lemma_datas_sem(ctx.datas@);
                }
                ctx.datas[d].value(ctx)
            },
            None => Ok(None),
        }
    }
}

} // verus!
