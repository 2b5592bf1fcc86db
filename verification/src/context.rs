//! The solver scope: storage for alias and data blocks, binding tables,
//! and the constraint-propagation loop.
//!
//! A [`Context`] owns every alias and data block of one solving session.
//! References hold indices into the alias table; aliases hold indices
//! into the data table; data blocks list the aliases pointing at them so
//! that equality-merging can rewire occurrences in one pass.

use crate::metavars::Alias;
use crate::metavars::Data;
use crate::metavars::DataSem;
use crate::diag::Diagnostic;
use crate::diag::SolveResult;
use crate::constraint::Constraint;
use crate::valueset::DataType;
use crate::valueset::ValueSet;
use crate::reference::Reference;
use crate::valueset::Value;
use vstd::prelude::*;

verus! {

/// Ghost projection of a context: for each alias its data index, and
/// the projections of the data blocks.
pub ghost struct CtxSem {
    /// For each alias index, the index of its data block.
    pub aliases: Seq<usize>,
    /// The projections of the data blocks.
    pub datas: Seq<DataSem>,
}

impl CtxSem {
    /// Whether alias and data indices are mutually consistent.
    pub open spec fn wf(self) -> bool {
        &&& forall|a: int|
            #![trigger self.aliases[a]]
            0 <= a < self.aliases.len() ==> (self.aliases[a] as int) < self.datas.len()
        &&& forall|d: int, k: int|
            #![trigger self.datas[d].aliases[k]]
            0 <= d < self.datas.len() && 0 <= k < self.datas[d].aliases.len() ==> (
            self.datas[d].aliases[k] as int) < self.aliases.len() && (self.aliases[
                self.datas[d].aliases[k] as int
            ] as int) == d
    }
}

/// A solver scope: the backing storage for one solving session.
#[derive(Debug)]
pub struct Context {
    /// The alias blocks, indexed by references.
    pub aliases: Vec<Alias>,
    /// The data blocks, indexed by aliases.
    pub datas: Vec<Data>,
    /// Lookup table from case-folded generic names to alias indices.
    pub generics: Vec<(String, usize)>,
    /// Lookup table from inferred-key ids to alias indices.
    pub inferreds: Vec<(u64, usize)>,
    /// Lookup table from function-parameter indices to alias indices.
    pub fparams: Vec<(usize, usize)>,
    /// Alias index of the function return type, once bound.
    pub fret: Option<usize>,
    /// Next unique id for inferred metavariables.
    pub next_id: u64,
}

impl Context {
    /// Semantic projection of the context.
    pub open spec fn sem(self) -> CtxSem {
        CtxSem { aliases: alias_targets(self.aliases@), datas: datas_sem(self.datas@) }
    }

    /// Whether every data block's integer partition is canonical.
    pub open spec fn wf(self) -> bool {
        &&& self.sem().wf()
        &&& forall|d: int| 0 <= d < self.datas@.len() ==> (#[trigger] self.datas@[d]).wf()
    }

    /// Creates an empty solver scope.
    pub fn new() -> (r: Self)
        ensures
            r.wf(),
            r.sem().aliases.len() == 0,
            r.sem().datas.len() == 0,
    {
        let r = Context {
            aliases: Vec::new(),
            datas: Vec::new(),
            generics: Vec::new(),
            inferreds: Vec::new(),
            fparams: Vec::new(),
            fret: None,
            next_id: 0,
        };
        proof {
            lemma_alias_targets(r.aliases@);
            lemma_datas_sem(r.datas@);
        }
        r
    }

    /// Hands out a fresh id for an inferred metavariable.  Ids count
    /// up, so every id handed out before the counter saturates is
    /// distinct.
    pub fn fresh_id(&mut self) -> (r: u64)
        ensures
            final(self).sem() == old(self).sem(),
            final(self).wf() == old(self).wf(),
            r == old(self).next_id,
            old(self).next_id < u64::MAX ==> final(self).next_id == old(self).next_id + 1,
    {
        let id = self.next_id;
        if self.next_id < u64::MAX {
            self.next_id = self.next_id + 1;
        }
        id
    }
}


impl Context {
    /// Resolves a reference to the index of its data block, if bound
    /// and in range.
    pub fn data_index_of(&self, r: &Reference) -> (o: Option<usize>)
        ensures
            match o {
                Some(d) => (d as int) < self.datas@.len() && self.sem().datas.len()
                    == self.datas@.len() && self.sem().datas[d as int] == self.datas@[
                    d as int
                ].sem() && crate::semantics::ref_data(self.sem(), r.sem()) == Some(
                    self.sem().datas[d as int],
                ) && (d as int) == crate::semantics::ref_didx(self.sem(), r.sem()),
                None => crate::semantics::ref_data(self.sem(), r.sem()) is None,
            },
    {
        proof {
            lemma_alias_targets(self.aliases@);
            lemma_datas_sem(self.datas@);
        }
        match r.alias {
            Some(a) => if a < self.aliases.len() {
                let d = self.aliases[a].data;
                if d < self.datas.len() {
                    Some(d)
                } else {
                    None
                }
            } else {
                None
            },
            None => None,
        }
    }

    /// The boolean the referenced metavariable is resolved to, if any.
    pub fn ref_bool_value(&self, r: &Reference) -> (o: Option<bool>)
        requires
            self.wf(),
        ensures
            o == crate::semantics::spec_ref_bool_value(self.sem(), r.sem()),
    {
        match self.data_index_of(r) {
            Some(d) => {
                let vs = &self.datas[d].values;
                proof {
                    lemma_datas_sem(self.datas@);
                }
                if vs.integers.ranges.len() == 0 && vs.data_types.is_empty() {
                    match vs.booleans {
                        crate::sets::Boolean::Only(b) => Some(b),
                        _ => None,
                    }
                } else {
                    None
                }
            },
            None => None,
        }
    }

    /// The integer the referenced metavariable is resolved to, if any.
    pub fn ref_int_value(&self, r: &Reference) -> (o: Option<i64>)
        requires
            self.wf(),
        ensures
            o == crate::semantics::spec_ref_int_value(self.sem(), r.sem()),
    {
        match self.data_index_of(r) {
            Some(d) => {
                let vs = &self.datas[d].values;
                proof {
                    lemma_datas_sem(self.datas@);
                }
                if matches!(vs.booleans, crate::sets::Boolean::Empty) && vs.data_types.is_empty()
                    && vs.integers.ranges.len() == 1 {
                    let rg = vs.integers.ranges[0];
                    if rg.lo == rg.hi {
                        Some(rg.lo)
                    } else {
                        None
                    }
                } else {
                    None
                }
            },
            None => None,
        }
    }

    /// The plain (boolean or integer) value the referenced metavariable
    /// is resolved to, if any.
    pub fn ref_plain_value(&self, r: &Reference) -> (o: Option<Value>)
        requires
            self.wf(),
        ensures
            match o {
                Some(v) => crate::semantics::spec_ref_plain_value(self.sem(), r.sem()) == Some(
                    v.sem(),
                ),
                None => crate::semantics::spec_ref_plain_value(self.sem(), r.sem()) is None,
            },
    {
        match self.ref_bool_value(r) {
            Some(b) => Some(Value::Boolean(b)),
            None => match self.ref_int_value(r) {
                Some(i) => Some(Value::Integer(i)),
                None => None,
            },
        }
    }

    /// The value the referenced metavariable is resolved to, when no
    /// pattern concretization is needed: a plain value or the single
    /// entry of an exact data-type partition.
    pub fn ref_exact_value(&self, r: &Reference) -> (o: Option<Value>)
        requires
            self.wf(),
        ensures
            match o {
                Some(v) => crate::semantics::spec_ref_exact_value(self.sem(), r.sem()) == Some(
                    v.sem(),
                ),
                None => crate::semantics::spec_ref_exact_value(self.sem(), r.sem()) is None,
            },
    {
        match self.ref_plain_value(r) {
            Some(v) => Some(v),
            None => match self.data_index_of(r) {
                Some(d) => {
                    let vs = &self.datas[d].values;
                    proof {
                        lemma_datas_sem(self.datas@);
                    }
                    if matches!(vs.booleans, crate::sets::Boolean::Empty)
                        && vs.integers.ranges.len() == 0 {
                        match &vs.data_types {
                            crate::valueset::DataType::Exact(ts) => if ts.len() == 1 {
                                let t = ts[0].clone();
                                proof {
                                    crate::valueset::lemma_types_sem(ts@);
                                }
                                Some(Value::DataType(t))
                            } else {
                                proof {
                                    crate::valueset::lemma_types_sem(ts@);
                                }
                                None
                            },
                            _ => None,
                        }
                    } else {
                        None
                    }
                },
                None => None,
            },
        }
    }
}

/// The data index of each alias in a sequence of alias blocks.
pub open spec fn alias_targets(s: Seq<Alias>) -> Seq<usize>
    decreases s,
{
    if s.len() == 0 {
        Seq::empty()
    } else {
        alias_targets(s.drop_last()).push(s[s.len() - 1].data)
    }
}

/// The targets of an alias sequence are the aliases' data indices.
pub proof fn lemma_alias_targets(s: Seq<Alias>)
    ensures
        alias_targets(s).len() == s.len(),
        forall|i: int| 0 <= i < s.len() ==> #[trigger] alias_targets(s)[i] == s[i].data,
    decreases s,
{
    if s.len() > 0 {
        lemma_alias_targets(s.drop_last());
        assert forall|i: int| 0 <= i < s.len() implies #[trigger] alias_targets(s)[i]
            == s[i].data by {
            if i < s.len() - 1 {
                assert(alias_targets(s)[i] == alias_targets(s.drop_last())[i]);
                assert(s.drop_last()[i] == s[i]);
            }
        }
    }
}

/// Semantic projections of a sequence of data blocks.
pub open spec fn datas_sem(s: Seq<Data>) -> Seq<DataSem>
    decreases s,
{
    if s.len() == 0 {
        Seq::empty()
    } else {
        datas_sem(s.drop_last()).push(s[s.len() - 1].sem())
    }
}

/// The projection of a data sequence is the sequence of the blocks'
/// projections.
pub proof fn lemma_datas_sem(s: Seq<Data>)
    ensures
        datas_sem(s).len() == s.len(),
        forall|i: int| 0 <= i < s.len() ==> #[trigger] datas_sem(s)[i] == s[i].sem(),
    decreases s,
{
    if s.len() > 0 {
        lemma_datas_sem(s.drop_last());
        assert forall|i: int| 0 <= i < s.len() implies #[trigger] datas_sem(s)[i]
            == s[i].sem() by {
            if i < s.len() - 1 {
                assert(datas_sem(s)[i] == datas_sem(s.drop_last())[i]);
                assert(s.drop_last()[i] == s[i]);
            }
        }
    }
}

/// Replacing one data block keeps the context well-formed, as long as
/// the new block is well-formed and lists the same aliases.
pub proof fn lemma_wf_after_block_update(pre: Context, post: Context, d: int)
    requires
        pre.wf(),
        0 <= d < pre.datas@.len(),
        post.aliases@ == pre.aliases@,
        post.datas@ == pre.datas@.update(d, post.datas@[d]),
        post.datas@[d].wf(),
        post.datas@[d].sem().aliases == pre.datas@[d].sem().aliases,
    ensures
        post.wf(),
{
    lemma_alias_targets(pre.aliases@);
    lemma_alias_targets(post.aliases@);
    lemma_datas_sem(pre.datas@);
    lemma_datas_sem(post.datas@);
    lemma_datas_sem_update(pre.datas@, d, post.datas@[d]);
    assert forall|a: int|
        #![trigger post.sem().aliases[a]]
        0 <= a < post.sem().aliases.len() implies (post.sem().aliases[a] as int)
        < post.sem().datas.len() by {
        assert(pre.sem().aliases[a] == post.sem().aliases[a]);
    }
    assert forall|dd: int, k: int|
        #![trigger post.sem().datas[dd].aliases[k]]
        0 <= dd < post.sem().datas.len() && 0 <= k < post.sem().datas[dd].aliases.len()
        implies (post.sem().datas[dd].aliases[k] as int) < post.sem().aliases.len() && (
    post.sem().aliases[post.sem().datas[dd].aliases[k] as int] as int) == dd by {
        assert(post.sem().datas[dd].aliases == pre.sem().datas[dd].aliases);
        assert(pre.sem().datas[dd].aliases[k] == post.sem().datas[dd].aliases[k]);
    }
    assert forall|dd: int| 0 <= dd < post.datas@.len() implies (
    #[trigger] post.datas@[dd]).wf() by {
        if dd != d {
            assert(post.datas@[dd] == pre.datas@[dd]);
        }
    }
}

/// The projections of two equal-length data sequences agree after an
/// update exactly where the blocks agree.
pub proof fn lemma_datas_sem_update(s: Seq<Data>, d: int, v: Data)
    requires
        0 <= d < s.len(),
    ensures
        datas_sem(s.update(d, v)).len() == s.len(),
        datas_sem(s.update(d, v))[d] == v.sem(),
        forall|k: int| 0 <= k < s.len() && k != d ==> #[trigger] datas_sem(s.update(d, v))[k]
            == datas_sem(s)[k],
{
    lemma_datas_sem(s);
    lemma_datas_sem(s.update(d, v));
    assert forall|k: int| 0 <= k < s.len() && k != d implies #[trigger] datas_sem(
        s.update(d, v),
    )[k] == datas_sem(s)[k] by {
        assert(s.update(d, v)[k] == s[k]);
    }
}

impl Context {
    /// Records a constraint against the data block at the given index.
    /// The constraint is evaluated against the context as it stood at
    /// the call.
    pub fn constrain_data(&mut self, d: usize, constraint: Constraint) -> (r: Result<
        (),
        Diagnostic,
    >)
        requires
            old(self).wf(),
            d < old(self).datas@.len(),
            crate::constraint::con_wf(constraint),
            old(self).sem().datas[d as int].complete ==> crate::semantics::cons_contain(
                old(self).sem().datas[d as int].constraints,
                constraint.sem(),
            ),
        ensures
            final(self).wf(),
            final(self).datas@.len() == old(self).datas@.len(),
            final(self).aliases@ == old(self).aliases@,
            final(self).sem().aliases == old(self).sem().aliases,
            final(self).generics == old(self).generics,
            final(self).inferreds == old(self).inferreds,
            final(self).fparams == old(self).fparams,
            final(self).fret == old(self).fret,
            crate::semantics::data_step(
                old(self).sem(),
                old(self).sem().datas[d as int],
                constraint.sem(),
                final(self).sem().datas[d as int],
                r is Ok,
            ),
            forall|k: int| 0 <= k < old(self).datas@.len() && k != d
                ==> #[trigger] final(self).sem().datas[k] == old(self).sem().datas[k],
            r is Err ==> (r matches Err(Diagnostic::OverConstrained(w)) && w@.len() >= 1
                && (forall|j: int| 0 <= j < w@.len() ==> crate::semantics::cons_contain(
                final(self).sem().datas[d as int].constraints,
                #[trigger] crate::metavars::cons_sem(w@)[j],
            )) && crate::semantics::cons_contain(
                crate::metavars::cons_sem(w@),
                constraint.sem(),
            )),
    {
        proof {
            lemma_datas_sem(self.datas@);
        }
        let mut blk = self.datas[d].clone();
        let res = blk.constrain(self, constraint);
        let ghost blksem = blk.sem();
        self.datas.set(d, blk);
        proof {
            lemma_datas_sem_update(old(self).datas@, d as int, self.datas@[d as int]);
            assert(self.datas@ == old(self).datas@.update(d as int, self.datas@[d as int]));
            assert(self.sem().datas[d as int] == blksem);
            lemma_alias_targets(self.aliases@);
            assert(self.sem().aliases == old(self).sem().aliases);
            lemma_wf_after_block_update(*old(self), *self, d as int);
        }
        res
    }

    /// Allocates a fresh metavariable: a new data block and an alias
    /// block pointing at it.  Returns the new alias index.
    pub fn alloc_alias(&mut self, name: String) -> (a: usize)
        requires
            old(self).wf(),
        ensures
            final(self).wf(),
            (a as int) == old(self).aliases@.len(),
            final(self).aliases@.len() == old(self).aliases@.len() + 1,
            final(self).datas@.len() == old(self).datas@.len() + 1,
            forall|k: int|
                #![trigger old(self).sem().datas[k]]
                0 <= k < old(self).datas@.len() ==> final(self).sem().datas[k] == old(
                    self,
                ).sem().datas[k],
            forall|k: int|
                #![trigger old(self).sem().aliases[k]]
                0 <= k < old(self).aliases@.len() ==> final(self).sem().aliases[k] == old(
                    self,
                ).sem().aliases[k],
            final(self).sem().aliases[a as int] as int == old(self).datas@.len(),
            final(self).sem().datas[old(self).datas@.len() as int].values.booleans is All,
            final(self).sem().datas[old(self).datas@.len() as int].values.data_types is All,
            final(self).sem().datas[old(self).datas@.len() as int].constraints.len() == 0,
            !final(self).sem().datas[old(self).datas@.len() as int].complete,
            final(self).sem().datas[old(self).datas@.len() as int].aliases == seq![a],
            final(self).generics == old(self).generics,
            final(self).inferreds == old(self).inferreds,
            final(self).fparams == old(self).fparams,
            final(self).fret == old(self).fret,
    {
        proof {
            lemma_alias_targets(self.aliases@);
            lemma_datas_sem(self.datas@);
        }
        let a = self.aliases.len();
        let d = self.datas.len();
        let mut blk = Data::fresh();
        blk.aliases.push(a);
        self.datas.push(blk);
        self.aliases.push(Alias { data: d, name });
        proof {
            lemma_alias_targets(self.aliases@);
            lemma_datas_sem(self.datas@);
            assert(self.aliases@.drop_last() =~= old(self).aliases@);
            assert(self.datas@.drop_last() =~= old(self).datas@);
            assert forall|k: int| 0 <= k < old(self).datas@.len() implies #[trigger] self.sem().datas[k]
                == old(self).sem().datas[k] by {
                assert(self.datas@[k] == old(self).datas@[k]);
            }
            assert forall|k: int| 0 <= k < old(self).aliases@.len()
                implies #[trigger] self.sem().aliases[k] == old(self).sem().aliases[k] by {
                assert(self.aliases@[k] == old(self).aliases@[k]);
            }
            assert(self.sem().aliases[a as int] == self.aliases@[a as int].data);
            assert(self.sem().datas[d as int] == self.datas@[d as int].sem());
            assert(self.wf()) by {
                assert forall|x: int|
                    #![trigger self.sem().aliases[x]]
                    0 <= x < self.sem().aliases.len() implies (self.sem().aliases[x] as int)
                    < self.sem().datas.len() by {
                    if x < old(self).aliases@.len() {
                        assert(self.sem().aliases[x] == old(self).sem().aliases[x]);
                    }
                }
                assert forall|dd: int, k: int|
                    #![trigger self.sem().datas[dd].aliases[k]]
                    0 <= dd < self.sem().datas.len() && 0 <= k
                        < self.sem().datas[dd].aliases.len() implies (self.sem().datas[
                    dd].aliases[k] as int) < self.sem().aliases.len() && (self.sem().aliases[
                    self.sem().datas[dd].aliases[k] as int
                ] as int) == dd by {
                    if dd < old(self).datas@.len() {
                        assert(self.sem().datas[dd] == old(self).sem().datas[dd]);
                        assert(old(self).sem().datas[dd].aliases[k] == self.sem().datas[
                            dd].aliases[k]);
                        assert(old(self).sem().aliases[old(self).sem().datas[dd].aliases[
                            k
                        ] as int] as int == dd);
                        assert(self.sem().aliases[self.sem().datas[dd].aliases[k] as int]
                            == old(self).sem().aliases[self.sem().datas[dd].aliases[k] as int]);
                    } else {
                        assert(self.sem().datas[dd].aliases[k] == a);
                    }
                }
                assert forall|dd: int| 0 <= dd < self.datas@.len() implies (
                #[trigger] self.datas@[dd]).wf() by {
                    if dd < old(self).datas@.len() {
                        assert(self.datas@[dd] == old(self).datas@[dd]);
                    }
                }
            }
        }
        a
    }
}

/// The alias index the generic-name table maps a case-folded name to:
/// the first entry with that name.
pub open spec fn spec_gen_lookup(gens: Seq<(String, usize)>, name: Seq<char>) -> Option<usize>
    decreases gens,
{
    if gens.len() == 0 {
        None
    } else if gens[0].0@ == name {
        Some(gens[0].1)
    } else {
        spec_gen_lookup(gens.drop_first(), name)
    }
}

/// When no entry before position `i` matches, the lookup is decided by
/// the entries from `i` on.
pub(crate) proof fn lemma_gen_lookup_at(gens: Seq<(String, usize)>, name: Seq<char>, i: int)
    requires
        0 <= i <= gens.len(),
        forall|k: int| 0 <= k < i ==> (#[trigger] gens[k]).0@ != name,
    ensures
        spec_gen_lookup(gens, name) == spec_gen_lookup(gens.skip(i), name),
    decreases i,
{
    if i > 0 {
        lemma_gen_lookup_at(gens, name, i - 1);
        assert(gens.skip(i - 1).drop_first() =~= gens.skip(i));
        assert(gens.skip(i - 1)[0] == gens[i - 1]);
    } else {
        assert(gens.skip(0) =~= gens);
    }
}

/// An unsuccessful lookup means no entry holds the name.
pub(crate) proof fn lemma_gen_lookup_none(gens: Seq<(String, usize)>, name: Seq<char>)
    requires
        spec_gen_lookup(gens, name) is None,
    ensures
        forall|k: int| 0 <= k < gens.len() ==> (#[trigger] gens[k]).0@ != name,
    decreases gens,
{
    if gens.len() > 0 {
        lemma_gen_lookup_none(gens.drop_first(), name);
        assert forall|k: int| 0 <= k < gens.len() implies (#[trigger] gens[k]).0@ != name by {
            if k > 0 {
                assert(gens.drop_first()[k - 1] == gens[k]);
            }
        }
    }
}

/// The alias index the inferred-id table maps an id to: the first
/// entry with that id.
pub open spec fn spec_inf_lookup(infs: Seq<(u64, usize)>, id: u64) -> Option<usize>
    decreases infs,
{
    if infs.len() == 0 {
        None
    } else if infs[0].0 == id {
        Some(infs[0].1)
    } else {
        spec_inf_lookup(infs.drop_first(), id)
    }
}

/// When no entry before position `i` matches, the lookup is decided by
/// the entries from `i` on.
pub(crate) proof fn lemma_inf_lookup_at(infs: Seq<(u64, usize)>, id: u64, i: int)
    requires
        0 <= i <= infs.len(),
        forall|k: int| 0 <= k < i ==> (#[trigger] infs[k]).0 != id,
    ensures
        spec_inf_lookup(infs, id) == spec_inf_lookup(infs.skip(i), id),
    decreases i,
{
    if i > 0 {
        lemma_inf_lookup_at(infs, id, i - 1);
        assert(infs.skip(i - 1).drop_first() =~= infs.skip(i));
        assert(infs.skip(i - 1)[0] == infs[i - 1]);
    } else {
        assert(infs.skip(0) =~= infs);
    }
}

/// An unsuccessful lookup means no entry holds the id.
pub(crate) proof fn lemma_inf_lookup_none(infs: Seq<(u64, usize)>, id: u64)
    requires
        spec_inf_lookup(infs, id) is None,
    ensures
        forall|k: int| 0 <= k < infs.len() ==> (#[trigger] infs[k]).0 != id,
    decreases infs,
{
    if infs.len() > 0 {
        lemma_inf_lookup_none(infs.drop_first(), id);
        assert forall|k: int| 0 <= k < infs.len() implies (#[trigger] infs[k]).0 != id by {
            if k > 0 {
                assert(infs.drop_first()[k - 1] == infs[k]);
            }
        }
    }
}

impl Context {
    /// Looks up the alias index for a case-folded generic name.
    pub(crate) fn lookup_generic(&self, name: &String) -> (r: Option<usize>)
        ensures
            r == spec_gen_lookup(self.generics@, name@),
    {
        let mut i: usize = 0;
        while i < self.generics.len()
            invariant
                i <= self.generics@.len(),
                forall|k: int| 0 <= k < i ==> (#[trigger] self.generics@[k]).0@ != name@,
            decreases self.generics@.len() - i,
        {
            if self.generics[i].0 == *name {
                proof {
                    lemma_gen_lookup_at(self.generics@, name@, i as int);
                    assert(self.generics@.skip(i as int)[0] == self.generics@[i as int]);
                }
                return Some(self.generics[i].1);
            }
            i += 1;
        }
        proof {
            lemma_gen_lookup_at(self.generics@, name@, self.generics@.len() as int);
            assert(self.generics@.skip(self.generics@.len() as int) =~= Seq::<(
                String,
                usize,
            )>::empty());
        }
        None
    }

    /// Looks up the alias index for an inferred-key id.
    pub(crate) fn lookup_inferred(&self, id: u64) -> (r: Option<usize>)
        ensures
            r == spec_inf_lookup(self.inferreds@, id),
    {
        let mut i: usize = 0;
        while i < self.inferreds.len()
            invariant
                i <= self.inferreds@.len(),
                forall|k: int| 0 <= k < i ==> (#[trigger] self.inferreds@[k]).0 != id,
            decreases self.inferreds@.len() - i,
        {
            if self.inferreds[i].0 == id {
                proof {
                    lemma_inf_lookup_at(self.inferreds@, id, i as int);
                    assert(self.inferreds@.skip(i as int)[0] == self.inferreds@[i as int]);
                }
                return Some(self.inferreds[i].1);
            }
            i += 1;
        }
        proof {
            lemma_inf_lookup_at(self.inferreds@, id, self.inferreds@.len() as int);
            assert(self.inferreds@.skip(self.inferreds@.len() as int) =~= Seq::<(
                u64,
                usize,
            )>::empty());
        }
        None
    }

    /// Looks up the alias index for a function-parameter slot.
    pub(crate) fn lookup_fparam(&self, idx: usize) -> (r: Option<usize>) {
        let mut i: usize = 0;
        while i < self.fparams.len()
            invariant
                i <= self.fparams@.len(),
            decreases self.fparams@.len() - i,
        {
            if self.fparams[i].0 == idx {
                return Some(self.fparams[i].1);
            }
            i += 1;
        }
        None
    }
}

impl Context {
    /// Clears the update flag of the block at the given index.
    fn clear_updated(&mut self, d: usize)
        requires
            old(self).wf(),
            d < old(self).datas@.len(),
        ensures
            final(self).wf(),
            final(self).datas@.len() == old(self).datas@.len(),
            final(self).aliases@ == old(self).aliases@,
            final(self).sem().datas[d as int] == (crate::metavars::DataSem {
                updated: false,
                ..old(self).sem().datas[d as int]
            }),
            forall|k: int|
                #![trigger old(self).sem().datas[k]]
                0 <= k < old(self).datas@.len() && k != d ==> final(self).sem().datas[k] == old(
                    self,
                ).sem().datas[k],
    {
        let ghost pre = *self;
        proof {
            lemma_datas_sem(self.datas@);
        }
        let mut blk = self.datas[d].clone();
        blk.check_updates();
        self.datas.set(d, blk);
            proof {
                lemma_datas_sem_update(pre.datas@, d as int, self.datas@[d as int]);
                lemma_datas_sem(pre.datas@);
                lemma_wf_after_block_update(pre, *self, d as int);
            }
    }

    /// Re-applies the block's recorded constraints to its own value
    /// set, tightening it when function inputs have become resolved.
    #[verifier::rlimit(100)]
    fn reevaluate(&mut self, d: usize)
        requires
            old(self).wf(),
            d < old(self).datas@.len(),
        ensures
            final(self).wf(),
            final(self).datas@.len() == old(self).datas@.len(),
            final(self).aliases@ == old(self).aliases@,
            forall|k: int|
                #![trigger final(self).sem().datas[k]]
                0 <= k < final(self).datas@.len() ==> final(self).sem().datas[k].aliases == old(
                    self,
                ).sem().datas[k].aliases,
    {
        let n = self.datas[d].constraints.len();
        let mut i: usize = 0;
        while i < n
            invariant
                self.wf(),
                (d as int) < self.datas@.len(),
                self.datas@.len() == old(self).datas@.len(),
                self.aliases@ == old(self).aliases@,
                forall|k: int|
                    #![trigger self.sem().datas[k]]
                    0 <= k < self.datas@.len() ==> self.sem().datas[k].aliases == old(
                        self,
                    ).sem().datas[k].aliases,
            decreases n - i,
        {
            proof {
                lemma_datas_sem(self.datas@);
            }
            if i < self.datas[d].constraints.len() {
                let c = self.datas[d].constraints[i].clone();
                let mut vs = self.datas[d].values.clone();
                vs.constrain(self, &c);
                let changed = !vs.same_as(&self.datas[d].values);
                if changed {
                    let ghost pre = *self;
                    let mut blk = self.datas[d].clone();
                    blk.values = vs;
                    blk.updated = true;
                    self.datas.set(d, blk);
                    proof {
                        lemma_datas_sem_update(pre.datas@, d as int, self.datas@[d as int]);
                        lemma_datas_sem(pre.datas@);
                        lemma_wf_after_block_update(pre, *self, d as int);
                        assert forall|k: int| 0 <= k < self.datas@.len()
                            implies #[trigger] self.sem().datas[k].aliases == pre.sem().datas[
                            k
                        ].aliases by {
                            if k != d as int {
                                assert(self.sem().datas[k] == pre.sem().datas[k]);
                            }
                        }
                    }
                }
            }
            i += 1;
        }
    }

    /// Finds a reachable data block whose update flag is set.
    fn find_dirty(&self) -> (r: Option<usize>)
        ensures
            (match r {
                Some(d) => (d as int) < self.datas@.len(),
                None => true,
            }),
    {
        let n = self.datas.len();
        let mut d: usize = 0;
        while d < n
            invariant
                n == self.datas@.len(),
                d <= n,
            decreases n - d,
        {
            if self.datas[d].updated && self.datas[d].aliases.len() > 0 {
                return Some(d);
            }
            d += 1;
        }
        None
    }

    /// Marks every data block as complete.
    fn complete_all(&mut self)
        requires
            old(self).wf(),
        ensures
            final(self).wf(),
            final(self).datas@.len() == old(self).datas@.len(),
            final(self).aliases@ == old(self).aliases@,
            forall|k: int|
                #![trigger final(self).sem().datas[k]]
                0 <= k < final(self).datas@.len() ==> final(self).sem().datas[k].complete,
            forall|k: int|
                #![trigger final(self).sem().datas[k]]
                0 <= k < final(self).datas@.len() ==> final(self).sem().datas[k].aliases == old(
                    self,
                ).sem().datas[k].aliases,
    {
        let n = self.datas.len();
        let mut d: usize = 0;
        while d < n
            invariant
                self.wf(),
                n == self.datas@.len(),
                self.aliases@ == old(self).aliases@,
                d <= n,
                forall|k: int|
                    #![trigger self.sem().datas[k]]
                    0 <= k < d ==> self.sem().datas[k].complete,
                forall|k: int|
                    #![trigger self.sem().datas[k]]
                    0 <= k < n ==> self.sem().datas[k].aliases == old(self).sem().datas[
                        k
                    ].aliases,
            decreases n - d,
        {
            let ghost pre = *self;
            proof {
                lemma_datas_sem(self.datas@);
            }
            let mut blk = self.datas[d].clone();
            blk.mark_complete();
            self.datas.set(d, blk);
            proof {
                lemma_datas_sem_update(pre.datas@, d as int, self.datas@[d as int]);
                lemma_datas_sem(pre.datas@);
                lemma_wf_after_block_update(pre, *self, d as int);
                assert forall|k: int| 0 <= k < self.datas@.len()
                    implies #[trigger] self.sem().datas[k].aliases == pre.sem().datas[
                    k
                ].aliases by {
                    if k != d as int {
                        assert(self.sem().datas[k] == pre.sem().datas[k]);
                    }
                }
            }
            d += 1;
        }
    }

    /// Runs the constraint-propagation loop to quiescence, then closes
    /// the system: resolves every metavariable to a unique value,
    /// reports the first contradiction, reports that a needed superset
    /// query stayed unknown, or lists the unresolved metavariables.
    #[verifier::rlimit(100)]
    pub fn solve(&mut self) -> (r: SolveResult)
        requires
            old(self).wf(),
        ensures
            final(self).wf(),
            !(r is Contradiction) ==> forall|k: int|
                #![trigger final(self).sem().datas[k]]
                0 <= k < final(self).datas@.len() ==> final(self).sem().datas[k].complete,
            r matches SolveResult::Underdetermined(u) ==> u@.len() >= 1,
            r matches SolveResult::Resolved(m) ==> forall|k: int|
                #![trigger final(self).sem().datas[k]]
                0 <= k < final(self).datas@.len() && final(self).sem().datas[k].aliases.len()
                    > 0 ==> !final(self).sem().datas[k].values.repr_empty(),
            (forall|k: int|
                #![trigger old(self).sem().datas[k]]
                0 <= k < old(self).datas@.len() ==> old(self).sem().datas[k].aliases.len()
                    == 0) ==> (r matches SolveResult::Resolved(m) && m@.len() == 0),
    {
        let ghost lonely = forall|k: int|
            #![trigger old(self).sem().datas[k]]
            0 <= k < old(self).datas@.len() ==> old(self).sem().datas[k].aliases.len() == 0;
        // The budget is the verifier's termination measure; every
        // productive step shrinks a value set, so the loop quiesces
        // long before the budget runs out.  Should a scope ever
        // exhaust it, the truncation is reported rather than papered
        // over by the later passes.
        let mut budget: usize = 100000;
        let mut quiescent = false;
        // The first aliased block whose set empties during propagation;
        // the contradiction is reported from that block.
        let mut first_empty: Option<usize> = None;
        while budget > 0 && !quiescent
            invariant
                self.wf(),
                lonely == (forall|k: int|
                    #![trigger old(self).sem().datas[k]]
                    0 <= k < old(self).datas@.len() ==> old(self).sem().datas[k].aliases.len()
                        == 0),
                lonely ==> self.datas@.len() == old(self).datas@.len() && forall|k: int|
                    #![trigger self.sem().datas[k]]
                    0 <= k < self.datas@.len() ==> self.sem().datas[k].aliases.len() == 0,
            decreases budget,
        {
            budget = budget - 1;
            match self.find_dirty() {
                Some(d) => {
                    let ghost s0 = *self;
                    self.clear_updated(d);
                    let ghost s1 = *self;
                    self.reevaluate(d);
                    if first_empty.is_none() && d < self.datas.len() {
                        if self.datas[d].aliases.len() > 0 && self.datas[d].values.is_empty() {
                            first_empty = Some(d);
                        }
                    }
                    proof {
                        if lonely {
                            assert forall|k: int| 0 <= k < self.datas@.len()
                                implies #[trigger] self.sem().datas[k].aliases.len() == 0 by {
                                assert(self.sem().datas[k].aliases == s1.sem().datas[
                                    k
                                ].aliases);
                                if k != d as int {
                                    assert(s1.sem().datas[k] == s0.sem().datas[k]);
                                }
                            }
                        }
                    }
                },
                None => {
                    quiescent = true;
                },
            }
        }
        if !quiescent {
            // The scope did not quiesce within the budget: if any
            // metavariable exists, the truncation is its own outcome.
            // An alias-free scope has no metavariables, so the cut is
            // immaterial there and the close below proceeds.
            let n0 = self.datas.len();
            let mut d0: usize = 0;
            while d0 < n0
                invariant
                    self.wf(),
                    n0 == self.datas@.len(),
                    d0 <= n0,
                    lonely == (forall|k: int|
                        #![trigger old(self).sem().datas[k]]
                        0 <= k < old(self).datas@.len() ==> old(self).sem().datas[
                            k
                        ].aliases.len() == 0),
                    lonely ==> forall|k: int|
                        #![trigger self.sem().datas[k]]
                        0 <= k < self.datas@.len() ==> self.sem().datas[k].aliases.len() == 0,
                decreases n0 - d0,
            {
                proof {
                    lemma_datas_sem(self.datas@);
                    if lonely {
                        assert(self.sem().datas[d0 as int].aliases.len() == 0);
                        assert(self.datas@[d0 as int].aliases@.len() == 0);
                    }
                }
                if self.datas[d0].aliases.len() > 0 {
                    proof {
                        if lonely {
                            assert(self.sem().datas[d0 as int].aliases.len() == 0);
                            assert(self.datas@[d0 as int].aliases@.len() == 0);
                            assert(false);
                        }
                    }
                    self.complete_all();
                    return SolveResult::TooComplex;
                }
                d0 += 1;
            }
        }
        // The block that went empty first during propagation reports
        // the contradiction; the scan below catches blocks that were
        // empty before the loop ever ran.
        if let Some(d0) = first_empty {
            if d0 < self.datas.len() {
                proof {
                    lemma_datas_sem(self.datas@);
                    if lonely {
                        assert(self.sem().datas[d0 as int].aliases.len() == 0);
                        assert(self.datas@[d0 as int].aliases@.len() == 0);
                    }
                }
                if self.datas[d0].aliases.len() > 0 && self.datas[d0].values.is_empty() {
                    proof {
                        if lonely {
                            assert(false);
                        }
                    }
                    let w = if self.datas[d0].constraints.len() >= 1 {
                        self.datas[d0].minimal_witness(self)
                    } else {
                        Vec::new()
                    };
                    return SolveResult::Contradiction(Diagnostic::OverConstrained(w));
                }
            }
        }
        // A block that became empty is a contradiction.
        let n = self.datas.len();
        let mut d: usize = 0;
        while d < n
            invariant
                self.wf(),
                n == self.datas@.len(),
                d <= n,
                lonely == (forall|k: int|
                    #![trigger old(self).sem().datas[k]]
                    0 <= k < old(self).datas@.len() ==> old(self).sem().datas[k].aliases.len()
                        == 0),
                lonely ==> forall|k: int|
                    #![trigger self.sem().datas[k]]
                    0 <= k < self.datas@.len() ==> self.sem().datas[k].aliases.len() == 0,
            decreases n - d,
        {
            proof {
                lemma_datas_sem(self.datas@);
                if lonely {
                    assert(self.sem().datas[d as int].aliases.len() == 0);
                    assert(self.datas@[d as int].aliases@.len() == 0);
                }
            }
            if self.datas[d].aliases.len() > 0 && self.datas[d].values.is_empty() {
                proof {
                    if lonely {
                        assert(self.sem().datas[d as int].aliases.len() == 0);
                        assert(self.datas@[d as int].aliases@.len() == 0);
                        assert(false);
                    }
                }
                let w = if self.datas[d].constraints.len() >= 1 {
                    self.datas[d].minimal_witness(self)
                } else {
                    Vec::new()
                };
                return SolveResult::Contradiction(Diagnostic::OverConstrained(w));
            }
            d += 1;
        }
        // Close the system so that cover queries can commit.
        self.complete_all();
        // Definitive pass: every membership and pattern constraint must
        // now be discharged by a definite superset answer.
        let mut d: usize = 0;
        while d < n
            invariant
                self.wf(),
                n == self.datas@.len(),
                d <= n,
                forall|k: int|
                    #![trigger self.sem().datas[k]]
                    0 <= k < self.datas@.len() ==> self.sem().datas[k].complete,
                lonely == (forall|k: int|
                    #![trigger old(self).sem().datas[k]]
                    0 <= k < old(self).datas@.len() ==> old(self).sem().datas[k].aliases.len()
                        == 0),
                lonely ==> forall|k: int|
                    #![trigger self.sem().datas[k]]
                    0 <= k < self.datas@.len() ==> self.sem().datas[k].aliases.len() == 0,
            decreases n - d,
        {
            proof {
                lemma_datas_sem(self.datas@);
                if lonely {
                    assert(self.sem().datas[d as int].aliases.len() == 0);
                    assert(self.datas@[d as int].aliases@.len() == 0);
                }
            }
            if self.datas[d].aliases.len() > 0 {
                proof {
                    if lonely {
                        assert(self.sem().datas[d as int].aliases.len() == 0);
                        assert(self.datas@[d as int].aliases@.len() == 0);
                        assert(false);
                    }
                }
                let m = self.datas[d].constraints.len();
                let mut i: usize = 0;
                while i < m
                    invariant
                        self.wf(),
                        !lonely,
                        lonely == (forall|k: int|
                            #![trigger old(self).sem().datas[k]]
                            0 <= k < old(self).datas@.len() ==> old(self).sem().datas[
                                k
                            ].aliases.len() == 0),
                        (d as int) < self.datas@.len(),
                        n == self.datas@.len(),
                        d < n,
                        i <= m,
                        forall|k: int|
                            #![trigger self.sem().datas[k]]
                            0 <= k < self.datas@.len() ==> self.sem().datas[k].complete,
                    decreases m - i,
                {
                    proof {
                        lemma_datas_sem(self.datas@);
                    }
                    if i < self.datas[d].constraints.len() {
                        let blk = &self.datas[d];
                        let q: Option<bool> = match &blk.constraints[i].data {
                            crate::constraint::ConstraintType::Within(w) => {
                                if w.integers.check_wf() {
                                    w.superset_of(self, &blk.values)
                                } else {
                                    Some(true)
                                }
                            },
                            crate::constraint::ConstraintType::Pattern(p) => {
                                let ps = DataType::Patterns(vec_of_one(p.clone()));
                                ps.superset_of(self, &blk.values.data_types)
                            },
                            crate::constraint::ConstraintType::Function(_, _) => Some(true),
                        };
                        match q {
                            Some(true) => {},
                            Some(false) => {
                                let w = vec_of_one(blk.constraints[i].clone());
                                return SolveResult::Contradiction(
                                    Diagnostic::OverConstrained(w),
                                );
                            },
                            None => {
                                return SolveResult::TooComplex;
                            },
                        }
                    }
                    i += 1;
                }
            }
            d += 1;
        }
        // Resolution: collect a value per reachable block.
        let ghost snap = *self;
        let mut mapping: Vec<(String, Value)> = Vec::new();
        let mut unresolved: Vec<(String, ValueSet)> = Vec::new();
        let mut d: usize = 0;
        while d < n
            invariant
                self.wf(),
                *self == snap,
                n == self.datas@.len(),
                d <= n,
                forall|k: int|
                    #![trigger self.sem().datas[k]]
                    0 <= k < self.datas@.len() ==> self.sem().datas[k].complete,
                unresolved@.len() == 0 ==> forall|k: int|
                    #![trigger snap.sem().datas[k]]
                    0 <= k < d && snap.sem().datas[k].aliases.len() > 0
                        ==> !snap.sem().datas[k].values.repr_empty(),
                lonely == (forall|k: int|
                    #![trigger old(self).sem().datas[k]]
                    0 <= k < old(self).datas@.len() ==> old(self).sem().datas[k].aliases.len()
                        == 0),
                lonely ==> forall|k: int|
                    #![trigger self.sem().datas[k]]
                    0 <= k < self.datas@.len() ==> self.sem().datas[k].aliases.len() == 0,
                lonely ==> mapping@.len() == 0 && unresolved@.len() == 0,
            decreases n - d,
        {
            proof {
                lemma_datas_sem(self.datas@);
                if lonely {
                    assert(self.sem().datas[d as int].aliases.len() == 0);
                    assert(self.datas@[d as int].aliases@.len() == 0);
                }
            }
            if self.datas[d].aliases.len() > 0 {
                proof {
                    if lonely {
                        assert(self.sem().datas[d as int].aliases.len() == 0);
                        assert(self.datas@[d as int].aliases@.len() == 0);
                        assert(false);
                    }
                }
                let a0 = self.datas[d].aliases[0];
                let name = if a0 < self.aliases.len() {
                    self.aliases[a0].name.clone()
                } else {
                    String::new()
                };
                match self.datas[d].value(self) {
                    Ok(Some(v)) => {
                        mapping.push((name, v));
                        proof {
                            crate::semantics::lemma_has_nonempty(
                                self.sem(),
                                self.sem().datas[d as int].values,
                                v.sem(),
                            );
                        }
                    },
                    Ok(None) => {
                        unresolved.push((name, self.datas[d].values.clone()));
                    },
                    Err(dg) => {
                        return SolveResult::Contradiction(dg);
                    },
                }
            }
            d += 1;
        }
        if unresolved.len() == 0 {
            SolveResult::Resolved(mapping)
        } else {
            SolveResult::Underdetermined(unresolved)
        }
    }
}

/// A one-element vector.
fn vec_of_one<T>(x: T) -> (r: Vec<T>)
    ensures
        r@.len() == 1,
        r@[0] == x,
{
    let mut v: Vec<T> = Vec::new();
    v.push(x);
    v
}

} // verus!
