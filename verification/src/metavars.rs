//! Metavariable storage: alias blocks and data blocks.
//!
//! A [`Data`] block backs one metavariable: its recorded constraints,
//! its current value set, the aliases that point at it, and the update
//! and completion flags.  An [`Alias`] block is one named occurrence of
//! a metavariable; equality-merging redirects aliases so that several
//! occurrences share a data block.

use crate::constraint::Constraint;
use crate::constraint::ConstraintSem;
use crate::constraint::con_wf;
use crate::context::Context;
use crate::diag::Diagnostic;
use crate::semantics::spec_vset_has;
use crate::valueset::Value;
use crate::valueset::VSetSem;
use crate::valueset::ValueSet;
use vstd::prelude::*;

verus! {

/// A named occurrence of a metavariable, pointing at its data block.
#[derive(Debug)]
pub struct Alias {
    /// Index of the data block in the context.
    pub data: usize,
    /// Display name of this occurrence.
    pub name: String,
}

/// Ghost projection of a data block.
pub ghost struct DataSem {
    /// Indices of the aliases pointing at this block.
    pub aliases: Seq<usize>,
    /// Projections of the recorded constraints, in insertion order.
    pub constraints: Seq<ConstraintSem>,
    /// Projection of the current value set.
    pub values: VSetSem,
    /// Whether changes were made since the last poll.
    pub updated: bool,
    /// Whether the block is closed against further constraints.
    pub complete: bool,
}

/// A data block for a metavariable: its constraints and the cached set
/// of values it may still take.
#[derive(Debug)]
pub struct Data {
    /// Indices of all aliases that refer to this data block.
    pub aliases: Vec<usize>,
    /// The constraints on the value of this metavariable, deduplicated,
    /// in insertion order.
    pub constraints: Vec<Constraint>,
    /// The possible values remaining for this metavariable.
    pub values: ValueSet,
    /// Whether changes have been made since the last poll.
    pub updated: bool,
    /// Whether the block is closed: no further constraint may be added,
    /// and `covers` may commit to definite answers.
    pub complete: bool,
}

/// Semantic projections of a sequence of constraints.
pub open spec fn cons_sem(s: Seq<Constraint>) -> Seq<ConstraintSem>
    decreases s,
{
    if s.len() == 0 {
        Seq::empty()
    } else {
        cons_sem(s.drop_last()).push(s[s.len() - 1].sem())
    }
}

/// The projection of a constraint sequence is the sequence of the
/// constraints' projections.
pub proof fn lemma_cons_sem(s: Seq<Constraint>)
    ensures
        cons_sem(s).len() == s.len(),
        forall|i: int| 0 <= i < s.len() ==> #[trigger] cons_sem(s)[i] == s[i].sem(),
    decreases s,
{
    if s.len() > 0 {
        lemma_cons_sem(s.drop_last());
        assert forall|i: int| 0 <= i < s.len() implies #[trigger] cons_sem(s)[i]
            == s[i].sem() by {
            if i < s.len() - 1 {
                assert(cons_sem(s)[i] == cons_sem(s.drop_last())[i]);
                assert(s.drop_last()[i] == s[i]);
            }
        }
    }
}

/// A constraint sequence and its projection grow together under `push`.
pub proof fn lemma_cons_sem_push(s: Seq<Constraint>, c: Constraint)
    ensures
        cons_sem(s.push(c)) == cons_sem(s).push(c.sem()),
{
    assert(s.push(c).drop_last() =~= s);
    assert(s.push(c)[s.push(c).len() - 1] == c);
}

impl Data {
    /// Semantic projection of the block.
    pub open spec fn sem(self) -> DataSem {
        DataSem {
            aliases: self.aliases@,
            constraints: cons_sem(self.constraints@),
            values: self.values.sem(),
            updated: self.updated,
            complete: self.complete,
        }
    }

    /// Whether the value set's integer partition is canonical and every
    /// recorded constraint's embedded sets are well-formed.
    pub open spec fn wf(self) -> bool {
        &&& self.values.wf()
        &&& forall|i: int| 0 <= i < self.constraints@.len() ==> crate::constraint::con_wf(
            #[trigger] self.constraints@[i],
        )
    }

    /// A fresh data block: no constraints, the full value set, no
    /// aliases, marked updated so the solver visits it.
    pub fn fresh() -> (r: Self)
        ensures
            r.wf(),
            r.sem().aliases.len() == 0,
            r.sem().constraints.len() == 0,
            r.sem().values.booleans is All,
            r.sem().values.data_types is All,
            forall|v: int| i64::MIN <= v <= i64::MAX ==> crate::sets::ranges_have(
                r.sem().values.integers,
                v,
            ),
            r.sem().updated,
            !r.sem().complete,
    {
        Data {
            aliases: Vec::new(),
            constraints: Vec::new(),
            values: ValueSet::full(),
            updated: true,
            complete: false,
        }
    }

    /// An inert placeholder block, used while a block is temporarily
    /// moved out of the context.
    pub fn placeholder() -> (r: Self)
        ensures
            r.wf(),
            r.sem().aliases.len() == 0,
            r.sem().constraints.len() == 0,
            !r.sem().updated,
            r.sem().complete,
    {
        Data {
            aliases: Vec::new(),
            constraints: Vec::new(),
            values: ValueSet::empty(),
            updated: false,
            complete: true,
        }
    }

    /// Returns whether there were any updates to the constraints on this
    /// metavariable since the last check, and clears the flag.
    pub fn check_updates(&mut self) -> (r: bool)
        ensures
            r == old(self).sem().updated,
            final(self).sem() == (DataSem { updated: false, ..old(self).sem() }),
            final(self).wf() == old(self).wf(),
    {
        let r = self.updated;
        self.updated = false;
        r
    }

    /// Marks this variable as fully constrained: no further constraints
    /// will be imposed, and `covers` may commit to definite answers.
    /// Idempotent.
    pub fn mark_complete(&mut self)
        ensures
            final(self).sem() == (DataSem { complete: true, ..old(self).sem() }),
            final(self).wf() == old(self).wf(),
    {
        self.complete = true;
    }

    /// Returns whether this value has been completely constrained.
    pub fn is_complete(&self) -> (r: bool)
        ensures
            r == self.sem().complete,
    {
        self.complete
    }
}

impl Data {
    /// Returns whether this metavariable still has the given value as a
    /// possibility.
    pub fn matches(&self, ctx: &Context, value: &Value) -> (r: bool)
        requires
            ctx.wf(),
        ensures
            r == spec_vset_has(ctx.sem(), self.sem().values, value.sem()),
    {
        self.values.contains(ctx, value)
    }
}

impl Clone for Data {
    /// Copies the block; its projection and well-formedness carry over.
    fn clone(&self) -> (res: Self)
        ensures
            res.sem() == self.sem(),
            self.wf() ==> res.wf(),
    {
        let mut aliases: Vec<usize> = Vec::new();
        let mut i: usize = 0;
        while i < self.aliases.len()
            invariant
                i <= self.aliases@.len(),
                aliases@ == self.aliases@.subrange(0, i as int),
            decreases self.aliases@.len() - i,
        {
            aliases.push(self.aliases[i]);
            i += 1;
        }
        proof {
            assert(aliases@ =~= self.aliases@);
        }
        let mut constraints: Vec<Constraint> = Vec::new();
        let mut j: usize = 0;
        while j < self.constraints.len()
            invariant
                j <= self.constraints@.len(),
                constraints@.len() == j,
                forall|k: int| 0 <= k < j ==> (#[trigger] constraints@[k]).sem()
                    == self.constraints@[k].sem() && con_wf(constraints@[k]) == con_wf(
                    self.constraints@[k],
                ),
            decreases self.constraints@.len() - j,
        {
            let c = &self.constraints[j];
            constraints.push(c.clone());
            j += 1;
        }
        proof {
            lemma_cons_sem(constraints@);
            lemma_cons_sem(self.constraints@);
            assert(cons_sem(constraints@) =~= cons_sem(self.constraints@));
            if self.wf() {
                assert forall|k: int| 0 <= k < constraints@.len() implies con_wf(
                    #[trigger] constraints@[k],
                ) by {
                    assert(con_wf(self.constraints@[k]));
                }
            }
        }
        Data {
            aliases,
            constraints,
            values: self.values.clone(),
            updated: self.updated,
            complete: self.complete,
        }
    }
}

impl Data {
    /// Rebuilds a value set from scratch by applying the kept
    /// constraints in order.
    pub(crate) fn replay(&self, ctx: &Context, keep: &Vec<bool>) -> (r: ValueSet)
        requires
            ctx.wf(),
            self.wf(),
            keep@.len() == self.constraints@.len(),
        ensures
            r.wf(),
    {
        let mut vs = ValueSet::full();
        let mut i: usize = 0;
        while i < self.constraints.len()
            invariant
                ctx.wf(),
                self.wf(),
                vs.wf(),
                keep@.len() == self.constraints@.len(),
                i <= self.constraints@.len(),
            decreases self.constraints@.len() - i,
        {
            if keep[i] {
                let c = &self.constraints[i];
                vs.constrain(ctx, c);
            }
            i += 1;
        }
        vs
    }

    /// Greedy shrink: drops recorded constraints one at a time while the
    /// remainder still empties the value set, keeping the newest
    /// constraint.  The result is a subset of the recorded constraints
    /// whose conjunction is unsatisfiable.
    pub(crate) fn minimal_witness(&self, ctx: &Context) -> (r: Vec<Constraint>)
        requires
            ctx.wf(),
            self.wf(),
            self.constraints@.len() >= 1,
        ensures
            r@.len() >= 1,
            forall|j: int| 0 <= j < r@.len() ==> crate::semantics::cons_contain(
                cons_sem(self.constraints@),
                #[trigger] cons_sem(r@)[j],
            ),
            crate::semantics::cons_contain(
                cons_sem(r@),
                cons_sem(self.constraints@)[self.constraints@.len() - 1],
            ),
            exists|m: Seq<int>|
                #![trigger m.len()]
                m.len() == r@.len() && (forall|j1: int, j2: int|
                    0 <= j1 < j2 < m.len() ==> #[trigger] m[j1] < #[trigger] m[j2]) && (forall|
                    j: int,
                |
                    0 <= j < m.len() ==> 0 <= #[trigger] m[j] < self.constraints@.len()
                        && cons_sem(r@)[j] == cons_sem(self.constraints@)[m[j]]),
    {
        let n = self.constraints.len();
        let mut keep: Vec<bool> = Vec::new();
        let mut i: usize = 0;
        while i < n
            invariant
                i <= n,
                keep@.len() == i,
                forall|k: int| 0 <= k < i ==> keep@[k] == true,
            decreases n - i,
        {
            keep.push(true);
            i += 1;
        }
        let mut i: usize = 0;
        while i < n - 1
            invariant
                ctx.wf(),
                self.wf(),
                n == self.constraints@.len(),
                n >= 1,
                i <= n - 1,
                keep@.len() == n,
                keep@[n - 1] == true,
            decreases n - 1 - i,
        {
            keep.set(i, false);
            let s = self.replay(ctx, &keep);
            if !s.is_empty() {
                keep.set(i, true);
            }
            i += 1;
        }
        let mut out: Vec<Constraint> = Vec::new();
        let ghost mut idxs: Seq<int> = Seq::empty();
        let mut i: usize = 0;
        while i < n
            invariant
                n == self.constraints@.len(),
                n >= 1,
                keep@.len() == n,
                keep@[n - 1] == true,
                i <= n,
                forall|j: int| 0 <= j < out@.len() ==> crate::semantics::cons_contain(
                    cons_sem(self.constraints@),
                    #[trigger] cons_sem(out@)[j],
                ),
                (i as int) > n - 1 ==> crate::semantics::cons_contain(
                    cons_sem(out@),
                    cons_sem(self.constraints@)[n - 1],
                ),
                idxs.len() == out@.len(),
                forall|j1: int, j2: int| 0 <= j1 < j2 < idxs.len() ==> #[trigger] idxs[j1]
                    < #[trigger] idxs[j2],
                forall|j: int| 0 <= j < idxs.len() ==> 0 <= #[trigger] idxs[j] < i
                    && cons_sem(out@)[j] == cons_sem(self.constraints@)[idxs[j]],
            decreases n - i,
        {
            if keep[i] {
                let ghost out0 = out@;
                let ghost idxs0 = idxs;
                let c = &self.constraints[i];
                out.push(c.clone());
                proof {
                    idxs = idxs.push(i as int);
                    lemma_cons_sem(self.constraints@);
                    lemma_cons_sem(out@);
                    lemma_cons_sem(out0);
                    assert(cons_sem(out@)[out@.len() - 1] == cons_sem(
                        self.constraints@,
                    )[i as int]);
                    assert forall|j: int| 0 <= j < out@.len()
                        implies crate::semantics::cons_contain(
                        cons_sem(self.constraints@),
                        #[trigger] cons_sem(out@)[j],
                    ) by {
                        if j < out0.len() {
                            assert(cons_sem(out@)[j] == cons_sem(out0)[j]);
                        }
                    }
                    assert forall|j: int| 0 <= j < idxs.len() implies 0 <= #[trigger] idxs[j]
                        < i + 1 && cons_sem(out@)[j] == cons_sem(self.constraints@)[idxs[
                        j
                    ]] by {
                        if j < idxs0.len() {
                            assert(idxs[j] == idxs0[j]);
                            assert(cons_sem(out@)[j] == cons_sem(out0)[j]);
                        } else {
                            assert(idxs[j] == i as int);
                        }
                    }
                }
            }
            i += 1;
        }
        proof {
            lemma_cons_sem(out@);
        }
        if out.len() == 0 {
            let ghost out0 = out@;
            let c = &self.constraints[n - 1];
            out.push(c.clone());
            proof {
                idxs = seq![(n - 1) as int];
                lemma_cons_sem(self.constraints@);
                lemma_cons_sem(out@);
                assert(cons_sem(out@)[0] == cons_sem(self.constraints@)[n - 1]);
            }
        }
        proof {
            assert(idxs.len() == out@.len() && (forall|j1: int, j2: int|
                0 <= j1 < j2 < idxs.len() ==> #[trigger] idxs[j1] < #[trigger] idxs[j2]) && (forall|
                j: int,
            |
                0 <= j < idxs.len() ==> 0 <= #[trigger] idxs[j] < self.constraints@.len()
                    && cons_sem(out@)[j] == cons_sem(self.constraints@)[idxs[j]]));
        }
        out
    }

    /// Further constrains the value.  The constraint is only added if no
    /// structurally equal constraint is recorded yet; when the value set
    /// becomes empty, the constraint is still retained and an
    /// over-constrained diagnostic carrying an unsatisfiable subset of
    /// the recorded constraints is returned.
    pub fn constrain(&mut self, ctx: &Context, constraint: Constraint) -> (r: Result<
        (),
        Diagnostic,
    >)
        requires
            ctx.wf(),
            old(self).wf(),
            con_wf(constraint),
            old(self).sem().complete ==> crate::semantics::cons_contain(
                old(self).sem().constraints,
                constraint.sem(),
            ),
        ensures
            final(self).wf(),
            crate::semantics::data_step(
                ctx.sem(),
                old(self).sem(),
                constraint.sem(),
                final(self).sem(),
                r is Ok,
            ),
            r is Err ==> (r matches Err(Diagnostic::OverConstrained(w)) && w@.len() >= 1
                && (forall|j: int| 0 <= j < w@.len() ==> crate::semantics::cons_contain(
                final(self).sem().constraints,
                #[trigger] cons_sem(w@)[j],
            )) && crate::semantics::cons_contain(cons_sem(w@), constraint.sem())),
    {
        let n = self.constraints.len();
        let mut i: usize = 0;
        while i < n
            invariant
                *self == *old(self),
                self.wf(),
                n == self.constraints@.len(),
                i <= n,
                forall|k: int| 0 <= k < i ==> #[trigger] cons_sem(self.constraints@)[k]
                    != constraint.sem(),
            decreases n - i,
        {
            let c = &self.constraints[i];
            if c.same_as(&constraint) {
                proof {
                    lemma_cons_sem(self.constraints@);
                    assert(cons_sem(self.constraints@)[i as int] == constraint.sem());
                    assert(crate::semantics::cons_contain(
                        self.sem().constraints,
                        constraint.sem(),
                    ));
                }
                return Ok(());
            }
            proof {
                lemma_cons_sem(self.constraints@);
            }
            i += 1;
        }
        proof {
            lemma_cons_sem(self.constraints@);
            assert(!crate::semantics::cons_contain(self.sem().constraints, constraint.sem()));
        }
        let ghost pre = *self;
        let mut vs = self.values.clone();
        vs.constrain(ctx, &constraint);
        self.values = vs;
        self.constraints.push(constraint);
        self.updated = true;
        proof {
            lemma_cons_sem_push(pre.constraints@, self.constraints@[self.constraints@.len() - 1]);
            assert(self.sem().constraints =~= pre.sem().constraints.push(
                self.constraints@[self.constraints@.len() - 1].sem(),
            ));
        }
        if self.values.is_empty() {
            let w = self.minimal_witness(ctx);
            return Err(Diagnostic::OverConstrained(w));
        }
        Ok(())
    }
}

impl Data {
    /// Merges the other data block into this one: takes over its
    /// aliases and replays its constraints, deduplicating as usual.
    /// The first over-constraint diagnostic, if any, is reported after
    /// the whole replay.
    pub fn merge_with(&mut self, ctx: &Context, other: &mut Data) -> (r: Result<(), Diagnostic>)
        requires
            ctx.wf(),
            old(self).wf(),
            old(other).wf(),
            !old(self).sem().complete,
            !old(other).sem().complete,
        ensures
            final(self).wf(),
            final(self).sem().aliases == old(self).sem().aliases + old(other).sem().aliases,
            !final(self).sem().complete,
            final(other).sem().aliases.len() == 0,
            final(other).sem().constraints.len() == 0,
            final(self).sem().constraints.len() >= old(self).sem().constraints.len(),
            forall|k: int|
                #![trigger old(self).sem().constraints[k]]
                0 <= k < old(self).sem().constraints.len() ==> final(self).sem().constraints[k]
                    == old(self).sem().constraints[k],
            forall|k: int|
                #![trigger old(other).sem().constraints[k]]
                0 <= k < old(other).sem().constraints.len() ==> crate::semantics::cons_contain(
                    final(self).sem().constraints,
                    old(other).sem().constraints[k],
                ),
            forall|k: int|
                #![trigger final(self).sem().constraints[k]]
                old(self).sem().constraints.len() <= k < final(self).sem().constraints.len()
                    ==> crate::semantics::cons_contain(
                    old(other).sem().constraints,
                    final(self).sem().constraints[k],
                ),
            forall|b: bool| final(self).sem().values.booleans.has(b) ==> old(
                self,
            ).sem().values.booleans.has(b),
            forall|v: int| crate::sets::ranges_have(final(self).sem().values.integers, v)
                ==> crate::sets::ranges_have(old(self).sem().values.integers, v),
            forall|t: crate::data_type::TypeSem| crate::semantics::spec_dtset_has(
                ctx.sem(),
                final(self).sem().values.data_types,
                t,
            ) ==> crate::semantics::spec_dtset_has(
                ctx.sem(),
                old(self).sem().values.data_types,
                t,
            ),
            ((forall|k: int|
                0 <= k < old(other).sem().constraints.len() ==> (#[trigger] old(
                    other,
                ).sem().constraints[k]).data is Within) && (forall|k: int|
                0 <= k < old(other).sem().constraints.len()
                    ==> !crate::semantics::cons_contain(
                    old(self).sem().constraints,
                    #[trigger] old(other).sem().constraints[k],
                ))) ==> (forall|b: bool|
                final(self).sem().values.booleans.has(b) == (old(
                    self,
                ).sem().values.booleans.has(b) && crate::semantics::within_all_bool(
                    old(other).sem().constraints,
                    b,
                ))) && (forall|v: int|
                crate::sets::ranges_have(final(self).sem().values.integers, v) == (
                crate::sets::ranges_have(old(self).sem().values.integers, v)
                    && crate::semantics::within_all_int(old(other).sem().constraints, v))),
            r is Err ==> (r matches Err(Diagnostic::OverConstrained(w)) && w@.len() >= 1),
    {
        let ghost pre = *self;
        let ghost hyp = (forall|k: int|
            0 <= k < cons_sem(old(other).constraints@).len() ==> (#[trigger] cons_sem(
                old(other).constraints@,
            )[k]).data is Within) && (forall|k: int|
            0 <= k < cons_sem(old(other).constraints@).len()
                ==> !crate::semantics::cons_contain(
                pre.sem().constraints,
                #[trigger] cons_sem(old(other).constraints@)[k],
            ));
        let mut me = self.clone();
        let mut failure: Option<Diagnostic> = None;
        let n = other.constraints.len();
        let mut i: usize = 0;
        while i < n
            invariant
                ctx.wf(),
                me.wf(),
                other.wf(),
                *other == *old(other),
                n == other.constraints@.len(),
                i <= n,
                !me.sem().complete,
                me.sem().aliases == pre.sem().aliases,
                me.sem().constraints.len() >= pre.sem().constraints.len(),
                forall|b: bool| me.sem().values.booleans.has(b)
                    ==> pre.sem().values.booleans.has(b),
                forall|v: int| crate::sets::ranges_have(me.sem().values.integers, v)
                    ==> crate::sets::ranges_have(pre.sem().values.integers, v),
                forall|t: crate::data_type::TypeSem| crate::semantics::spec_dtset_has(
                    ctx.sem(),
                    me.sem().values.data_types,
                    t,
                ) ==> crate::semantics::spec_dtset_has(
                    ctx.sem(),
                    pre.sem().values.data_types,
                    t,
                ),
                (match failure {
                    Some(dd) => dd matches Diagnostic::OverConstrained(w) && w@.len() >= 1,
                    None => true,
                }),
                forall|k: int|
                    #![trigger pre.sem().constraints[k]]
                    0 <= k < pre.sem().constraints.len() ==> me.sem().constraints[k]
                        == pre.sem().constraints[k],
                forall|k: int|
                    #![trigger cons_sem(other.constraints@)[k]]
                    0 <= k < i ==> crate::semantics::cons_contain(
                        me.sem().constraints,
                        cons_sem(other.constraints@)[k],
                    ),
                forall|k: int|
                    #![trigger me.sem().constraints[k]]
                    pre.sem().constraints.len() <= k < me.sem().constraints.len()
                        ==> crate::semantics::cons_contain(
                        cons_sem(other.constraints@),
                        me.sem().constraints[k],
                    ),
                hyp == ((forall|k: int|
                    0 <= k < cons_sem(other.constraints@).len() ==> (#[trigger] cons_sem(
                        other.constraints@,
                    )[k]).data is Within) && (forall|k: int|
                    0 <= k < cons_sem(other.constraints@).len()
                        ==> !crate::semantics::cons_contain(
                        pre.sem().constraints,
                        #[trigger] cons_sem(other.constraints@)[k],
                    ))),
                hyp ==> forall|b: bool|
                    me.sem().values.booleans.has(b) == (pre.sem().values.booleans.has(b)
                        && crate::semantics::within_all_bool(
                        cons_sem(other.constraints@).subrange(0, i as int),
                        b,
                    )),
                hyp ==> forall|v: int|
                    crate::sets::ranges_have(me.sem().values.integers, v) == (
                    crate::sets::ranges_have(pre.sem().values.integers, v)
                        && crate::semantics::within_all_int(
                        cons_sem(other.constraints@).subrange(0, i as int),
                        v,
                    )),
                hyp ==> forall|k: int|
                    #![trigger me.sem().constraints[k]]
                    pre.sem().constraints.len() <= k < me.sem().constraints.len()
                        ==> crate::semantics::cons_contain(
                        cons_sem(other.constraints@).subrange(0, i as int),
                        me.sem().constraints[k],
                    ),
            decreases n - i,
        {
            let ghost looppre = me;
            let c = &other.constraints[i];
            proof {
                lemma_cons_sem(other.constraints@);
            }
            let res = me.constrain(ctx, c.clone());
            if let Err(d) = res {
                if failure.is_none() {
                    failure = Some(d);
                }
            }
            proof {
                lemma_cons_sem(other.constraints@);
                if !crate::semantics::cons_contain(
                    looppre.sem().constraints,
                    other.constraints@[i as int].sem(),
                ) {
                    assert(me.sem().constraints == looppre.sem().constraints.push(
                        other.constraints@[i as int].sem(),
                    ));
                    assert(me.sem().constraints[me.sem().constraints.len() - 1] == cons_sem(
                        other.constraints@,
                    )[i as int]);
                }
                assert forall|k: int|
                    0 <= k < i + 1 implies crate::semantics::cons_contain(
                    me.sem().constraints,
                    #[trigger] cons_sem(other.constraints@)[k],
                ) by {
                    if k < i {
                        let j = choose|j: int|
                            0 <= j < looppre.sem().constraints.len()
                                && #[trigger] looppre.sem().constraints[j] == cons_sem(
                                other.constraints@,
                            )[k];
                        assert(me.sem().constraints[j] == cons_sem(other.constraints@)[k]);
                    } else {
                        if crate::semantics::cons_contain(
                            looppre.sem().constraints,
                            other.constraints@[i as int].sem(),
                        ) {
                            let j = choose|j: int|
                                0 <= j < looppre.sem().constraints.len()
                                    && #[trigger] looppre.sem().constraints[j]
                                    == other.constraints@[i as int].sem();
                            assert(me.sem().constraints[j] == cons_sem(
                                other.constraints@,
                            )[k]);
                        } else {
                            assert(me.sem().constraints[me.sem().constraints.len() - 1]
                                == cons_sem(other.constraints@)[k]);
                        }
                    }
                }
                assert forall|k: int|
                    pre.sem().constraints.len() <= k < me.sem().constraints.len()
                        implies crate::semantics::cons_contain(
                    cons_sem(other.constraints@),
                    #[trigger] me.sem().constraints[k],
                ) by {
                    if k < looppre.sem().constraints.len() {
                        assert(me.sem().constraints[k] == looppre.sem().constraints[k]);
                    } else {
                        assert(me.sem().constraints[k] == cons_sem(
                            other.constraints@,
                        )[i as int]);
                    }
                }
            }
            proof {
                if hyp {
                    lemma_cons_sem(other.constraints@);
                    let cs = cons_sem(other.constraints@);
                    let coni = cs[i as int];
                    let sub0 = cs.subrange(0, i as int);
                    let sub1 = cs.subrange(0, i + 1);
                    assert(coni == other.constraints@[i as int].sem());
                    assert(coni.data is Within);
                    let wv = coni.data->Within_0;
                    assert forall|cc: ConstraintSem| crate::semantics::cons_contain(
                        sub0,
                        cc,
                    ) implies crate::semantics::cons_contain(sub1, cc) by {
                        let j = choose|j: int| 0 <= j < sub0.len() && #[trigger] sub0[j] == cc;
                        assert(sub1[j] == cc);
                    }
                    let dup = crate::semantics::cons_contain(
                        looppre.sem().constraints,
                        coni,
                    );
                    if dup {
                        assert(me.sem() == looppre.sem());
                        let j = choose|j: int|
                            0 <= j < looppre.sem().constraints.len()
                                && #[trigger] looppre.sem().constraints[j] == coni;
                        if j < pre.sem().constraints.len() {
                            assert(pre.sem().constraints[j] == coni);
                            assert(crate::semantics::cons_contain(
                                pre.sem().constraints,
                                coni,
                            ));
                            assert(false);
                        }
                        assert(crate::semantics::cons_contain(sub0, coni));
                    } else {
                        assert(me.sem().constraints == looppre.sem().constraints.push(coni));
                        assert(crate::semantics::constrain_rel(
                            ctx.sem(),
                            looppre.sem().values,
                            coni.data,
                            me.sem().values,
                        ));
                    }
                    assert forall|b: bool|
                        me.sem().values.booleans.has(b) == (pre.sem().values.booleans.has(b)
                            && crate::semantics::within_all_bool(sub1, b)) by {
                        if me.sem().values.booleans.has(b) {
                            assert(looppre.sem().values.booleans.has(b));
                            assert(pre.sem().values.booleans.has(b));
                            assert(crate::semantics::within_all_bool(sub0, b));
                            assert forall|k: int| 0 <= k < sub1.len() implies (match (
                            #[trigger] sub1[k]).data {
                                crate::constraint::ConSem::Within(w) => w.booleans.has(b),
                                _ => true,
                            }) by {
                                if k < i {
                                    assert(sub1[k] == sub0[k]);
                                } else {
                                    assert(sub1[k] == coni);
                                    if dup {
                                        let jj = choose|jj: int|
                                            0 <= jj < sub0.len() && #[trigger] sub0[jj]
                                                == coni;
                                        assert(sub0[jj] == coni);
                                    } else {
                                        assert(wv.booleans.has(b));
                                    }
                                }
                            }
                        }
                        if pre.sem().values.booleans.has(b)
                            && crate::semantics::within_all_bool(sub1, b) {
                            assert(crate::semantics::within_all_bool(sub0, b)) by {
                                assert forall|k: int| 0 <= k < sub0.len() implies (match (
                                #[trigger] sub0[k]).data {
                                    crate::constraint::ConSem::Within(w) => w.booleans.has(
                                        b,
                                    ),
                                    _ => true,
                                }) by {
                                    assert(sub0[k] == sub1[k]);
                                }
                            }
                            assert(looppre.sem().values.booleans.has(b));
                            if !dup {
                                assert(sub1[i as int] == coni);
                                assert(wv.booleans.has(b));
                            }
                            assert(me.sem().values.booleans.has(b));
                        }
                    }
                    assert forall|v: int|
                        crate::sets::ranges_have(me.sem().values.integers, v) == (
                        crate::sets::ranges_have(pre.sem().values.integers, v)
                            && crate::semantics::within_all_int(sub1, v)) by {
                        if crate::sets::ranges_have(me.sem().values.integers, v) {
                            assert(crate::sets::ranges_have(looppre.sem().values.integers, v));
                            assert(crate::sets::ranges_have(pre.sem().values.integers, v));
                            assert(crate::semantics::within_all_int(sub0, v));
                            assert forall|k: int| 0 <= k < sub1.len() implies (match (
                            #[trigger] sub1[k]).data {
                                crate::constraint::ConSem::Within(w) => crate::sets::ranges_have(
                                    w.integers,
                                    v,
                                ),
                                _ => true,
                            }) by {
                                if k < i {
                                    assert(sub1[k] == sub0[k]);
                                } else {
                                    assert(sub1[k] == coni);
                                    if dup {
                                        let jj = choose|jj: int|
                                            0 <= jj < sub0.len() && #[trigger] sub0[jj]
                                                == coni;
                                        assert(sub0[jj] == coni);
                                    } else {
                                        assert(crate::sets::ranges_have(wv.integers, v));
                                    }
                                }
                            }
                        }
                        if crate::sets::ranges_have(pre.sem().values.integers, v)
                            && crate::semantics::within_all_int(sub1, v) {
                            assert(crate::semantics::within_all_int(sub0, v)) by {
                                assert forall|k: int| 0 <= k < sub0.len() implies (match (
                                #[trigger] sub0[k]).data {
                                    crate::constraint::ConSem::Within(w) => crate::sets::ranges_have(
                                        w.integers,
                                        v,
                                    ),
                                    _ => true,
                                }) by {
                                    assert(sub0[k] == sub1[k]);
                                }
                            }
                            assert(crate::sets::ranges_have(looppre.sem().values.integers, v));
                            if !dup {
                                assert(sub1[i as int] == coni);
                                assert(crate::sets::ranges_have(wv.integers, v));
                            }
                            assert(crate::sets::ranges_have(me.sem().values.integers, v));
                        }
                    }
                    assert forall|k: int|
                        pre.sem().constraints.len() <= k < me.sem().constraints.len()
                            implies crate::semantics::cons_contain(
                        sub1,
                        #[trigger] me.sem().constraints[k],
                    ) by {
                        if k < looppre.sem().constraints.len() {
                            assert(me.sem().constraints[k] == looppre.sem().constraints[k]);
                            assert(crate::semantics::cons_contain(
                                sub0,
                                looppre.sem().constraints[k],
                            ));
                        } else {
                            assert(me.sem().constraints[k] == coni);
                            assert(sub1[i as int] == coni);
                        }
                    }
                }
            }
            i += 1;
        }
        proof {
            if hyp {
                lemma_cons_sem(other.constraints@);
                assert(cons_sem(other.constraints@).subrange(0, n as int) =~= cons_sem(
                    other.constraints@,
                ));
            }
        }
        let m = other.aliases.len();
        let mut j: usize = 0;
        while j < m
            invariant
                me.wf(),
                m == other.aliases@.len(),
                *other == *old(other),
                j <= m,
                !me.sem().complete,
                me.sem().aliases == pre.sem().aliases + other.aliases@.subrange(0, j as int),
                me.sem().constraints.len() >= pre.sem().constraints.len(),
                forall|b: bool| me.sem().values.booleans.has(b)
                    ==> pre.sem().values.booleans.has(b),
                forall|v: int| crate::sets::ranges_have(me.sem().values.integers, v)
                    ==> crate::sets::ranges_have(pre.sem().values.integers, v),
                forall|t: crate::data_type::TypeSem| crate::semantics::spec_dtset_has(
                    ctx.sem(),
                    me.sem().values.data_types,
                    t,
                ) ==> crate::semantics::spec_dtset_has(
                    ctx.sem(),
                    pre.sem().values.data_types,
                    t,
                ),

                (match failure {
                    Some(dd) => dd matches Diagnostic::OverConstrained(w) && w@.len() >= 1,
                    None => true,
                }),
                forall|k: int|
                    #![trigger pre.sem().constraints[k]]
                    0 <= k < pre.sem().constraints.len() ==> me.sem().constraints[k]
                        == pre.sem().constraints[k],
                forall|k: int|
                    #![trigger cons_sem(other.constraints@)[k]]
                    0 <= k < other.constraints@.len() ==> crate::semantics::cons_contain(
                        me.sem().constraints,
                        cons_sem(other.constraints@)[k],
                    ),
                forall|k: int|
                    #![trigger me.sem().constraints[k]]
                    pre.sem().constraints.len() <= k < me.sem().constraints.len()
                        ==> crate::semantics::cons_contain(
                        cons_sem(other.constraints@),
                        me.sem().constraints[k],
                    ),
                hyp == ((forall|k: int|
                    0 <= k < cons_sem(other.constraints@).len() ==> (#[trigger] cons_sem(
                        other.constraints@,
                    )[k]).data is Within) && (forall|k: int|
                    0 <= k < cons_sem(other.constraints@).len()
                        ==> !crate::semantics::cons_contain(
                        pre.sem().constraints,
                        #[trigger] cons_sem(other.constraints@)[k],
                    ))),
                hyp ==> forall|b: bool|
                    me.sem().values.booleans.has(b) == (pre.sem().values.booleans.has(b)
                        && crate::semantics::within_all_bool(cons_sem(other.constraints@), b)),
                hyp ==> forall|v: int|
                    crate::sets::ranges_have(me.sem().values.integers, v) == (
                    crate::sets::ranges_have(pre.sem().values.integers, v)
                        && crate::semantics::within_all_int(
                        cons_sem(other.constraints@),
                        v,
                    )),
            decreases m - j,
        {
            let a = other.aliases[j];
            me.aliases.push(a);
            proof {
                assert(me.sem().aliases =~= pre.sem().aliases + other.aliases@.subrange(
                    0,
                    j + 1,
                ));
            }
            j += 1;
        }
        proof {
            lemma_cons_sem(other.constraints@);
            lemma_cons_sem(me.constraints@);
            assert(other.aliases@.subrange(0, m as int) =~= old(other).aliases@);
            assert(cons_sem(old(other).constraints@) == old(other).sem().constraints);
            assert(me.sem().aliases == pre.sem().aliases + old(other).sem().aliases);
            assert forall|k: int| 0 <= k < old(other).sem().constraints.len()
                implies crate::semantics::cons_contain(
                me.sem().constraints,
                #[trigger] old(other).sem().constraints[k],
            ) by {
                assert(old(other).sem().constraints[k] == cons_sem(other.constraints@)[k]);
            }
            assert forall|k: int|
                pre.sem().constraints.len() <= k < me.sem().constraints.len()
                implies crate::semantics::cons_contain(
                old(other).sem().constraints,
                #[trigger] me.sem().constraints[k],
            ) by {
                assert(crate::semantics::cons_contain(
                    cons_sem(other.constraints@),
                    me.sem().constraints[k],
                ));
            }
        }
        other.aliases.clear();
        other.constraints.clear();
        *self = me;
        match failure {
            Some(d) => Err(d),
            None => Ok(()),
        }
    }
}

impl Data {
    /// Three-valued cover check between two metavariable states:
    /// `Some(true)` only when this block is closed and its set covers
    /// the other's; `Some(false)` only when the other block is closed or
    /// the two sets are definitely disjoint.
    pub fn covers(&self, ctx: &Context, other: &Data) -> (r: Option<bool>)
        requires
            ctx.wf(),
            self.wf(),
            other.wf(),
        ensures
            r == Some(true) && crate::semantics::ctx_sets_nonempty(ctx.sem()) ==> {
                &&& (forall|t: crate::data_type::TypeSem| crate::semantics::spec_dtset_has(
                    ctx.sem(),
                    other.sem().values.data_types,
                    t,
                ) ==> crate::semantics::spec_dtset_has(
                    ctx.sem(),
                    self.sem().values.data_types,
                    t,
                ))
                &&& (forall|v: int| crate::sets::ranges_have(other.sem().values.integers, v)
                    ==> crate::sets::ranges_have(self.sem().values.integers, v))
                &&& (forall|b: bool| other.sem().values.booleans.has(b)
                    ==> self.sem().values.booleans.has(b))
                &&& (self.sem().values.data_types.repr_empty()
                    ==> other.sem().values.data_types.repr_empty())
                &&& (self.sem().values.integers.len() == 0 ==> other.sem().values.integers.len()
                    == 0)
                &&& self.sem().complete
            },
            r == Some(false) ==> (other.sem().complete || (forall|
                w: crate::valueset::ValSem,
            |
                !(crate::semantics::spec_vset_has(ctx.sem(), self.sem().values, w)
                    && crate::semantics::spec_vset_has(ctx.sem(), other.sem().values, w)))),
            r == Some(true) ==> self.sem().complete,
            self.sem().complete && other.sem().values.repr_empty() ==> r == Some(true),
            self.sem().values.repr_empty() && !other.sem().values.repr_empty() ==> r == Some(
                false,
            ),
    {
        self.covers_at(ctx, other, crate::semantics::QUERY_FUEL)
    }

    /// Fuel-bounded cover check; exhausted fuel defers.
    pub(crate) fn covers_at(&self, ctx: &Context, other: &Data, fuel: u64) -> (r: Option<bool>)
        requires
            ctx.wf(),
            self.wf(),
            other.wf(),
        ensures
            r == Some(true) && crate::semantics::ctx_sets_nonempty(ctx.sem()) ==> {
                &&& (forall|t: crate::data_type::TypeSem| crate::semantics::spec_dtset_has(
                    ctx.sem(),
                    other.sem().values.data_types,
                    t,
                ) ==> crate::semantics::spec_dtset_has(
                    ctx.sem(),
                    self.sem().values.data_types,
                    t,
                ))
                &&& (forall|v: int| crate::sets::ranges_have(other.sem().values.integers, v)
                    ==> crate::sets::ranges_have(self.sem().values.integers, v))
                &&& (forall|b: bool| other.sem().values.booleans.has(b)
                    ==> self.sem().values.booleans.has(b))
                &&& (self.sem().values.data_types.repr_empty()
                    ==> other.sem().values.data_types.repr_empty())
                &&& (self.sem().values.integers.len() == 0 ==> other.sem().values.integers.len()
                    == 0)
                &&& self.sem().complete
            },
            r == Some(false) ==> (other.sem().complete || (forall|
                w: crate::valueset::ValSem,
            |
                !(crate::semantics::spec_vset_has(ctx.sem(), self.sem().values, w)
                    && crate::semantics::spec_vset_has(ctx.sem(), other.sem().values, w)))),
            r == Some(true) ==> self.sem().complete,
            fuel >= 1 && self.sem().complete && other.sem().values.repr_empty() ==> r == Some(
                true,
            ),
            fuel >= 1 && self.sem().values.repr_empty() && !other.sem().values.repr_empty()
                ==> r == Some(false),
        decreases fuel, 7int,
    {
        if fuel == 0 {
            return None;
        }
        match self.values.superset_at(ctx, &other.values, fuel) {
            Some(true) => {
                if self.is_complete() {
                    Some(true)
                } else {
                    None
                }
            },
            Some(false) => {
                if other.is_complete() {
                    Some(false)
                } else if !self.values.intersects_at(ctx, &other.values, fuel) {
                    Some(false)
                } else {
                    None
                }
            },
            None => None,
        }
    }
}

impl Data {
    /// If the set of possible values for this metavariable has been
    /// reduced to only one possibility, return it.
    pub fn value(&self, ctx: &Context) -> (r: Result<Option<Value>, Diagnostic>)
        requires
            ctx.wf(),
            self.wf(),
        ensures
            (match r {
                Ok(Some(v)) => spec_vset_has(ctx.sem(), self.sem().values, v.sem()),
                _ => true,
            }),
            (match self.sem().values.booleans {
                crate::sets::Boolean::Only(b) => self.sem().values.integers.len() == 0
                    && self.sem().values.data_types.repr_empty() ==> r == Ok::<Option<Value>, Diagnostic>(
                    Some(Value::Boolean(b)),
                ),
                _ => true,
            }),
            self.sem().values.booleans is Empty && self.sem().values.integers.len() == 1
                && self.sem().values.integers[0].lo == self.sem().values.integers[0].hi
                && self.sem().values.data_types.repr_empty() ==> r == Ok::<Option<Value>, Diagnostic>(
                Some(Value::Integer(self.sem().values.integers[0].lo)),
            ),
            (match self.sem().values.data_types {
                crate::valueset::DtSetSem::Exact(ts) => self.sem().values.booleans is Empty
                    && self.sem().values.integers.len() == 0 && ts.len() == 1 ==> (r matches Ok(
                    Some(v),
                ) && v.sem() == crate::valueset::ValSem::DataType(ts[0])),
                _ => true,
            }),
    {
        self.values.value(ctx)
    }
}

} // verus!
