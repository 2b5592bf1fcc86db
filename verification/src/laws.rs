//! The engine's algebraic laws, stated and proved once over the
//! semantic projections.

use crate::constraint::ConSem;
use crate::constraint::ConstraintSem;
use crate::context::CtxSem;
use crate::semantics::cons_contain;
use crate::semantics::constrain_rel;
use crate::semantics::data_step;
use crate::semantics::spec_vset_has;
use crate::sets::ranges_have;
use crate::valueset::VSetSem;
use crate::valueset::ValSem;
use crate::metavars::DataSem;
use vstd::prelude::*;

verus! {

/// Monotonicity: two membership constraints applied in either order
/// leave the boolean and integer partitions identical, and equal to the
/// intersection of the starting set with both constraints' admissible
/// sets.
pub proof fn lemma_within_order_irrelevant(
    c: CtxSem,
    s0: VSetSem,
    w1: VSetSem,
    w2: VSetSem,
    sa1: VSetSem,
    sa2: VSetSem,
    sb1: VSetSem,
    sb2: VSetSem,
)
    requires
        constrain_rel(c, s0, ConSem::Within(w1), sa1),
        constrain_rel(c, sa1, ConSem::Within(w2), sa2),
        constrain_rel(c, s0, ConSem::Within(w2), sb1),
        constrain_rel(c, sb1, ConSem::Within(w1), sb2),
    ensures
        forall|b: bool| sa2.booleans.has(b) == sb2.booleans.has(b),
        forall|b: bool| sa2.booleans.has(b) == (s0.booleans.has(b) && w1.booleans.has(b)
            && w2.booleans.has(b)),
        forall|v: int| ranges_have(sa2.integers, v) == ranges_have(sb2.integers, v),
        forall|v: int| ranges_have(sa2.integers, v) == (ranges_have(s0.integers, v)
            && ranges_have(w1.integers, v) && ranges_have(w2.integers, v)),
{
}

/// Monotonicity, n-ary: replaying any chain of membership constraints
/// narrows the boolean and integer partitions to the pointwise
/// intersection of the starting set with every constraint's admissible
/// set — a characterization independent of the order in which the
/// chain applies them.
pub proof fn lemma_within_chain_intersection(c: CtxSem, states: Seq<VSetSem>, ws: Seq<VSetSem>)
    requires
        states.len() == ws.len() + 1,
        forall|i: int| 0 <= i < ws.len() ==> constrain_rel(
            c,
            states[i],
            ConSem::Within(#[trigger] ws[i]),
            states[i + 1],
        ),
    ensures
        forall|b: bool|
            #![trigger states[states.len() - 1].booleans.has(b)]
            states[states.len() - 1].booleans.has(b) == (states[0].booleans.has(b) && (forall|
                i: int,
            | 0 <= i < ws.len() ==> (#[trigger] ws[i]).booleans.has(b))),
        forall|v: int|
            #![trigger ranges_have(states[states.len() - 1].integers, v)]
            ranges_have(states[states.len() - 1].integers, v) == (ranges_have(
                states[0].integers,
                v,
            ) && (forall|i: int| 0 <= i < ws.len() ==> ranges_have(
                (#[trigger] ws[i]).integers,
                v,
            ))),
    decreases ws.len(),
{
    let n = ws.len() as int;
    if n == 0 {
        assert(states[states.len() - 1] == states[0]);
        assert forall|b: bool|
            states[states.len() - 1].booleans.has(b) == (states[0].booleans.has(b) && (forall|
                i: int,
            | 0 <= i < ws.len() ==> (#[trigger] ws[i]).booleans.has(b))) by {
            assert(forall|i: int| 0 <= i < ws.len() ==> (#[trigger] ws[i]).booleans.has(b));
        }
        assert forall|v: int|
            ranges_have(states[states.len() - 1].integers, v) == (ranges_have(
                states[0].integers,
                v,
            ) && (forall|i: int| 0 <= i < ws.len() ==> ranges_have(
                (#[trigger] ws[i]).integers,
                v,
            ))) by {
            assert(forall|i: int| 0 <= i < ws.len() ==> ranges_have(
                (#[trigger] ws[i]).integers,
                v,
            ));
        }
    } else {
        let sp = states.subrange(0, n);
        let wp = ws.subrange(0, n - 1);
        assert forall|i: int| 0 <= i < wp.len() implies constrain_rel(
            c,
            sp[i],
            ConSem::Within(#[trigger] wp[i]),
            sp[i + 1],
        ) by {
            assert(wp[i] == ws[i]);
            assert(sp[i] == states[i]);
            assert(sp[i + 1] == states[i + 1]);
        }
        lemma_within_chain_intersection(c, sp, wp);
        assert(sp[sp.len() - 1] == states[n - 1]);
        assert(constrain_rel(c, states[n - 1], ConSem::Within(ws[n - 1]), states[n]));
        assert forall|b: bool|
            states[states.len() - 1].booleans.has(b) == (states[0].booleans.has(b) && (forall|
                i: int,
            | 0 <= i < ws.len() ==> (#[trigger] ws[i]).booleans.has(b))) by {
            if states[n].booleans.has(b) {
                assert(states[n - 1].booleans.has(b));
                assert(forall|i: int| 0 <= i < wp.len() ==> (#[trigger] wp[i]).booleans.has(b));
                assert forall|i: int| 0 <= i < ws.len() implies (#[trigger] ws[i]).booleans.has(
                    b,
                ) by {
                    if i < n - 1 {
                        assert(wp[i] == ws[i]);
                    }
                }
            }
            if states[0].booleans.has(b) && (forall|i: int|
                0 <= i < ws.len() ==> (#[trigger] ws[i]).booleans.has(b)) {
                assert forall|i: int| 0 <= i < wp.len() implies (
                #[trigger] wp[i]).booleans.has(b) by {
                    assert(wp[i] == ws[i]);
                }
                assert(states[n - 1].booleans.has(b));
                assert(ws[n - 1].booleans.has(b));
                assert(states[n].booleans.has(b));
            }
        }
        assert forall|v: int|
            ranges_have(states[states.len() - 1].integers, v) == (ranges_have(
                states[0].integers,
                v,
            ) && (forall|i: int| 0 <= i < ws.len() ==> ranges_have(
                (#[trigger] ws[i]).integers,
                v,
            ))) by {
            if ranges_have(states[n].integers, v) {
                assert(ranges_have(states[n].integers, v) == (ranges_have(
                    states[n - 1].integers,
                    v,
                ) && ranges_have(ws[n - 1].integers, v)));
                assert(ranges_have(states[n - 1].integers, v));
                assert(ranges_have(sp[sp.len() - 1].integers, v));
                assert(forall|i: int| 0 <= i < wp.len() ==> ranges_have(
                    (#[trigger] wp[i]).integers,
                    v,
                ));
                assert forall|i: int| 0 <= i < ws.len() implies ranges_have(
                    (#[trigger] ws[i]).integers,
                    v,
                ) by {
                    if i < n - 1 {
                        assert(wp[i] == ws[i]);
                    }
                }
            }
            if ranges_have(states[0].integers, v) && (forall|i: int|
                0 <= i < ws.len() ==> ranges_have((#[trigger] ws[i]).integers, v)) {
                assert forall|i: int| 0 <= i < wp.len() implies ranges_have(
                    (#[trigger] wp[i]).integers,
                    v,
                ) by {
                    assert(wp[i] == ws[i]);
                }
                assert(ranges_have(sp[0].integers, v));
                assert(ranges_have(sp[sp.len() - 1].integers, v));
                assert(ranges_have(states[n - 1].integers, v));
                assert(ranges_have(ws[n - 1].integers, v));
                assert(ranges_have(states[n].integers, v) == (ranges_have(
                    states[n - 1].integers,
                    v,
                ) && ranges_have(ws[n - 1].integers, v)));
                assert(ranges_have(states[n].integers, v));
            }
        }
    }
}

/// Idempotence: recording the same constraint a second time changes
/// nothing; the duplicate is dropped.
pub proof fn lemma_constrain_idempotent(
    c: CtxSem,
    pre: DataSem,
    con: ConstraintSem,
    mid: DataSem,
    post: DataSem,
    ok1: bool,
    ok2: bool,
)
    requires
        data_step(c, pre, con, mid, ok1),
        data_step(c, mid, con, post, ok2),
    ensures
        post == mid,
{
    if !cons_contain(pre.constraints, con) {
        assert(mid.constraints[mid.constraints.len() - 1] == con);
        assert(cons_contain(mid.constraints, con));
    }
}

/// Merge commutativity, constraint side: merging two blocks in either
/// order yields constraint lists with exactly the same members.
pub proof fn lemma_merge_constraint_union(
    ca: Seq<ConstraintSem>,
    cb: Seq<ConstraintSem>,
    mab: Seq<ConstraintSem>,
    mba: Seq<ConstraintSem>,
)
    requires
        mab.len() >= ca.len(),
        forall|k: int| #![trigger ca[k]] 0 <= k < ca.len() ==> mab[k] == ca[k],
        forall|k: int| #![trigger cb[k]] 0 <= k < cb.len() ==> cons_contain(mab, cb[k]),
        forall|k: int| #![trigger mab[k]] ca.len() <= k < mab.len() ==> cons_contain(cb, mab[k]),
        mba.len() >= cb.len(),
        forall|k: int| #![trigger cb[k]] 0 <= k < cb.len() ==> mba[k] == cb[k],
        forall|k: int| #![trigger ca[k]] 0 <= k < ca.len() ==> cons_contain(mba, ca[k]),
        forall|k: int| #![trigger mba[k]] cb.len() <= k < mba.len() ==> cons_contain(ca, mba[k]),
    ensures
        forall|con: ConstraintSem| cons_contain(mab, con) <==> cons_contain(mba, con),
{
    assert forall|con: ConstraintSem| cons_contain(mab, con) implies cons_contain(
        mba,
        con,
    ) by {
        let k = choose|k: int| 0 <= k < mab.len() && #[trigger] mab[k] == con;
        if k < ca.len() {
            assert(ca[k] == con);
            assert(cons_contain(mba, ca[k]));
        } else {
            assert(cons_contain(cb, mab[k]));
            let j = choose|j: int| 0 <= j < cb.len() && #[trigger] cb[j] == con;
            assert(mba[j] == con);
        }
    }
    assert forall|con: ConstraintSem| cons_contain(mba, con) implies cons_contain(
        mab,
        con,
    ) by {
        let k = choose|k: int| 0 <= k < mba.len() && #[trigger] mba[k] == con;
        if k < cb.len() {
            assert(cb[k] == con);
            assert(cons_contain(mab, cb[k]));
        } else {
            assert(cons_contain(ca, mba[k]));
            let j = choose|j: int| 0 <= j < ca.len() && #[trigger] ca[j] == con;
            assert(mab[j] == con);
        }
    }
}

/// Singleton extraction: a value set whose boolean or integer partition
/// is a singleton with the other partitions empty contains that value
/// and no other.
pub proof fn lemma_value_singleton(c: CtxSem, vs: VSetSem, v: ValSem)
    requires
        (match v {
            ValSem::Boolean(b) => vs.booleans == (crate::sets::Boolean::Only(b))
                && vs.integers.len() == 0 && vs.data_types.repr_empty(),
            ValSem::Integer(iv) => vs.booleans is Empty && vs.integers.len() == 1
                && vs.integers[0] == (crate::sets::IntRange { lo: iv, hi: iv })
                && vs.data_types.repr_empty(),
            ValSem::DataType(_) => false,
        }),
    ensures
        forall|w: ValSem| spec_vset_has(c, vs, w) <==> w == v,
{
    assert forall|w: ValSem| spec_vset_has(c, vs, w) <==> w == v by {
        match w {
            ValSem::Boolean(b) => {},
            ValSem::Integer(iv) => {
                if spec_vset_has(c, vs, w) {
                    assert(ranges_have(vs.integers, iv as int));
                } else {
                    if w == v {
                        assert(vs.integers[0].lo <= iv as int <= vs.integers[0].hi);
                    }
                }
            },
            ValSem::DataType(t) => {
                match vs.data_types {
                    crate::valueset::DtSetSem::Patterns(ps) => {
                        crate::semantics::lemma_any_pat_matches(c, ps, t);
                    },
                    crate::valueset::DtSetSem::Exact(ts) => {
                        crate::semantics::lemma_any_type_is(ts, t);
                    },
                    crate::valueset::DtSetSem::All => {},
                }
            },
        }
    }
}

/// Cover partiality, positive side: a definite positive cover answer is
/// stable under refinement.  The covering set is closed when the answer
/// is given, so only the covered set can shrink, and a subset of a
/// covered set stays covered.
pub proof fn lemma_positive_cover_stable(
    c: CtxSem,
    s1: VSetSem,
    s2: VSetSem,
    s2r: VSetSem,
)
    requires
        forall|w: ValSem| spec_vset_has(c, s2, w) ==> spec_vset_has(c, s1, w),
        forall|w: ValSem| spec_vset_has(c, s2r, w) ==> spec_vset_has(c, s2, w),
    ensures
        forall|w: ValSem| spec_vset_has(c, s2r, w) ==> spec_vset_has(c, s1, w),
{
}

/// Cover partiality, negative side: a definite negative answer given
/// for disjoint sets is stable under refinement, as long as the covered
/// set keeps at least one value.
pub proof fn lemma_negative_cover_stable(
    c: CtxSem,
    s1: VSetSem,
    s2: VSetSem,
    s1r: VSetSem,
    s2r: VSetSem,
    w0: ValSem,
)
    requires
        forall|w: ValSem| !(spec_vset_has(c, s1, w) && spec_vset_has(c, s2, w)),
        forall|w: ValSem| spec_vset_has(c, s1r, w) ==> spec_vset_has(c, s1, w),
        forall|w: ValSem| spec_vset_has(c, s2r, w) ==> spec_vset_has(c, s2, w),
        spec_vset_has(c, s2r, w0),
    ensures
        spec_vset_has(c, s2r, w0),
        !spec_vset_has(c, s1r, w0),
{
}

} // verus!
