//! Sets of boolean and integer metavalues.
//!
//! A metavariable ranges over booleans, 64-bit signed integers, and data
//! types.  The first two metatypes have exact, finite descriptions of the
//! remaining possible values: a boolean set is one of four enumerable
//! sets, and an integer set is a canonical union of disjoint closed
//! intervals.

use vstd::prelude::*;

verus! {

/// A set of boolean metavalues.
#[derive(Clone, Copy, Debug, PartialEq, Eq, Structural)]
pub enum Boolean {
    /// The set contains both true and false.
    All,
    /// The set contains only the given value.
    Only(bool),
    /// The set is empty.
    Empty,
}

impl Boolean {
    /// Whether the set contains the given value.
    pub open spec fn has(self, value: bool) -> bool {
        match self {
            Boolean::All => true,
            Boolean::Only(x) => x == value,
            Boolean::Empty => false,
        }
    }

    /// Returns the set containing all possible values.
    pub fn full() -> (r: Self)
        ensures
            r == Boolean::All,
            forall|v: bool| r.has(v),
    {
        Boolean::All
    }

    /// Returns the empty set.
    pub fn empty() -> (r: Self)
        ensures
            r == Boolean::Empty,
            forall|v: bool| !r.has(v),
    {
        Boolean::Empty
    }

    /// Returns the set containing exactly the given value.
    pub fn singleton(value: bool) -> (r: Self)
        ensures
            r == Boolean::Only(value),
            forall|v: bool| r.has(v) == (v == value),
    {
        Boolean::Only(value)
    }

    /// Returns whether the set contains the given value.
    pub fn contains(&self, value: bool) -> (r: bool)
        ensures
            r == self.has(value),
    {
        match self {
            Boolean::All => true,
            Boolean::Only(x) => *x == value,
            Boolean::Empty => false,
        }
    }

    /// Intersects this set with the other in place.
    pub fn intersect_with(&mut self, other: &Boolean)
        ensures
            forall|v: bool| final(self).has(v) == (old(self).has(v) && other.has(v)),
    {
        let keep_true = self.contains(true) && other.contains(true);
        let keep_false = self.contains(false) && other.contains(false);
        *self = if keep_true && keep_false {
            Boolean::All
        } else if keep_true {
            Boolean::Only(true)
        } else if keep_false {
            Boolean::Only(false)
        } else {
            Boolean::Empty
        };
        proof {
            assert forall|v: bool| final(self).has(v) == (old(self).has(v)
                && other.has(v)) by {
                if v {
                } else {
                }
            }
        }
    }

    /// Returns whether this is a superset of other.
    pub fn superset_of(&self, other: &Boolean) -> (r: bool)
        ensures
            r == forall|v: bool| other.has(v) ==> self.has(v),
    {
        let r = (!other.contains(true) || self.contains(true)) && (!other.contains(false)
            || self.contains(false));
        proof {
            if r {
                assert forall|v: bool| other.has(v) implies self.has(v) by {
                    if v {
                    } else {
                    }
                }
            } else {
                if other.has(true) && !self.has(true) {
                    assert(!(forall|v: bool| other.has(v) ==> self.has(v)));
                } else {
                    assert(other.has(false) && !self.has(false));
                }
            }
        }
        r
    }

    /// Returns whether this set intersects with the other.
    pub fn intersects_with(&self, other: &Boolean) -> (r: bool)
        ensures
            r == exists|v: bool| self.has(v) && other.has(v),
    {
        let r = (self.contains(true) && other.contains(true)) || (self.contains(false)
            && other.contains(false));
        proof {
            if self.has(true) && other.has(true) {
                assert(r);
            }
            if self.has(false) && other.has(false) {
                assert(r);
            }
        }
        r
    }

    /// Returns whether this is the empty set.
    pub fn is_empty(&self) -> (r: bool)
        ensures
            r == forall|v: bool| !self.has(v),
    {
        let r = matches!(self, Boolean::Empty);
        proof {
            if !r {
                if self.has(true) {
                } else {
                    assert(self.has(false));
                }
            }
        }
        r
    }

    /// If this set contains exactly one value, return it.
    pub fn value(&self) -> (r: Option<bool>)
        ensures
            match r {
                Some(v) => self.has(v) && forall|w: bool| self.has(w) ==> w == v,
                None => !(exists|v: bool|
                    self.has(v) && forall|w: bool| self.has(w) ==> w == v),
            },
            *self matches Boolean::Only(b) ==> r == Some(b),
            !(*self is Only) ==> r is None,
    {
        let r = if let Boolean::Only(x) = self {
            Some(*x)
        } else {
            None
        };
        proof {
            if r is None {
                match self {
                    Boolean::All => {
                        assert(self.has(true) && self.has(false));
                    },
                    Boolean::Only(_) => {},
                    Boolean::Empty => {},
                }
            }
        }
        r
    }
}

/// A closed interval of 64-bit signed integers.
#[derive(Clone, Copy, Debug, PartialEq, Eq, Structural)]
pub struct IntRange {
    /// Smallest value of the interval.
    pub lo: i64,
    /// Largest value of the interval.
    pub hi: i64,
}

/// Whether the given value lies in one of the intervals of `s`.
pub open spec fn ranges_have(s: Seq<IntRange>, value: int) -> bool {
    exists|i: int| #![trigger s[i]] 0 <= i < s.len() && s[i].lo <= value <= s[i].hi
}

/// Whether the given value lies in one of the first `n` intervals of `s`.
pub open spec fn ranges_have_prefix(s: Seq<IntRange>, n: int, value: int) -> bool {
    exists|i: int| #![trigger s[i]] 0 <= i < n && i < s.len() && s[i].lo <= value <= s[i].hi
}

/// Canonical form: every interval is non-empty, and successive intervals
/// are sorted, disjoint, and separated by a gap of at least one value.
pub open spec fn ranges_canonical(s: Seq<IntRange>) -> bool {
    &&& forall|i: int| 0 <= i < s.len() ==> #[trigger] s[i].lo <= s[i].hi
    &&& forall|i: int| 0 <= i < s.len() - 1 ==> #[trigger] s[i].hi + 2 <= s[i + 1].lo
}

/// Membership in a pushed interval list is membership in the old list or
/// in the new interval.
proof fn lemma_ranges_push(s: Seq<IntRange>, nr: IntRange)
    ensures
        forall|v: int| #[trigger] ranges_have(s.push(nr), v) == (ranges_have(s, v) || (nr.lo <= v
            <= nr.hi)),
{
    let t = s.push(nr);
    assert forall|v: int| #[trigger] ranges_have(t, v) == (ranges_have(s, v) || (nr.lo <= v
        <= nr.hi)) by {
        if ranges_have(t, v) {
            let idx = choose|idx: int|
                #![trigger t[idx]]
                0 <= idx < t.len() && t[idx].lo <= v <= t[idx].hi;
            if idx < s.len() {
                assert(s[idx] == t[idx]);
                assert(ranges_have(s, v));
            } else {
                assert(t[idx] == nr);
            }
        }
        if ranges_have(s, v) {
            let idx = choose|idx: int|
                #![trigger s[idx]]
                0 <= idx < s.len() && s[idx].lo <= v <= s[idx].hi;
            assert(t[idx] == s[idx]);
            assert(ranges_have(t, v));
        }
        if nr.lo <= v <= nr.hi {
            assert(t[s.len() as int] == nr);
            assert(ranges_have(t, v));
        }
    }
}

/// Pushing an interval above the previous last interval keeps the list
/// canonical.
proof fn lemma_ranges_canonical_push(s: Seq<IntRange>, nr: IntRange)
    requires
        ranges_canonical(s),
        nr.lo <= nr.hi,
        s.len() > 0 ==> s[s.len() - 1].hi + 2 <= nr.lo,
    ensures
        ranges_canonical(s.push(nr)),
{
    let t = s.push(nr);
    assert forall|i: int| 0 <= i < t.len() implies #[trigger] t[i].lo <= t[i].hi by {
        if i < s.len() {
            assert(t[i] == s[i]);
        } else {
            assert(t[i] == nr);
        }
    }
    assert forall|i: int| 0 <= i < t.len() - 1 implies #[trigger] t[i].hi + 2 <= t[i + 1].lo by {
        if i < s.len() - 1 {
            assert(t[i] == s[i]);
            assert(t[i + 1] == s[i + 1]);
        } else {
            assert(t[i] == s[s.len() - 1]);
            assert(t[i + 1] == nr);
        }
    }
}

/// Membership in a one-longer prefix adds exactly the next interval.
proof fn lemma_ranges_prefix_step(s: Seq<IntRange>, n: int)
    requires
        0 <= n < s.len(),
    ensures
        forall|v: int| #[trigger] ranges_have_prefix(s, n + 1, v) == (ranges_have_prefix(s, n, v)
            || (s[n].lo <= v <= s[n].hi)),
{
    assert forall|v: int| #[trigger] ranges_have_prefix(s, n + 1, v) == (ranges_have_prefix(
        s,
        n,
        v,
    ) || (s[n].lo <= v <= s[n].hi)) by {
        if ranges_have_prefix(s, n + 1, v) {
            let idx = choose|idx: int|
                #![trigger s[idx]]
                0 <= idx < n + 1 && idx < s.len() && s[idx].lo <= v <= s[idx].hi;
            if idx < n {
                assert(ranges_have_prefix(s, n, v));
            }
        }
        if s[n].lo <= v <= s[n].hi {
            assert(ranges_have_prefix(s, n + 1, v));
        }
        if ranges_have_prefix(s, n, v) {
            let idx = choose|idx: int|
                #![trigger s[idx]]
                0 <= idx < n && idx < s.len() && s[idx].lo <= v <= s[idx].hi;
            assert(ranges_have_prefix(s, n + 1, v));
        }
    }
}

/// A prefix as long as the list has the same members as the list.
proof fn lemma_ranges_prefix_all(s: Seq<IntRange>)
    ensures
        forall|v: int| #[trigger] ranges_have_prefix(s, s.len() as int, v) == ranges_have(s, v),
{
    assert forall|v: int| #[trigger] ranges_have_prefix(s, s.len() as int, v) == ranges_have(
        s,
        v,
    ) by {
        if ranges_have_prefix(s, s.len() as int, v) {
            let idx = choose|idx: int|
                #![trigger s[idx]]
                0 <= idx < s.len() && s[idx].lo <= v <= s[idx].hi;
            assert(ranges_have(s, v));
        }
        if ranges_have(s, v) {
            let idx = choose|idx: int|
                #![trigger s[idx]]
                0 <= idx < s.len() && s[idx].lo <= v <= s[idx].hi;
            assert(ranges_have_prefix(s, s.len() as int, v));
        }
    }
}

/// Membership in a shorter prefix implies membership in a longer one.
proof fn lemma_ranges_prefix_mono(s: Seq<IntRange>, n: int, m: int)
    requires
        n <= m,
    ensures
        forall|v: int| #[trigger] ranges_have_prefix(s, n, v) ==> ranges_have_prefix(s, m, v),
{
    assert forall|v: int| #[trigger] ranges_have_prefix(s, n, v) implies ranges_have_prefix(
        s,
        m,
        v,
    ) by {
        let idx = choose|idx: int|
            #![trigger s[idx]]
            0 <= idx < n && idx < s.len() && s[idx].lo <= v <= s[idx].hi;
        assert(ranges_have_prefix(s, m, v));
    }
}

/// In a canonical list an earlier interval lies entirely below a later
/// one.
pub proof fn lemma_ranges_ordered(s: Seq<IntRange>, i: int, j: int)
    requires
        ranges_canonical(s),
        0 <= i < j < s.len(),
    ensures
        s[i].hi + 2 <= s[j].lo,
    decreases j - i,
{
    if i + 1 < j {
        lemma_ranges_ordered(s, i + 1, j);
    }
}

/// A canonical list with no members is empty.
pub proof fn lemma_canonical_empty(s: Seq<IntRange>)
    requires
        ranges_canonical(s),
        forall|v: int| !ranges_have(s, v),
    ensures
        s.len() == 0,
{
    if s.len() > 0 {
        assert(s[0].lo <= s[0].lo <= s[0].hi);
        assert(ranges_have(s, s[0].lo as int));
    }
}

/// A canonical list whose only member is `v` is the one point interval
/// at `v`.
pub proof fn lemma_canonical_singleton(s: Seq<IntRange>, v: int)
    requires
        ranges_canonical(s),
        forall|x: int| ranges_have(s, x) <==> x == v,
    ensures
        s.len() == 1,
        s[0].lo == v,
        s[0].hi == v,
{
    assert(ranges_have(s, v));
    if s.len() >= 2 {
        assert(s[0].lo <= s[0].lo <= s[0].hi);
        assert(ranges_have(s, s[0].lo as int));
        assert(s[1].lo <= s[1].lo <= s[1].hi);
        assert(ranges_have(s, s[1].lo as int));
        lemma_ranges_ordered(s, 0, 1);
    }
    assert(ranges_have(s, s[0].lo as int));
    assert(ranges_have(s, s[0].hi as int));
}

/// A set of integer metavalues, stored as a canonical union of disjoint
/// closed intervals.
#[derive(Debug)]
pub struct Integer {
    /// The intervals whose union is the set.
    pub ranges: Vec<IntRange>,
}

impl Clone for Integer {
    /// Copies the set; the copy holds the same intervals.
    fn clone(&self) -> (res: Self)
        ensures
            res.ranges@ == self.ranges@,
    {
        let mut ranges: Vec<IntRange> = Vec::new();
        let mut i: usize = 0;
        while i < self.ranges.len()
            invariant
                i <= self.ranges@.len(),
                ranges@ == self.ranges@.subrange(0, i as int),
            decreases self.ranges@.len() - i,
        {
            ranges.push(self.ranges[i]);
            i += 1;
        }
        proof {
            assert(ranges@ =~= self.ranges@);
        }
        Integer { ranges }
    }
}

impl Integer {
    /// Whether the set is well-formed (canonical interval union).
    pub open spec fn wf(self) -> bool {
        ranges_canonical(self.ranges@)
    }

    /// Whether the set contains the given value.
    pub open spec fn has(self, value: int) -> bool {
        ranges_have(self.ranges@, value)
    }

    /// In canonical form intervals are ordered: an earlier interval lies
    /// entirely below a later one.
    pub proof fn lemma_ordered_pub(&self, i: int, j: int)
        requires
            self.wf(),
            0 <= i < j < self.ranges@.len(),
        ensures
            self.ranges@[i].hi + 2 <= self.ranges@[j].lo,
    {
        self.lemma_ordered(i, j);
    }

    /// In canonical form intervals are ordered: an earlier interval lies
    /// entirely below a later one.
    proof fn lemma_ordered(&self, i: int, j: int)
        requires
            self.wf(),
            0 <= i < j < self.ranges@.len(),
        ensures
            self.ranges@[i].hi + 2 <= self.ranges@[j].lo,
        decreases j - i,
    {
        if i + 1 < j {
            self.lemma_ordered(i + 1, j);
        }
    }

    /// Returns the set containing all possible values.
    pub fn full() -> (r: Self)
        ensures
            r.wf(),
            forall|v: int| i64::MIN <= v <= i64::MAX ==> r.has(v),
            forall|v: int| r.has(v) ==> i64::MIN <= v <= i64::MAX,
    {
        let mut ranges: Vec<IntRange> = Vec::new();
        ranges.push(IntRange { lo: i64::MIN, hi: i64::MAX });
        let r = Integer { ranges };
        proof {
            assert forall|v: int| i64::MIN <= v <= i64::MAX implies r.has(v) by {
                assert(r.ranges@[0].lo <= v <= r.ranges@[0].hi);
            }
        }
        r
    }

    /// Returns the empty set.
    pub fn empty() -> (r: Self)
        ensures
            r.wf(),
            r.ranges@.len() == 0,
            forall|v: int| !r.has(v),
    {
        Integer { ranges: Vec::new() }
    }

    /// Returns the set containing exactly the given value.
    pub fn singleton(value: i64) -> (r: Self)
        ensures
            r.wf(),
            r.ranges@.len() == 1,
            r.ranges@[0].lo == value,
            r.ranges@[0].hi == value,
            forall|v: int| r.has(v) == (v == value),
    {
        let mut ranges: Vec<IntRange> = Vec::new();
        ranges.push(IntRange { lo: value, hi: value });
        let r = Integer { ranges };
        proof {
            assert forall|v: int| r.has(v) == (v == value) by {
                if v == value {
                    assert(r.ranges@[0].lo <= v <= r.ranges@[0].hi);
                }
            }
        }
        r
    }

    /// Returns the set holding the closed interval from `lo` to `hi`.
    pub fn range(lo: i64, hi: i64) -> (r: Self)
        requires
            lo <= hi,
        ensures
            r.wf(),
            r.ranges@.len() == 1,
            r.ranges@[0].lo == lo,
            r.ranges@[0].hi == hi,
            forall|v: int| r.has(v) == (lo <= v <= hi),
    {
        let mut ranges: Vec<IntRange> = Vec::new();
        ranges.push(IntRange { lo, hi });
        let r = Integer { ranges };
        proof {
            assert forall|v: int| r.has(v) == (lo <= v <= hi) by {
                if lo <= v <= hi {
                    assert(r.ranges@[0].lo <= v <= r.ranges@[0].hi);
                }
            }
        }
        r
    }

    /// Returns whether the set contains the given value.
    pub fn contains(&self, value: i64) -> (r: bool)
        ensures
            r == self.has(value as int),
    {
        let mut i: usize = 0;
        while i < self.ranges.len()
            invariant
                i <= self.ranges@.len(),
                !ranges_have_prefix(self.ranges@, i as int, value as int),
            decreases self.ranges@.len() - i,
        {
            let rg = self.ranges[i];
            if rg.lo <= value && value <= rg.hi {
                return true;
            }
            i += 1;
        }
        false
    }

    /// Returns the intersection of the two sets.
    pub fn intersect(&self, other: &Integer) -> (r: Integer)
        requires
            self.wf(),
            other.wf(),
        ensures
            r.wf(),
            forall|v: int| r.has(v) == (self.has(v) && other.has(v)),
    {
        let ghost sa = self.ranges@;
        let ghost sb = other.ranges@;
        let mut res: Vec<IntRange> = Vec::new();
        let mut i: usize = 0;
        while i < self.ranges.len()
            invariant
                self.wf(),
                other.wf(),
                sa == self.ranges@,
                sb == other.ranges@,
                i <= sa.len(),
                ranges_canonical(res@),
                forall|v: int| #[trigger] ranges_have(res@, v) == (ranges_have_prefix(
                    sa,
                    i as int,
                    v,
                ) && ranges_have(sb, v)),
                res@.len() > 0 ==> exists|k: int|
                    0 <= k < i && res@[res@.len() - 1].hi <= #[trigger] sa[k].hi,
            decreases sa.len() - i,
        {
            let ra = self.ranges[i];
            let mut j: usize = 0;
            proof {
                assert forall|v: int| #[trigger] ranges_have(res@, v) == ((ranges_have_prefix(
                    sa,
                    i as int,
                    v,
                ) && ranges_have(sb, v)) || (sa[i as int].lo <= v <= sa[i as int].hi
                    && ranges_have_prefix(sb, 0, v))) by {
                    assert(!ranges_have_prefix(sb, 0, v));
                }
            }
            while j < other.ranges.len()
                invariant
                    self.wf(),
                    other.wf(),
                    sa == self.ranges@,
                    sb == other.ranges@,
                    i < sa.len(),
                    ra == sa[i as int],
                    j <= sb.len(),
                    ranges_canonical(res@),
                    forall|v: int| #[trigger] ranges_have(res@, v) == ((ranges_have_prefix(
                        sa,
                        i as int,
                        v,
                    ) && ranges_have(sb, v)) || (sa[i as int].lo <= v <= sa[i as int].hi
                        && ranges_have_prefix(sb, j as int, v))),
                    res@.len() > 0 ==> (exists|k: int|
                        0 <= k < i && res@[res@.len() - 1].hi <= #[trigger] sa[k].hi) || (j > 0
                        && res@[res@.len() - 1].hi <= sb[j - 1].hi && res@[res@.len() - 1].hi
                        <= sa[i as int].hi),
                decreases sb.len() - j,
            {
                let rb = other.ranges[j];
                let lo = if ra.lo >= rb.lo {
                    ra.lo
                } else {
                    rb.lo
                };
                let hi = if ra.hi <= rb.hi {
                    ra.hi
                } else {
                    rb.hi
                };
                let ghost oldres = res@;
                if lo <= hi {
                    proof {
                        if res@.len() > 0 {
                            let last = res@[res@.len() - 1];
                            if exists|k: int| 0 <= k < i && last.hi <= #[trigger] sa[k].hi {
                                let k = choose|k: int|
                                    0 <= k < i && last.hi <= #[trigger] sa[k].hi;
                                self.lemma_ordered(k, i as int);
                                assert(last.hi + 2 <= lo);
                            } else {
                                other.lemma_ordered(j - 1, j as int);
                                assert(last.hi + 2 <= lo);
                            }
                        }
                    }
                    res.push(IntRange { lo, hi });
                    proof {
                        lemma_ranges_canonical_push(oldres, IntRange { lo, hi });
                        lemma_ranges_push(oldres, IntRange { lo, hi });
                        lemma_ranges_prefix_step(sb, j as int);
                        assert forall|v: int| #[trigger] ranges_have(res@, v) == ((
                        ranges_have_prefix(sa, i as int, v) && ranges_have(sb, v)) || (
                        sa[i as int].lo <= v <= sa[i as int].hi && ranges_have_prefix(
                            sb,
                            j + 1,
                            v,
                        ))) by {
                            assert(ranges_have(res@, v) == (ranges_have(oldres, v) || (lo <= v
                                <= hi)));
                            assert((lo <= v <= hi) == (sa[i as int].lo <= v <= sa[i as int].hi
                                && sb[j as int].lo <= v <= sb[j as int].hi));
                            assert(ranges_have_prefix(sb, j + 1, v) == (ranges_have_prefix(
                                sb,
                                j as int,
                                v,
                            ) || (sb[j as int].lo <= v <= sb[j as int].hi)));
                            if ranges_have_prefix(sb, j as int, v) {
                                lemma_ranges_prefix_all(sb);
                                lemma_ranges_prefix_mono(sb, j as int, sb.len() as int);
                            }
                        }
                    }
                } else {
                    proof {
                        lemma_ranges_prefix_step(sb, j as int);
                        assert forall|v: int| #[trigger] ranges_have(res@, v) == ((
                        ranges_have_prefix(sa, i as int, v) && ranges_have(sb, v)) || (
                        sa[i as int].lo <= v <= sa[i as int].hi && ranges_have_prefix(
                            sb,
                            j + 1,
                            v,
                        ))) by {
                            assert(!(sa[i as int].lo <= v <= sa[i as int].hi && sb[j as int].lo
                                <= v <= sb[j as int].hi));
                        }
                        if res@.len() > 0 && !(exists|k: int|
                            0 <= k < i && res@[res@.len() - 1].hi <= #[trigger] sa[k].hi) {
                            assert(j > 0);
                            other.lemma_ordered(j - 1, j as int);
                            assert(res@[res@.len() - 1].hi <= sb[j as int].hi);
                        }
                    }
                }
                j += 1;
            }
            proof {
                lemma_ranges_prefix_all(sb);
                lemma_ranges_prefix_step(sa, i as int);
                assert forall|v: int| #[trigger] ranges_have(res@, v) == ((ranges_have_prefix(
                    sa,
                    i + 1,
                    v,
                ) && ranges_have(sb, v))) by {
                    assert(ranges_have_prefix(sb, sb.len() as int, v) == ranges_have(sb, v));
                    assert(ranges_have_prefix(sa, i + 1, v) == (ranges_have_prefix(
                        sa,
                        i as int,
                        v,
                    ) || (sa[i as int].lo <= v <= sa[i as int].hi)));
                }
                if res@.len() > 0 {
                    if !(exists|k: int|
                        0 <= k < i && res@[res@.len() - 1].hi <= #[trigger] sa[k].hi) {
                        assert(res@[res@.len() - 1].hi <= sa[i as int].hi);
                    }
                }
            }
            i += 1;
        }
        proof {
            lemma_ranges_prefix_all(sa);
        }
        Integer { ranges: res }
    }

    /// Intersects this set with the other in place.
    pub fn intersect_with(&mut self, other: &Integer)
        requires
            old(self).wf(),
            other.wf(),
        ensures
            final(self).wf(),
            forall|v: int| final(self).has(v) == (old(self).has(v) && other.has(v)),
    {
        let r = self.intersect(other);
        *self = r;
    }

    /// Finds an interval containing the value, if one exists.
    fn find_containing(&self, value: i64) -> (r: Option<usize>)
        ensures
            match r {
                Some(idx) => idx < self.ranges@.len() && self.ranges@[idx as int].lo <= value
                    <= self.ranges@[idx as int].hi,
                None => !self.has(value as int),
            },
    {
        let mut i: usize = 0;
        while i < self.ranges.len()
            invariant
                i <= self.ranges@.len(),
                !ranges_have_prefix(self.ranges@, i as int, value as int),
            decreases self.ranges@.len() - i,
        {
            let rg = self.ranges[i];
            if rg.lo <= value && value <= rg.hi {
                return Some(i);
            }
            i += 1;
        }
        None
    }

    /// No value strictly inside the gap above interval `idx` is in the set.
    proof fn lemma_gap(&self, idx: int, v: int)
        requires
            self.wf(),
            0 <= idx < self.ranges@.len(),
            self.ranges@[idx].hi < v,
            idx == self.ranges@.len() - 1 || v < self.ranges@[idx + 1].lo,
        ensures
            !self.has(v),
    {
        assert forall|k: int| #![trigger self.ranges@[k]] 0 <= k < self.ranges@.len() implies !(
        self.ranges@[k].lo <= v <= self.ranges@[k].hi) by {
            if k < idx {
                self.lemma_ordered(k, idx);
            } else if k > idx {
                if idx + 1 < k {
                    self.lemma_ordered(idx + 1, k);
                }
            }
        }
    }

    /// Returns whether this is a superset of other.
    pub fn superset_of(&self, other: &Integer) -> (r: bool)
        requires
            self.wf(),
            other.wf(),
        ensures
            r == forall|v: int| other.has(v) ==> self.has(v),
    {
        let mut j: usize = 0;
        while j < other.ranges.len()
            invariant
                self.wf(),
                other.wf(),
                j <= other.ranges@.len(),
                forall|v: int| ranges_have_prefix(other.ranges@, j as int, v) ==> self.has(v),
            decreases other.ranges@.len() - j,
        {
            let rg = other.ranges[j];
            match self.find_containing(rg.lo) {
                None => {
                    proof {
                        assert(rg.lo <= rg.hi);
                        assert(other.has(rg.lo as int));
                    }
                    return false;
                },
                Some(idx) => {
                    let own = self.ranges[idx];
                    if rg.hi > own.hi {
                        proof {
                            let w = own.hi + 1;
                            assert(rg.lo <= w <= rg.hi);
                            assert(other.has(w));
                            self.lemma_gap(idx as int, w);
                        }
                        return false;
                    }
                    proof {
                        assert forall|v: int| ranges_have_prefix(
                            other.ranges@,
                            j + 1,
                            v,
                        ) implies self.has(v) by {
                            if !ranges_have_prefix(other.ranges@, j as int, v) {
                                assert(other.ranges@[j as int].lo <= v
                                    <= other.ranges@[j as int].hi);
                                assert(self.ranges@[idx as int].lo <= v
                                    <= self.ranges@[idx as int].hi);
                            }
                        }
                    }
                },
            }
            j += 1;
        }
        proof {
            assert forall|v: int| other.has(v) implies self.has(v) by {
                assert(ranges_have_prefix(other.ranges@, other.ranges@.len() as int, v));
            }
        }
        true
    }

    /// Returns whether this set intersects with the other.
    pub fn intersects_with(&self, other: &Integer) -> (r: bool)
        requires
            self.wf(),
            other.wf(),
        ensures
            r == exists|v: int| self.has(v) && other.has(v),
    {
        let common = self.intersect(other);
        let r = !common.is_empty();
        proof {
            if r {
                let v = choose|v: int| #[trigger] common.has(v);
                assert(self.has(v) && other.has(v));
            } else {
                if exists|v: int| self.has(v) && #[trigger] other.has(v) {
                    let v = choose|v: int| self.has(v) && #[trigger] other.has(v);
                    assert(common.has(v));
                }
            }
        }
        r
    }

    /// Returns whether this is the empty set.
    pub fn is_empty(&self) -> (r: bool)
        requires
            self.wf(),
        ensures
            r == forall|v: int| !self.has(v),
    {
        let r = self.ranges.len() == 0;
        proof {
            if !r {
                assert(self.ranges@[0].lo <= self.ranges@[0].hi);
                assert(self.has(self.ranges@[0].lo as int));
            }
        }
        r
    }

    /// If this set contains exactly one value, return it.
    pub fn value(&self) -> (r: Option<i64>)
        requires
            self.wf(),
        ensures
            match r {
                Some(v) => self.has(v as int) && forall|w: int| self.has(w) ==> w == v,
                None => !(exists|v: int|
                    self.has(v) && forall|w: int| self.has(w) ==> w == v),
            },
            self.ranges@.len() == 1 && self.ranges@[0].lo == self.ranges@[0].hi ==> r == Some(
                self.ranges@[0].lo,
            ),
            self.ranges@.len() != 1 || self.ranges@[0].lo != self.ranges@[0].hi ==> r is None,
    {
        if self.ranges.len() == 1 {
            let rg = self.ranges[0];
            if rg.lo == rg.hi {
                proof {
                    assert(self.has(rg.lo as int));
                }
                return Some(rg.lo);
            }
            proof {
                assert(self.has(rg.lo as int));
                assert(self.has(rg.hi as int));
            }
            None
        } else {
            proof {
                if self.ranges@.len() >= 2 {
                    assert(self.has(self.ranges@[0].lo as int));
                    assert(self.has(self.ranges@[1].lo as int));
                    self.lemma_ordered(0, 1);
                }
            }
            None
        }
    }
}

impl Integer {
    /// Returns whether the two sets hold the same intervals.
    pub fn same_as(&self, other: &Integer) -> (r: bool)
        ensures
            r == (self.ranges@ == other.ranges@),
    {
        if self.ranges.len() != other.ranges.len() {
            return false;
        }
        let n = self.ranges.len();
        let mut i: usize = 0;
        while i < n
            invariant
                n == self.ranges@.len(),
                n == other.ranges@.len(),
                i <= n,
                forall|k: int| 0 <= k < i ==> #[trigger] self.ranges@[k] == other.ranges@[k],
            decreases n - i,
        {
            let a = self.ranges[i];
            let b = other.ranges[i];
            if a.lo != b.lo || a.hi != b.hi {
                return false;
            }
            i += 1;
        }
        proof {
            assert(self.ranges@ =~= other.ranges@);
        }
        true
    }
}

impl Integer {
    /// Checks at run time that the interval list is canonical.
    pub fn check_wf(&self) -> (r: bool)
        ensures
            r == self.wf(),
    {
        let n = self.ranges.len();
        let mut i: usize = 0;
        while i < n
            invariant
                n == self.ranges@.len(),
                i <= n,
                forall|k: int| 0 <= k < i ==> #[trigger] self.ranges@[k].lo
                    <= self.ranges@[k].hi,
                forall|k: int| 0 <= k < i && k < n - 1 ==> #[trigger] self.ranges@[k].hi + 2
                    <= self.ranges@[k + 1].lo,
            decreases n - i,
        {
            let rg = self.ranges[i];
            if rg.lo > rg.hi {
                return false;
            }
            if i + 1 < n {
                let nx = self.ranges[i + 1];
                if rg.hi > i64::MAX - 2 || rg.hi + 2 > nx.lo {
                    return false;
                }
            }
            i += 1;
        }
        true
    }
}

} // verus!
