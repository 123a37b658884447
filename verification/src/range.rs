//! Version ranges: sets of constraints over versions. Each constraint admits
//! every version (`Any`), one version (`Single`), or a half-open interval
//! (`Contiguous`). A range admits a version when some constraint does.

use vstd::prelude::*;

use crate::semver::{
    lemma_ver_eq_lt, lemma_ver_le_trans, lemma_ver_lt_eq, lemma_ver_lt_trans,
    lemma_ver_trichotomy, ver_eq, ver_le, ver_lt, Version,
};

verus! {

/// One constraint on a version.
#[derive(Debug)]
pub enum Constraint {
    /// Admits every version.
    Any,
    /// Admits exactly one version.
    Single(Version),
    /// Admits versions in `[lo, hi)`.
    Contiguous(Version, Version),
}

/// A set of constraints; a version is admitted when some constraint admits it.
#[derive(Debug)]
pub struct VersionRange {
    pub constraints: Vec<Constraint>,
}

/// Two ranges have no common version.
#[derive(Clone, Copy, PartialEq, Eq, Structural, Debug)]
pub struct EmptyIntersection;

/// The constraint admits the version.
pub open spec fn sat_constraint(c: Constraint, v: Seq<u64>) -> bool {
    match c {
        Constraint::Any => true,
        Constraint::Single(u) => ver_eq(v, u.components@),
        Constraint::Contiguous(lo, hi) => ver_le(lo.components@, v) && ver_lt(v, hi.components@),
    }
}

/// Some constraint in the list admits the version.
pub open spec fn sat_range(cs: Seq<Constraint>, v: Seq<u64>) -> bool {
    exists|i: int| 0 <= i < cs.len() && sat_constraint(#[trigger] cs[i], v)
}

/// An interval constraint is well-formed when its bounds are ordered.
pub open spec fn constraint_wf(c: Constraint) -> bool {
    match c {
        Constraint::Contiguous(lo, hi) => ver_lt(lo.components@, hi.components@),
        _ => true,
    }
}

/// Every constraint is well-formed and there is at least one.
pub open spec fn range_wf(cs: Seq<Constraint>) -> bool {
    cs.len() >= 1 && forall|i: int| 0 <= i < cs.len() ==> constraint_wf(#[trigger] cs[i])
}

impl Constraint {
    /// True when this constraint admits `v`.
    pub fn satisfies(&self, v: &Version) -> (r: bool)
        ensures
            r == sat_constraint(*self, v.components@),
    {
        match self {
            Constraint::Any => true,
            Constraint::Single(u) => u.eq_ver(v),
            Constraint::Contiguous(lo, hi) => lo.le_ver(v) && v.lt_ver(hi),
        }
    }

    fn clone_c(&self) -> (r: Constraint)
        ensures
            forall|v: Seq<u64>| #[trigger] sat_constraint(r, v) == sat_constraint(*self, v),
            constraint_wf(r) == constraint_wf(*self),
            r matches Constraint::Any <==> self matches Constraint::Any,
            (match (self, r) {
                (Constraint::Any, Constraint::Any) => true,
                (Constraint::Single(a), Constraint::Single(b)) => a.components@ == b.components@
                    && a.raw@ == b.raw@,
                (Constraint::Contiguous(a1, a2), Constraint::Contiguous(b1, b2)) => a1.components@
                    == b1.components@ && a1.raw@ == b1.raw@ && a2.components@ == b2.components@
                    && a2.raw@ == b2.raw@,
                _ => false,
            }),
    {
        match self {
            Constraint::Any => Constraint::Any,
            Constraint::Single(u) => Constraint::Single(u.clone()),
            Constraint::Contiguous(lo, hi) => Constraint::Contiguous(lo.clone(), hi.clone()),
        }
    }
}

impl Clone for Constraint {
    fn clone(&self) -> (r: Self)
        ensures
            forall|v: Seq<u64>| #[trigger] sat_constraint(r, v) == sat_constraint(*self, v),
            constraint_wf(r) == constraint_wf(*self),
    {
        self.clone_c()
    }
}

/// Some pair of constraints strictly before position (`i`, `j`) in the
/// row-major walk of `a` x `b` admits `v` on both sides.
pub open spec fn pair_sat(a: Seq<Constraint>, b: Seq<Constraint>, i: int, j: int, v: Seq<u64>) -> bool {
    exists|x: int, y: int|
        0 <= x < a.len() && 0 <= y < b.len() && (x < i || (x == i && y < j)) && sat_constraint(
            #[trigger] a[x],
            v,
        ) && sat_constraint(#[trigger] b[y], v)
}

proof fn lemma_sat_range_push(cs: Seq<Constraint>, c: Constraint, v: Seq<u64>)
    ensures
        sat_range(cs.push(c), v) == (sat_range(cs, v) || sat_constraint(c, v)),
{
    if sat_range(cs, v) {
        let i = choose|i: int| 0 <= i < cs.len() && sat_constraint(#[trigger] cs[i], v);
        assert(cs.push(c)[i] == cs[i]);
        assert(sat_range(cs.push(c), v));
    }
    if sat_constraint(c, v) {
        assert(cs.push(c)[cs.len() as int] == c);
        assert(sat_range(cs.push(c), v));
    }
    if sat_range(cs.push(c), v) {
        let i = choose|i: int| 0 <= i < cs.push(c).len() && sat_constraint(#[trigger] cs.push(c)[i], v);
        if i < cs.len() {
            assert(cs[i] == cs.push(c)[i]);
            assert(sat_range(cs, v));
        } else {
            assert(cs.push(c)[i] == c);
        }
    }
}

/// `ver_le` then `ver_lt` is `ver_lt`.
pub proof fn lemma_ver_le_lt_trans(a: Seq<u64>, b: Seq<u64>, c: Seq<u64>)
    requires
        ver_le(a, b),
        ver_lt(b, c),
    ensures
        ver_lt(a, c),
{
    if ver_lt(a, b) {
        lemma_ver_lt_trans(a, b, c);
    } else {
        lemma_ver_eq_lt(a, b, c);
    }
}

/// `ver_lt` then `ver_le` is `ver_lt`.
pub proof fn lemma_ver_lt_le_trans(a: Seq<u64>, b: Seq<u64>, c: Seq<u64>)
    requires
        ver_lt(a, b),
        ver_le(b, c),
    ensures
        ver_lt(a, c),
{
    if ver_lt(b, c) {
        lemma_ver_lt_trans(a, b, c);
    } else {
        lemma_ver_lt_eq(a, b, c);
    }
}

impl VersionRange {
    /// The range admitting every version.
    pub fn any() -> (r: VersionRange)
        ensures
            r.constraints@.len() == 1,
            r.constraints@[0] matches Constraint::Any,
            range_wf(r.constraints@),
            forall|v: Seq<u64>| sat_range(r.constraints@, v),
    {
        let constraints = vec![Constraint::Any];
        proof {
            assert forall|v: Seq<u64>| sat_range(constraints@, v) by {
                assert(sat_constraint(constraints@[0], v));
            }
        }
        VersionRange { constraints }
    }

    /// True when some constraint admits `v`.
    pub fn satisfies(&self, v: &Version) -> (r: bool)
        ensures
            r == sat_range(self.constraints@, v.components@),
    {
        let mut i: usize = 0;
        while i < self.constraints.len()
            invariant
                i <= self.constraints@.len(),
                forall|j: int|
                    0 <= j < i ==> !sat_constraint(#[trigger] self.constraints@[j], v.components@),
            decreases self.constraints@.len() - i,
        {
            if self.constraints[i].satisfies(v) {
                return true;
            }
            i += 1;
        }
        false
    }

    /// Intersect with `other`: the result admits exactly the versions both
    /// ranges admit; errs when no version could satisfy both. Intersecting
    /// with the `Any` range returns this range's constraints unchanged.
    #[verifier::loop_isolation(false)]
    pub fn intersect(&self, other: &VersionRange) -> (r: Result<VersionRange, EmptyIntersection>)
        requires
            range_wf(self.constraints@),
            range_wf(other.constraints@),
        ensures
            match r {
                Ok(rr) => range_wf(rr.constraints@) && (forall|v: Seq<u64>|
                    #[trigger] sat_range(rr.constraints@, v) == (sat_range(self.constraints@, v)
                        && sat_range(other.constraints@, v))),
                Err(_) => forall|v: Seq<u64>|
                    !(#[trigger] sat_range(self.constraints@, v) && sat_range(
                        other.constraints@,
                        v,
                    )),
            },
            (other.constraints@.len() == 1 && (other.constraints@[0] matches Constraint::Any)
                && !(self.constraints@[0] matches Constraint::Any)) ==> match r {
                Ok(rr) => rr.constraints@.len() == self.constraints@.len() && forall|i: int|
                    0 <= i < self.constraints@.len() ==> constraint_like(
                        #[trigger] rr.constraints@[i],
                        self.constraints@[i],
                    ),
                Err(_) => false,
            },
    {
        let a = &self.constraints;
        let b = &other.constraints;
        let mut out: Vec<Constraint> = Vec::new();
        let mut i: usize = 0;
        while i < a.len()
            invariant
                i <= a@.len(),
                range_wf(a@),
                range_wf(b@),
                forall|k: int| 0 <= k < out@.len() ==> constraint_wf(#[trigger] out@[k]),
                forall|v: Seq<u64>|
                    #[trigger] sat_range(out@, v) == pair_sat(a@, b@, i as int, 0, v),
                (b@.len() == 1 && (b@[0] matches Constraint::Any) && !(a@[0]
                    matches Constraint::Any)) ==> i == 0,
            decreases a@.len() - i,
        {
            let mut j: usize = 0;
            while j < b.len()
                invariant
                    i < a@.len(),
                    j <= b@.len(),
                    range_wf(a@),
                    range_wf(b@),
                    forall|k: int| 0 <= k < out@.len() ==> constraint_wf(#[trigger] out@[k]),
                    forall|v: Seq<u64>|
                        #[trigger] sat_range(out@, v) == pair_sat(a@, b@, i as int, j as int, v),
                    (b@.len() == 1 && (b@[0] matches Constraint::Any) && !(a@[0]
                        matches Constraint::Any)) ==> i == 0 && j == 0,
                decreases b@.len() - j,
            {
                let ghost old_out = out@;
                match (&a[i], &b[j]) {
                    (Constraint::Any, _) => {
                        let rr = VersionRange { constraints: clone_constraints(b) };
                        proof {
                            assert(a@[i as int] matches Constraint::Any);
                            assert(range_wf(rr.constraints@)) by {
                                assert forall|k: int|
                                    0 <= k < rr.constraints@.len() implies constraint_wf(
                                    #[trigger] rr.constraints@[k],
                                ) by {
                                    assert(constraint_wf(b@[k]));
                                }
                            }
                            if b@.len() == 1 && (b@[0] matches Constraint::Any) && !(a@[0]
                                matches Constraint::Any) {
                                assert(i == 0);
                                assert(false);
                            }
                            assert forall|v: Seq<u64>|
                                #[trigger] sat_range(rr.constraints@, v) == (sat_range(a@, v)
                                    && sat_range(b@, v)) by {
                                assert(sat_constraint(a@[i as int], v));
                                assert(sat_range(rr.constraints@, v) == sat_range(b@, v)) by {
                                    lemma_sat_like(rr.constraints@, b@, v);
                                }
                            }
                        }
                        return Ok(rr);
                    },
                    (_, Constraint::Any) => {
                        let rr = VersionRange { constraints: clone_constraints(a) };
                        proof {
                            assert(range_wf(rr.constraints@)) by {
                                assert forall|k: int|
                                    0 <= k < rr.constraints@.len() implies constraint_wf(
                                    #[trigger] rr.constraints@[k],
                                ) by {
                                    assert(constraint_wf(a@[k]));
                                }
                            }
                            assert forall|v: Seq<u64>|
                                #[trigger] sat_range(rr.constraints@, v) == (sat_range(a@, v)
                                    && sat_range(b@, v)) by {
                                assert(sat_constraint(b@[j as int], v));
                                assert(sat_range(rr.constraints@, v) == sat_range(a@, v)) by {
                                    lemma_sat_like(rr.constraints@, a@, v);
                                }
                            }
                        }
                        return Ok(rr);
                    },
                    (Constraint::Single(x), Constraint::Single(y)) => {
                        if x.eq_ver(y) {
                            out.push(Constraint::Single(x.clone()));
                        }
                        proof {
                            let cx = a@[i as int];
                            let cy = b@[j as int];
                            assert forall|v: Seq<u64>|
                                (sat_constraint(cx, v) && sat_constraint(cy, v)) == (ver_eq(
                                    x.components@,
                                    y.components@,
                                ) && sat_constraint(cx, v)) by {}
                        }
                    },
                    (Constraint::Single(x), Constraint::Contiguous(lo, hi)) => {
                        if lo.le_ver(x) && x.lt_ver(hi) {
                            out.push(Constraint::Single(x.clone()));
                            proof {
                                let cy = b@[j as int];
                                assert forall|v: Seq<u64>| sat_constraint(a@[i as int], v) implies
                                    sat_constraint(cy, v) by {
                                    lemma_sat_contig_congr(
                                        x.components@,
                                        v,
                                        lo.components@,
                                        hi.components@,
                                    );
                                }
                            }
                        } else {
                            proof {
                                let cy = b@[j as int];
                                assert forall|v: Seq<u64>|
                                    !(sat_constraint(a@[i as int], v) && sat_constraint(
                                        cy,
                                        v,
                                    )) by {
                                    if sat_constraint(a@[i as int], v) && sat_constraint(cy, v) {
                                        lemma_sat_contig_congr(
                                            v,
                                            x.components@,
                                            lo.components@,
                                            hi.components@,
                                        );
                                    }
                                }
                            }
                        }
                    },
                    (Constraint::Contiguous(lo, hi), Constraint::Single(y)) => {
                        if lo.le_ver(y) && y.lt_ver(hi) {
                            out.push(Constraint::Single(y.clone()));
                            proof {
                                let cx = a@[i as int];
                                assert forall|v: Seq<u64>| sat_constraint(b@[j as int], v) implies
                                    sat_constraint(cx, v) by {
                                    lemma_sat_contig_congr(
                                        y.components@,
                                        v,
                                        lo.components@,
                                        hi.components@,
                                    );
                                }
                            }
                        } else {
                            proof {
                                let cx = a@[i as int];
                                assert forall|v: Seq<u64>|
                                    !(sat_constraint(cx, v) && sat_constraint(
                                        b@[j as int],
                                        v,
                                    )) by {
                                    if sat_constraint(cx, v) && sat_constraint(b@[j as int], v) {
                                        lemma_sat_contig_congr(
                                            v,
                                            y.components@,
                                            lo.components@,
                                            hi.components@,
                                        );
                                    }
                                }
                            }
                        }
                    },
                    (Constraint::Contiguous(a1, a2), Constraint::Contiguous(b1, b2)) => {
                        if a1.lt_ver(b2) && b1.lt_ver(a2) {
                            let v1 = if b1.lt_ver(a1) {
                                a1.clone()
                            } else {
                                b1.clone()
                            };
                            let v2 = if a2.lt_ver(b2) {
                                a2.clone()
                            } else {
                                b2.clone()
                            };
                            proof {
                                lemma_ver_trichotomy(a1.components@, b1.components@);
                                lemma_ver_trichotomy(a2.components@, b2.components@);
                                assert(ver_lt(v1.components@, v2.components@)) by {
                                    intersect_bounds_wf(
                                        a1.components@,
                                        a2.components@,
                                        b1.components@,
                                        b2.components@,
                                        v1.components@,
                                        v2.components@,
                                    );
                                }
                            }
                            out.push(Constraint::Contiguous(v1, v2));
                            proof {
                                let c_new = out@.last();
                                assert forall|v: Seq<u64>|
                                    sat_constraint(c_new, v) == (sat_constraint(a@[i as int], v)
                                        && sat_constraint(b@[j as int], v)) by {
                                    lemma_contig_intersect_sat(
                                        a1.components@,
                                        a2.components@,
                                        b1.components@,
                                        b2.components@,
                                        v,
                                    );
                                }
                            }
                        } else {
                            proof {
                                assert forall|v: Seq<u64>|
                                    !(sat_constraint(a@[i as int], v) && sat_constraint(
                                        b@[j as int],
                                        v,
                                    )) by {
                                    if sat_constraint(a@[i as int], v) && sat_constraint(
                                        b@[j as int],
                                        v,
                                    ) {
                                        lemma_ver_le_lt_trans(
                                            a1.components@,
                                            v,
                                            b2.components@,
                                        );
                                        lemma_ver_le_lt_trans(
                                            b1.components@,
                                            v,
                                            a2.components@,
                                        );
                                    }
                                }
                            }
                        }
                    },
                }
                proof {
                    assert forall|v: Seq<u64>|
                        #[trigger] sat_range(out@, v) == pair_sat(
                            a@,
                            b@,
                            i as int,
                            j + 1,
                            v,
                        ) by {
                        if out@.len() > old_out.len() {
                            assert(out@ == old_out.push(out@.last()));
                            lemma_sat_range_push(old_out, out@.last(), v);
                        }
                        lemma_pair_sat_step(a@, b@, i as int, j as int, v);
                    }
                }
                j += 1;
            }
            proof {
                assert forall|v: Seq<u64>|
                    #[trigger] sat_range(out@, v) == pair_sat(a@, b@, i + 1, 0, v) by {
                    lemma_pair_sat_row(a@, b@, i as int, v);
                }
            }
            i += 1;
        }
        if out.len() == 0 {
            proof {
                assert forall|v: Seq<u64>|
                    !(#[trigger] sat_range(a@, v) && sat_range(b@, v)) by {
                    if sat_range(a@, v) && sat_range(b@, v) {
                        let x = choose|x: int| 0 <= x < a@.len() && sat_constraint(#[trigger] a@[x], v);
                        let y = choose|y: int| 0 <= y < b@.len() && sat_constraint(#[trigger] b@[y], v);
                        assert(pair_sat(a@, b@, a@.len() as int, 0, v));
                        assert(sat_range(out@, v));
                    }
                }
            }
            return Err(EmptyIntersection);
        }
        let rr = VersionRange { constraints: out };
        proof {
            assert forall|v: Seq<u64>|
                #[trigger] sat_range(rr.constraints@, v) == (sat_range(a@, v) && sat_range(
                    b@,
                    v,
                )) by {
                if sat_range(a@, v) && sat_range(b@, v) {
                    let x = choose|x: int| 0 <= x < a@.len() && sat_constraint(#[trigger] a@[x], v);
                    let y = choose|y: int| 0 <= y < b@.len() && sat_constraint(#[trigger] b@[y], v);
                    assert(pair_sat(a@, b@, a@.len() as int, 0, v));
                }
                if pair_sat(a@, b@, a@.len() as int, 0, v) {
                    let (x, y) = choose|x: int, y: int|
                        0 <= x < a@.len() && 0 <= y < b@.len() && (x < a@.len() || (x == a@.len()
                            && y < 0)) && sat_constraint(#[trigger] a@[x], v) && sat_constraint(
                            #[trigger] b@[y],
                            v,
                        );
                    assert(sat_range(a@, v));
                    assert(sat_range(b@, v));
                }
            }
        }
        Ok(rr)
    }
}

/// Constraints with equal shape, component lists and texts.
pub open spec fn constraint_like(x: Constraint, y: Constraint) -> bool {
    match (x, y) {
        (Constraint::Any, Constraint::Any) => true,
        (Constraint::Single(a), Constraint::Single(b)) => a.components@ == b.components@ && a.raw@
            == b.raw@,
        (Constraint::Contiguous(a1, a2), Constraint::Contiguous(b1, b2)) => a1.components@
            == b1.components@ && a1.raw@ == b1.raw@ && a2.components@ == b2.components@ && a2.raw@
            == b2.raw@,
        _ => false,
    }
}

proof fn lemma_sat_like(xs: Seq<Constraint>, ys: Seq<Constraint>, v: Seq<u64>)
    requires
        xs.len() == ys.len(),
        forall|k: int| 0 <= k < xs.len() ==> constraint_like(#[trigger] xs[k], ys[k]),
    ensures
        sat_range(xs, v) == sat_range(ys, v),
{
    if sat_range(xs, v) {
        let k = choose|k: int| 0 <= k < xs.len() && sat_constraint(#[trigger] xs[k], v);
        assert(constraint_like(xs[k], ys[k]));
        assert(sat_constraint(ys[k], v));
    }
    if sat_range(ys, v) {
        let k = choose|k: int| 0 <= k < ys.len() && sat_constraint(#[trigger] ys[k], v);
        assert(constraint_like(xs[k], ys[k]));
        assert(sat_constraint(xs[k], v));
    }
}

/// Copy a constraint list, keeping each constraint's shape and contents.
fn clone_constraints(cs: &Vec<Constraint>) -> (r: Vec<Constraint>)
    ensures
        r@.len() == cs@.len(),
        forall|k: int| 0 <= k < cs@.len() ==> constraint_like(#[trigger] r@[k], cs@[k]),
        forall|k: int|
            0 <= k < cs@.len() ==> constraint_wf(#[trigger] r@[k]) == constraint_wf(cs@[k]),
{
    let mut r: Vec<Constraint> = Vec::new();
    let mut i: usize = 0;
    while i < cs.len()
        invariant
            i <= cs@.len(),
            r@.len() == i,
            forall|k: int| 0 <= k < i ==> constraint_like(#[trigger] r@[k], cs@[k]),
            forall|k: int| 0 <= k < i ==> constraint_wf(#[trigger] r@[k]) == constraint_wf(cs@[k]),
        decreases cs@.len() - i,
    {
        r.push(cs[i].clone_c());
        i += 1;
    }
    r
}

/// A version equal to a member of `[lo, hi)` is itself in `[lo, hi)`.
proof fn lemma_sat_contig_congr(x: Seq<u64>, v: Seq<u64>, lo: Seq<u64>, hi: Seq<u64>)
    requires
        ver_eq(v, x) || ver_eq(x, v),
        ver_le(lo, v) && ver_lt(v, hi),
    ensures
        ver_le(lo, x) && ver_lt(x, hi),
{
    assert(ver_eq(v, x) && ver_eq(x, v));
    if ver_lt(lo, v) {
        lemma_ver_lt_eq(lo, v, x);
    }
    lemma_ver_eq_lt(x, v, hi);
}

proof fn intersect_bounds_wf(
    a1: Seq<u64>,
    a2: Seq<u64>,
    b1: Seq<u64>,
    b2: Seq<u64>,
    v1: Seq<u64>,
    v2: Seq<u64>,
)
    requires
        ver_lt(a1, a2),
        ver_lt(b1, b2),
        ver_lt(a1, b2),
        ver_lt(b1, a2),
        v1 == a1 || v1 == b1,
        v2 == a2 || v2 == b2,
    ensures
        ver_lt(v1, v2),
{
}

/// `[max(a1,b1), min(a2,b2))` is exactly the intersection of `[a1,a2)` and
/// `[b1,b2)`.
proof fn lemma_contig_intersect_sat(a1: Seq<u64>, a2: Seq<u64>, b1: Seq<u64>, b2: Seq<u64>, v: Seq<u64>)
    ensures
        ({
            let m1 = if ver_lt(b1, a1) {
                a1
            } else {
                b1
            };
            let m2 = if ver_lt(a2, b2) {
                a2
            } else {
                b2
            };
            (ver_le(m1, v) && ver_lt(v, m2)) == (ver_le(a1, v) && ver_lt(v, a2) && ver_le(b1, v)
                && ver_lt(v, b2))
        }),
{
    let m1 = if ver_lt(b1, a1) {
        a1
    } else {
        b1
    };
    let m2 = if ver_lt(a2, b2) {
        a2
    } else {
        b2
    };
    lemma_ver_trichotomy(a1, b1);
    lemma_ver_trichotomy(a2, b2);
    if ver_le(m1, v) && ver_lt(v, m2) {
        if m1 == a1 {
            if ver_lt(b1, a1) || ver_eq(b1, a1) {
                lemma_ver_le_trans(b1, a1, v);
            }
        } else {
            if ver_lt(a1, b1) || ver_eq(a1, b1) {
                lemma_ver_le_trans(a1, b1, v);
            } else {
                assert(ver_lt(b1, a1));
                assert(m1 == a1);
            }
        }
        if m2 == a2 {
            if ver_lt(a2, b2) || ver_eq(a2, b2) {
                lemma_ver_lt_le_trans(v, a2, b2);
            } else {
                assert(ver_lt(b2, a2));
                assert(m2 == b2);
            }
        } else {
            assert(!ver_lt(a2, b2));
            assert(ver_le(b2, a2)) by {
                if ver_eq(a2, b2) {
                }
            }
            lemma_ver_lt_le_trans(v, b2, a2);
        }
    }
}

proof fn lemma_pair_sat_step(a: Seq<Constraint>, b: Seq<Constraint>, i: int, j: int, v: Seq<u64>)
    requires
        0 <= i < a.len(),
        0 <= j < b.len(),
    ensures
        pair_sat(a, b, i, j + 1, v) == (pair_sat(a, b, i, j, v) || (sat_constraint(a[i], v)
            && sat_constraint(b[j], v))),
{
    if pair_sat(a, b, i, j, v) {
        let (x, y) = choose|x: int, y: int|
            0 <= x < a.len() && 0 <= y < b.len() && (x < i || (x == i && y < j)) && sat_constraint(
                #[trigger] a[x],
                v,
            ) && sat_constraint(#[trigger] b[y], v);
        assert(x < i || (x == i && y < j + 1));
        assert(pair_sat(a, b, i, j + 1, v));
    }
    if sat_constraint(a[i], v) && sat_constraint(b[j], v) {
        assert(pair_sat(a, b, i, j + 1, v));
    }
    if pair_sat(a, b, i, j + 1, v) && !(sat_constraint(a[i], v) && sat_constraint(b[j], v)) {
        let (x, y) = choose|x: int, y: int|
            0 <= x < a.len() && 0 <= y < b.len() && (x < i || (x == i && y < j + 1))
                && sat_constraint(#[trigger] a[x], v) && sat_constraint(#[trigger] b[y], v);
        if x == i && y == j {
            assert(false);
        }
        assert(x < i || (x == i && y < j));
        assert(pair_sat(a, b, i, j, v));
    }
}

proof fn lemma_pair_sat_row(a: Seq<Constraint>, b: Seq<Constraint>, i: int, v: Seq<u64>)
    requires
        0 <= i < a.len(),
    ensures
        pair_sat(a, b, i + 1, 0, v) == pair_sat(a, b, i, b.len() as int, v),
{
    if pair_sat(a, b, i + 1, 0, v) {
        let (x, y) = choose|x: int, y: int|
            0 <= x < a.len() && 0 <= y < b.len() && (x < i + 1 || (x == i + 1 && y < 0))
                && sat_constraint(#[trigger] a[x], v) && sat_constraint(#[trigger] b[y], v);
        assert(x < i || (x == i && y < b.len()));
        assert(pair_sat(a, b, i, b.len() as int, v));
    }
    if pair_sat(a, b, i, b.len() as int, v) {
        let (x, y) = choose|x: int, y: int|
            0 <= x < a.len() && 0 <= y < b.len() && (x < i || (x == i && y < b.len()))
                && sat_constraint(#[trigger] a[x], v) && sat_constraint(#[trigger] b[y], v);
        assert(x < i + 1);
        assert(pair_sat(a, b, i + 1, 0, v));
    }
}

impl Clone for VersionRange {
    fn clone(&self) -> (r: Self)
        ensures
            r.constraints@.len() == self.constraints@.len(),
            forall|k: int|
                0 <= k < self.constraints@.len() ==> constraint_like(
                    #[trigger] r.constraints@[k],
                    self.constraints@[k],
                ),
            forall|v: Seq<u64>|
                #[trigger] sat_range(r.constraints@, v) == sat_range(self.constraints@, v),
            range_wf(r.constraints@) == range_wf(self.constraints@),
    {
        let constraints = clone_constraints(&self.constraints);
        proof {
            assert forall|v: Seq<u64>|
                #[trigger] sat_range(constraints@, v) == sat_range(self.constraints@, v) by {
                lemma_sat_like(constraints@, self.constraints@, v);
            }
            assert forall|k: int|
                0 <= k < self.constraints@.len() implies constraint_wf(#[trigger] self.constraints@[k])
                == constraint_wf(constraints@[k]) by {}
        }
        VersionRange { constraints }
    }
}

/// Intersecting any range with the `Any` range leaves it unchanged.
///
/// Stated over the facts `intersect` ensures: when `other` is the sole `Any`
/// constraint and `self` does not itself start with `Any`, the result is
/// `Ok` and its constraints match `self`'s one for one.
pub proof fn lemma_intersect_any_identity(
    a: Seq<Constraint>,
    b: Seq<Constraint>,
    r: Result<VersionRange, EmptyIntersection>,
)
    requires
        b.len() == 1,
        b[0] matches Constraint::Any,
        !(a[0] matches Constraint::Any),
        a.len() >= 1,
        match r {
            Ok(rr) => rr.constraints@.len() == a.len() && forall|i: int|
                0 <= i < a.len() ==> constraint_like(#[trigger] rr.constraints@[i], a[i]),
            Err(_) => false,
        },
    ensures
        r is Ok,
        r->Ok_0.constraints@.len() == a.len(),
        forall|i: int| 0 <= i < a.len() ==> constraint_like(#[trigger] r->Ok_0.constraints@[i], a[i]),
{
}


/// The digit character for `d` in `0..10`.
pub open spec fn digit_char_of(d: int) -> char {
    if d == 0 {
        '0'
    } else if d == 1 {
        '1'
    } else if d == 2 {
        '2'
    } else if d == 3 {
        '3'
    } else if d == 4 {
        '4'
    } else if d == 5 {
        '5'
    } else if d == 6 {
        '6'
    } else if d == 7 {
        '7'
    } else if d == 8 {
        '8'
    } else {
        '9'
    }
}

/// The decimal rendering of a non-negative number.
pub open spec fn dec_str(n: int) -> Seq<char>
    decreases n,
{
    if n < 10 {
        seq![digit_char_of(n)]
    } else {
        dec_str(n / 10).push(digit_char_of(n % 10))
    }
}

/// Components joined with dots, each rendered in decimal.
pub open spec fn dotted(cs: Seq<u64>) -> Seq<char>
    decreases cs.len(),
{
    if cs.len() == 0 {
        Seq::<char>::empty()
    } else if cs.len() == 1 {
        dec_str(cs[0] as int)
    } else {
        dotted(cs.drop_last()) + seq!['.'] + dec_str(cs.last() as int)
    }
}

/// The text with every trailing `.0` removed.
pub open spec fn chomp_zeros(s: Seq<char>) -> Seq<char>
    decreases s.len(),
{
    if s.len() >= 2 && s[s.len() - 1] == '0' && s[s.len() - 2] == '.' {
        chomp_zeros(s.take(s.len() - 2))
    } else {
        s
    }
}

/// `hi` is `lo` with its component at `hi`'s last position bumped by one:
/// the shape the `@` constraint form denotes.
pub open spec fn at_rel(lo: Seq<u64>, hi: Seq<u64>) -> bool {
    lo.len() <= hi.len() && hi.len() > 0 && crate::semver::comp_at(lo, hi.len() - 1) + 1 == hi[hi.len()
        - 1] && (forall|j: int| 0 <= j < hi.len() - 1 ==> crate::semver::comp_at(lo, j) == hi[j])
}

/// The canonical text of one constraint.
pub open spec fn spec_format_constraint(c: Constraint) -> Seq<char> {
    match c {
        Constraint::Any => seq!['*'],
        Constraint::Single(v) => seq!['='] + dotted(v.components@),
        Constraint::Contiguous(v1, v2) => {
            let a = v1.components@;
            let b = v2.components@;
            if crate::semver::comp_at(b, 0) == crate::semver::comp_at(a, 0) + 1
                && crate::semver::comp_at(b, 1) == 0 && crate::semver::comp_at(b, 2) == 0 {
                if crate::semver::comp_at(a, 0) == 0 {
                    if a.len() == 1 {
                        seq!['^', '0']
                    } else {
                        seq!['>', '='] + chomp_zeros(v1.raw@) + seq!['<', '1']
                    }
                } else {
                    seq!['^'] + chomp_zeros(v1.raw@)
                }
            } else if crate::semver::comp_at(b, 0) == crate::semver::comp_at(a, 0)
                && crate::semver::comp_at(b, 1) == crate::semver::comp_at(a, 1) + 1
                && crate::semver::comp_at(b, 2) == 0 {
                seq!['~'] + chomp_zeros(v1.raw@)
            } else if crate::semver::comp_at(b, 0) == u64::MAX {
                seq!['>', '='] + chomp_zeros(v1.raw@)
            } else if at_rel(a, b) {
                seq!['@'] + dotted(a)
            } else {
                seq!['>', '='] + chomp_zeros(v1.raw@) + seq!['<'] + chomp_zeros(v2.raw@)
            }
        },
    }
}

/// The canonical text of a range: constraints joined with commas.
pub open spec fn spec_format_range(cs: Seq<Constraint>) -> Seq<char>
    decreases cs.len(),
{
    if cs.len() == 0 {
        Seq::<char>::empty()
    } else if cs.len() == 1 {
        spec_format_constraint(cs[0])
    } else {
        spec_format_range(cs.drop_last()) + seq![','] + spec_format_constraint(cs.last())
    }
}

/// The one-character text of a digit.
fn digit_str(d: u64) -> (r: &'static str)
    requires
        d < 10,
    ensures
        r@ =~= seq![digit_char_of(d as int)],
{
    proof {
        reveal_strlit("0");
        reveal_strlit("1");
        reveal_strlit("2");
        reveal_strlit("3");
        reveal_strlit("4");
        reveal_strlit("5");
        reveal_strlit("6");
        reveal_strlit("7");
        reveal_strlit("8");
        reveal_strlit("9");
    }
    if d == 0 {
        "0"
    } else if d == 1 {
        "1"
    } else if d == 2 {
        "2"
    } else if d == 3 {
        "3"
    } else if d == 4 {
        "4"
    } else if d == 5 {
        "5"
    } else if d == 6 {
        "6"
    } else if d == 7 {
        "7"
    } else if d == 8 {
        "8"
    } else {
        "9"
    }
}

/// Append the decimal rendering of `n`.
fn push_dec(n: u64, out: &mut String)
    ensures
        final(out)@ == old(out)@ + dec_str(n as int),
    decreases n,
{
    if n >= 10 {
        push_dec(n / 10, out);
        out.append(digit_str(n % 10));
        proof {
            assert(out@ =~= old(out)@ + dec_str(n as int));
        }
    } else {
        out.append(digit_str(n));
        proof {
            assert(out@ =~= old(out)@ + dec_str(n as int));
        }
    }
}

/// Append the components joined with dots.
pub(crate) fn push_dotted(cs: &Vec<u64>, out: &mut String)
    ensures
        final(out)@ == old(out)@ + dotted(cs@),
{
    let mut i: usize = 0;
    while i < cs.len()
        invariant
            i <= cs@.len(),
            out@ == old(out)@ + dotted(cs@.take(i as int)),
        decreases cs@.len() - i,
    {
        if i > 0 {
            out.append(".");
            proof {
                reveal_strlit(".");
            }
        }
        push_dec(cs[i], out);
        proof {
            assert(cs@.take(i + 1).drop_last() =~= cs@.take(i as int));
            assert(cs@.take(i + 1).last() == cs@[i as int]);
            if i == 0 {
                assert(cs@.take(1) =~= seq![cs@[0]]);
                assert(dotted(cs@.take(1)) == dec_str(cs@[0] as int));
            }
            assert(out@ =~= old(out)@ + dotted(cs@.take(i + 1)));
        }
        i += 1;
    }
    proof {
        assert(cs@.take(cs@.len() as int) =~= cs@);
    }
}

/// The text with every trailing `.0` removed.
fn chomp(s: &str) -> (r: String)
    ensures
        r@ == chomp_zeros(s@),
{
    let n = s.unicode_len();
    let mut m: usize = n;
    proof {
        assert(s@.take(n as int) =~= s@);
    }
    while m >= 2 && s.get_char(m - 1) == '0' && s.get_char(m - 2) == '.'
        invariant
            m <= n,
            n == s@.len(),
            chomp_zeros(s@.take(m as int)) == chomp_zeros(s@),
        decreases m,
    {
        proof {
            let t = s@.take(m as int);
            assert(t[m - 1] == s@[m - 1]);
            assert(t[m - 2] == s@[m - 2]);
            assert(t.take(m - 2) =~= s@.take(m - 2));
        }
        m -= 2;
    }
    proof {
        let t = s@.take(m as int);
        if m >= 2 {
            assert(t[m - 1] == s@[m - 1]);
            assert(t[m - 2] == s@[m - 2]);
        }
        assert(chomp_zeros(s@.take(m as int)) == s@.take(m as int));
    }
    let r = s.substring_char(0, m);
    proof {
        assert(r@ =~= s@.take(m as int));
    }
    r.to_owned()
}

fn comp_or_zero(v: &Vec<u64>, i: usize) -> (r: u64)
    ensures
        r == crate::semver::comp_at(v@, i as int),
{
    if i < v.len() {
        v[i]
    } else {
        0
    }
}

/// True when the bounds have the shape the `@` constraint form denotes.
fn at_check(lo: &Vec<u64>, hi: &Vec<u64>) -> (r: bool)
    ensures
        r == at_rel(lo@, hi@),
{
    if lo.len() > hi.len() || hi.len() == 0 {
        return false;
    }
    let last = hi[hi.len() - 1];
    let lo_last = comp_or_zero(lo, hi.len() - 1);
    if last == 0 || lo_last != last - 1 {
        return false;
    }
    let mut j: usize = 0;
    while j < hi.len() - 1
        invariant
            hi@.len() > 0,
            j <= hi@.len() - 1,
            lo@.len() <= hi@.len(),
            crate::semver::comp_at(lo@, hi@.len() - 1) + 1 == hi@[hi@.len() - 1],
            forall|k: int| 0 <= k < j ==> crate::semver::comp_at(lo@, k) == hi@[k],
        decreases hi@.len() - j,
    {
        if comp_or_zero(lo, j) != hi[j] {
            return false;
        }
        j += 1;
    }
    true
}

impl Constraint {
    /// Render this constraint in the canonical input grammar.
    pub fn format(&self) -> (r: String)
        ensures
            r@ == spec_format_constraint(*self),
    {
        match self {
            Constraint::Any => {
                proof {
                    reveal_strlit("*");
                }
                let r = String::new();
                let mut r = r;
                r.append("*");
                proof {
                    assert(r@ =~= spec_format_constraint(*self));
                }
                r
            },
            Constraint::Single(v) => {
                proof {
                    reveal_strlit("=");
                }
                let mut r = String::new();
                r.append("=");
                push_dotted(&v.components, &mut r);
                proof {
                    assert(r@ =~= spec_format_constraint(*self));
                }
                r
            },
            Constraint::Contiguous(v1, v2) => {
                proof {
                    reveal_strlit("^");
                    reveal_strlit("^0");
                    reveal_strlit("~");
                    reveal_strlit("@");
                    reveal_strlit(">=");
                    reveal_strlit("<");
                    reveal_strlit("<1");
                }
                let a0 = comp_or_zero(&v1.components, 0);
                let a1 = comp_or_zero(&v1.components, 1);
                let b0 = comp_or_zero(&v2.components, 0);
                let b1 = comp_or_zero(&v2.components, 1);
                let b2 = comp_or_zero(&v2.components, 2);
                let mut r = String::new();
                if b0 > 0 && a0 == b0 - 1 && b1 == 0 && b2 == 0 {
                    if a0 == 0 {
                        if v1.components.len() == 1 {
                            r.append("^0");
                        } else {
                            r.append(">=");
                            let c = chomp(v1.raw.as_str());
                            r.append(c.as_str());
                            r.append("<1");
                        }
                    } else {
                        r.append("^");
                        let c = chomp(v1.raw.as_str());
                        r.append(c.as_str());
                    }
                } else if b0 == a0 && b1 > 0 && a1 == b1 - 1 && b2 == 0 {
                    r.append("~");
                    let c = chomp(v1.raw.as_str());
                    r.append(c.as_str());
                } else if b0 == u64::MAX {
                    r.append(">=");
                    let c = chomp(v1.raw.as_str());
                    r.append(c.as_str());
                } else if at_check(&v1.components, &v2.components) {
                    r.append("@");
                    push_dotted(&v1.components, &mut r);
                } else {
                    r.append(">=");
                    let c1 = chomp(v1.raw.as_str());
                    r.append(c1.as_str());
                    r.append("<");
                    let c2 = chomp(v2.raw.as_str());
                    r.append(c2.as_str());
                }
                proof {
                    assert(r@ =~= spec_format_constraint(*self));
                }
                r
            },
        }
    }
}

impl VersionRange {
    /// Render the range in the canonical input grammar: constraints joined
    /// with commas.
    pub fn format(&self) -> (r: String)
        ensures
            r@ == spec_format_range(self.constraints@),
    {
        let mut r = String::new();
        let mut i: usize = 0;
        while i < self.constraints.len()
            invariant
                i <= self.constraints@.len(),
                r@ == spec_format_range(self.constraints@.take(i as int)),
            decreases self.constraints@.len() - i,
        {
            if i > 0 {
                proof {
                    reveal_strlit(",");
                }
                r.append(",");
            }
            let c = self.constraints[i].format();
            r.append(c.as_str());
            proof {
                let cs = self.constraints@;
                assert(cs.take(i + 1).drop_last() =~= cs.take(i as int));
                assert(cs.take(i + 1).last() == cs[i as int]);
                if i == 0 {
                    assert(cs.take(1).len() == 1);
                    assert(cs.take(1)[0] == cs[0]);
                }
                assert(r@ =~= spec_format_range(cs.take(i + 1)));
            }
            i += 1;
        }
        proof {
            assert(self.constraints@.take(self.constraints@.len() as int) =~= self.constraints@);
        }
        r
    }
}


/// A range string was rejected: empty, an unknown constraint form, a bad
/// version, or an interval whose bounds are not ordered.
#[derive(Clone, Copy, PartialEq, Eq, Structural, Debug)]
pub struct RangeParseError;

/// The shape a constraint parses to: its component lists and texts.
pub enum ConstraintShape {
    Any,
    Single { comps: Seq<u64>, raw: Seq<char> },
    Contig { lo: Seq<u64>, lo_raw: Seq<char>, hi: Seq<u64>, hi_raw: Seq<char> },
}

/// The shape of a constraint value.
pub open spec fn c_shape(c: Constraint) -> ConstraintShape {
    match c {
        Constraint::Any => ConstraintShape::Any,
        Constraint::Single(v) => ConstraintShape::Single { comps: v.components@, raw: v.raw@ },
        Constraint::Contiguous(l, h) => ConstraintShape::Contig {
            lo: l.components@,
            lo_raw: l.raw@,
            hi: h.components@,
            hi_raw: h.raw@,
        },
    }
}

/// An interval shape must have ordered bounds.
pub open spec fn shape_wf(sh: ConstraintShape) -> bool {
    match sh {
        ConstraintShape::Contig { lo, hi, .. } => ver_lt(lo, hi),
        _ => true,
    }
}

/// A whitespace character, as the range grammar skips around separators.
pub open spec fn is_ws(c: char) -> bool {
    c == ' ' || c == '\t' || c == '\n' || c == '\r'
}

/// The first position at or after `i` where `c` occurs, or the length.
pub open spec fn find_char_from(s: Seq<char>, c: char, i: int) -> int
    decreases s.len() - i,
{
    if i >= s.len() {
        s.len() as int
    } else if s[i] == c {
        i
    } else {
        find_char_from(s, c, i + 1)
    }
}

/// The text with trailing whitespace removed.
pub open spec fn trim_right(s: Seq<char>) -> Seq<char>
    decreases s.len(),
{
    if s.len() > 0 && is_ws(s.last()) {
        trim_right(s.drop_last())
    } else {
        s
    }
}

/// The text with leading whitespace removed.
pub open spec fn trim_left(s: Seq<char>) -> Seq<char>
    decreases s.len(),
{
    if s.len() > 0 && is_ws(s[0]) {
        trim_left(s.skip(1))
    } else {
        s
    }
}

/// The text with whitespace removed at both ends.
pub open spec fn trim_ws(s: Seq<char>) -> Seq<char> {
    trim_right(trim_left(s))
}

/// The length of a token separator at position `i`: `,` or `||`.
pub open spec fn sep_len_at(s: Seq<char>, i: int) -> int {
    if s[i] == ',' {
        1
    } else if s[i] == '|' && i + 1 < s.len() && s[i + 1] == '|' {
        2
    } else {
        0
    }
}

/// The first separator position at or after `i`, or the length.
pub open spec fn next_sep(s: Seq<char>, i: int) -> int
    decreases s.len() - i,
{
    if i >= s.len() {
        s.len() as int
    } else if sep_len_at(s, i) > 0 {
        i
    } else {
        next_sep(s, i + 1)
    }
}

/// The trimmed tokens of `s` from position `i` on, split at separators.
pub open spec fn tokens_from(s: Seq<char>, i: int) -> Seq<Seq<char>>
    recommends
        0 <= i <= s.len(),
    decreases s.len() - i + 1,
    when 0 <= i <= s.len()
    via tokens_from_decreases
{
    let k = next_sep(s, i);
    let tok = trim_ws(s.subrange(i, k));
    if k >= s.len() {
        seq![tok]
    } else {
        seq![tok] + tokens_from(s, k + sep_len_at(s, k))
    }
}

#[via_fn]
proof fn tokens_from_decreases(s: Seq<char>, i: int) {
    lemma_next_sep_bounds(s, i);
}

proof fn lemma_next_sep_bounds(s: Seq<char>, i: int)
    requires
        0 <= i <= s.len(),
    ensures
        i <= next_sep(s, i) <= s.len(),
        next_sep(s, i) < s.len() ==> sep_len_at(s, next_sep(s, i)) > 0 && next_sep(s, i)
            + sep_len_at(s, next_sep(s, i)) <= s.len(),
    decreases s.len() - i,
{
    if i < s.len() && sep_len_at(s, i) == 0 {
        lemma_next_sep_bounds(s, i + 1);
    }
}

/// The trimmed constraint tokens of a range string.
pub open spec fn tokens_of(s: Seq<char>) -> Seq<Seq<char>> {
    tokens_from(s, 0)
}

/// The operator characters of the one-character constraint forms.
pub open spec fn is_simple_op(c: char) -> bool {
    c == '^' || c == '~' || c == '<' || c == '@' || c == '='
}

/// The components of the unbounded upper limit.
pub open spec fn infinity_comps() -> Seq<u64> {
    seq![u64::MAX, u64::MAX, u64::MAX]
}

/// What one constraint token parses to, or nothing when it is rejected.
pub open spec fn spec_parse_constraint(s: Seq<char>) -> Option<ConstraintShape> {
    if s.len() >= 2 && s[0] == '>' && s[1] == '=' {
        let k = find_char_from(s, '<', 2);
        let lo_str = trim_right(s.subrange(2, k));
        if !crate::semver::is_version_str(lo_str) {
            None
        } else if k >= s.len() {
            Some(
                ConstraintShape::Contig {
                    lo: crate::semver::version_comps_of(lo_str),
                    lo_raw: lo_str,
                    hi: infinity_comps(),
                    hi_raw: "Infinity.Infinity.Infinity"@,
                },
            )
        } else {
            let hi_str = s.subrange(k + 1, s.len() as int);
            if crate::semver::is_version_str(hi_str) {
                Some(
                    ConstraintShape::Contig {
                        lo: crate::semver::version_comps_of(lo_str),
                        lo_raw: lo_str,
                        hi: crate::semver::version_comps_of(hi_str),
                        hi_raw: hi_str,
                    },
                )
            } else {
                None
            }
        }
    } else if s == seq!['^', '0'] {
        Some(
            ConstraintShape::Contig {
                lo: seq![0u64, 0u64, 0u64],
                lo_raw: "0.0.0"@,
                hi: seq![1u64, 0u64, 0u64],
                hi_raw: "1.0.0"@,
            },
        )
    } else if s.len() >= 2 && is_simple_op(s[0]) {
        let rest = s.subrange(1, s.len() as int);
        if !crate::semver::is_version_str(rest) {
            None
        } else {
            let v = crate::semver::version_comps_of(rest);
            if s[0] == '=' {
                Some(ConstraintShape::Single { comps: v, raw: rest })
            } else if s[0] == '<' {
                Some(
                    ConstraintShape::Contig {
                        lo: seq![0u64],
                        lo_raw: "0"@,
                        hi: v,
                        hi_raw: rest,
                    },
                )
            } else if s[0] == '^' {
                if crate::semver::comp_at(v, 0) > 0 {
                    if crate::semver::comp_at(v, 0) < u64::MAX {
                        Some(
                            ConstraintShape::Contig {
                                lo: v,
                                lo_raw: rest,
                                hi: seq![(crate::semver::comp_at(v, 0) + 1) as u64],
                                hi_raw: dec_str(crate::semver::comp_at(v, 0) + 1),
                            },
                        )
                    } else {
                        None
                    }
                } else if crate::semver::comp_at(v, 1) > 0 {
                    if crate::semver::comp_at(v, 1) < u64::MAX {
                        Some(
                            ConstraintShape::Contig {
                                lo: v,
                                lo_raw: rest,
                                hi: seq![
                                    crate::semver::comp_at(v, 0),
                                    (crate::semver::comp_at(v, 1) + 1) as u64,
                                ],
                                hi_raw: dotted(
                                    seq![
                                        crate::semver::comp_at(v, 0),
                                        (crate::semver::comp_at(v, 1) + 1) as u64,
                                    ],
                                ),
                            },
                        )
                    } else {
                        None
                    }
                } else {
                    Some(ConstraintShape::Single { comps: v, raw: rest })
                }
            } else if s[0] == '~' {
                if v.len() == 1 {
                    if crate::semver::comp_at(v, 0) < u64::MAX {
                        Some(
                            ConstraintShape::Contig {
                                lo: v,
                                lo_raw: rest,
                                hi: seq![(crate::semver::comp_at(v, 0) + 1) as u64],
                                hi_raw: dec_str(crate::semver::comp_at(v, 0) + 1),
                            },
                        )
                    } else {
                        None
                    }
                } else {
                    if crate::semver::comp_at(v, 1) < u64::MAX {
                        Some(
                            ConstraintShape::Contig {
                                lo: v,
                                lo_raw: rest,
                                hi: seq![
                                    crate::semver::comp_at(v, 0),
                                    (crate::semver::comp_at(v, 1) + 1) as u64,
                                ],
                                hi_raw: dotted(
                                    seq![
                                        crate::semver::comp_at(v, 0),
                                        (crate::semver::comp_at(v, 1) + 1) as u64,
                                    ],
                                ),
                            },
                        )
                    } else {
                        None
                    }
                }
            } else {
                // '@': bump the last component
                if v.len() > 0 && v.last() < u64::MAX {
                    let hi = v.update(v.len() - 1, (v.last() + 1) as u64);
                    Some(
                        ConstraintShape::Contig {
                            lo: v,
                            lo_raw: rest,
                            hi: hi,
                            hi_raw: dotted(hi),
                        },
                    )
                } else {
                    None
                }
            }
        }
    } else {
        None
    }
}

/// What a range string parses to: the shapes of its constraints, or nothing
/// when it is rejected.
pub open spec fn spec_parse_range(s: Seq<char>) -> Option<Seq<ConstraintShape>> {
    if s.len() == 0 {
        None
    } else if s == seq!['*'] {
        Some(seq![ConstraintShape::Any])
    } else {
        let toks = tokens_of(s);
        if forall|k: int|
            0 <= k < toks.len() ==> (#[trigger] spec_parse_constraint(toks[k])) is Some
                && shape_wf(spec_parse_constraint(toks[k])->Some_0) {
            Some(Seq::new(toks.len(), |k: int| spec_parse_constraint(toks[k])->Some_0))
        } else {
            None
        }
    }
}


fn is_ws_exec(c: char) -> (r: bool)
    ensures
        r == is_ws(c),
{
    c == ' ' || c == '\t' || c == '\n' || c == '\r'
}

fn find_char_exec(s: &str, c: char, start: usize) -> (r: usize)
    requires
        start <= s@.len(),
    ensures
        r == find_char_from(s@, c, start as int),
        start <= r <= s@.len(),
{
    let n = s.unicode_len();
    let mut i = start;
    while i < n
        invariant
            start <= i <= n,
            n == s@.len(),
            find_char_from(s@, c, start as int) == find_char_from(s@, c, i as int),
        decreases n - i,
    {
        if s.get_char(i) == c {
            return i;
        }
        i += 1;
    }
    i
}

fn sep_len_exec(s: &str, k: usize) -> (r: usize)
    requires
        k < s@.len(),
    ensures
        r == sep_len_at(s@, k as int),
{
    let n = s.unicode_len();
    let c = s.get_char(k);
    if c == ',' {
        1
    } else if c == '|' && k + 1 < n && s.get_char(k + 1) == '|' {
        2
    } else {
        0
    }
}

fn next_sep_exec(s: &str, start: usize) -> (r: usize)
    requires
        start <= s@.len(),
    ensures
        r == next_sep(s@, start as int),
        start <= r <= s@.len(),
{
    let n = s.unicode_len();
    let mut i = start;
    while i < n
        invariant
            start <= i <= n,
            n == s@.len(),
            next_sep(s@, start as int) == next_sep(s@, i as int),
        decreases n - i,
    {
        if sep_len_exec(s, i) > 0 {
            return i;
        }
        i += 1;
    }
    i
}

/// The token between positions `i` and `k`, whitespace trimmed at both ends.
pub(crate) fn trim_token(s: &str, i: usize, k: usize) -> (r: String)
    requires
        i <= k <= s@.len(),
    ensures
        r@ == trim_ws(s@.subrange(i as int, k as int)),
{
    let mut a = i;
    while a < k && is_ws_exec(s.get_char(a))
        invariant
            i <= a <= k,
            k <= s@.len(),
            trim_left(s@.subrange(i as int, k as int)) == trim_left(
                s@.subrange(a as int, k as int),
            ),
        decreases k - a,
    {
        proof {
            let t = s@.subrange(a as int, k as int);
            assert(t[0] == s@[a as int]);
            assert(t.skip(1) =~= s@.subrange(a + 1, k as int));
        }
        a += 1;
    }
    proof {
        let t = s@.subrange(a as int, k as int);
        if t.len() > 0 {
            assert(t[0] == s@[a as int]);
        }
        assert(trim_left(t) == t);
    }
    let mut b = k;
    while b > a && is_ws_exec(s.get_char(b - 1))
        invariant
            a <= b <= k,
            k <= s@.len(),
            trim_right(s@.subrange(a as int, k as int)) == trim_right(
                s@.subrange(a as int, b as int),
            ),
        decreases b,
    {
        proof {
            let t = s@.subrange(a as int, b as int);
            assert(t.last() == s@[b - 1]);
            assert(t.drop_last() =~= s@.subrange(a as int, b - 1));
        }
        b -= 1;
    }
    proof {
        let t = s@.subrange(a as int, b as int);
        if t.len() > 0 {
            assert(t.last() == s@[b - 1]);
        }
        assert(trim_right(t) == t);
    }
    let piece = s.substring_char(a, b);
    proof {
        assert(piece@ =~= s@.subrange(a as int, b as int));
    }
    piece.to_owned()
}

fn split_from(s: &str, i: usize, out: &mut Vec<String>)
    requires
        i <= s@.len(),
    ensures
        final(out)@.map_values(|t: String| t@) == old(out)@.map_values(|t: String| t@)
            + tokens_from(s@, i as int),
    decreases s@.len() - i + 1,
{
    proof {
        lemma_next_sep_bounds(s@, i as int);
    }
    let k = next_sep_exec(s, i);
    let tok = trim_token(s, i, k);
    let n = s.unicode_len();
    out.push(tok);
    if k < n {
        let sep = sep_len_exec(s, k);
        let ghost mid = out@;
        split_from(s, k + sep, out);
        proof {
            assert(out@.map_values(|t: String| t@) =~= old(out)@.map_values(|t: String| t@)
                + tokens_from(s@, i as int));
        }
    } else {
        proof {
            assert(out@.map_values(|t: String| t@) =~= old(out)@.map_values(|t: String| t@)
                + tokens_from(s@, i as int));
        }
    }
}

/// Split a range string into trimmed constraint tokens.
fn split_tokens(s: &str) -> (r: Vec<String>)
    ensures
        r@.map_values(|t: String| t@) == tokens_of(s@),
{
    let mut out: Vec<String> = Vec::new();
    split_from(s, 0, &mut out);
    proof {
        assert(out@.map_values(|t: String| t@) =~= tokens_of(s@));
    }
    out
}

/// Build the component list `cs` with the entry at `idx` bumped by one.
fn bump_at(cs: &Vec<u64>, idx: usize) -> (r: Vec<u64>)
    requires
        idx < cs@.len(),
        cs@[idx as int] < u64::MAX,
    ensures
        r@ == cs@.update(idx as int, (cs@[idx as int] + 1) as u64),
{
    let mut r: Vec<u64> = Vec::new();
    let mut j: usize = 0;
    while j < cs.len()
        invariant
            j <= cs@.len(),
            idx < cs@.len(),
            cs@[idx as int] < u64::MAX,
            r@ == cs@.update(idx as int, (cs@[idx as int] + 1) as u64).take(j as int),
        decreases cs@.len() - j,
    {
        if j == idx {
            r.push(cs[j] + 1);
        } else {
            r.push(cs[j]);
        }
        proof {
            let u = cs@.update(idx as int, (cs@[idx as int] + 1) as u64);
            assert(r@ =~= u.take(j + 1));
        }
        j += 1;
    }
    proof {
        let u = cs@.update(idx as int, (cs@[idx as int] + 1) as u64);
        assert(r@ =~= u);
    }
    r
}

/// Render one component list as a fresh version value.
fn synth_version(comps: Vec<u64>) -> (r: Version)
    ensures
        r.components@ == comps@,
        r.raw@ == dotted(comps@),
{
    let mut raw = String::new();
    push_dotted(&comps, &mut raw);
    Version { components: comps, raw }
}

/// Parse one constraint token.
fn parse_constraint(tok: &str) -> (r: Result<Constraint, RangeParseError>)
    ensures
        match r {
            Ok(c) => spec_parse_constraint(tok@) == Some(c_shape(c)),
            Err(_) => spec_parse_constraint(tok@) is None,
        },
{
    let n = tok.unicode_len();
    if n >= 2 && tok.get_char(0) == '>' && tok.get_char(1) == '=' {
        let k = find_char_exec(tok, '<', 2);
        let mut b = k;
        while b > 2 && is_ws_exec(tok.get_char(b - 1))
            invariant
                2 <= b <= k,
                k <= tok@.len(),
                trim_right(tok@.subrange(2, k as int)) == trim_right(tok@.subrange(2, b as int)),
            decreases b,
        {
            proof {
                let t = tok@.subrange(2, b as int);
                assert(t.last() == tok@[b - 1]);
                assert(t.drop_last() =~= tok@.subrange(2, b - 1));
            }
            b -= 1;
        }
        proof {
            let t = tok@.subrange(2, b as int);
            if t.len() > 0 {
                assert(t.last() == tok@[b - 1]);
            }
            assert(trim_right(t) == t);
        }
        let lo_str = tok.substring_char(2, b);
        proof {
            assert(lo_str@ =~= tok@.subrange(2, b as int));
        }
        let lo = match Version::parse(lo_str) {
            Ok(v) => v,
            Err(_) => {
                return Err(RangeParseError);
            },
        };
        if k == n {
            let hi = Version {
                components: vec![u64::MAX, u64::MAX, u64::MAX],
                raw: String::from_str("Infinity.Infinity.Infinity"),
            };
            proof {
                assert(hi.components@ =~= infinity_comps());
            }
            Ok(Constraint::Contiguous(lo, hi))
        } else {
            let hi_str = tok.substring_char(k + 1, n);
            proof {
                assert(hi_str@ =~= tok@.subrange(k + 1, n as int));
            }
            match Version::parse(hi_str) {
                Ok(hi) => Ok(Constraint::Contiguous(lo, hi)),
                Err(_) => Err(RangeParseError),
            }
        }
    } else if n == 2 && tok.get_char(0) == '^' && tok.get_char(1) == '0' {
        proof {
            assert(tok@ =~= seq!['^', '0']);
        }
        let lo = Version { components: vec![0u64, 0u64, 0u64], raw: String::from_str("0.0.0") };
        let hi = Version { components: vec![1u64, 0u64, 0u64], raw: String::from_str("1.0.0") };
        proof {
            assert(lo.components@ =~= seq![0u64, 0u64, 0u64]);
            assert(hi.components@ =~= seq![1u64, 0u64, 0u64]);
        }
        Ok(Constraint::Contiguous(lo, hi))
    } else if n >= 2 && (tok.get_char(0) == '^' || tok.get_char(0) == '~' || tok.get_char(0) == '<'
        || tok.get_char(0) == '@' || tok.get_char(0) == '=') {
        let c0 = tok.get_char(0);
        let rest = tok.substring_char(1, n);
        proof {
            assert(rest@ =~= tok@.subrange(1, n as int));
        }
        let v = match Version::parse(rest) {
            Ok(v) => v,
            Err(_) => {
                return Err(RangeParseError);
            },
        };
        if c0 == '=' {
            Ok(Constraint::Single(v))
        } else if c0 == '<' {
            let lo = Version { components: vec![0u64], raw: String::from_str("0") };
            proof {
                assert(lo.components@ =~= seq![0u64]);
            }
            Ok(Constraint::Contiguous(lo, v))
        } else if c0 == '^' {
            let major = comp_or_zero(&v.components, 0);
            if major > 0 {
                if major == u64::MAX {
                    return Err(RangeParseError);
                }
                let mut raw = String::new();
                push_dec(major + 1, &mut raw);
                let hi = Version { components: vec![major + 1], raw };
                proof {
                    assert(hi.components@ =~= seq![(crate::semver::comp_at(v.components@, 0)
                        + 1) as u64]);
                }
                Ok(Constraint::Contiguous(v, hi))
            } else {
                let minor = comp_or_zero(&v.components, 1);
                if minor > 0 {
                    if minor == u64::MAX {
                        return Err(RangeParseError);
                    }
                    let hi = synth_version(vec![major, minor + 1]);
                    proof {
                        assert(hi.components@ =~= seq![
                            crate::semver::comp_at(v.components@, 0),
                            (crate::semver::comp_at(v.components@, 1) + 1) as u64,
                        ]);
                    }
                    Ok(Constraint::Contiguous(v, hi))
                } else {
                    Ok(Constraint::Single(v))
                }
            }
        } else if c0 == '~' {
            if v.components.len() == 1 {
                let major = v.components[0];
                if major == u64::MAX {
                    return Err(RangeParseError);
                }
                let mut raw = String::new();
                push_dec(major + 1, &mut raw);
                let hi = Version { components: vec![major + 1], raw };
                proof {
                    assert(hi.components@ =~= seq![(crate::semver::comp_at(v.components@, 0)
                        + 1) as u64]);
                }
                Ok(Constraint::Contiguous(v, hi))
            } else {
                let major = comp_or_zero(&v.components, 0);
                let minor = comp_or_zero(&v.components, 1);
                if minor == u64::MAX {
                    return Err(RangeParseError);
                }
                let hi = synth_version(vec![major, minor + 1]);
                proof {
                    assert(hi.components@ =~= seq![
                        crate::semver::comp_at(v.components@, 0),
                        (crate::semver::comp_at(v.components@, 1) + 1) as u64,
                    ]);
                }
                Ok(Constraint::Contiguous(v, hi))
            }
        } else {
            // '@': bump the last component
            if v.components.len() == 0 {
                return Err(RangeParseError);
            }
            let last = v.components[v.components.len() - 1];
            if last == u64::MAX {
                return Err(RangeParseError);
            }
            let hi_comps = bump_at(&v.components, v.components.len() - 1);
            let hi = synth_version(hi_comps);
            Ok(Constraint::Contiguous(v, hi))
        }
    } else {
        Err(RangeParseError)
    }
}

impl VersionRange {
    /// Parse a range string: `*`, or constraint tokens separated by `,` or
    /// `||`. Each interval must have ordered bounds.
    pub fn parse(s: &str) -> (r: Result<VersionRange, RangeParseError>)
        ensures
            match r {
                Ok(rr) => {
                    &&& spec_parse_range(s@) is Some
                    &&& rr.constraints@.len() == spec_parse_range(s@)->Some_0.len()
                    &&& (forall|k: int|
                        0 <= k < rr.constraints@.len() ==> c_shape(#[trigger] rr.constraints@[k])
                            == spec_parse_range(s@)->Some_0[k])
                    &&& range_wf(rr.constraints@)
                },
                Err(_) => spec_parse_range(s@) is None,
            },
    {
        let n = s.unicode_len();
        if n == 0 {
            return Err(RangeParseError);
        }
        if n == 1 && s.get_char(0) == '*' {
            proof {
                assert(s@ =~= seq!['*']);
            }
            let rr = VersionRange::any();
            proof {
                assert(c_shape(rr.constraints@[0]) == spec_parse_range(s@)->Some_0[0]);
            }
            return Ok(rr);
        }
        proof {
            if s@ == seq!['*'] {
                assert(s@.len() == 1);
                assert(s@[0] == '*');
                assert(false);
            }
        }
        let toks = split_tokens(s);
        let ghost tks = tokens_of(s@);
        let mut cs: Vec<Constraint> = Vec::new();
        let mut i: usize = 0;
        while i < toks.len()
            invariant
                i <= toks@.len(),
                s@.len() > 0,
                s@ != seq!['*'],
                toks@.map_values(|t: String| t@) == tks,
                tks == tokens_of(s@),
                cs@.len() == i,
                forall|k: int|
                    0 <= k < i ==> (#[trigger] spec_parse_constraint(tks[k])) is Some && shape_wf(
                        spec_parse_constraint(tks[k])->Some_0,
                    ) && c_shape(cs@[k]) == spec_parse_constraint(tks[k])->Some_0 && constraint_wf(
                        cs@[k],
                    ),
            decreases toks@.len() - i,
        {
            proof {
                assert(toks@.map_values(|t: String| t@)[i as int] == toks@[i as int]@);
            }
            let c = match parse_constraint(toks[i].as_str()) {
                Ok(c) => c,
                Err(_) => {
                    proof {
                        assert(spec_parse_constraint(tks[i as int]) is None);
                    }
                    return Err(RangeParseError);
                },
            };
            let wf_ok = match &c {
                Constraint::Contiguous(lo, hi) => lo.lt_ver(hi),
                _ => true,
            };
            if !wf_ok {
                proof {
                    assert(!shape_wf(spec_parse_constraint(tks[i as int])->Some_0));
                }
                return Err(RangeParseError);
            }
            cs.push(c);
            i += 1;
        }
        proof {
            assert(tks.len() == toks@.map_values(|t: String| t@).len());
            assert(tks.len() >= 1) by {
                assert(tokens_of(s@).len() >= 1);
            }
            assert(spec_parse_range(s@) == Some(
                Seq::new(tks.len(), |k: int| spec_parse_constraint(tks[k])->Some_0),
            ));
            assert forall|k: int| 0 <= k < cs@.len() implies c_shape(#[trigger] cs@[k])
                == spec_parse_range(s@)->Some_0[k] by {}
        }
        Ok(VersionRange { constraints: cs })
    }
}


proof fn lemma_dec_str_digits(n: int)
    requires
        n >= 0,
    ensures
        crate::semver::all_digits(dec_str(n)),
        crate::semver::digits_value(dec_str(n)) == n,
        dec_str(n).len() >= 1,
        forall|i: int| 0 <= i < dec_str(n).len() ==> (#[trigger] dec_str(n)[i]) != '.',
    decreases n,
{
    if n < 10 {
        let s1 = dec_str(n);
        assert(s1 == seq![digit_char_of(n)]);
        assert(s1.len() == 1);
        assert(s1.drop_last() =~= Seq::<char>::empty());
        assert(s1.last() == digit_char_of(n));
        assert(crate::semver::digits_value(s1.drop_last()) == 0);
        assert(crate::semver::digit_val(digit_char_of(n)) == n);
        assert(crate::semver::digits_value(s1) == n);
    } else {
        lemma_dec_str_digits(n / 10);
        let s = dec_str(n);
        assert(s == dec_str(n / 10).push(digit_char_of(n % 10)));
        assert(s.drop_last() =~= dec_str(n / 10));
        assert(s.last() == digit_char_of(n % 10));
        assert(crate::semver::digits_value(s) == crate::semver::digits_value(dec_str(n / 10)) * 10
            + crate::semver::digit_val(digit_char_of(n % 10)));
        assert(crate::semver::digit_val(digit_char_of(n % 10)) == n % 10);
        assert(n / 10 * 10 + n % 10 == n);
        assert(crate::semver::all_digits(s)) by {
            assert forall|i: int| 0 <= i < s.len() implies crate::semver::is_digit_char(
                #[trigger] s[i],
            ) by {
                if i < s.len() - 1 {
                    assert(s[i] == dec_str(n / 10)[i]);
                }
            }
        }
        assert forall|i: int| 0 <= i < s.len() implies (#[trigger] s[i]) != '.' by {
            if i < s.len() - 1 {
                assert(s[i] == dec_str(n / 10)[i]);
            }
        }
    }
}

/// Appending a dot-free tail after a dot adds exactly one chunk.
proof fn lemma_chunks_append_nodot(s: Seq<char>, t: Seq<char>)
    requires
        forall|i: int| 0 <= i < t.len() ==> (#[trigger] t[i]) != '.',
    ensures
        crate::semver::dot_chunks(s + seq!['.'] + t) == crate::semver::dot_chunks(s).push(t),
    decreases t.len(),
{
    if t.len() == 0 {
        let u = s + seq!['.'] + t;
        assert(u =~= s.push('.'));
        assert(u.len() == s.len() + 1);
        assert(u.drop_last() =~= s);
        assert(u.last() == '.');
        assert(crate::semver::dot_chunks(u) == crate::semver::dot_chunks(u.drop_last()).push(
            Seq::<char>::empty(),
        ));
        assert(u.drop_last() == s);
        assert(t =~= Seq::<char>::empty());
        assert(crate::semver::dot_chunks(u) =~= crate::semver::dot_chunks(s).push(t));
    } else {
        let t0 = t.drop_last();
        assert(forall|i: int| 0 <= i < t0.len() ==> (#[trigger] t0[i]) != '.') by {
            assert forall|i: int| 0 <= i < t0.len() implies (#[trigger] t0[i]) != '.' by {
                assert(t0[i] == t[i]);
            }
        }
        lemma_chunks_append_nodot(s, t0);
        let u = s + seq!['.'] + t;
        let u0 = s + seq!['.'] + t0;
        assert(u.drop_last() =~= u0);
        assert(u.last() == t.last());
        assert(t.last() != '.');
        let r0 = crate::semver::dot_chunks(u0);
        assert(r0 == crate::semver::dot_chunks(s).push(t0));
        assert(r0.len() >= 1);
        assert(crate::semver::dot_chunks(u) == r0.update(r0.len() - 1, r0.last().push(t.last())));
        assert(r0.last() == t0);
        assert(t0.push(t.last()) =~= t);
        assert(crate::semver::dot_chunks(u) =~= crate::semver::dot_chunks(s).push(t));
    }
}

/// A dot-free text is one single chunk.
proof fn lemma_chunks_nodot(t: Seq<char>)
    requires
        forall|i: int| 0 <= i < t.len() ==> (#[trigger] t[i]) != '.',
    ensures
        crate::semver::dot_chunks(t) == seq![t],
    decreases t.len(),
{
    if t.len() == 0 {
        assert(t =~= Seq::<char>::empty());
        assert(crate::semver::dot_chunks(t) == seq![Seq::<char>::empty()]);
        assert(crate::semver::dot_chunks(t) =~= seq![t]);
    } else {
        let t0 = t.drop_last();
        assert forall|i: int| 0 <= i < t0.len() implies (#[trigger] t0[i]) != '.' by {
            assert(t0[i] == t[i]);
        }
        lemma_chunks_nodot(t0);
        let r0 = crate::semver::dot_chunks(t0);
        assert(crate::semver::dot_chunks(t) == r0.update(r0.len() - 1, r0.last().push(t.last())));
        assert(t0.push(t.last()) =~= t);
        assert(crate::semver::dot_chunks(t) =~= seq![t]);
    }
}

/// The dotted rendering of components is a well-formed version string that
/// parses back to the same components.
pub proof fn lemma_dotted_roundtrip(cs: Seq<u64>)
    requires
        cs.len() >= 1,
    ensures
        crate::semver::is_version_str(dotted(cs)),
        crate::semver::version_comps_of(dotted(cs)) == cs,
    decreases cs.len(),
{
    if cs.len() == 1 {
        lemma_dec_str_digits(cs[0] as int);
        lemma_chunks_nodot(dec_str(cs[0] as int));
        assert(crate::semver::dot_chunks(dotted(cs)) == seq![dec_str(cs[0] as int)]);
        assert(crate::semver::chunk_ok(dec_str(cs[0] as int)));
        assert(crate::semver::version_comps_of(dotted(cs)) =~= cs);
    } else {
        let head = cs.drop_last();
        lemma_dotted_roundtrip(head);
        lemma_dec_str_digits(cs.last() as int);
        lemma_chunks_append_nodot(dotted(head), dec_str(cs.last() as int));
        assert(crate::semver::dot_chunks(dotted(cs)) == crate::semver::dot_chunks(
            dotted(head),
        ).push(dec_str(cs.last() as int)));
        assert(crate::semver::is_version_str(dotted(cs))) by {
            assert forall|i: int|
                0 <= i < crate::semver::dot_chunks(dotted(cs)).len() implies crate::semver::chunk_ok(
                #[trigger] crate::semver::dot_chunks(dotted(cs))[i],
            ) by {
                if i < crate::semver::dot_chunks(dotted(cs)).len() - 1 {
                    assert(crate::semver::dot_chunks(dotted(cs))[i] == crate::semver::dot_chunks(
                        dotted(head),
                    )[i]);
                    assert(crate::semver::chunk_ok(crate::semver::dot_chunks(dotted(head))[i]));
                } else {
                    assert(crate::semver::dot_chunks(dotted(cs))[i] == dec_str(cs.last() as int));
                }
            }
        }
        assert(crate::semver::version_comps_of(dotted(cs)) =~= cs) by {
            let full = crate::semver::dot_chunks(dotted(cs));
            let part = crate::semver::dot_chunks(dotted(head));
            assert(crate::semver::version_comps_of(dotted(head)) == head);
            assert forall|i: int| 0 <= i < cs.len() implies crate::semver::version_comps_of(
                dotted(cs),
            )[i] == cs[i] by {
                if i < cs.len() - 1 {
                    assert(full[i] == part[i]);
                    assert(crate::semver::version_comps_of(dotted(head))[i] == head[i]);
                } else {
                    assert(full[i] == dec_str(cs.last() as int));
                }
            }
        }
    }
}

/// Round trip of the any form: the range admitting everything renders as `*`,
/// which parses back to the sole any constraint.
pub proof fn lemma_any_roundtrip()
    ensures
        spec_parse_range(spec_format_range(seq![Constraint::Any])) == Some(
            seq![ConstraintShape::Any],
        ),
{
    reveal_strlit("*");
    let cs = seq![Constraint::Any];
    assert(spec_format_range(cs) == spec_format_constraint(Constraint::Any));
    assert(spec_format_constraint(Constraint::Any) =~= "*"@);
    assert("*"@.len() == 1);
}

/// Round trip of the exact form: a single-version constraint renders as `=`
/// followed by the dotted components, which parses back to a single-version
/// shape with the same components.
pub proof fn lemma_single_roundtrip(v: Version)
    requires
        v.components@.len() >= 1,
    ensures
        spec_parse_constraint(spec_format_constraint(Constraint::Single(v)))
            matches Some(sh) && (sh matches ConstraintShape::Single { comps, .. }
            && comps == v.components@),
{
    let s = spec_format_constraint(Constraint::Single(v));
    assert(s == seq!['='] + dotted(v.components@));
    lemma_dotted_roundtrip(v.components@);
    assert(s[0] == '=');
    assert(s.len() >= 2) by {
        lemma_dotted_nonempty(v.components@);
    }
    let rest = s.subrange(1, s.len() as int);
    assert(rest =~= dotted(v.components@));
    assert(s[0] != '>');
    assert(s != seq!['^', '0']) by {
        assert(s[0] == '=');
    }
    assert(is_simple_op(s[0]));
    assert(crate::semver::is_version_str(rest));
    assert(spec_parse_constraint(s) == Some(
        ConstraintShape::Single {
            comps: crate::semver::version_comps_of(rest),
            raw: rest,
        },
    ));
}

proof fn lemma_dotted_nonempty(cs: Seq<u64>)
    requires
        cs.len() >= 1,
    ensures
        dotted(cs).len() >= 1,
    decreases cs.len(),
{
    if cs.len() == 1 {
        lemma_dec_str_digits(cs[0] as int);
    } else {
        lemma_dotted_nonempty(cs.drop_last());
    }
}


/// Constraints with equal shapes admit the same versions.
pub proof fn lemma_c_shape_sat(x: Constraint, y: Constraint)
    requires
        c_shape(x) == c_shape(y),
    ensures
        forall|v: Seq<u64>| #[trigger] sat_constraint(x, v) == sat_constraint(y, v),
{
    assert forall|v: Seq<u64>| #[trigger] sat_constraint(x, v) == sat_constraint(y, v) by {
        match x {
            Constraint::Any => {
                assert(c_shape(y) == ConstraintShape::Any);
            },
            Constraint::Single(a) => {
                assert(c_shape(y) matches ConstraintShape::Single { comps, .. } && comps
                    == a.components@);
            },
            Constraint::Contiguous(a1, a2) => {
                assert(c_shape(y) matches ConstraintShape::Contig { lo, hi, .. } && lo
                    == a1.components@ && hi == a2.components@);
            },
        }
    }
}

/// Constraint lists with equal shapes, position by position, admit the same
/// versions.
pub proof fn lemma_same_shapes_sat(a: Seq<Constraint>, b: Seq<Constraint>)
    requires
        a.len() == b.len(),
        forall|k: int| 0 <= k < a.len() ==> c_shape(#[trigger] a[k]) == c_shape(#[trigger] b[k]),
    ensures
        forall|v: Seq<u64>| #[trigger] sat_range(a, v) == sat_range(b, v),
{
    assert forall|v: Seq<u64>| #[trigger] sat_range(a, v) == sat_range(b, v) by {
        if sat_range(a, v) {
            let k0 = choose|k: int| 0 <= k < a.len() && sat_constraint(#[trigger] a[k], v);
            lemma_c_shape_sat(a[k0], b[k0]);
            assert(sat_constraint(b[k0], v));
        }
        if sat_range(b, v) {
            let k0 = choose|k: int| 0 <= k < b.len() && sat_constraint(#[trigger] b[k], v);
            lemma_c_shape_sat(a[k0], b[k0]);
            assert(sat_constraint(a[k0], v));
        }
    }
}

} // verus!
