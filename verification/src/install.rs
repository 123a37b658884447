//! Concurrent install support: the shared progress account the installers
//! feed, and the gathering of their results, where the first failure wins but
//! completed installations are kept until then.

use vstd::prelude::*;

use crate::types::Installation;

verus! {

/// A download progress account: expected total bytes and bytes received.
#[derive(Clone, Copy, PartialEq, Eq, Structural, Debug)]
pub struct Progress {
    pub total: u64,
    pub current: u64,
}

impl Progress {
    /// An empty account.
    pub fn new() -> (r: Progress)
        ensures
            r.total == 0,
            r.current == 0,
    {
        Progress { total: 0, current: 0 }
    }

    /// Grow the expected total, saturating at the type bound.
    pub fn inc_length(&mut self, n: u64)
        ensures
            final(self).total == (if old(self).total + n > u64::MAX {
                u64::MAX
            } else {
                (old(self).total + n) as u64
            }),
            final(self).current == old(self).current,
    {
        self.total = if self.total > u64::MAX - n {
            u64::MAX
        } else {
            self.total + n
        };
    }

    /// Record received bytes, saturating at the type bound.
    pub fn inc(&mut self, n: u64)
        ensures
            final(self).current == (if old(self).current + n > u64::MAX {
                u64::MAX
            } else {
                (old(self).current + n) as u64
            }),
            final(self).total == old(self).total,
    {
        self.current = if self.current > u64::MAX - n {
            u64::MAX
        } else {
            self.current + n
        };
    }
}

/// The position of the first failure, or the length when none failed.
pub open spec fn first_err<E>(rs: Seq<Result<Installation, E>>) -> int
    decreases rs.len(),
{
    if rs.len() == 0 {
        0
    } else if rs[0] is Err {
        0
    } else {
        1 + first_err(rs.skip(1))
    }
}

/// Gather install results: every installation when all succeeded, else the
/// first error.
#[verifier::loop_isolation(false)]
pub fn collect_results<E>(rs: Vec<Result<Installation, E>>) -> (r: Result<Vec<Installation>, E>)
    ensures
        match r {
            Ok(insts) => (forall|k: int| 0 <= k < rs@.len() ==> (#[trigger] rs@[k]) is Ok)
                && insts@.len() == rs@.len() && (forall|k: int|
                0 <= k < rs@.len() ==> (#[trigger] insts@[k]) == rs@[k]->Ok_0),
            Err(e) => {
                let f = first_err(rs@);
                &&& 0 <= f < rs@.len()
                &&& rs@[f] is Err
                &&& e == rs@[f]->Err_0
                &&& forall|k: int| 0 <= k < f ==> (#[trigger] rs@[k]) is Ok
            },
        },
{
    let ghost rs0 = rs@;
    let mut rem = rs;
    let mut out: Vec<Installation> = Vec::new();
    while rem.len() > 0
        invariant
            out@.len() + rem@.len() == rs0.len(),
            forall|k: int| 0 <= k < rem@.len() ==> (#[trigger] rem@[k]) == rs0[out@.len() + k],
            forall|k: int| 0 <= k < out@.len() ==> (#[trigger] rs0[k]) is Ok && out@[k] == rs0[k]->Ok_0,
        decreases rem@.len(),
    {
        let ghost rem_before = rem@;
        let x = rem.remove(0);
        proof {
            assert forall|k: int| 0 <= k < rem@.len() implies (#[trigger] rem@[k]) == rs0[out@.len()
                + 1 + k] by {
                assert(rem@[k] == rem_before[k + 1]);
            }
        }
        match x {
            Ok(inst) => {
                out.push(inst);
            },
            Err(e) => {
                proof {
                    lemma_first_err_at(rs0, out@.len() as int);
                }
                return Err(e);
            },
        }
    }
    Ok(out)
}

proof fn lemma_first_err_at<E>(rs: Seq<Result<Installation, E>>, f: int)
    requires
        0 <= f < rs.len(),
        rs[f] is Err,
        forall|k: int| 0 <= k < f ==> (#[trigger] rs[k]) is Ok,
    ensures
        first_err(rs) == f,
    decreases f,
{
    if f == 0 {
    } else {
        assert(rs[0] is Ok);
        assert forall|k: int| 0 <= k < f - 1 implies (#[trigger] rs.skip(1)[k]) is Ok by {
            assert(rs.skip(1)[k] == rs[k + 1]);
        }
        assert(rs.skip(1)[f - 1] == rs[f]);
        lemma_first_err_at(rs.skip(1), f - 1);
    }
}

} // verus!
