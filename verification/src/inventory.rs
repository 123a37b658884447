//! The remote inventory: the distribution server lists available versions,
//! one per line. This module parses that listing and selects the greatest
//! version satisfying a request; an empty listing is an error, not a silent
//! absence.

use vstd::prelude::*;

use crate::range::{find_char_from, sat_range};
use crate::semver::{is_version_str, lemma_ver_trichotomy, ver_le, version_comps_of, Version};
use crate::types::PackageReq;

verus! {

/// A download failed: the distribution server answered with this status for
/// this URL.
#[derive(Debug)]
pub struct DownloadError {
    pub status: u16,
    pub src: String,
}

/// The listing held no parseable version.
#[derive(Clone, Copy, PartialEq, Eq, Structural, Debug)]
pub struct EmptyInventoryError;

/// A line without one trailing carriage return.
pub open spec fn strip_cr(l: Seq<char>) -> Seq<char> {
    if l.len() > 0 && l.last() == '\r' {
        l.drop_last()
    } else {
        l
    }
}

/// The version strings among the lines of `s` from position `i` on.
pub open spec fn versions_from(s: Seq<char>, i: int) -> Seq<Seq<char>>
    recommends
        0 <= i <= s.len(),
    decreases s.len() - i + 1,
    when 0 <= i <= s.len()
    via versions_from_decreases
{
    let k = find_char_from(s, '\n', i);
    let line = strip_cr(s.subrange(i, k));
    let keep: Seq<Seq<char>> = if is_version_str(line) {
        seq![line]
    } else {
        Seq::<Seq<char>>::empty()
    };
    if k >= s.len() {
        keep
    } else {
        keep + versions_from(s, k + 1)
    }
}

proof fn lemma_find_nl_bounds(s: Seq<char>, i: int)
    requires
        0 <= i <= s.len(),
    ensures
        i <= find_char_from(s, '\n', i) <= s.len(),
    decreases s.len() - i,
{
    if i < s.len() && s[i] != '\n' {
        lemma_find_nl_bounds(s, i + 1);
    }
}

#[via_fn]
proof fn versions_from_decreases(s: Seq<char>, i: int) {
    lemma_find_nl_bounds(s, i);
}

fn find_nl(s: &str, start: usize) -> (r: usize)
    requires
        start <= s@.len(),
    ensures
        r == find_char_from(s@, '\n', start as int),
        start <= r <= s@.len(),
{
    let n = s.unicode_len();
    let mut i = start;
    while i < n
        invariant
            start <= i <= n,
            n == s@.len(),
            find_char_from(s@, '\n', start as int) == find_char_from(s@, '\n', i as int),
        decreases n - i,
    {
        if s.get_char(i) == '\n' {
            return i;
        }
        i += 1;
    }
    i
}

/// Parse a versions listing: each line is one version, unparseable lines are
/// dropped, and a listing without a single version is an error.
#[verifier::loop_isolation(false)]
pub fn parse_versions(body: &str) -> (r: Result<Vec<Version>, EmptyInventoryError>)
    ensures
        match r {
            Ok(vs) => {
                &&& versions_from(body@, 0).len() > 0
                &&& vs@.len() == versions_from(body@, 0).len()
                &&& forall|k: int|
                    0 <= k < vs@.len() ==> (#[trigger] vs@[k]).raw@ == versions_from(body@, 0)[k]
                        && vs@[k].components@ == version_comps_of(versions_from(body@, 0)[k])
            },
            Err(_) => versions_from(body@, 0).len() == 0,
        },
{
    let n = body.unicode_len();
    let mut out: Vec<Version> = Vec::new();
    let mut i: usize = 0;
    let mut done = false;
    while !done
        invariant
            i <= n,
            n == body@.len(),
            forall|k: int|
                0 <= k < out@.len() ==> (#[trigger] out@[k]).raw@ == version_comps_raw(out@, k)
                    && out@[k].components@ == version_comps_of(out@[k].raw@),
            !done ==> versions_from(body@, 0) == vseq(out@) + versions_from(body@, i as int),
            done ==> versions_from(body@, 0) == vseq(out@),
        decreases n - i + 1, (if done { 0int } else { 1int }),
    {
        proof {
            lemma_find_nl_bounds(body@, i as int);
        }
        let k = find_nl(body, i);
        let mut end = k;
        if end > i && body.get_char(end - 1) == '\r' {
            end = end - 1;
        }
        let line = body.substring_char(i, end);
        proof {
            let raw_line = body@.subrange(i as int, k as int);
            if k > i && body@[k - 1] == '\r' {
                assert(raw_line.last() == body@[k - 1]);
                assert(raw_line.drop_last() =~= body@.subrange(i as int, k - 1));
            }
            assert(line@ =~= strip_cr(raw_line));
        }
        let ghost out_before = out@;
        match Version::parse(line) {
            Ok(v) => {
                out.push(v);
                proof {
                    assert(vseq(out@) =~= vseq(out_before).push(out@[out@.len() - 1].raw@));
                }
            },
            Err(_) => {
            },
        }
        if k < n {
            i = k + 1;
        } else {
            i = k;
            done = true;
        }
        proof {
            if done {
                assert(versions_from(body@, 0) =~= vseq(out@));
            } else {
                assert(versions_from(body@, 0) =~= vseq(out@) + versions_from(body@, i as int));
            }
        }
    }
    if out.len() == 0 {
        proof {
            assert(versions_from(body@, 0) =~= vseq(out@));
        }
        return Err(EmptyInventoryError);
    }
    proof {
        assert forall|k: int| 0 <= k < out@.len() implies (#[trigger] out@[k]).raw@
            == versions_from(body@, 0)[k] && out@[k].components@ == version_comps_of(
            versions_from(body@, 0)[k],
        ) by {
            assert(versions_from(body@, 0)[k] == vseq(out@)[k]);
            assert(vseq(out@)[k] == out@[k].raw@);
        }
    }
    Ok(out)
}

/// The raw texts of parsed versions.
pub open spec fn vseq(vs: Seq<Version>) -> Seq<Seq<char>> {
    vs.map_values(|v: Version| v.raw@)
}

/// The raw text of one parsed version.
pub open spec fn version_comps_raw(vs: Seq<Version>, k: int) -> Seq<char> {
    vs[k].raw@
}

/// Select the greatest available version that satisfies the request, if any.
#[verifier::loop_isolation(false)]
pub fn select(req: &PackageReq, versions: &Vec<Version>) -> (r: Option<Version>)
    ensures
        match r {
            Some(v) => {
                &&& exists|k: int|
                    0 <= k < versions@.len() && (#[trigger] versions@[k]).components@
                        == v.components@ && versions@[k].raw@ == v.raw@
                &&& sat_range(req.constraint.constraints@, v.components@)
                &&& forall|m: int|
                    0 <= m < versions@.len() && sat_range(
                        req.constraint.constraints@,
                        (#[trigger] versions@[m]).components@,
                    ) ==> ver_le(versions@[m].components@, v.components@)
            },
            None => forall|m: int|
                0 <= m < versions@.len() ==> !sat_range(
                    req.constraint.constraints@,
                    (#[trigger] versions@[m]).components@,
                ),
        },
{
    let mut best: Option<usize> = None;
    let mut k: usize = 0;
    while k < versions.len()
        invariant
            k <= versions@.len(),
            match best {
                Some(b) => b < k && sat_range(
                    req.constraint.constraints@,
                    versions@[b as int].components@,
                ) && (forall|m: int|
                    0 <= m < k && sat_range(
                        req.constraint.constraints@,
                        (#[trigger] versions@[m]).components@,
                    ) ==> ver_le(versions@[m].components@, versions@[b as int].components@)),
                None => forall|m: int|
                    0 <= m < k ==> !sat_range(
                        req.constraint.constraints@,
                        (#[trigger] versions@[m]).components@,
                    ),
            },
        decreases versions@.len() - k,
    {
        if req.constraint.satisfies(&versions[k]) {
            match best {
                Some(b) => {
                    if versions[b].lt_ver(&versions[k]) {
                        let ghost old_b = b;
                        best = Some(k);
                        proof {
                            assert forall|m: int|
                                0 <= m < k + 1 && sat_range(
                                    req.constraint.constraints@,
                                    (#[trigger] versions@[m]).components@,
                                ) implies ver_le(
                                versions@[m].components@,
                                versions@[k as int].components@,
                            ) by {
                                if m < k {
                                    crate::range::lemma_ver_le_lt_trans(
                                        versions@[m].components@,
                                        versions@[old_b as int].components@,
                                        versions@[k as int].components@,
                                    );
                                }
                            }
                        }
                    } else {
                        proof {
                            lemma_ver_trichotomy(
                                versions@[b as int].components@,
                                versions@[k as int].components@,
                            );
                        }
                    }
                },
                None => {
                    best = Some(k);
                },
            }
        }
        k += 1;
    }
    match best {
        Some(b) => Some(versions[b].clone()),
        None => None,
    }
}

} // verus!
