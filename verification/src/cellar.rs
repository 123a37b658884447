//! The cellar: the on-disk store of installed artifacts. Directory listings
//! come in as plain entries; this module selects the version directories,
//! orders them, and resolves requests against the installed versions.

use vstd::prelude::*;

use crate::range::sat_range;
use crate::semver::{is_version_str, lemma_ver_trichotomy, ver_le, version_comps_of, Version};
use crate::types::{Installation, Package, PackageReq};

verus! {

/// What a directory scan reports about one entry of a project's directory.
#[derive(Debug)]
pub struct DirEntryInfo {
    pub name: String,
    pub is_dir: bool,
    pub is_nonempty: bool,
}

/// No installed version satisfies the request.
#[derive(Clone, Copy, PartialEq, Eq, Structural, Debug)]
pub struct InstallationNotFoundError;

/// The entry names an installed version: a non-empty directory called
/// `v<version>` and not `var`.
pub open spec fn entry_accepted(e: DirEntryInfo) -> bool {
    &&& e.is_dir
    &&& e.name@.len() >= 1
    &&& e.name@[0] == 'v'
    &&& e.name@ != "var"@
    &&& is_version_str(e.name@.skip(1))
    &&& e.is_nonempty
}

/// The installation a listed entry denotes.
pub open spec fn entry_matches(
    e: DirEntryInfo,
    inst: Installation,
    pkgx_dir: Seq<char>,
    project: Seq<char>,
) -> bool {
    &&& inst.path@ == pkgx_dir + seq!['/'] + project + seq!['/'] + e.name@
    &&& inst.pkg.project@ == project
    &&& inst.pkg.version.raw@ == e.name@.skip(1)
    &&& inst.pkg.version.components@ == version_comps_of(e.name@.skip(1))
}

/// Some accepted entry denotes this installation.
pub open spec fn from_accepted(
    entries: Seq<DirEntryInfo>,
    inst: Installation,
    pkgx_dir: Seq<char>,
    project: Seq<char>,
) -> bool {
    exists|e: int|
        0 <= e < entries.len() && entry_accepted(#[trigger] entries[e]) && entry_matches(
            entries[e],
            inst,
            pkgx_dir,
            project,
        )
}

/// Some listed installation denotes this entry.
pub open spec fn listed(
    r: Seq<Installation>,
    e: DirEntryInfo,
    pkgx_dir: Seq<char>,
    project: Seq<char>,
) -> bool {
    exists|k: int| 0 <= k < r.len() && entry_matches(e, #[trigger] r[k], pkgx_dir, project)
}

/// The value occurs in the list.
pub open spec fn in_seq(xs: Seq<Installation>, x: Installation) -> bool {
    exists|i: int| 0 <= i < xs.len() && (#[trigger] xs[i]) == x
}

/// How many entries are accepted from position `i` on.
pub open spec fn accepted_count(entries: Seq<DirEntryInfo>, i: int) -> int
    decreases entries.len() - i,
{
    if i < 0 || i >= entries.len() {
        0
    } else {
        (if entry_accepted(entries[i]) {
            1int
        } else {
            0int
        }) + accepted_count(entries, i + 1)
    }
}

/// Select the entries naming installed versions, in listing order.
#[verifier::loop_isolation(false)]
fn pick_entries(project: &str, pkgx_dir: &str, entries: &Vec<DirEntryInfo>) -> (r: Vec<
    Installation,
>)
    ensures
        r@.len() == accepted_count(entries@, 0),
        forall|k: int|
            0 <= k < r@.len() ==> from_accepted(entries@, #[trigger] r@[k], pkgx_dir@, project@),
        forall|e: int|
            0 <= e < entries@.len() && entry_accepted(#[trigger] entries@[e]) ==> listed(
                r@,
                entries@[e],
                pkgx_dir@,
                project@,
            ),
{
    proof {
        reveal_strlit("var");
        reveal_strlit("/");
    }
    let var_probe = String::from_str("var");
    let mut picked: Vec<Installation> = Vec::new();
    let mut i: usize = 0;
    while i < entries.len()
        invariant
            i <= entries@.len(),
            var_probe@ == "var"@,
            accepted_count(entries@, 0) == picked@.len() + accepted_count(entries@, i as int),
            forall|k: int|
                0 <= k < picked@.len() ==> from_accepted(
                    entries@,
                    #[trigger] picked@[k],
                    pkgx_dir@,
                    project@,
                ),
            forall|e: int|
                0 <= e < i && entry_accepted(#[trigger] entries@[e]) ==> listed(
                    picked@,
                    entries@[e],
                    pkgx_dir@,
                    project@,
                ),
        decreases entries@.len() - i,
    {
        let e = &entries[i];
        let n = e.name.as_str().unicode_len();
        let ghost before = picked@;
        if e.is_dir && n >= 1 && e.name.as_str().get_char(0) == 'v' && !(e.name == var_probe)
            && e.is_nonempty {
            let tail = e.name.as_str().substring_char(1, n);
            proof {
                assert(tail@ =~= e.name@.skip(1));
            }
            match Version::parse(tail) {
                Ok(version) => {
                    let mut path = pkgx_dir.to_owned();
                    path.append("/");
                    path.append(project);
                    path.append("/");
                    path.append(e.name.as_str());
                    proof {
                        assert(path@ =~= pkgx_dir@ + seq!['/'] + project@ + seq!['/'] + e.name@);
                    }
                    let inst = Installation {
                        path,
                        pkg: Package { project: project.to_owned(), version },
                    };
                    picked.push(inst);
                    proof {
                        assert(entry_accepted(entries@[i as int]));
                        assert(entry_matches(
                            entries@[i as int],
                            picked@[picked@.len() - 1],
                            pkgx_dir@,
                            project@,
                        ));
                        assert(from_accepted(
                            entries@,
                            picked@[picked@.len() - 1],
                            pkgx_dir@,
                            project@,
                        ));
                        assert forall|k: int| 0 <= k < picked@.len() implies from_accepted(
                            entries@,
                            #[trigger] picked@[k],
                            pkgx_dir@,
                            project@,
                        ) by {
                            if k < before.len() {
                                assert(picked@[k] == before[k]);
                            }
                        }
                        assert forall|e2: int|
                            0 <= e2 < i + 1 && entry_accepted(
                                #[trigger] entries@[e2],
                            ) implies listed(picked@, entries@[e2], pkgx_dir@, project@) by {
                            if e2 == i {
                                assert(entry_matches(
                                    entries@[e2],
                                    picked@[picked@.len() - 1],
                                    pkgx_dir@,
                                    project@,
                                ));
                            } else {
                                let k0 = choose|k: int|
                                    0 <= k < before.len() && entry_matches(
                                        entries@[e2],
                                        #[trigger] before[k],
                                        pkgx_dir@,
                                        project@,
                                    );
                                assert(picked@[k0] == before[k0]);
                                assert(entry_matches(
                                    entries@[e2],
                                    picked@[k0],
                                    pkgx_dir@,
                                    project@,
                                ));
                            }
                        }
                    }
                },
                Err(_) => {
                    proof {
                        assert(!entry_accepted(entries@[i as int]));
                    }
                },
            }
        } else {
            proof {
                if entry_accepted(entries@[i as int]) {
                    assert(false);
                }
            }
        }
        i += 1;
    }
    picked
}

/// Order installations by version ascending; the result is a rearrangement
/// of the input.
#[verifier::loop_isolation(false)]
#[verifier::rlimit(30)]
fn sort_by_version(input: Vec<Installation>) -> (r: Vec<Installation>)
    ensures
        r@.len() == input@.len(),
        forall|k: int| 0 <= k < r@.len() ==> in_seq(input@, #[trigger] r@[k]),
        forall|m: int| 0 <= m < input@.len() ==> in_seq(r@, #[trigger] input@[m]),
        forall|i: int, j: int|
            0 <= i < j < r@.len() ==> ver_le(
                (#[trigger] r@[i]).pkg.version.components@,
                (#[trigger] r@[j]).pkg.version.components@,
            ),
{
    let ghost input0 = input@;
    let mut rem = input;
    let mut out: Vec<Installation> = Vec::new();
    proof {
        assert forall|m: int| 0 <= m < input0.len() implies in_seq(rem@, #[trigger] input0[m]) by {
            assert(rem@[m] == input0[m]);
        }
        assert forall|k: int| 0 <= k < rem@.len() implies in_seq(input0, #[trigger] rem@[k]) by {
            assert(input0[k] == rem@[k]);
        }
    }
    while rem.len() > 0
        invariant
            out@.len() + rem@.len() == input0.len(),
            forall|k: int| 0 <= k < out@.len() ==> in_seq(input0, #[trigger] out@[k]),
            forall|k: int| 0 <= k < rem@.len() ==> in_seq(input0, #[trigger] rem@[k]),
            forall|m: int|
                0 <= m < input0.len() ==> in_seq(out@, #[trigger] input0[m]) || in_seq(
                    rem@,
                    input0[m],
                ),
            forall|i2: int, j2: int|
                0 <= i2 < j2 < out@.len() ==> ver_le(
                    (#[trigger] out@[i2]).pkg.version.components@,
                    (#[trigger] out@[j2]).pkg.version.components@,
                ),
            forall|i2: int, j2: int|
                0 <= i2 < out@.len() && 0 <= j2 < rem@.len() ==> ver_le(
                    (#[trigger] out@[i2]).pkg.version.components@,
                    (#[trigger] rem@[j2]).pkg.version.components@,
                ),
        decreases rem@.len(),
    {
        let mut min_i: usize = 0;
        let mut m: usize = 1;
        while m < rem.len()
            invariant
                min_i < rem@.len(),
                m <= rem@.len(),
                forall|w: int|
                    0 <= w < m ==> ver_le(
                        rem@[min_i as int].pkg.version.components@,
                        (#[trigger] rem@[w]).pkg.version.components@,
                    ),
            decreases rem@.len() - m,
        {
            if rem[m].pkg.version.lt_ver(&rem[min_i].pkg.version) {
                let ghost old_min = min_i;
                min_i = m;
                proof {
                    assert forall|w: int| 0 <= w < m + 1 implies ver_le(
                        rem@[min_i as int].pkg.version.components@,
                        (#[trigger] rem@[w]).pkg.version.components@,
                    ) by {
                        if w < m {
                            crate::range::lemma_ver_lt_le_trans(
                                rem@[m as int].pkg.version.components@,
                                rem@[old_min as int].pkg.version.components@,
                                rem@[w].pkg.version.components@,
                            );
                        }
                    }
                }
            } else {
                proof {
                    lemma_ver_trichotomy(
                        rem@[m as int].pkg.version.components@,
                        rem@[min_i as int].pkg.version.components@,
                    );
                }
            }
            m += 1;
        }
        let ghost before = rem@;
        let nd = rem.remove(min_i);
        let ghost out_before = out@;
        out.push(nd);
        proof {
            assert(out@[out@.len() - 1] == before[min_i as int]);
            assert forall|j: int| 0 <= j < rem@.len() implies (#[trigger] rem@[j]) == (if j < min_i {
                before[j]
            } else {
                before[j + 1]
            }) by {}
            assert forall|k: int| 0 <= k < out@.len() implies in_seq(
                input0,
                #[trigger] out@[k],
            ) by {
                if k < out_before.len() {
                    assert(out@[k] == out_before[k]);
                }
            }
            assert forall|m2: int| 0 <= m2 < input0.len() implies in_seq(
                out@,
                #[trigger] input0[m2],
            ) || in_seq(rem@, input0[m2]) by {
                if in_seq(out_before, input0[m2]) {
                    let k0 = choose|k: int|
                        0 <= k < out_before.len() && (#[trigger] out_before[k]) == input0[m2];
                    assert(out@[k0] == input0[m2]);
                } else {
                    let k0 = choose|k: int|
                        0 <= k < before.len() && (#[trigger] before[k]) == input0[m2];
                    if k0 == min_i {
                        assert(out@[out@.len() - 1] == input0[m2]);
                    } else if k0 < min_i {
                        assert(rem@[k0] == input0[m2]);
                    } else {
                        assert(rem@[k0 - 1] == input0[m2]);
                    }
                }
            }
        }
    }
    out
}

/// List the installed versions of a project from its directory entries:
/// non-empty `v*` directories with parseable versions, ordered by version
/// ascending. Empty version directories and other names are excluded.
pub fn ls(project: &str, pkgx_dir: &str, entries: &Vec<DirEntryInfo>) -> (r: Vec<Installation>)
    ensures
        r@.len() == accepted_count(entries@, 0),
        forall|k: int|
            0 <= k < r@.len() ==> from_accepted(entries@, #[trigger] r@[k], pkgx_dir@, project@),
        forall|e: int|
            0 <= e < entries@.len() && entry_accepted(#[trigger] entries@[e]) ==> listed(
                r@,
                entries@[e],
                pkgx_dir@,
                project@,
            ),
        forall|i: int, j: int|
            0 <= i < j < r@.len() ==> ver_le(
                (#[trigger] r@[i]).pkg.version.components@,
                (#[trigger] r@[j]).pkg.version.components@,
            ),
{
    let picked = pick_entries(project, pkgx_dir, entries);
    let ghost picked0 = picked@;
    let r = sort_by_version(picked);
    proof {
        assert forall|k: int| 0 <= k < r@.len() implies from_accepted(
            entries@,
            #[trigger] r@[k],
            pkgx_dir@,
            project@,
        ) by {
            let m0 = choose|m: int| 0 <= m < picked0.len() && (#[trigger] picked0[m]) == r@[k];
            assert(from_accepted(entries@, picked0[m0], pkgx_dir@, project@));
        }
        assert forall|e: int|
            0 <= e < entries@.len() && entry_accepted(#[trigger] entries@[e]) implies listed(
            r@,
            entries@[e],
            pkgx_dir@,
            project@,
        ) by {
            assert(listed(picked0, entries@[e], pkgx_dir@, project@));
            let m0 = choose|k: int|
                0 <= k < picked0.len() && entry_matches(
                    entries@[e],
                    #[trigger] picked0[k],
                    pkgx_dir@,
                    project@,
                );
            assert(in_seq(r@, picked0[m0]));
            let k0 = choose|k: int| 0 <= k < r@.len() && (#[trigger] r@[k]) == picked0[m0];
            assert(entry_matches(entries@[e], r@[k0], pkgx_dir@, project@));
        }
    }
    r
}

/// Two installations with the same path, project and version.
pub open spec fn inst_like(a: Installation, b: Installation) -> bool {
    &&& a.path@ == b.path@
    &&& a.pkg.project@ == b.pkg.project@
    &&& a.pkg.version.components@ == b.pkg.version.components@
    &&& a.pkg.version.raw@ == b.pkg.version.raw@
}

/// Some listed installation has the same fields.
pub open spec fn some_inst_like(xs: Seq<Installation>, inst: Installation) -> bool {
    exists|k: int| 0 <= k < xs.len() && inst_like(#[trigger] xs[k], inst)
}

/// Resolve a request against the installed versions: the greatest installed
/// version that satisfies the constraint, or an error when none does.
#[verifier::loop_isolation(false)]
pub fn resolve(req: &PackageReq, installations: &Vec<Installation>) -> (r: Result<
    Installation,
    InstallationNotFoundError,
>)
    ensures
        match r {
            Ok(inst) => {
                &&& some_inst_like(installations@, inst)
                &&& sat_range(req.constraint.constraints@, inst.pkg.version.components@)
                &&& forall|m: int|
                    0 <= m < installations@.len() && sat_range(
                        req.constraint.constraints@,
                        (#[trigger] installations@[m]).pkg.version.components@,
                    ) ==> ver_le(
                        installations@[m].pkg.version.components@,
                        inst.pkg.version.components@,
                    )
            },
            Err(_) => forall|m: int|
                0 <= m < installations@.len() ==> !sat_range(
                    req.constraint.constraints@,
                    (#[trigger] installations@[m]).pkg.version.components@,
                ),
        },
{
    let mut best: Option<usize> = None;
    let mut k: usize = 0;
    while k < installations.len()
        invariant
            k <= installations@.len(),
            match best {
                Some(b) => b < k && sat_range(
                    req.constraint.constraints@,
                    installations@[b as int].pkg.version.components@,
                ) && (forall|m: int|
                    0 <= m < k && sat_range(
                        req.constraint.constraints@,
                        (#[trigger] installations@[m]).pkg.version.components@,
                    ) ==> ver_le(
                        installations@[m].pkg.version.components@,
                        installations@[b as int].pkg.version.components@,
                    )),
                None => forall|m: int|
                    0 <= m < k ==> !sat_range(
                        req.constraint.constraints@,
                        (#[trigger] installations@[m]).pkg.version.components@,
                    ),
            },
        decreases installations@.len() - k,
    {
        if req.constraint.satisfies(&installations[k].pkg.version) {
            match best {
                Some(b) => {
                    if installations[b].pkg.version.lt_ver(&installations[k].pkg.version) {
                        let ghost old_b = b;
                        best = Some(k);
                        proof {
                            assert forall|m: int|
                                0 <= m < k + 1 && sat_range(
                                    req.constraint.constraints@,
                                    (#[trigger] installations@[m]).pkg.version.components@,
                                ) implies ver_le(
                                installations@[m].pkg.version.components@,
                                installations@[k as int].pkg.version.components@,
                            ) by {
                                if m < k {
                                    crate::range::lemma_ver_le_lt_trans(
                                        installations@[m].pkg.version.components@,
                                        installations@[old_b as int].pkg.version.components@,
                                        installations@[k as int].pkg.version.components@,
                                    );
                                }
                            }
                        }
                    } else {
                        proof {
                            lemma_ver_trichotomy(
                                installations@[b as int].pkg.version.components@,
                                installations@[k as int].pkg.version.components@,
                            );
                        }
                    }
                },
                None => {
                    best = Some(k);
                },
            }
        }
        k += 1;
    }
    match best {
        Some(b) => {
            let inst = installations[b].clone();
            proof {
                assert(inst_like(installations@[b as int], inst));
            }
            Ok(inst)
        },
        None => Err(InstallationNotFoundError),
    }
}

/// Resolve a request, swallowing the not-found error.
pub fn has(req: &PackageReq, installations: &Vec<Installation>) -> (r: Option<Installation>)
    ensures
        match r {
            Some(inst) => {
                &&& some_inst_like(installations@, inst)
                &&& sat_range(req.constraint.constraints@, inst.pkg.version.components@)
                &&& forall|m: int|
                    0 <= m < installations@.len() && sat_range(
                        req.constraint.constraints@,
                        (#[trigger] installations@[m]).pkg.version.components@,
                    ) ==> ver_le(
                        installations@[m].pkg.version.components@,
                        inst.pkg.version.components@,
                    )
            },
            None => forall|m: int|
                0 <= m < installations@.len() ==> !sat_range(
                    req.constraint.constraints@,
                    (#[trigger] installations@[m]).pkg.version.components@,
                ),
        },
{
    match resolve(req, installations) {
        Ok(inst) => Some(inst),
        Err(_) => None,
    }
}

/// The path a package installs to: `<pkgx_dir>/<project>/v<version>`.
pub fn dst(pkg: &Package, pkgx_dir: &str) -> (r: String)
    ensures
        r@ == pkgx_dir@ + seq!['/'] + pkg.project@ + seq!['/', 'v'] + pkg.version.raw@,
{
    proof {
        reveal_strlit("/");
        reveal_strlit("/v");
    }
    let mut r = pkgx_dir.to_owned();
    r.append("/");
    r.append(pkg.project.as_str());
    r.append("/v");
    r.append(pkg.version.raw.as_str());
    proof {
        assert(r@ =~= pkgx_dir@ + seq!['/'] + pkg.project@ + seq!['/', 'v'] + pkg.version.raw@);
    }
    r
}

} // verus!
