//! Resolution: map each hydrated request to an installed artifact or to a
//! concrete pending version from the remote inventory, keeping the request
//! order. The cellar is preferred; the inventory decides only when no
//! installed version satisfies the request.

use vstd::prelude::*;

use crate::cellar;
use crate::inventory;
use crate::range::sat_range;
use crate::semver::{ver_le, Version};
use crate::types::{Installation, Package, PackageReq};

verus! {

/// What resolution may consult for one request: the cellar listing for its
/// project, and the inventory versions when they were fetched. A request
/// satisfied by the cellar never needs the inventory.
#[derive(Debug)]
pub struct ResolveInput {
    pub cellar: Vec<Installation>,
    pub inventory: Option<Vec<Version>>,
}

/// The outcome: every request pinned, split into what is already installed
/// and what is pending download.
#[derive(Debug)]
pub struct Resolution {
    pub pkgs: Vec<Package>,
    pub installed: Vec<Installation>,
    pub pending: Vec<Package>,
}

/// A request could be satisfied neither by the cellar nor by the inventory.
#[derive(Debug)]
pub struct ResolveError {
    pub pkg: PackageReq,
}

/// Some installed version in the listing satisfies the request.
pub open spec fn cellar_satisfies(req: PackageReq, listing: Seq<Installation>) -> bool {
    exists|k: int|
        0 <= k < listing.len() && sat_range(
            req.constraint.constraints@,
            (#[trigger] listing[k]).pkg.version.components@,
        )
}

/// Some fetched version satisfies the request.
pub open spec fn inventory_satisfies(req: PackageReq, inv: Option<Vec<Version>>) -> bool {
    match inv {
        Some(vs) => exists|k: int|
            0 <= k < vs@.len() && sat_range(
                req.constraint.constraints@,
                (#[trigger] vs@[k]).components@,
            ),
        None => false,
    }
}

/// The components are an installed version of the listing, satisfy the
/// request, and no satisfying installed version is greater.
pub open spec fn best_cellar_version(
    req: PackageReq,
    listing: Seq<Installation>,
    comps: Seq<u64>,
) -> bool {
    &&& (exists|k: int|
        0 <= k < listing.len() && (#[trigger] listing[k]).pkg.version.components@ == comps)
    &&& sat_range(req.constraint.constraints@, comps)
    &&& (forall|m: int|
        0 <= m < listing.len() && sat_range(
            req.constraint.constraints@,
            (#[trigger] listing[m]).pkg.version.components@,
        ) ==> ver_le(listing[m].pkg.version.components@, comps))
}

/// The components are a fetched version, satisfy the request, and no
/// satisfying fetched version is greater.
pub open spec fn best_inventory_version(req: PackageReq, vs: Seq<Version>, comps: Seq<u64>) -> bool {
    &&& (exists|k: int| 0 <= k < vs.len() && (#[trigger] vs[k]).components@ == comps)
    &&& sat_range(req.constraint.constraints@, comps)
    &&& (forall|m: int|
        0 <= m < vs.len() && sat_range(
            req.constraint.constraints@,
            (#[trigger] vs[m]).components@,
        ) ==> ver_le(vs[m].components@, comps))
}

/// Every cellar listing entry carries its request's project, as the cellar
/// listing of a project only holds that project's installations.
pub open spec fn cellar_projects_match(reqs: Seq<PackageReq>, inputs: Seq<ResolveInput>) -> bool {
    forall|r: int, k: int|
        0 <= r < reqs.len() && 0 <= k < (#[trigger] inputs[r].cellar@).len() ==> (
        #[trigger] inputs[r].cellar@[k]).pkg.project@ == reqs[r].project@
}

/// The pinned package at one position: the request's project, pinned to the
/// greatest satisfying installed version when the cellar has one, else to the
/// greatest satisfying fetched version.
pub open spec fn pkg_pinned(
    reqs: Seq<PackageReq>,
    inputs: Seq<ResolveInput>,
    pkgs: Seq<Package>,
    k: int,
) -> bool {
    &&& pkgs[k].project@ == reqs[k].project@
    &&& (cellar_satisfies(reqs[k], inputs[k].cellar@) ==> best_cellar_version(
        reqs[k],
        inputs[k].cellar@,
        pkgs[k].version.components@,
    ))
    &&& (!cellar_satisfies(reqs[k], inputs[k].cellar@) ==> inputs[k].inventory is Some
        && best_inventory_version(
        reqs[k],
        inputs[k].inventory->Some_0@,
        pkgs[k].version.components@,
    ))
}

/// The request positions whose cellar listing satisfies them, in order.
pub open spec fn cellar_idxs(reqs: Seq<PackageReq>, inputs: Seq<ResolveInput>, i: int) -> Seq<int>
    decreases reqs.len() - i,
{
    if i < 0 || i >= reqs.len() {
        Seq::empty()
    } else if cellar_satisfies(reqs[i], inputs[i].cellar@) {
        seq![i] + cellar_idxs(reqs, inputs, i + 1)
    } else {
        cellar_idxs(reqs, inputs, i + 1)
    }
}

/// The request positions whose cellar listing does not satisfy them, in
/// order.
pub open spec fn pending_idxs(reqs: Seq<PackageReq>, inputs: Seq<ResolveInput>, i: int) -> Seq<int>
    decreases reqs.len() - i,
{
    if i < 0 || i >= reqs.len() {
        Seq::empty()
    } else if cellar_satisfies(reqs[i], inputs[i].cellar@) {
        pending_idxs(reqs, inputs, i + 1)
    } else {
        seq![i] + pending_idxs(reqs, inputs, i + 1)
    }
}

/// Resolve each request in order. A request satisfied by an installed version
/// joins `installed` with the greatest such version; otherwise the greatest
/// satisfying fetched version joins `pending`; otherwise the whole call fails
/// naming the request. The installed and pending lists partition the pinned
/// packages by cellar satisfaction, each in request order.
#[verifier::loop_isolation(false)]
pub fn resolve(reqs: &Vec<PackageReq>, inputs: &Vec<ResolveInput>) -> (r: Result<
    Resolution,
    ResolveError,
>)
    requires
        inputs@.len() == reqs@.len(),
        cellar_projects_match(reqs@, inputs@),
    ensures
        match r {
            Ok(res) => {
                &&& res.pkgs@.len() == reqs@.len()
                &&& (forall|k: int|
                    0 <= k < reqs@.len() ==> #[trigger] pkg_pinned(reqs@, inputs@, res.pkgs@, k))
                &&& res.installed@.len() == cellar_idxs(reqs@, inputs@, 0).len()
                &&& (forall|j: int|
                    0 <= j < res.installed@.len() ==> {
                        let r0 = #[trigger] cellar_idxs(reqs@, inputs@, 0)[j];
                        &&& res.installed@[j].pkg.project@ == res.pkgs@[r0].project@
                        &&& res.installed@[j].pkg.version.components@
                            == res.pkgs@[r0].version.components@
                        &&& res.installed@[j].pkg.version.raw@ == res.pkgs@[r0].version.raw@
                        &&& crate::cellar::some_inst_like(inputs@[r0].cellar@, res.installed@[j])
                    })
                &&& res.pending@.len() == pending_idxs(reqs@, inputs@, 0).len()
                &&& (forall|j: int|
                    0 <= j < res.pending@.len() ==> {
                        let r0 = #[trigger] pending_idxs(reqs@, inputs@, 0)[j];
                        &&& res.pending@[j].project@ == res.pkgs@[r0].project@
                        &&& res.pending@[j].version.components@ == res.pkgs@[r0].version.components@
                        &&& res.pending@[j].version.raw@ == res.pkgs@[r0].version.raw@
                    })
            },
            Err(e) => exists|r0: int|
                0 <= r0 < reqs@.len() && (#[trigger] reqs@[r0]).project@ == e.pkg.project@
                    && !cellar_satisfies(reqs@[r0], inputs@[r0].cellar@) && !inventory_satisfies(
                    reqs@[r0],
                    inputs@[r0].inventory,
                ),
        },
{
    let mut pkgs: Vec<Package> = Vec::new();
    let mut installed: Vec<Installation> = Vec::new();
    let mut pending: Vec<Package> = Vec::new();
    let mut i: usize = 0;
    while i < reqs.len()
        invariant
            i <= reqs@.len(),
            inputs@.len() == reqs@.len(),
            cellar_projects_match(reqs@, inputs@),
            pkgs@.len() == i,
            forall|k: int| 0 <= k < i ==> #[trigger] pkg_pinned(reqs@, inputs@, pkgs@, k),
            cellar_idxs(reqs@, inputs@, 0) == cellar_idxs(reqs@, inputs@, 0).take(
                installed@.len() as int,
            ) + cellar_idxs(reqs@, inputs@, i as int),
            installed@.len() == cellar_idxs(reqs@, inputs@, 0).len() - cellar_idxs(
                reqs@,
                inputs@,
                i as int,
            ).len(),
            forall|j: int|
                0 <= j < installed@.len() ==> {
                    let r0 = #[trigger] cellar_idxs(reqs@, inputs@, 0)[j];
                    &&& 0 <= r0 < i
                    &&& installed@[j].pkg.project@ == pkgs@[r0].project@
                    &&& installed@[j].pkg.version.components@ == pkgs@[r0].version.components@
                    &&& installed@[j].pkg.version.raw@ == pkgs@[r0].version.raw@
                    &&& crate::cellar::some_inst_like(inputs@[r0].cellar@, installed@[j])
                },
            pending_idxs(reqs@, inputs@, 0) == pending_idxs(reqs@, inputs@, 0).take(
                pending@.len() as int,
            ) + pending_idxs(reqs@, inputs@, i as int),
            pending@.len() == pending_idxs(reqs@, inputs@, 0).len() - pending_idxs(
                reqs@,
                inputs@,
                i as int,
            ).len(),
            forall|j: int|
                0 <= j < pending@.len() ==> {
                    let r0 = #[trigger] pending_idxs(reqs@, inputs@, 0)[j];
                    &&& 0 <= r0 < i
                    &&& pending@[j].project@ == pkgs@[r0].project@
                    &&& pending@[j].version.components@ == pkgs@[r0].version.components@
                    &&& pending@[j].version.raw@ == pkgs@[r0].version.raw@
                },
        decreases reqs@.len() - i,
    {
        let req = &reqs[i];
        let ghost full_c = cellar_idxs(reqs@, inputs@, 0);
        let ghost full_p = pending_idxs(reqs@, inputs@, 0);
        match cellar::has(req, &inputs[i].cellar) {
            Some(inst) => {
                proof {
                    let k0 = choose|k: int|
                        0 <= k < inputs@[i as int].cellar@.len() && crate::cellar::inst_like(
                            #[trigger] inputs@[i as int].cellar@[k],
                            inst,
                        );
                    assert(inst.pkg.project@ == reqs@[i as int].project@);
                    assert(cellar_satisfies(reqs@[i as int], inputs@[i as int].cellar@)) by {
                        assert(sat_range(
                            reqs@[i as int].constraint.constraints@,
                            inputs@[i as int].cellar@[k0].pkg.version.components@,
                        ));
                    }
                    assert(cellar_idxs(reqs@, inputs@, i as int) == seq![i as int] + cellar_idxs(
                        reqs@,
                        inputs@,
                        i + 1,
                    ));
                    assert(pending_idxs(reqs@, inputs@, i as int) == pending_idxs(
                        reqs@,
                        inputs@,
                        i + 1,
                    ));
                    assert(full_c[installed@.len() as int] == i as int) by {
                        assert(full_c == full_c.take(installed@.len() as int) + cellar_idxs(
                            reqs@,
                            inputs@,
                            i as int,
                        ));
                    }
                    assert(full_c.take(installed@.len() as int + 1) =~= full_c.take(
                        installed@.len() as int,
                    ).push(i as int));
                }
                let pkg = Package {
                    project: req.project.clone(),
                    version: inst.pkg.version.clone(),
                };
                proof {
                    let k0 = choose|k: int|
                        0 <= k < inputs@[i as int].cellar@.len() && crate::cellar::inst_like(
                            #[trigger] inputs@[i as int].cellar@[k],
                            inst,
                        );
                    assert(inputs@[i as int].cellar@[k0].pkg.version.components@
                        == pkg.version.components@);
                    assert(best_cellar_version(
                        reqs@[i as int],
                        inputs@[i as int].cellar@,
                        pkg.version.components@,
                    ));
                }
                let ghost inst_before = installed@;
                let ghost pkgs_before = pkgs@;
                installed.push(inst);
                pkgs.push(pkg);
                proof {
                    assert(full_c =~= full_c.take(installed@.len() as int) + cellar_idxs(
                        reqs@,
                        inputs@,
                        i + 1,
                    ));
                    assert forall|j: int| 0 <= j < installed@.len() implies {
                        let r0 = #[trigger] cellar_idxs(reqs@, inputs@, 0)[j];
                        &&& 0 <= r0 < i + 1
                        &&& installed@[j].pkg.project@ == pkgs@[r0].project@
                        &&& installed@[j].pkg.version.components@ == pkgs@[r0].version.components@
                        &&& installed@[j].pkg.version.raw@ == pkgs@[r0].version.raw@
                        &&& crate::cellar::some_inst_like(inputs@[r0].cellar@, installed@[j])
                    } by {
                        let r0 = cellar_idxs(reqs@, inputs@, 0)[j];
                        if j < inst_before.len() {
                            assert(installed@[j] == inst_before[j]);
                            assert(0 <= r0 < i);
                            assert(pkgs@[r0] == pkgs_before[r0]);
                        } else {
                            assert(installed@[j] == inst);
                            assert(r0 == i as int);
                            assert(pkgs@[i as int] == pkgs@.last());
                        }
                    }
                    assert forall|k: int| 0 <= k < i + 1 implies #[trigger] pkg_pinned(
                        reqs@,
                        inputs@,
                        pkgs@,
                        k,
                    ) by {
                        if k < i {
                            assert(pkg_pinned(reqs@, inputs@, pkgs_before, k));
                            assert(pkgs@[k] == pkgs_before[k]);
                        } else {
                            assert(pkgs@[i as int] == pkgs@.last());
                        }
                    }
                    assert forall|j: int| 0 <= j < pending@.len() implies {
                        let r0 = #[trigger] pending_idxs(reqs@, inputs@, 0)[j];
                        &&& 0 <= r0 < i + 1
                        &&& pending@[j].project@ == pkgs@[r0].project@
                        &&& pending@[j].version.components@ == pkgs@[r0].version.components@
                        &&& pending@[j].version.raw@ == pkgs@[r0].version.raw@
                    } by {
                        let r0 = pending_idxs(reqs@, inputs@, 0)[j];
                        assert(0 <= r0 < i);
                        assert(pkgs@[r0] == pkgs_before[r0]);
                    }
                }
            },
            None => {
                let selected = match &inputs[i].inventory {
                    Some(vs) => inventory::select(req, vs),
                    None => None,
                };
                proof {
                    assert(!cellar_satisfies(reqs@[i as int], inputs@[i as int].cellar@));
                    assert(pending_idxs(reqs@, inputs@, i as int) == seq![i as int] + pending_idxs(
                        reqs@,
                        inputs@,
                        i + 1,
                    ));
                    assert(cellar_idxs(reqs@, inputs@, i as int) == cellar_idxs(
                        reqs@,
                        inputs@,
                        i + 1,
                    ));
                }
                match selected {
                    Some(version) => {
                        proof {
                            assert(inputs@[i as int].inventory is Some);
                            assert(best_inventory_version(
                                reqs@[i as int],
                                inputs@[i as int].inventory->Some_0@,
                                version.components@,
                            ));
                            assert(full_p[pending@.len() as int] == i as int) by {
                                assert(full_p == full_p.take(pending@.len() as int) + pending_idxs(
                                    reqs@,
                                    inputs@,
                                    i as int,
                                ));
                            }
                            assert(full_p.take(pending@.len() as int + 1) =~= full_p.take(
                                pending@.len() as int,
                            ).push(i as int));
                        }
                        let pkg = Package { project: req.project.clone(), version };
                        let ghost pend_before = pending@;
                        let ghost pkgs_before = pkgs@;
                        pending.push(pkg.clone());
                        pkgs.push(pkg);
                        proof {
                            assert(full_p =~= full_p.take(pending@.len() as int) + pending_idxs(
                                reqs@,
                                inputs@,
                                i + 1,
                            ));
                            assert forall|j: int| 0 <= j < pending@.len() implies {
                                let r0 = #[trigger] pending_idxs(reqs@, inputs@, 0)[j];
                                &&& 0 <= r0 < i + 1
                                &&& pending@[j].project@ == pkgs@[r0].project@
                                &&& pending@[j].version.components@
                                    == pkgs@[r0].version.components@
                                &&& pending@[j].version.raw@ == pkgs@[r0].version.raw@
                            } by {
                                let r0 = pending_idxs(reqs@, inputs@, 0)[j];
                                if j < pend_before.len() {
                                    assert(pending@[j] == pend_before[j]);
                                    assert(0 <= r0 < i);
                                    assert(pkgs@[r0] == pkgs_before[r0]);
                                } else {
                                    assert(pending@[j] == pending@.last());
                                    assert(r0 == i as int);
                                    assert(pkgs@[i as int] == pkgs@.last());
                                }
                            }
                            assert forall|k: int| 0 <= k < i + 1 implies #[trigger] pkg_pinned(
                                reqs@,
                                inputs@,
                                pkgs@,
                                k,
                            ) by {
                                if k < i {
                                    assert(pkg_pinned(reqs@, inputs@, pkgs_before, k));
                                    assert(pkgs@[k] == pkgs_before[k]);
                                } else {
                                    assert(pkgs@[i as int] == pkgs@.last());
                                }
                            }
                            assert forall|j: int| 0 <= j < installed@.len() implies {
                                let r0 = #[trigger] cellar_idxs(reqs@, inputs@, 0)[j];
                                &&& 0 <= r0 < i + 1
                                &&& installed@[j].pkg.project@ == pkgs@[r0].project@
                                &&& installed@[j].pkg.version.components@
                                    == pkgs@[r0].version.components@
                                &&& installed@[j].pkg.version.raw@ == pkgs@[r0].version.raw@
                                &&& crate::cellar::some_inst_like(
                                    inputs@[r0].cellar@,
                                    installed@[j],
                                )
                            } by {
                                let r0 = cellar_idxs(reqs@, inputs@, 0)[j];
                                assert(0 <= r0 < i);
                                assert(pkgs@[r0] == pkgs_before[r0]);
                            }
                        }
                    },
                    None => {
                        let e = ResolveError { pkg: req.clone() };
                        proof {
                            assert(reqs@[i as int].project@ == e.pkg.project@);
                            assert(!inventory_satisfies(
                                reqs@[i as int],
                                inputs@[i as int].inventory,
                            )) by {
                                match inputs@[i as int].inventory {
                                    Some(vs) => {},
                                    None => {},
                                }
                            }
                        }
                        return Err(e);
                    },
                }
            },
        }
        i += 1;
    }
    proof {
        assert(cellar_idxs(reqs@, inputs@, i as int) =~= Seq::<int>::empty());
        assert(pending_idxs(reqs@, inputs@, i as int) =~= Seq::<int>::empty());
        assert(cellar_idxs(reqs@, inputs@, 0).take(installed@.len() as int) =~= cellar_idxs(
            reqs@,
            inputs@,
            0,
        ));
        assert(pending_idxs(reqs@, inputs@, 0).take(pending@.len() as int) =~= pending_idxs(
            reqs@,
            inputs@,
            0,
        ));
    }
    Ok(Resolution { pkgs, installed, pending })
}

} // verus!
