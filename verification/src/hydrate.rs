//! Constraint hydration: expand a seed list of package requests into the
//! full dependency set, merging duplicate projects by intersecting their
//! constraints, and ordering roots before their dependents.

use vstd::prelude::*;

use crate::range::{range_wf, sat_range};
use crate::types::PackageReq;

verus! {

/// Why hydration failed.
#[derive(Clone, Copy, PartialEq, Eq, Structural, Debug)]
pub enum HydrateError {
    /// Two constraints on one project admit no common version.
    Unsatisfiable,
    /// The walk exceeded its work bound, as it would on a cyclic graph.
    WorkBound,
}

/// A discovered project with its accumulated constraint and its depth in the
/// dependency graph (roots at zero; a node keeps the depth it was first seen
/// at).
#[derive(Debug)]
pub struct HNode {
    pub req: PackageReq,
    pub depth: u64,
}

/// `a` constrains the same project at least as tightly as `b`.
pub open spec fn req_stronger(a: PackageReq, b: PackageReq) -> bool {
    a.project@ == b.project@ && (forall|v: Seq<u64>|
        #[trigger] sat_range(a.constraint.constraints@, v) ==> sat_range(
            b.constraint.constraints@,
            v,
        ))
}

/// Some request in the list is at least as strong as `req`.
pub open spec fn covered(reqs: Seq<PackageReq>, req: PackageReq) -> bool {
    exists|k: int| 0 <= k < reqs.len() && req_stronger(#[trigger] reqs[k], req)
}

/// Some node's request is at least as strong as `req`.
pub open spec fn covered_nodes(nodes: Seq<HNode>, req: PackageReq) -> bool {
    exists|k: int| 0 <= k < nodes.len() && req_stronger((#[trigger] nodes[k]).req, req)
}

/// The dependency rows of the first table entry for the project, or none.
pub open spec fn table_lookup(table: Seq<(String, Vec<PackageReq>)>, p: Seq<char>) -> Seq<
    PackageReq,
>
    decreases table.len(),
{
    if table.len() == 0 {
        Seq::<PackageReq>::empty()
    } else if table[0].0@ == p {
        table[0].1@
    } else {
        table_lookup(table.skip(1), p)
    }
}

/// Every request in the list carries a well-formed constraint.
pub open spec fn reqs_wf(reqs: Seq<PackageReq>) -> bool {
    forall|k: int| 0 <= k < reqs.len() ==> range_wf((#[trigger] reqs[k]).constraint.constraints@)
}

/// No two requests name the same project.
pub open spec fn reqs_distinct(reqs: Seq<PackageReq>) -> bool {
    forall|i: int, j: int| 0 <= i < j < reqs.len() ==> reqs[i].project@ != reqs[j].project@
}

/// The version satisfies every seed constraint on the project among the first
/// `upto` seeds.
pub open spec fn all_seeds_sat(pkgs: Seq<PackageReq>, upto: int, p: Seq<char>, v: Seq<u64>) -> bool {
    forall|s: int|
        0 <= s < upto && (#[trigger] pkgs[s]).project@ == p ==> sat_range(
            pkgs[s].constraint.constraints@,
            v,
        )
}

/// The version satisfies every dependency-edge constraint naming the project
/// anywhere in the table.
pub open spec fn all_edges_sat(
    table: Seq<(String, Vec<PackageReq>)>,
    p: Seq<char>,
    v: Seq<u64>,
) -> bool {
    forall|t: int, d: int|
        0 <= t < table.len() && 0 <= d < (#[trigger] table[t]).1@.len()
            && (#[trigger] table[t].1@[d]).project@ == p ==> sat_range(
            table[t].1@[d].constraint.constraints@,
            v,
        )
}

/// The version satisfies every constraint naming the project across seeds and
/// table edges.
pub open spec fn joint_sat(
    input: Seq<PackageReq>,
    table: Seq<(String, Vec<PackageReq>)>,
    p: Seq<char>,
    v: Seq<u64>,
) -> bool {
    all_seeds_sat(input, input.len() as int, p, v) && all_edges_sat(table, p, v)
}

/// No version satisfies every seed constraint on the project.
pub open spec fn seeds_unsat(pkgs: Seq<PackageReq>, p: Seq<char>) -> bool {
    forall|v: Seq<u64>| !#[trigger] all_seeds_sat(pkgs, pkgs.len() as int, p, v)
}

/// No version satisfies every constraint naming the project across seeds and
/// table edges.
pub open spec fn project_unsat(
    input: Seq<PackageReq>,
    table: Seq<(String, Vec<PackageReq>)>,
    p: Seq<char>,
) -> bool {
    forall|v: Seq<u64>| !#[trigger] joint_sat(input, table, p, v)
}

/// The request admits exactly the versions admitted by every seed constraint
/// on its project among the first `upto` seeds.
pub open spec fn condensed_exact(pkgs: Seq<PackageReq>, upto: int, rq: PackageReq) -> bool {
    forall|v: Seq<u64>|
        #[trigger] sat_range(rq.constraint.constraints@, v) == all_seeds_sat(
            pkgs,
            upto,
            rq.project@,
            v,
        )
}

/// The request admits every version that satisfies all constraints naming its
/// project.
pub open spec fn req_lower(
    input: Seq<PackageReq>,
    table: Seq<(String, Vec<PackageReq>)>,
    rq: PackageReq,
) -> bool {
    forall|v: Seq<u64>|
        #[trigger] joint_sat(input, table, rq.project@, v) ==> sat_range(
            rq.constraint.constraints@,
            v,
        )
}

/// The seed projects from position `i` on, skipping any seen earlier: the
/// first-occurrence order of the distinct projects.
pub open spec fn seed_projects(input: Seq<PackageReq>, i: int) -> Seq<Seq<char>>
    decreases input.len() - i,
{
    if i < 0 || i >= input.len() {
        Seq::empty()
    } else if exists|s: int|
        0 <= s < i && (#[trigger] input[s]).project@ == input[i].project@ {
        seed_projects(input, i + 1)
    } else {
        seq![input[i].project@] + seed_projects(input, i + 1)
    }
}

/// The project texts of the requests.
pub open spec fn projects_of(reqs: Seq<PackageReq>) -> Seq<Seq<char>> {
    reqs.map_values(|r: PackageReq| r.project@)
}

/// Merge duplicate projects in a seed list by intersecting their constraints:
/// each output admits exactly the versions every seed on its project admits.
/// Fails exactly when some project's seed constraints have no common version.
#[verifier::rlimit(60)]
#[verifier::loop_isolation(false)]
fn condense(pkgs: &Vec<PackageReq>) -> (r: Result<Vec<PackageReq>, HydrateError>)
    requires
        reqs_wf(pkgs@),
    ensures
        match r {
            Ok(out) => {
                &&& reqs_distinct(out@)
                &&& reqs_wf(out@)
                &&& (forall|s: int|
                    0 <= s < pkgs@.len() ==> covered(out@, #[trigger] pkgs@[s]))
                &&& (forall|m: int|
                    0 <= m < out@.len() ==> condensed_exact(
                        pkgs@,
                        pkgs@.len() as int,
                        #[trigger] out@[m],
                    ))
                &&& projects_of(out@) == seed_projects(pkgs@, 0)
            },
            Err(e) => e is Unsatisfiable && (exists|p: Seq<char>| #[trigger] seeds_unsat(
                pkgs@,
                p,
            )),
        },
{
    let mut out: Vec<PackageReq> = Vec::new();
    let mut i: usize = 0;
    while i < pkgs.len()
        invariant
            i <= pkgs@.len(),
            reqs_wf(pkgs@),
            reqs_distinct(out@),
            reqs_wf(out@),
            forall|s: int| 0 <= s < i ==> covered(out@, #[trigger] pkgs@[s]),
            forall|m: int|
                0 <= m < out@.len() ==> condensed_exact(pkgs@, i as int, #[trigger] out@[m]),
            forall|m: int|
                0 <= m < out@.len() ==> exists|s: int|
                    0 <= s < i && (#[trigger] pkgs@[s]).project@ == (#[trigger] out@[m]).project@,
            seed_projects(pkgs@, 0) == projects_of(out@) + seed_projects(pkgs@, i as int),
        decreases pkgs@.len() - i,
    {
        let pkg = &pkgs[i];
        let mut found: Option<usize> = None;
        let mut j: usize = 0;
        while j < out.len()
            invariant
                j <= out@.len(),
                i < pkgs@.len(),
                match found {
                    Some(m) => m < j && out@[m as int].project@ == pkgs@[i as int].project@,
                    None => forall|m: int|
                        0 <= m < j ==> (#[trigger] out@[m]).project@ != pkgs@[i as int].project@,
                },
            decreases out@.len() - j,
        {
            if found.is_none() && out[j].project == pkg.project {
                found = Some(j);
            }
            j += 1;
        }
        let ghost before = out@;
        match found {
            Some(m) => {
                let merged = match out[m].constraint.intersect(&pkg.constraint) {
                    Ok(c) => c,
                    Err(_) => {
                        proof {
                            let p = out@[m as int].project@;
                            assert forall|v: Seq<u64>| !#[trigger] all_seeds_sat(
                                pkgs@,
                                pkgs@.len() as int,
                                p,
                                v,
                            ) by {
                                if all_seeds_sat(pkgs@, pkgs@.len() as int, p, v) {
                                    assert(all_seeds_sat(pkgs@, i as int, p, v));
                                    assert(sat_range(
                                        out@[m as int].constraint.constraints@,
                                        v,
                                    ));
                                    assert(sat_range(pkgs@[i as int].constraint.constraints@, v));
                                }
                            }
                            assert(seeds_unsat(pkgs@, p));
                        }
                        return Err(HydrateError::Unsatisfiable);
                    },
                };
                let project = out[m].project.clone();
                out[m] = PackageReq { project, constraint: merged };
                proof {
                    assert(out@[m as int].project@ == before[m as int].project@);
                    assert(req_stronger(out@[m as int], pkgs@[i as int]));
                    assert(covered(out@, pkgs@[i as int]));
                    assert forall|s: int| 0 <= s < i implies covered(
                        out@,
                        #[trigger] pkgs@[s],
                    ) by {
                        let k0 = choose|k: int|
                            0 <= k < before.len() && req_stronger(#[trigger] before[k], pkgs@[s]);
                        if k0 == m {
                            assert(req_stronger(out@[m as int], pkgs@[s]));
                        } else {
                            assert(out@[k0] == before[k0]);
                            assert(req_stronger(out@[k0], pkgs@[s]));
                        }
                    }
                    assert(exists|s: int|
                        0 <= s < i && (#[trigger] pkgs@[s]).project@ == pkgs@[i as int].project@)
                        by {
                        let s0 = choose|s: int|
                            0 <= s < i && (#[trigger] pkgs@[s]).project@ == before[
                                m as int].project@;
                        assert(pkgs@[s0].project@ == pkgs@[i as int].project@);
                    }
                    assert(seed_projects(pkgs@, i as int) == seed_projects(pkgs@, i + 1));
                    assert(projects_of(out@) =~= projects_of(before));
                    assert forall|m2: int| 0 <= m2 < out@.len() implies exists|s: int|
                        0 <= s < i + 1 && (#[trigger] pkgs@[s]).project@ == (
                        #[trigger] out@[m2]).project@ by {
                        let s0 = choose|s: int|
                            0 <= s < i && (#[trigger] pkgs@[s]).project@ == before[m2].project@;
                        assert(out@[m2].project@ == before[m2].project@);
                    }
                    assert forall|m2: int| 0 <= m2 < out@.len() implies condensed_exact(
                        pkgs@,
                        i + 1,
                        #[trigger] out@[m2],
                    ) by {
                        if m2 == m {
                            assert forall|v: Seq<u64>|
                                #[trigger] sat_range(out@[m2].constraint.constraints@, v)
                                    == all_seeds_sat(pkgs@, i + 1, out@[m2].project@, v) by {
                                assert(condensed_exact(pkgs@, i as int, before[m2]));
                                assert(sat_range(before[m2].constraint.constraints@, v)
                                    == all_seeds_sat(pkgs@, i as int, before[m2].project@, v));
                                assert forall|s: int|
                                    0 <= s < i + 1 && (#[trigger] pkgs@[s]).project@ == out@[
                                    m2].project@ && sat_range(
                                    out@[m2].constraint.constraints@,
                                    v,
                                ) implies sat_range(pkgs@[s].constraint.constraints@, v) by {}
                            }
                        } else {
                            assert(out@[m2] == before[m2]);
                            assert(condensed_exact(pkgs@, i as int, before[m2]));
                            assert forall|v: Seq<u64>|
                                #[trigger] sat_range(out@[m2].constraint.constraints@, v)
                                    == all_seeds_sat(pkgs@, i + 1, out@[m2].project@, v) by {
                                assert(out@[m2].project@ != pkgs@[i as int].project@);
                                assert(all_seeds_sat(pkgs@, i + 1, out@[m2].project@, v)
                                    == all_seeds_sat(pkgs@, i as int, out@[m2].project@, v));
                            }
                        }
                    }
                }
            },
            None => {
                out.push(pkg.clone());
                proof {
                    assert(req_stronger(out@[out@.len() - 1], pkgs@[i as int]));
                    assert(covered(out@, pkgs@[i as int]));
                    assert(!(exists|s: int|
                        0 <= s < i && (#[trigger] pkgs@[s]).project@ == pkgs@[
                            i as int].project@)) by {
                        if exists|s: int|
                            0 <= s < i && (#[trigger] pkgs@[s]).project@ == pkgs@[
                                i as int].project@ {
                            let s0 = choose|s: int|
                                0 <= s < i && (#[trigger] pkgs@[s]).project@ == pkgs@[
                                    i as int].project@;
                            assert(covered(before, pkgs@[s0]));
                            let m0 = choose|m2: int|
                                0 <= m2 < before.len() && req_stronger(
                                    #[trigger] before[m2],
                                    pkgs@[s0],
                                );
                            assert(before[m0].project@ == pkgs@[i as int].project@);
                        }
                    }
                    assert(seed_projects(pkgs@, i as int) == seq![pkgs@[i as int].project@]
                        + seed_projects(pkgs@, i + 1));
                    assert(projects_of(out@) =~= projects_of(before).push(
                        pkgs@[i as int].project@,
                    ));
                    assert(seed_projects(pkgs@, 0) =~= projects_of(out@) + seed_projects(
                        pkgs@,
                        i + 1,
                    ));
                    assert forall|m2: int| 0 <= m2 < out@.len() implies exists|s: int|
                        0 <= s < i + 1 && (#[trigger] pkgs@[s]).project@ == (
                        #[trigger] out@[m2]).project@ by {
                        if m2 < before.len() {
                            let s0 = choose|s: int|
                                0 <= s < i && (#[trigger] pkgs@[s]).project@ == before[
                                    m2].project@;
                            assert(out@[m2].project@ == before[m2].project@);
                        } else {
                            assert(out@[m2].project@ == pkgs@[i as int].project@);
                        }
                    }
                    assert forall|s: int| 0 <= s < i implies covered(
                        out@,
                        #[trigger] pkgs@[s],
                    ) by {
                        let k0 = choose|k: int|
                            0 <= k < before.len() && req_stronger(#[trigger] before[k], pkgs@[s]);
                        assert(out@[k0] == before[k0]);
                        assert(req_stronger(out@[k0], pkgs@[s]));
                    }
                    assert forall|m2: int| 0 <= m2 < out@.len() implies condensed_exact(
                        pkgs@,
                        i + 1,
                        #[trigger] out@[m2],
                    ) by {
                        if m2 < before.len() {
                            assert(out@[m2] == before[m2]);
                            assert(condensed_exact(pkgs@, i as int, before[m2]));
                            assert(out@[m2].project@ != pkgs@[i as int].project@) by {
                                if out@[m2].project@ == pkgs@[i as int].project@ {
                                    assert(reqs_distinct(out@));
                                    assert(out@[out@.len() - 1].project@ == pkgs@[
                                        i as int].project@);
                                }
                            }
                            assert forall|v: Seq<u64>|
                                #[trigger] sat_range(out@[m2].constraint.constraints@, v)
                                    == all_seeds_sat(pkgs@, i + 1, out@[m2].project@, v) by {
                                assert(all_seeds_sat(pkgs@, i + 1, out@[m2].project@, v)
                                    == all_seeds_sat(pkgs@, i as int, out@[m2].project@, v));
                            }
                        } else {
                            // the fresh entry: no earlier seed names this project
                            assert(out@[m2] == out@[out@.len() - 1]);
                            assert forall|v: Seq<u64>|
                                #[trigger] sat_range(out@[m2].constraint.constraints@, v)
                                    == all_seeds_sat(pkgs@, i + 1, out@[m2].project@, v) by {
                                assert forall|s: int|
                                    0 <= s < i implies (#[trigger] pkgs@[s]).project@ != out@[
                                    m2].project@ by {
                                    if pkgs@[s].project@ == out@[m2].project@ {
                                        let k0 = choose|k: int|
                                            0 <= k < before.len() && req_stronger(
                                                #[trigger] before[k],
                                                pkgs@[s],
                                            );
                                        assert(before[k0].project@ == pkgs@[i as int].project@);
                                    }
                                }
                                assert(sat_range(out@[m2].constraint.constraints@, v) == sat_range(
                                    pkgs@[i as int].constraint.constraints@,
                                    v,
                                ));
                            }
                        }
                    }
                }
            },
        }
        i += 1;
    }
    proof {
        assert(seed_projects(pkgs@, pkgs@.len() as int) =~= Seq::<Seq<char>>::empty());
        assert(projects_of(out@) =~= seed_projects(pkgs@, 0));
    }
    Ok(out)
}

/// The dependency rows for a project, or nothing when the table has none.
#[verifier::loop_isolation(false)]
fn lookup_deps<'a>(table: &'a Vec<(String, Vec<PackageReq>)>, p: &String) -> (r: Option<
    &'a Vec<PackageReq>,
>)
    ensures
        match r {
            Some(v) => v@ == table_lookup(table@, p@),
            None => table_lookup(table@, p@).len() == 0,
        },
{
    let mut i: usize = 0;
    proof {
        assert(table@.skip(0) =~= table@);
    }
    while i < table.len()
        invariant
            i <= table@.len(),
            table_lookup(table@, p@) == table_lookup(table@.skip(i as int), p@),
        decreases table@.len() - i,
    {
        proof {
            assert(table@.skip(i as int)[0] == table@[i as int]);
            assert(table@.skip(i as int).skip(1) =~= table@.skip(i + 1));
        }
        if table[i].0 == *p {
            return Some(&table[i].1);
        }
        i += 1;
    }
    None
}

/// The looked-up rows are one of the table's own rows.
proof fn lemma_table_lookup_is_row(table: Seq<(String, Vec<PackageReq>)>, p: Seq<char>)
    requires
        table_lookup(table, p).len() > 0,
    ensures
        exists|t: int|
            0 <= t < table.len() && (#[trigger] table[t]).1@ == table_lookup(table, p),
    decreases table.len(),
{
    if table.len() > 0 {
        if table[0].0@ == p {
            assert(table[0].1@ == table_lookup(table, p));
        } else {
            lemma_table_lookup_is_row(table.skip(1), p);
            let t0 = choose|t: int|
                0 <= t < table.skip(1).len() && (#[trigger] table.skip(1)[t]).1@ == table_lookup(
                    table.skip(1),
                    p,
                );
            assert(table[t0 + 1] == table.skip(1)[t0]);
        }
    }
}

/// Every request of every table row carries a well-formed constraint.
pub open spec fn table_wf(table: Seq<(String, Vec<PackageReq>)>) -> bool {
    forall|t: int, d: int|
        0 <= t < table.len() && 0 <= d < (#[trigger] table[t]).1@.len() ==> range_wf(
            (#[trigger] table[t].1@[d]).constraint.constraints@,
        )
}

proof fn lemma_table_lookup_wf(table: Seq<(String, Vec<PackageReq>)>, p: Seq<char>)
    requires
        table_wf(table),
    ensures
        reqs_wf(table_lookup(table, p)),
    decreases table.len(),
{
    if table.len() > 0 {
        if table[0].0@ == p {
            assert forall|k: int| 0 <= k < table_lookup(table, p).len() implies range_wf(
                (#[trigger] table_lookup(table, p)[k]).constraint.constraints@,
            ) by {
                assert(table_lookup(table, p)[k] == table[0].1@[k]);
            }
        } else {
            assert(table_wf(table.skip(1))) by {
                assert forall|t: int, d: int|
                    0 <= t < table.skip(1).len() && 0 <= d < (#[trigger] table.skip(
                        1,
                    )[t]).1@.len() implies range_wf(
                    (#[trigger] table.skip(1)[t].1@[d]).constraint.constraints@,
                ) by {
                    assert(table.skip(1)[t] == table[t + 1]);
                }
            }
            lemma_table_lookup_wf(table.skip(1), p);
        }
    }
}

/// One node per project, well-formed constraints, for every seed a node at
/// least as strong, and every node admitting whatever satisfies all
/// constraints on its project.
pub open spec fn nodes_invariant(
    nodes: Seq<HNode>,
    input: Seq<PackageReq>,
    table: Seq<(String, Vec<PackageReq>)>,
) -> bool {
    &&& (forall|i: int, j: int|
        0 <= i < j < nodes.len() ==> (#[trigger] nodes[i]).req.project@ != (
        #[trigger] nodes[j]).req.project@)
    &&& (forall|k: int|
        0 <= k < nodes.len() ==> range_wf((#[trigger] nodes[k]).req.constraint.constraints@))
    &&& (forall|s: int| 0 <= s < input.len() ==> covered_nodes(nodes, #[trigger] input[s]))
    &&& (forall|k: int| 0 <= k < nodes.len() ==> req_lower(input, table, (#[trigger] nodes[k]).req))
}

/// The request is some walked node's request.
pub open spec fn from_nodes(nodes0: Seq<HNode>, rq: PackageReq) -> bool {
    exists|m: int| 0 <= m < nodes0.len() && (#[trigger] nodes0[m]).req == rq
}

/// The node is one of the walked nodes.
pub open spec fn in_nodes0(nodes0: Seq<HNode>, n: HNode) -> bool {
    exists|m: int| 0 <= m < nodes0.len() && (#[trigger] nodes0[m]) == n
}

/// The node's request was emitted, or the node still awaits extraction.
pub open spec fn placed(out: Seq<PackageReq>, rem: Seq<HNode>, n: HNode) -> bool {
    (exists|j: int| 0 <= j < out.len() && (#[trigger] out[j]) == n.req) || (exists|j: int|
        0 <= j < rem.len() && (#[trigger] rem[j]) == n)
}

/// The index is on the worklist.
pub open spec fn on_stack(stack: Seq<usize>, k: int) -> bool {
    exists|j: int| 0 <= j < stack.len() && (#[trigger] stack[j]) as int == k
}

/// Every dependency of the node's project is covered by some node.
pub open spec fn edges_done(
    nodes: Seq<HNode>,
    table: Seq<(String, Vec<PackageReq>)>,
    k: int,
) -> bool {
    forall|d: int|
        0 <= d < table_lookup(table, nodes[k].req.project@).len() ==> covered_nodes(
            nodes,
            #[trigger] table_lookup(table, nodes[k].req.project@)[d],
        )
}

/// Coverage survives a node whose constraint only tightened.
proof fn lemma_covered_nodes_evolve(old_nodes: Seq<HNode>, new_nodes: Seq<HNode>, d: PackageReq)
    requires
        covered_nodes(old_nodes, d),
        new_nodes.len() >= old_nodes.len(),
        forall|k: int|
            0 <= k < old_nodes.len() ==> (#[trigger] new_nodes[k]).req.project@
                == old_nodes[k].req.project@,
        forall|k: int, v: Seq<u64>|
            0 <= k < old_nodes.len() && #[trigger] sat_range(
                (#[trigger] new_nodes[k]).req.constraint.constraints@,
                v,
            ) ==> sat_range(old_nodes[k].req.constraint.constraints@, v),
    ensures
        covered_nodes(new_nodes, d),
{
    let k0 = choose|k: int|
        0 <= k < old_nodes.len() && req_stronger((#[trigger] old_nodes[k]).req, d);
    assert(req_stronger(new_nodes[k0].req, d));
}

/// Expand seed requests into the full dependency set. Dependencies come from
/// the table, looked up by project. Every seed survives into the result with
/// a constraint at least as tight, each project appears once, and every
/// dependency of every listed project is covered by the result. Failure is
/// the work bound, or a project whose constraints across seeds and table
/// edges admit no common version.
#[verifier::loop_isolation(false)]
pub fn hydrate(input: &Vec<PackageReq>, deps: &Vec<(String, Vec<PackageReq>)>) -> (r: Result<
    Vec<PackageReq>,
    HydrateError,
>)
    requires
        reqs_wf(input@),
        table_wf(deps@),
    ensures
        match r {
            Ok(h) => {
                &&& reqs_distinct(h@)
                &&& reqs_wf(h@)
                &&& (forall|s: int| 0 <= s < input@.len() ==> covered(h@, #[trigger] input@[s]))
                &&& h@.len() >= seed_projects(input@, 0).len()
                &&& (forall|j: int|
                    0 <= j < seed_projects(input@, 0).len() ==> (#[trigger] h@[j]).project@
                        == seed_projects(input@, 0)[j])
                &&& (forall|q: int| 0 <= q < h@.len() ==> req_lower(input@, deps@, #[trigger] h@[q]))
                &&& (forall|q: int, d: int|
                    0 <= q < h@.len() && 0 <= d < table_lookup(
                        deps@,
                        (#[trigger] h@[q]).project@,
                    ).len() ==> covered(h@, #[trigger] table_lookup(deps@, h@[q].project@)[d]))
            },
            Err(e) => e is WorkBound || (exists|p: Seq<char>| #[trigger] project_unsat(
                input@,
                deps@,
                p,
            )),
        },
{
    let dry = match condense(input) {
        Ok(d) => d,
        Err(_) => {
            proof {
                let p = choose|p: Seq<char>| #[trigger] seeds_unsat(input@, p);
                assert forall|v: Seq<u64>| !#[trigger] joint_sat(input@, deps@, p, v) by {
                    assert(!all_seeds_sat(input@, input@.len() as int, p, v));
                }
                assert(project_unsat(input@, deps@, p));
            }
            return Err(HydrateError::Unsatisfiable);
        },
    };
    let ghost dry0 = dry@;
    let mut rest = dry;
    let mut nodes: Vec<HNode> = Vec::new();
    let mut stack: Vec<usize> = Vec::new();
    while rest.len() > 0
        invariant
            nodes@.len() + rest@.len() == dry0.len(),
            forall|k: int|
                0 <= k < nodes@.len() ==> (#[trigger] nodes@[k]).req == dry0[k] && nodes@[k].depth
                    == 0,
            forall|k: int| 0 <= k < rest@.len() ==> (#[trigger] rest@[k]) == dry0[nodes@.len() + k],
            stack@.len() == nodes@.len(),
            forall|k: int| 0 <= k < stack@.len() ==> (#[trigger] stack@[k]) as int == k,
            reqs_distinct(dry0),
            reqs_wf(dry0),
            forall|s: int| 0 <= s < input@.len() ==> covered(dry0, #[trigger] input@[s]),
            forall|m: int|
                0 <= m < dry0.len() ==> condensed_exact(
                    input@,
                    input@.len() as int,
                    #[trigger] dry0[m],
                ),
        decreases rest@.len(),
    {
        let ghost rest_before = rest@;
        let x = rest.remove(0);
        stack.push(nodes.len());
        nodes.push(HNode { req: x, depth: 0 });
        proof {
            assert forall|k: int| 0 <= k < rest@.len() implies (#[trigger] rest@[k]) == dry0[nodes@.len() + k] by {
                assert(rest@[k] == rest_before[k + 1]);
            }
        }
    }
    proof {
        assert(nodes_invariant(nodes@, input@, deps@)) by {
            assert forall|s: int| 0 <= s < input@.len() implies covered_nodes(
                nodes@,
                #[trigger] input@[s],
            ) by {
                let k0 = choose|k: int|
                    0 <= k < dry0.len() && req_stronger(#[trigger] dry0[k], input@[s]);
                assert(nodes@[k0].req == dry0[k0]);
                assert(req_stronger(nodes@[k0].req, input@[s]));
            }
            assert forall|k: int| 0 <= k < nodes@.len() implies req_lower(
                input@,
                deps@,
                (#[trigger] nodes@[k]).req,
            ) by {
                assert(condensed_exact(input@, input@.len() as int, dry0[k]));
                assert forall|v: Seq<u64>|
                    #[trigger] joint_sat(input@, deps@, nodes@[k].req.project@, v) implies sat_range(
                    nodes@[k].req.constraint.constraints@,
                    v,
                ) by {
                    assert(all_seeds_sat(
                        input@,
                        input@.len() as int,
                        nodes@[k].req.project@,
                        v,
                    ));
                }
            }
        }
        assert forall|k: int| 0 <= k < nodes@.len() implies on_stack(stack@, k) || edges_done(
            nodes@,
            deps@,
            k,
        ) by {
            assert(stack@[k] as int == k);
        }
    }

    let mut budget: u64 = 1000000;
    while stack.len() > 0 && budget > 0
        invariant
            nodes_invariant(nodes@, input@, deps@),
            forall|k: int| 0 <= k < stack@.len() ==> (#[trigger] stack@[k]) < nodes@.len(),
            table_wf(deps@),
            forall|k: int|
                0 <= k < nodes@.len() ==> on_stack(stack@, k) || edges_done(nodes@, deps@, k),
            nodes@.len() >= dry0.len(),
            forall|k: int|
                0 <= k < dry0.len() ==> (#[trigger] nodes@[k]).req.project@ == dry0[k].project@
                    && nodes@[k].depth == 0,
            forall|k: int| dry0.len() <= k < nodes@.len() ==> (#[trigger] nodes@[k]).depth >= 1,
        decreases budget,
    {
        budget = budget - 1;
        let ghost stack_before = stack@;
        let qi = match stack.pop() {
            Some(q) => q,
            None => {
                return Err(HydrateError::WorkBound);
            },
        };
        proof {
            assert(stack@ =~= stack_before.drop_last());
            assert(stack_before.last() == qi);
            assert forall|k: int| 0 <= k < nodes@.len() implies k == qi as int || on_stack(
                stack@,
                k,
            ) || edges_done(nodes@, deps@, k) by {
                if k != qi as int && on_stack(stack_before, k) {
                    let j0 = choose|j: int|
                        0 <= j < stack_before.len() && (#[trigger] stack_before[j]) as int == k;
                    assert(j0 < stack_before.len() - 1);
                    assert(stack@[j0] as int == k);
                }
            }
        }
        let q_project = nodes[qi].req.project.clone();
        let q_depth = nodes[qi].depth;
        let ds_opt = lookup_deps(deps, &q_project);
        match ds_opt {
            None => {
                proof {
                    assert(edges_done(nodes@, deps@, qi as int)) by {
                        assert(table_lookup(deps@, nodes@[qi as int].req.project@).len() == 0);
                    }
                    assert forall|k: int| 0 <= k < nodes@.len() implies on_stack(stack@, k)
                        || edges_done(nodes@, deps@, k) by {
                        if k != qi as int && on_stack(stack_before, k) {
                            let j0 = choose|j: int|
                                0 <= j < stack_before.len() && (#[trigger] stack_before[j]) as int
                                    == k;
                            if j0 < stack_before.len() - 1 {
                                assert(stack@[j0] as int == k);
                            }
                        }
                    }
                }
            },
            Some(ds) => {
                proof {
                    lemma_table_lookup_wf(deps@, q_project@);
                }
                let mut d: usize = 0;
                while d < ds.len()
                    invariant
                        d <= ds@.len(),
                        qi < nodes@.len(),
                        reqs_wf(ds@),
                        ds@ == table_lookup(deps@, q_project@),
                        nodes@[qi as int].req.project@ == q_project@,
                        nodes_invariant(nodes@, input@, deps@),
                        table_wf(deps@),
                        forall|k: int|
                            0 <= k < stack@.len() ==> (#[trigger] stack@[k]) < nodes@.len(),
                        forall|k: int|
                            0 <= k < nodes@.len() ==> k == qi as int || on_stack(stack@, k)
                                || edges_done(nodes@, deps@, k),
                        forall|dd: int| 0 <= dd < d ==> covered_nodes(nodes@, #[trigger] ds@[dd]),
                        nodes@.len() >= dry0.len(),
                        forall|k: int|
                            0 <= k < dry0.len() ==> (#[trigger] nodes@[k]).req.project@
                                == dry0[k].project@ && nodes@[k].depth == 0,
                        forall|k: int|
                            dry0.len() <= k < nodes@.len() ==> (#[trigger] nodes@[k]).depth >= 1,
                    decreases ds@.len() - d,
                {
                    let dep = &ds[d];
                    let mut pi: Option<usize> = None;
                    let mut m: usize = 0;
                    while m < nodes.len()
                        invariant
                            m <= nodes@.len(),
                            d < ds@.len(),
                            match pi {
                                Some(p) => p < m && nodes@[p as int].req.project@ == ds@[d as int].project@,
                                None => forall|w: int|
                                    0 <= w < m ==> (#[trigger] nodes@[w]).req.project@ != ds@[d as int].project@,
                            },
                        decreases nodes@.len() - m,
                    {
                        if pi.is_none() && nodes[m].req.project == dep.project {
                            pi = Some(m);
                        }
                        m += 1;
                    }
                    let ghost before = nodes@;
                    let ghost stack_pre = stack@;
                    proof {
                        assert(exists|t: int|
                            0 <= t < deps@.len() && (#[trigger] deps@[t]).1@ == ds@) by {
                            lemma_table_lookup_is_row(deps@, q_project@);
                        }
                    }
                    match pi {
                        Some(p) => {
                            let merged = match nodes[p].req.constraint.intersect(&dep.constraint) {
                                Ok(c) => c,
                                Err(_) => {
                                    proof {
                                        let pp = nodes@[p as int].req.project@;
                                        let t0 = choose|t: int|
                                            0 <= t < deps@.len() && (#[trigger] deps@[t]).1@
                                                == ds@;
                                        assert forall|v: Seq<u64>| !#[trigger] joint_sat(
                                            input@,
                                            deps@,
                                            pp,
                                            v,
                                        ) by {
                                            if joint_sat(input@, deps@, pp, v) {
                                                assert(req_lower(
                                                    input@,
                                                    deps@,
                                                    before[p as int].req,
                                                ));
                                                assert(sat_range(
                                                    before[p as int].req.constraint.constraints@,
                                                    v,
                                                ));
                                                assert(deps@[t0].1@[d as int] == ds@[d as int]);
                                                assert(sat_range(
                                                    ds@[d as int].constraint.constraints@,
                                                    v,
                                                ));
                                            }
                                        }
                                        assert(project_unsat(input@, deps@, pp));
                                    }
                                    return Err(HydrateError::Unsatisfiable);
                                },
                            };
                            let project = nodes[p].req.project.clone();
                            let depth = nodes[p].depth;
                            nodes[p] = HNode {
                                req: PackageReq { project, constraint: merged },
                                depth,
                            };
                            stack.push(p);
                            proof {
                                assert(nodes@[p as int].req.project@ == before[p as int].req.project@);
                                assert(nodes@.len() == before.len());
                                assert forall|k: int|
                                    0 <= k < before.len() && k != p as int implies nodes@[k]
                                    == before[k] by {}
                                assert forall|k: int, v: Seq<u64>|
                                    0 <= k < before.len() && #[trigger] sat_range(
                                        (#[trigger] nodes@[k]).req.constraint.constraints@,
                                        v,
                                    ) implies sat_range(
                                    before[k].req.constraint.constraints@,
                                    v,
                                ) by {}
                                assert forall|s: int| 0 <= s < input@.len() implies covered_nodes(
                                    nodes@,
                                    #[trigger] input@[s],
                                ) by {
                                    lemma_covered_nodes_evolve(before, nodes@, input@[s]);
                                }
                                assert forall|k: int| 0 <= k < nodes@.len() implies req_lower(
                                    input@,
                                    deps@,
                                    (#[trigger] nodes@[k]).req,
                                ) by {
                                    if k == p as int {
                                        let t0 = choose|t: int|
                                            0 <= t < deps@.len() && (#[trigger] deps@[t]).1@
                                                == ds@;
                                        assert forall|v: Seq<u64>|
                                            #[trigger] joint_sat(
                                                input@,
                                                deps@,
                                                nodes@[k].req.project@,
                                                v,
                                            ) implies sat_range(
                                            nodes@[k].req.constraint.constraints@,
                                            v,
                                        ) by {
                                            assert(req_lower(input@, deps@, before[k].req));
                                            assert(sat_range(
                                                before[k].req.constraint.constraints@,
                                                v,
                                            ));
                                            assert(deps@[t0].1@[d as int] == ds@[d as int]);
                                            assert(sat_range(
                                                ds@[d as int].constraint.constraints@,
                                                v,
                                            ));
                                        }
                                    } else {
                                        assert(nodes@[k] == before[k]);
                                    }
                                }
                                assert forall|dd: int| 0 <= dd < d + 1 implies covered_nodes(
                                    nodes@,
                                    #[trigger] ds@[dd],
                                ) by {
                                    if dd < d {
                                        lemma_covered_nodes_evolve(before, nodes@, ds@[dd]);
                                    } else {
                                        assert(req_stronger(nodes@[p as int].req, ds@[d as int]));
                                    }
                                }
                                assert forall|k: int| 0 <= k < nodes@.len() implies k == qi as int
                                    || on_stack(stack@, k) || edges_done(nodes@, deps@, k) by {
                                    if k != qi as int {
                                        if on_stack(stack_pre, k) {
                                            let j0 = choose|j: int|
                                                0 <= j < stack_pre.len() && (
                                                #[trigger] stack_pre[j]) as int == k;
                                            assert(stack@[j0] as int == k);
                                        } else if edges_done(before, deps@, k) {
                                            assert(nodes@[k].req.project@ == before[
                                                k].req.project@);
                                            assert forall|d2: int|
                                                0 <= d2 < table_lookup(
                                                    deps@,
                                                    nodes@[k].req.project@,
                                                ).len() implies covered_nodes(
                                                nodes@,
                                                #[trigger] table_lookup(
                                                    deps@,
                                                    nodes@[k].req.project@,
                                                )[d2],
                                            ) by {
                                                lemma_covered_nodes_evolve(
                                                    before,
                                                    nodes@,
                                                    table_lookup(
                                                        deps@,
                                                        nodes@[k].req.project@,
                                                    )[d2],
                                                );
                                            }
                                        }
                                    }
                                }
                            }
                        },
                        None => {
                            let nd = if q_depth == u64::MAX {
                                q_depth
                            } else {
                                q_depth + 1
                            };
                            stack.push(nodes.len());
                            nodes.push(HNode { req: dep.clone(), depth: nd });
                            proof {
                                assert(nodes@[nodes@.len() - 1].req.project@ == ds@[d as int].project@);
                                assert forall|k: int| 0 <= k < before.len() implies nodes@[k]
                                    == before[k] by {}
                                assert forall|s: int| 0 <= s < input@.len() implies covered_nodes(
                                    nodes@,
                                    #[trigger] input@[s],
                                ) by {
                                    let k0 = choose|k: int|
                                        0 <= k < before.len() && req_stronger(
                                            (#[trigger] before[k]).req,
                                            input@[s],
                                        );
                                    assert(req_stronger(nodes@[k0].req, input@[s]));
                                }
                                assert forall|k: int| 0 <= k < nodes@.len() implies req_lower(
                                    input@,
                                    deps@,
                                    (#[trigger] nodes@[k]).req,
                                ) by {
                                    if k == nodes@.len() - 1 {
                                        let t0 = choose|t: int|
                                            0 <= t < deps@.len() && (#[trigger] deps@[t]).1@
                                                == ds@;
                                        assert forall|v: Seq<u64>|
                                            #[trigger] joint_sat(
                                                input@,
                                                deps@,
                                                nodes@[k].req.project@,
                                                v,
                                            ) implies sat_range(
                                            nodes@[k].req.constraint.constraints@,
                                            v,
                                        ) by {
                                            assert(deps@[t0].1@[d as int] == ds@[d as int]);
                                            assert(sat_range(
                                                ds@[d as int].constraint.constraints@,
                                                v,
                                            ));
                                        }
                                    } else {
                                        assert(nodes@[k] == before[k]);
                                    }
                                }
                                assert forall|dd: int| 0 <= dd < d + 1 implies covered_nodes(
                                    nodes@,
                                    #[trigger] ds@[dd],
                                ) by {
                                    if dd < d {
                                        let k0 = choose|k: int|
                                            0 <= k < before.len() && req_stronger(
                                                (#[trigger] before[k]).req,
                                                ds@[dd],
                                            );
                                        assert(req_stronger(nodes@[k0].req, ds@[dd]));
                                    } else {
                                        assert(req_stronger(nodes@[nodes@.len() - 1].req, ds@[d as int]));
                                    }
                                }
                                assert forall|k: int| 0 <= k < nodes@.len() implies k == qi as int
                                    || on_stack(stack@, k) || edges_done(nodes@, deps@, k) by {
                                    if k == nodes@.len() - 1 {
                                        assert(stack@[stack@.len() - 1] as int == k);
                                    } else if k != qi as int {
                                        if on_stack(stack_pre, k) {
                                            let j0 = choose|j: int|
                                                0 <= j < stack_pre.len() && (
                                                #[trigger] stack_pre[j]) as int == k;
                                            assert(stack@[j0] as int == k);
                                        } else if edges_done(before, deps@, k) {
                                            assert forall|d2: int|
                                                0 <= d2 < table_lookup(
                                                    deps@,
                                                    nodes@[k].req.project@,
                                                ).len() implies covered_nodes(
                                                nodes@,
                                                #[trigger] table_lookup(
                                                    deps@,
                                                    nodes@[k].req.project@,
                                                )[d2],
                                            ) by {
                                                let k0 = choose|kk: int|
                                                    0 <= kk < before.len() && req_stronger(
                                                        (#[trigger] before[kk]).req,
                                                        table_lookup(
                                                            deps@,
                                                            nodes@[k].req.project@,
                                                        )[d2],
                                                    );
                                                assert(req_stronger(
                                                    nodes@[k0].req,
                                                    table_lookup(
                                                        deps@,
                                                        nodes@[k].req.project@,
                                                    )[d2],
                                                ));
                                            }
                                        }
                                    }
                                }
                            }
                        },
                    }
                    d += 1;
                }
                proof {
                    assert(edges_done(nodes@, deps@, qi as int)) by {
                        assert(table_lookup(deps@, nodes@[qi as int].req.project@) == ds@);
                    }
                    assert forall|k: int| 0 <= k < nodes@.len() implies on_stack(stack@, k)
                        || edges_done(nodes@, deps@, k) by {}
                }
            },
        }
    }
    if stack.len() > 0 {
        return Err(HydrateError::WorkBound);
    }
    proof {
        assert forall|k: int| 0 <= k < nodes@.len() implies edges_done(nodes@, deps@, k) by {
            if on_stack(stack@, k) {
                let j0 = choose|j: int|
                    0 <= j < stack@.len() && (#[trigger] stack@[j]) as int == k;
                assert(false);
            }
        }
    }

    // Extract in depth order: repeatedly take a node of minimal depth.
    let ghost nodes0 = nodes@;
    let mut out: Vec<PackageReq> = Vec::new();
    proof {
        assert forall|m: int| 0 <= m < nodes0.len() implies placed(
            out@,
            nodes@,
            #[trigger] nodes0[m],
        ) by {
            assert(nodes@[m] == nodes0[m]);
        }
        assert forall|j: int| 0 <= j < nodes@.len() implies in_nodes0(
            nodes0,
            #[trigger] nodes@[j],
        ) by {
            assert(nodes0[j] == nodes@[j]);
        }
        assert(nodes@ =~= nodes0.skip(0));
        assert(projects_of(dry0) == seed_projects(input@, 0));
    }
    while nodes.len() > 0
        invariant
            out@.len() + nodes@.len() == nodes0.len(),
            reqs_distinct(out@),
            reqs_wf(out@),
            forall|i2: int, j2: int|
                0 <= i2 < out@.len() && 0 <= j2 < nodes@.len() ==> (#[trigger] out@[i2]).project@
                    != (#[trigger] nodes@[j2]).req.project@,
            forall|i2: int, j2: int|
                0 <= i2 < j2 < nodes@.len() ==> (#[trigger] nodes@[i2]).req.project@ != (
                #[trigger] nodes@[j2]).req.project@,
            forall|k: int|
                0 <= k < nodes@.len() ==> range_wf(
                    (#[trigger] nodes@[k]).req.constraint.constraints@,
                ),
            forall|j: int| 0 <= j < nodes@.len() ==> in_nodes0(nodes0, #[trigger] nodes@[j]),
            forall|j: int| 0 <= j < out@.len() ==> from_nodes(nodes0, #[trigger] out@[j]),
            forall|m: int| 0 <= m < nodes0.len() ==> placed(out@, nodes@, #[trigger] nodes0[m]),
            out@.len() <= dry0.len() ==> nodes@ == nodes0.skip(out@.len() as int),
            forall|j: int|
                0 <= j < out@.len() && j < dry0.len() ==> (#[trigger] out@[j]).project@
                    == dry0[j].project@,
            out@.len() >= dry0.len() ==> (forall|j: int|
                0 <= j < nodes@.len() ==> (#[trigger] nodes@[j]).depth >= 1),
        decreases nodes@.len(),
    {
        let mut min_i: usize = 0;
        let mut m: usize = 1;
        while m < nodes.len()
            invariant
                min_i < nodes@.len(),
                m <= nodes@.len(),
                nodes@[0].depth == 0 ==> min_i == 0,
            decreases nodes@.len() - m,
        {
            if nodes[m].depth < nodes[min_i].depth {
                min_i = m;
            }
            m += 1;
        }
        proof {
            if out@.len() < dry0.len() {
                assert(nodes@ == nodes0.skip(out@.len() as int));
                assert(nodes@[0] == nodes0[out@.len() as int]);
                assert(nodes@[0].depth == 0);
                assert(min_i == 0);
            }
        }
        let ghost before = nodes@;
        let nd = nodes.remove(min_i);
        let ghost out_before = out@;
        out.push(nd.req);
        proof {
            assert(out@[out@.len() - 1] == before[min_i as int].req);
            assert forall|j: int| 0 <= j < nodes@.len() implies (#[trigger] nodes@[j]) == (if j
                < min_i {
                before[j]
            } else {
                before[j + 1]
            }) by {}
            assert forall|j: int| 0 <= j < out@.len() implies from_nodes(
                nodes0,
                #[trigger] out@[j],
            ) by {
                if j < out_before.len() {
                    assert(out@[j] == out_before[j]);
                    assert(from_nodes(nodes0, out_before[j]));
                } else {
                    assert(in_nodes0(nodes0, before[min_i as int]));
                    let m2 = choose|m2: int|
                        0 <= m2 < nodes0.len() && (#[trigger] nodes0[m2]) == before[min_i as int];
                    assert(out@[j] == nodes0[m2].req);
                }
            }
            assert forall|j: int| 0 <= j < nodes@.len() implies in_nodes0(
                nodes0,
                #[trigger] nodes@[j],
            ) by {
                if j < min_i {
                    assert(nodes@[j] == before[j]);
                    assert(in_nodes0(nodes0, before[j]));
                } else {
                    assert(nodes@[j] == before[j + 1]);
                    assert(in_nodes0(nodes0, before[j + 1]));
                }
            }
            if out_before.len() < dry0.len() {
                assert(out@[out@.len() - 1].project@ == dry0[out_before.len() as int].project@);
                assert(nodes@ =~= nodes0.skip(out@.len() as int));
                if out@.len() == dry0.len() {
                    assert forall|j: int| 0 <= j < nodes@.len() implies (
                    #[trigger] nodes@[j]).depth >= 1 by {
                        assert(nodes@[j] == nodes0[dry0.len() + j]);
                    }
                }
            } else {
                assert forall|j: int| 0 <= j < nodes@.len() implies (
                #[trigger] nodes@[j]).depth >= 1 by {
                    if j < min_i {
                        assert(nodes@[j] == before[j]);
                    } else {
                        assert(nodes@[j] == before[j + 1]);
                    }
                }
            }
            assert forall|m2: int| 0 <= m2 < nodes0.len() implies placed(
                out@,
                nodes@,
                #[trigger] nodes0[m2],
            ) by {
                assert(placed(out_before, before, nodes0[m2]));
                if exists|j: int|
                    0 <= j < out_before.len() && (#[trigger] out_before[j]) == nodes0[m2].req {
                    let j0 = choose|j: int|
                        0 <= j < out_before.len() && (#[trigger] out_before[j]) == nodes0[m2].req;
                    assert(out@[j0] == nodes0[m2].req);
                } else {
                    let j0 = choose|j: int|
                        0 <= j < before.len() && (#[trigger] before[j]) == nodes0[m2];
                    if j0 == min_i {
                        assert(out@[out@.len() - 1] == nodes0[m2].req);
                    } else if j0 < min_i {
                        assert(nodes@[j0] == nodes0[m2]);
                    } else {
                        assert(nodes@[j0 - 1] == nodes0[m2]);
                    }
                }
            }
        }
    }
    proof {
        assert(out@.len() == nodes0.len());
        assert(out@.len() >= seed_projects(input@, 0).len());
        assert forall|j: int|
            0 <= j < seed_projects(input@, 0).len() implies (#[trigger] out@[j]).project@
            == seed_projects(input@, 0)[j] by {
            assert(out@[j].project@ == dry0[j].project@);
            assert(projects_of(dry0)[j] == dry0[j].project@);
        }
        assert forall|s: int| 0 <= s < input@.len() implies covered(out@, #[trigger] input@[s]) by {
            let k0 = choose|k: int|
                0 <= k < nodes0.len() && req_stronger((#[trigger] nodes0[k]).req, input@[s]);
            assert(placed(out@, nodes@, nodes0[k0]));
            let j0 = choose|j: int| 0 <= j < out@.len() && (#[trigger] out@[j]) == nodes0[k0].req;
            assert(req_stronger(out@[j0], input@[s]));
        }
        assert forall|q: int| 0 <= q < out@.len() implies req_lower(
            input@,
            deps@,
            #[trigger] out@[q],
        ) by {
            assert(from_nodes(nodes0, out@[q]));
            let mq = choose|m2: int|
                0 <= m2 < nodes0.len() && (#[trigger] nodes0[m2]).req == out@[q];
            assert(req_lower(input@, deps@, nodes0[mq].req));
        }
        assert forall|q: int, d: int|
            0 <= q < out@.len() && 0 <= d < table_lookup(
                deps@,
                (#[trigger] out@[q]).project@,
            ).len() implies covered(out@, #[trigger] table_lookup(deps@, out@[q].project@)[d]) by {
            assert(from_nodes(nodes0, out@[q]));
            let mq = choose|m2: int|
                0 <= m2 < nodes0.len() && (#[trigger] nodes0[m2]).req == out@[q];
            assert(edges_done(nodes0, deps@, mq));
            assert(nodes0[mq].req.project@ == out@[q].project@);
            assert(covered_nodes(nodes0, table_lookup(deps@, out@[q].project@)[d]));
            let k0 = choose|k: int|
                0 <= k < nodes0.len() && req_stronger(
                    (#[trigger] nodes0[k]).req,
                    table_lookup(deps@, out@[q].project@)[d],
                );
            assert(placed(out@, nodes@, nodes0[k0]));
            let j0 = choose|j: int| 0 <= j < out@.len() && (#[trigger] out@[j]) == nodes0[k0].req;
            assert(req_stronger(out@[j0], table_lookup(deps@, out@[q].project@)[d]));
        }
    }
    Ok(out)
}

} // verus!
