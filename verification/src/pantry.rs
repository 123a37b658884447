//! Pantry manifests: interpret a raw manifest into a pantry entry. Platform
//! keys gate dependency and provides blocks to the current platform, and a
//! constraint that starts with a bare digit is promoted to a caret form.

use vstd::prelude::*;

use crate::env::pairs_view;
use crate::range::{c_shape, range_wf, spec_parse_range, VersionRange};
use crate::semver::is_digit_char;
use crate::types::{Host, PackageReq};

verus! {

/// A raw manifest value: a plain string or a nested table of strings.
#[derive(Debug)]
pub enum RawValue {
    Str(String),
    Pairs(Vec<(String, String)>),
}

/// A raw provides block: a plain list of programs, or lists keyed by
/// platform.
#[derive(Debug)]
pub enum RawProvides {
    List(Vec<String>),
    ByPlatform(Vec<(String, Vec<String>)>),
}

/// A manifest as read, before platform gating and constraint promotion.
#[derive(Debug)]
pub struct RawPantryEntry {
    pub dependencies: Option<Vec<(String, RawValue)>>,
    pub provides: Option<RawProvides>,
    pub companions: Option<Vec<(String, RawValue)>>,
    pub env: Option<Vec<(String, String)>>,
}

/// An interpreted manifest.
#[derive(Debug)]
pub struct PantryEntry {
    pub project: String,
    pub deps: Vec<PackageReq>,
    pub programs: Vec<String>,
    pub companions: Vec<PackageReq>,
    pub env: Vec<(String, String)>,
}

/// A dependency constraint of the manifest did not parse.
#[derive(Clone, Copy, PartialEq, Eq, Structural, Debug)]
pub struct PantryParseError;

/// The platform key of a host, as manifests write it.
pub open spec fn host_key(host: Host) -> Seq<char> {
    match host {
        Host::Linux => "linux"@,
        Host::Darwin => "darwin"@,
    }
}

/// A key that gates its block to one platform.
pub open spec fn is_platform_key(k: Seq<char>) -> bool {
    k == "linux"@ || k == "darwin"@ || k == "windows"@
}

/// The dependency pairs a raw block contributes on the given platform, from
/// position `i` on: entries under the platform's own key contribute their
/// nested map, entries under other platform keys contribute nothing, and
/// plain string entries contribute themselves.
pub open spec fn gate_from(
    list: Seq<(String, RawValue)>,
    hostk: Seq<char>,
    i: int,
) -> Seq<(Seq<char>, Seq<char>)>
    decreases list.len() - i,
{
    if i < 0 || i >= list.len() {
        Seq::empty()
    } else {
        let here: Seq<(Seq<char>, Seq<char>)> = if is_platform_key(list[i].0@) {
            if list[i].0@ == hostk {
                match list[i].1 {
                    RawValue::Pairs(m) => pairs_view(m@),
                    RawValue::Str(_) => Seq::empty(),
                }
            } else {
                Seq::empty()
            }
        } else {
            match list[i].1 {
                RawValue::Str(s) => seq![(list[i].0@, s@)],
                RawValue::Pairs(_) => Seq::empty(),
            }
        };
        here + gate_from(list, hostk, i + 1)
    }
}

/// A constraint text with a leading digit promoted to a caret form.
pub open spec fn promoted(v: Seq<char>) -> Seq<char> {
    if v.len() > 0 && is_digit_char(v[0]) {
        seq!['^'] + v
    } else {
        v
    }
}

/// Gather the dependency pairs a raw block contributes on this platform.
#[verifier::loop_isolation(false)]
fn collect_gated(list: &Vec<(String, RawValue)>, host: Host) -> (r: Vec<(String, String)>)
    ensures
        pairs_view(r@) == gate_from(list@, host_key(host), 0),
{
    proof {
        reveal_strlit("linux");
        reveal_strlit("darwin");
        reveal_strlit("windows");
    }
    let linux_probe = String::from_str("linux");
    let darwin_probe = String::from_str("darwin");
    let windows_probe = String::from_str("windows");
    let hostp = match host {
        Host::Linux => String::from_str("linux"),
        Host::Darwin => String::from_str("darwin"),
    };
    let mut out: Vec<(String, String)> = Vec::new();
    let mut i: usize = 0;
    proof {
        assert(pairs_view(out@) =~= Seq::<(Seq<char>, Seq<char>)>::empty());
    }
    while i < list.len()
        invariant
            i <= list@.len(),
            linux_probe@ == "linux"@,
            darwin_probe@ == "darwin"@,
            windows_probe@ == "windows"@,
            hostp@ == host_key(host),
            gate_from(list@, host_key(host), 0) == pairs_view(out@) + gate_from(
                list@,
                host_key(host),
                i as int,
            ),
        decreases list@.len() - i,
    {
        let ghost before = out@;
        let k = &list[i].0;
        let platform_key = *k == linux_probe || *k == darwin_probe || *k == windows_probe;
        if platform_key {
            if *k == hostp {
                match &list[i].1 {
                    RawValue::Pairs(m) => {
                        let mut j: usize = 0;
                        while j < m.len()
                            invariant
                                j <= m@.len(),
                                i < list@.len(),
                                pairs_view(out@) == pairs_view(before) + pairs_view(m@).take(
                                    j as int,
                                ),
                            decreases m@.len() - j,
                        {
                            let ghost out_old = out@;
                            out.push((m[j].0.clone(), m[j].1.clone()));
                            proof {
                                assert(pairs_view(m@).take(j + 1) =~= pairs_view(m@).take(
                                    j as int,
                                ).push(pairs_view(m@)[j as int]));
                                assert(pairs_view(out@) =~= pairs_view(out_old).push(
                                    (out@[out@.len() - 1].0@, out@[out@.len() - 1].1@),
                                ));
                                assert((out@[out@.len() - 1].0@, out@[out@.len() - 1].1@)
                                    == pairs_view(m@)[j as int]);
                                assert(pairs_view(out@) =~= pairs_view(before) + pairs_view(
                                    m@,
                                ).take(j + 1));
                            }
                            j += 1;
                        }
                        proof {
                            assert(pairs_view(m@).take(m@.len() as int) =~= pairs_view(m@));
                        }
                    },
                    RawValue::Str(_) => {
                    },
                }
            }
        } else {
            match &list[i].1 {
                RawValue::Str(s) => {
                    out.push((k.clone(), s.clone()));
                    proof {
                        assert(pairs_view(out@) =~= pairs_view(before) + seq![
                            (list@[i as int].0@, list@[i as int].1->Str_0@),
                        ]);
                    }
                },
                RawValue::Pairs(_) => {
                },
            }
        }
        proof {
            assert(gate_from(list@, host_key(host), 0) =~= pairs_view(out@) + gate_from(
                list@,
                host_key(host),
                i + 1,
            ));
        }
        i += 1;
    }
    out
}

/// The request is what the gated pair denotes: the pair's key as project and
/// the caret-promoted value parsed as the constraint.
pub open spec fn req_of_pair(p: (Seq<char>, Seq<char>), rq: PackageReq) -> bool {
    &&& rq.project@ == p.0
    &&& spec_parse_range(promoted(p.1)) is Some
    &&& rq.constraint.constraints@.len() == spec_parse_range(promoted(p.1))->Some_0.len()
    &&& range_wf(rq.constraint.constraints@)
    &&& (forall|c: int|
        0 <= c < rq.constraint.constraints@.len() ==> c_shape(
            #[trigger] rq.constraint.constraints@[c],
        ) == spec_parse_range(promoted(p.1))->Some_0[c])
}

/// Every gated pair's promoted constraint text parses.
pub open spec fn block_parses(pairs: Seq<(Seq<char>, Seq<char>)>) -> bool {
    forall|k: int| 0 <= k < pairs.len() ==> spec_parse_range(
        promoted((#[trigger] pairs[k]).1),
    ) is Some
}

/// The requests are exactly the gated pairs, one per pair in order.
pub open spec fn block_reqs_exact(pairs: Seq<(Seq<char>, Seq<char>)>, reqs: Seq<PackageReq>) -> bool {
    reqs.len() == pairs.len() && (forall|k: int|
        0 <= k < pairs.len() ==> req_of_pair(pairs[k], #[trigger] reqs[k]))
}

/// Build requests from gated dependency pairs, promoting bare-digit
/// constraints to caret form. Fails exactly when some constraint does not
/// parse.
#[verifier::loop_isolation(false)]
fn build_reqs(pairs: &Vec<(String, String)>) -> (r: Result<Vec<PackageReq>, PantryParseError>)
    ensures
        match r {
            Ok(reqs) => block_reqs_exact(pairs_view(pairs@), reqs@),
            Err(_) => !block_parses(pairs_view(pairs@)),
        },
{
    proof {
        reveal_strlit("^");
    }
    let mut reqs: Vec<PackageReq> = Vec::new();
    let mut i: usize = 0;
    while i < pairs.len()
        invariant
            i <= pairs@.len(),
            reqs@.len() == i,
            forall|k: int| 0 <= k < i ==> req_of_pair(pairs_view(pairs@)[k], #[trigger] reqs@[k]),
        decreases pairs@.len() - i,
    {
        proof {
            assert(pairs_view(pairs@)[i as int].1 == pairs@[i as int].1@);
        }
        let vstr = &pairs[i].1;
        let n = vstr.as_str().unicode_len();
        let text: String = if n > 0 {
            let c = vstr.as_str().get_char(0);
            if '0' <= c && c <= '9' {
                let mut t = String::from_str("^");
                t.append(vstr.as_str());
                proof {
                    assert(t@ =~= promoted(vstr@));
                }
                t
            } else {
                vstr.clone()
            }
        } else {
            vstr.clone()
        };
        match VersionRange::parse(text.as_str()) {
            Ok(constraint) => {
                reqs.push(PackageReq { project: pairs[i].0.clone(), constraint });
            },
            Err(_) => {
                proof {
                    assert(spec_parse_range(
                        promoted(pairs_view(pairs@)[i as int].1),
                    ) is None);
                }
                return Err(PantryParseError);
            },
        }
        i += 1;
    }
    Ok(reqs)
}

/// The program names a provides block contributes on this platform.
pub open spec fn programs_of(p: RawProvides, hostk: Seq<char>) -> Seq<Seq<char>> {
    match p {
        RawProvides::List(l) => crate::env::strs(l@),
        RawProvides::ByPlatform(m) => plat_lookup(m@, hostk, 0),
    }
}

/// The list under the first matching platform key, or nothing.
pub open spec fn plat_lookup(m: Seq<(String, Vec<String>)>, hostk: Seq<char>, i: int) -> Seq<
    Seq<char>,
>
    decreases m.len() - i,
{
    if i < 0 || i >= m.len() {
        Seq::empty()
    } else if m[i].0@ == hostk {
        crate::env::strs(m[i].1@)
    } else {
        plat_lookup(m, hostk, i + 1)
    }
}

/// The programs a provides block names on this platform.
#[verifier::loop_isolation(false)]
fn programs_from(p: &RawProvides, host: Host) -> (r: Vec<String>)
    ensures
        crate::env::strs(r@) == programs_of(*p, host_key(host)),
{
    let hostp = match host {
        Host::Linux => String::from_str("linux"),
        Host::Darwin => String::from_str("darwin"),
    };
    match p {
        RawProvides::List(l) => {
            let r = clone_strings(l);
            proof {
                assert(crate::env::strs(r@) =~= programs_of(*p, host_key(host)));
            }
            r
        },
        RawProvides::ByPlatform(m) => {
            let mut i: usize = 0;
            while i < m.len()
                invariant
                    i <= m@.len(),
                    hostp@ == host_key(host),
                    plat_lookup(m@, host_key(host), 0) == plat_lookup(
                        m@,
                        host_key(host),
                        i as int,
                    ),
                decreases m@.len() - i,
            {
                if m[i].0 == hostp {
                    let r = clone_strings(&m[i].1);
                    proof {
                        assert(crate::env::strs(r@) =~= programs_of(*p, host_key(host)));
                    }
                    return r;
                }
                i += 1;
            }
            Vec::new()
        },
    }
}

/// Copy a list of strings.
fn clone_strings(l: &Vec<String>) -> (r: Vec<String>)
    ensures
        crate::env::strs(r@) == crate::env::strs(l@),
{
    let mut r: Vec<String> = Vec::new();
    let mut i: usize = 0;
    while i < l.len()
        invariant
            i <= l@.len(),
            r@.len() == i,
            forall|k: int| 0 <= k < i ==> (#[trigger] r@[k])@ == l@[k]@,
        decreases l@.len() - i,
    {
        r.push(l[i].clone());
        i += 1;
    }
    proof {
        assert(crate::env::strs(r@) =~= crate::env::strs(l@));
    }
    r
}

/// Copy key-value pairs.
fn clone_pairs(l: &Vec<(String, String)>) -> (r: Vec<(String, String)>)
    ensures
        pairs_view(r@) == pairs_view(l@),
{
    let mut r: Vec<(String, String)> = Vec::new();
    let mut i: usize = 0;
    while i < l.len()
        invariant
            i <= l@.len(),
            r@.len() == i,
            forall|k: int|
                0 <= k < i ==> (#[trigger] r@[k]).0@ == l@[k].0@ && r@[k].1@ == l@[k].1@,
        decreases l@.len() - i,
    {
        r.push((l[i].0.clone(), l[i].1.clone()));
        i += 1;
    }
    proof {
        assert(pairs_view(r@) =~= pairs_view(l@));
    }
    r
}

impl PantryEntry {
    /// Interpret a raw manifest for a project on a platform: gate the
    /// dependency and companion blocks to the platform, promote bare-digit
    /// constraints, and keep the platform's program list and the runtime
    /// variables. Fails exactly when some gated, promoted constraint text
    /// does not parse.
    pub fn from_raw_entry(entry: &RawPantryEntry, project: String, host: Host) -> (r: Result<
        PantryEntry,
        PantryParseError,
    >)
        ensures
            match r {
                Ok(e) => {
                    &&& e.project@ == project@
                    &&& (match entry.dependencies {
                        Some(d) => block_reqs_exact(gate_from(d@, host_key(host), 0), e.deps@),
                        None => e.deps@.len() == 0,
                    })
                    &&& (match entry.companions {
                        Some(c) => block_reqs_exact(
                            gate_from(c@, host_key(host), 0),
                            e.companions@,
                        ),
                        None => e.companions@.len() == 0,
                    })
                    &&& (match entry.provides {
                        Some(p) => crate::env::strs(e.programs@) == programs_of(
                            p,
                            host_key(host),
                        ),
                        None => e.programs@.len() == 0,
                    })
                    &&& (match entry.env {
                        Some(v) => pairs_view(e.env@) == pairs_view(v@),
                        None => e.env@.len() == 0,
                    })
                },
                Err(_) => (match entry.dependencies {
                    Some(d) => !block_parses(gate_from(d@, host_key(host), 0)),
                    None => false,
                }) || (match entry.companions {
                    Some(c) => !block_parses(gate_from(c@, host_key(host), 0)),
                    None => false,
                }),
            },
    {
        let deps = match &entry.dependencies {
            Some(d) => {
                let gated = collect_gated(d, host);
                match build_reqs(&gated) {
                    Ok(reqs) => reqs,
                    Err(e) => {
                        return Err(e);
                    },
                }
            },
            None => Vec::new(),
        };
        let companions = match &entry.companions {
            Some(c) => {
                let gated = collect_gated(c, host);
                match build_reqs(&gated) {
                    Ok(reqs) => reqs,
                    Err(e) => {
                        return Err(e);
                    },
                }
            },
            None => Vec::new(),
        };
        let programs = match &entry.provides {
            Some(p) => programs_from(p, host),
            None => Vec::new(),
        };
        let env = match &entry.env {
            Some(v) => clone_pairs(v),
            None => Vec::new(),
        };
        Ok(PantryEntry { project, deps, programs, companions, env })
    }
}

} // verus!
