//! Package value types: a package request (project plus version constraint),
//! a pinned package, an on-disk installation, and the platform tokens.

use vstd::prelude::*;

use crate::range::{c_shape, range_wf, spec_format_range, spec_parse_range, trim_ws, VersionRange};
use crate::semver::Version;

verus! {

/// A project pinned to one concrete version.
#[derive(Debug)]
pub struct Package {
    pub project: String,
    pub version: Version,
}

/// A project with a version constraint.
#[derive(Debug)]
pub struct PackageReq {
    pub project: String,
    pub constraint: VersionRange,
}

/// A concrete on-disk materialization of a package.
#[derive(Debug)]
pub struct Installation {
    pub path: String,
    pub pkg: Package,
}

/// The operating systems that are supported.
#[derive(Clone, Copy, PartialEq, Eq, Structural, Debug)]
pub enum Host {
    Darwin,
    Linux,
}

/// The processor architectures that are supported.
#[derive(Clone, Copy, PartialEq, Eq, Structural, Debug)]
pub enum Arch {
    Arm64,
    X86_64,
}

impl Host {
    /// The platform token used in distribution URLs.
    pub fn name(&self) -> (r: &'static str)
        ensures
            *self is Linux ==> r@ == "linux"@,
            *self is Darwin ==> r@ == "darwin"@,
    {
        match self {
            Host::Linux => "linux",
            Host::Darwin => "darwin",
        }
    }
}

impl Arch {
    /// The architecture token used in distribution URLs.
    pub fn name(&self) -> (r: &'static str)
        ensures
            *self is Arm64 ==> r@ == "aarch64"@,
            *self is X86_64 ==> r@ == "x86-64"@,
    {
        match self {
            Arch::Arm64 => "aarch64",
            Arch::X86_64 => "x86-64",
        }
    }
}

impl Clone for Package {
    fn clone(&self) -> (r: Self)
        ensures
            r.project@ == self.project@,
            r.version.components@ == self.version.components@,
            r.version.raw@ == self.version.raw@,
    {
        Package { project: self.project.clone(), version: self.version.clone() }
    }
}

impl Clone for PackageReq {
    fn clone(&self) -> (r: Self)
        ensures
            r.project@ == self.project@,
            r.constraint.constraints@.len() == self.constraint.constraints@.len(),
            forall|k: int|
                0 <= k < self.constraint.constraints@.len() ==> crate::range::constraint_like(
                    #[trigger] r.constraint.constraints@[k],
                    self.constraint.constraints@[k],
                ),
            forall|v: Seq<u64>|
                #[trigger] crate::range::sat_range(r.constraint.constraints@, v)
                    == crate::range::sat_range(self.constraint.constraints@, v),
            range_wf(r.constraint.constraints@) == range_wf(self.constraint.constraints@),
    {
        PackageReq { project: self.project.clone(), constraint: self.constraint.clone() }
    }
}

impl Clone for Installation {
    fn clone(&self) -> (r: Self)
        ensures
            r.path@ == self.path@,
            r.pkg.project@ == self.pkg.project@,
            r.pkg.version.components@ == self.pkg.version.components@,
            r.pkg.version.raw@ == self.pkg.version.raw@,
    {
        Installation { path: self.path.clone(), pkg: self.pkg.clone() }
    }
}

/// An operator character that can begin the constraint part of a package
/// spec.
pub open spec fn is_pkg_op(c: char) -> bool {
    c == '^' || c == '=' || c == '~' || c == '<' || c == '>' || c == '@'
}

/// The first operator position at or after `i`, or the length.
pub open spec fn find_op_from(s: Seq<char>, i: int) -> int
    decreases s.len() - i,
{
    if i >= s.len() {
        s.len() as int
    } else if is_pkg_op(s[i]) {
        i
    } else {
        find_op_from(s, i + 1)
    }
}

/// Split a trimmed package spec into project and constraint text. The
/// constraint starts at the first operator that is not the leading character
/// and has at least one character after it; absent that, the constraint text
/// is `*`.
pub open spec fn pkg_split_project(s: Seq<char>) -> Seq<char> {
    let j = find_op_from(s, 1);
    if j < s.len() - 1 {
        s.take(j)
    } else {
        s
    }
}

/// The constraint text of a package spec; `*` when none is given.
pub open spec fn pkg_split_constraint(s: Seq<char>) -> Seq<char> {
    let j = find_op_from(s, 1);
    if j < s.len() - 1 {
        s.skip(j)
    } else {
        "*"@
    }
}

/// The request is what parsing the package spec text yields: the project up
/// to the first operator, and the constraint text's shapes.
pub open spec fn parsed_req(pkgspec: Seq<char>, rq: PackageReq) -> bool {
    let t = trim_ws(pkgspec);
    &&& t.len() > 0
    &&& rq.project@ == pkg_split_project(t)
    &&& spec_parse_range(pkg_split_constraint(t)) is Some
    &&& rq.constraint.constraints@.len() == spec_parse_range(pkg_split_constraint(t))->Some_0.len()
    &&& (forall|k: int|
        0 <= k < rq.constraint.constraints@.len() ==> c_shape(
            #[trigger] rq.constraint.constraints@[k],
        ) == spec_parse_range(pkg_split_constraint(t))->Some_0[k])
    &&& range_wf(rq.constraint.constraints@)
}

/// A package spec was rejected: empty after trimming, or its constraint text
/// did not parse.
#[derive(Clone, Copy, PartialEq, Eq, Structural, Debug)]
pub struct PackageReqParseError;

fn find_op_exec(s: &str, start: usize) -> (r: usize)
    requires
        start <= s@.len(),
    ensures
        r == find_op_from(s@, start as int),
        start <= r <= s@.len(),
{
    let n = s.unicode_len();
    let mut i = start;
    while i < n
        invariant
            start <= i <= n,
            n == s@.len(),
            find_op_from(s@, start as int) == find_op_from(s@, i as int),
        decreases n - i,
    {
        let c = s.get_char(i);
        if c == '^' || c == '=' || c == '~' || c == '<' || c == '>' || c == '@' {
            return i;
        }
        i += 1;
    }
    i
}

/// Trim whitespace from both ends.
fn trim_exec(s: &str) -> (r: String)
    ensures
        r@ == trim_ws(s@),
{
    let n = s.unicode_len();
    let r = crate::range::trim_token(s, 0, n);
    proof {
        assert(s@.subrange(0, n as int) =~= s@);
    }
    r
}

impl PackageReq {
    /// Parse a package spec of the form `project[OP rest]`: the project runs
    /// to the first constraint operator, and a missing constraint means any
    /// version.
    pub fn parse(pkgspec: &str) -> (r: Result<PackageReq, PackageReqParseError>)
        ensures
            match r {
                Ok(rq) => parsed_req(pkgspec@, rq),
                Err(_) => trim_ws(pkgspec@).len() == 0 || spec_parse_range(
                    pkg_split_constraint(trim_ws(pkgspec@)),
                ) is None,
            },
    {
        let input = trim_exec(pkgspec);
        let n = input.as_str().unicode_len();
        if n == 0 {
            return Err(PackageReqParseError);
        }
        let j = find_op_exec(input.as_str(), 1);
        let (project, constraint_str): (String, String) = if j < n - 1 {
            let p = input.as_str().substring_char(0, j);
            let c = input.as_str().substring_char(j, n);
            proof {
                assert(p@ =~= input@.take(j as int));
                assert(c@ =~= input@.skip(j as int));
            }
            (p.to_owned(), c.to_owned())
        } else {
            proof {
                reveal_strlit("*");
            }
            (input.clone(), String::from_str("*"))
        };
        match VersionRange::parse(constraint_str.as_str()) {
            Ok(constraint) => Ok(PackageReq { project, constraint }),
            Err(_) => Err(PackageReqParseError),
        }
    }

    /// Render the request as the project followed by the canonical constraint
    /// text.
    pub fn format(&self) -> (r: String)
        ensures
            r@ == self.project@ + spec_format_range(self.constraint.constraints@),
    {
        let mut r = self.project.clone();
        let c = self.constraint.format();
        r.append(c.as_str());
        r
    }
}

impl Package {
    /// Render the package as `project=version`, the version in dotted form.
    pub fn format(&self) -> (r: String)
        ensures
            r@ == self.project@ + seq!['='] + crate::range::dotted(self.version.components@),
    {
        proof {
            reveal_strlit("=");
        }
        let mut r = self.project.clone();
        r.append("=");
        crate::range::push_dotted(&self.version.components, &mut r);
        proof {
            assert(r@ =~= self.project@ + seq!['='] + crate::range::dotted(
                self.version.components@,
            ));
        }
        r
    }
}

} // verus!
