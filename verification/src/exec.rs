//! Process handoff support: argument and environment blocks for the exec
//! call, rejection of embedded NUL bytes, and the recursion guard that stops
//! runaway re-invocation.

use vstd::prelude::*;

use crate::semver::{digits_value, is_digit_char};

verus! {

/// The recursion counter would reach its bound: the invocation must abort
/// before replacing the process image.
#[derive(Clone, Copy, PartialEq, Eq, Structural, Debug)]
pub struct PkgxLvlExceeded;

/// The whole string is digits.
pub open spec fn all_digit_str(s: Seq<char>) -> bool {
    s.len() > 0 && forall|i: int| 0 <= i < s.len() ==> is_digit_char(#[trigger] s[i])
}

/// Parse a decimal counter; anything else reads as zero.
pub fn parse_lvl(s: &str) -> (r: u64)
    ensures
        (all_digit_str(s@) && digits_value(s@) <= u64::MAX) ==> r == digits_value(s@),
        !(all_digit_str(s@) && digits_value(s@) <= u64::MAX) ==> r == 0,
{
    let n = s.unicode_len();
    if n == 0 {
        return 0;
    }
    let mut acc: u64 = 0;
    let mut i: usize = 0;
    while i < n
        invariant
            i <= n,
            n == s@.len(),
            n > 0,
            forall|m: int| 0 <= m < i ==> is_digit_char(#[trigger] s@[m]),
            acc == digits_value(s@.take(i as int)),
        decreases n - i,
    {
        let c = s.get_char(i);
        if !('0' <= c && c <= '9') {
            proof {
                assert(!all_digit_str(s@));
            }
            return 0;
        }
        let d: u64 = (c as u32 as u64) - ('0' as u32 as u64);
        let wide: u128 = (acc as u128) * 10 + (d as u128);
        proof {
            assert(s@.take(i + 1).drop_last() =~= s@.take(i as int));
            assert(s@.take(i + 1).last() == s@[i as int]);
        }
        if wide > u64::MAX as u128 {
            proof {
                assert(digits_value(s@.take(i + 1)) > u64::MAX);
                if all_digit_str(s@) && digits_value(s@) <= u64::MAX {
                    crate::semver::lemma_digits_value_prefix_pub(s@, i + 1);
                }
            }
            return 0;
        }
        acc = wide as u64;
        i += 1;
    }
    proof {
        assert(s@.take(n as int) =~= s@);
    }
    acc
}

/// The bumped recursion counter, or nothing when it reaches the bound of ten.
pub open spec fn bumped_lvl(prev: u64) -> Option<u64> {
    if prev + 1 >= 10 {
        None
    } else {
        Some((prev + 1) as u64)
    }
}

/// Increment the recursion counter; reaching ten aborts the invocation.
pub fn bump_lvl(prev: u64) -> (r: Result<u64, PkgxLvlExceeded>)
    ensures
        match r {
            Ok(v) => bumped_lvl(prev) == Some(v),
            Err(_) => bumped_lvl(prev) is None,
        },
{
    if prev >= 9 {
        Err(PkgxLvlExceeded)
    } else {
        Ok(prev + 1)
    }
}

/// A counter already at ten always aborts; smaller counters proceed with the
/// incremented value. A counter of nine also aborts, as the increment reaches
/// the bound.
pub proof fn lemma_lvl_guard(prev: u64)
    ensures
        prev >= 9 ==> bumped_lvl(prev) is None,
        prev < 9 ==> bumped_lvl(prev) == Some((prev + 1) as u64),
{
}

/// The argument block for the process image: the command itself first, then
/// the given arguments.
pub fn build_argv(cmd: &String, args: &Vec<String>) -> (r: Vec<String>)
    ensures
        r@.len() == args@.len() + 1,
        r@[0]@ == cmd@,
        forall|k: int| 0 <= k < args@.len() ==> (#[trigger] r@[k + 1])@ == args@[k]@,
{
    let mut r: Vec<String> = Vec::new();
    r.push(cmd.clone());
    let mut i: usize = 0;
    while i < args.len()
        invariant
            i <= args@.len(),
            r@.len() == i + 1,
            r@[0]@ == cmd@,
            forall|k: int| 0 <= k < i ==> (#[trigger] r@[k + 1])@ == args@[k]@,
        decreases args@.len() - i,
    {
        r.push(args[i].clone());
        i += 1;
    }
    r
}

/// The environment block as `KEY=VALUE` lines.
pub fn env_lines(env: &Vec<(String, String)>) -> (r: Vec<String>)
    ensures
        r@.len() == env@.len(),
        forall|k: int|
            0 <= k < env@.len() ==> (#[trigger] r@[k])@ == env@[k].0@ + seq!['='] + env@[k].1@,
{
    proof {
        reveal_strlit("=");
    }
    let mut r: Vec<String> = Vec::new();
    let mut i: usize = 0;
    while i < env.len()
        invariant
            i <= env@.len(),
            r@.len() == i,
            forall|k: int|
                0 <= k < i ==> (#[trigger] r@[k])@ == env@[k].0@ + seq!['='] + env@[k].1@,
        decreases env@.len() - i,
    {
        let mut line = env[i].0.clone();
        line.append("=");
        line.append(env[i].1.as_str());
        proof {
            reveal_strlit("=");
            assert(line@ =~= env@[i as int].0@ + seq!['='] + env@[i as int].1@);
        }
        r.push(line);
        i += 1;
    }
    r
}

/// True when the text holds an embedded NUL, which the exec call rejects.
pub fn has_nul(s: &str) -> (r: bool)
    ensures
        r == exists|i: int| 0 <= i < s@.len() && s@[i] == '\0',
{
    let n = s.unicode_len();
    let mut i: usize = 0;
    while i < n
        invariant
            i <= n,
            n == s@.len(),
            forall|m: int| 0 <= m < i ==> s@[m] != '\0',
        decreases n - i,
    {
        if s.get_char(i) == '\0' {
            return true;
        }
        i += 1;
    }
    false
}


/// What a path scan reports about one candidate location of a program.
#[derive(Debug)]
pub struct PathCandidate {
    pub path: String,
    pub is_file: bool,
    pub is_executable: bool,
}

/// The candidate is a regular file with an execute bit.
pub open spec fn candidate_runs(c: PathCandidate) -> bool {
    c.is_file && c.is_executable
}

/// Resolve the target program: an absolute path passes through, a path with a
/// slash resolves against the working directory, and anything else takes the
/// first candidate that is a regular file with an execute bit, or nothing.
#[verifier::loop_isolation(false)]
pub fn pick_program(arg: &str, cwd: &str, candidates: &Vec<PathCandidate>) -> (r: Option<String>)
    ensures
        (arg@.len() > 0 && arg@[0] == '/') ==> (r matches Some(p) && p@ == arg@),
        (!(arg@.len() > 0 && arg@[0] == '/') && (exists|i: int|
            0 <= i < arg@.len() && arg@[i] == '/')) ==> (r matches Some(p) && p@ == cwd@
            + seq!['/'] + arg@),
        (!(exists|i: int| 0 <= i < arg@.len() && arg@[i] == '/')) ==> (match r {
            Some(p) => exists|k: int|
                0 <= k < candidates@.len() && candidate_runs(#[trigger] candidates@[k])
                    && p@ == candidates@[k].path@ && (forall|m: int|
                    0 <= m < k ==> !candidate_runs(#[trigger] candidates@[m])),
            None => forall|k: int|
                0 <= k < candidates@.len() ==> !candidate_runs(#[trigger] candidates@[k]),
        }),
{
    let n = arg.unicode_len();
    if n > 0 && arg.get_char(0) == '/' {
        return Some(arg.to_owned());
    }
    let mut has_slash = false;
    let mut i: usize = 0;
    while i < n
        invariant
            i <= n,
            n == arg@.len(),
            has_slash == (exists|m: int| 0 <= m < i && arg@[m] == '/'),
        decreases n - i,
    {
        if arg.get_char(i) == '/' {
            has_slash = true;
        }
        i += 1;
    }
    if has_slash {
        proof {
            reveal_strlit("/");
        }
        let mut p = cwd.to_owned();
        p.append("/");
        p.append(arg);
        proof {
            assert(p@ =~= cwd@ + seq!['/'] + arg@);
        }
        return Some(p);
    }
    let mut k: usize = 0;
    while k < candidates.len()
        invariant
            k <= candidates@.len(),
            forall|m: int| 0 <= m < k ==> !candidate_runs(#[trigger] candidates@[m]),
        decreases candidates@.len() - k,
    {
        if candidates[k].is_file && candidates[k].is_executable {
            return Some(candidates[k].path.clone());
        }
        k += 1;
    }
    None
}

} // verus!
