//! Environment synthesis: derive the variable block (search paths, compiler
//! paths) from a set of installations. Every variable holds an ordered list
//! of paths, first seen first, with duplicates dropped.

use vstd::prelude::*;

use crate::types::{Host, Installation};

verus! {

/// The character views of a list of strings.
pub open spec fn strs(v: Seq<String>) -> Seq<Seq<char>> {
    v.map_values(|s: String| s@)
}

/// No two entries are equal.
pub open spec fn distinct_seqs(v: Seq<Seq<char>>) -> bool {
    forall|i: int, j: int| 0 <= i < j < v.len() ==> v[i] != v[j]
}

/// The list with later duplicates dropped: each entry keeps its first
/// position.
pub open spec fn dedup_first(s: Seq<Seq<char>>) -> Seq<Seq<char>>
    decreases s.len(),
{
    if s.len() == 0 {
        Seq::<Seq<char>>::empty()
    } else {
        let p = dedup_first(s.drop_last());
        if p.contains(s.last()) {
            p
        } else {
            p.push(s.last())
        }
    }
}

/// Deduplication keeps entries distinct.
pub proof fn lemma_dedup_first_distinct(s: Seq<Seq<char>>)
    ensures
        distinct_seqs(dedup_first(s)),
        forall|x: Seq<char>| dedup_first(s).contains(x) == s.contains(x),
    decreases s.len(),
{
    if s.len() > 0 {
        lemma_dedup_first_distinct(s.drop_last());
        let p = dedup_first(s.drop_last());
        assert forall|x: Seq<char>| dedup_first(s).contains(x) == s.contains(x) by {
            if s.contains(x) {
                let k = choose|k: int| 0 <= k < s.len() && s[k] == x;
                if k < s.len() - 1 {
                    assert(s.drop_last()[k] == x);
                    assert(s.drop_last().contains(x));
                }
                assert(dedup_first(s).contains(x)) by {
                    if p.contains(x) {
                        let m = choose|m: int| 0 <= m < p.len() && p[m] == x;
                        assert(dedup_first(s)[m] == x);
                    } else {
                        assert(dedup_first(s).last() == s.last());
                        assert(x == s.last());
                    }
                }
            }
            if dedup_first(s).contains(x) {
                let m = choose|m: int| 0 <= m < dedup_first(s).len() && dedup_first(s)[m] == x;
                if m < p.len() {
                    assert(p[m] == x);
                    assert(s.drop_last().contains(x));
                    let k = choose|k: int| 0 <= k < s.drop_last().len() && s.drop_last()[k] == x;
                    assert(s[k] == x);
                } else {
                    assert(x == s.last());
                    assert(s[s.len() - 1] == x);
                }
            }
        }
    }
}

proof fn lemma_dedup_push(s: Seq<Seq<char>>, x: Seq<char>)
    ensures
        dedup_first(s.push(x)) == (if dedup_first(s).contains(x) {
            dedup_first(s)
        } else {
            dedup_first(s).push(x)
        }),
{
    assert(s.push(x).drop_last() =~= s);
    assert(s.push(x).last() == x);
}

/// An ordered set of strings: insertion order kept, duplicates dropped.
pub struct OrderedSet {
    pub items: Vec<String>,
}

impl OrderedSet {
    /// The empty set.
    pub fn new() -> (r: OrderedSet)
        ensures
            r.items@.len() == 0,
    {
        OrderedSet { items: Vec::new() }
    }

    /// Add an item; a string already present is dropped.
    pub fn add(&mut self, item: String)
        ensures
            strs(final(self).items@) == (if strs(old(self).items@).contains(item@) {
                strs(old(self).items@)
            } else {
                strs(old(self).items@).push(item@)
            }),
    {
        let mut k: usize = 0;
        while k < self.items.len()
            invariant
                k <= self.items@.len(),
                forall|m: int| 0 <= m < k ==> strs(self.items@)[m] != item@,
            decreases self.items@.len() - k,
        {
            if self.items[k] == item {
                proof {
                    assert(strs(self.items@)[k as int] == item@);
                    assert(strs(self.items@).contains(item@));
                }
                return ;
            }
            proof {
                assert(strs(self.items@)[k as int] == self.items@[k as int]@);
            }
            k += 1;
        }
        proof {
            if strs(self.items@).contains(item@) {
                let m = choose|m: int|
                    0 <= m < strs(self.items@).len() && strs(self.items@)[m] == item@;
                assert(false);
            }
        }
        let ghost before = self.items@;
        self.items.push(item);
        proof {
            assert(strs(self.items@) =~= strs(before).push(item@));
        }
    }

    /// The items in order.
    pub fn to_vec(&self) -> (r: Vec<String>)
        ensures
            strs(r@) == strs(self.items@),
    {
        let mut out: Vec<String> = Vec::new();
        let mut k: usize = 0;
        while k < self.items.len()
            invariant
                k <= self.items@.len(),
                out@.len() == k,
                forall|m: int| 0 <= m < k ==> out@[m]@ == self.items@[m]@,
            decreases self.items@.len() - k,
        {
            out.push(self.items[k].clone());
            k += 1;
        }
        proof {
            assert(strs(out@) =~= strs(self.items@));
        }
        out
    }

    /// True when the set holds nothing.
    pub fn is_empty(&self) -> (r: bool)
        ensures
            r == (self.items@.len() == 0),
    {
        self.items.len() == 0
    }
}

/// A path joined to a relative suffix.
pub open spec fn joined(path: Seq<char>, suffix: Seq<char>) -> Seq<char> {
    path + seq!['/'] + suffix
}

/// Every installation path joined to every suffix, installation order first.
pub open spec fn suffix_paths(installs: Seq<Installation>, suffixes: Seq<Seq<char>>) -> Seq<
    Seq<char>,
>
    decreases installs.len(),
{
    if installs.len() == 0 {
        Seq::<Seq<char>>::empty()
    } else {
        suffix_paths(installs.drop_last(), suffixes) + suffixes.map_values(
            |x: Seq<char>| joined(installs.last().path@, x),
        )
    }
}

/// The installation paths themselves.
pub open spec fn plain_paths(installs: Seq<Installation>) -> Seq<Seq<char>>
    decreases installs.len(),
{
    if installs.len() == 0 {
        Seq::<Seq<char>>::empty()
    } else {
        plain_paths(installs.drop_last()).push(installs.last().path@)
    }
}

/// Some installation is the `cmake.org` project.
pub open spec fn has_cmake(installs: Seq<Installation>) -> bool {
    exists|k: int| 0 <= k < installs.len() && installs[k].pkg.project@ == "cmake.org"@
}

/// The view of an environment block.
pub open spec fn env_view(r: Seq<(String, Vec<String>)>) -> Seq<(Seq<char>, Seq<Seq<char>>)> {
    r.map_values(|p: (String, Vec<String>)| (p.0@, strs(p.1@)))
}

/// The environment block a set of installations produces: for each variable
/// its deduplicated path list, variables with no paths left out, and the
/// library path mirrored into the loader variables.
pub open spec fn expected_env(installs: Seq<Installation>, host: Host) -> Seq<
    (Seq<char>, Seq<Seq<char>>),
> {
    let path = dedup_first(suffix_paths(installs, seq!["bin"@, "sbin"@]));
    let manpath = dedup_first(suffix_paths(installs, seq!["man"@, "share/man"@]));
    let pkgconfig = dedup_first(suffix_paths(installs, seq!["share/pkgconfig"@, "lib/pkgconfig"@]));
    let xdg = dedup_first(suffix_paths(installs, seq!["share"@]));
    let lib = dedup_first(suffix_paths(installs, seq!["lib"@]));
    let cpath = dedup_first(suffix_paths(installs, seq!["include"@]));
    let cmake = if has_cmake(installs) {
        dedup_first(plain_paths(installs))
    } else {
        Seq::<Seq<char>>::empty()
    };
    let e = Seq::<(Seq<char>, Seq<Seq<char>>)>::empty();
    let e = if path.len() > 0 {
        e.push(("PATH"@, path))
    } else {
        e
    };
    let e = if manpath.len() > 0 {
        e.push(("MANPATH"@, manpath))
    } else {
        e
    };
    let e = if pkgconfig.len() > 0 {
        e.push(("PKG_CONFIG_PATH"@, pkgconfig))
    } else {
        e
    };
    let e = if xdg.len() > 0 {
        e.push(("XDG_DATA_DIRS"@, xdg))
    } else {
        e
    };
    let e = if lib.len() > 0 {
        e.push(("LIBRARY_PATH"@, lib))
    } else {
        e
    };
    let e = if cpath.len() > 0 {
        e.push(("CPATH"@, cpath))
    } else {
        e
    };
    let e = if cmake.len() > 0 {
        e.push(("CMAKE_PREFIX_PATH"@, cmake))
    } else {
        e
    };
    let e = if lib.len() > 0 {
        e.push(("LD_LIBRARY_PATH"@, lib))
    } else {
        e
    };
    let e = if host is Darwin && lib.len() > 0 {
        e.push(("DYLD_FALLBACK_LIBRARY_PATH"@, lib))
    } else {
        e
    };
    e
}

/// Join a path to a relative suffix with a slash.
fn join_path(path: &str, suffix: &str) -> (r: String)
    ensures
        r@ == joined(path@, suffix@),
{
    proof {
        reveal_strlit("/");
    }
    let mut r = path.to_owned();
    r.append("/");
    r.append(suffix);
    proof {
        assert(r@ =~= joined(path@, suffix@));
    }
    r
}

fn add_suffixed(set: &mut OrderedSet, inst: &Installation, suffix: &str)
    ensures
        strs(final(set).items@) == (if strs(old(set).items@).contains(
            joined(inst.path@, suffix@),
        ) {
            strs(old(set).items@)
        } else {
            strs(old(set).items@).push(joined(inst.path@, suffix@))
        }),
{
    let p = join_path(inst.path.as_str(), suffix);
    set.add(p);
}

/// Compute the environment block for a set of installations.
pub fn map(installations: &Vec<Installation>, host: Host) -> (r: Vec<(String, Vec<String>)>)
    ensures
        env_view(r@) == expected_env(installations@, host),
{
    let cmake_probe = String::from_str("cmake.org");
    let mut any_cmake = false;
    let mut k: usize = 0;
    while k < installations.len()
        invariant
            k <= installations@.len(),
            cmake_probe@ == "cmake.org"@,
            any_cmake == (exists|m: int|
                0 <= m < k && installations@[m].pkg.project@ == "cmake.org"@),
        decreases installations@.len() - k,
    {
        if installations[k].pkg.project == cmake_probe {
            any_cmake = true;
        }
        k += 1;
    }
    proof {
        assert(any_cmake == has_cmake(installations@));
    }

    let mut path_set = OrderedSet::new();
    let mut manpath_set = OrderedSet::new();
    let mut pkgconfig_set = OrderedSet::new();
    let mut xdg_set = OrderedSet::new();
    let mut lib_set = OrderedSet::new();
    let mut cpath_set = OrderedSet::new();
    let mut cmake_set = OrderedSet::new();

    let mut i: usize = 0;
    proof {
        assert(installations@.take(0) =~= Seq::<Installation>::empty());
        assert(strs(path_set.items@) =~= dedup_first(
            suffix_paths(installations@.take(0), seq!["bin"@, "sbin"@]),
        ));
        assert(strs(manpath_set.items@) =~= dedup_first(
            suffix_paths(installations@.take(0), seq!["man"@, "share/man"@]),
        ));
        assert(strs(pkgconfig_set.items@) =~= dedup_first(
            suffix_paths(installations@.take(0), seq!["share/pkgconfig"@, "lib/pkgconfig"@]),
        ));
        assert(strs(xdg_set.items@) =~= dedup_first(
            suffix_paths(installations@.take(0), seq!["share"@]),
        ));
        assert(strs(lib_set.items@) =~= dedup_first(
            suffix_paths(installations@.take(0), seq!["lib"@]),
        ));
        assert(strs(cpath_set.items@) =~= dedup_first(
            suffix_paths(installations@.take(0), seq!["include"@]),
        ));
        assert(strs(cmake_set.items@) =~= dedup_first(plain_paths(installations@.take(0))));
    }
    while i < installations.len()
        invariant
            i <= installations@.len(),
            any_cmake == has_cmake(installations@),
            strs(path_set.items@) == dedup_first(
                suffix_paths(installations@.take(i as int), seq!["bin"@, "sbin"@]),
            ),
            strs(manpath_set.items@) == dedup_first(
                suffix_paths(installations@.take(i as int), seq!["man"@, "share/man"@]),
            ),
            strs(pkgconfig_set.items@) == dedup_first(
                suffix_paths(
                    installations@.take(i as int),
                    seq!["share/pkgconfig"@, "lib/pkgconfig"@],
                ),
            ),
            strs(xdg_set.items@) == dedup_first(
                suffix_paths(installations@.take(i as int), seq!["share"@]),
            ),
            strs(lib_set.items@) == dedup_first(
                suffix_paths(installations@.take(i as int), seq!["lib"@]),
            ),
            strs(cpath_set.items@) == dedup_first(
                suffix_paths(installations@.take(i as int), seq!["include"@]),
            ),
            strs(cmake_set.items@) == (if any_cmake {
                dedup_first(plain_paths(installations@.take(i as int)))
            } else {
                Seq::<Seq<char>>::empty()
            }),
        decreases installations@.len() - i,
    {
        let inst = &installations[i];
        proof {
            let pre = installations@.take(i as int);
            let post = installations@.take(i + 1);
            assert(post.drop_last() =~= pre);
            assert(post.last() == installations@[i as int]);
            assert(seq!["bin"@, "sbin"@].map_values(
                |x: Seq<char>| joined(installations@[i as int].path@, x),
            ) =~= seq![
                joined(installations@[i as int].path@, "bin"@),
                joined(installations@[i as int].path@, "sbin"@),
            ]);
            assert(seq!["man"@, "share/man"@].map_values(
                |x: Seq<char>| joined(installations@[i as int].path@, x),
            ) =~= seq![
                joined(installations@[i as int].path@, "man"@),
                joined(installations@[i as int].path@, "share/man"@),
            ]);
            assert(seq!["share/pkgconfig"@, "lib/pkgconfig"@].map_values(
                |x: Seq<char>| joined(installations@[i as int].path@, x),
            ) =~= seq![
                joined(installations@[i as int].path@, "share/pkgconfig"@),
                joined(installations@[i as int].path@, "lib/pkgconfig"@),
            ]);
            assert(seq!["share"@].map_values(
                |x: Seq<char>| joined(installations@[i as int].path@, x),
            ) =~= seq![joined(installations@[i as int].path@, "share"@)]);
            assert(seq!["lib"@].map_values(
                |x: Seq<char>| joined(installations@[i as int].path@, x),
            ) =~= seq![joined(installations@[i as int].path@, "lib"@)]);
            assert(seq!["include"@].map_values(
                |x: Seq<char>| joined(installations@[i as int].path@, x),
            ) =~= seq![joined(installations@[i as int].path@, "include"@)]);
            assert(suffix_paths(post, seq!["bin"@, "sbin"@]) =~= suffix_paths(
                pre,
                seq!["bin"@, "sbin"@],
            ).push(joined(installations@[i as int].path@, "bin"@)).push(
                joined(installations@[i as int].path@, "sbin"@),
            ));
            assert(suffix_paths(post, seq!["man"@, "share/man"@]) =~= suffix_paths(
                pre,
                seq!["man"@, "share/man"@],
            ).push(joined(installations@[i as int].path@, "man"@)).push(
                joined(installations@[i as int].path@, "share/man"@),
            ));
            assert(suffix_paths(post, seq!["share/pkgconfig"@, "lib/pkgconfig"@]) =~= suffix_paths(
                pre,
                seq!["share/pkgconfig"@, "lib/pkgconfig"@],
            ).push(joined(installations@[i as int].path@, "share/pkgconfig"@)).push(
                joined(installations@[i as int].path@, "lib/pkgconfig"@),
            ));
            assert(suffix_paths(post, seq!["share"@]) =~= suffix_paths(pre, seq!["share"@]).push(
                joined(installations@[i as int].path@, "share"@),
            ));
            assert(suffix_paths(post, seq!["lib"@]) =~= suffix_paths(pre, seq!["lib"@]).push(
                joined(installations@[i as int].path@, "lib"@),
            ));
            assert(suffix_paths(post, seq!["include"@]) =~= suffix_paths(
                pre,
                seq!["include"@],
            ).push(joined(installations@[i as int].path@, "include"@)));
        }
        proof {
            let p = installations@[i as int].path@;
            let pre = installations@.take(i as int);
            lemma_dedup_push(suffix_paths(pre, seq!["bin"@, "sbin"@]), joined(p, "bin"@));
            lemma_dedup_push(
                suffix_paths(pre, seq!["bin"@, "sbin"@]).push(joined(p, "bin"@)),
                joined(p, "sbin"@),
            );
            lemma_dedup_push(suffix_paths(pre, seq!["man"@, "share/man"@]), joined(p, "man"@));
            lemma_dedup_push(
                suffix_paths(pre, seq!["man"@, "share/man"@]).push(joined(p, "man"@)),
                joined(p, "share/man"@),
            );
            lemma_dedup_push(
                suffix_paths(pre, seq!["share/pkgconfig"@, "lib/pkgconfig"@]),
                joined(p, "share/pkgconfig"@),
            );
            lemma_dedup_push(
                suffix_paths(pre, seq!["share/pkgconfig"@, "lib/pkgconfig"@]).push(
                    joined(p, "share/pkgconfig"@),
                ),
                joined(p, "lib/pkgconfig"@),
            );
            lemma_dedup_push(suffix_paths(pre, seq!["share"@]), joined(p, "share"@));
            lemma_dedup_push(suffix_paths(pre, seq!["lib"@]), joined(p, "lib"@));
            lemma_dedup_push(suffix_paths(pre, seq!["include"@]), joined(p, "include"@));
            assert(plain_paths(installations@.take(i + 1)).drop_last() =~= plain_paths(pre));
            lemma_dedup_push(plain_paths(pre), p);
            assert(plain_paths(installations@.take(i + 1)) =~= plain_paths(pre).push(p));
        }
        add_suffixed(&mut path_set, inst, "bin");
        add_suffixed(&mut path_set, inst, "sbin");
        add_suffixed(&mut manpath_set, inst, "man");
        add_suffixed(&mut manpath_set, inst, "share/man");
        add_suffixed(&mut pkgconfig_set, inst, "share/pkgconfig");
        add_suffixed(&mut pkgconfig_set, inst, "lib/pkgconfig");
        add_suffixed(&mut xdg_set, inst, "share");
        add_suffixed(&mut lib_set, inst, "lib");
        add_suffixed(&mut cpath_set, inst, "include");
        if any_cmake {
            cmake_set.add(inst.path.clone());
        }
        i += 1;
    }
    proof {
        assert(installations@.take(installations@.len() as int) =~= installations@);
    }

    let mut r: Vec<(String, Vec<String>)> = Vec::new();
    if !path_set.is_empty() {
        r.push((String::from_str("PATH"), path_set.to_vec()));
    }
    if !manpath_set.is_empty() {
        r.push((String::from_str("MANPATH"), manpath_set.to_vec()));
    }
    if !pkgconfig_set.is_empty() {
        r.push((String::from_str("PKG_CONFIG_PATH"), pkgconfig_set.to_vec()));
    }
    if !xdg_set.is_empty() {
        r.push((String::from_str("XDG_DATA_DIRS"), xdg_set.to_vec()));
    }
    if !lib_set.is_empty() {
        r.push((String::from_str("LIBRARY_PATH"), lib_set.to_vec()));
    }
    if !cpath_set.is_empty() {
        r.push((String::from_str("CPATH"), cpath_set.to_vec()));
    }
    if !cmake_set.is_empty() {
        r.push((String::from_str("CMAKE_PREFIX_PATH"), cmake_set.to_vec()));
    }
    if !lib_set.is_empty() {
        r.push((String::from_str("LD_LIBRARY_PATH"), lib_set.to_vec()));
    }
    let is_darwin = match host {
        Host::Darwin => true,
        Host::Linux => false,
    };
    if is_darwin && !lib_set.is_empty() {
        r.push((String::from_str("DYLD_FALLBACK_LIBRARY_PATH"), lib_set.to_vec()));
    }
    proof {
        assert(env_view(r@) =~= expected_env(installations@, host));
    }
    r
}


/// Whether the block binds the key.
pub open spec fn env_has_key(env: Seq<(Seq<char>, Seq<Seq<char>>)>, k: Seq<char>) -> bool {
    exists|i: int| 0 <= i < env.len() && (#[trigger] env[i]).0 == k
}

/// The value bound to the first occurrence of the key, or the empty list.
pub open spec fn env_lookup(env: Seq<(Seq<char>, Seq<Seq<char>>)>, k: Seq<char>) -> Seq<Seq<char>>
    decreases env.len(),
{
    if env.len() == 0 {
        Seq::<Seq<char>>::empty()
    } else if env[0].0 == k {
        env[0].1
    } else {
        env_lookup(env.skip(1), k)
    }
}

proof fn lemma_haskey_push(env: Seq<(Seq<char>, Seq<Seq<char>>)>, p: (Seq<char>, Seq<Seq<char>>), k: Seq<char>)
    ensures
        env_has_key(env.push(p), k) == (env_has_key(env, k) || p.0 == k),
{
    if env_has_key(env, k) {
        let i = choose|i: int| 0 <= i < env.len() && (#[trigger] env[i]).0 == k;
        assert(env.push(p)[i].0 == k);
    }
    if p.0 == k {
        assert(env.push(p)[env.len() as int].0 == k);
    }
    if env_has_key(env.push(p), k) {
        let i = choose|i: int| 0 <= i < env.push(p).len() && (#[trigger] env.push(p)[i]).0 == k;
        if i < env.len() {
            assert(env[i].0 == k);
        }
    }
}

proof fn lemma_lookup_push(env: Seq<(Seq<char>, Seq<Seq<char>>)>, p: (Seq<char>, Seq<Seq<char>>), k: Seq<char>)
    ensures
        env_lookup(env.push(p), k) == (if env_has_key(env, k) {
            env_lookup(env, k)
        } else if p.0 == k {
            p.1
        } else {
            env_lookup(env, k)
        }),
    decreases env.len(),
{
    if env.len() == 0 {
        let e1 = env.push(p);
        assert(e1.len() == 1);
        assert(e1[0] == p);
        assert(!env_has_key(env, k));
        if p.0 == k {
            assert(env_lookup(e1, k) == p.1);
        } else {
            assert(e1.skip(1) =~= env);
            assert(env_lookup(e1, k) == env_lookup(env, k));
        }
    } else {
        assert(env.push(p)[0] == env[0]);
        if env[0].0 == k {
            assert(env_has_key(env, k));
            assert(env_lookup(env.push(p), k) == env[0].1);
            assert(env_lookup(env, k) == env[0].1);
        } else {
            assert(env.push(p).skip(1) =~= env.skip(1).push(p));
            lemma_lookup_push(env.skip(1), p, k);
            assert(env_has_key(env, k) == env_has_key(env.skip(1), k)) by {
                if env_has_key(env, k) {
                    let i = choose|i: int| 0 <= i < env.len() && (#[trigger] env[i]).0 == k;
                    assert(env.skip(1)[i - 1].0 == k);
                }
                if env_has_key(env.skip(1), k) {
                    let i = choose|i: int|
                        0 <= i < env.skip(1).len() && (#[trigger] env.skip(1)[i]).0 == k;
                    assert(env[i + 1].0 == k);
                }
            }
        }
    }
}

proof fn lemma_env_key_literals()
    ensures
        "LIBRARY_PATH"@ != "PATH"@,
        "LIBRARY_PATH"@ != "MANPATH"@,
        "LIBRARY_PATH"@ != "PKG_CONFIG_PATH"@,
        "LIBRARY_PATH"@ != "XDG_DATA_DIRS"@,
        "LIBRARY_PATH"@ != "CPATH"@,
        "LIBRARY_PATH"@ != "CMAKE_PREFIX_PATH"@,
        "LIBRARY_PATH"@ != "LD_LIBRARY_PATH"@,
        "LIBRARY_PATH"@ != "DYLD_FALLBACK_LIBRARY_PATH"@,
        "LD_LIBRARY_PATH"@ != "PATH"@,
        "LD_LIBRARY_PATH"@ != "MANPATH"@,
        "LD_LIBRARY_PATH"@ != "PKG_CONFIG_PATH"@,
        "LD_LIBRARY_PATH"@ != "XDG_DATA_DIRS"@,
        "LD_LIBRARY_PATH"@ != "CPATH"@,
        "LD_LIBRARY_PATH"@ != "CMAKE_PREFIX_PATH"@,
        "LD_LIBRARY_PATH"@ != "DYLD_FALLBACK_LIBRARY_PATH"@,
        "DYLD_FALLBACK_LIBRARY_PATH"@ != "PATH"@,
        "DYLD_FALLBACK_LIBRARY_PATH"@ != "MANPATH"@,
        "DYLD_FALLBACK_LIBRARY_PATH"@ != "PKG_CONFIG_PATH"@,
        "DYLD_FALLBACK_LIBRARY_PATH"@ != "XDG_DATA_DIRS"@,
        "DYLD_FALLBACK_LIBRARY_PATH"@ != "CPATH"@,
        "DYLD_FALLBACK_LIBRARY_PATH"@ != "CMAKE_PREFIX_PATH"@,
        "CMAKE_PREFIX_PATH"@ != "PATH"@,
        "CMAKE_PREFIX_PATH"@ != "MANPATH"@,
        "CMAKE_PREFIX_PATH"@ != "PKG_CONFIG_PATH"@,
        "CMAKE_PREFIX_PATH"@ != "XDG_DATA_DIRS"@,
        "CMAKE_PREFIX_PATH"@ != "CPATH"@,
{
    reveal_strlit("PATH");
    reveal_strlit("MANPATH");
    reveal_strlit("PKG_CONFIG_PATH");
    reveal_strlit("XDG_DATA_DIRS");
    reveal_strlit("LIBRARY_PATH");
    reveal_strlit("CPATH");
    reveal_strlit("CMAKE_PREFIX_PATH");
    reveal_strlit("LD_LIBRARY_PATH");
    reveal_strlit("DYLD_FALLBACK_LIBRARY_PATH");
    assert("PATH"@.len() == 4);
    assert("MANPATH"@.len() == 7);
    assert("PKG_CONFIG_PATH"@.len() == 15);
    assert("XDG_DATA_DIRS"@.len() == 13);
    assert("LIBRARY_PATH"@.len() == 12);
    assert("CPATH"@.len() == 5);
    assert("CMAKE_PREFIX_PATH"@.len() == 17);
    assert("LD_LIBRARY_PATH"@.len() == 15);
    assert("DYLD_FALLBACK_LIBRARY_PATH"@.len() == 26);
    assert("PKG_CONFIG_PATH"@[0] == 'P');
    assert("LD_LIBRARY_PATH"@[0] == 'L');
}

/// The loader search paths mirror the library path: whenever the block binds
/// `LD_LIBRARY_PATH` it binds `LIBRARY_PATH` to the same ordered list, and on
/// macOS the same holds of `DYLD_FALLBACK_LIBRARY_PATH`.
pub proof fn lemma_loader_paths(installs: Seq<Installation>, host: Host)
    ensures
        env_has_key(expected_env(installs, host), "LD_LIBRARY_PATH"@) == env_has_key(
            expected_env(installs, host),
            "LIBRARY_PATH"@,
        ),
        env_lookup(expected_env(installs, host), "LD_LIBRARY_PATH"@) == env_lookup(
            expected_env(installs, host),
            "LIBRARY_PATH"@,
        ),
        host is Darwin ==> env_has_key(expected_env(installs, host), "DYLD_FALLBACK_LIBRARY_PATH"@)
            == env_has_key(expected_env(installs, host), "LIBRARY_PATH"@),
        host is Darwin ==> env_lookup(expected_env(installs, host), "DYLD_FALLBACK_LIBRARY_PATH"@)
            == env_lookup(expected_env(installs, host), "LIBRARY_PATH"@),
{
    lemma_env_key_literals();
    let e = expected_env(installs, host);
    let path = dedup_first(suffix_paths(installs, seq!["bin"@, "sbin"@]));
    let manpath = dedup_first(suffix_paths(installs, seq!["man"@, "share/man"@]));
    let pkgconfig = dedup_first(suffix_paths(installs, seq!["share/pkgconfig"@, "lib/pkgconfig"@]));
    let xdg = dedup_first(suffix_paths(installs, seq!["share"@]));
    let lib = dedup_first(suffix_paths(installs, seq!["lib"@]));
    let cpath = dedup_first(suffix_paths(installs, seq!["include"@]));
    let cmake = if has_cmake(installs) {
        dedup_first(plain_paths(installs))
    } else {
        Seq::<Seq<char>>::empty()
    };
    let e0 = Seq::<(Seq<char>, Seq<Seq<char>>)>::empty();
    let e1 = if path.len() > 0 {
        e0.push(("PATH"@, path))
    } else {
        e0
    };
    let e2 = if manpath.len() > 0 {
        e1.push(("MANPATH"@, manpath))
    } else {
        e1
    };
    let e3 = if pkgconfig.len() > 0 {
        e2.push(("PKG_CONFIG_PATH"@, pkgconfig))
    } else {
        e2
    };
    let e4 = if xdg.len() > 0 {
        e3.push(("XDG_DATA_DIRS"@, xdg))
    } else {
        e3
    };
    let e5 = if lib.len() > 0 {
        e4.push(("LIBRARY_PATH"@, lib))
    } else {
        e4
    };
    let e6 = if cpath.len() > 0 {
        e5.push(("CPATH"@, cpath))
    } else {
        e5
    };
    let e7 = if cmake.len() > 0 {
        e6.push(("CMAKE_PREFIX_PATH"@, cmake))
    } else {
        e6
    };
    let e8 = if lib.len() > 0 {
        e7.push(("LD_LIBRARY_PATH"@, lib))
    } else {
        e7
    };
    let e9 = if host is Darwin && lib.len() > 0 {
        e8.push(("DYLD_FALLBACK_LIBRARY_PATH"@, lib))
    } else {
        e8
    };
    assert(e == e9);
    let ld = "LD_LIBRARY_PATH"@;
    let lp = "LIBRARY_PATH"@;
    let dy = "DYLD_FALLBACK_LIBRARY_PATH"@;
    if path.len() > 0 {
        lemma_haskey_push(e0, ("PATH"@, path), ld);
        lemma_haskey_push(e0, ("PATH"@, path), lp);
        lemma_haskey_push(e0, ("PATH"@, path), dy);
        lemma_lookup_push(e0, ("PATH"@, path), ld);
        lemma_lookup_push(e0, ("PATH"@, path), lp);
        lemma_lookup_push(e0, ("PATH"@, path), dy);
    }
    if manpath.len() > 0 {
        lemma_haskey_push(e1, ("MANPATH"@, manpath), ld);
        lemma_haskey_push(e1, ("MANPATH"@, manpath), lp);
        lemma_haskey_push(e1, ("MANPATH"@, manpath), dy);
        lemma_lookup_push(e1, ("MANPATH"@, manpath), ld);
        lemma_lookup_push(e1, ("MANPATH"@, manpath), lp);
        lemma_lookup_push(e1, ("MANPATH"@, manpath), dy);
    }
    if pkgconfig.len() > 0 {
        lemma_haskey_push(e2, ("PKG_CONFIG_PATH"@, pkgconfig), ld);
        lemma_haskey_push(e2, ("PKG_CONFIG_PATH"@, pkgconfig), lp);
        lemma_haskey_push(e2, ("PKG_CONFIG_PATH"@, pkgconfig), dy);
        lemma_lookup_push(e2, ("PKG_CONFIG_PATH"@, pkgconfig), ld);
        lemma_lookup_push(e2, ("PKG_CONFIG_PATH"@, pkgconfig), lp);
        lemma_lookup_push(e2, ("PKG_CONFIG_PATH"@, pkgconfig), dy);
    }
    if xdg.len() > 0 {
        lemma_haskey_push(e3, ("XDG_DATA_DIRS"@, xdg), ld);
        lemma_haskey_push(e3, ("XDG_DATA_DIRS"@, xdg), lp);
        lemma_haskey_push(e3, ("XDG_DATA_DIRS"@, xdg), dy);
        lemma_lookup_push(e3, ("XDG_DATA_DIRS"@, xdg), ld);
        lemma_lookup_push(e3, ("XDG_DATA_DIRS"@, xdg), lp);
        lemma_lookup_push(e3, ("XDG_DATA_DIRS"@, xdg), dy);
    }
    if lib.len() > 0 {
        lemma_haskey_push(e4, (lp, lib), ld);
        lemma_haskey_push(e4, (lp, lib), lp);
        lemma_haskey_push(e4, (lp, lib), dy);
        lemma_lookup_push(e4, (lp, lib), ld);
        lemma_lookup_push(e4, (lp, lib), lp);
        lemma_lookup_push(e4, (lp, lib), dy);
    }
    if cpath.len() > 0 {
        lemma_haskey_push(e5, ("CPATH"@, cpath), ld);
        lemma_haskey_push(e5, ("CPATH"@, cpath), lp);
        lemma_haskey_push(e5, ("CPATH"@, cpath), dy);
        lemma_lookup_push(e5, ("CPATH"@, cpath), ld);
        lemma_lookup_push(e5, ("CPATH"@, cpath), lp);
        lemma_lookup_push(e5, ("CPATH"@, cpath), dy);
    }
    if cmake.len() > 0 {
        lemma_haskey_push(e6, ("CMAKE_PREFIX_PATH"@, cmake), ld);
        lemma_haskey_push(e6, ("CMAKE_PREFIX_PATH"@, cmake), lp);
        lemma_haskey_push(e6, ("CMAKE_PREFIX_PATH"@, cmake), dy);
        lemma_lookup_push(e6, ("CMAKE_PREFIX_PATH"@, cmake), ld);
        lemma_lookup_push(e6, ("CMAKE_PREFIX_PATH"@, cmake), lp);
        lemma_lookup_push(e6, ("CMAKE_PREFIX_PATH"@, cmake), dy);
    }
    if lib.len() > 0 {
        lemma_haskey_push(e7, (ld, lib), ld);
        lemma_haskey_push(e7, (ld, lib), lp);
        lemma_haskey_push(e7, (ld, lib), dy);
        lemma_lookup_push(e7, (ld, lib), ld);
        lemma_lookup_push(e7, (ld, lib), lp);
        lemma_lookup_push(e7, (ld, lib), dy);
    }
    if host is Darwin && lib.len() > 0 {
        lemma_haskey_push(e8, (dy, lib), ld);
        lemma_haskey_push(e8, (dy, lib), lp);
        lemma_haskey_push(e8, (dy, lib), dy);
        lemma_lookup_push(e8, (dy, lib), ld);
        lemma_lookup_push(e8, (dy, lib), lp);
        lemma_lookup_push(e8, (dy, lib), dy);
    }
}

/// Every variable's list holds no duplicate entries; each entry keeps its
/// first-seen position, as the lists are first-seen deduplications.
pub proof fn lemma_env_values_distinct(installs: Seq<Installation>, host: Host)
    ensures
        forall|i: int|
            0 <= i < expected_env(installs, host).len() ==> distinct_seqs(
                (#[trigger] expected_env(installs, host)[i]).1,
            ),
{
    lemma_dedup_first_distinct(suffix_paths(installs, seq!["bin"@, "sbin"@]));
    lemma_dedup_first_distinct(suffix_paths(installs, seq!["man"@, "share/man"@]));
    lemma_dedup_first_distinct(suffix_paths(installs, seq!["share/pkgconfig"@, "lib/pkgconfig"@]));
    lemma_dedup_first_distinct(suffix_paths(installs, seq!["share"@]));
    lemma_dedup_first_distinct(suffix_paths(installs, seq!["lib"@]));
    lemma_dedup_first_distinct(suffix_paths(installs, seq!["include"@]));
    lemma_dedup_first_distinct(plain_paths(installs));
    assert forall|i: int| 0 <= i < expected_env(installs, host).len() implies distinct_seqs(
        (#[trigger] expected_env(installs, host)[i]).1,
    ) by {
        let e = expected_env(installs, host);
        assert(distinct_seqs(Seq::<Seq<char>>::empty()));
    }
}

/// `CMAKE_PREFIX_PATH` is bound exactly when some installation is the
/// `cmake.org` project.
pub proof fn lemma_cmake_prefix_iff(installs: Seq<Installation>, host: Host)
    ensures
        env_has_key(expected_env(installs, host), "CMAKE_PREFIX_PATH"@) == has_cmake(installs),
{
    lemma_env_key_literals();
    let ck = "CMAKE_PREFIX_PATH"@;
    let e = expected_env(installs, host);
    if has_cmake(installs) {
        let w = choose|k: int| 0 <= k < installs.len() && installs[k].pkg.project@ == "cmake.org"@;
        assert(installs.len() > 0);
        lemma_plain_paths_len(installs);
        lemma_dedup_first_distinct(plain_paths(installs));
        assert(plain_paths(installs).contains(plain_paths(installs)[0])) by {
            assert(plain_paths(installs).len() > 0);
        }
        assert(dedup_first(plain_paths(installs)).len() > 0) by {
            assert(dedup_first(plain_paths(installs)).contains(plain_paths(installs)[0]));
        }
        assert(env_has_key(e, ck)) by {
            lemma_env_key_membership(installs, host);
        }
    } else {
        if env_has_key(e, ck) {
            let i = choose|i: int| 0 <= i < e.len() && (#[trigger] e[i]).0 == ck;
            lemma_env_keys_only(installs, host);
            assert(false);
        }
    }
}

proof fn lemma_plain_paths_len(installs: Seq<Installation>)
    ensures
        plain_paths(installs).len() == installs.len(),
    decreases installs.len(),
{
    if installs.len() > 0 {
        lemma_plain_paths_len(installs.drop_last());
    }
}

/// When the cmake list is nonempty, the key is pushed and survives.
proof fn lemma_env_key_membership(installs: Seq<Installation>, host: Host)
    requires
        has_cmake(installs),
        dedup_first(plain_paths(installs)).len() > 0,
    ensures
        env_has_key(expected_env(installs, host), "CMAKE_PREFIX_PATH"@),
{
    let e = expected_env(installs, host);
    let lib = dedup_first(suffix_paths(installs, seq!["lib"@]));
    assert(exists|i: int| 0 <= i < e.len() && (#[trigger] e[i]).0 == "CMAKE_PREFIX_PATH"@) by {
        if lib.len() > 0 {
            if host is Darwin {
                assert(e[e.len() - 3].0 == "CMAKE_PREFIX_PATH"@);
            } else {
                assert(e[e.len() - 2].0 == "CMAKE_PREFIX_PATH"@);
            }
        } else {
            assert(e[e.len() - 1].0 == "CMAKE_PREFIX_PATH"@);
        }
    }
}

/// Every key in the block is one of the nine produced keys, and
/// `CMAKE_PREFIX_PATH` occurs only when some installation is `cmake.org`.
proof fn lemma_env_keys_only(installs: Seq<Installation>, host: Host)
    requires
        !has_cmake(installs),
    ensures
        forall|i: int|
            0 <= i < expected_env(installs, host).len() ==> (#[trigger] expected_env(
                installs,
                host,
            )[i]).0 != "CMAKE_PREFIX_PATH"@,
{
    lemma_env_key_literals();
    let e = expected_env(installs, host);
    assert forall|i: int| 0 <= i < e.len() implies (#[trigger] e[i]).0 != "CMAKE_PREFIX_PATH"@ by {
        assert(e[i].0 == "PATH"@ || e[i].0 == "MANPATH"@ || e[i].0 == "PKG_CONFIG_PATH"@ || e[i].0
            == "XDG_DATA_DIRS"@ || e[i].0 == "LIBRARY_PATH"@ || e[i].0 == "CPATH"@ || e[i].0
            == "LD_LIBRARY_PATH"@ || e[i].0 == "DYLD_FALLBACK_LIBRARY_PATH"@);
    }
}


/// Values joined with colons.
pub open spec fn join_colon(vals: Seq<Seq<char>>) -> Seq<char>
    decreases vals.len(),
{
    if vals.len() == 0 {
        Seq::<char>::empty()
    } else if vals.len() == 1 {
        vals[0]
    } else {
        join_colon(vals.drop_last()) + seq![':'] + vals.last()
    }
}

/// What `mix` produces for one inherited variable: the computed paths joined
/// with colons and prefixed, or the inherited value untouched.
pub open spec fn mixed_value(
    computed: Seq<(Seq<char>, Seq<Seq<char>>)>,
    k: Seq<char>,
    v: Seq<char>,
) -> Seq<char> {
    if env_has_key(computed, k) {
        join_colon(env_lookup(computed, k)) + seq![':'] + v
    } else {
        v
    }
}

/// The view of a list of key-value pairs.
pub open spec fn pairs_view(r: Seq<(String, String)>) -> Seq<(Seq<char>, Seq<char>)> {
    r.map_values(|p: (String, String)| (p.0@, p.1@))
}

/// Join the values with colons.
fn join_colon_exec(vals: &Vec<String>) -> (r: String)
    ensures
        r@ == join_colon(strs(vals@)),
{
    let mut r = String::new();
    let mut i: usize = 0;
    while i < vals.len()
        invariant
            i <= vals@.len(),
            r@ == join_colon(strs(vals@).take(i as int)),
        decreases vals@.len() - i,
    {
        if i > 0 {
            proof {
                reveal_strlit(":");
            }
            r.append(":");
        }
        r.append(vals[i].as_str());
        proof {
            let sv = strs(vals@);
            assert(sv.take(i + 1).drop_last() =~= sv.take(i as int));
            assert(sv.take(i + 1).last() == sv[i as int]);
            if i == 0 {
                assert(sv.take(1).len() == 1);
                assert(sv.take(1)[0] == sv[0]);
            }
            assert(r@ =~= join_colon(sv.take(i + 1)));
        }
        i += 1;
    }
    proof {
        assert(strs(vals@).take(strs(vals@).len() as int) =~= strs(vals@));
    }
    r
}

/// The first computed entry for the key, if any.
fn lookup_env<'a>(computed: &'a Vec<(String, Vec<String>)>, key: &String) -> (r: Option<&'a Vec<String>>)
    ensures
        match r {
            Some(v) => env_has_key(env_view(computed@), key@) && strs(v@) == env_lookup(
                env_view(computed@),
                key@,
            ),
            None => !env_has_key(env_view(computed@), key@),
        },
{
    let mut i: usize = 0;
    proof {
        assert(env_view(computed@).skip(0) =~= env_view(computed@));
    }
    while i < computed.len()
        invariant
            i <= computed@.len(),
            forall|m: int| 0 <= m < i ==> (#[trigger] env_view(computed@)[m]).0 != key@,
            env_lookup(env_view(computed@), key@) == env_lookup(
                env_view(computed@).skip(i as int),
                key@,
            ),
        decreases computed@.len() - i,
    {
        proof {
            assert(env_view(computed@)[i as int].0 == computed@[i as int].0@);
        }
        if computed[i].0 == *key {
            proof {
                let ev = env_view(computed@);
                assert(ev.skip(i as int)[0] == ev[i as int]);
                assert(env_has_key(ev, key@));
            }
            return Some(&computed[i].1);
        }
        proof {
            let ev = env_view(computed@);
            assert(ev.skip(i as int)[0] == ev[i as int]);
            assert(ev.skip(i as int).skip(1) =~= ev.skip(i + 1));
        }
        i += 1;
    }
    proof {
        let ev = env_view(computed@);
        assert(ev.skip(i as int).len() == 0);
        if env_has_key(ev, key@) {
            let m = choose|m: int| 0 <= m < ev.len() && (#[trigger] ev[m]).0 == key@;
            assert(false);
        }
    }
    None
}

/// Overlay the computed block on the inherited environment: a variable the
/// block binds gets the computed paths joined with colons in front of its
/// inherited value; every other variable is kept as it is.
pub fn mix(computed: &Vec<(String, Vec<String>)>, existing: &Vec<(String, String)>) -> (r: Vec<
    (String, String),
>)
    ensures
        r@.len() == existing@.len(),
        forall|i: int|
            0 <= i < existing@.len() ==> (#[trigger] r@[i]).0@ == existing@[i].0@ && r@[i].1@
                == mixed_value(env_view(computed@), existing@[i].0@, existing@[i].1@),
{
    let mut r: Vec<(String, String)> = Vec::new();
    let mut i: usize = 0;
    while i < existing.len()
        invariant
            i <= existing@.len(),
            r@.len() == i,
            forall|m: int|
                0 <= m < i ==> (#[trigger] r@[m]).0@ == existing@[m].0@ && r@[m].1@ == mixed_value(
                    env_view(computed@),
                    existing@[m].0@,
                    existing@[m].1@,
                ),
        decreases existing@.len() - i,
    {
        let key = existing[i].0.clone();
        let value = match lookup_env(computed, &key) {
            Some(vals) => {
                proof {
                    reveal_strlit(":");
                }
                let mut v = join_colon_exec(vals);
                v.append(":");
                v.append(existing[i].1.as_str());
                proof {
                    assert(v@ =~= mixed_value(
                        env_view(computed@),
                        existing@[i as int].0@,
                        existing@[i as int].1@,
                    ));
                }
                v
            },
            None => existing[i].1.clone(),
        };
        r.push((key, value));
        i += 1;
    }
    r
}

/// The template with every occurrence of the prefix placeholder replaced by
/// the installation path.
pub open spec fn subst_prefix(t: Seq<char>, p: Seq<char>) -> Seq<char>
    decreases t.len(),
{
    if t.len() == 0 {
        Seq::<char>::empty()
    } else if t.len() >= 10 && t.take(10) == "{{prefix}}"@ {
        p + subst_prefix(t.skip(10), p)
    } else {
        seq![t[0]] + subst_prefix(t.skip(1), p)
    }
}

/// Substitute the prefix placeholder throughout a template.
fn subst_prefix_exec(t: &str, p: &str) -> (r: String)
    ensures
        r@ == subst_prefix(t@, p@),
{
    proof {
        reveal_strlit("{{prefix}}");
    }
    let n = t.unicode_len();
    let mut out = String::new();
    let mut i: usize = 0;
    proof {
        assert(t@.skip(0) =~= t@);
        assert(out@ + subst_prefix(t@, p@) =~= subst_prefix(t@, p@));
    }
    while i < n
        invariant
            i <= n,
            n == t@.len(),
            subst_prefix(t@, p@) == out@ + subst_prefix(t@.skip(i as int), p@),
            "{{prefix}}"@.len() == 10,
        decreases n - i,
    {
        let mut matched = n - i >= 10;
        if matched {
            let probe = t.substring_char(i, i + 10);
            proof {
                assert(probe@ =~= t@.subrange(i as int, i + 10));
            }
            matched = str_eq_lit_prefix(probe);
        }
        let ghost rest = t@.skip(i as int);
        if matched {
            proof {
                assert(rest.take(10) =~= t@.subrange(i as int, i + 10));
                assert(rest.skip(10) =~= t@.skip(i + 10));
            }
            out.append(p);
            i += 10;
        } else {
            proof {
                assert(rest.len() > 0);
                if rest.len() >= 10 {
                    assert(rest.take(10) =~= t@.subrange(i as int, i + 10));
                }
                assert(rest[0] == t@[i as int]);
                assert(rest.skip(1) =~= t@.skip(i + 1));
            }
            let piece = t.substring_char(i, i + 1);
            proof {
                assert(piece@ =~= t@.subrange(i as int, i + 1));
                assert(piece@ =~= seq![t@[i as int]]);
            }
            out.append(piece);
            i += 1;
        }
        proof {
            assert(subst_prefix(t@, p@) =~= out@ + subst_prefix(t@.skip(i as int), p@));
        }
    }
    proof {
        assert(t@.skip(n as int).len() == 0);
        assert(out@ =~= subst_prefix(t@, p@));
    }
    out
}

/// True when the ten-character probe is the prefix placeholder.
fn str_eq_lit_prefix(probe: &str) -> (r: bool)
    requires
        probe@.len() == 10,
    ensures
        r == (probe@ == "{{prefix}}"@),
{
    proof {
        reveal_strlit("{{prefix}}");
    }
    let lit = "{{prefix}}";
    let mut k: usize = 0;
    while k < 10
        invariant
            k <= 10,
            probe@.len() == 10,
            lit@ == "{{prefix}}"@,
            lit@.len() == 10,
            forall|m: int| 0 <= m < k ==> probe@[m] == lit@[m],
        decreases 10 - k,
    {
        if probe.get_char(k) != lit.get_char(k) {
            proof {
                assert(probe@[k as int] != lit@[k as int]);
                if probe@ == "{{prefix}}"@ {
                    assert(false);
                }
            }
            return false;
        }
        k += 1;
    }
    proof {
        assert(probe@ =~= "{{prefix}}"@);
    }
    true
}


/// The first position binding the key, or the length.
pub open spec fn key_idx_from(env: Seq<(Seq<char>, Seq<char>)>, k: Seq<char>, i: int) -> int
    decreases env.len() - i,
{
    if i >= env.len() {
        env.len() as int
    } else if env[i].0 == k {
        i
    } else {
        key_idx_from(env, k, i + 1)
    }
}

/// Layer one runtime variable on the block: a bound key gets the value
/// appended after a colon; an unbound key is added at the end.
pub open spec fn layer_one(env: Seq<(Seq<char>, Seq<char>)>, k: Seq<char>, v: Seq<char>) -> Seq<
    (Seq<char>, Seq<char>),
> {
    let j = key_idx_from(env, k, 0);
    if j < env.len() {
        env.update(j, (env[j].0, env[j].1 + seq![':'] + v))
    } else {
        env.push((k, v))
    }
}

/// Layer the rows of one installation, templates evaluated against its path.
pub open spec fn layer_rows(
    env: Seq<(Seq<char>, Seq<char>)>,
    rows: Seq<(Seq<char>, Seq<char>)>,
    path: Seq<char>,
) -> Seq<(Seq<char>, Seq<char>)>
    decreases rows.len(),
{
    if rows.len() == 0 {
        env
    } else {
        layer_rows(layer_one(env, rows[0].0, subst_prefix(rows[0].1, path)), rows.skip(1), path)
    }
}

/// Layer every installation's rows, in installation order.
pub open spec fn layer_all_from(
    env: Seq<(Seq<char>, Seq<char>)>,
    installs: Seq<Installation>,
    rowss: Seq<Vec<(String, String)>>,
    i: int,
) -> Seq<(Seq<char>, Seq<char>)>
    decreases installs.len() - i,
{
    if i < 0 || i >= installs.len() {
        env
    } else {
        layer_all_from(
            layer_rows(env, pairs_view(rowss[i]@), installs[i].path@),
            installs,
            rowss,
            i + 1,
        )
    }
}

fn key_idx_exec(env: &Vec<(String, String)>, k: &String) -> (r: usize)
    ensures
        r == key_idx_from(pairs_view(env@), k@, 0),
        r <= env@.len(),
{
    let mut i: usize = 0;
    while i < env.len()
        invariant
            i <= env@.len(),
            key_idx_from(pairs_view(env@), k@, 0) == key_idx_from(pairs_view(env@), k@, i as int),
        decreases env@.len() - i,
    {
        proof {
            assert(pairs_view(env@)[i as int].0 == env@[i as int].0@);
        }
        if env[i].0 == *k {
            return i;
        }
        i += 1;
    }
    i
}

fn layer_one_exec(env: &mut Vec<(String, String)>, k: &String, v: String)
    ensures
        pairs_view(final(env)@) == layer_one(pairs_view(old(env)@), k@, v@),
{
    proof {
        reveal_strlit(":");
    }
    let ghost before = env@;
    let ghost vv = v@;
    let j = key_idx_exec(env, k);
    if j < env.len() {
        let mut nv = env[j].1.clone();
        nv.append(":");
        nv.append(v.as_str());
        proof {
            assert(nv@ =~= pairs_view(before)[j as int].1 + seq![':'] + vv);
        }
        let nk = env[j].0.clone();
        env[j] = (nk, nv);
        proof {
            let pv = pairs_view(before);
            assert(pairs_view(env@) =~= pv.update(
                j as int,
                (pv[j as int].0, pv[j as int].1 + seq![':'] + vv),
            ));
        }
    } else {
        env.push((k.clone(), v));
        proof {
            let pv = pairs_view(before);
            assert(pairs_view(env@) =~= pv.push((k@, vv)));
        }
    }
}

/// Layer per-installation runtime variables over the mixed environment: for
/// each installation in order, each of its rows is evaluated with the prefix
/// placeholder replaced by the installation path and layered onto the block.
pub fn mix_runtime(
    env: Vec<(String, String)>,
    installations: &Vec<Installation>,
    runtime_envs: &Vec<Vec<(String, String)>>,
) -> (r: Vec<(String, String)>)
    requires
        runtime_envs@.len() == installations@.len(),
    ensures
        pairs_view(r@) == layer_all_from(pairs_view(env@), installations@, runtime_envs@, 0),
{
    let ghost orig = pairs_view(env@);
    let mut cur = env;
    let mut i: usize = 0;
    while i < installations.len()
        invariant
            i <= installations@.len(),
            runtime_envs@.len() == installations@.len(),
            layer_all_from(orig, installations@, runtime_envs@, 0) == layer_all_from(
                pairs_view(cur@),
                installations@,
                runtime_envs@,
                i as int,
            ),
        decreases installations@.len() - i,
    {
        let rows = &runtime_envs[i];
        let ghost rows_v = pairs_view(rows@);
        let ghost at_entry = pairs_view(cur@);
        let path = installations[i].path.clone();
        let mut j: usize = 0;
        proof {
            assert(rows_v.skip(0) =~= rows_v);
        }
        while j < rows.len()
            invariant
                j <= rows@.len(),
                i < installations@.len(),
                rows_v == pairs_view(rows@),
                path@ == installations@[i as int].path@,
                layer_rows(at_entry, rows_v, installations@[i as int].path@) == layer_rows(
                    pairs_view(cur@),
                    rows_v.skip(j as int),
                    installations@[i as int].path@,
                ),
            decreases rows@.len() - j,
        {
            proof {
                assert(rows_v.skip(j as int)[0] == rows_v[j as int]);
                assert(rows_v.skip(j as int).skip(1) =~= rows_v.skip(j + 1));
                assert(rows_v[j as int].0 == rows@[j as int].0@);
                assert(rows_v[j as int].1 == rows@[j as int].1@);
            }
            let val = subst_prefix_exec(rows[j].1.as_str(), path.as_str());
            let key = rows[j].0.clone();
            layer_one_exec(&mut cur, &key, val);
            j += 1;
        }
        proof {
            assert(rows_v.skip(rows_v.len() as int).len() == 0);
            assert(layer_rows(at_entry, rows_v, installations@[i as int].path@) == pairs_view(
                cur@,
            ));
        }
        i += 1;
    }
    proof {
        assert(layer_all_from(pairs_view(cur@), installations@, runtime_envs@,
            installations@.len() as int) == pairs_view(cur@));
    }
    cur
}

} // verus!
