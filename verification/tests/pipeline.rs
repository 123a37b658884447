//! The dependency and environment pipeline: hydration, cellar listings,
//! resolution, environment synthesis, the index store, argument parsing and
//! the process-handoff guard.

use pkgx::args;
use pkgx::cellar;
use pkgx::cellar::DirEntryInfo;
use pkgx::config::Config;
use pkgx::exec;
use pkgx::hydrate::hydrate;
use pkgx::install::{collect_results, Progress};
use pkgx::inventory;
use pkgx::pantry::{PantryEntry, RawPantryEntry, RawProvides, RawValue};
use pkgx::pantry_db;
use pkgx::resolve::{resolve, ResolveInput};
use pkgx::semver::Version;
use pkgx::sync::{should, sync_step, SyncAction, SyncEvent, SyncState};
use pkgx::types::{Host, Installation, Package, PackageReq};

fn req(s: &str) -> PackageReq {
    PackageReq::parse(s).unwrap()
}

#[test]
fn hydrate_keeps_seeds_and_discovers_deps() {
    let seeds = vec![req("a.org^1"), req("b.org")];
    let deps = vec![("a.org".to_string(), vec![req("c.org^1.2")])];
    let out = hydrate(&seeds, &deps).unwrap();
    let projects: Vec<&str> = out.iter().map(|r| r.project.as_str()).collect();
    assert!(projects.contains(&"a.org"));
    assert!(projects.contains(&"b.org"));
    assert!(projects.contains(&"c.org"));
    assert_eq!(out.len(), 3);
}

#[test]
fn hydrate_intersects_duplicate_seeds() {
    let seeds = vec![req("a.org>=1<3"), req("a.org>=2<5")];
    let out = hydrate(&seeds, &vec![]).unwrap();
    assert_eq!(out.len(), 1);
    let c = &out[0].constraint;
    assert!(c.satisfies(&Version::parse("2.5").unwrap()));
    assert!(!c.satisfies(&Version::parse("1.5").unwrap()));
    assert!(!c.satisfies(&Version::parse("3.5").unwrap()));
}

#[test]
fn hydrate_fails_on_unsatisfiable_seeds() {
    let seeds = vec![req("a.org=1.2"), req("a.org=1.3")];
    assert!(hydrate(&seeds, &vec![]).is_err());
}

#[test]
fn hydrate_intersects_dep_constraints_across_parents() {
    let seeds = vec![req("a.org"), req("b.org")];
    let deps = vec![
        ("a.org".to_string(), vec![req("c.org>=1<3")]),
        ("b.org".to_string(), vec![req("c.org>=2<5")]),
    ];
    let out = hydrate(&seeds, &deps).unwrap();
    let c = out.iter().find(|r| r.project == "c.org").unwrap();
    assert!(c.constraint.satisfies(&Version::parse("2.5").unwrap()));
    assert!(!c.constraint.satisfies(&Version::parse("1.5").unwrap()));
}

#[test]
fn hydrate_orders_roots_before_dependencies() {
    let seeds = vec![req("a.org")];
    let deps = vec![("a.org".to_string(), vec![req("z.org")])];
    let out = hydrate(&seeds, &deps).unwrap();
    assert_eq!(out[0].project, "a.org");
    assert_eq!(out[1].project, "z.org");
}

fn entry(name: &str, is_dir: bool, is_nonempty: bool) -> DirEntryInfo {
    DirEntryInfo { name: name.to_string(), is_dir, is_nonempty }
}

#[test]
fn cellar_ls_filters_and_sorts() {
    let entries = vec![
        entry("v3.2.1", true, true),
        entry("v1.1.1", true, true),
        entry("var", true, true),
        entry("v2.0", true, false),
        entry("vjunk", true, true),
        entry("v9.9", false, true),
        entry("notes.txt", false, false),
    ];
    let insts = cellar::ls("openssl.org", "/opt/pkgs", &entries);
    let names: Vec<String> = insts.iter().map(|i| i.pkg.version.to_string()).collect();
    assert_eq!(names, vec!["1.1.1".to_string(), "3.2.1".to_string()]);
    assert_eq!(insts[0].path, "/opt/pkgs/openssl.org/v1.1.1");
    assert_eq!(insts[0].pkg.project, "openssl.org");
}

#[test]
fn cellar_resolve_picks_greatest_satisfying() {
    let entries = vec![
        entry("v3.0.1", true, true),
        entry("v3.2.1", true, true),
        entry("v4.0.0", true, true),
    ];
    let insts = cellar::ls("openssl.org", "/opt/pkgs", &entries);
    let rq = req("openssl.org^3");
    let inst = cellar::resolve(&rq, &insts).unwrap();
    assert_eq!(inst.pkg.version.to_string(), "3.2.1");
    let rq5 = req("openssl.org^5");
    assert!(cellar::resolve(&rq5, &insts).is_err());
    assert!(cellar::has(&rq5, &insts).is_none());
}

#[test]
fn cellar_dst_builds_store_path() {
    let pkg = Package { project: "x.org".to_string(), version: Version::parse("1.2").unwrap() };
    assert_eq!(cellar::dst(&pkg, "/opt/pkgs"), "/opt/pkgs/x.org/v1.2");
}

#[test]
fn inventory_parse_drops_bad_lines_and_rejects_empty() {
    let vs = inventory::parse_versions("1.2.3\nnot-a-version\n2.0\r\n").unwrap();
    let names: Vec<String> = vs.iter().map(|v| v.to_string()).collect();
    assert_eq!(names, vec!["1.2.3".to_string(), "2.0".to_string()]);

    assert!(inventory::parse_versions("").is_err());
    assert!(inventory::parse_versions("junk\nmore junk\n").is_err());
}

#[test]
fn inventory_select_picks_greatest_satisfying() {
    let vs = inventory::parse_versions("1.2\n3.1\n2.9\n3.0.5\n4.0\n").unwrap();
    let rq = req("node^3");
    let v = inventory::select(&rq, &vs).unwrap();
    assert_eq!(v.to_string(), "3.1");
    let rq9 = req("node^9");
    assert!(inventory::select(&rq9, &vs).is_none());
}

#[test]
fn resolve_prefers_cellar_and_falls_back_to_inventory() {
    let reqs = vec![req("a.org^3"), req("b.org^1")];
    let cellar_a = cellar::ls(
        "a.org",
        "/opt/pkgs",
        &vec![entry("v3.2.1", true, true)],
    );
    let inputs = vec![
        ResolveInput { cellar: cellar_a, inventory: None },
        ResolveInput {
            cellar: Vec::new(),
            inventory: Some(inventory::parse_versions("1.0\n1.5\n2.0\n").unwrap()),
        },
    ];
    let res = resolve(&reqs, &inputs).unwrap();
    assert_eq!(res.pkgs.len(), 2);
    assert_eq!(res.installed.len(), 1);
    assert_eq!(res.pending.len(), 1);
    assert_eq!(res.installed[0].pkg.version.to_string(), "3.2.1");
    assert_eq!(res.pending[0].version.to_string(), "1.5");
}

#[test]
fn resolve_fails_when_nothing_satisfies() {
    let reqs = vec![req("a.org^3")];
    let inputs = vec![ResolveInput { cellar: Vec::new(), inventory: None }];
    let e = resolve(&reqs, &inputs).unwrap_err();
    assert_eq!(e.pkg.project, "a.org");
}

fn inst(project: &str, path: &str) -> Installation {
    Installation {
        path: path.to_string(),
        pkg: Package { project: project.to_string(), version: Version::parse("1.0").unwrap() },
    }
}

fn lookup<'a>(env: &'a [(String, Vec<String>)], key: &str) -> Option<&'a Vec<String>> {
    env.iter().find(|p| p.0 == key).map(|p| &p.1)
}

#[test]
fn env_map_builds_search_paths() {
    let installs = vec![inst("a.org", "/p/a"), inst("b.org", "/p/b")];
    let block = pkgx::env::map(&installs, Host::Linux);
    let path = lookup(&block, "PATH").unwrap();
    assert_eq!(path, &vec!["/p/a/bin", "/p/a/sbin", "/p/b/bin", "/p/b/sbin"]);
    let lib = lookup(&block, "LIBRARY_PATH").unwrap();
    assert_eq!(lib, &vec!["/p/a/lib", "/p/b/lib"]);
    let ld = lookup(&block, "LD_LIBRARY_PATH").unwrap();
    assert_eq!(ld, lib);
    let cpath = lookup(&block, "CPATH").unwrap();
    assert_eq!(cpath, &vec!["/p/a/include", "/p/b/include"]);
    assert!(lookup(&block, "DYLD_FALLBACK_LIBRARY_PATH").is_none());
    assert!(lookup(&block, "CMAKE_PREFIX_PATH").is_none());
}

#[test]
fn env_map_mirrors_loader_path_on_macos() {
    let installs = vec![inst("a.org", "/p/a")];
    let block = pkgx::env::map(&installs, Host::Darwin);
    let lib = lookup(&block, "LIBRARY_PATH").unwrap();
    let dyld = lookup(&block, "DYLD_FALLBACK_LIBRARY_PATH").unwrap();
    assert_eq!(dyld, lib);
}

#[test]
fn env_map_dedups_first_seen_and_keeps_order() {
    let installs = vec![inst("a.org", "/p/same"), inst("b.org", "/p/same")];
    let block = pkgx::env::map(&installs, Host::Linux);
    let path = lookup(&block, "PATH").unwrap();
    assert_eq!(path, &vec!["/p/same/bin", "/p/same/sbin"]);
    for (_, vals) in &block {
        for i in 0..vals.len() {
            for j in i + 1..vals.len() {
                assert_ne!(vals[i], vals[j], "duplicate entry in env block");
            }
        }
    }
}

#[test]
fn env_map_cmake_prefix_iff_cmake_installed() {
    let without = pkgx::env::map(&vec![inst("a.org", "/p/a")], Host::Linux);
    assert!(lookup(&without, "CMAKE_PREFIX_PATH").is_none());
    let with = pkgx::env::map(
        &vec![inst("a.org", "/p/a"), inst("cmake.org", "/p/cmake")],
        Host::Linux,
    );
    let v = lookup(&with, "CMAKE_PREFIX_PATH").unwrap();
    assert_eq!(v, &vec!["/p/a", "/p/cmake"]);
}

#[test]
fn env_mix_prefixes_inherited_values() {
    let computed = vec![("PATH".to_string(), vec!["/p/a/bin".to_string()])];
    let existing = vec![
        ("PATH".to_string(), "/usr/bin".to_string()),
        ("HOME".to_string(), "/home/u".to_string()),
    ];
    let mixed = pkgx::env::mix(&computed, &existing);
    assert_eq!(mixed[0], ("PATH".to_string(), "/p/a/bin:/usr/bin".to_string()));
    assert_eq!(mixed[1], ("HOME".to_string(), "/home/u".to_string()));
}

#[test]
fn env_mix_runtime_substitutes_prefix_and_appends() {
    let base = vec![("PATH".to_string(), "/usr/bin".to_string())];
    let installs = vec![inst("a.org", "/p/a")];
    let rows = vec![vec![
        ("PATH".to_string(), "{{prefix}}/extra".to_string()),
        ("A_HOME".to_string(), "{{prefix}}".to_string()),
    ]];
    let out = pkgx::env::mix_runtime(base, &installs, &rows);
    assert_eq!(out[0], ("PATH".to_string(), "/usr/bin:/p/a/extra".to_string()));
    assert_eq!(out[1], ("A_HOME".to_string(), "/p/a".to_string()));
}

#[test]
fn config_defaults_and_overrides() {
    let c = Config::new(None, None, None, "/cwd", "/cache", "/home/u", false);
    assert_eq!(c.dist_url, "https://dist.pkgx.dev");
    assert_eq!(c.pantry_dir, "/cache/pkgx/pantry");
    assert_eq!(c.pkgx_dir, "/home/u/.pkgx");
    let c = Config::new(None, None, None, "/cwd", "/cache", "/home/u", true);
    assert_eq!(c.pkgx_dir, "/home/u/Library/pkgs");
    let c = Config::new(
        Some("http://localhost:1".to_string()),
        Some("rel/pantry".to_string()),
        Some("/abs/pkgs".to_string()),
        "/cwd",
        "/cache",
        "/home/u",
        false,
    );
    assert_eq!(c.dist_url, "http://localhost:1");
    assert_eq!(c.pantry_dir, "/cwd/rel/pantry");
    assert_eq!(c.pkgx_dir, "/abs/pkgs");
}

#[test]
fn args_parse_full_invocation() {
    let argv: Vec<String> = ["+openssl.org@3", "--silent", "node@18", "--eval", "1+1"]
        .iter()
        .map(|s| s.to_string())
        .collect();
    let a = args::parse(&argv).unwrap();
    assert_eq!(a.plus, vec!["openssl.org@3".to_string()]);
    assert_eq!(a.args, vec!["node@18".to_string(), "--eval".to_string(), "1+1".to_string()]);
    assert!(a.find_program);
    assert!(a.flags.silent);
    assert!(!a.flags.json);
    assert!(matches!(a.mode, args::Mode::X));
}

#[test]
fn args_parse_separator_and_paths() {
    let argv: Vec<String> = ["+wget", "--", "git", "clone"].iter().map(|s| s.to_string()).collect();
    let a = args::parse(&argv).unwrap();
    assert!(!a.find_program);
    assert_eq!(a.args, vec!["git".to_string(), "clone".to_string()]);

    let argv: Vec<String> = ["./script.sh"].iter().map(|s| s.to_string()).collect();
    let a = args::parse(&argv).unwrap();
    assert!(!a.find_program);

    let argv: Vec<String> = ["-js"].iter().map(|s| s.to_string()).collect();
    let a = args::parse(&argv).unwrap();
    assert!(a.flags.json && a.flags.silent);

    let argv: Vec<String> = ["--help"].iter().map(|s| s.to_string()).collect();
    let a = args::parse(&argv).unwrap();
    assert!(matches!(a.mode, args::Mode::Help));
}

#[test]
fn args_parse_rejects_unknown_flags() {
    let argv: Vec<String> = ["--frobnicate"].iter().map(|s| s.to_string()).collect();
    assert!(args::parse(&argv).is_err());
    let argv: Vec<String> = ["-q"].iter().map(|s| s.to_string()).collect();
    assert!(args::parse(&argv).is_err());
}

#[test]
fn pkgx_lvl_guard() {
    assert_eq!(exec::bump_lvl(0).unwrap(), 1);
    assert_eq!(exec::bump_lvl(8).unwrap(), 9);
    assert!(exec::bump_lvl(9).is_err());
    assert!(exec::bump_lvl(10).is_err());
    assert_eq!(exec::parse_lvl("9"), 9);
    assert_eq!(exec::parse_lvl(""), 0);
    assert_eq!(exec::parse_lvl("abc"), 0);
}

#[test]
fn exec_blocks_are_built_exactly() {
    let argv = exec::build_argv(
        &"node".to_string(),
        &vec!["--eval".to_string(), "1".to_string()],
    );
    assert_eq!(argv, vec!["node".to_string(), "--eval".to_string(), "1".to_string()]);
    let lines = exec::env_lines(&vec![("A".to_string(), "b".to_string())]);
    assert_eq!(lines, vec!["A=b".to_string()]);
    assert!(exec::has_nul("a\0b"));
    assert!(!exec::has_nul("ab"));
}

#[test]
fn sync_releases_lock_on_both_outcomes() {
    assert!(should(false));
    assert!(!should(true));
    let (s, a) = sync_step(SyncState::Idle, SyncEvent::Acquired);
    assert_eq!(a, SyncAction::DoWork);
    for ok in [true, false] {
        let (s2, a2) = sync_step(s, SyncEvent::WorkFinished(ok));
        assert_eq!(a2, SyncAction::ReleaseLock);
        let (s3, a3) = sync_step(s2, SyncEvent::Released);
        assert_eq!(a3, SyncAction::Report(!ok));
        assert_eq!(s3, SyncState::Finished(!ok));
    }
}

#[test]
fn progress_saturates_and_collects() {
    let mut p = Progress::new();
    p.inc_length(100);
    p.inc(40);
    p.inc(u64::MAX);
    assert_eq!(p.current, u64::MAX);
    assert_eq!(p.total, 100);

    let ok: Vec<Result<Installation, String>> =
        vec![Ok(inst("a.org", "/p/a")), Ok(inst("b.org", "/p/b"))];
    let insts = collect_results(ok).unwrap();
    assert_eq!(insts.len(), 2);
    let failing: Vec<Result<Installation, String>> = vec![
        Ok(inst("a.org", "/p/a")),
        Err("first".to_string()),
        Err("second".to_string()),
    ];
    assert_eq!(collect_results(failing).unwrap_err(), "first");
}

#[test]
fn pantry_entry_gates_platforms_and_promotes_digits() {
    let raw = RawPantryEntry {
        dependencies: Some(vec![
            ("zlib.net".to_string(), RawValue::Str("1.2".to_string())),
            (
                "linux".to_string(),
                RawValue::Pairs(vec![("gnu.org/gcc".to_string(), "^13".to_string())]),
            ),
            (
                "darwin".to_string(),
                RawValue::Pairs(vec![("apple.com/xcode".to_string(), "*".to_string())]),
            ),
        ]),
        provides: Some(RawProvides::List(vec!["zip".to_string()])),
        companions: None,
        env: Some(vec![("X".to_string(), "{{prefix}}/y".to_string())]),
    };
    let e = PantryEntry::from_raw_entry(&raw, "zip.org".to_string(), Host::Linux).unwrap();
    assert_eq!(e.project, "zip.org");
    let deps: Vec<&str> = e.deps.iter().map(|d| d.project.as_str()).collect();
    assert_eq!(deps, vec!["zlib.net", "gnu.org/gcc"]);
    // the bare digit was promoted to a caret constraint
    assert!(e.deps[0].constraint.satisfies(&Version::parse("1.5").unwrap()));
    assert!(!e.deps[0].constraint.satisfies(&Version::parse("2.0").unwrap()));
    assert_eq!(e.programs, vec!["zip".to_string()]);
    assert_eq!(e.env, vec![("X".to_string(), "{{prefix}}/y".to_string())]);
}

#[test]
fn pantry_provides_by_platform() {
    let raw = RawPantryEntry {
        dependencies: None,
        provides: Some(RawProvides::ByPlatform(vec![
            ("darwin".to_string(), vec!["mac-tool".to_string()]),
            ("linux".to_string(), vec!["linux-tool".to_string()]),
        ])),
        companions: None,
        env: None,
    };
    let e = PantryEntry::from_raw_entry(&raw, "t.org".to_string(), Host::Linux).unwrap();
    assert_eq!(e.programs, vec!["linux-tool".to_string()]);
    let e = PantryEntry::from_raw_entry(&raw, "t.org".to_string(), Host::Darwin).unwrap();
    assert_eq!(e.programs, vec!["mac-tool".to_string()]);
}

#[test]
fn pantry_db_roundtrip() {
    let mut conn = rusqlite::Connection::open_in_memory().unwrap();
    let entries = vec![PantryEntry {
        project: "nodejs.org".to_string(),
        deps: vec![req("openssl.org^3"), req("zlib.net^1.2")],
        programs: vec!["node".to_string(), "npm".to_string()],
        companions: vec![req("npmjs.com^2")],
        env: vec![("NODE_HOME".to_string(), "{{prefix}}".to_string())],
    }];
    pantry_db::cache(&mut conn, &entries).unwrap();

    let candidates = pantry_db::which(&"node".to_string(), &conn).unwrap();
    assert_eq!(candidates, vec!["nodejs.org".to_string()]);
    let project = pantry_db::decide_which(&"node".to_string(), candidates).unwrap();
    assert_eq!(project, "nodejs.org");

    let missing = pantry_db::which(&"frobnicate".to_string(), &conn).unwrap();
    assert!(matches!(
        pantry_db::decide_which(&"frobnicate".to_string(), missing),
        Err(pantry_db::WhichError::CmdNotFound(_))
    ));

    let deps = pantry_db::deps_for_project(&"nodejs.org".to_string(), &conn).unwrap();
    let mut names: Vec<&str> = deps.iter().map(|d| d.project.as_str()).collect();
    names.sort();
    assert_eq!(names, vec!["openssl.org", "zlib.net"]);

    let comps =
        pantry_db::companions_for_projects(&vec!["nodejs.org".to_string()], &conn).unwrap();
    assert_eq!(comps.len(), 1);
    assert_eq!(comps[0].project, "npmjs.com");

    let envs = pantry_db::runtime_env_for_project(&"nodejs.org".to_string(), &conn).unwrap();
    assert_eq!(envs, vec![("NODE_HOME".to_string(), "{{prefix}}".to_string())]);

    let rq = pantry_db::resolve(req("node@18"), &conn).unwrap();
    assert_eq!(rq.project, "nodejs.org");
    let rq = pantry_db::resolve(req("unknown.org@1"), &conn).unwrap();
    assert_eq!(rq.project, "unknown.org");
}

#[test]
fn pantry_db_ambiguous_program() {
    let mut conn = rusqlite::Connection::open_in_memory().unwrap();
    let entries = vec![
        PantryEntry {
            project: "python.org".to_string(),
            deps: vec![],
            programs: vec!["python".to_string()],
            companions: vec![],
            env: vec![],
        },
        PantryEntry {
            project: "pypy.org".to_string(),
            deps: vec![],
            programs: vec!["python".to_string()],
            companions: vec![],
            env: vec![],
        },
    ];
    pantry_db::cache(&mut conn, &entries).unwrap();
    let candidates = pantry_db::which(&"python".to_string(), &conn).unwrap();
    assert_eq!(candidates.len(), 2);
    match pantry_db::decide_which(&"python".to_string(), candidates) {
        Err(pantry_db::WhichError::MultipleProjects(cmd, v)) => {
            assert_eq!(cmd, "python");
            assert_eq!(v.len(), 2);
        },
        other => panic!("expected ambiguity, got {:?}", other),
    }
}

#[test]
fn hydrate_unsatisfiable_names_the_conflict_kind() {
    let seeds = vec![req("a.org=1.2"), req("a.org=1.3")];
    match hydrate(&seeds, &vec![]) {
        Err(pkgx::hydrate::HydrateError::Unsatisfiable) => {},
        other => panic!("expected an unsatisfiable conflict, got {:?}", other.is_ok()),
    }
}

#[test]
fn hydrate_covers_table_dependencies() {
    // a -> b -> c: every dependency of every listed project is in the output.
    let seeds = vec![req("a.org")];
    let deps = vec![
        ("a.org".to_string(), vec![req("b.org^1")]),
        ("b.org".to_string(), vec![req("c.org^2")]),
    ];
    let out = hydrate(&seeds, &deps).unwrap();
    let projects: Vec<&str> = out.iter().map(|r| r.project.as_str()).collect();
    assert_eq!(projects.len(), 3);
    assert!(projects.contains(&"b.org"));
    assert!(projects.contains(&"c.org"));
    let c = out.iter().find(|r| r.project == "c.org").unwrap();
    assert!(c.constraint.satisfies(&Version::parse("2.5").unwrap()));
    assert!(!c.constraint.satisfies(&Version::parse("3.0").unwrap()));
}

#[test]
fn hydrate_from_db_reaches_the_transitive_closure() {
    let mut conn = rusqlite::Connection::open_in_memory().unwrap();
    let entries = vec![
        PantryEntry {
            project: "nodejs.org".to_string(),
            deps: vec![req("openssl.org^3")],
            programs: vec!["node".to_string()],
            companions: vec![],
            env: vec![],
        },
        PantryEntry {
            project: "openssl.org".to_string(),
            deps: vec![req("ca-certs.org^2")],
            programs: vec![],
            companions: vec![],
            env: vec![],
        },
    ];
    pantry_db::cache(&mut conn, &entries).unwrap();
    let graph = pantry_db::hydrate_from_db(&vec![req("nodejs.org@18")], &conn).unwrap();
    let projects: Vec<&str> = graph.iter().map(|r| r.project.as_str()).collect();
    assert!(projects.contains(&"nodejs.org"));
    assert!(projects.contains(&"openssl.org"));
    assert!(projects.contains(&"ca-certs.org"));
    assert_eq!(projects.len(), 3);
}

#[test]
fn pantry_db_rejects_malformed_runtime_rows() {
    let conn = rusqlite::Connection::open_in_memory().unwrap();
    conn.execute_batch(
        "CREATE TABLE runtime_env (project TEXT, envline TEXT);
        INSERT INTO runtime_env VALUES ('x.org', 'NO_EQUALS_SIGN');",
    )
    .unwrap();
    assert!(matches!(
        pkgx::pantry_db::runtime_env_for_project(&"x.org".to_string(), &conn),
        Err(pkgx::pantry_db::PantryDbError::BadRow)
    ));
}

#[test]
fn pick_program_follows_the_lookup_rules() {
    let none: Vec<exec::PathCandidate> = Vec::new();
    assert_eq!(exec::pick_program("/bin/echo", "/cwd", &none).unwrap(), "/bin/echo");
    assert_eq!(exec::pick_program("bin/tool", "/cwd", &none).unwrap(), "/cwd/bin/tool");
    let candidates = vec![
        exec::PathCandidate {
            path: "/a/node".to_string(),
            is_file: false,
            is_executable: false,
        },
        exec::PathCandidate { path: "/b/node".to_string(), is_file: true, is_executable: false },
        exec::PathCandidate { path: "/c/node".to_string(), is_file: true, is_executable: true },
        exec::PathCandidate { path: "/d/node".to_string(), is_file: true, is_executable: true },
    ];
    assert_eq!(exec::pick_program("node", "/cwd", &candidates).unwrap(), "/c/node");
    assert!(exec::pick_program("node", "/cwd", &none).is_none());
}

#[test]
fn pantry_rejects_bad_manifest_constraints() {
    let raw = RawPantryEntry {
        dependencies: Some(vec![(
            "zlib.net".to_string(),
            RawValue::Str("not-a-constraint".to_string()),
        )]),
        provides: None,
        companions: None,
        env: None,
    };
    assert!(PantryEntry::from_raw_entry(&raw, "zip.org".to_string(), Host::Linux).is_err());
}
