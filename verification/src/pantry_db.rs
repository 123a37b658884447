//! The pantry index: an embedded relational store holding, per project, the
//! programs it provides, its dependencies, its companions and its runtime
//! variables. The store is rebuilt from the pantry on each sync and queried
//! when requests are resolved. The calls into the database go through trusted
//! wrappers whose contracts speak of the four relations' contents.

use vstd::multiset::Multiset;
use vstd::prelude::*;

use crate::env::pairs_view;
use crate::pantry::PantryEntry;
use crate::range::{find_char_from, spec_format_range};
use crate::types::{parsed_req, PackageReq};

verus! {

broadcast use vstd::multiset::group_multiset_axioms;

/// The embedded database handle of the index.
#[verifier::external_type_specification]
#[verifier::external_body]
pub struct ExConnection(rusqlite::Connection);

/// The error type the embedded database reports.
#[verifier::external_type_specification]
#[verifier::external_body]
pub struct ExSqlError(rusqlite::Error);

/// The rows of the provides relation: (project, program).
pub uninterp spec fn provides_rows(c: rusqlite::Connection) -> Multiset<(Seq<char>, Seq<char>)>;

/// The rows of the dependencies relation: (project, pkgspec).
pub uninterp spec fn deps_rows(c: rusqlite::Connection) -> Multiset<(Seq<char>, Seq<char>)>;

/// The rows of the companions relation: (project, pkgspec).
pub uninterp spec fn companions_rows(c: rusqlite::Connection) -> Multiset<(Seq<char>, Seq<char>)>;

/// The rows of the runtime-env relation: (project, envline).
pub uninterp spec fn runtime_env_rows(c: rusqlite::Connection) -> Multiset<(Seq<char>, Seq<char>)>;

/// The index store failed.
#[derive(Clone, Copy, PartialEq, Eq, Structural, Debug)]
pub enum PantryDbError {
    /// The database reported an error while opening, writing or reading.
    Store,
    /// A stored row did not have the shape written at cache time.
    BadRow,
}

/// A program name maps to no project or to several.
#[derive(Debug)]
pub enum WhichError {
    CmdNotFound(String),
    MultipleProjects(String, Vec<String>),
}

/// Relies on rusqlite's Connection::open: opens the database file at the
/// path, creating it when absent. Nothing is assumed of its contents.
#[verifier::external_body]
pub fn db_open(path: &str) -> (r: Result<rusqlite::Connection, rusqlite::Error>) {
    rusqlite::Connection::open(std::path::Path::new(path))
}

/// Relies on rusqlite's Connection::execute_batch: the statements drop and
/// recreate the four tables, so on success every relation is empty.
#[verifier::external_body]
fn db_init_schema(conn: &mut rusqlite::Connection) -> (r: Result<(), rusqlite::Error>)
    ensures
        r is Ok ==> provides_rows(*final(conn)) == Multiset::<(Seq<char>, Seq<char>)>::empty()
            && deps_rows(*final(conn)) == Multiset::<(Seq<char>, Seq<char>)>::empty()
            && companions_rows(*final(conn)) == Multiset::<(Seq<char>, Seq<char>)>::empty()
            && runtime_env_rows(*final(conn)) == Multiset::<(Seq<char>, Seq<char>)>::empty(),
{
    conn.execute_batch(
        "PRAGMA synchronous = OFF;
        PRAGMA journal_mode = MEMORY;
        PRAGMA temp_store = MEMORY;
        DROP TABLE IF EXISTS provides;
        DROP TABLE IF EXISTS dependencies;
        DROP TABLE IF EXISTS companions;
        DROP TABLE IF EXISTS runtime_env;
        CREATE TABLE provides (project TEXT, program TEXT);
        CREATE TABLE dependencies (project TEXT, pkgspec TEXT);
        CREATE TABLE companions (project TEXT, pkgspec TEXT);
        CREATE TABLE runtime_env (project TEXT, envline TEXT);
        CREATE INDEX idx_project ON provides(project);
        CREATE INDEX idx_program ON provides(program);
        CREATE INDEX idx_project_dependencies ON dependencies(project);
        CREATE INDEX idx_project_companions ON companions(project);",
    )
}

/// Relies on rusqlite's Connection::execute_batch: `BEGIN` starts a
/// transaction and changes no rows.
#[verifier::external_body]
fn db_begin(conn: &mut rusqlite::Connection) -> (r: Result<(), rusqlite::Error>)
    ensures
        r is Ok ==> provides_rows(*final(conn)) == provides_rows(*old(conn)) && deps_rows(
            *final(conn),
        ) == deps_rows(*old(conn)) && companions_rows(*final(conn)) == companions_rows(*old(conn))
            && runtime_env_rows(*final(conn)) == runtime_env_rows(*old(conn)),
{
    conn.execute_batch("BEGIN;")
}

/// Relies on rusqlite's Connection::execute_batch: `COMMIT` publishes the
/// transaction and changes no rows.
#[verifier::external_body]
fn db_commit(conn: &mut rusqlite::Connection) -> (r: Result<(), rusqlite::Error>)
    ensures
        r is Ok ==> provides_rows(*final(conn)) == provides_rows(*old(conn)) && deps_rows(
            *final(conn),
        ) == deps_rows(*old(conn)) && companions_rows(*final(conn)) == companions_rows(*old(conn))
            && runtime_env_rows(*final(conn)) == runtime_env_rows(*old(conn)),
{
    conn.execute_batch("COMMIT;")
}

/// Relies on rusqlite's Connection::execute: the insert adds exactly one row
/// to the provides relation and touches no other table.
#[verifier::external_body]
fn db_insert_provides(conn: &mut rusqlite::Connection, project: &str, program: &str) -> (r: Result<
    (),
    rusqlite::Error,
>)
    ensures
        r is Ok ==> provides_rows(*final(conn)) == provides_rows(*old(conn)).insert(
            (project@, program@),
        ) && deps_rows(*final(conn)) == deps_rows(*old(conn)) && companions_rows(*final(conn))
            == companions_rows(*old(conn)) && runtime_env_rows(*final(conn)) == runtime_env_rows(
            *old(conn),
        ),
{
    conn.execute("INSERT INTO provides (project, program) VALUES (?1, ?2)", [project, program]).map(
        |_| (),
    )
}

/// Relies on rusqlite's Connection::execute: the insert adds exactly one row
/// to the dependencies relation and touches no other table.
#[verifier::external_body]
fn db_insert_dependency(conn: &mut rusqlite::Connection, project: &str, pkgspec: &str) -> (r:
    Result<(), rusqlite::Error>)
    ensures
        r is Ok ==> deps_rows(*final(conn)) == deps_rows(*old(conn)).insert((project@, pkgspec@))
            && provides_rows(*final(conn)) == provides_rows(*old(conn)) && companions_rows(
            *final(conn),
        ) == companions_rows(*old(conn)) && runtime_env_rows(*final(conn)) == runtime_env_rows(
            *old(conn),
        ),
{
    conn.execute(
        "INSERT INTO dependencies (project, pkgspec) VALUES (?1, ?2)",
        [project, pkgspec],
    ).map(|_| ())
}

/// Relies on rusqlite's Connection::execute: the insert adds exactly one row
/// to the companions relation and touches no other table.
#[verifier::external_body]
fn db_insert_companion(conn: &mut rusqlite::Connection, project: &str, pkgspec: &str) -> (r: Result<
    (),
    rusqlite::Error,
>)
    ensures
        r is Ok ==> companions_rows(*final(conn)) == companions_rows(*old(conn)).insert(
            (project@, pkgspec@),
        ) && provides_rows(*final(conn)) == provides_rows(*old(conn)) && deps_rows(*final(conn))
            == deps_rows(*old(conn)) && runtime_env_rows(*final(conn)) == runtime_env_rows(
            *old(conn),
        ),
{
    conn.execute(
        "INSERT INTO companions (project, pkgspec) VALUES (?1, ?2)",
        [project, pkgspec],
    ).map(|_| ())
}

/// Relies on rusqlite's Connection::execute: the insert adds exactly one row
/// to the runtime-env relation and touches no other table.
#[verifier::external_body]
fn db_insert_runtime_env(conn: &mut rusqlite::Connection, project: &str, envline: &str) -> (r:
    Result<(), rusqlite::Error>)
    ensures
        r is Ok ==> runtime_env_rows(*final(conn)) == runtime_env_rows(*old(conn)).insert(
            (project@, envline@),
        ) && provides_rows(*final(conn)) == provides_rows(*old(conn)) && deps_rows(*final(conn))
            == deps_rows(*old(conn)) && companions_rows(*final(conn)) == companions_rows(
            *old(conn),
        ),
{
    conn.execute(
        "INSERT INTO runtime_env (project, envline) VALUES (?1, ?2)",
        [project, envline],
    ).map(|_| ())
}

/// Relies on rusqlite's prepare and query_map: the select returns the project
/// column of exactly the provides rows whose program column equals the
/// argument, in an unspecified order.
#[verifier::external_body]
fn db_projects_for_program(conn: &rusqlite::Connection, program: &str) -> (r: Result<
    Vec<String>,
    rusqlite::Error,
>)
    ensures
        r matches Ok(v) ==> forall|p: Seq<char>|
            crate::env::strs(v@).to_multiset().count(p) == provides_rows(*conn).count(
                (p, program@),
            ),
{
    let mut stmt = conn.prepare("SELECT project FROM provides WHERE program = ?1")?;
    let rows = stmt.query_map([program], |row| row.get(0))?;
    rows.collect()
}

/// Relies on rusqlite's prepare and query_map: the select returns the pkgspec
/// column of exactly the dependencies rows whose project column equals the
/// argument, in an unspecified order.
#[verifier::external_body]
fn db_pkgspecs_for_project(conn: &rusqlite::Connection, project: &str) -> (r: Result<
    Vec<String>,
    rusqlite::Error,
>)
    ensures
        r matches Ok(v) ==> forall|x: Seq<char>|
            crate::env::strs(v@).to_multiset().count(x) == deps_rows(*conn).count((project@, x)),
{
    let mut stmt = conn.prepare("SELECT pkgspec FROM dependencies WHERE project = ?1")?;
    let rows = stmt.query_map([project], |row| row.get(0))?;
    rows.collect()
}

/// Relies on rusqlite's prepare and query_map: the select returns the pkgspec
/// column of exactly the companions rows whose project column equals the
/// argument, in an unspecified order.
#[verifier::external_body]
fn db_companions_for_project(conn: &rusqlite::Connection, project: &str) -> (r: Result<
    Vec<String>,
    rusqlite::Error,
>)
    ensures
        r matches Ok(v) ==> forall|x: Seq<char>|
            crate::env::strs(v@).to_multiset().count(x) == companions_rows(*conn).count(
                (project@, x),
            ),
{
    let mut stmt = conn.prepare("SELECT pkgspec FROM companions WHERE project = ?1")?;
    let rows = stmt.query_map([project], |row| row.get(0))?;
    rows.collect()
}

/// Relies on rusqlite's prepare and query_map: the select returns the envline
/// column of exactly the runtime-env rows whose project column equals the
/// argument, in an unspecified order.
#[verifier::external_body]
fn db_envlines_for_project(conn: &rusqlite::Connection, project: &str) -> (r: Result<
    Vec<String>,
    rusqlite::Error,
>)
    ensures
        r matches Ok(v) ==> forall|x: Seq<char>|
            crate::env::strs(v@).to_multiset().count(x) == runtime_env_rows(*conn).count(
                (project@, x),
            ),
{
    let mut stmt = conn.prepare("SELECT envline FROM runtime_env WHERE project = ?1")?;
    let rows = stmt.query_map([project], |row| row.get(0))?;
    rows.collect()
}

/// A row is present in a relation.
pub open spec fn row_in(rows: Multiset<(Seq<char>, Seq<char>)>, a: Seq<char>, b: Seq<char>) -> bool {
    rows.count((a, b)) > 0
}

/// The provides rows an entry contributes: one per program it ships.
pub open spec fn entry_provides(en: PantryEntry) -> Seq<(Seq<char>, Seq<char>)> {
    en.programs@.map_values(|p: String| (en.project@, p@))
}

/// The dependency rows an entry contributes, each request in canonical text.
pub open spec fn entry_deps(en: PantryEntry) -> Seq<(Seq<char>, Seq<char>)> {
    en.deps@.map_values(
        |d: PackageReq| (en.project@, d.project@ + spec_format_range(d.constraint.constraints@)),
    )
}

/// The companion rows an entry contributes, each request in canonical text.
pub open spec fn entry_companions(en: PantryEntry) -> Seq<(Seq<char>, Seq<char>)> {
    en.companions@.map_values(
        |d: PackageReq| (en.project@, d.project@ + spec_format_range(d.constraint.constraints@)),
    )
}

/// The runtime rows an entry contributes: `KEY=VALUE` lines.
pub open spec fn entry_runtime(en: PantryEntry) -> Seq<(Seq<char>, Seq<char>)> {
    en.env@.map_values(|kv: (String, String)| (en.project@, kv.0@ + seq!['='] + kv.1@))
}

/// Build one entry's provides rows.
#[verifier::loop_isolation(false)]
fn provides_list(en: &PantryEntry) -> (r: Vec<(String, String)>)
    ensures
        pairs_view(r@) == entry_provides(*en),
{
    let mut out: Vec<(String, String)> = Vec::new();
    let mut k: usize = 0;
    while k < en.programs.len()
        invariant
            k <= en.programs@.len(),
            out@.len() == k,
            pairs_view(out@) == entry_provides(*en).take(k as int),
        decreases en.programs@.len() - k,
    {
        out.push((en.project.clone(), en.programs[k].clone()));
        proof {
            assert(pairs_view(out@) =~= entry_provides(*en).take(k + 1));
        }
        k += 1;
    }
    proof {
        assert(entry_provides(*en).take(en.programs@.len() as int) =~= entry_provides(*en));
    }
    out
}

/// Build one entry's dependency or companion rows from its requests.
#[verifier::loop_isolation(false)]
fn req_list(project: &String, reqs: &Vec<PackageReq>) -> (r: Vec<(String, String)>)
    ensures
        r@.len() == reqs@.len(),
        forall|m: int|
            0 <= m < reqs@.len() ==> (#[trigger] r@[m]).0@ == project@ && r@[m].1@
                == reqs@[m].project@ + spec_format_range(reqs@[m].constraint.constraints@),
{
    let mut out: Vec<(String, String)> = Vec::new();
    let mut k: usize = 0;
    while k < reqs.len()
        invariant
            k <= reqs@.len(),
            out@.len() == k,
            forall|m: int|
                0 <= m < k ==> (#[trigger] out@[m]).0@ == project@ && out@[m].1@
                    == reqs@[m].project@ + spec_format_range(reqs@[m].constraint.constraints@),
        decreases reqs@.len() - k,
    {
        let line = reqs[k].format();
        out.push((project.clone(), line));
        k += 1;
    }
    out
}

/// Build one entry's runtime rows as `KEY=VALUE` lines.
#[verifier::loop_isolation(false)]
fn runtime_list(en: &PantryEntry) -> (r: Vec<(String, String)>)
    ensures
        pairs_view(r@) == entry_runtime(*en),
{
    let mut out: Vec<(String, String)> = Vec::new();
    let mut k: usize = 0;
    while k < en.env.len()
        invariant
            k <= en.env@.len(),
            out@.len() == k,
            pairs_view(out@) == entry_runtime(*en).take(k as int),
        decreases en.env@.len() - k,
    {
        proof {
            reveal_strlit("=");
        }
        let mut line = en.env[k].0.clone();
        line.append("=");
        line.append(en.env[k].1.as_str());
        proof {
            assert(line@ =~= en.env@[k as int].0@ + seq!['='] + en.env@[k as int].1@);
        }
        out.push((en.project.clone(), line));
        proof {
            assert(pairs_view(out@) =~= entry_runtime(*en).take(k + 1));
        }
        k += 1;
    }
    proof {
        assert(entry_runtime(*en).take(en.env@.len() as int) =~= entry_runtime(*en));
    }
    out
}

/// Insert rows into the provides relation, one execute per row: on success
/// the relation gains exactly the given rows.
#[verifier::loop_isolation(false)]
fn insert_provides_rows(conn: &mut rusqlite::Connection, rows: &Vec<(String, String)>) -> (r: Result<
    (),
    PantryDbError,
>)
    ensures
        r is Ok ==> provides_rows(*final(conn)) == provides_rows(*old(conn)).add(
            pairs_view(rows@).to_multiset(),
        ) && deps_rows(*final(conn)) == deps_rows(*old(conn)) && companions_rows(*final(conn))
            == companions_rows(*old(conn)) && runtime_env_rows(*final(conn)) == runtime_env_rows(*old(conn)),
{
    let mut k: usize = 0;
    proof {
        broadcast use vstd::seq_lib::group_to_multiset_ensures;

        assert(pairs_view(rows@).take(0) =~= Seq::<(Seq<char>, Seq<char>)>::empty());
        assert(provides_rows(*conn) =~= provides_rows(*old(conn)).add(
            pairs_view(rows@).take(0).to_multiset(),
        ));
    }
    while k < rows.len()
        invariant
            k <= rows@.len(),
            deps_rows(*conn) == deps_rows(*old(conn)),
            companions_rows(*conn) == companions_rows(*old(conn)),
            runtime_env_rows(*conn) == runtime_env_rows(*old(conn)),
            provides_rows(*conn) == provides_rows(*old(conn)).add(
                pairs_view(rows@).take(k as int).to_multiset(),
            ),
        decreases rows@.len() - k,
    {
        let ghost pre = provides_rows(*conn);
        if db_insert_provides(conn, rows[k].0.as_str(), rows[k].1.as_str()).is_err() {
            return Err(PantryDbError::Store);
        }
        proof {
            broadcast use vstd::seq_lib::group_to_multiset_ensures;

            let x = (rows@[k as int].0@, rows@[k as int].1@);
            assert(provides_rows(*conn) == pre.insert(x));
            assert(pairs_view(rows@).take(k + 1) =~= pairs_view(rows@).take(k as int).push(x));
            assert(pairs_view(rows@).take(k + 1).to_multiset() =~= pairs_view(rows@).take(
                k as int,
            ).to_multiset().insert(x));
            assert(provides_rows(*conn) =~= provides_rows(*old(conn)).add(
                pairs_view(rows@).take(k + 1).to_multiset(),
            ));
        }
        k += 1;
    }
    proof {
        assert(pairs_view(rows@).take(rows@.len() as int) =~= pairs_view(rows@));
    }
    Ok(())
}

/// Insert rows into the dependencies relation, one execute per row: on success
/// the relation gains exactly the given rows.
#[verifier::loop_isolation(false)]
fn insert_deps_rows(conn: &mut rusqlite::Connection, rows: &Vec<(String, String)>) -> (r: Result<
    (),
    PantryDbError,
>)
    ensures
        r is Ok ==> deps_rows(*final(conn)) == deps_rows(*old(conn)).add(
            pairs_view(rows@).to_multiset(),
        ) && provides_rows(*final(conn)) == provides_rows(*old(conn)) && companions_rows(*final(conn))
            == companions_rows(*old(conn)) && runtime_env_rows(*final(conn)) == runtime_env_rows(*old(conn)),
{
    let mut k: usize = 0;
    proof {
        broadcast use vstd::seq_lib::group_to_multiset_ensures;

        assert(pairs_view(rows@).take(0) =~= Seq::<(Seq<char>, Seq<char>)>::empty());
        assert(deps_rows(*conn) =~= deps_rows(*old(conn)).add(
            pairs_view(rows@).take(0).to_multiset(),
        ));
    }
    while k < rows.len()
        invariant
            k <= rows@.len(),
            provides_rows(*conn) == provides_rows(*old(conn)),
            companions_rows(*conn) == companions_rows(*old(conn)),
            runtime_env_rows(*conn) == runtime_env_rows(*old(conn)),
            deps_rows(*conn) == deps_rows(*old(conn)).add(
                pairs_view(rows@).take(k as int).to_multiset(),
            ),
        decreases rows@.len() - k,
    {
        let ghost pre = deps_rows(*conn);
        if db_insert_dependency(conn, rows[k].0.as_str(), rows[k].1.as_str()).is_err() {
            return Err(PantryDbError::Store);
        }
        proof {
            broadcast use vstd::seq_lib::group_to_multiset_ensures;

            let x = (rows@[k as int].0@, rows@[k as int].1@);
            assert(deps_rows(*conn) == pre.insert(x));
            assert(pairs_view(rows@).take(k + 1) =~= pairs_view(rows@).take(k as int).push(x));
            assert(pairs_view(rows@).take(k + 1).to_multiset() =~= pairs_view(rows@).take(
                k as int,
            ).to_multiset().insert(x));
            assert(deps_rows(*conn) =~= deps_rows(*old(conn)).add(
                pairs_view(rows@).take(k + 1).to_multiset(),
            ));
        }
        k += 1;
    }
    proof {
        assert(pairs_view(rows@).take(rows@.len() as int) =~= pairs_view(rows@));
    }
    Ok(())
}

/// Insert rows into the companions relation, one execute per row: on success
/// the relation gains exactly the given rows.
#[verifier::loop_isolation(false)]
fn insert_companions_rows(conn: &mut rusqlite::Connection, rows: &Vec<(String, String)>) -> (r: Result<
    (),
    PantryDbError,
>)
    ensures
        r is Ok ==> companions_rows(*final(conn)) == companions_rows(*old(conn)).add(
            pairs_view(rows@).to_multiset(),
        ) && provides_rows(*final(conn)) == provides_rows(*old(conn)) && deps_rows(*final(conn))
            == deps_rows(*old(conn)) && runtime_env_rows(*final(conn)) == runtime_env_rows(*old(conn)),
{
    let mut k: usize = 0;
    proof {
        broadcast use vstd::seq_lib::group_to_multiset_ensures;

        assert(pairs_view(rows@).take(0) =~= Seq::<(Seq<char>, Seq<char>)>::empty());
        assert(companions_rows(*conn) =~= companions_rows(*old(conn)).add(
            pairs_view(rows@).take(0).to_multiset(),
        ));
    }
    while k < rows.len()
        invariant
            k <= rows@.len(),
            provides_rows(*conn) == provides_rows(*old(conn)),
            deps_rows(*conn) == deps_rows(*old(conn)),
            runtime_env_rows(*conn) == runtime_env_rows(*old(conn)),
            companions_rows(*conn) == companions_rows(*old(conn)).add(
                pairs_view(rows@).take(k as int).to_multiset(),
            ),
        decreases rows@.len() - k,
    {
        let ghost pre = companions_rows(*conn);
        if db_insert_companion(conn, rows[k].0.as_str(), rows[k].1.as_str()).is_err() {
            return Err(PantryDbError::Store);
        }
        proof {
            broadcast use vstd::seq_lib::group_to_multiset_ensures;

            let x = (rows@[k as int].0@, rows@[k as int].1@);
            assert(companions_rows(*conn) == pre.insert(x));
            assert(pairs_view(rows@).take(k + 1) =~= pairs_view(rows@).take(k as int).push(x));
            assert(pairs_view(rows@).take(k + 1).to_multiset() =~= pairs_view(rows@).take(
                k as int,
            ).to_multiset().insert(x));
            assert(companions_rows(*conn) =~= companions_rows(*old(conn)).add(
                pairs_view(rows@).take(k + 1).to_multiset(),
            ));
        }
        k += 1;
    }
    proof {
        assert(pairs_view(rows@).take(rows@.len() as int) =~= pairs_view(rows@));
    }
    Ok(())
}

/// Insert rows into the runtime-env relation, one execute per row: on success
/// the relation gains exactly the given rows.
#[verifier::loop_isolation(false)]
fn insert_runtime_rows(conn: &mut rusqlite::Connection, rows: &Vec<(String, String)>) -> (r: Result<
    (),
    PantryDbError,
>)
    ensures
        r is Ok ==> runtime_env_rows(*final(conn)) == runtime_env_rows(*old(conn)).add(
            pairs_view(rows@).to_multiset(),
        ) && provides_rows(*final(conn)) == provides_rows(*old(conn)) && deps_rows(*final(conn))
            == deps_rows(*old(conn)) && companions_rows(*final(conn)) == companions_rows(*old(conn)),
{
    let mut k: usize = 0;
    proof {
        broadcast use vstd::seq_lib::group_to_multiset_ensures;

        assert(pairs_view(rows@).take(0) =~= Seq::<(Seq<char>, Seq<char>)>::empty());
        assert(runtime_env_rows(*conn) =~= runtime_env_rows(*old(conn)).add(
            pairs_view(rows@).take(0).to_multiset(),
        ));
    }
    while k < rows.len()
        invariant
            k <= rows@.len(),
            provides_rows(*conn) == provides_rows(*old(conn)),
            deps_rows(*conn) == deps_rows(*old(conn)),
            companions_rows(*conn) == companions_rows(*old(conn)),
            runtime_env_rows(*conn) == runtime_env_rows(*old(conn)).add(
                pairs_view(rows@).take(k as int).to_multiset(),
            ),
        decreases rows@.len() - k,
    {
        let ghost pre = runtime_env_rows(*conn);
        if db_insert_runtime_env(conn, rows[k].0.as_str(), rows[k].1.as_str()).is_err() {
            return Err(PantryDbError::Store);
        }
        proof {
            broadcast use vstd::seq_lib::group_to_multiset_ensures;

            let x = (rows@[k as int].0@, rows@[k as int].1@);
            assert(runtime_env_rows(*conn) == pre.insert(x));
            assert(pairs_view(rows@).take(k + 1) =~= pairs_view(rows@).take(k as int).push(x));
            assert(pairs_view(rows@).take(k + 1).to_multiset() =~= pairs_view(rows@).take(
                k as int,
            ).to_multiset().insert(x));
            assert(runtime_env_rows(*conn) =~= runtime_env_rows(*old(conn)).add(
                pairs_view(rows@).take(k + 1).to_multiset(),
            ));
        }
        k += 1;
    }
    proof {
        assert(pairs_view(rows@).take(rows@.len() as int) =~= pairs_view(rows@));
    }
    Ok(())
}

/// All rows of every given entry.
pub open spec fn all_rows(
    entries: Seq<PantryEntry>,
    of: spec_fn(PantryEntry) -> Seq<(Seq<char>, Seq<char>)>,
    e: int,
) -> Seq<(Seq<char>, Seq<char>)>
    decreases entries.len() - e,
{
    if e < 0 || e >= entries.len() {
        Seq::empty()
    } else {
        of(entries[e]) + all_rows(entries, of, e + 1)
    }
}

/// Gather one kind of row over every entry.
#[verifier::loop_isolation(false)]
fn gather_provides(entries: &Vec<PantryEntry>) -> (r: Vec<(String, String)>)
    ensures
        pairs_view(r@) == all_rows(entries@, |en: PantryEntry| entry_provides(en), 0),
{
    let ghost of = |en: PantryEntry| entry_provides(en);
    let mut out: Vec<(String, String)> = Vec::new();
    let mut e: usize = 0;
    proof {
        assert(pairs_view(out@) =~= Seq::<(Seq<char>, Seq<char>)>::empty());
    }
    while e < entries.len()
        invariant
            e <= entries@.len(),
            all_rows(entries@, of, 0) == pairs_view(out@) + all_rows(entries@, of, e as int),
        decreases entries@.len() - e,
    {
        let ghost before = pairs_view(out@);
        let mut rows = provides_list(&entries[e]);
        let ghost rv = pairs_view(rows@);
        out.append(&mut rows);
        proof {
            assert(pairs_view(out@) =~= before + rv);
            assert(of(entries@[e as int]) == entry_provides(entries@[e as int]));
            assert(all_rows(entries@, of, 0) =~= pairs_view(out@) + all_rows(
                entries@,
                of,
                e + 1,
            ));
        }
        e += 1;
    }
    out
}

/// Gather every entry's dependency rows.
#[verifier::loop_isolation(false)]
fn gather_deps(entries: &Vec<PantryEntry>) -> (r: Vec<(String, String)>)
    ensures
        pairs_view(r@) == all_rows(entries@, |en: PantryEntry| entry_deps(en), 0),
{
    let ghost of = |en: PantryEntry| entry_deps(en);
    let mut out: Vec<(String, String)> = Vec::new();
    let mut e: usize = 0;
    proof {
        assert(pairs_view(out@) =~= Seq::<(Seq<char>, Seq<char>)>::empty());
    }
    while e < entries.len()
        invariant
            e <= entries@.len(),
            all_rows(entries@, of, 0) == pairs_view(out@) + all_rows(entries@, of, e as int),
        decreases entries@.len() - e,
    {
        let ghost before = pairs_view(out@);
        let mut rows = req_list(&entries[e].project, &entries[e].deps);
        let ghost rv = pairs_view(rows@);
        out.append(&mut rows);
        proof {
            assert(rv =~= entry_deps(entries@[e as int]));
            assert(pairs_view(out@) =~= before + rv);
            assert(all_rows(entries@, of, 0) =~= pairs_view(out@) + all_rows(
                entries@,
                of,
                e + 1,
            ));
        }
        e += 1;
    }
    out
}

/// Gather every entry's companion rows.
#[verifier::loop_isolation(false)]
fn gather_companions(entries: &Vec<PantryEntry>) -> (r: Vec<(String, String)>)
    ensures
        pairs_view(r@) == all_rows(entries@, |en: PantryEntry| entry_companions(en), 0),
{
    let ghost of = |en: PantryEntry| entry_companions(en);
    let mut out: Vec<(String, String)> = Vec::new();
    let mut e: usize = 0;
    proof {
        assert(pairs_view(out@) =~= Seq::<(Seq<char>, Seq<char>)>::empty());
    }
    while e < entries.len()
        invariant
            e <= entries@.len(),
            all_rows(entries@, of, 0) == pairs_view(out@) + all_rows(entries@, of, e as int),
        decreases entries@.len() - e,
    {
        let ghost before = pairs_view(out@);
        let mut rows = req_list(&entries[e].project, &entries[e].companions);
        let ghost rv = pairs_view(rows@);
        out.append(&mut rows);
        proof {
            assert(rv =~= entry_companions(entries@[e as int]));
            assert(pairs_view(out@) =~= before + rv);
            assert(all_rows(entries@, of, 0) =~= pairs_view(out@) + all_rows(
                entries@,
                of,
                e + 1,
            ));
        }
        e += 1;
    }
    out
}

/// Gather every entry's runtime rows.
#[verifier::loop_isolation(false)]
fn gather_runtime(entries: &Vec<PantryEntry>) -> (r: Vec<(String, String)>)
    ensures
        pairs_view(r@) == all_rows(entries@, |en: PantryEntry| entry_runtime(en), 0),
{
    let ghost of = |en: PantryEntry| entry_runtime(en);
    let mut out: Vec<(String, String)> = Vec::new();
    let mut e: usize = 0;
    proof {
        assert(pairs_view(out@) =~= Seq::<(Seq<char>, Seq<char>)>::empty());
    }
    while e < entries.len()
        invariant
            e <= entries@.len(),
            all_rows(entries@, of, 0) == pairs_view(out@) + all_rows(entries@, of, e as int),
        decreases entries@.len() - e,
    {
        let ghost before = pairs_view(out@);
        let mut rows = runtime_list(&entries[e]);
        let ghost rv = pairs_view(rows@);
        out.append(&mut rows);
        proof {
            assert(pairs_view(out@) =~= before + rv);
            assert(of(entries@[e as int]) == entry_runtime(entries@[e as int]));
            assert(all_rows(entries@, of, 0) =~= pairs_view(out@) + all_rows(
                entries@,
                of,
                e + 1,
            ));
        }
        e += 1;
    }
    out
}

/// Rebuild the index from interpreted manifests: reset the schema, then
/// insert, per entry, its programs, its dependencies and companions in the
/// canonical request text, and its runtime variables as `KEY=VALUE` lines.
/// On success each relation holds exactly those rows.
pub fn cache(conn: &mut rusqlite::Connection, entries: &Vec<PantryEntry>) -> (r: Result<
    (),
    PantryDbError,
>)
    ensures
        r is Ok ==> {
            &&& provides_rows(*final(conn)) == all_rows(
                entries@,
                |en: PantryEntry| entry_provides(en),
                0,
            ).to_multiset()
            &&& deps_rows(*final(conn)) == all_rows(
                entries@,
                |en: PantryEntry| entry_deps(en),
                0,
            ).to_multiset()
            &&& companions_rows(*final(conn)) == all_rows(
                entries@,
                |en: PantryEntry| entry_companions(en),
                0,
            ).to_multiset()
            &&& runtime_env_rows(*final(conn)) == all_rows(
                entries@,
                |en: PantryEntry| entry_runtime(en),
                0,
            ).to_multiset()
        },
{
    if db_init_schema(conn).is_err() {
        return Err(PantryDbError::Store);
    }
    if db_begin(conn).is_err() {
        return Err(PantryDbError::Store);
    }
    let provides = gather_provides(entries);
    let deps = gather_deps(entries);
    let companions = gather_companions(entries);
    let runtime = gather_runtime(entries);
    if insert_provides_rows(conn, &provides).is_err() {
        return Err(PantryDbError::Store);
    }
    if insert_deps_rows(conn, &deps).is_err() {
        return Err(PantryDbError::Store);
    }
    if insert_companions_rows(conn, &companions).is_err() {
        return Err(PantryDbError::Store);
    }
    if insert_runtime_rows(conn, &runtime).is_err() {
        return Err(PantryDbError::Store);
    }
    proof {
        assert(provides_rows(*conn) =~= pairs_view(provides@).to_multiset());
        assert(deps_rows(*conn) =~= pairs_view(deps@).to_multiset());
        assert(companions_rows(*conn) =~= pairs_view(companions@).to_multiset());
        assert(runtime_env_rows(*conn) =~= pairs_view(runtime@).to_multiset());
    }
    if db_commit(conn).is_err() {
        return Err(PantryDbError::Store);
    }
    Ok(())
}

/// The row texts are exactly the project's stored rows, as a multiset.
pub open spec fn rows_of_project(
    rel: Multiset<(Seq<char>, Seq<char>)>,
    project: Seq<char>,
    rows: Seq<Seq<char>>,
) -> bool {
    forall|x: Seq<char>| #[trigger] rows.to_multiset().count(x) == rel.count((project, x))
}

/// The text parses back as a package request.
pub open spec fn req_parseable(x: Seq<char>) -> bool {
    crate::range::trim_ws(x).len() > 0 && crate::range::spec_parse_range(
        crate::types::pkg_split_constraint(crate::range::trim_ws(x)),
    ) is Some
}

/// A request parsed back from some stored row of the project.
pub open spec fn req_from_rows(
    rel: Multiset<(Seq<char>, Seq<char>)>,
    project: Seq<char>,
    rq: PackageReq,
) -> bool {
    exists|x: Seq<char>| #[trigger] row_in(rel, project, x) && parsed_req(x, rq)
}

/// The projects that provide a program, in the store's order.
pub fn which(cmd: &String, conn: &rusqlite::Connection) -> (r: Result<Vec<String>, PantryDbError>)
    ensures
        match r {
            Ok(v) => forall|p: Seq<char>|
                crate::env::strs(v@).to_multiset().count(p) == provides_rows(*conn).count(
                    (p, cmd@),
                ),
            Err(e) => e is Store,
        },
{
    match db_projects_for_program(conn, cmd.as_str()) {
        Ok(v) => Ok(v),
        Err(_) => Err(PantryDbError::Store),
    }
}

/// Decide among the candidate projects for a program: exactly one wins; none
/// or several are user-visible errors carrying the candidates.
pub fn decide_which(cmd: &String, candidates: Vec<String>) -> (r: Result<String, WhichError>)
    ensures
        match r {
            Ok(p) => candidates@.len() == 1 && p@ == candidates@[0]@,
            Err(e) => (candidates@.len() == 0 && (e matches WhichError::CmdNotFound(c) && c@
                == cmd@)) || (candidates@.len() > 1 && (e matches WhichError::MultipleProjects(
                c,
                v,
            ) && c@ == cmd@ && v@ == candidates@)),
        },
{
    if candidates.len() == 1 {
        let mut candidates = candidates;
        match candidates.pop() {
            Some(p) => Ok(p),
            None => Err(WhichError::CmdNotFound(cmd.clone())),
        }
    } else if candidates.len() == 0 {
        Err(WhichError::CmdNotFound(cmd.clone()))
    } else {
        Err(WhichError::MultipleProjects(cmd.clone(), candidates))
    }
}

/// Parse stored request rows back into requests, one request per row in
/// order; a row that does not parse back is an error.
#[verifier::loop_isolation(false)]
fn parse_rows(
    project: &String,
    rows: &Vec<String>,
    Ghost(rel): Ghost<Multiset<(Seq<char>, Seq<char>)>>,
) -> (r: Result<Vec<PackageReq>, PantryDbError>)
    requires
        rows_of_project(rel, project@, crate::env::strs(rows@)),
    ensures
        match r {
            Ok(reqs) => reqs@.len() == rows@.len() && (forall|k: int|
                0 <= k < reqs@.len() ==> parsed_req(rows@[k]@, #[trigger] reqs@[k])),
            Err(e) => e is BadRow && (exists|x: Seq<char>|
                #[trigger] row_in(rel, project@, x) && !req_parseable(x)),
        },
{
    let mut reqs: Vec<PackageReq> = Vec::new();
    let mut i: usize = 0;
    while i < rows.len()
        invariant
            i <= rows@.len(),
            reqs@.len() == i,
            forall|k: int| 0 <= k < i ==> parsed_req(rows@[k]@, #[trigger] reqs@[k]),
        decreases rows@.len() - i,
    {
        match PackageReq::parse(rows[i].as_str()) {
            Ok(rq) => {
                reqs.push(rq);
            },
            Err(_) => {
                proof {
                    broadcast use vstd::seq_lib::group_to_multiset_ensures;

                    let sv = crate::env::strs(rows@);
                    assert(sv[i as int] == rows@[i as int]@);
                    assert(sv.contains(rows@[i as int]@));
                    assert(sv.to_multiset().count(rows@[i as int]@) > 0);
                    assert(row_in(rel, project@, rows@[i as int]@));
                    assert(!req_parseable(rows@[i as int]@));
                }
                return Err(PantryDbError::BadRow);
            },
        }
        i += 1;
    }
    Ok(reqs)
}

/// The dependencies of a project: exactly one request per stored dependency
/// row, parsed back from the row text; a row that does not parse back is an
/// error.
pub fn deps_for_project(project: &String, conn: &rusqlite::Connection) -> (r: Result<
    Vec<PackageReq>,
    PantryDbError,
>)
    ensures
        match r {
            Ok(reqs) => exists|rows: Seq<Seq<char>>|
                #[trigger] rows_of_project(deps_rows(*conn), project@, rows) && reqs@.len()
                    == rows.len() && (forall|k: int|
                    0 <= k < reqs@.len() ==> parsed_req(rows[k], #[trigger] reqs@[k])),
            Err(e) => e is Store || (exists|x: Seq<char>|
                #[trigger] row_in(deps_rows(*conn), project@, x) && !req_parseable(x)),
        },
{
    let rows = match db_pkgspecs_for_project(conn, project.as_str()) {
        Ok(v) => v,
        Err(_) => {
            return Err(PantryDbError::Store);
        },
    };
    let reqs = match parse_rows(project, &rows, Ghost(deps_rows(*conn))) {
        Ok(v) => v,
        Err(e) => {
            return Err(e);
        },
    };
    proof {
        let w = crate::env::strs(rows@);
        assert(rows_of_project(deps_rows(*conn), project@, w));
        assert forall|k: int| 0 <= k < reqs@.len() implies parsed_req(
            w[k],
            #[trigger] reqs@[k],
        ) by {
            assert(w[k] == rows@[k]@);
        }
    }
    Ok(reqs)
}

/// The requests are, project by project in order, exactly the parses of that
/// project's stored companion rows.
pub open spec fn companions_exact(
    rel: Multiset<(Seq<char>, Seq<char>)>,
    projects: Seq<String>,
    reqs: Seq<PackageReq>,
) -> bool
    decreases projects.len(),
{
    if projects.len() == 0 {
        reqs.len() == 0
    } else {
        exists|rows: Seq<Seq<char>>|
            #[trigger] rows_of_project(rel, projects[0]@, rows) && rows.len() <= reqs.len() && (
            forall|k: int| 0 <= k < rows.len() ==> parsed_req(rows[k], #[trigger] reqs[k]))
                && companions_exact(rel, projects.skip(1), reqs.skip(rows.len() as int))
    }
}

proof fn lemma_companions_extend(
    rel: Multiset<(Seq<char>, Seq<char>)>,
    ps: Seq<String>,
    reqs: Seq<PackageReq>,
    q: String,
    rows: Seq<Seq<char>>,
    block: Seq<PackageReq>,
)
    requires
        companions_exact(rel, ps, reqs),
        rows_of_project(rel, q@, rows),
        block.len() == rows.len(),
        forall|k: int| 0 <= k < rows.len() ==> parsed_req(rows[k], #[trigger] block[k]),
    ensures
        companions_exact(rel, ps.push(q), reqs + block),
    decreases ps.len(),
{
    if ps.len() == 0 {
        assert(reqs.len() == 0);
        assert(reqs + block =~= block);
        assert(ps.push(q)[0] == q);
        assert(ps.push(q).skip(1) =~= Seq::<String>::empty());
        assert(block.skip(rows.len() as int) =~= Seq::<PackageReq>::empty());
        assert(companions_exact(rel, ps.push(q).skip(1), block.skip(rows.len() as int)));
        assert(rows_of_project(rel, ps.push(q)[0]@, rows) && rows.len() <= block.len() && (forall|
            k: int,
        | 0 <= k < rows.len() ==> parsed_req(rows[k], #[trigger] block[k])) && companions_exact(
            rel,
            ps.push(q).skip(1),
            block.skip(rows.len() as int),
        ));
        assert(companions_exact(rel, ps.push(q), reqs + block));
    } else {
        let rows0 = choose|rows0: Seq<Seq<char>>|
            #[trigger] rows_of_project(rel, ps[0]@, rows0) && rows0.len() <= reqs.len() && (forall|
                k: int,
            | 0 <= k < rows0.len() ==> parsed_req(rows0[k], #[trigger] reqs[k]))
                && companions_exact(rel, ps.skip(1), reqs.skip(rows0.len() as int));
        let n0 = rows0.len() as int;
        lemma_companions_extend(rel, ps.skip(1), reqs.skip(n0), q, rows, block);
        assert(ps.skip(1).push(q) =~= ps.push(q).skip(1));
        assert(reqs.skip(n0) + block =~= (reqs + block).skip(n0));
        assert(companions_exact(rel, ps.push(q).skip(1), (reqs + block).skip(n0)));
        assert(ps.push(q)[0] == ps[0]);
        assert forall|k: int| 0 <= k < rows0.len() implies parsed_req(
            rows0[k],
            #[trigger] (reqs + block)[k],
        ) by {
            assert((reqs + block)[k] == reqs[k]);
        }
        assert(rows_of_project(rel, ps.push(q)[0]@, rows0) && rows0.len() <= (reqs + block).len()
            && (forall|k: int|
            0 <= k < rows0.len() ==> parsed_req(rows0[k], #[trigger] (reqs + block)[k]))
            && companions_exact(rel, ps.push(q).skip(1), (reqs + block).skip(rows0.len() as int)));
        assert(companions_exact(rel, ps.push(q), reqs + block));
    }
}

/// The companions of the given projects: project by project in order, exactly
/// one request per stored companion row; a row that does not parse back is an
/// error.
#[verifier::loop_isolation(false)]
pub fn companions_for_projects(projects: &Vec<String>, conn: &rusqlite::Connection) -> (r: Result<
    Vec<PackageReq>,
    PantryDbError,
>)
    ensures
        match r {
            Ok(reqs) => companions_exact(companions_rows(*conn), projects@, reqs@),
            Err(e) => e is Store || (exists|p: int, x: Seq<char>|
                0 <= p < projects@.len() && #[trigger] row_in(
                    companions_rows(*conn),
                    projects@[p]@,
                    x,
                ) && !req_parseable(x)),
        },
{
    let mut out: Vec<PackageReq> = Vec::new();
    let mut i: usize = 0;
    proof {
        assert(projects@.take(0) =~= Seq::<String>::empty());
    }
    while i < projects.len()
        invariant
            i <= projects@.len(),
            companions_exact(companions_rows(*conn), projects@.take(i as int), out@),
        decreases projects@.len() - i,
    {
        let rows = match db_companions_for_project(conn, projects[i].as_str()) {
            Ok(v) => v,
            Err(_) => {
                return Err(PantryDbError::Store);
            },
        };
        let mut reqs = match parse_rows(&projects[i], &rows, Ghost(companions_rows(*conn))) {
            Ok(v) => v,
            Err(_) => {
                proof {
                    let x0 = choose|x: Seq<char>|
                        #[trigger] row_in(companions_rows(*conn), projects@[i as int]@, x)
                            && !req_parseable(x);
                    assert(row_in(companions_rows(*conn), projects@[i as int]@, x0));
                }
                return Err(PantryDbError::BadRow);
            },
        };
        let ghost reqs0 = reqs@;
        let ghost out_before = out@;
        let ghost rows_v = crate::env::strs(rows@);
        out.append(&mut reqs);
        proof {
            assert forall|k: int| 0 <= k < reqs0.len() implies parsed_req(
                rows_v[k],
                #[trigger] reqs0[k],
            ) by {
                assert(rows_v[k] == rows@[k]@);
            }
            lemma_companions_extend(
                companions_rows(*conn),
                projects@.take(i as int),
                out_before,
                projects@[i as int],
                rows_v,
                reqs0,
            );
            assert(projects@.take(i as int).push(projects@[i as int]) =~= projects@.take(i + 1));
            assert(out@ =~= out_before + reqs0);
        }
        i += 1;
    }
    proof {
        assert(projects@.take(projects@.len() as int) =~= projects@);
    }
    Ok(out)
}

/// One stored line split at its first equals sign.
pub open spec fn splits_at_eq(x: Seq<char>, key: Seq<char>, val: Seq<char>) -> bool {
    let j = find_char_from(x, '=', 0);
    &&& 0 <= j < x.len()
    &&& key == x.take(j)
    &&& val == x.skip(j + 1)
}

/// The runtime variables of a project: exactly one pair per stored row, each
/// line split at its first equals sign; a line without one is an error.
#[verifier::loop_isolation(false)]
pub fn runtime_env_for_project(project: &String, conn: &rusqlite::Connection) -> (r: Result<
    Vec<(String, String)>,
    PantryDbError,
>)
    ensures
        match r {
            Ok(env) => exists|rows: Seq<Seq<char>>|
                #[trigger] rows_of_project(runtime_env_rows(*conn), project@, rows) && env@.len()
                    == rows.len() && (forall|k: int|
                    0 <= k < env@.len() ==> splits_at_eq(
                        rows[k],
                        (#[trigger] env@[k]).0@,
                        env@[k].1@,
                    )),
            Err(e) => e is Store || (exists|x: Seq<char>|
                #[trigger] row_in(runtime_env_rows(*conn), project@, x) && find_char_from(x, '=', 0)
                    >= x.len()),
        },
{
    let rows = match db_envlines_for_project(conn, project.as_str()) {
        Ok(v) => v,
        Err(_) => {
            return Err(PantryDbError::Store);
        },
    };
    let mut env: Vec<(String, String)> = Vec::new();
    let mut i: usize = 0;
    while i < rows.len()
        invariant
            i <= rows@.len(),
            rows_of_project(runtime_env_rows(*conn), project@, crate::env::strs(rows@)),
            env@.len() == i,
            forall|k: int|
                0 <= k < i ==> splits_at_eq(rows@[k]@, (#[trigger] env@[k]).0@, env@[k].1@),
        decreases rows@.len() - i,
    {
        let line = &rows[i];
        let n = line.as_str().unicode_len();
        let j = find_eq(line.as_str());
        if j >= n {
            proof {
                broadcast use vstd::seq_lib::group_to_multiset_ensures;

                let sv = crate::env::strs(rows@);
                assert(sv[i as int] == rows@[i as int]@);
                assert(sv.contains(rows@[i as int]@));
                assert(sv.to_multiset().count(rows@[i as int]@) > 0);
                assert(row_in(runtime_env_rows(*conn), project@, rows@[i as int]@));
            }
            return Err(PantryDbError::BadRow);
        }
        let key = line.as_str().substring_char(0, j);
        let value = line.as_str().substring_char(j + 1, n);
        proof {
            assert(key@ =~= line@.take(j as int));
            assert(value@ =~= line@.skip(j + 1));
        }
        env.push((key.to_owned(), value.to_owned()));
        i += 1;
    }
    proof {
        let w = crate::env::strs(rows@);
        assert(env@.len() == w.len());
        assert forall|k: int| 0 <= k < env@.len() implies splits_at_eq(
            w[k],
            (#[trigger] env@[k]).0@,
            env@[k].1@,
        ) by {
            assert(w[k] == rows@[k]@);
        }
    }
    Ok(env)
}

fn find_eq(s: &str) -> (r: usize)
    ensures
        r == find_char_from(s@, '=', 0),
        r <= s@.len(),
{
    let n = s.unicode_len();
    let mut i: usize = 0;
    while i < n
        invariant
            i <= n,
            n == s@.len(),
            find_char_from(s@, '=', 0) == find_char_from(s@, '=', i as int),
        decreases n - i,
    {
        if s.get_char(i) == '=' {
            return i;
        }
        i += 1;
    }
    i
}

/// Some project provides the program.
pub open spec fn some_provider(rel: Multiset<(Seq<char>, Seq<char>)>, program: Seq<char>) -> bool {
    exists|p: Seq<char>| #[trigger] row_in(rel, p, program)
}

/// Map a request whose project is really a program name to the providing
/// project: when the store maps the name to at least one project, one of the
/// providers replaces it; the request is unchanged exactly when no project
/// provides the name.
pub fn resolve(pkg: PackageReq, conn: &rusqlite::Connection) -> (r: Result<
    PackageReq,
    PantryDbError,
>)
    ensures
        match r {
            Ok(rq) => {
                &&& some_provider(provides_rows(*conn), pkg.project@) ==> row_in(
                    provides_rows(*conn),
                    rq.project@,
                    pkg.project@,
                )
                &&& !some_provider(provides_rows(*conn), pkg.project@) ==> rq.project@
                    == pkg.project@
                &&& rq.constraint.constraints@.len() == pkg.constraint.constraints@.len()
                &&& (forall|k: int|
                    0 <= k < pkg.constraint.constraints@.len() ==> crate::range::constraint_like(
                        #[trigger] rq.constraint.constraints@[k],
                        pkg.constraint.constraints@[k],
                    ))
            },
            Err(e) => e is Store,
        },
{
    let candidates = match which(&pkg.project, conn) {
        Ok(v) => v,
        Err(_) => {
            return Err(PantryDbError::Store);
        },
    };
    if candidates.len() > 0 {
        let mut candidates = candidates;
        let ghost cs = candidates@;
        let first = candidates.remove(0);
        proof {
            broadcast use vstd::seq_lib::group_to_multiset_ensures;

            let sv = crate::env::strs(cs);
            assert(sv[0] == cs[0]@);
            assert(sv.contains(cs[0]@));
            assert(sv.to_multiset().count(cs[0]@) > 0);
            assert(row_in(provides_rows(*conn), cs[0]@, pkg.project@));
        }
        let constraint = pkg.constraint.clone();
        Ok(PackageReq { project: first, constraint })
    } else {
        proof {
            broadcast use vstd::seq_lib::group_to_multiset_ensures;

            let sv = crate::env::strs(candidates@);
            if some_provider(provides_rows(*conn), pkg.project@) {
                let p0 = choose|p: Seq<char>|
                    #[trigger] row_in(provides_rows(*conn), p, pkg.project@);
                assert(sv.to_multiset().count(p0) == provides_rows(*conn).count(
                    (p0, pkg.project@),
                ));
                assert(sv.to_multiset().count(p0) > 0);
                assert(sv.to_multiset().contains(p0));
                assert(sv.contains(p0));
                assert(false);
            }
            assert forall|k: int| 0 <= k < pkg.constraint.constraints@.len() implies
                crate::range::constraint_like(
                #[trigger] pkg.constraint.constraints@[k],
                pkg.constraint.constraints@[k],
            ) by {}
        }
        Ok(pkg)
    }
}


/// The requests are exactly the parses of the project's stored dependency
/// rows, in some order of those rows.
pub open spec fn entry_exact(
    rel: Multiset<(Seq<char>, Seq<char>)>,
    p: Seq<char>,
    reqs: Seq<PackageReq>,
) -> bool {
    exists|rows: Seq<Seq<char>>|
        #[trigger] rows_of_project(rel, p, rows) && reqs.len() == rows.len() && (forall|k: int|
            0 <= k < reqs.len() ==> parsed_req(rows[k], #[trigger] reqs[k]))
}

/// Two parses of one row text admit the same versions for the same project.
proof fn lemma_parses_agree(x: Seq<char>, a: PackageReq, b: PackageReq)
    requires
        parsed_req(x, a),
        parsed_req(x, b),
    ensures
        crate::hydrate::req_stronger(a, b),
{
    assert forall|k: int| 0 <= k < a.constraint.constraints@.len() implies crate::range::c_shape(
        #[trigger] a.constraint.constraints@[k],
    ) == crate::range::c_shape(b.constraint.constraints@[k]) by {}
    crate::range::lemma_same_shapes_sat(a.constraint.constraints@, b.constraint.constraints@);
}

/// A request parsed from any stored row of the project is as weak as some
/// member of an exact parse of those rows.
proof fn lemma_entry_complete(
    rel: Multiset<(Seq<char>, Seq<char>)>,
    p: Seq<char>,
    reqs: Seq<PackageReq>,
    d: PackageReq,
)
    requires
        entry_exact(rel, p, reqs),
        req_from_rows(rel, p, d),
    ensures
        exists|k: int| 0 <= k < reqs.len() && crate::hydrate::req_stronger(#[trigger] reqs[k], d),
{
    broadcast use vstd::seq_lib::group_to_multiset_ensures;

    let rows = choose|rows: Seq<Seq<char>>|
        #[trigger] rows_of_project(rel, p, rows) && reqs.len() == rows.len() && (forall|k: int|
            0 <= k < reqs.len() ==> parsed_req(rows[k], #[trigger] reqs[k]));
    let x = choose|x: Seq<char>| #[trigger] row_in(rel, p, x) && parsed_req(x, d);
    assert(rows.to_multiset().count(x) == rel.count((p, x)));
    assert(rows.to_multiset().count(x) > 0);
    assert(rows.contains(x));
    let kx = choose|k: int| 0 <= k < rows.len() && rows[k] == x;
    assert(parsed_req(x, reqs[kx]));
    lemma_parses_agree(x, reqs[kx], d);
}

/// With distinct keys, the lookup of a present key is its entry's rows.
proof fn lemma_lookup_of_entry(table: Seq<(String, Vec<PackageReq>)>, t: int)
    requires
        0 <= t < table.len(),
        forall|a: int, b: int|
            0 <= a < b < table.len() ==> (#[trigger] table[a]).0@ != (#[trigger] table[b]).0@,
    ensures
        crate::hydrate::table_lookup(table, table[t].0@) == table[t].1@,
    decreases t,
{
    if t == 0 {
    } else {
        assert(table[0].0@ != table[t].0@);
        assert forall|a: int, b: int|
            0 <= a < b < table.skip(1).len() implies (#[trigger] table.skip(1)[a]).0@ != (
        #[trigger] table.skip(1)[b]).0@ by {
            assert(table.skip(1)[a] == table[a + 1]);
            assert(table.skip(1)[b] == table[b + 1]);
        }
        assert(table.skip(1)[t - 1] == table[t]);
        lemma_lookup_of_entry(table.skip(1), t - 1);
    }
}

/// A combined failure of hydration against the index store.
#[derive(Clone, Copy, PartialEq, Eq, Structural, Debug)]
pub enum HydrateDbError {
    /// Constraint merging failed, or a walk exceeded its work bound.
    Constraint(crate::hydrate::HydrateError),
    /// The index store failed or held a row that does not parse back.
    Index(PantryDbError),
}

/// Hydrate seed requests against the index store: dependencies are looked up
/// per discovered project and the walk repeats until no new project appears.
/// Every seed survives with a constraint at least as tight, each project
/// appears once, and every stored dependency row of every returned project
/// that parses back is covered by the result.
#[verifier::loop_isolation(false)]
pub fn hydrate_from_db(input: &Vec<PackageReq>, conn: &rusqlite::Connection) -> (r: Result<
    Vec<PackageReq>,
    HydrateDbError,
>)
    requires
        crate::hydrate::reqs_wf(input@),
    ensures
        match r {
            Ok(h) => {
                &&& crate::hydrate::reqs_distinct(h@)
                &&& crate::hydrate::reqs_wf(h@)
                &&& (forall|s: int|
                    0 <= s < input@.len() ==> crate::hydrate::covered(h@, #[trigger] input@[s]))
                &&& (forall|q: int, d: PackageReq|
                    0 <= q < h@.len() && #[trigger] req_from_rows(
                        deps_rows(*conn),
                        (#[trigger] h@[q]).project@,
                        d,
                    ) ==> crate::hydrate::covered(h@, d))
            },
            Err(_) => true,
        },
{
    let mut table: Vec<(String, Vec<PackageReq>)> = Vec::new();
    let mut rounds: u64 = 65536;
    loop
        invariant
            crate::hydrate::table_wf(table@),
            forall|a: int, b: int|
                0 <= a < b < table@.len() ==> (#[trigger] table@[a]).0@ != (
                #[trigger] table@[b]).0@,
            forall|t: int|
                0 <= t < table@.len() ==> entry_exact(
                    deps_rows(*conn),
                    (#[trigger] table@[t]).0@,
                    table@[t].1@,
                ),
            crate::hydrate::reqs_wf(input@),
        decreases rounds,
    {
        if rounds == 0 {
            return Err(HydrateDbError::Constraint(crate::hydrate::HydrateError::WorkBound));
        }
        rounds = rounds - 1;
        let graph = match crate::hydrate::hydrate(input, &table) {
            Ok(g) => g,
            Err(he) => {
                return Err(HydrateDbError::Constraint(he));
            },
        };
        let ghost table_at_call = table@;
        let mut grew = false;
        let mut q: usize = 0;
        while q < graph.len()
            invariant
                q <= graph@.len(),
                !grew ==> table@ == table_at_call,
                crate::hydrate::table_wf(table@),
                forall|a: int, b: int|
                    0 <= a < b < table@.len() ==> (#[trigger] table@[a]).0@ != (
                    #[trigger] table@[b]).0@,
                forall|t: int|
                    0 <= t < table@.len() ==> entry_exact(
                        deps_rows(*conn),
                        (#[trigger] table@[t]).0@,
                        table@[t].1@,
                    ),
                !grew ==> forall|q2: int|
                    0 <= q2 < q ==> exists|t: int|
                        0 <= t < table@.len() && (#[trigger] table@[t]).0@ == (
                        #[trigger] graph@[q2]).project@,
            decreases graph@.len() - q,
        {
            let mut t: usize = 0;
            let mut present = false;
            while t < table.len()
                invariant
                    t <= table@.len(),
                    q < graph@.len(),
                    present ==> exists|t2: int|
                        0 <= t2 < table@.len() && (#[trigger] table@[t2]).0@ == graph@[
                            q as int].project@,
                    !present ==> forall|t2: int|
                        0 <= t2 < t ==> (#[trigger] table@[t2]).0@ != graph@[q as int].project@,
                decreases table@.len() - t,
            {
                if table[t].0 == graph[q].project {
                    present = true;
                }
                t += 1;
            }
            if !present {
                let deps = match deps_for_project(&graph[q].project, conn) {
                    Ok(v) => v,
                    Err(e) => {
                        return Err(HydrateDbError::Index(e));
                    },
                };
                let ghost table_before = table@;
                table.push((graph[q].project.clone(), deps));
                grew = true;
                proof {
                    assert forall|t2: int| 0 <= t2 < table@.len() implies entry_exact(
                        deps_rows(*conn),
                        (#[trigger] table@[t2]).0@,
                        table@[t2].1@,
                    ) by {
                        if t2 < table_before.len() {
                            assert(table@[t2] == table_before[t2]);
                        } else {
                            assert(table@[t2].0@ == graph@[q as int].project@);
                        }
                    }
                    assert forall|t2: int, k: int|
                        0 <= t2 < table@.len() && 0 <= k < (
                        #[trigger] table@[t2]).1@.len() implies crate::range::range_wf(
                        (#[trigger] table@[t2].1@[k]).constraint.constraints@,
                    ) by {
                        if t2 < table_before.len() {
                            assert(table@[t2] == table_before[t2]);
                            assert(crate::hydrate::table_wf(table_before));
                        } else {
                            assert(entry_exact(
                                deps_rows(*conn),
                                table@[t2].0@,
                                table@[t2].1@,
                            ));
                            let rows = choose|rows: Seq<Seq<char>>|
                                #[trigger] rows_of_project(deps_rows(*conn), table@[t2].0@, rows)
                                    && table@[t2].1@.len() == rows.len() && (forall|k2: int|
                                    0 <= k2 < table@[t2].1@.len() ==> parsed_req(
                                        rows[k2],
                                        #[trigger] table@[t2].1@[k2],
                                    ));
                            assert(parsed_req(rows[k], table@[t2].1@[k]));
                        }
                    }
                }
            }
            q += 1;
        }
        if !grew {
            proof {
                assert(table@ == table_at_call);
                assert forall|q2: int, d: PackageReq|
                    0 <= q2 < graph@.len() && #[trigger] req_from_rows(
                        deps_rows(*conn),
                        (#[trigger] graph@[q2]).project@,
                        d,
                    ) implies crate::hydrate::covered(graph@, d) by {
                    let t0 = choose|t: int|
                        0 <= t < table@.len() && (#[trigger] table@[t]).0@ == graph@[q2].project@;
                    lemma_lookup_of_entry(table@, t0);
                    assert(crate::hydrate::table_lookup(table@, graph@[q2].project@) == table@[
                        t0].1@);
                    lemma_entry_complete(deps_rows(*conn), table@[t0].0@, table@[t0].1@, d);
                    let k0 = choose|k: int|
                        0 <= k < table@[t0].1@.len() && crate::hydrate::req_stronger(
                            #[trigger] table@[t0].1@[k],
                            d,
                        );
                    assert(0 <= k0 < crate::hydrate::table_lookup(
                        table@,
                        graph@[q2].project@,
                    ).len());
                    assert(crate::hydrate::table_lookup(table@, graph@[q2].project@)[k0]
                        == table@[t0].1@[k0]);
                    assert(crate::hydrate::covered(
                        graph@,
                        crate::hydrate::table_lookup(table@, graph@[q2].project@)[k0],
                    ));
                    let j0 = choose|j: int|
                        0 <= j < graph@.len() && crate::hydrate::req_stronger(
                            #[trigger] graph@[j],
                            table@[t0].1@[k0],
                        );
                    assert(crate::hydrate::req_stronger(graph@[j0], d));
                }
            }
            return Ok(graph);
        }
    }
}

} // verus!
