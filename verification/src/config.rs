//! Configuration: resolve the distribution URL, the pantry tree location and
//! the installation root from environment inputs, with platform defaults.

use vstd::prelude::*;

verus! {

/// Where the executor keeps its data and where it downloads from.
#[derive(Debug)]
pub struct Config {
    pub pantry_dir: String,
    pub dist_url: String,
    pub pkgx_dir: String,
}

/// A path is absolute when it starts with a slash.
pub open spec fn is_absolute(s: Seq<char>) -> bool {
    s.len() > 0 && s[0] == '/'
}

/// An override resolved against the working directory when relative.
pub open spec fn resolved_dir(over: Seq<char>, cwd: Seq<char>) -> Seq<char> {
    if is_absolute(over) {
        over
    } else {
        cwd + seq!['/'] + over
    }
}

fn resolve_dir(over: String, cwd: &str) -> (r: String)
    ensures
        r@ == resolved_dir(over@, cwd@),
{
    proof {
        reveal_strlit("/");
    }
    let n = over.as_str().unicode_len();
    if n > 0 && over.as_str().get_char(0) == '/' {
        over
    } else {
        let mut r = cwd.to_owned();
        r.append("/");
        r.append(over.as_str());
        proof {
            assert(r@ =~= cwd@ + seq!['/'] + over@);
        }
        r
    }
}

impl Config {
    /// Build the configuration from environment inputs: explicit overrides
    /// win, relative overrides resolve against the working directory, and the
    /// defaults are the platform cache and home locations.
    pub fn new(
        dist_url_env: Option<String>,
        pantry_dir_env: Option<String>,
        pkgx_dir_env: Option<String>,
        cwd: &str,
        cache_dir: &str,
        home_dir: &str,
        macos: bool,
    ) -> (r: Config)
        ensures
            r.dist_url@ == (match dist_url_env {
                Some(u) => u@,
                None => "https://dist.pkgx.dev"@,
            }),
            r.pantry_dir@ == (match pantry_dir_env {
                Some(d) => resolved_dir(d@, cwd@),
                None => cache_dir@ + "/pkgx/pantry"@,
            }),
            r.pkgx_dir@ == (match pkgx_dir_env {
                Some(d) => resolved_dir(d@, cwd@),
                None => (if macos {
                    home_dir@ + "/Library/pkgs"@
                } else {
                    home_dir@ + "/.pkgx"@
                }),
            }),
    {
        let dist_url = match dist_url_env {
            Some(u) => u,
            None => String::from_str("https://dist.pkgx.dev"),
        };
        let pantry_dir = match pantry_dir_env {
            Some(d) => resolve_dir(d, cwd),
            None => {
                let mut p = cache_dir.to_owned();
                p.append("/pkgx/pantry");
                p
            },
        };
        let pkgx_dir = match pkgx_dir_env {
            Some(d) => resolve_dir(d, cwd),
            None => {
                let mut p = home_dir.to_owned();
                if macos {
                    p.append("/Library/pkgs");
                } else {
                    p.append("/.pkgx");
                }
                p
            },
        };
        Config { pantry_dir, dist_url, pkgx_dir }
    }
}

} // verus!
