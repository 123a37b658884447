//! Command-line parsing: `[FLAGS] [+PKGSPEC ...] [PROGRAM|PATH] [-- ARG ...]`.
//! The first bare token fixes whether the program is looked up on the path
//! and starts argument collection; `--` freezes the rest as arguments; an
//! unknown flag is fatal.

use vstd::prelude::*;

verus! {

/// What the invocation asks for.
#[derive(Clone, Copy, PartialEq, Eq, Structural, Debug)]
pub enum Mode {
    X,
    Help,
    Version,
}

/// Output-shaping flags.
#[derive(Clone, Copy, PartialEq, Eq, Structural, Debug)]
pub struct Flags {
    pub silent: bool,
    pub json: bool,
}

/// The parsed invocation.
#[derive(Debug)]
pub struct Args {
    pub plus: Vec<String>,
    pub args: Vec<String>,
    pub find_program: bool,
    pub mode: Mode,
    pub flags: Flags,
}

/// An unknown flag was given.
#[derive(Clone, Copy, PartialEq, Eq, Structural, Debug)]
pub struct ArgsParseError;

/// The parser state as it folds over the tokens.
pub struct ArgsModel {
    pub plus: Seq<Seq<char>>,
    pub args: Seq<Seq<char>>,
    pub find_program: bool,
    pub mode: Mode,
    pub silent: bool,
    pub json: bool,
    pub collecting: bool,
    pub ok: bool,
}

/// The state before any token.
pub open spec fn init_model() -> ArgsModel {
    ArgsModel {
        plus: Seq::empty(),
        args: Seq::empty(),
        find_program: false,
        mode: Mode::X,
        silent: false,
        json: false,
        collecting: false,
        ok: true,
    }
}

/// The token without its leading plus signs.
pub open spec fn trim_plus(s: Seq<char>) -> Seq<char>
    decreases s.len(),
{
    if s.len() > 0 && s[0] == '+' {
        trim_plus(s.skip(1))
    } else {
        s
    }
}

/// The token holds a slash.
pub open spec fn has_slash(s: Seq<char>) -> bool {
    exists|i: int| 0 <= i < s.len() && s[i] == '/'
}

/// Fold the short flags of `-xyz` from position `i` on.
pub open spec fn fold_short(m: ArgsModel, s: Seq<char>, i: int) -> ArgsModel
    decreases s.len() - i,
{
    if i >= s.len() {
        m
    } else {
        let c = s[i];
        if c == 's' {
            fold_short(ArgsModel { silent: true, ..m }, s, i + 1)
        } else if c == 'j' {
            fold_short(ArgsModel { json: true, ..m }, s, i + 1)
        } else if c == 'h' {
            fold_short(ArgsModel { mode: Mode::Help, ..m }, s, i + 1)
        } else if c == 'v' {
            fold_short(ArgsModel { mode: Mode::Version, ..m }, s, i + 1)
        } else {
            ArgsModel { ok: false, ..m }
        }
    }
}

/// One token's effect on the parser state.
pub open spec fn step_model(m: ArgsModel, tok: Seq<char>) -> ArgsModel {
    if !m.ok {
        m
    } else if m.collecting {
        ArgsModel { args: m.args.push(tok), ..m }
    } else if tok.len() > 0 && tok[0] == '+' {
        ArgsModel { plus: m.plus.push(trim_plus(tok)), ..m }
    } else if tok == "--"@ {
        ArgsModel { find_program: false, collecting: true, ..m }
    } else if tok.len() >= 2 && tok[0] == '-' && tok[1] == '-' {
        if tok == "--json"@ {
            ArgsModel { json: true, ..m }
        } else if tok == "--silent"@ {
            ArgsModel { silent: true, ..m }
        } else if tok == "--help"@ {
            ArgsModel { mode: Mode::Help, ..m }
        } else if tok == "--version"@ {
            ArgsModel { mode: Mode::Version, ..m }
        } else {
            ArgsModel { ok: false, ..m }
        }
    } else if tok.len() > 0 && tok[0] == '-' {
        fold_short(m, tok, 1)
    } else {
        ArgsModel {
            find_program: !has_slash(tok),
            collecting: true,
            args: m.args.push(tok),
            ..m
        }
    }
}

/// The parser state after all tokens from position `i` on.
pub open spec fn run_model(m: ArgsModel, argv: Seq<Seq<char>>, i: int) -> ArgsModel
    decreases argv.len() - i,
{
    if i < 0 || i >= argv.len() {
        m
    } else {
        run_model(step_model(m, argv[i]), argv, i + 1)
    }
}

/// The views of the given strings.
pub open spec fn str_views(v: Seq<String>) -> Seq<Seq<char>> {
    v.map_values(|s: String| s@)
}

/// The exec value carries exactly the model's fields.
pub open spec fn args_match(a: Args, m: ArgsModel) -> bool {
    &&& str_views(a.plus@) == m.plus
    &&& str_views(a.args@) == m.args
    &&& a.find_program == m.find_program
    &&& a.mode == m.mode
    &&& a.flags.silent == m.silent
    &&& a.flags.json == m.json
}

#[verifier::loop_isolation(false)]
fn apply_short(
    plus: Vec<String>,
    args: Vec<String>,
    find_program: bool,
    mode: Mode,
    silent: bool,
    json: bool,
    collecting: bool,
    tok: &str,
) -> (r: Result<(Vec<String>, Vec<String>, bool, Mode, bool, bool, bool), ArgsParseError>)
    requires
        tok@.len() >= 1,
    ensures
        ({
            let m0 = ArgsModel {
                plus: str_views(plus@),
                args: str_views(args@),
                find_program,
                mode,
                silent,
                json,
                collecting,
                ok: true,
            };
            let m1 = fold_short(m0, tok@, 1);
            match r {
                Ok(t) => m1.ok && str_views(t.0@) == m1.plus && str_views(t.1@) == m1.args && t.2
                    == m1.find_program && t.3 == m1.mode && t.4 == m1.silent && t.5 == m1.json
                    && t.6 == m1.collecting,
                Err(_) => !m1.ok,
            }
        }),
{
    let ghost m0 = ArgsModel {
        plus: str_views(plus@),
        args: str_views(args@),
        find_program,
        mode,
        silent,
        json,
        collecting,
        ok: true,
    };
    let n = tok.unicode_len();
    let mut mode = mode;
    let mut silent = silent;
    let mut json = json;
    let mut i: usize = 1;
    while i < n
        invariant
            1 <= i <= n,
            n == tok@.len(),
            fold_short(m0, tok@, 1) == fold_short(
                ArgsModel {
                    plus: str_views(plus@),
                    args: str_views(args@),
                    find_program,
                    mode,
                    silent,
                    json,
                    collecting,
                    ok: true,
                },
                tok@,
                i as int,
            ),
        decreases n - i,
    {
        let c = tok.get_char(i);
        if c == 's' {
            silent = true;
        } else if c == 'j' {
            json = true;
        } else if c == 'h' {
            mode = Mode::Help;
        } else if c == 'v' {
            mode = Mode::Version;
        } else {
            return Err(ArgsParseError);
        }
        i += 1;
    }
    Ok((plus, args, find_program, mode, silent, json, collecting))
}

/// Strip every leading plus sign.
fn trim_plus_exec(tok: &str) -> (r: String)
    ensures
        r@ == trim_plus(tok@),
{
    let n = tok.unicode_len();
    let mut i: usize = 0;
    proof {
        assert(tok@.skip(0) =~= tok@);
    }
    while i < n && tok.get_char(i) == '+'
        invariant
            i <= n,
            n == tok@.len(),
            trim_plus(tok@) == trim_plus(tok@.skip(i as int)),
        decreases n - i,
    {
        proof {
            let t = tok@.skip(i as int);
            assert(t[0] == tok@[i as int]);
            assert(t.skip(1) =~= tok@.skip(i + 1));
        }
        i += 1;
    }
    proof {
        let t = tok@.skip(i as int);
        if t.len() > 0 {
            assert(t[0] == tok@[i as int]);
        }
        assert(trim_plus(t) == t);
    }
    let r = tok.substring_char(i, n);
    proof {
        assert(r@ =~= tok@.skip(i as int));
    }
    r.to_owned()
}

/// True when the token holds a slash.
fn has_slash_exec(tok: &str) -> (r: bool)
    ensures
        r == has_slash(tok@),
{
    let n = tok.unicode_len();
    let mut i: usize = 0;
    while i < n
        invariant
            i <= n,
            n == tok@.len(),
            forall|m: int| 0 <= m < i ==> tok@[m] != '/',
        decreases n - i,
    {
        if tok.get_char(i) == '/' {
            return true;
        }
        i += 1;
    }
    false
}

/// True when the token equals the literal.
fn tok_is(tok: &str, lit: &str) -> (r: bool)
    ensures
        r == (tok@ == lit@),
{
    let a = tok.to_owned();
    let b = lit.to_owned();
    a == b
}

/// Parse the invocation tokens, the program name already dropped.
#[verifier::loop_isolation(false)]
pub fn parse(argv: &Vec<String>) -> (r: Result<Args, ArgsParseError>)
    ensures
        ({
            let m = run_model(init_model(), str_views(argv@), 0);
            match r {
                Ok(a) => m.ok && args_match(a, m),
                Err(_) => !m.ok,
            }
        }),
{
    let ghost toks = str_views(argv@);
    let mut plus: Vec<String> = Vec::new();
    let mut args: Vec<String> = Vec::new();
    let mut find_program = false;
    let mut mode = Mode::X;
    let mut silent = false;
    let mut json = false;
    let mut collecting = false;
    let mut i: usize = 0;
    proof {
        assert(str_views(plus@) =~= Seq::<Seq<char>>::empty());
        assert(str_views(args@) =~= Seq::<Seq<char>>::empty());
        assert(ArgsModel {
            plus: str_views(plus@),
            args: str_views(args@),
            find_program,
            mode,
            silent,
            json,
            collecting,
            ok: true,
        } == init_model());
    }
    while i < argv.len()
        invariant
            i <= argv@.len(),
            toks == str_views(argv@),
            run_model(init_model(), toks, 0) == run_model(
                ArgsModel {
                    plus: str_views(plus@),
                    args: str_views(args@),
                    find_program,
                    mode,
                    silent,
                    json,
                    collecting,
                    ok: true,
                },
                toks,
                i as int,
            ),
        decreases argv@.len() - i,
    {
        let ghost m_here = ArgsModel {
            plus: str_views(plus@),
            args: str_views(args@),
            find_program,
            mode,
            silent,
            json,
            collecting,
            ok: true,
        };
        proof {
            assert(toks[i as int] == argv@[i as int]@);
        }
        let tok = &argv[i];
        let n = tok.as_str().unicode_len();
        if collecting {
            args.push(tok.clone());
            proof {
                assert(str_views(args@) =~= m_here.args.push(toks[i as int]));
                assert(step_model(m_here, toks[i as int]) == ArgsModel {
                    args: m_here.args.push(toks[i as int]),
                    ..m_here
                });
            }
        } else if n > 0 && tok.as_str().get_char(0) == '+' {
            let trimmed = trim_plus_exec(tok.as_str());
            plus.push(trimmed);
            proof {
                assert(str_views(plus@) =~= m_here.plus.push(trim_plus(toks[i as int])));
            }
        } else if tok_is(tok.as_str(), "--") {
            find_program = false;
            collecting = true;
        } else if n >= 2 && tok.as_str().get_char(0) == '-' && tok.as_str().get_char(1) == '-' {
            if tok_is(tok.as_str(), "--json") {
                json = true;
            } else if tok_is(tok.as_str(), "--silent") {
                silent = true;
            } else if tok_is(tok.as_str(), "--help") {
                mode = Mode::Help;
            } else if tok_is(tok.as_str(), "--version") {
                mode = Mode::Version;
            } else {
                proof {
                    assert(!step_model(m_here, toks[i as int]).ok);
                    lemma_run_model_fail(
                        step_model(m_here, toks[i as int]),
                        toks,
                        i + 1,
                    );
                }
                return Err(ArgsParseError);
            }
        } else if n > 0 && tok.as_str().get_char(0) == '-' {
            match apply_short(plus, args, find_program, mode, silent, json, collecting,
                tok.as_str()) {
                Ok(t) => {
                    plus = t.0;
                    args = t.1;
                    find_program = t.2;
                    mode = t.3;
                    silent = t.4;
                    json = t.5;
                    collecting = t.6;
                    proof {
                        assert(step_model(m_here, toks[i as int]) == fold_short(
                            m_here,
                            toks[i as int],
                            1,
                        ));
                        lemma_fold_short_ok_fields(m_here, toks[i as int], 1);
                    }
                },
                Err(e) => {
                    proof {
                        assert(step_model(m_here, toks[i as int]) == fold_short(
                            m_here,
                            toks[i as int],
                            1,
                        ));
                        lemma_fold_short_ok_fields(m_here, toks[i as int], 1);
                        lemma_run_model_fail(step_model(m_here, toks[i as int]), toks, i + 1);
                    }
                    return Err(e);
                },
            }
        } else {
            find_program = !has_slash_exec(tok.as_str());
            collecting = true;
            args.push(tok.clone());
            proof {
                assert(str_views(args@) =~= m_here.args.push(toks[i as int]));
            }
        }
        i += 1;
    }
    Ok(Args { plus, args, find_program, mode, flags: Flags { silent, json } })
}

/// A failed state stays failed through the remaining tokens.
proof fn lemma_run_model_fail(m: ArgsModel, argv: Seq<Seq<char>>, i: int)
    requires
        !m.ok,
    ensures
        !run_model(m, argv, i).ok,
    decreases argv.len() - i,
{
    if 0 <= i < argv.len() {
        assert(step_model(m, argv[i]) == m);
        lemma_run_model_fail(m, argv, i + 1);
    }
}

/// Short-flag folding only changes the mode and output flags; failure keeps
/// every field.
proof fn lemma_fold_short_ok_fields(m: ArgsModel, s: Seq<char>, i: int)
    ensures
        fold_short(m, s, i).plus == m.plus,
        fold_short(m, s, i).args == m.args,
        fold_short(m, s, i).find_program == m.find_program,
        fold_short(m, s, i).collecting == m.collecting,
    decreases s.len() - i,
{
    if i < s.len() {
        let c = s[i];
        if c == 's' {
            lemma_fold_short_ok_fields(ArgsModel { silent: true, ..m }, s, i + 1);
        } else if c == 'j' {
            lemma_fold_short_ok_fields(ArgsModel { json: true, ..m }, s, i + 1);
        } else if c == 'h' {
            lemma_fold_short_ok_fields(ArgsModel { mode: Mode::Help, ..m }, s, i + 1);
        } else if c == 'v' {
            lemma_fold_short_ok_fields(ArgsModel { mode: Mode::Version, ..m }, s, i + 1);
        }
    }
}

} // verus!
