//! The command line: the runner's own flags are prefixed `++` so they never
//! collide with the underlying command's flags; everything else is the command
//! path and its arguments; `--` ends the flags.
use vstd::prelude::*;
use crate::error::{JkError, JkResult};
use crate::text::{chars_eq_str, chars_of, opt_view, owned, string_of, sub_chars, views};

verus! {

#[derive(Debug, PartialEq)]
pub struct ParsedCli {
    pub path: Vec<String>,
    pub dry_run: bool,
    pub quiet: bool,
    pub no_color: bool,
    pub init: bool,
    pub version: bool,
    pub config_path: Option<String>,
    pub home_path: Option<String>,
}

impl Default for ParsedCli {
    fn default() -> (r: ParsedCli)
        ensures
            r.path@.len() == 0,
            !r.dry_run && !r.quiet && !r.no_color && !r.init && !r.version,
            r.config_path is None && r.home_path is None,
    {
        ParsedCli {
            path: Vec::new(),
            dry_run: false,
            quiet: false,
            no_color: false,
            init: false,
            version: false,
            config_path: None,
            home_path: None,
        }
    }
}

/// The command line read so far.
pub struct ArgvModel {
    pub positional: Seq<Seq<char>>,
    pub dry_run: bool,
    pub quiet: bool,
    pub no_color: bool,
    pub init: bool,
    pub version: bool,
    pub config_path: Option<Seq<char>>,
    pub home_path: Option<Seq<char>>,
    pub after_sep: bool,
}

/// Why a command line is rejected.
pub enum FlagFault {
    Unknown(Seq<char>),
    Malformed(Seq<char>, Seq<char>),
}

pub open spec fn argv_start() -> ArgvModel {
    ArgvModel {
        positional: seq![],
        dry_run: false,
        quiet: false,
        no_color: false,
        init: false,
        version: false,
        config_path: None,
        home_path: None,
        after_sep: false,
    }
}

/// The position of the first `=`, if any.
pub open spec fn first_eq(s: Seq<char>) -> Option<int> {
    if exists|i: int| 0 <= i < s.len() && s[i] == '=' {
        Some(choose|i: int| 0 <= i < s.len() && s[i] == '=' && forall|j: int| 0 <= j < i ==> s[j] != '=')
    } else {
        None
    }
}

pub open spec fn is_boolean_flag(full: Seq<char>) -> bool {
    full == "++dry-run"@ || full == "++quiet"@ || full == "++no-color"@ || full == "++init"@
        || full == "++version"@
}

pub open spec fn with_positional(st: ArgvModel, tok: Seq<char>) -> ArgvModel {
    ArgvModel { positional: st.positional.push(tok), ..st }
}

/// A `++name=value` token.
#[verifier::opaque]
pub open spec fn valued_step(st: ArgvModel, full: Seq<char>, value: Seq<char>) -> Result<
    ArgvModel,
    FlagFault,
> {
    if full == "++config"@ || full == "++home"@ {
        if value.len() == 0 {
            Err(FlagFault::Malformed(full, "value cannot be empty"@))
        } else if full == "++config"@ {
            if st.config_path is Some {
                Err(FlagFault::Malformed(full, "may only be specified once"@))
            } else {
                Ok(ArgvModel { config_path: Some(value), ..st })
            }
        } else {
            if st.home_path is Some {
                Err(FlagFault::Malformed(full, "may only be specified once"@))
            } else {
                Ok(ArgvModel { home_path: Some(value), ..st })
            }
        }
    } else if is_boolean_flag(full) {
        Err(FlagFault::Malformed(full, "boolean flag does not take a value"@))
    } else {
        Err(FlagFault::Unknown(full))
    }
}

/// A `++name` token without `=`.
#[verifier::opaque]
pub open spec fn bare_step(st: ArgvModel, tok: Seq<char>) -> Result<ArgvModel, FlagFault> {
    if tok == "++"@ {
        Err(FlagFault::Malformed("++"@, "missing flag name after '++'"@))
    } else if tok == "++dry-run"@ {
        Ok(ArgvModel { dry_run: true, ..st })
    } else if tok == "++quiet"@ {
        Ok(ArgvModel { quiet: true, ..st })
    } else if tok == "++no-color"@ {
        Ok(ArgvModel { no_color: true, ..st })
    } else if tok == "++init"@ {
        Ok(ArgvModel { init: true, ..st })
    } else if tok == "++version"@ {
        Ok(ArgvModel { version: true, ..st })
    } else if tok == "++config"@ || tok == "++home"@ {
        Err(FlagFault::Malformed(tok, "expected '=<value>'"@))
    } else {
        Err(FlagFault::Unknown(tok))
    }
}

/// Whether a token starts with `++`.
pub open spec fn is_flag_token(tok: Seq<char>) -> bool {
    tok.len() >= 2 && tok[0] == '+' && tok[1] == '+'
}

/// One token applied to the command line read so far.
pub open spec fn argv_step(st: ArgvModel, tok: Seq<char>) -> Result<ArgvModel, FlagFault> {
    if st.after_sep {
        Ok(with_positional(st, tok))
    } else if tok == "--"@ {
        Ok(ArgvModel { after_sep: true, ..st })
    } else if !is_flag_token(tok) {
        Ok(with_positional(st, tok))
    } else {
        flag_step(st, tok)
    }
}

/// A token that starts with `++`.
#[verifier::opaque]
pub open spec fn flag_step(st: ArgvModel, tok: Seq<char>) -> Result<ArgvModel, FlagFault> {
    let rest = tok.skip(2);
    match first_eq(rest) {
        Some(e) => valued_step(st, "++"@ + rest.take(e), rest.skip(e + 1)),
        None => bare_step(st, tok),
    }
}

/// The tokens read left to right; the first rejected token is the error.
pub open spec fn argv_scan(toks: Seq<Seq<char>>) -> Result<ArgvModel, FlagFault>
    decreases toks.len(),
{
    if toks.len() == 0 {
        Ok(argv_start())
    } else {
        match argv_scan(toks.drop_last()) {
            Err(f) => Err(f),
            Ok(st) => argv_step(st, toks.last()),
        }
    }
}

/// `++init` takes no command and no other flag.
pub open spec fn argv_finish(st: ArgvModel) -> Result<ArgvModel, FlagFault> {
    if st.init && st.positional.len() > 0 {
        Err(FlagFault::Malformed("++init"@, "does not take command arguments"@))
    } else if st.init && (st.dry_run || st.quiet || st.no_color || st.version
        || st.config_path is Some || st.home_path is Some) {
        Err(FlagFault::Malformed("++init"@, "cannot be combined with other jk flags"@))
    } else {
        Ok(st)
    }
}

/// What a whole command line means.
pub open spec fn argv_result(toks: Seq<Seq<char>>) -> Result<ArgvModel, FlagFault> {
    match argv_scan(toks) {
        Err(f) => Err(f),
        Ok(st) => argv_finish(st),
    }
}

/// The parsed command line holds what the model says.
pub open spec fn cli_is(cli: ParsedCli, st: ArgvModel) -> bool {
    &&& views(cli.path@) == st.positional
    &&& cli.dry_run == st.dry_run
    &&& cli.quiet == st.quiet
    &&& cli.no_color == st.no_color
    &&& cli.init == st.init
    &&& cli.version == st.version
    &&& opt_view(cli.config_path) == st.config_path
    &&& opt_view(cli.home_path) == st.home_path
}

/// The rejection a fault stands for.
pub open spec fn fault_is(e: JkError, f: FlagFault) -> bool {
    match f {
        FlagFault::Unknown(full) => e matches JkError::UnknownFlag(x) && x@ == full,
        FlagFault::Malformed(n, rsn) => e matches JkError::MalformedFlag { name, reason } && name@
            == n && reason@ == rsn,
    }
}

fn malformed(name: &str, reason: &str) -> (e: JkError)
    ensures
        e matches JkError::MalformedFlag { name: n, reason: r } && n@ == name@ && r@ == reason@,
{
    JkError::MalformedFlag { name: owned(name), reason: owned(reason) }
}

fn malformed_chars(name: &[char], reason: &str) -> (e: JkError)
    ensures
        e matches JkError::MalformedFlag { name: n, reason: r } && n@ == name@ && r@ == reason@,
{
    JkError::MalformedFlag { name: string_of(name), reason: owned(reason) }
}

/// The position of the first `=`, if any.
fn find_eq(v: &[char]) -> (r: Option<usize>)
    ensures
        r matches Some(e) ==> e < v.len() && first_eq(v@) == Some(e as int),
        r is None ==> first_eq(v@) is None,
{
    let mut i: usize = 0;
    while i < v.len()
        invariant
            i <= v.len(),
            forall|j: int| 0 <= j < i ==> v@[j] != '=',
        decreases v.len() - i,
    {
        if v[i] == '=' {
            proof {
                let e = choose|k: int| 0 <= k < v@.len() && v@[k] == '=' && forall|j: int| 0 <= j < k ==> v@[j] != '=';
                assert(v@[i as int] == '=');
                if e < i {
                    assert(v@[e] != '=');
                }
                if e > i {
                    assert(v@[i as int] != '=');
                }
                assert(e == i);
            }
            return Some(i);
        }
        i += 1;
    }
    None
}

fn prefixed(name: &[char]) -> (full: Vec<char>)
    ensures
        full@ == "++"@ + name@,
{
    let mut full: Vec<char> = Vec::new();
    full.push('+');
    full.push('+');
    let mut k: usize = 0;
    while k < name.len()
        invariant
            k <= name.len(),
            full@ == seq!['+', '+'] + name@.take(k as int),
        decreases name.len() - k,
    {
        full.push(name[k]);
        k += 1;
        assert(full@ =~= seq!['+', '+'] + name@.take(k as int));
    }
    proof {
        reveal_strlit("++");
        assert(name@.take(k as int) =~= name@);
        assert(full@ =~= "++"@ + name@);
    }
    full
}

/// Applies a `++name=value` token.
fn apply_valued(out: &mut ParsedCli, full: &[char], value: &[char], Ghost(st): Ghost<ArgvModel>) -> (r: JkResult<()>)
    requires
        cli_is(*old(out), st),
    ensures
        match valued_step(st, full@, value@) {
            Ok(st2) => r is Ok && cli_is(*final(out), st2),
            Err(f) => r matches Err(e) && fault_is(e, f),
        },
{
    reveal(valued_step);
    let is_config = chars_eq_str(full, "++config");
    let is_home = chars_eq_str(full, "++home");
    if is_config || is_home {
        if value.len() == 0 {
            return Err(malformed_chars(full, "value cannot be empty"));
        }
        if is_config {
            if out.config_path.is_some() {
                return Err(malformed_chars(full, "may only be specified once"));
            }
            out.config_path = Some(string_of(value));
        } else {
            if out.home_path.is_some() {
                return Err(malformed_chars(full, "may only be specified once"));
            }
            out.home_path = Some(string_of(value));
        }
        Ok(())
    } else if chars_eq_str(full, "++dry-run") || chars_eq_str(full, "++quiet") || chars_eq_str(
        full,
        "++no-color",
    ) || chars_eq_str(full, "++init") || chars_eq_str(full, "++version") {
        Err(malformed_chars(full, "boolean flag does not take a value"))
    } else {
        Err(JkError::UnknownFlag(string_of(full)))
    }
}

/// Applies a `++name` token without `=`.
fn apply_bare(out: &mut ParsedCli, t: &[char], Ghost(st): Ghost<ArgvModel>) -> (r: JkResult<()>)
    requires
        cli_is(*old(out), st),
    ensures
        match bare_step(st, t@) {
            Ok(st2) => r is Ok && cli_is(*final(out), st2),
            Err(f) => r matches Err(e) && fault_is(e, f),
        },
{
    reveal(bare_step);
    if chars_eq_str(t, "++") {
        return Err(malformed("++", "missing flag name after '++'"));
    }
    if chars_eq_str(t, "++dry-run") {
        out.dry_run = true;
    } else if chars_eq_str(t, "++quiet") {
        out.quiet = true;
    } else if chars_eq_str(t, "++no-color") {
        out.no_color = true;
    } else if chars_eq_str(t, "++init") {
        out.init = true;
    } else if chars_eq_str(t, "++version") {
        out.version = true;
    } else if chars_eq_str(t, "++config") || chars_eq_str(t, "++home") {
        return Err(malformed_chars(t, "expected '=<value>'"));
    } else {
        return Err(JkError::UnknownFlag(string_of(t)));
    }
    Ok(())
}

/// Applies a token that starts with `++`.
fn apply_flag(out: &mut ParsedCli, t: &[char], Ghost(st): Ghost<ArgvModel>) -> (r: JkResult<()>)
    requires
        cli_is(*old(out), st),
        t.len() >= 2,
    ensures
        match flag_step(st, t@) {
            Ok(st2) => r is Ok && cli_is(*final(out), st2) && st2.after_sep == st.after_sep,
            Err(f) => r matches Err(e) && fault_is(e, f),
        },
{
    reveal(flag_step);
    reveal(valued_step);
    reveal(bare_step);
    let rest = sub_chars(t, 2, t.len());
    assert(rest@ =~= t@.skip(2));
    match find_eq(rest.as_slice()) {
        Some(e) => {
            let name = sub_chars(rest.as_slice(), 0, e);
            let value = sub_chars(rest.as_slice(), e + 1, rest.len());
            assert(name@ =~= rest@.take(e as int));
            assert(value@ =~= rest@.skip(e + 1));
            let full = prefixed(name.as_slice());
            assert(first_eq(t@.skip(2)) == Some(e as int));
            assert(flag_step(st, t@) == valued_step(st, full@, value@));
            apply_valued(out, full.as_slice(), value.as_slice(), Ghost(st))
        },
        None => {
            assert(flag_step(st, t@) == bare_step(st, t@));
            apply_bare(out, t, Ghost(st))
        },
    }
}

/// Applies one token.
fn apply_token(out: &mut ParsedCli, after_sep: &mut bool, tok: &String, Ghost(st): Ghost<ArgvModel>) -> (r: JkResult<()>)
    requires
        cli_is(*old(out), st),
        st.after_sep == *old(after_sep),
    ensures
        match argv_step(st, tok@) {
            Ok(st2) => r is Ok && cli_is(*final(out), st2) && st2.after_sep == *final(after_sep),
            Err(f) => r matches Err(e) && fault_is(e, f),
        },
{
    let t = chars_of(tok.as_str());
    if *after_sep {
        out.path.push(tok.clone());
        assert(views(out.path@) =~= st.positional.push(t@));
        Ok(())
    } else if chars_eq_str(t.as_slice(), "--") {
        *after_sep = true;
        Ok(())
    } else if !(t.len() >= 2 && t[0] == '+' && t[1] == '+') {
        out.path.push(tok.clone());
        assert(views(out.path@) =~= st.positional.push(t@));
        Ok(())
    } else {
        apply_flag(out, t.as_slice(), Ghost(st))
    }
}

pub proof fn lemma_argv_err_prefix(toks: Seq<Seq<char>>, k: int)
    requires
        0 <= k <= toks.len(),
        argv_scan(toks.take(k)) is Err,
    ensures
        argv_scan(toks) == argv_scan(toks.take(k)),
    decreases toks.len() - k,
{
    if k < toks.len() {
        assert(toks.drop_last().take(k) =~= toks.take(k));
        lemma_argv_err_prefix(toks.drop_last(), k);
    } else {
        assert(toks.take(k) =~= toks);
    }
}

/// Reads the command line: `++` flags anywhere before `--`, everything else is
/// the command path and its arguments.
pub fn parse_argv(argv: Vec<String>) -> (r: JkResult<ParsedCli>)
    ensures
        match argv_result(views(argv@)) {
            Ok(st) => r matches Ok(cli) && cli_is(cli, st),
            Err(f) => r matches Err(e) && fault_is(e, f),
        },
{
    let ghost toks = views(argv@);
    let mut out = ParsedCli::default();
    let mut after_sep = false;
    let mut i: usize = 0;
    assert(toks.take(0) =~= Seq::<Seq<char>>::empty());
    assert(views(out.path@) =~= Seq::<Seq<char>>::empty());
    while i < argv.len()
        invariant
            i <= argv.len(),
            toks == views(argv@),
            argv_scan(toks.take(i as int)) matches Ok(st) && cli_is(out, st) && st.after_sep
                == after_sep,
        decreases argv.len() - i,
    {
        let ghost st = argv_scan(toks.take(i as int))->Ok_0;
        proof {
            assert(toks.take(i + 1).drop_last() =~= toks.take(i as int));
            assert(toks.take(i + 1).last() == argv@[i as int]@);
        }
        match apply_token(&mut out, &mut after_sep, &argv[i], Ghost(st)) {
            Ok(()) => {},
            Err(e) => {
                proof {
                    lemma_argv_err_prefix(toks, i + 1);
                }
                return Err(e);
            },
        }
        i += 1;
    }
    assert(toks.take(i as int) =~= toks);
    if out.init {
        if out.path.len() > 0 {
            return Err(malformed("++init", "does not take command arguments"));
        }
        if out.dry_run || out.quiet || out.no_color || out.version || out.config_path.is_some()
            || out.home_path.is_some() {
            return Err(malformed("++init", "cannot be combined with other jk flags"));
        }
    }
    Ok(out)
}

proof fn lemma_after_sep(toks: Seq<Seq<char>>, st: ArgvModel, post: Seq<Seq<char>>)
    requires
        argv_scan(toks) == Ok::<ArgvModel, FlagFault>(st),
        st.after_sep,
    ensures
        argv_scan(toks + post) == Ok::<ArgvModel, FlagFault>(ArgvModel { positional: st.positional + post, ..st }),
    decreases post.len(),
{
    if post.len() == 0 {
        assert(toks + post =~= toks);
        assert(st.positional + post =~= st.positional);
    } else {
        lemma_after_sep(toks, st, post.drop_last());
        assert((toks + post).drop_last() =~= toks + post.drop_last());
        assert((toks + post).last() == post.last());
        assert((st.positional + post.drop_last()).push(post.last()) =~= st.positional + post);
    }
}

/// `--` ends the runner's flags: every token after the first `--` is a
/// positional token, taken in order and unchanged, even one that starts
/// with `++` or is another `--`.
pub proof fn law_after_separator_all_positional(pre: Seq<Seq<char>>, post: Seq<Seq<char>>)
    requires
        argv_scan(pre) matches Ok(st) && !st.after_sep,
    ensures
        argv_scan(pre + seq!["--"@] + post) matches Ok(st2) && st2.after_sep && st2.positional
            == argv_scan(pre)->Ok_0.positional + post,
{
    let st = argv_scan(pre)->Ok_0;
    let with_sep = pre + seq!["--"@];
    assert(with_sep.drop_last() =~= pre);
    assert(with_sep.last() == "--"@);
    let st1 = ArgvModel { after_sep: true, ..st };
    assert(argv_scan(with_sep) == Ok::<ArgvModel, FlagFault>(st1));
    lemma_after_sep(with_sep, st1, post);
}

/// A flag that only switches something on.
pub open spec fn switch_flag(t: Seq<char>) -> bool {
    t == "++dry-run"@ || t == "++quiet"@ || t == "++no-color"@ || t == "++version"@
}

/// A command line with no `--` whose `++` tokens are all switches.
pub open spec fn switches_only(toks: Seq<Seq<char>>) -> bool {
    forall|i: int| 0 <= i < toks.len() ==> #[trigger] toks[i] != "--"@ && (is_flag_token(toks[i]) ==> switch_flag(toks[i]))
}

/// The tokens that do not start with `++`, in order.
pub open spec fn non_flags(toks: Seq<Seq<char>>) -> Seq<Seq<char>>
    decreases toks.len(),
{
    if toks.len() == 0 {
        seq![]
    } else if is_flag_token(toks.last()) {
        non_flags(toks.drop_last())
    } else {
        non_flags(toks.drop_last()).push(toks.last())
    }
}

/// What a command line of switches and positional tokens means.
pub open spec fn switches_model(toks: Seq<Seq<char>>) -> ArgvModel {
    ArgvModel {
        positional: non_flags(toks),
        dry_run: toks.contains("++dry-run"@),
        quiet: toks.contains("++quiet"@),
        no_color: toks.contains("++no-color"@),
        init: false,
        version: toks.contains("++version"@),
        config_path: None,
        home_path: None,
        after_sep: false,
    }
}

proof fn lemma_no_eq(t: Seq<char>)
    requires
        forall|i: int| 0 <= i < t.len() ==> t[i] != '=',
    ensures
        first_eq(t) is None,
{
}

proof fn lemma_switch_step(st: ArgvModel, tok: Seq<char>)
    requires
        switch_flag(tok),
        !st.after_sep,
    ensures
        argv_step(st, tok) == Ok::<ArgvModel, FlagFault>(ArgvModel {
            dry_run: st.dry_run || tok == "++dry-run"@,
            quiet: st.quiet || tok == "++quiet"@,
            no_color: st.no_color || tok == "++no-color"@,
            version: st.version || tok == "++version"@,
            ..st
        }),
{
    reveal(flag_step);
    reveal(bare_step);
    reveal_strlit("++dry-run");
    reveal_strlit("++quiet");
    reveal_strlit("++no-color");
    reveal_strlit("++version");
    reveal_strlit("--");
    reveal_strlit("++");
    reveal_strlit("++init");
    assert(tok.len() >= 2 && tok[0] == '+' && tok[1] == '+');
    assert(tok != "--"@);
    assert(tok != "++"@);
    assert forall|i: int| 0 <= i < tok.skip(2).len() implies tok.skip(2)[i] != '=' by {
        assert(tok.skip(2)[i] == tok[i + 2]);
    }
    lemma_no_eq(tok.skip(2));
    let r = bare_step(st, tok);
    assert("++dry-run"@[2] != "++version"@[2]);
    assert("++dry-run"@.len() != "++quiet"@.len());
    assert("++dry-run"@.len() != "++no-color"@.len());
    assert("++quiet"@.len() != "++no-color"@.len());
    assert("++quiet"@.len() != "++version"@.len());
    assert("++no-color"@.len() != "++version"@.len());
    assert(flag_step(st, tok) == r);
    if tok == "++dry-run"@ {
        assert(r == Ok::<ArgvModel, FlagFault>(ArgvModel { dry_run: true, ..st }));
    } else if tok == "++quiet"@ {
        assert(tok != "++dry-run"@);
        assert(r == Ok::<ArgvModel, FlagFault>(ArgvModel { quiet: true, ..st }));
    } else if tok == "++no-color"@ {
        assert(tok != "++dry-run"@ && tok != "++quiet"@);
        assert(r == Ok::<ArgvModel, FlagFault>(ArgvModel { no_color: true, ..st }));
    } else {
        assert(tok != "++dry-run"@ && tok != "++quiet"@ && tok != "++no-color"@ && tok != "++init"@);
        assert(r == Ok::<ArgvModel, FlagFault>(ArgvModel { version: true, ..st }));
    }
}

proof fn lemma_switches_scan(toks: Seq<Seq<char>>)
    requires
        switches_only(toks),
    ensures
        argv_scan(toks) == Ok::<ArgvModel, FlagFault>(switches_model(toks)),
    decreases toks.len(),
{
    reveal_strlit("++dry-run");
    reveal_strlit("++quiet");
    reveal_strlit("++no-color");
    reveal_strlit("++version");
    if toks.len() > 0 {
        let d = toks.drop_last();
        let t = toks.last();
        assert(switches_only(d)) by {
            assert forall|i: int| 0 <= i < d.len() implies #[trigger] d[i] != "--"@ && (is_flag_token(d[i]) ==> switch_flag(d[i])) by {
                assert(d[i] == toks[i]);
            }
        }
        lemma_switches_scan(d);
        assert(t == toks[toks.len() - 1]);
        let st = switches_model(d);
        assert forall|x: Seq<char>| #[trigger] toks.contains(x) == (d.contains(x) || t == x) by {
            if toks.contains(x) {
                let i = choose|i: int| 0 <= i < toks.len() && toks[i] == x;
                if i < d.len() {
                    assert(d[i] == toks[i]);
                }
            }
            if d.contains(x) {
                let i = choose|i: int| 0 <= i < d.len() && d[i] == x;
                assert(toks[i] == d[i]);
            }
        }
        if is_flag_token(t) {
            lemma_switch_step(st, t);
        } else {
            assert(t != "--"@);
            assert(!switch_flag(t));
        }
    } else {
        assert(non_flags(toks) =~= Seq::<Seq<char>>::empty());
    }
}

/// Switches may stand anywhere: on a command line with no `--` whose `++`
/// tokens are all of `++dry-run`, `++quiet`, `++no-color` and `++version`,
/// the command path is the other tokens in order, and each switch is on
/// exactly when it occurs.
pub proof fn law_switches_anywhere(toks: Seq<Seq<char>>)
    requires
        switches_only(toks),
    ensures
        argv_result(toks) == Ok::<ArgvModel, FlagFault>(switches_model(toks)),
{
    lemma_switches_scan(toks);
}

/// A flag name the runner knows.
pub open spec fn known_flag(full: Seq<char>) -> bool {
    is_boolean_flag(full) || full == "++config"@ || full == "++home"@
}

/// `++name`, or `++name=value` when a value is given.
pub open spec fn flag_token(name: Seq<char>, value: Option<Seq<char>>) -> Seq<char> {
    match value {
        None => "++"@ + name,
        Some(v) => "++"@ + name + seq!['='] + v,
    }
}

proof fn lemma_first_eq_at(n: Seq<char>, v: Seq<char>)
    requires
        forall|i: int| 0 <= i < n.len() ==> n[i] != '=',
    ensures
        first_eq(n + seq!['='] + v) == Some(n.len() as int),
{
    let s = n + seq!['='] + v;
    assert(s[n.len() as int] == '=');
    assert forall|j: int| 0 <= j < n.len() implies s[j] != '=' by {
        assert(s[j] == n[j]);
    }
    let c = choose|i: int| 0 <= i < s.len() && s[i] == '=' && forall|j: int| 0 <= j < i ==> s[j] != '=';
    if c < n.len() {
        assert(s[c] == n[c]);
    }
}

proof fn lemma_unknown_step(st: ArgvModel, name: Seq<char>, value: Option<Seq<char>>)
    requires
        !st.after_sep,
        name.len() > 0,
        forall|i: int| 0 <= i < name.len() ==> name[i] != '=',
        !known_flag("++"@ + name),
    ensures
        argv_step(st, flag_token(name, value)) == Err::<ArgvModel, FlagFault>(FlagFault::Unknown("++"@ + name)),
{
    reveal(flag_step);
    reveal(bare_step);
    reveal(valued_step);
    reveal_strlit("++");
    reveal_strlit("--");
    let t = flag_token(name, value);
    let full = "++"@ + name;
    assert(t[0] == '+' && t[1] == '+');
    assert(t.len() != 2 ==> t != "--"@);
    assert(t.len() > 2);
    let rest = t.skip(2);
    match value {
        None => {
            assert(rest =~= name);
            assert(first_eq(rest) is None);
            assert(t == full);
            assert(t != "++"@);
        },
        Some(v) => {
            assert(rest =~= name + seq!['='] + v);
            lemma_first_eq_at(name, v);
            assert("++"@ + rest.take(name.len() as int) =~= full);
        },
    }
}

/// An unknown flag is refused with its name, whether or not it carries a
/// value, and an earlier `++version` does not let it through: for a name
/// without `=` that the runner does not know, `++name` and `++name=value`
/// are refused as the unknown flag `++name`, alone or after `++version`.
pub proof fn law_unknown_flag_refused(name: Seq<char>, value: Option<Seq<char>>)
    requires
        name.len() > 0,
        forall|i: int| 0 <= i < name.len() ==> name[i] != '=',
        !known_flag("++"@ + name),
    ensures
        argv_result(seq![flag_token(name, value)]) == Err::<ArgvModel, FlagFault>(FlagFault::Unknown("++"@ + name)),
        argv_result(seq!["++version"@, flag_token(name, value)]) == Err::<ArgvModel, FlagFault>(
            FlagFault::Unknown("++"@ + name),
        ),
{
    let t = flag_token(name, value);
    let one = seq![t];
    assert(one.drop_last() =~= Seq::<Seq<char>>::empty());
    assert(argv_scan(one.drop_last()) == Ok::<ArgvModel, FlagFault>(argv_start()));
    assert(one.last() == t);
    lemma_unknown_step(argv_start(), name, value);
    let two = seq!["++version"@, t];
    let first = seq!["++version"@];
    assert(two.drop_last() =~= first);
    assert(first.drop_last() =~= Seq::<Seq<char>>::empty());
    reveal_strlit("++version");
    reveal_strlit("++dry-run");
    reveal_strlit("++quiet");
    reveal_strlit("++no-color");
    assert("++dry-run"@[2] != "++version"@[2]);
    assert("++version"@.len() != "++quiet"@.len());
    assert("++version"@.len() != "++no-color"@.len());
    assert(argv_scan(first.drop_last()) == Ok::<ArgvModel, FlagFault>(argv_start()));
    assert(first.last() == "++version"@);
    assert(two.last() == t);
    lemma_switch_step(argv_start(), "++version"@);
    let st = ArgvModel { version: true, ..argv_start() };
    assert(argv_scan(first) == Ok::<ArgvModel, FlagFault>(st));
    lemma_unknown_step(st, name, value);
}

/// `++config` or `++home`.
pub open spec fn valued_flag(home: bool) -> Seq<char> {
    if home {
        "++home"@
    } else {
        "++config"@
    }
}

/// The command line `toks` with its `++` tokens other than the one at `k`
/// all switches, and no `--`.
pub open spec fn switches_except(toks: Seq<Seq<char>>, k: int) -> bool {
    forall|i: int| 0 <= i < toks.len() && i != k ==> #[trigger] toks[i] != "--"@ && (is_flag_token(toks[i])
        ==> switch_flag(toks[i]))
}

/// What such a command line means when the token at `k` sets `++config` (or
/// `++home`) to `v`.
pub open spec fn valued_model(toks: Seq<Seq<char>>, home: bool, v: Seq<char>) -> ArgvModel {
    if home {
        ArgvModel { home_path: Some(v), ..switches_model(toks) }
    } else {
        ArgvModel { config_path: Some(v), ..switches_model(toks) }
    }
}

proof fn lemma_valued_flag_step(st: ArgvModel, home: bool, v: Seq<char>)
    requires
        !st.after_sep,
        v.len() > 0,
        home ==> st.home_path is None,
        !home ==> st.config_path is None,
    ensures
        argv_step(st, valued_flag(home) + seq!['='] + v) == Ok::<ArgvModel, FlagFault>(
            if home {
                ArgvModel { home_path: Some(v), ..st }
            } else {
                ArgvModel { config_path: Some(v), ..st }
            },
        ),
{
    let name = if home { "home"@ } else { "config"@ };
    let full = valued_flag(home);
    let tok = full + seq!['='] + v;
    assert(full =~= "++"@ + name) by {
        reveal_strlit("++home");
        reveal_strlit("++config");
        reveal_strlit("home");
        reveal_strlit("config");
        reveal_strlit("++");
    }
    assert(forall|i: int| 0 <= i < name.len() ==> name[i] != '=') by {
        reveal_strlit("home");
        reveal_strlit("config");
    }
    assert(is_flag_token(tok) && tok != "--"@) by {
        reveal_strlit("++");
        reveal_strlit("--");
        assert(tok[0] == '+' && tok[1] == '+');
        assert(tok.len() > 2);
    }
    let rest = tok.skip(2);
    assert(rest =~= name + seq!['='] + v) by {
        reveal_strlit("++");
        assert(tok =~= seq!['+', '+'] + name + seq!['='] + v);
    }
    lemma_first_eq_at(name, v);
    assert("++"@ + rest.take(name.len() as int) =~= full);
    assert(rest.skip(name.len() as int + 1) =~= v);
    assert(first_eq(rest) == Some(name.len() as int));
    assert(flag_step(st, tok) == valued_step(st, full, v)) by {
        reveal(flag_step);
    }
    assert(argv_step(st, tok) == flag_step(st, tok));
    if home {
        assert(full == "++home"@);
        assert("++home"@ != "++config"@) by {
            reveal_strlit("++home");
            reveal_strlit("++config");
            assert("++home"@.len() != "++config"@.len());
        }
        assert(valued_step(st, full, v) == Ok::<ArgvModel, FlagFault>(ArgvModel { home_path: Some(v), ..st })) by {
            reveal(valued_step);
        }
    } else {
        assert(full == "++config"@);
        assert(valued_step(st, full, v) == Ok::<ArgvModel, FlagFault>(ArgvModel { config_path: Some(v), ..st })) by {
            reveal(valued_step);
        }
    }
}

proof fn lemma_valued_scan(toks: Seq<Seq<char>>, k: int, home: bool, v: Seq<char>)
    requires
        0 <= k < toks.len(),
        toks[k] == valued_flag(home) + seq!['='] + v,
        v.len() > 0,
        switches_except(toks, k),
    ensures
        argv_scan(toks) == Ok::<ArgvModel, FlagFault>(valued_model(toks, home, v)),
    decreases toks.len(),
{
    reveal_strlit("++dry-run");
    reveal_strlit("++quiet");
    reveal_strlit("++no-color");
    reveal_strlit("++version");
    reveal_strlit("++home");
    reveal_strlit("++config");
    let d = toks.drop_last();
    let t = toks.last();
    assert(t == toks[toks.len() - 1]);
    let tok = valued_flag(home) + seq!['='] + v;
    assert(tok[2] == (if home { 'h' } else { 'c' }));
    assert(!switch_flag(tok)) by {
        assert("++dry-run"@[2] == 'd');
        assert("++quiet"@[2] == 'q');
        assert("++no-color"@[2] == 'n');
        assert("++version"@[2] == 'v');
    }
    assert(is_flag_token(tok));
    assert forall|x: Seq<char>| #[trigger] toks.contains(x) == (d.contains(x) || t == x) by {
        if toks.contains(x) {
            let i = choose|i: int| 0 <= i < toks.len() && toks[i] == x;
            if i < d.len() {
                assert(d[i] == toks[i]);
            }
        }
        if d.contains(x) {
            let i = choose|i: int| 0 <= i < d.len() && d[i] == x;
            assert(toks[i] == d[i]);
        }
    }
    if k == toks.len() - 1 {
        assert(switches_only(d)) by {
            assert forall|i: int| 0 <= i < d.len() implies #[trigger] d[i] != "--"@ && (is_flag_token(d[i]) ==> switch_flag(d[i])) by {
                assert(d[i] == toks[i]);
            }
        }
        lemma_switches_scan(d);
        lemma_valued_flag_step(switches_model(d), home, v);
        assert(t == tok);
    } else {
        assert(switches_except(d, k)) by {
            assert forall|i: int| 0 <= i < d.len() && i != k implies #[trigger] d[i] != "--"@ && (is_flag_token(d[i])
                ==> switch_flag(d[i])) by {
                assert(d[i] == toks[i]);
            }
        }
        assert(d[k] == toks[k]);
        lemma_valued_scan(d, k, home, v);
        let st = valued_model(d, home, v);
        assert(t != "--"@);
        if is_flag_token(t) {
            assert(switch_flag(t));
            lemma_switch_step(st, t);
        }
    }
}

/// `++config=<path>` and `++home=<path>` stand anywhere before `--`, as the
/// switches do: on a command line with no `--` whose other `++` tokens are
/// switches, the one valued flag sets its path whatever its position, the
/// command path is the tokens without `++` in order, and each switch is on
/// exactly when it occurs.
pub proof fn law_valued_flags_anywhere(toks: Seq<Seq<char>>, k: int, home: bool, v: Seq<char>)
    requires
        0 <= k < toks.len(),
        toks[k] == valued_flag(home) + seq!['='] + v,
        v.len() > 0,
        switches_except(toks, k),
    ensures
        argv_result(toks) == Ok::<ArgvModel, FlagFault>(valued_model(toks, home, v)),
{
    lemma_valued_scan(toks, k, home, v);
}

} // verus!
