//! The supported shells: their names, how each is started, and how an
//! argument is quoted so that the shell sees it as one literal word.
use vstd::prelude::*;
use std::path::PathBuf;
use crate::error::{JkError, JkResult};
use crate::text::{chars_of, string_of, owned, string_eq_str, is_ascii_alnum, str_views};

verus! {

/// `std::path::PathBuf`, carried through unchanged.
#[verifier::external_type_specification]
#[verifier::external_body]
pub struct ExPathBuf(PathBuf);

/// What `PathBuf::from` builds from a string.
pub uninterp spec fn path_from_text(s: Seq<char>) -> PathBuf;

/// `PathBuf::from(&str)`: the path is a function of the text alone.
#[verifier::external_body]
pub(crate) fn path_buf_from(s: &str) -> (p: PathBuf)
    ensures
        p == path_from_text(s@),
{
    PathBuf::from(s)
}

#[derive(Debug, Clone, Copy, PartialEq, Eq, Structural)]
pub enum Shell {
    Bash,
    Bun,
    Sh,
    Zsh,
    Pwsh,
    Fish,
}

/// Everything needed to spawn a shell: program name, argv flags, and env vars to unset.
///
/// `env_remove` closes profile-isolation gaps: bash reads `$BASH_ENV` even with
/// `--noprofile --norc`, and `sh` reads `$ENV`, so both must be explicitly unset.
pub struct ShellInvocation {
    pub program: PathBuf,
    pub args: &'static [&'static str],
    pub env_remove: &'static [&'static str],
}

/// The shell a configuration name stands for.
pub open spec fn shell_named(name: Seq<char>) -> Option<Shell> {
    if name == "bash"@ {
        Some(Shell::Bash)
    } else if name == "bun"@ {
        Some(Shell::Bun)
    } else if name == "sh"@ {
        Some(Shell::Sh)
    } else if name == "zsh"@ {
        Some(Shell::Zsh)
    } else if name == "pwsh"@ {
        Some(Shell::Pwsh)
    } else if name == "fish"@ {
        Some(Shell::Fish)
    } else {
        None
    }
}

/// The message for a shell name that is not supported.
pub open spec fn unsupported_shell_text(name: Seq<char>) -> Seq<char> {
    "unsupported shell: "@ + name
}

/// The program each shell is started as.
pub open spec fn program_text(sh: Shell) -> Seq<char> {
    match sh {
        Shell::Bash => "bash"@,
        Shell::Bun => "bun"@,
        Shell::Sh => "sh"@,
        Shell::Zsh => "zsh"@,
        Shell::Pwsh => "pwsh"@,
        Shell::Fish => "fish"@,
    }
}

/// The flags placed before the command text.
pub open spec fn invocation_args(sh: Shell) -> Seq<Seq<char>> {
    match sh {
        Shell::Bash => seq!["--noprofile"@, "--norc"@, "-c"@],
        Shell::Bun => seq!["--no-env-file"@, "exec"@],
        Shell::Sh => seq!["-c"@],
        Shell::Zsh => seq!["--no-rcs"@, "--no-globalrcs"@, "-c"@],
        Shell::Pwsh => seq!["-NoLogo"@, "-NoProfile"@, "-Command"@],
        Shell::Fish => seq!["--no-config"@, "-c"@],
    }
}

/// The environment variables removed from the child.
pub open spec fn invocation_env_remove(sh: Shell) -> Seq<Seq<char>> {
    match sh {
        Shell::Bash => seq!["BASH_ENV"@],
        Shell::Bun => seq!["BUN_OPTIONS"@],
        Shell::Sh => seq!["ENV"@],
        _ => seq![],
    }
}

/// Characters that never need quoting.
pub open spec fn is_plain(c: char) -> bool {
    is_ascii_alnum(c) || c == '_' || c == '-' || c == '/' || c == '.' || c == ':' || c == '='
        || c == ','
}

pub open spec fn all_plain(s: Seq<char>) -> bool {
    forall|i: int| 0 <= i < s.len() ==> is_plain(#[trigger] s[i])
}

/// Single quotes of POSIX shells: an interior `'` becomes `'\''`.
pub open spec fn posix_escape(s: Seq<char>) -> Seq<char>
    decreases s.len(),
{
    if s.len() == 0 {
        seq![]
    } else {
        posix_escape(s.drop_last()) + if s.last() == '\'' {
            seq!['\'', '\\', '\'', '\'']
        } else {
            seq![s.last()]
        }
    }
}

/// Single quotes of PowerShell: an interior single quote, ASCII or
/// typographic, is doubled.
pub open spec fn pwsh_escape(s: Seq<char>) -> Seq<char>
    decreases s.len(),
{
    if s.len() == 0 {
        seq![]
    } else {
        pwsh_escape(s.drop_last()) + if pwsh_quote_char(s.last()) {
            seq![s.last(), s.last()]
        } else {
            seq![s.last()]
        }
    }
}

/// How a POSIX shell (`sh`, `bash`, Bun Shell) receives `s` as one literal
/// word.
pub open spec fn posix_quoted(s: Seq<char>) -> Seq<char> {
    if s.len() == 0 {
        seq!['\'', '\'']
    } else if all_plain(s) {
        s
    } else {
        seq!['\''] + posix_escape(s) + seq!['\'']
    }
}

/// How zsh receives `s` as one literal word: as for POSIX shells, except
/// that a word starting with `=` is quoted (zsh expands `=cmd` to a path).
pub open spec fn zsh_quoted(s: Seq<char>) -> Seq<char> {
    if s.len() != 0 && all_plain(s) && s[0] != '=' {
        s
    } else {
        seq!['\''] + posix_escape(s) + seq!['\'']
    }
}

/// Single quotes of fish: an interior `'` becomes `'\''` (close, an escaped
/// quote, reopen) and `\` becomes `\\`.
pub open spec fn fish_escape(s: Seq<char>) -> Seq<char>
    decreases s.len(),
{
    if s.len() == 0 {
        seq![]
    } else {
        fish_escape(s.drop_last()) + if s.last() == '\'' {
            seq!['\'', '\\', '\'', '\'']
        } else if s.last() == '\\' {
            seq!['\\', '\\']
        } else {
            seq![s.last()]
        }
    }
}

/// How fish receives `s` as one literal word.
pub open spec fn fish_quoted(s: Seq<char>) -> Seq<char> {
    if s.len() != 0 && all_plain(s) {
        s
    } else {
        seq!['\''] + fish_escape(s) + seq!['\'']
    }
}

/// Characters PowerShell keeps in a bare argument word (`,` would make an
/// array).
pub open spec fn pwsh_plain(c: char) -> bool {
    is_plain(c) && c != ','
}

/// A text PowerShell takes as it is, unquoted.
pub open spec fn pwsh_bare(s: Seq<char>) -> bool {
    s.len() != 0 && forall|i: int| 0 <= i < s.len() ==> pwsh_plain(#[trigger] s[i])
}

/// How PowerShell receives `s` as one literal word.
pub open spec fn pwsh_quoted(s: Seq<char>) -> Seq<char> {
    if pwsh_bare(s) {
        s
    } else {
        seq!['\''] + pwsh_escape(s) + seq!['\'']
    }
}

/// `s` written for the given shell so that it reads back as the one word `s`
/// (each shell's law below states this over a model of how it reads a word).
pub open spec fn quoted(sh: Shell, s: Seq<char>) -> Seq<char> {
    match sh {
        Shell::Pwsh => pwsh_quoted(s),
        Shell::Zsh => zsh_quoted(s),
        Shell::Fish => fish_quoted(s),
        _ => posix_quoted(s),
    }
}

fn char_is_plain(c: char) -> (r: bool)
    ensures
        r == is_plain(c),
{
    ('a' <= c && c <= 'z') || ('A' <= c && c <= 'Z') || ('0' <= c && c <= '9') || c == '_' || c
        == '-' || c == '/' || c == '.' || c == ':' || c == '=' || c == ','
}

fn chars_all_plain(v: &[char]) -> (r: bool)
    ensures
        r == all_plain(v@),
{
    let mut i: usize = 0;
    while i < v.len()
        invariant
            i <= v.len(),
            forall|j: int| 0 <= j < i ==> is_plain(#[trigger] v@[j]),
        decreases v.len() - i,
    {
        if !char_is_plain(v[i]) {
            return false;
        }
        i += 1;
    }
    true
}

/// Wraps in single quotes with `posix` (true) or `pwsh` (false) escaping.
fn quote_wrapped(v: &[char], posix: bool) -> (r: String)
    ensures
        posix ==> r@ == seq!['\''] + posix_escape(v@) + seq!['\''],
        !posix ==> r@ == seq!['\''] + pwsh_escape(v@) + seq!['\''],
{
    let mut out: Vec<char> = Vec::new();
    out.push('\'');
    let mut i: usize = 0;
    while i < v.len()
        invariant
            i <= v.len(),
            posix ==> out@ == seq!['\''] + posix_escape(v@.take(i as int)),
            !posix ==> out@ == seq!['\''] + pwsh_escape(v@.take(i as int)),
        decreases v.len() - i,
    {
        let c = v[i];
        proof {
            assert(v@.take(i + 1).drop_last() =~= v@.take(i as int));
            assert(v@.take(i + 1).last() == c);
        }
        if posix && c == '\'' {
            out.push('\'');
            out.push('\\');
            out.push('\'');
            out.push('\'');
        } else if !posix && (c == '\'' || c == '\u{2018}' || c == '\u{2019}' || c == '\u{201a}' || c
            == '\u{201b}') {
            out.push(c);
            out.push(c);
        } else {
            out.push(c);
        }
        i += 1;
        assert(posix ==> out@ =~= seq!['\''] + posix_escape(v@.take(i as int)));
        assert(!posix ==> out@ =~= seq!['\''] + pwsh_escape(v@.take(i as int)));
    }
    out.push('\'');
    assert(v@.take(i as int) =~= v@);
    assert(posix ==> out@ =~= seq!['\''] + posix_escape(v@) + seq!['\'']);
    assert(!posix ==> out@ =~= seq!['\''] + pwsh_escape(v@) + seq!['\'']);
    string_of(out.as_slice())
}

pub fn quote_posix(s: &str) -> (r: String)
    ensures
        r@ == posix_quoted(s@),
{
    let v = chars_of(s);
    if v.len() == 0 {
        let r = owned("''");
        proof {
            reveal_strlit("''");
            assert(r@ =~= seq!['\'', '\'']);
        }
        return r;
    }
    if chars_all_plain(v.as_slice()) {
        return owned(s);
    }
    quote_wrapped(v.as_slice(), true)
}

pub fn quote_bun(s: &str) -> (r: String)
    ensures
        r@ == posix_quoted(s@),
{
    quote_posix(s)
}

pub fn quote_pwsh(s: &str) -> (r: String)
    ensures
        r@ == pwsh_quoted(s@),
{
    let v = chars_of(s);
    if v.len() != 0 && chars_all_plain(v.as_slice()) && !chars_contain(v.as_slice(), ',') {
        return owned(s);
    }
    quote_wrapped(v.as_slice(), false)
}

/// Whether `c` occurs in `v`.
fn chars_contain(v: &[char], c: char) -> (r: bool)
    ensures
        r == exists|i: int| 0 <= i < v.len() && v@[i] == c,
{
    let mut i: usize = 0;
    while i < v.len()
        invariant
            i <= v.len(),
            forall|j: int| 0 <= j < i ==> v@[j] != c,
        decreases v.len() - i,
    {
        if v[i] == c {
            return true;
        }
        i += 1;
    }
    false
}

/// `s` quoted for zsh.
pub fn quote_zsh(s: &str) -> (r: String)
    ensures
        r@ == zsh_quoted(s@),
{
    let v = chars_of(s);
    if v.len() != 0 && v[0] != '=' && chars_all_plain(v.as_slice()) {
        return owned(s);
    }
    quote_wrapped(v.as_slice(), true)
}

/// `s` quoted for fish.
pub fn quote_fish(s: &str) -> (r: String)
    ensures
        r@ == fish_quoted(s@),
{
    let v = chars_of(s);
    if v.len() != 0 && chars_all_plain(v.as_slice()) {
        return owned(s);
    }
    let mut out: Vec<char> = Vec::new();
    out.push('\'');
    let mut i: usize = 0;
    while i < v.len()
        invariant
            i <= v.len(),
            out@ == seq!['\''] + fish_escape(v@.take(i as int)),
        decreases v.len() - i,
    {
        let c = v[i];
        proof {
            assert(v@.take(i + 1).drop_last() =~= v@.take(i as int));
            assert(v@.take(i + 1).last() == c);
        }
        if c == '\'' {
            out.push('\'');
            out.push('\\');
            out.push('\'');
            out.push('\'');
        } else if c == '\\' {
            out.push('\\');
            out.push('\\');
        } else {
            out.push(c);
        }
        i += 1;
        assert(out@ =~= seq!['\''] + fish_escape(v@.take(i as int)));
    }
    out.push('\'');
    assert(v@.take(i as int) =~= v@);
    assert(out@ =~= seq!['\''] + fish_escape(v@) + seq!['\'']);
    string_of(out.as_slice())
}

impl Shell {
    /// The shell a configuration names; any other name is a schema error.
    pub fn parse(name: &str) -> (r: JkResult<Shell>)
        ensures
            shell_named(name@) matches Some(sh) ==> r == Ok::<Shell, JkError>(sh),
            shell_named(name@) is None ==> (r matches Err(JkError::ConfigSchema(m))
                && m@ == unsupported_shell_text(name@)),
    {
        if string_eq_str(name, "bash") {
            Ok(Shell::Bash)
        } else if string_eq_str(name, "bun") {
            Ok(Shell::Bun)
        } else if string_eq_str(name, "sh") {
            Ok(Shell::Sh)
        } else if string_eq_str(name, "zsh") {
            Ok(Shell::Zsh)
        } else if string_eq_str(name, "pwsh") {
            Ok(Shell::Pwsh)
        } else if string_eq_str(name, "fish") {
            Ok(Shell::Fish)
        } else {
            let mut m = owned("unsupported shell: ");
            m.push_str(name);
            Err(JkError::ConfigSchema(m))
        }
    }

    /// How this shell is started: its program, the flags before the command
    /// text, and the environment variables removed from the child.
    pub fn invocation(&self) -> (r: JkResult<ShellInvocation>)
        ensures
            r matches Ok(inv) && inv.program == path_from_text(program_text(*self))
                && str_views(inv.args@) == invocation_args(*self)
                && str_views(inv.env_remove@) == invocation_env_remove(*self),
    {
        let inv = match self {
            Shell::Bash => ShellInvocation {
                program: path_buf_from("bash"),
                args: &["--noprofile", "--norc", "-c"],
                env_remove: &["BASH_ENV"],
            },
            Shell::Bun => ShellInvocation {
                program: path_buf_from("bun"),
                args: &["--no-env-file", "exec"],
                env_remove: &["BUN_OPTIONS"],
            },
            Shell::Sh => ShellInvocation {
                program: path_buf_from("sh"),
                args: &["-c"],
                env_remove: &["ENV"],
            },
            Shell::Zsh => ShellInvocation {
                program: path_buf_from("zsh"),
                args: &["--no-rcs", "--no-globalrcs", "-c"],
                env_remove: &[],
            },
            Shell::Pwsh => ShellInvocation {
                program: path_buf_from("pwsh"),
                args: &["-NoLogo", "-NoProfile", "-Command"],
                env_remove: &[],
            },
            Shell::Fish => ShellInvocation {
                program: path_buf_from("fish"),
                args: &["--no-config", "-c"],
                env_remove: &[],
            },
        };
        assert(str_views(inv.args@) =~= invocation_args(*self));
        assert(str_views(inv.env_remove@) =~= invocation_env_remove(*self));
        Ok(inv)
    }

    /// `raw` quoted so that this shell sees it as one literal word.
    pub fn quote(&self, raw: &str) -> (r: String)
        ensures
            r@ == quoted(*self, raw@),
    {
        match self {
            Shell::Bash | Shell::Sh => quote_posix(raw),
            Shell::Zsh => quote_zsh(raw),
            Shell::Fish => quote_fish(raw),
            Shell::Bun => quote_bun(raw),
            Shell::Pwsh => quote_pwsh(raw),
        }
    }
}

/// Where a POSIX shell is while it reads a word: outside quotes, inside
/// single quotes, or just after a backslash outside quotes.
pub enum WordState {
    Bare,
    Quoted,
    Escaped,
}

/// One character of a word as a POSIX shell reads it, with the characters
/// kept so far; `None` when the character would end the word or be
/// expanded (a space, `$`, `*` and the like outside quotes).
pub open spec fn word_step(st: Option<(Seq<char>, WordState)>, c: char) -> Option<(Seq<char>, WordState)> {
    match st {
        None => None,
        Some((acc, WordState::Quoted)) => if c == '\'' {
            Some((acc, WordState::Bare))
        } else {
            Some((acc.push(c), WordState::Quoted))
        },
        Some((acc, WordState::Escaped)) => Some((acc.push(c), WordState::Bare)),
        Some((acc, WordState::Bare)) => if c == '\'' {
            Some((acc, WordState::Quoted))
        } else if c == '\\' {
            Some((acc, WordState::Escaped))
        } else if is_plain(c) {
            Some((acc.push(c), WordState::Bare))
        } else {
            None
        },
    }
}

/// The characters of `w` read from state `st`.
pub open spec fn word_read(st: Option<(Seq<char>, WordState)>, w: Seq<char>) -> Option<(Seq<char>, WordState)>
    decreases w.len(),
{
    if w.len() == 0 {
        st
    } else {
        word_step(word_read(st, w.drop_last()), w.last())
    }
}

/// The single word a POSIX shell reads from `w`, if `w` is one word with
/// nothing to expand: quotes removed, escapes resolved.
pub open spec fn posix_word(w: Seq<char>) -> Option<Seq<char>> {
    match word_read(Some((seq![], WordState::Bare)), w) {
        Some((acc, WordState::Bare)) => Some(acc),
        _ => None,
    }
}

proof fn lemma_word_read_concat(st: Option<(Seq<char>, WordState)>, a: Seq<char>, b: Seq<char>)
    ensures
        word_read(st, a + b) == word_read(word_read(st, a), b),
    decreases b.len(),
{
    if b.len() == 0 {
        assert(a + b =~= a);
    } else {
        lemma_word_read_concat(st, a, b.drop_last());
        assert((a + b).drop_last() =~= a + b.drop_last());
        assert((a + b).last() == b.last());
    }
}

proof fn lemma_word_read_plain(acc: Seq<char>, s: Seq<char>)
    requires
        all_plain(s),
    ensures
        word_read(Some((acc, WordState::Bare)), s) == Some((acc + s, WordState::Bare)),
    decreases s.len(),
{
    if s.len() == 0 {
        assert(acc + s =~= acc);
    } else {
        assert(all_plain(s.drop_last())) by {
            assert forall|i: int| 0 <= i < s.drop_last().len() implies is_plain(#[trigger] s.drop_last()[i]) by {
                assert(s.drop_last()[i] == s[i]);
            }
        }
        lemma_word_read_plain(acc, s.drop_last());
        assert(is_plain(s[s.len() - 1]));
        assert((acc + s.drop_last()).push(s.last()) =~= acc + s);
    }
}

proof fn lemma_word_read_snoc(st: Option<(Seq<char>, WordState)>, w: Seq<char>, c: char)
    ensures
        word_read(st, w.push(c)) == word_step(word_read(st, w), c),
{
    assert(w.push(c).drop_last() =~= w);
}

proof fn lemma_word_read_empty(st: Option<(Seq<char>, WordState)>)
    ensures
        word_read(st, Seq::<char>::empty()) == st,
{
}

proof fn lemma_word_read_escaped(acc: Seq<char>, s: Seq<char>)
    ensures
        word_read(Some((acc, WordState::Quoted)), posix_escape(s)) == Some((acc + s, WordState::Quoted)),
    decreases s.len(),
{
    if s.len() == 0 {
        assert(acc + s =~= acc);
        assert(posix_escape(s) =~= Seq::<char>::empty());
    } else {
        let d = s.drop_last();
        lemma_word_read_escaped(acc, d);
        let st0 = Some((acc + d, WordState::Quoted));
        let e = Seq::<char>::empty();
        lemma_word_read_empty(st0);
        if s.last() == '\'' {
            let chunk = e.push('\'').push('\\').push('\'').push('\'');
            assert(chunk =~= seq!['\'', '\\', '\'', '\'']);
            lemma_word_read_snoc(st0, e, '\'');
            lemma_word_read_snoc(st0, e.push('\''), '\\');
            lemma_word_read_snoc(st0, e.push('\'').push('\\'), '\'');
            lemma_word_read_snoc(st0, e.push('\'').push('\\').push('\''), '\'');
            lemma_word_read_concat(Some((acc, WordState::Quoted)), posix_escape(d), chunk);
            assert(word_read(st0, chunk) == Some(((acc + d).push('\''), WordState::Quoted)));
        } else {
            let chunk = e.push(s.last());
            assert(chunk =~= seq![s.last()]);
            lemma_word_read_snoc(st0, e, s.last());
            lemma_word_read_concat(Some((acc, WordState::Quoted)), posix_escape(d), chunk);
        }
        assert((acc + d).push(s.last()) =~= acc + s);
    }
}

proof fn lemma_posix_wrapped(s: Seq<char>)
    ensures
        posix_word(seq!['\''] + posix_escape(s) + seq!['\'']) == Some(s),
{
    let start = Some((Seq::<char>::empty(), WordState::Bare));
    let e = Seq::<char>::empty();
    lemma_word_read_empty(start);
    lemma_word_read_snoc(start, e, '\'');
    let open = e.push('\'');
    assert(open =~= seq!['\'']);
    lemma_word_read_concat(start, open, posix_escape(s));
    lemma_word_read_escaped(seq![], s);
    let body = open + posix_escape(s);
    lemma_word_read_snoc(start, body, '\'');
    assert(body.push('\'') =~= seq!['\''] + posix_escape(s) + seq!['\'']);
    assert(Seq::<char>::empty() + s =~= s);
}

/// Quoting for a POSIX shell gives one word that the shell reads back as
/// exactly the given text: no character is lost, added, expanded, or
/// split off.
pub proof fn law_posix_quote_reads_back(s: Seq<char>)
    ensures
        posix_word(posix_quoted(s)) == Some(s),
{
    if s.len() == 0 {
        lemma_posix_wrapped(s);
        assert(posix_escape(s) =~= Seq::<char>::empty());
        assert(seq!['\''] + posix_escape(s) + seq!['\''] =~= seq!['\'', '\'']);
    } else if all_plain(s) {
        lemma_word_read_plain(seq![], s);
        assert(Seq::<char>::empty() + s =~= s);
    } else {
        lemma_posix_wrapped(s);
    }
}

/// The single word zsh reads from `w`: as a POSIX shell does, except that
/// an unquoted `=` at the start of the word is expanded.
pub open spec fn zsh_word(w: Seq<char>) -> Option<Seq<char>> {
    if w.len() > 0 && w[0] == '=' {
        None
    } else {
        posix_word(w)
    }
}

/// Quoting for zsh gives one word that zsh reads back as exactly the given
/// text.
pub proof fn law_zsh_quote_reads_back(s: Seq<char>)
    ensures
        zsh_word(zsh_quoted(s)) == Some(s),
{
    if s.len() != 0 && all_plain(s) && s[0] != '=' {
        lemma_word_read_plain(seq![], s);
        assert(Seq::<char>::empty() + s =~= s);
    } else {
        lemma_posix_wrapped(s);
    }
}

/// Where fish is while it reads a word: outside quotes, inside single
/// quotes, or just after a backslash inside them.
pub enum FishState {
    Bare,
    BareEscape,
    Quoted,
    QuotedEscape,
}

/// One character of a word as fish reads it; `None` when the character
/// would end the word or be interpreted (a space, `$`, `*`, a backslash
/// outside quotes before anything but `'` or `\\`, and the like). Outside
/// quotes a backslash makes the next `'` or `\\` literal; inside single quotes
/// it escapes only those two, and before any other character it stays.
pub open spec fn fish_step(st: Option<(Seq<char>, FishState)>, c: char) -> Option<(Seq<char>, FishState)> {
    match st {
        None => None,
        Some((acc, FishState::Quoted)) => if c == '\'' {
            Some((acc, FishState::Bare))
        } else if c == '\\' {
            Some((acc, FishState::QuotedEscape))
        } else {
            Some((acc.push(c), FishState::Quoted))
        },
        Some((acc, FishState::QuotedEscape)) => if c == '\'' || c == '\\' {
            Some((acc.push(c), FishState::Quoted))
        } else {
            Some((acc.push('\\').push(c), FishState::Quoted))
        },
        Some((acc, FishState::BareEscape)) => if c == '\'' || c == '\\' {
            Some((acc.push(c), FishState::Bare))
        } else {
            None
        },
        Some((acc, FishState::Bare)) => if c == '\'' {
            Some((acc, FishState::Quoted))
        } else if c == '\\' {
            Some((acc, FishState::BareEscape))
        } else if is_plain(c) {
            Some((acc.push(c), FishState::Bare))
        } else {
            None
        },
    }
}

pub open spec fn fish_read(st: Option<(Seq<char>, FishState)>, w: Seq<char>) -> Option<(Seq<char>, FishState)>
    decreases w.len(),
{
    if w.len() == 0 {
        st
    } else {
        fish_step(fish_read(st, w.drop_last()), w.last())
    }
}

/// The single word fish reads from `w`, if `w` is one word with nothing to
/// interpret.
pub open spec fn fish_word(w: Seq<char>) -> Option<Seq<char>> {
    match fish_read(Some((seq![], FishState::Bare)), w) {
        Some((acc, FishState::Bare)) => Some(acc),
        _ => None,
    }
}

proof fn lemma_fish_read_concat(st: Option<(Seq<char>, FishState)>, a: Seq<char>, b: Seq<char>)
    ensures
        fish_read(st, a + b) == fish_read(fish_read(st, a), b),
    decreases b.len(),
{
    if b.len() == 0 {
        assert(a + b =~= a);
    } else {
        lemma_fish_read_concat(st, a, b.drop_last());
        assert((a + b).drop_last() =~= a + b.drop_last());
        assert((a + b).last() == b.last());
    }
}

proof fn lemma_fish_read_snoc(st: Option<(Seq<char>, FishState)>, w: Seq<char>, c: char)
    ensures
        fish_read(st, w.push(c)) == fish_step(fish_read(st, w), c),
{
    assert(w.push(c).drop_last() =~= w);
}

proof fn lemma_fish_read_plain(acc: Seq<char>, s: Seq<char>)
    requires
        all_plain(s),
    ensures
        fish_read(Some((acc, FishState::Bare)), s) == Some((acc + s, FishState::Bare)),
    decreases s.len(),
{
    if s.len() == 0 {
        assert(acc + s =~= acc);
    } else {
        assert(all_plain(s.drop_last())) by {
            assert forall|i: int| 0 <= i < s.drop_last().len() implies is_plain(#[trigger] s.drop_last()[i]) by {
                assert(s.drop_last()[i] == s[i]);
            }
        }
        lemma_fish_read_plain(acc, s.drop_last());
        assert(is_plain(s[s.len() - 1]));
        assert((acc + s.drop_last()).push(s.last()) =~= acc + s);
    }
}

proof fn lemma_fish_read_escaped(acc: Seq<char>, s: Seq<char>)
    ensures
        fish_read(Some((acc, FishState::Quoted)), fish_escape(s)) == Some((acc + s, FishState::Quoted)),
    decreases s.len(),
{
    if s.len() == 0 {
        assert(acc + s =~= acc);
        assert(fish_escape(s) =~= Seq::<char>::empty());
    } else {
        let d = s.drop_last();
        lemma_fish_read_escaped(acc, d);
        let st0 = Some((acc + d, FishState::Quoted));
        let e = Seq::<char>::empty();
        assert(fish_read(st0, e) == st0);
        if s.last() == '\'' {
            let chunk = e.push('\'').push('\\').push('\'').push('\'');
            assert(chunk =~= seq!['\'', '\\', '\'', '\'']);
            lemma_fish_read_snoc(st0, e, '\'');
            lemma_fish_read_snoc(st0, e.push('\''), '\\');
            lemma_fish_read_snoc(st0, e.push('\'').push('\\'), '\'');
            lemma_fish_read_snoc(st0, e.push('\'').push('\\').push('\''), '\'');
            lemma_fish_read_concat(Some((acc, FishState::Quoted)), fish_escape(d), chunk);
        } else if s.last() == '\\' {
            let chunk = e.push('\\').push(s.last());
            assert(chunk =~= seq!['\\', '\\']);
            lemma_fish_read_snoc(st0, e, '\\');
            lemma_fish_read_snoc(st0, e.push('\\'), s.last());
            lemma_fish_read_concat(Some((acc, FishState::Quoted)), fish_escape(d), chunk);
        } else {
            let chunk = e.push(s.last());
            assert(chunk =~= seq![s.last()]);
            lemma_fish_read_snoc(st0, e, s.last());
            lemma_fish_read_concat(Some((acc, FishState::Quoted)), fish_escape(d), chunk);
        }
        assert((acc + d).push(s.last()) =~= acc + s);
    }
}

/// Quoting for fish gives one word that fish reads back as exactly the
/// given text.
pub proof fn law_fish_quote_reads_back(s: Seq<char>)
    ensures
        fish_word(fish_quoted(s)) == Some(s),
{
    let start = Some((Seq::<char>::empty(), FishState::Bare));
    let e = Seq::<char>::empty();
    if s.len() != 0 && all_plain(s) {
        lemma_fish_read_plain(seq![], s);
        assert(Seq::<char>::empty() + s =~= s);
    } else {
        assert(fish_read(start, e) == start);
        lemma_fish_read_snoc(start, e, '\'');
        let open = e.push('\'');
        assert(open =~= seq!['\'']);
        lemma_fish_read_concat(start, open, fish_escape(s));
        lemma_fish_read_escaped(seq![], s);
        let body = open + fish_escape(s);
        lemma_fish_read_snoc(start, body, '\'');
        assert(body.push('\'') =~= seq!['\''] + fish_escape(s) + seq!['\'']);
        assert(Seq::<char>::empty() + s =~= s);
    }
}

/// The characters PowerShell takes as a single quote: the ASCII one and
/// the typographic ones.
pub open spec fn pwsh_quote_char(c: char) -> bool {
    c == '\'' || c == '\u{2018}' || c == '\u{2019}' || c == '\u{201a}' || c == '\u{201b}'
}

/// Where PowerShell is while it reads an argument: in a bare word, inside
/// single quotes, or just after a quote inside them (the end of the
/// string, or the first of a doubled quote).
pub enum PwshState {
    Bare,
    Quoted,
    QuoteSeen,
}

/// One character of an argument as PowerShell reads it; `None` when the
/// character would end the argument or be interpreted (`,`, a space, `$`,
/// anything right after a closing quote, and the like).
pub open spec fn pwsh_step(st: Option<(Seq<char>, PwshState)>, c: char) -> Option<(Seq<char>, PwshState)> {
    match st {
        None => None,
        Some((acc, PwshState::Quoted)) => if pwsh_quote_char(c) {
            Some((acc, PwshState::QuoteSeen))
        } else {
            Some((acc.push(c), PwshState::Quoted))
        },
        Some((acc, PwshState::QuoteSeen)) => if pwsh_quote_char(c) {
            Some((acc.push(c), PwshState::Quoted))
        } else {
            None
        },
        Some((acc, PwshState::Bare)) => if pwsh_plain(c) {
            Some((acc.push(c), PwshState::Bare))
        } else {
            None
        },
    }
}

pub open spec fn pwsh_read(st: Option<(Seq<char>, PwshState)>, w: Seq<char>) -> Option<(Seq<char>, PwshState)>
    decreases w.len(),
{
    if w.len() == 0 {
        st
    } else {
        pwsh_step(pwsh_read(st, w.drop_last()), w.last())
    }
}

/// The single argument PowerShell reads from `w`: a single-quoted string,
/// or a bare word of letters, digits and `_ - / . : =` (no `,`, which would
/// make an array).
pub open spec fn pwsh_word(w: Seq<char>) -> Option<Seq<char>> {
    if w.len() == 0 {
        None
    } else if pwsh_quote_char(w[0]) {
        match pwsh_read(Some((seq![], PwshState::Quoted)), w.drop_first()) {
            Some((acc, PwshState::QuoteSeen)) => Some(acc),
            _ => None,
        }
    } else if pwsh_plain(w[0]) {
        match pwsh_read(Some((seq![w[0]], PwshState::Bare)), w.drop_first()) {
            Some((acc, PwshState::Bare)) => Some(acc),
            _ => None,
        }
    } else {
        None
    }
}

proof fn lemma_pwsh_read_concat(st: Option<(Seq<char>, PwshState)>, a: Seq<char>, b: Seq<char>)
    ensures
        pwsh_read(st, a + b) == pwsh_read(pwsh_read(st, a), b),
    decreases b.len(),
{
    if b.len() == 0 {
        assert(a + b =~= a);
    } else {
        lemma_pwsh_read_concat(st, a, b.drop_last());
        assert((a + b).drop_last() =~= a + b.drop_last());
        assert((a + b).last() == b.last());
    }
}

proof fn lemma_pwsh_read_snoc(st: Option<(Seq<char>, PwshState)>, w: Seq<char>, c: char)
    ensures
        pwsh_read(st, w.push(c)) == pwsh_step(pwsh_read(st, w), c),
{
    assert(w.push(c).drop_last() =~= w);
}

proof fn lemma_pwsh_read_plain(acc: Seq<char>, s: Seq<char>)
    requires
        forall|i: int| 0 <= i < s.len() ==> pwsh_plain(#[trigger] s[i]),
    ensures
        pwsh_read(Some((acc, PwshState::Bare)), s) == Some((acc + s, PwshState::Bare)),
    decreases s.len(),
{
    if s.len() == 0 {
        assert(acc + s =~= acc);
    } else {
        assert forall|i: int| 0 <= i < s.drop_last().len() implies pwsh_plain(#[trigger] s.drop_last()[i]) by {
            assert(s.drop_last()[i] == s[i]);
        }
        lemma_pwsh_read_plain(acc, s.drop_last());
        assert(pwsh_plain(s[s.len() - 1]));
        assert((acc + s.drop_last()).push(s.last()) =~= acc + s);
    }
}

proof fn lemma_pwsh_read_escaped(acc: Seq<char>, s: Seq<char>)
    ensures
        pwsh_read(Some((acc, PwshState::Quoted)), pwsh_escape(s)) == Some((acc + s, PwshState::Quoted)),
    decreases s.len(),
{
    if s.len() == 0 {
        assert(acc + s =~= acc);
        assert(pwsh_escape(s) =~= Seq::<char>::empty());
    } else {
        let d = s.drop_last();
        lemma_pwsh_read_escaped(acc, d);
        let st0 = Some((acc + d, PwshState::Quoted));
        let e = Seq::<char>::empty();
        assert(pwsh_read(st0, e) == st0);
        if pwsh_quote_char(s.last()) {
            let c = s.last();
            let chunk = e.push(c).push(c);
            assert(chunk =~= seq![c, c]);
            lemma_pwsh_read_snoc(st0, e, c);
            lemma_pwsh_read_snoc(st0, e.push(c), c);
            lemma_pwsh_read_concat(Some((acc, PwshState::Quoted)), pwsh_escape(d), chunk);
        } else {
            let chunk = e.push(s.last());
            assert(chunk =~= seq![s.last()]);
            lemma_pwsh_read_snoc(st0, e, s.last());
            lemma_pwsh_read_concat(Some((acc, PwshState::Quoted)), pwsh_escape(d), chunk);
        }
        assert((acc + d).push(s.last()) =~= acc + s);
    }
}

/// Quoting for PowerShell gives one argument that PowerShell reads back as
/// exactly the given text, typographic single quotes included.
pub proof fn law_pwsh_quote_reads_back(s: Seq<char>)
    ensures
        pwsh_word(pwsh_quoted(s)) == Some(s),
{
    if pwsh_bare(s) {
        let t = s.drop_first();
        assert forall|i: int| 0 <= i < t.len() implies pwsh_plain(#[trigger] t[i]) by {
            assert(t[i] == s[i + 1]);
        }
        lemma_pwsh_read_plain(seq![s[0]], t);
        assert(seq![s[0]] + t =~= s);
    } else {
        let w = seq!['\''] + pwsh_escape(s) + seq!['\''];
        assert(w[0] == '\'');
        let rest = pwsh_escape(s) + seq!['\''];
        assert(w.drop_first() =~= rest);
        lemma_pwsh_read_escaped(seq![], s);
        lemma_pwsh_read_snoc(Some((Seq::<char>::empty(), PwshState::Quoted)), pwsh_escape(s), '\'');
        assert(pwsh_escape(s).push('\'') =~= rest);
        assert(Seq::<char>::empty() + s =~= s);
    }
}

} // verus!
