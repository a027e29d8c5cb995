//! Placeholder templates: `#{N}` (the N-th argument, quoted), `#{@}` (the
//! arguments after the highest index this template uses, each quoted), and the
//! raw forms `#{N!}` / `#{@!}` that skip quoting. Only the two-character
//! sequence `#{` opens a placeholder; every other character is literal.
use vstd::prelude::*;
use crate::error::{JkError, JkResult};
use crate::shell::{Shell, quoted};
use crate::text::{all_digits, chars_of, decimal, decimal_string, digit_value, digits_value, is_digit, join, lemma_join_step, owned, push_chars, str_views, string_of, sub_chars, join_chars, trim, trim_chars, trim_end, trim_start, vec_views, views};

verus! {

/// `max_n` is 0 when no positional placeholders are used.
#[derive(Debug, Clone, Copy, PartialEq, Eq, Structural)]
pub struct PlaceholderShape {
    pub max_n: usize,
    pub has_at: bool,
}

/// One element of a scanned template.
#[derive(Debug, Clone, Copy, PartialEq, Eq, Structural)]
pub enum Token {
    /// A literal character.
    Lit(char),
    /// `#{index}` or `#{index!}`; indices start at 1.
    Arg { index: usize, raw: bool },
    /// `#{@}` or `#{@!}`.
    Rest { raw: bool },
}

/// Why a template is rejected; each carries the placeholder's inner text.
pub enum TemplateFault {
    /// `#{` with no closing `}`.
    Unclosed(Seq<char>),
    /// The inner text is neither `@` nor a number.
    NotIndex(Seq<char>),
    /// The inner text reads as a number but is 0 or not in canonical form.
    BadIndex(Seq<char>),
}

pub open spec fn fault_text(f: TemplateFault) -> Seq<char> {
    match f {
        TemplateFault::Unclosed(inner) => "unclosed placeholder: '#{"@ + inner + "'"@,
        TemplateFault::NotIndex(inner) => "invalid placeholder '#{"@ + inner + "}'"@,
        TemplateFault::BadIndex(inner) => "invalid placeholder '#{"@ + inner
            + "}' (indices are 1-based positive integers)"@,
    }
}

/// The first position at or after `j` holding `}`, or the length when there is none.
pub open spec fn find_close(s: Seq<char>, j: int) -> int
    decreases s.len() - j,
{
    if j >= s.len() {
        s.len() as int
    } else if s[j] == '}' {
        j
    } else {
        find_close(s, j + 1)
    }
}

pub proof fn lemma_find_close(s: Seq<char>, j: int)
    requires
        0 <= j <= s.len(),
    ensures
        j <= find_close(s, j) <= s.len(),
        find_close(s, j) < s.len() ==> s[find_close(s, j)] == '}',
        forall|k: int| j <= k < find_close(s, j) ==> s[k] != '}',
    decreases s.len() - j,
{
    if j < s.len() && s[j] != '}' {
        lemma_find_close(s, j + 1);
    }
}

/// A canonical positive index: digits only, no leading zero, and within `usize`.
pub open spec fn index_text(k: Seq<char>) -> bool {
    &&& k.len() > 0
    &&& all_digits(k)
    &&& k[0] != '0'
    &&& digits_value(k) <= usize::MAX
}

/// Text that `usize::from_str` accepts: an optional `+`, then digits within range.
pub open spec fn parses_as_usize(k: Seq<char>) -> bool {
    let d = if k.len() > 0 && k[0] == '+' {
        k.drop_first()
    } else {
        k
    };
    d.len() > 0 && all_digits(d) && digits_value(d) <= usize::MAX
}

/// What the text between `#{` and `}` stands for.
pub open spec fn classify(inner: Seq<char>) -> Result<Token, TemplateFault> {
    let raw = inner.len() > 0 && inner.last() == '!';
    let kind = if raw {
        inner.drop_last()
    } else {
        inner
    };
    if kind == seq!['@'] {
        Ok(Token::Rest { raw })
    } else if index_text(kind) {
        Ok(Token::Arg { index: digits_value(kind) as usize, raw })
    } else if parses_as_usize(kind) {
        Err(TemplateFault::BadIndex(inner))
    } else {
        Err(TemplateFault::NotIndex(inner))
    }
}

/// The template from position `i` on, scanned into tokens; the first bad
/// placeholder is the error.
pub open spec fn scan_from(s: Seq<char>, i: int) -> Result<Seq<Token>, TemplateFault>
    decreases s.len() - i,
{
    if i < 0 || i >= s.len() {
        Ok(seq![])
    } else if s[i] == '#' && i + 1 < s.len() && s[i + 1] == '{' {
        let close = find_close(s, i + 2);
        if close >= s.len() {
            Err(TemplateFault::Unclosed(s.subrange(i + 2, s.len() as int)))
        } else {
            proof {
                lemma_find_close(s, i + 2);
            }
            match classify(s.subrange(i + 2, close)) {
                Err(f) => Err(f),
                Ok(tk) => match scan_from(s, close + 1) {
                    Ok(rest) => Ok(seq![tk] + rest),
                    Err(f) => Err(f),
                },
            }
        }
    } else {
        match scan_from(s, i + 1) {
            Ok(rest) => Ok(seq![Token::Lit(s[i])] + rest),
            Err(f) => Err(f),
        }
    }
}

/// The whole template scanned into tokens.
pub open spec fn scan(s: Seq<char>) -> Result<Seq<Token>, TemplateFault> {
    scan_from(s, 0)
}

pub open spec fn prepend(p: Seq<Token>, r: Result<Seq<Token>, TemplateFault>) -> Result<
    Seq<Token>,
    TemplateFault,
> {
    match r {
        Ok(x) => Ok(p + x),
        Err(f) => Err(f),
    }
}

/// The highest index among the tokens, 0 when there is none.
pub open spec fn max_index(ps: Seq<Token>) -> nat
    decreases ps.len(),
{
    if ps.len() == 0 {
        0
    } else {
        let m = max_index(ps.drop_last());
        match ps.last() {
            Token::Arg { index, .. } => if index > m {
                index as nat
            } else {
                m
            },
            _ => m,
        }
    }
}

/// Some token is `#{@}` or `#{@!}`.
pub open spec fn has_rest(ps: Seq<Token>) -> bool {
    exists|j: int| 0 <= j < ps.len() && #[trigger] ps[j] is Rest
}

/// Some token is an index placeholder for `n`.
pub open spec fn has_index(ps: Seq<Token>, n: nat) -> bool {
    exists|j: int| 0 <= j < ps.len() && (#[trigger] ps[j] matches Token::Arg { index, .. } && index == n)
}

/// Every index is at least 1.
pub open spec fn indices_positive(ps: Seq<Token>) -> bool {
    forall|j: int| 0 <= j < ps.len() ==> (#[trigger] ps[j] matches Token::Arg { index, .. } ==> index >= 1)
}

pub open spec fn shape_of(ps: Seq<Token>) -> PlaceholderShape {
    PlaceholderShape { max_n: max_index(ps) as usize, has_at: has_rest(ps) }
}

/// All templates scanned in order and their tokens concatenated; the first
/// rejected template gives the error.
pub open spec fn scan_all(ts: Seq<Seq<char>>) -> Result<Seq<Token>, TemplateFault>
    decreases ts.len(),
{
    if ts.len() == 0 {
        Ok(seq![])
    } else {
        match scan_all(ts.drop_last()) {
            Err(f) => Err(f),
            Ok(acc) => match scan(ts.last()) {
                Err(f) => Err(f),
                Ok(ps) => Ok(acc + ps),
            },
        }
    }
}

/// The smallest index in `i..=m` that no token uses.
pub open spec fn first_gap(ps: Seq<Token>, m: nat, i: nat) -> Option<nat>
    decreases m + 1 - i,
{
    if i > m {
        None
    } else if !has_index(ps, i) {
        Some(i)
    } else {
        first_gap(ps, m, i + 1)
    }
}

pub open spec fn gap_text(i: nat, m: nat) -> Seq<char> {
    "non-contiguous placeholder indices: missing #{"@ + decimal(i) + "} (max index used is #{"@
        + decimal(m) + "})"@
}

/// The shape of a whole command sequence: the indices used anywhere must be
/// exactly `1..=max`.
pub open spec fn aggregate(ts: Seq<Seq<char>>) -> Result<PlaceholderShape, Seq<char>> {
    match scan_all(ts) {
        Err(f) => Err(fault_text(f)),
        Ok(ps) => match first_gap(ps, max_index(ps), 1) {
            Some(i) => Err(gap_text(i, max_index(ps))),
            None => Ok(shape_of(ps)),
        },
    }
}

/// Each argument as the placeholder inserts it.
pub open spec fn inserted(args: Seq<Seq<char>>, sh: Shell, raw: bool) -> Seq<Seq<char>> {
    args.map_values(|a: Seq<char>| if raw { a } else { quoted(sh, a) })
}

/// What one token renders to; `m` is the template's highest index.
pub open spec fn render_token(tk: Token, args: Seq<Seq<char>>, sh: Shell, m: nat) -> Seq<char> {
    match tk {
        Token::Lit(c) => seq![c],
        Token::Arg { index, raw } => if raw {
            args[index - 1]
        } else {
            quoted(sh, args[index - 1])
        },
        Token::Rest { raw } => join(inserted(args.skip(m as int), sh, raw), seq![' ']),
    }
}

/// What a scanned template renders to.
pub open spec fn render(ps: Seq<Token>, args: Seq<Seq<char>>, sh: Shell, m: nat) -> Seq<char>
    decreases ps.len(),
{
    if ps.len() == 0 {
        seq![]
    } else {
        render(ps.drop_last(), args, sh, m) + render_token(ps.last(), args, sh, m)
    }
}

/// The lines of a text, split at each `\n`.
pub open spec fn split_lines(s: Seq<char>) -> Seq<Seq<char>>
    decreases s.len(),
{
    if s.len() == 0 {
        seq![seq![]]
    } else {
        let p = split_lines(s.drop_last());
        if s.last() == '\n' {
            p.push(seq![])
        } else {
            p.update(p.len() - 1, p.last().push(s.last()))
        }
    }
}

/// The trimmed lines that are not empty.
pub open spec fn kept_lines(ls: Seq<Seq<char>>) -> Seq<Seq<char>>
    decreases ls.len(),
{
    if ls.len() == 0 {
        seq![]
    } else {
        let k = kept_lines(ls.drop_last());
        let t = trim(ls.last());
        if t.len() == 0 {
            k
        } else {
            k.push(t)
        }
    }
}

/// A multi-line command joined into one line: each line trimmed, empty lines
/// dropped, the rest joined by single spaces.
pub open spec fn folded(s: Seq<char>) -> Seq<char> {
    join(kept_lines(split_lines(s)), seq![' '])
}

pub proof fn lemma_split_lines_nonempty(s: Seq<char>)
    ensures
        split_lines(s).len() >= 1,
    decreases s.len(),
{
    if s.len() > 0 {
        lemma_split_lines_nonempty(s.drop_last());
    }
}

pub proof fn lemma_digits_value_prefix(s: Seq<char>, k: int)
    requires
        0 <= k <= s.len(),
    ensures
        digits_value(s.take(k)) <= digits_value(s),
    decreases s.len() - k,
{
    if k < s.len() {
        assert(s.drop_last().take(k) =~= s.take(k));
        lemma_digits_value_prefix(s.drop_last(), k);
    } else {
        assert(s.take(k) =~= s);
    }
}

pub proof fn lemma_digits_value_positive(s: Seq<char>)
    requires
        s.len() > 0,
        all_digits(s),
        s[0] != '0',
    ensures
        digits_value(s) >= 1,
    decreases s.len(),
{
    if s.len() > 1 {
        assert(s.drop_last()[0] == s[0]);
        lemma_digits_value_positive(s.drop_last());
    } else {
        assert(is_digit(s[0]));
    }
}

/// The value of a string of digits, or `None` when some character is not a
/// digit or the value does not fit in `usize`.
fn digits_to_usize(d: &[char]) -> (r: Option<usize>)
    ensures
        r == (if all_digits(d@) && digits_value(d@) <= usize::MAX {
            Some(digits_value(d@) as usize)
        } else {
            None::<usize>
        }),
{
    let mut acc: usize = 0;
    let mut i: usize = 0;
    while i < d.len()
        invariant
            i <= d.len(),
            all_digits(d@.take(i as int)),
            acc == digits_value(d@.take(i as int)),
        decreases d.len() - i,
    {
        let c = d[i];
        proof {
            assert(d@.take(i + 1).drop_last() =~= d@.take(i as int));
            assert(d@.take(i + 1).last() == c);
        }
        if !('0' <= c && c <= '9') {
            assert(!is_digit(d@[i as int]));
            return None;
        }
        let v = ((c as u32) - ('0' as u32)) as usize;
        assert(v == digit_value(c));
        if acc > (usize::MAX - v) / 10 {
            proof {
                let q = (usize::MAX - v) / 10;
                assert(acc * 10 + v > usize::MAX) by (nonlinear_arith)
                    requires
                        acc > q,
                        q == (usize::MAX - v) / 10,
                        v <= 9,
                ;
                assert(digits_value(d@.take(i + 1)) == acc * 10 + v);
                lemma_digits_value_prefix(d@, i + 1);
            }
            return None;
        }
        proof {
            let q = (usize::MAX - v) / 10;
            assert(acc * 10 + v <= usize::MAX) by (nonlinear_arith)
                requires
                    acc <= q,
                    q == (usize::MAX - v) / 10,
                    v <= 9,
            ;
        }
        acc = acc * 10 + v;
        i += 1;
        assert(all_digits(d@.take(i as int))) by {
            assert forall|j: int| 0 <= j < i implies is_digit(#[trigger] d@.take(i as int)[j]) by {
                if j < i - 1 {
                    assert(d@.take(i as int)[j] == d@.take(i - 1)[j]);
                }
            }
        }
    }
    assert(d@.take(i as int) =~= d@);
    Some(acc)
}

/// What the text between `#{` and `}` stands for, or the message rejecting it.
fn classify_inner(inner: &[char]) -> (r: Result<Token, String>)
    ensures
        match classify(inner@) {
            Ok(tk) => r == Ok::<Token, String>(tk),
            Err(f) => r matches Err(m) && m@ == fault_text(f),
        },
{
    let raw = inner.len() > 0 && inner[inner.len() - 1] == '!';
    let kind: Vec<char> = if raw {
        sub_chars(inner, 0, inner.len() - 1)
    } else {
        sub_chars(inner, 0, inner.len())
    };
    assert(raw ==> kind@ =~= inner@.drop_last());
    assert(!raw ==> kind@ =~= inner@);
    if kind.len() == 1 && kind[0] == '@' {
        assert(kind@ =~= seq!['@']);
        return Ok(Token::Rest { raw });
    }
    assert(kind@ != seq!['@']);
    let value = digits_to_usize(kind.as_slice());
    if kind.len() > 0 && kind[0] != '0' {
        if let Some(n) = value {
            return Ok(Token::Arg { index: n, raw });
        }
    }
    // Not an index: decide between the two messages as `usize::from_str` would.
    let numeric = if kind.len() > 0 && kind[0] == '+' {
        let rest = sub_chars(kind.as_slice(), 1, kind.len());
        assert(rest@ =~= kind@.drop_first());
        rest.len() > 0 && digits_to_usize(rest.as_slice()).is_some()
    } else {
        kind.len() > 0 && value.is_some()
    };
    let mut m = owned("invalid placeholder '#{");
    push_chars(&mut m, inner);
    if numeric {
        m.push_str("}' (indices are 1-based positive integers)");
    } else {
        m.push_str("}'");
    }
    Err(m)
}

/// The template scanned into tokens, or the message for its first bad placeholder.
fn scan_template(t: &[char]) -> (r: Result<Vec<Token>, String>)
    ensures
        match scan(t@) {
            Ok(ps) => r matches Ok(v) && v@ == ps,
            Err(f) => r matches Err(m) && m@ == fault_text(f),
        },
{
    let mut out: Vec<Token> = Vec::new();
    let mut i: usize = 0;
    while i < t.len()
        invariant
            i <= t.len(),
            scan(t@) == prepend(out@, scan_from(t@, i as int)),
        decreases t.len() - i,
    {
        if t[i] == '#' && i + 1 < t.len() && t[i + 1] == '{' {
            let mut j: usize = i + 2;
            while j < t.len() && t[j] != '}'
                invariant
                    i + 2 <= j <= t.len(),
                    find_close(t@, i + 2) == find_close(t@, j as int),
                decreases t.len() - j,
            {
                j += 1;
            }
            assert(find_close(t@, j as int) == j);
            if j >= t.len() {
                let mut m = owned("unclosed placeholder: '#{");
                let inner = sub_chars(t, i + 2, t.len());
                push_chars(&mut m, inner.as_slice());
                m.push_str("'");
                return Err(m);
            }
            let inner = sub_chars(t, i + 2, j);
            match classify_inner(inner.as_slice()) {
                Err(m) => {
                    return Err(m);
                },
                Ok(tk) => {
                    proof {
                        let r = scan_from(t@, j + 1);
                        assert(scan_from(t@, i as int) == prepend(seq![tk], r));
                        lemma_prepend_one(out@, tk, r);
                    }
                    out.push(tk);
                    i = j + 1;
                },
            }
        } else {
            proof {
                let r = scan_from(t@, i + 1);
                let lit = Token::Lit(t@[i as int]);
                assert(scan_from(t@, i as int) == prepend(seq![lit], r));
                lemma_prepend_one(out@, lit, r);
            }
            out.push(Token::Lit(t[i]));
            i += 1;
        }
    }
    assert(out@ + seq![] =~= out@);
    Ok(out)
}

pub proof fn lemma_prepend_one(out: Seq<Token>, tk: Token, r: Result<Seq<Token>, TemplateFault>)
    ensures
        prepend(out, prepend(seq![tk], r)) == prepend(out.push(tk), r),
{
    match r {
        Ok(x) => {
            assert(out + (seq![tk] + x) =~= out.push(tk) + x);
        },
        Err(_) => {},
    }
}

pub proof fn lemma_positive_cons(tk: Token, rest: Seq<Token>)
    requires
        indices_positive(rest),
        tk matches Token::Arg { index, .. } ==> index >= 1,
    ensures
        indices_positive(seq![tk] + rest),
{
    let ps = seq![tk] + rest;
    assert forall|j: int| 0 <= j < ps.len() implies (#[trigger] ps[j] matches Token::Arg { index, .. } ==> index >= 1) by {
        if j > 0 {
            assert(ps[j] == rest[j - 1]);
        }
    }
}

pub proof fn lemma_scan_from_positive(s: Seq<char>, i: int)
    ensures
        scan_from(s, i) matches Ok(ps) ==> indices_positive(ps),
    decreases s.len() - i,
{
    if 0 <= i < s.len() {
        if s[i] == '#' && i + 1 < s.len() && s[i + 1] == '{' {
            let close = find_close(s, i + 2);
            lemma_find_close(s, i + 2);
            if close < s.len() {
                lemma_scan_from_positive(s, close + 1);
                let inner = s.subrange(i + 2, close);
                let raw = inner.len() > 0 && inner.last() == '!';
                let kind = if raw { inner.drop_last() } else { inner };
                if index_text(kind) {
                    lemma_digits_value_positive(kind);
                }
                if let Ok(tk) = classify(inner) {
                    if let Ok(rest) = scan_from(s, close + 1) {
                        lemma_positive_cons(tk, rest);
                    }
                }
            }
        } else {
            lemma_scan_from_positive(s, i + 1);
            if let Ok(rest) = scan_from(s, i + 1) {
                lemma_positive_cons(Token::Lit(s[i]), rest);
            }
        }
    }
}

pub proof fn lemma_max_index_bounds(ps: Seq<Token>)
    ensures
        max_index(ps) <= usize::MAX,
        forall|j: int| 0 <= j < ps.len() ==> (#[trigger] ps[j] matches Token::Arg { index, .. } ==> index <= max_index(ps)),
        max_index(ps) > 0 ==> has_index(ps, max_index(ps)),
    decreases ps.len(),
{
    if ps.len() > 0 {
        let q = ps.drop_last();
        lemma_max_index_bounds(q);
        assert forall|j: int| 0 <= j < ps.len() implies (#[trigger] ps[j] matches Token::Arg { index, .. } ==> index <= max_index(ps)) by {
            if j < ps.len() - 1 {
                assert(ps[j] == q[j]);
            }
        }
        if max_index(ps) > 0 {
            if max_index(ps) == max_index(q) {
                let j = choose|j: int| 0 <= j < q.len() && (#[trigger] q[j] matches Token::Arg { index, .. } && index == max_index(q));
                assert(ps[j] == q[j]);
            } else {
                assert(ps[ps.len() - 1] == ps.last());
            }
        }
    }
}

/// The shape of a scanned template.
fn shape_of_tokens(ps: &[Token]) -> (s: PlaceholderShape)
    ensures
        s == shape_of(ps@),
{
    let mut m: usize = 0;
    let mut h = false;
    let mut i: usize = 0;
    while i < ps.len()
        invariant
            i <= ps.len(),
            m == max_index(ps@.take(i as int)),
            h == has_rest(ps@.take(i as int)),
        decreases ps.len() - i,
    {
        proof {
            let t = ps@.take(i + 1);
            assert(t.drop_last() =~= ps@.take(i as int));
            assert(t.last() == ps@[i as int]);
            if has_rest(t) && !has_rest(ps@.take(i as int)) {
                let j = choose|j: int| 0 <= j < t.len() && #[trigger] t[j] is Rest;
                if j < i {
                    assert(ps@.take(i as int)[j] == t[j]);
                }
            }
            if has_rest(ps@.take(i as int)) {
                let j = choose|j: int| 0 <= j < i && #[trigger] ps@.take(i as int)[j] is Rest;
                assert(t[j] == ps@.take(i as int)[j]);
            }
            if ps@[i as int] is Rest {
                assert(t[i as int] is Rest);
            }
        }
        match ps[i] {
            Token::Arg { index, .. } => {
                if index > m {
                    m = index;
                }
            },
            Token::Rest { .. } => {
                h = true;
            },
            Token::Lit(_) => {},
        }
        i += 1;
    }
    assert(ps@.take(i as int) =~= ps@);
    PlaceholderShape { max_n: m, has_at: h }
}

/// The shape of a single template: the highest index it uses (0 when none)
/// and whether it uses `#{@}`. Index contiguity is not checked here — that is
/// enforced by `aggregate_shape`.
pub fn analyze(template: &str) -> (r: JkResult<PlaceholderShape>)
    ensures
        match scan(template@) {
            Ok(ps) => r == Ok::<PlaceholderShape, JkError>(shape_of(ps)),
            Err(f) => r matches Err(JkError::ConfigSchema(m)) && m@ == fault_text(f),
        },
{
    let t = chars_of(template);
    match scan_template(t.as_slice()) {
        Ok(ps) => Ok(shape_of_tokens(ps.as_slice())),
        Err(m) => Err(JkError::ConfigSchema(m)),
    }
}

/// Whether some token is an index placeholder for `n`.
fn tokens_have_index(ps: &[Token], n: usize) -> (r: bool)
    ensures
        r == has_index(ps@, n as nat),
{
    let mut i: usize = 0;
    while i < ps.len()
        invariant
            i <= ps.len(),
            forall|j: int| 0 <= j < i ==> !(#[trigger] ps@[j] matches Token::Arg { index, .. } && index == n),
        decreases ps.len() - i,
    {
        if let Token::Arg { index, .. } = ps[i] {
            if index == n {
                assert(ps@[i as int] matches Token::Arg { index, .. } && index == n);
                return true;
            }
        }
        i += 1;
    }
    false
}

/// Enforce leaf-level index contiguity across all items in a sequence.
/// `["echo #{1}", "echo #{2}"]` is valid even though each item looks incomplete.
pub fn aggregate_shape(templates: &[&str]) -> (r: JkResult<PlaceholderShape>)
    ensures
        match aggregate(str_views(templates@)) {
            Ok(s) => r == Ok::<PlaceholderShape, JkError>(s),
            Err(m) => r matches Err(JkError::ConfigSchema(e)) && e@ == m,
        },
{
    let ghost ts = str_views(templates@);
    let mut all: Vec<Token> = Vec::new();
    let mut k: usize = 0;
    while k < templates.len()
        invariant
            k <= templates.len(),
            ts == str_views(templates@),
            scan_all(ts.take(k as int)) == Ok::<Seq<Token>, TemplateFault>(all@),
        decreases templates.len() - k,
    {
        proof {
            assert(ts.take(k + 1).drop_last() =~= ts.take(k as int));
            assert(ts.take(k + 1).last() == templates@[k as int]@);
        }
        let t = chars_of(templates[k]);
        match scan_template(t.as_slice()) {
            Err(m) => {
                proof {
                    lemma_scan_all_err_prefix(ts, k as int + 1);
                }
                return Err(JkError::ConfigSchema(m));
            },
            Ok(ps) => {
                let ghost before = all@;
                let mut i: usize = 0;
                while i < ps.len()
                    invariant
                        i <= ps.len(),
                        all@ == before + ps@.take(i as int),
                    decreases ps.len() - i,
                {
                    all.push(ps[i]);
                    i += 1;
                    assert(all@ =~= before + ps@.take(i as int));
                }
                assert(ps@.take(i as int) =~= ps@);
            },
        }
        k += 1;
    }
    assert(ts.take(k as int) =~= ts);
    let shape = shape_of_tokens(all.as_slice());
    let m = shape.max_n;
    proof {
        lemma_max_index_bounds(all@);
    }
    let mut i: usize = 1;
    while i <= m
        invariant
            1 <= i,
            m == max_index(all@),
            i <= m + 1,
            first_gap(all@, m as nat, 1) == first_gap(all@, m as nat, i as nat),
            ts == str_views(templates@),
            scan_all(ts) == Ok::<Seq<Token>, TemplateFault>(all@),
            shape == shape_of(all@),
        ensures
            first_gap(all@, m as nat, 1) == None::<nat>,
        decreases m + 1 - i,
    {
        if !tokens_have_index(all.as_slice(), i) {
            assert(first_gap(all@, m as nat, i as nat) == Some(i as nat));
            let mut e = owned("non-contiguous placeholder indices: missing #{");
            let d = decimal_string(i);
            e.push_str(d.as_str());
            e.push_str("} (max index used is #{");
            let dm = decimal_string(m);
            e.push_str(dm.as_str());
            e.push_str("})");
            return Err(JkError::ConfigSchema(e));
        }
        if i == m {
            assert(first_gap(all@, m as nat, (i + 1) as nat) == None::<nat>);
            assert(first_gap(all@, m as nat, 1) == None::<nat>);
            break;
        }
        i += 1;
    }
    assert(first_gap(all@, m as nat, 1) == None::<nat>);
    Ok(shape)
}

pub proof fn lemma_scan_all_err_prefix(ts: Seq<Seq<char>>, k: int)
    requires
        0 <= k <= ts.len(),
        scan_all(ts.take(k)) is Err,
    ensures
        scan_all(ts) == scan_all(ts.take(k)),
    decreases ts.len() - k,
{
    if k < ts.len() {
        assert(ts.drop_last().take(k) =~= ts.take(k));
        lemma_scan_all_err_prefix(ts.drop_last(), k);
    } else {
        assert(ts.take(k) =~= ts);
    }
}

/// Checks the number of arguments against a command's shape: every index
/// needs an argument, and extra arguments need a `#{@}` to consume them.
pub fn validate_args(args: &[String], shape: PlaceholderShape) -> (r: JkResult<()>)
    ensures
        args.len() < shape.max_n ==> (r matches Err(JkError::MissingArg(p)) && p@ == "#{"@
            + decimal((args.len() + 1) as nat) + "}"@),
        args.len() > shape.max_n && !shape.has_at ==> (r matches Err(JkError::ExtraArgs(n)) && n
            == args.len() - shape.max_n),
        r is Ok <==> (shape.max_n <= args.len() && (args.len() == shape.max_n || shape.has_at)),
{
    if args.len() < shape.max_n {
        let mut p = owned("#{");
        let d = decimal_string(args.len() + 1);
        p.push_str(d.as_str());
        p.push_str("}");
        return Err(JkError::MissingArg(p));
    }
    if args.len() > shape.max_n && !shape.has_at {
        return Err(JkError::ExtraArgs(args.len() - shape.max_n));
    }
    Ok(())
}

/// Appends one argument as a placeholder inserts it.
fn push_inserted(out: &mut String, a: &String, shell: Shell, raw: bool)
    ensures
        final(out)@ == old(out)@ + if raw {
            a@
        } else {
            quoted(shell, a@)
        },
{
    if raw {
        out.push_str(a.as_str());
    } else {
        let q = shell.quote(a.as_str());
        out.push_str(q.as_str());
    }
}

/// Appends what `#{@}` / `#{@!}` renders to: the arguments from `m` on, joined by spaces.
fn push_rest(out: &mut String, args: &[String], shell: Shell, raw: bool, m: usize)
    requires
        m <= args.len(),
    ensures
        final(out)@ == old(out)@ + join(inserted(views(args@).skip(m as int), shell, raw), seq![' ']),
{
    let ghost parts = inserted(views(args@).skip(m as int), shell, raw);
    let mut k: usize = m;
    while k < args.len()
        invariant
            m <= k <= args.len(),
            parts == inserted(views(args@).skip(m as int), shell, raw),
            parts.len() == args.len() - m,
            out@ == old(out)@ + join(parts.take(k - m), seq![' ']),
        decreases args.len() - k,
    {
        proof {
            lemma_join_step(parts, seq![' '], (k - m) as int);
            assert(parts[(k - m) as int] == (if raw { args@[k as int]@ } else { quoted(shell, args@[k as int]@) }));
        }
        if k > m {
            out.push(' ');
        }
        push_inserted(out, &args[k], shell, raw);
        k += 1;
        assert(k - m == 1 ==> out@ =~= old(out)@ + join(parts.take(k - m), seq![' ']));
        assert(k - m > 1 ==> out@ =~= old(out)@ + join(parts.take(k - m), seq![' ']));
    }
    assert(parts.take(k - m) =~= parts);
}

/// Renders scanned tokens.
fn render_tokens(ps: &[Token], args: &[String], shell: Shell, m: usize) -> (r: String)
    requires
        m <= args.len(),
        indices_positive(ps@),
        forall|j: int| 0 <= j < ps.len() ==> (#[trigger] ps@[j] matches Token::Arg { index, .. } ==> index <= args.len()),
    ensures
        r@ == render(ps@, views(args@), shell, m as nat),
{
    let mut out = String::new();
    let mut i: usize = 0;
    while i < ps.len()
        invariant
            i <= ps.len(),
            m <= args.len(),
            indices_positive(ps@),
            forall|j: int| 0 <= j < ps.len() ==> (#[trigger] ps@[j] matches Token::Arg { index, .. } ==> index <= args.len()),
            out@ == render(ps@.take(i as int), views(args@), shell, m as nat),
        decreases ps.len() - i,
    {
        proof {
            let t = ps@.take(i + 1);
            assert(t.drop_last() =~= ps@.take(i as int));
            assert(t.last() == ps@[i as int]);
        }
        match ps[i] {
            Token::Lit(c) => {
                out.push(c);
            },
            Token::Arg { index, raw } => {
                assert(ps@[i as int] matches Token::Arg { index, .. });
                push_inserted(&mut out, &args[index - 1], shell, raw);
            },
            Token::Rest { raw } => {
                push_rest(&mut out, args, shell, raw, m);
            },
        }
        i += 1;
    }
    assert(ps@.take(i as int) =~= ps@);
    out
}

/// `#{@}` expands to `args[this_item_max_n..]` — remaining args after the highest
/// positional index used in *this item*, not the leaf aggregate.
pub fn substitute(template: &str, args: &[String], shell: Shell) -> (r: JkResult<String>)
    requires
        scan(template@) matches Ok(ps) ==> max_index(ps) <= args.len(),
    ensures
        match scan(template@) {
            Ok(ps) => r matches Ok(s) && s@ == render(ps, views(args@), shell, max_index(ps)),
            Err(f) => r matches Err(JkError::ConfigSchema(m)) && m@ == fault_text(f),
        },
{
    let t = chars_of(template);
    match scan_template(t.as_slice()) {
        Err(m) => Err(JkError::ConfigSchema(m)),
        Ok(ps) => {
            proof {
                lemma_scan_from_positive(template@, 0);
                lemma_max_index_bounds(ps@);
            }
            let shape = shape_of_tokens(ps.as_slice());
            Ok(render_tokens(ps.as_slice(), args, shell, shape.max_n))
        },
    }
}

/// A multi-line command joined into one line: each line trimmed, empty lines
/// dropped, the rest joined by single spaces.
pub fn fold(s: &str) -> (r: String)
    ensures
        r@ == folded(s@),
{
    let v = chars_of(s);
    let mut kept: Vec<Vec<char>> = Vec::new();
    let mut cur: Vec<char> = Vec::new();
    let ghost mut done: Seq<Seq<char>> = seq![];
    let mut i: usize = 0;
    while i < v.len()
        invariant
            i <= v.len(),
            split_lines(v@.take(i as int)) == done.push(cur@),
            vec_views(kept@) == kept_lines(done),
        decreases v.len() - i,
    {
        let c = v[i];
        proof {
            let t = v@.take(i + 1);
            assert(t.drop_last() =~= v@.take(i as int));
            assert(t.last() == c);
        }
        if c == '\n' {
            let t = trim_chars(cur.as_slice());
            proof {
                assert(done.push(cur@).drop_last() =~= done);
                assert(done.push(cur@).last() == cur@);
            }
            if t.len() > 0 {
                kept.push(t);
                assert(vec_views(kept@) =~= kept_lines(done.push(cur@)));
            } else {
                assert(vec_views(kept@) =~= kept_lines(done.push(cur@)));
            }
            proof {
                done = done.push(cur@);
            }
            cur = Vec::new();
            assert(split_lines(v@.take(i + 1)) =~= done.push(cur@));
        } else {
            let ghost old_cur = cur@;
            cur.push(c);
            assert(split_lines(v@.take(i + 1)) =~= done.push(cur@)) by {
                let p = done.push(old_cur);
                assert(p.update(p.len() - 1, p.last().push(c)) =~= done.push(cur@));
            }
        }
        i += 1;
    }
    assert(v@.take(i as int) =~= v@);
    let t = trim_chars(cur.as_slice());
    proof {
        assert(done.push(cur@).drop_last() =~= done);
        assert(done.push(cur@).last() == cur@);
    }
    if t.len() > 0 {
        kept.push(t);
    }
    assert(vec_views(kept@) =~= kept_lines(done.push(cur@)));
    let joined = join_chars(kept.as_slice(), &[' ']);
    assert(seq![' '] =~= [' ']@) ;
    string_of(joined.as_slice())
}

/// No line break in a text.
pub open spec fn one_line(s: Seq<char>) -> bool {
    forall|i: int| 0 <= i < s.len() ==> s[i] != '\n'
}

proof fn lemma_split_lines_one_line(s: Seq<char>)
    ensures
        forall|i: int| 0 <= i < split_lines(s).len() ==> one_line(#[trigger] split_lines(s)[i]),
    decreases s.len(),
{
    if s.len() > 0 {
        lemma_split_lines_one_line(s.drop_last());
        lemma_split_lines_nonempty(s.drop_last());
        let p = split_lines(s.drop_last());
        if s.last() != '\n' {
            let q = p.update(p.len() - 1, p.last().push(s.last()));
            assert forall|i: int| 0 <= i < q.len() implies one_line(#[trigger] q[i]) by {
                if i == p.len() - 1 {
                    assert(one_line(p[i]));
                } else {
                    assert(q[i] == p[i]);
                }
            }
        } else {
            let q = p.push(seq![]);
            assert forall|i: int| 0 <= i < q.len() implies one_line(#[trigger] q[i]) by {
                if i < p.len() {
                    assert(q[i] == p[i]);
                }
            }
        }
    }
}

proof fn lemma_trim_one_line(s: Seq<char>)
    requires
        one_line(s),
    ensures
        one_line(trim(s)),
{
    lemma_trim_start_one_line(s);
    lemma_trim_end_one_line(trim_start(s));
}

proof fn lemma_trim_start_one_line(s: Seq<char>)
    requires
        one_line(s),
    ensures
        one_line(trim_start(s)),
    decreases s.len(),
{
    if s.len() > 0 && crate::text::is_space(s[0]) {
        assert(one_line(s.drop_first())) by {
            assert forall|i: int| 0 <= i < s.drop_first().len() implies s.drop_first()[i] != '\n' by {
                assert(s.drop_first()[i] == s[i + 1]);
            }
        }
        lemma_trim_start_one_line(s.drop_first());
    }
}

proof fn lemma_trim_end_one_line(s: Seq<char>)
    requires
        one_line(s),
    ensures
        one_line(trim_end(s)),
    decreases s.len(),
{
    if s.len() > 0 && crate::text::is_space(s.last()) {
        assert(one_line(s.drop_last())) by {
            assert forall|i: int| 0 <= i < s.drop_last().len() implies s.drop_last()[i] != '\n' by {
                assert(s.drop_last()[i] == s[i]);
            }
        }
        lemma_trim_end_one_line(s.drop_last());
    }
}

proof fn lemma_kept_lines_one_line(ls: Seq<Seq<char>>)
    requires
        forall|i: int| 0 <= i < ls.len() ==> one_line(#[trigger] ls[i]),
    ensures
        forall|i: int| 0 <= i < kept_lines(ls).len() ==> one_line(#[trigger] kept_lines(ls)[i]),
    decreases ls.len(),
{
    if ls.len() > 0 {
        let d = ls.drop_last();
        assert forall|i: int| 0 <= i < d.len() implies one_line(#[trigger] d[i]) by {
            assert(d[i] == ls[i]);
        }
        lemma_kept_lines_one_line(d);
        assert(one_line(ls[ls.len() - 1]));
        lemma_trim_one_line(ls.last());
        let k = kept_lines(d);
        let t = trim(ls.last());
        if t.len() > 0 {
            assert forall|i: int| 0 <= i < k.push(t).len() implies one_line(#[trigger] k.push(t)[i]) by {
                if i < k.len() {
                    assert(k.push(t)[i] == k[i]);
                }
            }
        }
    }
}

proof fn lemma_join_one_line(parts: Seq<Seq<char>>)
    requires
        forall|i: int| 0 <= i < parts.len() ==> one_line(#[trigger] parts[i]),
    ensures
        one_line(join(parts, seq![' '])),
    decreases parts.len(),
{
    if parts.len() > 1 {
        let d = parts.drop_last();
        assert forall|i: int| 0 <= i < d.len() implies one_line(#[trigger] d[i]) by {
            assert(d[i] == parts[i]);
        }
        lemma_join_one_line(d);
        assert(one_line(parts[parts.len() - 1]));
        let a = join(d, seq![' ']);
        let j = a + seq![' '] + parts.last();
        assert forall|i: int| 0 <= i < j.len() implies j[i] != '\n' by {
            if i < a.len() {
                assert(j[i] == a[i]);
            } else if i == a.len() {
                assert(j[i] == ' ');
            } else {
                assert(j[i] == parts.last()[i - a.len() - 1]);
            }
        }
    } else if parts.len() == 1 {
        assert(one_line(parts[0]));
    }
}

/// Folding always gives a single line: whatever the line breaks of a
/// multi-line command, the text handed to the shell has none.
pub proof fn law_fold_is_one_line(s: Seq<char>)
    ensures
        one_line(folded(s)),
{
    lemma_split_lines_one_line(s);
    lemma_kept_lines_one_line(split_lines(s));
    lemma_join_one_line(kept_lines(split_lines(s)));
}

/// No `#{` anywhere in a text.
pub open spec fn no_placeholder(s: Seq<char>) -> bool {
    forall|i: int| 0 <= i < s.len() - 1 ==> !(s[i] == '#' && #[trigger] s[i + 1] == '{')
}

/// The tokens are the characters of `s` from `i` on, each as a literal.
pub open spec fn literal_run(ps: Seq<Token>, s: Seq<char>, i: int) -> bool {
    &&& ps.len() == s.len() - i
    &&& forall|j: int| 0 <= j < ps.len() ==> #[trigger] ps[j] == Token::Lit(s[i + j])
}

proof fn lemma_lit_cons(c: char, rest: Seq<Token>)
    ensures
        (seq![Token::Lit(c)] + rest).len() == rest.len() + 1,
        (seq![Token::Lit(c)] + rest)[0] == Token::Lit(c),
        forall|j: int| 0 < j <= rest.len() ==> #[trigger] (seq![Token::Lit(c)] + rest)[j] == rest[j - 1],
{
}

proof fn lemma_scan_lit_step(s: Seq<char>, i: int, c: char)
    requires
        0 <= i < s.len(),
        c == s[i],
        !(s[i] == '#' && i + 1 < s.len() && s[i + 1] == '{'),
        scan_from(s, i + 1) is Ok,
    ensures
        scan_from(s, i) matches Ok(ps) && ps.len() == scan_from(s, i + 1)->Ok_0.len() + 1 && ps[0]
            == Token::Lit(c) && forall|j: int|
            0 < j < ps.len() ==> #[trigger] ps[j] == scan_from(s, i + 1)->Ok_0[j - 1],
{
    let rest = scan_from(s, i + 1)->Ok_0;
    assert(scan_from(s, i) === Ok(seq![Token::Lit(s[i])] + rest));
    lemma_lit_cons(c, rest);
}

pub proof fn lemma_scan_plain(s: Seq<char>, i: int)
    requires
        no_placeholder(s),
        0 <= i <= s.len(),
    ensures
        scan_from(s, i) matches Ok(ps) && literal_run(ps, s, i),
    decreases s.len() - i,
{
    if i < s.len() {
        lemma_scan_plain(s, i + 1);
        if i + 1 < s.len() {
            assert(!(s[i] == '#' && s[i + 1] == '{'));
        }
        let rest = scan_from(s, i + 1)->Ok_0;
        lemma_scan_lit_step(s, i, s[i]);
        let ps = scan_from(s, i)->Ok_0;
        assert forall|j: int| 0 <= j < ps.len() implies #[trigger] ps[j] == Token::Lit(s[i + j]) by {
            if j > 0 {
                assert(ps[j] == rest[j - 1]);
                assert(rest[j - 1] == Token::Lit(s[i + 1 + (j - 1)]));
            }
        }
    }
}

proof fn lemma_render_run(ps: Seq<Token>, s: Seq<char>, args: Seq<Seq<char>>, sh: Shell)
    requires
        literal_run(ps, s, 0),
    ensures
        max_index(ps) == 0,
        render(ps, args, sh, 0) == s,
    decreases ps.len(),
{
    if ps.len() > 0 {
        let d = ps.drop_last();
        let t = s.drop_last();
        assert forall|j: int| 0 <= j < d.len() implies #[trigger] d[j] == Token::Lit(t[0 + j]) by {
            assert(d[j] == ps[j]);
        }
        lemma_render_run(d, t, args, sh);
        assert(ps.last() == Token::Lit(s[0 + (ps.len() - 1)]));
        assert(t + seq![s.last()] =~= s);
    } else {
        assert(s.len() == 0);
    }
}

/// A command without placeholders is used exactly as written: it scans
/// without error, uses no argument and no `#{@}`, and renders to itself
/// whatever the arguments and the shell.
pub proof fn law_plain_command_unchanged(t: Seq<char>, args: Seq<Seq<char>>, sh: Shell)
    requires
        no_placeholder(t),
    ensures
        scan(t) matches Ok(ps) && max_index(ps) == 0 && !has_rest(ps) && render(ps, args, sh, max_index(ps)) == t,
{
    lemma_scan_plain(t, 0);
    let ps = scan(t)->Ok_0;
    lemma_render_run(ps, t, args, sh);
    assert(!has_rest(ps)) by {
        if has_rest(ps) {
            let j = choose|j: int| 0 <= j < ps.len() && #[trigger] ps[j] is Rest;
            assert(ps[j] == Token::Lit(t[0 + j]));
        }
    }
}

/// `first_gap` finds the least index in `i..=m` that no token uses.
proof fn lemma_first_gap(ps: Seq<Token>, m: nat, i: nat)
    ensures
        first_gap(ps, m, i) is None <==> forall|n: nat| i <= n <= m ==> #[trigger] has_index(ps, n),
        first_gap(ps, m, i) matches Some(g) ==> i <= g <= m && !has_index(ps, g) && forall|n: nat|
            i <= n < g ==> #[trigger] has_index(ps, n),
    decreases m + 1 - i,
{
    if i <= m && has_index(ps, i) {
        lemma_first_gap(ps, m, i + 1);
    }
}

/// The placeholders of a command sequence are accepted exactly when every
/// index from 1 up to the highest one used is used by some command; then the
/// shape has that highest index, and otherwise the error names the least
/// index missing. A command that does not scan makes its own error the
/// error of the whole.
pub proof fn law_indices_must_be_contiguous(ts: Seq<Seq<char>>)
    ensures
        scan_all(ts) matches Err(f) ==> aggregate(ts) == Err::<PlaceholderShape, Seq<char>>(fault_text(f)),
        scan_all(ts) matches Ok(ps) ==> (aggregate(ts) is Ok <==> forall|n: nat|
            1 <= n <= max_index(ps) ==> #[trigger] has_index(ps, n)),
        scan_all(ts) matches Ok(ps) ==> (aggregate(ts) is Ok ==> aggregate(ts) == Ok::<PlaceholderShape, Seq<char>>(shape_of(ps))),
        scan_all(ts) matches Ok(ps) ==> (aggregate(ts) is Err ==> exists|g: nat|
            1 <= g <= max_index(ps) && !has_index(ps, g) && (forall|n: nat| 1 <= n < g ==> #[trigger] has_index(ps, n))
                && aggregate(ts) == Err::<PlaceholderShape, Seq<char>>(gap_text(g, max_index(ps)))),
{
    if let Ok(ps) = scan_all(ts) {
        lemma_first_gap(ps, max_index(ps), 1);
        if let Some(g) = first_gap(ps, max_index(ps), 1) {
            assert(!has_index(ps, g));
        }
    }
}

proof fn lemma_has_index_concat(a: Seq<Token>, b: Seq<Token>, n: nat)
    ensures
        has_index(a + b, n) <==> has_index(a, n) || has_index(b, n),
{
    let c = a + b;
    if has_index(c, n) {
        let j = choose|j: int| 0 <= j < c.len() && (#[trigger] c[j] matches Token::Arg { index, .. } && index == n);
        if j < a.len() {
            assert(c[j] == a[j]);
        } else {
            assert(c[j] == b[j - a.len()]);
        }
    }
    if has_index(a, n) {
        let j = choose|j: int| 0 <= j < a.len() && (#[trigger] a[j] matches Token::Arg { index, .. } && index == n);
        assert(c[j] == a[j]);
    }
    if has_index(b, n) {
        let j = choose|j: int| 0 <= j < b.len() && (#[trigger] b[j] matches Token::Arg { index, .. } && index == n);
        assert(c[a.len() + j] == b[j]);
    }
}

/// Some command of the sequence uses index `n`.
pub open spec fn used_by_some(ts: Seq<Seq<char>>, n: nat) -> bool {
    exists|k: int| 0 <= k < ts.len() && #[trigger] scan(ts[k]) is Ok && has_index(scan(ts[k])->Ok_0, n)
}

/// The indices of a sequence whose commands all scan are those that some
/// command uses: a sequence is checked as a whole, not command by command.
pub proof fn law_indices_gathered_across_commands(ts: Seq<Seq<char>>, n: nat)
    requires
        scan_all(ts) is Ok,
    ensures
        has_index(scan_all(ts)->Ok_0, n) <==> used_by_some(ts, n),
    decreases ts.len(),
{
    if ts.len() > 0 {
        let d = ts.drop_last();
        let acc = scan_all(d)->Ok_0;
        let last = scan(ts.last())->Ok_0;
        law_indices_gathered_across_commands(d, n);
        lemma_has_index_concat(acc, last, n);
        if used_by_some(d, n) {
            let k = choose|k: int| 0 <= k < d.len() && #[trigger] scan(d[k]) is Ok && has_index(scan(d[k])->Ok_0, n);
            assert(ts[k] == d[k]);
        }
        if has_index(last, n) {
            assert(scan(ts[ts.len() - 1]) is Ok && has_index(scan(ts[ts.len() - 1])->Ok_0, n));
        }
        if used_by_some(ts, n) {
            let k = choose|k: int| 0 <= k < ts.len() && #[trigger] scan(ts[k]) is Ok && has_index(scan(ts[k])->Ok_0, n);
            if k < ts.len() - 1 {
                assert(ts[k] == d[k]);
                assert(scan(d[k]) is Ok && has_index(scan(d[k])->Ok_0, n));
            }
        }
    }
}

} // verus!
