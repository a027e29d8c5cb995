//! Folding a multi-line command onto one line keeps its placeholders: the
//! folded text scans without error whenever the written text does, and
//! holds the same placeholders in the same order.
use vstd::prelude::*;
use crate::render::{
    Token, TemplateFault, classify, find_close, lemma_find_close, lemma_scan_plain, literal_run,
    no_placeholder, prepend, scan, scan_from, split_lines, kept_lines, folded,
    lemma_split_lines_nonempty, max_index, scan_all, one_line, law_fold_is_one_line,
};
use crate::text::{is_space, join, trim, trim_end, trim_start};

verus! {

/// A character that can stand between `#{` and `}` of a valid placeholder.
pub open spec fn inner_char(c: char) -> bool {
    ('0' <= c && c <= '9') || c == '@' || c == '!'
}

/// The first `}` at or after position `a.len() + j` of `a + b` is the first
/// one at or after `j` of `b`, moved by `a.len()`.
proof fn lemma_find_close_suffix(a: Seq<char>, b: Seq<char>, j: int)
    requires
        0 <= j,
    ensures
        find_close(a + b, a.len() + j) == a.len() + find_close(b, j),
    decreases b.len() - j,
{
    let s = a + b;
    if j < b.len() {
        assert(s[a.len() + j] == b[j]);
        lemma_find_close_suffix(a, b, j + 1);
    }
}

/// A `}` found in `a` is found at the same place in `a + b`.
proof fn lemma_find_close_prefix(a: Seq<char>, b: Seq<char>, j: int)
    requires
        0 <= j <= a.len(),
        find_close(a, j) < a.len(),
    ensures
        find_close(a + b, j) == find_close(a, j),
    decreases a.len() - j,
{
    let s = a + b;
    assert(s[j] == a[j]);
    if a[j] != '}' {
        lemma_find_close_prefix(a, b, j + 1);
    }
}

/// No `}` from `j` to the end of `a`: the search in `a + b` goes on into `b`.
proof fn lemma_find_close_past(a: Seq<char>, b: Seq<char>, j: int)
    requires
        0 <= j <= a.len(),
        find_close(a, j) == a.len(),
    ensures
        find_close(a + b, j) == a.len() + find_close(b, 0),
    decreases a.len() - j,
{
    let s = a + b;
    if j < a.len() {
        assert(s[j] == a[j]);
        lemma_find_close_past(a, b, j + 1);
    } else {
        lemma_find_close_suffix(a, b, 0);
    }
}

/// Scanning `a + b` from inside `b` is scanning `b`.
proof fn lemma_scan_suffix(a: Seq<char>, b: Seq<char>, j: int)
    requires
        0 <= j,
    ensures
        scan_from(a + b, a.len() + j) === scan_from(b, j),
    decreases b.len() - j,
{
    let s = a + b;
    let i = a.len() + j;
    if j < b.len() {
        assert(s[i] == b[j]);
        if j + 1 < b.len() {
            assert(s[i + 1] == b[j + 1]);
        }
        if b[j] == '#' && j + 1 < b.len() && b[j + 1] == '{' {
            lemma_find_close_suffix(a, b, j + 2);
            lemma_find_close(b, j + 2);
            let close = find_close(b, j + 2);
            if close < b.len() {
                assert(s.subrange(i + 2, a.len() + close) =~= b.subrange(j + 2, close));
                lemma_scan_suffix(a, b, close + 1);
            } else {
                assert(s.subrange(i + 2, s.len() as int) =~= b.subrange(j + 2, b.len() as int));
            }
        } else {
            lemma_scan_suffix(a, b, j + 1);
        }
    }
}

proof fn lemma_cons_assoc(tk: Token, p: Seq<Token>, x: Seq<Token>)
    ensures
        (seq![tk] + p) + x === seq![tk] + (p + x),
{
    assert((seq![tk] + p) + x =~= seq![tk] + (p + x));
}

proof fn lemma_empty_prepend(r: Result<Seq<Token>, TemplateFault>)
    ensures
        prepend(seq![], r) === r,
{
    if let Ok(x) = r {
        assert(Seq::<Token>::empty() + x =~= x);
    }
}

/// Scanning `a + b` from a position of `a` is scanning `a` from there and
/// then `b`, when `a` scans without error and no `#` at the end of `a`
/// meets a `{` at the start of `b`.
proof fn lemma_scan_split(a: Seq<char>, b: Seq<char>, i: int)
    requires
        0 <= i <= a.len(),
        scan_from(a, i) is Ok,
        !(a.len() > 0 && a.last() == '#' && b.len() > 0 && b[0] == '{'),
    ensures
        scan_from(a + b, i) === prepend(scan_from(a, i)->Ok_0, scan(b)),
    decreases a.len() - i,
{
    let s = a + b;
    if i == a.len() {
        lemma_scan_suffix(a, b, 0);
        lemma_empty_prepend(scan(b));
    } else {
        assert(s[i] == a[i]);
        if i + 1 < a.len() {
            assert(s[i + 1] == a[i + 1]);
        } else if b.len() > 0 {
            assert(s[i + 1] == b[0]);
        }
        if a[i] == '#' && i + 1 < a.len() && a[i + 1] == '{' {
            lemma_find_close(a, i + 2);
            let close = find_close(a, i + 2);
            lemma_find_close_prefix(a, b, i + 2);
            assert(s.subrange(i + 2, close) =~= a.subrange(i + 2, close));
            let tk = classify(a.subrange(i + 2, close))->Ok_0;
            let ra = scan_from(a, close + 1)->Ok_0;
            lemma_scan_split(a, b, close + 1);
            if let Ok(x) = scan(b) {
                lemma_cons_assoc(tk, ra, x);
            }
        } else {
            let ra = scan_from(a, i + 1)->Ok_0;
            lemma_scan_split(a, b, i + 1);
            if let Ok(x) = scan(b) {
                lemma_cons_assoc(Token::Lit(a[i]), ra, x);
            }
        }
    }
}

/// The text of a valid placeholder is digits, `@` and `!` only.
proof fn lemma_classify_chars(inner: Seq<char>)
    requires
        classify(inner) is Ok,
    ensures
        forall|j: int| 0 <= j < inner.len() ==> inner_char(#[trigger] inner[j]),
{
    let raw = inner.len() > 0 && inner.last() == '!';
    let kind = if raw {
        inner.drop_last()
    } else {
        inner
    };
    assert forall|j: int| 0 <= j < inner.len() implies inner_char(#[trigger] inner[j]) by {
        if raw && j == inner.len() - 1 {
        } else {
            assert(inner[j] == kind[j]);
            if kind == seq!['@'] {
                assert(kind[j] == '@');
            } else {
                assert(crate::text::is_digit(kind[j]));
            }
        }
    }
}

/// When `a + b` scans without error and `b` starts with a character that
/// can neither close nor continue a placeholder, `a` scans without error:
/// no placeholder of `a` can reach into `b`.
proof fn lemma_scan_prefix_ok(a: Seq<char>, b: Seq<char>, i: int)
    requires
        0 <= i <= a.len(),
        scan_from(a + b, i) is Ok,
        b.len() > 0,
        !inner_char(b[0]),
        b[0] != '}',
        b[0] != '{',
    ensures
        scan_from(a, i) is Ok,
    decreases a.len() - i,
{
    let s = a + b;
    if i < a.len() {
        assert(s[i] == a[i]);
        if i + 1 < a.len() {
            assert(s[i + 1] == a[i + 1]);
        } else {
            assert(s[i + 1] == b[0]);
        }
        if a[i] == '#' && i + 1 < a.len() && a[i + 1] == '{' {
            lemma_find_close(a, i + 2);
            lemma_find_close(s, i + 2);
            if find_close(a, i + 2) < a.len() {
                let close = find_close(a, i + 2);
                lemma_find_close_prefix(a, b, i + 2);
                assert(s.subrange(i + 2, close) =~= a.subrange(i + 2, close));
                lemma_scan_prefix_ok(a, b, close + 1);
            } else {
                lemma_find_close_past(a, b, i + 2);
                lemma_find_close(b, 0);
                let close = find_close(s, i + 2);
                assert(close > a.len());
                if close < s.len() {
                    let inner = s.subrange(i + 2, close);
                    assert(inner[a.len() - (i + 2)] == b[0]);
                    if classify(inner) is Ok {
                        lemma_classify_chars(inner);
                        assert(inner_char(inner[a.len() - (i + 2)]));
                    }
                }
            }
        } else {
            lemma_scan_prefix_ok(a, b, i + 1);
        }
    }
}

/// The placeholder tokens among the tokens, in order.
pub open spec fn placeholders(ps: Seq<Token>) -> Seq<Token>
    decreases ps.len(),
{
    if ps.len() == 0 {
        seq![]
    } else if ps.last() is Lit {
        placeholders(ps.drop_last())
    } else {
        placeholders(ps.drop_last()).push(ps.last())
    }
}

proof fn lemma_placeholders_concat(p: Seq<Token>, q: Seq<Token>)
    ensures
        placeholders(p + q) == placeholders(p) + placeholders(q),
    decreases q.len(),
{
    if q.len() == 0 {
        assert(p + q =~= p);
        assert(placeholders(p) + placeholders(q) =~= placeholders(p));
    } else {
        lemma_placeholders_concat(p, q.drop_last());
        assert((p + q).drop_last() =~= p + q.drop_last());
        assert((p + q).last() == q.last());
        if !(q.last() is Lit) {
            assert((placeholders(p) + placeholders(q.drop_last())).push(q.last()) =~= placeholders(p)
                + placeholders(q.drop_last()).push(q.last()));
        }
    }
}

proof fn lemma_placeholders_literals(ps: Seq<Token>, s: Seq<char>)
    requires
        literal_run(ps, s, 0),
    ensures
        placeholders(ps) == Seq::<Token>::empty(),
    decreases ps.len(),
{
    if ps.len() > 0 {
        let d = ps.drop_last();
        let t = s.drop_last();
        assert forall|j: int| 0 <= j < d.len() implies #[trigger] d[j] == Token::Lit(t[0 + j]) by {
            assert(d[j] == ps[j]);
        }
        lemma_placeholders_literals(d, t);
        assert(ps.last() == Token::Lit(s[0 + (ps.len() - 1)]));
    }
}

/// A text without `#` scans to literals only.
proof fn lemma_scan_no_hash(s: Seq<char>)
    requires
        forall|j: int| 0 <= j < s.len() ==> s[j] != '#',
    ensures
        scan(s) is Ok,
        placeholders(scan(s)->Ok_0) == Seq::<Token>::empty(),
{
    assert(no_placeholder(s)) by {
        assert forall|i: int| 0 <= i < s.len() - 1 implies !(s[i] == '#' && #[trigger] s[i + 1] == '{') by {
            assert(s[i] != '#');
        }
    }
    lemma_scan_plain(s, 0);
    assert(s.skip(0) =~= s);
    lemma_placeholders_literals(scan(s)->Ok_0, s);
}

/// A text is its lines joined by line breaks.
proof fn lemma_split_join(s: Seq<char>)
    ensures
        join(split_lines(s), seq!['\n']) == s,
    decreases s.len(),
{
    if s.len() > 0 {
        let d = s.drop_last();
        lemma_split_join(d);
        lemma_split_lines_nonempty(d);
        let p = split_lines(d);
        let c = s.last();
        if c == '\n' {
            let q = p.push(seq![]);
            assert(q.drop_last() =~= p);
            assert(join(q, seq!['\n']) == join(p, seq!['\n']) + seq!['\n'] + Seq::<char>::empty());
            assert(d + seq!['\n'] + Seq::<char>::empty() =~= s);
        } else {
            let q = p.update(p.len() - 1, p.last().push(c));
            if p.len() == 1 {
                assert(join(p, seq!['\n']) == p[0]);
                assert(join(q, seq!['\n']) == q[0]);
                assert(p[0].push(c) =~= s);
            } else {
                assert(q.drop_last() =~= p.drop_last());
                assert(join(q, seq!['\n']) == join(p.drop_last(), seq!['\n']) + seq!['\n'] + p.last().push(c));
                assert(join(p.drop_last(), seq!['\n']) + seq!['\n'] + p.last().push(c) =~= (join(
                    p.drop_last(),
                    seq!['\n'],
                ) + seq!['\n'] + p.last()).push(c));
                assert(d.push(c) =~= s);
            }
        }
    } else {
        assert(split_lines(s) == seq![Seq::<char>::empty()]);
        assert(join(seq![Seq::<char>::empty()], seq!['\n']) == Seq::<char>::empty());
        assert(s =~= Seq::<char>::empty());
    }
}

/// A separator that never belongs to a placeholder.
pub open spec fn neutral(c: char) -> bool {
    !inner_char(c) && c != '}' && c != '{' && c != '#'
}

/// Every line scans without error.
pub open spec fn lines_ok(ls: Seq<Seq<char>>) -> bool {
    forall|i: int| 0 <= i < ls.len() ==> #[trigger] scan(ls[i]) is Ok
}

/// The placeholders of the lines, line after line.
pub open spec fn lines_placeholders(ls: Seq<Seq<char>>) -> Seq<Token>
    decreases ls.len(),
{
    if ls.len() == 0 {
        seq![]
    } else {
        lines_placeholders(ls.drop_last()) + placeholders(scan(ls.last())->Ok_0)
    }
}

/// One separator character scans as a literal.
proof fn lemma_scan_sep(c: char)
    requires
        c != '#',
    ensures
        scan(seq![c]) is Ok,
        placeholders(scan(seq![c])->Ok_0) == Seq::<Token>::empty(),
{
    lemma_scan_no_hash(seq![c]);
}

/// A text split at a neutral character: the part before scans without
/// error, and the placeholders are those of the two parts.
proof fn lemma_split_at_sep(a: Seq<char>, c: char, b: Seq<char>)
    requires
        neutral(c),
        scan(a + (seq![c] + b)) is Ok,
    ensures
        scan(a) is Ok,
        scan(b) is Ok,
        placeholders(scan(a + (seq![c] + b))->Ok_0) == placeholders(scan(a)->Ok_0) + placeholders(
            scan(b)->Ok_0,
        ),
{
    let cb = seq![c] + b;
    assert(cb[0] == c);
    lemma_scan_prefix_ok(a, cb, 0);
    lemma_scan_split(a, cb, 0);
    lemma_scan_sep(c);
    assert(seq![c].last() == c);
    lemma_scan_split(seq![c], b, 0);
    let pa = scan(a)->Ok_0;
    let pc = scan(seq![c])->Ok_0;
    let pb = scan(b)->Ok_0;
    lemma_placeholders_concat(pa, pc + pb);
    lemma_placeholders_concat(pc, pb);
    assert(Seq::<Token>::empty() + placeholders(pb) =~= placeholders(pb));
}

/// Two texts joined at a neutral character: the whole scans without error,
/// and its placeholders are those of the two parts.
proof fn lemma_join_at_sep(a: Seq<char>, c: char, b: Seq<char>)
    requires
        neutral(c),
        scan(a) is Ok,
        scan(b) is Ok,
    ensures
        scan(a + (seq![c] + b)) is Ok,
        placeholders(scan(a + (seq![c] + b))->Ok_0) == placeholders(scan(a)->Ok_0) + placeholders(
            scan(b)->Ok_0,
        ),
{
    let cb = seq![c] + b;
    assert(cb[0] == c);
    lemma_scan_sep(c);
    assert(seq![c].last() == c);
    lemma_scan_split(seq![c], b, 0);
    lemma_scan_split(a, cb, 0);
    let pa = scan(a)->Ok_0;
    let pc = scan(seq![c])->Ok_0;
    let pb = scan(b)->Ok_0;
    lemma_placeholders_concat(pa, pc + pb);
    lemma_placeholders_concat(pc, pb);
    assert(Seq::<Token>::empty() + placeholders(pb) =~= placeholders(pb));
}

proof fn lemma_join_shape(ls: Seq<Seq<char>>, c: char)
    requires
        ls.len() >= 2,
    ensures
        join(ls, seq![c]) == join(ls.drop_last(), seq![c]) + (seq![c] + ls.last()),
{
    assert(join(ls.drop_last(), seq![c]) + seq![c] + ls.last() =~= join(ls.drop_last(), seq![c]) + (seq![c]
        + ls.last()));
}

/// Lines joined at a neutral character that scan as a whole: each line
/// scans, and the placeholders are those of the lines in turn.
proof fn lemma_lines_from_join(ls: Seq<Seq<char>>, c: char)
    requires
        ls.len() >= 1,
        neutral(c),
        scan(join(ls, seq![c])) is Ok,
    ensures
        lines_ok(ls),
        placeholders(scan(join(ls, seq![c]))->Ok_0) == lines_placeholders(ls),
    decreases ls.len(),
{
    if ls.len() == 1 {
        assert(ls.drop_last() =~= Seq::<Seq<char>>::empty());
        assert(lines_placeholders(ls.drop_last()) == Seq::<Token>::empty());
        assert(ls.last() == ls[0]);
        assert(join(ls, seq![c]) == ls[0]);
        assert(Seq::<Token>::empty() + placeholders(scan(ls[0])->Ok_0) =~= placeholders(scan(ls[0])->Ok_0));
    } else {
        let d = ls.drop_last();
        lemma_join_shape(ls, c);
        lemma_split_at_sep(join(d, seq![c]), c, ls.last());
        lemma_lines_from_join(d, c);
        assert forall|i: int| 0 <= i < ls.len() implies #[trigger] scan(ls[i]) is Ok by {
            if i < d.len() {
                assert(ls[i] == d[i]);
            }
        }
    }
}

/// Lines that each scan, joined at a neutral character: the whole scans,
/// with the placeholders of the lines in turn.
proof fn lemma_join_from_lines(ls: Seq<Seq<char>>, c: char)
    requires
        ls.len() >= 1,
        neutral(c),
        lines_ok(ls),
    ensures
        scan(join(ls, seq![c])) is Ok,
        placeholders(scan(join(ls, seq![c]))->Ok_0) == lines_placeholders(ls),
    decreases ls.len(),
{
    assert(scan(ls[ls.len() - 1]) is Ok);
    if ls.len() == 1 {
        assert(ls.drop_last() =~= Seq::<Seq<char>>::empty());
        assert(lines_placeholders(ls.drop_last()) == Seq::<Token>::empty());
        assert(ls.last() == ls[0]);
        assert(join(ls, seq![c]) == ls[0]);
        assert(Seq::<Token>::empty() + placeholders(scan(ls[0])->Ok_0) =~= placeholders(scan(ls[0])->Ok_0));
    } else {
        let d = ls.drop_last();
        assert forall|i: int| 0 <= i < d.len() implies #[trigger] scan(d[i]) is Ok by {
            assert(d[i] == ls[i]);
        }
        lemma_join_from_lines(d, c);
        lemma_join_shape(ls, c);
        lemma_join_at_sep(join(d, seq![c]), c, ls.last());
    }
}

proof fn lemma_trim_start_at(s: Seq<char>) -> (k: int)
    ensures
        0 <= k <= s.len(),
        trim_start(s) == s.skip(k),
        forall|j: int| 0 <= j < k ==> is_space(#[trigger] s[j]),
    decreases s.len(),
{
    if s.len() > 0 && is_space(s[0]) {
        let k1 = lemma_trim_start_at(s.drop_first());
        assert(s.drop_first().skip(k1) =~= s.skip(k1 + 1));
        assert forall|j: int| 0 <= j < k1 + 1 implies is_space(#[trigger] s[j]) by {
            if j > 0 {
                assert(s[j] == s.drop_first()[j - 1]);
            }
        }
        k1 + 1
    } else {
        assert(s.skip(0) =~= s);
        0
    }
}

proof fn lemma_trim_end_at(s: Seq<char>) -> (k: int)
    ensures
        0 <= k <= s.len(),
        trim_end(s) == s.take(k),
        forall|j: int| k <= j < s.len() ==> is_space(#[trigger] s[j]),
    decreases s.len(),
{
    if s.len() > 0 && is_space(s.last()) {
        let k1 = lemma_trim_end_at(s.drop_last());
        assert(s.drop_last().take(k1) =~= s.take(k1));
        assert forall|j: int| k1 <= j < s.len() implies is_space(#[trigger] s[j]) by {
            if j < s.len() - 1 {
                assert(s[j] == s.drop_last()[j]);
            }
        }
        k1
    } else {
        assert(s.take(s.len() as int) =~= s);
        s.len() as int
    }
}

/// Whitespace holds no `#` and is neutral.
proof fn lemma_space_neutral(c: char)
    requires
        is_space(c),
    ensures
        neutral(c),
{
}

/// Trimming a line that scans keeps it scanning, with the same placeholders.
proof fn lemma_trim_keeps(l: Seq<char>)
    requires
        scan(l) is Ok,
    ensures
        scan(trim(l)) is Ok,
        placeholders(scan(trim(l))->Ok_0) == placeholders(scan(l)->Ok_0),
{
    let k = lemma_trim_start_at(l);
    let ws = l.take(k);
    let rest = l.skip(k);
    assert(ws + rest =~= l);
    assert forall|j: int| 0 <= j < ws.len() implies ws[j] != '#' by {
        assert(ws[j] == l[j]);
        lemma_space_neutral(l[j]);
    }
    lemma_scan_no_hash(ws);
    if ws.len() > 0 {
        assert(ws.last() == l[k - 1]);
        lemma_space_neutral(l[k - 1]);
    }
    lemma_scan_split(ws, rest, 0);
    lemma_placeholders_concat(scan(ws)->Ok_0, scan(rest)->Ok_0);
    assert(Seq::<Token>::empty() + placeholders(scan(rest)->Ok_0) =~= placeholders(scan(rest)->Ok_0));
    let k2 = lemma_trim_end_at(rest);
    let x = rest.take(k2);
    let ws2 = rest.skip(k2);
    assert(x + ws2 =~= rest);
    if ws2.len() == 0 {
        assert(x =~= rest);
    } else {
        assert(ws2[0] == rest[k2]);
        lemma_space_neutral(rest[k2]);
        lemma_scan_prefix_ok(x, ws2, 0);
        lemma_scan_split(x, ws2, 0);
        assert forall|j: int| 0 <= j < ws2.len() implies ws2[j] != '#' by {
            assert(ws2[j] == rest[k2 + j]);
            lemma_space_neutral(rest[k2 + j]);
        }
        lemma_scan_no_hash(ws2);
        lemma_placeholders_concat(scan(x)->Ok_0, scan(ws2)->Ok_0);
        assert(placeholders(scan(x)->Ok_0) + Seq::<Token>::empty() =~= placeholders(scan(x)->Ok_0));
    }
}

/// The kept lines of lines that scan all scan, with the same placeholders
/// in turn.
proof fn lemma_kept_keeps(ls: Seq<Seq<char>>)
    requires
        lines_ok(ls),
    ensures
        lines_ok(kept_lines(ls)),
        lines_placeholders(kept_lines(ls)) == lines_placeholders(ls),
    decreases ls.len(),
{
    if ls.len() > 0 {
        let d = ls.drop_last();
        assert forall|i: int| 0 <= i < d.len() implies #[trigger] scan(d[i]) is Ok by {
            assert(d[i] == ls[i]);
        }
        lemma_kept_keeps(d);
        assert(scan(ls[ls.len() - 1]) is Ok);
        lemma_trim_keeps(ls.last());
        let k = kept_lines(d);
        let t = trim(ls.last());
        if t.len() == 0 {
            assert(t =~= Seq::<char>::empty());
            lemma_scan_no_hash(t);
            assert(lines_placeholders(d) + Seq::<Token>::empty() =~= lines_placeholders(d));
        } else {
            let kt = k.push(t);
            assert(kt.drop_last() =~= k);
            assert forall|i: int| 0 <= i < kt.len() implies #[trigger] scan(kt[i]) is Ok by {
                if i < k.len() {
                    assert(kt[i] == k[i]);
                }
            }
        }
    }
}

/// Folding keeps the placeholders: a command that scans without error
/// still does once folded onto one line, and holds the same placeholders
/// in the same order.
pub proof fn law_fold_keeps_placeholders(s: Seq<char>)
    requires
        scan(s) is Ok,
    ensures
        scan(folded(s)) is Ok,
        placeholders(scan(folded(s))->Ok_0) == placeholders(scan(s)->Ok_0),
{
    let ls = split_lines(s);
    lemma_split_lines_nonempty(s);
    lemma_split_join(s);
    lemma_lines_from_join(ls, '\n');
    lemma_kept_keeps(ls);
    let k = kept_lines(ls);
    if k.len() == 0 {
        assert(join(k, seq![' ']) =~= Seq::<char>::empty());
        lemma_scan_no_hash(Seq::<char>::empty());
        assert(lines_placeholders(k) == Seq::<Token>::empty());
    } else {
        lemma_join_from_lines(k, ' ');
    }
}

/// The highest index depends on the placeholders alone.
pub proof fn lemma_max_index_placeholders(ps: Seq<Token>)
    ensures
        max_index(ps) == max_index(placeholders(ps)),
    decreases ps.len(),
{
    if ps.len() > 0 {
        let d = ps.drop_last();
        lemma_max_index_placeholders(d);
        if !(ps.last() is Lit) {
            let pl = placeholders(d).push(ps.last());
            assert(pl.drop_last() =~= placeholders(d));
            assert(pl.last() == ps.last());
        }
    }
}

proof fn lemma_max_index_concat(a: Seq<Token>, b: Seq<Token>)
    ensures
        max_index(a + b) >= max_index(a),
        max_index(a + b) >= max_index(b),
    decreases b.len(),
{
    if b.len() == 0 {
        assert(a + b =~= a);
    } else {
        lemma_max_index_concat(a, b.drop_last());
        assert((a + b).drop_last() =~= a + b.drop_last());
        assert((a + b).last() == b.last());
    }
}

/// Each command of a sequence that scans as a whole scans, and its highest
/// index is at most the highest of the whole.
pub proof fn lemma_scan_all_parts(ts: Seq<Seq<char>>, k: int)
    requires
        0 <= k < ts.len(),
        scan_all(ts) is Ok,
    ensures
        scan(ts[k]) is Ok,
        max_index(scan(ts[k])->Ok_0) <= max_index(scan_all(ts)->Ok_0),
    decreases ts.len(),
{
    let d = ts.drop_last();
    let acc = scan_all(d)->Ok_0;
    let last = scan(ts.last())->Ok_0;
    lemma_max_index_concat(acc, last);
    if k < ts.len() - 1 {
        assert(ts[k] == d[k]);
        lemma_scan_all_parts(d, k);
    }
}

/// A command of a sequence whose placeholders check out, folded: its
/// highest index is at most that of the whole sequence.
pub proof fn lemma_folded_index_bound(ts: Seq<Seq<char>>, k: int)
    requires
        0 <= k < ts.len(),
        scan_all(ts) is Ok,
    ensures
        scan(folded(ts[k])) is Ok,
        max_index(scan(folded(ts[k]))->Ok_0) <= max_index(scan_all(ts)->Ok_0),
{
    lemma_scan_all_parts(ts, k);
    law_fold_keeps_placeholders(ts[k]);
    lemma_max_index_placeholders(scan(folded(ts[k]))->Ok_0);
    lemma_max_index_placeholders(scan(ts[k])->Ok_0);
}

proof fn lemma_trim_start_first(s: Seq<char>)
    ensures
        trim_start(s).len() > 0 ==> !is_space(trim_start(s)[0]),
    decreases s.len(),
{
    if s.len() > 0 && is_space(s[0]) {
        lemma_trim_start_first(s.drop_first());
    }
}

proof fn lemma_trim_end_ends(s: Seq<char>)
    ensures
        trim_end(s).len() > 0 ==> !is_space(trim_end(s).last()) && trim_end(s)[0] == s[0],
    decreases s.len(),
{
    if s.len() > 0 && is_space(s.last()) {
        lemma_trim_end_ends(s.drop_last());
        if trim_end(s.drop_last()).len() > 0 {
            assert(s.drop_last()[0] == s[0]);
        }
    }
}

/// A trimmed text that is not empty starts and ends with a non-space.
proof fn lemma_trim_ends(s: Seq<char>)
    ensures
        trim(s).len() > 0 ==> !is_space(trim(s)[0]) && !is_space(trim(s).last()),
{
    lemma_trim_start_first(s);
    lemma_trim_end_ends(trim_start(s));
}

/// Joined parts start with the first part and end with the last.
proof fn lemma_join_ends(parts: Seq<Seq<char>>, c: char)
    requires
        parts.len() > 0,
        parts[0].len() > 0,
        parts.last().len() > 0,
    ensures
        join(parts, seq![c]).len() > 0,
        join(parts, seq![c])[0] == parts[0][0],
        join(parts, seq![c]).last() == parts.last().last(),
    decreases parts.len(),
{
    if parts.len() > 1 {
        let d = parts.drop_last();
        assert(d[0] == parts[0]);
        if d.last().len() > 0 {
            lemma_join_ends(d, c);
        } else {
            lemma_join_first(d, c);
        }
        let j = join(d, seq![c]) + seq![c] + parts.last();
        assert(j.last() == parts.last().last());
    }
}

proof fn lemma_join_first(parts: Seq<Seq<char>>, c: char)
    requires
        parts.len() > 0,
        parts[0].len() > 0,
    ensures
        join(parts, seq![c]).len() > 0,
        join(parts, seq![c])[0] == parts[0][0],
    decreases parts.len(),
{
    if parts.len() > 1 {
        let d = parts.drop_last();
        assert(d[0] == parts[0]);
        lemma_join_first(d, c);
    }
}

/// A text without line breaks is a single line.
proof fn lemma_split_one_line(w: Seq<char>)
    requires
        one_line(w),
    ensures
        split_lines(w) == seq![w],
    decreases w.len(),
{
    if w.len() > 0 {
        let d = w.drop_last();
        assert(one_line(d)) by {
            assert forall|i: int| 0 <= i < d.len() implies d[i] != '\n' by {
                assert(d[i] == w[i]);
            }
        }
        lemma_split_one_line(d);
        assert(w[w.len() - 1] != '\n');
        let p = split_lines(d);
        assert(d.push(w.last()) =~= w);
        assert(p.update(p.len() - 1, p.last().push(w.last())) =~= seq![w]);
    } else {
        assert(w =~= Seq::<char>::empty());
    }
}

proof fn lemma_trim_unchanged(w: Seq<char>)
    requires
        w.len() > 0,
        !is_space(w[0]),
        !is_space(w.last()),
    ensures
        trim(w) == w,
{
}

/// Folding a folded command changes nothing, and a folded command neither
/// starts nor ends with whitespace.
pub proof fn law_fold_is_idempotent(s: Seq<char>)
    ensures
        folded(folded(s)) == folded(s),
        folded(s).len() > 0 ==> !is_space(folded(s)[0]) && !is_space(folded(s).last()),
{
    let ls = split_lines(s);
    let k = kept_lines(ls);
    let f = folded(s);
    law_fold_is_one_line(s);
    lemma_kept_nonempty_trimmed(ls);
    if k.len() == 0 {
        assert(f =~= Seq::<char>::empty());
        assert(split_lines(f) == seq![Seq::<char>::empty()]);
        lemma_trim_ends(Seq::<char>::empty());
        assert(trim(Seq::<char>::empty()) =~= Seq::<char>::empty()) by {
            assert(trim_start(Seq::<char>::empty()) == Seq::<char>::empty());
        }
        let one = seq![Seq::<char>::empty()];
        assert(one.drop_last() =~= Seq::<Seq<char>>::empty());
        assert(kept_lines(one.drop_last()) =~= Seq::<Seq<char>>::empty());
        assert(trim(one.last()).len() == 0);
        assert(kept_lines(one) =~= Seq::<Seq<char>>::empty());
        assert(folded(f) =~= f);
    } else {
        lemma_join_ends(k, ' ');
        assert(k[0].len() > 0 && !is_space(k[0][0]));
        assert(k[k.len() - 1].len() > 0 && !is_space(k[k.len() - 1].last()));
        lemma_split_one_line(f);
        lemma_trim_unchanged(f);
        let one = seq![f];
        assert(one.drop_last() =~= Seq::<Seq<char>>::empty());
        assert(kept_lines(one.drop_last()) =~= Seq::<Seq<char>>::empty());
        assert(one.last() == f);
        assert(trim(one.last()) == f);
        assert(Seq::<Seq<char>>::empty().push(f) =~= one);
        assert(kept_lines(one) == one);
        assert(join(one, seq![' ']) == f);
    }
}

/// Every kept line is a non-empty trimmed line: it starts and ends with a
/// non-space.
proof fn lemma_kept_nonempty_trimmed(ls: Seq<Seq<char>>)
    ensures
        forall|i: int| 0 <= i < kept_lines(ls).len() ==> #[trigger] kept_lines(ls)[i].len() > 0
            && !is_space(kept_lines(ls)[i][0]) && !is_space(kept_lines(ls)[i].last()),
    decreases ls.len(),
{
    if ls.len() > 0 {
        let d = ls.drop_last();
        lemma_kept_nonempty_trimmed(d);
        lemma_trim_ends(ls.last());
        let k = kept_lines(d);
        let t = trim(ls.last());
        if t.len() > 0 {
            assert forall|i: int| 0 <= i < k.push(t).len() implies #[trigger] k.push(t)[i].len() > 0
                && !is_space(k.push(t)[i][0]) && !is_space(k.push(t)[i].last()) by {
                if i < k.len() {
                    assert(k.push(t)[i] == k[i]);
                }
            }
        }
    }
}

} // verus!
