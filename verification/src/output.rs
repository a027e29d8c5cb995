//! The text the runner prints of its own: status lines, errors, and the
//! command listing. Printing itself is the caller's.
use vstd::prelude::*;
use crate::config::{CommandMap, LeafModel, NodeModel, Origin, map_model};
use crate::text::{chars_of, decimal, decimal_string, decimal_text, owned, string_eq_str, string_of, views};
use crate::render::{split_lines, lemma_split_lines_nonempty};
use crate::config::{CommandNode, LeafCommand, node_model, entries_model, lemma_entries_model};
use crate::config::{descend, lemma_model_find, lookup_model, model_find, model_get, entries_wf, tree_wf, sorted, lemma_all_wf_forall};
use unicode_width::UnicodeWidthStr;

verus! {

#[derive(Clone, Copy, Debug, PartialEq, Eq, Structural)]
pub enum Style {
    Primary,
    Muted,
    Warning,
    LocalOrigin,
    GlobalOrigin,
    LocalNamespace,
    GlobalNamespace,
    Dim,
    DimStrikethrough,
}

/// The ANSI sequence that starts a style.
pub open spec fn style_text(s: Style) -> Seq<char> {
    match s {
        Style::Primary => "\x1b[38;2;135;215;255m"@,
        Style::Muted => "\x1b[38;2;209;224;222m"@,
        Style::Warning => "\x1b[38;2;255;213;0m"@,
        Style::LocalOrigin => "\x1b[38;2;163;231;245m"@,
        Style::GlobalOrigin => "\x1b[38;2;240;190;138m"@,
        Style::LocalNamespace => "\x1b[38;2;163;231;245m\x1b[4m"@,
        Style::GlobalNamespace => "\x1b[38;2;240;190;138m\x1b[4m"@,
        Style::Dim => "\x1b[2m"@,
        Style::DimStrikethrough => "\x1b[2;9m"@,
    }
}

/// The ANSI sequence that ends a style.
pub open spec fn reset_text() -> Seq<char> {
    "\x1b[0m"@
}

/// `text` in a style, or plain when colour is off.
pub open spec fn painted(enabled: bool, s: Style, text: Seq<char>) -> Seq<char> {
    if enabled {
        style_text(s) + text + reset_text()
    } else {
        text
    }
}

impl Style {
    pub fn open(self) -> (r: &'static str)
        ensures
            r@ == style_text(self),
    {
        match self {
            Style::Primary => "\x1b[38;2;135;215;255m",
            Style::Muted => "\x1b[38;2;209;224;222m",
            Style::Warning => "\x1b[38;2;255;213;0m",
            Style::LocalOrigin => "\x1b[38;2;163;231;245m",
            Style::GlobalOrigin => "\x1b[38;2;240;190;138m",
            Style::LocalNamespace => "\x1b[38;2;163;231;245m\x1b[4m",
            Style::GlobalNamespace => "\x1b[38;2;240;190;138m\x1b[4m",
            Style::Dim => "\x1b[2m",
            Style::DimStrikethrough => "\x1b[2;9m",
        }
    }
}

#[derive(Clone, Copy, Debug)]
pub struct Painter {
    pub enabled: bool,
}

impl Painter {
    pub fn new(enabled: bool) -> (r: Self)
        ensures
            r.enabled == enabled,
    {
        Painter { enabled }
    }

    /// `text` in `style` when colour is on.
    pub fn paint(self, style: Style, text: &str) -> (r: String)
        ensures
            r@ == painted(self.enabled, style, text@),
    {
        if self.enabled {
            let mut r = owned(style.open());
            r.push_str(text);
            r.push_str("\x1b[0m");
            r
        } else {
            owned(text)
        }
    }
}

/// `n` in decimal, left-padded with zeros to at least `w` digits.
pub open spec fn zero_padded(n: nat, w: nat) -> Seq<char> {
    let d = decimal(n);
    if d.len() >= w {
        d
    } else {
        Seq::new((w - d.len()) as nat, |i: int| '0') + d
    }
}

/// `HH:MM:SS.mmm`.
pub open spec fn timestamp_text(hour: nat, minute: nat, second: nat, nanosecond: nat) -> Seq<char> {
    zero_padded(hour, 2) + seq![':'] + zero_padded(minute, 2) + seq![':'] + zero_padded(second, 2)
        + seq!['.'] + zero_padded(nanosecond / 1_000_000, 3)
}

fn push_padded(out: &mut String, n: u128, w: usize)
    ensures
        final(out)@ == old(out)@ + zero_padded(n as nat, w as nat),
{
    let d = decimal_text(n);
    let dv = chars_of(d.as_str());
    let mut k: usize = dv.len();
    while k < w
        invariant
            dv.len() <= k <= w || (k == dv.len() && k >= w),
            out@ == old(out)@ + Seq::new((k - dv.len()) as nat, |i: int| '0'),
        decreases w - k,
    {
        out.push('0');
        k += 1;
        assert(out@ =~= old(out)@ + Seq::new((k - dv.len()) as nat, |i: int| '0'));
    }
    out.push_str(d.as_str());
    if dv.len() >= w {
        assert(Seq::new((k - dv.len()) as nat, |i: int| '0') =~= Seq::<char>::empty());
        assert(out@ =~= old(out)@ + zero_padded(n as nat, w as nat));
    } else {
        assert(out@ =~= old(out)@ + zero_padded(n as nat, w as nat));
    }
}

/// The clock time of a status line as `HH:MM:SS.mmm`.
pub fn format_timestamp(hour: u8, minute: u8, second: u8, nanosecond: u32) -> (r: String)
    ensures
        r@ == timestamp_text(hour as nat, minute as nat, second as nat, nanosecond as nat),
{
    let mut r = String::new();
    push_padded(&mut r, hour as u128, 2);
    r.push(':');
    push_padded(&mut r, minute as u128, 2);
    r.push(':');
    push_padded(&mut r, second as u128, 2);
    r.push('.');
    push_padded(&mut r, (nanosecond / 1_000_000) as u128, 3);
    assert(r@ =~= timestamp_text(hour as nat, minute as nat, second as nat, nanosecond as nat));
    r
}

/// `[jk][ts]`.
pub open spec fn prefix_text(ts: Seq<char>) -> Seq<char> {
    "[jk]["@ + ts + "]"@
}

/// A signed number in decimal.
pub open spec fn signed_decimal(i: int) -> Seq<char> {
    if i < 0 {
        seq!['-'] + decimal((-i) as nat)
    } else {
        decimal(i as nat)
    }
}

/// The line that announces a step of the command named `name` (its
/// command path joined by spaces).
pub open spec fn step_text(ts: Seq<char>, name: Seq<char>, color: bool) -> Seq<char> {
    painted(color, Style::Muted, prefix_text(ts) + " running "@) + painted(color, Style::Primary, name)
}

pub open spec fn completed_text(ts: Seq<char>, ms: nat, color: bool) -> Seq<char> {
    painted(color, Style::Muted, prefix_text(ts) + " completed in "@ + decimal(ms) + "ms"@)
}

pub open spec fn failed_text(ts: Seq<char>, step_idx: nat, exit: int, color: bool) -> Seq<char> {
    painted(
        color,
        Style::Warning,
        prefix_text(ts) + " failed at step "@ + decimal(step_idx + 1) + " (exit "@ + signed_decimal(exit)
            + ")"@,
    )
}

pub open spec fn error_line_text(msg: Seq<char>, color: bool) -> Seq<char> {
    painted(color, Style::Warning, "[jk] error: "@ + msg)
}

pub fn paint_prefix(ts: &str) -> (r: String)
    ensures
        r@ == prefix_text(ts@),
{
    let mut r = owned("[jk][");
    r.push_str(ts);
    r.push_str("]");
    r
}

pub fn fmt_step(ts: &str, name: &str, color: bool) -> (r: String)
    ensures
        r@ == step_text(ts@, name@, color),
{
    let p = Painter::new(color);
    let mut head = paint_prefix(ts);
    head.push_str(" running ");
    let mut r = p.paint(Style::Muted, head.as_str());
    let tail = p.paint(Style::Primary, name);
    r.push_str(tail.as_str());
    r
}

pub fn fmt_completed(ts: &str, ms: u128, color: bool) -> (r: String)
    ensures
        r@ == completed_text(ts@, ms as nat, color),
{
    let p = Painter::new(color);
    let mut body = paint_prefix(ts);
    body.push_str(" completed in ");
    let d = decimal_text(ms);
    body.push_str(d.as_str());
    body.push_str("ms");
    p.paint(Style::Muted, body.as_str())
}

pub fn fmt_failed(ts: &str, step_idx: usize, exit: i32, color: bool) -> (r: String)
    requires
        step_idx < usize::MAX,
    ensures
        r@ == failed_text(ts@, step_idx as nat, exit as int, color),
{
    let p = Painter::new(color);
    let mut body = paint_prefix(ts);
    body.push_str(" failed at step ");
    let d = decimal_string(step_idx + 1);
    body.push_str(d.as_str());
    body.push_str(" (exit ");
    if exit < 0 {
        body.push('-');
        let e = decimal_text((-(exit as i64)) as u128);
        body.push_str(e.as_str());
    } else {
        let e = decimal_text(exit as u128);
        body.push_str(e.as_str());
    }
    body.push_str(")");
    p.paint(Style::Warning, body.as_str())
}

pub fn fmt_error(msg: &str, color: bool) -> (r: String)
    ensures
        r@ == error_line_text(msg@, color),
{
    let p = Painter::new(color);
    let mut body = owned("[jk] error: ");
    body.push_str(msg);
    p.paint(Style::Warning, body.as_str())
}

/// A line without its trailing carriage return.
pub open spec fn strip_cr(p: Seq<char>) -> Seq<char> {
    if p.len() > 0 && p.last() == '\r' {
        p.drop_last()
    } else {
        p
    }
}

/// The lines of a text (`str::lines`): split at `\n`, a `\r` before it
/// dropped, and no empty line after a final `\n`.
pub open spec fn text_lines(s: Seq<char>) -> Seq<Seq<char>> {
    let parts = split_lines(s);
    let n = parts.len();
    let done = parts.take(n - 1).map_values(|p: Seq<char>| strip_cr(p));
    if parts[n - 1].len() == 0 {
        done
    } else {
        done.push(parts[n - 1])
    }
}

fn strip_cr_exec(v: &Vec<char>) -> (r: String)
    ensures
        r@ == strip_cr(v@),
{
    if v.len() > 0 && v[v.len() - 1] == '\r' {
        let w = crate::text::sub_chars(v.as_slice(), 0, v.len() - 1);
        assert(w@ =~= v@.drop_last());
        string_of(w.as_slice())
    } else {
        string_of(v.as_slice())
    }
}

/// The lines of a text, as `str::lines` splits it.
pub fn text_lines_exec(s: &str) -> (r: Vec<String>)
    ensures
        views(r@) == text_lines(s@),
{
    let v = chars_of(s);
    let mut out: Vec<String> = Vec::new();
    let mut cur: Vec<char> = Vec::new();
    let ghost mut done: Seq<Seq<char>> = seq![];
    let mut i: usize = 0;
    while i < v.len()
        invariant
            i <= v.len(),
            split_lines(v@.take(i as int)) == done.push(cur@),
            views(out@) == done.map_values(|p: Seq<char>| strip_cr(p)),
        decreases v.len() - i,
    {
        let c = v[i];
        proof {
            let t = v@.take(i + 1);
            assert(t.drop_last() =~= v@.take(i as int));
            assert(t.last() == c);
        }
        if c == '\n' {
            let line = strip_cr_exec(&cur);
            let ghost old_out = out@;
            let ghost old_done = done;
            let ghost line_view = line@;
            out.push(line);
            proof {
                done = done.push(cur@);
                assert(out@ =~= old_out.push(out@.last()));
                assert(views(out@) =~= views(old_out).push(line_view));
                assert(done.map_values(|p: Seq<char>| strip_cr(p)) =~= old_done.map_values(
                    |p: Seq<char>| strip_cr(p),
                ).push(strip_cr(cur@)));
            }
            cur = Vec::new();
            assert(split_lines(v@.take(i + 1)) =~= done.push(cur@));
        } else {
            let ghost old_cur = cur@;
            cur.push(c);
            assert(split_lines(v@.take(i + 1)) =~= done.push(cur@)) by {
                let p = done.push(old_cur);
                assert(p.update(p.len() - 1, p.last().push(c)) =~= done.push(cur@));
            }
        }
        i += 1;
    }
    assert(v@.take(i as int) =~= v@);
    proof {
        let parts = done.push(cur@);
        assert(parts.take(parts.len() - 1) =~= done);
        assert(parts[parts.len() - 1] == cur@);
    }
    if cur.len() > 0 {
        out.push(string_of(cur.as_slice()));
        assert(views(out@) =~= text_lines(s@));
    }
    out
}

#[derive(Clone, Copy, Debug, PartialEq, Eq, Structural)]
pub enum ListingSection {
    Global,
    Local,
}

/// Which leaves a section shows: each side shows its own leaves and the overrides.
pub open spec fn section_includes(sec: ListingSection, o: Origin) -> bool {
    match sec {
        ListingSection::Global => o == Origin::GlobalOnly || o == Origin::Override,
        ListingSection::Local => o == Origin::LocalOnly || o == Origin::Override,
    }
}

pub open spec fn section_name(sec: ListingSection) -> Seq<char> {
    match sec {
        ListingSection::Global => "global"@,
        ListingSection::Local => "local"@,
    }
}

impl ListingSection {
    pub fn includes(self, origin: Origin) -> (r: bool)
        ensures
            r == section_includes(self, origin),
    {
        match self {
            ListingSection::Global => origin == Origin::GlobalOnly || origin == Origin::Override,
            ListingSection::Local => origin == Origin::LocalOnly || origin == Origin::Override,
        }
    }

    pub fn name(self) -> (r: &'static str)
        ensures
            r@ == section_name(self),
    {
        match self {
            ListingSection::Global => "global",
            ListingSection::Local => "local",
        }
    }
}

/// One row of a listing.
#[derive(Debug)]
pub struct ListingEntry {
    pub depth: usize,
    pub display: String,
    pub origin: Option<Origin>,
    pub desc: Vec<String>,
}

/// A listing row as text.
pub struct EntryModel {
    pub depth: nat,
    pub display: Seq<char>,
    pub origin: Option<Origin>,
    pub desc: Seq<Seq<char>>,
}

pub open spec fn entry_model(e: ListingEntry) -> EntryModel {
    EntryModel { depth: e.depth as nat, display: e.display@, origin: e.origin, desc: views(e.desc@) }
}

pub open spec fn entry_models(es: Seq<ListingEntry>) -> Seq<EntryModel> {
    es.map_values(|e: ListingEntry| entry_model(e))
}

/// One more level of nesting, held at the largest `usize`.
pub open spec fn deeper(d: nat) -> nat {
    if d < usize::MAX {
        d + 1
    } else {
        d
    }
}

/// The description lines of a leaf in a section: in the global section an
/// overridden leaf points to its local replacement.
pub open spec fn desc_for(sec: ListingSection, l: LeafModel) -> Seq<Seq<char>> {
    if sec == ListingSection::Global && l.origin == Origin::Override {
        seq!["-> local"@]
    } else {
        match l.desc {
            Some(d) => text_lines(d),
            None => seq![],
        }
    }
}

/// The rows of a namespace: its namespaces first (each followed by its own
/// rows, and left out when it has none), then its leaves that the section shows.
pub open spec fn collect(es: Seq<(Seq<char>, NodeModel)>, sec: ListingSection, depth: nat) -> Seq<
    EntryModel,
>
    decreases es, 1nat,
{
    namespace_rows(es, sec, depth) + leaf_rows(es, sec, depth)
}

pub open spec fn namespace_rows(es: Seq<(Seq<char>, NodeModel)>, sec: ListingSection, depth: nat) -> Seq<
    EntryModel,
>
    decreases es, 0nat,
{
    if es.len() == 0 {
        seq![]
    } else {
        namespace_rows(es.drop_last(), sec, depth) + match es.last().1 {
            NodeModel::Ns(gc) => {
                let sub = collect(gc, sec, deeper(depth));
                if sub.len() == 0 {
                    seq![]
                } else {
                    seq![EntryModel { depth, display: es.last().0 + seq!['/'], origin: None, desc: seq![] }]
                        + sub
                }
            },
            NodeModel::Leaf(_) => seq![],
        }
    }
}

pub open spec fn leaf_rows(es: Seq<(Seq<char>, NodeModel)>, sec: ListingSection, depth: nat) -> Seq<
    EntryModel,
>
    decreases es.len(),
{
    if es.len() == 0 {
        seq![]
    } else {
        leaf_rows(es.drop_last(), sec, depth) + match es.last().1 {
            NodeModel::Leaf(l) => if section_includes(sec, l.origin) {
                seq![EntryModel { depth, display: es.last().0, origin: Some(l.origin), desc: desc_for(sec, l) }]
            } else {
                seq![]
            },
            NodeModel::Ns(_) => seq![],
        }
    }
}

/// The rows of one leaf.
fn leaf_row(name: &String, leaf: &LeafCommand, section: ListingSection, depth: usize) -> (r: ListingEntry)
    ensures
        entry_model(r) == (EntryModel {
            depth: depth as nat,
            display: name@,
            origin: Some(leaf.origin),
            desc: desc_for(section, crate::config::leaf_model(*leaf)),
        }),
{
    let desc = if section == ListingSection::Global && leaf.origin == Origin::Override {
        let mut v: Vec<String> = Vec::new();
        v.push(owned("-> local"));
        assert(views(v@) =~= seq!["-> local"@]);
        v
    } else {
        match &leaf.desc {
            Some(d) => text_lines_exec(d.as_str()),
            None => {
                let v: Vec<String> = Vec::new();
                assert(views(v@) =~= Seq::<Seq<char>>::empty());
                v
            },
        }
    };
    ListingEntry { depth, display: name.clone(), origin: Some(leaf.origin), desc }
}

fn collect_rows(children: &CommandMap, section: ListingSection, depth: usize) -> (r: Vec<ListingEntry>)
    ensures
        entry_models(r@) == collect(map_model(*children), section, depth as nat),
    decreases children,
{
    let ghost es = children.entries@;
    let ghost m = map_model(*children);
    proof {
        lemma_entries_model(es);
    }
    let mut out: Vec<ListingEntry> = Vec::new();
    let mut i: usize = 0;
    while i < children.entries.len()
        invariant
            i <= children.entries.len(),
            es == children.entries@,
            m == map_model(*children),
            m.len() == es.len(),
            forall|j: int| 0 <= j < es.len() ==> #[trigger] m[j] == (es[j].0@, node_model(es[j].1)),
            entry_models(out@) == namespace_rows(m.take(i as int), section, depth as nat),
        decreases children.entries.len() - i,
    {
        proof {
            assert(m.take(i + 1).drop_last() =~= m.take(i as int));
            assert(m.take(i + 1).last() == m[i as int]);
        }
        let entry = &children.entries[i];
        if let CommandNode::Namespace(gc) = &entry.1 {
            assert(decreases_to!(children => gc));
            let sub = collect_rows(gc, section, depth.saturating_add(1));
            if sub.len() > 0 {
                let mut disp = entry.0.clone();
                disp.push('/');
                let ghost before = entry_models(out@);
                let ghost pre = out@;
                out.push(ListingEntry { depth, display: disp, origin: None, desc: Vec::new() });
                assert(out@ =~= pre.push(out@.last()));
                assert(views(out@.last().desc@) =~= Seq::<Seq<char>>::empty());
                assert(out@.last().display@ =~= entry.0@ + seq!['/']);
                let mut sub = sub;
                let ghost subm = entry_models(sub@);
                let ghost mid = out@;
                out.append(&mut sub);
                assert(entry_models(out@) =~= entry_models(mid) + subm);
                assert(entry_models(mid) =~= before.push(
                    EntryModel { depth: depth as nat, display: entry.0@ + seq!['/'], origin: None, desc: seq![] },
                ));
            }
        }
        i += 1;
    }
    assert(m.take(i as int) =~= m);
    let ghost ns = entry_models(out@);
    let mut j: usize = 0;
    while j < children.entries.len()
        invariant
            j <= children.entries.len(),
            es == children.entries@,
            m == map_model(*children),
            m.len() == es.len(),
            forall|q: int| 0 <= q < es.len() ==> #[trigger] m[q] == (es[q].0@, node_model(es[q].1)),
            entry_models(out@) == ns + leaf_rows(m.take(j as int), section, depth as nat),
        decreases children.entries.len() - j,
    {
        proof {
            assert(m.take(j + 1).drop_last() =~= m.take(j as int));
            assert(m.take(j + 1).last() == m[j as int]);
        }
        let entry = &children.entries[j];
        let ghost old_rows = entry_models(out@);
        if let CommandNode::Leaf(leaf) = &entry.1 {
            if section.includes(leaf.origin) {
                let row = leaf_row(&entry.0, leaf, section, depth);
                let ghost row_model = entry_model(row);
                let ghost old_out = out@;
                out.push(row);
                assert(entry_models(out@) =~= old_rows.push(row_model)) by {
                    assert(out@ =~= old_out.push(out@.last()));
                }
            }
        }
        j += 1;
        assert(entry_models(out@) =~= ns + leaf_rows(m.take(j as int), section, depth as nat));
    }
    assert(m.take(j as int) =~= m);
    out
}

/// The rows of a listing section for the given children, from depth 0.
pub fn listing_entries(children: &CommandMap, section: ListingSection) -> (r: Vec<ListingEntry>)
    ensures
        entry_models(r@) == collect(map_model(*children), section, 0),
{
    collect_rows(children, section, 0)
}

/// The terminal columns a text takes, as `unicode-width` measures it.
pub uninterp spec fn str_width(s: Seq<char>) -> usize;

/// `UnicodeWidthStr::width` of `unicode-width`: the display width of the
/// text. The contract names the result and claims nothing more of it.
#[verifier::external_body]
fn display_width(s: &str) -> (r: usize)
    ensures
        r == str_width(s@),
{
    UnicodeWidthStr::width(s)
}

/// The columns a row takes before its description: four per level of
/// nesting, then its name; held at the largest `usize`.
pub open spec fn row_width(depth: nat, name_width: nat) -> nat {
    if depth * 4 + name_width <= usize::MAX {
        depth * 4 + name_width
    } else {
        usize::MAX as nat
    }
}

/// `n` spaces.
pub open spec fn spaces(n: nat) -> Seq<char> {
    Seq::new(n, |i: int| ' ')
}

/// An overridden leaf as the global section shows it: struck through and
/// pointing to its local replacement.
pub open spec fn is_placeholder(origin: Option<Origin>, sec: ListingSection) -> bool {
    sec == ListingSection::Global && origin == Some(Origin::Override)
}

/// The style of a row's name.
pub open spec fn label_style(origin: Option<Origin>, sec: ListingSection) -> Style {
    match origin {
        Some(Origin::LocalOnly) => Style::LocalOrigin,
        Some(Origin::Override) => if sec == ListingSection::Global {
            Style::DimStrikethrough
        } else {
            Style::Warning
        },
        Some(Origin::GlobalOnly) => Style::GlobalOrigin,
        None => if sec == ListingSection::Global {
            Style::GlobalNamespace
        } else {
            Style::LocalNamespace
        },
    }
}

/// The marker before a leaf's name: `(g) ` for a global leaf, `(o) ` for a
/// local leaf that overrides a global one; none otherwise.
pub open spec fn marker_text(origin: Option<Origin>) -> Seq<char> {
    match origin {
        Some(Origin::GlobalOnly) => "(g) "@,
        Some(Origin::Override) => "(o) "@,
        _ => seq![],
    }
}

/// A row's indented, marked, styled name.
pub open spec fn label_text(e: EntryModel, sec: ListingSection, color: bool) -> Seq<char> {
    spaces(4 * e.depth) + marker_text(e.origin) + painted(color, label_style(e.origin, sec), e.display)
}

/// A description line of a row, dimmed for an override placeholder.
pub open spec fn desc_text(line: Seq<char>, origin: Option<Origin>, sec: ListingSection, color: bool) -> Seq<char> {
    if is_placeholder(origin, sec) {
        painted(color, Style::Dim, line)
    } else {
        line
    }
}

/// The printed lines of one row of width `w`, descriptions aligned after
/// `max_w` columns and three spaces.
pub open spec fn entry_lines(e: EntryModel, w: nat, max_w: nat, sec: ListingSection, color: bool) -> Seq<
    Seq<char>,
> {
    if e.desc.len() == 0 {
        seq![label_text(e, sec, color)]
    } else {
        let pad: nat = if w <= max_w {
            (max_w - w) as nat
        } else {
            0
        };
        Seq::new(
            e.desc.len(),
            |i: int|
                if i == 0 {
                    label_text(e, sec, color) + spaces(pad) + "   "@ + desc_text(e.desc[0], e.origin, sec, color)
                } else {
                    spaces(max_w + 3) + desc_text(e.desc[i], e.origin, sec, color)
                },
        )
    }
}

/// The printed lines of the rows of a section, each with its width.
pub open spec fn section_lines(es: Seq<EntryModel>, ws: Seq<nat>, max_w: nat, sec: ListingSection, color: bool) -> Seq<
    Seq<char>,
>
    decreases es.len(),
{
    if es.len() == 0 {
        seq![]
    } else {
        section_lines(es.drop_last(), ws.drop_last(), max_w, sec, color) + entry_lines(
            es.last(),
            ws.last(),
            max_w,
            sec,
            color,
        )
    }
}

/// A config path as a listing heading shows it.
pub open spec fn path_or_none(p: Option<Seq<char>>) -> Seq<char> {
    match p {
        Some(s) => s,
        None => "(none)"@,
    }
}

/// The heading of a section.
pub open spec fn heading_text(sec: ListingSection, color: bool) -> Seq<char> {
    painted(color, Style::Primary, "--- "@ + section_name(sec) + " commands ---"@)
}

/// The lines that name the config files, shown above a listing of the root
/// unless output is quiet.
pub open spec fn configs_header(
    at_root: bool,
    quiet: bool,
    color: bool,
    header_global: Option<Seq<char>>,
    header_local: Option<Seq<char>>,
) -> Seq<Seq<char>> {
    if at_root && !quiet {
        seq![
            painted(color, Style::Primary, "[jk] configs:"@),
            painted(color, Style::Muted, "  global: "@ + path_or_none(header_global)),
            painted(color, Style::Muted, "  local:  "@ + path_or_none(header_local)),
        ]
    } else {
        seq![]
    }
}

/// The largest of some widths, 0 for none.
pub open spec fn seq_max(ws: Seq<nat>) -> nat
    decreases ws.len(),
{
    if ws.len() == 0 {
        0
    } else if seq_max(ws.drop_last()) >= ws.last() {
        seq_max(ws.drop_last())
    } else {
        ws.last()
    }
}

/// One section of a listing: its heading and rows. Below the root a section
/// without rows is left out.
pub open spec fn section_block(
    sec: ListingSection,
    at_root: bool,
    color: bool,
    es: Seq<EntryModel>,
    ws: Seq<nat>,
    max_w: nat,
) -> Seq<Seq<char>> {
    if !at_root && es.len() == 0 {
        seq![]
    } else {
        seq![heading_text(sec, color)] + section_lines(es, ws, max_w, sec, color)
    }
}

/// A whole listing: at the root and unless quiet, the config files; then
/// the global section and the local one, descriptions aligned across both.
pub open spec fn listing_text(
    at_root: bool,
    quiet: bool,
    color: bool,
    header_global: Option<Seq<char>>,
    header_local: Option<Seq<char>>,
    global: Seq<EntryModel>,
    global_widths: Seq<nat>,
    local: Seq<EntryModel>,
    local_widths: Seq<nat>,
) -> Seq<Seq<char>> {
    let max_w = seq_max(global_widths + local_widths);
    configs_header(at_root, quiet, color, header_global, header_local) + section_block(
        ListingSection::Global,
        at_root,
        color,
        global,
        global_widths,
        max_w,
    ) + section_block(ListingSection::Local, at_root, color, local, local_widths, max_w)
}

/// Widths as numbers.
pub open spec fn nats(ws: Seq<usize>) -> Seq<nat> {
    ws.map_values(|w: usize| w as nat)
}

/// The widths of rows as measured on their markers and names.
pub open spec fn row_widths(es: Seq<EntryModel>) -> Seq<nat> {
    es.map_values(|e: EntryModel| row_width(e.depth, marker_text(e.origin).len() + (str_width(e.display) as nat)))
}

/// `out` followed by `n` spaces.
fn push_spaces(out: &mut String, n: usize)
    ensures
        final(out)@ == old(out)@ + spaces(n as nat),
{
    let mut k: usize = 0;
    while k < n
        invariant
            k <= n,
            out@ == old(out)@ + spaces(k as nat),
        decreases n - k,
    {
        out.push(' ');
        k += 1;
        assert(out@ =~= old(out)@ + spaces(k as nat));
    }
}

impl ListingEntry {
    /// Whether this row is an overridden leaf in the global section.
    pub fn is_override_placeholder(&self, section: ListingSection) -> (r: bool)
        ensures
            r == is_placeholder(self.origin, section),
    {
        section == ListingSection::Global && match self.origin {
            Some(o) => o == Origin::Override,
            None => false,
        }
    }

    /// The indented name of the row in its style.
    pub fn styled_label(&self, section: ListingSection, painter: Painter) -> (r: String)
        ensures
            r@ == label_text(entry_model(*self), section, painter.enabled),
    {
        let style = match self.origin {
            Some(Origin::LocalOnly) => Style::LocalOrigin,
            Some(Origin::Override) => if self.is_override_placeholder(section) {
                Style::DimStrikethrough
            } else {
                Style::Warning
            },
            Some(Origin::GlobalOnly) => Style::GlobalOrigin,
            None => match section {
                ListingSection::Global => Style::GlobalNamespace,
                ListingSection::Local => Style::LocalNamespace,
            },
        };
        let mut r = String::new();
        let mut k: usize = 0;
        while k < self.depth
            invariant
                k <= self.depth,
                r@ == spaces(4 * k as nat),
            decreases self.depth - k,
        {
            let ghost before = r@;
            r.push_str("    ");
            k += 1;
            proof {
                reveal_strlit("    ");
                assert(r@ =~= before + spaces(4));
            }
            assert(r@ =~= spaces(4 * k as nat));
        }
        let marker = match self.origin {
            Some(Origin::GlobalOnly) => "(g) ",
            Some(Origin::Override) => "(o) ",
            _ => "",
        };
        proof {
            reveal_strlit("(g) ");
            reveal_strlit("(o) ");
            reveal_strlit("");
        }
        r.push_str(marker);
        let name = painter.paint(style, self.display.as_str());
        r.push_str(name.as_str());
        r
    }

    /// A description line of the row, dimmed for an override placeholder.
    pub fn styled_desc(&self, line: &str, section: ListingSection, painter: Painter) -> (r: String)
        ensures
            r@ == desc_text(line@, self.origin, section, painter.enabled),
    {
        if self.is_override_placeholder(section) {
            painter.paint(Style::Dim, line)
        } else {
            owned(line)
        }
    }

    /// The columns the row takes before its description.
    pub fn width(&self) -> (r: usize)
        ensures
            r as nat == row_width(self.depth as nat, marker_text(self.origin).len() + (str_width(self.display@) as nat)),
    {
        let w = display_width(self.display.as_str());
        let m: usize = match self.origin {
            Some(Origin::GlobalOnly) => 4,
            Some(Origin::Override) => 4,
            _ => 0,
        };
        proof {
            reveal_strlit("(g) ");
            reveal_strlit("(o) ");
        }
        match self.depth.checked_mul(4) {
            Some(d) => match d.checked_add(m) {
                Some(dm) => match dm.checked_add(w) {
                    Some(t) => t,
                    None => usize::MAX,
                },
                None => usize::MAX,
            },
            None => usize::MAX,
        }
    }
}

/// Appends the lines of one row.
fn push_entry_lines(
    lines: &mut Vec<String>,
    e: &ListingEntry,
    w: usize,
    max_w: usize,
    section: ListingSection,
    painter: Painter,
)
    ensures
        views(final(lines)@) == views(old(lines)@) + entry_lines(
            entry_model(*e),
            w as nat,
            max_w as nat,
            section,
            painter.enabled,
        ),
{
    let ghost em = entry_model(*e);
    let ghost want = entry_lines(em, w as nat, max_w as nat, section, painter.enabled);
    let label = e.styled_label(section, painter);
    if e.desc.len() == 0 {
        let ghost pre = lines@;
        lines.push(label);
        assert(lines@ =~= pre.push(lines@.last()));
        assert(views(lines@) =~= views(old(lines)@) + want);
        return;
    }
    let pad: usize = if w <= max_w {
        max_w - w
    } else {
        0
    };
    let mut i: usize = 0;
    while i < e.desc.len()
        invariant
            0 < e.desc.len(),
            i <= e.desc.len(),
            em == entry_model(*e),
            label@ == label_text(em, section, painter.enabled),
            want == entry_lines(em, w as nat, max_w as nat, section, painter.enabled),
            want.len() == e.desc.len(),
            pad as nat == (if w <= max_w {
                (max_w - w) as nat
            } else {
                0nat
            }),
            views(lines@) == views(old(lines)@) + want.take(i as int),
        decreases e.desc.len() - i,
    {
        let desc = e.styled_desc(e.desc[i].as_str(), section, painter);
        let mut line = String::new();
        if i == 0 {
            line.push_str(label.as_str());
            push_spaces(&mut line, pad);
            line.push_str("   ");
        } else {
            push_spaces(&mut line, max_w);
            line.push_str("   ");
        }
        line.push_str(desc.as_str());
        proof {
            reveal_strlit("   ");
            assert(em.desc[i as int] == e.desc@[i as int]@);
            if i == 0 {
                assert(line@ =~= want[i as int]);
            } else {
                assert(spaces(max_w as nat) + "   "@ =~= spaces((max_w + 3) as nat));
                assert(line@ =~= want[i as int]);
            }
        }
        let ghost pre = lines@;
        let ghost lv = line@;
        lines.push(line);
        proof {
            assert(lines@ =~= pre.push(lines@.last()));
            assert(views(lines@) =~= views(pre).push(lv));
            assert(want.take(i + 1) =~= want.take(i as int).push(want[i as int]));
        }
        i += 1;
        assert(views(lines@) =~= views(old(lines)@) + want.take(i as int));
    }
    assert(want.take(i as int) =~= want);
}

/// The lines of the rows of a section.
fn push_section_lines(
    lines: &mut Vec<String>,
    es: &Vec<ListingEntry>,
    ws: &Vec<usize>,
    max_w: usize,
    section: ListingSection,
    painter: Painter,
)
    requires
        es.len() == ws.len(),
    ensures
        views(final(lines)@) == views(old(lines)@) + section_lines(
            entry_models(es@),
            nats(ws@),
            max_w as nat,
            section,
            painter.enabled,
        ),
{
    let mut i: usize = 0;
    while i < es.len()
        invariant
            es.len() == ws.len(),
            i <= es.len(),
            views(lines@) == views(old(lines)@) + section_lines(
                entry_models(es@.take(i as int)),
                nats(ws@.take(i as int)),
                max_w as nat,
                section,
                painter.enabled,
            ),
        decreases es.len() - i,
    {
        let ghost before = views(lines@);
        push_entry_lines(lines, &es[i], ws[i], max_w, section, painter);
        proof {
            let em = entry_models(es@.take(i + 1));
            let wn = nats(ws@.take(i + 1));
            assert(em.drop_last() =~= entry_models(es@.take(i as int)));
            assert(wn.drop_last() =~= nats(ws@.take(i as int)));
            assert(em.last() == entry_model(es@[i as int]));
            assert(wn.last() == ws@[i as int] as nat);
        }
        i += 1;
    }
    assert(es@.take(i as int) =~= es@);
    assert(ws@.take(i as int) =~= ws@);
}

/// The largest width, 0 for none.
fn max_width(a: &Vec<usize>, b: &Vec<usize>) -> (r: usize)
    ensures
        r as nat == seq_max(nats(a@) + nats(b@)),
{
    let ghost all = nats(a@) + nats(b@);
    let mut m: usize = 0;
    let mut i: usize = 0;
    while i < a.len()
        invariant
            all == nats(a@) + nats(b@),
            i <= a.len(),
            m as nat == seq_max(all.take(i as int)),
        decreases a.len() - i,
    {
        proof {
            let t = all.take(i + 1);
            assert(t.drop_last() =~= all.take(i as int));
            assert(t.last() == a@[i as int] as nat);
        }
        if a[i] > m {
            m = a[i];
        }
        i += 1;
    }
    let mut j: usize = 0;
    while j < b.len()
        invariant
            all == nats(a@) + nats(b@),
            j <= b.len(),
            m as nat == seq_max(all.take(a.len() + j)),
        decreases b.len() - j,
    {
        proof {
            let t = all.take(a.len() + j + 1);
            assert(t.drop_last() =~= all.take(a.len() + j));
            assert(t.last() == b@[j as int] as nat);
        }
        if b[j] > m {
            m = b[j];
        }
        j += 1;
    }
    assert(all.take(a.len() + j) =~= all);
    m
}

/// The text of a config path in a heading, `(none)` when there is none.
pub fn display_path_or_none(p: Option<&str>) -> (r: String)
    ensures
        r@ == path_or_none(match p {
            Some(s) => Some(s@),
            None => None,
        }),
{
    match p {
        Some(s) => owned(s),
        None => owned("(none)"),
    }
}

/// The heading of a section.
fn heading_line(section: ListingSection, painter: Painter) -> (r: String)
    ensures
        r@ == heading_text(section, painter.enabled),
{
    let mut h = owned("--- ");
    h.push_str(section.name());
    h.push_str(" commands ---");
    painter.paint(Style::Primary, h.as_str())
}

/// The config-file lines above a listing.
fn push_configs_header(
    lines: &mut Vec<String>,
    at_root: bool,
    quiet: bool,
    header_global: Option<&str>,
    header_local: Option<&str>,
    painter: Painter,
)
    ensures
        views(final(lines)@) == views(old(lines)@) + configs_header(
            at_root,
            quiet,
            painter.enabled,
            opt_str(header_global),
            opt_str(header_local),
        ),
{
    if at_root && !quiet {
        let l1 = painter.paint(Style::Primary, "[jk] configs:");
        let mut g = owned("  global: ");
        let gp = display_path_or_none(header_global);
        g.push_str(gp.as_str());
        let l2 = painter.paint(Style::Muted, g.as_str());
        let mut l = owned("  local:  ");
        let lp = display_path_or_none(header_local);
        l.push_str(lp.as_str());
        let l3 = painter.paint(Style::Muted, l.as_str());
        let ghost v1 = l1@;
        let ghost v2 = l2@;
        let ghost v3 = l3@;
        let ghost pre = lines@;
        lines.push(l1);
        let ghost p1 = lines@;
        lines.push(l2);
        let ghost p2 = lines@;
        lines.push(l3);
        assert(p1 =~= pre.push(p1.last()));
        assert(p2 =~= p1.push(p2.last()));
        assert(lines@ =~= p2.push(lines@.last()));
        assert(views(lines@) =~= views(pre) + seq![v1, v2, v3]);
    } else {
        assert(views(lines@) =~= views(old(lines)@) + Seq::<Seq<char>>::empty());
    }
}

/// The lines of a listing from its rows and their widths: the global
/// section, then the local one.
pub fn render_listing(
    at_root: bool,
    quiet: bool,
    color: bool,
    header_global: Option<&str>,
    header_local: Option<&str>,
    global: &Vec<ListingEntry>,
    global_widths: &Vec<usize>,
    local: &Vec<ListingEntry>,
    local_widths: &Vec<usize>,
) -> (r: Vec<String>)
    requires
        global.len() == global_widths.len(),
        local.len() == local_widths.len(),
    ensures
        views(r@) == listing_text(
            at_root,
            quiet,
            color,
            match header_global {
                Some(s) => Some(s@),
                None => None,
            },
            match header_local {
                Some(s) => Some(s@),
                None => None,
            },
            entry_models(global@),
            nats(global_widths@),
            entry_models(local@),
            nats(local_widths@),
        ),
{
    let painter = Painter::new(color);
    let max_w = max_width(global_widths, local_widths);
    let mut lines: Vec<String> = Vec::new();
    push_configs_header(&mut lines, at_root, quiet, header_global, header_local, painter);
    let ghost head = views(lines@);
    if at_root || global.len() > 0 {
        let h = heading_line(ListingSection::Global, painter);
        let ghost pre = lines@;
        lines.push(h);
        assert(lines@ =~= pre.push(lines@.last()));
        push_section_lines(&mut lines, global, global_widths, max_w, ListingSection::Global, painter);
    }
    let ghost mid = views(lines@);
    if at_root || local.len() > 0 {
        let h = heading_line(ListingSection::Local, painter);
        let ghost pre = lines@;
        lines.push(h);
        assert(lines@ =~= pre.push(lines@.last()));
        push_section_lines(&mut lines, local, local_widths, max_w, ListingSection::Local, painter);
    }
    proof {
        let hg = match header_global {
            Some(s) => Some(s@),
            None => None,
        };
        let hl = match header_local {
            Some(s) => Some(s@),
            None => None,
        };
        let g = section_block(
            ListingSection::Global,
            at_root,
            color,
            entry_models(global@),
            nats(global_widths@),
            max_w as nat,
        );
        assert(mid =~= head + g);
        assert(views(lines@) =~= listing_text(
            at_root,
            quiet,
            color,
            hg,
            hl,
            entry_models(global@),
            nats(global_widths@),
            entry_models(local@),
            nats(local_widths@),
        ));
    }
    lines
}

/// How the runner prints: whether its status lines are shown, and whether
/// its own lines on stderr and on stdout are coloured.
#[derive(Clone, Copy, Debug)]
pub struct Out {
    pub quiet: bool,
    pub color: bool,
    pub stdout_color: bool,
}

/// A string slice as an optional text.
pub open spec fn opt_str(o: Option<&str>) -> Option<Seq<char>> {
    match o {
        Some(s) => Some(s@),
        None => None,
    }
}

/// An environment switch is on only when its value is exactly `1`.
pub open spec fn switch_on(v: Option<Seq<char>>) -> bool {
    v == Some("1"@)
}

fn is_switch_on(v: Option<&str>) -> (r: bool)
    ensures
        r == switch_on(opt_str(v)),
{
    match v {
        Some(s) => string_eq_str(s, "1"),
        None => false,
    }
}

impl Out {
    /// The settings from the values of `JK_QUIET` and `JK_NO_COLOR` and from
    /// whether stderr and stdout are terminals. A variable takes effect only
    /// when its value is exactly `1`; any other value, the empty one
    /// included, is ignored.
    pub fn from_env_values(
        quiet_var: Option<&str>,
        no_color_var: Option<&str>,
        stderr_tty: bool,
        stdout_tty: bool,
    ) -> (r: Out)
        ensures
            r.quiet == switch_on(opt_str(quiet_var)),
            r.color == (!switch_on(opt_str(no_color_var)) && stderr_tty),
            r.stdout_color == (!switch_on(opt_str(no_color_var)) && stdout_tty),
    {
        let quiet = is_switch_on(quiet_var);
        let force_no_color = is_switch_on(no_color_var);
        Out { quiet, color: !force_no_color && stderr_tty, stdout_color: !force_no_color && stdout_tty }
    }

    /// The settings with `quiet` or `no_color` switched on as well (from the
    /// command line or from a command's own fields). A flag adds to the
    /// settings and never takes one away.
    pub fn with_flags(self, quiet: bool, no_color: bool) -> (r: Out)
        ensures
            r.quiet == (self.quiet || quiet),
            r.color == (self.color && !no_color),
            r.stdout_color == (self.stdout_color && !no_color),
    {
        Out {
            quiet: self.quiet || quiet,
            color: self.color && !no_color,
            stdout_color: self.stdout_color && !no_color,
        }
    }

    /// The status line that announces a step of the command named `name`,
    /// none when quiet.
    pub fn step_header_line(&self, ts: &str, name: &str) -> (r: Option<String>)
        ensures
            self.quiet ==> r is None,
            !self.quiet ==> r is Some && r->0@ == step_text(ts@, name@, self.color),
    {
        if self.quiet {
            None
        } else {
            Some(fmt_step(ts, name, self.color))
        }
    }

    /// The status line after every step succeeded, none when quiet.
    pub fn completed_line(&self, ts: &str, ms: u128) -> (r: Option<String>)
        ensures
            self.quiet ==> r is None,
            !self.quiet ==> r is Some && r->0@ == completed_text(ts@, ms as nat, self.color),
    {
        if self.quiet {
            None
        } else {
            Some(fmt_completed(ts, ms, self.color))
        }
    }

    /// The status line for a failed step (counted from 0), none when quiet.
    pub fn failed_line(&self, ts: &str, step_idx: usize, exit: i32) -> (r: Option<String>)
        requires
            step_idx < usize::MAX,
        ensures
            self.quiet ==> r is None,
            !self.quiet ==> r is Some && r->0@ == failed_text(ts@, step_idx as nat, exit as int, self.color),
    {
        if self.quiet {
            None
        } else {
            Some(fmt_failed(ts, step_idx, exit, self.color))
        }
    }

    /// The line that reports an error to the user; quiet does not hide it.
    pub fn user_error_line(&self, msg: &str) -> (r: String)
        ensures
            r@ == error_line_text(msg@, self.color),
    {
        fmt_error(msg, self.color)
    }

    /// The lines of a command listing of `children`, reached at `path`:
    /// commands grouped by their global or local origin, namespaces expanded,
    /// descriptions aligned. Quiet keeps the sections but leaves their config
    /// paths out.
    pub fn listing_lines(
        &self,
        path: &[String],
        children: &CommandMap,
        header_global: Option<&str>,
        header_local: Option<&str>,
    ) -> (r: Vec<String>)
        ensures
            views(r@) == listing_text(
                path@.len() == 0,
                self.quiet,
                self.stdout_color,
                opt_str(header_global),
                opt_str(header_local),
                collect(map_model(*children), ListingSection::Global, 0),
                row_widths(collect(map_model(*children), ListingSection::Global, 0)),
                collect(map_model(*children), ListingSection::Local, 0),
                row_widths(collect(map_model(*children), ListingSection::Local, 0)),
            ),
    {
        let global = listing_entries(children, ListingSection::Global);
        let local = listing_entries(children, ListingSection::Local);
        let gw = row_widths_exec(&global);
        let lw = row_widths_exec(&local);
        render_listing(
            path.len() == 0,
            self.quiet,
            self.stdout_color,
            header_global,
            header_local,
            &global,
            &gw,
            &local,
            &lw,
        )
    }
}

fn row_widths_exec(es: &Vec<ListingEntry>) -> (r: Vec<usize>)
    ensures
        r.len() == es.len(),
        nats(r@) == row_widths(entry_models(es@)),
{
    let mut r: Vec<usize> = Vec::new();
    let mut i: usize = 0;
    while i < es.len()
        invariant
            i <= es.len(),
            r.len() == i,
            forall|j: int| 0 <= j < i ==> #[trigger] r@[j] as nat == row_width(
                es@[j].depth as nat,
                marker_text(es@[j].origin).len() + (str_width(es@[j].display@) as nat),
            ),
        decreases es.len() - i,
    {
        r.push(es[i].width());
        i += 1;
    }
    assert(nats(r@) =~= row_widths(entry_models(es@)));
    r
}

/// The row a listing shows for the leaf `l` named `name` at nesting `depth`.
pub open spec fn leaf_row_at(name: Seq<char>, l: LeafModel, sec: ListingSection, depth: nat) -> EntryModel {
    EntryModel { depth, display: name, origin: Some(l.origin), desc: desc_for(sec, l) }
}

/// The row a listing shows for the namespace `name` at nesting `depth`.
pub open spec fn namespace_row_at(name: Seq<char>, depth: nat) -> EntryModel {
    EntryModel { depth, display: name + seq!['/'], origin: None, desc: seq![] }
}

proof fn lemma_contains_concat(a: Seq<EntryModel>, b: Seq<EntryModel>, x: EntryModel)
    ensures
        (a.contains(x) || b.contains(x)) ==> (a + b).contains(x),
{
    if a.contains(x) {
        let i = choose|i: int| 0 <= i < a.len() && a[i] == x;
        assert((a + b)[i] == x);
    } else if b.contains(x) {
        let i = choose|i: int| 0 <= i < b.len() && b[i] == x;
        assert((a + b)[a.len() + i] == x);
    }
}

proof fn lemma_get_at(es: Seq<(Seq<char>, NodeModel)>, k: Seq<char>) -> (i: int)
    requires
        model_get(es, k) is Some,
    ensures
        0 <= i < es.len(),
        es[i] == (k, model_get(es, k)->0),
{
    lemma_model_find(es, k, 0);
    model_find(es, k, 0)->0
}

proof fn lemma_leaf_rows_has(es: Seq<(Seq<char>, NodeModel)>, i: int, l: LeafModel, sec: ListingSection, d: nat)
    requires
        0 <= i < es.len(),
        es[i].1 == NodeModel::Leaf(l),
        section_includes(sec, l.origin),
    ensures
        leaf_rows(es, sec, d).contains(leaf_row_at(es[i].0, l, sec, d)),
    decreases es.len(),
{
    let x = leaf_row_at(es[i].0, l, sec, d);
    let d0 = es.drop_last();
    let chunk = match es.last().1 {
        NodeModel::Leaf(l2) => if section_includes(sec, l2.origin) {
            seq![EntryModel { depth: d, display: es.last().0, origin: Some(l2.origin), desc: desc_for(sec, l2) }]
        } else {
            seq![]
        },
        NodeModel::Ns(_) => seq![],
    };
    assert(leaf_rows(es, sec, d) == leaf_rows(d0, sec, d) + chunk);
    if i < es.len() - 1 {
        assert(d0[i] == es[i]);
        lemma_leaf_rows_has(d0, i, l, sec, d);
    } else {
        assert(chunk == seq![x]);
        assert(chunk[0] == x);
    }
    lemma_contains_concat(leaf_rows(d0, sec, d), chunk, x);
}

proof fn lemma_namespace_rows_has(
    es: Seq<(Seq<char>, NodeModel)>,
    i: int,
    gc: Seq<(Seq<char>, NodeModel)>,
    sec: ListingSection,
    d: nat,
    x: EntryModel,
)
    requires
        0 <= i < es.len(),
        es[i].1 == NodeModel::Ns(gc),
        collect(gc, sec, deeper(d)).len() > 0,
        x == namespace_row_at(es[i].0, d) || collect(gc, sec, deeper(d)).contains(x),
    ensures
        namespace_rows(es, sec, d).contains(x),
    decreases es.len(),
{
    let d0 = es.drop_last();
    let chunk = match es.last().1 {
        NodeModel::Ns(g2) => {
            let sub = collect(g2, sec, deeper(d));
            if sub.len() == 0 {
                seq![]
            } else {
                seq![EntryModel { depth: d, display: es.last().0 + seq!['/'], origin: None, desc: seq![] }] + sub
            }
        },
        NodeModel::Leaf(_) => seq![],
    };
    assert(namespace_rows(es, sec, d) == namespace_rows(d0, sec, d) + chunk);
    if i < es.len() - 1 {
        assert(d0[i] == es[i]);
        lemma_namespace_rows_has(d0, i, gc, sec, d, x);
        lemma_contains_concat(namespace_rows(d0, sec, d), chunk, x);
    } else {
        let sub = collect(gc, sec, deeper(d));
        let head = seq![namespace_row_at(es[i].0, d)];
        assert(chunk == head + sub);
        if x == namespace_row_at(es[i].0, d) {
            assert(head[0] == x);
            lemma_contains_concat(head, sub, x);
        } else {
            lemma_contains_concat(head, sub, x);
        }
        lemma_contains_concat(namespace_rows(d0, sec, d), chunk, x);
    }
}

proof fn lemma_collect_shows(es: Seq<(Seq<char>, NodeModel)>, sec: ListingSection, p: Seq<Seq<char>>, l: LeafModel, d: nat)
    requires
        p.len() >= 1,
        d + p.len() <= usize::MAX,
        lookup_model(es, p) == Some(NodeModel::Leaf(l)),
        section_includes(sec, l.origin),
    ensures
        collect(es, sec, d).contains(leaf_row_at(p.last(), l, sec, (d + p.len() - 1) as nat)),
        forall|j: int| 0 <= j < p.len() - 1 ==> #[trigger] collect(es, sec, d).contains(
            namespace_row_at(p[j], (d + j) as nat),
        ),
    decreases p.len(),
{
    let k0 = p[0];
    let rest = p.drop_first();
    let c = model_get(es, k0)->0;
    let i = lemma_get_at(es, k0);
    if rest.len() == 0 {
        assert(c == NodeModel::Leaf(l));
        lemma_leaf_rows_has(es, i, l, sec, d);
        lemma_contains_concat(namespace_rows(es, sec, d), leaf_rows(es, sec, d), leaf_row_at(p.last(), l, sec, (d + p.len() - 1) as nat));
    } else {
        if let NodeModel::Ns(gc) = c {
            assert(lookup_model(gc, rest) == descend(c, rest));
            assert(deeper(d) == d + 1);
            lemma_collect_shows(gc, sec, rest, l, d + 1);
            let sub = collect(gc, sec, d + 1);
            let lr = leaf_row_at(p.last(), l, sec, (d + p.len() - 1) as nat);
            assert(rest.last() == p.last());
            assert(sub.contains(lr));
            assert(sub.len() > 0);
            lemma_namespace_rows_has(es, i, gc, sec, d, lr);
            lemma_contains_concat(namespace_rows(es, sec, d), leaf_rows(es, sec, d), lr);
            assert forall|j: int| 0 <= j < p.len() - 1 implies #[trigger] collect(es, sec, d).contains(
                namespace_row_at(p[j], (d + j) as nat),
            ) by {
                let x = namespace_row_at(p[j], (d + j) as nat);
                if j == 0 {
                    lemma_namespace_rows_has(es, i, gc, sec, d, x);
                } else {
                    assert(rest[j - 1] == p[j]);
                    assert(sub.contains(namespace_row_at(rest[j - 1], (d + 1 + (j - 1)) as nat)));
                    assert((d + 1 + (j - 1)) as nat == (d + j) as nat);
                    lemma_namespace_rows_has(es, i, gc, sec, d, x);
                }
                lemma_contains_concat(namespace_rows(es, sec, d), leaf_rows(es, sec, d), x);
            }
        } else {
            assert(descend(c, rest) is None);
        }
    }
}

/// A listing shows every command at any depth: for each path that names a
/// leaf the section shows, the listing of the map holds a row for the leaf
/// (its name, at the depth of its nesting) and a row `name/` for each
/// namespace on the way to it, at that namespace's depth.
pub proof fn law_listing_shows_every_command(
    es: Seq<(Seq<char>, NodeModel)>,
    sec: ListingSection,
    path: Seq<Seq<char>>,
    l: LeafModel,
)
    requires
        1 <= path.len() <= usize::MAX,
        lookup_model(es, path) == Some(NodeModel::Leaf(l)),
        section_includes(sec, l.origin),
    ensures
        collect(es, sec, 0).contains(leaf_row_at(path.last(), l, sec, (path.len() - 1) as nat)),
        forall|j: int| 0 <= j < path.len() - 1 ==> #[trigger] collect(es, sec, 0).contains(
            namespace_row_at(path[j], j as nat),
        ),
{
    lemma_collect_shows(es, sec, path, l, 0);
    assert forall|j: int| 0 <= j < path.len() - 1 implies #[trigger] collect(es, sec, 0).contains(
        namespace_row_at(path[j], j as nat),
    ) by {
        assert(collect(es, sec, 0).contains(namespace_row_at(path[j], (0 + j) as nat)));
    }
}

/// `d` nested `k` levels deeper.
pub open spec fn depth_after(d: nat, k: nat) -> nat
    decreases k,
{
    if k == 0 {
        d
    } else {
        depth_after(deeper(d), (k - 1) as nat)
    }
}

/// The node is a leaf that the section shows.
pub open spec fn shown_leaf(n: Option<NodeModel>, sec: ListingSection) -> bool {
    match n {
        Some(NodeModel::Leaf(l)) => section_includes(sec, l.origin),
        _ => false,
    }
}

/// Some continuation of `p` names a leaf that the section shows.
pub open spec fn shown_leaf_below(es: Seq<(Seq<char>, NodeModel)>, sec: ListingSection, p: Seq<Seq<char>>) -> bool {
    exists|q: Seq<Seq<char>>| q.len() > 0 && shown_leaf(#[trigger] lookup_model(es, p + q), sec)
}

/// The row `r`, listed at base depth `d`, stands for the path `p`: a leaf
/// the section shows, or a namespace with such a leaf below it.
pub open spec fn row_for_path(
    es: Seq<(Seq<char>, NodeModel)>,
    sec: ListingSection,
    d: nat,
    r: EntryModel,
    p: Seq<Seq<char>>,
) -> bool {
    &&& p.len() >= 1
    &&& match lookup_model(es, p) {
        Some(NodeModel::Leaf(l)) => section_includes(sec, l.origin) && r == leaf_row_at(
            p.last(),
            l,
            sec,
            depth_after(d, (p.len() - 1) as nat),
        ),
        Some(NodeModel::Ns(_)) => r == namespace_row_at(p.last(), depth_after(d, (p.len() - 1) as nat))
            && shown_leaf_below(es, sec, p),
        None => false,
    }
}

proof fn lemma_sorted_get(es: Seq<(Seq<char>, NodeModel)>, i: int)
    requires
        sorted(es),
        0 <= i < es.len(),
    ensures
        model_get(es, es[i].0) == Some(es[i].1),
{
    lemma_model_find(es, es[i].0, 0);
    let j = model_find(es, es[i].0, 0)->0;
    if j != i {
        if j < i {
            assert(crate::text::seq_lt(es[j].0, es[i].0));
        } else {
            assert(crate::text::seq_lt(es[i].0, es[j].0));
        }
        crate::text::lemma_seq_lt_irreflexive(es[i].0);
    }
}

/// A path one name longer than `[k]`.
proof fn lemma_lookup_cons(es: Seq<(Seq<char>, NodeModel)>, k: Seq<char>, gc: Seq<(Seq<char>, NodeModel)>, q: Seq<Seq<char>>)
    requires
        model_get(es, k) == Some(NodeModel::Ns(gc)),
        q.len() > 0,
    ensures
        lookup_model(es, seq![k] + q) == lookup_model(gc, q),
{
    let p = seq![k] + q;
    assert(p[0] == k);
    assert(p.drop_first() =~= q);
}

proof fn lemma_row_lifts(
    es: Seq<(Seq<char>, NodeModel)>,
    k: Seq<char>,
    gc: Seq<(Seq<char>, NodeModel)>,
    sec: ListingSection,
    d: nat,
    r: EntryModel,
    p: Seq<Seq<char>>,
)
    requires
        model_get(es, k) == Some(NodeModel::Ns(gc)),
        row_for_path(gc, sec, deeper(d), r, p),
    ensures
        row_for_path(es, sec, d, r, seq![k] + p),
{
    let pp = seq![k] + p;
    lemma_lookup_cons(es, k, gc, p);
    assert(pp.last() == p.last());
    assert(depth_after(d, (pp.len() - 1) as nat) == depth_after(deeper(d), (p.len() - 1) as nat));
    if let Some(NodeModel::Ns(_)) = lookup_model(gc, p) {
        let q = choose|q: Seq<Seq<char>>| q.len() > 0 && shown_leaf(#[trigger] lookup_model(gc, p + q), sec);
        lemma_lookup_cons(es, k, gc, p + q);
        assert(seq![k] + (p + q) =~= pp + q);
    }
}

proof fn lemma_leaf_rows_sound(es: Seq<(Seq<char>, NodeModel)>, m: int, sec: ListingSection, d: nat, r: EntryModel)
    requires
        sorted(es),
        0 <= m <= es.len(),
        leaf_rows(es.take(m), sec, d).contains(r),
    ensures
        row_for_path(es, sec, d, r, seq![r.display]),
    decreases m,
{
    let t = es.take(m);
    assert(m > 0);
    let d0 = t.drop_last();
    assert(d0 =~= es.take(m - 1));
    assert(t.last() == es[m - 1]);
    let chunk = match es[m - 1].1 {
        NodeModel::Leaf(l2) => if section_includes(sec, l2.origin) {
            seq![EntryModel { depth: d, display: es[m - 1].0, origin: Some(l2.origin), desc: desc_for(sec, l2) }]
        } else {
            seq![]
        },
        NodeModel::Ns(_) => seq![],
    };
    assert(leaf_rows(t, sec, d) == leaf_rows(d0, sec, d) + chunk);
    let a = leaf_rows(d0, sec, d);
    let i = choose|i: int| 0 <= i < a.len() + chunk.len() && (a + chunk)[i] == r;
    if i < a.len() {
        assert(a[i] == r);
        lemma_leaf_rows_sound(es, m - 1, sec, d, r);
    } else {
        assert(chunk[i - a.len()] == r);
        lemma_sorted_get(es, m - 1);
        let p = seq![r.display];
        assert(p[0] == es[m - 1].0);
        assert(p.drop_first().len() == 0);
    }
}

proof fn lemma_collect_sound(es: Seq<(Seq<char>, NodeModel)>, sec: ListingSection, d: nat, r: EntryModel)
    requires
        entries_wf(es),
        collect(es, sec, d).contains(r),
    ensures
        exists|p: Seq<Seq<char>>| #[trigger] row_for_path(es, sec, d, r, p),
    decreases es, 2nat, 0int,
{
    let a = namespace_rows(es, sec, d);
    let b = leaf_rows(es, sec, d);
    let i = choose|i: int| 0 <= i < a.len() + b.len() && (a + b)[i] == r;
    if i < a.len() {
        assert(a[i] == r);
        assert(es.take(es.len() as int) =~= es);
        lemma_ns_rows_sound(es, es.len() as int, sec, d, r);
    } else {
        assert(b[i - a.len()] == r);
        assert(es.take(es.len() as int) =~= es);
        lemma_leaf_rows_sound(es, es.len() as int, sec, d, r);
        assert(row_for_path(es, sec, d, r, seq![r.display]));
    }
}

proof fn lemma_ns_rows_sound(es: Seq<(Seq<char>, NodeModel)>, m: int, sec: ListingSection, d: nat, r: EntryModel)
    requires
        entries_wf(es),
        0 <= m <= es.len(),
        namespace_rows(es.take(m), sec, d).contains(r),
    ensures
        exists|p: Seq<Seq<char>>| #[trigger] row_for_path(es, sec, d, r, p),
    decreases es, 1nat, m,
{
    let t = es.take(m);
    assert(m > 0);
    let d0 = t.drop_last();
    assert(d0 =~= es.take(m - 1));
    assert(t.last() == es[m - 1]);
    let k = es[m - 1].0;
    let chunk = match es[m - 1].1 {
        NodeModel::Ns(g2) => {
            let sub = collect(g2, sec, deeper(d));
            if sub.len() == 0 {
                seq![]
            } else {
                seq![EntryModel { depth: d, display: k + seq!['/'], origin: None, desc: seq![] }] + sub
            }
        },
        NodeModel::Leaf(_) => seq![],
    };
    assert(namespace_rows(t, sec, d) == namespace_rows(d0, sec, d) + chunk);
    let a = namespace_rows(d0, sec, d);
    let i = choose|i: int| 0 <= i < a.len() + chunk.len() && (a + chunk)[i] == r;
    if i < a.len() {
        assert(a[i] == r);
        lemma_ns_rows_sound(es, m - 1, sec, d, r);
    } else {
        assert(chunk[i - a.len()] == r);
        if let NodeModel::Ns(gc) = es[m - 1].1 {
            lemma_sorted_get(es, m - 1);
            lemma_all_wf_forall(es);
            assert(tree_wf(es[m - 1].1));
            assert(entries_wf(gc));
            let sub = collect(gc, sec, deeper(d));
            assert(decreases_to!(es => gc)) by {
                assert(decreases_to!(es => es[m - 1]));
                assert(decreases_to!(es[m - 1] => es[m - 1].1));
            }
            // Some row below stands for a path, which gives a shown leaf below `k`.
            assert(sub.len() > 0);
            assert(sub.contains(sub[0]));
            lemma_collect_sound(gc, sec, deeper(d), sub[0]);
            let p0 = choose|p: Seq<Seq<char>>| #[trigger] row_for_path(gc, sec, deeper(d), sub[0], p);
            lemma_row_lifts(es, k, gc, sec, d, sub[0], p0);
            let kp = seq![k];
            assert(kp[0] == k);
            assert(kp.drop_first().len() == 0);
            assert(lookup_model(es, kp) == Some(NodeModel::Ns(gc)));
            assert(shown_leaf_below(es, sec, kp)) by {
                let pp = kp + p0;
                match lookup_model(es, pp) {
                    Some(NodeModel::Leaf(l)) => {
                        assert(shown_leaf(lookup_model(es, kp + p0), sec));
                    },
                    _ => {
                        let q = choose|q: Seq<Seq<char>>| q.len() > 0 && shown_leaf(#[trigger] lookup_model(es, pp + q), sec);
                        assert(kp + (p0 + q) =~= pp + q);
                        assert(shown_leaf(lookup_model(es, kp + (p0 + q)), sec));
                    },
                }
            }
            if i == a.len() {
                assert(row_for_path(es, sec, d, r, kp));
            } else {
                let x = chunk[i - a.len()];
                assert(sub[i - a.len() - 1] == r);
                assert(sub.contains(r));
                lemma_collect_sound(gc, sec, deeper(d), r);
                let pr = choose|p: Seq<Seq<char>>| #[trigger] row_for_path(gc, sec, deeper(d), r, p);
                lemma_row_lifts(es, k, gc, sec, d, r, pr);
                assert(row_for_path(es, sec, d, r, seq![k] + pr));
            }
        }
    }
}

/// A listing shows nothing else: every row of the listing of a well-formed
/// map stands for a path of it, either a leaf the section shows (its name,
/// at the depth of its nesting) or a namespace, shown as `name/` at its
/// depth, with such a leaf somewhere below it.
pub proof fn law_listing_shows_only_commands(
    es: Seq<(Seq<char>, NodeModel)>,
    sec: ListingSection,
    r: EntryModel,
)
    requires
        entries_wf(es),
        collect(es, sec, 0).contains(r),
    ensures
        exists|p: Seq<Seq<char>>| #[trigger] row_for_path(es, sec, 0, r, p),
{
    lemma_collect_sound(es, sec, 0, r);
}

} // verus!
