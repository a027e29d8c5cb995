//! The command tree: namespaces map names to child nodes, leaves hold a
//! command. Maps keep their entries in strictly increasing key order, as the
//! ordered map the tree is read from does.
use vstd::prelude::*;
use crate::error::{JkError, JkResult};
use crate::shell::{Shell, path_buf_from, path_from_text};
use std::path::PathBuf;
use crate::text::{chars_eq, chars_lt, chars_of, opt_view, push_chars, owned, seq_lt, views};

pub use crate::schema::parse_str;

verus! {

#[derive(Debug)]
pub struct Config {
    pub tree: CommandTree,
}

#[derive(Debug)]
pub struct CommandTree {
    pub root: CommandMap,
}

/// An ordered map from names to nodes: the entries in strictly increasing
/// order of name, so each name occurs once and a walk meets the names
/// alphabetically. Lookup, insertion and order are proved over the entries;
/// `BTreeMap` with `String` keys offers Verus no contract to prove them with
/// (an `insert` into an empty one is not even known to leave one entry).
#[derive(Debug)]
pub struct CommandMap {
    pub entries: Vec<(String, CommandNode)>,
}

#[derive(Debug)]
pub enum CommandNode {
    Leaf(LeafCommand),
    Namespace(CommandMap),
}

/// Origin of a leaf in the merged command tree, used by listing to group and
/// style commands. `parse_str` defaults to `LocalOnly`; callers apply
/// `tag_all_origins` after loading the global config, and `merge` sets
/// `Override` on colliding leaves.
#[derive(Debug, Clone, Copy, PartialEq, Eq, Structural)]
pub enum Origin {
    LocalOnly,
    GlobalOnly,
    Override,
}

#[derive(Debug, Clone)]
pub struct LeafCommand {
    pub desc: Option<String>,
    pub shell: Shell,
    pub cmd: CmdBody,
    pub origin: Origin,
    /// `quiet = true`: the runner's own status lines are suppressed for this command.
    pub quiet: bool,
    /// `no-color = true`: the runner's own output is not coloured for this command.
    pub no_color: bool,
}

#[derive(Debug, Clone)]
pub enum CmdBody {
    Single(String),
    Sequence(Vec<String>),
}

/// A command body as text.
pub enum CmdModel {
    Single(Seq<char>),
    Sequence(Seq<Seq<char>>),
}

/// A leaf as text.
pub struct LeafModel {
    pub desc: Option<Seq<char>>,
    pub shell: Shell,
    pub cmd: CmdModel,
    pub origin: Origin,
    pub quiet: bool,
    pub no_color: bool,
}

/// A node as text: a leaf, or a namespace's entries in order.
pub enum NodeModel {
    Leaf(LeafModel),
    Ns(Seq<(Seq<char>, NodeModel)>),
}

pub open spec fn cmd_model(c: CmdBody) -> CmdModel {
    match c {
        CmdBody::Single(s) => CmdModel::Single(s@),
        CmdBody::Sequence(v) => CmdModel::Sequence(views(v@)),
    }
}

pub open spec fn leaf_model(l: LeafCommand) -> LeafModel {
    LeafModel {
        desc: opt_view(l.desc),
        shell: l.shell,
        cmd: cmd_model(l.cmd),
        origin: l.origin,
        quiet: l.quiet,
        no_color: l.no_color,
    }
}

pub open spec fn node_model(n: CommandNode) -> NodeModel
    decreases n,
{
    match n {
        CommandNode::Leaf(l) => NodeModel::Leaf(leaf_model(l)),
        CommandNode::Namespace(m) => NodeModel::Ns(entries_model(m.entries@)),
    }
}

pub open spec fn entries_model(es: Seq<(String, CommandNode)>) -> Seq<(Seq<char>, NodeModel)>
    decreases es,
{
    if es.len() == 0 {
        seq![]
    } else {
        entries_model(es.drop_last()).push((es.last().0@, node_model(es.last().1)))
    }
}

pub open spec fn map_model(m: CommandMap) -> Seq<(Seq<char>, NodeModel)> {
    entries_model(m.entries@)
}

pub open spec fn config_model(c: Config) -> Seq<(Seq<char>, NodeModel)> {
    map_model(c.tree.root)
}

/// The command texts of a body, in order.
pub open spec fn cmd_texts(c: CmdModel) -> Seq<Seq<char>> {
    match c {
        CmdModel::Single(s) => seq![s],
        CmdModel::Sequence(v) => v,
    }
}

/// Keys strictly increasing.
pub open spec fn sorted(es: Seq<(Seq<char>, NodeModel)>) -> bool {
    forall|i: int, j: int| 0 <= i < j < es.len() ==> seq_lt(#[trigger] es[i].0, #[trigger] es[j].0)
}

/// Every namespace, at every depth, keeps its keys strictly increasing.
pub open spec fn tree_wf(n: NodeModel) -> bool
    decreases n,
{
    match n {
        NodeModel::Leaf(_) => true,
        NodeModel::Ns(es) => sorted(es) && all_wf(es),
    }
}

pub open spec fn entries_wf(es: Seq<(Seq<char>, NodeModel)>) -> bool {
    sorted(es) && all_wf(es)
}

pub open spec fn all_wf(es: Seq<(Seq<char>, NodeModel)>) -> bool
    decreases es,
{
    if es.len() == 0 {
        true
    } else {
        all_wf(es.drop_last()) && tree_wf(es.last().1)
    }
}

/// The first position at or after `i` whose key is `k`.
pub open spec fn model_find(es: Seq<(Seq<char>, NodeModel)>, k: Seq<char>, i: int) -> Option<int>
    decreases es.len() - i,
{
    if i < 0 || i >= es.len() {
        None
    } else if es[i].0 == k {
        Some(i)
    } else {
        model_find(es, k, i + 1)
    }
}

/// The node a map holds under `k`.
pub open spec fn model_get(es: Seq<(Seq<char>, NodeModel)>, k: Seq<char>) -> Option<NodeModel> {
    match model_find(es, k, 0) {
        Some(i) => Some(es[i].1),
        None => None,
    }
}

/// `k` mapped to `v`, replacing an entry with the same key or else placed in
/// key order (`BTreeMap::insert`).
pub open spec fn insert_sorted(es: Seq<(Seq<char>, NodeModel)>, k: Seq<char>, v: NodeModel) -> Seq<
    (Seq<char>, NodeModel),
>
    decreases es.len(),
{
    if es.len() == 0 {
        seq![(k, v)]
    } else if es[0].0 == k {
        es.update(0, (k, v))
    } else if seq_lt(k, es[0].0) {
        seq![(k, v)] + es
    } else {
        seq![es[0]] + insert_sorted(es.drop_first(), k, v)
    }
}

/// The node reached by following `rest` down from `n`.
pub open spec fn descend(n: NodeModel, rest: Seq<Seq<char>>) -> Option<NodeModel>
    decreases rest.len(),
{
    if rest.len() == 0 {
        Some(n)
    } else {
        match n {
            NodeModel::Leaf(_) => None,
            NodeModel::Ns(es) => match model_get(es, rest[0]) {
                None => None,
                Some(c) => descend(c, rest.drop_first()),
            },
        }
    }
}

/// The node a non-empty path names.
pub open spec fn lookup_model(es: Seq<(Seq<char>, NodeModel)>, path: Seq<Seq<char>>) -> Option<
    NodeModel,
> {
    if path.len() == 0 {
        None
    } else {
        match model_get(es, path[0]) {
            None => None,
            Some(n) => descend(n, path.drop_first()),
        }
    }
}

/// Every leaf's origin set to `o`.
pub open spec fn tag_node(n: NodeModel, o: Origin) -> NodeModel
    decreases n,
{
    match n {
        NodeModel::Leaf(l) => NodeModel::Leaf(LeafModel { origin: o, ..l }),
        NodeModel::Ns(es) => NodeModel::Ns(tag_entries(es, o)),
    }
}

pub open spec fn tag_entries(es: Seq<(Seq<char>, NodeModel)>, o: Origin) -> Seq<
    (Seq<char>, NodeModel),
>
    decreases es,
{
    if es.len() == 0 {
        seq![]
    } else {
        tag_entries(es.drop_last(), o).push((es.last().0, tag_node(es.last().1, o)))
    }
}

/// The dotted path of a key below `prefix`.
pub open spec fn join_path(prefix: Seq<char>, key: Seq<char>) -> Seq<char> {
    if prefix.len() == 0 {
        key
    } else {
        prefix + seq!['.'] + key
    }
}

pub open spec fn conflict_text(full: Seq<char>) -> Seq<char> {
    "merge conflict at '"@ + full + "': namespace and leaf cannot share path"@
}

/// `s` merged into `t`, entry by entry in `s`'s order: a new name is added, a
/// leaf replaces a leaf (and is marked `Override`), namespaces merge
/// recursively, and a leaf meeting a namespace is a conflict.
pub open spec fn merge_model(
    t: Seq<(Seq<char>, NodeModel)>,
    s: Seq<(Seq<char>, NodeModel)>,
    prefix: Seq<char>,
) -> Result<Seq<(Seq<char>, NodeModel)>, Seq<char>>
    decreases s,
{
    if s.len() == 0 {
        Ok(t)
    } else {
        let k = s[0].0;
        let rest = s.subrange(1, s.len() as int);
        let full = join_path(prefix, k);
        match model_find(t, k, 0) {
            None => merge_model(insert_sorted(t, k, s[0].1), rest, prefix),
            Some(i) => match t[i].1 {
                NodeModel::Leaf(_) => match s[0].1 {
                    NodeModel::Leaf(sl) => merge_model(
                        t.update(i, (t[i].0, NodeModel::Leaf(LeafModel { origin: Origin::Override, ..sl }))),
                        rest,
                        prefix,
                    ),
                    NodeModel::Ns(_) => Err(conflict_text(full)),
                },
                NodeModel::Ns(tm) => match s[0].1 {
                    NodeModel::Ns(sm) => match merge_model(tm, sm, full) {
                        Err(e) => Err(e),
                        Ok(m2) => merge_model(t.update(i, (t[i].0, NodeModel::Ns(m2))), rest, prefix),
                    },
                    NodeModel::Leaf(_) => Err(conflict_text(full)),
                },
            },
        }
    }
}

pub proof fn lemma_entries_model(es: Seq<(String, CommandNode)>)
    ensures
        entries_model(es).len() == es.len(),
        forall|i: int| 0 <= i < es.len() ==> #[trigger] entries_model(es)[i] == (es[i].0@, node_model(es[i].1)),
    decreases es.len(),
{
    if es.len() > 0 {
        lemma_entries_model(es.drop_last());
    }
}

/// The model of a sequence of entries is determined entry by entry.
pub proof fn lemma_entries_model_ext(a: Seq<(String, CommandNode)>, b: Seq<(Seq<char>, NodeModel)>)
    requires
        a.len() == b.len(),
        forall|i: int| 0 <= i < a.len() ==> b[i] == (#[trigger] a[i].0@, node_model(a[i].1)),
    ensures
        entries_model(a) == b,
{
    lemma_entries_model(a);
    assert(entries_model(a) =~= b);
}

pub proof fn lemma_tag_entries(es: Seq<(Seq<char>, NodeModel)>, o: Origin)
    ensures
        tag_entries(es, o).len() == es.len(),
        forall|i: int| 0 <= i < es.len() ==> #[trigger] tag_entries(es, o)[i] == (es[i].0, tag_node(es[i].1, o)),
    decreases es.len(),
{
    if es.len() > 0 {
        lemma_tag_entries(es.drop_last(), o);
    }
}

pub proof fn lemma_model_find(es: Seq<(Seq<char>, NodeModel)>, k: Seq<char>, i: int)
    requires
        0 <= i,
    ensures
        model_find(es, k, i) matches Some(j) ==> i <= j < es.len() && es[j].0 == k && forall|m: int| i <= m < j ==> es[m].0 != k,
        model_find(es, k, i) is None ==> forall|m: int| i <= m < es.len() ==> es[m].0 != k,
    decreases es.len() - i,
{
    if i < es.len() && es[i].0 != k {
        lemma_model_find(es, k, i + 1);
    }
}

pub proof fn lemma_insert_at(es: Seq<(Seq<char>, NodeModel)>, k: Seq<char>, v: NodeModel, p: int)
    requires
        0 <= p <= es.len(),
        forall|j: int| 0 <= j < p ==> seq_lt(#[trigger] es[j].0, k),
        p < es.len() ==> !seq_lt(es[p].0, k),
    ensures
        p < es.len() && es[p].0 == k ==> insert_sorted(es, k, v) == es.update(p, (k, v)),
        !(p < es.len() && es[p].0 == k) ==> insert_sorted(es, k, v) == es.take(p) + seq![(k, v)] + es.skip(p),
    decreases p,
{
    if p == 0 {
        if es.len() > 0 && es[0].0 != k {
            crate::text::lemma_seq_lt_total(es[0].0, k);
        }
        assert(es.take(0) + seq![(k, v)] + es.skip(0) =~= seq![(k, v)] + es);
    } else {
        let d = es.drop_first();
        assert forall|j: int| 0 <= j < p - 1 implies seq_lt(#[trigger] d[j].0, k) by {
            assert(d[j] == es[j + 1]);
        }
        lemma_insert_at(d, k, v, p - 1);
        crate::text::lemma_seq_lt_asymmetric(es[0].0, k);
        assert(es[0].0 != k);
        assert(!seq_lt(k, es[0].0));
        if p < es.len() && es[p].0 == k {
            assert(seq![es[0]] + d.update(p - 1, (k, v)) =~= es.update(p, (k, v)));
        } else {
            assert(seq![es[0]] + (d.take(p - 1) + seq![(k, v)] + d.skip(p - 1)) =~= es.take(p)
                + seq![(k, v)] + es.skip(p));
        }
    }
}

impl LeafCommand {
    /// The command texts, in order.
    pub fn cmd_strings(&self) -> (r: Vec<String>)
        ensures
            views(r@) == cmd_texts(cmd_model(self.cmd)),
    {
        match &self.cmd {
            CmdBody::Single(s) => {
                let mut v: Vec<String> = Vec::new();
                v.push(s.clone());
                assert(views(v@) =~= seq![s@]);
                v
            },
            CmdBody::Sequence(items) => {
                let mut v: Vec<String> = Vec::new();
                let mut i: usize = 0;
                while i < items.len()
                    invariant
                        i <= items.len(),
                        v.len() == i,
                        views(v@) == views(items@).take(i as int),
                    decreases items.len() - i,
                {
                    let ghost before = v@;
                    let c = items[i].clone();
                    assert(c@ == items@[i as int]@);
                    v.push(c);
                    assert(v@ == before.push(c));
                    i += 1;
                    assert forall|j: int| 0 <= j < i implies #[trigger] views(v@)[j] == views(items@).take(i as int)[j] by {
                        if j < i - 1 {
                            assert(views(v@)[j] == views(before)[j]);
                        }
                    }
                    assert(views(v@) =~= views(items@).take(i as int));
                }
                assert(views(items@).take(i as int) =~= views(items@));
                v
            },
        }
    }
}

fn entry_key_lt(entries: &Vec<(String, CommandNode)>, p: usize, k: &[char]) -> (r: bool)
    requires
        p < entries.len(),
    ensures
        r == seq_lt(entries@[p as int].0@, k@),
{
    let name = chars_of(entries[p].0.as_str());
    chars_lt(name.as_slice(), k)
}

fn entry_key_eq(entries: &Vec<(String, CommandNode)>, p: usize, k: &[char]) -> (r: bool)
    requires
        p < entries.len(),
    ensures
        r == (entries@[p as int].0@ == k@),
{
    let name = chars_of(entries[p].0.as_str());
    chars_eq(name.as_slice(), k)
}

impl CommandMap {
    /// A map with no entries.
    pub fn new() -> (m: CommandMap)
        ensures
            map_model(m) == Seq::<(Seq<char>, NodeModel)>::empty(),
    {
        CommandMap { entries: Vec::new() }
    }

    /// The position of the entry named `key`.
    pub fn position(&self, key: &str) -> (r: Option<usize>)
        ensures
            r matches Some(i) ==> i < self.entries.len() && model_find(map_model(*self), key@, 0)
                == Some(i as int),
            r is None ==> model_find(map_model(*self), key@, 0) is None,
    {
        proof {
            lemma_entries_model(self.entries@);
        }
        let k = chars_of(key);
        let mut i: usize = 0;
        while i < self.entries.len()
            invariant
                i <= self.entries.len(),
                k@ == key@,
                entries_model(self.entries@).len() == self.entries@.len(),
                forall|j: int| 0 <= j < self.entries@.len() ==> #[trigger] entries_model(self.entries@)[j]
                    == (self.entries@[j].0@, node_model(self.entries@[j].1)),
                model_find(map_model(*self), key@, 0) == model_find(map_model(*self), key@, i as int),
            decreases self.entries.len() - i,
        {
            let name = chars_of(self.entries[i].0.as_str());
            if chars_eq(name.as_slice(), k.as_slice()) {
                return Some(i);
            }
            i += 1;
        }
        None
    }

    /// The node named `key`.
    pub fn get(&self, key: &str) -> (r: Option<&CommandNode>)
        ensures
            match model_get(map_model(*self), key@) {
                Some(n) => r matches Some(x) && node_model(*x) == n,
                None => r is None,
            },
    {
        proof {
            lemma_entries_model(self.entries@);
        }
        match self.position(key) {
            Some(i) => Some(&self.entries[i].1),
            None => None,
        }
    }

    /// Adds `node` under `key` in key order, replacing an entry with the same name.
    pub fn insert(&mut self, key: String, node: CommandNode)
        ensures
            map_model(*final(self)) == insert_sorted(map_model(*old(self)), key@, node_model(node)),
    {
        let ghost es0 = self.entries@;
        proof {
            lemma_entries_model(es0);
        }
        let k = chars_of(key.as_str());
        let mut p: usize = 0;
        while p < self.entries.len() && entry_key_lt(&self.entries, p, k.as_slice())
            invariant
                p <= self.entries.len(),
                self.entries@ == es0,
                k@ == key@,
                forall|j: int| 0 <= j < p ==> seq_lt(#[trigger] entries_model(es0)[j].0, key@),
                entries_model(es0).len() == es0.len(),
                forall|j: int| 0 <= j < es0.len() ==> #[trigger] entries_model(es0)[j] == (es0[j].0@, node_model(es0[j].1)),
            decreases self.entries.len() - p,
        {
            p += 1;
        }
        let ghost m0 = entries_model(es0);
        let same = p < self.entries.len() && entry_key_eq(&self.entries, p, k.as_slice());
        proof {
            lemma_insert_at(m0, key@, node_model(node), p as int);
        }
        if same {
            self.entries.set(p, (key, node));
            proof {
                lemma_entries_model_ext(self.entries@, m0.update(p as int, (key@, node_model(node))));
            }
        } else {
            self.entries.insert(p, (key, node));
            proof {
                let target = m0.take(p as int) + seq![(key@, node_model(node))] + m0.skip(p as int);
                assert forall|j: int| 0 <= j < self.entries@.len() implies target[j] == (
                    #[trigger] self.entries@[j].0@,
                    node_model(self.entries@[j].1),
                ) by {
                    if j < p {
                        assert(self.entries@[j] == es0[j]);
                    } else if j > p {
                        assert(self.entries@[j] == es0[j - 1]);
                    }
                }
                lemma_entries_model_ext(self.entries@, target);
            }
        }
    }
}

impl CommandTree {
    /// The node a path names; `None` for the empty path, for a missing name,
    /// and for a path that continues below a leaf.
    pub fn lookup(&self, path: &[String]) -> (r: Option<&CommandNode>)
        ensures
            match lookup_model(map_model(self.root), views(path@)) {
                Some(n) => r matches Some(x) && node_model(*x) == n,
                None => r is None,
            },
    {
        let ghost pv = views(path@);
        if path.len() == 0 {
            return None;
        }
        let mut node = match self.root.get(path[0].as_str()) {
            Some(n) => n,
            None => {
                return None;
            },
        };
        let mut i: usize = 1;
        while i < path.len()
            invariant
                1 <= i <= path.len(),
                pv == views(path@),
                lookup_model(map_model(self.root), pv) == descend(node_model(*node), pv.skip(i as int)),
            decreases path.len() - i,
        {
            proof {
                assert(pv.skip(i as int)[0] == path@[i as int]@);
                assert(pv.skip(i as int).drop_first() =~= pv.skip(i + 1));
            }
            match node {
                CommandNode::Namespace(m) => match m.get(path[i].as_str()) {
                    Some(c) => {
                        node = c;
                    },
                    None => {
                        return None;
                    },
                },
                CommandNode::Leaf(_) => {
                    return None;
                },
            }
            i += 1;
        }
        assert(pv.skip(i as int).len() == 0);
        Some(node)
    }

    /// The top-level names.
    pub fn root(&self) -> (r: &CommandMap)
        ensures
            r == &self.root,
    {
        &self.root
    }
}

pub proof fn lemma_entries_model_tail(es: Seq<(String, CommandNode)>)
    requires
        es.len() > 0,
    ensures
        entries_model(es.subrange(1, es.len() as int)) == entries_model(es).subrange(1, es.len() as int),
        entries_model(es)[0] == (es[0].0@, node_model(es[0].1)),
        entries_model(es).len() == es.len(),
{
    lemma_entries_model(es);
    let t = es.subrange(1, es.len() as int);
    let m = entries_model(es).subrange(1, es.len() as int);
    assert forall|i: int| 0 <= i < t.len() implies m[i] == (#[trigger] t[i].0@, node_model(t[i].1)) by {
        assert(t[i] == es[i + 1]);
    }
    lemma_entries_model_ext(t, m);
}

/// A node with every leaf's origin set to `o`.
fn tag_node_exec(n: CommandNode, o: Origin) -> (r: CommandNode)
    ensures
        node_model(r) == tag_node(node_model(n), o),
    decreases n,
{
    match n {
        CommandNode::Leaf(mut l) => {
            l.origin = o;
            CommandNode::Leaf(l)
        },
        CommandNode::Namespace(m) => CommandNode::Namespace(tag_map_exec(m, o)),
    }
}

/// A map with every leaf's origin set to `o`.
fn tag_map_exec(m: CommandMap, o: Origin) -> (r: CommandMap)
    ensures
        map_model(r) == tag_entries(map_model(m), o),
    decreases m,
{
    let ghost orig = m.entries@;
    proof {
        lemma_entries_model(orig);
        lemma_tag_entries(entries_model(orig), o);
    }
    let mut src = m.entries;
    let mut out: Vec<(String, CommandNode)> = Vec::new();
    while src.len() > 0
        invariant
            out.len() + src.len() == orig.len(),
            src@ == orig.subrange(out.len() as int, orig.len() as int),
            orig == m.entries@,
            forall|j: int| 0 <= j < out.len() ==> (#[trigger] out@[j]).0@ == orig[j].0@ && node_model(out@[j].1)
                == tag_node(node_model(orig[j].1), o),
        decreases src.len(),
    {
        let ghost j = out.len() as int;
        let (k, n) = src.remove(0);
        assert(n == orig[j].1);
        assert(decreases_to!(m => n));
        let t = tag_node_exec(n, o);
        out.push((k, t));
    }
    proof {
        let target = tag_entries(entries_model(orig), o);
        assert forall|j: int| 0 <= j < out@.len() implies target[j] == (#[trigger] out@[j].0@, node_model(out@[j].1)) by {
            assert(entries_model(orig)[j] == (orig[j].0@, node_model(orig[j].1)));
        }
        lemma_entries_model_ext(out@, target);
    }
    CommandMap { entries: out }
}

/// Sets the origin of every leaf in the configuration.
pub fn tag_all_origins(cfg: &mut Config, origin: Origin)
    ensures
        config_model(*final(cfg)) == tag_entries(config_model(*old(cfg)), origin),
{
    let mut root = CommandMap::new();
    std::mem::swap(&mut root, &mut cfg.tree.root);
    cfg.tree.root = tag_map_exec(root, origin);
}

/// The dotted path of a key below `prefix`.
fn join_path_exec(prefix: &[char], key: &str) -> (r: Vec<char>)
    ensures
        r@ == join_path(prefix@, key@),
{
    let k = chars_of(key);
    let mut r: Vec<char> = Vec::new();
    let mut i: usize = 0;
    while i < prefix.len()
        invariant
            i <= prefix.len(),
            r@ == prefix@.take(i as int),
        decreases prefix.len() - i,
    {
        r.push(prefix[i]);
        i += 1;
        assert(r@ =~= prefix@.take(i as int));
    }
    assert(prefix@.take(i as int) =~= prefix@);
    if prefix.len() > 0 {
        r.push('.');
    }
    let ghost mid = r@;
    let mut j: usize = 0;
    while j < k.len()
        invariant
            j <= k.len(),
            r@ == mid + k@.take(j as int),
        decreases k.len() - j,
    {
        r.push(k[j]);
        j += 1;
        assert(r@ =~= mid + k@.take(j as int));
    }
    assert(k@.take(j as int) =~= k@);
    assert(r@ =~= join_path(prefix@, key@));
    r
}

fn conflict(full: &[char]) -> (e: JkError)
    ensures
        e matches JkError::ConfigSchema(m) && m@ == conflict_text(full@),
{
    let mut m = owned("merge conflict at '");
    push_chars(&mut m, full);
    m.push_str("': namespace and leaf cannot share path");
    JkError::ConfigSchema(m)
}

/// Merges `source` into `target`; see `merge_model`.
fn merge_map(target: &mut CommandMap, source: CommandMap, prefix: &[char]) -> (r: JkResult<()>)
    ensures
        match merge_model(map_model(*old(target)), map_model(source), prefix@) {
            Ok(m) => r is Ok && map_model(*final(target)) == m,
            Err(e) => r matches Err(JkError::ConfigSchema(x)) && x@ == e,
        },
    decreases source,
{
    let ghost orig = source.entries@;
    let ghost goal = merge_model(map_model(*target), map_model(source), prefix@);
    let mut src = source.entries;
    let ghost mut done: int = 0;
    proof {
        assert(orig.subrange(0, orig.len() as int) =~= orig);
    }
    while src.len() > 0
        invariant
            0 <= done <= orig.len(),
            src@ == orig.subrange(done, orig.len() as int),
            orig == source.entries@,
            goal == merge_model(map_model(*target), entries_model(src@), prefix@),
            goal == merge_model(map_model(*old(target)), map_model(source), prefix@),
        decreases src.len(),
    {
        proof {
            lemma_entries_model_tail(src@);
        }
        let ghost s_model = entries_model(src@);
        let ghost t_model = map_model(*target);
        let ghost src_before = src@;
        let (k, sn) = src.remove(0);
        assert(src@ =~= src_before.subrange(1, src_before.len() as int));
        assert(entries_model(src@) == s_model.subrange(1, s_model.len() as int));
        proof {
            assert(src@ =~= orig.subrange(done + 1, orig.len() as int));
            assert(sn == orig[done].1);
            done = done + 1;
        }
        let full = join_path_exec(prefix, k.as_str());
        match target.position(k.as_str()) {
            None => {
                let ghost sm0 = node_model(sn);
                target.insert(k, sn);
                assert(s_model[0] == (k@, sm0));
                assert(merge_model(t_model, s_model, prefix@) == merge_model(insert_sorted(t_model, k@, sm0), s_model.subrange(1, s_model.len() as int), prefix@));
            },
            Some(i) => {
                proof {
                    lemma_entries_model(target.entries@);
                }
                let ghost es_before = target.entries@;
                let (tk, tn) = target.entries.remove(i);
                assert(t_model[i as int] == (tk@, node_model(tn)));
                assert(s_model[0] == (k@, node_model(sn)));
                assert(model_find(t_model, k@, 0) == Some(i as int));
                match tn {
                    CommandNode::Leaf(_) => match sn {
                        CommandNode::Leaf(mut sl) => {
                            sl.origin = Origin::Override;
                            target.entries.insert(i, (tk, CommandNode::Leaf(sl)));
                            assert(merge_model(t_model, s_model, prefix@) == merge_model(t_model.update(i as int, (t_model[i as int].0, node_model(CommandNode::Leaf(sl)))), s_model.subrange(1, s_model.len() as int), prefix@));
                        },
                        CommandNode::Namespace(_) => {
                            assert(s_model[0].1 is Ns);
                            assert(t_model[i as int].1 is Leaf);
                            assert(s_model.len() > 0);
                            assert(merge_model(t_model, s_model, prefix@) == Err::<Seq<(Seq<char>, NodeModel)>, Seq<char>>(conflict_text(full@)));
                            return Err(conflict(full.as_slice()));
                        },
                    },
                    CommandNode::Namespace(mut tm) => match sn {
                        CommandNode::Namespace(sm) => {
                            assert(decreases_to!(source => sm));
                            match merge_map(&mut tm, sm, full.as_slice()) {
                                Ok(()) => {},
                                Err(e) => {
                                    return Err(e);
                                },
                            }
                            target.entries.insert(i, (tk, CommandNode::Namespace(tm)));
                            assert(merge_model(t_model, s_model, prefix@) == merge_model(t_model.update(i as int, (t_model[i as int].0, node_model(CommandNode::Namespace(tm)))), s_model.subrange(1, s_model.len() as int), prefix@));
                        },
                        CommandNode::Leaf(_) => {
                            return Err(conflict(full.as_slice()));
                        },
                    },
                }
                proof {
                    let upd = t_model.update(i as int, (t_model[i as int].0, node_model(target.entries@[i as int].1)));
                    assert forall|j: int| 0 <= j < target.entries@.len() implies upd[j] == (
                        #[trigger] target.entries@[j].0@,
                        node_model(target.entries@[j].1),
                    ) by {
                        if j != i {
                            assert(target.entries@[j] == es_before[j]);
                        }
                    }
                    lemma_entries_model_ext(target.entries@, upd);
                }
            },
        }
    }
    proof {
        assert(entries_model(src@) =~= Seq::<(Seq<char>, NodeModel)>::empty());
    }
    Ok(())
}

/// The local configuration merged over the global one: local names are
/// added, a local leaf replaces a global leaf of the same name (marked
/// `Override`), namespaces merge recursively, and a leaf meeting a namespace
/// is a schema error.
pub fn merge(global: Config, local: Config) -> (r: JkResult<Config>)
    ensures
        match merge_model(config_model(global), config_model(local), seq![]) {
            Ok(m) => r matches Ok(c) && config_model(c) == m,
            Err(e) => r matches Err(JkError::ConfigSchema(x)) && x@ == e,
        },
{
    let mut tree_map = global.tree.root;
    let empty: Vec<char> = Vec::new();
    merge_map(&mut tree_map, local.tree.root, empty.as_slice())?;
    Ok(Config { tree: CommandTree { root: tree_map } })
}

/// What `Path::join` gives for a base path and a part.
pub uninterp spec fn joined_path(base: PathBuf, part: Seq<char>) -> PathBuf;

/// `Path::join` of std: `part` appended to `base` with the platform's
/// separator. The contract names the result as a function of the two and
/// claims nothing more of it.
#[verifier::external_body]
fn path_join(base: &PathBuf, part: &str) -> (r: PathBuf)
    ensures
        r == joined_path(*base, part@),
{
    base.join(part)
}

/// The non-empty value of a variable, as a configuration reads it: an
/// empty value counts as unset.
pub open spec fn set_value(v: Option<Seq<char>>) -> Option<Seq<char>> {
    match v {
        Some(s) => if s.len() > 0 {
            Some(s)
        } else {
            None
        },
        None => None,
    }
}

fn non_empty(v: Option<&str>) -> (r: Option<&str>)
    ensures
        crate::output::opt_str(r) == set_value(crate::output::opt_str(v)),
{
    match v {
        Some(s) => if !s.is_empty() {
            Some(s)
        } else {
            None
        },
        None => None,
    }
}

/// The path the local configuration must be read from, when one is given:
/// `++config` first, then a non-empty `JK_CONFIG`. `None` means the nearest
/// `.jk` found walking up from the working directory. A given path never
/// falls back to the walk: when it names no file, that is an error.
pub fn config_source<'a>(explicit: Option<&'a str>, env_var: Option<&'a str>) -> (r: Option<&'a str>)
    ensures
        crate::output::opt_str(r) == match crate::output::opt_str(explicit) {
            Some(p) => Some(p),
            None => set_value(crate::output::opt_str(env_var)),
        },
{
    match explicit {
        Some(p) => Some(p),
        None => non_empty(env_var),
    }
}

/// Where the global configuration is expected: `config.toml` in the jk home,
/// which is `++home` when given, else a non-empty `JK_HOME`, else `.jk` in
/// the user's home directory. `None` when none of these is known. Whether
/// the file exists is not checked.
pub fn global_config_path(home_flag: Option<&str>, jk_home_var: Option<&str>, user_home: Option<&str>) -> (r:
    Option<PathBuf>)
    ensures
        match crate::output::opt_str(home_flag) {
            Some(h) => r == Some(joined_path(path_from_text(h), "config.toml"@)),
            None => match set_value(crate::output::opt_str(jk_home_var)) {
                Some(h) => r == Some(joined_path(path_from_text(h), "config.toml"@)),
                None => match crate::output::opt_str(user_home) {
                    Some(u) => r == Some(
                        joined_path(joined_path(path_from_text(u), ".jk"@), "config.toml"@),
                    ),
                    None => r is None,
                },
            },
        },
{
    let given = match home_flag {
        Some(h) => Some(h),
        None => non_empty(jk_home_var),
    };
    match given {
        Some(h) => {
            let base = path_buf_from(h);
            Some(path_join(&base, "config.toml"))
        },
        None => match user_home {
            Some(u) => {
                let home = path_buf_from(u);
                let jk_home = path_join(&home, ".jk");
                Some(path_join(&jk_home, "config.toml"))
            },
            None => None,
        },
    }
}

/// Every leaf below a node has origin `o`.
pub open spec fn node_all_origin(n: NodeModel, o: Origin) -> bool
    decreases n,
{
    match n {
        NodeModel::Leaf(l) => l.origin == o,
        NodeModel::Ns(es) => entries_all_origin(es, o),
    }
}

/// Every leaf in the entries, at every depth, has origin `o`.
pub open spec fn entries_all_origin(es: Seq<(Seq<char>, NodeModel)>, o: Origin) -> bool
    decreases es,
{
    if es.len() == 0 {
        true
    } else {
        entries_all_origin(es.drop_last(), o) && node_all_origin(es.last().1, o)
    }
}

proof fn lemma_tag_node_origin(n: NodeModel, o: Origin)
    ensures
        node_all_origin(tag_node(n, o), o),
    decreases n,
{
    if let NodeModel::Ns(es) = n {
        lemma_tag_entries_origin(es, o);
    }
}

proof fn lemma_tag_entries_origin(es: Seq<(Seq<char>, NodeModel)>, o: Origin)
    ensures
        entries_all_origin(tag_entries(es, o), o),
    decreases es,
{
    if es.len() > 0 {
        lemma_tag_entries_origin(es.drop_last(), o);
        lemma_tag_node_origin(es.last().1, o);
        let t = tag_entries(es, o);
        let d = tag_entries(es.drop_last(), o);
        assert(t.drop_last() =~= d);
    }
}

/// Tagging marks every leaf: after `tag_all_origins` with `o`, each leaf of
/// the configuration, at every depth, has origin `o`, and the names and
/// their order are those of before.
pub proof fn law_tag_marks_every_leaf(es: Seq<(Seq<char>, NodeModel)>, o: Origin)
    ensures
        entries_all_origin(tag_entries(es, o), o),
        tag_entries(es, o).len() == es.len(),
        forall|i: int| 0 <= i < es.len() ==> #[trigger] tag_entries(es, o)[i].0 == es[i].0,
{
    lemma_tag_entries_origin(es, o);
    lemma_tag_entries(es, o);
}

/// What one more name below a found node names.
pub open spec fn child_of(n: Option<NodeModel>, k: Seq<char>) -> Option<NodeModel> {
    match n {
        Some(NodeModel::Ns(m)) => model_get(m, k),
        _ => None,
    }
}

proof fn lemma_descend_push(n: NodeModel, rest: Seq<Seq<char>>, k: Seq<char>)
    ensures
        descend(n, rest.push(k)) == child_of(descend(n, rest), k),
    decreases rest.len(),
{
    if rest.len() == 0 {
        assert(seq![k].drop_first() =~= Seq::<Seq<char>>::empty());
        assert(rest.push(k) =~= seq![k]);
        if let NodeModel::Ns(es) = n {
            if let Some(c) = model_get(es, k) {
                assert(descend(c, seq![k].drop_first()) == Some(c));
            }
        }
    } else {
        assert(rest.push(k)[0] == rest[0]);
        assert(rest.push(k).drop_first() =~= rest.drop_first().push(k));
        if let NodeModel::Ns(es) = n {
            if let Some(c) = model_get(es, rest[0]) {
                lemma_descend_push(c, rest.drop_first(), k);
            }
        }
    }
}

/// Looking a path up goes one name at a time: the empty path names nothing,
/// a single name is looked up at the top, and each further name is looked up
/// in the namespace the path so far names (a path never continues past a
/// leaf).
pub proof fn law_lookup_goes_name_by_name(es: Seq<(Seq<char>, NodeModel)>, path: Seq<Seq<char>>, k: Seq<char>)
    ensures
        lookup_model(es, seq![]) is None,
        lookup_model(es, seq![k]) == model_get(es, k),
        path.len() > 0 ==> lookup_model(es, path.push(k)) == child_of(lookup_model(es, path), k),
{
    assert(seq![k].drop_first() =~= Seq::<Seq<char>>::empty());
    if let Some(n) = model_get(es, k) {
        assert(descend(n, seq![k].drop_first()) == Some(n));
    }
    if path.len() > 0 {
        assert(path.push(k)[0] == path[0]);
        assert(path.push(k).drop_first() =~= path.drop_first().push(k));
        if let Some(n) = model_get(es, path[0]) {
            lemma_descend_push(n, path.drop_first(), k);
        }
    }
}

/// `n` with every leaf's origin set to `o`, where there is a node.
pub open spec fn tag_found(n: Option<NodeModel>, o: Origin) -> Option<NodeModel> {
    match n {
        Some(x) => Some(tag_node(x, o)),
        None => None,
    }
}

proof fn lemma_get_tag(es: Seq<(Seq<char>, NodeModel)>, o: Origin, k: Seq<char>)
    ensures
        model_get(tag_entries(es, o), k) == tag_found(model_get(es, k), o),
{
    lemma_tag_entries(es, o);
    let te = tag_entries(es, o);
    assert forall|j: int| 0 <= j < es.len() implies #[trigger] es[j].0 == te[j].0 by {}
    lemma_find_same_keys(es, te, k, 0);
    lemma_model_find(es, k, 0);
}

proof fn lemma_descend_tag(n: NodeModel, o: Origin, rest: Seq<Seq<char>>)
    ensures
        descend(tag_node(n, o), rest) == tag_found(descend(n, rest), o),
    decreases rest.len(),
{
    if rest.len() > 0 {
        if let NodeModel::Ns(es) = n {
            lemma_get_tag(es, o, rest[0]);
            if let Some(c) = model_get(es, rest[0]) {
                lemma_descend_tag(c, o, rest.drop_first());
            }
        }
    }
}

/// Tagging changes origins and nothing else: every path names, after
/// tagging, what it named before with its leaves' origins set (a leaf stays a
/// leaf with the same description, shell, command and flags, a namespace
/// stays a namespace with the same names), and a path that named nothing
/// still names nothing.
pub proof fn law_tag_changes_only_origins(es: Seq<(Seq<char>, NodeModel)>, o: Origin, path: Seq<Seq<char>>)
    ensures
        lookup_model(tag_entries(es, o), path) == tag_found(lookup_model(es, path), o),
{
    if path.len() > 0 {
        lemma_get_tag(es, o, path[0]);
        if let Some(n) = model_get(es, path[0]) {
            lemma_descend_tag(n, o, path.drop_first());
        }
    }
}

proof fn lemma_find_same_keys(a: Seq<(Seq<char>, NodeModel)>, b: Seq<(Seq<char>, NodeModel)>, k: Seq<char>, i: int)
    requires
        a.len() == b.len(),
        forall|j: int| 0 <= j < a.len() ==> #[trigger] a[j].0 == b[j].0,
    ensures
        model_find(a, k, i) == model_find(b, k, i),
    decreases a.len() - i,
{
    if 0 <= i < a.len() {
        lemma_find_same_keys(a, b, k, i + 1);
    }
}

proof fn lemma_find_shift(x: (Seq<char>, NodeModel), rest: Seq<(Seq<char>, NodeModel)>, k: Seq<char>, i: int)
    requires
        0 <= i,
    ensures
        model_find(seq![x] + rest, k, i + 1) == match model_find(rest, k, i) {
            Some(j) => Some(j + 1),
            None => None::<int>,
        },
    decreases rest.len() - i,
{
    let c = seq![x] + rest;
    assert(c.len() == rest.len() + 1);
    if i < rest.len() {
        assert(c[i + 1] == rest[i]);
        lemma_find_shift(x, rest, k, i + 1);
    }
}

proof fn lemma_get_cons(x: (Seq<char>, NodeModel), rest: Seq<(Seq<char>, NodeModel)>, k: Seq<char>)
    ensures
        model_get(seq![x] + rest, k) == if x.0 == k {
            Some(x.1)
        } else {
            model_get(rest, k)
        },
{
    let c = seq![x] + rest;
    assert(c[0] == x);
    lemma_find_shift(x, rest, k, 0);
    if x.0 != k {
        if let Some(j) = model_find(rest, k, 0) {
            lemma_model_find(rest, k, 0);
            assert(c[j + 1] == rest[j]);
        }
    }
}

proof fn lemma_get_update(t: Seq<(Seq<char>, NodeModel)>, i: int, v: NodeModel, k: Seq<char>)
    requires
        0 <= i < t.len(),
    ensures
        model_get(t.update(i, (t[i].0, v)), k) == if model_find(t, k, 0) == Some(i) {
            Some(v)
        } else {
            model_get(t, k)
        },
{
    let u = t.update(i, (t[i].0, v));
    assert forall|j: int| 0 <= j < t.len() implies #[trigger] t[j].0 == u[j].0 by {}
    lemma_find_same_keys(t, u, k, 0);
    lemma_model_find(t, k, 0);
}

proof fn lemma_get_insert(t: Seq<(Seq<char>, NodeModel)>, k0: Seq<char>, v: NodeModel, k: Seq<char>)
    requires
        model_find(t, k0, 0) is None,
    ensures
        model_get(insert_sorted(t, k0, v), k) == if k == k0 {
            Some(v)
        } else {
            model_get(t, k)
        },
    decreases t.len(),
{
    if t.len() == 0 {
        lemma_get_cons((k0, v), t, k);
        assert(seq![(k0, v)] + t =~= seq![(k0, v)]);
    } else {
        let d = t.drop_first();
        assert(t =~= seq![t[0]] + d);
        lemma_get_cons(t[0], d, k);
        lemma_get_cons(t[0], d, k0);
        lemma_model_find(t, k0, 0);
        assert(t[0].0 != k0);
        if seq_lt(k0, t[0].0) {
            lemma_get_cons((k0, v), t, k);
        } else {
            assert(model_find(d, k0, 0) is None) by {
                if let Some(j) = model_find(d, k0, 0) {
                    lemma_model_find(d, k0, 0);
                    assert(t[j + 1] == d[j]);
                }
            }
            lemma_get_insert(d, k0, v, k);
            lemma_get_cons(t[0], insert_sorted(d, k0, v), k);
        }
    }
}

/// How one name of the merged map relates to the same name in the global
/// (`t`) and local (`s`) maps.
pub open spec fn merged_at(
    t_node: Option<NodeModel>,
    s_node: Option<NodeModel>,
    m_node: Option<NodeModel>,
    full: Seq<char>,
) -> bool {
    match s_node {
        None => m_node == t_node,
        Some(sn) => match t_node {
            None => m_node == Some(sn),
            Some(NodeModel::Leaf(_)) => match sn {
                NodeModel::Leaf(sl) => m_node == Some(NodeModel::Leaf(LeafModel { origin: Origin::Override, ..sl })),
                NodeModel::Ns(_) => false,
            },
            Some(NodeModel::Ns(tm)) => match sn {
                NodeModel::Ns(sm) => merge_model(tm, sm, full) matches Ok(m2) && m_node == Some(
                    NodeModel::Ns(m2),
                ),
                NodeModel::Leaf(_) => false,
            },
        },
    }
}

proof fn lemma_merge_at(
    t: Seq<(Seq<char>, NodeModel)>,
    s: Seq<(Seq<char>, NodeModel)>,
    prefix: Seq<char>,
    k: Seq<char>,
)
    requires
        sorted(s),
        merge_model(t, s, prefix) is Ok,
    ensures
        merged_at(model_get(t, k), model_get(s, k), model_get(merge_model(t, s, prefix)->Ok_0, k), join_path(prefix, k)),
    decreases s.len(),
{
    if s.len() > 0 {
        let k0 = s[0].0;
        let rest = s.subrange(1, s.len() as int);
        assert(s =~= seq![s[0]] + rest);
        lemma_get_cons(s[0], rest, k);
        assert(sorted(rest)) by {
            assert forall|i: int, j: int| 0 <= i < j < rest.len() implies seq_lt(#[trigger] rest[i].0, #[trigger] rest[j].0) by {
                assert(rest[i] == s[i + 1]);
                assert(rest[j] == s[j + 1]);
            }
        }
        assert(model_find(rest, k0, 0) is None) by {
            if let Some(j) = model_find(rest, k0, 0) {
                lemma_model_find(rest, k0, 0);
                assert(rest[j] == s[j + 1]);
                assert(seq_lt(s[0].0, s[j + 1].0));
                crate::text::lemma_seq_lt_irreflexive(k0);
            }
        }
        let full = join_path(prefix, k0);
        lemma_model_find(t, k0, 0);
        lemma_model_find(t, k, 0);
        match model_find(t, k0, 0) {
            None => {
                let t2 = insert_sorted(t, k0, s[0].1);
                lemma_merge_at(t2, rest, prefix, k);
                lemma_get_insert(t, k0, s[0].1, k);
            },
            Some(i) => match t[i].1 {
                NodeModel::Leaf(_) => match s[0].1 {
                    NodeModel::Leaf(sl) => {
                        let t2 = t.update(i, (t[i].0, NodeModel::Leaf(LeafModel { origin: Origin::Override, ..sl })));
                        lemma_merge_at(t2, rest, prefix, k);
                        lemma_get_update(t, i, NodeModel::Leaf(LeafModel { origin: Origin::Override, ..sl }), k);
                    },
                    NodeModel::Ns(_) => {},
                },
                NodeModel::Ns(tm) => match s[0].1 {
                    NodeModel::Ns(sm) => {
                        let m2 = merge_model(tm, sm, full)->Ok_0;
                        let t2 = t.update(i, (t[i].0, NodeModel::Ns(m2)));
                        lemma_merge_at(t2, rest, prefix, k);
                        lemma_get_update(t, i, NodeModel::Ns(m2), k);
                    },
                    NodeModel::Leaf(_) => {},
                },
            },
        }
    }
}

/// Merging by name: in the merged map, a name only the global map has keeps
/// its global node, a name only the local map has gets its local node, a
/// local leaf replaces a global leaf of the same name and is marked
/// `Override`, and two namespaces of the same name merge recursively (a
/// leaf and a namespace of one name make the merge fail).
pub proof fn law_merge_by_name(
    global: Seq<(Seq<char>, NodeModel)>,
    local: Seq<(Seq<char>, NodeModel)>,
    prefix: Seq<char>,
    name: Seq<char>,
)
    requires
        sorted(local),
        merge_model(global, local, prefix) is Ok,
    ensures
        merged_at(
            model_get(global, name),
            model_get(local, name),
            model_get(merge_model(global, local, prefix)->Ok_0, name),
            join_path(prefix, name),
        ),
{
    lemma_merge_at(global, local, prefix, name);
}

/// Some entry of `s` meets, under the same name in `t`, a node of the other
/// kind (a leaf against a namespace), or a namespace whose merge with its own
/// namespace clashes further down.
pub open spec fn clash(t: Seq<(Seq<char>, NodeModel)>, s: Seq<(Seq<char>, NodeModel)>) -> bool
    decreases s, 1int,
{
    if s.len() == 0 {
        false
    } else {
        node_clash(model_get(t, s[0].0), s[0].1) || clash(t, s.subrange(1, s.len() as int))
    }
}

/// The node `sn` clashes with the node `tn` of the same name.
pub open spec fn node_clash(tn: Option<NodeModel>, sn: NodeModel) -> bool
    decreases sn, 0int,
{
    match tn {
        None => false,
        Some(NodeModel::Leaf(_)) => sn is Ns,
        Some(NodeModel::Ns(tm)) => match sn {
            NodeModel::Leaf(_) => true,
            NodeModel::Ns(sm) => clash(tm, sm),
        },
    }
}

proof fn lemma_clash_same_names(
    t: Seq<(Seq<char>, NodeModel)>,
    t2: Seq<(Seq<char>, NodeModel)>,
    s: Seq<(Seq<char>, NodeModel)>,
)
    requires
        forall|j: int| 0 <= j < s.len() ==> model_get(t2, #[trigger] s[j].0) == model_get(t, s[j].0),
    ensures
        clash(t2, s) == clash(t, s),
    decreases s.len(),
{
    if s.len() > 0 {
        let rest = s.subrange(1, s.len() as int);
        assert(model_get(t2, s[0].0) == model_get(t, s[0].0));
        assert forall|j: int| 0 <= j < rest.len() implies model_get(t2, #[trigger] rest[j].0) == model_get(t, rest[j].0) by {
            assert(rest[j] == s[j + 1]);
        }
        lemma_clash_same_names(t, t2, rest);
    }
}

/// A merge fails exactly when some name is a leaf in one map and a namespace
/// in the other, at any depth reached through namespaces that both maps have.
pub proof fn law_merge_fails_on_clash(
    global: Seq<(Seq<char>, NodeModel)>,
    local: Seq<(Seq<char>, NodeModel)>,
    prefix: Seq<char>,
)
    requires
        entries_wf(local),
    ensures
        merge_model(global, local, prefix) is Err <==> clash(global, local),
    decreases local,
{
    let t = global;
    let s = local;
    if s.len() == 0 {
        assert(!clash(t, s));
    } else {
        let k0 = s[0].0;
        let rest = s.subrange(1, s.len() as int);
        lemma_all_wf_forall(s);
        assert(entries_wf(rest)) by {
            assert forall|i: int, j: int| 0 <= i < j < rest.len() implies seq_lt(#[trigger] rest[i].0, #[trigger] rest[j].0) by {
                assert(rest[i] == s[i + 1]);
                assert(rest[j] == s[j + 1]);
            }
            assert forall|j: int| 0 <= j < rest.len() implies tree_wf(#[trigger] rest[j].1) by {
                assert(rest[j] == s[j + 1]);
            }
            lemma_all_wf_forall(rest);
        }
        assert forall|j: int| 0 <= j < rest.len() implies #[trigger] rest[j].0 != k0 by {
            assert(rest[j] == s[j + 1]);
            assert(seq_lt(s[0].0, s[j + 1].0));
            crate::text::lemma_seq_lt_irreflexive(k0);
        }
        let full = join_path(prefix, k0);
        assert(clash(t, s) == (node_clash(model_get(t, k0), s[0].1) || clash(t, rest)));
        lemma_model_find(t, k0, 0);
        match model_find(t, k0, 0) {
            None => {
                let t2 = insert_sorted(t, k0, s[0].1);
                law_merge_fails_on_clash(t2, rest, prefix);
                assert forall|j: int| 0 <= j < rest.len() implies model_get(t2, #[trigger] rest[j].0) == model_get(t, rest[j].0) by {
                    lemma_get_insert(t, k0, s[0].1, rest[j].0);
                }
                lemma_clash_same_names(t, t2, rest);
                assert(merge_model(t, s, prefix) is Err <==> clash(t, s));
            },
            Some(i) => {
                assert forall|v: NodeModel, j: int| 0 <= j < rest.len() implies model_get(#[trigger] t.update(i, (t[i].0, v)), #[trigger] rest[j].0) == model_get(t, rest[j].0) by {
                    lemma_get_update(t, i, v, rest[j].0);
                    lemma_model_find(t, rest[j].0, 0);
                }
                match t[i].1 {
                    NodeModel::Leaf(_) => match s[0].1 {
                        NodeModel::Leaf(sl) => {
                            let v = NodeModel::Leaf(LeafModel { origin: Origin::Override, ..sl });
                            let t2 = t.update(i, (t[i].0, v));
                            law_merge_fails_on_clash(t2, rest, prefix);
                            lemma_clash_same_names(t, t2, rest);
                            assert(merge_model(t, s, prefix) is Err <==> clash(t, s));
                        },
                        NodeModel::Ns(_) => {
                            assert(merge_model(t, s, prefix) is Err <==> clash(t, s));
                        },
                    },
                    NodeModel::Ns(tm) => match s[0].1 {
                        NodeModel::Ns(sm) => {
                            assert(tree_wf(s[0].1));
                            law_merge_fails_on_clash(tm, sm, full);
                            if let Ok(m2) = merge_model(tm, sm, full) {
                                let t2 = t.update(i, (t[i].0, NodeModel::Ns(m2)));
                                law_merge_fails_on_clash(t2, rest, prefix);
                                lemma_clash_same_names(t, t2, rest);
                            }
                            assert(merge_model(t, s, prefix) is Err <==> clash(t, s));
                        },
                        NodeModel::Leaf(_) => {
                            assert(merge_model(t, s, prefix) is Err <==> clash(t, s));
                        },
                    },
                }
            },
        }
    }
}

pub proof fn lemma_all_wf_forall(es: Seq<(Seq<char>, NodeModel)>)
    ensures
        all_wf(es) <==> forall|j: int| 0 <= j < es.len() ==> tree_wf(#[trigger] es[j].1),
    decreases es.len(),
{
    if es.len() > 0 {
        let d = es.drop_last();
        lemma_all_wf_forall(d);
        if forall|j: int| 0 <= j < es.len() ==> tree_wf(#[trigger] es[j].1) {
            assert forall|j: int| 0 <= j < d.len() implies tree_wf(#[trigger] d[j].1) by {
                assert(d[j] == es[j]);
            }
            assert(tree_wf(es[es.len() - 1].1));
        }
        if all_wf(es) {
            assert forall|j: int| 0 <= j < es.len() implies tree_wf(#[trigger] es[j].1) by {
                if j < d.len() {
                    assert(d[j] == es[j]);
                }
            }
        }
    }
}

pub proof fn lemma_insert_elems(es: Seq<(Seq<char>, NodeModel)>, k: Seq<char>, v: NodeModel)
    ensures
        insert_sorted(es, k, v).len() >= 1,
        forall|j: int| 0 <= j < insert_sorted(es, k, v).len() ==> (#[trigger] insert_sorted(es, k, v)[j] == (k, v)
            || exists|i: int| 0 <= i < es.len() && insert_sorted(es, k, v)[j] == es[i]),
    decreases es.len(),
{
    let r = insert_sorted(es, k, v);
    if es.len() == 0 {
    } else if es[0].0 == k {
        assert forall|j: int| 0 <= j < r.len() implies (#[trigger] r[j] == (k, v) || exists|i: int|
            0 <= i < es.len() && r[j] == es[i]) by {
            if j != 0 {
                assert(r[j] == es[j]);
            }
        }
    } else if seq_lt(k, es[0].0) {
        assert forall|j: int| 0 <= j < r.len() implies (#[trigger] r[j] == (k, v) || exists|i: int|
            0 <= i < es.len() && r[j] == es[i]) by {
            if j != 0 {
                assert(r[j] == es[j - 1]);
            }
        }
    } else {
        let d = es.drop_first();
        lemma_insert_elems(d, k, v);
        let q = insert_sorted(d, k, v);
        assert forall|j: int| 0 <= j < r.len() implies (#[trigger] r[j] == (k, v) || exists|i: int|
            0 <= i < es.len() && r[j] == es[i]) by {
            if j == 0 {
                assert(r[0] == es[0]);
            } else {
                assert(r[j] == q[j - 1]);
                if q[j - 1] != (k, v) {
                    let i = choose|i: int| 0 <= i < d.len() && q[j - 1] == d[i];
                    assert(d[i] == es[i + 1]);
                }
            }
        }
    }
}

proof fn lemma_insert_sorted_order(es: Seq<(Seq<char>, NodeModel)>, k: Seq<char>, v: NodeModel)
    requires
        sorted(es),
    ensures
        sorted(insert_sorted(es, k, v)),
    decreases es.len(),
{
    let r = insert_sorted(es, k, v);
    if es.len() == 0 {
    } else if es[0].0 == k {
        assert forall|i: int, j: int| 0 <= i < j < r.len() implies seq_lt(#[trigger] r[i].0, #[trigger] r[j].0) by {
            assert(r[i].0 == es[i].0);
            assert(r[j].0 == es[j].0);
        }
    } else if seq_lt(k, es[0].0) {
        assert forall|i: int, j: int| 0 <= i < j < r.len() implies seq_lt(#[trigger] r[i].0, #[trigger] r[j].0) by {
            assert(r[j] == es[j - 1]);
            if i == 0 {
                if j - 1 > 0 {
                    crate::text::lemma_seq_lt_transitive(k, es[0].0, es[j - 1].0);
                }
            } else {
                assert(r[i] == es[i - 1]);
            }
        }
    } else {
        let d = es.drop_first();
        assert(sorted(d)) by {
            assert forall|i: int, j: int| 0 <= i < j < d.len() implies seq_lt(#[trigger] d[i].0, #[trigger] d[j].0) by {
                assert(d[i] == es[i + 1]);
                assert(d[j] == es[j + 1]);
            }
        }
        lemma_insert_sorted_order(d, k, v);
        lemma_insert_elems(d, k, v);
        crate::text::lemma_seq_lt_total(es[0].0, k);
        let q = insert_sorted(d, k, v);
        assert forall|i: int, j: int| 0 <= i < j < r.len() implies seq_lt(#[trigger] r[i].0, #[trigger] r[j].0) by {
            assert(r[j] == q[j - 1]);
            if i == 0 {
                assert(r[0] == es[0]);
                if q[j - 1] != (k, v) {
                    let m = choose|m: int| 0 <= m < d.len() && q[j - 1] == d[m];
                    assert(d[m] == es[m + 1]);
                }
            } else {
                assert(r[i] == q[i - 1]);
            }
        }
    }
}

/// Insertion keeps a map well formed: a sorted map with well-formed nodes
/// stays so when a well-formed node is inserted under any name.
pub proof fn law_insert_keeps_order(es: Seq<(Seq<char>, NodeModel)>, k: Seq<char>, v: NodeModel)
    requires
        entries_wf(es),
        tree_wf(v),
    ensures
        entries_wf(insert_sorted(es, k, v)),
{
    lemma_insert_sorted_order(es, k, v);
    lemma_insert_elems(es, k, v);
    lemma_all_wf_forall(es);
    let r = insert_sorted(es, k, v);
    lemma_all_wf_forall(r);
    assert forall|j: int| 0 <= j < r.len() implies tree_wf(#[trigger] r[j].1) by {
        if r[j] != (k, v) {
            let i = choose|i: int| 0 <= i < es.len() && r[j] == es[i];
        }
    }
}

proof fn lemma_update_wf(t: Seq<(Seq<char>, NodeModel)>, i: int, v: NodeModel)
    requires
        entries_wf(t),
        tree_wf(v),
        0 <= i < t.len(),
    ensures
        entries_wf(t.update(i, (t[i].0, v))),
{
    let u = t.update(i, (t[i].0, v));
    lemma_all_wf_forall(t);
    lemma_all_wf_forall(u);
    assert forall|a: int, b: int| 0 <= a < b < u.len() implies seq_lt(#[trigger] u[a].0, #[trigger] u[b].0) by {
        assert(u[a].0 == t[a].0);
        assert(u[b].0 == t[b].0);
    }
    assert forall|j: int| 0 <= j < u.len() implies tree_wf(#[trigger] u[j].1) by {
        if j != i {
            assert(u[j] == t[j]);
        }
    }
}

proof fn lemma_merge_wf(t: Seq<(Seq<char>, NodeModel)>, s: Seq<(Seq<char>, NodeModel)>, prefix: Seq<char>)
    requires
        entries_wf(t),
        entries_wf(s),
        merge_model(t, s, prefix) is Ok,
    ensures
        entries_wf(merge_model(t, s, prefix)->Ok_0),
    decreases s,
{
    if s.len() > 0 {
        let k0 = s[0].0;
        let rest = s.subrange(1, s.len() as int);
        lemma_all_wf_forall(s);
        lemma_all_wf_forall(t);
        lemma_all_wf_forall(rest);
        assert(entries_wf(rest)) by {
            assert forall|i: int, j: int| 0 <= i < j < rest.len() implies seq_lt(#[trigger] rest[i].0, #[trigger] rest[j].0) by {
                assert(rest[i] == s[i + 1]);
                assert(rest[j] == s[j + 1]);
            }
            assert forall|j: int| 0 <= j < rest.len() implies tree_wf(#[trigger] rest[j].1) by {
                assert(rest[j] == s[j + 1]);
            }
        }
        assert(tree_wf(s[0].1));
        let full = join_path(prefix, k0);
        lemma_model_find(t, k0, 0);
        match model_find(t, k0, 0) {
            None => {
                law_insert_keeps_order(t, k0, s[0].1);
                lemma_merge_wf(insert_sorted(t, k0, s[0].1), rest, prefix);
            },
            Some(i) => {
                assert(tree_wf(t[i].1));
                match t[i].1 {
                    NodeModel::Leaf(_) => match s[0].1 {
                        NodeModel::Leaf(sl) => {
                            let v = NodeModel::Leaf(LeafModel { origin: Origin::Override, ..sl });
                            lemma_update_wf(t, i, v);
                            lemma_merge_wf(t.update(i, (t[i].0, v)), rest, prefix);
                        },
                        NodeModel::Ns(_) => {},
                    },
                    NodeModel::Ns(tm) => match s[0].1 {
                        NodeModel::Ns(sm) => {
                            assert(decreases_to!(s => sm)) by {
                                assert(decreases_to!(s => s[0]));
                                assert(decreases_to!(s[0] => s[0].1));
                            }
                            lemma_merge_wf(tm, sm, full);
                            let v = NodeModel::Ns(merge_model(tm, sm, full)->Ok_0);
                            lemma_update_wf(t, i, v);
                            lemma_merge_wf(t.update(i, (t[i].0, v)), rest, prefix);
                        },
                        NodeModel::Leaf(_) => {},
                    },
                }
            },
        }
    }
}

/// Merging keeps the tree well formed: when both trees keep every
/// namespace's names strictly increasing, so does the merged tree.
pub proof fn law_merge_keeps_order(
    global: Seq<(Seq<char>, NodeModel)>,
    local: Seq<(Seq<char>, NodeModel)>,
    prefix: Seq<char>,
)
    requires
        entries_wf(global),
        entries_wf(local),
        merge_model(global, local, prefix) is Ok,
    ensures
        entries_wf(merge_model(global, local, prefix)->Ok_0),
{
    lemma_merge_wf(global, local, prefix);
}

proof fn lemma_tag_node_wf(n: NodeModel, o: Origin)
    requires
        tree_wf(n),
    ensures
        tree_wf(tag_node(n, o)),
    decreases n,
{
    if let NodeModel::Ns(es) = n {
        lemma_tag_entries_wf(es, o);
    }
}

proof fn lemma_tag_entries_wf(es: Seq<(Seq<char>, NodeModel)>, o: Origin)
    requires
        entries_wf(es),
    ensures
        entries_wf(tag_entries(es, o)),
    decreases es,
{
    let t = tag_entries(es, o);
    lemma_tag_entries(es, o);
    lemma_all_wf_forall(es);
    lemma_all_wf_forall(t);
    assert forall|a: int, b: int| 0 <= a < b < t.len() implies seq_lt(#[trigger] t[a].0, #[trigger] t[b].0) by {
        assert(t[a].0 == es[a].0);
        assert(t[b].0 == es[b].0);
    }
    assert forall|j: int| 0 <= j < t.len() implies tree_wf(#[trigger] t[j].1) by {
        assert(decreases_to!(es => es[j].1)) by {
            assert(decreases_to!(es => es[j]));
        }
        lemma_tag_node_wf(es[j].1, o);
    }
}

/// Tagging keeps the tree well formed.
pub proof fn law_tag_keeps_order(es: Seq<(Seq<char>, NodeModel)>, o: Origin)
    requires
        entries_wf(es),
    ensures
        entries_wf(tag_entries(es, o)),
{
    lemma_tag_entries_wf(es, o);
}

/// The next move of the walk up from the working directory in search of
/// the local configuration.
#[derive(Debug, Clone, Copy, PartialEq, Eq, Structural)]
pub enum WalkStep {
    /// `.jk` in the directory reached is a file: it is the configuration.
    Found,
    /// Go on to the parent directory.
    Up,
    /// The root is reached without a `.jk`: there is no local configuration.
    Stop,
}

pub open spec fn walk_next(candidate_is_file: bool, has_parent: bool) -> WalkStep {
    if candidate_is_file {
        WalkStep::Found
    } else if has_parent {
        WalkStep::Up
    } else {
        WalkStep::Stop
    }
}

/// One decision of the walk, in a directory where `.jk` is or is not a
/// file and that has or has no parent.
pub fn walk_step(candidate_is_file: bool, has_parent: bool) -> (r: WalkStep)
    ensures
        r == walk_next(candidate_is_file, has_parent),
{
    if candidate_is_file {
        WalkStep::Found
    } else if has_parent {
        WalkStep::Up
    } else {
        WalkStep::Stop
    }
}

/// The walk driven by `walk_next` from the `i`-th directory, where
/// `files[j]` tells whether `.jk` is a file in the directory `j` levels up
/// and the last directory is the root: how many levels up the
/// configuration was found, if anywhere.
pub open spec fn walk_from(files: Seq<bool>, i: nat) -> Option<nat>
    decreases files.len() - i,
{
    if i >= files.len() {
        None
    } else {
        match walk_next(files[i as int], i + 1 < files.len()) {
            WalkStep::Found => Some(i),
            WalkStep::Up => walk_from(files, i + 1),
            WalkStep::Stop => None,
        }
    }
}

/// The first of the directories, from `i` up, holding a `.jk` file.
pub open spec fn nearest_from(files: Seq<bool>, i: nat) -> Option<nat>
    decreases files.len() - i,
{
    if i >= files.len() {
        None
    } else if files[i as int] {
        Some(i)
    } else {
        nearest_from(files, i + 1)
    }
}

proof fn lemma_walk_from(files: Seq<bool>, i: nat)
    ensures
        walk_from(files, i) == nearest_from(files, i),
    decreases files.len() - i,
{
    if i < files.len() {
        lemma_walk_from(files, i + 1);
    }
}

/// The walk finds the nearest configuration: driven over the directories
/// from the working directory up to the root, it stops at the first one
/// whose `.jk` is a file, and finds none only when no directory has one.
pub proof fn law_walk_finds_nearest(files: Seq<bool>)
    ensures
        walk_from(files, 0) == nearest_from(files, 0),
{
    lemma_walk_from(files, 0);
}

} // verus!
