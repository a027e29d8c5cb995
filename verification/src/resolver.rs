//! Resolving command-line tokens against the command tree: namespaces are
//! walked name by name until a leaf is reached (the remaining tokens are its
//! arguments) or the tokens run out (a namespace to list).
use vstd::prelude::*;
use crate::config::{
    CommandMap, CommandNode, Config, LeafCommand, LeafModel, NodeModel, config_model, descend,
    leaf_model, lookup_model, map_model, model_get, node_model,
};
use crate::error::{JkError, JkResult};
use crate::text::{join, views};

verus! {

pub struct Resolved<'a> {
    pub path: Vec<String>,
    pub args: Vec<String>,
    pub leaf: &'a LeafCommand,
}

pub enum ResolveResult<'a> {
    Leaf(Resolved<'a>),
    Namespace { path: Vec<String>, children: &'a CommandMap },
}

/// Where a walk ends: after `n` tokens, at a leaf or at a namespace.
pub enum Resolution {
    LeafAt(nat, LeafModel),
    NamespaceAt(nat, Seq<(Seq<char>, NodeModel)>),
}

/// The walk from token `i` on, starting in the namespace `es`; an unknown
/// name is an error naming the tokens up to and including it.
pub open spec fn walk(es: Seq<(Seq<char>, NodeModel)>, toks: Seq<Seq<char>>, i: int) -> Result<
    Resolution,
    Seq<char>,
>
    decreases toks.len() - i,
{
    if i < 0 || i >= toks.len() {
        Ok(Resolution::NamespaceAt(if i < 0 { 0 } else { i as nat }, es))
    } else {
        match model_get(es, toks[i]) {
            None => Err(join(toks.take(i + 1), seq![' '])),
            Some(NodeModel::Leaf(l)) => Ok(Resolution::LeafAt((i + 1) as nat, l)),
            Some(NodeModel::Ns(m)) => walk(m, toks, i + 1),
        }
    }
}

/// A walk ends at a namespace only when the tokens are used up, and at a
/// leaf after the token that names it.
pub proof fn lemma_walk_bounds(es: Seq<(Seq<char>, NodeModel)>, toks: Seq<Seq<char>>, i: int)
    requires
        0 <= i <= toks.len(),
    ensures
        walk(es, toks, i) matches Ok(Resolution::NamespaceAt(n, _)) ==> n == toks.len(),
        walk(es, toks, i) matches Ok(Resolution::LeafAt(n, _)) ==> i < n <= toks.len(),
    decreases toks.len() - i,
{
    if i < toks.len() {
        if let Some(NodeModel::Ns(m)) = model_get(es, toks[i]) {
            lemma_walk_bounds(m, toks, i + 1);
        }
    }
}

/// The resolution a result stands for.
pub open spec fn resolves_as(r: ResolveResult, toks: Seq<Seq<char>>, res: Resolution) -> bool {
    match res {
        Resolution::LeafAt(n, l) => r matches ResolveResult::Leaf(x) && views(x.path@) == toks.take(
            n as int,
        ) && views(x.args@) == toks.skip(n as int) && leaf_model(*x.leaf) == l,
        Resolution::NamespaceAt(n, es) => r matches ResolveResult::Namespace { path, children }
            && views(path@) == toks.take(n as int) && map_model(*children) == es,
    }
}

/// The tokens `v[..n]` joined by single spaces.
pub(crate) fn join_prefix(v: &[String], n: usize) -> (r: String)
    requires
        n <= v.len(),
    ensures
        r@ == join(views(v@).take(n as int), seq![' ']),
{
    let ghost parts = views(v@);
    let mut r = String::new();
    let mut k: usize = 0;
    while k < n
        invariant
            k <= n <= v.len(),
            parts == views(v@),
            r@ == join(parts.take(k as int), seq![' ']),
        decreases n - k,
    {
        proof {
            crate::text::lemma_join_step(parts, seq![' '], k as int);
        }
        if k > 0 {
            r.push(' ');
        }
        r.push_str(v[k].as_str());
        k += 1;
        assert(k == 1 ==> r@ =~= join(parts.take(k as int), seq![' ']));
        assert(k > 1 ==> r@ =~= join(parts.take(k as int), seq![' ']));
    }
    assert(parts.take(n as int) =~= views(v@).take(n as int));
    r
}

/// Copies of `v[a..b]`.
fn copy_range(v: &[String], a: usize, b: usize) -> (r: Vec<String>)
    requires
        a <= b <= v.len(),
    ensures
        views(r@) == views(v@).subrange(a as int, b as int),
{
    let mut r: Vec<String> = Vec::new();
    let mut i: usize = a;
    while i < b
        invariant
            a <= i <= b <= v.len(),
            r.len() == i - a,
            forall|j: int| 0 <= j < r.len() ==> #[trigger] r@[j]@ == v@[a + j]@,
        decreases b - i,
    {
        r.push(v[i].clone());
        i += 1;
    }
    assert(views(r@) =~= views(v@).subrange(a as int, b as int));
    r
}

/// Resolves tokens against the configuration: a leaf with its arguments, or
/// the namespace where the tokens run out; an unknown name is an error.
pub fn resolve<'a>(cfg: &'a Config, tokens: &[String]) -> (r: JkResult<ResolveResult<'a>>)
    ensures
        match walk(config_model(*cfg), views(tokens@), 0) {
            Ok(res) => r matches Ok(x) && resolves_as(x, views(tokens@), res),
            Err(m) => r matches Err(JkError::UnknownCommand(x)) && x@ == m,
        },
{
    let ghost toks = views(tokens@);
    let mut current: &'a CommandMap = cfg.tree.root();
    let mut idx: usize = 0;
    while idx < tokens.len()
        invariant
            idx <= tokens.len(),
            toks == views(tokens@),
            walk(config_model(*cfg), toks, 0) == walk(map_model(*current), toks, idx as int),
        decreases tokens.len() - idx,
    {
        match current.get(tokens[idx].as_str()) {
            None => {
                return Err(JkError::UnknownCommand(join_prefix(tokens, idx + 1)));
            },
            Some(node) => match node {
                CommandNode::Leaf(leaf) => {
                    let path = copy_range(tokens, 0, idx + 1);
                    let args = copy_range(tokens, idx + 1, tokens.len());
                    assert(toks.subrange(0, idx + 1) =~= toks.take(idx + 1));
                    assert(toks.subrange(idx + 1, toks.len() as int) =~= toks.skip(idx + 1));
                    return Ok(ResolveResult::Leaf(Resolved { path, args, leaf }));
                },
                CommandNode::Namespace(m) => {
                    current = m;
                },
            },
        }
        idx += 1;
    }
    let path = copy_range(tokens, 0, tokens.len());
    assert(toks.subrange(0, idx as int) =~= toks.take(idx as int));
    Ok(ResolveResult::Namespace { path, children: current })
}

proof fn lemma_walk_descends(es: Seq<(Seq<char>, NodeModel)>, toks: Seq<Seq<char>>, i: int)
    requires
        0 <= i <= toks.len(),
    ensures
        walk(es, toks, i) matches Ok(Resolution::LeafAt(n, l)) ==> i < n <= toks.len() && descend(
            NodeModel::Ns(es),
            toks.subrange(i, n as int),
        ) == Some(NodeModel::Leaf(l)),
        walk(es, toks, i) matches Ok(Resolution::NamespaceAt(n, m)) ==> n == toks.len() && descend(
            NodeModel::Ns(es),
            toks.subrange(i, toks.len() as int),
        ) == Some(NodeModel::Ns(m)),
    decreases toks.len() - i,
{
    lemma_walk_bounds(es, toks, i);
    if i < toks.len() {
        match model_get(es, toks[i]) {
            None => {},
            Some(NodeModel::Leaf(l)) => {
                let p = toks.subrange(i, i + 1);
                assert(p[0] == toks[i]);
                assert(p.drop_first().len() == 0);
                assert(descend(NodeModel::Leaf(l), p.drop_first()) == Some(NodeModel::Leaf(l)));
            },
            Some(NodeModel::Ns(m)) => {
                lemma_walk_descends(m, toks, i + 1);
                if let Ok(Resolution::LeafAt(n, l)) = walk(m, toks, i + 1) {
                    let p = toks.subrange(i, n as int);
                    assert(p[0] == toks[i]);
                    assert(p.drop_first() =~= toks.subrange(i + 1, n as int));
                }
                if let Ok(Resolution::NamespaceAt(n, mm)) = walk(m, toks, i + 1) {
                    let p = toks.subrange(i, toks.len() as int);
                    assert(p[0] == toks[i]);
                    assert(p.drop_first() =~= toks.subrange(i + 1, toks.len() as int));
                }
            },
        }
    } else {
        assert(toks.subrange(i, toks.len() as int).len() == 0);
    }
}

/// Resolving agrees with looking up: the leaf a command line resolves to
/// is the node its command path names, and a namespace reached by a
/// non-empty path is the namespace that path names.
pub proof fn law_resolve_agrees_with_lookup(es: Seq<(Seq<char>, NodeModel)>, toks: Seq<Seq<char>>)
    ensures
        walk(es, toks, 0) matches Ok(Resolution::LeafAt(n, l)) ==> lookup_model(es, toks.take(n as int))
            == Some(NodeModel::Leaf(l)),
        toks.len() > 0 ==> (walk(es, toks, 0) matches Ok(Resolution::NamespaceAt(n, m)) ==> lookup_model(
            es,
            toks,
        ) == Some(NodeModel::Ns(m))),
{
    lemma_walk_descends(es, toks, 0);
    if let Ok(Resolution::LeafAt(n, l)) = walk(es, toks, 0) {
        assert(toks.subrange(0, n as int) =~= toks.take(n as int));
    }
    if let Ok(Resolution::NamespaceAt(n, m)) = walk(es, toks, 0) {
        assert(toks.subrange(0, toks.len() as int) =~= toks);
    }
}

proof fn lemma_lookup_is_descend(es: Seq<(Seq<char>, NodeModel)>, p: Seq<Seq<char>>)
    requires
        p.len() > 0,
    ensures
        lookup_model(es, p) == descend(NodeModel::Ns(es), p),
{
}

/// Where the walk from token `i` stands after token `j`, one step at a time.
proof fn lemma_descend_step(es: Seq<(Seq<char>, NodeModel)>, toks: Seq<Seq<char>>, i: int, j: int)
    requires
        0 <= i < j <= toks.len(),
    ensures
        descend(NodeModel::Ns(es), toks.subrange(i, j)) == match model_get(es, toks[i]) {
            None => None,
            Some(c) => descend(c, toks.subrange(i + 1, j)),
        },
{
    let p = toks.subrange(i, j);
    assert(p[0] == toks[i]);
    assert(p.drop_first() =~= toks.subrange(i + 1, j));
}

proof fn lemma_descend_leaf_empty(l: LeafModel, p: Seq<Seq<char>>)
    ensures
        descend(NodeModel::Leaf(l), p) == if p.len() == 0 { Some(NodeModel::Leaf(l)) } else { None::<NodeModel> },
{
}

proof fn lemma_walk_finds_leaf(es: Seq<(Seq<char>, NodeModel)>, toks: Seq<Seq<char>>, i: int, n: int, l: LeafModel)
    requires
        0 <= i < n <= toks.len(),
        descend(NodeModel::Ns(es), toks.subrange(i, n)) == Some(NodeModel::Leaf(l)),
    ensures
        walk(es, toks, i) == Ok::<Resolution, Seq<char>>(Resolution::LeafAt(n as nat, l)),
    decreases toks.len() - i,
{
    lemma_descend_step(es, toks, i, n);
    match model_get(es, toks[i]) {
        None => {},
        Some(NodeModel::Leaf(l2)) => {
            lemma_descend_leaf_empty(l2, toks.subrange(i + 1, n));
        },
        Some(NodeModel::Ns(m)) => {
            if n == i + 1 {
                assert(toks.subrange(i + 1, n).len() == 0);
            } else {
                lemma_walk_finds_leaf(m, toks, i + 1, n, l);
            }
        },
    }
}

proof fn lemma_walk_finds_namespace(es: Seq<(Seq<char>, NodeModel)>, toks: Seq<Seq<char>>, i: int, m: Seq<(Seq<char>, NodeModel)>)
    requires
        0 <= i <= toks.len(),
        descend(NodeModel::Ns(es), toks.subrange(i, toks.len() as int)) == Some(NodeModel::Ns(m)),
    ensures
        walk(es, toks, i) == Ok::<Resolution, Seq<char>>(Resolution::NamespaceAt(toks.len(), m)),
    decreases toks.len() - i,
{
    if i == toks.len() {
        assert(toks.subrange(i, toks.len() as int).len() == 0);
    } else {
        lemma_descend_step(es, toks, i, toks.len() as int);
        match model_get(es, toks[i]) {
            None => {},
            Some(NodeModel::Leaf(l2)) => {
                lemma_descend_leaf_empty(l2, toks.subrange(i + 1, toks.len() as int));
            },
            Some(NodeModel::Ns(mm)) => {
                lemma_walk_finds_namespace(mm, toks, i + 1, m);
            },
        }
    }
}

proof fn lemma_walk_unknown(es: Seq<(Seq<char>, NodeModel)>, toks: Seq<Seq<char>>, i: int, n: int)
    requires
        0 <= i < n <= toks.len(),
        descend(NodeModel::Ns(es), toks.subrange(i, n)) is None,
        forall|j: int| i < j < n ==> #[trigger] descend(NodeModel::Ns(es), toks.subrange(i, j)) matches Some(
            NodeModel::Ns(_),
        ),
    ensures
        walk(es, toks, i) == Err::<Resolution, Seq<char>>(join(toks.take(n), seq![' '])),
    decreases toks.len() - i,
{
    lemma_descend_step(es, toks, i, n);
    match model_get(es, toks[i]) {
        None => {
            if n > i + 1 {
                lemma_descend_step(es, toks, i, i + 1);
                assert(descend(NodeModel::Ns(es), toks.subrange(i, i + 1)) matches Some(NodeModel::Ns(_)));
            }
        },
        Some(NodeModel::Leaf(l2)) => {
            lemma_descend_leaf_empty(l2, toks.subrange(i + 1, n));
            if n > i + 1 {
                lemma_descend_step(es, toks, i, i + 1);
                lemma_descend_leaf_empty(l2, toks.subrange(i + 1, i + 1));
                assert(descend(NodeModel::Ns(es), toks.subrange(i, i + 1)) matches Some(NodeModel::Ns(_)));
            } else {
                assert(toks.subrange(i + 1, n).len() == 0);
            }
        },
        Some(NodeModel::Ns(m)) => {
            if n == i + 1 {
                assert(toks.subrange(i + 1, n).len() == 0);
            } else {
                assert forall|j: int| i + 1 < j < n implies #[trigger] descend(NodeModel::Ns(m), toks.subrange(i + 1, j)) matches Some(
                    NodeModel::Ns(_),
                ) by {
                    lemma_descend_step(es, toks, i, j);
                    assert(descend(NodeModel::Ns(es), toks.subrange(i, j)) matches Some(NodeModel::Ns(_)));
                }
                lemma_walk_unknown(m, toks, i + 1, n);
            }
        },
    }
}

/// Resolving finds every command at any depth: when a prefix of the tokens
/// names a leaf, the tokens resolve to that leaf with that prefix as its
/// path and the rest as its arguments; when all the tokens name a
/// namespace, they resolve to it; no tokens resolve to the top; and the
/// tokens are refused only at the first prefix that names nothing, with
/// that prefix in the message.
pub proof fn law_resolve_finds_every_command(es: Seq<(Seq<char>, NodeModel)>, toks: Seq<Seq<char>>, n: int)
    ensures
        toks.len() == 0 ==> walk(es, toks, 0) == Ok::<Resolution, Seq<char>>(Resolution::NamespaceAt(0, es)),
        1 <= n <= toks.len() ==> (lookup_model(es, toks.take(n)) matches Some(NodeModel::Leaf(l)) ==> walk(es, toks, 0)
            == Ok::<Resolution, Seq<char>>(Resolution::LeafAt(n as nat, l))),
        toks.len() > 0 ==> (lookup_model(es, toks) matches Some(NodeModel::Ns(m)) ==> walk(es, toks, 0) == Ok::<
            Resolution,
            Seq<char>,
        >(Resolution::NamespaceAt(toks.len(), m))),
        1 <= n <= toks.len() && lookup_model(es, toks.take(n)) is None && (forall|j: int|
            1 <= j < n ==> #[trigger] lookup_model(es, toks.take(j)) matches Some(NodeModel::Ns(_))) ==> walk(es, toks, 0)
            == Err::<Resolution, Seq<char>>(join(toks.take(n), seq![' '])),
{
    if 1 <= n <= toks.len() {
        assert(toks.subrange(0, n) =~= toks.take(n));
        lemma_lookup_is_descend(es, toks.take(n));
        if let Some(NodeModel::Leaf(l)) = lookup_model(es, toks.take(n)) {
            lemma_walk_finds_leaf(es, toks, 0, n, l);
        }
        if lookup_model(es, toks.take(n)) is None && (forall|j: int|
            1 <= j < n ==> #[trigger] lookup_model(es, toks.take(j)) matches Some(NodeModel::Ns(_))) {
            assert forall|j: int| 0 < j < n implies #[trigger] descend(NodeModel::Ns(es), toks.subrange(0, j)) matches Some(
                NodeModel::Ns(_),
            ) by {
                assert(toks.subrange(0, j) =~= toks.take(j));
                lemma_lookup_is_descend(es, toks.take(j));
                assert(lookup_model(es, toks.take(j)) matches Some(NodeModel::Ns(_)));
            }
            lemma_walk_unknown(es, toks, 0, n);
        }
    }
    if toks.len() > 0 {
        assert(toks.subrange(0, toks.len() as int) =~= toks);
        lemma_lookup_is_descend(es, toks);
        if let Some(NodeModel::Ns(m)) = lookup_model(es, toks) {
            lemma_walk_finds_namespace(es, toks, 0, m);
        }
    }
}

} // verus!
