//! The configuration schema: how a TOML document becomes a command tree.
//! A table with `cmd` is a leaf (`cmd`, `desc`, `shell`, `quiet` and
//! `no-color` only); a table with child tables is a namespace; a node is one
//! or the other, never both.
use vstd::prelude::*;
use crate::config::{
    CmdBody, CmdModel, CommandMap, CommandNode, CommandTree, Config, LeafCommand, LeafModel,
    NodeModel, Origin, config_model, entries_wf, insert_sorted, law_insert_keeps_order, map_model,
    node_model, tree_wf, cmd_texts, lemma_insert_elems,
};
use crate::error::{JkError, JkResult};
use crate::render::{aggregate, analyze, aggregate_shape, fault_text, scan};
use crate::shell::{Shell, shell_named, unsupported_shell_text};
use crate::text::{
    chars_eq_str, chars_of, decimal, decimal_string, join, owned, push_chars, str_views,
    string_eq_str, trim, trim_chars, views,
};
use crate::toml_doc::{
    TomlData, TomlValue, lemma_toml_entries_model, lemma_toml_items_model, parse_toml_table,
    toml_document, toml_entries_model, toml_items_model, toml_model, toml_string_error, toml_read_string_error,
};

verus! {

/// `'path'`.
pub open spec fn quoted_path(p: Seq<char>) -> Seq<char> {
    "'"@ + p + "'"@
}

/// The first entry of a table named `k`.
pub open spec fn table_get(t: Seq<(Seq<char>, TomlData)>, k: Seq<char>) -> Option<TomlData>
    decreases t.len(),
{
    if t.len() == 0 {
        None
    } else if t[0].0 == k {
        Some(t[0].1)
    } else {
        table_get(t.drop_first(), k)
    }
}

/// The fields a leaf may have.
pub open spec fn is_leaf_field(k: Seq<char>) -> bool {
    k == "cmd"@ || k == "desc"@ || k == "shell"@ || k == "quiet"@ || k == "no-color"@
}

/// Some entry other than a leaf field holds a table.
pub open spec fn has_children(t: Seq<(Seq<char>, TomlData)>) -> bool {
    exists|i: int| 0 <= i < t.len() && !is_leaf_field(#[trigger] t[i].0) && t[i].1 is Table
}

/// The TOML type name of a value (`toml::Value::type_str`).
pub open spec fn toml_type_text(v: TomlData) -> Seq<char> {
    match v {
        TomlData::Str(_) => "string"@,
        TomlData::Integer => "integer"@,
        TomlData::Float => "float"@,
        TomlData::Boolean(_) => "boolean"@,
        TomlData::Datetime => "datetime"@,
        TomlData::Array(_) => "array"@,
        TomlData::Table(_) => "table"@,
    }
}

pub open spec fn leaf_desc(t: Seq<(Seq<char>, TomlData)>, p: Seq<char>) -> Result<
    Option<Seq<char>>,
    Seq<char>,
> {
    match table_get(t, "desc"@) {
        None => Ok(None),
        Some(TomlData::Str(s)) => Ok(Some(s)),
        Some(TomlData::Array(a)) => if all_str(a) {
            Ok(Some(join(str_items(a), seq!['\n'])))
        } else {
            Err(quoted_path(p) + ".desc array items must be strings"@)
        },
        Some(_) => Err(quoted_path(p) + ".desc must be string or array of strings"@),
    }
}

/// An optional boolean field; omission reads as `false`.
pub open spec fn leaf_flag(t: Seq<(Seq<char>, TomlData)>, p: Seq<char>, name: Seq<char>) -> Result<
    bool,
    Seq<char>,
> {
    match table_get(t, name) {
        None => Ok(false),
        Some(TomlData::Boolean(b)) => Ok(b),
        Some(_) => Err(quoted_path(p) + "."@ + name + " must be boolean"@),
    }
}

pub open spec fn leaf_shell(t: Seq<(Seq<char>, TomlData)>, p: Seq<char>) -> Result<
    Option<Shell>,
    Seq<char>,
> {
    match table_get(t, "shell"@) {
        None => Ok(None),
        Some(TomlData::Str(s)) => match shell_named(s) {
            Some(sh) => Ok(Some(sh)),
            None => Err(quoted_path(p) + ".shell: "@ + unsupported_shell_text(s)),
        },
        Some(_) => Err(quoted_path(p) + ".shell must be string"@),
    }
}

/// Every item is a string.
pub open spec fn all_str(a: Seq<TomlData>) -> bool {
    forall|i: int| 0 <= i < a.len() ==> #[trigger] a[i] is Str
}

/// The texts of string items.
pub open spec fn str_items(a: Seq<TomlData>) -> Seq<Seq<char>> {
    a.map_values(|d: TomlData| match d {
        TomlData::Str(s) => s,
        _ => seq![],
    })
}

pub open spec fn leaf_cmd(t: Seq<(Seq<char>, TomlData)>, p: Seq<char>) -> Result<CmdModel, Seq<char>> {
    match table_get(t, "cmd"@) {
        Some(TomlData::Str(s)) => Ok(CmdModel::Single(s)),
        Some(TomlData::Array(a)) => if all_str(a) {
            Ok(CmdModel::Sequence(str_items(a)))
        } else {
            Err(quoted_path(p) + ".cmd array items must be strings"@)
        },
        _ => Err(quoted_path(p) + ".cmd must be string or array of strings"@),
    }
}

/// The first position at or after `i` whose text is blank.
pub open spec fn first_blank(v: Seq<Seq<char>>, i: int) -> Option<int>
    decreases v.len() - i,
{
    if i < 0 || i >= v.len() {
        None
    } else if trim(v[i]).len() == 0 {
        Some(i)
    } else {
        first_blank(v, i + 1)
    }
}

/// The complaint about an empty command, if any.
pub open spec fn blank_cmd(c: CmdModel, p: Seq<char>) -> Option<Seq<char>> {
    match c {
        CmdModel::Single(s) => if trim(s).len() == 0 {
            Some(quoted_path(p) + ".cmd must not be empty"@)
        } else {
            None
        },
        CmdModel::Sequence(v) => if v.len() == 0 {
            Some(quoted_path(p) + ".cmd array must not be empty"@)
        } else {
            match first_blank(v, 0) {
                Some(i) => Some(quoted_path(p) + ".cmd["@ + decimal(i as nat) + "] must not be empty"@),
                None => None,
            }
        },
    }
}

/// The first key at or after `i` that is not a leaf field.
pub open spec fn first_unknown(t: Seq<(Seq<char>, TomlData)>, i: int) -> Option<Seq<char>>
    decreases t.len() - i,
{
    if i < 0 || i >= t.len() {
        None
    } else if !is_leaf_field(t[i].0) {
        Some(t[i].0)
    } else {
        first_unknown(t, i + 1)
    }
}

/// The first position at or after `i` whose template is rejected.
pub open spec fn first_bad_template(v: Seq<Seq<char>>, i: int) -> Option<int>
    decreases v.len() - i,
{
    if i < 0 || i >= v.len() {
        None
    } else if scan(v[i]) is Err {
        Some(i)
    } else {
        first_bad_template(v, i + 1)
    }
}

/// The complaint about the command templates, if any.
pub open spec fn template_complaint(v: Seq<Seq<char>>, p: Seq<char>) -> Option<Seq<char>> {
    match first_bad_template(v, 0) {
        Some(i) => {
            let where_in = if v.len() > 1 {
                quoted_path(p) + ".cmd["@ + decimal(i as nat) + "]"@
            } else {
                quoted_path(p) + ".cmd"@
            };
            Some(where_in + ": "@ + fault_text(scan(v[i])->Err_0))
        },
        None => match aggregate(v) {
            Err(m) => Some(quoted_path(p) + ".cmd: "@ + m),
            Ok(_) => None,
        },
    }
}

pub open spec fn no_shell_text(p: Seq<char>) -> Seq<char> {
    quoted_path(p)
        + ": no shell declared (file-level `shell` missing and leaf has no `shell` field of its own)"@
}

/// A table with `cmd` read as a leaf.
pub open spec fn build_leaf(t: Seq<(Seq<char>, TomlData)>, p: Seq<char>, fs: Option<Shell>) -> Result<
    NodeModel,
    Seq<char>,
> {
    match leaf_desc(t, p) {
        Err(e) => Err(e),
        Ok(desc) => match leaf_shell(t, p) {
            Err(e) => Err(e),
            Ok(shell) => match leaf_flag(t, p, "quiet"@) {
            Err(e) => Err(e),
            Ok(quiet) => match leaf_flag(t, p, "no-color"@) {
            Err(e) => Err(e),
            Ok(no_color) => match leaf_cmd(t, p) {
                Err(e) => Err(e),
                Ok(cmd) => match blank_cmd(cmd, p) {
                    Some(e) => Err(e),
                    None => match first_unknown(t, 0) {
                        Some(k) => Err(quoted_path(p) + "."@ + k + " is not a known leaf field"@),
                        None => match template_complaint(crate::config::cmd_texts(cmd), p) {
                            Some(e) => Err(e),
                            None => {
                                let baked = match shell {
                                    Some(s) => Some(s),
                                    None => fs,
                                };
                                match baked {
                                    None => Err(no_shell_text(p)),
                                    Some(sh) => Ok(
                                        NodeModel::Leaf(
                                            LeafModel {
                                                desc,
                                                shell: sh,
                                                cmd,
                                                origin: Origin::LocalOnly,
                                                quiet,
                                                no_color,
                                            },
                                        ),
                                    ),
                                }
                            },
                        },
                    },
                },
            },
            },
            },
        },
    }
}

/// The keys that are not leaf fields, in order.
pub open spec fn unknown_keys(t: Seq<(Seq<char>, TomlData)>) -> Seq<Seq<char>>
    decreases t.len(),
{
    if t.len() == 0 {
        seq![]
    } else {
        let u = unknown_keys(t.drop_last());
        if is_leaf_field(t.last().0) {
            u
        } else {
            u.push(t.last().0)
        }
    }
}

pub open spec fn neither_text(t: Seq<(Seq<char>, TomlData)>, p: Seq<char>) -> Seq<char> {
    if unknown_keys(t).len() > 0 {
        quoted_path(p) + " has neither `cmd` nor child tables; got unknown field(s): "@ + join(
            unknown_keys(t),
            ", "@,
        )
    } else {
        quoted_path(p) + " has neither `cmd` nor child tables"@
    }
}

/// A value read as a node at path `p`.
pub open spec fn build(p: Seq<char>, v: TomlData, fs: Option<Shell>) -> Result<NodeModel, Seq<char>>
    decreases v,
{
    match v {
        TomlData::Table(t) => {
            let has_cmd = table_get(t, "cmd"@) is Some;
            if has_cmd && has_children(t) {
                Err(quoted_path(p) + " has both `cmd` and child tables; a node must be leaf XOR namespace"@)
            } else if has_cmd {
                build_leaf(t, p, fs)
            } else if has_children(t) {
                match build_children(t, p, fs, seq![]) {
                    Ok(es) => Ok(NodeModel::Ns(es)),
                    Err(e) => Err(e),
                }
            } else {
                Err(neither_text(t, p))
            }
        },
        _ => Err("expected table at '"@ + p + "', got "@ + toml_type_text(v)),
    }
}

/// A namespace's entries read in order and added to `acc`.
pub open spec fn build_children(
    t: Seq<(Seq<char>, TomlData)>,
    p: Seq<char>,
    fs: Option<Shell>,
    acc: Seq<(Seq<char>, NodeModel)>,
) -> Result<Seq<(Seq<char>, NodeModel)>, Seq<char>>
    decreases t,
{
    if t.len() == 0 {
        Ok(acc)
    } else {
        let k = t[0].0;
        if is_leaf_field(k) {
            Err(quoted_path(p) + " is a namespace; field '"@ + k + "' is not allowed here"@)
        } else if !(t[0].1 is Table) {
            Err(quoted_path(p) + "."@ + k + " is not a known field; namespaces only contain child tables"@)
        } else {
            match build(p + seq!['.'] + k, t[0].1, fs) {
                Err(e) => Err(e),
                Ok(n) => build_children(t.subrange(1, t.len() as int), p, fs, insert_sorted(acc, k, n)),
            }
        }
    }
}

/// Why a document is rejected.
pub enum LoadFault {
    /// Not TOML, or a top-level `shell` that is not a string.
    Parse(Seq<char>),
    /// TOML that does not follow the schema.
    Schema(Seq<char>),
}

/// The top-level entries other than `shell`, read in order and added to `acc`.
pub open spec fn build_top(
    t: Seq<(Seq<char>, TomlData)>,
    fs: Option<Shell>,
    acc: Seq<(Seq<char>, NodeModel)>,
) -> Result<Seq<(Seq<char>, NodeModel)>, Seq<char>>
    decreases t.len(),
{
    if t.len() == 0 {
        Ok(acc)
    } else if t[0].0 == "shell"@ {
        build_top(t.drop_first(), fs, acc)
    } else {
        match build(t[0].0, t[0].1, fs) {
            Err(e) => Err(e),
            Ok(n) => build_top(t.drop_first(), fs, insert_sorted(acc, t[0].0, n)),
        }
    }
}


/// The schema error for a top-level `shell` that is not a string, where toml
/// itself reports nothing.
pub open spec fn top_shell_type_text() -> Seq<char> {
    "shell must be string"@
}

/// What a configuration text reads as.
pub open spec fn load(text: Seq<char>) -> Result<Seq<(Seq<char>, NodeModel)>, LoadFault> {
    match toml_document(text) {
        Err(m) => Err(LoadFault::Parse(m)),
        Ok(doc) => {
            let fs = match table_get(doc, "shell"@) {
                None => Ok(None),
                Some(TomlData::Str(s)) => match shell_named(s) {
                    Some(sh) => Ok(Some(sh)),
                    None => Err(LoadFault::Schema(unsupported_shell_text(s))),
                },
                Some(other) => match toml_string_error(text, "shell"@) {
                    Some(m) => Err(LoadFault::Parse(m)),
                    None => Err(LoadFault::Schema(top_shell_type_text())),
                },
            };
            match fs {
                Err(f) => Err(f),
                Ok(fs) => match build_top(doc, fs, seq![]) {
                    Ok(es) => Ok(es),
                    Err(e) => Err(LoadFault::Schema(e)),
                },
            }
        },
    }
}

/// `'path'`.
fn qpath(p: &[char]) -> (r: String)
    ensures
        r@ == quoted_path(p@),
{
    let mut r = owned("'");
    push_chars(&mut r, p);
    r.push_str("'");
    r
}

/// `'path'` followed by `tail`.
fn qpath_then(p: &[char], tail: &str) -> (r: String)
    ensures
        r@ == quoted_path(p@) + tail@,
{
    let mut r = qpath(p);
    r.push_str(tail);
    r
}

/// The position of the first entry named `key`.
fn table_index(t: &Vec<(String, TomlValue)>, key: &str) -> (r: Option<usize>)
    ensures
        match table_get(toml_entries_model(t@), key@) {
            Some(d) => r matches Some(i) && i < t.len() && toml_model(t@[i as int].1) == d,
            None => r is None,
        },
{
    let ghost m = toml_entries_model(t@);
    proof {
        lemma_toml_entries_model(t@);
        assert(m.skip(0) =~= m);
    }
    let mut i: usize = 0;
    while i < t.len()
        invariant
            i <= t.len(),
            m == toml_entries_model(t@),
            m.len() == t.len(),
            forall|j: int| 0 <= j < t.len() ==> #[trigger] m[j] == (t@[j].0@, toml_model(t@[j].1)),
            table_get(m, key@) == table_get(m.skip(i as int), key@),
        decreases t.len() - i,
    {
        proof {
            assert(m.skip(i as int)[0] == m[i as int]);
            assert(m.skip(i as int).drop_first() =~= m.skip(i + 1));
        }
        if string_eq_str(t[i].0.as_str(), key) {
            return Some(i);
        }
        i += 1;
    }
    None
}

/// Whether some entry other than a leaf field holds a table.
fn has_children_exec(t: &Vec<(String, TomlValue)>) -> (r: bool)
    ensures
        r == has_children(toml_entries_model(t@)),
{
    let ghost m = toml_entries_model(t@);
    proof {
        lemma_toml_entries_model(t@);
    }
    let mut i: usize = 0;
    while i < t.len()
        invariant
            i <= t.len(),
            m == toml_entries_model(t@),
            m.len() == t.len(),
            forall|j: int| 0 <= j < t.len() ==> #[trigger] m[j] == (t@[j].0@, toml_model(t@[j].1)),
            forall|j: int| 0 <= j < i ==> !(!is_leaf_field(#[trigger] m[j].0) && m[j].1 is Table),
        decreases t.len() - i,
    {
        let field = is_leaf_field_exec(t[i].0.as_str());
        if !field {
            if let TomlValue::Table(_) = &t[i].1 {
                assert(!is_leaf_field(m[i as int].0) && m[i as int].1 is Table);
                return true;
            }
        }
        i += 1;
    }
    false
}

/// Whether a key is one of the leaf fields.
fn is_leaf_field_exec(k: &str) -> (r: bool)
    ensures
        r == is_leaf_field(k@),
{
    string_eq_str(k, "cmd") || string_eq_str(k, "desc") || string_eq_str(k, "shell")
        || string_eq_str(k, "quiet") || string_eq_str(k, "no-color")
}

fn leaf_desc_exec(t: &Vec<(String, TomlValue)>, p: &[char]) -> (r: Result<Option<String>, String>)
    ensures
        match leaf_desc(toml_entries_model(t@), p@) {
            Ok(d) => r matches Ok(x) && crate::text::opt_view(x) == d,
            Err(e) => r matches Err(m) && m@ == e,
        },
{
    match table_index(t, "desc") {
        None => Ok(None),
        Some(i) => match &t[i].1 {
            TomlValue::String(s) => Ok(Some(s.clone())),
            TomlValue::Array(a) => {
                let ghost am = toml_items_model(a@);
                proof {
                    lemma_toml_items_model(a@);
                }
                assert(table_get(toml_entries_model(t@), "desc"@) == Some(TomlData::Array(am)));
                match lines_of_items(a) {
                    Some(text) => Ok(Some(text)),
                    None => Err(qpath_then(p, ".desc array items must be strings")),
                }
            },
            _ => Err(qpath_then(p, ".desc must be string or array of strings")),
        },
    }
}

/// String items joined by newlines, or `None` when some item is not a string.
fn lines_of_items(a: &Vec<TomlValue>) -> (r: Option<String>)
    ensures
        all_str(toml_items_model(a@)) ==> (r matches Some(x) && x@ == join(str_items(toml_items_model(a@)), seq!['\n'])),
        !all_str(toml_items_model(a@)) ==> r is None,
{
    let ghost am = toml_items_model(a@);
    proof {
        lemma_toml_items_model(a@);
    }
    let mut out = String::new();
    let mut j: usize = 0;
    while j < a.len()
        invariant
            j <= a.len(),
            am == toml_items_model(a@),
            am.len() == a.len(),
            forall|q: int| 0 <= q < a.len() ==> #[trigger] am[q] == toml_model(a@[q]),
            forall|q: int| 0 <= q < j ==> am[q] is Str,
            out@ == join(str_items(am).take(j as int), seq!['\n']),
        decreases a.len() - j,
    {
        proof {
            crate::text::lemma_join_step(str_items(am), seq!['\n'], j as int);
        }
        match &a[j] {
            TomlValue::String(s) => {
                if j > 0 {
                    out.push('\n');
                }
                out.push_str(s.as_str());
            },
            _ => {
                assert(!(am[j as int] is Str));
                return None;
            },
        }
        j += 1;
        assert(j == 1 ==> out@ =~= join(str_items(am).take(j as int), seq!['\n']));
        assert(j > 1 ==> out@ =~= join(str_items(am).take(j as int), seq!['\n']));
    }
    assert(str_items(am).take(j as int) =~= str_items(am));
    Some(out)
}

/// An optional boolean field; omission reads as `false`.
fn leaf_flag_exec(t: &Vec<(String, TomlValue)>, p: &[char], name: &str) -> (r: Result<bool, String>)
    ensures
        match leaf_flag(toml_entries_model(t@), p@, name@) {
            Ok(b) => r == Ok::<bool, String>(b),
            Err(e) => r matches Err(m) && m@ == e,
        },
{
    match table_index(t, name) {
        None => Ok(false),
        Some(i) => match &t[i].1 {
            TomlValue::Boolean(b) => Ok(*b),
            _ => {
                let mut m = qpath_then(p, ".");
                m.push_str(name);
                m.push_str(" must be boolean");
                Err(m)
            },
        },
    }
}

fn leaf_shell_exec(t: &Vec<(String, TomlValue)>, p: &[char]) -> (r: Result<Option<Shell>, String>)
    ensures
        match leaf_shell(toml_entries_model(t@), p@) {
            Ok(sh) => r == Ok::<Option<Shell>, String>(sh),
            Err(e) => r matches Err(m) && m@ == e,
        },
{
    match table_index(t, "shell") {
        None => Ok(None),
        Some(i) => match &t[i].1 {
            TomlValue::String(s) => match Shell::parse(s.as_str()) {
                Ok(sh) => Ok(Some(sh)),
                Err(JkError::ConfigSchema(msg)) => {
                    let mut m = qpath_then(p, ".shell: ");
                    m.push_str(msg.as_str());
                    Err(m)
                },
                Err(_) => {
                    assert(false);
                    Err(String::new())
                },
            },
            _ => Err(qpath_then(p, ".shell must be string")),
        },
    }
}

fn leaf_cmd_exec(t: &Vec<(String, TomlValue)>, p: &[char]) -> (r: Result<CmdBody, String>)
    requires
        table_get(toml_entries_model(t@), "cmd"@) is Some,
    ensures
        match leaf_cmd(toml_entries_model(t@), p@) {
            Ok(c) => r matches Ok(x) && crate::config::cmd_model(x) == c,
            Err(e) => r matches Err(m) && m@ == e,
        },
{
    let i = match table_index(t, "cmd") {
        Some(i) => i,
        None => {
            return Err(String::new());
        },
    };
    match &t[i].1 {
        TomlValue::String(s) => Ok(CmdBody::Single(s.clone())),
        TomlValue::Array(a) => {
            let ghost am = toml_items_model(a@);
            assert(toml_model(t@[i as int].1) == TomlData::Array(am));
            proof {
                lemma_toml_items_model(a@);
            }
            let mut v: Vec<String> = Vec::new();
            let mut j: usize = 0;
            while j < a.len()
                invariant
                    j <= a.len(),
                    am == toml_items_model(a@),
                    table_get(toml_entries_model(t@), "cmd"@) == Some(TomlData::Array(am)),
                    am.len() == a.len(),
                    forall|q: int| 0 <= q < a.len() ==> #[trigger] am[q] == toml_model(a@[q]),
                    v.len() == j,
                    forall|q: int| 0 <= q < j ==> am[q] is Str,
                    forall|q: int| 0 <= q < j ==> #[trigger] v@[q]@ == str_items(am)[q],
                decreases a.len() - j,
            {
                match &a[j] {
                    TomlValue::String(s) => {
                        v.push(s.clone());
                    },
                    _ => {
                        assert(!(am[j as int] is Str));
                        return Err(qpath_then(p, ".cmd array items must be strings"));
                    },
                }
                j += 1;
            }
            assert(views(v@) =~= str_items(am));
            Ok(CmdBody::Sequence(v))
        },
        _ => Err(qpath_then(p, ".cmd must be string or array of strings")),
    }
}

/// The complaint about an empty command, if any.
fn blank_cmd_exec(c: &CmdBody, p: &[char]) -> (r: Option<String>)
    ensures
        match blank_cmd(crate::config::cmd_model(*c), p@) {
            Some(e) => r matches Some(m) && m@ == e,
            None => r is None,
        },
{
    match c {
        CmdBody::Single(s) => {
            let v = chars_of(s.as_str());
            let t = trim_chars(v.as_slice());
            if t.len() == 0 {
                Some(qpath_then(p, ".cmd must not be empty"))
            } else {
                None
            }
        },
        CmdBody::Sequence(items) => {
            if items.len() == 0 {
                return Some(qpath_then(p, ".cmd array must not be empty"));
            }
            let ghost iv = views(items@);
            let mut i: usize = 0;
            while i < items.len()
                invariant
                    i <= items.len(),
                    iv == views(items@),
                    items.len() > 0,
                    crate::config::cmd_model(*c) == CmdModel::Sequence(iv),
                    first_blank(iv, 0) == first_blank(iv, i as int),
                decreases items.len() - i,
            {
                let v = chars_of(items[i].as_str());
                let t = trim_chars(v.as_slice());
                assert(iv[i as int] == v@);
                if t.len() == 0 {
                    let mut m = qpath_then(p, ".cmd[");
                    let d = decimal_string(i);
                    m.push_str(d.as_str());
                    m.push_str("] must not be empty");
                    return Some(m);
                }
                i += 1;
            }
            None
        },
    }
}

/// The first key that is not a leaf field, if any.
fn first_unknown_exec(t: &Vec<(String, TomlValue)>) -> (r: Option<String>)
    ensures
        match first_unknown(toml_entries_model(t@), 0) {
            Some(k) => r matches Some(x) && x@ == k,
            None => r is None,
        },
{
    let ghost m = toml_entries_model(t@);
    proof {
        lemma_toml_entries_model(t@);
    }
    let mut i: usize = 0;
    while i < t.len()
        invariant
            i <= t.len(),
            m == toml_entries_model(t@),
            m.len() == t.len(),
            forall|j: int| 0 <= j < t.len() ==> #[trigger] m[j] == (t@[j].0@, toml_model(t@[j].1)),
            first_unknown(m, 0) == first_unknown(m, i as int),
        decreases t.len() - i,
    {
        if !is_leaf_field_exec(t[i].0.as_str()) {
            return Some(t[i].0.clone());
        }
        i += 1;
    }
    None
}

/// The complaint about the command templates, if any.
fn template_complaint_exec(cmds: &Vec<String>, p: &[char]) -> (r: Option<String>)
    ensures
        match template_complaint(views(cmds@), p@) {
            Some(e) => r matches Some(m) && m@ == e,
            None => r is None,
        },
{
    let ghost cv = views(cmds@);
    let mut i: usize = 0;
    while i < cmds.len()
        invariant
            i <= cmds.len(),
            cv == views(cmds@),
            first_bad_template(cv, 0) == first_bad_template(cv, i as int),
        decreases cmds.len() - i,
    {
        match analyze(cmds[i].as_str()) {
            Err(JkError::ConfigSchema(msg)) => {
                let mut m = if cmds.len() > 1 {
                    let mut w = qpath_then(p, ".cmd[");
                    let d = decimal_string(i);
                    w.push_str(d.as_str());
                    w.push_str("]");
                    w
                } else {
                    qpath_then(p, ".cmd")
                };
                m.push_str(": ");
                m.push_str(msg.as_str());
                return Some(m);
            },
            Err(_) => {
                assert(false);
                return None;
            },
            Ok(_) => {},
        }
        i += 1;
    }
    let mut refs: Vec<&str> = Vec::new();
    let mut j: usize = 0;
    while j < cmds.len()
        invariant
            j <= cmds.len(),
            refs.len() == j,
            forall|q: int| 0 <= q < j ==> #[trigger] refs@[q]@ == cmds@[q]@,
        decreases cmds.len() - j,
    {
        refs.push(cmds[j].as_str());
        j += 1;
    }
    assert(str_views(refs@) =~= cv);
    match aggregate_shape(refs.as_slice()) {
        Ok(_) => None,
        Err(JkError::ConfigSchema(msg)) => {
            let mut m = qpath_then(p, ".cmd: ");
            m.push_str(msg.as_str());
            Some(m)
        },
        Err(_) => {
            assert(false);
            None
        },
    }
}

/// A table with `cmd` read as a leaf.
fn build_leaf_exec(t: &Vec<(String, TomlValue)>, p: &[char], fs: Option<Shell>) -> (r: Result<CommandNode, String>)
    requires
        table_get(toml_entries_model(t@), "cmd"@) is Some,
    ensures
        match build_leaf(toml_entries_model(t@), p@, fs) {
            Ok(n) => r matches Ok(x) && node_model(x) == n,
            Err(e) => r matches Err(m) && m@ == e,
        },
{
    let desc = leaf_desc_exec(t, p)?;
    let shell = leaf_shell_exec(t, p)?;
    let quiet = leaf_flag_exec(t, p, "quiet")?;
    let no_color = leaf_flag_exec(t, p, "no-color")?;
    let cmd = leaf_cmd_exec(t, p)?;
    if let Some(m) = blank_cmd_exec(&cmd, p) {
        return Err(m);
    }
    if let Some(k) = first_unknown_exec(t) {
        let mut m = qpath_then(p, ".");
        m.push_str(k.as_str());
        m.push_str(" is not a known leaf field");
        return Err(m);
    }
    let leaf_desc_value = desc;
    let probe = LeafCommand {
        desc: None,
        shell: Shell::Sh,
        cmd,
        origin: Origin::LocalOnly,
        quiet: false,
        no_color: false,
    };
    let texts = probe.cmd_strings();
    if let Some(m) = template_complaint_exec(&texts, p) {
        return Err(m);
    }
    let baked = match shell {
        Some(s) => Some(s),
        None => fs,
    };
    match baked {
        None => Err(qpath_then(
            p,
            ": no shell declared (file-level `shell` missing and leaf has no `shell` field of its own)",
        )),
        Some(sh) => Ok(
            CommandNode::Leaf(
                LeafCommand {
                    desc: leaf_desc_value,
                    shell: sh,
                    cmd: probe.cmd,
                    origin: Origin::LocalOnly,
                    quiet,
                    no_color,
                },
            ),
        ),
    }
}

/// The text joined with `", "`.
fn unknown_keys_text(t: &Vec<(String, TomlValue)>) -> (r: Vec<char>)
    ensures
        r@ == join(unknown_keys(toml_entries_model(t@)), ", "@),
        unknown_keys(toml_entries_model(t@)).len() == 0 <==> r@.len() == 0 && unknown_keys(toml_entries_model(t@)).len() == 0,
{
    let ghost m = toml_entries_model(t@);
    proof {
        lemma_toml_entries_model(t@);
    }
    let mut u: Vec<Vec<char>> = Vec::new();
    let mut i: usize = 0;
    while i < t.len()
        invariant
            i <= t.len(),
            m == toml_entries_model(t@),
            m.len() == t.len(),
            forall|j: int| 0 <= j < t.len() ==> #[trigger] m[j] == (t@[j].0@, toml_model(t@[j].1)),
            crate::text::vec_views(u@) == unknown_keys(m.take(i as int)),
        decreases t.len() - i,
    {
        proof {
            assert(m.take(i + 1).drop_last() =~= m.take(i as int));
            assert(m.take(i + 1).last() == m[i as int]);
        }
        if !is_leaf_field_exec(t[i].0.as_str()) {
            u.push(chars_of(t[i].0.as_str()));
            assert(crate::text::vec_views(u@) =~= unknown_keys(m.take(i + 1)));
        }
        i += 1;
    }
    assert(m.take(i as int) =~= m);
    let sep = chars_of(", ");
    let r = crate::text::join_chars(u.as_slice(), sep.as_slice());
    r
}

fn neither_exec(t: &Vec<(String, TomlValue)>, p: &[char]) -> (r: String)
    ensures
        r@ == neither_text(toml_entries_model(t@), p@),
{
    let u = unknown_keys_text(t);
    if unknown_count_positive(t) {
        let mut m = qpath_then(p, " has neither `cmd` nor child tables; got unknown field(s): ");
        push_chars(&mut m, u.as_slice());
        m
    } else {
        qpath_then(p, " has neither `cmd` nor child tables")
    }
}

fn unknown_count_positive(t: &Vec<(String, TomlValue)>) -> (r: bool)
    ensures
        r == (unknown_keys(toml_entries_model(t@)).len() > 0),
{
    match first_unknown_exec(t) {
        Some(_) => {
            proof {
                lemma_first_unknown_keys(toml_entries_model(t@), 0);
            }
            true
        },
        None => {
            proof {
                lemma_first_unknown_keys(toml_entries_model(t@), 0);
            }
            false
        },
    }
}

pub proof fn lemma_first_unknown_keys(m: Seq<(Seq<char>, TomlData)>, i: int)
    requires
        0 <= i <= m.len(),
    ensures
        first_unknown(m, i) is None <==> forall|j: int| i <= j < m.len() ==> is_leaf_field(#[trigger] m[j].0),
        (forall|j: int| 0 <= j < m.len() ==> is_leaf_field(#[trigger] m[j].0)) <==> unknown_keys(m).len() == 0,
    decreases m.len() - i,
{
    if i < m.len() {
        lemma_first_unknown_keys(m, i + 1);
    }
    lemma_unknown_keys_empty(m);
}

pub proof fn lemma_unknown_keys_empty(m: Seq<(Seq<char>, TomlData)>)
    ensures
        (forall|j: int| 0 <= j < m.len() ==> is_leaf_field(#[trigger] m[j].0)) <==> unknown_keys(m).len() == 0,
    decreases m.len(),
{
    if m.len() > 0 {
        lemma_unknown_keys_empty(m.drop_last());
        let d = m.drop_last();
        if forall|j: int| 0 <= j < m.len() ==> is_leaf_field(#[trigger] m[j].0) {
            assert forall|j: int| 0 <= j < d.len() implies is_leaf_field(#[trigger] d[j].0) by {
                assert(d[j] == m[j]);
            }
        }
        if forall|j: int| 0 <= j < d.len() ==> is_leaf_field(#[trigger] d[j].0) {
            if is_leaf_field(m.last().0) {
                assert forall|j: int| 0 <= j < m.len() implies is_leaf_field(#[trigger] m[j].0) by {
                    if j < d.len() {
                        assert(d[j] == m[j]);
                    }
                }
            }
        }
    }
}

fn toml_type_exec(v: &TomlValue) -> (r: &'static str)
    ensures
        r@ == toml_type_text(toml_model(*v)),
{
    match v {
        TomlValue::String(_) => "string",
        TomlValue::Integer => "integer",
        TomlValue::Float => "float",
        TomlValue::Boolean(_) => "boolean",
        TomlValue::Datetime => "datetime",
        TomlValue::Array(_) => "array",
        TomlValue::Table(_) => "table",
    }
}

/// A value read as a node at path `p`.
fn build_node(p: &[char], value: &TomlValue, fs: Option<Shell>) -> (r: Result<CommandNode, String>)
    ensures
        match build(p@, toml_model(*value), fs) {
            Ok(n) => r matches Ok(x) && node_model(x) == n,
            Err(e) => r matches Err(m) && m@ == e,
        },
    decreases value,
{
    match value {
        TomlValue::Table(t) => {
            let has_cmd = table_index(t, "cmd").is_some();
            let children = has_children_exec(t);
            if has_cmd && children {
                Err(qpath_then(
                    p,
                    " has both `cmd` and child tables; a node must be leaf XOR namespace",
                ))
            } else if has_cmd {
                build_leaf_exec(t, p, fs)
            } else if children {
                match build_children_exec(t, p, fs) {
                    Ok(m) => Ok(CommandNode::Namespace(m)),
                    Err(e) => Err(e),
                }
            } else {
                Err(neither_exec(t, p))
            }
        },
        _ => {
            let mut m = owned("expected table at '");
            push_chars(&mut m, p);
            m.push_str("', got ");
            m.push_str(toml_type_exec(value));
            Err(m)
        },
    }
}

/// A namespace's entries read in order.
fn build_children_exec(t: &Vec<(String, TomlValue)>, p: &[char], fs: Option<Shell>) -> (r: Result<CommandMap, String>)
    ensures
        match build_children(toml_entries_model(t@), p@, fs, seq![]) {
            Ok(es) => r matches Ok(m) && map_model(m) == es,
            Err(e) => r matches Err(m) && m@ == e,
        },
    decreases t,
{
    let ghost tm = toml_entries_model(t@);
    proof {
        lemma_toml_entries_model(t@);
        assert(tm.subrange(0, tm.len() as int) =~= tm);
    }
    let mut acc = CommandMap::new();
    let mut i: usize = 0;
    while i < t.len()
        invariant
            i <= t.len(),
            tm == toml_entries_model(t@),
            tm.len() == t.len(),
            forall|j: int| 0 <= j < t.len() ==> #[trigger] tm[j] == (t@[j].0@, toml_model(t@[j].1)),
            build_children(tm, p@, fs, seq![]) == build_children(
                tm.subrange(i as int, tm.len() as int),
                p@,
                fs,
                map_model(acc),
            ),
        decreases t.len() - i,
    {
        let ghost rest = tm.subrange(i as int, tm.len() as int);
        proof {
            assert(rest[0] == tm[i as int]);
            assert(rest.subrange(1, rest.len() as int) =~= tm.subrange(i + 1, tm.len() as int));
        }
        let key = &t[i].0;
        if is_leaf_field_exec(key.as_str()) {
            let mut m = qpath_then(p, " is a namespace; field '");
            m.push_str(key.as_str());
            m.push_str("' is not allowed here");
            return Err(m);
        }
        let child = &t[i].1;
        match child {
            TomlValue::Table(_) => {},
            _ => {
                let mut m = qpath_then(p, ".");
                m.push_str(key.as_str());
                m.push_str(" is not a known field; namespaces only contain child tables");
                return Err(m);
            },
        }
        let mut sub: Vec<char> = Vec::new();
        let mut q: usize = 0;
        while q < p.len()
            invariant
                q <= p.len(),
                sub@ == p@.take(q as int),
            decreases p.len() - q,
        {
            sub.push(p[q]);
            q += 1;
            assert(sub@ =~= p@.take(q as int));
        }
        sub.push('.');
        let kc = chars_of(key.as_str());
        let mut q2: usize = 0;
        let ghost mid = sub@;
        while q2 < kc.len()
            invariant
                q2 <= kc.len(),
                sub@ == mid + kc@.take(q2 as int),
            decreases kc.len() - q2,
        {
            sub.push(kc[q2]);
            q2 += 1;
            assert(sub@ =~= mid + kc@.take(q2 as int));
        }
        assert(sub@ =~= p@ + seq!['.'] + key@);
        assert(decreases_to!(t => child));
        match build_node(sub.as_slice(), child, fs) {
            Err(e) => {
                return Err(e);
            },
            Ok(n) => {
                acc.insert(key.clone(), n);
            },
        }
        i += 1;
    }
    Ok(acc)
}

/// The top-level entries other than `shell`, read in order.
fn build_top_exec(t: &Vec<(String, TomlValue)>, fs: Option<Shell>) -> (r: Result<CommandMap, String>)
    ensures
        match build_top(toml_entries_model(t@), fs, seq![]) {
            Ok(es) => r matches Ok(m) && map_model(m) == es,
            Err(e) => r matches Err(m) && m@ == e,
        },
{
    let ghost tm = toml_entries_model(t@);
    proof {
        lemma_toml_entries_model(t@);
        assert(tm.skip(0) =~= tm);
    }
    let mut acc = CommandMap::new();
    let mut i: usize = 0;
    while i < t.len()
        invariant
            i <= t.len(),
            tm == toml_entries_model(t@),
            tm.len() == t.len(),
            forall|j: int| 0 <= j < t.len() ==> #[trigger] tm[j] == (t@[j].0@, toml_model(t@[j].1)),
            build_top(tm, fs, seq![]) == build_top(tm.skip(i as int), fs, map_model(acc)),
        decreases t.len() - i,
    {
        let ghost rest = tm.skip(i as int);
        proof {
            assert(rest[0] == tm[i as int]);
            assert(rest.drop_first() =~= tm.skip(i + 1));
        }
        let key = &t[i].0;
        if !string_eq_str(key.as_str(), "shell") {
            let kc = chars_of(key.as_str());
            match build_node(kc.as_slice(), &t[i].1, fs) {
                Err(e) => {
                    return Err(e);
                },
                Ok(n) => {
                    acc.insert(key.clone(), n);
                },
            }
        }
        i += 1;
    }
    Ok(acc)
}

/// What a configuration text reads as.
pub open spec fn load_result_is(r: JkResult<Config>, text: Seq<char>) -> bool {
    match load(text) {
        Ok(es) => r matches Ok(c) && config_model(c) == es,
        Err(LoadFault::Parse(m)) => r matches Err(JkError::ConfigParse(x)) && x@ == m,
        Err(LoadFault::Schema(m)) => r matches Err(JkError::ConfigSchema(x)) && x@ == m,
    }
}

/// Reads a configuration text: the file-level `shell` is the default for
/// leaves without their own, and every other top-level table is a command node.
pub fn parse_str(s: &str) -> (r: JkResult<Config>)
    ensures
        load_result_is(r, s@),
{
    let doc = match parse_toml_table(s) {
        Ok(d) => d,
        Err(m) => {
            return Err(JkError::ConfigParse(m));
        },
    };
    let file_shell: Option<Shell> = match table_index(&doc, "shell") {
        None => None,
        Some(i) => match &doc[i].1 {
            TomlValue::String(name) => Some(Shell::parse(name.as_str())?),
            _ => {
                match toml_read_string_error(s, "shell") {
                    Some(m) => {
                        return Err(JkError::ConfigParse(m));
                    },
                    None => {
                        return Err(JkError::ConfigSchema(owned("shell must be string")));
                    },
                }
            },
        },
    };
    match build_top_exec(&doc, file_shell) {
        Ok(root) => Ok(Config { tree: CommandTree { root } }),
        Err(m) => Err(JkError::ConfigSchema(m)),
    }
}

proof fn lemma_build_wf(p: Seq<char>, v: TomlData, fs: Option<Shell>)
    ensures
        build(p, v, fs) matches Ok(n) ==> tree_wf(n),
    decreases v,
{
    if let TomlData::Table(t) = v {
        if table_get(t, "cmd"@) is None && has_children(t) {
            lemma_build_children_wf(t, p, fs, seq![]);
        }
    }
}

proof fn lemma_build_children_wf(
    t: Seq<(Seq<char>, TomlData)>,
    p: Seq<char>,
    fs: Option<Shell>,
    acc: Seq<(Seq<char>, NodeModel)>,
)
    requires
        entries_wf(acc),
    ensures
        build_children(t, p, fs, acc) matches Ok(es) ==> entries_wf(es),
    decreases t,
{
    if t.len() > 0 {
        let k = t[0].0;
        if !is_leaf_field(k) && t[0].1 is Table {
            assert(decreases_to!(t => t[0].1)) by {
                assert(decreases_to!(t => t[0]));
            }
            lemma_build_wf(p + seq!['.'] + k, t[0].1, fs);
            if let Ok(n) = build(p + seq!['.'] + k, t[0].1, fs) {
                law_insert_keeps_order(acc, k, n);
                lemma_build_children_wf(t.subrange(1, t.len() as int), p, fs, insert_sorted(acc, k, n));
            }
        }
    }
}

proof fn lemma_build_top_wf(t: Seq<(Seq<char>, TomlData)>, fs: Option<Shell>, acc: Seq<(Seq<char>, NodeModel)>)
    requires
        entries_wf(acc),
    ensures
        build_top(t, fs, acc) matches Ok(es) ==> entries_wf(es),
    decreases t.len(),
{
    if t.len() > 0 {
        if t[0].0 == "shell"@ {
            lemma_build_top_wf(t.drop_first(), fs, acc);
        } else {
            lemma_build_wf(t[0].0, t[0].1, fs);
            if let Ok(n) = build(t[0].0, t[0].1, fs) {
                law_insert_keeps_order(acc, t[0].0, n);
                lemma_build_top_wf(t.drop_first(), fs, insert_sorted(acc, t[0].0, n));
            }
        }
    }
}

/// A configuration as read is well formed: every namespace, the top level
/// included, keeps its names strictly increasing (the order of the ordered
/// map the document is read into).
pub proof fn law_load_is_ordered(text: Seq<char>)
    ensures
        load(text) matches Ok(es) ==> entries_wf(es),
{
    if let Ok(doc) = toml_document(text) {
        assert(entries_wf(Seq::<(Seq<char>, NodeModel)>::empty())) by {
            crate::config::lemma_all_wf_forall(Seq::<(Seq<char>, NodeModel)>::empty());
        }
        lemma_build_top_wf(doc, None, seq![]);
        if let Some(TomlData::Str(sn)) = table_get(doc, "shell"@) {
            if let Some(sh) = shell_named(sn) {
                lemma_build_top_wf(doc, Some(sh), seq![]);
            }
        }
    }
}

/// A leaf as loading makes it: marked `LocalOnly`, with at least one
/// command, no blank command, and placeholders that check out across the
/// whole sequence.
pub open spec fn leaf_sound(l: LeafModel) -> bool {
    let v = cmd_texts(l.cmd);
    &&& l.origin == Origin::LocalOnly
    &&& v.len() > 0
    &&& forall|i: int| 0 <= i < v.len() ==> trim(#[trigger] v[i]).len() > 0
    &&& aggregate(v) is Ok
}

/// Every leaf below is sound and every namespace holds at least one node.
pub open spec fn node_sound(n: NodeModel) -> bool
    decreases n,
{
    match n {
        NodeModel::Leaf(l) => leaf_sound(l),
        NodeModel::Ns(es) => es.len() > 0 && all_sound(es),
    }
}

pub open spec fn all_sound(es: Seq<(Seq<char>, NodeModel)>) -> bool
    decreases es,
{
    if es.len() == 0 {
        true
    } else {
        all_sound(es.drop_last()) && node_sound(es.last().1)
    }
}

proof fn lemma_all_sound_forall(es: Seq<(Seq<char>, NodeModel)>)
    ensures
        all_sound(es) <==> forall|j: int| 0 <= j < es.len() ==> node_sound(#[trigger] es[j].1),
    decreases es.len(),
{
    if es.len() > 0 {
        let d = es.drop_last();
        lemma_all_sound_forall(d);
        if forall|j: int| 0 <= j < es.len() ==> node_sound(#[trigger] es[j].1) {
            assert forall|j: int| 0 <= j < d.len() implies node_sound(#[trigger] d[j].1) by {
                assert(d[j] == es[j]);
            }
            assert(node_sound(es[es.len() - 1].1));
        }
        if all_sound(es) {
            assert forall|j: int| 0 <= j < es.len() implies node_sound(#[trigger] es[j].1) by {
                if j < d.len() {
                    assert(d[j] == es[j]);
                }
            }
        }
    }
}

proof fn lemma_insert_sound(es: Seq<(Seq<char>, NodeModel)>, k: Seq<char>, v: NodeModel)
    requires
        all_sound(es),
        node_sound(v),
    ensures
        all_sound(insert_sorted(es, k, v)),
        insert_sorted(es, k, v).len() > 0,
{
    lemma_insert_elems(es, k, v);
    lemma_all_sound_forall(es);
    let r = insert_sorted(es, k, v);
    lemma_all_sound_forall(r);
    assert forall|j: int| 0 <= j < r.len() implies node_sound(#[trigger] r[j].1) by {
        if r[j] != (k, v) {
            let i = choose|i: int| 0 <= i < es.len() && r[j] == es[i];
        }
    }
}

proof fn lemma_first_blank(v: Seq<Seq<char>>, i: int)
    requires
        0 <= i,
        first_blank(v, i) is None,
    ensures
        forall|j: int| i <= j < v.len() ==> trim(#[trigger] v[j]).len() > 0,
    decreases v.len() - i,
{
    if i < v.len() {
        lemma_first_blank(v, i + 1);
    }
}

proof fn lemma_build_sound(p: Seq<char>, v: TomlData, fs: Option<Shell>)
    ensures
        build(p, v, fs) matches Ok(n) ==> node_sound(n),
    decreases v,
{
    if let TomlData::Table(t) = v {
        let has_cmd = table_get(t, "cmd"@) is Some;
        if has_cmd && !has_children(t) {
            if let Ok(cmd) = leaf_cmd(t, p) {
                if blank_cmd(cmd, p) is None {
                    if let CmdModel::Sequence(items) = cmd {
                        lemma_first_blank(items, 0);
                    }
                }
            }
        } else if !has_cmd && has_children(t) {
            lemma_all_sound_forall(Seq::<(Seq<char>, NodeModel)>::empty());
            lemma_build_children_sound(t, p, fs, seq![]);
        }
    }
}

proof fn lemma_build_children_sound(
    t: Seq<(Seq<char>, TomlData)>,
    p: Seq<char>,
    fs: Option<Shell>,
    acc: Seq<(Seq<char>, NodeModel)>,
)
    requires
        all_sound(acc),
    ensures
        build_children(t, p, fs, acc) matches Ok(es) ==> all_sound(es) && (t.len() > 0 || acc.len() > 0
            ==> es.len() > 0),
    decreases t,
{
    if t.len() > 0 {
        let k = t[0].0;
        if !is_leaf_field(k) && t[0].1 is Table {
            assert(decreases_to!(t => t[0].1)) by {
                assert(decreases_to!(t => t[0]));
            }
            lemma_build_sound(p + seq!['.'] + k, t[0].1, fs);
            if let Ok(n) = build(p + seq!['.'] + k, t[0].1, fs) {
                lemma_insert_sound(acc, k, n);
                lemma_build_children_sound(t.subrange(1, t.len() as int), p, fs, insert_sorted(acc, k, n));
            }
        }
    }
}

proof fn lemma_build_top_sound(t: Seq<(Seq<char>, TomlData)>, fs: Option<Shell>, acc: Seq<(Seq<char>, NodeModel)>)
    requires
        all_sound(acc),
    ensures
        build_top(t, fs, acc) matches Ok(es) ==> all_sound(es),
    decreases t.len(),
{
    if t.len() > 0 {
        if t[0].0 == "shell"@ {
            lemma_build_top_sound(t.drop_first(), fs, acc);
        } else {
            lemma_build_sound(t[0].0, t[0].1, fs);
            if let Ok(n) = build(t[0].0, t[0].1, fs) {
                lemma_insert_sound(acc, t[0].0, n);
                lemma_build_top_sound(t.drop_first(), fs, insert_sorted(acc, t[0].0, n));
            }
        }
    }
}

/// What loading guarantees of every tree it gives: each leaf is marked
/// `LocalOnly` and has at least one command, none of them blank, whose
/// placeholders check out across the sequence; each namespace, at every
/// depth, holds at least one node.
pub proof fn law_loaded_tree_is_sound(text: Seq<char>)
    ensures
        load(text) matches Ok(es) ==> all_sound(es),
{
    if let Ok(doc) = toml_document(text) {
        lemma_all_sound_forall(Seq::<(Seq<char>, NodeModel)>::empty());
        lemma_build_top_sound(doc, None, seq![]);
        if let Some(TomlData::Str(sn)) = table_get(doc, "shell"@) {
            if let Some(sh) = shell_named(sn) {
                lemma_build_top_sound(doc, Some(sh), seq![]);
            }
        }
    }
}

/// A leaf's shell is the one its table names, or else the file's.
pub proof fn law_leaf_shell_is_own_or_file(p: Seq<char>, t: Seq<(Seq<char>, TomlData)>, fs: Option<Shell>)
    ensures
        build(p, TomlData::Table(t), fs) matches Ok(NodeModel::Leaf(l)) ==> match table_get(t, "shell"@) {
            Some(TomlData::Str(s)) => shell_named(s) == Some(l.shell),
            _ => fs == Some(l.shell),
        },
{
    if let Ok(NodeModel::Leaf(l)) = build(p, TomlData::Table(t), fs) {
        if !(table_get(t, "cmd"@) is Some && !has_children(t)) {
            if !(table_get(t, "cmd"@) is Some) && has_children(t) {
                if let Ok(es) = build_children(t, p, fs, seq![]) {
                    assert(build(p, TomlData::Table(t), fs) == Ok::<NodeModel, Seq<char>>(NodeModel::Ns(es)));
                }
            }
        }
    }
}

/// A leaf's `quiet` and `no-color` are what its table says: on exactly
/// when the table holds `true` for them, so `false` and leaving the field
/// out load the same.
pub proof fn law_leaf_flags_follow_the_table(p: Seq<char>, t: Seq<(Seq<char>, TomlData)>, fs: Option<Shell>)
    ensures
        build(p, TomlData::Table(t), fs) matches Ok(NodeModel::Leaf(l)) ==> {
            &&& l.quiet == (table_get(t, "quiet"@) == Some(TomlData::Boolean(true)))
            &&& l.no_color == (table_get(t, "no-color"@) == Some(TomlData::Boolean(true)))
        },
{
    if let Ok(NodeModel::Leaf(l)) = build(p, TomlData::Table(t), fs) {
        if !(table_get(t, "cmd"@) is Some && !has_children(t)) {
            if !(table_get(t, "cmd"@) is Some) && has_children(t) {
                if let Ok(es) = build_children(t, p, fs, seq![]) {
                    assert(build(p, TomlData::Table(t), fs) == Ok::<NodeModel, Seq<char>>(NodeModel::Ns(es)));
                }
            }
        }
    }
}

} // verus!
