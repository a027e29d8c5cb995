use jk::config::{parse_str, tag_all_origins, CommandNode, Origin};
use jk::shell::Shell;

const BASIC: &str = r#"
shell = "bash"

[build]
desc = "build the project"
cmd = "cargo build"

[update]
desc = "update packages"
cmd = ["apt update", "apt upgrade #{@}"]
"#;

const TREE: &str = r#"
shell = "bash"

[encode.jpg]
desc = "encode jpg"
cmd = "magick #{1} #{2}"

[encode.webp]
desc = "encode webp"
cmd = "cwebp #{1} -o #{2}"
"#;

#[test]
fn parse_basic() {
    let cfg = parse_str(BASIC).unwrap();

    let build = cfg.tree.lookup(&["build".into()]).unwrap();
    let CommandNode::Leaf(leaf) = build else { panic!("expected leaf") };
    assert_eq!(leaf.desc.as_deref(), Some("build the project"));
    assert_eq!(leaf.cmd_strings(), vec!["cargo build".to_string()]);
    assert_eq!(leaf.shell, Shell::Bash);

    let update = cfg.tree.lookup(&["update".into()]).unwrap();
    let CommandNode::Leaf(leaf) = update else { panic!("expected leaf") };
    assert_eq!(leaf.cmd_strings(), vec!["apt update".to_string(), "apt upgrade #{@}".to_string()]);
}

#[test]
fn parse_tree() {
    let cfg = parse_str(TREE).unwrap();
    let encode = cfg.tree.lookup(&["encode".into()]).unwrap();
    assert!(matches!(encode, CommandNode::Namespace(_)));

    let jpg = cfg.tree.lookup(&["encode".into(), "jpg".into()]).unwrap();
    let CommandNode::Leaf(leaf) = jpg else { panic!("expected leaf") };
    assert_eq!(leaf.desc.as_deref(), Some("encode jpg"));
}

#[test]
fn rejects_empty_cmd_string() {
    let s = r#"
shell = "bash"
[foo]
cmd = ""
"#;
    let err = jk::config::parse_str(s).unwrap_err();
    let jk::error::JkError::ConfigSchema(msg) = err else { panic!() };
    assert!(msg.contains("must not be empty"), "msg: {}", msg);
}

#[test]
fn rejects_empty_cmd_array() {
    let s = r#"
shell = "bash"
[foo]
cmd = []
"#;
    let err = jk::config::parse_str(s).unwrap_err();
    let jk::error::JkError::ConfigSchema(msg) = err else { panic!() };
    assert!(msg.contains("must not be empty"), "msg: {}", msg);
}

#[test]
fn namespace_with_non_table_sibling_errors_clearly() {
    let s = r#"
shell = "bash"
[encode]
quality = 90
[encode.jpg]
cmd = "magick"
"#;
    let err = jk::config::parse_str(s).unwrap_err();
    let jk::error::JkError::ConfigSchema(msg) = err else { panic!() };
    assert!(msg.contains("quality"), "msg should mention the offending field name 'quality': {}", msg);
}

#[test]
fn neither_cmd_nor_children_lists_unknown_fields() {
    let s = r#"
shell = "bash"
[foo]
timeout = 30
"#;
    let err = jk::config::parse_str(s).unwrap_err();
    let jk::error::JkError::ConfigSchema(msg) = err else { panic!() };
    assert!(msg.contains("timeout"), "msg should mention 'timeout': {}", msg);
}

#[test]
fn rejects_namespace_leaf_collision() {
    let s = r#"
shell = "bash"

[encode]
cmd = "magick #{@}"

[encode.jpg]
cmd = "magick"
"#;
    let err = jk::config::parse_str(s).unwrap_err();
    assert!(matches!(err, jk::error::JkError::ConfigSchema(_)));
}

#[test]
fn rejects_empty_node() {
    let s = r#"
[foo]
desc = "no cmd, no children"
"#;
    let err = jk::config::parse_str(s).unwrap_err();
    assert!(matches!(err, jk::error::JkError::ConfigSchema(_)));
}

#[test]
fn rejects_unknown_leaf_field() {
    let s = r#"
[foo]
cmd = "echo hi"
timeout = 30
"#;
    let err = jk::config::parse_str(s).unwrap_err();
    assert!(matches!(err, jk::error::JkError::ConfigSchema(_)));
}

#[test]
fn rejects_template_with_non_contiguous_placeholders() {
    let s = r#"
shell = "bash"
[bad]
cmd = "echo #{1} #{3}"
"#;
    let err = jk::config::parse_str(s).unwrap_err();
    let jk::error::JkError::ConfigSchema(msg) = err else { panic!() };
    assert!(msg.contains("'bad'.cmd"), "msg should mention path: {}", msg);
}

#[test]
fn rejects_template_with_zero_index() {
    let s = r#"
shell = "bash"
[bad]
cmd = "echo #{0}"
"#;
    let err = jk::config::parse_str(s).unwrap_err();
    assert!(matches!(err, jk::error::JkError::ConfigSchema(_)));
}

#[test]
fn rejects_template_with_unknown_placeholder_form() {
    let s = r#"
shell = "bash"
[bad]
cmd = "echo #{abc}"
"#;
    let err = jk::config::parse_str(s).unwrap_err();
    assert!(matches!(err, jk::error::JkError::ConfigSchema(_)));
}

#[test]
fn accepts_template_with_raw_placeholders() {
    let s = r#"
shell = "bash"
[ok]
cmd = "ffmpeg -vf '#{1!}' #{@!}"
"#;
    let cfg = jk::config::parse_str(s).unwrap();
    assert!(cfg.tree.lookup(&["ok".into()]).is_some());
}

#[test]
fn accepts_template_with_literal_braces() {
    // Literal `{...}`, `${VAR}`, `{{X}}`, awk actions, brace expansions — all pass through.
    let s = r#"
shell = "bash"
[awk]
cmd = "awk '{print $1}' #{1}"
[var]
cmd = "echo ${HOME} #{1}"
[double]
cmd = "helm template chart --set v={{X}}"
[expansion]
cmd = "echo {1..10}"
"#;
    let cfg = jk::config::parse_str(s).unwrap();
    assert!(cfg.tree.lookup(&["awk".into()]).is_some());
    assert!(cfg.tree.lookup(&["var".into()]).is_some());
    assert!(cfg.tree.lookup(&["double".into()]).is_some());
    assert!(cfg.tree.lookup(&["expansion".into()]).is_some());
}

#[test]
fn rejects_non_contiguous_at_leaf_aggregate() {
    let s = r#"
shell = "bash"
[seq]
cmd = ["echo #{1}", "echo #{1} #{3}"]
"#;
    let err = jk::config::parse_str(s).unwrap_err();
    let jk::error::JkError::ConfigSchema(msg) = err else { panic!() };
    assert!(msg.contains("'seq'.cmd"), "msg should mention leaf path: {}", msg);
    assert!(
        msg.contains("missing") || msg.contains("non-contiguous"),
        "msg should explain the gap: {}", msg
    );
}

#[test]
fn accepts_seq_with_split_indices_across_items() {
    // Each item looks incomplete, but the leaf-level union {1, 2} is contiguous.
    let s = r#"
shell = "bash"
[seq]
cmd = ["echo #{1}", "echo #{2}"]
"#;
    let cfg = jk::config::parse_str(s).unwrap();
    assert!(cfg.tree.lookup(&["seq".into()]).is_some());
}

#[test]
fn rejects_unsupported_shell_at_file_level() {
    let s = r#"
shell = "csh"
[hello]
cmd = "echo hi"
"#;
    let err = jk::config::parse_str(s).unwrap_err();
    let jk::error::JkError::ConfigSchema(msg) = err else { panic!() };
    assert!(msg.contains("csh"), "msg should mention bad shell name: {}", msg);
}

#[test]
fn rejects_unsupported_shell_at_leaf_level() {
    let s = r#"
shell = "bash"
[hello]
shell = "csh"
cmd = "echo hi"
"#;
    let err = jk::config::parse_str(s).unwrap_err();
    let jk::error::JkError::ConfigSchema(msg) = err else { panic!() };
    assert!(msg.contains("'hello'.shell"), "msg should pinpoint the leaf: {}", msg);
    assert!(msg.contains("csh"), "msg should mention bad shell name: {}", msg);
}

#[test]
fn merge_local_overrides_global() {
    let global = jk::config::parse_str(r#"
shell = "bash"
[build]
cmd = "global build"
[clean]
cmd = "rm -rf out"
"#).unwrap();

    let local = jk::config::parse_str(r#"
shell = "pwsh"
[build]
cmd = "local build"
[deploy]
cmd = "scp ..."
"#).unwrap();

    let merged = jk::config::merge(global, local).unwrap();
    let build = merged.tree.lookup(&["build".into()]).unwrap();
    let jk::config::CommandNode::Leaf(leaf) = build else { panic!() };
    assert_eq!(leaf.cmd_strings(), vec!["local build".to_string()]);

    assert!(merged.tree.lookup(&["clean".into()]).is_some());
    assert!(merged.tree.lookup(&["deploy".into()]).is_some());
}

#[test]
fn merge_namespace_leaf_conflict_errors() {
    let global = jk::config::parse_str(r#"
shell = "bash"
[encode]
cmd = "..."
"#).unwrap();
    let local = jk::config::parse_str(r#"
shell = "bash"
[encode.jpg]
cmd = "..."
"#).unwrap();

    let err = jk::config::merge(global, local).unwrap_err();
    assert!(matches!(err, jk::error::JkError::ConfigSchema(_)));
}

#[test]
fn merge_tags_origins() {
    let mut global = jk::config::parse_str(r#"
shell = "bash"
[from-global]
cmd = "echo g"
[both]
cmd = "global both"
"#).unwrap();
    tag_all_origins(&mut global, Origin::GlobalOnly);

    let local = jk::config::parse_str(r#"
shell = "bash"
[from-local]
cmd = "echo l"
[both]
cmd = "local both"
"#).unwrap();

    let merged = jk::config::merge(global, local).unwrap();

    let g = merged.tree.lookup(&["from-global".into()]).unwrap();
    let jk::config::CommandNode::Leaf(g_leaf) = g else { panic!() };
    assert_eq!(g_leaf.origin, Origin::GlobalOnly);

    let l = merged.tree.lookup(&["from-local".into()]).unwrap();
    let jk::config::CommandNode::Leaf(l_leaf) = l else { panic!() };
    assert_eq!(l_leaf.origin, Origin::LocalOnly);

    let both = merged.tree.lookup(&["both".into()]).unwrap();
    let jk::config::CommandNode::Leaf(both_leaf) = both else { panic!() };
    assert_eq!(both_leaf.origin, Origin::Override);
    assert_eq!(both_leaf.cmd_strings(), vec!["local both".to_string()]);
}

#[test]
fn merge_preserves_per_file_shell() {
    let global = jk::config::parse_str(r#"
shell = "bash"
[from-global]
cmd = "uname"
"#).unwrap();
    let local = jk::config::parse_str(r#"
shell = "pwsh"
[from-local]
cmd = "Get-Date"
"#).unwrap();

    let merged = jk::config::merge(global, local).unwrap();

    let g = merged.tree.lookup(&["from-global".into()]).unwrap();
    let jk::config::CommandNode::Leaf(g_leaf) = g else { panic!() };
    assert_eq!(g_leaf.shell, Shell::Bash);

    let l = merged.tree.lookup(&["from-local".into()]).unwrap();
    let jk::config::CommandNode::Leaf(l_leaf) = l else { panic!() };
    assert_eq!(l_leaf.shell, Shell::Pwsh);
}
