use jk::cli::parse_argv;
use jk::config::{parse_str, tag_all_origins, CommandMap, CommandNode, Origin};
use jk::render::{aggregate_shape, analyze, fold, substitute};
use jk::resolver::{resolve, ResolveResult};
use jk::shell::{quote_fish, quote_posix, quote_pwsh, quote_zsh, Shell};

fn names(m: &CommandMap) -> Vec<String> {
    m.entries.iter().map(|(k, _)| k.clone()).collect()
}

fn all_origins(m: &CommandMap, o: Origin) -> bool {
    m.entries.iter().all(|(_, n)| match n {
        CommandNode::Leaf(l) => l.origin == o,
        CommandNode::Namespace(c) => all_origins(c, o),
    })
}

#[test]
fn fold_gives_one_line() {
    assert_eq!(fold("a\n  b\r\n\n   c  \n"), "a b c");
    assert!(!fold("x\ny\n\nz").contains('\n'));
    assert_eq!(fold(""), "");
}

#[test]
fn plain_command_renders_unchanged() {
    let t = "echo done # not a placeholder {1}";
    assert_eq!(substitute(t, &[], Shell::Sh).unwrap(), t);
}

#[test]
fn posix_quote_is_one_literal_word() {
    assert_eq!(quote_posix("it's"), "'it'\\''s'");
    assert_eq!(quote_posix("a b"), "'a b'");
    assert_eq!(quote_posix("$HOME"), "'$HOME'");
    assert_eq!(quote_posix(""), "''");
    assert_eq!(quote_posix("x/y.z"), "x/y.z");
    assert_eq!(quote_pwsh("it's"), "'it''s'");
}

#[test]
fn each_shell_quotes_for_itself() {
    assert_eq!(quote_zsh("=ls"), "'=ls'");
    assert_eq!(quote_zsh("a=b"), "a=b");
    assert_eq!(Shell::Zsh.quote("it's"), "'it'\\''s'");
    assert_eq!(quote_fish("a\\"), "'a\\\\'");
    assert_eq!(quote_fish("it's"), "'it'\\''s'");
    assert_eq!(Shell::Fish.quote("plain/path"), "plain/path");
    assert_eq!(quote_pwsh("a,b"), "'a,b'");
    assert_eq!(quote_pwsh("-x"), "-x");
    assert_eq!(quote_pwsh("007"), "007");
    assert_eq!(quote_pwsh("=x"), "=x");
    assert_eq!(quote_pwsh("it\u{2019}s"), "'it\u{2019}\u{2019}s'");
    assert_eq!(quote_pwsh("\u{2018}a\u{201a}"), "'\u{2018}\u{2018}a\u{201a}\u{201a}'");
    assert_eq!(Shell::Pwsh.quote("plain/path"), "plain/path");
    assert_eq!(quote_pwsh(""), "''");
}

#[test]
fn tagging_marks_every_leaf() {
    let mut cfg = parse_str(
        "shell = \"sh\"\n[a.b.c]\ncmd = \"x\"\n[a.d]\ncmd = \"y\"\n[e]\ncmd = \"z\"\n",
    )
    .unwrap();
    assert!(all_origins(cfg.tree.root(), Origin::LocalOnly));
    tag_all_origins(&mut cfg, Origin::GlobalOnly);
    assert!(all_origins(cfg.tree.root(), Origin::GlobalOnly));
    assert_eq!(names(cfg.tree.root()), vec!["a".to_string(), "e".to_string()]);
}

#[test]
fn loaded_names_are_ordered() {
    let cfg = parse_str(
        "shell = \"sh\"\n[zeta]\ncmd = \"x\"\n[alpha]\ncmd = \"y\"\n[mid.z]\ncmd = \"1\"\n[mid.a]\ncmd = \"2\"\n",
    )
    .unwrap();
    assert_eq!(
        names(cfg.tree.root()),
        vec!["alpha".to_string(), "mid".to_string(), "zeta".to_string()]
    );
    let Some(CommandNode::Namespace(mid)) = cfg.tree.lookup(&["mid".to_string()]) else {
        panic!("expected namespace")
    };
    assert_eq!(names(mid), vec!["a".to_string(), "z".to_string()]);
}

#[test]
fn after_separator_everything_is_positional() {
    let r = parse_argv(
        ["media", "--", "++dry-run", "--", "-x"].iter().map(|s| s.to_string()).collect(),
    )
    .unwrap();
    assert_eq!(r.path, vec!["media", "++dry-run", "--", "-x"]);
    assert!(!r.dry_run);
}

#[test]
fn fold_keeps_placeholders() {
    let t = "convert #{1}\n    -resize #{2}!\n\n  #{@}  \n";
    let folded = fold(t);
    assert_eq!(folded, "convert #{1} -resize #{2}! #{@}");
    assert_eq!(analyze(&folded).unwrap(), analyze(t).unwrap());
}

#[test]
fn resolve_agrees_with_lookup() {
    let cfg = parse_str("shell = \"sh\"\n[media.x264]\ncmd = \"ffmpeg #{1}\"\n[media.vp9]\ncmd = \"vpx #{1}\"\n").unwrap();
    let toks: Vec<String> = ["media", "vp9", "in.mp4"].iter().map(|s| s.to_string()).collect();
    let Ok(ResolveResult::Leaf(r)) = resolve(&cfg, &toks) else { panic!("expected leaf") };
    assert_eq!(r.path, vec!["media".to_string(), "vp9".to_string()]);
    assert_eq!(r.args, vec!["in.mp4".to_string()]);
    let Some(CommandNode::Leaf(l)) = cfg.tree.lookup(&r.path) else { panic!("expected leaf") };
    assert!(std::ptr::eq(l, r.leaf));
    let ns: Vec<String> = vec!["media".to_string()];
    let Ok(ResolveResult::Namespace { children, .. }) = resolve(&cfg, &ns) else { panic!("expected namespace") };
    let Some(CommandNode::Namespace(m)) = cfg.tree.lookup(&ns) else { panic!("expected namespace") };
    assert!(std::ptr::eq(m, children));
}

#[test]
fn merge_fails_exactly_on_clash() {
    let global = parse_str("shell = \"sh\"\n[a.b]\ncmd = \"x\"\n[c.d]\ncmd = \"y\"\n").unwrap();
    let local = parse_str("shell = \"sh\"\n[a.b.e]\ncmd = \"z\"\n").unwrap();
    let err = jk::config::merge(global, local).unwrap_err();
    assert_eq!(
        err.message(),
        "config schema error: merge conflict at 'a.b': namespace and leaf cannot share path"
    );

    let global = parse_str("shell = \"sh\"\n[a.b]\ncmd = \"x\"\n[c.d]\ncmd = \"y\"\n").unwrap();
    let local = parse_str("shell = \"sh\"\n[a.f]\ncmd = \"z\"\n[c.d]\ncmd = \"w\"\n").unwrap();
    let merged = jk::config::merge(global, local).unwrap();
    assert_eq!(names(merged.tree.root()), vec!["a".to_string(), "c".to_string()]);
}

#[test]
fn tagging_changes_only_origins() {
    let mut cfg = parse_str(
        "shell = \"sh\"\n[a.b]\ndesc = \"the b\"\ncmd = \"x #{1}\"\n[e]\ncmd = \"z\"\n",
    )
    .unwrap();
    tag_all_origins(&mut cfg, Origin::Override);
    let node = cfg.tree.lookup(&["a".to_string(), "b".to_string()]).unwrap();
    let CommandNode::Leaf(leaf) = node else { panic!("a.b is a leaf") };
    assert_eq!(leaf.desc.as_deref(), Some("the b"));
    assert_eq!(leaf.cmd_strings(), vec!["x #{1}".to_string()]);
    assert_eq!(leaf.origin, Origin::Override);
    assert!(matches!(cfg.tree.lookup(&["a".to_string()]), Some(CommandNode::Namespace(_))));
    assert!(cfg.tree.lookup(&["a".to_string(), "c".to_string()]).is_none());
}

#[test]
fn folded_command_folds_to_itself() {
    for s in ["  a \n\t b  \n\n c", "\n\n", "one", "  x  ", "a\r\n  b\r\n"] {
        let once = fold(s);
        assert_eq!(fold(&once), once);
        assert_eq!(once.trim(), once);
    }
    assert_eq!(fold("  a \n\t b  \n\n c"), "a b c");
}

#[test]
fn indices_gathered_across_commands() {
    let shape = aggregate_shape(&["echo #{2}", "echo #{1}"]).unwrap();
    assert_eq!(shape.max_n, 2);
    let err = aggregate_shape(&["echo #{1}", "echo #{3}"]).unwrap_err();
    assert_eq!(
        err.message(),
        "config schema error: non-contiguous placeholder indices: missing #{2} (max index used is #{3})"
    );
    let err = aggregate_shape(&["echo #{4}", "echo #{2}"]).unwrap_err();
    assert_eq!(
        err.message(),
        "config schema error: non-contiguous placeholder indices: missing #{1} (max index used is #{4})"
    );
}

#[test]
fn loaded_tree_is_sound() {
    let cfg = parse_str(
        "shell = \"bash\"\n[a]\ncmd = \"x\"\nshell = \"zsh\"\n[g.b]\ncmd = [\"y #{1}\", \"z #{2}\"]\n",
    )
    .unwrap();
    let Some(CommandNode::Leaf(a)) = cfg.tree.lookup(&["a".to_string()]) else { panic!("a is a leaf") };
    assert_eq!(a.shell, Shell::Zsh);
    assert_eq!(a.origin, Origin::LocalOnly);
    let Some(CommandNode::Leaf(b)) = cfg.tree.lookup(&["g".to_string(), "b".to_string()]) else {
        panic!("g.b is a leaf")
    };
    assert_eq!(b.shell, Shell::Bash);
    assert_eq!(b.cmd_strings(), vec!["y #{1}".to_string(), "z #{2}".to_string()]);
    assert!(parse_str("shell = \"bash\"\n[a]\ncmd = []\n").is_err());
    assert!(parse_str("shell = \"bash\"\n[a]\ncmd = [\"x\", \"  \"]\n").is_err());
    assert!(parse_str("shell = \"bash\"\n[a]\ncmd = [\"x #{2}\"]\n").is_err());
    assert!(parse_str("shell = \"bash\"\n[a]\n").is_err());
    assert!(parse_str("[a]\ncmd = \"x\"\n").is_err());
}

#[test]
fn lookup_goes_name_by_name() {
    let cfg = parse_str("shell = \"sh\"\n[a.b]\ncmd = \"x\"\n[c]\ncmd = \"y\"\n").unwrap();
    assert!(cfg.tree.lookup(&[]).is_none());
    assert!(matches!(cfg.tree.lookup(&["c".to_string()]), Some(CommandNode::Leaf(_))));
    assert!(matches!(cfg.tree.lookup(&["a".to_string()]), Some(CommandNode::Namespace(_))));
    assert!(matches!(cfg.tree.lookup(&["a".to_string(), "b".to_string()]), Some(CommandNode::Leaf(_))));
    assert!(cfg.tree.lookup(&["c".to_string(), "d".to_string()]).is_none());
    assert!(cfg.tree.lookup(&["a".to_string(), "z".to_string()]).is_none());
}
