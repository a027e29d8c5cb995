use jk::config::{config_source, global_config_path, parse_str, walk_step, CommandNode, Origin, WalkStep};
use jk::error::JkError;
use jk::output::Out;
use jk::run::{
    combine_configs, decide, exit_code_from_status, global_load_error, render_commands, run_sequence,
    Action, SequenceStep,
};
use jk::shell::Shell;
use std::path::PathBuf;

const CFG: &str = r#"
shell = "sh"

[build]
cmd = "make"

[media.x264]
cmd = "ffmpeg -i #{1} #{@}"

[quiet-one]
quiet = true
no-color = true
cmd = "true"

[multi]
cmd = """
  magick #{1}
    -quality 90

    #{2}
"""

[pair]
cmd = ["echo #{1}", "echo #{2}"]
"#;

fn out() -> Out {
    Out::from_env_values(None, None, true, true)
}

fn strings(v: &[&str]) -> Vec<String> {
    v.iter().map(|s| s.to_string()).collect()
}

#[test]
fn dry_run_prints_rendered_commands() {
    let cfg = parse_str(CFG).unwrap();
    match decide(&strings(&["media", "x264", "in file.mp4", "-y"]), true, &cfg, &out(), None, None) {
        Ok(Action::Print(lines)) => assert_eq!(lines, vec!["ffmpeg -i 'in file.mp4' -y".to_string()]),
        _ => panic!("expected lines to print"),
    }
}

#[test]
fn execute_carries_shell_and_leaf_output_flags() {
    let cfg = parse_str(CFG).unwrap();
    match decide(&strings(&["quiet-one"]), false, &cfg, &out(), None, None) {
        Ok(Action::Execute { cmds, shell, out, name }) => {
            assert_eq!(name, "quiet-one");
            assert_eq!(cmds, vec!["true".to_string()]);
            assert_eq!(shell, Shell::Sh);
            assert!(out.quiet);
            assert!(!out.color);
            assert!(!out.stdout_color);
        }
        _ => panic!("expected execution"),
    }
    match decide(&strings(&["build"]), false, &cfg, &out(), None, None) {
        Ok(Action::Execute { out, .. }) => {
            assert!(!out.quiet);
            assert!(out.color);
        }
        _ => panic!("expected execution"),
    }
}

#[test]
fn namespace_gives_listing() {
    let cfg = parse_str(CFG).unwrap();
    match decide(&strings(&["media"]), false, &cfg, &Out::from_env_values(None, Some("1"), true, true), None, Some("/l")) {
        Ok(Action::Print(lines)) => {
            assert_eq!(lines, vec!["--- local commands ---".to_string(), "x264".to_string()]);
        }
        _ => panic!("expected listing"),
    }
}

#[test]
fn decide_reports_each_error() {
    let cfg = parse_str(CFG).unwrap();
    match decide(&strings(&["media", "nope"]), true, &cfg, &out(), None, None) {
        Err(JkError::UnknownCommand(s)) => assert_eq!(s, "media nope"),
        _ => panic!("expected unknown command"),
    }
    match decide(&strings(&["media", "x264"]), true, &cfg, &out(), None, None) {
        Err(JkError::MissingArg(p)) => assert_eq!(p, "#{1}"),
        _ => panic!("expected missing argument"),
    }
    match decide(&strings(&["build", "x", "y"]), true, &cfg, &out(), None, None) {
        Err(JkError::ExtraArgs(n)) => assert_eq!(n, 2),
        _ => panic!("expected extra arguments"),
    }
}

#[test]
fn multi_line_command_is_folded_then_filled() {
    let cfg = parse_str(CFG).unwrap();
    let Some(CommandNode::Leaf(leaf)) = cfg.tree.lookup(&strings(&["multi"])) else {
        panic!("expected leaf")
    };
    let r = render_commands(leaf, &strings(&["in.tiff", "out file.jpg"])).unwrap();
    assert_eq!(r, vec!["magick in.tiff -quality 90 'out file.jpg'".to_string()]);
}

#[test]
fn sequence_shares_placeholders() {
    let cfg = parse_str(CFG).unwrap();
    let Some(CommandNode::Leaf(leaf)) = cfg.tree.lookup(&strings(&["pair"])) else {
        panic!("expected leaf")
    };
    let r = render_commands(leaf, &strings(&["a", "b c"])).unwrap();
    assert_eq!(r, vec!["echo a".to_string(), "echo 'b c'".to_string()]);
}

#[test]
fn combine_without_any_config_is_not_found() {
    match combine_configs(None, None, "/w", Some("/h/.jk/config.toml")) {
        Err(e) => {
            assert_eq!(
                e.message(),
                "no .jk found (searched from /w) and no global config at /h/.jk/config.toml"
            );
        }
        Ok(_) => panic!("expected an error"),
    }
    match combine_configs(None, None, "/w", None) {
        Err(JkError::ConfigNotFound { cwd, global_path }) => {
            assert_eq!(cwd, "/w");
            assert_eq!(global_path, None);
        }
        _ => panic!("expected not found"),
    }
}

#[test]
fn combine_global_only_marks_global() {
    let g = parse_str("shell = \"sh\"\n[g]\ncmd = \"x\"\n").unwrap();
    let cfg = combine_configs(None, Some(g), "/w", None).unwrap();
    let Some(CommandNode::Leaf(leaf)) = cfg.tree.lookup(&strings(&["g"])) else { panic!() };
    assert_eq!(leaf.origin, Origin::GlobalOnly);
}

#[test]
fn combine_both_overrides_and_keeps() {
    let g = parse_str("shell = \"sh\"\n[s]\ncmd = \"g\"\n[g]\ncmd = \"g\"\n").unwrap();
    let l = parse_str("shell = \"sh\"\n[s]\ncmd = \"l\"\n[l]\ncmd = \"l\"\n").unwrap();
    let cfg = combine_configs(Some(l), Some(g), "/w", None).unwrap();
    let Some(CommandNode::Leaf(s)) = cfg.tree.lookup(&strings(&["s"])) else { panic!() };
    assert_eq!(s.origin, Origin::Override);
    assert_eq!(s.cmd_strings(), vec!["l".to_string()]);
    let Some(CommandNode::Leaf(g)) = cfg.tree.lookup(&strings(&["g"])) else { panic!() };
    assert_eq!(g.origin, Origin::GlobalOnly);
    let Some(CommandNode::Leaf(l)) = cfg.tree.lookup(&strings(&["l"])) else { panic!() };
    assert_eq!(l.origin, Origin::LocalOnly);
}

#[test]
fn combine_conflict_is_schema_error() {
    let g = parse_str("shell = \"sh\"\n[a.b]\ncmd = \"g\"\n").unwrap();
    let l = parse_str("shell = \"sh\"\n[a]\ncmd = \"l\"\n").unwrap();
    match combine_configs(Some(l), Some(g), "/w", None) {
        Err(JkError::ConfigSchema(m)) => {
            assert_eq!(m, "merge conflict at 'a': namespace and leaf cannot share path")
        }
        _ => panic!("expected conflict"),
    }
}

#[test]
fn global_errors_name_their_file() {
    match global_load_error("/g/config.toml", JkError::ConfigParse("bad".to_string())) {
        JkError::ConfigParse(m) => assert_eq!(m, "in global config /g/config.toml: bad"),
        _ => panic!(),
    }
    match global_load_error("/g", JkError::ConfigSchema("s".to_string())) {
        JkError::ConfigSchema(m) => assert_eq!(m, "in global config /g: s"),
        _ => panic!(),
    }
    match global_load_error("/g", JkError::UnknownCommand("x".to_string())) {
        JkError::UnknownCommand(m) => assert_eq!(m, "x"),
        _ => panic!(),
    }
}

#[test]
fn sequence_decisions() {
    assert_eq!(run_sequence(0, None), SequenceStep::Complete);
    assert_eq!(run_sequence(3, None), SequenceStep::Start(0));
    assert_eq!(run_sequence(3, Some((0, 0))), SequenceStep::Start(1));
    assert_eq!(run_sequence(3, Some((2, 0))), SequenceStep::Complete);
    assert_eq!(run_sequence(3, Some((1, 7))), SequenceStep::Fail { step: 1, exit: 7 });
    assert_eq!(run_sequence(3, Some((0, -2))), SequenceStep::Fail { step: 0, exit: -2 });
}

#[test]
fn sequence_stops_at_first_failure() {
    let exits = [0, 0, 5, 0];
    let mut started = Vec::new();
    let mut step = run_sequence(exits.len(), None);
    let code = loop {
        match step {
            SequenceStep::Start(i) => {
                started.push(i);
                step = run_sequence(exits.len(), Some((i, exits[i])));
            }
            SequenceStep::Fail { exit, .. } => break exit,
            SequenceStep::Complete => break 0,
        }
    };
    assert_eq!(started, vec![0, 1, 2]);
    assert_eq!(code, 5);
}

#[test]
fn local_config_source_precedence() {
    assert_eq!(config_source(Some("a"), Some("b")), Some("a"));
    assert_eq!(config_source(None, Some("b")), Some("b"));
    assert_eq!(config_source(None, Some("")), None);
    assert_eq!(config_source(None, None), None);
    assert_eq!(config_source(Some(""), None), Some(""));
}

#[test]
fn global_path_precedence() {
    assert_eq!(
        global_config_path(Some("/h1"), Some("/h2"), Some("/u")),
        Some(PathBuf::from("/h1").join("config.toml"))
    );
    assert_eq!(
        global_config_path(None, Some("/h2"), Some("/u")),
        Some(PathBuf::from("/h2").join("config.toml"))
    );
    assert_eq!(
        global_config_path(None, Some(""), Some("/u")),
        Some(PathBuf::from("/u").join(".jk").join("config.toml"))
    );
    assert_eq!(global_config_path(None, None, None), None);
}

#[test]
fn exit_codes_pass_through_or_report_the_signal() {
    assert_eq!(exit_code_from_status(Some(42), None), 42);
    assert_eq!(exit_code_from_status(Some(0), Some(9)), 0);
    assert_eq!(exit_code_from_status(None, Some(2)), 130);
    assert_eq!(exit_code_from_status(None, Some(9)), 137);
    assert_eq!(exit_code_from_status(None, None), -1);
}

#[test]
fn execute_names_the_command_path() {
    let cfg = parse_str(CFG).unwrap();
    match decide(&strings(&["media", "x264", "a.mp4"]), false, &cfg, &out(), None, None) {
        Ok(Action::Execute { name, .. }) => assert_eq!(name, "media x264"),
        _ => panic!("expected execution"),
    }
}

const RELEASE: &str = r#"
shell = "bash"
[release]
cmd = ["jk clean", "jk build", "jk package #{1}"]
[clean]
cmd = "echo cleaned"
[build]
cmd = "echo built"
[package]
cmd = "echo packaged #{1}"
[update]
cmd = ["apt update", "apt upgrade #{@}"]
"#;

#[test]
fn dry_run_release_sequence_lines() {
    let cfg = parse_str(RELEASE).unwrap();
    match decide(&strings(&["release", "v1.5"]), true, &cfg, &out(), None, None) {
        Ok(Action::Print(lines)) => {
            assert_eq!(lines, strings(&["jk clean", "jk build", "jk package v1.5"]));
        }
        _ => panic!("expected lines to print"),
    }
    match decide(&strings(&["update", "-y"]), true, &cfg, &out(), None, None) {
        Ok(Action::Print(lines)) => assert_eq!(lines, strings(&["apt update", "apt upgrade -y"])),
        _ => panic!("expected lines to print"),
    }
}

#[test]
fn dry_run_errors_read_as_expected() {
    let cfg = parse_str(RELEASE).unwrap();
    match decide(&strings(&["release", "v1.5", "extra"]), true, &cfg, &out(), None, None) {
        Err(e) => assert!(e.message().contains("extra argument"), "{}", e.message()),
        Ok(_) => panic!("expected an error"),
    }
    match decide(&strings(&["package"]), true, &cfg, &out(), None, None) {
        Err(e) => assert!(e.message().contains("missing argument"), "{}", e.message()),
        Ok(_) => panic!("expected an error"),
    }
    match decide(&strings(&["nope"]), true, &cfg, &out(), None, None) {
        Err(e) => assert!(e.message().contains("unknown command"), "{}", e.message()),
        Ok(_) => panic!("expected an error"),
    }
}

#[test]
fn missing_shell_is_reported() {
    let e = parse_str("[hello]\ncmd = \"echo hi\"\n").unwrap_err();
    assert!(e.message().contains("no shell declared"), "{}", e.message());
}

#[test]
fn non_string_shell_reports_toml_error() {
    match parse_str("shell = 1\n[a]\ncmd = \"x\"\n") {
        Err(JkError::ConfigParse(m)) => {
            assert!(m.contains("invalid type: integer `1`, expected a string"), "{m}");
            assert!(m.contains("line 1"), "{m}");
        }
        _ => panic!("expected a parse error"),
    }
}

#[test]
fn walk_stops_at_nearest_config() {
    assert_eq!(walk_step(true, true), WalkStep::Found);
    assert_eq!(walk_step(false, true), WalkStep::Up);
    assert_eq!(walk_step(false, false), WalkStep::Stop);
    assert_eq!(walk_step(true, false), WalkStep::Found);
}
