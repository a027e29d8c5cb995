use jk::config::{merge, parse_str, tag_all_origins, CommandNode, Origin};
use jk::output::{
    display_path_or_none, fmt_completed, fmt_error, fmt_failed, fmt_step, format_timestamp,
    listing_entries, text_lines_exec, ListingEntry, ListingSection, Out, Painter, Style,
};

const LOCAL: &str = r#"
shell = "sh"

[build]
desc = "build it"
cmd = "make"

[media.x264]
desc = ["encode", "with x264"]
cmd = "ffmpeg #{1}"
"#;

fn plain_out() -> Out {
    Out::from_env_values(None, Some("1"), true, true)
}

#[test]
fn timestamp_is_zero_padded() {
    assert_eq!(format_timestamp(9, 5, 3, 7_000_000), "09:05:03.007");
    assert_eq!(format_timestamp(23, 59, 59, 999_999_999), "23:59:59.999");
    assert_eq!(format_timestamp(0, 0, 0, 0), "00:00:00.000");
}

#[test]
fn status_lines_without_color() {
    assert_eq!(fmt_step("12:00:00.000", "hello", false), "[jk][12:00:00.000] running hello");
    assert_eq!(fmt_completed("12:00:00.000", 42, false), "[jk][12:00:00.000] completed in 42ms");
    assert_eq!(fmt_failed("t", 0, 7, false), "[jk][t] failed at step 1 (exit 7)");
    assert_eq!(fmt_failed("t", 2, -1, false), "[jk][t] failed at step 3 (exit -1)");
    assert_eq!(fmt_error("boom", false), "[jk] error: boom");
}

#[test]
fn status_lines_with_color() {
    assert_eq!(
        fmt_error("boom", true),
        "\x1b[38;2;255;213;0m[jk] error: boom\x1b[0m"
    );
    assert_eq!(
        fmt_step("t", "ls", true),
        "\x1b[38;2;209;224;222m[jk][t] running \x1b[0m\x1b[38;2;135;215;255mls\x1b[0m"
    );
    assert_eq!(
        Painter::new(true).paint(Style::Dim, "x"),
        "\x1b[2mx\x1b[0m"
    );
    assert_eq!(Painter::new(false).paint(Style::Dim, "x"), "x");
}

#[test]
fn env_switches_only_on_exact_one() {
    let o = Out::from_env_values(Some("1"), None, true, false);
    assert!(o.quiet);
    assert!(o.color);
    assert!(!o.stdout_color);
    for v in ["", "0", "true", "yes", " 1"] {
        let o = Out::from_env_values(Some(v), Some(v), true, true);
        assert!(!o.quiet, "{v:?}");
        assert!(o.color, "{v:?}");
    }
    let o = Out::from_env_values(None, Some("1"), true, true);
    assert!(!o.color);
    assert!(!o.stdout_color);
}

#[test]
fn flags_add_and_never_remove() {
    let base = Out::from_env_values(Some("1"), Some("1"), true, true);
    let o = base.with_flags(false, false);
    assert!(o.quiet);
    assert!(!o.color);
    let loud = Out::from_env_values(None, None, true, true);
    let o = loud.with_flags(true, true);
    assert!(o.quiet);
    assert!(!o.color && !o.stdout_color);
    let o = loud.with_flags(false, false);
    assert!(!o.quiet && o.color && o.stdout_color);
}

#[test]
fn quiet_hides_status_lines_but_not_errors() {
    let quiet = Out::from_env_values(Some("1"), Some("1"), false, false);
    assert_eq!(quiet.step_header_line("t", "x"), None);
    assert_eq!(quiet.completed_line("t", 1), None);
    assert_eq!(quiet.failed_line("t", 0, 1), None);
    assert_eq!(quiet.user_error_line("bad"), "[jk] error: bad");
    let loud = plain_out();
    assert_eq!(loud.step_header_line("t", "media x264"), Some("[jk][t] running media x264".to_string()));
    assert_eq!(loud.completed_line("t", 5), Some("[jk][t] completed in 5ms".to_string()));
    assert_eq!(loud.failed_line("t", 1, 2), Some("[jk][t] failed at step 2 (exit 2)".to_string()));
}

#[test]
fn text_lines_split_like_str_lines() {
    assert_eq!(text_lines_exec("a\r\nb\n"), vec!["a".to_string(), "b".to_string()]);
    assert_eq!(text_lines_exec(""), Vec::<String>::new());
    assert_eq!(text_lines_exec("x\n\ny"), vec!["x".to_string(), "".to_string(), "y".to_string()]);
}

#[test]
fn path_or_none() {
    assert_eq!(display_path_or_none(Some("/p/.jk")), "/p/.jk");
    assert_eq!(display_path_or_none(None), "(none)");
}

#[test]
fn listing_of_local_config() {
    let cfg = parse_str(LOCAL).unwrap();
    let lines = plain_out().listing_lines(&[], cfg.tree.root(), None, Some("/p/.jk"));
    assert_eq!(
        lines,
        vec![
            "[jk] configs:",
            "  global: (none)",
            "  local:  /p/.jk",
            "--- global commands ---",
            "--- local commands ---",
            "media/",
            "    x264   encode",
            "           with x264",
            "build      build it",
        ]
    );
}

#[test]
fn quiet_listing_omits_configs_header() {
    let cfg = parse_str(LOCAL).unwrap();
    let quiet = Out::from_env_values(Some("1"), Some("1"), false, false);
    let lines = quiet.listing_lines(&[], cfg.tree.root(), Some("/g"), Some("/p/.jk"));
    assert_eq!(lines[0], "--- global commands ---");
    assert_eq!(lines[1], "--- local commands ---");
    assert!(!lines.iter().any(|l| l.contains("[jk] configs:")));
}

#[test]
fn listing_below_root_skips_empty_section() {
    let cfg = parse_str(LOCAL).unwrap();
    let Some(CommandNode::Namespace(media)) = cfg.tree.lookup(&["media".into()]) else {
        panic!("expected namespace")
    };
    let lines = plain_out().listing_lines(&["media".to_string()], media, None, Some("/p/.jk"));
    assert_eq!(
        lines,
        vec![
            "--- local commands ---",
            "x264   encode",
            "       with x264",
        ]
    );
}

#[test]
fn listing_marks_overrides_in_both_sections() {
    let mut global = parse_str(
        "shell = \"sh\"\n[shared]\ndesc = \"global version\"\ncmd = \"echo g\"\n[gonly]\ndesc = \"from global\"\ncmd = \"echo g\"\n",
    )
    .unwrap();
    tag_all_origins(&mut global, Origin::GlobalOnly);
    let local = parse_str(
        "shell = \"sh\"\n[shared]\ndesc = \"local override\"\ncmd = \"echo l\"\n[lonly]\ndesc = \"from local\"\ncmd = \"echo l\"\n",
    )
    .unwrap();
    let cfg = merge(global, local).unwrap();
    let lines = plain_out().listing_lines(&[], cfg.tree.root(), Some("/g"), Some("/l"));
    assert_eq!(
        lines,
        vec![
            "[jk] configs:",
            "  global: /g",
            "  local:  /l",
            "--- global commands ---",
            "(g) gonly    from global",
            "(o) shared   -> local",
            "--- local commands ---",
            "lonly        from local",
            "(o) shared   local override",
        ]
    );
}

#[test]
fn listing_colors_by_origin() {
    let cfg = parse_str("shell = \"sh\"\n[a]\ncmd = \"x\"\n").unwrap();
    let colored = Out::from_env_values(None, None, true, true);
    let lines = colored.listing_lines(&[], cfg.tree.root(), None, None);
    assert_eq!(
        lines,
        vec![
            "\x1b[38;2;135;215;255m[jk] configs:\x1b[0m",
            "\x1b[38;2;209;224;222m  global: (none)\x1b[0m",
            "\x1b[38;2;209;224;222m  local:  (none)\x1b[0m",
            "\x1b[38;2;135;215;255m--- global commands ---\x1b[0m",
            "\x1b[38;2;135;215;255m--- local commands ---\x1b[0m",
            "\x1b[38;2;163;231;245ma\x1b[0m",
        ]
    );
}

#[test]
fn listing_aligns_by_display_width() {
    let cfg = parse_str(
        "shell = \"sh\"\n[\"日本\"]\ndesc = \"wide\"\ncmd = \"x\"\n[ab]\ndesc = \"narrow\"\ncmd = \"y\"\n",
    )
    .unwrap();
    let lines = plain_out().listing_lines(&[], cfg.tree.root(), None, None);
    assert_eq!(lines[5], "ab     narrow");
    assert_eq!(lines[6], "日本   wide");
}

#[test]
fn entry_width_counts_indent_and_columns() {
    let e = ListingEntry { depth: 2, display: "日本".to_string(), origin: None, desc: vec![] };
    assert_eq!(e.width(), 12);
    let e = ListingEntry { depth: 0, display: "abc".to_string(), origin: Some(Origin::LocalOnly), desc: vec![] };
    assert_eq!(e.width(), 3);
    let e = ListingEntry { depth: 1, display: "abc".to_string(), origin: Some(Origin::GlobalOnly), desc: vec![] };
    assert_eq!(e.width(), 11);
}

#[test]
fn entries_put_namespaces_first() {
    let cfg = parse_str(LOCAL).unwrap();
    let rows = listing_entries(cfg.tree.root(), ListingSection::Local);
    let names: Vec<(usize, String)> = rows.iter().map(|r| (r.depth, r.display.clone())).collect();
    assert_eq!(
        names,
        vec![(0, "media/".to_string()), (1, "x264".to_string()), (0, "build".to_string())]
    );
    assert!(listing_entries(cfg.tree.root(), ListingSection::Global).is_empty());
}

fn global_and_local_listing(local: Option<&str>) -> Vec<String> {
    let mut global = parse_str(
        "shell = \"bash\"\n[gonly]\ndesc = \"from global\"\ncmd = \"echo g\"\n[shared]\ndesc = \"global version\"\ncmd = \"echo g-shared\"\n[only-global]\ndesc = \"from global\"\ncmd = \"echo g\"\n",
    )
    .unwrap();
    tag_all_origins(&mut global, Origin::GlobalOnly);
    let cfg = match local {
        Some(text) => merge(global, parse_str(text).unwrap()).unwrap(),
        None => global,
    };
    let header_local = local.map(|_| "/p/.jk");
    plain_out().listing_lines(&[], cfg.tree.root(), Some("/h/.jk/config.toml"), header_local)
}

#[test]
fn root_listing_merges_global_and_local_lines() {
    let lines = global_and_local_listing(Some(
        "shell = \"bash\"\n[lonly]\ndesc = \"from local\"\ncmd = \"echo l\"\n[shared]\ndesc = \"local override\"\ncmd = \"echo l-shared\"\n",
    ));
    let text = lines.join("\n");
    assert!(text.contains("[jk] configs:"), "{text}");
    assert!(text.contains("global: "), "{text}");
    assert!(text.contains("local:  "), "{text}");
    assert!(!text.contains("local:  (none)"), "{text}");
    assert!(text.contains("(g) gonly"), "{text}");
    assert!(text.contains("(o) shared"), "{text}");
    assert!(text.contains("from local"), "{text}");
}

#[test]
fn root_listing_global_only_lines() {
    let text = global_and_local_listing(None).join("\n");
    assert!(text.contains("local:  (none)"), "{text}");
    assert!(text.contains("(g) only-global"), "{text}");
}

#[test]
fn top_level_listing_includes_configs_header() {
    let cfg = parse_str("shell = \"bash\"\n[hello]\ndesc = \"say hi\"\ncmd = \"echo hi\"\n").unwrap();
    let text = plain_out().listing_lines(&[], cfg.tree.root(), None, Some("/p/.jk")).join("\n");
    assert!(text.contains("[jk] configs:"));
    assert!(text.contains("global:"));
    assert!(text.contains("local:"));
    assert!(text.contains("hello"));
    let quiet = Out::from_env_values(Some("1"), None, false, false);
    let text = quiet.listing_lines(&[], cfg.tree.root(), None, Some("/p/.jk")).join("\n");
    assert!(!text.contains("[jk] configs:"));
    assert!(text.contains("hello"));
}

#[test]
fn namespace_listing_does_not_repeat_configs_header() {
    let cfg = parse_str("shell = \"bash\"\n[encode.jpg]\ndesc = \"encode jpg\"\ncmd = \"magick #{1}\"\n").unwrap();
    let Some(CommandNode::Namespace(encode)) = cfg.tree.lookup(&["encode".to_string()]) else {
        panic!("expected namespace")
    };
    let text = plain_out().listing_lines(&["encode".to_string()], encode, None, Some("/p/.jk")).join("\n");
    assert!(!text.contains("[jk] configs:"));
    assert!(text.contains("jpg"));
}

#[test]
fn step_and_completion_lines_carry_the_timestamp() {
    let ts = format_timestamp(14, 3, 9, 45_000_000);
    let out = plain_out();
    assert_eq!(out.step_header_line(&ts, "hello"), Some("[jk][14:03:09.045] running hello".to_string()));
    assert_eq!(out.completed_line(&ts, 12), Some("[jk][14:03:09.045] completed in 12ms".to_string()));
}
