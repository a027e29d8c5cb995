use jk::error::JkError;

fn s(x: &str) -> String {
    x.to_string()
}

#[test]
fn every_error_reads_as_documented() {
    let cases = vec![
        (
            JkError::ConfigNotFound { cwd: s("/w"), global_path: Some(s("/g")) },
            "no .jk found (searched from /w) and no global config at /g",
        ),
        (
            JkError::ConfigNotFound { cwd: s("/w"), global_path: None },
            "no .jk found (searched from /w) and no global config",
        ),
        (JkError::ConfigPathInvalid(s("/x")), "config path invalid: /x"),
        (JkError::ConfigParse(s("bad")), "config parse error: bad"),
        (JkError::ConfigSchema(s("bad")), "config schema error: bad"),
        (JkError::UnknownFlag(s("++x")), "unknown flag: ++x"),
        (
            JkError::MalformedFlag { name: s("++config"), reason: s("value cannot be empty") },
            "malformed flag ++config: value cannot be empty",
        ),
        (JkError::UnknownCommand(s("a b")), "unknown command: jk a b"),
        (JkError::MissingArg(s("#{2}")), "missing argument for placeholder #{2}"),
        (JkError::ExtraArgs(3), "3 extra argument(s) with no placeholder to consume them"),
        (JkError::SpawnFailed(s("'zsh': not found")), "failed to spawn 'zsh': not found"),
        (JkError::InitExists(s("/w/.jk")), ".jk already exists: /w/.jk"),
    ];
    for (e, want) in cases {
        assert_eq!(e.message(), want);
    }
}

#[test]
fn io_errors_convert_and_keep_their_text() {
    let e = JkError::from(std::io::Error::new(std::io::ErrorKind::Other, "disk gone"));
    assert!(matches!(e, JkError::Io(_)));
    assert_eq!(e.message(), "io error: disk gone");
}
