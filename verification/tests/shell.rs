use jk::shell::{quote_bun, Shell};
use std::path::PathBuf;

#[test]
fn parses_bun() {
    assert_eq!(Shell::parse("bun").unwrap(), Shell::Bun);
}

#[test]
fn bun_invocation_disables_env_files_and_options() {
    let invocation = Shell::Bun.invocation().unwrap();
    assert_eq!(invocation.program, PathBuf::from("bun"));
    assert_eq!(invocation.args, &["--no-env-file", "exec"]);
    assert_eq!(invocation.env_remove, &["BUN_OPTIONS"]);
}

#[test]
fn bun_quoting_has_its_own_posix_compatible_contract() {
    assert_eq!(quote_bun(""), "''");
    assert_eq!(quote_bun("plain/path"), "plain/path");
    assert_eq!(quote_bun("it's ready"), "'it'\\''s ready'");
    assert_eq!(Shell::Bun.quote("two words"), "'two words'");
}


#[test]
fn non_windows_bash_uses_path_program_name() {
    let invocation = Shell::Bash.invocation().unwrap();
    assert_eq!(invocation.program, PathBuf::from("bash"));
}
