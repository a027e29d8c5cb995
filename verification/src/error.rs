//! The library's error type and the text each error reads as.
use vstd::prelude::*;
use crate::text::{decimal_string, decimal, owned};

verus! {

/// `std::io::Error`, carried through unchanged.
#[verifier::external_type_specification]
#[verifier::external_body]
pub struct ExIoError(std::io::Error);

#[derive(Debug)]
pub enum JkError {
    /// `cwd` is the walk-up start; `global_path` is the global config path
    /// (`None` when the home directory is unknown). Raised only when neither a
    /// local nor a global config exists.
    ConfigNotFound { cwd: String, global_path: Option<String> },
    ConfigPathInvalid(String),
    ConfigParse(String),
    ConfigSchema(String),
    UnknownFlag(String),
    MalformedFlag { name: String, reason: String },
    UnknownCommand(String),
    MissingArg(String),
    ExtraArgs(usize),
    SpawnFailed(String),
    InitExists(String),
    Io(std::io::Error),
}

pub type JkResult<T> = Result<T, JkError>;

/// The text of an error, for every variant but `Io` (whose tail is the
/// operating system's own wording).
pub open spec fn error_text(e: JkError) -> Seq<char> {
    match e {
        JkError::ConfigNotFound { cwd, global_path } => match global_path {
            Some(p) => "no .jk found (searched from "@ + cwd@ + ") and no global config at "@ + p@,
            None => "no .jk found (searched from "@ + cwd@ + ") and no global config"@,
        },
        JkError::ConfigPathInvalid(p) => "config path invalid: "@ + p@,
        JkError::ConfigParse(m) => "config parse error: "@ + m@,
        JkError::ConfigSchema(m) => "config schema error: "@ + m@,
        JkError::UnknownFlag(s) => "unknown flag: "@ + s@,
        JkError::MalformedFlag { name, reason } => "malformed flag "@ + name@ + ": "@ + reason@,
        JkError::UnknownCommand(s) => "unknown command: jk "@ + s@,
        JkError::MissingArg(p) => "missing argument for placeholder "@ + p@,
        JkError::ExtraArgs(n) => decimal(n as nat)
            + " extra argument(s) with no placeholder to consume them"@,
        JkError::SpawnFailed(s) => "failed to spawn "@ + s@,
        JkError::InitExists(p) => ".jk already exists: "@ + p@,
        JkError::Io(_) => "io error: "@,
    }
}

/// `Display` of `std::io::Error`. Nothing is stated of the text: it comes from
/// the operating system.
#[verifier::external_body]
fn io_error_display(e: &std::io::Error) -> String {
    e.to_string()
}

fn cat2(a: &str, b: &str) -> (r: String)
    ensures
        r@ == a@ + b@,
{
    let mut s = owned(a);
    s.push_str(b);
    s
}

fn cat4(a: &str, b: &str, c: &str, d: &str) -> (r: String)
    ensures
        r@ == a@ + b@ + c@ + d@,
{
    let mut s = owned(a);
    s.push_str(b);
    s.push_str(c);
    s.push_str(d);
    s
}

impl JkError {
    /// What the error reads as when shown to the user.
    pub fn message(&self) -> (m: String)
        ensures
            !(self is Io) ==> m@ == error_text(*self),
            self is Io ==> m@.take(10) == error_text(*self),
    {
        match self {
            JkError::ConfigNotFound { cwd, global_path } => match global_path {
                Some(p) => cat4(
                    "no .jk found (searched from ",
                    cwd.as_str(),
                    ") and no global config at ",
                    p.as_str(),
                ),
                None => {
                    let mut s = cat2("no .jk found (searched from ", cwd.as_str());
                    s.push_str(") and no global config");
                    s
                },
            },
            JkError::ConfigPathInvalid(p) => cat2("config path invalid: ", p.as_str()),
            JkError::ConfigParse(m) => cat2("config parse error: ", m.as_str()),
            JkError::ConfigSchema(m) => cat2("config schema error: ", m.as_str()),
            JkError::UnknownFlag(s) => cat2("unknown flag: ", s.as_str()),
            JkError::MalformedFlag { name, reason } => cat4(
                "malformed flag ",
                name.as_str(),
                ": ",
                reason.as_str(),
            ),
            JkError::UnknownCommand(s) => cat2("unknown command: jk ", s.as_str()),
            JkError::MissingArg(p) => cat2("missing argument for placeholder ", p.as_str()),
            JkError::ExtraArgs(n) => {
                let d = decimal_string(*n);
                cat2(d.as_str(), " extra argument(s) with no placeholder to consume them")
            },
            JkError::SpawnFailed(s) => cat2("failed to spawn ", s.as_str()),
            JkError::InitExists(p) => cat2(".jk already exists: ", p.as_str()),
            JkError::Io(e) => {
                let t = io_error_display(e);
                let r = cat2("io error: ", t.as_str());
                proof {
                    reveal_strlit("io error: ");
                    assert(r@.take(10) =~= "io error: "@);
                }
                r
            },
        }
    }
}

/// An I/O error is carried as it is.
impl From<std::io::Error> for JkError {
    fn from(e: std::io::Error) -> (r: JkError) {
        JkError::Io(e)
    }
}

impl vstd::std_specs::convert::FromSpecImpl<std::io::Error> for JkError {
    open spec fn obeys_from_spec() -> bool {
        true
    }

    open spec fn from_spec(e: std::io::Error) -> JkError {
        JkError::Io(e)
    }
}

} // verus!
