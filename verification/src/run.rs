//! What a command line asks of the runner once the configurations are read:
//! the configurations combined, the command path resolved, and either a
//! listing, the rendered commands of a dry run, or a run of them.
use vstd::prelude::*;
use crate::config::{
    CmdBody, Config, LeafCommand, LeafModel, Origin, cmd_model, cmd_texts, config_model, leaf_model,
    merge, merge_model, tag_all_origins, tag_entries,
};
use crate::error::{JkError, JkResult};
use crate::output::{ListingSection, Out, collect, listing_text, opt_str, row_widths};
use crate::render::{
    PlaceholderShape, aggregate, aggregate_shape, fault_text, fold, folded, max_index, render, scan,
    scan_all, substitute, validate_args, lemma_max_index_bounds,
};
use crate::folding::lemma_folded_index_bound;
use crate::resolver::{Resolution, ResolveResult, resolve, walk};
use crate::shell::Shell;
use crate::text::{decimal, join, owned, str_views, views};

verus! {

/// Why the commands of a leaf cannot be rendered for the given arguments.
pub enum CmdFault {
    Schema(Seq<char>),
    Missing(Seq<char>),
    Extra(nat),
}

/// The error an exec result carries for a fault.
pub open spec fn fault_is(e: JkError, f: CmdFault) -> bool {
    match f {
        CmdFault::Schema(m) => e matches JkError::ConfigSchema(x) && x@ == m,
        CmdFault::Missing(p) => e matches JkError::MissingArg(x) && x@ == p,
        CmdFault::Extra(n) => e matches JkError::ExtraArgs(x) && x == n,
    }
}

/// The placeholder of the first argument that is missing.
pub open spec fn missing_text(n_args: nat) -> Seq<char> {
    "#{"@ + decimal(n_args + 1) + "}"@
}

/// The argument count against a command's shape: every index needs an
/// argument, and extra arguments need a `#{@}`.
pub open spec fn arg_check(n_args: nat, sh: PlaceholderShape) -> Option<CmdFault> {
    if n_args < sh.max_n {
        Some(CmdFault::Missing(missing_text(n_args)))
    } else if n_args > sh.max_n && !sh.has_at {
        Some(CmdFault::Extra((n_args - sh.max_n) as nat))
    } else {
        None
    }
}

/// One command text folded onto one line and its placeholders filled.
pub open spec fn rendered_item(t: Seq<char>, args: Seq<Seq<char>>, sh: Shell) -> Result<Seq<char>, CmdFault> {
    match scan(folded(t)) {
        Err(f) => Err(CmdFault::Schema(fault_text(f))),
        Ok(ps) => Ok(render(ps, args, sh, max_index(ps))),
    }
}

/// Every command text rendered, in order; the first that fails decides.
pub open spec fn rendered_all(ts: Seq<Seq<char>>, args: Seq<Seq<char>>, sh: Shell) -> Result<
    Seq<Seq<char>>,
    CmdFault,
>
    decreases ts.len(),
{
    if ts.len() == 0 {
        Ok(seq![])
    } else {
        match rendered_all(ts.drop_last(), args, sh) {
            Err(f) => Err(f),
            Ok(acc) => match rendered_item(ts.last(), args, sh) {
                Err(f) => Err(f),
                Ok(s) => Ok(acc.push(s)),
            },
        }
    }
}

/// The commands of a leaf for the given arguments: the placeholders of all
/// its commands checked together, the arguments counted against them, then
/// each command folded and filled in.
pub open spec fn render_plan(ts: Seq<Seq<char>>, args: Seq<Seq<char>>, sh: Shell) -> Result<
    Seq<Seq<char>>,
    CmdFault,
> {
    match aggregate(ts) {
        Err(m) => Err(CmdFault::Schema(m)),
        Ok(shape) => match arg_check(args.len(), shape) {
            Some(f) => Err(f),
            None => rendered_all(ts, args, sh),
        },
    }
}

/// The result of an exec function that renders commands.
pub open spec fn rendered_as(r: JkResult<Vec<String>>, p: Result<Seq<Seq<char>>, CmdFault>) -> bool {
    match p {
        Ok(cs) => r matches Ok(v) && views(v@) == cs,
        Err(f) => r matches Err(e) && fault_is(e, f),
    }
}

/// One command text folded and filled in.
fn render_item(t: &str, args: &[String], shell: Shell) -> (r: JkResult<String>)
    requires
        scan(folded(t@)) matches Ok(ps) ==> max_index(ps) <= args.len(),
    ensures
        match rendered_item(t@, views(args@), shell) {
            Ok(s) => r matches Ok(x) && x@ == s,
            Err(f) => r matches Err(e) && fault_is(e, f),
        },
{
    let f = fold(t);
    substitute(f.as_str(), args, shell)
}

/// The commands of a leaf rendered for the given arguments.
pub fn render_commands(leaf: &LeafCommand, args: &[String]) -> (r: JkResult<Vec<String>>)
    ensures
        rendered_as(r, render_plan(cmd_texts(cmd_model(leaf.cmd)), views(args@), leaf.shell)),
{
    let raw = leaf.cmd_strings();
    let ghost ts = views(raw@);
    let mut refs: Vec<&str> = Vec::new();
    let mut i: usize = 0;
    while i < raw.len()
        invariant
            i <= raw.len(),
            str_views(refs@) == ts.take(i as int),
            ts == views(raw@),
        decreases raw.len() - i,
    {
        let ghost pre = refs@;
        let r = raw[i].as_str();
        assert(r@ == ts[i as int]);
        refs.push(r);
        assert(refs@ =~= pre.push(r));
        assert(str_views(refs@) =~= str_views(pre).push(r@));
        assert(ts.take(i + 1) =~= ts.take(i as int).push(ts[i as int]));
        i += 1;
    }
    assert(ts.take(i as int) =~= ts);
    let shape = match aggregate_shape(refs.as_slice()) {
        Ok(s) => s,
        Err(e) => return Err(e),
    };
    match validate_args(args, shape) {
        Ok(()) => {},
        Err(e) => return Err(e),
    }
    proof {
        lemma_max_index_bounds(scan_all(ts)->Ok_0);
    }
    let mut out: Vec<String> = Vec::new();
    let mut k: usize = 0;
    while k < raw.len()
        invariant
            k <= raw.len(),
            ts == views(raw@),
            ts == cmd_texts(cmd_model(leaf.cmd)),
            render_plan(ts, views(args@), leaf.shell) == rendered_all(ts, views(args@), leaf.shell),
            scan_all(ts) is Ok,
            max_index(scan_all(ts)->Ok_0) <= args.len(),
            rendered_all(ts.take(k as int), views(args@), leaf.shell) matches Ok(acc) && views(out@) == acc,
        decreases raw.len() - k,
    {
        proof {
            let t = ts.take(k + 1);
            assert(t.drop_last() =~= ts.take(k as int));
            assert(t.last() == ts[k as int]);
        }
        let t = raw[k].as_str();
        assert(t@ == ts[k as int]);
        proof {
            lemma_folded_index_bound(ts, k as int);
        }
        let s = match render_item(t, args, leaf.shell) {
            Ok(s) => s,
            Err(e) => {
                proof {
                    assert(rendered_all(ts.take(k + 1), views(args@), leaf.shell) is Err);
                    lemma_rendered_all_err(ts, views(args@), leaf.shell, (k + 1) as int);
                }
                return Err(e);
            },
        };
        let ghost pre = out@;
        let ghost sv = s@;
        out.push(s);
        k += 1;
        assert(out@ =~= pre.push(out@.last()));
        assert(views(out@) =~= views(pre).push(sv));
    }
    assert(ts.take(k as int) =~= ts);
    Ok(out)
}

/// A failure among the first `k` commands is the failure of the whole.
pub proof fn lemma_rendered_all_err(ts: Seq<Seq<char>>, args: Seq<Seq<char>>, sh: Shell, k: int)
    requires
        0 <= k <= ts.len(),
        rendered_all(ts.take(k), args, sh) is Err,
    ensures
        rendered_all(ts, args, sh) == rendered_all(ts.take(k), args, sh),
    decreases ts.len() - k,
{
    if k < ts.len() {
        assert(ts.take(k + 1).drop_last() =~= ts.take(k));
        lemma_rendered_all_err(ts, args, sh, k + 1);
    } else {
        assert(ts.take(k) =~= ts);
    }
}

/// What the runner does once the command path is resolved.
pub enum Action {
    /// Print these lines on stdout: a listing, or the commands of a dry run.
    Print(Vec<String>),
    /// Run these commands in turn with this shell, printing under `out`;
    /// `name` is the command path, joined by spaces, that status lines show.
    Execute { cmds: Vec<String>, shell: Shell, out: Out, name: String },
}

/// An action as text.
pub enum ActionModel {
    Print(Seq<Seq<char>>),
    Execute(Seq<Seq<char>>, Shell, Out, Seq<char>),
}

/// Why a command line is refused once the configuration is read.
pub enum PlanFault {
    Unknown(Seq<char>),
    Cmd(CmdFault),
}

/// The output settings with a leaf's own `quiet` and `no-color` added.
pub open spec fn leaf_out(out: Out, l: LeafModel) -> Out {
    Out {
        quiet: out.quiet || l.quiet,
        color: out.color && !l.no_color,
        stdout_color: out.stdout_color && !l.no_color,
    }
}

/// What a command line (its positional tokens and `++dry-run`) asks of a
/// configuration: a namespace is listed, a leaf's commands are rendered
/// with the remaining tokens as arguments, then printed or run.
pub open spec fn action_plan(
    toks: Seq<Seq<char>>,
    dry_run: bool,
    cfg: Seq<(Seq<char>, crate::config::NodeModel)>,
    out: Out,
    header_global: Option<Seq<char>>,
    header_local: Option<Seq<char>>,
) -> Result<ActionModel, PlanFault> {
    match walk(cfg, toks, 0) {
        Err(m) => Err(PlanFault::Unknown(m)),
        Ok(Resolution::NamespaceAt(n, es)) => {
            let g = collect(es, ListingSection::Global, 0);
            let l = collect(es, ListingSection::Local, 0);
            Ok(
                ActionModel::Print(
                    listing_text(
                        n == 0,
                        out.quiet,
                        out.stdout_color,
                        header_global,
                        header_local,
                        g,
                        row_widths(g),
                        l,
                        row_widths(l),
                    ),
                ),
            )
        },
        Ok(Resolution::LeafAt(n, l)) => match render_plan(cmd_texts(l.cmd), toks.skip(n as int), l.shell) {
            Err(f) => Err(PlanFault::Cmd(f)),
            Ok(cs) => if dry_run {
                Ok(ActionModel::Print(cs))
            } else {
                Ok(ActionModel::Execute(cs, l.shell, leaf_out(out, l), join(toks.take(n as int), seq![' '])))
            },
        },
    }
}

/// The result of an exec function that decides an action.
pub open spec fn planned_as(r: JkResult<Action>, p: Result<ActionModel, PlanFault>) -> bool {
    match p {
        Err(PlanFault::Unknown(m)) => r matches Err(JkError::UnknownCommand(x)) && x@ == m,
        Err(PlanFault::Cmd(f)) => r matches Err(e) && fault_is(e, f),
        Ok(ActionModel::Print(ls)) => r matches Ok(Action::Print(v)) && views(v@) == ls,
        Ok(ActionModel::Execute(cs, sh, o, nm)) => r matches Ok(Action::Execute { cmds, shell, out, name })
            && views(cmds@) == cs && shell == sh && out == o && name@ == nm,
    }
}

/// Decides what a command line does with a configuration: the path is
/// resolved; a namespace gives its listing, a leaf its rendered commands,
/// printed for a dry run and otherwise run under the output settings with
/// the leaf's own `quiet` and `no-color` added.
pub fn decide(
    path: &[String],
    dry_run: bool,
    cfg: &Config,
    out: &Out,
    header_global: Option<&str>,
    header_local: Option<&str>,
) -> (r: JkResult<Action>)
    ensures
        planned_as(
            r,
            action_plan(
                views(path@),
                dry_run,
                config_model(*cfg),
                *out,
                opt_str(header_global),
                opt_str(header_local),
            ),
        ),
{
    proof {
        crate::resolver::lemma_walk_bounds(config_model(*cfg), views(path@), 0);
    }
    match resolve(cfg, path) {
        Err(e) => Err(e),
        Ok(ResolveResult::Namespace { path: p, children }) => {
            let lines = out.listing_lines(p.as_slice(), children, header_global, header_local);
            assert(views(p@).len() == p@.len());
            let r = Ok(Action::Print(lines));
            assert(planned_as(r, action_plan(views(path@), dry_run, config_model(*cfg), *out, opt_str(header_global), opt_str(header_local))));
            r
        },
        Ok(ResolveResult::Leaf(res)) => {
            let cmds = match render_commands(res.leaf, res.args.as_slice()) {
                Ok(c) => c,
                Err(e) => return Err(e),
            };
            assert(leaf_model(*res.leaf).cmd == cmd_model(res.leaf.cmd));
            if dry_run {
                let r = Ok(Action::Print(cmds));
                assert(planned_as(r, action_plan(views(path@), dry_run, config_model(*cfg), *out, opt_str(header_global), opt_str(header_local))));
                r
            } else {
                let o = out.with_flags(res.leaf.quiet, res.leaf.no_color);
                let name = crate::resolver::join_prefix(res.path.as_slice(), res.path.len());
                assert(views(res.path@).take(res.path@.len() as int) =~= views(res.path@));
                Ok(Action::Execute { cmds, shell: res.leaf.shell, out: o, name })
            }
        },
    }
}

/// The configuration the runner works with: the local one merged over the
/// global one, whose leaves are all marked global; either alone; an error
/// naming where it looked when there is neither.
pub fn combine_configs(
    local: Option<Config>,
    global: Option<Config>,
    cwd: &str,
    global_path: Option<&str>,
) -> (r: JkResult<Config>)
    ensures
        match (local, global) {
            (None, None) => r matches Err(JkError::ConfigNotFound { cwd: c, global_path: g }) && c@
                == cwd@ && crate::text::opt_view(g) == opt_str(global_path),
            (Some(l), None) => r matches Ok(c) && config_model(c) == config_model(l),
            (None, Some(g)) => r matches Ok(c) && config_model(c) == tag_entries(
                config_model(g),
                Origin::GlobalOnly,
            ),
            (Some(l), Some(g)) => match merge_model(
                tag_entries(config_model(g), Origin::GlobalOnly),
                config_model(l),
                seq![],
            ) {
                Ok(m) => r matches Ok(c) && config_model(c) == m,
                Err(e) => r matches Err(JkError::ConfigSchema(x)) && x@ == e,
            },
        },
{
    match (local, global) {
        (None, None) => {
            let gp = match global_path {
                Some(p) => Some(owned(p)),
                None => None,
            };
            Err(JkError::ConfigNotFound { cwd: owned(cwd), global_path: gp })
        },
        (Some(l), None) => Ok(l),
        (None, Some(g)) => {
            let mut g = g;
            tag_all_origins(&mut g, Origin::GlobalOnly);
            Ok(g)
        },
        (Some(l), Some(g)) => {
            let mut g = g;
            tag_all_origins(&mut g, Origin::GlobalOnly);
            merge(g, l)
        },
    }
}

/// An error met while loading the global configuration: parse and schema
/// errors say which file they come from; other errors are kept as they are.
pub fn global_load_error(path: &str, e: JkError) -> (r: JkError)
    ensures
        match e {
            JkError::ConfigParse(m) => r matches JkError::ConfigParse(x) && x@ == "in global config "@
                + path@ + ": "@ + m@,
            JkError::ConfigSchema(m) => r matches JkError::ConfigSchema(x) && x@ == "in global config "@
                + path@ + ": "@ + m@,
            _ => r == e,
        },
{
    match e {
        JkError::ConfigParse(m) => {
            let mut x = owned("in global config ");
            x.push_str(path);
            x.push_str(": ");
            x.push_str(m.as_str());
            JkError::ConfigParse(x)
        },
        JkError::ConfigSchema(m) => {
            let mut x = owned("in global config ");
            x.push_str(path);
            x.push_str(": ");
            x.push_str(m.as_str());
            JkError::ConfigSchema(x)
        },
        other => other,
    }
}

/// The next move of a run of a command sequence.
#[derive(Debug, Clone, Copy, PartialEq, Eq, Structural)]
pub enum SequenceStep {
    /// Announce step `i` (counted from 0) and run it.
    Start(usize),
    /// Step `step` exited with the non-zero `exit`: report it; the run ends
    /// with that exit code and later steps never start.
    Fail { step: usize, exit: i32 },
    /// Every step exited 0: report completion; the run ends with 0.
    Complete,
}

/// The decision of a sequence run of `total` steps, before the first step
/// (`None`) or after step `i` exited with `e` (`Some((i, e))`).
pub open spec fn next_step(total: nat, finished: Option<(nat, int)>) -> SequenceStep {
    match finished {
        None => if total == 0 {
            SequenceStep::Complete
        } else {
            SequenceStep::Start(0)
        },
        Some((i, e)) => if e != 0 {
            SequenceStep::Fail { step: i as usize, exit: e as i32 }
        } else if i + 1 < total {
            SequenceStep::Start((i + 1) as usize)
        } else {
            SequenceStep::Complete
        },
    }
}

/// One decision of a run of `total` commands in turn: start the first step,
/// start the next one after a step exited 0, stop at the first non-zero exit,
/// complete after the last.
pub fn run_sequence(total: usize, finished: Option<(usize, i32)>) -> (r: SequenceStep)
    requires
        finished matches Some((i, _)) ==> i < total,
    ensures
        r == next_step(
            total as nat,
            match finished {
                Some((i, e)) => Some((i as nat, e as int)),
                None => None,
            },
        ),
{
    match finished {
        None => if total == 0 {
            SequenceStep::Complete
        } else {
            SequenceStep::Start(0)
        },
        Some((i, e)) => if e != 0 {
            SequenceStep::Fail { step: i, exit: e }
        } else if i + 1 < total {
            SequenceStep::Start(i + 1)
        } else {
            SequenceStep::Complete
        },
    }
}

/// The first step at or after `i` (and before `total`) whose exit code is
/// not 0.
pub open spec fn first_failure(total: nat, exits: Seq<i32>, i: nat) -> Option<nat>
    decreases total - i,
{
    if i >= total {
        None
    } else if exits[i as int] != 0 {
        Some(i)
    } else {
        first_failure(total, exits, i + 1)
    }
}

/// A run driven by `next_step` from the start of step `i`, where step `j`
/// exits with `exits[j]`: how many steps start, and the exit code of the run.
pub open spec fn drive(total: nat, exits: Seq<i32>, i: nat) -> (nat, int)
    decreases total - i,
{
    if i >= total {
        (i, 0)
    } else {
        match next_step(total, Some((i, exits[i as int] as int))) {
            SequenceStep::Start(j) => if j == i + 1 {
                drive(total, exits, i + 1)
            } else {
                (i + 1, 0)
            },
            SequenceStep::Fail { step, exit } => (i + 1, exit as int),
            SequenceStep::Complete => (i + 1, 0),
        }
    }
}

/// A whole run of `total` steps driven by `next_step`.
pub open spec fn sequence_run(total: nat, exits: Seq<i32>) -> (nat, int) {
    match next_step(total, None) {
        SequenceStep::Start(_) => drive(total, exits, 0),
        _ => (0, 0),
    }
}

proof fn lemma_drive(total: nat, exits: Seq<i32>, i: nat)
    requires
        exits.len() >= total,
        total <= usize::MAX,
    ensures
        drive(total, exits, i) == match first_failure(total, exits, i) {
            Some(f) => (f + 1, exits[f as int] as int),
            None => (if i >= total { i } else { total }, 0int),
        },
    decreases total - i,
{
    if i < total {
        lemma_drive(total, exits, i + 1);
    }
}

/// A sequence runs its steps in order and stops at the first that fails:
/// when step `j` exits with `exits[j]`, the steps up to and including the
/// first non-zero exit start, later ones never do, and the run exits with
/// that step's code; when every step exits 0, all steps start and the run
/// exits 0.
pub proof fn law_sequence_stops_at_first_failure(total: nat, exits: Seq<i32>)
    requires
        exits.len() == total,
        total <= usize::MAX,
    ensures
        sequence_run(total, exits) == match first_failure(total, exits, 0) {
            Some(f) => (f + 1, exits[f as int] as int),
            None => (total, 0int),
        },
{
    lemma_drive(total, exits, 0);
}

/// The exit code of a finished child: its own code, or, when a signal
/// ended it (there is no code then), `128 + signal` as shells report it
/// (SIGINT gives 130, SIGKILL 137); -1 when neither is known.
pub fn exit_code_from_status(code: Option<i32>, signal: Option<i32>) -> (r: i32)
    requires
        signal matches Some(s) ==> s <= i32::MAX - 128,
    ensures
        r == match code {
            Some(c) => c as int,
            None => match signal {
                Some(s) => 128 + s,
                None => -1,
            },
        },
{
    match code {
        Some(c) => c,
        None => match signal {
            Some(s) => 128 + s,
            None => -1,
        },
    }
}

/// Output flags only add up: when a command line runs a command, its
/// status lines are quiet whenever the runner was asked to be quiet
/// (`++quiet` or the environment) or the command sets `quiet`, and never
/// otherwise; they are coloured only when the runner would colour them and
/// the command does not set `no-color`. The command run is the leaf its
/// path names, with that leaf's shell, shown under that path.
pub proof fn law_run_flags_only_add(
    toks: Seq<Seq<char>>,
    dry_run: bool,
    cfg: Seq<(Seq<char>, crate::config::NodeModel)>,
    out: Out,
    header_global: Option<Seq<char>>,
    header_local: Option<Seq<char>>,
    n: int,
    l: crate::config::LeafModel,
)
    ensures
        action_plan(toks, dry_run, cfg, out, header_global, header_local) matches Ok(ActionModel::Execute(cs, sh, o, nm))
            ==> {
            &&& out.quiet ==> o.quiet
            &&& o.color ==> out.color
            &&& o.stdout_color ==> out.stdout_color
            &&& !dry_run
        },
        1 <= n <= toks.len() && crate::config::lookup_model(cfg, toks.take(n)) == Some(crate::config::NodeModel::Leaf(l))
            ==> (action_plan(toks, dry_run, cfg, out, header_global, header_local) matches Ok(ActionModel::Execute(cs, sh, o, nm))
            ==> {
            &&& o.quiet == (out.quiet || l.quiet)
            &&& o.color == (out.color && !l.no_color)
            &&& o.stdout_color == (out.stdout_color && !l.no_color)
            &&& sh == l.shell
            &&& nm == join(toks.take(n), seq![' '])
        }),
{
    crate::resolver::law_resolve_finds_every_command(cfg, toks, n);
}

/// A dry run prints exactly the commands a run would execute, and
/// otherwise (a listing, an error) does what the run does.
pub proof fn law_dry_run_prints_what_would_run(
    toks: Seq<Seq<char>>,
    cfg: Seq<(Seq<char>, crate::config::NodeModel)>,
    out: Out,
    header_global: Option<Seq<char>>,
    header_local: Option<Seq<char>>,
)
    ensures
        action_plan(toks, false, cfg, out, header_global, header_local) matches Ok(ActionModel::Execute(cs, sh, o, nm))
            ==> action_plan(toks, true, cfg, out, header_global, header_local) == Ok::<ActionModel, PlanFault>(
            ActionModel::Print(cs),
        ),
        !(action_plan(toks, false, cfg, out, header_global, header_local) matches Ok(ActionModel::Execute(_, _, _, _)))
            ==> action_plan(toks, true, cfg, out, header_global, header_local) == action_plan(
            toks,
            false,
            cfg,
            out,
            header_global,
            header_local,
        ),
{
}

} // verus!
