//! What running a parsed command line amounts to: which command, which
//! redirections, in the foreground or not, and the stages of a pipeline.
use vstd::prelude::*;

use crate::ast::{ASTNode, RedirectStream, SpecAst, copy_strings, strings_view};
use crate::registry::CommandRegistry;
use crate::text::push_str;

verus! {

/// A redirection target and whether it appends.
pub type Redirection = Option<(String, bool)>;

/// The value of a redirection.
pub open spec fn redirection_view(r: Redirection) -> Option<(Seq<char>, bool)> {
    match r {
        Some((f, a)) => Some((f@, a)),
        None => None,
    }
}

/// A simple command with the redirections and background flag that wrap it.
pub struct CommandExecution<'a> {
    pub command: &'a ASTNode,
    pub stdout_redirect: Redirection,
    pub stderr_redirect: Redirection,
    pub background: bool,
}

/// The value of a [`CommandExecution`]: command, stdout and stderr targets, background.
pub open spec fn execution_view(e: CommandExecution) -> (SpecAst, Option<(Seq<char>, bool)>, Option<(Seq<char>, bool)>, bool) {
    ((*e.command)@, redirection_view(e.stdout_redirect), redirection_view(e.stderr_redirect), e.background)
}

/// Walks down redirections and background markers to the command. A redirection
/// nearer the command replaces one of the same stream further out; a pipe below is
/// an error.
pub open spec fn spec_flatten(
    n: SpecAst,
    out: Option<(Seq<char>, bool)>,
    err: Option<(Seq<char>, bool)>,
    bg: bool,
) -> Result<(SpecAst, Option<(Seq<char>, bool)>, Option<(Seq<char>, bool)>, bool), Seq<char>>
    decreases n,
{
    match n {
        SpecAst::Redirect { command, file, stream } => match stream {
            RedirectStream::Stdout => spec_flatten(*command, Some((file, false)), err, bg),
            RedirectStream::StdoutAppend => spec_flatten(*command, Some((file, true)), err, bg),
            RedirectStream::Stderr => spec_flatten(*command, out, Some((file, false)), bg),
            RedirectStream::StderrAppend => spec_flatten(*command, out, Some((file, true)), bg),
        },
        SpecAst::Background { command } => spec_flatten(*command, out, err, true),
        SpecAst::Command { .. } => Ok((n, out, err, bg)),
        SpecAst::Pipe { .. } => Err("pipes are parsed but not executed yet"@),
    }
}

fn flatten_from<'a>(node: &'a ASTNode, out: Redirection, err: Redirection, bg: bool) -> (r: Result<CommandExecution<'a>, String>)
    ensures
        match spec_flatten(node@, redirection_view(out), redirection_view(err), bg) {
            Ok(v) => r is Ok && execution_view(r->Ok_0) == v,
            Err(e) => r is Err && r->Err_0@ == e,
        },
    decreases node,
{
    match node {
        ASTNode::Redirect { command, file, stream } => {
            let target = Some((file.clone(), match stream {
                RedirectStream::Stdout => false,
                RedirectStream::Stderr => false,
                _ => true,
            }));
            match stream {
                RedirectStream::Stdout => flatten_from(command, target, err, bg),
                RedirectStream::StdoutAppend => flatten_from(command, target, err, bg),
                RedirectStream::Stderr => flatten_from(command, out, target, bg),
                RedirectStream::StderrAppend => flatten_from(command, out, target, bg),
            }
        },
        ASTNode::Background { command } => flatten_from(command, out, err, true),
        ASTNode::Command { .. } => Ok(CommandExecution {
            command: node,
            stdout_redirect: out,
            stderr_redirect: err,
            background: bg,
        }),
        ASTNode::Pipe { .. } => Err("pipes are parsed but not executed yet".to_string()),
    }
}

/// The command under `node` with its redirections, as [`spec_flatten`] says.
pub fn flatten_command_execution(node: &ASTNode) -> (r: Result<CommandExecution<'_>, String>)
    ensures
        match spec_flatten(node@, None, None, false) {
            Ok(v) => r is Ok && execution_view(r->Ok_0) == v,
            Err(e) => r is Err && r->Err_0@ == e,
        },
{
    flatten_from(node, None, None, false)
}

/// The stages of a pipeline, left to right.
pub open spec fn pipeline_stages(n: SpecAst) -> Seq<SpecAst>
    decreases n,
{
    match n {
        SpecAst::Pipe { left, right } => pipeline_stages(*left).push(*right),
        _ => seq![n],
    }
}

/// The values of a list of trees.
pub open spec fn asts_view(v: Seq<ASTNode>) -> Seq<SpecAst> {
    v.map_values(|n: ASTNode| n@)
}

/// Copies of the stages of a pipeline, as [`pipeline_stages`] says.
pub fn extract_pipeline_commands(node: &ASTNode) -> (r: Vec<ASTNode>)
    ensures
        asts_view(r@) == pipeline_stages(node@),
    decreases node,
{
    match node {
        ASTNode::Pipe { left, right } => {
            let mut commands = extract_pipeline_commands(left);
            let ghost before = asts_view(commands@);
            commands.push(right.duplicate());
            assert(asts_view(commands@) =~= before.push((**right)@));
            commands
        },
        _ => {
            let mut v: Vec<ASTNode> = Vec::new();
            v.push(node.duplicate());
            assert(asts_view(v@) =~= seq![node@]);
            v
        },
    }
}

/// The parts joined with `sep` between them.
pub open spec fn join(parts: Seq<Seq<char>>, sep: Seq<char>) -> Seq<char>
    decreases parts.len(),
{
    if parts.len() == 0 {
        seq![]
    } else if parts.len() == 1 {
        parts[0]
    } else {
        join(parts.drop_last(), sep) + sep + parts.last()
    }
}

/// The command line shown for a background job: the name and arguments joined by spaces.
pub fn build_command_string(name: &str, args: &Vec<String>) -> (r: String)
    ensures
        r@ == join(seq![name@] + strings_view(args@), " "@),
{
    let mut r = name.to_string();
    let mut i: usize = 0;
    let ghost parts = seq![name@] + strings_view(args@);
    assert(parts.take(1) =~= seq![name@]);
    while i < args.len()
        invariant
            i <= args.len(),
            parts == seq![name@] + strings_view(args@),
            r@ == join(parts.take(i + 1), " "@),
        decreases args.len() - i,
    {
        proof {
            assert(parts.take(i + 2).drop_last() =~= parts.take(i + 1));
            assert(parts.take(i + 2).last() == args@[i as int]@);
        }
        push_str(&mut r, " ");
        push_str(&mut r, args[i].as_str());
        i = i + 1;
    }
    assert(parts.take(args.len() + 1) =~= parts);
    r
}

/// What a command line asks the shell to do.
pub enum ExecutionPlan {
    Pipeline { stages: Vec<ASTNode> },
    Builtin { name: String, args: Vec<String>, stdout_redirect: Redirection, stderr_redirect: Redirection },
    External {
        name: String,
        args: Vec<String>,
        stdout_redirect: Redirection,
        stderr_redirect: Redirection,
        background: bool,
        command_string: String,
    },
}

/// The value of an [`ExecutionPlan`].
pub enum SpecPlan {
    Pipeline(Seq<SpecAst>),
    Builtin(Seq<char>, Seq<Seq<char>>, Option<(Seq<char>, bool)>, Option<(Seq<char>, bool)>),
    External(Seq<char>, Seq<Seq<char>>, Option<(Seq<char>, bool)>, Option<(Seq<char>, bool)>, bool, Seq<char>),
}

/// The value of a plan.
pub open spec fn plan_view(p: ExecutionPlan) -> SpecPlan {
    match p {
        ExecutionPlan::Pipeline { stages } => SpecPlan::Pipeline(asts_view(stages@)),
        ExecutionPlan::Builtin { name, args, stdout_redirect, stderr_redirect } => SpecPlan::Builtin(
            name@,
            strings_view(args@),
            redirection_view(stdout_redirect),
            redirection_view(stderr_redirect),
        ),
        ExecutionPlan::External { name, args, stdout_redirect, stderr_redirect, background, command_string } =>
            SpecPlan::External(
                name@,
                strings_view(args@),
                redirection_view(stdout_redirect),
                redirection_view(stderr_redirect),
                background,
                command_string@,
            ),
    }
}

/// A pipe runs as a pipeline; otherwise the command under the redirections runs
/// inside the shell when `is_builtin` says so (never in the background), else as a
/// program, in the background when marked so.
pub open spec fn spec_plan(n: SpecAst, is_builtin: spec_fn(Seq<char>) -> bool) -> Result<SpecPlan, Seq<char>> {
    if n is Pipe {
        Ok(SpecPlan::Pipeline(pipeline_stages(n)))
    } else {
        match spec_flatten(n, None, None, false) {
            Err(e) => Err(e),
            Ok((cmd, out, err, bg)) => match cmd {
                SpecAst::Command { name, args } => {
                    if is_builtin(name) {
                        if bg {
                            Err("background builtins are not supported yet"@)
                        } else {
                            Ok(SpecPlan::Builtin(name, args, out, err))
                        }
                    } else {
                        Ok(SpecPlan::External(name, args, out, err, bg, join(seq![name] + args, " "@)))
                    }
                },
                _ => Err("unsupported command"@),
            },
        }
    }
}

proof fn lemma_flatten_command(n: SpecAst, out: Option<(Seq<char>, bool)>, err: Option<(Seq<char>, bool)>, bg: bool)
    ensures
        spec_flatten(n, out, err, bg) matches Ok((c, _, _, _)) ==> c is Command,
    decreases n,
{
    match n {
        SpecAst::Redirect { command, file, stream } => match stream {
            RedirectStream::Stdout => lemma_flatten_command(*command, Some((file, false)), err, bg),
            RedirectStream::StdoutAppend => lemma_flatten_command(*command, Some((file, true)), err, bg),
            RedirectStream::Stderr => lemma_flatten_command(*command, out, Some((file, false)), bg),
            RedirectStream::StderrAppend => lemma_flatten_command(*command, out, Some((file, true)), bg),
        },
        SpecAst::Background { command } => lemma_flatten_command(*command, out, err, true),
        _ => {},
    }
}

/// The plan for `node`, as [`spec_plan`] says with the registry's built-ins.
pub fn plan_execution(node: &ASTNode, registry: &CommandRegistry) -> (r: Result<ExecutionPlan, String>)
    ensures
        match spec_plan(node@, |name: Seq<char>| name == "type"@ || registry.builtins().dom().contains(name)) {
            Ok(p) => r is Ok && plan_view(r->Ok_0) == p,
            Err(e) => r is Err && r->Err_0@ == e,
        },
{
    if let ASTNode::Pipe { .. } = node {
        return Ok(ExecutionPlan::Pipeline { stages: extract_pipeline_commands(node) });
    }
    proof { lemma_flatten_command(node@, None, None, false); }
    let execution = flatten_command_execution(node)?;
    match execution.command {
        ASTNode::Command { name, args } => {
            if registry.is_builtin_name(name.as_str()) {
                if execution.background {
                    return Err("background builtins are not supported yet".to_string());
                }
                Ok(ExecutionPlan::Builtin {
                    name: name.clone(),
                    args: copy_strings(args),
                    stdout_redirect: execution.stdout_redirect,
                    stderr_redirect: execution.stderr_redirect,
                })
            } else {
                let command_string = build_command_string(name.as_str(), args);
                Ok(ExecutionPlan::External {
                    name: name.clone(),
                    args: copy_strings(args),
                    stdout_redirect: execution.stdout_redirect,
                    stderr_redirect: execution.stderr_redirect,
                    background: execution.background,
                    command_string,
                })
            }
        },
        _ => Err("unsupported command".to_string()),
    }
}

/// One command of a pipeline: name, arguments, whether it runs inside the shell, and
/// its own stdout and stderr redirections.
pub struct PipelineStage {
    pub name: String,
    pub args: Vec<String>,
    pub builtin: bool,
    pub stdout_redirect: Redirection,
    pub stderr_redirect: Redirection,
}

/// The value of a stage.
pub open spec fn stage_view(s: PipelineStage) -> (Seq<char>, Seq<Seq<char>>, bool, Option<(Seq<char>, bool)>, Option<(Seq<char>, bool)>) {
    (s.name@, strings_view(s.args@), s.builtin, redirection_view(s.stdout_redirect), redirection_view(s.stderr_redirect))
}

/// The value of a planned stage or its error.
pub open spec fn stage_result_view(r: Result<PipelineStage, String>) -> Result<(Seq<char>, Seq<Seq<char>>, bool, Option<(Seq<char>, bool)>, Option<(Seq<char>, bool)>), Seq<char>> {
    match r {
        Ok(s) => Ok(stage_view(s)),
        Err(e) => Err(e@),
    }
}

/// How a stage of a pipeline runs. A pipeline of two commands connects built-ins and
/// programs in any combination and leaves redirections aside; a longer one runs
/// programs only, each with its own redirections.
pub open spec fn spec_stage(
    n: SpecAst,
    is_builtin: spec_fn(Seq<char>) -> bool,
    multi: bool,
) -> Result<(Seq<char>, Seq<Seq<char>>, bool, Option<(Seq<char>, bool)>, Option<(Seq<char>, bool)>), Seq<char>> {
    match spec_flatten(n, None, None, false) {
        Err(e) => Err(e),
        Ok((cmd, out, err, _bg)) => match cmd {
            SpecAst::Command { name, args } => {
                if multi && is_builtin(name) {
                    Err("built-in commands in multi-stage pipelines not yet supported"@)
                } else if multi {
                    Ok((name, args, is_builtin(name), out, err))
                } else {
                    Ok((name, args, is_builtin(name), None, None))
                }
            },
            _ => Err("unsupported command in pipeline"@),
        },
    }
}

/// How each stage of a pipeline runs, as [`spec_stage`] says; the stages are run, and
/// their errors reported, in order.
pub fn plan_pipeline(stages: &Vec<ASTNode>, registry: &CommandRegistry) -> (r: Vec<Result<PipelineStage, String>>)
    ensures
        r.len() == stages.len(),
        forall|i: int| 0 <= i < stages.len() ==> stage_result_view(#[trigger] r@[i]) == spec_stage(
            stages@[i]@,
            |name: Seq<char>| name == "type"@ || registry.builtins().dom().contains(name),
            stages.len() >= 3,
        ),
{
    let multi = stages.len() >= 3;
    let mut r: Vec<Result<PipelineStage, String>> = Vec::new();
    let mut i: usize = 0;
    while i < stages.len()
        invariant
            i <= stages.len(),
            multi == (stages.len() >= 3),
            r.len() == i,
            forall|j: int| 0 <= j < i ==> stage_result_view(#[trigger] r@[j]) == spec_stage(
                stages@[j]@,
                |name: Seq<char>| name == "type"@ || registry.builtins().dom().contains(name),
                multi,
            ),
        decreases stages.len() - i,
    {
        let node = &stages[i];
        proof { lemma_flatten_command(node@, None, None, false); }
        let stage = match flatten_command_execution(node) {
            Err(e) => Err(e),
            Ok(execution) => match execution.command {
                ASTNode::Command { name, args } => {
                    let builtin = registry.is_builtin_name(name.as_str());
                    if multi && builtin {
                        Err("built-in commands in multi-stage pipelines not yet supported".to_string())
                    } else if multi {
                        Ok(PipelineStage {
                            name: name.clone(),
                            args: copy_strings(args),
                            builtin,
                            stdout_redirect: execution.stdout_redirect,
                            stderr_redirect: execution.stderr_redirect,
                        })
                    } else {
                        Ok(PipelineStage {
                            name: name.clone(),
                            args: copy_strings(args),
                            builtin,
                            stdout_redirect: None,
                            stderr_redirect: None,
                        })
                    }
                },
                _ => Err("unsupported command in pipeline".to_string()),
            },
        };
        r.push(stage);
        i = i + 1;
    }
    r
}

/// What becomes of a command's failure when its stderr is redirected: the message (with
/// a newline) goes to the file, unless it is empty, and the command fails without a
/// message of its own. Without a redirection the outcome stands.
pub fn divert_failure(outcome: Result<(), String>, stderr_redirected: bool) -> (r: (Option<String>, Result<(), String>))
    ensures
        stderr_redirected && outcome is Err ==> {
            let e = outcome->Err_0@;
            &&& (if e.len() > 0 { r.0 matches Some(t) && t@ == e.push('\n') } else { r.0 is None })
            &&& r.1 matches Err(m) && m@.len() == 0
        },
        !(stderr_redirected && outcome is Err) ==> r.0 is None && r.1 == outcome,
{
    if !stderr_redirected || outcome.is_ok() {
        return (None, outcome);
    }
    match outcome {
        Err(e) => {
            if e.as_str().is_empty() {
                (None, Err(String::new()))
            } else {
                let mut line = e;
                line.push('\n');
                (Some(line), Err(String::new()))
            }
        },
        Ok(()) => (None, Ok(())),
    }
}

} // verus!
