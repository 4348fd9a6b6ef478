use byoshell::ast::{ASTNode, RedirectStream};
use byoshell::autocomplete::{argument_words, command_prefix, complete_argument, ShellAutocomplete};
use byoshell::builtins::{Declare, Exit};
use byoshell::cli::{parse_env_file, parse_server_args, parse_startup_args};
use byoshell::completion_registry::CompletionRegistry;
use byoshell::engine::{begin_line, finish_line, LineStep};
use byoshell::execution::{
    build_command_string, divert_failure, extract_pipeline_commands, flatten_command_execution, plan_execution,
    plan_pipeline, ExecutionPlan,
};
use byoshell::external::{
    escape_shell_single_quoted, path_candidates, shell_command_args, windows_path_to_bash_path,
};
use byoshell::lexer::Lexer;
use byoshell::parser::Parser;
use byoshell::registry::CommandRegistry;
use byoshell::shell_context::ShellContext;

fn strings(v: &[&str]) -> Vec<String> {
    v.iter().map(|s| s.to_string()).collect()
}

fn tree(line: &str) -> ASTNode {
    Parser::parse(Lexer::tokenize(line)).unwrap()
}

fn cmd(name: &str, args: &[&str]) -> ASTNode {
    ASTNode::Command { name: name.to_string(), args: strings(args) }
}

fn context() -> ShellContext {
    ShellContext::new(CompletionRegistry::new(), "/home/u".to_string())
}

#[test]
fn builtin_plan_keeps_redirections() {
    let registry = CommandRegistry::new();
    match plan_execution(&tree("echo hi > out 2>> err"), &registry) {
        Ok(ExecutionPlan::Builtin { name, args, stdout_redirect, stderr_redirect }) => {
            assert_eq!(name, "echo");
            assert_eq!(args, strings(&["hi"]));
            assert_eq!(stdout_redirect, Some(("out".to_string(), false)));
            assert_eq!(stderr_redirect, Some(("err".to_string(), true)));
        }
        _ => panic!("echo is a builtin"),
    }
}

#[test]
fn external_plan_runs_in_background_when_asked() {
    let registry = CommandRegistry::new();
    match plan_execution(&tree("sleep 5 >> log &"), &registry) {
        Ok(ExecutionPlan::External { name, args, stdout_redirect, stderr_redirect, background, command_string }) => {
            assert_eq!(name, "sleep");
            assert_eq!(args, strings(&["5"]));
            assert_eq!(stdout_redirect, Some(("log".to_string(), true)));
            assert_eq!(stderr_redirect, None);
            assert!(background);
            assert_eq!(command_string, "sleep 5");
        }
        _ => panic!("sleep is external"),
    }
    match plan_execution(&tree("echo hi &"), &registry) {
        Err(e) => assert_eq!(e, "background builtins are not supported yet"),
        Ok(_) => panic!("builtins do not run in the background"),
    }
}

#[test]
fn pipeline_plan_lists_stages() {
    let registry = CommandRegistry::new();
    match plan_execution(&tree("cat f | grep x | wc -l"), &registry) {
        Ok(ExecutionPlan::Pipeline { stages }) => {
            assert_eq!(stages, vec![cmd("cat", &["f"]), cmd("grep", &["x"]), cmd("wc", &["-l"])]);
        }
        _ => panic!("a pipe is a pipeline"),
    }
    assert_eq!(extract_pipeline_commands(&cmd("ls", &[])), vec![cmd("ls", &[])]);
}

#[test]
fn flattening_finds_the_innermost_redirection() {
    let node = tree("echo a > first > second 2> e");
    let execution = flatten_command_execution(&node).ok().unwrap();
    assert_eq!(execution.command, &cmd("echo", &["a"]));
    assert_eq!(execution.stdout_redirect, Some(("first".to_string(), false)));
    assert_eq!(execution.stderr_redirect, Some(("e".to_string(), false)));
    assert!(!execution.background);
    let pipe = tree("a | b");
    assert_eq!(flatten_command_execution(&pipe).err(), Some("pipes are parsed but not executed yet".to_string()));
    let _ = RedirectStream::Stdout;
}

#[test]
fn command_string_joins_with_spaces() {
    assert_eq!(build_command_string("ls", &strings(&[])), "ls");
    assert_eq!(build_command_string("ls", &strings(&["-l", "dir"])), "ls -l dir");
}

#[test]
fn a_line_is_parsed_expanded_and_recorded() {
    let mut ctx = context();
    assert_eq!(Declare::run(&strings(&["X=val"]), &mut ctx.variables), Ok(String::new()));
    match begin_line(&mut ctx, "echo $X ${X}s") {
        LineStep::Run(node) => assert_eq!(node, cmd("echo", &["val", "vals"])),
        LineStep::Finished(_) => panic!("the line runs"),
    }
    assert_eq!(ctx.history, strings(&["echo $X ${X}s"]));
    let result = finish_line(&mut ctx, Ok(()), "val vals\n".to_string(), String::new());
    assert_eq!(result.exit_code, 0);
    assert_eq!(result.stdout, "val vals\n");
    assert_eq!(result.current_dir, "/home/u");
}

#[test]
fn blank_and_bad_lines_finish_at_once() {
    let mut ctx = context();
    match begin_line(&mut ctx, "   ") {
        LineStep::Finished(r) => {
            assert_eq!(r.exit_code, 0);
            assert!(r.stderr.is_empty());
        }
        LineStep::Run(_) => panic!("nothing to run"),
    }
    match begin_line(&mut ctx, "a ; b") {
        LineStep::Finished(r) => {
            assert_eq!(r.exit_code, 1);
            assert_eq!(r.stderr, "sequences are not supported yet\n");
        }
        LineStep::Run(_) => panic!("sequences are refused"),
    }
    assert_eq!(ctx.previous_exit_code, 1);
    assert!(ctx.history.is_empty());
}

#[test]
fn failures_and_exit_codes_are_reported() {
    let mut ctx = context();
    let r = finish_line(&mut ctx, Err("boom".to_string()), String::new(), "warn\n".to_string());
    assert_eq!(r.exit_code, 1);
    assert_eq!(r.stderr, "warn\nboom\n");
    let r = finish_line(&mut ctx, Err(String::new()), String::new(), String::new());
    assert_eq!(r.stderr, "");
    assert_eq!(Exit::run(&strings(&["7"]), &mut ctx), Ok(()));
    let r = finish_line(&mut ctx, Ok(()), String::new(), String::new());
    assert_eq!(r.exit_code, 7);
    assert!(r.should_exit);
}

#[test]
fn command_position_is_completed() {
    let completer = ShellAutocomplete::new();
    let executables = strings(&["ecstatic", "grep", "echo"]);
    let none = Vec::new();
    assert_eq!(
        completer.complete("ec", 2, &executables, None, &none),
        (0, vec![("echo".to_string(), "echo".to_string()), ("ecstatic".to_string(), "ecstatic".to_string())])
    );
    assert_eq!(completer.complete("ech", 3, &executables, None, &none), (0, vec![("echo".to_string(), "echo ".to_string())]));
    assert_eq!(completer.complete("ty", 2, &executables, None, &none), (0, vec![("type".to_string(), "type ".to_string())]));
    assert_eq!(completer.complete("zz", 2, &executables, None, &none), (0, Vec::new()));
    assert_eq!(command_prefix("abc", 3), Some("abc".to_string()));
    assert_eq!(command_prefix("a c", 3), None);
}

#[test]
fn arguments_complete_from_the_directory() {
    let completer = ShellAutocomplete::new();
    let entries = strings(&["src", "README.md", "Cargo.toml", "READY"]);
    assert_eq!(
        completer.complete("cat READ", 8, &Vec::new(), None, &entries),
        (4, vec![("README.md".to_string(), "README.md".to_string()), ("READY".to_string(), "READY".to_string())])
    );
    assert_eq!(
        completer.complete("cat READM", 9, &Vec::new(), None, &entries),
        (4, vec![("README.md".to_string(), "README.md ".to_string())])
    );
    assert_eq!(
        complete_argument("ls  ", 4, None, &entries).1.len(),
        4
    );
    assert_eq!(complete_argument("ls  ", 4, None, &entries).0, 4);
    assert_eq!(
        complete_argument("cat é s", 8, None, &entries),
        (7, vec![("src".to_string(), "src ".to_string())])
    );
    assert_eq!(complete_argument("cat é", 5, None, &entries), (0, Vec::new()));
    assert_eq!(completer.complete("ec", 1, &Vec::new(), None, &entries), (0, Vec::new()));
}

#[test]
fn arguments_complete_from_the_script() {
    let entries = strings(&["checkout-file"]);
    let script = Some(strings(&["commit", "checkout", "checkout"]));
    assert_eq!(
        complete_argument("git ch", 6, script, &entries),
        (4, vec![("checkout".to_string(), "checkout ".to_string())])
    );
    assert_eq!(
        argument_words("git commit -m", 13),
        Some((11, "git".to_string(), "-m".to_string(), "commit".to_string()))
    );
    assert_eq!(argument_words("  git ", 6), Some((6, "git".to_string(), String::new(), "git".to_string())));
    assert_eq!(argument_words("x", 2), None);
}

#[test]
fn shell_quoting_and_windows_paths() {
    assert_eq!(escape_shell_single_quoted("plain"), "'plain'");
    assert_eq!(escape_shell_single_quoted("it's"), "'it'\\''s'");
    assert_eq!(escape_shell_single_quoted("$x 'y'"), "'$x '\\''y'\\'''");
    assert_eq!(windows_path_to_bash_path("C:\\Users\\me\\run.sh"), Some("/mnt/c/Users/me/run.sh".to_string()));
    assert_eq!(windows_path_to_bash_path("relative\\x"), None);
    assert_eq!(windows_path_to_bash_path("1:\\x"), None);
    assert_eq!(
        shell_command_args("BASH.EXE", "C:\\it's.sh", &strings(&["a"])),
        Ok(strings(&["-lc", "exec '/mnt/c/it'\\''s.sh' \"$@\"", "--", "a"]))
    );
    assert_eq!(shell_command_args("sh.exe", "C:\\x.sh", &strings(&["a"])), Ok(strings(&["C:\\x.sh", "a"])));
    assert_eq!(
        shell_command_args("bash", "x.sh", &strings(&[])),
        Err("failed to execute x.sh: unsupported Windows path".to_string())
    );
}

#[test]
fn path_candidates_follow_path_order() {
    assert_eq!(
        path_candidates("/bin:/usr/bin/:rel", "/home/u", "ls"),
        strings(&["/bin/ls", "/usr/bin/ls", "/home/u/rel/ls"])
    );
    assert_eq!(path_candidates("", "/w", "x"), strings(&["/w/x"]));
}

#[test]
fn startup_arguments_take_out_the_path() {
    assert_eq!(
        parse_startup_args(&strings(&["--path", "/x", "serve"])),
        Ok((Some("/x".to_string()), strings(&["serve"])))
    );
    assert_eq!(
        parse_startup_args(&strings(&["a", "--path=/y", "--path=/z"])),
        Ok((Some("/z".to_string()), strings(&["a"])))
    );
    assert_eq!(parse_startup_args(&strings(&["b"])), Ok((None, strings(&["b"]))));
    assert_eq!(parse_startup_args(&strings(&["--path"])), Err("missing value for --path".to_string()));
}

#[test]
fn server_arguments_pick_host_and_port() {
    assert_eq!(parse_server_args(&strings(&["serve", "9000"]), None, None), Some(("0.0.0.0".to_string(), 9000)));
    assert_eq!(
        parse_server_args(&strings(&["--serve"]), None, Some("8080".to_string())),
        Some(("0.0.0.0".to_string(), 8080))
    );
    assert_eq!(
        parse_server_args(&strings(&["serve", "x"]), Some("127.0.0.1".to_string()), Some("bad".to_string())),
        Some(("127.0.0.1".to_string(), 7878))
    );
    assert_eq!(parse_server_args(&strings(&["serve", "70000"]), None, None), Some(("0.0.0.0".to_string(), 7878)));
    assert_eq!(parse_server_args(&strings(&["other"]), None, None), None);
    assert_eq!(parse_server_args(&strings(&[]), None, None), None);
}

#[test]
fn env_file_lines_become_assignments() {
    let contents = "# comment\nKEY=value\n  SPACED = \"quoted\" \nnoeq\n=empty\nQ='single'\r\nMIX=\"'both'\"\n\nLAST=x=y";
    assert_eq!(
        parse_env_file(contents),
        vec![
            ("KEY".to_string(), "value".to_string()),
            ("SPACED".to_string(), "quoted".to_string()),
            ("Q".to_string(), "single".to_string()),
            ("MIX".to_string(), "both".to_string()),
            ("LAST".to_string(), "x=y".to_string()),
        ]
    );
    assert_eq!(parse_env_file(""), Vec::<(String, String)>::new());
}

#[test]
fn two_stage_pipelines_mix_builtins_and_programs() {
    let registry = CommandRegistry::new();
    let planned = plan_pipeline(&vec![tree("echo a > f"), tree("grep x 2> e")], &registry);
    assert_eq!(planned.len(), 2);
    let first = planned[0].as_ref().ok().unwrap();
    assert_eq!(first.name, "echo");
    assert_eq!(first.args, strings(&["a"]));
    assert!(first.builtin);
    assert_eq!(first.stdout_redirect, None);
    let second = planned[1].as_ref().ok().unwrap();
    assert!(!second.builtin);
    assert_eq!(second.stderr_redirect, None);
}

#[test]
fn longer_pipelines_run_programs_with_their_redirections() {
    let registry = CommandRegistry::new();
    let planned = plan_pipeline(&vec![tree("grep f"), tree("pwd"), tree("wc -l > n")], &registry);
    assert_eq!(planned.len(), 3);
    assert!(planned[0].is_ok());
    assert_eq!(
        planned[1].as_ref().err(),
        Some(&"built-in commands in multi-stage pipelines not yet supported".to_string())
    );
    let last = planned[2].as_ref().ok().unwrap();
    assert_eq!(last.stdout_redirect, Some(("n".to_string(), false)));
    assert_eq!(last.args, strings(&["-l"]));
}

#[test]
fn redirected_failures_go_to_the_file() {
    assert_eq!(divert_failure(Err("bad".to_string()), true), (Some("bad\n".to_string()), Err(String::new())));
    assert_eq!(divert_failure(Err(String::new()), true), (None, Err(String::new())));
    assert_eq!(divert_failure(Err("bad".to_string()), false), (None, Err("bad".to_string())));
    assert_eq!(divert_failure(Ok(()), true), (None, Ok(())));
}
