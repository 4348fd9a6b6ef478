use byoshell::builtins::{
    is_valid_identifier, parse_ls_args, reap_and_print_done_jobs, unescape_echo_sequences, Cat, Cd,
    Complete, Echo, Exit, History, HistoryRequest, Jobs, Ls, LsEntry, Mkdir, Pwd, Rm, Touch,
    TypeCommand,
};
use byoshell::completion_registry::CompletionRegistry;
use byoshell::registry::{Builtin, CommandRegistry};
use byoshell::shell_context::{BackgroundJobStatus, ShellContext};

fn strings(v: &[&str]) -> Vec<String> {
    v.iter().map(|s| s.to_string()).collect()
}

fn context() -> ShellContext {
    ShellContext::new(CompletionRegistry::new(), "/home/u".to_string())
}

#[test]
fn echo_joins_arguments() {
    assert_eq!(Echo::output(&strings(&["Hello,", "world!"])), "Hello, world!\n");
    assert_eq!(Echo::output(&strings(&[])), "\n");
    assert_eq!(Echo::output(&strings(&["-n", "a", "b"])), "a b");
    assert_eq!(Echo::output(&strings(&["-e", "a\\tb\\n"])), "a\tb\n\n");
    assert_eq!(Echo::output(&strings(&["-n", "-e", "x\\\\y"])), "x\\y");
    assert_eq!(Echo::output(&strings(&["a", "-n"])), "a -n\n");
}

#[test]
fn echo_escapes_are_decoded() {
    assert_eq!(unescape_echo_sequences("a\\nb\\tc\\rd\\\\e\\0f"), "a\nb\tc\rd\\e\0f");
    assert_eq!(unescape_echo_sequences("\\q"), "\\q");
    assert_eq!(unescape_echo_sequences("end\\"), "end\\");
}

#[test]
fn identifiers_are_checked() {
    assert!(is_valid_identifier("_x1"));
    assert!(is_valid_identifier("Name"));
    assert!(is_valid_identifier("é"));
    assert!(!is_valid_identifier(""));
    assert!(!is_valid_identifier("1a"));
    assert!(!is_valid_identifier("a-b"));
}

#[test]
fn exit_takes_an_optional_code() {
    let mut ctx = context();
    assert_eq!(Exit::run(&strings(&["x"]), &mut ctx), Err("exit: x: numeric argument required".to_string()));
    assert!(!ctx.should_exit);
    assert_eq!(Exit::run(&strings(&["-3"]), &mut ctx), Ok(()));
    assert!(ctx.should_exit);
    assert_eq!(ctx.requested_exit_code, -3);
    let mut ctx = context();
    assert_eq!(Exit::run(&strings(&[]), &mut ctx), Ok(()));
    assert_eq!(ctx.requested_exit_code, 0);
}

#[test]
fn pwd_prints_the_directory() {
    assert_eq!(Pwd::output(&context()), "/home/u\n");
}

#[test]
fn history_lists_numbered_entries() {
    let mut ctx = context();
    History::add_lines(&mut ctx, &strings(&["echo a", "", "ls"]));
    assert_eq!(ctx.history, strings(&["echo a", "ls"]));
    match History::run(&strings(&[]), &ctx) {
        Ok(HistoryRequest::Show(text)) => assert_eq!(text, "    1  echo a\n    2  ls\n"),
        _ => panic!("history lists"),
    }
    match History::run(&strings(&["1"]), &ctx) {
        Ok(HistoryRequest::Show(text)) => assert_eq!(text, "    2  ls\n"),
        _ => panic!("history n lists the last n"),
    }
    match History::run(&strings(&["10"]), &ctx) {
        Ok(HistoryRequest::Show(text)) => assert_eq!(text, "    1  echo a\n    2  ls\n"),
        _ => panic!("history n lists at most everything"),
    }
}

#[test]
fn history_file_requests_and_errors() {
    let ctx = context();
    assert!(matches!(History::run(&strings(&["-r", "f"]), &ctx), Ok(HistoryRequest::Read(p)) if p == "f"));
    assert!(matches!(History::run(&strings(&["-w", "f"]), &ctx), Ok(HistoryRequest::Write(p)) if p == "f"));
    assert!(matches!(History::run(&strings(&["-a", "f"]), &ctx), Ok(HistoryRequest::Append(p)) if p == "f"));
    assert!(matches!(History::run(&strings(&["x"]), &ctx), Err(e) if e == "history: x: numeric argument required"));
    assert!(matches!(
        History::run(&strings(&["-x", "f"]), &ctx),
        Err(e) if e == "history: usage: history [n] | -r file | -w file | -a file"
    ));
}

#[test]
fn unsaved_history_is_taken_once() {
    let mut ctx = context();
    History::add_lines(&mut ctx, &strings(&["a", "b"]));
    assert_eq!(History::take_unsaved(&mut ctx), strings(&["a", "b"]));
    assert_eq!(History::take_unsaved(&mut ctx), Vec::<String>::new());
    History::add_lines(&mut ctx, &strings(&["c"]));
    assert_eq!(History::take_unsaved(&mut ctx), strings(&["c"]));
}

#[test]
fn jobs_report_and_forget_finished_jobs() {
    let mut ctx = context();
    assert_eq!(ctx.add_background_job(100, "sleep 10".to_string()), 1);
    assert_eq!(ctx.add_background_job(101, "sleep 1".to_string()), 2);
    let text = Jobs::run(&mut ctx, &vec![false, true]);
    let expected = format!(
        "[1]-  {:24} sleep 10 &\n[2]+  {:24} sleep 1\n",
        "Running", "Done"
    );
    assert_eq!(text, expected);
    assert_eq!(ctx.background_jobs.len(), 1);
    assert_eq!(ctx.background_jobs[0].job_id, 1);
    assert_eq!(ctx.add_background_job(102, "sleep 2".to_string()), 2);
    let done = reap_and_print_done_jobs(&mut ctx, &vec![true, false]);
    assert_eq!(done, format!("[1]-  {:24} sleep 10\n", "Done"));
    assert_eq!(ctx.background_jobs.len(), 1);
    assert_eq!(ctx.background_jobs[0].pid, 102);
}

#[test]
fn job_numbers_follow_the_largest() {
    let mut ctx = context();
    assert_eq!(ctx.next_job_id(), 1);
    ctx.add_background_job(1, "a".to_string());
    ctx.add_background_job(2, "b".to_string());
    ctx.add_background_job(3, "c".to_string());
    let statuses = ctx.collect_job_statuses(&vec![false, true, false]);
    assert_eq!(statuses.len(), 3);
    assert!(matches!(&statuses[1], BackgroundJobStatus::Done(2, c) if c == "b"));
    assert!(matches!(&statuses[2], BackgroundJobStatus::Running(3, c) if c == "c"));
    assert_eq!(statuses[0].job_id(), 1);
    assert_eq!(ctx.next_job_id(), 4);
}

#[test]
fn complete_registers_prints_and_removes() {
    let mut ctx = context();
    let register = strings(&["-C", "comp.sh", "git"]);
    assert_eq!(Complete::script_to_check(&register, &ctx), Some("/home/u/comp.sh".to_string()));
    assert_eq!(Complete::run(&register, &mut ctx, true), Ok(String::new()));
    assert_eq!(
        Complete::run(&strings(&["-p", "git"]), &mut ctx, false),
        Ok("complete -C '/home/u/comp.sh' git\n".to_string())
    );
    assert_eq!(Complete::run(&strings(&["-C", "/b.sh", "apt"]), &mut ctx, true), Ok(String::new()));
    assert_eq!(
        Complete::run(&strings(&[]), &mut ctx, false),
        Ok("complete -C '/b.sh' apt\ncomplete -C '/home/u/comp.sh' git\n".to_string())
    );
    assert_eq!(Complete::run(&strings(&["-r", "git"]), &mut ctx, false), Ok(String::new()));
    assert!(ctx.completions.is_disabled("git"));
    assert_eq!(
        Complete::run(&strings(&["-p", "git"]), &mut ctx, false),
        Err("complete: git: no completion specification".to_string())
    );
    assert_eq!(Complete::run(&register, &mut ctx, true), Ok(String::new()));
    assert!(!ctx.completions.is_disabled("git"));
}

#[test]
fn complete_reports_missing_script_and_usage() {
    let mut ctx = context();
    assert_eq!(
        Complete::run(&strings(&["-C", "x", "git"]), &mut ctx, false),
        Err("complete: /home/u/x: no such completion script".to_string())
    );
    assert_eq!(ctx.completions.get("git"), None);
    assert_eq!(
        Complete::run(&strings(&["-x"]), &mut ctx, false),
        Err("usage: complete [-C script command] | [-p command] | [-r command] | [no args]".to_string())
    );
    assert_eq!(Complete::script_to_check(&strings(&["-p", "git"]), &ctx), None);
}

#[test]
fn completion_registry_lists_in_order() {
    let mut reg = CompletionRegistry::new();
    reg.register("zz".to_string(), "/z".to_string());
    reg.register("aa".to_string(), "/a".to_string());
    reg.register("zz".to_string(), "/z2".to_string());
    assert_eq!(
        reg.entries(),
        vec![("aa".to_string(), "/a".to_string()), ("zz".to_string(), "/z2".to_string())]
    );
    reg.remove("aa");
    assert_eq!(reg.get("aa"), None);
    assert!(reg.is_disabled("aa"));
    assert_eq!(reg.get("zz"), Some("/z2".to_string()));
}

#[test]
fn cd_targets_home_previous_and_relative() {
    let mut ctx = context();
    assert_eq!(Cd::target(&strings(&[]), &ctx, None), Err("cd: missing argument".to_string()));
    assert_eq!(Cd::target(&strings(&["~"]), &ctx, None), Err("cd: HOME not set".to_string()));
    assert_eq!(Cd::target(&strings(&["~"]), &ctx, Some("/root".to_string())), Ok("/root".to_string()));
    assert_eq!(Cd::target(&strings(&["-"]), &ctx, None), Err("cd: OLDPWD not set".to_string()));
    assert_eq!(Cd::target(&strings(&["sub"]), &ctx, None), Ok("/home/u/sub".to_string()));
    assert_eq!(Cd::target(&strings(&["/etc"]), &ctx, None), Ok("/etc".to_string()));
    Cd::change_to(&mut ctx, "/tmp".to_string());
    assert_eq!(ctx.current_dir, "/tmp");
    assert_eq!(Cd::target(&strings(&["-"]), &ctx, None), Ok("/home/u".to_string()));
    assert_eq!(Cd::missing_message("nope"), "cd: nope: No such file or directory");
}

#[test]
fn paths_resolve_against_the_working_directory() {
    let mut ctx = context();
    assert_eq!(ctx.resolve_path("a/b"), "/home/u/a/b");
    assert_eq!(ctx.resolve_path("/x"), "/x");
    ctx.set_current_dir("/".to_string());
    assert_eq!(ctx.resolve_path("x"), "/x");
}

#[test]
fn file_commands_resolve_their_arguments() {
    let ctx = context();
    assert_eq!(Cat::targets(&strings(&[]), &ctx), Err("cat: missing argument".to_string()));
    assert_eq!(
        Cat::targets(&strings(&["a", "/b"]), &ctx),
        Ok(vec![("a".to_string(), "/home/u/a".to_string()), ("/b".to_string(), "/b".to_string())])
    );
    assert_eq!(Cat::error_message("a", "gone"), "cat: a: gone");
    assert_eq!(Touch::targets(&strings(&[]), &ctx), Err("touch: missing file operand".to_string()));
    assert_eq!(Touch::targets(&strings(&["t"]), &ctx), Ok(vec![("t".to_string(), "/home/u/t".to_string())]));
    assert_eq!(Touch::error_message("t", "denied"), "touch: cannot touch 't': denied");
}

#[test]
fn mkdir_and_rm_read_options() {
    assert_eq!(Mkdir::parse_args(&strings(&[])), Err("mkdir: missing argument".to_string()));
    assert_eq!(Mkdir::parse_args(&strings(&["-p"])), Err("mkdir: missing operand".to_string()));
    assert_eq!(Mkdir::parse_args(&strings(&["a", "--parents", "b"])), Ok((true, strings(&["a", "b"]))));
    assert_eq!(Mkdir::parse_args(&strings(&["-x", "a"])), Err("mkdir: unsupported option '-x'".to_string()));
    assert_eq!(Mkdir::error_message("d", "exists"), "mkdir: cannot create directory 'd': exists");
    assert_eq!(Rm::parse_args(&strings(&[])).err(), Some("rm: missing argument".to_string()));
    assert_eq!(Rm::parse_args(&strings(&["-f"])).err(), Some("rm: missing operand".to_string()));
    assert_eq!(Rm::parse_args(&strings(&["-z", "a"])).err(), Some("rm: unsupported option '-z'".to_string()));
    let (options, paths) = Rm::parse_args(&strings(&["-R", "a", "--force", "b"])).ok().unwrap();
    assert!(options.recursive);
    assert!(options.force);
    assert_eq!(paths, strings(&["a", "b"]));
    assert_eq!(Rm::error_message("a", "busy"), "rm: cannot remove 'a': busy");
    assert_eq!(Rm::removes_tree("a", true, &options), Ok(true));
    assert_eq!(Rm::removes_tree("a", false, &options), Ok(false));
    assert!(Rm::ignores_failure(&options, false));
    assert!(!Rm::ignores_failure(&options, true));
    let (plain, _) = Rm::parse_args(&strings(&["d"])).ok().unwrap();
    assert_eq!(Rm::removes_tree("d", true, &plain), Err("rm: cannot remove 'd': Is a directory".to_string()));
    assert!(!Rm::ignores_failure(&plain, false));
}

#[test]
fn ls_reads_flags_and_renders_sorted_entries() {
    let (options, paths) = parse_ls_args(strings(&["-la", "dir"])).ok().unwrap();
    assert!(options.show_all);
    assert!(options.long_format);
    assert_eq!(paths, strings(&["dir"]));
    assert_eq!(parse_ls_args(strings(&["-q"])).err(), Some("ls: unsupported option '-q'".to_string()));
    let (plain, none) = parse_ls_args(strings(&["-"])).ok().unwrap();
    assert!(!plain.show_all);
    assert_eq!(none, strings(&["-"]));
    let entries = vec![
        LsEntry { name: "b".to_string(), meta: Some((false, 12)) },
        LsEntry { name: ".hidden".to_string(), meta: None },
        LsEntry { name: "a".to_string(), meta: Some((true, 4096)) },
    ];
    let short = parse_ls_args(strings(&[])).ok().unwrap().0;
    assert_eq!(Ls::render_directory(&entries, &short), "a\nb\n");
    let all = parse_ls_args(strings(&["-a"])).ok().unwrap().0;
    assert_eq!(Ls::render_directory(&entries, &all), ".hidden\na\nb\n");
    let long = parse_ls_args(strings(&["-l"])).ok().unwrap().0;
    assert_eq!(Ls::render_directory(&entries, &long), format!("- {:>8} b\nd {:>8} a\n", 12, 4096));
    assert_eq!(Ls::render_file(&"f".to_string(), Some((false, 3)), &long), format!("- {:>8} f\n", 3));
    assert_eq!(Ls::missing_message("zz"), "ls: cannot access 'zz': No such file or directory");
    assert_eq!(Ls::access_error("/d", "denied"), "ls: cannot access '/d': denied");
    let ctx = context();
    assert_eq!(Ls::targets(&strings(&[]), &ctx), strings(&["/home/u"]));
    assert_eq!(Ls::targets(&strings(&["x", "/y"]), &ctx), strings(&["/home/u/x", "/y"]));
}

#[test]
fn type_reports_builtins_and_programs() {
    let registry = CommandRegistry::new();
    assert_eq!(TypeCommand::target(&strings(&[])), Err("type: missing argument".to_string()));
    assert_eq!(TypeCommand::target(&strings(&["ls", "x"])), Ok("ls".to_string()));
    assert_eq!(TypeCommand::output("echo", &registry, None), "echo is a shell builtin\n");
    assert_eq!(TypeCommand::output("type", &registry, None), "type is a shell builtin\n");
    assert_eq!(
        TypeCommand::output("grep", &registry, Some("/usr/bin/grep".to_string())),
        "grep is /usr/bin/grep\n"
    );
    assert_eq!(TypeCommand::output("nonexistent", &registry, None), "nonexistent: not found\n");
}

#[test]
fn registry_knows_every_builtin() {
    let mut registry = CommandRegistry::new();
    for name in [
        "cat", "cd", "complete", "declare", "echo", "exit", "history", "jobs", "ls", "mkdir", "pwd",
        "rm", "touch",
    ] {
        assert!(registry.is_builtin_name(name), "{name}");
    }
    assert!(registry.is_builtin_name("type"));
    assert!(!registry.is_builtin_name("grep"));
    assert_eq!(registry.get_builtin("echo"), Some(Builtin::Echo));
    assert_eq!(registry.get_builtin("type"), None);
    registry.register_builtin("say".to_string(), Builtin::Echo);
    assert_eq!(registry.get_builtin("say"), Some(Builtin::Echo));
}

#[test]
fn history_file_text_reads_back() {
    let entries = strings(&["echo a", "ls -l", "x"]);
    let text = History::file_text(&entries);
    assert_eq!(text, "echo a\nls -l\nx\n");
    assert_eq!(History::file_lines(&text), entries);
    assert_eq!(History::file_lines("a\r\nb\n\nc"), strings(&["a", "b", "", "c"]));
    assert_eq!(History::file_lines("tail\r"), strings(&["tail\r"]));
    assert_eq!(History::file_lines(""), Vec::<String>::new());
    assert_eq!(History::file_lines("\n"), strings(&[""]));
}

#[test]
fn registry_follows_the_last_change_of_each_command() {
    let mut reg = CompletionRegistry::new();
    reg.register("git".to_string(), "/g1".to_string());
    reg.remove("git");
    reg.register("git".to_string(), "/g2".to_string());
    reg.remove("apt");
    reg.register("ls".to_string(), "/l".to_string());
    reg.remove("ls");
    assert_eq!(reg.get("git"), Some("/g2".to_string()));
    assert!(!reg.is_disabled("git"));
    assert!(reg.is_disabled("apt"));
    assert_eq!(reg.get("ls"), None);
    assert!(reg.is_disabled("ls"));
    assert!(!reg.is_disabled("never"));
}
