//! Where external programs are looked for, and how a script is handed to a shell.
use vstd::prelude::*;

use crate::shell_context::spec_resolve_path;
use crate::ast::strings_view;
use crate::text::{
    lemma_split_chars_len, lower_ascii, push_str, split_chars, str_eq, string_from_range,
    to_ascii_lowercase, to_chars,
};

verus! {

/// `value` inside single quotes, each `'` written as `'\''`.
pub open spec fn spec_single_quoted(value: Seq<char>) -> Seq<char> {
    seq!['\''] + quote_body(value) + seq!['\'']
}

/// The characters of `value` with each `'` written as `'\''`.
pub open spec fn quote_body(value: Seq<char>) -> Seq<char>
    decreases value.len(),
{
    if value.len() == 0 {
        seq![]
    } else {
        quote_body(value.drop_last()) + (if value.last() == '\'' { seq!['\'', '\\', '\'', '\''] } else { seq![value.last()] })
    }
}

/// `value` quoted for a POSIX shell, as [`spec_single_quoted`] says.
pub fn escape_shell_single_quoted(value: &str) -> (r: String)
    ensures
        r@ == spec_single_quoted(value@),
{
    let c = to_chars(value);
    let mut out = String::new();
    out.push('\'');
    let mut i: usize = 0;
    assert(c@.take(0) =~= Seq::<char>::empty());
    while i < c.len()
        invariant
            i <= c.len(),
            c@ == value@,
            out@ == seq!['\''] + quote_body(c@.take(i as int)),
        decreases c.len() - i,
    {
        proof {
            assert(c@.take(i + 1).drop_last() =~= c@.take(i as int));
            assert(c@.take(i + 1).last() == c@[i as int]);
        }
        if c[i] == '\'' {
            out.push('\'');
            out.push('\\');
            out.push('\'');
            out.push('\'');
        } else {
            out.push(c[i]);
        }
        i = i + 1;
        assert(out@ =~= seq!['\''] + quote_body(c@.take(i as int)));
    }
    out.push('\'');
    assert(c@.take(c.len() as int) =~= c@);
    assert(out@ =~= spec_single_quoted(value@));
    out
}

/// The path that WSL's bash uses for a Windows path `X:...`: `/mnt/x` followed by the
/// rest with `\` turned into `/`; `None` without a drive letter and colon.
pub open spec fn spec_bash_path(p: Seq<char>) -> Option<Seq<char>> {
    if p.len() < 2 || !(('a' <= p[0] && p[0] <= 'z') || ('A' <= p[0] && p[0] <= 'Z')) || p[1] != ':' {
        None
    } else {
        Some("/mnt/"@ + seq![crate::text::ascii_lower(p[0])] + slashes(p.skip(2)))
    }
}

/// `s` with every `\` turned into `/`.
pub open spec fn slashes(s: Seq<char>) -> Seq<char> {
    Seq::new(s.len(), |i: int| if s[i] == '\\' { '/' } else { s[i] })
}

/// The bash path for a Windows path, as [`spec_bash_path`] says.
pub fn windows_path_to_bash_path(path: &str) -> (r: Option<String>)
    ensures
        match spec_bash_path(path@) {
            Some(b) => r is Some && r->0@ == b,
            None => r is None,
        },
{
    let c = to_chars(path);
    if c.len() < 2 {
        return None;
    }
    let drive = c[0];
    if !(('a' <= drive && drive <= 'z') || ('A' <= drive && drive <= 'Z')) || c[1] != ':' {
        return None;
    }
    let mut out = "/mnt/".to_string();
    out.push(crate::text::to_ascii_lower(drive));
    let ghost prefix = out@;
    let mut i: usize = 2;
    while i < c.len()
        invariant
            2 <= i <= c.len(),
            c@ == path@,
            out@ == prefix + slashes(c@.skip(2)).take(i - 2),
        decreases c.len() - i,
    {
        out.push(if c[i] == '\\' { '/' } else { c[i] });
        i = i + 1;
        assert(out@ =~= prefix + slashes(c@.skip(2)).take(i - 2));
    }
    assert(slashes(c@.skip(2)).take(c.len() - 2) =~= slashes(c@.skip(2)));
    Some(out)
}

/// The arguments that run the script `exe` with `args` through the shell interpreter
/// whose file name is `interpreter`: bash gets `-lc 'exec <script> "$@"' --` and the
/// arguments, with the script's path in bash's form; any other shell gets the script
/// and the arguments.
pub open spec fn spec_shell_command_args(
    interpreter: Seq<char>,
    exe: Seq<char>,
    args: Seq<Seq<char>>,
) -> Result<Seq<Seq<char>>, Seq<char>> {
    let name = lower_ascii(interpreter);
    if name == "bash.exe"@ || name == "bash"@ {
        match spec_bash_path(exe) {
            Some(p) => Ok(seq!["-lc"@, "exec "@ + spec_single_quoted(p) + " \"$@\""@, "--"@] + args),
            None => Err("failed to execute "@ + exe + ": unsupported Windows path"@),
        }
    } else {
        Ok(seq![exe] + args)
    }
}

/// The interpreter's arguments for a script, as [`spec_shell_command_args`] says.
pub fn shell_command_args(interpreter: &str, exe: &str, args: &Vec<String>) -> (r: Result<Vec<String>, String>)
    ensures
        match spec_shell_command_args(interpreter@, exe@, strings_view(args@)) {
            Ok(a) => r is Ok && strings_view(r->Ok_0@) == a,
            Err(e) => r is Err && r->Err_0@ == e,
        },
{
    let name = to_ascii_lowercase(interpreter);
    let mut out: Vec<String> = Vec::new();
    if str_eq(name.as_str(), "bash.exe") || str_eq(name.as_str(), "bash") {
        match windows_path_to_bash_path(exe) {
            Some(p) => {
                out.push("-lc".to_string());
                let mut wrapper = "exec ".to_string();
                push_str(&mut wrapper, escape_shell_single_quoted(p.as_str()).as_str());
                push_str(&mut wrapper, " \"$@\"");
                out.push(wrapper);
                out.push("--".to_string());
            },
            None => {
                let mut m = "failed to execute ".to_string();
                push_str(&mut m, exe);
                push_str(&mut m, ": unsupported Windows path");
                return Err(m);
            },
        }
    } else {
        out.push(exe.to_string());
    }
    let ghost head = strings_view(out@);
    let mut i: usize = 0;
    while i < args.len()
        invariant
            i <= args.len(),
            strings_view(out@) == head + strings_view(args@).take(i as int),
        decreases args.len() - i,
    {
        let ghost before = strings_view(out@);
        out.push(args[i].clone());
        assert(strings_view(out@) =~= before.push(args@[i as int]@));
        i = i + 1;
        assert(strings_view(args@).take(i as int) =~= strings_view(args@).take(i - 1).push(args@[i - 1]@));
    }
    assert(strings_view(args@).take(args.len() as int) =~= strings_view(args@));
    Ok(out)
}

/// The files that `command` may be, in the order they are tried: each directory of
/// `PATH` (a relative one taken from the working directory) joined with the command.
pub open spec fn spec_path_candidates(path_var: Seq<char>, cwd: Seq<char>, command: Seq<char>) -> Seq<Seq<char>> {
    let dirs = split_chars(path_var, ':');
    Seq::new(dirs.len(), |i: int| spec_resolve_path(spec_resolve_path(cwd, dirs[i]), command))
}

fn resolve(base: &String, p: &String) -> (r: String)
    ensures
        r@ == spec_resolve_path(base@, p@),
{
    let pc = to_chars(p.as_str());
    if pc.len() > 0 && pc[0] == '/' {
        return p.clone();
    }
    let bc = to_chars(base.as_str());
    if bc.len() == 0 {
        return p.clone();
    }
    let mut r = base.clone();
    if bc[bc.len() - 1] != '/' {
        r.push('/');
    }
    push_str(&mut r, p.as_str());
    r
}

/// The candidate files for `command`, as [`spec_path_candidates`] says.
pub fn path_candidates(path_var: &str, cwd: &str, command: &str) -> (r: Vec<String>)
    ensures
        crate::ast::strings_view(r@) == spec_path_candidates(path_var@, cwd@, command@),
{
    let c = to_chars(path_var);
    let cwd_s = cwd.to_string();
    let cmd_s = command.to_string();
    let mut dirs: Vec<String> = Vec::new();
    let mut start: usize = 0;
    let mut j: usize = 0;
    assert(c@.take(0) =~= Seq::<char>::empty());
    assert(split_chars(c@.take(0), ':') =~= crate::ast::strings_view(dirs@).push(c@.subrange(0, 0)));
    while j < c.len()
        invariant
            start <= j <= c.len(),
            split_chars(c@.take(j as int), ':') == crate::ast::strings_view(dirs@).push(c@.subrange(start as int, j as int)),
        decreases c.len() - j,
    {
        proof {
            assert(c@.take(j + 1).drop_last() =~= c@.take(j as int));
            lemma_split_chars_len(c@.take(j as int), ':');
        }
        if c[j] == ':' {
            let ghost before = crate::ast::strings_view(dirs@);
            dirs.push(string_from_range(&c, start, j));
            start = j + 1;
            j = j + 1;
            assert(c@.subrange(start as int, j as int) =~= Seq::<char>::empty());
            assert(split_chars(c@.take(j as int), ':') =~= crate::ast::strings_view(dirs@).push(c@.subrange(start as int, j as int)));
        } else {
            assert(c@.subrange(start as int, j + 1) =~= c@.subrange(start as int, j as int).push(c@[j as int]));
            j = j + 1;
            assert(split_chars(c@.take(j as int), ':') =~= crate::ast::strings_view(dirs@).push(c@.subrange(start as int, j as int)));
        }
    }
    dirs.push(string_from_range(&c, start, c.len()));
    assert(c@.take(c.len() as int) =~= c@);
    let ghost dv = crate::ast::strings_view(dirs@);
    assert(dv == split_chars(path_var@, ':'));
    let mut r: Vec<String> = Vec::new();
    let mut i: usize = 0;
    while i < dirs.len()
        invariant
            i <= dirs.len(),
            dv == crate::ast::strings_view(dirs@),
            cwd_s@ == cwd@,
            cmd_s@ == command@,
            r.len() == i,
            forall|k: int| 0 <= k < i ==> #[trigger] r@[k]@ == spec_resolve_path(spec_resolve_path(cwd@, dv[k]), command@),
        decreases dirs.len() - i,
    {
        let dir = resolve(&cwd_s, &dirs[i]);
        r.push(resolve(&dir, &cmd_s));
        i = i + 1;
    }
    assert(crate::ast::strings_view(r@) =~= spec_path_candidates(path_var@, cwd@, command@));
    r
}

} // verus!
