//! The logic of the built-in commands. Each command's effect on the session and the
//! text it prints are computed here; reading and writing files is left to the caller.
use vstd::prelude::*;

use crate::ast::strings_view;
use crate::execution::join;
use crate::shell_context::{
    BackgroundJobStatus, ShellContext, Variables, spec_resolve_path, statuses_view, vars_view,
};
use crate::text::{
    decimal, is_alphabetic, is_alphanumeric, pad_left, pad_right, parse_i32, push_chars, push_decimal,
    push_padded_left, push_padded_right, push_str, signed_value, str_eq, to_chars, alphabetic,
    alphanumeric, lemma_split_chars_len, split_chars, string_from_range,
};

verus! {

/// `echo [-e] [-n] args...`
pub struct Echo;

/// `declare NAME=VALUE` and `declare -p NAME`
pub struct Declare;

/// `exit [code]`
pub struct Exit;

/// `pwd`
pub struct Pwd;

/// `history [n]`, `history -r|-w|-a file`
pub struct History;

/// `jobs`
pub struct Jobs;

// ---------------------------------------------------------------- echo

/// The number of leading `-e` / `-n` options.
pub open spec fn echo_flag_count(args: Seq<Seq<char>>) -> nat
    decreases args.len(),
{
    if args.len() > 0 && (args[0] == "-e"@ || args[0] == "-n"@) {
        1 + echo_flag_count(args.drop_first())
    } else {
        0
    }
}

/// `echo -e` escapes: `\n`, `\t`, `\r`, `\\`, `\0`; any other backslash stays.
pub open spec fn unescape_from(s: Seq<char>, i: int) -> Seq<char>
    decreases s.len() - i,
{
    if i < 0 || i >= s.len() {
        seq![]
    } else if s[i] != '\\' {
        seq![s[i]] + unescape_from(s, i + 1)
    } else if i + 1 >= s.len() {
        seq!['\\']
    } else {
        let e = s[i + 1];
        let decoded = if e == 'n' { seq!['\n'] }
            else if e == 't' { seq!['\t'] }
            else if e == 'r' { seq!['\r'] }
            else if e == '\\' { seq!['\\'] }
            else if e == '0' { seq!['\0'] }
            else { seq!['\\', e] };
        decoded + unescape_from(s, i + 2)
    }
}

/// What `echo` prints: the arguments after its options, joined by spaces, with
/// escapes decoded under `-e`, and a newline unless `-n`.
pub open spec fn spec_echo(args: Seq<Seq<char>>) -> Seq<char> {
    let k = echo_flag_count(args) as int;
    let flags = args.take(k);
    let text = join(args.skip(k), " "@);
    let body = if flags.contains("-e"@) { unescape_from(text, 0) } else { text };
    if flags.contains("-n"@) { body } else { body.push('\n') }
}

/// `value` with the `echo -e` escapes decoded, as [`unescape_from`] says.
pub fn unescape_echo_sequences(value: &str) -> (r: String)
    ensures
        r@ == unescape_from(value@, 0),
{
    let c = to_chars(value);
    let n = c.len();
    let mut out = String::new();
    let mut i: usize = 0;
    while i < n
        invariant
            n == c.len(),
            c@ == value@,
            i <= n + 1,
            out@ + unescape_from(c@, i as int) == unescape_from(value@, 0),
        decreases n + 1 - i,
    {
        let ghost before = out@;
        let ghost i0 = i as int;
        let ch = c[i];
        if ch != '\\' {
            out.push(ch);
            i = i + 1;
        } else if i + 1 >= n {
            out.push('\\');
            i = i + 1;
        } else {
            let e = c[i + 1];
            if e == 'n' {
                out.push('\n');
            } else if e == 't' {
                out.push('\t');
            } else if e == 'r' {
                out.push('\r');
            } else if e == '\\' {
                out.push('\\');
            } else if e == '0' {
                out.push('\0');
            } else {
                out.push('\\');
                out.push(e);
            }
            i = i + 2;
        }
        assert(out@ + unescape_from(c@, i as int) =~= before + unescape_from(c@, i0));
    }
    assert(unescape_from(c@, i as int) =~= Seq::<char>::empty());
    assert(out@ =~= out@ + unescape_from(c@, i as int));
    out
}

pub proof fn lemma_push_contains<T>(s: Seq<T>, x: T, y: T)
    ensures
        s.push(x).contains(y) == (s.contains(y) || x == y),
{
    if s.contains(y) {
        let j = choose|j: int| 0 <= j < s.len() && #[trigger] s[j] == y;
        assert(s.push(x)[j] == y);
    }
    if x == y {
        assert(s.push(x)[s.len() as int] == y);
    }
    if s.push(x).contains(y) && x != y {
        let j = choose|j: int| 0 <= j < s.push(x).len() && #[trigger] s.push(x)[j] == y;
        assert(s[j] == y);
    }
}

/// The strings `args[start..]` joined with single spaces.
pub fn join_args(args: &Vec<String>, start: usize) -> (r: String)
    requires
        start <= args.len(),
    ensures
        r@ == join(strings_view(args@).skip(start as int), " "@),
{
    let ghost a = strings_view(args@);
    let mut text = String::new();
    let mut i = start;
    let ghost rest = a.skip(start as int);
    assert(rest.take(0) =~= Seq::<Seq<char>>::empty());
    while i < args.len()
        invariant
            start <= i <= args.len(),
            a == strings_view(args@),
            rest == a.skip(start as int),
            text@ == join(rest.take(i - start), " "@),
        decreases args.len() - i,
    {
        proof {
            assert(rest.take(i + 1 - start).drop_last() =~= rest.take(i - start));
            assert(rest.take(i + 1 - start).last() == args@[i as int]@);
        }
        if i > start {
            push_str(&mut text, " ");
        } else {
            assert(rest.take(1) =~= seq![args@[i as int]@]);
        }
        push_str(&mut text, args[i].as_str());
        i = i + 1;
    }
    assert(rest.take(args.len() - start) =~= rest);
    text
}

fn echo_flags(args: &Vec<String>) -> (r: (usize, bool, bool))
    ensures
        r.0 == echo_flag_count(strings_view(args@)),
        r.0 <= args.len(),
        r.1 == strings_view(args@).take(r.0 as int).contains("-e"@),
        r.2 == !strings_view(args@).take(r.0 as int).contains("-n"@),
{
    let ghost a = strings_view(args@);
    let mut interpret_escapes = false;
    let mut trailing_newline = true;
    let mut start: usize = 0;
    proof {
        assert(a.skip(0) =~= a);
        reveal_strlit("-e");
        reveal_strlit("-n");
        assert("-e"@ != "-n"@) by {
            assert("-e"@[1] != "-n"@[1]);
        }
    }
    loop
        invariant
            start <= args.len(),
            a == strings_view(args@),
            "-e"@ != "-n"@,
            echo_flag_count(a) == start + echo_flag_count(a.skip(start as int)),
            interpret_escapes == a.take(start as int).contains("-e"@),
            trailing_newline == !a.take(start as int).contains("-n"@),
        ensures
            start <= args.len(),
            echo_flag_count(a) == start + echo_flag_count(a.skip(start as int)),
            echo_flag_count(a.skip(start as int)) == 0,
            interpret_escapes == a.take(start as int).contains("-e"@),
            trailing_newline == !a.take(start as int).contains("-n"@),
        decreases args.len() - start,
    {
        if start >= args.len() {
            assert(a.skip(start as int).len() == 0);
            break;
        }
        let is_e = str_eq(args[start].as_str(), "-e");
        let is_n = str_eq(args[start].as_str(), "-n");
        assert(a[start as int] == args@[start as int]@);
        assert(a.skip(start as int)[0] == a[start as int]);
        if !is_e && !is_n {
            break;
        }
        if is_e {
            interpret_escapes = true;
        } else {
            trailing_newline = false;
        }
        proof {
            assert(a.skip(start as int).drop_first() =~= a.skip(start + 1));
            assert(a.take(start + 1) =~= a.take(start as int).push(a[start as int]));
            lemma_push_contains(a.take(start as int), a[start as int], "-e"@);
            lemma_push_contains(a.take(start as int), a[start as int], "-n"@);
        }
        start = start + 1;
    }
    (start, interpret_escapes, trailing_newline)
}

impl Echo {
    /// The text that `echo args` prints, as [`spec_echo`] says.
    pub fn output(args: &Vec<String>) -> (r: String)
        ensures
            r@ == spec_echo(strings_view(args@)),
    {
        let (start, interpret_escapes, trailing_newline) = echo_flags(args);
        let text = join_args(args, start);
        let mut out = if interpret_escapes { unescape_echo_sequences(text.as_str()) } else { text };
        if trailing_newline {
            out.push('\n');
        }
        out
    }
}

// ---------------------------------------------------------------- declare

/// A shell identifier: a letter or `_`, then letters, digits or `_`.
pub open spec fn spec_valid_identifier(name: Seq<char>) -> bool {
    &&& name.len() > 0
    &&& alphabetic(name[0]) || name[0] == '_'
    &&& forall|i: int| 1 <= i < name.len() ==> alphanumeric(#[trigger] name[i]) || name[i] == '_'
}

/// Whether `name` is a shell identifier, as [`spec_valid_identifier`] says.
pub fn is_valid_identifier(name: &str) -> (r: bool)
    ensures
        r == spec_valid_identifier(name@),
{
    let c = to_chars(name);
    if c.len() == 0 {
        return false;
    }
    if !is_alphabetic(c[0]) && c[0] != '_' {
        return false;
    }
    let mut i: usize = 1;
    while i < c.len()
        invariant
            1 <= i <= c.len(),
            c@ == name@,
            forall|j: int| 1 <= j < i ==> alphanumeric(#[trigger] c@[j]) || c@[j] == '_',
        decreases c.len() - i,
    {
        if !is_alphanumeric(c[i]) && c[i] != '_' {
            return false;
        }
        i = i + 1;
    }
    true
}

/// The message for a bad `declare` assignment.
pub open spec fn not_identifier_message(a: Seq<char>) -> Seq<char> {
    "declare: `"@ + a + "': not a valid identifier"@
}

/// What `declare args` prints or reports, and the variables afterwards.
pub open spec fn spec_declare(args: Seq<Seq<char>>, vars: Map<Seq<char>, Seq<char>>) -> (Result<Seq<char>, Seq<char>>, Map<Seq<char>, Seq<char>>) {
    if args.len() == 0 {
        (Ok(seq![]), vars)
    } else if args[0] == "-p"@ {
        if args.len() < 2 {
            (Err("declare -p: variable name required"@), vars)
        } else if vars.dom().contains(args[1]) {
            (Ok("declare -- "@ + args[1] + "=\""@ + vars[args[1]] + "\"\n"@), vars)
        } else {
            (Err("declare: "@ + args[1] + ": not found"@), vars)
        }
    } else {
        match find_from_eq(args[0]) {
            Some(p) => {
                let name = args[0].take(p);
                if spec_valid_identifier(name) {
                    (Ok(seq![]), vars.insert(name, args[0].skip(p + 1)))
                } else {
                    (Err(not_identifier_message(args[0])), vars)
                }
            },
            None => (Err(not_identifier_message(args[0])), vars),
        }
    }
}

/// The position of the first `=`.
pub open spec fn find_from_eq(s: Seq<char>) -> Option<int> {
    crate::text::find_from(s, seq!['='], 0)
}

impl Declare {
    /// Runs `declare args` on the variables: the printed text, or the error, as
    /// [`spec_declare`] says.
    pub fn run(args: &Vec<String>, variables: &mut Variables) -> (r: Result<String, String>)
        ensures
            ({
                let (res, vars) = spec_declare(strings_view(args@), vars_view(old(variables)));
                &&& vars_view(final(variables)) == vars
                &&& match res {
                    Ok(t) => r is Ok && r->Ok_0@ == t,
                    Err(e) => r is Err && r->Err_0@ == e,
                }
            }),
    {
        let ghost a = strings_view(args@);
        if args.len() == 0 {
            return Ok(String::new());
        }
        assert(a[0] == args@[0]@);
        if str_eq(args[0].as_str(), "-p") {
            if args.len() < 2 {
                return Err("declare -p: variable name required".to_string());
            }
            assert(a[1] == args@[1]@);
            let var_name = &args[1];
            match variables.get(var_name.as_str()) {
                Some(value) => {
                    let mut out = "declare -- ".to_string();
                    push_str(&mut out, var_name.as_str());
                    push_str(&mut out, "=\"");
                    push_str(&mut out, value.as_str());
                    push_str(&mut out, "\"\n");
                    return Ok(out);
                },
                None => {
                    let mut out = "declare: ".to_string();
                    push_str(&mut out, var_name.as_str());
                    push_str(&mut out, ": not found");
                    return Err(out);
                },
            }
        }
        let assignment = &args[0];
        let c = to_chars(assignment.as_str());
        let mut eq: Vec<char> = Vec::new();
        eq.push('=');
        assert(eq@ =~= seq!['=']);
        proof { lemma_find_bounds(c@, seq!['='], 0); }
        let mut message = "declare: `".to_string();
        push_str(&mut message, assignment.as_str());
        push_str(&mut message, "': not a valid identifier");
        match crate::text::find_chars(&c, &eq, 0) {
            Some(pos) => {
                let name = crate::text::string_from_range(&c, 0, pos);
                let value = crate::text::string_from_range(&c, pos + 1, c.len());
                if !is_valid_identifier(name.as_str()) {
                    return Err(message);
                }
                assert(c@.take(pos as int) =~= name@);
                assert(c@.skip(pos + 1) =~= value@);
                variables.insert(name, value);
                assert(vars_view(variables) =~= vars_view(old(variables)).insert(c@.take(pos as int), c@.skip(pos + 1)));
                Ok(String::new())
            },
            None => Err(message),
        }
    }
}

proof fn lemma_find_bounds(s: Seq<char>, p: Seq<char>, i: int)
    ensures
        crate::text::find_from(s, p, i) matches Some(j) ==> i <= j && j + p.len() <= s.len(),
    decreases s.len() + 1 - i,
{
    if !(i < 0 || i + p.len() > s.len()) && !crate::text::occurs_at(s, p, i) {
        lemma_find_bounds(s, p, i + 1);
    }
}

// ---------------------------------------------------------------- exit

/// The exit code that `exit args` asks for, or the error.
pub open spec fn spec_exit_code(args: Seq<Seq<char>>) -> Result<i32, Seq<char>> {
    if args.len() == 0 {
        Ok(0)
    } else {
        match signed_value(args[0]) {
            Some(v) => if i32::MIN <= v <= i32::MAX {
                Ok(v as i32)
            } else {
                Err("exit: "@ + args[0] + ": numeric argument required"@)
            },
            None => Err("exit: "@ + args[0] + ": numeric argument required"@),
        }
    }
}

impl Exit {
    /// Marks the session for exit with the code given, as [`spec_exit_code`] says;
    /// the session is unchanged on an error.
    pub fn run(args: &Vec<String>, context: &mut ShellContext) -> (r: Result<(), String>)
        ensures
            match spec_exit_code(strings_view(args@)) {
                Ok(code) => r is Ok && final(context).should_exit && final(context).requested_exit_code == code,
                Err(e) => r is Err && r->Err_0@ == e && final(context).should_exit == old(context).should_exit
                    && final(context).requested_exit_code == old(context).requested_exit_code,
            },
            *final(context) == (ShellContext { should_exit: final(context).should_exit, requested_exit_code: final(context).requested_exit_code, ..*old(context) }),
    {
        let exit_code = if args.len() == 0 {
            0
        } else {
            assert(strings_view(args@)[0] == args@[0]@);
            match parse_i32(args[0].as_str()) {
                Some(v) => v,
                None => {
                    let mut m = "exit: ".to_string();
                    push_str(&mut m, args[0].as_str());
                    push_str(&mut m, ": numeric argument required");
                    return Err(m);
                },
            }
        };
        context.should_exit = true;
        context.requested_exit_code = exit_code;
        Ok(())
    }
}

// ---------------------------------------------------------------- pwd

impl Pwd {
    /// What `pwd` prints: the working directory and a newline.
    pub fn output(context: &ShellContext) -> (r: String)
        ensures
            r@ == context.current_dir@.push('\n'),
    {
        let mut r = context.current_dir.clone();
        r.push('\n');
        r
    }
}

// ---------------------------------------------------------------- history

/// One line of `history`: the 1-based number right-aligned in five columns.
pub open spec fn history_line(number: nat, command: Seq<char>) -> Seq<char> {
    pad_left(decimal(number), 5) + "  "@ + command + seq!['\n']
}

/// The lines for entries `from..to` of the history.
pub open spec fn history_text(h: Seq<Seq<char>>, from: int, to: int) -> Seq<char>
    decreases to - from,
{
    if to <= from || to > h.len() || from < 0 {
        seq![]
    } else {
        history_text(h, from, to - 1) + history_line(to as nat, h[to - 1])
    }
}

/// What `history` asks for.
pub enum HistoryRequest {
    /// Print this text.
    Show(String),
    /// Add the lines of this file to the history.
    Read(String),
    /// Write the whole history to this file.
    Write(String),
    /// Append the entries not yet saved to this file.
    Append(String),
}

/// The request of `history args`: `history` lists everything, `history n` the last
/// `n` entries, `-r`/`-w`/`-a file` read, write or append the history file.
pub open spec fn spec_history(args: Seq<Seq<char>>, h: Seq<Seq<char>>) -> Result<(nat, Seq<char>), Seq<char>> {
    if args.len() == 0 {
        Ok((0, history_text(h, 0, h.len() as int)))
    } else if args.len() == 1 {
        match crate::text::unsigned_value(args[0]) {
            Some(n) => if n <= usize::MAX {
                Ok((0, history_text(h, if n >= h.len() { 0 } else { h.len() - n }, h.len() as int)))
            } else {
                Err("history: "@ + args[0] + ": numeric argument required"@)
            },
            None => Err("history: "@ + args[0] + ": numeric argument required"@),
        }
    } else if args.len() == 2 && args[0] == "-r"@ {
        Ok((1, args[1]))
    } else if args.len() == 2 && args[0] == "-w"@ {
        Ok((2, args[1]))
    } else if args.len() == 2 && args[0] == "-a"@ {
        Ok((3, args[1]))
    } else {
        Err("history: usage: history [n] | -r file | -w file | -a file"@)
    }
}

/// The value of a request: its kind (0 show, 1 read, 2 write, 3 append) and its text.
pub open spec fn history_request_view(r: HistoryRequest) -> (nat, Seq<char>) {
    match r {
        HistoryRequest::Show(t) => (0, t@),
        HistoryRequest::Read(p) => (1, p@),
        HistoryRequest::Write(p) => (2, p@),
        HistoryRequest::Append(p) => (3, p@),
    }
}

fn history_lines(h: &Vec<String>, from: usize) -> (r: String)
    requires
        from <= h.len(),
    ensures
        r@ == history_text(strings_view(h@), from as int, h.len() as int),
{
    let ghost hv = strings_view(h@);
    let mut out = String::new();
    let mut i = from;
    while i < h.len()
        invariant
            from <= i <= h.len(),
            hv == strings_view(h@),
            out@ == history_text(hv, from as int, i as int),
        decreases h.len() - i,
    {
        let mut number = String::new();
        push_decimal(&mut number, (i + 1) as u64);
        push_padded_left(&mut out, number.as_str(), 5);
        push_str(&mut out, "  ");
        push_str(&mut out, h[i].as_str());
        out.push('\n');
        assert(hv[i as int] == h@[i as int]@);
        i = i + 1;
        assert(out@ =~= history_text(hv, from as int, i as int));
    }
    out
}

impl History {
    /// The request of `history args`, as [`spec_history`] says.
    pub fn run(args: &Vec<String>, context: &ShellContext) -> (r: Result<HistoryRequest, String>)
        ensures
            match spec_history(strings_view(args@), strings_view(context.history@)) {
                Ok(v) => r is Ok && history_request_view(r->Ok_0) == v,
                Err(e) => r is Err && r->Err_0@ == e,
            },
    {
        let ghost a = strings_view(args@);
        let usage = "history: usage: history [n] | -r file | -w file | -a file";
        if args.len() == 0 {
            return Ok(HistoryRequest::Show(history_lines(&context.history, 0)));
        }
        assert(a[0] == args@[0]@);
        if args.len() == 1 {
            match crate::text::parse_u64(args[0].as_str()) {
                Some(n) => {
                    if n > usize::MAX as u64 {
                        let mut m = "history: ".to_string();
                        push_str(&mut m, args[0].as_str());
                        push_str(&mut m, ": numeric argument required");
                        return Err(m);
                    }
                    let n = n as usize;
                    let len = context.history.len();
                    let from = if n >= len { 0 } else { len - n };
                    return Ok(HistoryRequest::Show(history_lines(&context.history, from)));
                },
                None => {
                    let mut m = "history: ".to_string();
                    push_str(&mut m, args[0].as_str());
                    push_str(&mut m, ": numeric argument required");
                    return Err(m);
                },
            }
        }
        if args.len() == 2 {
            assert(a[1] == args@[1]@);
            if str_eq(args[0].as_str(), "-r") {
                return Ok(HistoryRequest::Read(args[1].clone()));
            }
            if str_eq(args[0].as_str(), "-w") {
                return Ok(HistoryRequest::Write(args[1].clone()));
            }
            if str_eq(args[0].as_str(), "-a") {
                return Ok(HistoryRequest::Append(args[1].clone()));
            }
        }
        Err(usage.to_string())
    }

    /// Adds the non-empty lines read from a history file.
    pub fn add_lines(context: &mut ShellContext, lines: &Vec<String>)
        ensures
            strings_view(final(context).history@)
                == strings_view(old(context).history@) + nonempty(strings_view(lines@)),
            *final(context) == (ShellContext { history: final(context).history, ..*old(context) }),
    {
        let mut i: usize = 0;
        let ghost l = strings_view(lines@);
        assert(l.take(0) =~= Seq::<Seq<char>>::empty());
        assert(strings_view(context.history@) =~= strings_view(old(context).history@) + nonempty(l.take(0)));
        while i < lines.len()
            invariant
                i <= lines.len(),
                l == strings_view(lines@),
                strings_view(context.history@) == strings_view(old(context).history@) + nonempty(l.take(i as int)),
                *context == (ShellContext { history: context.history, ..*old(context) }),
            decreases lines.len() - i,
        {
            proof {
                assert(l.take(i + 1).drop_last() =~= l.take(i as int));
                assert(l.take(i + 1).last() == lines@[i as int]@);
            }
            let ghost before = strings_view(context.history@);
            if !lines[i].as_str().is_empty() {
                context.history.push(lines[i].clone());
                assert(strings_view(context.history@) =~= before.push(lines@[i as int]@));
            }
            i = i + 1;
        }
        assert(l.take(lines.len() as int) =~= l);
    }

    /// The entries not yet saved, which now count as saved.
    pub fn take_unsaved(context: &mut ShellContext) -> (r: Vec<String>)
        ensures
            strings_view(r@) == unsaved_entries(*old(context)),
            final(context).last_saved_history_index == old(context).history.len(),
            *final(context) == (ShellContext { last_saved_history_index: final(context).last_saved_history_index, ..*old(context) }),
    {
        let len = context.history.len();
        let from = if context.last_saved_history_index <= len { context.last_saved_history_index } else { len };
        let mut r: Vec<String> = Vec::new();
        let mut i = from;
        while i < len
            invariant
                from <= i <= len,
                len == context.history.len(),
                r.len() == i - from,
                forall|j: int| 0 <= j < r.len() ==> #[trigger] r@[j]@ == context.history@[from + j]@,
            decreases len - i,
        {
            r.push(context.history[i].clone());
            i = i + 1;
        }
        assert(strings_view(r@) =~= strings_view(context.history@).skip(from as int));
        context.last_saved_history_index = len;
        r
    }
}

/// `l` without one trailing carriage return.
pub open spec fn strip_cr(l: Seq<char>) -> Seq<char> {
    if l.len() > 0 && l.last() == '\r' { l.drop_last() } else { l }
}

/// The lines of a history file (as `str::lines` gives them): the text between line
/// feeds, each line that a line feed ends without a trailing carriage return, and no
/// empty line after a final line feed.
pub open spec fn spec_file_lines(s: Seq<char>) -> Seq<Seq<char>> {
    let p = split_chars(s, '\n');
    let ended = Seq::new((p.len() - 1) as nat, |i: int| strip_cr(p[i]));
    if p.last().len() == 0 { ended } else { ended.push(p.last()) }
}

proof fn lemma_split_extend(x: Seq<char>, e: Seq<char>, sep: char)
    requires
        !e.contains(sep),
    ensures
        split_chars(x + e, sep) == split_chars(x, sep).update(
            split_chars(x, sep).len() - 1,
            split_chars(x, sep).last() + e,
        ),
    decreases e.len(),
{
    lemma_split_chars_len(x, sep);
    if e.len() == 0 {
        assert(x + e =~= x);
        assert(split_chars(x, sep).last() + e =~= split_chars(x, sep).last());
        assert(split_chars(x, sep).update(split_chars(x, sep).len() - 1, split_chars(x, sep).last())
            =~= split_chars(x, sep));
    } else {
        let e0 = e.drop_last();
        assert(!e0.contains(sep)) by {
            if e0.contains(sep) {
                let k = choose|k: int| 0 <= k < e0.len() && e0[k] == sep;
                assert(e[k] == sep);
            }
        }
        assert(e[e.len() - 1] != sep);
        lemma_split_extend(x, e0, sep);
        assert((x + e).drop_last() =~= x + e0);
        assert((x + e).last() == e.last());
        lemma_split_chars_len(x + e0, sep);
        let sx = split_chars(x, sep);
        let r = split_chars(x + e0, sep);
        assert(r.len() == sx.len());
        assert(r.last() == sx.last() + e0);
        assert(split_chars(x + e, sep) == r.update(r.len() - 1, r.last().push(e.last())));
        assert((sx.last() + e0).push(e.last()) =~= sx.last() + e);
        assert(split_chars(x + e, sep) =~= sx.update(sx.len() - 1, sx.last() + e));
    }
}

proof fn lemma_split_lines_text(entries: Seq<Seq<char>>)
    requires
        forall|i: int| 0 <= i < entries.len() ==> !(#[trigger] entries[i]).contains('\n'),
    ensures
        split_chars(lines_text(entries), '\n') == entries.push(Seq::<char>::empty()),
    decreases entries.len(),
{
    if entries.len() == 0 {
        assert(split_chars(Seq::<char>::empty(), '\n') =~= seq![Seq::<char>::empty()]);
        assert(entries.push(Seq::<char>::empty()) =~= seq![Seq::<char>::empty()]);
    } else {
        let front = entries.drop_last();
        let e = entries.last();
        assert forall|i: int| 0 <= i < front.len() implies !(#[trigger] front[i]).contains('\n') by {
            assert(front[i] == entries[i]);
        }
        lemma_split_lines_text(front);
        let x = lines_text(front);
        assert(!e.contains('\n')) by {
            assert(entries[entries.len() - 1] == e);
        }
        lemma_split_extend(x, e, '\n');
        let y = x + e;
        assert(lines_text(entries) =~= y.push('\n'));
        assert(y.push('\n').drop_last() =~= y);
        assert(split_chars(x, '\n').last() + e =~= e);
        assert(split_chars(lines_text(entries), '\n') =~= entries.push(Seq::<char>::empty()));
    }
}

/// A history file read back gives the entries written to it: `history -w` followed by
/// `history -r` (or the history file of one session read by the next) restores each
/// entry that holds no line feed and does not end with a carriage return.
pub proof fn law_history_file_roundtrip(entries: Seq<Seq<char>>)
    requires
        forall|i: int| 0 <= i < entries.len() ==> !(#[trigger] entries[i]).contains('\n'),
        forall|i: int| 0 <= i < entries.len() ==> strip_cr(#[trigger] entries[i]) == entries[i],
    ensures
        spec_file_lines(lines_text(entries)) == entries,
{
    lemma_split_lines_text(entries);
    let p = split_chars(lines_text(entries), '\n');
    assert(spec_file_lines(lines_text(entries)) =~= entries) by {
        assert(p.last().len() == 0);
        assert forall|i: int| 0 <= i < entries.len() implies #[trigger] spec_file_lines(lines_text(entries))[i] == entries[i] by {
            assert(p[i] == entries[i]);
        }
    }
}

impl History {
    /// The text of a history file holding `entries`: each followed by a line feed.
    pub fn file_text(entries: &Vec<String>) -> (r: String)
        ensures
            r@ == lines_text(strings_view(entries@)),
    {
        let mut out = String::new();
        let mut i: usize = 0;
        let ghost ev = strings_view(entries@);
        assert(ev.take(0) =~= Seq::<Seq<char>>::empty());
        while i < entries.len()
            invariant
                i <= entries.len(),
                ev == strings_view(entries@),
                out@ == lines_text(ev.take(i as int)),
            decreases entries.len() - i,
        {
            push_str(&mut out, entries[i].as_str());
            out.push('\n');
            assert(ev.take(i + 1).drop_last() =~= ev.take(i as int));
            assert(ev.take(i + 1).last() == entries@[i as int]@);
            i = i + 1;
        }
        assert(ev.take(entries.len() as int) =~= ev);
        out
    }

    /// The lines of a history file, as [`spec_file_lines`] says.
    pub fn file_lines(contents: &str) -> (r: Vec<String>)
        ensures
            strings_view(r@) == spec_file_lines(contents@),
    {
        let c = to_chars(contents);
        let mut lines: Vec<String> = Vec::new();
        let ghost mut raw: Seq<Seq<char>> = Seq::empty();
        let mut start: usize = 0;
        let mut j: usize = 0;
        assert(c@.take(0) =~= Seq::<char>::empty());
        assert(split_chars(c@.take(0), '\n') =~= raw.push(c@.subrange(0, 0)));
        while j < c.len()
            invariant
                start <= j <= c.len(),
                c@ == contents@,
                split_chars(c@.take(j as int), '\n') == raw.push(c@.subrange(start as int, j as int)),
                strings_view(lines@) == Seq::new(raw.len(), |i: int| strip_cr(raw[i])),
            decreases c.len() - j,
        {
            proof {
                assert(c@.take(j + 1).drop_last() =~= c@.take(j as int));
                lemma_split_chars_len(c@.take(j as int), '\n');
            }
            if c[j] == '\n' {
                let ghost piece = c@.subrange(start as int, j as int);
                let ghost before = strings_view(lines@);
                let end = if j > start && c[j - 1] == '\r' { j - 1 } else { j };
                lines.push(string_from_range(&c, start, end));
                proof {
                    if j > start {
                        assert(piece.last() == c@[j - 1]);
                    }
                    if j > start && c@[j - 1] == '\r' {
                        assert(piece.drop_last() =~= c@.subrange(start as int, end as int));
                    } else {
                        assert(c@.subrange(start as int, end as int) =~= piece);
                    }
                    assert(strip_cr(piece) == c@.subrange(start as int, end as int));
                    assert(strings_view(lines@) =~= before.push(strip_cr(piece)));
                    raw = raw.push(piece);
                    assert(strings_view(lines@) =~= Seq::new(raw.len(), |i: int| strip_cr(raw[i])));
                }
                start = j + 1;
                j = j + 1;
                assert(c@.subrange(start as int, j as int) =~= Seq::<char>::empty());
                assert(split_chars(c@.take(j as int), '\n') =~= raw.push(c@.subrange(start as int, j as int)));
            } else {
                assert(c@.subrange(start as int, j + 1) =~= c@.subrange(start as int, j as int).push(c@[j as int]));
                j = j + 1;
                assert(split_chars(c@.take(j as int), '\n') =~= raw.push(c@.subrange(start as int, j as int)));
            }
        }
        assert(c@.take(c.len() as int) =~= c@);
        let ghost p = split_chars(contents@, '\n');
        assert(p == raw.push(c@.subrange(start as int, c.len() as int)));
        assert(Seq::new((p.len() - 1) as nat, |i: int| strip_cr(p[i])) =~= Seq::new(raw.len(), |i: int| strip_cr(raw[i])));
        if start < c.len() {
            let ghost before = strings_view(lines@);
            lines.push(string_from_range(&c, start, c.len()));
            assert(strings_view(lines@) =~= before.push(c@.subrange(start as int, c.len() as int)));
        }
        lines
    }
}

/// The history entries not yet saved with `history -a`.
pub open spec fn unsaved_entries(context: ShellContext) -> Seq<Seq<char>> {
    let h = strings_view(context.history@);
    h.skip(if context.last_saved_history_index <= h.len() { context.last_saved_history_index as int } else { h.len() as int })
}

/// `history -a` appends each entry once: in the state that taking the unsaved entries
/// leaves, none are left to take.
pub proof fn law_unsaved_taken_once(context: ShellContext)
    requires
        context.last_saved_history_index == context.history.len(),
    ensures
        unsaved_entries(context) == Seq::<Seq<char>>::empty(),
{
    assert(unsaved_entries(context) =~= Seq::<Seq<char>>::empty());
}

/// The non-empty lines, in order.
pub open spec fn nonempty(l: Seq<Seq<char>>) -> Seq<Seq<char>>
    decreases l.len(),
{
    if l.len() == 0 {
        seq![]
    } else if l.last().len() > 0 {
        nonempty(l.drop_last()).push(l.last())
    } else {
        nonempty(l.drop_last())
    }
}

// ---------------------------------------------------------------- jobs

/// The marker after a job number: `+` for the last job listed, `-` for the one before.
pub open spec fn job_marker(index: int, len: int) -> char {
    if index + 1 == len { '+' } else if index + 1 == len - 1 { '-' } else { ' ' }
}

/// One line of `jobs` for status (done, number, command).
pub open spec fn job_line(s: (bool, usize, Seq<char>), marker: char) -> Seq<char> {
    seq!['['] + decimal(s.1 as nat) + seq![']'] + seq![marker] + "  "@
        + pad_right(if s.0 { "Done"@ } else { "Running"@ }, 24) + seq![' '] + s.2
        + (if s.0 { seq!['\n'] } else { " &\n"@ })
}

/// The lines for statuses `0..k`, of finished jobs only when `only_done`.
pub open spec fn jobs_text(s: Seq<(bool, usize, Seq<char>)>, k: int, only_done: bool) -> Seq<char>
    decreases k,
{
    if k <= 0 || k > s.len() {
        seq![]
    } else {
        jobs_text(s, k - 1, only_done) + (if only_done && !s[k - 1].0 {
            seq![]
        } else {
            job_line(s[k - 1], job_marker(k - 1, s.len() as int))
        })
    }
}

fn push_job_line(out: &mut String, job_id: usize, marker: char, done: bool, command: &String)
    ensures
        final(out)@ == old(out)@ + job_line((done, job_id, command@), marker),
{
    out.push('[');
    push_decimal(out, job_id as u64);
    out.push(']');
    out.push(marker);
    push_str(out, "  ");
    if done {
        push_padded_right(out, "Done", 24);
    } else {
        push_padded_right(out, "Running", 24);
    }
    out.push(' ');
    push_str(out, command.as_str());
    if done {
        out.push('\n');
    } else {
        push_str(out, " &\n");
    }
    assert(out@ =~= old(out)@ + job_line((done, job_id, command@), marker));
}

fn render_statuses(statuses: &Vec<BackgroundJobStatus>, only_done: bool) -> (r: String)
    ensures
        r@ == jobs_text(statuses_view(statuses@), statuses.len() as int, only_done),
{
    let ghost sv = statuses_view(statuses@);
    let n = statuses.len();
    let mut out = String::new();
    let mut i: usize = 0;
    while i < n
        invariant
            i <= n,
            n == statuses.len(),
            sv == statuses_view(statuses@),
            out@ == jobs_text(sv, i as int, only_done),
        decreases n - i,
    {
        let marker = if i + 1 == n { '+' } else if i + 1 == n - 1 { '-' } else { ' ' };
        assert(sv.len() == n);
        assert(marker == job_marker(i as int, sv.len() as int));
        let ghost before = out@;
        assert(sv[i as int] == crate::shell_context::status_view(statuses@[i as int]));
        match &statuses[i] {
            BackgroundJobStatus::Running(job_id, command) => {
                if !only_done {
                    push_job_line(&mut out, *job_id, marker, false, command);
                } else {
                    assert(out@ =~= before + Seq::<char>::empty());
                }
            },
            BackgroundJobStatus::Done(job_id, command) => {
                push_job_line(&mut out, *job_id, marker, true, command);
            },
        }
        i = i + 1;
        assert(out@ =~= jobs_text(sv, i as int, only_done));
    }
    out
}

impl Jobs {
    /// Reports every background job (`finished[i]` telling whether job `i` has exited)
    /// and forgets the finished ones: the text of `jobs`.
    pub fn run(context: &mut ShellContext, finished: &Vec<bool>) -> (r: String)
        requires
            finished.len() == old(context).background_jobs.len(),
        ensures
            ({
                let s = crate::shell_context::sort_by_id(
                    crate::shell_context::job_statuses(old(context).background_jobs@, finished@),
                );
                r@ == jobs_text(s, s.len() as int, false)
            }),
            final(context).background_jobs@ == crate::shell_context::running_jobs(old(context).background_jobs@, finished@),
            *final(context) == (ShellContext { background_jobs: final(context).background_jobs, ..*old(context) }),
    {
        let statuses = context.collect_job_statuses(finished);
        render_statuses(&statuses, false)
    }
}

/// Forgets the finished background jobs and returns the `Done` lines announcing them.
pub fn reap_and_print_done_jobs(context: &mut ShellContext, finished: &Vec<bool>) -> (r: String)
    requires
        finished.len() == old(context).background_jobs.len(),
    ensures
        ({
            let s = crate::shell_context::sort_by_id(
                crate::shell_context::job_statuses(old(context).background_jobs@, finished@),
            );
            r@ == jobs_text(s, s.len() as int, true)
        }),
        final(context).background_jobs@ == crate::shell_context::running_jobs(old(context).background_jobs@, finished@),
        *final(context) == (ShellContext { background_jobs: final(context).background_jobs, ..*old(context) }),
{
    let statuses = context.collect_job_statuses(finished);
    render_statuses(&statuses, true)
}

// ---------------------------------------------------------------- complete

/// `complete`, `complete -p cmd`, `complete -C script cmd`, `complete -r cmd`
pub struct Complete;

/// The line that shows a registration.
pub open spec fn completion_line(command: Seq<char>, script: Seq<char>) -> Seq<char> {
    "complete -C '"@ + script + seq!['\''] + seq![' '] + command + seq!['\n']
}

/// The lines for the first `k` registrations.
pub open spec fn completion_listing(e: Seq<(Seq<char>, Seq<char>)>, k: int) -> Seq<char>
    decreases k,
{
    if k <= 0 || k > e.len() {
        seq![]
    } else {
        completion_listing(e, k - 1) + completion_line(e[k - 1].0, e[k - 1].1)
    }
}

/// The usage message of `complete`.
pub open spec fn complete_usage() -> Seq<char> {
    "usage: complete [-C script command] | [-p command] | [-r command] | [no args]"@
}

/// The script file that `complete -C script cmd` would register, resolved against
/// the working directory; `None` for every other form.
pub open spec fn spec_complete_script(args: Seq<Seq<char>>, dir: Seq<char>) -> Option<Seq<char>> {
    if args.len() == 3 && args[0] == "-C"@ { Some(spec_resolve_path(dir, args[1])) } else { None }
}

fn push_completion_line(out: &mut String, command: &String, script: &String)
    ensures
        final(out)@ == old(out)@ + completion_line(command@, script@),
{
    push_str(out, "complete -C '");
    push_str(out, script.as_str());
    out.push('\'');
    out.push(' ');
    push_str(out, command.as_str());
    out.push('\n');
    assert(out@ =~= old(out)@ + completion_line(command@, script@));
}

impl Complete {
    /// The file whose existence `complete` needs to know, as [`spec_complete_script`] says.
    pub fn script_to_check(args: &Vec<String>, context: &ShellContext) -> (r: Option<String>)
        ensures
            match spec_complete_script(strings_view(args@), context.current_dir@) {
                Some(p) => r is Some && r->0@ == p,
                None => r is None,
            },
    {
        if args.len() == 3 && str_eq(args[0].as_str(), "-C") {
            assert(strings_view(args@)[0] == args@[0]@);
            assert(strings_view(args@)[1] == args@[1]@);
            Some(context.resolve_path(args[1].as_str()))
        } else {
            proof {
                if args.len() == 3 {
                    assert(strings_view(args@)[0] == args@[0]@);
                }
            }
            None
        }
    }

    /// Runs `complete args`; `script_exists` tells whether the file named by
    /// [`Complete::script_to_check`] exists. Returns the printed text or the error.
    pub fn run(args: &Vec<String>, context: &mut ShellContext, script_exists: bool) -> (r: Result<String, String>)
        ensures
            ({
                let a = strings_view(args@);
                let reg = old(context).completions;
                let new_reg = final(context).completions;
                if a.len() == 0 {
                    &&& r is Ok
                    &&& exists|e: Seq<(Seq<char>, Seq<char>)>| crate::strmap::lists_sorted(e, reg.specs())
                        && r->Ok_0@ == #[trigger] completion_listing(e, e.len() as int)
                    &&& new_reg == reg
                } else if a.len() == 2 && a[0] == "-p"@ {
                    &&& new_reg == reg
                    &&& if reg.specs().dom().contains(a[1]) {
                        r is Ok && r->Ok_0@ == completion_line(a[1], reg.specs()[a[1]])
                    } else {
                        r is Err && r->Err_0@ == "complete: "@ + a[1] + ": no completion specification"@
                    }
                } else if a.len() == 3 && a[0] == "-C"@ {
                    let path = spec_resolve_path(old(context).current_dir@, a[1]);
                    if script_exists {
                        &&& r is Ok && r->Ok_0@ == Seq::<char>::empty()
                        &&& new_reg.specs() == reg.specs().insert(a[2], path)
                        &&& new_reg.disabled() == reg.disabled().remove(a[2])
                    } else {
                        &&& r is Err && r->Err_0@ == "complete: "@ + path + ": no such completion script"@
                        &&& new_reg == reg
                    }
                } else if a.len() == 2 && a[0] == "-r"@ {
                    &&& r is Ok && r->Ok_0@ == Seq::<char>::empty()
                    &&& new_reg.specs() == reg.specs().remove(a[1])
                    &&& new_reg.disabled() == reg.disabled().insert(a[1])
                } else {
                    &&& r is Err && r->Err_0@ == complete_usage()
                    &&& new_reg == reg
                }
            }),
            *final(context) == (ShellContext { completions: final(context).completions, ..*old(context) }),
    {
        let ghost a = strings_view(args@);
        if args.len() == 0 {
            let entries = context.completions.entries();
            let mut out = String::new();
            let mut i: usize = 0;
            let ghost e = crate::strmap::pairs_view(entries@);
            while i < entries.len()
                invariant
                    i <= entries.len(),
                    e == crate::strmap::pairs_view(entries@),
                    out@ == completion_listing(e, i as int),
                decreases entries.len() - i,
            {
                push_completion_line(&mut out, &entries[i].0, &entries[i].1);
                i = i + 1;
            }
            assert(e.len() == entries.len());
            return Ok(out);
        }
        assert(a[0] == args@[0]@);
        if args.len() == 2 && str_eq(args[0].as_str(), "-p") {
            assert(a[1] == args@[1]@);
            match context.completions.get(args[1].as_str()) {
                Some(script_path) => {
                    let mut out = String::new();
                    push_completion_line(&mut out, &args[1], &script_path);
                    return Ok(out);
                },
                None => {
                    let mut m = "complete: ".to_string();
                    push_str(&mut m, args[1].as_str());
                    push_str(&mut m, ": no completion specification");
                    return Err(m);
                },
            }
        }
        if args.len() == 3 && str_eq(args[0].as_str(), "-C") {
            assert(a[1] == args@[1]@);
            assert(a[2] == args@[2]@);
            let resolved = context.resolve_path(args[1].as_str());
            if !script_exists {
                let mut m = "complete: ".to_string();
                push_str(&mut m, resolved.as_str());
                push_str(&mut m, ": no such completion script");
                return Err(m);
            }
            context.completions.register(args[2].clone(), resolved);
            return Ok(String::new());
        }
        if args.len() == 2 && str_eq(args[0].as_str(), "-r") {
            assert(a[1] == args@[1]@);
            context.completions.remove(args[1].as_str());
            return Ok(String::new());
        }
        Err(
            "usage: complete [-C script command] | [-p command] | [-r command] | [no args]".to_string(),
        )
    }
}

// ---------------------------------------------------------------- cd

/// `cd dir`, `cd ~`, `cd -`
pub struct Cd;

/// The directory `cd args` changes to, before it is made canonical: `~` is the home
/// directory, `-` the previous directory, anything else is resolved against the
/// working directory.
pub open spec fn spec_cd_target(
    args: Seq<Seq<char>>,
    dir: Seq<char>,
    home: Option<Seq<char>>,
    previous: Option<Seq<char>>,
) -> Result<Seq<char>, Seq<char>> {
    if args.len() == 0 {
        Err("cd: missing argument"@)
    } else if args[0] == "~"@ {
        match home {
            Some(h) => Ok(spec_resolve_path(dir, h)),
            None => Err("cd: HOME not set"@),
        }
    } else if args[0] == "-"@ {
        match previous {
            Some(p) => Ok(p),
            None => Err("cd: OLDPWD not set"@),
        }
    } else {
        Ok(spec_resolve_path(dir, args[0]))
    }
}

/// The message when the target of `cd` is not a directory.
pub open spec fn cd_missing_message(target: Seq<char>) -> Seq<char> {
    "cd: "@ + target + ": No such file or directory"@
}

/// The value of an optional string.
pub open spec fn opt_view(o: Option<String>) -> Option<Seq<char>> {
    match o {
        Some(s) => Some(s@),
        None => None,
    }
}

impl Cd {
    /// The directory to change to, as [`spec_cd_target`] says; `home` is `$HOME`.
    pub fn target(args: &Vec<String>, context: &ShellContext, home: Option<String>) -> (r: Result<String, String>)
        ensures
            match spec_cd_target(strings_view(args@), context.current_dir@, opt_view(home), opt_view(context.previous_dir)) {
                Ok(t) => r is Ok && r->Ok_0@ == t,
                Err(e) => r is Err && r->Err_0@ == e,
            },
    {
        if args.len() == 0 {
            return Err("cd: missing argument".to_string());
        }
        assert(strings_view(args@)[0] == args@[0]@);
        if str_eq(args[0].as_str(), "~") {
            match home {
                Some(h) => Ok(context.resolve_path(h.as_str())),
                None => Err("cd: HOME not set".to_string()),
            }
        } else if str_eq(args[0].as_str(), "-") {
            match &context.previous_dir {
                Some(p) => Ok(p.clone()),
                None => Err("cd: OLDPWD not set".to_string()),
            }
        } else {
            Ok(context.resolve_path(args[0].as_str()))
        }
    }

    /// The error for an argument that names no directory.
    pub fn missing_message(target: &str) -> (r: String)
        ensures
            r@ == cd_missing_message(target@),
    {
        let mut m = "cd: ".to_string();
        push_str(&mut m, target);
        push_str(&mut m, ": No such file or directory");
        m
    }

    /// Moves the session to `canonical`, remembering the directory it leaves.
    pub fn change_to(context: &mut ShellContext, canonical: String)
        ensures
            final(context).current_dir@ == canonical@,
            final(context).previous_dir == Some(old(context).current_dir),
            *final(context) == (ShellContext { current_dir: final(context).current_dir, previous_dir: final(context).previous_dir, ..*old(context) }),
    {
        let mut old_dir = canonical;
        std::mem::swap(&mut old_dir, &mut context.current_dir);
        context.previous_dir = Some(old_dir);
    }
}

/// `cd -` goes back: once `cd` has moved the session from `dir` to `canonical`, the
/// target of `cd -` is `dir`, whatever `$HOME` is.
pub proof fn law_cd_dash_returns(dir: Seq<char>, canonical: Seq<char>, home: Option<Seq<char>>)
    ensures
        spec_cd_target(seq!["-"@], canonical, home, Some(dir)) == Ok::<Seq<char>, Seq<char>>(dir),
{
    reveal_strlit("-");
    reveal_strlit("~");
    assert("-"@[0] != "~"@[0]);
    assert(seq!["-"@][0] == "-"@);
}

// ---------------------------------------------------------------- file commands

/// `cat file...`
pub struct Cat;

/// `touch file...`
pub struct Touch;

/// `mkdir [-p] dir...`
pub struct Mkdir;

/// `rm [-r] [-f] path...`
pub struct Rm;

/// `ls [-a] [-l] [path...]`
pub struct Ls;

/// Each argument with the path it names.
pub open spec fn resolved_args(args: Seq<Seq<char>>, dir: Seq<char>) -> Seq<(Seq<char>, Seq<char>)> {
    Seq::new(args.len(), |i: int| (args[i], spec_resolve_path(dir, args[i])))
}

fn resolve_all(args: &Vec<String>, context: &ShellContext) -> (r: Vec<(String, String)>)
    ensures
        crate::strmap::pairs_view(r@) == resolved_args(strings_view(args@), context.current_dir@),
{
    let mut r: Vec<(String, String)> = Vec::new();
    let mut i: usize = 0;
    while i < args.len()
        invariant
            i <= args.len(),
            r.len() == i,
            forall|j: int| 0 <= j < i ==> (#[trigger] r@[j]).0@ == args@[j]@
                && r@[j].1@ == spec_resolve_path(context.current_dir@, args@[j]@),
        decreases args.len() - i,
    {
        r.push((args[i].clone(), context.resolve_path(args[i].as_str())));
        i = i + 1;
    }
    assert(crate::strmap::pairs_view(r@) =~= resolved_args(strings_view(args@), context.current_dir@));
    r
}

impl Cat {
    /// The files to print, each argument with its resolved path.
    pub fn targets(args: &Vec<String>, context: &ShellContext) -> (r: Result<Vec<(String, String)>, String>)
        ensures
            args.len() == 0 ==> r is Err && r->Err_0@ == "cat: missing argument"@,
            args.len() > 0 ==> r is Ok && crate::strmap::pairs_view(r->Ok_0@)
                == resolved_args(strings_view(args@), context.current_dir@),
    {
        if args.len() == 0 {
            return Err("cat: missing argument".to_string());
        }
        Ok(resolve_all(args, context))
    }

    /// The error for a file that cannot be read.
    pub fn error_message(arg: &str, error: &str) -> (r: String)
        ensures
            r@ == "cat: "@ + arg@ + ": "@ + error@,
    {
        let mut m = "cat: ".to_string();
        push_str(&mut m, arg);
        push_str(&mut m, ": ");
        push_str(&mut m, error);
        m
    }
}

impl Touch {
    /// The files to create, each argument with its resolved path.
    pub fn targets(args: &Vec<String>, context: &ShellContext) -> (r: Result<Vec<(String, String)>, String>)
        ensures
            args.len() == 0 ==> r is Err && r->Err_0@ == "touch: missing file operand"@,
            args.len() > 0 ==> r is Ok && crate::strmap::pairs_view(r->Ok_0@)
                == resolved_args(strings_view(args@), context.current_dir@),
    {
        if args.len() == 0 {
            return Err("touch: missing file operand".to_string());
        }
        Ok(resolve_all(args, context))
    }

    /// The error for a file that cannot be created or opened.
    pub fn error_message(arg: &str, error: &str) -> (r: String)
        ensures
            r@ == "touch: cannot touch '"@ + arg@ + "': "@ + error@,
    {
        let mut m = "touch: cannot touch '".to_string();
        push_str(&mut m, arg);
        push_str(&mut m, "': ");
        push_str(&mut m, error);
        m
    }
}

/// Whether the argument starts with `-`.
pub open spec fn is_option(a: Seq<char>) -> bool {
    a.len() > 0 && a[0] == '-'
}

fn starts_with_dash(a: &String) -> (r: bool)
    ensures
        r == is_option(a@),
{
    let c = to_chars(a.as_str());
    c.len() > 0 && c[0] == '-'
}

/// `mkdir` options and operands: `-p`/`--parents`, then the directories.
pub open spec fn spec_mkdir_args(args: Seq<Seq<char>>) -> Result<(bool, Seq<Seq<char>>), Seq<char>>
    decreases args.len(),
{
    if args.len() == 0 {
        Ok((false, seq![]))
    } else {
        match spec_mkdir_args(args.drop_last()) {
            Err(e) => Err(e),
            Ok((p, dirs)) => {
                let a = args.last();
                if a == "-p"@ || a == "--parents"@ {
                    Ok((true, dirs))
                } else if is_option(a) {
                    Err("mkdir: unsupported option '"@ + a + seq!['\''])
                } else {
                    Ok((p, dirs.push(a)))
                }
            },
        }
    }
}

impl Mkdir {
    /// Reads the arguments of `mkdir`: whether to create parents, and the directories.
    pub fn parse_args(args: &Vec<String>) -> (r: Result<(bool, Vec<String>), String>)
        ensures
            args.len() == 0 ==> r is Err && r->Err_0@ == "mkdir: missing argument"@,
            args.len() > 0 ==> match spec_mkdir_args(strings_view(args@)) {
                Err(e) => r is Err && r->Err_0@ == e,
                Ok((p, dirs)) => if dirs.len() == 0 {
                    r is Err && r->Err_0@ == "mkdir: missing operand"@
                } else {
                    r is Ok && r->Ok_0.0 == p && strings_view(r->Ok_0.1@) == dirs
                },
            },
    {
        if args.len() == 0 {
            return Err("mkdir: missing argument".to_string());
        }
        let ghost a = strings_view(args@);
        let mut parents = false;
        let mut paths: Vec<String> = Vec::new();
        let mut i: usize = 0;
        assert(a.take(0) =~= Seq::<Seq<char>>::empty());
        assert(strings_view(paths@) =~= Seq::<Seq<char>>::empty());
        while i < args.len()
            invariant
                i <= args.len(),
                a == strings_view(args@),
                spec_mkdir_args(a.take(i as int)) == Ok::<(bool, Seq<Seq<char>>), Seq<char>>((parents, strings_view(paths@))),
            decreases args.len() - i,
        {
            proof {
                assert(a.take(i + 1).drop_last() =~= a.take(i as int));
                assert(a.take(i + 1).last() == args@[i as int]@);
            }
            let arg = &args[i];
            let ghost before = strings_view(paths@);
            if str_eq(arg.as_str(), "-p") || str_eq(arg.as_str(), "--parents") {
                parents = true;
            } else if starts_with_dash(arg) {
                let mut m = "mkdir: unsupported option '".to_string();
                push_str(&mut m, arg.as_str());
                m.push('\'');
                proof { lemma_mkdir_err_extends(a, i as int + 1); }
                return Err(m);
            } else {
                paths.push(arg.clone());
                assert(strings_view(paths@) =~= before.push(arg@));
            }
            i = i + 1;
        }
        assert(a.take(args.len() as int) =~= a);
        if paths.len() == 0 {
            return Err("mkdir: missing operand".to_string());
        }
        Ok((parents, paths))
    }

    /// The error for a directory that cannot be made.
    pub fn error_message(arg: &str, error: &str) -> (r: String)
        ensures
            r@ == "mkdir: cannot create directory '"@ + arg@ + "': "@ + error@,
    {
        let mut m = "mkdir: cannot create directory '".to_string();
        push_str(&mut m, arg);
        push_str(&mut m, "': ");
        push_str(&mut m, error);
        m
    }
}

proof fn lemma_mkdir_err_extends(a: Seq<Seq<char>>, k: int)
    requires
        0 <= k <= a.len(),
        spec_mkdir_args(a.take(k)) is Err,
    ensures
        spec_mkdir_args(a) == spec_mkdir_args(a.take(k)),
    decreases a.len() - k,
{
    if k < a.len() {
        assert(a.take(k + 1).drop_last() =~= a.take(k));
        lemma_mkdir_err_extends(a, k + 1);
    } else {
        assert(a.take(k) =~= a);
    }
}

/// `rm` options and operands: `-r`/`-R`/`--recursive`, `-f`/`--force`, then paths.
pub open spec fn spec_rm_args(args: Seq<Seq<char>>) -> Result<(bool, bool, Seq<Seq<char>>), Seq<char>>
    decreases args.len(),
{
    if args.len() == 0 {
        Ok((false, false, seq![]))
    } else {
        match spec_rm_args(args.drop_last()) {
            Err(e) => Err(e),
            Ok((r, f, paths)) => {
                let a = args.last();
                if a == "-r"@ || a == "-R"@ || a == "--recursive"@ {
                    Ok((true, f, paths))
                } else if a == "-f"@ || a == "--force"@ {
                    Ok((r, true, paths))
                } else if is_option(a) {
                    Err("rm: unsupported option '"@ + a + seq!['\''])
                } else {
                    Ok((r, f, paths.push(a)))
                }
            },
        }
    }
}

proof fn lemma_rm_err_extends(a: Seq<Seq<char>>, k: int)
    requires
        0 <= k <= a.len(),
        spec_rm_args(a.take(k)) is Err,
    ensures
        spec_rm_args(a) == spec_rm_args(a.take(k)),
    decreases a.len() - k,
{
    if k < a.len() {
        assert(a.take(k + 1).drop_last() =~= a.take(k));
        lemma_rm_err_extends(a, k + 1);
    } else {
        assert(a.take(k) =~= a);
    }
}

/// The options of `rm`.
pub struct RmOptions {
    pub recursive: bool,
    pub force: bool,
}

impl Rm {
    /// Reads the arguments of `rm`: the options and the paths to remove.
    pub fn parse_args(args: &Vec<String>) -> (r: Result<(RmOptions, Vec<String>), String>)
        ensures
            args.len() == 0 ==> r is Err && r->Err_0@ == "rm: missing argument"@,
            args.len() > 0 ==> match spec_rm_args(strings_view(args@)) {
                Err(e) => r is Err && r->Err_0@ == e,
                Ok((rec, force, paths)) => if paths.len() == 0 {
                    r is Err && r->Err_0@ == "rm: missing operand"@
                } else {
                    r is Ok && r->Ok_0.0.recursive == rec && r->Ok_0.0.force == force
                        && strings_view(r->Ok_0.1@) == paths
                },
            },
    {
        if args.len() == 0 {
            return Err("rm: missing argument".to_string());
        }
        let ghost a = strings_view(args@);
        let mut recursive = false;
        let mut force = false;
        let mut targets: Vec<String> = Vec::new();
        let mut i: usize = 0;
        assert(a.take(0) =~= Seq::<Seq<char>>::empty());
        assert(strings_view(targets@) =~= Seq::<Seq<char>>::empty());
        while i < args.len()
            invariant
                i <= args.len(),
                a == strings_view(args@),
                spec_rm_args(a.take(i as int)) == Ok::<(bool, bool, Seq<Seq<char>>), Seq<char>>((recursive, force, strings_view(targets@))),
            decreases args.len() - i,
        {
            proof {
                assert(a.take(i + 1).drop_last() =~= a.take(i as int));
                assert(a.take(i + 1).last() == args@[i as int]@);
            }
            let arg = &args[i];
            let ghost before = strings_view(targets@);
            if str_eq(arg.as_str(), "-r") || str_eq(arg.as_str(), "-R") || str_eq(arg.as_str(), "--recursive") {
                recursive = true;
            } else if str_eq(arg.as_str(), "-f") || str_eq(arg.as_str(), "--force") {
                force = true;
            } else if starts_with_dash(arg) {
                let mut m = "rm: unsupported option '".to_string();
                push_str(&mut m, arg.as_str());
                m.push('\'');
                proof { lemma_rm_err_extends(a, i as int + 1); }
                return Err(m);
            } else {
                targets.push(arg.clone());
                assert(strings_view(targets@) =~= before.push(arg@));
            }
            i = i + 1;
        }
        assert(a.take(args.len() as int) =~= a);
        if targets.len() == 0 {
            return Err("rm: missing operand".to_string());
        }
        Ok((RmOptions { recursive, force }, targets))
    }

    /// How `arg` is removed, given whether it is a directory: a directory needs `-r` and
    /// goes with everything under it (`true`); anything else is removed as a file (`false`).
    pub fn removes_tree(arg: &str, is_dir: bool, options: &RmOptions) -> (r: Result<bool, String>)
        ensures
            is_dir && !options.recursive ==> r is Err && r->Err_0@ == "rm: cannot remove '"@ + arg@ + "': Is a directory"@,
            is_dir && options.recursive ==> r == Ok::<bool, String>(true),
            !is_dir ==> r == Ok::<bool, String>(false),
    {
        if is_dir {
            if !options.recursive {
                let mut m = "rm: cannot remove '".to_string();
                push_str(&mut m, arg);
                push_str(&mut m, "': Is a directory");
                return Err(m);
            }
            return Ok(true);
        }
        Ok(false)
    }

    /// Whether a failed removal is passed over: with `-f`, when the path is gone anyway.
    pub fn ignores_failure(options: &RmOptions, still_exists: bool) -> (r: bool)
        ensures
            r == (options.force && !still_exists),
    {
        options.force && !still_exists
    }

    /// The error for a path that cannot be removed.
    pub fn error_message(arg: &str, reason: &str) -> (r: String)
        ensures
            r@ == "rm: cannot remove '"@ + arg@ + "': "@ + reason@,
    {
        let mut m = "rm: cannot remove '".to_string();
        push_str(&mut m, arg);
        push_str(&mut m, "': ");
        push_str(&mut m, reason);
        m
    }
}

// ---------------------------------------------------------------- ls

/// The options of `ls`.
pub struct LsOptions {
    pub show_all: bool,
    pub long_format: bool,
}

/// The letters of one option argument, applied in order to the flags.
pub open spec fn ls_flags(f: Seq<char>, all: bool, long: bool) -> Result<(bool, bool), Seq<char>>
    decreases f.len(),
{
    if f.len() == 0 {
        Ok((all, long))
    } else if f[0] == 'a' {
        ls_flags(f.drop_first(), true, long)
    } else if f[0] == 'l' {
        ls_flags(f.drop_first(), all, true)
    } else {
        Err("ls: unsupported option '-"@ + seq![f[0]] + seq!['\''])
    }
}

/// `ls` options (`-` followed by `a` and `l` letters) and paths.
pub open spec fn spec_ls_args(args: Seq<Seq<char>>) -> Result<(bool, bool, Seq<Seq<char>>), Seq<char>>
    decreases args.len(),
{
    if args.len() == 0 {
        Ok((false, false, seq![]))
    } else {
        match spec_ls_args(args.drop_last()) {
            Err(e) => Err(e),
            Ok((all, long, paths)) => {
                let a = args.last();
                if is_option(a) && a.len() > 1 {
                    match ls_flags(a.drop_first(), all, long) {
                        Err(e) => Err(e),
                        Ok((all2, long2)) => Ok((all2, long2, paths)),
                    }
                } else {
                    Ok((all, long, paths.push(a)))
                }
            },
        }
    }
}

proof fn lemma_ls_err_extends(a: Seq<Seq<char>>, k: int)
    requires
        0 <= k <= a.len(),
        spec_ls_args(a.take(k)) is Err,
    ensures
        spec_ls_args(a) == spec_ls_args(a.take(k)),
    decreases a.len() - k,
{
    if k < a.len() {
        assert(a.take(k + 1).drop_last() =~= a.take(k));
        lemma_ls_err_extends(a, k + 1);
    } else {
        assert(a.take(k) =~= a);
    }
}

fn apply_ls_flags(arg: &String, options: &mut LsOptions) -> (r: Result<(), String>)
    requires
        arg@.len() > 1,
    ensures
        ({
            let f = arg@.drop_first();
            match ls_flags(f, old(options).show_all, old(options).long_format) {
                Ok((all, long)) => r is Ok && final(options).show_all == all && final(options).long_format == long,
                Err(e) => r is Err && r->Err_0@ == e,
            }
        }),
{
    let c = to_chars(arg.as_str());
    let ghost f = arg@.drop_first();
    let mut i: usize = 1;
    assert(c@.skip(1) =~= f);
    while i < c.len()
        invariant
            1 <= i <= c.len(),
            c@ == arg@,
            f == arg@.drop_first(),
            ls_flags(f, old(options).show_all, old(options).long_format)
                == ls_flags(c@.skip(i as int), options.show_all, options.long_format),
        decreases c.len() - i,
    {
        let flag = c[i];
        assert(c@.skip(i as int)[0] == flag);
        assert(c@.skip(i as int).drop_first() =~= c@.skip(i + 1));
        if flag == 'a' {
            options.show_all = true;
        } else if flag == 'l' {
            options.long_format = true;
        } else {
            let mut m = "ls: unsupported option '-".to_string();
            m.push(flag);
            m.push('\'');
            return Err(m);
        }
        i = i + 1;
    }
    assert(c@.skip(i as int) =~= Seq::<char>::empty());
    Ok(())
}

/// Reads the arguments of `ls`: its options and the paths to list, as
/// [`spec_ls_args`] says.
pub fn parse_ls_args(args: Vec<String>) -> (r: Result<(LsOptions, Vec<String>), String>)
    ensures
        match spec_ls_args(strings_view(args@)) {
            Err(e) => r is Err && r->Err_0@ == e,
            Ok((all, long, paths)) => r is Ok && r->Ok_0.0.show_all == all && r->Ok_0.0.long_format == long
                && strings_view(r->Ok_0.1@) == paths,
        },
{
    let ghost a = strings_view(args@);
    let mut options = LsOptions { show_all: false, long_format: false };
    let mut paths: Vec<String> = Vec::new();
    let mut i: usize = 0;
    assert(a.take(0) =~= Seq::<Seq<char>>::empty());
    assert(strings_view(paths@) =~= Seq::<Seq<char>>::empty());
    while i < args.len()
        invariant
            i <= args.len(),
            a == strings_view(args@),
            spec_ls_args(a.take(i as int)) == Ok::<(bool, bool, Seq<Seq<char>>), Seq<char>>((options.show_all, options.long_format, strings_view(paths@))),
        decreases args.len() - i,
    {
        proof {
            assert(a.take(i + 1).drop_last() =~= a.take(i as int));
            assert(a.take(i + 1).last() == args@[i as int]@);
        }
        let arg = &args[i];
        let ghost before = strings_view(paths@);
        if starts_with_dash(arg) && to_chars(arg.as_str()).len() > 1 {
            match apply_ls_flags(arg, &mut options) {
                Ok(()) => {},
                Err(e) => {
                    proof { lemma_ls_err_extends(a, i as int + 1); }
                    return Err(e);
                },
            }
        } else {
            paths.push(arg.clone());
            assert(strings_view(paths@) =~= before.push(arg@));
        }
        i = i + 1;
    }
    assert(a.take(args.len() as int) =~= a);
    Ok((options, paths))
}

/// One directory entry as `ls` sees it: its name and, when readable, whether it is
/// a directory and its size.
pub struct LsEntry {
    pub name: String,
    pub meta: Option<(bool, u64)>,
}

/// How `ls` shows one entry: `-l` adds the kind and the size in eight columns.
pub open spec fn spec_render_entry(name: Seq<char>, meta: Option<(bool, u64)>, long: bool) -> Seq<char> {
    if !long {
        name
    } else {
        match meta {
            Some((is_dir, len)) => seq![if is_dir { 'd' } else { '-' }] + seq![' '] + pad_left(decimal(len as nat), 8)
                + seq![' '] + name,
            None => name,
        }
    }
}

/// `x` placed after the entries that do not come after it.
pub open spec fn insert_sorted(s: Seq<Seq<char>>, x: Seq<char>) -> Seq<Seq<char>>
    decreases s.len(),
{
    if s.len() == 0 {
        seq![x]
    } else if crate::strmap::seq_lt(x, s.last()) {
        insert_sorted(s.drop_last(), x).push(s.last())
    } else {
        s.push(x)
    }
}

/// The lines in increasing order.
pub open spec fn sort_lines(s: Seq<Seq<char>>) -> Seq<Seq<char>>
    decreases s.len(),
{
    if s.len() == 0 { seq![] } else { insert_sorted(sort_lines(s.drop_last()), s.last()) }
}

/// The shown entries of a directory, hidden ones (starting with `.`) only with `-a`.
pub open spec fn shown_entries(names: Seq<(Seq<char>, Option<(bool, u64)>)>, all: bool, long: bool) -> Seq<Seq<char>>
    decreases names.len(),
{
    if names.len() == 0 {
        seq![]
    } else {
        let r = shown_entries(names.drop_last(), all, long);
        let (n, m) = names.last();
        if !all && n.len() > 0 && n[0] == '.' { r } else { r.push(spec_render_entry(n, m, long)) }
    }
}

/// The lines, each followed by a newline.
pub open spec fn lines_text(s: Seq<Seq<char>>) -> Seq<char>
    decreases s.len(),
{
    if s.len() == 0 { seq![] } else { lines_text(s.drop_last()) + s.last() + seq!['\n'] }
}

/// The value of directory entries.
pub open spec fn entries_view(v: Seq<LsEntry>) -> Seq<(Seq<char>, Option<(bool, u64)>)> {
    v.map_values(|e: LsEntry| (e.name@, e.meta))
}

/// Lines in increasing order.
pub open spec fn lines_sorted(s: Seq<Seq<char>>) -> bool {
    forall|i: int, j: int| 0 <= i < j < s.len() ==> !crate::strmap::seq_lt(#[trigger] s[j], #[trigger] s[i])
}

fn render_entry(name: &String, meta: Option<(bool, u64)>, long: bool) -> (r: String)
    ensures
        r@ == spec_render_entry(name@, meta, long),
{
    if !long {
        return name.clone();
    }
    match meta {
        Some((is_dir, len)) => {
            let mut out = String::new();
            out.push(if is_dir { 'd' } else { '-' });
            out.push(' ');
            let mut number = String::new();
            push_decimal(&mut number, len);
            push_padded_left(&mut out, number.as_str(), 8);
            out.push(' ');
            push_str(&mut out, name.as_str());
            assert(out@ =~= spec_render_entry(name@, meta, long));
            out
        },
        None => name.clone(),
    }
}

proof fn lemma_insert_sorted_split(s: Seq<Seq<char>>, x: Seq<char>, p: int)
    requires
        0 <= p <= s.len(),
        forall|j: int| p <= j < s.len() ==> crate::strmap::seq_lt(x, #[trigger] s[j]),
        p > 0 ==> !crate::strmap::seq_lt(x, s[p - 1]),
    ensures
        insert_sorted(s, x) == s.take(p).push(x) + s.skip(p),
    decreases s.len(),
{
    if s.len() == 0 {
        assert(s.take(p).push(x) + s.skip(p) =~= seq![x]);
    } else if p == s.len() {
        assert(s.take(p) =~= s);
        assert(s.take(p).push(x) + s.skip(p) =~= s.push(x));
    } else {
        lemma_insert_sorted_split(s.drop_last(), x, p);
        assert(s.drop_last().take(p) =~= s.take(p));
        assert(s.take(p).push(x) + s.skip(p) =~= (s.drop_last().take(p).push(x) + s.drop_last().skip(p)).push(s.last()));
    }
}

fn insert_line(lines: &mut Vec<String>, x: String)
    requires
        lines_sorted(strings_view(old(lines)@)),
    ensures
        strings_view(final(lines)@) == insert_sorted(strings_view(old(lines)@), x@),
        lines_sorted(strings_view(final(lines)@)),
{
    let xc = to_chars(x.as_str());
    let mut p = lines.len();
    while p > 0 && crate::strmap::chars_less(&xc, &to_chars(lines[p - 1].as_str()))
        invariant
            p <= lines.len(),
            xc@ == x@,
            forall|j: int| p <= j < lines.len() ==> crate::strmap::seq_lt(x@, #[trigger] lines@[j]@),
        decreases p,
    {
        p = p - 1;
    }
    let ghost s = strings_view(lines@);
    proof {
        assert forall|j: int| p <= j < s.len() implies crate::strmap::seq_lt(x@, #[trigger] s[j]) by {
            assert(s[j] == lines@[j]@);
        }
        if p > 0 {
            assert(s[p - 1] == lines@[p - 1]@);
        }
        lemma_insert_sorted_split(s, x@, p as int);
    }
    lines.insert(p, x);
    proof {
        let t = strings_view(lines@);
        assert(t =~= s.take(p as int).push(x@) + s.skip(p as int));
        assert forall|a: int, b: int| 0 <= a < b < t.len() implies !crate::strmap::seq_lt(#[trigger] t[b], #[trigger] t[a]) by {
            if b < p {
                assert(t[a] == s[a] && t[b] == s[b]);
            } else if b == p {
                assert(t[a] == s[a]);
                if a < p - 1 {
                    assert(!crate::strmap::seq_lt(s[p - 1], s[a]));
                    crate::strmap::lemma_seq_lt_total(s[a], s[p - 1]);
                    crate::strmap::lemma_seq_lt_total(x@, s[p - 1]);
                    if crate::strmap::seq_lt(x@, s[a]) {
                        if s[a] == s[p - 1] {
                        } else {
                            crate::strmap::lemma_seq_lt_trans(x@, s[a], s[p - 1]);
                        }
                    }
                }
            } else if a < p {
                assert(t[a] == s[a] && t[b] == s[b - 1]);
            } else if a == p {
                assert(t[b] == s[b - 1]);
                crate::strmap::lemma_seq_lt_total(x@, s[b - 1]);
            } else {
                assert(t[a] == s[a - 1] && t[b] == s[b - 1]);
            }
        }
    }
}

impl Ls {
    /// What `ls` prints for a directory with these entries: the shown entries,
    /// rendered, in increasing order, one per line.
    pub fn render_directory(entries: &Vec<LsEntry>, options: &LsOptions) -> (r: String)
        ensures
            r@ == lines_text(sort_lines(shown_entries(entries_view(entries@), options.show_all, options.long_format))),
    {
        let ghost ev = entries_view(entries@);
        let mut lines: Vec<String> = Vec::new();
        let mut i: usize = 0;
        assert(ev.take(0) =~= Seq::<(Seq<char>, Option<(bool, u64)>)>::empty());
        assert(strings_view(lines@) =~= Seq::<Seq<char>>::empty());
        while i < entries.len()
            invariant
                i <= entries.len(),
                ev == entries_view(entries@),
                strings_view(lines@) == sort_lines(shown_entries(ev.take(i as int), options.show_all, options.long_format)),
                lines_sorted(strings_view(lines@)),
            decreases entries.len() - i,
        {
            proof {
                assert(ev.take(i + 1).drop_last() =~= ev.take(i as int));
                assert(ev.take(i + 1).last() == (entries@[i as int].name@, entries@[i as int].meta));
            }
            let e = &entries[i];
            let name_chars = to_chars(e.name.as_str());
            let hidden = !options.show_all && name_chars.len() > 0 && name_chars[0] == '.';
            if !hidden {
                let rendered = render_entry(&e.name, e.meta, options.long_format);
                proof {
                    let sh = shown_entries(ev.take(i as int), options.show_all, options.long_format);
                    let x = spec_render_entry(e.name@, e.meta, options.long_format);
                    assert(shown_entries(ev.take(i + 1), options.show_all, options.long_format) == sh.push(x));
                    assert(sh.push(x).drop_last() =~= sh);
                }
                insert_line(&mut lines, rendered);
            }
            i = i + 1;
        }
        assert(ev.take(entries.len() as int) =~= ev);
        let mut out = String::new();
        let mut k: usize = 0;
        let ghost l = strings_view(lines@);
        assert(l.take(0) =~= Seq::<Seq<char>>::empty());
        while k < lines.len()
            invariant
                k <= lines.len(),
                l == strings_view(lines@),
                out@ == lines_text(l.take(k as int)),
            decreases lines.len() - k,
        {
            proof {
                assert(l.take(k + 1).drop_last() =~= l.take(k as int));
                assert(l.take(k + 1).last() == lines@[k as int]@);
            }
            push_str(&mut out, lines[k].as_str());
            out.push('\n');
            k = k + 1;
            assert(out@ =~= lines_text(l.take(k as int)));
        }
        assert(l.take(lines.len() as int) =~= l);
        out
    }

    /// What `ls` prints for a single file.
    pub fn render_file(name: &String, meta: Option<(bool, u64)>, options: &LsOptions) -> (r: String)
        ensures
            r@ == spec_render_entry(name@, meta, options.long_format).push('\n'),
    {
        let mut r = render_entry(name, meta, options.long_format);
        r.push('\n');
        r
    }

    /// The error for a path that cannot be read, with the reason.
    pub fn access_error(path: &str, reason: &str) -> (r: String)
        ensures
            r@ == "ls: cannot access '"@ + path@ + "': "@ + reason@,
    {
        let mut m = "ls: cannot access '".to_string();
        push_str(&mut m, path);
        push_str(&mut m, "': ");
        push_str(&mut m, reason);
        m
    }

    /// The error for a path that does not exist.
    pub fn missing_message(path: &str) -> (r: String)
        ensures
            r@ == "ls: cannot access '"@ + path@ + "': No such file or directory"@,
    {
        let mut m = "ls: cannot access '".to_string();
        push_str(&mut m, path);
        push_str(&mut m, "': No such file or directory");
        m
    }

    /// The directories and files to list: the working directory when no path is given.
    pub fn targets(paths: &Vec<String>, context: &ShellContext) -> (r: Vec<String>)
        ensures
            paths.len() == 0 ==> strings_view(r@) == seq![context.current_dir@],
            paths.len() > 0 ==> strings_view(r@) == Seq::new(paths.len() as nat, |i: int| spec_resolve_path(context.current_dir@, paths@[i]@)),
    {
        let mut r: Vec<String> = Vec::new();
        if paths.len() == 0 {
            r.push(context.current_dir.clone());
            assert(strings_view(r@) =~= seq![context.current_dir@]);
            return r;
        }
        let mut i: usize = 0;
        while i < paths.len()
            invariant
                i <= paths.len(),
                r.len() == i,
                forall|j: int| 0 <= j < i ==> #[trigger] r@[j]@ == spec_resolve_path(context.current_dir@, paths@[j]@),
            decreases paths.len() - i,
        {
            r.push(context.resolve_path(paths[i].as_str()));
            i = i + 1;
        }
        assert(strings_view(r@) =~= Seq::new(paths.len() as nat, |i: int| spec_resolve_path(context.current_dir@, paths@[i]@)));
        r
    }
}

// ---------------------------------------------------------------- type

/// What `type name` prints: built-in, the program found at `found`, or not found.
pub open spec fn spec_type_output(target: Seq<char>, is_builtin: bool, found: Option<Seq<char>>) -> Seq<char> {
    if is_builtin {
        target + " is a shell builtin\n"@
    } else {
        match found {
            Some(p) => target + " is "@ + p + seq!['\n'],
            None => target + ": not found\n"@,
        }
    }
}

/// `type name`
pub struct TypeCommand;

impl TypeCommand {
    /// The name that `type args` asks about.
    pub fn target(args: &Vec<String>) -> (r: Result<String, String>)
        ensures
            args.len() == 0 ==> r is Err && r->Err_0@ == "type: missing argument"@,
            args.len() > 0 ==> r is Ok && r->Ok_0@ == args@[0]@,
    {
        if args.len() == 0 {
            return Err("type: missing argument".to_string());
        }
        Ok(args[0].clone())
    }

    /// What `type target` prints; `found` is where the program was found on `PATH`.
    pub fn output(target: &str, registry: &crate::registry::CommandRegistry, found: Option<String>) -> (r: String)
        ensures
            r@ == spec_type_output(
                target@,
                target@ == "type"@ || registry.builtins().dom().contains(target@),
                opt_view(found),
            ),
    {
        let mut r = target.to_string();
        if registry.is_builtin_name(target) {
            push_str(&mut r, " is a shell builtin\n");
        } else {
            match found {
                Some(p) => {
                    push_str(&mut r, " is ");
                    push_str(&mut r, p.as_str());
                    r.push('\n');
                },
                None => {
                    push_str(&mut r, ": not found\n");
                },
            }
        }
        r
    }
}

} // verus!
