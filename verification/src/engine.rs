//! Variable expansion and the per-line flow of the shell.
use vstd::prelude::*;

use crate::ast::{ASTNode, SpecAst, strings_view};
use crate::builtins::{find_from_eq, spec_declare, spec_valid_identifier};
use crate::lexer::{Lexer, spec_tokenize};
use crate::parser::{Parser, spec_parse};
use crate::shell_context::ShellContext;
use crate::token::tokens_view;
use crate::shell_context::{Variables, vars_view};
use crate::text::{is_alphanumeric, is_ascii_digit, push_str, to_chars, alphanumeric};

verus! {

/// Where the expander stands: in plain text, in `${name}`, or in `$name`.
#[derive(PartialEq, Eq, Structural, Clone, Copy)]
pub enum ExpandMode {
    Plain,
    Braced,
    Bare,
}

/// The value of `name`, empty when it is not set.
pub open spec fn lookup(vars: Map<Seq<char>, Seq<char>>, name: Seq<char>) -> Seq<char> {
    if vars.dom().contains(name) { vars[name] } else { seq![] }
}

/// A character that may continue a bare `$name`.
pub open spec fn name_char(c: char, first: bool) -> bool {
    (alphanumeric(c) || c == '_') && !(first && is_ascii_digit(c))
}

/// The expansion of `s[i..]`, given the expander's state at `i`.
///
/// `${name}` is replaced by the value of `name` (an unterminated `${` takes the rest
/// of the text as the name); `$name` takes the longest run of alphanumeric characters
/// and underscores, not starting with an ASCII digit; a `$` with no such name stays.
/// Unset variables expand to nothing.
pub open spec fn expand_from(
    s: Seq<char>,
    i: int,
    mode: ExpandMode,
    name: Seq<char>,
    vars: Map<Seq<char>, Seq<char>>,
) -> Seq<char>
    decreases s.len() - i, (if mode == ExpandMode::Bare { 1int } else { 0int }),
{
    if i < 0 || i >= s.len() {
        match mode {
            ExpandMode::Plain => seq![],
            ExpandMode::Braced => lookup(vars, name),
            ExpandMode::Bare => if name.len() == 0 { seq!['$'] } else { lookup(vars, name) },
        }
    } else {
        let ch = s[i];
        match mode {
            ExpandMode::Plain => {
                if ch == '$' {
                    if i + 1 < s.len() && s[i + 1] == '{' {
                        expand_from(s, i + 2, ExpandMode::Braced, seq![], vars)
                    } else {
                        expand_from(s, i + 1, ExpandMode::Bare, seq![], vars)
                    }
                } else {
                    seq![ch] + expand_from(s, i + 1, ExpandMode::Plain, seq![], vars)
                }
            },
            ExpandMode::Braced => {
                if ch == '}' {
                    lookup(vars, name) + expand_from(s, i + 1, ExpandMode::Plain, seq![], vars)
                } else {
                    expand_from(s, i + 1, ExpandMode::Braced, name.push(ch), vars)
                }
            },
            ExpandMode::Bare => {
                if name_char(ch, name.len() == 0) {
                    expand_from(s, i + 1, ExpandMode::Bare, name.push(ch), vars)
                } else {
                    (if name.len() == 0 { seq!['$'] } else { lookup(vars, name) })
                        + expand_from(s, i, ExpandMode::Plain, seq![], vars)
                }
            },
        }
    }
}

/// The expansion of a whole word.
pub open spec fn spec_expand(s: Seq<char>, vars: Map<Seq<char>, Seq<char>>) -> Seq<char> {
    expand_from(s, 0, ExpandMode::Plain, seq![], vars)
}

/// Arguments expanded; those that expand to nothing are dropped.
pub open spec fn spec_expand_args(args: Seq<Seq<char>>, vars: Map<Seq<char>, Seq<char>>) -> Seq<Seq<char>>
    decreases args.len(),
{
    if args.len() == 0 {
        seq![]
    } else {
        let r = spec_expand_args(args.drop_last(), vars);
        let e = spec_expand(args.last(), vars);
        if e.len() > 0 { r.push(e) } else { r }
    }
}

/// A tree with every command name, argument and redirection file expanded.
pub open spec fn spec_expand_ast(n: SpecAst, vars: Map<Seq<char>, Seq<char>>) -> SpecAst
    decreases n,
{
    match n {
        SpecAst::Command { name, args } => SpecAst::Command {
            name: spec_expand(name, vars),
            args: spec_expand_args(args, vars),
        },
        SpecAst::Pipe { left, right } => SpecAst::Pipe {
            left: Box::new(spec_expand_ast(*left, vars)),
            right: Box::new(spec_expand_ast(*right, vars)),
        },
        SpecAst::Redirect { command, file, stream } => SpecAst::Redirect {
            command: Box::new(spec_expand_ast(*command, vars)),
            file: spec_expand(file, vars),
            stream,
        },
        SpecAst::Background { command } => SpecAst::Background {
            command: Box::new(spec_expand_ast(*command, vars)),
        },
    }
}

proof fn lemma_bare_run(s: Seq<char>, i: int, acc: Seq<char>, vars: Map<Seq<char>, Seq<char>>)
    requires
        0 <= i <= s.len(),
        acc.len() > 0,
        forall|j: int| i <= j < s.len() ==> name_char(#[trigger] s[j], false),
    ensures
        expand_from(s, i, ExpandMode::Bare, acc, vars) == lookup(vars, acc + s.skip(i)),
    decreases s.len() - i,
{
    if i < s.len() {
        lemma_bare_run(s, i + 1, acc.push(s[i]), vars);
        assert(acc.push(s[i]) + s.skip(i + 1) =~= acc + s.skip(i));
    } else {
        assert(acc + s.skip(i) =~= acc);
    }
}

proof fn lemma_braced_run(s: Seq<char>, i: int, acc: Seq<char>, vars: Map<Seq<char>, Seq<char>>)
    requires
        0 <= i < s.len(),
        s.last() == '}',
        forall|j: int| i <= j < s.len() - 1 ==> #[trigger] s[j] != '}',
    ensures
        expand_from(s, i, ExpandMode::Braced, acc, vars)
            == lookup(vars, acc + s.subrange(i, s.len() - 1)),
    decreases s.len() - i,
{
    if i < s.len() - 1 {
        lemma_braced_run(s, i + 1, acc.push(s[i]), vars);
        assert(acc.push(s[i]) + s.subrange(i + 1, s.len() - 1) =~= acc + s.subrange(i, s.len() - 1));
    } else {
        assert(acc + s.subrange(i, s.len() - 1) =~= acc);
        assert(expand_from(s, i + 1, ExpandMode::Plain, seq![], vars) == Seq::<char>::empty());
        assert(lookup(vars, acc) + Seq::<char>::empty() =~= lookup(vars, acc));
    }
}

/// A reference to a variable reads its value: for a shell identifier `NAME`, both
/// `$NAME` and `${NAME}` expand to the value of `NAME`, and to nothing when it is unset.
pub proof fn law_variable_reference_expands(name: Seq<char>, vars: Map<Seq<char>, Seq<char>>)
    requires
        spec_valid_identifier(name),
    ensures
        spec_expand(seq!['$'] + name, vars) == lookup(vars, name),
        spec_expand(seq!['$', '{'] + name + seq!['}'], vars) == lookup(vars, name),
        !vars.dom().contains(name) ==> spec_expand(seq!['$'] + name, vars) == Seq::<char>::empty(),
{
    let c0 = name[0];
    assert(name_char(c0, true));
    // `$NAME`
    let bare = seq!['$'] + name;
    assert(bare[0] == '$');
    assert(bare[1] == c0);
    assert(c0 != '{');
    assert forall|j: int| 2 <= j < bare.len() implies name_char(#[trigger] bare[j], false) by {
        assert(bare[j] == name[j - 1]);
    }
    lemma_bare_run(bare, 2, seq![c0], vars);
    assert(seq![c0] + bare.skip(2) =~= name);
    assert(expand_from(bare, 1, ExpandMode::Bare, seq![], vars)
        == expand_from(bare, 2, ExpandMode::Bare, seq![].push(c0), vars));
    assert(seq![].push(c0) =~= seq![c0]);
    // `${NAME}`
    let braced = seq!['$', '{'] + name + seq!['}'];
    assert(braced[0] == '$' && braced[1] == '{');
    assert(braced.last() == '}');
    assert forall|j: int| 2 <= j < braced.len() - 1 implies #[trigger] braced[j] != '}' by {
        assert(braced[j] == name[j - 2]);
    }
    lemma_braced_run(braced, 2, seq![], vars);
    assert(Seq::<char>::empty() + braced.subrange(2, braced.len() - 1) =~= name);
}

proof fn lemma_expand_shift(
    p: Seq<char>,
    y: Seq<char>,
    i: int,
    mode: ExpandMode,
    name: Seq<char>,
    vars: Map<Seq<char>, Seq<char>>,
)
    requires
        0 <= i <= y.len(),
    ensures
        expand_from(p + y, p.len() + i, mode, name, vars) == expand_from(y, i, mode, name, vars),
    decreases y.len() - i, (if mode == ExpandMode::Bare { 1int } else { 0int }),
{
    let s = p + y;
    let j = p.len() + i;
    if i < y.len() {
        let ch = y[i];
        assert(s[j] == ch);
        if i + 1 < y.len() {
            assert(s[j + 1] == y[i + 1]);
        }
        match mode {
            ExpandMode::Plain => {
                if ch == '$' {
                    if i + 1 < y.len() && y[i + 1] == '{' {
                        lemma_expand_shift(p, y, i + 2, ExpandMode::Braced, seq![], vars);
                    } else {
                        lemma_expand_shift(p, y, i + 1, ExpandMode::Bare, seq![], vars);
                    }
                } else {
                    lemma_expand_shift(p, y, i + 1, ExpandMode::Plain, seq![], vars);
                }
            },
            ExpandMode::Braced => {
                if ch == '}' {
                    lemma_expand_shift(p, y, i + 1, ExpandMode::Plain, seq![], vars);
                } else {
                    lemma_expand_shift(p, y, i + 1, ExpandMode::Braced, name.push(ch), vars);
                }
            },
            ExpandMode::Bare => {
                if name_char(ch, name.len() == 0) {
                    lemma_expand_shift(p, y, i + 1, ExpandMode::Bare, name.push(ch), vars);
                } else {
                    lemma_expand_shift(p, y, i, ExpandMode::Plain, seq![], vars);
                }
            },
        }
    }
}

proof fn lemma_bare_stop(s: Seq<char>, i: int, m: int, acc: Seq<char>, vars: Map<Seq<char>, Seq<char>>)
    requires
        0 <= i <= m < s.len(),
        acc.len() > 0,
        forall|j: int| i <= j < m ==> name_char(#[trigger] s[j], false),
        !name_char(s[m], false),
    ensures
        expand_from(s, i, ExpandMode::Bare, acc, vars)
            == lookup(vars, acc + s.subrange(i, m)) + expand_from(s, m, ExpandMode::Plain, seq![], vars),
    decreases m - i,
{
    if i < m {
        lemma_bare_stop(s, i + 1, m, acc.push(s[i]), vars);
        assert(acc.push(s[i]) + s.subrange(i + 1, m) =~= acc + s.subrange(i, m));
    } else {
        assert(acc + s.subrange(i, m) =~= acc);
    }
}

/// References follow one another: `$NAME` right before text that starts with `$` expands
/// to the value of `NAME` followed by the expansion of that text, so `$A$B` gives the
/// values of `A` and `B` one after the other.
pub proof fn law_adjacent_references_expand(name: Seq<char>, rest: Seq<char>, vars: Map<Seq<char>, Seq<char>>)
    requires
        spec_valid_identifier(name),
        rest.len() > 0,
        rest[0] == '$',
    ensures
        spec_expand(seq!['$'] + name + rest, vars) == lookup(vars, name) + spec_expand(rest, vars),
{
    let p = seq!['$'] + name;
    let s = p + rest;
    assert(seq!['$'] + name + rest == s);
    let c0 = name[0];
    assert(name_char(c0, true));
    assert(s[0] == '$');
    assert(s[1] == c0);
    assert(c0 != '{');
    let m = p.len() as int;
    assert(s[m] == '$');
    assert(!name_char('$', false));
    assert forall|j: int| 2 <= j < m implies name_char(#[trigger] s[j], false) by {
        assert(s[j] == name[j - 1]);
    }
    lemma_bare_stop(s, 2, m, seq![c0], vars);
    assert(seq![c0] + s.subrange(2, m) =~= name);
    assert(expand_from(s, 1, ExpandMode::Bare, seq![], vars)
        == expand_from(s, 2, ExpandMode::Bare, seq![].push(c0), vars));
    assert(seq![].push(c0) =~= seq![c0]);
    lemma_expand_shift(p, rest, 0, ExpandMode::Plain, seq![], vars);
}

/// Two references side by side expand independently: `$A$B` gives the value of `A`
/// followed by the value of `B`.
pub proof fn law_two_references_expand(a: Seq<char>, b: Seq<char>, vars: Map<Seq<char>, Seq<char>>)
    requires
        spec_valid_identifier(a),
        spec_valid_identifier(b),
    ensures
        spec_expand(seq!['$'] + a + seq!['$'] + b, vars) == lookup(vars, a) + lookup(vars, b),
{
    let rest = seq!['$'] + b;
    assert(seq!['$'] + a + seq!['$'] + b == seq!['$'] + a + rest);
    law_adjacent_references_expand(a, rest, vars);
    law_variable_reference_expands(b, vars);
}

/// A variable set by `declare NAME=VALUE` reads back: in the variables that the
/// assignment leaves, both `$NAME` and `${NAME}` expand to `VALUE`.
pub proof fn law_declared_variable_expands(assignment: Seq<char>, vars: Map<Seq<char>, Seq<char>>)
    requires
        spec_declare(seq![assignment], vars).0 is Ok,
    ensures
        find_from_eq(assignment) matches Some(p) && {
            let name = assignment.take(p);
            let value = assignment.skip(p + 1);
            let after = spec_declare(seq![assignment], vars).1;
            &&& spec_expand(seq!['$'] + name, after) == value
            &&& spec_expand(seq!['$', '{'] + name + seq!['}'], after) == value
        },
{
    let args = seq![assignment];
    assert(args[0] == assignment);
    let p = find_from_eq(assignment)->0;
    let name = assignment.take(p);
    let value = assignment.skip(p + 1);
    let after = vars.insert(name, value);
    assert(spec_declare(args, vars).1 == after);
    assert(lookup(after, name) == value);
    law_variable_reference_expands(name, after);
}

fn push_lookup(result: &mut String, variables: &Variables, name: &String)
    ensures
        final(result)@ == old(result)@ + lookup(vars_view(variables), name@),
{
    match variables.get(name.as_str()) {
        Some(value) => {
            push_str(result, value.as_str());
        },
        None => {
            assert(old(result)@ + lookup(vars_view(variables), name@) =~= old(result)@);
        },
    }
}

/// Replaces `$name` and `${name}` in `s` by the variables' values, as [`spec_expand`] says.
pub fn expand_variable_in_string(s: &str, variables: &Variables) -> (r: String)
    ensures
        r@ == spec_expand(s@, vars_view(variables)),
{
    let ghost vars = vars_view(variables);
    let c = to_chars(s);
    let n = c.len();
    let mut result = String::new();
    let mut mode = ExpandMode::Plain;
    let mut name = String::new();
    let mut i: usize = 0;
    assert(result@ + expand_from(c@, 0, mode, name@, vars) =~= spec_expand(s@, vars));
    while i < n
        invariant
            n == c.len(),
            c@ == s@,
            i <= n,
            vars == vars_view(variables),
            mode == ExpandMode::Plain ==> name@ == Seq::<char>::empty(),
            result@ + expand_from(c@, i as int, mode, name@, vars) == spec_expand(s@, vars),
        decreases n - i, (if mode == ExpandMode::Bare { 1int } else { 0int }),
    {
        let ch = c[i];
        let ghost before = result@;
        let ghost rest = expand_from(c@, i as int, mode, name@, vars);
        match mode {
            ExpandMode::Plain => {
                if ch == '$' {
                    if i + 1 < n && c[i + 1] == '{' {
                        mode = ExpandMode::Braced;
                        i = i + 2;
                    } else {
                        mode = ExpandMode::Bare;
                        i = i + 1;
                    }
                } else {
                    result.push(ch);
                    i = i + 1;
                    assert(result@ + expand_from(c@, i as int, mode, name@, vars) =~= before + rest);
                }
            },
            ExpandMode::Braced => {
                if ch == '}' {
                    push_lookup(&mut result, variables, &name);
                    name = String::new();
                    mode = ExpandMode::Plain;
                    i = i + 1;
                    assert(result@ + expand_from(c@, i as int, mode, name@, vars) =~= before + rest);
                } else {
                    name.push(ch);
                    i = i + 1;
                }
            },
            ExpandMode::Bare => {
                let continues = (is_alphanumeric(ch) || ch == '_') && !(name_is_empty(&name) && '0' <= ch && ch <= '9');
                if continues {
                    name.push(ch);
                    i = i + 1;
                } else {
                    if name_is_empty(&name) {
                        result.push('$');
                    } else {
                        push_lookup(&mut result, variables, &name);
                    }
                    name = String::new();
                    mode = ExpandMode::Plain;
                    assert(result@ + expand_from(c@, i as int, mode, name@, vars) =~= before + rest);
                }
            },
        }
    }
    let ghost before = result@;
    match mode {
        ExpandMode::Plain => {},
        ExpandMode::Braced => {
            push_lookup(&mut result, variables, &name);
        },
        ExpandMode::Bare => {
            if name_is_empty(&name) {
                result.push('$');
            } else {
                push_lookup(&mut result, variables, &name);
            }
        },
    }
    assert(result@ =~= before + expand_from(c@, i as int, mode, name@, vars));
    result
}

fn name_is_empty(name: &String) -> (r: bool)
    ensures
        r == (name@.len() == 0),
{
    name.as_str().is_empty()
}

/// Expands every name, argument and file in the tree, dropping arguments that
/// expand to nothing, as [`spec_expand_ast`] says.
pub fn expand_variables_in_ast(node: ASTNode, variables: &Variables) -> (r: ASTNode)
    ensures
        r@ == spec_expand_ast(node@, vars_view(variables)),
    decreases node,
{
    match node {
        ASTNode::Command { name, args } => {
            let expanded_name = expand_variable_in_string(name.as_str(), variables);
            let mut expanded_args: Vec<String> = Vec::new();
            let mut i: usize = 0;
            assert(args@.take(0) =~= Seq::<String>::empty());
            assert(strings_view(args@.take(0)) =~= Seq::<Seq<char>>::empty());
            assert(strings_view(expanded_args@) =~= Seq::<Seq<char>>::empty());
            while i < args.len()
                invariant
                    i <= args.len(),
                    strings_view(expanded_args@) == spec_expand_args(strings_view(args@.take(i as int)), vars_view(variables)),
                decreases args.len() - i,
            {
                let e = expand_variable_in_string(args[i].as_str(), variables);
                let ghost before = strings_view(expanded_args@);
                proof {
                    let t = strings_view(args@.take(i + 1));
                    assert(t.drop_last() =~= strings_view(args@.take(i as int)));
                    assert(t.last() == args@[i as int]@);
                }
                if !name_is_empty(&e) {
                    expanded_args.push(e);
                    assert(strings_view(expanded_args@) =~= before.push(e@));
                }
                i = i + 1;
            }
            assert(args@.take(args.len() as int) =~= args@);
            ASTNode::Command { name: expanded_name, args: expanded_args }
        },
        ASTNode::Pipe { left, right } => ASTNode::Pipe {
            left: Box::new(expand_variables_in_ast(*left, variables)),
            right: Box::new(expand_variables_in_ast(*right, variables)),
        },
        ASTNode::Redirect { command, file, stream } => ASTNode::Redirect {
            command: Box::new(expand_variables_in_ast(*command, variables)),
            file: expand_variable_in_string(file.as_str(), variables),
            stream,
        },
        ASTNode::Background { command } => ASTNode::Background {
            command: Box::new(expand_variables_in_ast(*command, variables)),
        },
    }
}

/// What running one line produced.
pub struct ExecutionResult {
    pub stdout: String,
    pub stderr: String,
    pub exit_code: i32,
    pub should_exit: bool,
    pub current_dir: String,
}

/// How a line goes on after lexing and parsing.
pub enum LineStep {
    /// Nothing to run: this is the result.
    Finished(ExecutionResult),
    /// Run this tree, then call [`finish_line`].
    Run(ASTNode),
}

/// Lexes, parses and expands `input`. An empty line changes nothing; a line that does
/// not parse sets the exit code to 1 and reports the error; otherwise the line is
/// added to the history and its expanded tree is returned to be run.
pub fn begin_line(context: &mut ShellContext, input: &str) -> (r: LineStep)
    ensures
        ({
            let toks = spec_tokenize(input@);
            if toks.len() == 0 {
                &&& r matches LineStep::Finished(res) && res.stdout@.len() == 0 && res.stderr@.len() == 0
                    && res.exit_code == old(context).previous_exit_code && res.should_exit == old(context).should_exit
                    && res.current_dir@ == old(context).current_dir@
                &&& final(context).previous_exit_code == old(context).previous_exit_code
                &&& final(context).history@ == old(context).history@
            } else {
                match spec_parse(toks) {
                    Err(e) => {
                        &&& r matches LineStep::Finished(res) && res.stdout@.len() == 0 && res.stderr@ == e.push('\n')
                            && res.exit_code == 1 && !res.should_exit && res.current_dir@ == old(context).current_dir@
                        &&& final(context).previous_exit_code == 1
                        &&& final(context).history@ == old(context).history@
                    },
                    Ok(ast) => {
                        &&& r matches LineStep::Run(n) && n@ == spec_expand_ast(ast, vars_view(&old(context).variables))
                        &&& final(context).previous_exit_code == old(context).previous_exit_code
                        &&& strings_view(final(context).history@) == strings_view(old(context).history@).push(input@)
                    },
                }
            }
        }),
        *final(context) == (ShellContext { previous_exit_code: final(context).previous_exit_code, history: final(context).history, ..*old(context) }),
{
    let tokens = Lexer::tokenize(input);
    if tokens.len() == 0 {
        return LineStep::Finished(ExecutionResult {
            stdout: String::new(),
            stderr: String::new(),
            exit_code: context.previous_exit_code,
            should_exit: context.should_exit,
            current_dir: context.current_dir.clone(),
        });
    }
    let ast = match Parser::parse(tokens) {
        Ok(ast) => ast,
        Err(error) => {
            context.previous_exit_code = 1;
            let mut stderr = error;
            stderr.push('\n');
            return LineStep::Finished(ExecutionResult {
                stdout: String::new(),
                stderr,
                exit_code: 1,
                should_exit: false,
                current_dir: context.current_dir.clone(),
            });
        },
    };
    let ast = expand_variables_in_ast(ast, &context.variables);
    let ghost before = strings_view(context.history@);
    context.history.push(input.to_string());
    assert(strings_view(context.history@) =~= before.push(input@));
    LineStep::Run(ast)
}

/// Completes a line that was run: a failure is reported on stderr (unless its message
/// is empty) and sets the exit code to 1; success sets it to 0, or to the code that
/// `exit` asked for.
pub fn finish_line(context: &mut ShellContext, outcome: Result<(), String>, stdout: String, stderr: String) -> (r: ExecutionResult)
    ensures
        ({
            let code = match outcome {
                Err(_) => 1i32,
                Ok(_) => if old(context).should_exit { old(context).requested_exit_code } else { 0i32 },
            };
            &&& final(context).previous_exit_code == code
            &&& r.exit_code == code
            &&& r.stdout@ == stdout@
            &&& r.stderr@ == match outcome {
                Err(e) => if e@.len() > 0 { stderr@ + e@.push('\n') } else { stderr@ },
                Ok(_) => stderr@,
            }
            &&& r.should_exit == old(context).should_exit
            &&& r.current_dir@ == old(context).current_dir@
        }),
        *final(context) == (ShellContext { previous_exit_code: final(context).previous_exit_code, ..*old(context) }),
{
    let mut stderr = stderr;
    match outcome {
        Err(error) => {
            if !error.as_str().is_empty() {
                push_str(&mut stderr, error.as_str());
                stderr.push('\n');
            }
            context.previous_exit_code = 1;
        },
        Ok(()) => {
            context.previous_exit_code = if context.should_exit { context.requested_exit_code } else { 0 };
        },
    }
    ExecutionResult {
        stdout,
        stderr,
        exit_code: context.previous_exit_code,
        should_exit: context.should_exit,
        current_dir: context.current_dir.clone(),
    }
}

} // verus!
