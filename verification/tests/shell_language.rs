use byoshell::ast::{ASTNode, RedirectStream};
use byoshell::builtins::Declare;
use byoshell::engine::{expand_variable_in_string, expand_variables_in_ast};
use byoshell::lexer::Lexer;
use byoshell::parser::Parser;
use byoshell::shell_context::Variables;
use byoshell::token::Token;

fn word(s: &str) -> Token {
    Token::Word(s.to_string())
}

fn cmd(name: &str, args: &[&str]) -> ASTNode {
    ASTNode::Command { name: name.to_string(), args: args.iter().map(|a| a.to_string()).collect() }
}

fn parse_line(line: &str) -> Result<ASTNode, String> {
    Parser::parse(Lexer::tokenize(line))
}

fn vars(pairs: &[(&str, &str)]) -> Variables {
    let mut v = Variables::new();
    for (k, val) in pairs {
        v.insert(k.to_string(), val.to_string());
    }
    v
}

#[test]
fn words_are_split_on_blanks() {
    assert_eq!(Lexer::tokenize("echo  hello\tworld\n"), vec![word("echo"), word("hello"), word("world")]);
    assert_eq!(Lexer::tokenize("   "), Vec::<Token>::new());
}

#[test]
fn quotes_and_escapes_build_one_word() {
    assert_eq!(
        Lexer::tokenize("echo 'a  b' \"c \\\" d\" e\\ f"),
        vec![word("echo"), word("a  b"), word("c \" d"), word("e f")]
    );
    assert_eq!(Lexer::tokenize("''"), vec![word("")]);
    assert_eq!(Lexer::tokenize("\"a\\nb\""), vec![word("a\\nb")]);
    assert_eq!(Lexer::tokenize("x\\"), vec![word("x\\")]);
    assert_eq!(Lexer::tokenize("'open"), vec![word("open")]);
}

#[test]
fn operators_are_tokens() {
    assert_eq!(
        Lexer::tokenize("a|b;c&(d)"),
        vec![
            word("a"),
            Token::Pipe,
            word("b"),
            Token::Semicolon,
            word("c"),
            Token::Ampersand,
            Token::LeftParen,
            word("d"),
            Token::RightParen,
        ]
    );
}

#[test]
fn redirections_are_recognised() {
    assert_eq!(
        Lexer::tokenize("ls > o >> a 2> e 2>> f 1> g 1>> h"),
        vec![
            word("ls"),
            Token::RedirectStdout,
            word("o"),
            Token::RedirectStdoutAppend,
            word("a"),
            Token::RedirectStderr,
            word("e"),
            Token::RedirectStderrAppend,
            word("f"),
            Token::RedirectStdout,
            word("g"),
            Token::RedirectStdoutAppend,
            word("h"),
        ]
    );
    assert_eq!(Lexer::tokenize("echo a2>b"), vec![word("echo"), word("a2"), Token::RedirectStdout, word("b")]);
}

#[test]
fn as_word_reads_only_words() {
    assert_eq!(word("x").as_word(), Some("x"));
    assert_eq!(Token::Pipe.as_word(), None);
}

#[test]
fn simple_command_parses() {
    assert_eq!(parse_line("echo hello world"), Ok(cmd("echo", &["hello", "world"])));
}

#[test]
fn pipelines_associate_to_the_left() {
    let expected = ASTNode::Pipe {
        left: Box::new(ASTNode::Pipe { left: Box::new(cmd("a", &[])), right: Box::new(cmd("b", &["x"])) }),
        right: Box::new(cmd("c", &[])),
    };
    assert_eq!(parse_line("a | b x | c"), Ok(expected));
}

#[test]
fn redirections_wrap_in_order() {
    let expected = ASTNode::Redirect {
        command: Box::new(ASTNode::Redirect {
            command: Box::new(cmd("echo", &["hi", "there"])),
            file: "out".to_string(),
            stream: RedirectStream::Stdout,
        }),
        file: "err".to_string(),
        stream: RedirectStream::StderrAppend,
    };
    assert_eq!(parse_line("echo hi > out there 2>> err"), Ok(expected));
}

#[test]
fn trailing_ampersand_runs_in_background() {
    let expected = ASTNode::Background { command: Box::new(cmd("sleep", &["5"])) };
    assert_eq!(parse_line("sleep 5 &"), Ok(expected));
}

#[test]
fn unsupported_syntax_is_rejected() {
    assert_eq!(Parser::parse(Vec::new()), Err("no tokens to parse".to_string()));
    assert_eq!(parse_line("a ; b"), Err("sequences are not supported yet".to_string()));
    assert_eq!(parse_line("a & b"), Err("background jobs are only supported at end of command".to_string()));
    assert_eq!(parse_line("(a)"), Err("subshells are not supported yet".to_string()));
    assert_eq!(parse_line("a | | b"), Err("invalid null command".to_string()));
    assert_eq!(parse_line("| a"), Err("invalid null command".to_string()));
    assert_eq!(parse_line("a |"), Err("invalid null command".to_string()));
    assert_eq!(parse_line("&"), Err("expected command before &".to_string()));
    assert_eq!(parse_line("echo >"), Err("expected file after redirection".to_string()));
    assert_eq!(parse_line("echo > |"), Err("expected file after redirection".to_string()));
    assert_eq!(parse_line("> f"), Err("expected command name".to_string()));
}

#[test]
fn variables_expand_in_both_forms() {
    let v = vars(&[("greeting", "hello"), ("X", "1")]);
    assert_eq!(expand_variable_in_string("$greeting", &v), "hello");
    assert_eq!(expand_variable_in_string("${greeting}_world", &v), "hello_world");
    assert_eq!(expand_variable_in_string("$greeting_world", &v), "");
    assert_eq!(expand_variable_in_string("a$X.b", &v), "a1.b");
    assert_eq!(expand_variable_in_string("cost $5", &v), "cost $5");
    assert_eq!(expand_variable_in_string("$", &v), "$");
    assert_eq!(expand_variable_in_string("${unset}x", &v), "x");
    assert_eq!(expand_variable_in_string("${X", &v), "1");
}

#[test]
fn empty_expansions_drop_arguments() {
    let v = vars(&[("A", "a")]);
    let tree = ASTNode::Redirect {
        command: Box::new(cmd("echo", &["$A", "$NONE", "x"])),
        file: "${A}.txt".to_string(),
        stream: RedirectStream::Stdout,
    };
    let expected = ASTNode::Redirect {
        command: Box::new(cmd("echo", &["a", "x"])),
        file: "a.txt".to_string(),
        stream: RedirectStream::Stdout,
    };
    assert_eq!(expand_variables_in_ast(tree, &v), expected);
}

#[test]
fn declared_variable_reads_back() {
    let mut v = Variables::new();
    let args = vec!["MY_VAR=hello".to_string()];
    assert_eq!(Declare::run(&args, &mut v), Ok(String::new()));
    assert_eq!(expand_variable_in_string("$MY_VAR", &v), "hello");
    assert_eq!(expand_variable_in_string("${MY_VAR}", &v), "hello");
    let print = vec!["-p".to_string(), "MY_VAR".to_string()];
    assert_eq!(Declare::run(&print, &mut v), Ok("declare -- MY_VAR=\"hello\"\n".to_string()));
}

#[test]
fn declare_rejects_bad_names() {
    let mut v = Variables::new();
    assert_eq!(
        Declare::run(&vec!["1x=2".to_string()], &mut v),
        Err("declare: `1x=2': not a valid identifier".to_string())
    );
    assert_eq!(
        Declare::run(&vec!["novalue".to_string()], &mut v),
        Err("declare: `novalue': not a valid identifier".to_string())
    );
    assert_eq!(
        Declare::run(&vec!["-p".to_string()], &mut v),
        Err("declare -p: variable name required".to_string())
    );
    assert_eq!(
        Declare::run(&vec!["-p".to_string(), "nope".to_string()], &mut v),
        Err("declare: nope: not found".to_string())
    );
    assert_eq!(Declare::run(&vec!["_ok=a=b".to_string()], &mut v), Ok(String::new()));
    assert_eq!(expand_variable_in_string("$_ok", &v), "a=b");
    assert_eq!(Declare::run(&vec!["é1=x".to_string()], &mut v), Ok(String::new()));
}
