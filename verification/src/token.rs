//! The tokens produced by the lexer.
use vstd::prelude::*;

verus! {

/// One lexical unit of a command line.
#[derive(Debug, PartialEq, Eq, Clone)]
pub enum Token {
    Word(String),
    RedirectStdout,
    RedirectStdoutAppend,
    RedirectStderr,
    RedirectStderrAppend,
    Pipe,
    Semicolon,
    Ampersand,
    LeftParen,
    RightParen,
}

/// The mathematical value of a [`Token`]: words are character sequences.
pub enum SpecToken {
    Word(Seq<char>),
    RedirectStdout,
    RedirectStdoutAppend,
    RedirectStderr,
    RedirectStderrAppend,
    Pipe,
    Semicolon,
    Ampersand,
    LeftParen,
    RightParen,
}

impl View for Token {
    type V = SpecToken;

    open spec fn view(&self) -> SpecToken {
        match self {
            Token::Word(w) => SpecToken::Word(w@),
            Token::RedirectStdout => SpecToken::RedirectStdout,
            Token::RedirectStdoutAppend => SpecToken::RedirectStdoutAppend,
            Token::RedirectStderr => SpecToken::RedirectStderr,
            Token::RedirectStderrAppend => SpecToken::RedirectStderrAppend,
            Token::Pipe => SpecToken::Pipe,
            Token::Semicolon => SpecToken::Semicolon,
            Token::Ampersand => SpecToken::Ampersand,
            Token::LeftParen => SpecToken::LeftParen,
            Token::RightParen => SpecToken::RightParen,
        }
    }
}

/// The views of a sequence of tokens.
pub open spec fn tokens_view(t: Seq<Token>) -> Seq<SpecToken> {
    t.map_values(|x: Token| x@)
}

impl Token {
    /// The text of a word token; `None` for every operator token.
    pub fn as_word(&self) -> (r: Option<&str>)
        ensures
            match self@ {
                SpecToken::Word(w) => r is Some && r->0@ == w,
                _ => r is None,
            },
    {
        match self {
            Token::Word(word) => Some(word.as_str()),
            _ => None,
        }
    }

    /// An owned copy of this token.
    pub fn duplicate(&self) -> (r: Token)
        ensures
            r@ == self@,
    {
        match self {
            Token::Word(w) => Token::Word(w.clone()),
            Token::RedirectStdout => Token::RedirectStdout,
            Token::RedirectStdoutAppend => Token::RedirectStdoutAppend,
            Token::RedirectStderr => Token::RedirectStderr,
            Token::RedirectStderrAppend => Token::RedirectStderrAppend,
            Token::Pipe => Token::Pipe,
            Token::Semicolon => Token::Semicolon,
            Token::Ampersand => Token::Ampersand,
            Token::LeftParen => Token::LeftParen,
            Token::RightParen => Token::RightParen,
        }
    }
}

} // verus!
