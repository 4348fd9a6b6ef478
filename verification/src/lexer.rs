//! Splits a command line into [`Token`]s.
use vstd::prelude::*;

use crate::text::to_chars;
use crate::token::{SpecToken, Token, tokens_view};

verus! {

/// The lexer has no state of its own; see [`Lexer::tokenize`].
pub struct Lexer;

/// Where the lexer stands with respect to quoting.
#[derive(PartialEq, Eq, Structural, Clone, Copy)]
pub enum LexMode {
    Normal,
    SingleQuoted,
    DoubleQuoted,
}

/// The word being built, emitted as a token only if one was started.
pub open spec fn flush(building: bool, word: Seq<char>) -> Seq<SpecToken> {
    if building { seq![SpecToken::Word(word)] } else { seq![] }
}

/// Characters that separate words.
pub open spec fn is_blank(c: char) -> bool {
    c == ' ' || c == '\t' || c == '\n' || c == '\r'
}

/// The single-character operators and their tokens.
pub open spec fn operator_token(c: char) -> Option<SpecToken> {
    if c == '|' { Some(SpecToken::Pipe) }
    else if c == ';' { Some(SpecToken::Semicolon) }
    else if c == '&' { Some(SpecToken::Ampersand) }
    else if c == '(' { Some(SpecToken::LeftParen) }
    else if c == ')' { Some(SpecToken::RightParen) }
    else { None }
}

/// The redirection token for file descriptor 1 or 2 (`fd_two`), appending or not.
pub open spec fn redirect_token(fd_two: bool, append: bool) -> SpecToken {
    if fd_two {
        if append { SpecToken::RedirectStderrAppend } else { SpecToken::RedirectStderr }
    } else {
        if append { SpecToken::RedirectStdoutAppend } else { SpecToken::RedirectStdout }
    }
}

/// The tokens of `c[i..]`, given the quoting `mode` at `i` and the word started so far.
///
/// Outside quotes: blanks end a word; `|`, `;`, `&`, `(`, `)` end a word and are tokens;
/// `>` ends a word and is a redirection (`>>` appends); `1>`, `1>>`, `2>`, `2>>` at the
/// start of a word redirect that descriptor; a backslash takes the next character
/// literally (a trailing backslash is kept). Inside single quotes every character is
/// literal; inside double quotes `\"` and `\\` stand for `"` and `\`. Quotes start a word,
/// even an empty one; an unterminated quote runs to the end of the input.
pub open spec fn lex_from(c: Seq<char>, i: int, mode: LexMode, building: bool, word: Seq<char>) -> Seq<SpecToken>
    decreases c.len() - i,
{
    if i < 0 || i >= c.len() {
        flush(building, word)
    } else {
        let ch = c[i];
        match mode {
            LexMode::SingleQuoted => {
                if ch == '\'' {
                    lex_from(c, i + 1, LexMode::Normal, building, word)
                } else {
                    lex_from(c, i + 1, LexMode::SingleQuoted, building, word.push(ch))
                }
            },
            LexMode::DoubleQuoted => {
                if ch == '"' {
                    lex_from(c, i + 1, LexMode::Normal, building, word)
                } else if ch == '\\' && i + 1 < c.len() && (c[i + 1] == '"' || c[i + 1] == '\\') {
                    lex_from(c, i + 2, LexMode::DoubleQuoted, building, word.push(c[i + 1]))
                } else {
                    lex_from(c, i + 1, LexMode::DoubleQuoted, building, word.push(ch))
                }
            },
            LexMode::Normal => {
                if (ch == '1' || ch == '2') && !building && i + 1 < c.len() && c[i + 1] == '>' {
                    let append = i + 2 < c.len() && c[i + 2] == '>';
                    let next = if append { i + 3 } else { i + 2 };
                    seq![redirect_token(ch == '2', append)] + lex_from(c, next, LexMode::Normal, false, seq![])
                } else if ch == '>' {
                    let append = i + 1 < c.len() && c[i + 1] == '>';
                    let next = if append { i + 2 } else { i + 1 };
                    flush(building, word) + seq![redirect_token(false, append)]
                        + lex_from(c, next, LexMode::Normal, false, seq![])
                } else if ch == '\\' {
                    if i + 1 < c.len() {
                        lex_from(c, i + 2, LexMode::Normal, true, word.push(c[i + 1]))
                    } else {
                        lex_from(c, i + 1, LexMode::Normal, true, word.push('\\'))
                    }
                } else if ch == '\'' {
                    lex_from(c, i + 1, LexMode::SingleQuoted, true, word)
                } else if ch == '"' {
                    lex_from(c, i + 1, LexMode::DoubleQuoted, true, word)
                } else if is_blank(ch) {
                    flush(building, word) + lex_from(c, i + 1, LexMode::Normal, false, seq![])
                } else if operator_token(ch) is Some {
                    flush(building, word) + seq![operator_token(ch)->0]
                        + lex_from(c, i + 1, LexMode::Normal, false, seq![])
                } else {
                    lex_from(c, i + 1, LexMode::Normal, true, word.push(ch))
                }
            },
        }
    }
}

/// The tokens of a whole command line.
pub open spec fn spec_tokenize(c: Seq<char>) -> Seq<SpecToken> {
    lex_from(c, 0, LexMode::Normal, false, seq![])
}

proof fn lemma_double_quoted_run(c: Seq<char>, i: int, j: int, building: bool, w: Seq<char>)
    requires
        0 <= i <= j <= c.len(),
        forall|k: int| i <= k < j ==> #[trigger] c[k] != '"' && c[k] != '\\',
    ensures
        lex_from(c, i, LexMode::DoubleQuoted, building, w)
            == lex_from(c, j, LexMode::DoubleQuoted, building, w + c.subrange(i, j)),
    decreases j - i,
{
    if i < j {
        lemma_double_quoted_run(c, i + 1, j, building, w.push(c[i]));
        assert(w.push(c[i]) + c.subrange(i + 1, j) =~= w + c.subrange(i, j));
    } else {
        assert(w + c.subrange(i, j) =~= w);
    }
}

/// Inside double quotes a backslash before `"` or `\` stands for that character alone:
/// for text `x` and `y` without quotes or backslashes, `"x\ey"` with `e` one of `"`
/// and `\` is the single word `xey`; in particular `"C:\\dir"` is the word `C:\dir`.
pub proof fn law_double_quote_escapes(x: Seq<char>, e: char, y: Seq<char>)
    requires
        e == '"' || e == '\\',
        forall|k: int| 0 <= k < x.len() ==> #[trigger] x[k] != '"' && x[k] != '\\',
        forall|k: int| 0 <= k < y.len() ==> #[trigger] y[k] != '"' && y[k] != '\\',
    ensures
        spec_tokenize(seq!['"'] + x + seq!['\\', e] + y + seq!['"'])
            == seq![SpecToken::Word(x.push(e) + y)],
{
    let c = seq!['"'] + x + seq!['\\', e] + y + seq!['"'];
    let a: int = (x.len() + 1) as int;
    let b: int = a + 2 + y.len();
    assert(c.len() == b + 1);
    assert(c[0] == '"');
    assert forall|k: int| 1 <= k < a implies #[trigger] c[k] != '"' && c[k] != '\\' by {
        assert(c[k] == x[k - 1]);
    }
    lemma_double_quoted_run(c, 1, a, true, seq![]);
    assert(Seq::<char>::empty() + c.subrange(1, a) =~= x);
    assert(c[a] == '\\');
    assert(c[a + 1] == e);
    assert forall|k: int| a + 2 <= k < b implies #[trigger] c[k] != '"' && c[k] != '\\' by {
        assert(c[k] == y[k - a - 2]);
    }
    lemma_double_quoted_run(c, a + 2, b, true, x.push(e));
    assert(x.push(e) + c.subrange(a + 2, b) =~= x.push(e) + y);
    assert(c[b] == '"');
    assert(lex_from(c, b + 1, LexMode::Normal, true, x.push(e) + y) == flush(true, x.push(e) + y));
}

fn push_token(tokens: &mut Vec<Token>, t: Token)
    ensures
        tokens_view(final(tokens)@) == tokens_view(old(tokens)@).push(t@),
{
    tokens.push(t);
    assert(tokens_view(tokens@) =~= tokens_view(old(tokens)@).push(t@));
}

fn flush_word(tokens: &mut Vec<Token>, building: &mut bool, word: &mut String)
    ensures
        tokens_view(final(tokens)@) == tokens_view(old(tokens)@) + flush(*old(building), old(word)@),
        !*final(building),
        final(word)@ == Seq::<char>::empty(),
{
    if *building {
        let mut w = String::new();
        std::mem::swap(&mut w, word);
        push_token(tokens, Token::Word(w));
        *building = false;
        assert(tokens_view(tokens@) =~= tokens_view(old(tokens)@) + flush(*old(building), old(word)@));
    } else {
        *word = String::new();
        assert(tokens_view(tokens@) =~= tokens_view(old(tokens)@) + flush(*old(building), old(word)@));
    }
}

fn redirect(fd_two: bool, append: bool) -> (t: Token)
    ensures
        t@ == redirect_token(fd_two, append),
{
    if fd_two {
        if append { Token::RedirectStderrAppend } else { Token::RedirectStderr }
    } else {
        if append { Token::RedirectStdoutAppend } else { Token::RedirectStdout }
    }
}

fn operator(c: char) -> (t: Option<Token>)
    ensures
        match operator_token(c) {
            Some(o) => t is Some && t->0@ == o,
            None => t is None,
        },
{
    if c == '|' { Some(Token::Pipe) }
    else if c == ';' { Some(Token::Semicolon) }
    else if c == '&' { Some(Token::Ampersand) }
    else if c == '(' { Some(Token::LeftParen) }
    else if c == ')' { Some(Token::RightParen) }
    else { None }
}

impl Lexer {
    /// Reads the inside of a double-quoted string from `*i` on into `word`, where `\"`
    /// and `\\` stand for `"` and `\`; stops after the closing quote (the result is
    /// then `true`) or at the end of the input.
    fn consume_double_quoted(c: &Vec<char>, i: &mut usize, word: &mut String, building: bool) -> (closed: bool)
        requires
            *old(i) < c.len(),
        ensures
            *old(i) < *final(i) <= c.len(),
            !closed ==> *final(i) == c.len(),
            lex_from(c@, *old(i) as int, LexMode::DoubleQuoted, building, old(word)@) == lex_from(
                c@,
                *final(i) as int,
                if closed { LexMode::Normal } else { LexMode::DoubleQuoted },
                building,
                final(word)@,
            ),
    {
        let n = c.len();
        let ghost start = *i;
        let ghost w0 = word@;
        while *i < n
            invariant
                start == *old(i),
                w0 == old(word)@,
                start <= *i <= n,
                n == c.len(),
                start < n,
                lex_from(c@, start as int, LexMode::DoubleQuoted, building, w0)
                    == lex_from(c@, *i as int, LexMode::DoubleQuoted, building, word@),
            decreases n - *i,
        {
            let ch = c[*i];
            if ch == '"' {
                *i = *i + 1;
                return true;
            } else if ch == '\\' && *i + 1 < n && (c[*i + 1] == '"' || c[*i + 1] == '\\') {
                word.push(c[*i + 1]);
                *i = *i + 2;
            } else {
                word.push(ch);
                *i = *i + 1;
            }
        }
        false
    }

    /// Splits `input` into tokens, as [`spec_tokenize`] describes.
    pub fn tokenize(input: &str) -> (tokens: Vec<Token>)
        ensures
            tokens_view(tokens@) == spec_tokenize(input@),
    {
        let c = to_chars(input);
        let n = c.len();
        let mut tokens: Vec<Token> = Vec::new();
        let mut word = String::new();
        let mut building = false;
        let mut mode = LexMode::Normal;
        let mut i: usize = 0;
        assert(tokens_view(tokens@) =~= Seq::<SpecToken>::empty());
        assert(tokens_view(tokens@) + lex_from(c@, 0, mode, building, word@) =~= spec_tokenize(input@));
        while i < n
            invariant
                n == c.len(),
                c@ == input@,
                i <= n,
                tokens_view(tokens@) + lex_from(c@, i as int, mode, building, word@) == spec_tokenize(input@),
            decreases n - i,
        {
            let ch = c[i];
            let ghost before = tokens_view(tokens@);
            let ghost rest = lex_from(c@, i as int, mode, building, word@);
            match mode {
                LexMode::SingleQuoted => {
                    if ch == '\'' {
                        mode = LexMode::Normal;
                    } else {
                        word.push(ch);
                    }
                    i = i + 1;
                },
                LexMode::DoubleQuoted => {
                    let closed = Self::consume_double_quoted(&c, &mut i, &mut word, building);
                    if closed {
                        mode = LexMode::Normal;
                    }
                },
                LexMode::Normal => {
                    if (ch == '1' || ch == '2') && !building && i + 1 < n && c[i + 1] == '>' {
                        let append = i + 2 < n && c[i + 2] == '>';
                        push_token(&mut tokens, redirect(ch == '2', append));
                        word = String::new();
                        i = if append { i + 3 } else { i + 2 };
                        assert(tokens_view(tokens@) + lex_from(c@, i as int, mode, building, word@)
                            =~= before + rest);
                    } else if ch == '>' {
                        let append = i + 1 < n && c[i + 1] == '>';
                        flush_word(&mut tokens, &mut building, &mut word);
                        push_token(&mut tokens, redirect(false, append));
                        i = if append { i + 2 } else { i + 1 };
                        assert(tokens_view(tokens@) + lex_from(c@, i as int, mode, building, word@)
                            =~= before + rest);
                    } else if ch == '\\' {
                        building = true;
                        if i + 1 < n {
                            word.push(c[i + 1]);
                            i = i + 2;
                        } else {
                            word.push('\\');
                            i = i + 1;
                        }
                    } else if ch == '\'' {
                        building = true;
                        mode = LexMode::SingleQuoted;
                        i = i + 1;
                    } else if ch == '"' {
                        building = true;
                        mode = LexMode::DoubleQuoted;
                        i = i + 1;
                    } else if ch == ' ' || ch == '\t' || ch == '\n' || ch == '\r' {
                        flush_word(&mut tokens, &mut building, &mut word);
                        i = i + 1;
                        assert(tokens_view(tokens@) + lex_from(c@, i as int, mode, building, word@)
                            =~= before + rest);
                    } else {
                        match operator(ch) {
                            Some(op) => {
                                flush_word(&mut tokens, &mut building, &mut word);
                                push_token(&mut tokens, op);
                                i = i + 1;
                                assert(tokens_view(tokens@) + lex_from(c@, i as int, mode, building, word@)
                                    =~= before + rest);
                            },
                            None => {
                                building = true;
                                word.push(ch);
                                i = i + 1;
                            },
                        }
                    }
                },
            }
        }
        let ghost before = tokens_view(tokens@);
        let ghost rest = lex_from(c@, i as int, mode, building, word@);
        assert(rest == flush(building, word@));
        flush_word(&mut tokens, &mut building, &mut word);
        assert(tokens_view(tokens@) =~= before + rest);
        tokens
    }
}

} // verus!
