//! Builds an [`ASTNode`] from tokens.
use vstd::prelude::*;

use crate::ast::{ASTNode, RedirectStream, SpecAst, copy_strings, strings_view};
use crate::token::{SpecToken, Token, tokens_view};

verus! {

/// The parser has no state of its own; see [`Parser::parse`].
pub struct Parser;

/// The segments of `t` between pipe tokens (one more segment than pipes).
pub open spec fn pipe_split(t: Seq<SpecToken>) -> Seq<Seq<SpecToken>>
    decreases t.len(),
{
    if t.len() == 0 {
        seq![seq![]]
    } else {
        let r = pipe_split(t.drop_last());
        if t.last() is Pipe {
            r.push(seq![])
        } else {
            r.update(r.len() - 1, r.last().push(t.last()))
        }
    }
}

/// The stream that a redirection token names.
pub open spec fn redirect_stream_of(t: SpecToken) -> Option<RedirectStream> {
    match t {
        SpecToken::RedirectStdout => Some(RedirectStream::Stdout),
        SpecToken::RedirectStdoutAppend => Some(RedirectStream::StdoutAppend),
        SpecToken::RedirectStderr => Some(RedirectStream::Stderr),
        SpecToken::RedirectStderrAppend => Some(RedirectStream::StderrAppend),
        _ => None,
    }
}

/// Words and redirections collected from a command's tokens.
pub type Scanned = (Seq<Seq<char>>, Seq<(RedirectStream, Seq<char>)>);

/// Reads `t[i..end]` (a redirection takes the following word as its file, which
/// may be looked up beyond `end`), adding to `words` and `redirs`.
pub open spec fn scan_command(
    t: Seq<SpecToken>,
    end: int,
    i: int,
    words: Seq<Seq<char>>,
    redirs: Seq<(RedirectStream, Seq<char>)>,
) -> Result<Scanned, Seq<char>>
    decreases t.len() - i,
{
    if i < 0 || i >= end || i >= t.len() {
        Ok((words, redirs))
    } else {
        match t[i] {
            SpecToken::Word(w) => scan_command(t, end, i + 1, words.push(w), redirs),
            SpecToken::Semicolon => Err("sequences are not supported yet"@),
            SpecToken::Ampersand => Err("background jobs are only supported at end of command"@),
            SpecToken::LeftParen => Err("subshells are not supported yet"@),
            SpecToken::RightParen => Err("subshells are not supported yet"@),
            SpecToken::Pipe => Err("unexpected pipe in command"@),
            _ => {
                if i + 1 < t.len() && t[i + 1] is Word {
                    scan_command(
                        t,
                        end,
                        i + 2,
                        words,
                        redirs.push((redirect_stream_of(t[i])->0, t[i + 1]->Word_0)),
                    )
                } else {
                    Err("expected file after redirection"@)
                }
            },
        }
    }
}

/// `cmd` wrapped in the redirections, the first one innermost.
pub open spec fn wrap_redirects(cmd: SpecAst, redirs: Seq<(RedirectStream, Seq<char>)>) -> SpecAst
    decreases redirs.len(),
{
    if redirs.len() == 0 {
        cmd
    } else {
        SpecAst::Redirect {
            command: Box::new(wrap_redirects(cmd, redirs.drop_last())),
            file: redirs.last().1,
            stream: redirs.last().0,
        }
    }
}

/// A simple command: words (the first is the name), redirections, and an optional
/// trailing `&` that runs it in the background.
pub open spec fn spec_parse_command(t: Seq<SpecToken>) -> Result<SpecAst, Seq<char>> {
    let background = t.len() > 0 && t.last() is Ampersand;
    if background && t.len() == 1 {
        Err("expected command before &"@)
    } else {
        let end = if background { t.len() - 1 } else { t.len() as int };
        match scan_command(t, end, 0, seq![], seq![]) {
            Err(e) => Err(e),
            Ok((words, redirs)) => {
                if words.len() == 0 {
                    Err("expected command name"@)
                } else {
                    let cmd = wrap_redirects(
                        SpecAst::Command { name: words[0], args: words.drop_first() },
                        redirs,
                    );
                    if background {
                        Ok(SpecAst::Background { command: Box::new(cmd) })
                    } else {
                        Ok(cmd)
                    }
                }
            },
        }
    }
}

/// One segment of a pipeline; an empty one is an error.
pub open spec fn spec_parse_segment(s: Seq<SpecToken>) -> Result<SpecAst, Seq<char>> {
    if s.len() == 0 {
        Err("invalid null command"@)
    } else {
        spec_parse_command(s)
    }
}

/// The segments joined left to right into pipes; the leftmost error wins.
pub open spec fn spec_parse_segments(segs: Seq<Seq<SpecToken>>) -> Result<SpecAst, Seq<char>>
    decreases segs.len(),
{
    if segs.len() == 0 {
        Err("no command found"@)
    } else if segs.len() == 1 {
        spec_parse_segment(segs[0])
    } else {
        match spec_parse_segments(segs.drop_last()) {
            Err(e) => Err(e),
            Ok(a) => match spec_parse_segment(segs.last()) {
                Err(e) => Err(e),
                Ok(b) => Ok(SpecAst::Pipe { left: Box::new(a), right: Box::new(b) }),
            },
        }
    }
}

/// The tree of a token sequence, or the error message.
pub open spec fn spec_parse(t: Seq<SpecToken>) -> Result<SpecAst, Seq<char>> {
    if t.len() == 0 {
        Err("no tokens to parse"@)
    } else {
        spec_parse_segments(pipe_split(t))
    }
}

/// The value of a parse result.
pub open spec fn parse_result_view(r: Result<ASTNode, String>) -> Result<SpecAst, Seq<char>> {
    match r {
        Ok(a) => Ok(a@),
        Err(e) => Err(e@),
    }
}

/// The value of collected redirections.
pub open spec fn redirs_view(v: Seq<(RedirectStream, String)>) -> Seq<(RedirectStream, Seq<char>)> {
    v.map_values(|p: (RedirectStream, String)| (p.0, p.1@))
}

proof fn lemma_split_len(t: Seq<SpecToken>)
    ensures
        pipe_split(t).len() >= 1,
    decreases t.len(),
{
    if t.len() > 0 {
        lemma_split_len(t.drop_last());
    }
}

proof fn lemma_split_prefix(t: Seq<SpecToken>, k: int, m: int)
    requires
        0 <= k <= m <= t.len(),
    ensures
        pipe_split(t.take(m)).len() >= pipe_split(t.take(k)).len(),
        pipe_split(t.take(m)).subrange(0, pipe_split(t.take(k)).len() - 1)
            == pipe_split(t.take(k)).drop_last(),
    decreases m - k,
{
    lemma_split_len(t.take(k));
    if m > k {
        lemma_split_prefix(t, k, m - 1);
        lemma_split_len(t.take(m - 1));
        assert(t.take(m).drop_last() =~= t.take(m - 1));
        let a = pipe_split(t.take(k)).len() - 1;
        let r = pipe_split(t.take(m - 1));
        assert(pipe_split(t.take(m)).subrange(0, a) =~= r.subrange(0, a));
    } else {
        assert(pipe_split(t.take(m)).subrange(0, pipe_split(t.take(k)).len() - 1)
            =~= pipe_split(t.take(k)).drop_last());
    }
}

proof fn lemma_segments_err_prefix(p: Seq<Seq<SpecToken>>, s: Seq<Seq<SpecToken>>)
    requires
        p.len() >= 1,
        p.len() <= s.len(),
        s.subrange(0, p.len() as int) == p,
        spec_parse_segments(p) is Err,
    ensures
        spec_parse_segments(s) == spec_parse_segments(p),
    decreases s.len(),
{
    if s.len() > p.len() {
        assert(s.drop_last().subrange(0, p.len() as int) =~= p);
        lemma_segments_err_prefix(p, s.drop_last());
    } else {
        assert(s =~= p);
    }
}

/// A token that no command accepts: `;`, `(` and `)`.
pub open spec fn is_unsupported(t: SpecToken) -> bool {
    t is Semicolon || t is LeftParen || t is RightParen
}

proof fn lemma_scan_ok_tokens(
    t: Seq<SpecToken>,
    end: int,
    i: int,
    words: Seq<Seq<char>>,
    redirs: Seq<(RedirectStream, Seq<char>)>,
)
    requires
        0 <= i,
        end <= t.len(),
        scan_command(t, end, i, words, redirs) is Ok,
    ensures
        forall|j: int| i <= j < end ==> !is_unsupported(#[trigger] t[j]) && !(t[j] is Ampersand) && !(t[j] is Pipe),
    decreases t.len() - i,
{
    if i < end {
        match t[i] {
            SpecToken::Word(w) => lemma_scan_ok_tokens(t, end, i + 1, words.push(w), redirs),
            SpecToken::Semicolon => {},
            SpecToken::Ampersand => {},
            SpecToken::LeftParen => {},
            SpecToken::RightParen => {},
            SpecToken::Pipe => {},
            _ => {
                lemma_scan_ok_tokens(
                    t,
                    end,
                    i + 2,
                    words,
                    redirs.push((redirect_stream_of(t[i])->0, t[i + 1]->Word_0)),
                );
            },
        }
    }
}

proof fn lemma_segments_ok(segs: Seq<Seq<SpecToken>>)
    requires
        spec_parse_segments(segs) is Ok,
    ensures
        forall|k: int| 0 <= k < segs.len() ==> spec_parse_segment(#[trigger] segs[k]) is Ok,
    decreases segs.len(),
{
    if segs.len() > 1 {
        lemma_segments_ok(segs.drop_last());
        assert forall|k: int| 0 <= k < segs.len() implies spec_parse_segment(#[trigger] segs[k]) is Ok by {
            if k < segs.len() - 1 {
                assert(segs[k] == segs.drop_last()[k]);
            }
        }
    }
}

proof fn lemma_split_covers(t: Seq<SpecToken>)
    ensures
        forall|i: int| 0 <= i < t.len() && !(#[trigger] t[i] is Pipe) ==> exists|k: int, j: int|
            0 <= k < pipe_split(t).len() && 0 <= j < pipe_split(t)[k].len() && #[trigger] pipe_split(t)[k][j] == t[i],
    decreases t.len(),
{
    if t.len() > 0 {
        let front = t.drop_last();
        lemma_split_covers(front);
        lemma_split_len(front);
        let r = pipe_split(front);
        assert forall|i: int| 0 <= i < t.len() && !(#[trigger] t[i] is Pipe) implies exists|k: int, j: int|
            0 <= k < pipe_split(t).len() && 0 <= j < pipe_split(t)[k].len() && #[trigger] pipe_split(t)[k][j] == t[i] by {
            if i == t.len() - 1 {
                let k = r.len() - 1;
                assert(pipe_split(t)[k] == r.last().push(t.last()));
                assert(pipe_split(t)[k][r.last().len() as int] == t[i]);
            } else {
                assert(front[i] == t[i]);
                let (k, j) = choose|k: int, j: int| 0 <= k < r.len() && 0 <= j < r[k].len() && #[trigger] r[k][j] == front[i];
                if t.last() is Pipe {
                    assert(pipe_split(t)[k] == r[k]);
                    assert(pipe_split(t)[k][j] == t[i]);
                } else if k == r.len() - 1 {
                    assert(pipe_split(t)[k] == r.last().push(t.last()));
                    assert(pipe_split(t)[k][j] == t[i]);
                } else {
                    assert(pipe_split(t)[k] == r[k]);
                    assert(pipe_split(t)[k][j] == t[i]);
                }
            }
        }
    }
}

/// What the parser accepts: a line that parses has no `;`, `(` or `)` at all, and each
/// of its pipeline segments is non-empty, with `&` only as the segment's last token.
pub proof fn law_parsed_lines_are_supported(t: Seq<SpecToken>)
    requires
        spec_parse(t) is Ok,
    ensures
        forall|i: int| 0 <= i < t.len() ==> !is_unsupported(#[trigger] t[i]),
        forall|k: int| 0 <= k < pipe_split(t).len() ==> (#[trigger] pipe_split(t)[k]).len() > 0,
        forall|k: int, j: int| 0 <= k < pipe_split(t).len() && 0 <= j < pipe_split(t)[k].len() - 1
            ==> !(#[trigger] pipe_split(t)[k][j] is Ampersand),
{
    let segs = pipe_split(t);
    lemma_segments_ok(segs);
    assert forall|k: int, j: int| 0 <= k < segs.len() && 0 <= j < segs[k].len()
        implies !is_unsupported(#[trigger] segs[k][j]) && (j < segs[k].len() - 1 ==> !(segs[k][j] is Ampersand)) by {
        let s = segs[k];
        assert(spec_parse_segment(s) is Ok);
        let background = s.len() > 0 && s.last() is Ampersand;
        let end = if background { s.len() - 1 } else { s.len() as int };
        lemma_scan_ok_tokens(s, end, 0, seq![], seq![]);
        if j == s.len() - 1 && background {
            assert(s[j] is Ampersand);
        }
    }
    assert forall|k: int| 0 <= k < segs.len() implies (#[trigger] segs[k]).len() > 0 by {
        assert(spec_parse_segment(segs[k]) is Ok);
    }
    lemma_split_covers(t);
    assert forall|i: int| 0 <= i < t.len() implies !is_unsupported(#[trigger] t[i]) by {
        if !(t[i] is Pipe) {
            let (k, j) = choose|k: int, j: int| 0 <= k < segs.len() && 0 <= j < segs[k].len() && #[trigger] segs[k][j] == t[i];
            assert(!is_unsupported(segs[k][j]));
        }
    }
}

fn stream_of(t: &Token) -> (r: Option<RedirectStream>)
    ensures
        r == redirect_stream_of(t@),
{
    match t {
        Token::RedirectStdout => Some(RedirectStream::Stdout),
        Token::RedirectStdoutAppend => Some(RedirectStream::StdoutAppend),
        Token::RedirectStderr => Some(RedirectStream::Stderr),
        Token::RedirectStderrAppend => Some(RedirectStream::StderrAppend),
        _ => None,
    }
}

impl Parser {
    /// Parses a token list, as [`spec_parse`] describes.
    pub fn parse(tokens: Vec<Token>) -> (r: Result<ASTNode, String>)
        ensures
            parse_result_view(r) == spec_parse(tokens_view(tokens@)),
    {
        if tokens.len() == 0 {
            return Err("no tokens to parse".to_string());
        }
        Self::parse_pipeline(&tokens)
    }

    fn parse_pipeline(tokens: &Vec<Token>) -> (r: Result<ASTNode, String>)
        requires
            tokens.len() > 0,
        ensures
            parse_result_view(r) == spec_parse_segments(pipe_split(tokens_view(tokens@))),
    {
        let ghost tv = tokens_view(tokens@);
        let n = tokens.len();
        let mut acc: Option<ASTNode> = None;
        let mut seg_start: usize = 0;
        let mut j: usize = 0;
        let ghost mut done: Seq<Seq<SpecToken>> = seq![];
        assert(tv.take(0) =~= Seq::<SpecToken>::empty());
        assert(pipe_split(tv.take(0)) =~= done.push(tv.subrange(0, 0)));
        loop
            invariant
                n == tokens.len(),
                tv == tokens_view(tokens@),
                seg_start <= j <= n,
                pipe_split(tv.take(j as int)) == done.push(tv.subrange(seg_start as int, j as int)),
                (done.len() == 0) == (acc is None),
                acc matches Some(a) ==> spec_parse_segments(done) == Ok::<SpecAst, Seq<char>>(a@),
            decreases n - j,
        {
            let at_end = j == n;
            let is_pipe = if at_end { false } else { match &tokens[j] { Token::Pipe => true, _ => false } };
            if at_end || is_pipe {
                let ghost seg = tv.subrange(seg_start as int, j as int);
                let ghost segs = done.push(seg);
                proof {
                    assert(segs.drop_last() =~= done);
                    if !at_end {
                        assert(tv.take(j + 1).drop_last() =~= tv.take(j as int));
                        assert(pipe_split(tv.take(j + 1)) == segs.push(seq![]));
                        lemma_split_prefix(tv, j + 1, n as int);
                        assert(tv.take(n as int) =~= tv);
                        assert(segs.push(seq![]).drop_last() =~= segs);
                    } else {
                        assert(tv.take(n as int) =~= tv);
                    }
                }
                let seg_result: Result<ASTNode, String> = if seg_start == j {
                    Err("invalid null command".to_string())
                } else {
                    Self::parse_command(tokens, seg_start, j)
                };
                assert(parse_result_view(seg_result) == spec_parse_segment(seg));
                match seg_result {
                    Err(e) => {
                        proof {
                            assert(spec_parse_segments(segs) == Err::<SpecAst, Seq<char>>(e@));
                            if !at_end {
                                lemma_segments_err_prefix(segs, pipe_split(tv));
                            }
                        }
                        return Err(e);
                    },
                    Ok(cmd) => {
                        let next = match acc {
                            None => cmd,
                            Some(a) => ASTNode::Pipe { left: Box::new(a), right: Box::new(cmd) },
                        };
                        assert(spec_parse_segments(segs) == Ok::<SpecAst, Seq<char>>(next@));
                        if at_end {
                            return Ok(next);
                        }
                        acc = Some(next);
                        proof {
                            done = segs;
                        }
                        seg_start = j + 1;
                        j = j + 1;
                        assert(tv.subrange(seg_start as int, j as int) =~= Seq::<SpecToken>::empty());
                        assert(pipe_split(tv.take(j as int)) =~= done.push(tv.subrange(seg_start as int, j as int)));
                    },
                }
            } else {
                proof {
                    assert(tv.take(j + 1).drop_last() =~= tv.take(j as int));
                    lemma_split_len(tv.take(j as int));
                    assert(tv.subrange(seg_start as int, j + 1) =~= tv.subrange(seg_start as int, j as int).push(tv[j as int]));
                }
                j = j + 1;
                assert(pipe_split(tv.take(j as int)) =~= done.push(tv.subrange(seg_start as int, j as int)));
            }
        }
    }

    fn parse_command(tokens: &Vec<Token>, start: usize, end: usize) -> (r: Result<ASTNode, String>)
        requires
            start < end <= tokens.len(),
        ensures
            parse_result_view(r) == spec_parse_command(tokens_view(tokens@).subrange(start as int, end as int)),
    {
        let ghost t = tokens_view(tokens@).subrange(start as int, end as int);
        let background = match &tokens[end - 1] { Token::Ampersand => true, _ => false };
        assert(t.last() == tokens@[end - 1]@);
        if background && end - start == 1 {
            return Err("expected command before &".to_string());
        }
        let stop = if background { end - 1 } else { end };
        let mut words: Vec<String> = Vec::new();
        let mut redirs: Vec<(RedirectStream, String)> = Vec::new();
        let mut k: usize = start;
        let ghost e = stop - start;
        assert(strings_view(words@) =~= seq![]);
        assert(redirs_view(redirs@) =~= seq![]);
        while k < stop
            invariant
                start <= k,
                start < end <= tokens.len(),
                stop <= end,
                stop == (if background { end - 1 } else { end as int }),
                e == stop - start,
                t == tokens_view(tokens@).subrange(start as int, end as int),
                k <= stop,
                background ==> tokens@[end - 1]@ is Ampersand,
                background == (t.len() > 0 && t.last() is Ampersand),
                t.len() == end - start,
                !(background && t.len() == 1),
                !background ==> stop == end,
                scan_command(t, e, k - start, strings_view(words@), redirs_view(redirs@))
                    == scan_command(t, e, 0, seq![], seq![]),
            decreases stop - k,
        {
            let ghost i = k - start;
            assert(t[i] == tokens@[k as int]@);
            match stream_of(&tokens[k]) {
                Some(stream) => {
                    let file = if k + 1 < end { tokens[k + 1].as_word() } else { None };
                    match file {
                        Some(f) => {
                            assert(t[i + 1] == tokens@[k + 1]@);
                            let ghost before = redirs_view(redirs@);
                            redirs.push((stream, f.to_string()));
                            assert(redirs_view(redirs@) =~= before.push((stream, t[i + 1]->Word_0)));
                            k = k + 2;
                            assert(k <= stop) by {
                                if background && k == end {
                                    assert(t[i + 1] == tokens@[end - 1]@);
                                }
                            }
                        },
                        None => {
                            proof {
                                assert(t.len() == end - start);
                                if k + 1 < end {
                                    assert(t[i + 1] == tokens@[k + 1]@);
                                }
                                assert(!(i + 1 < t.len() && t[i + 1] is Word));
                                assert(scan_command(t, e, i, strings_view(words@), redirs_view(redirs@))
                                    == Err::<Scanned, Seq<char>>("expected file after redirection"@));
                            }
                            return Err("expected file after redirection".to_string());
                        },
                    }
                },
                None => {
                    match &tokens[k] {
                        Token::Word(w) => {
                            let ghost before = strings_view(words@);
                            words.push(w.clone());
                            assert(strings_view(words@) =~= before.push(w@));
                            k = k + 1;
                        },
                        Token::Semicolon => {
                            return Err("sequences are not supported yet".to_string());
                        },
                        Token::Ampersand => {
                            return Err("background jobs are only supported at end of command".to_string());
                        },
                        Token::LeftParen => {
                            return Err("subshells are not supported yet".to_string());
                        },
                        Token::RightParen => {
                            return Err("subshells are not supported yet".to_string());
                        },
                        Token::Pipe => {
                            return Err("unexpected pipe in command".to_string());
                        },
                        _ => {
                            assert(false);
                            return Err("unexpected pipe in command".to_string());
                        },
                    }
                },
            }
        }
        assert(scan_command(t, e, k - start, strings_view(words@), redirs_view(redirs@))
            == Ok::<Scanned, Seq<char>>((strings_view(words@), redirs_view(redirs@))));
        if words.len() == 0 {
            return Err("expected command name".to_string());
        }
        let name = words[0].clone();
        let mut args: Vec<String> = Vec::new();
        let mut a: usize = 1;
        while a < words.len()
            invariant
                1 <= a <= words.len(),
                args.len() == a - 1,
                forall|x: int| 0 <= x < args.len() ==> #[trigger] args@[x]@ == words@[x + 1]@,
            decreases words.len() - a,
        {
            args.push(words[a].clone());
            a = a + 1;
        }
        assert(strings_view(args@) =~= strings_view(words@).drop_first());
        let mut cmd = ASTNode::Command { name, args };
        let ghost base = cmd@;
        let mut x: usize = 0;
        assert(redirs_view(redirs@).take(0) =~= seq![]);
        while x < redirs.len()
            invariant
                x <= redirs.len(),
                cmd@ == wrap_redirects(base, redirs_view(redirs@).take(x as int)),
            decreases redirs.len() - x,
        {
            let (stream, file) = (redirs[x].0, redirs[x].1.clone());
            cmd = ASTNode::Redirect { command: Box::new(cmd), file, stream };
            x = x + 1;
            assert(redirs_view(redirs@).take(x as int).drop_last() =~= redirs_view(redirs@).take(x - 1));
        }
        assert(redirs_view(redirs@).take(x as int) =~= redirs_view(redirs@));
        if background {
            Ok(ASTNode::Background { command: Box::new(cmd) })
        } else {
            Ok(cmd)
        }
    }
}

} // verus!
