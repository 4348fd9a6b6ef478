//! The program's start: its command-line arguments and the `.env` file.
use vstd::prelude::*;

use crate::ast::strings_view;
use crate::autocomplete::{starts_with, starts_with_chars};
use crate::builtins::opt_view;
use crate::strmap::pairs_view;
use crate::text::{
    find_from, parse_u64, skip_ws_backward, skip_ws_forward, str_eq, string_from_range, to_chars,
    trim, trim_start, unsigned_value,
};

verus! {

/// The arguments from position `i` on, given the `--path` value and the other
/// arguments met before `i`; `None` when `--path` is the last argument.
pub open spec fn startup_from(
    args: Seq<Seq<char>>,
    i: int,
    path: Option<Seq<char>>,
    rest: Seq<Seq<char>>,
) -> Option<(Option<Seq<char>>, Seq<Seq<char>>)>
    decreases args.len() - i,
{
    if i < 0 || i >= args.len() {
        Some((path, rest))
    } else if args[i] == "--path"@ {
        if i + 1 < args.len() {
            startup_from(args, i + 2, Some(args[i + 1]), rest)
        } else {
            None
        }
    } else if starts_with(args[i], "--path="@) {
        startup_from(args, i + 1, Some(args[i].skip("--path="@.len() as int)), rest)
    } else {
        startup_from(args, i + 1, path, rest.push(args[i]))
    }
}

/// The directory given by `--path DIR` or `--path=DIR` (the last one wins) and the
/// other arguments in order; `None` when `--path` has no value.
pub open spec fn spec_startup_args(args: Seq<Seq<char>>) -> Option<(Option<Seq<char>>, Seq<Seq<char>>)> {
    startup_from(args, 0, None, Seq::empty())
}

/// Takes `--path DIR` and `--path=DIR` out of the arguments: the directory, if any, and
/// the other arguments. A `--path` without a value is an error.
pub fn parse_startup_args(args: &Vec<String>) -> (r: Result<(Option<String>, Vec<String>), String>)
    ensures
        match spec_startup_args(strings_view(args@)) {
            Some((path, rest)) => r is Ok && opt_view(r->Ok_0.0) == path
                && strings_view(r->Ok_0.1@) == rest,
            None => r is Err && r->Err_0@ == "missing value for --path"@,
        },
{
    let ghost a = strings_view(args@);
    let prefix = to_chars("--path=");
    let mut path: Option<String> = None;
    let mut rest: Vec<String> = Vec::new();
    let mut i: usize = 0;
    assert(strings_view(rest@) =~= Seq::<Seq<char>>::empty());
    while i < args.len()
        invariant
            i <= args.len(),
            a == strings_view(args@),
            prefix@ == "--path="@,
            spec_startup_args(a) == startup_from(a, i as int, opt_view(path), strings_view(rest@)),
        decreases args.len() - i,
    {
        let arg = &args[i];
        assert(a[i as int] == arg@);
        if str_eq(arg.as_str(), "--path") {
            if i + 1 < args.len() {
                assert(a[i + 1] == args@[i + 1]@);
                path = Some(args[i + 1].clone());
                i = i + 2;
            } else {
                return Err("missing value for --path".to_string());
            }
        } else {
            let c = to_chars(arg.as_str());
            if starts_with_chars(&c, &prefix) {
                path = Some(string_from_range(&c, prefix.len(), c.len()));
                assert(c@.subrange(prefix.len() as int, c.len() as int) =~= arg@.skip("--path="@.len() as int));
                i = i + 1;
            } else {
                let ghost before = rest@;
                rest.push(arg.clone());
                assert(strings_view(rest@) =~= strings_view(before).push(arg@));
                i = i + 1;
            }
        }
    }
    Ok((path, rest))
}

/// `s` read as a `u16`, as `u16::from_str` reads it.
pub open spec fn port_value(s: Seq<char>) -> Option<u16> {
    match unsigned_value(s) {
        Some(v) => if v <= 65535 { Some(v as u16) } else { None },
        None => None,
    }
}

/// For arguments that start with `serve` or `--serve`: the host (`host`, else
/// `0.0.0.0`) and the port (the second argument, else `port`, else 7878, each taken
/// only when it reads as a port number). `None` for other arguments.
pub open spec fn spec_server_args(
    args: Seq<Seq<char>>,
    host: Option<Seq<char>>,
    port: Option<Seq<char>>,
) -> Option<(Seq<char>, u16)> {
    if args.len() == 0 || !(args[0] == "serve"@ || args[0] == "--serve"@) {
        None
    } else {
        let h = match host {
            Some(h) => h,
            None => any_address(),
        };
        let from_env = match port {
            Some(p) => port_value(p),
            None => None,
        };
        let from_args = if args.len() > 1 { port_value(args[1]) } else { None };
        let p = match from_args {
            Some(v) => v,
            None => match from_env {
                Some(v) => v,
                None => 7878u16,
            },
        };
        Some((h, p))
    }
}

/// The IPv4 address that stands for every interface, `0.0.0.0`.
pub open spec fn any_address() -> Seq<char> {
    seq!['0', '.', '0', '.', '0', '.', '0']
}

fn any_address_string() -> (r: String)
    ensures
        r@ == any_address(),
{
    let mut s = String::new();
    let mut k: usize = 0;
    while k < 4
        invariant
            k <= 4,
            s@.len() == 2 * k - if k > 0 { 1int } else { 0 },
            s@ == any_address().take(s@.len() as int),
        decreases 4 - k,
    {
        if k > 0 {
            s.push('.');
        }
        s.push('0');
        k = k + 1;
    }
    s
}

/// `s` read as a port number.
fn parse_port(s: &str) -> (r: Option<u16>)
    ensures
        r == port_value(s@),
{
    match parse_u64(s) {
        Some(v) => if v <= 65535 { Some(v as u16) } else { None },
        None => None,
    }
}

/// Whether the arguments ask for the HTTP server, and on which host and port.
/// `host` and `port` are the values of `BYOSHELL_HOST` and `PORT`, if set.
pub fn parse_server_args(args: &Vec<String>, host: Option<String>, port: Option<String>) -> (r: Option<(String, u16)>)
    ensures
        match spec_server_args(strings_view(args@), opt_view(host), opt_view(port)) {
            Some((h, p)) => r matches Some((rh, rp)) && rh@ == h && rp == p,
            None => r is None,
        },
{
    let ghost a = strings_view(args@);
    if args.len() == 0 {
        return None;
    }
    assert(a[0] == args@[0]@);
    if !(str_eq(args[0].as_str(), "serve") || str_eq(args[0].as_str(), "--serve")) {
        return None;
    }
    let h = match host {
        Some(h) => h,
        None => any_address_string(),
    };
    let from_env = match &port {
        Some(p) => parse_port(p.as_str()),
        None => None,
    };
    let from_args = if args.len() > 1 {
        assert(a[1] == args@[1]@);
        parse_port(args[1].as_str())
    } else {
        None
    };
    let p = match from_args {
        Some(v) => v,
        None => match from_env {
            Some(v) => v,
            None => 7878,
        },
    };
    Some((h, p))
}

/// The length of the first line of `s` (up to its first newline, or all of it).
pub open spec fn newline_index(s: Seq<char>) -> nat
    decreases s.len(),
{
    if s.len() == 0 || s[0] == '\n' { 0 } else { 1 + newline_index(s.drop_first()) }
}

/// The number of leading `ch` in `s`.
pub open spec fn leading_char(s: Seq<char>, ch: char) -> nat
    decreases s.len(),
{
    if s.len() > 0 && s[0] == ch { 1 + leading_char(s.drop_first(), ch) } else { 0 }
}

/// The number of trailing `ch` in `s`.
pub open spec fn trailing_char(s: Seq<char>, ch: char) -> nat
    decreases s.len(),
{
    if s.len() > 0 && s.last() == ch { 1 + trailing_char(s.drop_last(), ch) } else { 0 }
}

/// `s` without leading and then trailing `ch` (as `str::trim_matches` with a `char`).
pub open spec fn trim_char(s: Seq<char>, ch: char) -> Seq<char> {
    let t = s.skip(leading_char(s, ch) as int);
    t.take(t.len() - trailing_char(t, ch))
}

/// The value of an assignment: trimmed, then without surrounding `"` and then `'`.
pub open spec fn env_value(v: Seq<char>) -> Seq<char> {
    trim_char(trim_char(trim(v), '"'), '\'')
}

/// The assignment that a line of an `.env` file makes: none for a blank line, a
/// comment (`#`), a line without `=` or with a blank name.
pub open spec fn env_entry(line: Seq<char>) -> Option<(Seq<char>, Seq<char>)> {
    let t = trim(line);
    if t.len() == 0 || t[0] == '#' {
        None
    } else {
        match find_from(t, seq!['='], 0) {
            None => None,
            Some(e) => {
                let key = trim(t.take(e));
                if key.len() == 0 {
                    None
                } else {
                    Some((key, env_value(t.skip(e + 1))))
                }
            },
        }
    }
}

/// The assignments of an `.env` file, line by line.
pub open spec fn env_assignments(s: Seq<char>) -> Seq<(Seq<char>, Seq<char>)>
    decreases s.len(),
{
    if s.len() == 0 {
        Seq::empty()
    } else {
        let k = newline_index(s);
        let here = match env_entry(s.take(k as int)) {
            Some(e) => seq![e],
            None => Seq::empty(),
        };
        if k < s.len() {
            here + env_assignments(s.skip(k as int + 1))
        } else {
            here
        }
    }
}

proof fn lemma_newline_index(s: Seq<char>, m: int)
    requires
        0 <= m <= s.len(),
        forall|j: int| 0 <= j < m ==> #[trigger] s[j] != '\n',
        m == s.len() || s[m] == '\n',
    ensures
        newline_index(s) == m,
    decreases m,
{
    if m > 0 {
        lemma_newline_index(s.drop_first(), m - 1);
    }
}

proof fn lemma_leading_char(s: Seq<char>, ch: char, i: int)
    requires
        0 <= i <= s.len(),
        forall|j: int| 0 <= j < i ==> #[trigger] s[j] == ch,
        i == s.len() || s[i] != ch,
    ensures
        leading_char(s, ch) == i,
    decreases i,
{
    if i > 0 {
        lemma_leading_char(s.drop_first(), ch, i - 1);
    }
}

proof fn lemma_trailing_char(s: Seq<char>, ch: char, i: int)
    requires
        0 <= i <= s.len(),
        forall|j: int| i <= j < s.len() ==> #[trigger] s[j] == ch,
        i == 0 || s[i - 1] != ch,
    ensures
        trailing_char(s, ch) == s.len() - i,
    decreases s.len() - i,
{
    if i < s.len() {
        lemma_trailing_char(s.drop_last(), ch, i);
    }
}

/// The bounds of `c[from..to]` without leading and trailing white space.
fn trim_bounds(c: &Vec<char>, from: usize, to: usize) -> (r: (usize, usize))
    requires
        from <= to <= c.len(),
    ensures
        from <= r.0 <= r.1 <= to,
        c@.subrange(r.0 as int, r.1 as int) == trim(c@.subrange(from as int, to as int)),
{
    let a = skip_ws_forward(c, from, to);
    let b = skip_ws_backward(c, a, to);
    proof {
        let s = c@.subrange(from as int, to as int);
        assert(trim_start(s) =~= c@.subrange(a as int, to as int));
        assert(trim(s) =~= c@.subrange(a as int, b as int));
    }
    (a, b)
}

/// The bounds of `c[from..to]` without leading and then trailing `ch`.
fn trim_char_bounds(c: &Vec<char>, from: usize, to: usize, ch: char) -> (r: (usize, usize))
    requires
        from <= to <= c.len(),
    ensures
        from <= r.0 <= r.1 <= to,
        c@.subrange(r.0 as int, r.1 as int) == trim_char(c@.subrange(from as int, to as int), ch),
{
    let ghost s = c@.subrange(from as int, to as int);
    let mut a = from;
    while a < to && c[a] == ch
        invariant
            from <= a <= to <= c.len(),
            forall|j: int| from <= j < a ==> #[trigger] c@[j] == ch,
        decreases to - a,
    {
        a = a + 1;
    }
    proof {
        assert forall|j: int| 0 <= j < a - from implies #[trigger] s[j] == ch by {
            assert(s[j] == c@[from + j]);
        }
        if a < to {
            assert(s[a - from] == c@[a as int]);
        }
        lemma_leading_char(s, ch, a - from);
    }
    let mut b = to;
    while b > a && c[b - 1] == ch
        invariant
            from <= a <= b <= to <= c.len(),
            forall|j: int| b <= j < to ==> #[trigger] c@[j] == ch,
        decreases b - a,
    {
        b = b - 1;
    }
    proof {
        let t = s.skip(a - from);
        assert(t =~= c@.subrange(a as int, to as int));
        assert forall|j: int| b - a <= j < t.len() implies #[trigger] t[j] == ch by {
            assert(t[j] == c@[a + j]);
        }
        if b > a {
            assert(t[b - a - 1] == c@[b - 1]);
        }
        lemma_trailing_char(t, ch, b - a);
        assert(trim_char(s, ch) =~= c@.subrange(a as int, b as int));
    }
    (a, b)
}

/// The assignment made by the line `c[from..to]`, if any.
fn env_entry_of(c: &Vec<char>, from: usize, to: usize) -> (r: Option<(String, String)>)
    requires
        from <= to <= c.len(),
    ensures
        match env_entry(c@.subrange(from as int, to as int)) {
            Some((k, v)) => r matches Some((rk, rv)) && rk@ == k && rv@ == v,
            None => r is None,
        },
{
    let ghost line = c@.subrange(from as int, to as int);
    let (a, b) = trim_bounds(c, from, to);
    let ghost t = c@.subrange(a as int, b as int);
    if a == b || c[a] == '#' {
        proof {
            if a < b {
                assert(t[0] == c@[a as int]);
            }
        }
        return None;
    }
    assert(t[0] == c@[a as int]);
    let mut e = a;
    while e < b && c[e] != '='
        invariant
            a <= e <= b <= c.len(),
            t == c@.subrange(a as int, b as int),
            forall|j: int| a <= j < e ==> #[trigger] c@[j] != '=',
            find_from(t, seq!['='], 0) == find_from(t, seq!['='], e - a),
        decreases b - e,
    {
        assert(t[e - a] == c@[e as int]);
        assert(t.subrange(e - a, e - a + 1) =~= seq![c@[e as int]]);
        assert(t.subrange(e - a, e - a + 1)[0] != seq!['='][0]);
        assert(!crate::text::occurs_at(t, seq!['='], e - a));
        e = e + 1;
    }
    if e == b {
        assert(find_from(t, seq!['='], e - a) is None);
        return None;
    }
    assert(t.subrange(e - a, e - a + 1) =~= seq!['=']);
    assert(find_from(t, seq!['='], e - a) == Some(e - a));
    let (ka, kb) = trim_bounds(c, a, e);
    assert(c@.subrange(a as int, e as int) =~= t.take(e - a));
    if ka == kb {
        return None;
    }
    let (va, vb) = trim_bounds(c, e + 1, b);
    assert(c@.subrange(e + 1, b as int) =~= t.skip(e - a + 1));
    let (qa, qb) = trim_char_bounds(c, va, vb, '"');
    let (sa, sb) = trim_char_bounds(c, qa, qb, '\'');
    Some((string_from_range(c, ka, kb), string_from_range(c, sa, sb)))
}

/// The assignments of an `.env` file with the contents `contents`, in order: each line is
/// trimmed; blank lines, comments and lines without `=` are skipped; the name and the
/// value are trimmed and the value loses surrounding quotes. Whether a variable is
/// already set is for the caller to check.
pub fn parse_env_file(contents: &str) -> (r: Vec<(String, String)>)
    ensures
        pairs_view(r@) == env_assignments(contents@),
{
    let c = to_chars(contents);
    let mut r: Vec<(String, String)> = Vec::new();
    let mut start: usize = 0;
    assert(c@.skip(0) =~= c@);
    while start < c.len()
        invariant
            start <= c.len(),
            c@ == contents@,
            pairs_view(r@) + env_assignments(c@.skip(start as int)) == env_assignments(c@),
        decreases c.len() - start,
    {
        let ghost s = c@.skip(start as int);
        let mut j = start;
        while j < c.len() && c[j] != '\n'
            invariant
                start <= j <= c.len(),
                forall|m: int| start <= m < j ==> #[trigger] c@[m] != '\n',
            decreases c.len() - j,
        {
            j = j + 1;
        }
        proof {
            assert forall|m: int| 0 <= m < j - start implies #[trigger] s[m] != '\n' by {
                assert(s[m] == c@[start + m]);
            }
            if j < c.len() {
                assert(s[j - start] == c@[j as int]);
            }
            lemma_newline_index(s, j - start);
            assert(s.take(j - start) =~= c@.subrange(start as int, j as int));
        }
        let entry = env_entry_of(&c, start, j);
        let ghost before = r@;
        let ghost here = match env_entry(s.take(j - start)) {
            Some(e) => seq![e],
            None => Seq::<(Seq<char>, Seq<char>)>::empty(),
        };
        match entry {
            Some(p) => {
                r.push(p);
            },
            None => {},
        }
        assert(pairs_view(r@) =~= pairs_view(before) + here);
        if j < c.len() {
            assert(s.skip(j - start + 1) =~= c@.skip(j + 1));
            assert(pairs_view(r@) + env_assignments(c@.skip(j + 1)) =~= pairs_view(before) + env_assignments(s));
            start = j + 1;
        } else {
            assert(c@.skip(j as int) =~= Seq::<char>::empty());
            assert(pairs_view(r@) =~= pairs_view(before) + env_assignments(s));
            start = j;
        }
    }
    assert(c@.skip(start as int) =~= Seq::<char>::empty());
    assert(pairs_view(r@) =~= env_assignments(c@));
    r
}

} // verus!
