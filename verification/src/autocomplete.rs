//! Tab completion: command names, then a command's arguments.
use vstd::prelude::*;

use crate::ast::strings_view;
use crate::strmap::{StrMap, lists_sorted, pairs_view};
use crate::text::{
    is_unicode_whitespace, is_whitespace, skip_ws_backward, skip_ws_forward, string_from_range, to_chars,
    trim_end, trim_start,
};

verus! {

/// Completes the first word of a line from the built-in commands and the
/// executables found on `PATH`, and later words from a completion script or a directory.
pub struct ShellAutocomplete {
    builtins: Vec<String>,
}

/// `s` begins with `p`.
pub open spec fn starts_with(s: Seq<char>, p: Seq<char>) -> bool {
    s.len() >= p.len() && s.take(p.len() as int) == p
}

/// The names that complete `prefix`, each mapped to itself.
pub open spec fn completion_candidates(builtins: Seq<Seq<char>>, executables: Seq<Seq<char>>, prefix: Seq<char>) -> Map<Seq<char>, Seq<char>> {
    Map::new(
        |s: Seq<char>| starts_with(s, prefix) && (builtins.contains(s) || executables.contains(s)),
        |s: Seq<char>| s,
    )
}

/// The text to complete: the line up to the cursor, when the cursor is at the end and
/// the line holds no white space.
pub open spec fn spec_command_prefix(line: Seq<char>, at_end: bool) -> Option<Seq<char>> {
    if !at_end || exists|i: int| 0 <= i < line.len() && is_unicode_whitespace(#[trigger] line[i]) {
        None
    } else {
        Some(line)
    }
}

/// Whether `s` begins with `p`.
pub(crate) fn starts_with_chars(s: &Vec<char>, p: &Vec<char>) -> (r: bool)
    ensures
        r == starts_with(s@, p@),
{
    if s.len() < p.len() {
        return false;
    }
    let mut i: usize = 0;
    while i < p.len()
        invariant
            i <= p.len() <= s.len(),
            forall|j: int| 0 <= j < i ==> s@[j] == p@[j],
        decreases p.len() - i,
    {
        if s[i] != p[i] {
            assert(s@.take(p.len() as int)[i as int] != p@[i as int]);
            return false;
        }
        i = i + 1;
    }
    assert(s@.take(p.len() as int) =~= p@);
    true
}

/// Whether a line holds white space.
fn has_whitespace(c: &Vec<char>) -> (r: bool)
    ensures
        r == exists|i: int| 0 <= i < c@.len() && is_unicode_whitespace(#[trigger] c@[i]),
{
    let mut i: usize = 0;
    while i < c.len()
        invariant
            i <= c.len(),
            forall|j: int| 0 <= j < i ==> !is_unicode_whitespace(#[trigger] c@[j]),
        decreases c.len() - i,
    {
        if is_whitespace(c[i]) {
            return true;
        }
        i = i + 1;
    }
    false
}

/// The text before the cursor when it can be completed, as [`spec_command_prefix`] says
/// (`pos` is the cursor's byte offset).
pub fn command_prefix(line: &str, pos: usize) -> (r: Option<String>)
    ensures
        match spec_command_prefix(line@, pos == (vstd::utf8::encode_utf8(line@).len() as usize)) {
            Some(p) => r is Some && r->0@ == p,
            None => r is None,
        },
{
    if pos != line.len() {
        return None;
    }
    let c = to_chars(line);
    if has_whitespace(&c) {
        None
    } else {
        Some(line.to_string())
    }
}

fn add_matches(found: &mut StrMap<String>, names: &Vec<String>, prefix: &Vec<char>)
    ensures
        final(found).map().map_values(|v: String| v@) == Map::new(
            |s: Seq<char>| old(found).map().map_values(|v: String| v@).dom().contains(s)
                || (starts_with(s, prefix@) && strings_view(names@).contains(s)),
            |s: Seq<char>| if old(found).map().map_values(|v: String| v@).dom().contains(s) {
                old(found).map().map_values(|v: String| v@)[s]
            } else {
                s
            },
        ),
{
    let ghost start = old(found).map().map_values(|v: String| v@);
    let ghost nv = strings_view(names@);
    let mut i: usize = 0;
    assert(found.map().map_values(|v: String| v@) =~= Map::new(
        |s: Seq<char>| start.dom().contains(s) || (starts_with(s, prefix@) && nv.take(0).contains(s)),
        |s: Seq<char>| if start.dom().contains(s) { start[s] } else { s },
    ));
    while i < names.len()
        invariant
            i <= names.len(),
            nv == strings_view(names@),
            found.map().map_values(|v: String| v@) == Map::new(
                |s: Seq<char>| start.dom().contains(s) || (starts_with(s, prefix@) && nv.take(i as int).contains(s)),
                |s: Seq<char>| if start.dom().contains(s) { start[s] } else { s },
            ),
        decreases names.len() - i,
    {
        let name = &names[i];
        let nc = to_chars(name.as_str());
        assert(nv[i as int] == name@);
        let ghost before = found.map().map_values(|v: String| v@);
        let ghost prev = nv.take(i as int);
        proof {
            assert(nv.take(i + 1) =~= prev.push(name@));
        }
        let matches = starts_with_chars(&nc, prefix);
        let present = found.get(name.as_str()).is_some();
        if matches && !present {
            found.insert(name.clone(), name.clone());
        }
        proof {
            let after = found.map().map_values(|v: String| v@);
            assert(present == before.dom().contains(name@));
            if matches && !present {
                assert(after =~= before.insert(name@, name@));
            } else {
                assert(after =~= before);
            }
            let target = Map::new(
                |s: Seq<char>| start.dom().contains(s) || (starts_with(s, prefix@) && nv.take(i + 1).contains(s)),
                |s: Seq<char>| if start.dom().contains(s) { start[s] } else { s },
            );
            assert forall|s: Seq<char>| after.dom().contains(s) == target.dom().contains(s) by {
                crate::builtins::lemma_push_contains(prev, name@, s);
                assert(before.dom().contains(s) == (start.dom().contains(s) || (starts_with(s, prefix@) && prev.contains(s))));
            }
            assert forall|s: Seq<char>| after.dom().contains(s) implies after[s] == target[s] by {
                crate::builtins::lemma_push_contains(prev, name@, s);
                assert(before.dom().contains(s) == (start.dom().contains(s) || (starts_with(s, prefix@) && prev.contains(s))));
                if before.dom().contains(s) {
                    assert(before[s] == (if start.dom().contains(s) { start[s] } else { s }));
                }
            }
            assert(after =~= target);
        }
        i = i + 1;
    }
    assert(nv.take(names.len() as int) =~= nv);
}

/// `e` lists the names of `m`, as (display, replacement) pairs: each once, in
/// increasing order, a single one followed by a space.
pub open spec fn lists_candidates(m: Map<Seq<char>, Seq<char>>, e: Seq<(Seq<char>, Seq<char>)>) -> bool {
    &&& m.dom().finite()
    &&& e.len() == m.dom().len()
    &&& forall|i: int, j: int| 0 <= i < j < e.len() ==> crate::strmap::seq_lt(#[trigger] e[i].0, #[trigger] e[j].0)
    &&& forall|i: int| 0 <= i < e.len() ==> m.dom().contains(#[trigger] e[i].0)
        && e[i].1 == if e.len() == 1 { e[i].0.push(' ') } else { e[i].0 }
}

/// The names among `names` that start with `word`, each mapped to itself.
pub open spec fn name_candidates(names: Seq<Seq<char>>, word: Seq<char>) -> Map<Seq<char>, Seq<char>> {
    Map::new(|s: Seq<char>| starts_with(s, word) && names.contains(s), |s: Seq<char>| s)
}

/// The keys of `found` as completion pairs, as [`lists_candidates`] says.
fn list_with_space(found: &StrMap<String>) -> (r: Vec<(String, String)>)
    ensures
        lists_candidates(found.map().map_values(|v: String| v@), pairs_view(r@)),
{
    let listed = found.pairs();
    let single = listed.len() == 1;
    let mut r: Vec<(String, String)> = Vec::new();
    let mut i: usize = 0;
    while i < listed.len()
        invariant
            i <= listed.len(),
            single == (listed.len() == 1),
            r.len() == i,
            forall|j: int| 0 <= j < i ==> (#[trigger] r@[j]).0@ == listed@[j].0@
                && r@[j].1@ == if single { listed@[j].0@.push(' ') } else { listed@[j].0@ },
        decreases listed.len() - i,
    {
        let display = listed[i].0.clone();
        let mut replacement = listed[i].0.clone();
        if single {
            replacement.push(' ');
        }
        r.push((display, replacement));
        i = i + 1;
    }
    proof {
        let e = pairs_view(r@);
        let l = pairs_view(listed@);
        assert forall|j: int| 0 <= j < e.len() implies e[j].0 == l[j].0 by {}
    }
    r
}

/// The number of bytes that `c` takes in UTF-8.
pub open spec fn utf8_width(c: char) -> nat {
    if c <= '\u{7f}' { 1 } else if c <= '\u{7ff}' { 2 } else if c <= '\u{ffff}' { 3 } else { 4 }
}

/// The number of bytes that `s` takes in UTF-8.
pub open spec fn utf8_len(s: Seq<char>) -> nat
    decreases s.len(),
{
    if s.len() == 0 { 0 } else { utf8_len(s.drop_last()) + utf8_width(s.last()) }
}

/// The first `k` at or after `from` whose first `k` characters take `pos` bytes.
pub open spec fn cursor_from(line: Seq<char>, from: int, pos: nat) -> Option<int>
    decreases line.len() - from,
{
    if from < 0 || from > line.len() {
        None
    } else if utf8_len(line.take(from)) == pos {
        Some(from)
    } else if from == line.len() {
        None
    } else {
        cursor_from(line, from + 1, pos)
    }
}

/// The number of characters before the byte offset `pos` of `line`, when `pos` falls
/// between two characters (or at an end).
pub open spec fn cursor_index(line: Seq<char>, pos: nat) -> Option<int> {
    cursor_from(line, 0, pos)
}

/// Where the last word of `s` starts: just after its last white-space character.
pub open spec fn last_word_start(s: Seq<char>) -> int
    decreases s.len(),
{
    if s.len() == 0 {
        0
    } else if is_unicode_whitespace(s.last()) {
        s.len() as int
    } else {
        last_word_start(s.drop_last())
    }
}

/// The number of leading characters of `s` that are not white space.
pub open spec fn word_len(s: Seq<char>) -> nat
    decreases s.len(),
{
    if s.len() > 0 && !is_unicode_whitespace(s[0]) { 1 + word_len(s.drop_first()) } else { 0 }
}

/// The first word of `s`.
pub open spec fn first_word(s: Seq<char>) -> Seq<char> {
    let t = trim_start(s);
    t.take(word_len(t) as int)
}

/// For the text before the cursor at byte `pos` of `line`: the byte offset where the
/// word being completed starts, the command (the first word), the word being completed
/// (the last word, maybe empty) and the word before it. `None` when `pos` does not fall
/// between two characters.
pub open spec fn spec_argument_words(line: Seq<char>, pos: nat) -> Option<(nat, Seq<char>, Seq<char>, Seq<char>)> {
    match cursor_index(line, pos) {
        None => None,
        Some(k) => {
            let before = line.take(k);
            let w = last_word_start(before);
            let earlier = trim_end(before.take(w));
            Some((
                utf8_len(before.take(w)),
                first_word(before),
                before.skip(w),
                earlier.skip(last_word_start(earlier)),
            ))
        },
    }
}

/// `r` completes the word before the cursor from `names`: it starts where that word
/// starts and lists the names that begin with the word; nothing when the cursor does
/// not fall between two characters.
pub open spec fn completes_argument(
    line: Seq<char>,
    pos: nat,
    names: Seq<Seq<char>>,
    r: (usize, Seq<(Seq<char>, Seq<char>)>),
) -> bool {
    match spec_argument_words(line, pos) {
        None => r.0 == 0 && r.1.len() == 0,
        Some((start, _command, word, _previous)) => r.0 == start && lists_candidates(name_candidates(names, word), r.1),
    }
}

/// The names that argument completion draws on: the lines the completion script
/// printed, or else the entries of the directory.
pub open spec fn argument_names(script_output: Option<Vec<String>>, dir_entries: Seq<String>) -> Seq<Seq<char>> {
    match script_output {
        Some(v) => strings_view(v@),
        None => strings_view(dir_entries),
    }
}

proof fn lemma_utf8_len_grows(line: Seq<char>, k: int, j: int)
    requires
        0 <= k <= j <= line.len(),
    ensures
        utf8_len(line.take(k)) <= utf8_len(line.take(j)),
    decreases j - k,
{
    if k < j {
        lemma_utf8_len_grows(line, k, j - 1);
        assert(line.take(j).drop_last() =~= line.take(j - 1));
    }
}

proof fn lemma_cursor_past(line: Seq<char>, from: int, pos: nat)
    requires
        0 <= from <= line.len(),
        utf8_len(line.take(from)) > pos,
    ensures
        cursor_from(line, from, pos) is None,
    decreases line.len() - from,
{
    if from < line.len() {
        lemma_utf8_len_grows(line, from, from + 1);
        lemma_cursor_past(line, from + 1, pos);
    }
}

fn utf8_width_of(c: char) -> (r: usize)
    ensures
        r == utf8_width(c),
{
    if c <= '\u{7f}' { 1 } else if c <= '\u{7ff}' { 2 } else if c <= '\u{ffff}' { 3 } else { 4 }
}

/// The number of characters of `c` before byte `pos`, as [`cursor_index`] says.
fn cursor_at(c: &Vec<char>, pos: usize) -> (r: Option<usize>)
    ensures
        match cursor_index(c@, pos as nat) {
            Some(k) => r == Some(k as usize) && k <= c.len(),
            None => r is None,
        },
        r matches Some(k) ==> k <= c.len() && cursor_index(c@, pos as nat) == Some(k as int)
            && utf8_len(c@.take(k as int)) == pos,
{
    let mut k: usize = 0;
    let mut bytes: usize = 0;
    assert(c@.take(0) =~= Seq::<char>::empty());
    while k <= c.len()
        invariant
            k <= c.len() + 1,
            k <= c.len() ==> bytes == utf8_len(c@.take(k as int)),
            bytes <= pos,
            cursor_index(c@, pos as nat) == cursor_from(c@, k as int, pos as nat),
        decreases c.len() + 1 - k,
    {
        if bytes == pos {
            return Some(k);
        }
        if k == c.len() {
            return None;
        }
        let w = utf8_width_of(c[k]);
        assert(c@.take(k + 1).drop_last() =~= c@.take(k as int));
        if w > pos - bytes {
            proof {
                lemma_cursor_past(c@, k + 1, pos as nat);
            }
            return None;
        }
        bytes = bytes + w;
        k = k + 1;
    }
    None
}

/// The number of bytes of `c[..k]`.
fn utf8_len_of(c: &Vec<char>, k: usize) -> (r: usize)
    requires
        k <= c.len(),
        utf8_len(c@.take(k as int)) <= usize::MAX,
    ensures
        r == utf8_len(c@.take(k as int)),
{
    let mut i: usize = 0;
    let mut bytes: usize = 0;
    assert(c@.take(0) =~= Seq::<char>::empty());
    while i < k
        invariant
            i <= k <= c.len(),
            bytes == utf8_len(c@.take(i as int)),
            utf8_len(c@.take(k as int)) <= usize::MAX,
        decreases k - i,
    {
        assert(c@.take(i + 1).drop_last() =~= c@.take(i as int));
        proof { lemma_utf8_len_grows(c@, i + 1, k as int); }
        bytes = bytes + utf8_width_of(c[i]);
        i = i + 1;
    }
    bytes
}

/// Where the last word of `c[..k]` starts, as [`last_word_start`] says.
fn last_word_start_of(c: &Vec<char>, k: usize) -> (r: usize)
    requires
        k <= c.len(),
    ensures
        r as int == last_word_start(c@.take(k as int)),
        r <= k,
{
    let mut j = k;
    while j > 0 && !is_whitespace(c[j - 1])
        invariant
            j <= k <= c.len(),
            last_word_start(c@.take(k as int)) == last_word_start(c@.take(j as int)),
        decreases j,
    {
        assert(c@.take(j as int).drop_last() =~= c@.take(j - 1));
        j = j - 1;
    }
    j
}

proof fn lemma_word_len(t: Seq<char>, m: int)
    requires
        0 <= m <= t.len(),
        forall|j: int| 0 <= j < m ==> !is_unicode_whitespace(#[trigger] t[j]),
        m == t.len() || is_unicode_whitespace(t[m]),
    ensures
        word_len(t) == m,
    decreases m,
{
    if m > 0 {
        lemma_word_len(t.drop_first(), m - 1);
    }
}

/// For the cursor at byte `pos` of `line`, as [`spec_argument_words`] says: the byte
/// offset of the word being completed, the command, that word and the word before it.
pub fn argument_words(line: &str, pos: usize) -> (r: Option<(usize, String, String, String)>)
    ensures
        match spec_argument_words(line@, pos as nat) {
            Some((start, command, word, previous)) => r matches Some((rs, rc, rw, rp))
                && rs == start && rc@ == command && rw@ == word && rp@ == previous,
            None => r is None,
        },
{
    let c = to_chars(line);
    let k = match cursor_at(&c, pos) {
        Some(k) => k,
        None => return None,
    };
    let ghost before = c@.take(k as int);
    let w = last_word_start_of(&c, k);
    proof {
        lemma_utf8_len_grows(c@, w as int, k as int);
        assert(before.take(w as int) =~= c@.take(w as int));
    }
    let start = utf8_len_of(&c, w);
    // the command: the first word
    let a = skip_ws_forward(&c, 0, k);
    let mut e = a;
    while e < k && !is_whitespace(c[e])
        invariant
            a <= e <= k <= c.len(),
            forall|j: int| a <= j < e ==> !is_unicode_whitespace(#[trigger] c@[j]),
        decreases k - e,
    {
        e = e + 1;
    }
    proof {
        assert(c@.subrange(0, k as int) =~= before);
        let t = trim_start(before);
        assert(t =~= c@.subrange(a as int, k as int));
        assert forall|j: int| 0 <= j < e - a implies !is_unicode_whitespace(#[trigger] t[j]) by {
            assert(t[j] == c@[a + j]);
        }
        if e < k {
            assert(t[e - a] == c@[e as int]);
        }
        lemma_word_len(t, e - a);
        assert(first_word(before) =~= c@.subrange(a as int, e as int));
    }
    let command = string_from_range(&c, a, e);
    let word = string_from_range(&c, w, k);
    assert(before.skip(w as int) =~= c@.subrange(w as int, k as int));
    // the word before: the last word of what precedes the current one, trimmed
    let b = skip_ws_backward(&c, 0, w);
    proof {
        assert(c@.subrange(0, w as int) =~= before.take(w as int));
        assert(trim_end(before.take(w as int)) =~= c@.take(b as int));
    }
    let p = last_word_start_of(&c, b);
    assert(c@.take(b as int).skip(p as int) =~= c@.subrange(p as int, b as int));
    let previous = string_from_range(&c, p, b);
    Some((start, command, word, previous))
}

/// Completion of an argument: the word before the cursor at byte `pos` is completed from
/// the lines that the command's completion script printed (`script_output`) or, without
/// a script, from the entries of the directory, as [`completes_argument`] says.
pub fn complete_argument(
    line: &str,
    pos: usize,
    script_output: Option<Vec<String>>,
    dir_entries: &Vec<String>,
) -> (r: (usize, Vec<(String, String)>))
    ensures
        completes_argument(line@, pos as nat, argument_names(script_output, dir_entries@), (r.0, pairs_view(r.1@))),
{
    let ghost names = argument_names(script_output, dir_entries@);
    match argument_words(line, pos) {
        None => (0, Vec::new()),
        Some((start, _command, word, _previous)) => {
            let wc = to_chars(word.as_str());
            let mut found: StrMap<String> = StrMap::new();
            match &script_output {
                Some(lines) => add_matches(&mut found, lines, &wc),
                None => add_matches(&mut found, dir_entries, &wc),
            }
            assert(found.map().map_values(|v: String| v@) =~= name_candidates(names, word@));
            (start, list_with_space(&found))
        },
    }
}

impl ShellAutocomplete {
    /// The names of the built-in commands.
    pub closed spec fn builtin_names(&self) -> Seq<Seq<char>> {
        strings_view(self.builtins@)
    }

    /// `e` lists, as (display, replacement) pairs, the built-ins and `executables` that
    /// start with `prefix`: each once, in increasing order, a single one followed by a space.
    pub open spec fn lists_matches(&self, executables: Seq<Seq<char>>, prefix: Seq<char>, e: Seq<(Seq<char>, Seq<char>)>) -> bool {
        lists_candidates(completion_candidates(self.builtin_names(), executables, prefix), e)
    }

    /// A completer that knows every built-in command and `type`.
    pub fn new() -> (r: Self)
        ensures
            r.builtin_names() == seq![
                "cat"@, "cd"@, "complete"@, "declare"@, "echo"@, "exit"@, "history"@, "jobs"@,
                "ls"@, "mkdir"@, "pwd"@, "rm"@, "touch"@, "type"@,
            ],
    {
        let mut builtins: Vec<String> = Vec::new();
        builtins.push("cat".to_string());
        builtins.push("cd".to_string());
        builtins.push("complete".to_string());
        builtins.push("declare".to_string());
        builtins.push("echo".to_string());
        builtins.push("exit".to_string());
        builtins.push("history".to_string());
        builtins.push("jobs".to_string());
        builtins.push("ls".to_string());
        builtins.push("mkdir".to_string());
        builtins.push("pwd".to_string());
        builtins.push("rm".to_string());
        builtins.push("touch".to_string());
        builtins.push("type".to_string());
        let r = ShellAutocomplete { builtins };
        assert(r.builtin_names() =~= seq![
            "cat"@, "cd"@, "complete"@, "declare"@, "echo"@, "exit"@, "history"@, "jobs"@,
            "ls"@, "mkdir"@, "pwd"@, "rm"@, "touch"@, "type"@,
        ]);
        r
    }

    /// The built-ins and executables that start with `prefix`, each once, in increasing
    /// order, as (display, replacement) pairs; a single match is completed with a space.
    pub fn command_matches(&self, prefix: &str, executables: &Vec<String>) -> (r: Vec<(String, String)>)
        ensures
            self.lists_matches(strings_view(executables@), prefix@, pairs_view(r@)),
    {
        let p = to_chars(prefix);
        let mut found: StrMap<String> = StrMap::new();
        add_matches(&mut found, &self.builtins, &p);
        add_matches(&mut found, executables, &p);
        let ghost m = completion_candidates(self.builtin_names(), strings_view(executables@), prefix@);
        assert(found.map().map_values(|v: String| v@) =~= m);
        list_with_space(&found)
    }

    /// Completion of `line` with the cursor at byte `pos`. With the cursor at the end of a
    /// line without white space, the candidates are command names (from offset 0);
    /// otherwise the word before the cursor is completed as an argument, from
    /// `script_output` (what the command's completion script printed) or, without a
    /// script, from `dir_entries`.
    pub fn complete(
        &self,
        line: &str,
        pos: usize,
        executables: &Vec<String>,
        script_output: Option<Vec<String>>,
        dir_entries: &Vec<String>,
    ) -> (r: (usize, Vec<(String, String)>))
        ensures
            match spec_command_prefix(line@, pos == (vstd::utf8::encode_utf8(line@).len() as usize)) {
                Some(p) => r.0 == 0 && self.lists_matches(strings_view(executables@), p, pairs_view(r.1@)),
                None => completes_argument(
                    line@,
                    pos as nat,
                    argument_names(script_output, dir_entries@),
                    (r.0, pairs_view(r.1@)),
                ),
            },
    {
        match command_prefix(line, pos) {
            Some(prefix) => (0, self.command_matches(prefix.as_str(), executables)),
            None => complete_argument(line, pos, script_output, dir_entries),
        }
    }
}

} // verus!
