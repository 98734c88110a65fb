//! The environment variable manager: `NAME=VALUE` parsing, `.env` lines,
//! shell rc persistence lines and the listing of variables.

use vstd::prelude::*;
use crate::sort::{appears, is_stable_sort_order, law_stable_sort_exists, stable_sort_of, stable_sort_order};
use crate::text::{
    char_vecs_of, chars_of, contains, contains_chars, ends_with_chars, index_of, index_of_exec,
    is_prefix, is_suffix, is_whitespace_char, is_ws, join, join_chars, lemma_index_of,
    lemma_lines_append_line, lemma_lines_close, lemma_lines_join, lemma_replace_avoids,
    lemma_split_nonempty, lemma_split_pieces_avoid, lines, lines_chars, push_all, replace, strip_cr,
    replace_chars, seq_le, slice_chars, split, starts_with_chars, string_of, string_views, strings_of,
    trim, trim_chars, trim_end, trim_start, trim_start_chars, views,
};

verus! {

pub open spec fn is_name_start(c: char) -> bool {
    ('A' <= c && c <= 'Z') || ('a' <= c && c <= 'z') || c == '_'
}

pub open spec fn is_name_char(c: char) -> bool {
    is_name_start(c) || ('0' <= c && c <= '9')
}

/// A well-formed variable name: a letter or `_`, then letters, digits or `_`.
pub open spec fn is_var_name(n: Seq<char>) -> bool {
    &&& n.len() > 0
    &&& is_name_start(n[0])
    &&& forall|i: int| 1 <= i < n.len() ==> is_name_char(#[trigger] n[i])
}

/// The leading run of non-whitespace characters (`split_whitespace().next()`
/// on a string without leading whitespace, or the empty string).
pub open spec fn first_token(s: Seq<char>) -> Seq<char>
    decreases s.len(),
{
    if s.len() == 0 || is_ws(s[0]) {
        Seq::empty()
    } else {
        seq![s[0]] + first_token(s.drop_first())
    }
}

pub open spec fn is_quoted_by(v: Seq<char>, q: char) -> bool {
    v.len() > 0 && v[0] == q && v.last() == q
}

pub open spec fn unescape_double(inner: Seq<char>) -> Seq<char> {
    replace(
        replace(replace(inner, seq!['\\', 'n'], seq!['\n']), seq!['\\', '"'], seq!['"']),
        seq!['\\', '\\'],
        seq!['\\'],
    )
}

pub open spec fn unescape_single(inner: Seq<char>) -> Seq<char> {
    replace(replace(inner, seq!['\\', '\''], seq!['\'']), seq!['\\', '\\'], seq!['\\'])
}

/// The value denoted by the (trimmed) text after `=`: a quoted value loses
/// its quotes and some escapes, an unquoted one is cut at the first whitespace.
pub open spec fn env_value(v: Seq<char>) -> Seq<char> {
    if is_quoted_by(v, '"') || is_quoted_by(v, '\'') {
        let inner = v.subrange(1, v.len() - 1);
        if v[0] == '"' {
            unescape_double(inner)
        } else {
            unescape_single(inner)
        }
    } else {
        first_token(v)
    }
}

pub open spec fn name_part(s: Seq<char>) -> Seq<char> {
    trim(s.take(index_of(s, '=')))
}

pub open spec fn value_part(s: Seq<char>) -> Seq<char> {
    trim(s.skip(index_of(s, '=') + 1))
}

/// The value is a lone quote character: it both opens and closes a quoted
/// value, and taking the text between the quotes would slice out of bounds.
pub open spec fn parse_panics(s: Seq<char>) -> bool {
    &&& index_of(s, '=') >= 0
    &&& is_var_name(name_part(s))
    &&& value_part(s).len() == 1
    &&& (value_part(s)[0] == '"' || value_part(s)[0] == '\'')
}

/// `NAME=VALUE` split at the first `=`, with a well-formed trimmed name.
pub open spec fn spec_parse_name_value(s: Seq<char>) -> Option<(Seq<char>, Seq<char>)> {
    if index_of(s, '=') < 0 || !is_var_name(name_part(s)) {
        None
    } else {
        Some((name_part(s), env_value(value_part(s))))
    }
}

fn is_var_name_exec(n: &Vec<char>) -> (b: bool)
    ensures
        b == is_var_name(n@),
{
    if n.len() == 0 {
        return false;
    }
    let c0 = n[0];
    if !(('A' <= c0 && c0 <= 'Z') || ('a' <= c0 && c0 <= 'z') || c0 == '_') {
        return false;
    }
    let mut i: usize = 1;
    while i < n.len()
        invariant
            1 <= i <= n.len(),
            forall|j: int| 1 <= j < i ==> is_name_char(#[trigger] n@[j]),
        decreases n.len() - i,
    {
        let c = n[i];
        if !(('A' <= c && c <= 'Z') || ('a' <= c && c <= 'z') || c == '_' || ('0' <= c && c
            <= '9')) {
            return false;
        }
        i += 1;
    }
    true
}

proof fn lemma_first_token_take(s: Seq<char>, k: int)
    requires
        0 <= k <= s.len(),
        forall|i: int| 0 <= i < k ==> !is_ws(#[trigger] s[i]),
        k == s.len() || is_ws(s[k]),
    ensures
        first_token(s) == s.take(k),
    decreases k,
{
    if k > 0 {
        lemma_first_token_take(s.drop_first(), k - 1);
        assert(s.take(k) =~= seq![s[0]] + s.drop_first().take(k - 1));
    } else {
        assert(s.take(0) =~= Seq::<char>::empty());
    }
}

fn first_token_chars(v: &Vec<char>) -> (r: Vec<char>)
    ensures
        r@ == first_token(v@),
{
    let mut k: usize = 0;
    while k < v.len() && !is_whitespace_char(v[k])
        invariant
            k <= v.len(),
            forall|i: int| 0 <= i < k ==> !is_ws(#[trigger] v@[i]),
        decreases v.len() - k,
    {
        k += 1;
    }
    proof {
        lemma_first_token_take(v@, k as int);
        assert(v@.take(k as int) =~= v@.subrange(0, k as int));
    }
    slice_chars(v, 0, k)
}

fn env_value_chars(v: &Vec<char>) -> (r: Vec<char>)
    requires
        !(v.len() == 1 && (v@[0] == '"' || v@[0] == '\'')),
    ensures
        r@ == env_value(v@),
{
    let n = v.len();
    if n > 0 && ((v[0] == '"' && v[n - 1] == '"') || (v[0] == '\'' && v[n - 1] == '\'')) {
        let inner = slice_chars(v, 1, n - 1);
        let bs: Vec<char> = vec!['\\', '\\'];
        assert(bs@ =~= seq!['\\', '\\']);
        let b1: Vec<char> = vec!['\\'];
        assert(b1@ =~= seq!['\\']);
        if v[0] == '"' {
            let p1: Vec<char> = vec!['\\', 'n'];
            assert(p1@ =~= seq!['\\', 'n']);
            let r1: Vec<char> = vec!['\n'];
            assert(r1@ =~= seq!['\n']);
            let p2: Vec<char> = vec!['\\', '"'];
            assert(p2@ =~= seq!['\\', '"']);
            let r2: Vec<char> = vec!['"'];
            assert(r2@ =~= seq!['"']);
            let a = replace_chars(&inner, &p1, &r1);
            let b = replace_chars(&a, &p2, &r2);
            replace_chars(&b, &bs, &b1)
        } else {
            let p1: Vec<char> = vec!['\\', '\''];
            assert(p1@ =~= seq!['\\', '\'']);
            let r1: Vec<char> = vec!['\''];
            assert(r1@ =~= seq!['\'']);
            let a = replace_chars(&inner, &p1, &r1);
            replace_chars(&a, &bs, &b1)
        }
    } else {
        first_token_chars(v)
    }
}

/// Parsing on characters; `None` when there is no `=` or the name is malformed.
pub fn parse_name_value_chars(v: &Vec<char>) -> (r: Option<(Vec<char>, Vec<char>)>)
    requires
        !parse_panics(v@),
    ensures
        r matches Some(p) ==> spec_parse_name_value(v@) == Some((p.0@, p.1@)),
        r is None ==> spec_parse_name_value(v@) is None,
{
    let found = index_of_exec(v, '=');
    proof {
        lemma_index_of(v@, '=');
    }
    let idx = match found {
        Some(i) => i,
        None => return None,
    };
    assert(idx < v.len());
    let before = slice_chars(v, 0, idx);
    assert(before@ =~= v@.take(idx as int));
    let name = trim_chars(&before);
    if !is_var_name_exec(&name) {
        return None;
    }
    let after = slice_chars(v, idx + 1, v.len());
    assert(after@ =~= v@.skip(idx + 1));
    let raw_value = trim_chars(&after);
    let value = env_value_chars(&raw_value);
    Some((name, value))
}

/// Parses `NAME=VALUE`: the name is the trimmed text before the first `=` and
/// must be well formed; a quoted value loses its quotes and has `\n`, `\"`,
/// `\'` and `\\` unescaped, an unquoted one is cut at the first whitespace.
pub fn parse_name_value(s: &str) -> (r: Option<(String, String)>)
    requires
        !parse_panics(s@),
    ensures
        r matches Some(p) ==> spec_parse_name_value(s@) == Some((p.0@, p.1@)),
        r is None ==> spec_parse_name_value(s@) is None,
{
    let v = chars_of(s);
    match parse_name_value_chars(&v) {
        Some((k, val)) => Some((string_of(&k), string_of(&val))),
        None => None,
    }
}

/// Would `parse_name_value` be handed a lone quote as its value?
pub fn parse_would_panic(s: &str) -> (b: bool)
    ensures
        b == parse_panics(s@),
{
    let v = chars_of(s);
    let idx = match index_of_exec(&v, '=') {
        Some(i) => i,
        None => return false,
    };
    proof {
        lemma_index_of(v@, '=');
    }
    let before = slice_chars(&v, 0, idx);
    assert(before@ =~= v@.take(idx as int));
    let name = trim_chars(&before);
    if !is_var_name_exec(&name) {
        return false;
    }
    let after = slice_chars(&v, idx + 1, v.len());
    assert(after@ =~= v@.skip(idx + 1));
    let raw_value = trim_chars(&after);
    raw_value.len() == 1 && (raw_value[0] == '"' || raw_value[0] == '\'')
}

} // verus!

verus! {

/// What one line of a `.env` file does.
pub enum EnvLine {
    /// Empty or a `#` comment: ignored.
    Blank,
    /// Sets a variable.
    Assign(String, String),
    /// Not a `NAME=VALUE` line; holds the trimmed line for the warning.
    Invalid(String),
}

pub enum EnvLineView {
    Blank,
    Assign(Seq<char>, Seq<char>),
    Invalid(Seq<char>),
}

impl View for EnvLine {
    type V = EnvLineView;

    open spec fn view(&self) -> EnvLineView {
        match self {
            EnvLine::Blank => EnvLineView::Blank,
            EnvLine::Assign(k, v) => EnvLineView::Assign(k@, v@),
            EnvLine::Invalid(t) => EnvLineView::Invalid(t@),
        }
    }
}

pub open spec fn export_prefix() -> Seq<char> {
    seq!['e', 'x', 'p', 'o', 'r', 't', ' ']
}

/// The trimmed line without a leading `export `.
pub open spec fn assignment_text(t: Seq<char>) -> Seq<char> {
    if is_prefix(export_prefix(), t) {
        t.skip(7)
    } else {
        t
    }
}

pub open spec fn is_blank_line(t: Seq<char>) -> bool {
    t.len() == 0 || t[0] == '#'
}

pub open spec fn env_line_panics(line: Seq<char>) -> bool {
    let t = trim(line);
    !is_blank_line(t) && parse_panics(assignment_text(t))
}

pub open spec fn spec_env_line(line: Seq<char>) -> EnvLineView {
    let t = trim(line);
    if is_blank_line(t) {
        EnvLineView::Blank
    } else {
        match spec_parse_name_value(assignment_text(t)) {
            Some(p) => EnvLineView::Assign(p.0, p.1),
            None => EnvLineView::Invalid(t),
        }
    }
}

fn export_prefix_chars() -> (r: Vec<char>)
    ensures
        r@ == export_prefix(),
{
    let r: Vec<char> = vec!['e', 'x', 'p', 'o', 'r', 't', ' '];
    assert(r@ =~= export_prefix());
    r
}

fn assignment_text_chars(t: &Vec<char>) -> (r: Vec<char>)
    ensures
        r@ == assignment_text(t@),
{
    let ex = export_prefix_chars();
    if starts_with_chars(t, &ex) {
        let r = slice_chars(t, 7, t.len());
        assert(r@ =~= t@.skip(7));
        r
    } else {
        slice_chars(t, 0, t.len())
    }
}

/// Classifies one line of a `.env` file: blank lines and `#` comments are
/// ignored, a leading `export ` is dropped and the rest parsed as `NAME=VALUE`.
pub fn classify_env_line(line: &str) -> (r: EnvLine)
    requires
        !env_line_panics(line@),
    ensures
        r@ == spec_env_line(line@),
{
    let v = chars_of(line);
    let t = trim_chars(&v);
    if t.len() == 0 || t[0] == '#' {
        return EnvLine::Blank;
    }
    let l = assignment_text_chars(&t);
    match parse_name_value_chars(&l) {
        Some((k, val)) => EnvLine::Assign(string_of(&k), string_of(&val)),
        None => EnvLine::Invalid(string_of(&t)),
    }
}

/// Would `classify_env_line` be handed a line whose value is a lone quote?
pub fn env_line_would_panic(line: &str) -> (b: bool)
    ensures
        b == env_line_panics(line@),
{
    let v = chars_of(line);
    let t = trim_chars(&v);
    if t.len() == 0 || t[0] == '#' {
        return false;
    }
    let l = assignment_text_chars(&t);
    let s = string_of(&l);
    parse_would_panic(s.as_str())
}

/// The lines of a file's contents, as `str::lines` splits them.
pub fn file_lines(content: &str) -> (r: Vec<String>)
    ensures
        string_views(r@) == lines(content@),
{
    let v = chars_of(content);
    let ls = lines_chars(&v);
    strings_of(&ls)
}

/// The value `append` stores: the new part alone, or joined to the current
/// value with `:`.
pub open spec fn spec_appended_value(current: Seq<char>, value: Seq<char>) -> Seq<char> {
    if current.len() == 0 {
        value
    } else {
        current + seq![':'] + value
    }
}

pub fn appended_value(current: &str, value: &str) -> (r: String)
    ensures
        r@ == spec_appended_value(current@, value@),
{
    let c = chars_of(current);
    let v = chars_of(value);
    if c.len() == 0 {
        string_of(&v)
    } else {
        let mut out = c;
        out.push(':');
        push_all(&mut out, &v);
        string_of(&out)
    }
}

pub open spec fn zshrc() -> Seq<char> {
    seq!['.', 'z', 's', 'h', 'r', 'c']
}

pub open spec fn bashrc() -> Seq<char> {
    seq!['.', 'b', 'a', 's', 'h', 'r', 'c']
}

pub open spec fn profile() -> Seq<char> {
    seq!['.', 'p', 'r', 'o', 'f', 'i', 'l', 'e']
}

/// The shell rc file: `.zshrc` for a shell path ending in `zsh`, else `.bashrc`.
pub open spec fn spec_rc_file_name(shell: Seq<char>) -> Seq<char> {
    if is_suffix(seq!['z', 's', 'h'], shell) {
        zshrc()
    } else {
        bashrc()
    }
}

pub fn rc_file_name(shell: &str) -> (r: String)
    ensures
        r@ == spec_rc_file_name(shell@),
{
    let v = chars_of(shell);
    let z: Vec<char> = vec!['z', 's', 'h'];
    assert(z@ =~= seq!['z', 's', 'h']);
    if ends_with_chars(&v, &z) {
        let r: Vec<char> = vec!['.', 'z', 's', 'h', 'r', 'c'];
        assert(r@ =~= zshrc());
        string_of(&r)
    } else {
        let r: Vec<char> = vec!['.', 'b', 'a', 's', 'h', 'r', 'c'];
        assert(r@ =~= bashrc());
        string_of(&r)
    }
}

/// The file used when the shell's rc file does not exist.
pub fn fallback_rc_file_name() -> (r: String)
    ensures
        r@ == profile(),
{
    let r: Vec<char> = vec!['.', 'p', 'r', 'o', 'f', 'i', 'l', 'e'];
    assert(r@ =~= profile());
    string_of(&r)
}

/// `export NAME='VALUE'` with each `'` of the value written as `'\''`.
pub open spec fn spec_export_line(name: Seq<char>, value: Seq<char>) -> Seq<char> {
    export_prefix() + name + seq!['=', '\''] + replace(
        value,
        seq!['\''],
        seq!['\'', '\\', '\'', '\''],
    ) + seq!['\'']
}

pub fn export_line(name: &str, value: &str) -> (r: String)
    ensures
        r@ == spec_export_line(name@, value@),
{
    let n = chars_of(name);
    let v = chars_of(value);
    let q: Vec<char> = vec!['\''];
    assert(q@ =~= seq!['\'']);
    let esc: Vec<char> = vec!['\'', '\\', '\'', '\''];
    assert(esc@ =~= seq!['\'', '\\', '\'', '\'']);
    let escaped = replace_chars(&v, &q, &esc);
    let mut out = export_prefix_chars();
    push_all(&mut out, &n);
    out.push('=');
    out.push('\'');
    push_all(&mut out, &escaped);
    out.push('\'');
    assert(out@ =~= spec_export_line(name@, value@));
    string_of(&out)
}

/// A line that sets exactly `name` in a shell rc file: after leading
/// whitespace (and not counting a `\r` at its end), `export `, then `name`,
/// then `=`, a space or the end of the line. A line for another variable
/// whose name merely starts with `name` is not one.
pub open spec fn is_export_of(line: Seq<char>, name: Seq<char>) -> bool {
    let t = trim_start(strip_cr(line));
    let rest = t.skip(7);
    &&& is_prefix(export_prefix(), t)
    &&& is_prefix(name, rest)
    &&& (rest.len() == name.len() || rest[name.len() as int] == '=' || rest[name.len() as int]
        == ' ')
}

/// The lines that are not exports of `name`, in order.
pub open spec fn lines_without_exports(ls: Seq<Seq<char>>, name: Seq<char>) -> Seq<Seq<char>>
    decreases ls.len(),
{
    if ls.len() == 0 {
        ls
    } else {
        let r = lines_without_exports(ls.drop_last(), name);
        if is_export_of(ls.last(), name) {
            r
        } else {
            r.push(ls.last())
        }
    }
}

/// The rc file contents with the exports of `name` removed: the other lines
/// (as `str::lines` reads them) joined by `\n`.
pub open spec fn spec_remove_exports(content: Seq<char>, name: Seq<char>) -> Seq<char> {
    join(lines_without_exports(lines(content), name), seq!['\n'])
}

fn is_export_of_exec(line: &Vec<char>, name: &Vec<char>) -> (b: bool)
    ensures
        b == is_export_of(line@, name@),
{
    let n = line.len();
    let body = if n > 0 && line[n - 1] == '\r' {
        slice_chars(line, 0, n - 1)
    } else {
        slice_chars(line, 0, n)
    };
    assert(line@.subrange(0, n as int) =~= line@);
    if n > 0 {
        assert(line@.subrange(0, n - 1) =~= line@.drop_last());
    }
    assert(body@ == strip_cr(line@));
    let t = trim_start_chars(&body);
    let ex = export_prefix_chars();
    if !starts_with_chars(&t, &ex) {
        return false;
    }
    let rest = slice_chars(&t, 7, t.len());
    assert(rest@ =~= t@.skip(7));
    if !starts_with_chars(&rest, name) {
        return false;
    }
    let k = name.len();
    k == rest.len() || rest[k] == '=' || rest[k] == ' '
}

/// Removes the exports of `name` from an rc file's contents, keeping the
/// other lines, joined by `\n`.
pub fn remove_exports(content: &str, name: &str) -> (r: String)
    ensures
        r@ == spec_remove_exports(content@, name@),
{
    let v = chars_of(content);
    let n = chars_of(name);
    let ls = lines_chars(&v);
    let ghost all = views(ls@);
    let mut kept: Vec<Vec<char>> = Vec::new();
    let mut k: usize = 0;
    while k < ls.len()
        invariant
            k <= ls.len(),
            all == views(ls@),
            views(kept@) == lines_without_exports(all.take(k as int), n@),
        decreases ls.len() - k,
    {
        assert(all.take(k + 1).drop_last() =~= all.take(k as int));
        if !is_export_of_exec(&ls[k], &n) {
            let copy = slice_chars(&ls[k], 0, ls[k].len());
            assert(copy@ =~= ls[k as int]@);
            let ghost old_kept = views(kept@);
            kept.push(copy);
            assert(views(kept@) =~= old_kept.push(all[k as int]));
        }
        k += 1;
    }
    assert(all.take(k as int) =~= all);
    let nl: Vec<char> = vec!['\n'];
    assert(nl@ =~= seq!['\n']);
    let out = join_chars(&kept, &nl);
    string_of(&out)
}

/// What persisting appends to an rc file holding `existing`: a `\n` first
/// when the file does not end with one (so the export starts a line of its
/// own), then the export line and its `\n`.
pub open spec fn spec_persist_text(existing: Seq<char>, name: Seq<char>, value: Seq<char>) -> Seq<
    char,
> {
    (if existing.len() > 0 && existing.last() != '\n' {
        seq!['\n']
    } else {
        Seq::empty()
    }) + spec_export_line(name, value) + seq!['\n']
}

pub fn persist_text(existing: &str, name: &str, value: &str) -> (r: String)
    ensures
        r@ == spec_persist_text(existing@, name@, value@),
{
    let e = chars_of(existing);
    let mut out: Vec<char> = Vec::new();
    if e.len() > 0 && e[e.len() - 1] != '\n' {
        out.push('\n');
    }
    let line = export_line(name, value);
    let lc = chars_of(line.as_str());
    push_all(&mut out, &lc);
    out.push('\n');
    assert(out@ =~= spec_persist_text(existing@, name@, value@));
    string_of(&out)
}

/// A command argument for `sh -c`: quoted when it holds a space.
pub open spec fn quote_arg(a: Seq<char>) -> Seq<char> {
    if contains(a, seq![' ']) {
        seq!['"'] + a + seq!['"']
    } else {
        a
    }
}

/// The command line run through the shell when the program is not found.
pub open spec fn spec_shell_command_line(cmd: Seq<Seq<char>>) -> Seq<char> {
    join(cmd.map_values(|a: Seq<char>| quote_arg(a)), seq![' '])
}

pub fn shell_command_line(cmd: &Vec<String>) -> (r: String)
    ensures
        r@ == spec_shell_command_line(string_views(cmd@)),
{
    let args = char_vecs_of(cmd);
    let ghost a = views(args@);
    let sp: Vec<char> = vec![' '];
    assert(sp@ =~= seq![' ']);
    let mut quoted: Vec<Vec<char>> = Vec::new();
    let mut k: usize = 0;
    while k < args.len()
        invariant
            k <= args.len(),
            a == views(args@),
            sp@ == seq![' '],
            views(quoted@) == a.map_values(|x: Seq<char>| quote_arg(x)).take(k as int),
        decreases args.len() - k,
    {
        let arg = &args[k];
        let q = if contains_chars(arg, &sp) {
            let mut q: Vec<char> = vec!['"'];
            push_all(&mut q, arg);
            q.push('"');
            q
        } else {
            slice_chars(arg, 0, arg.len())
        };
        assert(q@ =~= quote_arg(a[k as int]));
        let ghost old_q = views(quoted@);
        quoted.push(q);
        assert(views(quoted@) =~= old_q.push(quote_arg(a[k as int])));
        k += 1;
        assert(views(quoted@) =~= a.map_values(|x: Seq<char>| quote_arg(x)).take(k as int));
    }
    assert(a.map_values(|x: Seq<char>| quote_arg(x)).take(k as int) =~= a.map_values(
        |x: Seq<char>| quote_arg(x),
    ));
    let joined = join_chars(&quoted, &sp);
    string_of(&joined)
}

} // verus!

verus! {

/// Name for the result of `str::to_lowercase` (Unicode lower-case mapping),
/// a function of the string's characters alone.
pub uninterp spec fn lowercase(s: Seq<char>) -> Seq<char>;

/// Calls `str::to_lowercase`. The contract claims only that the result is
/// `lowercase` of the argument's characters; the mapping itself is not stated.
#[verifier::external_body]
fn to_lowercase(s: &str) -> (r: String)
    ensures
        r@ == lowercase(s@),
{
    s.to_lowercase()
}

pub open spec fn pair_views(v: Seq<(String, String)>) -> Seq<(Seq<char>, Seq<char>)> {
    v.map_values(|p: (String, String)| (p.0@, p.1@))
}

pub open spec fn lowercase_keys(v: Seq<(Seq<char>, Seq<char>)>) -> Seq<Seq<char>> {
    v.map_values(|p: (Seq<char>, Seq<char>)| lowercase(p.0))
}

/// The filter occurs, ignoring case, in the name or in the value.
pub open spec fn var_matches(p: (Seq<char>, Seq<char>), f: Seq<char>) -> bool {
    contains(lowercase(p.0), lowercase(f)) || contains(lowercase(p.1), lowercase(f))
}

pub open spec fn in_order<T>(v: Seq<T>, perm: Seq<usize>) -> Seq<T> {
    perm.map_values(|i: usize| v[i as int])
}

/// The variables that pass the filter, in order.
pub open spec fn matching_vars(v: Seq<(Seq<char>, Seq<char>)>, f: Option<Seq<char>>) -> Seq<
    (Seq<char>, Seq<char>),
>
    decreases v.len(),
{
    if v.len() == 0 {
        v
    } else {
        let r = matching_vars(v.drop_last(), f);
        if f is None || var_matches(v.last(), f->0) {
            r.push(v.last())
        } else {
            r
        }
    }
}

pub open spec fn opt_view(o: Option<&str>) -> Option<Seq<char>> {
    match o {
        Some(s) => Some(s@),
        None => None,
    }
}

/// The variables at the positions `perm` whose lower-cased name `lk[i]` or
/// value `lv[i]` contains the lower-cased filter `f` (all of them without a
/// filter), in the order of `perm`.
pub open spec fn select_from(
    vars: Seq<(Seq<char>, Seq<char>)>,
    lk: Seq<Seq<char>>,
    lv: Seq<Seq<char>>,
    f: Option<Seq<char>>,
    perm: Seq<usize>,
) -> Seq<(Seq<char>, Seq<char>)>
    decreases perm.len(),
{
    if perm.len() == 0 {
        Seq::empty()
    } else {
        let r = select_from(vars, lk, lv, f, perm.drop_last());
        let i = perm.last() as int;
        if f is None || contains(lk[i], f->0) || contains(lv[i], f->0) {
            r.push(vars[i])
        } else {
            r
        }
    }
}

/// The variables to show, given each one's lower-cased name and value and
/// the lower-cased filter: stably sorted by lower-cased name, then those
/// whose lower-cased name or value contains the filter.
pub open spec fn spec_select_vars(
    vars: Seq<(Seq<char>, Seq<char>)>,
    lk: Seq<Seq<char>>,
    lv: Seq<Seq<char>>,
    f: Option<Seq<char>>,
) -> Seq<(Seq<char>, Seq<char>)> {
    select_from(vars, lk, lv, f, stable_sort_of(lk))
}

/// Sorts and filters the variables, given each one's lower-cased name
/// (`lower_keys[i]`) and value (`lower_values[i]`) and the lower-cased
/// filter.
pub fn select_vars(
    vars: &Vec<(String, String)>,
    lower_keys: &Vec<String>,
    lower_values: &Vec<String>,
    lower_filter: Option<&str>,
) -> (r: Vec<(String, String)>)
    requires
        lower_keys.len() == vars.len(),
        lower_values.len() == vars.len(),
    ensures
        pair_views(r@) == spec_select_vars(
            pair_views(vars@),
            string_views(lower_keys@),
            string_views(lower_values@),
            opt_view(lower_filter),
        ),
{
    let ghost pv = pair_views(vars@);
    let ghost lk = string_views(lower_keys@);
    let ghost lv = string_views(lower_values@);
    let ghost f = opt_view(lower_filter);
    let keys = char_vecs_of(lower_keys);
    let values = char_vecs_of(lower_values);
    let perm = stable_sort_order(&keys);
    assert(views(keys@).len() == keys.len() && lk.len() == lower_keys.len());
    assert(views(values@).len() == values.len() && lv.len() == lower_values.len());
    let needle: Option<Vec<char>> = match lower_filter {
        Some(t) => Some(chars_of(t)),
        None => None,
    };
    let mut out: Vec<(String, String)> = Vec::new();
    let mut t: usize = 0;
    while t < perm.len()
        invariant
            t <= perm.len() == vars.len() == keys.len() == values.len(),
            pv == pair_views(vars@),
            views(keys@) == lk,
            views(values@) == lv,
            is_stable_sort_order(perm@, lk),
            perm@ == stable_sort_of(lk),
            needle is Some <==> f is Some,
            needle matches Some(n) ==> n@ == f->0,
            pair_views(out@) == select_from(pv, lk, lv, f, perm@.take(t as int)),
        decreases perm.len() - t,
    {
        let j = perm[t];
        assert(perm@[t as int] < vars.len());
        assert(perm@.take(t + 1).drop_last() =~= perm@.take(t as int));
        assert(perm@.take(t + 1).last() == j);
        let keep = match &needle {
            None => true,
            Some(n) => contains_chars(&keys[j], n) || contains_chars(&values[j], n),
        };
        if keep {
            let k = vars[j].0.clone();
            let v = vars[j].1.clone();
            let ghost old_out = pair_views(out@);
            out.push((k, v));
            assert(pair_views(out@) =~= old_out.push(pv[j as int]));
        }
        t += 1;
    }
    assert(perm@.take(t as int) =~= perm@);
    out
}

pub open spec fn lowercase_values(v: Seq<(Seq<char>, Seq<char>)>) -> Seq<Seq<char>> {
    v.map_values(|p: (Seq<char>, Seq<char>)| lowercase(p.1))
}

/// With the lower-cased names and values of the variables, the selection is
/// the variables in that order that pass the filter.
proof fn lemma_select_is_matching(
    vars: Seq<(Seq<char>, Seq<char>)>,
    f: Option<Seq<char>>,
    perm: Seq<usize>,
)
    requires
        forall|i: int| 0 <= i < perm.len() ==> #[trigger] perm[i] < vars.len(),
    ensures
        select_from(
            vars,
            lowercase_keys(vars),
            lowercase_values(vars),
            match f {
                Some(s) => Some(lowercase(s)),
                None => None,
            },
            perm,
        ) == matching_vars(in_order(vars, perm), f),
    decreases perm.len(),
{
    if perm.len() > 0 {
        let q = perm.drop_last();
        assert forall|i: int| 0 <= i < q.len() implies #[trigger] q[i] < vars.len() by {
            assert(q[i] == perm[i]);
        }
        lemma_select_is_matching(vars, f, q);
        assert(in_order(vars, perm).drop_last() =~= in_order(vars, q));
        assert(perm[perm.len() - 1] < vars.len());
    }
}

/// The variables to show: stably sorted by lower-cased name, then those
/// whose name or value contains the filter, ignoring case.
pub fn list_vars(vars: &Vec<(String, String)>, filter: Option<&str>) -> (r: Vec<(String, String)>)
    ensures
        pair_views(r@) == matching_vars(
            in_order(pair_views(vars@), stable_sort_of(lowercase_keys(pair_views(vars@)))),
            opt_view(filter),
        ),
{
    let ghost pv = pair_views(vars@);
    let mut keys: Vec<String> = Vec::new();
    let mut values: Vec<String> = Vec::new();
    let mut i: usize = 0;
    while i < vars.len()
        invariant
            i <= vars.len(),
            keys.len() == i,
            values.len() == i,
            pv == pair_views(vars@),
            string_views(keys@) == lowercase_keys(pv).take(i as int),
            string_views(values@) == lowercase_values(pv).take(i as int),
        decreases vars.len() - i,
    {
        let lower_key = to_lowercase(vars[i].0.as_str());
        let lower_value = to_lowercase(vars[i].1.as_str());
        let ghost old_keys = string_views(keys@);
        let ghost old_values = string_views(values@);
        keys.push(lower_key);
        values.push(lower_value);
        assert(string_views(keys@) =~= old_keys.push(lowercase(pv[i as int].0)));
        assert(string_views(values@) =~= old_values.push(lowercase(pv[i as int].1)));
        i += 1;
        assert(string_views(keys@) =~= lowercase_keys(pv).take(i as int));
        assert(string_views(values@) =~= lowercase_values(pv).take(i as int));
    }
    assert(lowercase_keys(pv).take(i as int) =~= lowercase_keys(pv));
    assert(lowercase_values(pv).take(i as int) =~= lowercase_values(pv));
    let lower_filter: Option<String> = match filter {
        Some(f) => Some(to_lowercase(f)),
        None => None,
    };
    let lf: Option<&str> = match &lower_filter {
        Some(s) => Some(s.as_str()),
        None => None,
    };
    let r = select_vars(vars, &keys, &values, lf);
    proof {
        let lk = lowercase_keys(pv);
        law_stable_sort_exists(lk);
        let perm = stable_sort_of(lk);
        assert forall|t: int| 0 <= t < perm.len() implies #[trigger] perm[t] < pv.len() by {}
        lemma_select_is_matching(pv, opt_view(filter), perm);
        assert(opt_view(lf) == match opt_view(filter) {
            Some(s) => Some(lowercase(s)),
            None => None::<Seq<char>>,
        });
    }
    r
}

} // verus!

verus! {

/// Law: a well-formed name, `=`, and a value without whitespace that does
/// not start with a quote parse back to that name and value.
pub proof fn law_parse_plain_assignment(name: Seq<char>, value: Seq<char>)
    requires
        is_var_name(name),
        forall|i: int| 0 <= i < value.len() ==> !is_ws(#[trigger] value[i]),
        value.len() > 0 ==> value[0] != '"' && value[0] != '\'',
    ensures
        spec_parse_name_value(name + seq!['='] + value) == Some((name, value)),
        !parse_panics(name + seq!['='] + value),
{
    let s = name + seq!['='] + value;
    assert forall|i: int| 0 <= i < name.len() implies name[i] != '=' by {
        if i > 0 {
            assert(is_name_char(name[i]));
        }
    }
    lemma_index_of(s, '=');
    let k = index_of(s, '=');
    assert(s[name.len() as int] == '=');
    if k < 0 || k != name.len() {
        if k >= 0 && k < name.len() {
            assert(s[k] == name[k]);
        }
        assert(false);
    }
    assert(s.take(k) =~= name);
    assert(s.skip(k + 1) =~= value);
    // the name has no whitespace at either end
    assert(!is_ws(name[0]));
    assert(trim_start(name) == name);
    if name.len() > 1 {
        assert(is_name_char(name[name.len() - 1]));
    }
    assert(!is_ws(name.last()));
    assert(trim_end(name) == name);
    // the value neither
    if value.len() > 0 {
        assert(!is_ws(value[0]));
        assert(trim_start(value) == value);
        assert(!is_ws(value.last()));
        assert(trim_end(value) == value);
    } else {
        assert(trim_start(value) == value);
        assert(trim_end(value) == value);
    }
    lemma_first_token_take(value, value.len() as int);
    assert(value.take(value.len() as int) =~= value);
}

} // verus!

verus! {

/// Law: without a filter every variable is listed.
pub proof fn law_no_filter_keeps_all(v: Seq<(Seq<char>, Seq<char>)>)
    ensures
        matching_vars(v, None) == v,
    decreases v.len(),
{
    if v.len() > 0 {
        law_no_filter_keeps_all(v.drop_last());
        assert(v.drop_last().push(v.last()) =~= v);
    }
}

/// Law: every variable listed under a filter contains it, ignoring case, in
/// its name or its value.
pub proof fn law_filter_only_keeps_matches(v: Seq<(Seq<char>, Seq<char>)>, f: Seq<char>)
    ensures
        forall|i: int|
            0 <= i < matching_vars(v, Some(f)).len() ==> var_matches(
                #[trigger] matching_vars(v, Some(f))[i],
                f,
            ),
    decreases v.len(),
{
    if v.len() > 0 {
        law_filter_only_keeps_matches(v.drop_last(), f);
        let r = matching_vars(v.drop_last(), Some(f));
        if var_matches(v.last(), f) {
            assert forall|i: int| 0 <= i < r.push(v.last()).len() implies var_matches(
                #[trigger] r.push(v.last())[i],
                f,
            ) by {
                if i < r.len() {
                    assert(r.push(v.last())[i] == r[i]);
                }
            }
        }
    }
}

} // verus!

verus! {

/// Variables in non-decreasing order of lower-cased name.
pub open spec fn sorted_by_lowercase_name(v: Seq<(Seq<char>, Seq<char>)>) -> bool {
    forall|i: int, j: int|
        0 <= i < j < v.len() ==> seq_le(lowercase(#[trigger] v[i].0), lowercase(#[trigger] v[j].0))
}

proof fn lemma_matching_from(v: Seq<(Seq<char>, Seq<char>)>, f: Option<Seq<char>>)
    ensures
        forall|i: int|
            0 <= i < matching_vars(v, f).len() ==> exists|t: int|
                0 <= t < v.len() && #[trigger] matching_vars(v, f)[i] == v[t],
    decreases v.len(),
{
    if v.len() > 0 {
        lemma_matching_from(v.drop_last(), f);
        let r = matching_vars(v.drop_last(), f);
        assert forall|i: int| 0 <= i < matching_vars(v, f).len() implies exists|t: int|
            0 <= t < v.len() && #[trigger] matching_vars(v, f)[i] == v[t] by {
            if i < r.len() {
                let t = choose|t: int| 0 <= t < v.drop_last().len() && #[trigger] r[i] == v.drop_last()[t];
                assert(matching_vars(v, f)[i] == r[i]);
                assert(v[t] == v.drop_last()[t]);
            } else {
                assert(matching_vars(v, f)[i] == v[v.len() - 1]);
            }
        }
    }
}

proof fn lemma_matching_sorted(v: Seq<(Seq<char>, Seq<char>)>, f: Option<Seq<char>>)
    requires
        sorted_by_lowercase_name(v),
    ensures
        sorted_by_lowercase_name(matching_vars(v, f)),
    decreases v.len(),
{
    if v.len() > 0 {
        let v0 = v.drop_last();
        assert forall|i: int, j: int| 0 <= i < j < v0.len() implies seq_le(
            lowercase(#[trigger] v0[i].0),
            lowercase(#[trigger] v0[j].0),
        ) by {
            assert(v0[i] == v[i]);
            assert(v0[j] == v[j]);
        }
        lemma_matching_sorted(v0, f);
        lemma_matching_from(v0, f);
        let r = matching_vars(v0, f);
        if f is None || var_matches(v.last(), f->0) {
            let m = r.push(v.last());
            assert forall|i: int, j: int| 0 <= i < j < m.len() implies seq_le(
                lowercase(#[trigger] m[i].0),
                lowercase(#[trigger] m[j].0),
            ) by {
                if j < r.len() {
                    assert(m[i] == r[i]);
                    assert(m[j] == r[j]);
                } else {
                    assert(m[i] == r[i]);
                    let t = choose|t: int| 0 <= t < v0.len() && #[trigger] r[i] == v0[t];
                    assert(v0[t] == v[t]);
                    assert(m[j] == v[v.len() - 1]);
                }
            }
        }
    }
}

/// Law: the variables are listed in case-insensitive order of their names,
/// with or without a filter.
pub proof fn law_listing_sorted(vars: Seq<(Seq<char>, Seq<char>)>, f: Option<Seq<char>>)
    requires
        vars.len() <= usize::MAX,
    ensures
        sorted_by_lowercase_name(
            matching_vars(in_order(vars, stable_sort_of(lowercase_keys(vars))), f),
        ),
{
    let keys = lowercase_keys(vars);
    law_stable_sort_exists(keys);
    let perm = stable_sort_of(keys);
    let v = in_order(vars, perm);
    assert forall|i: int, j: int| 0 <= i < j < v.len() implies seq_le(
        lowercase(#[trigger] v[i].0),
        lowercase(#[trigger] v[j].0),
    ) by {
        assert(seq_le(keys[perm[i] as int], keys[perm[j] as int]));
    }
    lemma_matching_sorted(v, f);
}

} // verus!

verus! {

/// Law: after a variable is removed no line of the rc file exports it, and
/// a file that never exported it keeps all its lines.
pub proof fn law_remove_leaves_no_export(ls: Seq<Seq<char>>, name: Seq<char>)
    ensures
        forall|i: int|
            0 <= i < lines_without_exports(ls, name).len() ==> !is_export_of(
                #[trigger] lines_without_exports(ls, name)[i],
                name,
            ),
        (forall|i: int| 0 <= i < ls.len() ==> !is_export_of(#[trigger] ls[i], name))
            ==> lines_without_exports(ls, name) == ls,
    decreases ls.len(),
{
    if ls.len() > 0 {
        law_remove_leaves_no_export(ls.drop_last(), name);
        let r = lines_without_exports(ls.drop_last(), name);
        if !is_export_of(ls.last(), name) {
            assert forall|i: int| 0 <= i < r.push(ls.last()).len() implies !is_export_of(
                #[trigger] r.push(ls.last())[i],
                name,
            ) by {
                if i < r.len() {
                    assert(r.push(ls.last())[i] == r[i]);
                }
            }
        }
        if forall|i: int| 0 <= i < ls.len() ==> !is_export_of(#[trigger] ls[i], name) {
            assert forall|i: int| 0 <= i < ls.drop_last().len() implies !is_export_of(
                #[trigger] ls.drop_last()[i],
                name,
            ) by {
                assert(ls.drop_last()[i] == ls[i]);
            }
            assert(!is_export_of(ls[ls.len() - 1], name));
            assert(ls.drop_last().push(ls.last()) =~= ls);
        }
    }
}

proof fn lemma_kept_from(ls: Seq<Seq<char>>, name: Seq<char>)
    ensures
        forall|i: int|
            0 <= i < lines_without_exports(ls, name).len() ==> exists|j: int|
                0 <= j < ls.len() && #[trigger] lines_without_exports(ls, name)[i] == ls[j],
    decreases ls.len(),
{
    if ls.len() > 0 {
        lemma_kept_from(ls.drop_last(), name);
        let r = lines_without_exports(ls.drop_last(), name);
        let k = lines_without_exports(ls, name);
        assert forall|i: int| 0 <= i < k.len() implies exists|j: int| 0 <= j < ls.len() && #[trigger] k[i] == ls[j] by {
            if i < r.len() {
                assert(k[i] == r[i]);
                let j = choose|j: int| 0 <= j < ls.drop_last().len() && #[trigger] r[i] == ls.drop_last()[j];
                assert(ls.drop_last()[j] == ls[j]);
            } else {
                assert(k[i] == ls[ls.len() - 1]);
            }
        }
    }
}

/// The lines removal keeps hold no line break.
proof fn lemma_kept_lines_avoid_newline(content: Seq<char>, name: Seq<char>)
    ensures
        ({
            let k = lines_without_exports(lines(content), name);
            forall|i: int, j: int| 0 <= i < k.len() && 0 <= j < k[i].len() ==> #[trigger] k[i][j] != '\n'
        }),
{
    let p = split(content, '\n');
    lemma_split_nonempty(content, '\n');
    lemma_split_pieces_avoid(content, '\n');
    let ls = lines(content);
    assert forall|i: int, j: int| 0 <= i < ls.len() && 0 <= j < ls[i].len() implies #[trigger] ls[i][j] != '\n' by {
        if i < p.len() - 1 {
            assert(ls[i] == strip_cr(p[i]));
        } else {
            assert(ls[i] == p[i]);
        }
        assert(p[i][j] != '\n');
    }
    lemma_kept_from(ls, name);
    let k = lines_without_exports(ls, name);
    assert forall|i: int, j: int| 0 <= i < k.len() && 0 <= j < k[i].len() implies #[trigger] k[i][j] != '\n' by {
        let t = choose|t: int| 0 <= t < ls.len() && #[trigger] k[i] == ls[t];
        assert(ls[t][j] != '\n');
    }
}

/// Law: removing a variable twice is removing it once, for files whose
/// kept lines read back unchanged once joined: the last kept line is not
/// empty and no other kept line ends with `\r`.
pub proof fn law_remove_twice(content: Seq<char>, name: Seq<char>)
    requires
        ({
            let k = lines_without_exports(lines(content), name);
            &&& k.len() == 0 || k.last().len() > 0
            &&& forall|i: int| 0 <= i < k.len() - 1 ==> strip_cr(#[trigger] k[i]) == k[i]
        }),
    ensures
        spec_remove_exports(spec_remove_exports(content, name), name) == spec_remove_exports(
            content,
            name,
        ),
{
    let k = lines_without_exports(lines(content), name);
    lemma_kept_lines_avoid_newline(content, name);
    lemma_lines_join(k);
    law_remove_leaves_no_export(lines(content), name);
    law_remove_leaves_no_export(k, name);
}

/// Law: what persisting appends becomes one more line of the file, the
/// export line, whatever the file held, unless the file ends with a `\r`
/// that is not followed by a line break. (Names and values holding a line
/// break are left out: their export spans several lines.)
pub proof fn law_persist_appends_a_line(content: Seq<char>, name: Seq<char>, value: Seq<char>)
    requires
        content.len() == 0 || content.last() != '\r',
        forall|i: int| 0 <= i < name.len() ==> name[i] != '\n',
        forall|i: int| 0 <= i < value.len() ==> value[i] != '\n',
    ensures
        lines(content + spec_persist_text(content, name, value)) == lines(content).push(
            spec_export_line(name, value),
        ),
        is_export_of(spec_export_line(name, value), name),
{
    let esc = replace(value, seq!['\''], seq!['\'', '\\', '\'', '\'']);
    lemma_replace_avoids(value, seq!['\''], seq!['\'', '\\', '\'', '\''], '\n');
    let l = spec_export_line(name, value);
    let head = export_prefix() + name;
    assert(l == head + seq!['=', '\''] + esc + seq!['\'']);
    assert forall|i: int| 0 <= i < l.len() implies l[i] != '\n' by {
        if i < 7 {
            assert(l[i] == export_prefix()[i]);
        } else if i < 7 + name.len() {
            assert(l[i] == name[i - 7]);
        } else if i < 9 + name.len() {
        } else if i < 9 + name.len() + esc.len() {
            assert(l[i] == esc[i - 9 - name.len()]);
        } else {
        }
    }
    assert(l.last() == '\'');
    assert(strip_cr(l) == l);
    let nl = seq!['\n'];
    let c1 = if content.len() > 0 && content.last() != '\n' {
        lemma_lines_close(content);
        content + nl
    } else {
        content
    };
    assert(c1.len() == 0 || c1.last() == '\n');
    assert(lines(c1) == lines(content));
    lemma_lines_append_line(c1, l);
    assert(content + spec_persist_text(content, name, value) =~= c1 + l + nl);
    assert(l[0] == 'e');
    assert(trim_start(l) == l);
    assert(l.take(7) =~= export_prefix());
    assert(l.skip(7).take(name.len() as int) =~= name);
    assert(l.skip(7)[name.len() as int] == '=');
}

/// Law: removing a variable undoes persisting it: appending what persisting
/// appends, then removing the variable, gives what removing it from the file
/// as it was gives (with the inputs of `law_persist_appends_a_line`).
pub proof fn law_remove_undoes_persist(content: Seq<char>, name: Seq<char>, value: Seq<char>)
    requires
        content.len() == 0 || content.last() != '\r',
        forall|i: int| 0 <= i < name.len() ==> name[i] != '\n',
        forall|i: int| 0 <= i < value.len() ==> value[i] != '\n',
    ensures
        spec_remove_exports(content + spec_persist_text(content, name, value), name)
            == spec_remove_exports(content, name),
{
    law_persist_appends_a_line(content, name, value);
    let ls = lines(content);
    assert(ls.push(spec_export_line(name, value)).drop_last() =~= ls);
}

/// Law: removing a variable keeps the exports of every other variable, also
/// of those whose names start with its name.
pub proof fn law_remove_keeps_other_exports(other: Seq<char>, value: Seq<char>, name: Seq<char>)
    requires
        is_var_name(other),
        other != name,
        forall|i: int| 0 <= i < name.len() ==> name[i] != '=',
    ensures
        !is_export_of(export_prefix() + other + seq!['='] + value, name),
{
    let l = export_prefix() + other + seq!['='] + value;
    let m: int = other.len() as int;
    assert(l[7 + m] == '=');
    let t0 = strip_cr(l);
    assert(t0.len() >= 8 + m);
    assert forall|i: int| 0 <= i < 8 + m implies t0[i] == l[i] by {}
    assert(!is_ws(t0[0]));
    assert(trim_start(t0) == t0);
    let rest = t0.skip(7);
    assert forall|i: int| 0 <= i < m implies rest[i] == other[i] by {
        assert(rest[i] == l[i + 7]);
    }
    assert(rest[m] == '=');
    if is_prefix(name, rest) {
        if name.len() > m {
            assert(name[m] == rest[m]);
        } else if name.len() == m {
            assert(name =~= other);
        } else {
            let k = name.len();
            if k > 0 {
                assert(is_name_char(other[k as int]));
            } else {
                assert(is_name_start(other[0]));
            }
            assert(rest[k as int] == other[k as int]);
        }
    }
}

} // verus!

verus! {

/// Law: the filter keeps, in order, exactly the variables whose lower-cased
/// name or lower-cased value contains the lower-cased filter anywhere.
pub proof fn law_filter_is_substring_test(v: Seq<(Seq<char>, Seq<char>)>, f: Seq<char>)
    ensures
        matching_vars(v, Some(f)) == v.filter(
            |p: (Seq<char>, Seq<char>)|
                contains(lowercase(p.1), lowercase(f)) || contains(lowercase(p.0), lowercase(f)),
        ),
    decreases v.len(),
{
    reveal(Seq::filter);
    if v.len() > 0 {
        law_filter_is_substring_test(v.drop_last(), f);
    }
}

/// The variables at the positions `perm` that pass the filter are among the
/// selection.
proof fn lemma_select_from_keeps(
    vars: Seq<(Seq<char>, Seq<char>)>,
    lk: Seq<Seq<char>>,
    lv: Seq<Seq<char>>,
    f: Seq<char>,
    perm: Seq<usize>,
    k: int,
)
    requires
        0 <= k < perm.len(),
        contains(lk[perm[k] as int], f) || contains(lv[perm[k] as int], f),
    ensures
        select_from(vars, lk, lv, Some(f), perm).contains(vars[perm[k] as int]),
    decreases perm.len(),
{
    let q = perm.drop_last();
    let r = select_from(vars, lk, lv, Some(f), q);
    if k == perm.len() - 1 {
        assert(r.push(vars[perm[k] as int])[r.len() as int] == vars[perm[k] as int]);
    } else {
        assert(q[k] == perm[k]);
        lemma_select_from_keeps(vars, lk, lv, f, q, k);
        let t = choose|t: int| 0 <= t < r.len() && r[t] == vars[perm[k] as int];
        if contains(lk[perm.last() as int], f) || contains(lv[perm.last() as int], f) {
            assert(r.push(vars[perm.last() as int])[t] == r[t]);
        }
    }
}

/// Everything selected from the positions `perm` is a variable at one of
/// them that passes the filter.
proof fn lemma_select_from_only(
    vars: Seq<(Seq<char>, Seq<char>)>,
    lk: Seq<Seq<char>>,
    lv: Seq<Seq<char>>,
    f: Seq<char>,
    perm: Seq<usize>,
)
    ensures
        forall|x: (Seq<char>, Seq<char>)|
            #[trigger] select_from(vars, lk, lv, Some(f), perm).contains(x) ==> exists|k: int|
                0 <= k < perm.len() && x == vars[perm[k] as int] && (contains(
                    lk[perm[k] as int],
                    f,
                ) || contains(lv[perm[k] as int], f)),
    decreases perm.len(),
{
    if perm.len() > 0 {
        let q = perm.drop_last();
        lemma_select_from_only(vars, lk, lv, f, q);
        let r = select_from(vars, lk, lv, Some(f), q);
        let last = perm.last() as int;
        assert forall|x: (Seq<char>, Seq<char>)|
            #[trigger] select_from(vars, lk, lv, Some(f), perm).contains(x) implies exists|k: int|
            0 <= k < perm.len() && x == vars[perm[k] as int] && (contains(lk[perm[k] as int], f)
                || contains(lv[perm[k] as int], f)) by {
            let s = select_from(vars, lk, lv, Some(f), perm);
            let t = choose|t: int| 0 <= t < s.len() && s[t] == x;
            if t < r.len() {
                assert(s[t] == r[t]);
                assert(r.contains(x));
                let k = choose|k: int|
                    0 <= k < q.len() && x == vars[q[k] as int] && (contains(lk[q[k] as int], f)
                        || contains(lv[q[k] as int], f));
                assert(q[k] == perm[k]);
            } else {
                assert(perm[perm.len() - 1] == perm.last());
            }
        }
    }
}

/// Law: given the lower-cased names and values, every variable whose
/// lower-cased name or value contains the lower-cased filter, at any
/// position, is selected, and everything selected is such a variable.
pub proof fn law_select_keeps_exactly_substring_matches(
    vars: Seq<(Seq<char>, Seq<char>)>,
    lk: Seq<Seq<char>>,
    lv: Seq<Seq<char>>,
    f: Seq<char>,
)
    requires
        lk.len() == vars.len(),
        lv.len() == vars.len(),
        vars.len() <= usize::MAX,
    ensures
        forall|t: int|
            0 <= t < vars.len() && (contains(lk[t], f) || contains(lv[t], f)) ==> spec_select_vars(
                vars,
                lk,
                lv,
                Some(f),
            ).contains(#[trigger] vars[t]),
        forall|x: (Seq<char>, Seq<char>)|
            #[trigger] spec_select_vars(vars, lk, lv, Some(f)).contains(x) ==> exists|t: int|
                0 <= t < vars.len() && x == vars[t] && (contains(lk[t], f) || contains(lv[t], f)),
{
    law_stable_sort_exists(lk);
    let perm = stable_sort_of(lk);
    assert forall|t: int|
        0 <= t < vars.len() && (contains(lk[t], f) || contains(lv[t], f)) implies spec_select_vars(
        vars,
        lk,
        lv,
        Some(f),
    ).contains(#[trigger] vars[t]) by {
        assert(appears(perm, t as usize));
        let k = choose|k: int| 0 <= k < perm.len() && #[trigger] perm[k] == t as usize;
        lemma_select_from_keeps(vars, lk, lv, f, perm, k);
    }
    lemma_select_from_only(vars, lk, lv, f, perm);
    assert forall|x: (Seq<char>, Seq<char>)|
        #[trigger] spec_select_vars(vars, lk, lv, Some(f)).contains(x) implies exists|t: int|
        0 <= t < vars.len() && x == vars[t] && (contains(lk[t], f) || contains(lv[t], f)) by {
        let k = choose|k: int|
            0 <= k < perm.len() && x == vars[perm[k] as int] && (contains(lk[perm[k] as int], f)
                || contains(lv[perm[k] as int], f));
        assert(perm[k] < vars.len());
    }
}

/// Law: `list_vars` with a filter lists every variable whose name or value
/// contains the filter, ignoring case and at any position.
pub proof fn law_listed_when_name_or_value_contains(
    vars: Seq<(Seq<char>, Seq<char>)>,
    f: Seq<char>,
    t: int,
)
    requires
        vars.len() <= usize::MAX,
        0 <= t < vars.len(),
        contains(lowercase(vars[t].1), lowercase(f)) || contains(lowercase(vars[t].0), lowercase(f)),
    ensures
        matching_vars(in_order(vars, stable_sort_of(lowercase_keys(vars))), Some(f)).contains(
            vars[t],
        ),
{
    let keys = lowercase_keys(vars);
    law_stable_sort_exists(keys);
    let perm = stable_sort_of(keys);
    let s = in_order(vars, perm);
    assert(appears(perm, t as usize));
    let k = choose|k: int| 0 <= k < perm.len() && #[trigger] perm[k] == t as usize;
    assert(s[k] == vars[t]);
    law_filter_is_substring_test(s, f);
    let pred = |p: (Seq<char>, Seq<char>)|
        contains(lowercase(p.1), lowercase(f)) || contains(lowercase(p.0), lowercase(f));
    s.lemma_filter_contains(pred, k);
}

} // verus!
