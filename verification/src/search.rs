//! The line search: file-name filters, the compiled pattern and the
//! highlighting of matching lines.

use vstd::prelude::*;
use crate::text::{
    any_pattern_in, any_pattern_in_exec, chars_of, filter_patterns_chars, flatten_segments,
    lemma_flatten_append, segment_views, slice_chars, spec_filter_patterns, string_of,
    Segment,
};

verus! {

#[verifier::external_type_specification]
#[verifier::external_body]
pub struct ExRegex(regex::Regex);

#[verifier::external_type_specification]
#[verifier::external_body]
pub struct ExRegexError(regex::Error);

/// Whether a file passes the `--filter` option: no filter, or no non-empty
/// pattern in it, lets every file pass; otherwise the file name must contain
/// one of the patterns (a path without a UTF-8 file name never passes).
pub open spec fn spec_file_matches_filter(
    file_name: Option<Seq<char>>,
    filter: Option<Seq<char>>,
) -> bool {
    match filter {
        None => true,
        Some(f) => {
            let pats = spec_filter_patterns(f);
            if pats.len() == 0 {
                true
            } else {
                match file_name {
                    Some(n) => any_pattern_in(n, pats),
                    None => false,
                }
            }
        },
    }
}

pub open spec fn opt_str_view(o: Option<&str>) -> Option<Seq<char>> {
    match o {
        Some(s) => Some(s@),
        None => None,
    }
}

/// `file_name` is the last component of the path as UTF-8, if it has one.
pub fn file_matches_filter(file_name: Option<&str>, filter: Option<&str>) -> (b: bool)
    ensures
        b == spec_file_matches_filter(opt_str_view(file_name), opt_str_view(filter)),
{
    match filter {
        None => true,
        Some(f) => {
            let fv = chars_of(f);
            let pats = filter_patterns_chars(&fv);
            if pats.len() == 0 {
                return true;
            }
            match file_name {
                Some(n) => {
                    let nv = chars_of(n);
                    any_pattern_in_exec(&nv, &pats)
                },
                None => false,
            }
        },
    }
}

/// Name for whether `RegexBuilder::build` accepts the pattern with the given
/// case-insensitivity (valid syntax, within the default size limits).
pub uninterp spec fn regex_compiles(pattern: Seq<char>, case_insensitive: bool) -> bool;

/// Name for the matches `Regex::find_iter` yields for a compiled pattern on a
/// haystack, as (start, end) character positions.
pub uninterp spec fn regex_matches(
    pattern: Seq<char>,
    case_insensitive: bool,
    haystack: Seq<char>,
) -> Seq<(usize, usize)>;

/// A compiled search pattern with the text and flag it was compiled from.
pub struct Matcher {
    re: regex::Regex,
    pattern: String,
    case_insensitive: bool,
}

impl Matcher {
    pub closed spec fn pattern(&self) -> Seq<char> {
        self.pattern@
    }

    pub closed spec fn is_case_insensitive(&self) -> bool {
        self.case_insensitive
    }
}

/// Calls `RegexBuilder::new(pattern).case_insensitive(ci).build()`. The
/// contract claims that it succeeds exactly when `regex_compiles` holds, and
/// that the matcher records the pattern and flag it was built from.
#[verifier::external_body]
fn build_regex(pattern: &str, case_insensitive: bool) -> (r: Result<Matcher, regex::Error>)
    ensures
        r is Ok <==> regex_compiles(pattern@, case_insensitive),
        r matches Ok(m) ==> m.pattern() == pattern@ && m.is_case_insensitive() == case_insensitive,
{
    match regex::RegexBuilder::new(pattern).case_insensitive(case_insensitive).build() {
        Ok(re) => Ok(Matcher { re, pattern: pattern.to_string(), case_insensitive }),
        Err(e) => Err(e),
    }
}

/// The `Debug` text of a `regex::Error`, which is how the tool reports it.
/// Nothing is claimed of the text.
#[verifier::external_body]
fn regex_error_text(e: &regex::Error) -> String {
    format!("{:?}", e)
}

/// Spans that are ordered, non-overlapping and inside a line of `len` characters.
pub open spec fn spans_well_formed(spans: Seq<(usize, usize)>, len: nat) -> bool {
    &&& forall|i: int| 0 <= i < spans.len() ==> #[trigger] spans[i].0 <= spans[i].1 <= len
    &&& forall|i: int, j: int| 0 <= i < j < spans.len() ==> #[trigger] spans[i].1 <= #[trigger] spans[j].0
}

/// Calls `Regex::find_iter` and turns each match's byte offsets into
/// character positions in the line. The contract claims the result is
/// `regex_matches` of the matcher's pattern and flag and the line, and that
/// the matches are ordered and do not overlap, as `find_iter` documents.
#[verifier::external_body]
fn find_matches(m: &Matcher, line: &str) -> (r: Vec<(usize, usize)>)
    ensures
        r@ == regex_matches(m.pattern(), m.is_case_insensitive(), line@),
        spans_well_formed(r@, line@.len()),
{
    m.re.find_iter(line).map(|x| (line[..x.start()].chars().count(), line[..x.end()].chars().count())).collect()
}

/// A pattern the search cannot use; holds the error as the tool prints it.
pub struct PatternError {
    pub message: String,
}

/// Compiles the search pattern, case-insensitive unless `case_sensitive`.
pub fn compile_matcher(pattern: &str, case_sensitive: bool) -> (r: Result<Matcher, PatternError>)
    ensures
        r is Ok <==> regex_compiles(pattern@, !case_sensitive),
        r matches Ok(m) ==> m.pattern() == pattern@ && m.is_case_insensitive() == !case_sensitive,
{
    match build_regex(pattern, !case_sensitive) {
        Ok(m) => Ok(m),
        Err(e) => Err(PatternError { message: regex_error_text(&e) }),
    }
}

/// The pieces of a line around the matches: the text before each match, the
/// match (highlighted), and after the last match the rest of the line.
pub open spec fn segments_from(line: Seq<char>, spans: Seq<(usize, usize)>, from: int) -> Seq<
    (Seq<char>, bool),
>
    decreases spans.len(),
{
    if spans.len() == 0 {
        seq![(line.subrange(from, line.len() as int), false)]
    } else {
        seq![
            (line.subrange(from, spans[0].0 as int), false),
            (line.subrange(spans[0].0 as int, spans[0].1 as int), true),
        ] + segments_from(line, spans.drop_first(), spans[0].1 as int)
    }
}

/// What a matching line prints: where it came from and its pieces.
pub struct Hit {
    /// Whether the line is prefixed by its path (not when reading stdin).
    pub show_path: bool,
    /// The 1-based line number, when line numbers are shown.
    pub line_number: Option<usize>,
    pub segments: Vec<Segment>,
}

pub open spec fn is_stdin_name(p: Seq<char>) -> bool {
    p == seq!['-']
}

pub open spec fn hit_matches(
    h: Hit,
    line: Seq<char>,
    spans: Seq<(usize, usize)>,
    path_display: Seq<char>,
    show_line_numbers: bool,
    idx: usize,
) -> bool {
    &&& h.show_path == !is_stdin_name(path_display)
    &&& h.line_number == if !is_stdin_name(path_display) && show_line_numbers {
        Some((idx + 1) as usize)
    } else {
        None::<usize>
    }
    &&& segment_views(h.segments@) == segments_from(line, spans, 0)
}

fn segments_exec(line: &Vec<char>, spans: &Vec<(usize, usize)>) -> (r: Vec<Segment>)
    requires
        spans_well_formed(spans@, line@.len()),
    ensures
        segment_views(r@) == segments_from(line@, spans@, 0),
{
    let mut out: Vec<Segment> = Vec::new();
    let mut prev: usize = 0;
    let mut k: usize = 0;
    assert(spans@.skip(0) =~= spans@);
    while k < spans.len()
        invariant
            k <= spans.len(),
            spans_well_formed(spans@, line@.len()),
            prev <= line@.len(),
            k > 0 ==> prev == spans@[k - 1].1,
            k == 0 ==> prev == 0,
            segment_views(out@) + segments_from(line@, spans@.skip(k as int), prev as int)
                == segments_from(line@, spans@, 0),
        decreases spans.len() - k,
    {
        let (s, e) = spans[k];
        if k > 0 {
            assert(spans@[k - 1].1 <= spans@[k as int].0);
        }
        let gap = slice_chars(line, prev, s);
        let hit = slice_chars(line, s, e);
        let ghost old_out = segment_views(out@);
        out.push(Segment { text: string_of(&gap), matched: false });
        out.push(Segment { text: string_of(&hit), matched: true });
        proof {
            let rest = spans@.skip(k as int);
            assert(rest.drop_first() =~= spans@.skip(k + 1));
            assert(segment_views(out@) =~= old_out + seq![
                (line@.subrange(prev as int, s as int), false),
                (line@.subrange(s as int, e as int), true),
            ]);
        }
        prev = e;
        k += 1;
    }
    let tail = slice_chars(line, prev, line.len());
    let ghost old_out = segment_views(out@);
    out.push(Segment { text: string_of(&tail), matched: false });
    assert(segment_views(out@) =~= old_out + seq![(line@.subrange(prev as int, line@.len() as int), false)]);
    out
}

/// The output for one line, given where the pattern matches in it: nothing
/// when it does not match, else the highlighted pieces, with the path (not
/// for stdin, named `-`) and the 1-based line number when asked for.
pub fn hit_from_spans(
    line: &str,
    spans: &Vec<(usize, usize)>,
    path_display: &str,
    show_line_numbers: bool,
    idx: usize,
) -> (r: Option<Hit>)
    requires
        spans_well_formed(spans@, line@.len()),
        idx < usize::MAX,
    ensures
        r is Some <==> spans@.len() > 0,
        r matches Some(h) ==> hit_matches(h, line@, spans@, path_display@, show_line_numbers, idx),
        r matches Some(h) ==> flatten_segments(segment_views(h.segments@)) == line@,
{
    if spans.len() == 0 {
        return None;
    }
    let lv = chars_of(line);
    let segments = segments_exec(&lv, spans);
    let pv = chars_of(path_display);
    let is_stdin = pv.len() == 1 && pv[0] == '-';
    assert(is_stdin == is_stdin_name(path_display@)) by {
        if pv@.len() == 1 && pv@[0] == '-' {
            assert(pv@ =~= seq!['-']);
        }
    }
    let line_number = if !is_stdin && show_line_numbers {
        Some(idx + 1)
    } else {
        None
    };
    let h = Hit { show_path: !is_stdin, line_number, segments };
    proof {
        law_hit_spells_line(h, line@, spans@, path_display@, show_line_numbers, idx);
    }
    Some(h)
}

/// Searches one line: `None` when the pattern does not match it, else what
/// to print, as `hit_from_spans` builds it from the pattern's matches, which
/// are ordered and inside the line, so that the pieces spell the line.
pub fn process_line(
    m: &Matcher,
    line: &str,
    path_display: &str,
    show_line_numbers: bool,
    idx: usize,
) -> (r: Option<Hit>)
    requires
        idx < usize::MAX,
    ensures
        ({
            let spans = regex_matches(m.pattern(), m.is_case_insensitive(), line@);
            &&& spans_well_formed(spans, line@.len())
            &&& r is Some <==> spans.len() > 0
            &&& r matches Some(h) ==> flatten_segments(segment_views(h.segments@)) == line@
            &&& r matches Some(h) ==> hit_matches(
                h,
                line@,
                spans,
                path_display@,
                show_line_numbers,
                idx,
            )
        }),
{
    let spans = find_matches(m, line);
    hit_from_spans(line, &spans, path_display, show_line_numbers, idx)
}

/// The pieces of a line spell out the line.
pub proof fn lemma_segments_spell_line(line: Seq<char>, spans: Seq<(usize, usize)>, from: int)
    requires
        spans_well_formed(spans, line.len()),
        0 <= from <= line.len(),
        spans.len() > 0 ==> from <= spans[0].0,
    ensures
        flatten_segments(segments_from(line, spans, from)) == line.subrange(from, line.len() as int),
    decreases spans.len(),
{
    if spans.len() == 0 {
        let s = segments_from(line, spans, from);
        assert(s.drop_last() =~= Seq::<(Seq<char>, bool)>::empty());
        assert(flatten_segments(s.drop_last()) =~= Seq::<char>::empty());
        assert(flatten_segments(s) =~= line.subrange(from, line.len() as int));
    } else {
        let rest = spans.drop_first();
        assert forall|i: int, j: int| 0 <= i < j < rest.len() implies #[trigger] rest[i].1 <= #[trigger] rest[j].0 by {
            assert(rest[i] == spans[i + 1]);
            assert(rest[j] == spans[j + 1]);
        }
        assert forall|i: int| 0 <= i < rest.len() implies #[trigger] rest[i].0 <= rest[i].1 <= line.len() by {
            assert(rest[i] == spans[i + 1]);
        }
        if rest.len() > 0 {
            assert(spans[0].1 <= spans[1].0);
        }
        lemma_segments_spell_line(line, rest, spans[0].1 as int);
        let head = seq![
            (line.subrange(from, spans[0].0 as int), false),
            (line.subrange(spans[0].0 as int, spans[0].1 as int), true),
        ];
        lemma_flatten_append(head, segments_from(line, rest, spans[0].1 as int));
        assert(head.drop_last().drop_last() =~= Seq::<(Seq<char>, bool)>::empty());
        assert(flatten_segments(head.drop_last().drop_last()) =~= Seq::<char>::empty());
        assert(flatten_segments(head.drop_last()) =~= line.subrange(from, spans[0].0 as int));
        assert(flatten_segments(head) =~= line.subrange(from, spans[0].0 as int) + line.subrange(
            spans[0].0 as int,
            spans[0].1 as int,
        ));
        assert(flatten_segments(segments_from(line, spans, from)) =~= line.subrange(
            from,
            line.len() as int,
        ));
    }
}

/// Law: highlighting never changes the text; the pieces of a hit spell out
/// the searched line.
pub proof fn law_hit_spells_line(
    h: Hit,
    line: Seq<char>,
    spans: Seq<(usize, usize)>,
    path_display: Seq<char>,
    show_line_numbers: bool,
    idx: usize,
)
    requires
        spans_well_formed(spans, line.len()),
        hit_matches(h, line, spans, path_display, show_line_numbers, idx),
    ensures
        flatten_segments(segment_views(h.segments@)) == line,
{
    lemma_segments_spell_line(line, spans, 0);
    assert(line.subrange(0, line.len() as int) =~= line);
}

/// What the search does with one of the paths it is given.
pub enum PathAction {
    /// Walk the directory tree and search every file that passes the filter.
    Walk,
    /// Search the files directly inside the directory that pass the filter.
    ListChildren,
    /// Search the file if it passes the filter.
    SearchFile,
    /// Search standard input.
    SearchStdin,
    /// Report the path as unknown and skip it.
    Skip,
}

/// Directories are walked (or only listed without `--recursive`), files
/// searched, `-` means standard input, anything else is skipped.
pub fn path_action(is_dir: bool, is_file: bool, path: &str, recursive: bool) -> (r: PathAction)
    ensures
        is_dir ==> r == (if recursive { PathAction::Walk } else { PathAction::ListChildren }),
        !is_dir && is_file ==> r == PathAction::SearchFile,
        !is_dir && !is_file && is_stdin_name(path@) ==> r == PathAction::SearchStdin,
        !is_dir && !is_file && !is_stdin_name(path@) ==> r == PathAction::Skip,
{
    if is_dir {
        if recursive {
            PathAction::Walk
        } else {
            PathAction::ListChildren
        }
    } else if is_file {
        PathAction::SearchFile
    } else {
        let pv = chars_of(path);
        if pv.len() == 1 && pv[0] == '-' {
            assert(pv@ =~= seq!['-']);
            PathAction::SearchStdin
        } else {
            PathAction::Skip
        }
    }
}

/// The path searched when none is given: the current directory when stdin is
/// a terminal, else stdin (`-`).
pub fn default_search_path(stdin_is_terminal: bool) -> (r: String)
    ensures
        r@ == (if stdin_is_terminal { seq!['.'] } else { seq!['-'] }),
{
    let v: Vec<char> = if stdin_is_terminal {
        vec!['.']
    } else {
        vec!['-']
    };
    assert(v@ =~= (if stdin_is_terminal { seq!['.'] } else { seq!['-'] }));
    string_of(&v)
}

} // verus!
