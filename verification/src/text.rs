//! Character and string helpers shared by the tools, stated over `Seq<char>`.

use vstd::prelude::*;

verus! {

/// Unicode `White_Space` characters, the set that `str::trim` and
/// `str::split_whitespace` treat as whitespace.
pub open spec fn is_ws(c: char) -> bool {
    ||| ('\u{9}' <= c && c <= '\u{d}')
    ||| c == ' '
    ||| c == '\u{85}'
    ||| c == '\u{a0}'
    ||| c == '\u{1680}'
    ||| ('\u{2000}' <= c && c <= '\u{200a}')
    ||| c == '\u{2028}'
    ||| c == '\u{2029}'
    ||| c == '\u{202f}'
    ||| c == '\u{205f}'
    ||| c == '\u{3000}'
}

pub fn is_whitespace_char(c: char) -> (b: bool)
    ensures
        b == is_ws(c),
{
    ('\u{9}' <= c && c <= '\u{d}') || c == ' ' || c == '\u{85}' || c == '\u{a0}' || c
        == '\u{1680}' || ('\u{2000}' <= c && c <= '\u{200a}') || c == '\u{2028}' || c
        == '\u{2029}' || c == '\u{202f}' || c == '\u{205f}' || c == '\u{3000}'
}

/// The characters of a string slice.
pub fn chars_of(s: &str) -> (v: Vec<char>)
    ensures
        v@ == s@,
{
    let mut v: Vec<char> = Vec::new();
    for c in it: s.chars()
        invariant
            v@ == it.seq().take(it.index() as int),
            it.seq() == s@,
    {
        v.push(c);
    }
    v
}

/// Collects characters into a `String` (std's `FromIterator<char>` for `String`).
#[verifier::external_body]
pub fn string_of(v: &Vec<char>) -> (s: String)
    ensures
        s@ == v@,
{
    v.iter().collect()
}

} // verus!

verus! {

pub open spec fn trim_start(s: Seq<char>) -> Seq<char>
    decreases s.len(),
{
    if s.len() > 0 && is_ws(s[0]) {
        trim_start(s.drop_first())
    } else {
        s
    }
}

pub open spec fn trim_end(s: Seq<char>) -> Seq<char>
    decreases s.len(),
{
    if s.len() > 0 && is_ws(s.last()) {
        trim_end(s.drop_last())
    } else {
        s
    }
}

/// `str::trim`: whitespace removed from both ends.
pub open spec fn trim(s: Seq<char>) -> Seq<char> {
    trim_end(trim_start(s))
}

pub proof fn lemma_trim_start_skip(s: Seq<char>, a: int)
    requires
        0 <= a <= s.len(),
        forall|i: int| 0 <= i < a ==> is_ws(#[trigger] s[i]),
    ensures
        trim_start(s) == trim_start(s.skip(a)),
    decreases a,
{
    if a > 0 {
        assert(s.skip(a) =~= s.drop_first().skip(a - 1));
        lemma_trim_start_skip(s.drop_first(), a - 1);
    } else {
        assert(s.skip(0) =~= s);
    }
}

proof fn lemma_trim_end_take(s: Seq<char>, b: int)
    requires
        0 <= b <= s.len(),
        forall|i: int| b <= i < s.len() ==> is_ws(#[trigger] s[i]),
    ensures
        trim_end(s) == trim_end(s.take(b)),
    decreases s.len() - b,
{
    if b < s.len() {
        assert(s.drop_last().take(b) =~= s.take(b));
        lemma_trim_end_take(s.drop_last(), b);
    } else {
        assert(s.take(b) =~= s);
    }
}

/// Copies `v[from..to]`.
pub fn slice_chars(v: &Vec<char>, from: usize, to: usize) -> (r: Vec<char>)
    requires
        from <= to <= v.len(),
    ensures
        r@ == v@.subrange(from as int, to as int),
{
    let mut r: Vec<char> = Vec::new();
    let mut i = from;
    while i < to
        invariant
            from <= i <= to <= v.len(),
            r@ == v@.subrange(from as int, i as int),
        decreases to - i,
    {
        r.push(v[i]);
        i += 1;
        assert(r@ =~= v@.subrange(from as int, i as int));
    }
    r
}

/// Index of the first non-whitespace character, and one past the last one.
pub fn trim_bounds(v: &Vec<char>) -> (r: (usize, usize))
    ensures
        r.0 <= r.1 <= v.len(),
        trim(v@) == v@.subrange(r.0 as int, r.1 as int),
{
    let mut a: usize = 0;
    while a < v.len() && is_whitespace_char(v[a])
        invariant
            a <= v.len(),
            forall|i: int| 0 <= i < a ==> is_ws(#[trigger] v@[i]),
        decreases v.len() - a,
    {
        a += 1;
    }
    let mut b: usize = v.len();
    while b > a && is_whitespace_char(v[b - 1])
        invariant
            a <= b <= v.len(),
            forall|i: int| b <= i < v.len() ==> is_ws(#[trigger] v@[i]),
        decreases b,
    {
        b -= 1;
    }
    proof {
        lemma_trim_start_skip(v@, a as int);
        let t = v@.skip(a as int);
        assert(trim_start(t) == t);
        assert forall|i: int| (b - a) <= i < t.len() implies is_ws(#[trigger] t[i]) by {
            assert(t[i] == v@[i + a]);
        }
        lemma_trim_end_take(t, (b - a) as int);
        let u = t.take((b - a) as int);
        assert(u =~= v@.subrange(a as int, b as int));
        assert(trim_end(u) == u);
    }
    (a, b)
}

/// `str::trim` on a character vector.
pub fn trim_chars(v: &Vec<char>) -> (r: Vec<char>)
    ensures
        r@ == trim(v@),
{
    let (a, b) = trim_bounds(v);
    slice_chars(v, a, b)
}

/// `p` is a prefix of `s`.
pub open spec fn is_prefix(p: Seq<char>, s: Seq<char>) -> bool {
    p.len() <= s.len() && s.take(p.len() as int) == p
}

/// `p` occurs in `s` at position `i`.
pub open spec fn occurs_at(s: Seq<char>, p: Seq<char>, i: int) -> bool {
    0 <= i && i + p.len() <= s.len() && s.subrange(i, i + p.len()) == p
}

/// `str::contains` with a string pattern.
pub open spec fn contains(s: Seq<char>, p: Seq<char>) -> bool {
    exists|i: int| occurs_at(s, p, i)
}

/// Does `p` occur in `v` at position `i`?
pub fn occurs_at_exec(v: &Vec<char>, p: &Vec<char>, i: usize) -> (b: bool)
    ensures
        b == occurs_at(v@, p@, i as int),
{
    if i > v.len() || p.len() > v.len() - i {
        return false;
    }
    let mut k: usize = 0;
    while k < p.len()
        invariant
            i + p.len() <= v.len(),
            k <= p.len(),
            forall|j: int| 0 <= j < k ==> v@[i + j] == p@[j],
        decreases p.len() - k,
    {
        if v[i + k] != p[k] {
            assert(v@.subrange(i as int, i + p.len())[k as int] != p@[k as int]);
            return false;
        }
        k += 1;
    }
    assert(v@.subrange(i as int, i + p.len()) =~= p@);
    true
}

pub fn starts_with_chars(v: &Vec<char>, p: &Vec<char>) -> (b: bool)
    ensures
        b == is_prefix(p@, v@),
{
    let b = occurs_at_exec(v, p, 0);
    assert(v@.subrange(0, p@.len() as int) =~= v@.take(p@.len() as int));
    b
}

/// First position at which `p` occurs in `v` (`str::find`).
pub fn find_chars(v: &Vec<char>, p: &Vec<char>) -> (r: Option<usize>)
    ensures
        r matches Some(i) ==> occurs_at(v@, p@, i as int) && forall|j: int|
            0 <= j < i ==> !occurs_at(v@, p@, j),
        r is None ==> !contains(v@, p@),
{
    if p.len() > v.len() {
        return None;
    }
    let last = v.len() - p.len();
    let mut i: usize = 0;
    loop
        invariant
            p.len() <= v.len(),
            last == v.len() - p.len(),
            i <= last,
            forall|j: int| 0 <= j < i ==> !occurs_at(v@, p@, j),
        ensures
            forall|j: int| 0 <= j <= last ==> !occurs_at(v@, p@, j),
        decreases last - i,
    {
        if occurs_at_exec(v, p, i) {
            return Some(i);
        }
        if i == last {
            break;
        }
        i += 1;
    }
    assert forall|j: int| !occurs_at(v@, p@, j) by {
        if 0 <= j <= last {
        }
    }
    None
}

pub fn contains_chars(v: &Vec<char>, p: &Vec<char>) -> (b: bool)
    ensures
        b == contains(v@, p@),
{
    match find_chars(v, p) {
        Some(_) => true,
        None => false,
    }
}

} // verus!

verus! {

/// `str::replace` with a non-empty pattern: non-overlapping occurrences,
/// left to right, are replaced.
pub open spec fn replace(s: Seq<char>, pat: Seq<char>, rep: Seq<char>) -> Seq<char>
    decreases s.len(),
{
    if s.len() == 0 {
        s
    } else if pat.len() > 0 && is_prefix(pat, s) {
        rep + replace(s.skip(pat.len() as int), pat, rep)
    } else {
        seq![s[0]] + replace(s.drop_first(), pat, rep)
    }
}

/// Appends all of `src` to `dst`.
pub fn push_all(dst: &mut Vec<char>, src: &Vec<char>)
    ensures
        final(dst)@ == old(dst)@ + src@,
{
    let ghost start = dst@;
    let mut k: usize = 0;
    while k < src.len()
        invariant
            k <= src.len(),
            dst@ == start + src@.take(k as int),
        decreases src.len() - k,
    {
        dst.push(src[k]);
        k += 1;
        assert(dst@ =~= start + src@.take(k as int));
    }
    assert(src@.take(src.len() as int) =~= src@);
}

pub fn replace_chars(v: &Vec<char>, pat: &Vec<char>, rep: &Vec<char>) -> (r: Vec<char>)
    requires
        pat.len() > 0,
    ensures
        r@ == replace(v@, pat@, rep@),
{
    let mut out: Vec<char> = Vec::new();
    let mut i: usize = 0;
    assert(v@.skip(0) =~= v@);
    while i < v.len()
        invariant
            pat.len() > 0,
            i <= v.len(),
            out@ + replace(v@.skip(i as int), pat@, rep@) == replace(v@, pat@, rep@),
        decreases v.len() - i,
    {
        let ghost t = v@.skip(i as int);
        if occurs_at_exec(v, pat, i) {
            proof {
                assert(t.take(pat@.len() as int) =~= v@.subrange(i as int, i + pat@.len()));
                assert(t.skip(pat@.len() as int) =~= v@.skip(i + pat@.len()));
            }
            push_all(&mut out, rep);
            i += pat.len();
            assert(out@ + replace(v@.skip(i as int), pat@, rep@) =~= replace(v@, pat@, rep@));
        } else {
            proof {
                if pat@.len() <= t.len() {
                    assert(t.take(pat@.len() as int) =~= v@.subrange(i as int, i + pat@.len()));
                }
                assert(t.drop_first() =~= v@.skip(i + 1));
            }
            out.push(v[i]);
            i += 1;
            assert(out@ + replace(v@.skip(i as int), pat@, rep@) =~= replace(v@, pat@, rep@));
        }
    }
    assert(v@.skip(i as int) =~= Seq::<char>::empty());
    assert(out@ + Seq::<char>::empty() =~= out@);
    out
}

/// `str::split` on a single character: the pieces between separators.
pub open spec fn split(s: Seq<char>, sep: char) -> Seq<Seq<char>>
    decreases s.len(),
{
    if s.len() == 0 {
        seq![Seq::<char>::empty()]
    } else {
        let rest = split(s.drop_first(), sep);
        if s[0] == sep {
            seq![Seq::<char>::empty()] + rest
        } else {
            rest.update(0, seq![s[0]] + rest[0])
        }
    }
}

pub proof fn lemma_split_nonempty(s: Seq<char>, sep: char)
    ensures
        split(s, sep).len() >= 1,
    decreases s.len(),
{
    if s.len() > 0 {
        lemma_split_nonempty(s.drop_first(), sep);
    }
}

/// The contents of a vector of character vectors.
pub open spec fn views(v: Seq<Vec<char>>) -> Seq<Seq<char>> {
    v.map_values(|x: Vec<char>| x@)
}

spec fn prepend_first(cur: Seq<char>, p: Seq<Seq<char>>) -> Seq<Seq<char>> {
    p.update(0, cur + p[0])
}

pub fn split_chars(v: &Vec<char>, sep: char) -> (r: Vec<Vec<char>>)
    ensures
        views(r@) == split(v@, sep),
{
    let mut done: Vec<Vec<char>> = Vec::new();
    let mut cur: Vec<char> = Vec::new();
    let mut i: usize = 0;
    assert(v@.skip(0) =~= v@);
    proof {
        lemma_split_nonempty(v@, sep);
        assert(prepend_first(cur@, split(v@, sep)) =~= split(v@, sep));
    }
    while i < v.len()
        invariant
            i <= v.len(),
            split(v@, sep) == views(done@) + prepend_first(cur@, split(v@.skip(i as int), sep)),
        decreases v.len() - i,
    {
        let ghost t = v@.skip(i as int);
        proof {
            assert(t.drop_first() =~= v@.skip(i + 1));
            lemma_split_nonempty(t.drop_first(), sep);
        }
        if v[i] == sep {
            let ghost old_done = views(done@);
            let ghost old_cur = cur@;
            done.push(cur);
            cur = Vec::new();
            i += 1;
            proof {
                assert(views(done@) =~= old_done.push(old_cur));
                let rest = split(v@.skip(i as int), sep);
                assert(prepend_first(old_cur, seq![Seq::<char>::empty()] + rest) =~= seq![old_cur]
                    + prepend_first(cur@, rest));
            }
            assert(split(v@, sep) =~= views(done@) + prepend_first(
                cur@,
                split(v@.skip(i as int), sep),
            ));
        } else {
            let ghost old_cur = cur@;
            cur.push(v[i]);
            i += 1;
            proof {
                let rest = split(v@.skip(i as int), sep);
                assert(old_cur + (seq![v@[i - 1]] + rest[0]) =~= cur@ + rest[0]);
                assert(prepend_first(old_cur, rest.update(0, seq![v@[i - 1]] + rest[0]))
                    =~= prepend_first(cur@, rest));
            }
        }
    }
    proof {
        assert(v@.skip(i as int) =~= Seq::<char>::empty());
    }
    let ghost old_done = views(done@);
    done.push(cur);
    assert(views(done@) =~= split(v@, sep));
    done
}

/// Drops one trailing carriage return.
pub open spec fn strip_cr(l: Seq<char>) -> Seq<char> {
    if l.len() > 0 && l.last() == '\r' {
        l.drop_last()
    } else {
        l
    }
}

/// `str::lines`: pieces between `\n`, a `\r` before each `\n` dropped, and
/// no empty last piece after a final line ending.
pub open spec fn lines(s: Seq<char>) -> Seq<Seq<char>> {
    let p = split(s, '\n');
    let init = p.drop_last().map_values(|l: Seq<char>| strip_cr(l));
    if p.last().len() == 0 {
        init
    } else {
        init.push(p.last())
    }
}

pub fn lines_chars(v: &Vec<char>) -> (r: Vec<Vec<char>>)
    ensures
        views(r@) == lines(v@),
{
    let pieces = split_chars(v, '\n');
    proof {
        lemma_split_nonempty(v@, '\n');
    }
    let n = pieces.len();
    let ghost p = views(pieces@);
    let mut out: Vec<Vec<char>> = Vec::new();
    let mut k: usize = 0;
    while k + 1 < n
        invariant
            n == pieces.len(),
            n >= 1,
            p == views(pieces@),
            k + 1 <= n,
            views(out@) == p.drop_last().map_values(|l: Seq<char>| strip_cr(l)).take(
                k as int,
            ),
        decreases n - k,
    {
        let piece = &pieces[k];
        assert(piece@ == p[k as int]);
        let l = piece.len();
        let stripped = if l > 0 && piece[l - 1] == '\r' {
            slice_chars(piece, 0, l - 1)
        } else {
            slice_chars(piece, 0, l)
        };
        proof {
            assert(piece@.subrange(0, l as int) =~= piece@);
            if l > 0 {
                assert(piece@.drop_last() =~= piece@.subrange(0, l - 1));
            }
        }
        assert(stripped@ == strip_cr(p[k as int]));
        let ghost old_out = views(out@);
        out.push(stripped);
        assert(views(out@) =~= old_out.push(strip_cr(p[k as int])));
        k += 1;
        assert(views(out@) =~= p.drop_last().map_values(|l: Seq<char>| strip_cr(l)).take(
            k as int,
        ));
    }
    assert(p.drop_last().map_values(|l: Seq<char>| strip_cr(l)).take(k as int) =~= p.drop_last().map_values(
        |l: Seq<char>| strip_cr(l),
    ));
    let last = &pieces[n - 1];
    if last.len() == 0 {
        out
    } else {
        let ghost old_out = views(out@);
        let copy = slice_chars(last, 0, last.len());
        assert(last@.subrange(0, last@.len() as int) =~= last@);
        out.push(copy);
        assert(views(out@) =~= old_out.push(p.last()));
        out
    }
}

/// `[T]::join` over strings.
pub open spec fn join(parts: Seq<Seq<char>>, sep: Seq<char>) -> Seq<char>
    decreases parts.len(),
{
    if parts.len() == 0 {
        Seq::empty()
    } else if parts.len() == 1 {
        parts[0]
    } else {
        join(parts.drop_last(), sep) + sep + parts.last()
    }
}

pub fn join_chars(parts: &Vec<Vec<char>>, sep: &Vec<char>) -> (r: Vec<char>)
    ensures
        r@ == join(views(parts@), sep@),
{
    let ghost p = views(parts@);
    let mut out: Vec<char> = Vec::new();
    let mut k: usize = 0;
    while k < parts.len()
        invariant
            k <= parts.len(),
            p == views(parts@),
            out@ == join(p.take(k as int), sep@),
        decreases parts.len() - k,
    {
        if k > 0 {
            push_all(&mut out, sep);
        }
        push_all(&mut out, &parts[k]);
        k += 1;
        proof {
            assert(p.take(k as int).drop_last() =~= p.take(k - 1));
            if k == 1 {
                assert(join(p.take(0), sep@) =~= Seq::<char>::empty());
                assert(out@ =~= p.take(1)[0]);
            }
        }
    }
    assert(p.take(k as int) =~= p);
    out
}

} // verus!

verus! {

/// Lexicographic order on strings by code point (the order of `str` and `String`).
pub open spec fn seq_le(a: Seq<char>, b: Seq<char>) -> bool
    decreases a.len(),
{
    if a.len() == 0 {
        true
    } else if b.len() == 0 {
        false
    } else if a[0] != b[0] {
        a[0] < b[0]
    } else {
        seq_le(a.drop_first(), b.drop_first())
    }
}

pub proof fn lemma_seq_le_reflexive(a: Seq<char>)
    ensures
        seq_le(a, a),
    decreases a.len(),
{
    if a.len() > 0 {
        lemma_seq_le_reflexive(a.drop_first());
    }
}

pub proof fn lemma_seq_le_total(a: Seq<char>, b: Seq<char>)
    ensures
        seq_le(a, b) || seq_le(b, a),
    decreases a.len(),
{
    if a.len() > 0 && b.len() > 0 && a[0] == b[0] {
        lemma_seq_le_total(a.drop_first(), b.drop_first());
    }
}

pub proof fn lemma_seq_le_antisymmetric(a: Seq<char>, b: Seq<char>)
    requires
        seq_le(a, b),
        seq_le(b, a),
    ensures
        a == b,
    decreases a.len(),
{
    if a.len() > 0 && b.len() > 0 {
        lemma_seq_le_antisymmetric(a.drop_first(), b.drop_first());
        assert(a =~= seq![a[0]] + a.drop_first());
        assert(b =~= seq![b[0]] + b.drop_first());
    } else {
        assert(a =~= b);
    }
}

pub proof fn lemma_seq_le_transitive(a: Seq<char>, b: Seq<char>, c: Seq<char>)
    requires
        seq_le(a, b),
        seq_le(b, c),
    ensures
        seq_le(a, c),
    decreases a.len(),
{
    if a.len() > 0 && b.len() > 0 && c.len() > 0 && a[0] == b[0] && b[0] == c[0] {
        lemma_seq_le_transitive(a.drop_first(), b.drop_first(), c.drop_first());
    }
}

pub fn chars_le(a: &Vec<char>, b: &Vec<char>) -> (r: bool)
    ensures
        r == seq_le(a@, b@),
{
    let mut i: usize = 0;
    assert(a@.skip(0) =~= a@);
    assert(b@.skip(0) =~= b@);
    while i < a.len() && i < b.len() && a[i] == b[i]
        invariant
            i <= a.len(),
            i <= b.len(),
            seq_le(a@, b@) == seq_le(a@.skip(i as int), b@.skip(i as int)),
        decreases a.len() - i,
    {
        assert(a@.skip(i as int).drop_first() =~= a@.skip(i + 1));
        assert(b@.skip(i as int).drop_first() =~= b@.skip(i + 1));
        i += 1;
    }
    if i == a.len() {
        true
    } else if i == b.len() {
        false
    } else {
        a[i] < b[i]
    }
}

} // verus!

verus! {

/// Position of the first `c` in `s`, or -1 (`str::find` with a `char`).
pub open spec fn index_of(s: Seq<char>, c: char) -> int
    decreases s.len(),
{
    if s.len() == 0 {
        -1
    } else if s[0] == c {
        0
    } else {
        let r = index_of(s.drop_first(), c);
        if r < 0 {
            -1
        } else {
            r + 1
        }
    }
}

pub proof fn lemma_index_of(s: Seq<char>, c: char)
    ensures
        -1 <= index_of(s, c) < s.len(),
        index_of(s, c) >= 0 ==> s[index_of(s, c)] == c,
        forall|j: int| 0 <= j < s.len() && (index_of(s, c) < 0 || j < index_of(s, c)) ==> s[j] != c,
    decreases s.len(),
{
    if s.len() > 0 {
        lemma_index_of(s.drop_first(), c);
        assert forall|j: int| 0 < j < s.len() implies s[j] == s.drop_first()[j - 1] by {}
    }
}

pub fn index_of_exec(v: &Vec<char>, c: char) -> (r: Option<usize>)
    ensures
        r matches Some(i) ==> index_of(v@, c) == i,
        r is None ==> index_of(v@, c) == -1,
{
    let mut i: usize = 0;
    assert(v@.skip(0) =~= v@);
    while i < v.len()
        invariant
            i <= v.len(),
            index_of(v@, c) == if index_of(v@.skip(i as int), c) < 0 {
                -1
            } else {
                i + index_of(v@.skip(i as int), c)
            },
        decreases v.len() - i,
    {
        if v[i] == c {
            return Some(i);
        }
        assert(v@.skip(i as int).drop_first() =~= v@.skip(i + 1));
        i += 1;
    }
    None
}

/// `str::ends_with`.
pub open spec fn is_suffix(p: Seq<char>, s: Seq<char>) -> bool {
    p.len() <= s.len() && s.skip(s.len() - p.len()) == p
}

pub fn ends_with_chars(v: &Vec<char>, p: &Vec<char>) -> (b: bool)
    ensures
        b == is_suffix(p@, v@),
{
    if p.len() > v.len() {
        return false;
    }
    let b = occurs_at_exec(v, p, v.len() - p.len());
    assert(v@.subrange(v.len() - p.len(), v.len() as int) =~= v@.skip(v.len() - p.len()));
    b
}

} // verus!

verus! {

/// `str::trim_start` on a character vector.
pub fn trim_start_chars(v: &Vec<char>) -> (r: Vec<char>)
    ensures
        r@ == trim_start(v@),
{
    let mut a: usize = 0;
    while a < v.len() && is_whitespace_char(v[a])
        invariant
            a <= v.len(),
            forall|i: int| 0 <= i < a ==> is_ws(#[trigger] v@[i]),
        decreases v.len() - a,
    {
        a += 1;
    }
    proof {
        lemma_trim_start_skip(v@, a as int);
        assert(v@.skip(a as int) =~= v@.subrange(a as int, v@.len() as int));
    }
    slice_chars(v, a, v.len())
}

/// The string contents of a sequence of `String`s.
pub open spec fn string_views(v: Seq<String>) -> Seq<Seq<char>> {
    v.map_values(|x: String| x@)
}

pub fn strings_of(v: &Vec<Vec<char>>) -> (r: Vec<String>)
    ensures
        string_views(r@) == views(v@),
{
    let mut r: Vec<String> = Vec::new();
    let mut k: usize = 0;
    while k < v.len()
        invariant
            k <= v.len(),
            string_views(r@) == views(v@).take(k as int),
        decreases v.len() - k,
    {
        let s = string_of(&v[k]);
        let ghost old_r = string_views(r@);
        r.push(s);
        assert(string_views(r@) =~= old_r.push(v@[k as int]@));
        k += 1;
        assert(string_views(r@) =~= views(v@).take(k as int));
    }
    assert(views(v@).take(k as int) =~= views(v@));
    r
}

pub fn char_vecs_of(v: &Vec<String>) -> (r: Vec<Vec<char>>)
    ensures
        views(r@) == string_views(v@),
{
    let mut r: Vec<Vec<char>> = Vec::new();
    let mut k: usize = 0;
    while k < v.len()
        invariant
            k <= v.len(),
            views(r@) == string_views(v@).take(k as int),
        decreases v.len() - k,
    {
        let c = chars_of(v[k].as_str());
        let ghost old_r = views(r@);
        r.push(c);
        assert(views(r@) =~= old_r.push(v@[k as int]@));
        k += 1;
        assert(views(r@) =~= string_views(v@).take(k as int));
    }
    assert(string_views(v@).take(k as int) =~= string_views(v@));
    r
}

} // verus!

verus! {

/// A piece of a displayed name or line; `matched` pieces are highlighted.
pub struct Segment {
    pub text: String,
    pub matched: bool,
}

impl View for Segment {
    type V = (Seq<char>, bool);

    open spec fn view(&self) -> (Seq<char>, bool) {
        (self.text@, self.matched)
    }
}

pub open spec fn segment_views(v: Seq<Segment>) -> Seq<(Seq<char>, bool)> {
    v.map_values(|s: Segment| s@)
}

/// The text the pieces spell out, in order.
pub open spec fn flatten_segments(v: Seq<(Seq<char>, bool)>) -> Seq<char>
    decreases v.len(),
{
    if v.len() == 0 {
        Seq::empty()
    } else {
        flatten_segments(v.drop_last()) + v.last().0
    }
}

pub proof fn lemma_flatten_append(a: Seq<(Seq<char>, bool)>, b: Seq<(Seq<char>, bool)>)
    ensures
        flatten_segments(a + b) == flatten_segments(a) + flatten_segments(b),
    decreases b.len(),
{
    if b.len() == 0 {
        assert(a + b =~= a);
        assert(flatten_segments(a) + Seq::<char>::empty() =~= flatten_segments(a));
    } else {
        assert((a + b).drop_last() =~= a + b.drop_last());
        lemma_flatten_append(a, b.drop_last());
        assert(flatten_segments(a) + flatten_segments(b.drop_last()) + b.last().0
            =~= flatten_segments(a) + (flatten_segments(b.drop_last()) + b.last().0));
    }
}

/// Keeps the non-empty strings, in order.
pub open spec fn non_empty(v: Seq<Seq<char>>) -> Seq<Seq<char>>
    decreases v.len(),
{
    if v.len() == 0 {
        v
    } else {
        let r = non_empty(v.drop_last());
        if v.last().len() > 0 {
            r.push(v.last())
        } else {
            r
        }
    }
}

/// Comma-separated patterns: each trimmed, empty ones dropped.
pub open spec fn spec_filter_patterns(f: Seq<char>) -> Seq<Seq<char>> {
    non_empty(split(f, ',').map_values(|p: Seq<char>| trim(p)))
}

pub fn filter_patterns_chars(f: &Vec<char>) -> (r: Vec<Vec<char>>)
    ensures
        views(r@) == spec_filter_patterns(f@),
{
    let parts = split_chars(f, ',');
    let ghost trimmed = views(parts@).map_values(|p: Seq<char>| trim(p));
    let mut out: Vec<Vec<char>> = Vec::new();
    let mut k: usize = 0;
    while k < parts.len()
        invariant
            k <= parts.len(),
            trimmed == views(parts@).map_values(|p: Seq<char>| trim(p)),
            views(out@) == non_empty(trimmed.take(k as int)),
        decreases parts.len() - k,
    {
        let t = trim_chars(&parts[k]);
        assert(trimmed.take(k + 1).drop_last() =~= trimmed.take(k as int));
        assert(t@ == trimmed[k as int]);
        if t.len() > 0 {
            let ghost old_out = views(out@);
            out.push(t);
            assert(views(out@) =~= old_out.push(trimmed[k as int]));
        }
        k += 1;
    }
    assert(trimmed.take(k as int) =~= trimmed);
    out
}

/// The patterns of a comma-separated filter.
pub fn filter_patterns(f: &str) -> (r: Vec<String>)
    ensures
        string_views(r@) == spec_filter_patterns(f@),
{
    let v = chars_of(f);
    let p = filter_patterns_chars(&v);
    strings_of(&p)
}

/// Some pattern occurs in the name.
pub open spec fn any_pattern_in(name: Seq<char>, pats: Seq<Seq<char>>) -> bool {
    exists|i: int| 0 <= i < pats.len() && contains(name, #[trigger] pats[i])
}

pub fn any_pattern_in_exec(name: &Vec<char>, pats: &Vec<Vec<char>>) -> (b: bool)
    ensures
        b == any_pattern_in(name@, views(pats@)),
{
    let mut k: usize = 0;
    while k < pats.len()
        invariant
            k <= pats.len(),
            forall|i: int| 0 <= i < k ==> !contains(name@, #[trigger] views(pats@)[i]),
        decreases pats.len() - k,
    {
        if contains_chars(name, &pats[k]) {
            assert(contains(name@, views(pats@)[k as int]));
            return true;
        }
        k += 1;
    }
    false
}

} // verus!

verus! {

/// Position of the first occurrence of `p` in `s`, or -1 (`str::find`).
pub open spec fn first_occurrence(s: Seq<char>, p: Seq<char>) -> int
    decreases s.len(),
{
    if occurs_at(s, p, 0) {
        0
    } else if s.len() == 0 {
        -1
    } else {
        let r = first_occurrence(s.drop_first(), p);
        if r < 0 {
            -1
        } else {
            r + 1
        }
    }
}

proof fn lemma_occurs_shift(s: Seq<char>, p: Seq<char>, j: int)
    requires
        s.len() > 0,
        0 <= j,
    ensures
        occurs_at(s.drop_first(), p, j) == occurs_at(s, p, j + 1),
{
    if j + 1 + p.len() <= s.len() {
        assert(s.drop_first().subrange(j, j + p.len()) =~= s.subrange(j + 1, j + 1 + p.len()));
    }
}

/// `first_occurrence` is the least position where `p` occurs.
pub proof fn lemma_first_occurrence(s: Seq<char>, p: Seq<char>)
    ensures
        first_occurrence(s, p) >= 0 ==> occurs_at(s, p, first_occurrence(s, p)),
        forall|j: int|
            0 <= j && (first_occurrence(s, p) < 0 || j < first_occurrence(s, p)) ==> !occurs_at(
                s,
                p,
                j,
            ),
    decreases s.len(),
{
    if occurs_at(s, p, 0) {
    } else if s.len() == 0 {
    } else {
        lemma_first_occurrence(s.drop_first(), p);
        assert forall|j: int| 0 <= j implies occurs_at(s.drop_first(), p, j) == occurs_at(s, p, j + 1) by {
            lemma_occurs_shift(s, p, j);
        }
        assert forall|j: int|
            0 <= j && (first_occurrence(s, p) < 0 || j < first_occurrence(s, p)) implies !occurs_at(s, p, j) by {
            if j > 0 {
                assert(occurs_at(s.drop_first(), p, j - 1) == occurs_at(s, p, j));
            }
        }
    }
}

/// `find_chars`' answer, as `first_occurrence` states it.
pub fn first_occurrence_exec(v: &Vec<char>, p: &Vec<char>) -> (r: Option<usize>)
    ensures
        r matches Some(i) ==> first_occurrence(v@, p@) == i,
        r is None ==> first_occurrence(v@, p@) == -1,
{
    let r = find_chars(v, p);
    proof {
        lemma_first_occurrence(v@, p@);
        let f = first_occurrence(v@, p@);
        match r {
            Some(i) => {
                if f >= 0 && f != i {
                    if f < i {
                        assert(!occurs_at(v@, p@, f));
                    } else {
                        assert(!occurs_at(v@, p@, i as int));
                    }
                }
                if f < 0 {
                    assert(!occurs_at(v@, p@, i as int));
                }
            },
            None => {
                if f >= 0 {
                    assert(contains(v@, p@));
                }
            },
        }
    }
    r
}

/// `format!("{:>w}", s)`: spaces in front up to `w` characters.
pub open spec fn pad_left(s: Seq<char>, w: nat) -> Seq<char> {
    if s.len() >= w {
        s
    } else {
        Seq::new((w - s.len()) as nat, |i: int| ' ') + s
    }
}

pub fn pad_left_chars(v: &Vec<char>, w: usize) -> (r: Vec<char>)
    ensures
        r@ == pad_left(v@, w as nat),
{
    let mut r: Vec<char> = Vec::new();
    if v.len() < w {
        let n = w - v.len();
        let mut k: usize = 0;
        while k < n
            invariant
                k <= n,
                r@ =~= Seq::new(k as nat, |i: int| ' '),
            decreases n - k,
        {
            r.push(' ');
            k += 1;
        }
    }
    push_all(&mut r, v);
    assert(r@ =~= pad_left(v@, w as nat));
    r
}

} // verus!

verus! {

pub proof fn lemma_non_empty_elements(v: Seq<Seq<char>>)
    ensures
        forall|i: int| 0 <= i < non_empty(v).len() ==> (#[trigger] non_empty(v)[i]).len() > 0,
    decreases v.len(),
{
    if v.len() > 0 {
        lemma_non_empty_elements(v.drop_last());
        let r = non_empty(v.drop_last());
        if v.last().len() > 0 {
            assert forall|i: int| 0 <= i < r.push(v.last()).len() implies (#[trigger] r.push(v.last())[i]).len() > 0 by {
                if i < r.len() {
                    assert(r.push(v.last())[i] == r[i]);
                }
            }
        }
    }
}

} // verus!

verus! {

/// Splitting a concatenation: the last piece of the left part joins the
/// first piece of the right part.
pub proof fn lemma_split_append(x: Seq<char>, y: Seq<char>, sep: char)
    ensures
        split(x + y, sep) == split(x, sep).drop_last() + seq![split(x, sep).last() + split(y, sep)[0]]
            + split(y, sep).drop_first(),
    decreases x.len(),
{
    lemma_split_nonempty(x, sep);
    lemma_split_nonempty(y, sep);
    let b = split(y, sep);
    if x.len() == 0 {
        assert(x + y =~= y);
        assert(split(x, sep) =~= seq![Seq::<char>::empty()]);
        assert(Seq::<char>::empty() + b[0] =~= b[0]);
        assert(split(x, sep).drop_last() + seq![split(x, sep).last() + b[0]] + b.drop_first() =~= b);
    } else {
        let x1 = x.drop_first();
        lemma_split_append(x1, y, sep);
        lemma_split_nonempty(x1, sep);
        assert((x + y).drop_first() =~= x1 + y);
        let a = split(x1, sep);
        let r = split(x1 + y, sep);
        assert(r == a.drop_last() + seq![a.last() + b[0]] + b.drop_first());
        if x[0] == sep {
            assert(split(x, sep) == seq![Seq::<char>::empty()] + a);
            assert(split(x, sep).drop_last() =~= seq![Seq::<char>::empty()] + a.drop_last());
            assert(split(x + y, sep) =~= seq![Seq::<char>::empty()] + r);
            assert(split(x + y, sep) =~= split(x, sep).drop_last() + seq![split(x, sep).last() + b[0]]
                + b.drop_first());
        } else {
            assert(split(x + y, sep) == r.update(0, seq![x[0]] + r[0]));
            assert(split(x, sep) == a.update(0, seq![x[0]] + a[0]));
            if a.len() == 1 {
                assert(r[0] == a[0] + b[0]);
                assert(seq![x[0]] + (a[0] + b[0]) =~= (seq![x[0]] + a[0]) + b[0]);
                assert(split(x + y, sep) =~= split(x, sep).drop_last() + seq![split(x, sep).last()
                    + b[0]] + b.drop_first());
            } else {
                assert(r[0] == a[0]);
                assert(split(x + y, sep) =~= split(x, sep).drop_last() + seq![split(x, sep).last()
                    + b[0]] + b.drop_first());
            }
        }
    }
}

/// A string without the separator is one piece.
pub proof fn lemma_split_no_sep(x: Seq<char>, sep: char)
    requires
        forall|i: int| 0 <= i < x.len() ==> x[i] != sep,
    ensures
        split(x, sep) == seq![x],
    decreases x.len(),
{
    if x.len() == 0 {
        assert(x =~= Seq::<char>::empty());
        assert(split(x, sep) =~= seq![x]);
    } else {
        lemma_split_no_sep(x.drop_first(), sep);
        let rest = split(x.drop_first(), sep);
        assert(seq![x[0]] + x.drop_first() =~= x);
        assert(split(x, sep) == rest.update(0, seq![x[0]] + rest[0]));
        assert(split(x, sep)[0] == x);
        assert(split(x, sep) =~= seq![x]);
    }
}

} // verus!

verus! {

/// Replacing with text free of `c` in text free of `c` leaves it free of `c`.
pub proof fn lemma_replace_avoids(s: Seq<char>, pat: Seq<char>, rep: Seq<char>, c: char)
    requires
        forall|i: int| 0 <= i < s.len() ==> s[i] != c,
        forall|i: int| 0 <= i < rep.len() ==> rep[i] != c,
    ensures
        forall|i: int| 0 <= i < replace(s, pat, rep).len() ==> replace(s, pat, rep)[i] != c,
    decreases s.len(),
{
    if s.len() == 0 {
    } else if pat.len() > 0 && is_prefix(pat, s) {
        let t = s.skip(pat.len() as int);
        assert forall|i: int| 0 <= i < t.len() implies t[i] != c by {
            assert(t[i] == s[i + pat.len()]);
        }
        lemma_replace_avoids(t, pat, rep, c);
        let r = replace(t, pat, rep);
        assert forall|i: int| 0 <= i < (rep + r).len() implies (rep + r)[i] != c by {
            if i >= rep.len() {
                assert((rep + r)[i] == r[i - rep.len()]);
            }
        }
    } else {
        let t = s.drop_first();
        assert forall|i: int| 0 <= i < t.len() implies t[i] != c by {
            assert(t[i] == s[i + 1]);
        }
        lemma_replace_avoids(t, pat, rep, c);
        let r = replace(t, pat, rep);
        assert forall|i: int| 0 <= i < (seq![s[0]] + r).len() implies (seq![s[0]] + r)[i] != c by {
            if i >= 1 {
                assert((seq![s[0]] + r)[i] == r[i - 1]);
            }
        }
    }
}

} // verus!

verus! {

/// No piece of a split holds the separator.
pub proof fn lemma_split_pieces_avoid(s: Seq<char>, sep: char)
    ensures
        forall|i: int, j: int|
            0 <= i < split(s, sep).len() && 0 <= j < split(s, sep)[i].len() ==> #[trigger] split(
                s,
                sep,
            )[i][j] != sep,
    decreases s.len(),
{
    if s.len() > 0 {
        lemma_split_pieces_avoid(s.drop_first(), sep);
        lemma_split_nonempty(s.drop_first(), sep);
        let rest = split(s.drop_first(), sep);
        if s[0] == sep {
            assert forall|i: int, j: int|
                0 <= i < split(s, sep).len() && 0 <= j < split(s, sep)[i].len() implies #[trigger] split(
                    s,
                    sep,
                )[i][j] != sep by {
                assert(split(s, sep)[i] == (seq![Seq::<char>::empty()] + rest)[i]);
                if i > 0 {
                    assert(split(s, sep)[i] == rest[i - 1]);
                }
            }
        } else {
            assert forall|i: int, j: int|
                0 <= i < split(s, sep).len() && 0 <= j < split(s, sep)[i].len() implies #[trigger] split(
                    s,
                    sep,
                )[i][j] != sep by {
                if i == 0 {
                    assert(split(s, sep)[0] == seq![s[0]] + rest[0]);
                    if j > 0 {
                        assert(split(s, sep)[0][j] == rest[0][j - 1]);
                    }
                } else {
                    assert(split(s, sep)[i] == rest[i]);
                }
            }
        }
    } else {
        assert(split(s, sep) =~= seq![Seq::<char>::empty()]);
    }
}

/// Splitting a line with its `\n`: the line, then an empty piece.
proof fn lemma_split_line(l: Seq<char>)
    requires
        forall|i: int| 0 <= i < l.len() ==> l[i] != '\n',
    ensures
        split(l + seq!['\n'], '\n') == seq![l, Seq::<char>::empty()],
{
    let nl = seq!['\n'];
    lemma_split_no_sep(l, '\n');
    assert(split(nl, '\n') =~= seq![Seq::<char>::empty(), Seq::<char>::empty()]) by {
        assert(nl.drop_first() =~= Seq::<char>::empty());
        assert(split(Seq::<char>::empty(), '\n') == seq![Seq::<char>::empty()]);
        assert(split(nl, '\n') == seq![Seq::<char>::empty()] + split(nl.drop_first(), '\n'));
    }
    lemma_split_append(l, nl, '\n');
    assert(l + Seq::<char>::empty() =~= l);
    assert(split(l + nl, '\n') =~= seq![l, Seq::<char>::empty()]);
}

/// The last piece of a split is empty exactly when the text is empty or
/// ends with the separator; otherwise it ends with the text's last character.
pub proof fn lemma_split_last_piece(s: Seq<char>, sep: char)
    ensures
        split(s, sep).len() >= 1,
        (split(s, sep).last().len() == 0) == (s.len() == 0 || s.last() == sep),
        split(s, sep).last().len() > 0 ==> split(s, sep).last().last() == s.last(),
{
    lemma_split_nonempty(s, sep);
    if s.len() == 0 {
        assert(split(s, sep) =~= seq![Seq::<char>::empty()]);
    } else {
        let x = s.drop_last();
        let y = seq![s.last()];
        assert(x + y =~= s);
        lemma_split_append(x, y, sep);
        lemma_split_nonempty(x, sep);
        let a = split(x, sep);
        if s.last() == sep {
            assert(y.drop_first() =~= Seq::<char>::empty());
            assert(split(y.drop_first(), sep) == seq![Seq::<char>::empty()]);
            assert(split(y, sep) == seq![Seq::<char>::empty()] + split(y.drop_first(), sep));
            assert(split(s, sep) =~= a.drop_last() + seq![a.last() + Seq::<char>::empty()] + seq![
                Seq::<char>::empty(),
            ]);
        } else {
            lemma_split_no_sep(y, sep);
            assert(split(s, sep) =~= a.drop_last() + seq![a.last() + y]);
            assert((a.last() + y).last() == s.last());
        }
    }
}

/// Pieces without the separator, joined by it, split back into those pieces.
pub proof fn lemma_split_join(k: Seq<Seq<char>>, sep: char)
    requires
        k.len() >= 1,
        forall|i: int, j: int| 0 <= i < k.len() && 0 <= j < k[i].len() ==> #[trigger] k[i][j] != sep,
    ensures
        split(join(k, seq![sep]), sep) == k,
    decreases k.len(),
{
    let sp = seq![sep];
    if k.len() == 1 {
        assert forall|j: int| 0 <= j < k[0].len() implies k[0][j] != sep by {
            assert(k[0][j] != sep);
        }
        lemma_split_no_sep(k[0], sep);
        assert(split(join(k, sp), sep) =~= k);
    } else {
        let init = k.drop_last();
        let l = k.last();
        assert forall|i: int, j: int| 0 <= i < init.len() && 0 <= j < init[i].len() implies #[trigger] init[i][j] != sep by {
            assert(init[i] == k[i]);
        }
        lemma_split_join(init, sep);
        assert forall|j: int| 0 <= j < l.len() implies l[j] != sep by {
            assert(l[j] == k[k.len() - 1][j]);
        }
        lemma_split_no_sep(l, sep);
        let y = sp + l;
        assert(y.drop_first() =~= l);
        assert(split(y, sep) == seq![Seq::<char>::empty()] + split(y.drop_first(), sep));
        lemma_split_append(join(init, sp), y, sep);
        assert(join(init, sp) + y =~= join(k, sp));
        assert(init.last() + Seq::<char>::empty() =~= init.last());
        assert(split(join(k, sp), sep) =~= k);
    }
}

/// Lines without line breaks, each but the last without a final `\r` and
/// the last not empty, joined by `\n`, read back as those lines.
pub proof fn lemma_lines_join(k: Seq<Seq<char>>)
    requires
        forall|i: int, j: int| 0 <= i < k.len() && 0 <= j < k[i].len() ==> #[trigger] k[i][j] != '\n',
        k.len() == 0 || k.last().len() > 0,
        forall|i: int| 0 <= i < k.len() - 1 ==> strip_cr(#[trigger] k[i]) == k[i],
    ensures
        lines(join(k, seq!['\n'])) == k,
{
    if k.len() == 0 {
        assert(join(k, seq!['\n']) =~= Seq::<char>::empty());
        assert(split(Seq::<char>::empty(), '\n') == seq![Seq::<char>::empty()]);
        assert(lines(join(k, seq!['\n'])) =~= k);
    } else {
        lemma_split_join(k, '\n');
        let init = k.drop_last();
        assert(init.map_values(|l: Seq<char>| strip_cr(l)) =~= init) by {
            assert forall|i: int| 0 <= i < init.len() implies strip_cr(#[trigger] init[i]) == init[i] by {
                assert(init[i] == k[i]);
            }
        }
        assert(init.push(k.last()) =~= k);
    }
}

/// A line without line breaks or a final `\r`, appended with its `\n` to
/// text that is empty or ends in `\n`, becomes the text's last line.
pub proof fn lemma_lines_append_line(c: Seq<char>, l: Seq<char>)
    requires
        c.len() == 0 || c.last() == '\n',
        forall|i: int| 0 <= i < l.len() ==> l[i] != '\n',
        strip_cr(l) == l,
    ensures
        lines(c + l + seq!['\n']) == lines(c).push(l),
{
    let nl = seq!['\n'];
    lemma_split_line(l);
    lemma_split_last_piece(c, '\n');
    let sc = split(c, '\n');
    lemma_split_append(c, l + nl, '\n');
    assert(c + (l + nl) =~= c + l + nl);
    let p = split(c + l + nl, '\n');
    assert(sc.last() =~= Seq::<char>::empty());
    assert(Seq::<char>::empty() + l =~= l);
    assert(p =~= sc.drop_last() + seq![l, Seq::<char>::empty()]);
    assert(p.drop_last() =~= sc.drop_last().push(l));
    assert(p.drop_last().map_values(|x: Seq<char>| strip_cr(x)) =~= sc.drop_last().map_values(
        |x: Seq<char>| strip_cr(x),
    ).push(l));
}

/// Ending a last line that has no `\n` and no final `\r` with a `\n`
/// leaves the lines as they were.
pub proof fn lemma_lines_close(c: Seq<char>)
    requires
        c.len() > 0,
        c.last() != '\n',
        c.last() != '\r',
    ensures
        lines(c + seq!['\n']) == lines(c),
{
    let nl = seq!['\n'];
    lemma_split_last_piece(c, '\n');
    let sc = split(c, '\n');
    assert(nl.drop_first() =~= Seq::<char>::empty());
    assert(split(Seq::<char>::empty(), '\n') == seq![Seq::<char>::empty()]);
    assert(split(nl, '\n') == seq![Seq::<char>::empty()] + split(nl.drop_first(), '\n'));
    lemma_split_append(c, nl, '\n');
    assert(sc.last() + Seq::<char>::empty() =~= sc.last());
    let p = split(c + nl, '\n');
    assert(p =~= sc.push(Seq::<char>::empty()));
    assert(p.drop_last() =~= sc);
    assert(strip_cr(sc.last()) == sc.last());
    assert(sc.map_values(|x: Seq<char>| strip_cr(x)) =~= sc.drop_last().map_values(
        |x: Seq<char>| strip_cr(x),
    ).push(sc.last()));
}

} // verus!

verus! {

/// Law: a filter written as its patterns joined by commas reads back as
/// those patterns, in order, whatever their number, when each is non-empty,
/// holds no comma and has no whitespace at either end.
pub proof fn law_filter_patterns_round_trip(pats: Seq<Seq<char>>)
    requires
        forall|i: int| 0 <= i < pats.len() ==> (#[trigger] pats[i]).len() > 0,
        forall|i: int| 0 <= i < pats.len() ==> trim(#[trigger] pats[i]) == pats[i],
        forall|i: int, j: int| 0 <= i < pats.len() && 0 <= j < pats[i].len() ==> #[trigger] pats[i][j] != ',',
    ensures
        spec_filter_patterns(join(pats, seq![','])) == pats,
{
    if pats.len() == 0 {
        assert(join(pats, seq![',']) =~= Seq::<char>::empty());
        assert(split(Seq::<char>::empty(), ',') == seq![Seq::<char>::empty()]);
        let t = split(join(pats, seq![',']), ',').map_values(|p: Seq<char>| trim(p));
        assert(t.len() == 1);
        assert(trim_start(Seq::<char>::empty()) == Seq::<char>::empty());
        assert(trim(Seq::<char>::empty()).len() == 0);
        assert(t.drop_last() =~= Seq::<Seq<char>>::empty());
        assert(non_empty(t.drop_last()) =~= Seq::<Seq<char>>::empty());
    } else {
        lemma_split_join(pats, ',');
        let t = pats.map_values(|p: Seq<char>| trim(p));
        assert(t =~= pats);
        lemma_non_empty_keeps(pats);
    }
}

proof fn lemma_non_empty_keeps(v: Seq<Seq<char>>)
    requires
        forall|i: int| 0 <= i < v.len() ==> (#[trigger] v[i]).len() > 0,
    ensures
        non_empty(v) == v,
    decreases v.len(),
{
    if v.len() > 0 {
        assert forall|i: int| 0 <= i < v.drop_last().len() implies (#[trigger] v.drop_last()[i]).len() > 0 by {
            assert(v.drop_last()[i] == v[i]);
        }
        lemma_non_empty_keeps(v.drop_last());
        assert(v[v.len() - 1].len() > 0);
        assert(v.drop_last().push(v.last()) =~= v);
    }
}

} // verus!
