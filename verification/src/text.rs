//! Text primitives over character sequences: trimming, prefixes, searching,
//! splitting into lines and on separators, and joining.
//!
//! Each exec function is stated against the spec function of the same
//! name, which follows the `str` method the markdown and link code is
//! written in terms of (`trim`, `starts_with`, `find`, `lines`, `split`).
use crate::chars::{chars_of, is_ws, whitespace};
use vstd::prelude::*;

verus! {

/// Leading `White_Space` removed (`str::trim_start`).
pub open spec fn trim_start(s: Seq<char>) -> Seq<char>
    decreases s.len(),
{
    if s.len() > 0 && is_ws(s[0]) {
        trim_start(s.drop_first())
    } else {
        s
    }
}

/// Trailing `White_Space` removed (`str::trim_end`).
pub open spec fn trim_end(s: Seq<char>) -> Seq<char>
    decreases s.len(),
{
    if s.len() > 0 && is_ws(s.last()) {
        trim_end(s.drop_last())
    } else {
        s
    }
}

/// Both ends trimmed (`str::trim`).
pub open spec fn trim(s: Seq<char>) -> Seq<char> {
    trim_end(trim_start(s))
}

/// Leading copies of `c` removed (`str::trim_start_matches(c)`).
pub open spec fn trim_start_char(s: Seq<char>, c: char) -> Seq<char>
    decreases s.len(),
{
    if s.len() > 0 && s[0] == c {
        trim_start_char(s.drop_first(), c)
    } else {
        s
    }
}

/// Trailing copies of `c` removed (`str::trim_end_matches(c)`).
pub open spec fn trim_end_char(s: Seq<char>, c: char) -> Seq<char>
    decreases s.len(),
{
    if s.len() > 0 && s.last() == c {
        trim_end_char(s.drop_last(), c)
    } else {
        s
    }
}

/// `p` is a prefix of `s`.
pub open spec fn starts_with(s: Seq<char>, p: Seq<char>) -> bool {
    p.len() <= s.len() && s.subrange(0, p.len() as int) == p
}

/// `p` is a suffix of `s`.
pub open spec fn ends_with(s: Seq<char>, p: Seq<char>) -> bool {
    p.len() <= s.len() && s.subrange(s.len() - p.len(), s.len() as int) == p
}

/// `p` occurs in `s` starting at `i`.
pub open spec fn occurs_at(s: Seq<char>, p: Seq<char>, i: int) -> bool {
    0 <= i && i + p.len() <= s.len() && s.subrange(i, i + p.len()) == p
}

/// The first occurrence of `p` in `s` at or after `from` (`str::find`).
pub open spec fn find_from(s: Seq<char>, p: Seq<char>, from: int) -> Option<int>
    decreases s.len() - from,
{
    if from < 0 || from + p.len() > s.len() {
        None
    } else if occurs_at(s, p, from) {
        Some(from)
    } else if from >= s.len() {
        None
    } else {
        find_from(s, p, from + 1)
    }
}

/// The first occurrence of `p` in `s`.
pub open spec fn find(s: Seq<char>, p: Seq<char>) -> Option<int> {
    find_from(s, p, 0)
}

/// The first index at or after `from` holding `c`, or `s.len()`.
pub open spec fn next_char(s: Seq<char>, c: char, from: int) -> int
    decreases s.len() - from,
{
    if from >= s.len() {
        s.len() as int
    } else if from >= 0 && s[from] == c {
        from
    } else {
        next_char(s, c, from + 1)
    }
}

pub proof fn lemma_next_char(s: Seq<char>, c: char, from: int)
    requires
        0 <= from <= s.len(),
    ensures
        from <= next_char(s, c, from) <= s.len(),
        next_char(s, c, from) < s.len() ==> s[next_char(s, c, from)] == c,
        forall|k: int| from <= k < next_char(s, c, from) ==> s[k] != c,
    decreases s.len() - from,
{
    if from < s.len() && s[from] != c {
        lemma_next_char(s, c, from + 1);
    }
}

/// The first index of `c` in `s`.
pub open spec fn index_of(s: Seq<char>, c: char) -> Option<int> {
    let i = next_char(s, c, 0);
    if i < s.len() {
        Some(i)
    } else {
        None
    }
}

/// One line of `str::lines`: the text before the `'\n'`, with one `'\r'`
/// dropped when it precedes the `'\n'`.
pub open spec fn strip_cr(line: Seq<char>) -> Seq<char> {
    if line.len() > 0 && line.last() == '\r' {
        line.drop_last()
    } else {
        line
    }
}

/// `str::lines` from position `from`: pieces ending in `'\n'` lose it (and a
/// `'\r'` before it); a last piece without `'\n'` is kept as-is; nothing
/// follows a final `'\n'`.
pub open spec fn lines_from(s: Seq<char>, from: int) -> Seq<Seq<char>>
    decreases s.len() - from,
{
    if from < 0 || from >= s.len() {
        Seq::empty()
    } else {
        let e = next_char(s, '\n', from);
        proof {
            lemma_next_char(s, '\n', from);
        }
        if e < s.len() {
            seq![strip_cr(s.subrange(from, e))] + lines_from(s, e + 1)
        } else {
            seq![s.subrange(from, s.len() as int)]
        }
    }
}

/// `str::lines`.
pub open spec fn lines(s: Seq<char>) -> Seq<Seq<char>> {
    lines_from(s, 0)
}

/// `str::split(c)` from position `from`: every piece between separators,
/// including empty ones and the piece after the last separator.
pub open spec fn split_from(s: Seq<char>, c: char, from: int) -> Seq<Seq<char>>
    decreases s.len() - from,
{
    if from < 0 || from > s.len() {
        Seq::empty()
    } else {
        let e = next_char(s, c, from);
        proof {
            lemma_next_char(s, c, from);
        }
        if e < s.len() {
            seq![s.subrange(from, e)] + split_from(s, c, e + 1)
        } else {
            seq![s.subrange(from, s.len() as int)]
        }
    }
}

/// `str::split(c)`.
pub open spec fn split(s: Seq<char>, c: char) -> Seq<Seq<char>> {
    split_from(s, c, 0)
}

/// `pieces.join(sep)`.
pub open spec fn join(pieces: Seq<Seq<char>>, sep: Seq<char>) -> Seq<char>
    decreases pieces.len(),
{
    if pieces.len() == 0 {
        Seq::empty()
    } else if pieces.len() == 1 {
        pieces[0]
    } else {
        join(pieces.drop_last(), sep) + sep + pieces.last()
    }
}

/// No `'\r'` stands right before a `'\n'`: lines end in a bare newline.
pub open spec fn no_crlf(s: Seq<char>) -> bool {
    forall|i: int, j: int|
        0 <= i && j == i + 1 && j < s.len() ==> !(#[trigger] s[i] == '\r' && #[trigger] s[j] == '\n')
}

/// The `'\n'` a text ends with, if it ends with one.
pub open spec fn final_newline(s: Seq<char>) -> Seq<char> {
    if s.len() > 0 && s.last() == '\n' {
        seq!['\n']
    } else {
        Seq::empty()
    }
}

pub proof fn lemma_join_prepend(p: Seq<char>, rest: Seq<Seq<char>>, sep: Seq<char>)
    requires
        rest.len() > 0,
    ensures
        join(seq![p] + rest, sep) == p + sep + join(rest, sep),
    decreases rest.len(),
{
    let all = seq![p] + rest;
    assert(all.last() == rest.last());
    if rest.len() == 1 {
        assert(all.drop_last() =~= seq![p]);
        assert(join(all.drop_last(), sep) == p);
        assert(join(rest, sep) == rest[0]);
    } else {
        lemma_join_prepend(p, rest.drop_last(), sep);
        assert(all.drop_last() =~= seq![p] + rest.drop_last());
        assert(join(rest, sep) == join(rest.drop_last(), sep) + sep + rest.last());
        assert(join(all, sep) == join(all.drop_last(), sep) + sep + all.last());
        assert((p + sep + join(rest.drop_last(), sep)) + sep + rest.last() =~= p + sep + (join(rest.drop_last(), sep) + sep + rest.last()));
    }
}

/// Without carriage returns before newlines, the lines of a text joined by
/// `'\n'`, with its final newline put back, are the text again.
pub proof fn lemma_lines_rejoin(s: Seq<char>, from: int)
    requires
        no_crlf(s),
        0 <= from < s.len(),
    ensures
        join(lines_from(s, from), seq!['\n']) + final_newline(s) == s.subrange(from, s.len() as int),
    decreases s.len() - from,
{
    let e = next_char(s, '\n', from);
    lemma_next_char(s, '\n', from);
    if e < s.len() {
        let piece = s.subrange(from, e);
        if piece.len() > 0 {
            assert(!(s[e - 1] == '\r' && s[e] == '\n'));
            assert(piece.last() == s[e - 1]);
        }
        assert(strip_cr(piece) == piece);
        if e + 1 < s.len() {
            lemma_lines_rejoin(s, e + 1);
            lemma_next_char(s, '\n', e + 1);
            assert(lines_from(s, e + 1).len() > 0);
            lemma_join_prepend(piece, lines_from(s, e + 1), seq!['\n']);
            assert(s.subrange(from, s.len() as int) =~= piece + seq!['\n'] + s.subrange(e + 1, s.len() as int));
        } else {
            assert(lines_from(s, e + 1) =~= Seq::<Seq<char>>::empty());
            assert(lines_from(s, from) =~= seq![piece]);
            assert(s.subrange(from, s.len() as int) =~= piece + seq!['\n']);
        }
    } else {
        assert(s[s.len() - 1] != '\n');
    }
}

/// The lines of a text without carriage returns before newlines, rejoined.
pub proof fn lemma_lines_rejoin_all(s: Seq<char>)
    requires
        no_crlf(s),
    ensures
        join(lines(s), seq!['\n']) + final_newline(s) == s,
{
    if s.len() > 0 {
        lemma_lines_rejoin(s, 0);
        assert(s.subrange(0, s.len() as int) =~= s);
    } else {
        assert(join(lines(s), seq!['\n']) + final_newline(s) =~= s);
    }
}

/// The character sequences held by a vector of character vectors.
pub open spec fn views(v: Seq<Vec<char>>) -> Seq<Seq<char>> {
    Seq::new(v.len(), |i: int| v[i]@)
}

/// Every character of `s` satisfies `f`.
pub open spec fn all_chars(s: Seq<char>, f: spec_fn(char) -> bool) -> bool {
    forall|i: int| 0 <= i < s.len() ==> f(#[trigger] s[i])
}

/// `c` occurs in `s`.
pub open spec fn has_char(s: Seq<char>, c: char) -> bool {
    exists|i: int| 0 <= i < s.len() && s[i] == c
}

pub proof fn lemma_subrange_drop_first(s: Seq<char>, i: int)
    requires
        0 <= i < s.len(),
    ensures
        s.subrange(i, s.len() as int).drop_first() == s.subrange(i + 1, s.len() as int),
        s.subrange(i, s.len() as int)[0] == s[i],
{
    assert(s.subrange(i, s.len() as int).drop_first() =~= s.subrange(i + 1, s.len() as int));
}

pub proof fn lemma_subrange_drop_last(s: Seq<char>, j: int)
    requires
        0 < j <= s.len(),
    ensures
        s.subrange(0, j).drop_last() == s.subrange(0, j - 1),
        s.subrange(0, j).last() == s[j - 1],
{
    assert(s.subrange(0, j).drop_last() =~= s.subrange(0, j - 1));
}

/// `s[a..b]` as a new vector.
pub fn slice_of(s: &[char], a: usize, b: usize) -> (r: Vec<char>)
    requires
        a <= b <= s@.len(),
    ensures
        r@ == s@.subrange(a as int, b as int),
{
    let mut r: Vec<char> = Vec::new();
    let mut i = a;
    while i < b
        invariant
            a <= i <= b <= s@.len(),
            r@ == s@.subrange(a as int, i as int),
        decreases b - i,
    {
        r.push(s[i]);
        i += 1;
        assert(r@ =~= s@.subrange(a as int, i as int));
    }
    r
}

/// Appends `t` to `r`.
pub fn push_all(r: &mut Vec<char>, t: &[char])
    ensures
        final(r)@ == old(r)@ + t@,
{
    let ghost r0 = r@;
    let mut i: usize = 0;
    while i < t.len()
        invariant
            i <= t@.len(),
            r@ == r0 + t@.subrange(0, i as int),
        decreases t.len() - i,
    {
        r.push(t[i]);
        i += 1;
        assert(r@ =~= r0 + t@.subrange(0, i as int));
    }
    assert(t@.subrange(0, t@.len() as int) =~= t@);
}

/// Appends the characters of `t` to `r`.
pub fn push_str(r: &mut Vec<char>, t: &str)
    ensures
        final(r)@ == old(r)@ + t@,
{
    let v = chars_of(t);
    push_all(r, &v);
}

/// The index of the first non-whitespace character, or `s.len()`.
pub fn trim_start_index(s: &[char]) -> (i: usize)
    ensures
        i <= s@.len(),
        trim_start(s@) == s@.subrange(i as int, s@.len() as int),
{
    let mut i: usize = 0;
    assert(s@.subrange(0, s@.len() as int) =~= s@);
    while i < s.len() && whitespace(s[i])
        invariant
            i <= s@.len(),
            trim_start(s@) == trim_start(s@.subrange(i as int, s@.len() as int)),
        decreases s.len() - i,
    {
        proof {
            lemma_subrange_drop_first(s@, i as int);
        }
        i += 1;
    }
    proof {
        if i < s@.len() {
            lemma_subrange_drop_first(s@, i as int);
        }
    }
    i
}

/// One past the last non-whitespace character of `s[..end]`.
pub fn trim_end_index(s: &[char], end: usize) -> (j: usize)
    requires
        end <= s@.len(),
    ensures
        j <= end,
        trim_end(s@.subrange(0, end as int)) == s@.subrange(0, j as int),
{
    let mut j = end;
    while j > 0 && whitespace(s[j - 1])
        invariant
            j <= end <= s@.len(),
            trim_end(s@.subrange(0, end as int)) == trim_end(s@.subrange(0, j as int)),
        decreases j,
    {
        proof {
            lemma_subrange_drop_last(s@, j as int);
        }
        j -= 1;
    }
    proof {
        if j > 0 {
            lemma_subrange_drop_last(s@, j as int);
        }
    }
    j
}

/// `s.trim_start()`.
pub fn trim_start_v(s: &[char]) -> (r: Vec<char>)
    ensures
        r@ == trim_start(s@),
{
    let i = trim_start_index(s);
    slice_of(s, i, s.len())
}

/// `s.trim_end()`.
pub fn trim_end_v(s: &[char]) -> (r: Vec<char>)
    ensures
        r@ == trim_end(s@),
{
    let j = trim_end_index(s, s.len());
    assert(s@.subrange(0, s@.len() as int) =~= s@);
    slice_of(s, 0, j)
}

/// `s.trim()`.
pub fn trim_v(s: &[char]) -> (r: Vec<char>)
    ensures
        r@ == trim(s@),
{
    let t = trim_start_v(s);
    trim_end_v(&t)
}

/// `s.trim_start_matches(c)`.
pub fn trim_start_char_v(s: &[char], c: char) -> (r: Vec<char>)
    ensures
        r@ == trim_start_char(s@, c),
{
    let mut i: usize = 0;
    assert(s@.subrange(0, s@.len() as int) =~= s@);
    while i < s.len() && s[i] == c
        invariant
            i <= s@.len(),
            trim_start_char(s@, c) == trim_start_char(s@.subrange(i as int, s@.len() as int), c),
        decreases s.len() - i,
    {
        proof {
            lemma_subrange_drop_first(s@, i as int);
        }
        i += 1;
    }
    proof {
        if i < s@.len() {
            lemma_subrange_drop_first(s@, i as int);
        }
    }
    slice_of(s, i, s.len())
}

/// `s.trim_end_matches(c)`.
pub fn trim_end_char_v(s: &[char], c: char) -> (r: Vec<char>)
    ensures
        r@ == trim_end_char(s@, c),
{
    let mut j = s.len();
    assert(s@.subrange(0, s@.len() as int) =~= s@);
    while j > 0 && s[j - 1] == c
        invariant
            j <= s@.len(),
            trim_end_char(s@, c) == trim_end_char(s@.subrange(0, j as int), c),
        decreases j,
    {
        proof {
            lemma_subrange_drop_last(s@, j as int);
        }
        j -= 1;
    }
    proof {
        if j > 0 {
            lemma_subrange_drop_last(s@, j as int);
        }
    }
    slice_of(s, 0, j)
}

/// Whether `p` occurs in `s` at `i`.
pub fn occurs_at_v(s: &[char], p: &[char], i: usize) -> (r: bool)
    ensures
        r == occurs_at(s@, p@, i as int),
{
    if i > s.len() || p.len() > s.len() - i {
        return false;
    }
    let mut k: usize = 0;
    while k < p.len()
        invariant
            i + p@.len() <= s@.len(),
            s@.len() <= usize::MAX,
            k <= p@.len(),
            forall|m: int| 0 <= m < k ==> s@[i + m] == p@[m],
        decreases p.len() - k,
    {
        if s[i + k] != p[k] {
            assert(s@.subrange(i as int, i + p@.len())[k as int] != p@[k as int]);
            return false;
        }
        k += 1;
    }
    assert(s@.subrange(i as int, i + p@.len()) =~= p@);
    true
}

/// `s.starts_with(p)`.
pub fn starts_with_v(s: &[char], p: &[char]) -> (r: bool)
    ensures
        r == starts_with(s@, p@),
{
    occurs_at_v(s, p, 0)
}

/// `s.starts_with(p)` for a `&str` prefix.
pub fn starts_with_str(s: &[char], p: &str) -> (r: bool)
    ensures
        r == starts_with(s@, p@),
{
    let pv = chars_of(p);
    starts_with_v(s, &pv)
}

/// `s.ends_with(p)`.
pub fn ends_with_v(s: &[char], p: &[char]) -> (r: bool)
    ensures
        r == ends_with(s@, p@),
{
    if p.len() > s.len() {
        return false;
    }
    occurs_at_v(s, p, s.len() - p.len())
}

/// `s.find(p)`, as a character index.
pub fn find_v(s: &[char], p: &[char]) -> (r: Option<usize>)
    ensures
        r matches Some(i) ==> find(s@, p@) == Some(i as int),
        r is None ==> find(s@, p@) is None,
{
    find_from_v(s, p, 0)
}

/// The first occurrence of `p` in `s` at or after `from`.
pub fn find_from_v(s: &[char], p: &[char], from: usize) -> (r: Option<usize>)
    ensures
        r matches Some(i) ==> find_from(s@, p@, from as int) == Some(i as int),
        r is None ==> find_from(s@, p@, from as int) is None,
{
    let mut i = from;
    while i <= s.len() && p.len() <= s.len() - i
        invariant
            from <= i,
            find_from(s@, p@, from as int) == find_from(s@, p@, i as int),
        decreases s.len() + 1 - i,
    {
        if occurs_at_v(s, p, i) {
            return Some(i);
        }
        if i == s.len() {
            return None;
        }
        i += 1;
    }
    None
}

/// The first index of `c` in `s` at or after `from`, or `s.len()`.
pub fn next_char_v(s: &[char], c: char, from: usize) -> (r: usize)
    requires
        from <= s@.len(),
    ensures
        r == next_char(s@, c, from as int),
        from <= r <= s@.len(),
        r < s@.len() ==> s@[r as int] == c,
        forall|k: int| from <= k < r ==> s@[k] != c,
{
    let mut i = from;
    while i < s.len() && s[i] != c
        invariant
            from <= i <= s@.len(),
            next_char(s@, c, from as int) == next_char(s@, c, i as int),
            forall|k: int| from <= k < i ==> s@[k] != c,
        decreases s.len() - i,
    {
        i += 1;
    }
    i
}

/// `s.find(c)`.
pub fn index_of_v(s: &[char], c: char) -> (r: Option<usize>)
    ensures
        r matches Some(i) ==> index_of(s@, c) == Some(i as int) && i < s@.len() && s@[i as int] == c,
        r is None ==> index_of(s@, c) is None,
{
    let i = next_char_v(s, c, 0);
    if i < s.len() {
        Some(i)
    } else {
        None
    }
}

/// Whether `c` occurs in `s`.
pub fn has_char_v(s: &[char], c: char) -> (r: bool)
    ensures
        r == has_char(s@, c),
{
    let i = next_char_v(s, c, 0);
    i < s.len()
}

/// `s.lines()`.
pub fn lines_v(s: &[char]) -> (r: Vec<Vec<char>>)
    ensures
        views(r@) == lines(s@),
{
    let mut r: Vec<Vec<char>> = Vec::new();
    let mut pos: usize = 0;
    while pos < s.len()
        invariant
            pos <= s@.len(),
            views(r@) + lines_from(s@, pos as int) == lines(s@),
        decreases s.len() - pos,
    {
        let e = next_char_v(s, '\n', pos);
        let ghost old_r = views(r@);
        if e < s.len() {
            let mut line = slice_of(s, pos, e);
            if line.len() > 0 && line[line.len() - 1] == '\r' {
                line.pop();
            }
            r.push(line);
            assert(views(r@) =~= old_r.push(strip_cr(s@.subrange(pos as int, e as int))));
            assert(views(r@) + lines_from(s@, e + 1) =~= old_r + lines_from(s@, pos as int));
            pos = e + 1;
        } else {
            let line = slice_of(s, pos, s.len());
            r.push(line);
            assert(views(r@) =~= old_r + lines_from(s@, pos as int));
            assert(lines_from(s@, s@.len() as int) =~= Seq::<Seq<char>>::empty());
            assert(views(r@) + lines_from(s@, s@.len() as int) =~= views(r@));
            pos = s.len();
        }
    }
    assert(lines_from(s@, pos as int) =~= Seq::<Seq<char>>::empty());
    assert(views(r@) + lines_from(s@, pos as int) =~= views(r@));
    r
}

/// `s.split(c)`.
pub fn split_v(s: &[char], c: char) -> (r: Vec<Vec<char>>)
    ensures
        views(r@) == split(s@, c),
        r@.len() >= 1,
{
    let mut r: Vec<Vec<char>> = Vec::new();
    let mut pos: usize = 0;
    loop
        invariant
            pos <= s@.len(),
            views(r@) + split_from(s@, c, pos as int) == split(s@, c),
        decreases s.len() - pos,
    {
        let e = next_char_v(s, c, pos);
        let ghost old_r = views(r@);
        let piece = slice_of(s, pos, e);
        r.push(piece);
        if e < s.len() {
            assert(views(r@) + split_from(s@, c, e + 1) =~= old_r + split_from(s@, c, pos as int));
            pos = e + 1;
        } else {
            assert(views(r@) =~= old_r + split_from(s@, c, pos as int));
            return r;
        }
    }
}

/// `pieces.join(sep)`.
pub fn join_v(pieces: &Vec<Vec<char>>, sep: &[char]) -> (r: Vec<char>)
    ensures
        r@ == join(views(pieces@), sep@),
{
    let mut r: Vec<char> = Vec::new();
    let mut i: usize = 0;
    while i < pieces.len()
        invariant
            i <= pieces@.len(),
            r@ == join(views(pieces@).take(i as int), sep@),
        decreases pieces.len() - i,
    {
        let ghost before = views(pieces@).take(i as int);
        if i > 0 {
            push_all(&mut r, sep);
        }
        push_all(&mut r, &pieces[i]);
        i += 1;
        proof {
            let now = views(pieces@).take(i as int);
            assert(now.drop_last() =~= before);
            if i == 1 {
                assert(before =~= Seq::<Seq<char>>::empty());
            }
        }
    }
    assert(views(pieces@).take(i as int) =~= views(pieces@));
    r
}

} // verus!
