//! Markdown scanning: fenced code blocks, inline code spans, escapes,
//! inline links, ATX headings and their anchor slugs.
//!
//! Every scanner here is stated over character sequences: a body is split
//! into lines as `str::lines` splits it, and a line is in *prose* when no
//! fenced block (opened by three backticks or three tildes) is open and it
//! does not itself open one.
use crate::chars::{
    alphanumeric, ascii_lower, chars_of, is_ws, string_of, to_ascii_lower, alnum,
    whitespace,
};
use crate::text::{
    find, index_of, index_of_v, lines, lines_v, next_char, push_all, slice_of, starts_with,
    starts_with_v, trim, trim_end, trim_end_char, trim_end_char_v, trim_start, trim_start_char,
    trim_start_char_v, trim_start_index, trim_start_v, trim_v, views,
};
use vstd::prelude::*;

verus! {

// ---------------------------------------------------------------------------
// Fences.
// ---------------------------------------------------------------------------

/// The fence a trimmed line opens: three backticks, else three tildes.
pub open spec fn fence_open(t: Seq<char>) -> Option<char> {
    if starts_with(t, seq!['`', '`', '`']) {
        Some('`')
    } else if starts_with(t, seq!['~', '~', '~']) {
        Some('~')
    } else {
        None
    }
}

/// The fence state after one line, given the state before it. An open
/// fence closes on a line whose trimmed start repeats its character three
/// times.
pub open spec fn fence_step(f: Option<char>, line: Seq<char>) -> Option<char> {
    let t = trim_start(line);
    match f {
        Some(c) => if starts_with(t, seq![c, c, c]) {
            None
        } else {
            Some(c)
        },
        None => fence_open(t),
    }
}

/// The fence state before line `i`.
pub open spec fn fence_before(ls: Seq<Seq<char>>, i: int) -> Option<char>
    decreases i,
{
    if i <= 0 {
        None
    } else {
        fence_step(fence_before(ls, i - 1), ls[i - 1])
    }
}

/// Line `i` is prose: outside every fence and not a fence line itself.
pub open spec fn is_prose(ls: Seq<Seq<char>>, i: int) -> bool {
    fence_before(ls, i) is None && fence_open(trim_start(ls[i])) is None
}

pub fn fence_open_v(t: &[char]) -> (r: Option<char>)
    ensures
        r == fence_open(t@),
{
    let ticks = ['`', '`', '`'];
    let tildes = ['~', '~', '~'];
    assert(ticks@ =~= seq!['`', '`', '`']);
    assert(tildes@ =~= seq!['~', '~', '~']);
    if starts_with_v(t, &ticks) {
        Some('`')
    } else if starts_with_v(t, &tildes) {
        Some('~')
    } else {
        None
    }
}

pub fn fence_step_v(f: Option<char>, line: &[char]) -> (r: Option<char>)
    ensures
        r == fence_step(f, line@),
{
    let t = trim_start_v(line);
    match f {
        Some(c) => {
            let close = [c, c, c];
            assert(close@ =~= seq![c, c, c]);
            if starts_with_v(&t, &close) {
                None
            } else {
                Some(c)
            }
        },
        None => fence_open_v(&t),
    }
}

// ---------------------------------------------------------------------------
// Inline code and escapes.
// ---------------------------------------------------------------------------

/// Backticks in `s[..i]`.
pub open spec fn ticks_before(s: Seq<char>, i: int) -> nat
    decreases i,
{
    if i <= 0 {
        0
    } else {
        ticks_before(s, i - 1) + if s[i - 1] == '`' {
            1nat
        } else {
            0nat
        }
    }
}

/// A line with every inline code span, delimiters included, replaced by
/// spaces: a character is blanked when it is a backtick or an odd number of
/// backticks precede it.
pub open spec fn blank_code(s: Seq<char>) -> Seq<char> {
    Seq::new(
        s.len(),
        |i: int|
            if s[i] == '`' || ticks_before(s, i) % 2 == 1 {
                ' '
            } else {
                s[i]
            },
    )
}

/// The run of backslashes that ends just before `i`.
pub open spec fn backslash_run(s: Seq<char>, i: int) -> nat
    decreases i,
{
    if i <= 0 || i > s.len() || s[i - 1] != '\\' {
        0
    } else {
        1 + backslash_run(s, i - 1)
    }
}

/// The character at `i` is escaped: an odd number of backslashes precede it.
pub open spec fn escaped(s: Seq<char>, i: int) -> bool {
    backslash_run(s, i) % 2 == 1
}

pub fn blank_inline_code_v(s: &[char]) -> (r: Vec<char>)
    ensures
        r@ == blank_code(s@),
{
    let mut r: Vec<char> = Vec::new();
    let mut in_code = false;
    let mut i: usize = 0;
    while i < s.len()
        invariant
            i <= s@.len(),
            r@.len() == i,
            in_code == (ticks_before(s@, i as int) % 2 == 1),
            forall|k: int| 0 <= k < i ==> r@[k] == blank_code(s@)[k],
        decreases s.len() - i,
    {
        let c = s[i];
        if c == '`' {
            in_code = !in_code;
            r.push(' ');
        } else if in_code {
            r.push(' ');
        } else {
            r.push(c);
        }
        i += 1;
    }
    assert(r@ =~= blank_code(s@));
    r
}

/// Replaces inline code spans (backtick-delimited) with spaces so links and
/// footnotes inside them are not extracted.
pub fn blank_inline_code(line: &str) -> (r: String)
    ensures
        r@ == blank_code(line@),
{
    let s = chars_of(line);
    let b = blank_inline_code_v(&s);
    string_of(&b)
}

/// Whether the character at `index` is preceded by an odd number of
/// backslashes, and is therefore escaped in Markdown.
pub fn is_escaped(chars: &[char], index: usize) -> (r: bool)
    requires
        index <= chars@.len(),
    ensures
        r == escaped(chars@, index as int),
{
    let mut backslashes: usize = 0;
    let mut i = index;
    while i > 0 && chars[i - 1] == '\\'
        invariant
            i <= index <= chars@.len(),
            backslashes + i == index,
            backslash_run(chars@, index as int) == backslashes + backslash_run(chars@, i as int),
        decreases i,
    {
        backslashes += 1;
        i -= 1;
    }
    backslashes % 2 == 1
}

// ---------------------------------------------------------------------------
// Code-free lines.
// ---------------------------------------------------------------------------

/// The prose lines among the first `n`, as `(1-based line number, line with
/// code spans blanked)`.
pub open spec fn code_free_upto(ls: Seq<Seq<char>>, n: int) -> Seq<(int, Seq<char>)>
    decreases n,
{
    if n <= 0 {
        Seq::empty()
    } else if is_prose(ls, n - 1) {
        code_free_upto(ls, n - 1).push((n, blank_code(ls[n - 1])))
    } else {
        code_free_upto(ls, n - 1)
    }
}

/// The prose lines of a body with code spans blanked.
pub open spec fn code_free(body: Seq<char>) -> Seq<(int, Seq<char>)> {
    code_free_upto(lines(body), lines(body).len() as int)
}

/// Line numbers and texts of `(usize, Vec<char>)` rows.
pub open spec fn numbered_views(v: Seq<(usize, Vec<char>)>) -> Seq<(int, Seq<char>)> {
    Seq::new(v.len(), |i: int| (v[i].0 as int, v[i].1@))
}

/// Line numbers and texts of `(usize, String)` rows.
pub open spec fn numbered_strings(v: Seq<(usize, String)>) -> Seq<(int, Seq<char>)> {
    Seq::new(v.len(), |i: int| (v[i].0 as int, v[i].1@))
}

pub fn code_free_lines_v(body: &[char]) -> (r: Vec<(usize, Vec<char>)>)
    ensures
        numbered_views(r@) == code_free(body@),
{
    let ls = lines_v(body);
    let ghost gl = lines(body@);
    let mut out: Vec<(usize, Vec<char>)> = Vec::new();
    let mut fence: Option<char> = None;
    let mut i: usize = 0;
    while i < ls.len()
        invariant
            views(ls@) == gl,
            i <= ls@.len(),
            fence == fence_before(gl, i as int),
            numbered_views(out@) == code_free_upto(gl, i as int),
        decreases ls.len() - i,
    {
        let ghost before = numbered_views(out@);
        let line = &ls[i];
        assert(line@ == gl[i as int]);
        let trimmed = trim_start_v(line);
        match fence {
            Some(f) => {
                fence = fence_step_v(fence, line);
            },
            None => {
                let opened = fence_open_v(&trimmed);
                if opened.is_some() {
                    fence = opened;
                } else {
                    let b = blank_inline_code_v(line);
                    out.push((i + 1, b));
                    assert(numbered_views(out@) =~= before.push(((i + 1) as int, blank_code(gl[i as int]))));
                }
            },
        }
        i += 1;
    }
    r_done(out)
}

fn r_done(out: Vec<(usize, Vec<char>)>) -> (r: Vec<(usize, Vec<char>)>)
    ensures
        r == out,
{
    out
}

/// Returns the body's lines, as `(1-based line number, text)`, with fenced
/// code blocks removed and inline code spans blanked out.
pub fn code_free_lines(body: &str) -> (r: Vec<(usize, String)>)
    ensures
        numbered_strings(r@) == code_free(body@),
{
    let s = chars_of(body);
    let rows = code_free_lines_v(&s);
    let mut out: Vec<(usize, String)> = Vec::new();
    let mut i: usize = 0;
    while i < rows.len()
        invariant
            i <= rows@.len(),
            numbered_strings(out@) == numbered_views(rows@).take(i as int),
        decreases rows.len() - i,
    {
        let n = rows[i].0;
        let text = string_of(&rows[i].1);
        assert(text@ == rows@[i as int].1@);
        out.push((n, text));
        assert(numbered_strings(out@) =~= numbered_views(rows@).take(i + 1)) by {
            assert(numbered_strings(out@).drop_last() =~= numbered_views(rows@).take(i as int));
        }
        i += 1;
    }
    assert(numbered_views(rows@).take(i as int) =~= numbered_views(rows@));
    out
}

// ---------------------------------------------------------------------------
// Inline links.
// ---------------------------------------------------------------------------

/// Scans for the `]` that closes link text opened before `i` at nesting
/// `depth`; a backslash skips the character after it.
pub open spec fn text_close(s: Seq<char>, i: int, depth: int) -> Option<int>
    decreases s.len() + 2 - i,
{
    if i < 0 || i >= s.len() {
        None
    } else if s[i] == '\\' {
        text_close(s, i + 2, depth)
    } else if s[i] == '[' {
        text_close(s, i + 1, depth + 1)
    } else if s[i] == ']' {
        if depth - 1 == 0 {
            Some(i)
        } else {
            text_close(s, i + 1, depth - 1)
        }
    } else {
        text_close(s, i + 1, depth)
    }
}

/// Scans for the `)` that closes a destination opened before `i` at nesting
/// `depth`; a backslash skips the character after it.
pub open spec fn dest_close(s: Seq<char>, i: int, depth: int) -> Option<int>
    decreases s.len() + 2 - i,
{
    if i < 0 || i >= s.len() {
        None
    } else if s[i] == '\\' {
        dest_close(s, i + 2, depth)
    } else if s[i] == '(' {
        dest_close(s, i + 1, depth + 1)
    } else if s[i] == ')' {
        if depth - 1 == 0 {
            Some(i)
        } else {
            dest_close(s, i + 1, depth - 1)
        }
    } else {
        dest_close(s, i + 1, depth)
    }
}

/// `[text](dest)` starting at `start`: the text, the raw destination, and
/// the index just past the closing `)`.
pub open spec fn inline_link(s: Seq<char>, start: int) -> Option<(Seq<char>, Seq<char>, int)> {
    match text_close(s, start + 1, 1) {
        None => None,
        Some(close) => {
            let j = close + 1;
            if j >= s.len() || s[j] != '(' {
                None
            } else {
                match dest_close(s, j + 1, 1) {
                    None => None,
                    Some(end) => Some((s.subrange(start + 1, close), s.subrange(j + 1, end), end + 1)),
                }
            }
        },
    }
}

pub proof fn lemma_text_close(s: Seq<char>, i: int, depth: int)
    requires
        0 <= i,
    ensures
        text_close(s, i, depth) matches Some(c) ==> i <= c < s.len() && s[c] == ']',
    decreases s.len() + 2 - i,
{
    if 0 <= i < s.len() {
        if s[i] == '\\' {
            lemma_text_close(s, i + 2, depth);
        } else if s[i] == '[' {
            lemma_text_close(s, i + 1, depth + 1);
        } else if s[i] == ']' {
            if depth - 1 != 0 {
                lemma_text_close(s, i + 1, depth - 1);
            }
        } else {
            lemma_text_close(s, i + 1, depth);
        }
    }
}

pub proof fn lemma_dest_close(s: Seq<char>, i: int, depth: int)
    requires
        0 <= i,
    ensures
        dest_close(s, i, depth) matches Some(c) ==> i <= c < s.len() && s[c] == ')',
    decreases s.len() + 2 - i,
{
    if 0 <= i < s.len() {
        if s[i] == '\\' {
            lemma_dest_close(s, i + 2, depth);
        } else if s[i] == '(' {
            lemma_dest_close(s, i + 1, depth + 1);
        } else if s[i] == ')' {
            if depth - 1 != 0 {
                lemma_dest_close(s, i + 1, depth - 1);
            }
        } else {
            lemma_dest_close(s, i + 1, depth);
        }
    }
}

pub proof fn lemma_inline_link(s: Seq<char>, start: int)
    requires
        0 <= start,
    ensures
        inline_link(s, start) matches Some((t, d, next)) ==> start + 4 <= next <= s.len(),
{
    lemma_text_close(s, start + 1, 1);
    if let Some(close) = text_close(s, start + 1, 1) {
        lemma_dest_close(s, close + 2, 1);
    }
}

fn text_close_v(s: &[char], from: usize) -> (r: Option<usize>)
    requires
        1 <= from <= s@.len(),
    ensures
        r matches Some(c) ==> text_close(s@, from as int, 1) == Some(c as int),
        r is None ==> text_close(s@, from as int, 1) is None,
{
    let mut i = from;
    let mut depth: usize = 1;
    let n = s.len();
    while i < n
        invariant
            n == s@.len(),
            1 <= from <= i <= s@.len() + 1,
            1 <= depth <= i - from + 1,
            text_close(s@, from as int, 1) == text_close(s@, i as int, depth as int),
        decreases s.len() + 2 - i,
    {
        let c = s[i];
        if c == '\\' {
            if n - i <= 2 {
                assert(text_close(s@, i + 2, depth as int) is None);
                return None;
            }
            i += 2;
        } else if c == '[' {
            depth += 1;
            i += 1;
        } else if c == ']' {
            if depth == 1 {
                return Some(i);
            }
            depth -= 1;
            i += 1;
        } else {
            i += 1;
        }
    }
    None
}

fn dest_close_v(s: &[char], from: usize) -> (r: Option<usize>)
    requires
        1 <= from <= s@.len(),
    ensures
        r matches Some(c) ==> dest_close(s@, from as int, 1) == Some(c as int),
        r is None ==> dest_close(s@, from as int, 1) is None,
{
    let mut i = from;
    let mut depth: usize = 1;
    let n = s.len();
    while i < n
        invariant
            n == s@.len(),
            1 <= from <= i <= s@.len() + 1,
            1 <= depth <= i - from + 1,
            dest_close(s@, from as int, 1) == dest_close(s@, i as int, depth as int),
        decreases s.len() + 2 - i,
    {
        let c = s[i];
        if c == '\\' {
            if n - i <= 2 {
                assert(dest_close(s@, i + 2, depth as int) is None);
                return None;
            }
            i += 2;
        } else if c == '(' {
            depth += 1;
            i += 1;
        } else if c == ')' {
            if depth == 1 {
                return Some(i);
            }
            depth -= 1;
            i += 1;
        } else {
            i += 1;
        }
    }
    None
}

/// `[text](dest)` at `start` as character vectors.
pub fn inline_link_v(s: &[char], start: usize) -> (r: Option<(Vec<char>, Vec<char>, usize)>)
    ensures
        r matches Some((t, d, n)) ==> inline_link(s@, start as int) == Some((t@, d@, n as int)),
        r is None ==> inline_link(s@, start as int) is None,
{
    if start >= s.len() {
        proof {
            assert(text_close(s@, start + 1, 1) is None);
        }
        return None;
    }
    proof {
        lemma_text_close(s@, start + 1, 1);
    }
    let close = match text_close_v(s, start + 1) {
        Some(c) => c,
        None => return None,
    };
    let j = close + 1;
    if j >= s.len() || s[j] != '(' {
        return None;
    }
    proof {
        lemma_dest_close(s@, j + 1, 1);
    }
    let end = match dest_close_v(s, j + 1) {
        Some(e) => e,
        None => return None,
    };
    let text = slice_of(s, start + 1, close);
    let dest = slice_of(s, j + 1, end);
    Some((text, dest, end + 1))
}

/// Attempts to parse `[text](dest)` starting at `start` (the `[`). Returns the
/// text, destination, and index just past the closing `)`.
pub fn parse_inline_link(chars: &[char], start: usize) -> (r: Option<(String, String, usize)>)
    ensures
        r matches Some((t, d, n)) ==> inline_link(chars@, start as int) == Some((t@, d@, n as int)),
        r is None ==> inline_link(chars@, start as int) is None,
{
    match inline_link_v(chars, start) {
        Some((t, d, n)) => Some((string_of(&t), string_of(&d), n)),
        None => None,
    }
}

// ---------------------------------------------------------------------------
// Headings and slugs.
// ---------------------------------------------------------------------------

/// The slug characters of `s` before trimming dashes: alphanumerics
/// lower-cased, and one dash for each run of whitespace, `-`, and `_` that
/// does not follow a dash.
pub open spec fn slug_chars(s: Seq<char>) -> Seq<char>
    decreases s.len(),
{
    if s.len() == 0 {
        Seq::empty()
    } else {
        let p = slug_chars(s.drop_last());
        let c = s.last();
        if alnum(c) {
            p.push(ascii_lower(c))
        } else if (is_ws(c) || c == '-' || c == '_') && !(p.len() > 0 && p.last() == '-') {
            p.push('-')
        } else {
            p
        }
    }
}

/// A heading text with surrounding whitespace and leading `#`s removed.
pub open spec fn heading_title(text: Seq<char>) -> Seq<char> {
    trim(trim_start_char(trim(text), '#'))
}

/// The anchor slug of a heading text: its slug characters with leading and
/// trailing dashes removed.
pub open spec fn slug(text: Seq<char>) -> Seq<char> {
    trim_end_char(trim_start_char(slug_chars(heading_title(text)), '-'), '-')
}

pub fn heading_title_v(text: &[char]) -> (r: Vec<char>)
    ensures
        r@ == heading_title(text@),
{
    let a = trim_v(text);
    let b = trim_start_char_v(&a, '#');
    trim_v(&b)
}

pub fn heading_slug_v(text: &[char]) -> (r: Vec<char>)
    ensures
        r@ == slug(text@),
{
    let clean = heading_title_v(text);
    let mut out: Vec<char> = Vec::new();
    let mut i: usize = 0;
    while i < clean.len()
        invariant
            i <= clean@.len(),
            out@ == slug_chars(clean@.take(i as int)),
        decreases clean.len() - i,
    {
        let c = clean[i];
        proof {
            assert(clean@.take(i + 1).drop_last() =~= clean@.take(i as int));
        }
        if alphanumeric(c) {
            out.push(to_ascii_lower(c));
        } else if (whitespace(c) || c == '-' || c == '_') && !(out.len() > 0 && out[out.len() - 1] == '-') {
            out.push('-');
        }
        i += 1;
    }
    assert(clean@.take(i as int) =~= clean@);
    let t = trim_start_char_v(&out, '-');
    trim_end_char_v(&t, '-')
}

/// Derives a standard Markdown anchor slug from a heading text.
///
/// Example: `"## Pricing Tiers"` -> `"pricing-tiers"`
pub fn heading_slug(text: &str) -> (r: String)
    ensures
        r@ == slug(text@),
{
    let t = chars_of(text);
    let s = heading_slug_v(&t);
    string_of(&s)
}

/// A parsed markdown heading.
#[derive(Clone, Debug, PartialEq, Eq)]
pub struct MarkdownHeading {
    /// Heading level (1 for `#`, 2 for `##`, up to 6).
    pub level: usize,
    /// The trimmed heading text after `#...# `.
    pub text: String,
    /// 1-based line number within the markdown text.
    pub line_num: usize,
    /// 0-based line index within lines.
    pub line_index: usize,
}

impl MarkdownHeading {
    /// Derives a standard Markdown anchor slug from this heading's text.
    pub fn slug(&self) -> (r: String)
        ensures
            r@ == slug(self.text@),
    {
        heading_slug(self.text.as_str())
    }
}

/// Leading `#` count of `t`.
pub open spec fn hash_count(t: Seq<char>) -> int {
    t.len() - trim_start_char(t, '#').len()
}

/// An ATX heading line: up to three... six `#`, a space, then the text. The
/// level and the trimmed text.
pub open spec fn heading_line(line: Seq<char>) -> Option<(int, Seq<char>)> {
    let t = trim_start(line);
    let n = hash_count(t);
    let rest = trim_start_char(t, '#');
    if 1 <= n <= 6 && rest.len() > 0 && rest[0] == ' ' {
        Some((n, trim(rest)))
    } else {
        None
    }
}

pub proof fn lemma_trim_start_char_suffix(s: Seq<char>, c: char)
    ensures
        trim_start_char(s, c).len() <= s.len(),
        trim_start_char(s, c) == s.subrange(s.len() - trim_start_char(s, c).len(), s.len() as int),
    decreases s.len(),
{
    if s.len() > 0 && s[0] == c {
        lemma_trim_start_char_suffix(s.drop_first(), c);
        assert(s.drop_first().subrange(
            s.drop_first().len() - trim_start_char(s.drop_first(), c).len(),
            s.drop_first().len() as int,
        ) =~= s.subrange(s.len() - trim_start_char(s, c).len(), s.len() as int));
    } else {
        assert(s.subrange(0, s.len() as int) =~= s);
    }
}

pub fn heading_line_v(line: &[char]) -> (r: Option<(usize, Vec<char>)>)
    ensures
        r matches Some((n, t)) ==> heading_line(line@) == Some((n as int, t@)),
        r is None ==> heading_line(line@) is None,
{
    let t = trim_start_v(line);
    let rest = trim_start_char_v(&t, '#');
    proof {
        lemma_trim_start_char_suffix(t@, '#');
    }
    let n = t.len() - rest.len();
    if 1 <= n && n <= 6 && rest.len() > 0 && rest[0] == ' ' {
        Some((n, trim_v(&rest)))
    } else {
        None
    }
}

/// Parses a single line as an ATX heading (`# ` through `###### `).
///
/// Returns `(level, text)` if the line is a heading, or `None` otherwise.
pub fn parse_heading_line(line: &str) -> (r: Option<(usize, String)>)
    ensures
        r matches Some((n, t)) ==> heading_line(line@) == Some((n as int, t@)),
        r is None ==> heading_line(line@) is None,
{
    let v = chars_of(line);
    match heading_line_v(&v) {
        Some((n, t)) => Some((n, string_of(&t))),
        None => None,
    }
}

/// The headings among the first `n` lines: `(level, text, 0-based index)`
/// of every prose line that is an ATX heading.
pub open spec fn headings_upto(ls: Seq<Seq<char>>, n: int) -> Seq<(int, Seq<char>, int)>
    decreases n,
{
    if n <= 0 {
        Seq::empty()
    } else {
        let prev = headings_upto(ls, n - 1);
        if is_prose(ls, n - 1) && heading_line(ls[n - 1]) is Some {
            let h = heading_line(ls[n - 1]).unwrap();
            prev.push((h.0, h.1, n - 1))
        } else {
            prev
        }
    }
}

/// The headings of a markdown text, in document order.
pub open spec fn headings(markdown: Seq<char>) -> Seq<(int, Seq<char>, int)> {
    headings_upto(lines(markdown), lines(markdown).len() as int)
}

/// The `(level, text, line index)` triples of extracted headings.
pub open spec fn heading_views(v: Seq<MarkdownHeading>) -> Seq<(int, Seq<char>, int)> {
    Seq::new(v.len(), |i: int| (v[i].level as int, v[i].text@, v[i].line_index as int))
}

/// Extracts all markdown headings in document order, ignoring headings
/// inside fenced code blocks.
pub fn extract_headings(markdown: &str) -> (r: Vec<MarkdownHeading>)
    ensures
        heading_views(r@) == headings(markdown@),
        forall|i: int| 0 <= i < r@.len() ==> r@[i].line_num == r@[i].line_index + 1,
{
    let body = chars_of(markdown);
    let ls = lines_v(&body);
    let ghost gl = lines(markdown@);
    let mut out: Vec<MarkdownHeading> = Vec::new();
    let mut fence: Option<char> = None;
    let mut i: usize = 0;
    while i < ls.len()
        invariant
            views(ls@) == gl,
            i <= ls@.len(),
            fence == fence_before(gl, i as int),
            heading_views(out@) == headings_upto(gl, i as int),
            forall|k: int| 0 <= k < out@.len() ==> out@[k].line_num == out@[k].line_index + 1,
        decreases ls.len() - i,
    {
        let ghost before = heading_views(out@);
        let line = &ls[i];
        assert(line@ == gl[i as int]);
        let trimmed = trim_start_v(line);
        match fence {
            Some(f) => {
                fence = fence_step_v(fence, line);
            },
            None => {
                let opened = fence_open_v(&trimmed);
                if opened.is_some() {
                    fence = opened;
                } else {
                    match heading_line_v(line) {
                        Some((level, text)) => {
                            out.push(
                                MarkdownHeading {
                                    level,
                                    text: string_of(&text),
                                    line_num: i + 1,
                                    line_index: i,
                                },
                            );
                            assert(heading_views(out@) =~= before.push((level as int, text@, i as int)));
                        },
                        None => {},
                    }
                }
            },
        }
        i += 1;
    }
    out
}

/// Case-insensitive ASCII equality (`str::eq_ignore_ascii_case`).
pub open spec fn eq_ignore_case(a: Seq<char>, b: Seq<char>) -> bool {
    a.len() == b.len() && forall|i: int| 0 <= i < a.len() ==> ascii_lower(#[trigger] a[i]) == ascii_lower(b[i])
}

/// `-` and `_` replaced by spaces.
pub open spec fn dashes_to_spaces(s: Seq<char>) -> Seq<char> {
    Seq::new(s.len(), |i: int| if s[i] == '-' || s[i] == '_' { ' ' } else { s[i] })
}

/// A heading text matches a query by title (ignoring ASCII case), by slug,
/// or with `-`/`_` read as spaces.
pub open spec fn heading_matches(heading_text: Seq<char>, query: Seq<char>) -> bool {
    let q = heading_title(query);
    let title = heading_title(heading_text);
    eq_ignore_case(title, q) || slug(title) == slug(q) || eq_ignore_case(
        dashes_to_spaces(title),
        dashes_to_spaces(q),
    )
}

/// A heading is found by its slug: whenever the cleaned heading and the
/// cleaned query have the same anchor slug, they match; likewise when they
/// are equal up to ASCII case, or once `-` and `_` read as spaces.
pub proof fn lemma_heading_found_by_slug(heading_text: Seq<char>, query: Seq<char>)
    ensures
        slug(heading_title(heading_text)) == slug(heading_title(query)) ==> heading_matches(heading_text, query),
        eq_ignore_case(heading_title(heading_text), heading_title(query)) ==> heading_matches(heading_text, query),
        eq_ignore_case(dashes_to_spaces(heading_title(heading_text)), dashes_to_spaces(heading_title(query)))
            ==> heading_matches(heading_text, query),
{
}

/// Matching does not depend on which side is the heading: swapping the
/// heading and the query gives the same answer.
pub proof fn lemma_heading_match_symmetric(a: Seq<char>, b: Seq<char>)
    ensures
        heading_matches(a, b) == heading_matches(b, a),
{
    let ta = heading_title(a);
    let tb = heading_title(b);
    assert(eq_ignore_case(ta, tb) == eq_ignore_case(tb, ta));
    assert(eq_ignore_case(dashes_to_spaces(ta), dashes_to_spaces(tb)) == eq_ignore_case(
        dashes_to_spaces(tb),
        dashes_to_spaces(ta),
    ));
}

pub fn eq_ignore_case_v(a: &[char], b: &[char]) -> (r: bool)
    ensures
        r == eq_ignore_case(a@, b@),
{
    if a.len() != b.len() {
        return false;
    }
    let mut i: usize = 0;
    while i < a.len()
        invariant
            a@.len() == b@.len(),
            i <= a@.len(),
            forall|k: int| 0 <= k < i ==> ascii_lower(#[trigger] a@[k]) == ascii_lower(b@[k]),
        decreases a.len() - i,
    {
        if to_ascii_lower(a[i]) != to_ascii_lower(b[i]) {
            return false;
        }
        i += 1;
    }
    true
}

pub fn dashes_to_spaces_v(s: &[char]) -> (r: Vec<char>)
    ensures
        r@ == dashes_to_spaces(s@),
{
    let mut r: Vec<char> = Vec::new();
    let mut i: usize = 0;
    while i < s.len()
        invariant
            i <= s@.len(),
            r@ == dashes_to_spaces(s@).take(i as int),
        decreases s.len() - i,
    {
        let c = s[i];
        r.push(if c == '-' || c == '_' { ' ' } else { c });
        i += 1;
        assert(r@ =~= dashes_to_spaces(s@).take(i as int));
    }
    assert(dashes_to_spaces(s@).take(i as int) =~= dashes_to_spaces(s@));
    r
}

/// Checks whether a heading text matches a search query by title, slug, or
/// normalized spacing.
pub fn matches_heading(heading_text: &str, query: &str) -> (r: bool)
    ensures
        r == heading_matches(heading_text@, query@),
        slug(heading_title(heading_text@)) == slug(heading_title(query@)) ==> r,
        eq_ignore_case(heading_title(heading_text@), heading_title(query@)) ==> r,
        eq_ignore_case(dashes_to_spaces(heading_title(heading_text@)), dashes_to_spaces(heading_title(query@))) ==> r,
{
    let hv = chars_of(heading_text);
    let qv = chars_of(query);
    let q = heading_title_v(&qv);
    let title = heading_title_v(&hv);
    let query_slug = heading_slug_v(&q);
    let title_slug = heading_slug_v(&title);
    if eq_ignore_case_v(&title, &q) {
        return true;
    }
    if eq_chars(&title_slug, &query_slug) {
        return true;
    }
    let a = dashes_to_spaces_v(&title);
    let b = dashes_to_spaces_v(&q);
    eq_ignore_case_v(&a, &b)
}

/// Exact equality of two character sequences.
pub fn eq_chars(a: &[char], b: &[char]) -> (r: bool)
    ensures
        r == (a@ == b@),
{
    if a.len() != b.len() {
        return false;
    }
    let mut i: usize = 0;
    while i < a.len()
        invariant
            a@.len() == b@.len(),
            i <= a@.len(),
            forall|k: int| 0 <= k < i ==> a@[k] == b@[k],
        decreases a.len() - i,
    {
        if a[i] != b[i] {
            return false;
        }
        i += 1;
    }
    assert(a@ =~= b@);
    true
}

// ---------------------------------------------------------------------------
// Link destinations.
// ---------------------------------------------------------------------------

/// The first index at or after `from` holding a space or a tab, or `s.len()`.
pub open spec fn space_or_tab(s: Seq<char>, from: int) -> int
    decreases s.len() - from,
{
    if from < 0 || from >= s.len() {
        s.len() as int
    } else if s[from] == ' ' || s[from] == '\t' {
        from
    } else {
        space_or_tab(s, from + 1)
    }
}

pub proof fn lemma_space_or_tab(s: Seq<char>, from: int)
    requires
        0 <= from <= s.len(),
    ensures
        from <= space_or_tab(s, from) <= s.len(),
    decreases s.len() - from,
{
    if from < s.len() && !(s[from] == ' ' || s[from] == '\t') {
        lemma_space_or_tab(s, from + 1);
    }
}

/// Starts with a double or a single quote.
pub open spec fn starts_with_quote(s: Seq<char>) -> bool {
    s.len() > 0 && (s[0] == '"' || s[0] == '\'')
}

/// A destination with an optional `"title"` (or `'title'`) suffix removed:
/// the part before the first space or tab, when a quote follows it.
pub open spec fn strip_title_spec(dest: Seq<char>) -> Seq<char> {
    let d = trim(dest);
    let idx = space_or_tab(d, 0);
    if idx < d.len() && starts_with_quote(trim_start(d.subrange(idx, d.len() as int))) {
        d.subrange(0, idx)
    } else {
        d
    }
}

/// The `<...>` form: the text between `<` and the first `>`.
pub open spec fn angle_inner(d: Seq<char>) -> Option<Seq<char>> {
    if d.len() > 0 && d[0] == '<' && index_of(d.drop_first(), '>') is Some {
        Some(d.drop_first().subrange(0, index_of(d.drop_first(), '>').unwrap()))
    } else {
        None
    }
}

/// A normalized destination: the inside of `<...>`, else the destination
/// without its title.
pub open spec fn clean_dest(dest: Seq<char>) -> Seq<char> {
    let d = trim(dest);
    match angle_inner(d) {
        Some(inner) => inner,
        None => strip_title_spec(d),
    }
}

/// The title part of a destination, as ` "title"`, or empty.
pub open spec fn title_suffix(dest: Seq<char>) -> Seq<char> {
    let d = trim(dest);
    let after = if angle_inner(d) is Some {
        d.drop_first().subrange(index_of(d.drop_first(), '>').unwrap() + 1, d.len() - 1)
    } else if space_or_tab(d, 0) < d.len() {
        d.subrange(space_or_tab(d, 0), d.len() as int)
    } else {
        Seq::empty()
    };
    let t = trim(after);
    if starts_with_quote(t) {
        seq![' '] + t
    } else {
        Seq::empty()
    }
}

fn space_or_tab_v(s: &[char]) -> (r: usize)
    ensures
        r == space_or_tab(s@, 0),
        r <= s@.len(),
{
    let mut i: usize = 0;
    while i < s.len() && s[i] != ' ' && s[i] != '\t'
        invariant
            i <= s@.len(),
            space_or_tab(s@, 0) == space_or_tab(s@, i as int),
        decreases s.len() - i,
    {
        i += 1;
    }
    i
}

fn starts_with_quote_v(s: &[char]) -> (r: bool)
    ensures
        r == starts_with_quote(s@),
{
    s.len() > 0 && (s[0] == '"' || s[0] == '\'')
}

pub fn strip_title_v(dest: &[char]) -> (r: Vec<char>)
    ensures
        r@ == strip_title_spec(dest@),
{
    let d = trim_v(dest);
    let idx = space_or_tab_v(&d);
    if idx < d.len() {
        let tail = slice_of(&d, idx, d.len());
        let rest = trim_start_v(&tail);
        if starts_with_quote_v(&rest) {
            return slice_of(&d, 0, idx);
        }
    }
    d
}

fn angle_inner_v(d: &[char]) -> (r: Option<Vec<char>>)
    ensures
        r matches Some(v) ==> angle_inner(d@) == Some(v@),
        r is None ==> angle_inner(d@) is None,
{
    if d.len() > 0 && d[0] == '<' {
        let rest = slice_of(d, 1, d.len());
        assert(rest@ =~= d@.drop_first());
        match index_of_v(&rest, '>') {
            Some(end) => Some(slice_of(&rest, 0, end)),
            None => None,
        }
    } else {
        None
    }
}

pub fn clean_destination_v(dest: &[char]) -> (r: Vec<char>)
    ensures
        r@ == clean_dest(dest@),
{
    let d = trim_v(dest);
    match angle_inner_v(&d) {
        Some(inner) => inner,
        None => strip_title_v(&d),
    }
}

/// Removes an optional `"title"` (or `'title'`) suffix from a link destination.
pub fn strip_title(dest: &str) -> (r: String)
    ensures
        r@ == strip_title_spec(dest@),
{
    let v = chars_of(dest);
    let r = strip_title_v(&v);
    string_of(&r)
}

/// Normalizes a raw link destination.
///
/// Unwraps the `CommonMark` `<...>` form, which is how a destination is allowed
/// to contain spaces, and otherwise removes an optional title suffix.
pub fn clean_destination(dest: &str) -> (r: String)
    ensures
        r@ == clean_dest(dest@),
{
    let v = chars_of(dest);
    let r = clean_destination_v(&v);
    string_of(&r)
}

pub fn title_suffix_v(dest: &[char]) -> (r: Vec<char>)
    ensures
        r@ == title_suffix(dest@),
{
    let d = trim_v(dest);
    let after = if d.len() > 0 && d[0] == '<' {
        let rest = slice_of(&d, 1, d.len());
        assert(rest@ =~= d@.drop_first());
        match index_of_v(&rest, '>') {
            Some(end) => slice_of(&rest, end + 1, rest.len()),
            None => {
                let idx = space_or_tab_v(&d);
                if idx < d.len() {
                    slice_of(&d, idx, d.len())
                } else {
                    Vec::new()
                }
            },
        }
    } else {
        let idx = space_or_tab_v(&d);
        if idx < d.len() {
            slice_of(&d, idx, d.len())
        } else {
            Vec::new()
        }
    };
    let t = trim_v(&after);
    if starts_with_quote_v(&t) {
        let mut r = vec![' '];
        push_all(&mut r, &t);
        r
    } else {
        Vec::new()
    }
}

/// Extracts the title suffix part (e.g. ` "My Title"`) from a destination string.
pub fn extract_title_suffix(dest: &str) -> (r: String)
    ensures
        r@ == title_suffix(dest@),
{
    let v = chars_of(dest);
    let r = title_suffix_v(&v);
    string_of(&r)
}

// ---------------------------------------------------------------------------
// Wikilinks.
// ---------------------------------------------------------------------------

/// Scans for the `]]` closing a wikilink from `i`: `None` on a `[`, `\\`, or
/// a lone `]` first, or when the line ends.
pub open spec fn wiki_end(s: Seq<char>, i: int) -> Option<int>
    decreases s.len() - i,
{
    if i < 0 || i + 1 >= s.len() {
        None
    } else if s[i] == ']' && s[i + 1] == ']' {
        Some(i)
    } else if s[i] == '[' || s[i] == '\\' || s[i] == ']' {
        None
    } else {
        wiki_end(s, i + 1)
    }
}

/// `[[target]]` at `start`: the target, which is not blank, and the index
/// just past `]]`.
pub open spec fn wikilink(s: Seq<char>, start: int) -> Option<(Seq<char>, int)> {
    if !(0 <= start && start + 1 < s.len() && s[start + 1] == '[') {
        None
    } else {
        match wiki_end(s, start + 2) {
            None => None,
            Some(end) => {
                let t = s.subrange(start + 2, end);
                if trim(t).len() == 0 {
                    None
                } else {
                    Some((t, end + 2))
                }
            },
        }
    }
}

pub proof fn lemma_wiki_end(s: Seq<char>, i: int)
    requires
        0 <= i,
    ensures
        wiki_end(s, i) matches Some(e) ==> i <= e && e + 1 < s.len(),
    decreases s.len() - i,
{
    if i + 1 < s.len() && !(s[i] == ']' && s[i + 1] == ']') && !(s[i] == '[' || s[i] == '\\' || s[i] == ']') {
        lemma_wiki_end(s, i + 1);
    }
}

pub fn wikilink_v(s: &[char], start: usize) -> (r: Option<(Vec<char>, usize)>)
    ensures
        r matches Some((t, n)) ==> wikilink(s@, start as int) == Some((t@, n as int)) && start + 2 <= n <= s@.len(),
        r is None ==> wikilink(s@, start as int) is None,
{
    let len = s.len();
    if start >= len || start + 1 >= len || s[start + 1] != '[' {
        return None;
    }
    let mut i = start + 2;
    while i < len - 1
        invariant
            len == s@.len(),
            len >= 2,
            start + 1 < len,
            s@[start + 1] == '[',
            start + 2 <= i <= len,
            wiki_end(s@, start + 2) == wiki_end(s@, i as int),
        decreases len - i,
    {
        let c = s[i];
        if c == ']' && s[i + 1] == ']' {
            assert(wiki_end(s@, i as int) == Some(i as int));
            let t = slice_of(s, start + 2, i);
            let tt = trim_v(&t);
            if tt.len() == 0 {
                return None;
            }
            return Some((t, i + 2));
        }
        if c == '[' || c == '\\' || c == ']' {
            return None;
        }
        i += 1;
    }
    None
}

/// Parses `[[target]]` starting at `start` (the first `[`). Returns the inner
/// target and the index just past the closing `]]`.
///
/// The target must be non-empty (after trimming) and contain no `[`, `]`, or
/// `\\`.
pub fn parse_wikilink(chars: &[char], start: usize) -> (r: Option<(String, usize)>)
    ensures
        r matches Some((t, n)) ==> wikilink(chars@, start as int) == Some((t@, n as int)),
        r is None ==> wikilink(chars@, start as int) is None,
{
    match wikilink_v(chars, start) {
        Some((t, n)) => Some((string_of(&t), n)),
        None => None,
    }
}

/// The link text and destination a wikilink target stands for, before the
/// destination is wrapped: an explicit fragment is slugified behind its path,
/// a path-looking target is linked as written, and a bare name is a heading
/// of the current document.
pub open spec fn wiki_parts(t: Seq<char>) -> (Seq<char>, Seq<char>) {
    match index_of(t, '#') {
        Some(k) => {
            let path = t.subrange(0, k);
            let frag = t.subrange(k + 1, t.len() as int);
            let dest = if path.len() == 0 {
                seq!['#'] + slug(frag)
            } else {
                path + seq!['#'] + slug(frag)
            };
            (dest, trim(frag))
        },
        None => if has_char_spec(t, '/') || find(t, seq!['.', 'm', 'd']) is Some {
            (t, t)
        } else {
            (seq!['#'] + slug(t), t)
        },
    }
}

/// `c` occurs in `s`.
pub open spec fn has_char_spec(s: Seq<char>, c: char) -> bool {
    index_of(s, c) is Some
}

/// Some character of `s` is whitespace.
pub open spec fn has_ws(s: Seq<char>) -> bool {
    exists|i: int| 0 <= i < s.len() && is_ws(s[i])
}

/// The markdown link one `[[target]]` expands to.
pub open spec fn expand_one(target: Seq<char>) -> Seq<char> {
    let t = trim(target);
    if crate::links::external(t) {
        seq!['['] + t + seq![']', '('] + t + seq![')']
    } else {
        let (dest, display) = wiki_parts(t);
        if has_ws(dest) {
            seq!['['] + display + seq![']', '(', '<'] + dest + seq!['>', ')']
        } else {
            seq!['['] + display + seq![']', '('] + dest + seq![')']
        }
    }
}

/// A character that ends neither link text nor a destination, escapes
/// nothing, and closes no `<...>`.
pub open spec fn link_inert(c: char) -> bool {
    c != '[' && c != ']' && c != '(' && c != ')' && c != '\\' && c != '<' && c != '>'
}

pub proof fn lemma_text_close_plain(s: Seq<char>, i: int, k: int)
    requires
        0 <= i <= k < s.len(),
        s[k] == ']',
        forall|m: int| i <= m < k ==> (#[trigger] s[m] != '[' && s[m] != ']' && s[m] != '\\'),
    ensures
        text_close(s, i, 1) == Some(k),
    decreases k - i,
{
    if i < k {
        lemma_text_close_plain(s, i + 1, k);
    }
}

pub proof fn lemma_dest_close_plain(s: Seq<char>, i: int, k: int)
    requires
        0 <= i <= k < s.len(),
        s[k] == ')',
        forall|m: int| i <= m < k ==> (#[trigger] s[m] != '(' && s[m] != ')' && s[m] != '\\'),
    ensures
        dest_close(s, i, 1) == Some(k),
    decreases k - i,
{
    if i < k {
        lemma_dest_close_plain(s, i + 1, k);
    }
}

/// Slug characters are inert in links.
pub proof fn lemma_slug_chars_inert(s: Seq<char>)
    ensures
        forall|i: int| 0 <= i < slug_chars(s).len() ==> link_inert(#[trigger] slug_chars(s)[i]),
    decreases s.len(),
{
    if s.len() > 0 {
        lemma_slug_chars_inert(s.drop_last());
        let p = slug_chars(s.drop_last());
        let c = s.last();
        if alnum(c) {
            let x = ascii_lower(c);
            assert(link_inert(x)) by {
                if crate::chars::is_ascii(c) {
                    assert(crate::chars::is_ascii_alnum(c));
                }
            }
            assert forall|i: int| 0 <= i < p.push(x).len() implies link_inert(#[trigger] p.push(x)[i]) by {
                if i < p.len() {
                    assert(p.push(x)[i] == p[i]);
                }
            }
        } else if (is_ws(c) || c == '-' || c == '_') && !(p.len() > 0 && p.last() == '-') {
            assert forall|i: int| 0 <= i < p.push('-').len() implies link_inert(#[trigger] p.push('-')[i]) by {
                if i < p.len() {
                    assert(p.push('-')[i] == p[i]);
                }
            }
        }
    }
}

/// Trimming keeps only characters of the input: a property that holds of
/// every character of `s` holds of every character of each trimmed form.
pub proof fn lemma_trims_keep(s: Seq<char>, c: char, p: spec_fn(char) -> bool)
    requires
        forall|i: int| 0 <= i < s.len() ==> p(#[trigger] s[i]),
    ensures
        forall|i: int| 0 <= i < trim_start_char(s, c).len() ==> p(#[trigger] trim_start_char(s, c)[i]),
        forall|i: int| 0 <= i < trim_end_char(s, c).len() ==> p(#[trigger] trim_end_char(s, c)[i]),
        forall|i: int| 0 <= i < trim_start(s).len() ==> p(#[trigger] trim_start(s)[i]),
        forall|i: int| 0 <= i < trim_end(s).len() ==> p(#[trigger] trim_end(s)[i]),
    decreases s.len(),
{
    if s.len() > 0 {
        assert forall|i: int| 0 <= i < s.drop_first().len() implies p(#[trigger] s.drop_first()[i]) by {
            assert(s.drop_first()[i] == s[i + 1]);
        }
        assert forall|i: int| 0 <= i < s.drop_last().len() implies p(#[trigger] s.drop_last()[i]) by {
            assert(s.drop_last()[i] == s[i]);
        }
        lemma_trims_keep(s.drop_first(), c, p);
        lemma_trims_keep(s.drop_last(), c, p);
        if s[0] == c {
            assert(trim_start_char(s, c) == trim_start_char(s.drop_first(), c));
        } else {
            assert(trim_start_char(s, c) == s);
        }
        if s.last() == c {
            assert(trim_end_char(s, c) == trim_end_char(s.drop_last(), c));
        } else {
            assert(trim_end_char(s, c) == s);
        }
        if is_ws(s[0]) {
            assert(trim_start(s) == trim_start(s.drop_first()));
        } else {
            assert(trim_start(s) == s);
        }
        if is_ws(s.last()) {
            assert(trim_end(s) == trim_end(s.drop_last()));
        } else {
            assert(trim_end(s) == s);
        }
    }
}

/// Every character of a heading slug is inert in links.
pub proof fn lemma_slug_inert(text: Seq<char>)
    ensures
        forall|i: int| 0 <= i < slug(text).len() ==> link_inert(#[trigger] slug(text)[i]),
{
    let sc = slug_chars(heading_title(text));
    let p = |x: char| link_inert(x);
    lemma_slug_chars_inert(heading_title(text));
    lemma_trims_keep(sc, '-', p);
    lemma_trims_keep(trim_start_char(sc, '-'), '-', p);
}

/// No whitespace character of `s` counts as alphanumeric.
pub open spec fn ws_not_alnum(s: Seq<char>) -> bool {
    forall|i: int| 0 <= i < s.len() ==> (is_ws(#[trigger] s[i]) ==> !alnum(s[i]))
}

/// A character a slug keeps as it is: a dash, or an alphanumeric character
/// that ASCII lower-casing leaves alone and that is neither whitespace nor `#`.
pub open spec fn slug_char(c: char) -> bool {
    c == '-' || (alnum(c) && ascii_lower(c) == c && !is_ws(c) && c != '#')
}

/// Slug characters with no two dashes in a row.
pub open spec fn slug_body(s: Seq<char>) -> bool {
    &&& forall|i: int| 0 <= i < s.len() ==> slug_char(#[trigger] s[i])
    &&& forall|i: int, j: int|
        0 <= i && j == i + 1 && j < s.len() ==> !(#[trigger] s[i] == '-' && #[trigger] s[j] == '-')
}

pub proof fn lemma_slug_body_subrange(s: Seq<char>, a: int, b: int)
    requires
        slug_body(s),
        0 <= a <= b <= s.len(),
    ensures
        slug_body(s.subrange(a, b)),
{
    let t = s.subrange(a, b);
    assert forall|i: int| 0 <= i < t.len() implies slug_char(#[trigger] t[i]) by {
        assert(t[i] == s[a + i]);
    }
    assert forall|i: int, j: int|
        0 <= i && j == i + 1 && j < t.len() implies !(#[trigger] t[i] == '-' && #[trigger] t[j] == '-') by {
        assert(t[i] == s[a + i]);
        assert(t[j] == s[a + j]);
    }
}

pub proof fn lemma_slug_chars_body(h: Seq<char>)
    requires
        ws_not_alnum(h),
    ensures
        slug_body(slug_chars(h)),
    decreases h.len(),
{
    if h.len() > 0 {
        let q = h.drop_last();
        assert forall|i: int| 0 <= i < q.len() && is_ws(#[trigger] q[i]) implies !alnum(q[i]) by {
            assert(q[i] == h[i]);
        }
        lemma_slug_chars_body(q);
        let p = slug_chars(q);
        let c = h.last();
        assert(is_ws(h[h.len() - 1]) ==> !alnum(h[h.len() - 1]));
        if alnum(c) {
            let x = ascii_lower(c);
            assert(slug_char(x)) by {
                if crate::chars::is_ascii(c) {
                    assert(crate::chars::is_ascii_alnum(c));
                }
            }
            let r = p.push(x);
            assert forall|i: int| 0 <= i < r.len() implies slug_char(#[trigger] r[i]) by {
                if i < p.len() {
                    assert(r[i] == p[i]);
                }
            }
            assert forall|i: int, j: int|
                0 <= i && j == i + 1 && j < r.len() implies !(#[trigger] r[i] == '-' && #[trigger] r[j] == '-') by {
                assert(r[i] == p[i]);
                if j < p.len() {
                    assert(r[j] == p[j]);
                }
            }
        } else if (is_ws(c) || c == '-' || c == '_') && !(p.len() > 0 && p.last() == '-') {
            let r = p.push('-');
            assert forall|i: int| 0 <= i < r.len() implies slug_char(#[trigger] r[i]) by {
                if i < p.len() {
                    assert(r[i] == p[i]);
                }
            }
            assert forall|i: int, j: int|
                0 <= i && j == i + 1 && j < r.len() implies !(#[trigger] r[i] == '-' && #[trigger] r[j] == '-') by {
                assert(r[i] == p[i]);
                if j < p.len() {
                    assert(r[j] == p[j]);
                }
            }
        }
    }
}

pub proof fn lemma_trim_start_char_head(s: Seq<char>, c: char)
    ensures
        trim_start_char(s, c).len() > 0 ==> trim_start_char(s, c)[0] != c,
    decreases s.len(),
{
    if s.len() > 0 && s[0] == c {
        lemma_trim_start_char_head(s.drop_first(), c);
    }
}

pub proof fn lemma_trim_end_char_prefix(s: Seq<char>, c: char)
    ensures
        trim_end_char(s, c).len() <= s.len(),
        trim_end_char(s, c) == s.subrange(0, trim_end_char(s, c).len() as int),
        trim_end_char(s, c).len() > 0 ==> trim_end_char(s, c).last() != c,
    decreases s.len(),
{
    if s.len() > 0 && s.last() == c {
        lemma_trim_end_char_prefix(s.drop_last(), c);
        assert(s.drop_last().subrange(0, trim_end_char(s, c).len() as int)
            =~= s.subrange(0, trim_end_char(s, c).len() as int));
    } else {
        assert(s.subrange(0, s.len() as int) =~= s);
    }
}

/// A slug body that starts with no dash is its own slug characters.
pub proof fn lemma_slug_chars_fixed(s: Seq<char>)
    requires
        slug_body(s),
        s.len() > 0 ==> s[0] != '-',
    ensures
        slug_chars(s) == s,
    decreases s.len(),
{
    if s.len() > 0 {
        let q = s.drop_last();
        lemma_slug_body_subrange(s, 0, s.len() - 1);
        assert(q =~= s.subrange(0, s.len() - 1));
        if q.len() > 0 {
            assert(q[0] == s[0]);
        }
        lemma_slug_chars_fixed(q);
        let c = s.last();
        assert(slug_char(s[s.len() - 1]));
        if !alnum(c) {
            assert(c == '-');
            assert(s.len() > 1);
            assert(!(s[s.len() - 2] == '-' && s[s.len() - 1] == '-'));
            assert(q.last() == s[s.len() - 2]);
        }
        assert(q.push(c) =~= s);
    }
}

/// A dash-trimmed slug body is its own slug.
pub proof fn lemma_slug_fixed(s: Seq<char>)
    requires
        slug_body(s),
        s.len() > 0 ==> s[0] != '-' && s.last() != '-',
    ensures
        slug(s) == s,
{
    assert(!has_ws(s)) by {
        if has_ws(s) {
            let i = choose|i: int| 0 <= i < s.len() && is_ws(s[i]);
            assert(slug_char(s[i]));
        }
    }
    lemma_trim_no_ws(s);
    if s.len() > 0 {
        assert(slug_char(s[0]));
    }
    assert(trim_start_char(s, '#') == s);
    assert(heading_title(s) == s);
    lemma_slug_chars_fixed(s);
    assert(trim_start_char(s, '-') == s);
    assert(trim_end_char(s, '-') == s);
}

/// Slugging is idempotent: the slug of a slug is the slug itself, so an
/// anchor written already slugified links to the same heading.
pub proof fn lemma_slug_idempotent(text: Seq<char>)
    ensures
        slug(slug(text)) == slug(text),
{
    assert(ws_not_alnum(text));
    let p = |x: char| is_ws(x) ==> !alnum(x);
    lemma_trims_keep(text, '#', p);
    let a = trim_start(text);
    lemma_trims_keep(a, '#', p);
    let b = trim_end(a);
    lemma_trims_keep(b, '#', p);
    let c = trim_start_char(b, '#');
    lemma_trims_keep(c, '#', p);
    let d = trim_start(c);
    lemma_trims_keep(d, '#', p);
    let h = trim_end(d);
    assert(h == heading_title(text));
    assert(ws_not_alnum(h)) by {
        assert forall|i: int| 0 <= i < h.len() && is_ws(#[trigger] h[i]) implies !alnum(h[i]) by {
            assert(p(h[i]));
        }
    }
    lemma_slug_chars_body(h);
    let sc = slug_chars(h);
    lemma_trim_start_char_suffix(sc, '-');
    lemma_trim_start_char_head(sc, '-');
    let e = trim_start_char(sc, '-');
    lemma_slug_body_subrange(sc, sc.len() - e.len(), sc.len() as int);
    lemma_trim_end_char_prefix(e, '-');
    let f = trim_end_char(e, '-');
    lemma_slug_body_subrange(e, 0, f.len() as int);
    if f.len() > 0 {
        assert(f[0] == e[0]);
    }
    lemma_slug_fixed(f);
}

/// Trimming a text without whitespace changes nothing.
pub proof fn lemma_trim_no_ws(s: Seq<char>)
    requires
        !has_ws(s),
    ensures
        trim(s) == s,
{
    if s.len() > 0 {
        assert(!is_ws(s[0]));
        assert(!is_ws(s.last()));
    }
    assert(trim_start(s) == s);
}

/// Trimming keeps a leading non-whitespace character in front.
pub proof fn lemma_trim_keeps_head(s: Seq<char>)
    requires
        s.len() > 0,
        !is_ws(s[0]),
    ensures
        trim(s).len() > 0,
        trim(s)[0] == s[0],
        !is_ws(s.last()) ==> trim(s) == s,
    decreases s.len(),
{
    assert(trim_start(s) == s);
    lemma_trim_end_keeps_head(s);
}

pub proof fn lemma_trim_end_keeps_head(s: Seq<char>)
    requires
        s.len() > 0,
        !is_ws(s[0]),
    ensures
        trim_end(s).len() > 0,
        trim_end(s)[0] == s[0],
        !is_ws(s.last()) ==> trim_end(s) == s,
    decreases s.len(),
{
    if is_ws(s.last()) {
        assert(s.len() > 1);
        assert(s.drop_last()[0] == s[0]);
        lemma_trim_end_keeps_head(s.drop_last());
    }
}

pub proof fn lemma_space_or_tab_none(s: Seq<char>, from: int)
    requires
        0 <= from <= s.len(),
        !has_ws(s),
    ensures
        space_or_tab(s, from) == s.len(),
    decreases s.len() - from,
{
    if from < s.len() {
        assert(!is_ws(s[from]));
        lemma_space_or_tab_none(s, from + 1);
    }
}

/// A heading wikilink survives a re-parse: `[[Heading]]` expands to a link
/// that parses back with the heading as its text and, cleaned, `#` plus
/// the heading's slug as its destination, which classifies as an in-page
/// anchor. (The target is a plain heading name: no `#` part, no `/`, no
/// `.md`, not external, and no brackets or backslashes.)
pub proof fn lemma_heading_wikilink_reparses(target: Seq<char>)
    requires
        !crate::links::external(trim(target)),
        !has_char_spec(trim(target), '#'),
        !has_char_spec(trim(target), '/'),
        find(trim(target), seq!['.', 'm', 'd']) is None,
        forall|i: int| 0 <= i < trim(target).len() ==> {
            let c = #[trigger] trim(target)[i];
            c != '[' && c != ']' && c != '\\'
        },
    ensures
        !escaped(expand_one(target), 0),
        inline_link(expand_one(target), 0) matches Some((text, dest, next)) && {
            &&& text == trim(target)
            &&& next == expand_one(target).len()
            &&& clean_dest(dest) == seq!['#'] + slug(trim(target))
            &&& crate::links::classify_spec(clean_dest(dest)) == crate::links::LinkKind::Anchor
        },
{
    let t = trim(target);
    let d = seq!['#'] + slug(t);
    assert(wiki_parts(t) == (d, t));
    lemma_slug_inert(t);
    assert forall|i: int| 0 <= i < d.len() implies link_inert(#[trigger] d[i]) by {
        if i > 0 {
            assert(d[i] == slug(t)[i - 1]);
        }
    }
    let s = expand_one(target);
    let n = t.len() as int;
    assert(backslash_run(s, 0) == 0);
    if has_ws(d) {
        assert(s == seq!['['] + t + seq![']', '(', '<'] + d + seq!['>', ')']);
        assert forall|m: int| 1 <= m < 1 + n implies (#[trigger] s[m] != '[' && s[m] != ']' && s[m] != '\\') by {
            assert(s[m] == t[m - 1]);
        }
        lemma_text_close_plain(s, 1, 1 + n);
        let j = 2 + n;
        lemma_dest_close_plain(s, j + 1, j + 3 + d.len());
        let dest = seq!['<'] + d + seq!['>'];
        assert(s.subrange(j + 1, j + 3 + d.len()) =~= dest);
        assert(s.subrange(1, 1 + n) =~= t);
        lemma_trim_keeps_head(dest);
        assert(index_of(dest.drop_first(), '>') == Some(d.len() as int)) by {
            crate::text::lemma_next_char(dest.drop_first(), '>', 0);
            lemma_next_char_none_before(dest.drop_first(), '>', 0, d.len() as int);
        }
        assert(dest.drop_first().subrange(0, d.len() as int) =~= d);
        lemma_trim_keeps_head(d);
    } else {
        assert(s == seq!['['] + t + seq![']', '('] + d + seq![')']);
        assert forall|m: int| 1 <= m < 1 + n implies (#[trigger] s[m] != '[' && s[m] != ']' && s[m] != '\\') by {
            assert(s[m] == t[m - 1]);
        }
        lemma_text_close_plain(s, 1, 1 + n);
        let j = 2 + n;
        lemma_dest_close_plain(s, j + 1, j + 1 + d.len());
        assert(s.subrange(j + 1, j + 1 + d.len()) =~= d);
        assert(s.subrange(1, 1 + n) =~= t);
        lemma_trim_no_ws(d);
        lemma_space_or_tab_none(d, 0);
        lemma_trim_keeps_head(d);
    }
}

/// `next_char` finds `c` at `k` when nothing before it from `from` is `c`.
pub proof fn lemma_next_char_none_before(s: Seq<char>, c: char, from: int, k: int)
    requires
        0 <= from <= k < s.len(),
        s[k] == c,
        forall|m: int| from <= m < k ==> s[m] != c,
    ensures
        next_char(s, c, from) == k,
    decreases k - from,
{
    if from < k {
        lemma_next_char_none_before(s, c, from + 1, k);
    }
}

fn has_ws_v(s: &[char]) -> (r: bool)
    ensures
        r == has_ws(s@),
{
    let mut i: usize = 0;
    while i < s.len()
        invariant
            i <= s@.len(),
            forall|k: int| 0 <= k < i ==> !is_ws(s@[k]),
        decreases s.len() - i,
    {
        if whitespace(s[i]) {
            return true;
        }
        i += 1;
    }
    false
}

/// The pieces one after another.
pub open spec fn concat_all(ps: Seq<Seq<char>>) -> Seq<char>
    decreases ps.len(),
{
    if ps.len() == 0 {
        Seq::empty()
    } else {
        concat_all(ps.drop_last()) + ps.last()
    }
}

/// The texts of character slices.
pub open spec fn slice_views(v: Seq<&[char]>) -> Seq<Seq<char>> {
    v.map_values(|p: &[char]| p@)
}

fn cat(parts: &[&[char]]) -> (r: Vec<char>)
    ensures
        r@ == concat_all(slice_views(parts@)),
{
    let mut r: Vec<char> = Vec::new();
    let mut i: usize = 0;
    while i < parts.len()
        invariant
            i <= parts@.len(),
            r@ == concat_all(slice_views(parts@).take(i as int)),
        decreases parts.len() - i,
    {
        proof {
            assert(slice_views(parts@).take(i + 1).drop_last() =~= slice_views(parts@).take(i as int));
        }
        push_all(&mut r, parts[i]);
        i += 1;
    }
    proof {
        assert(slice_views(parts@).take(i as int) =~= slice_views(parts@));
    }
    r
}

fn wiki_parts_v(t: &[char]) -> (r: (Vec<char>, Vec<char>))
    ensures
        (r.0@, r.1@) == wiki_parts(t@),
{
    assert(t@.subrange(0, t@.len() as int) =~= t@);
    let n = t.len();
    match index_of_v(t, '#') {
        Some(k) => {
            let path = slice_of(t, 0, k);
            let frag = slice_of(t, k + 1, n);
            let fslug = heading_slug_v(&frag);
            let mut dest: Vec<char> = Vec::new();
            push_all(&mut dest, &path);
            dest.push('#');
            push_all(&mut dest, &fslug);
            proof {
                if path@.len() == 0 {
                    assert(dest@ =~= seq!['#'] + slug(frag@));
                } else {
                    assert(dest@ =~= path@ + seq!['#'] + slug(frag@));
                }
            }
            (dest, trim_v(&frag))
        },
        None => {
            let md = vec!['.', 'm', 'd'];
            assert(md@ =~= seq!['.', 'm', 'd']);
            if index_of_v(t, '/').is_some() || crate::text::find_v(t, &md).is_some() {
                (slice_of(t, 0, t.len()), slice_of(t, 0, t.len()))
            } else {
                let mut dest: Vec<char> = vec!['#'];
                let s = heading_slug_v(t);
                push_all(&mut dest, &s);
                (dest, slice_of(t, 0, t.len()))
            }
        },
    }
}

pub fn expand_one_wikilink_v(target: &[char]) -> (r: Vec<char>)
    ensures
        r@ == expand_one(target@),
{
    let t = trim_v(target);
    let mut out: Vec<char> = vec!['['];
    if crate::links::is_external_v(&t) {
        push_all(&mut out, &t);
        out.push(']');
        out.push('(');
        push_all(&mut out, &t);
        out.push(')');
        assert(out@ =~= expand_one(target@));
        return out;
    }
    let (dest, display) = wiki_parts_v(&t);
    push_all(&mut out, &display);
    out.push(']');
    out.push('(');
    if has_ws_v(&dest) {
        out.push('<');
        push_all(&mut out, &dest);
        out.push('>');
    } else {
        push_all(&mut out, &dest);
    }
    out.push(')');
    assert(out@ =~= expand_one(target@));
    out
}

/// The wikilink expansion of one line from `i`: its output and the number
/// of wikilinks expanded. Wikilinks are found on `blank`, the line with code
/// spans blanked; other characters are copied from `chars`.
pub open spec fn wiki_scan(chars: Seq<char>, blank: Seq<char>, i: int) -> (Seq<char>, nat)
    decreases chars.len() - i,
{
    if i < 0 || i >= chars.len() {
        (Seq::empty(), 0)
    } else if blank[i] == '[' && !escaped(blank, i) && wikilink(blank, i) is Some && i < wikilink(blank, i).unwrap().1 <= chars.len() {
        let (t, next) = wikilink(blank, i).unwrap();
        let rest = wiki_scan(chars, blank, next);
        (expand_one(t) + rest.0, rest.1 + 1)
    } else {
        let rest = wiki_scan(chars, blank, i + 1);
        (seq![chars[i]] + rest.0, rest.1)
    }
}

/// One prose line with its wikilinks expanded, and their number.
pub open spec fn expand_line(line: Seq<char>) -> (Seq<char>, nat) {
    if find(line, seq!['[', '[']) is None {
        (line, 0)
    } else {
        wiki_scan(line, blank_code(line), 0)
    }
}

pub proof fn lemma_wiki_scan_count(chars: Seq<char>, blank: Seq<char>, i: int)
    requires
        0 <= i,
    ensures
        wiki_scan(chars, blank, i).1 <= if i <= chars.len() { chars.len() - i } else { 0 },
    decreases chars.len() - i,
{
    if 0 <= i < chars.len() {
        if blank[i] == '[' && !escaped(blank, i) && wikilink(blank, i) is Some && i < wikilink(blank, i).unwrap().1 <= chars.len() {
            let next = wikilink(blank, i).unwrap().1;
            lemma_wiki_scan_count(chars, blank, next);
        } else {
            lemma_wiki_scan_count(chars, blank, i + 1);
        }
    }
}

pub fn expand_line_v(line: &[char]) -> (r: (Vec<char>, usize))
    ensures
        (r.0@, r.1 as nat) == expand_line(line@),
        r.1 <= line@.len(),
{
    let open = vec!['[', '['];
    assert(open@ =~= seq!['[', '[']);
    if crate::text::find_v(line, &open).is_none() {
        return (slice_of(line, 0, line.len()), 0);
    }
    let blank = blank_inline_code_v(line);
    let ghost whole = wiki_scan(line@, blank@, 0);
    proof {
        lemma_wiki_scan_count(line@, blank@, 0);
    }
    let mut out: Vec<char> = Vec::new();
    let mut count: usize = 0;
    let mut i: usize = 0;
    while i < line.len()
        invariant
            blank@ == blank_code(line@),
            blank@.len() == line@.len(),
            i <= line@.len(),
            whole == wiki_scan(line@, blank@, 0),
            out@ + wiki_scan(line@, blank@, i as int).0 == whole.0,
            count + wiki_scan(line@, blank@, i as int).1 == whole.1,
            whole.1 <= line@.len(),
        decreases line.len() - i,
    {
        let ghost before = out@;
        let mut expanded = false;
        if blank[i] == '[' && !is_escaped(&blank, i) {
            match wikilink_v(&blank, i) {
                Some((target, next)) => {
                    let e = expand_one_wikilink_v(&target);
                    proof {
                        lemma_wiki_scan_count(line@, blank@, next as int);
                    }
                    push_all(&mut out, &e);
                    assert(out@ + wiki_scan(line@, blank@, next as int).0 =~= before + wiki_scan(line@, blank@, i as int).0);
                    count += 1;
                    i = next;
                    expanded = true;
                },
                None => {},
            }
        }
        if !expanded {
            out.push(line[i]);
            assert(out@ + wiki_scan(line@, blank@, i + 1).0 =~= before + wiki_scan(line@, blank@, i as int).0);
            i += 1;
        }
    }
    assert(out@ =~= whole.0);
    (out, count)
}

/// The output line and wikilink count for line `i` of a body.
pub open spec fn wiki_out(ls: Seq<Seq<char>>, i: int) -> (Seq<char>, nat) {
    if is_prose(ls, i) {
        expand_line(ls[i])
    } else {
        (ls[i], 0)
    }
}

/// The wikilinks expanded in the first `n` lines.
pub open spec fn wiki_total(ls: Seq<Seq<char>>, n: int) -> nat
    decreases n,
{
    if n <= 0 {
        0
    } else {
        wiki_total(ls, n - 1) + wiki_out(ls, n - 1).1
    }
}

/// The body with every prose line's wikilinks expanded, lines rejoined with
/// `\n` (and a final `\n` kept), and the number of wikilinks expanded.
pub open spec fn expand_wikis(body: Seq<char>) -> (Seq<char>, nat) {
    let ls = lines(body);
    let outs = Seq::new(ls.len(), |i: int| wiki_out(ls, i).0);
    let tail = if body.len() > 0 && body.last() == '\n' {
        seq!['\n']
    } else {
        Seq::empty()
    };
    (crate::text::join(outs, seq!['\n']) + tail, wiki_total(ls, ls.len() as int))
}

/// Total length of a sequence of lines.
pub open spec fn lens_total(ls: Seq<Seq<char>>) -> nat
    decreases ls.len(),
{
    if ls.len() == 0 {
        0
    } else {
        ls[0].len() + lens_total(ls.drop_first())
    }
}

pub proof fn lemma_lines_total(s: Seq<char>, from: int)
    requires
        0 <= from,
    ensures
        lens_total(crate::text::lines_from(s, from)) <= if from <= s.len() { s.len() - from } else { 0 },
    decreases s.len() - from,
{
    if from < s.len() {
        let e = next_char(s, '\n', from);
        crate::text::lemma_next_char(s, '\n', from);
        let ls = crate::text::lines_from(s, from);
        if e < s.len() {
            lemma_lines_total(s, e + 1);
            assert(ls[0] == crate::text::strip_cr(s.subrange(from, e)));
            assert(ls[0].len() <= e - from);
            assert(ls.drop_first() =~= crate::text::lines_from(s, e + 1));
            assert(lens_total(ls) == ls[0].len() + lens_total(ls.drop_first()));
        } else {
            assert(ls[0] == s.subrange(from, s.len() as int));
            assert(ls.drop_first() =~= Seq::<Seq<char>>::empty());
            assert(lens_total(ls) == ls[0].len() + lens_total(ls.drop_first()));
        }
    }
}

pub fn expand_wikilinks_v(body: &[char]) -> (r: (Vec<char>, usize))
    ensures
        (r.0@, r.1 as nat) == expand_wikis(body@),
{
    let ls = lines_v(body);
    let n = body.len();
    let ghost gl = lines(body@);
    let ghost outs = Seq::new(gl.len(), |i: int| wiki_out(gl, i).0);
    proof {
        lemma_lines_total(body@, 0);
        assert(gl.skip(0) =~= gl);
    }
    let mut out_lines: Vec<Vec<char>> = Vec::new();
    let mut total: usize = 0;
    let mut fence: Option<char> = None;
    let mut i: usize = 0;
    while i < ls.len()
        invariant
            views(ls@) == gl,
            gl == lines(body@),
            outs == Seq::new(gl.len(), |i: int| wiki_out(gl, i).0),
            i <= ls@.len(),
            fence == fence_before(gl, i as int),
            views(out_lines@) == outs.take(i as int),
            total == wiki_total(gl, i as int),
            total + lens_total(gl.skip(i as int)) <= body@.len(),
            n == body@.len(),
        decreases ls.len() - i,
    {
        let ghost before = views(out_lines@);
        let line = &ls[i];
        assert(line@ == gl[i as int]);
        proof {
            assert(gl.skip(i as int).drop_first() =~= gl.skip(i + 1));
        }
        let trimmed = trim_start_v(line);
        let mut new_line: Vec<char> = slice_of(line, 0, line.len());
        assert(line@.subrange(0, line@.len() as int) =~= line@);
        match fence {
            Some(f) => {
                fence = fence_step_v(fence, line);
            },
            None => {
                let opened = fence_open_v(&trimmed);
                if opened.is_some() {
                    fence = opened;
                } else {
                    let (nl, count) = expand_line_v(line);
                    new_line = nl;
                    total += count;
                }
            },
        }
        assert(new_line@ == outs[i as int]);
        out_lines.push(new_line);
        assert(views(out_lines@) =~= before.push(outs[i as int]));
        assert(views(out_lines@) =~= outs.take(i + 1));
        i += 1;
    }
    assert(outs.take(i as int) =~= outs);
    let sep = vec!['\n'];
    assert(sep@ =~= seq!['\n']);
    let mut result = join_lines(&out_lines, &sep);
    if body.len() > 0 && body[body.len() - 1] == '\n' {
        result.push('\n');
    }
    (result, total)
}

fn join_lines(v: &Vec<Vec<char>>, sep: &[char]) -> (r: Vec<char>)
    ensures
        r@ == crate::text::join(views(v@), sep@),
{
    crate::text::join_v(v, sep)
}

/// Expands `[[target]]` wikilinks into standard markdown links.
///
/// A bare target names a heading of the current document (`[[Pricing Tiers]]`
/// becomes `[Pricing Tiers](#pricing-tiers)`); `[[#Pricing Tiers]]` is the
/// explicit-anchor spelling; a target that names a destination (a URL, a
/// path, an `.md` file) is linked as written with any fragment slugified.
/// Fenced code blocks and inline code spans are left untouched. Returns the
/// expanded text and the number of wikilinks expanded.
pub fn expand_wikilinks(body: &str) -> (r: (String, usize))
    ensures
        (r.0@, r.1 as nat) == expand_wikis(body@),
{
    let v = chars_of(body);
    let (out, n) = expand_wikilinks_v(&v);
    (string_of(&out), n)
}

/// Expands the wikilinks in one (non-fenced) line.
pub fn expand_wikilinks_in_line(line: &str) -> (r: (String, usize))
    ensures
        (r.0@, r.1 as nat) == expand_line(line@),
{
    let v = chars_of(line);
    let (out, n) = expand_line_v(&v);
    (string_of(&out), n)
}

/// The markdown link one `[[target]]` expands to.
pub fn expand_one_wikilink(target: &str) -> (r: String)
    ensures
        r@ == expand_one(target@),
{
    let v = chars_of(target);
    let out = expand_one_wikilink_v(&v);
    string_of(&out)
}

// ---------------------------------------------------------------------------
// Link rewriting.
// ---------------------------------------------------------------------------

/// Action to perform on a detected markdown link during rewrite.
#[derive(Debug, PartialEq, Eq)]
pub enum LinkRewriteAction {
    /// Keep the link destination as-is.
    Keep,
    /// Rewrite the destination URL to a new target (preserving title and brackets).
    Rewrite(String),
    /// Unlink: replace `[Text](dest)` with plain `Text`.
    Unlink,
}

impl Clone for LinkRewriteAction {
    fn clone(&self) -> (r: Self)
        ensures
            r == *self,
    {
        match self {
            LinkRewriteAction::Keep => LinkRewriteAction::Keep,
            LinkRewriteAction::Rewrite(d) => LinkRewriteAction::Rewrite(d.clone()),
            LinkRewriteAction::Unlink => LinkRewriteAction::Unlink,
        }
    }
}

/// The actions left after the first one is used.
pub open spec fn rest_acts(acts: Seq<LinkRewriteAction>) -> Seq<LinkRewriteAction> {
    if acts.len() > 0 {
        acts.drop_first()
    } else {
        acts
    }
}

/// Whether the link starting at `i` is one the rewriter acts on: an
/// unescaped `[` outside inline code that opens a complete inline link.
pub open spec fn rw_link_at(c: Seq<char>, i: int, code: bool) -> bool {
    !code && c[i] == '[' && !escaped(c, i) && inline_link(c, i) is Some && i < inline_link(c, i).unwrap().2 <= c.len()
}

/// The `(text, raw destination)` of every link the rewriter meets in a
/// line from `i`, given whether an inline code span is open; an unescaped
/// backtick toggles the span.
pub open spec fn rw_sites(c: Seq<char>, i: int, code: bool) -> Seq<(Seq<char>, Seq<char>)>
    decreases c.len() - i,
{
    if i < 0 || i >= c.len() {
        Seq::empty()
    } else if c[i] == '`' && !escaped(c, i) {
        rw_sites(c, i + 1, !code)
    } else if rw_link_at(c, i, code) {
        let (text, dest, next) = inline_link(c, i).unwrap();
        seq![(text, dest)] + rw_sites(c, next, code)
    } else {
        rw_sites(c, i + 1, code)
    }
}

/// A new destination as written: wrapped in `<...>` when it holds a space
/// and is not already wrapped.
pub open spec fn fmt_dest(d: Seq<char>) -> Seq<char> {
    if index_of(d, ' ') is Some && !(d.len() > 0 && d[0] == '<') {
        seq!['<'] + d + seq!['>']
    } else {
        d
    }
}

/// What one link becomes under an action.
pub open spec fn rw_piece(
    c: Seq<char>,
    i: int,
    text: Seq<char>,
    dest: Seq<char>,
    next: int,
    a: LinkRewriteAction,
) -> Seq<char> {
    match a {
        LinkRewriteAction::Keep => c.subrange(i, next),
        LinkRewriteAction::Rewrite(nd) => seq!['['] + text + seq![']', '('] + fmt_dest(nd@) + title_suffix(dest) + seq![')'],
        LinkRewriteAction::Unlink => text,
    }
}

/// A line rewritten from `i` with the actions `acts`, one per link met, in
/// order: the output and the number of links rewritten or unlinked.
pub open spec fn rw_scan(c: Seq<char>, i: int, code: bool, acts: Seq<LinkRewriteAction>) -> (Seq<char>, nat)
    decreases c.len() - i,
{
    if i < 0 || i >= c.len() {
        (Seq::empty(), 0)
    } else if c[i] == '`' && !escaped(c, i) {
        let r = rw_scan(c, i + 1, !code, acts);
        (seq!['`'] + r.0, r.1)
    } else if rw_link_at(c, i, code) {
        let (text, dest, next) = inline_link(c, i).unwrap();
        let a = if acts.len() > 0 { acts[0] } else { LinkRewriteAction::Keep };
        let r = rw_scan(c, next, code, rest_acts(acts));
        (rw_piece(c, i, text, dest, next, a) + r.0, r.1 + if a is Keep { 0nat } else { 1nat })
    } else {
        let r = rw_scan(c, i + 1, code, acts);
        (seq![c[i]] + r.0, r.1)
    }
}

/// The link value a rewrite callback receives for a site.
pub open spec fn site_link(l: crate::links::Link, site: (Seq<char>, Seq<char>)) -> bool {
    &&& l.text@ == site.0
    &&& l.target@ == clean_dest(site.1)
    &&& l.kind == crate::links::classify_spec(clean_dest(site.1))
}

pub proof fn lemma_rw_count(c: Seq<char>, i: int, code: bool, acts: Seq<LinkRewriteAction>)
    requires
        0 <= i,
    ensures
        rw_scan(c, i, code, acts).1 <= if i <= c.len() { c.len() - i } else { 0 },
    decreases c.len() - i,
{
    if 0 <= i < c.len() {
        if c[i] == '`' && !escaped(c, i) {
            lemma_rw_count(c, i + 1, !code, acts);
        } else if rw_link_at(c, i, code) {
            let next = inline_link(c, i).unwrap().2;
            lemma_rw_count(c, next, code, rest_acts(acts));
        } else {
            lemma_rw_count(c, i + 1, code, acts);
        }
    }
}

/// The link sites of a line, with their raw destinations.
pub fn rw_sites_v(c: &[char]) -> (r: Vec<(Vec<char>, Vec<char>)>)
    ensures
        Seq::new(r@.len(), |k: int| (r@[k].0@, r@[k].1@)) == rw_sites(c@, 0, false),
{
    let ghost whole = rw_sites(c@, 0, false);
    let mut out: Vec<(Vec<char>, Vec<char>)> = Vec::new();
    let mut code = false;
    let mut i: usize = 0;
    while i < c.len()
        invariant
            i <= c@.len(),
            whole == rw_sites(c@, 0, false),
            Seq::new(out@.len(), |k: int| (out@[k].0@, out@[k].1@)) + rw_sites(c@, i as int, code) == whole,
        decreases c.len() - i,
    {
        let ghost before = Seq::new(out@.len(), |k: int| (out@[k].0@, out@[k].1@));
        if c[i] == '`' && !is_escaped(c, i) {
            code = !code;
            i += 1;
        } else {
            let mut advanced = false;
            if !code && c[i] == '[' && !is_escaped(c, i) {
                match inline_link_v(c, i) {
                    Some((text, dest, next)) => {
                        proof {
                            lemma_inline_link(c@, i as int);
                        }
                        let ghost site = (text@, dest@);
                        out.push((text, dest));
                        assert(Seq::new(out@.len(), |k: int| (out@[k].0@, out@[k].1@)) =~= before.push(site));
                        assert(before.push(site) + rw_sites(c@, next as int, code) =~= before + rw_sites(c@, i as int, code));
                        i = next;
                        advanced = true;
                    },
                    None => {},
                }
            }
            if !advanced {
                i += 1;
            }
        }
    }
    r_sites(out)
}

fn r_sites(out: Vec<(Vec<char>, Vec<char>)>) -> (r: Vec<(Vec<char>, Vec<char>)>)
    ensures
        r == out,
{
    out
}

/// Applies one action per link site to a line.
pub fn rw_apply_v(c: &[char], acts: &Vec<LinkRewriteAction>) -> (r: (Vec<char>, usize))
    ensures
        (r.0@, r.1 as nat) == rw_scan(c@, 0, false, acts@),
        r.1 <= c@.len(),
{
    let ghost whole = rw_scan(c@, 0, false, acts@);
    proof {
        lemma_rw_count(c@, 0, false, acts@);
    }
    let mut out: Vec<char> = Vec::new();
    let mut count: usize = 0;
    let mut code = false;
    let mut used: usize = 0;
    assert(acts@.skip(0) =~= acts@);
    let mut i: usize = 0;
    while i < c.len()
        invariant
            i <= c@.len(),
            used <= acts@.len(),
            whole == rw_scan(c@, 0, false, acts@),
            whole.1 <= c@.len(),
            out@ + rw_scan(c@, i as int, code, acts@.skip(used as int)).0 == whole.0,
            count + rw_scan(c@, i as int, code, acts@.skip(used as int)).1 == whole.1,
        decreases c.len() - i,
    {
        let ghost before = out@;
        let ghost rest = acts@.skip(used as int);
        if c[i] == '`' && !is_escaped(c, i) {
            code = !code;
            out.push('`');
            assert(out@ + rw_scan(c@, i + 1, code, rest).0 =~= before + rw_scan(c@, i as int, !code, rest).0);
            i += 1;
        } else {
            let mut advanced = false;
            if !code && c[i] == '[' && !is_escaped(c, i) {
                match inline_link_v(c, i) {
                    Some((text, dest, next)) => {
                        proof {
                            lemma_inline_link(c@, i as int);
                            lemma_rw_count(c@, next as int, code, rest_acts(rest));
                        }
                        let a = if used < acts.len() { acts[used].clone() } else { LinkRewriteAction::Keep };
                        assert(a == (if rest.len() > 0 { rest[0] } else { LinkRewriteAction::Keep }));
                        match a {
                            LinkRewriteAction::Keep => {
                                let raw = slice_of(c, i, next);
                                push_all(&mut out, &raw);
                            },
                            LinkRewriteAction::Rewrite(nd) => {
                                let suffix = title_suffix_v(&dest);
                                let ndv = chars_of(nd.as_str());
                                let fd = fmt_dest_v(&ndv);
                                out.push('[');
                                push_all(&mut out, &text);
                                out.push(']');
                                out.push('(');
                                push_all(&mut out, &fd);
                                push_all(&mut out, &suffix);
                                out.push(')');
                                count += 1;
                            },
                            LinkRewriteAction::Unlink => {
                                push_all(&mut out, &text);
                                count += 1;
                            },
                        }
                        assert(out@ =~= before + rw_piece(c@, i as int, text@, dest@, next as int, a));
                        if used < acts.len() {
                            assert(acts@.skip(used + 1) =~= rest_acts(rest));
                            used += 1;
                        }
                        i = next;
                        advanced = true;
                    },
                    None => {},
                }
            }
            if !advanced {
                out.push(c[i]);
                assert(out@ + rw_scan(c@, i + 1, code, rest).0 =~= before + rw_scan(c@, i as int, code, rest).0);
                i += 1;
            }
        }
    }
    assert(out@ =~= whole.0);
    (out, count)
}

fn fmt_dest_v(d: &[char]) -> (r: Vec<char>)
    ensures
        r@ == fmt_dest(d@),
{
    if index_of_v(d, ' ').is_some() && !(d.len() > 0 && d[0] == '<') {
        let mut r = vec!['<'];
        push_all(&mut r, d);
        r.push('>');
        assert(r@ =~= seq!['<'] + d@ + seq!['>']);
        r
    } else {
        slice_of(d, 0, d.len())
    }
}

/// Line `i` rewritten with its actions, and the number of links changed.
pub open spec fn rw_line_out(ls: Seq<Seq<char>>, i: int, acts: Seq<LinkRewriteAction>) -> (Seq<char>, nat) {
    if is_prose(ls, i) {
        rw_scan(ls[i], 0, false, acts)
    } else {
        (ls[i], 0)
    }
}

/// Links changed in the first `n` lines.
pub open spec fn rw_total(ls: Seq<Seq<char>>, acts: Seq<Seq<LinkRewriteAction>>, n: int) -> nat
    decreases n,
{
    if n <= 0 {
        0
    } else {
        rw_total(ls, acts, n - 1) + rw_line_out(ls, n - 1, acts[n - 1]).1
    }
}

/// A body rewritten with per-line actions (`acts[i]` for line `i`): lines
/// rejoined with `\n`, a final `\n` kept, and the number of links changed.
pub open spec fn rewrite_body(body: Seq<char>, acts: Seq<Seq<LinkRewriteAction>>) -> (Seq<char>, nat) {
    let ls = lines(body);
    let outs = Seq::new(ls.len(), |i: int| rw_line_out(ls, i, acts[i]).0);
    let tail = if body.len() > 0 && body.last() == '\n' {
        seq!['\n']
    } else {
        Seq::empty()
    };
    (crate::text::join(outs, seq!['\n']) + tail, rw_total(ls, acts, ls.len() as int))
}

/// `a` is an answer of the callback for a link site: what it returned for
/// the site's link and raw destination.
pub open spec fn answered<F: Fn(&crate::links::Link, &str) -> LinkRewriteAction>(
    f: F,
    site: (Seq<char>, Seq<char>),
    a: LinkRewriteAction,
) -> bool {
    exists|l: crate::links::Link, d: &str|
        site_link(l, site) && d@ == site.1 && #[trigger] call_ensures(f, (&l, d), a)
}

/// `acts` holds, for every prose line of the body, one callback answer per
/// link site of that line, in order.
pub open spec fn answers_for<F: Fn(&crate::links::Link, &str) -> LinkRewriteAction>(
    f: F,
    body: Seq<char>,
    acts: Seq<Seq<LinkRewriteAction>>,
) -> bool {
    let ls = lines(body);
    &&& acts.len() == ls.len()
    &&& forall|i: int| 0 <= i < ls.len() && is_prose(ls, i) ==> {
        &&& (#[trigger] acts[i]).len() == rw_sites(ls[i], 0, false).len()
        &&& forall|k: int| 0 <= k < acts[i].len() ==> answered(f, rw_sites(ls[i], 0, false)[k], #[trigger] acts[i][k])
    }
}

fn line_answers<F: Fn(&crate::links::Link, &str) -> LinkRewriteAction>(line: &[char], f: &F) -> (r: Vec<LinkRewriteAction>)
    requires
        forall|l: &crate::links::Link, d: &str| call_requires(*f, (l, d)),
    ensures
        r@.len() == rw_sites(line@, 0, false).len(),
        forall|k: int| 0 <= k < r@.len() ==> answered(*f, rw_sites(line@, 0, false)[k], #[trigger] r@[k]),
{
    let sites = rw_sites_v(line);
    let ghost gs = rw_sites(line@, 0, false);
    let mut acts: Vec<LinkRewriteAction> = Vec::new();
    let mut k: usize = 0;
    while k < sites.len()
        invariant
            Seq::new(sites@.len(), |j: int| (sites@[j].0@, sites@[j].1@)) == gs,
            gs == rw_sites(line@, 0, false),
            k <= sites@.len(),
            acts@.len() == k,
            forall|l: &crate::links::Link, d: &str| call_requires(*f, (l, d)),
            forall|j: int| 0 <= j < k ==> answered(*f, gs[j], #[trigger] acts@[j]),
        decreases sites.len() - k,
    {
        let site = &sites[k];
        assert((site.0@, site.1@) == gs[k as int]);
        let target = clean_destination_v(&site.1);
        let kind = crate::links::classify_v(&target);
        let link = crate::links::Link { text: string_of(&site.0), target: string_of(&target), kind };
        let dest = string_of(&site.1);
        let d: &str = dest.as_str();
        let a = f(&link, d);
        proof {
            assert(site_link(link, gs[k as int]));
            assert(call_ensures(*f, (&link, d), a));
            assert(answered(*f, gs[k as int], a));
        }
        acts.push(a);
        k += 1;
    }
    acts
}

/// Rewrites inline markdown links in a document body using a callback.
///
/// The callback sees every inline link outside fenced code blocks and inline
/// code spans, with its raw destination, and answers with an action: keep
/// the link, rewrite its destination (keeping the text and any title), or
/// unlink it to its plain text. Returns the rewritten body and the number of
/// links rewritten or unlinked.
pub fn rewrite_markdown_links<F: Fn(&crate::links::Link, &str) -> LinkRewriteAction>(
    body: &str,
    rewrite_fn: F,
) -> (r: (String, usize))
    requires
        forall|l: &crate::links::Link, d: &str| call_requires(rewrite_fn, (l, d)),
    ensures
        exists|acts: Seq<Seq<LinkRewriteAction>>|
            answers_for(rewrite_fn, body@, acts) && (r.0@, r.1 as nat) == #[trigger] rewrite_body(body@, acts),
{
    let bv = chars_of(body);
    let ls = lines_v(&bv);
    let n = bv.len();
    let ghost gl = lines(body@);
    let ghost mut acts_all: Seq<Seq<LinkRewriteAction>> = Seq::empty();
    proof {
        lemma_lines_total(body@, 0);
        assert(gl.skip(0) =~= gl);
    }
    let mut out_lines: Vec<Vec<char>> = Vec::new();
    let mut total: usize = 0;
    let mut fence: Option<char> = None;
    let mut i: usize = 0;
    while i < ls.len()
        invariant
            views(ls@) == gl,
            gl == lines(body@),
            bv@ == body@,
            n == body@.len(),
            i <= ls@.len(),
            acts_all.len() == i,
            fence == fence_before(gl, i as int),
            views(out_lines@) == Seq::new(i as nat, |j: int| rw_line_out(gl, j, acts_all[j]).0),
            total == rw_total(gl, acts_all, i as int),
            total + lens_total(gl.skip(i as int)) <= body@.len(),
            forall|l: &crate::links::Link, d: &str| call_requires(rewrite_fn, (l, d)),
            forall|j: int| 0 <= j < i && is_prose(gl, j) ==> {
                &&& (#[trigger] acts_all[j]).len() == rw_sites(gl[j], 0, false).len()
                &&& forall|k: int| 0 <= k < acts_all[j].len() ==> answered(rewrite_fn, rw_sites(gl[j], 0, false)[k], #[trigger] acts_all[j][k])
            },
        decreases ls.len() - i,
    {
        let ghost before = views(out_lines@);
        let ghost acts_before = acts_all;
        let line = &ls[i];
        assert(line@ == gl[i as int]);
        proof {
            assert(gl.skip(i as int).drop_first() =~= gl.skip(i + 1));
        }
        let trimmed = trim_start_v(line);
        let mut new_line: Vec<char> = slice_of(line, 0, line.len());
        assert(line@.subrange(0, line@.len() as int) =~= line@);
        let mut prose = false;
        match fence {
            Some(f) => {
                fence = fence_step_v(fence, line);
            },
            None => {
                let opened = fence_open_v(&trimmed);
                if opened.is_some() {
                    fence = opened;
                } else {
                    prose = true;
                }
            },
        }
        if prose {
            let acts = line_answers(line, &rewrite_fn);
            let (nl, count) = rw_apply_v(line, &acts);
            new_line = nl;
            total += count;
            proof {
                acts_all = acts_all.push(acts@);
            }
        } else {
            proof {
                acts_all = acts_all.push(Seq::empty());
            }
        }
        assert(acts_all.drop_last() =~= acts_before);
        assert forall|j: int| 0 <= j < i implies acts_all[j] == acts_before[j] by {}
        assert(rw_total(gl, acts_all, i as int) == rw_total(gl, acts_before, i as int)) by {
            lemma_rw_total_prefix(gl, acts_before, acts_all, i as int);
        }
        assert(new_line@ == rw_line_out(gl, i as int, acts_all[i as int]).0);
        let ghost nlv = new_line@;
        out_lines.push(new_line);
        assert(views(out_lines@) =~= before.push(nlv));
        assert forall|j: int| 0 <= j < i + 1 implies #[trigger] views(out_lines@)[j] == rw_line_out(gl, j, acts_all[j]).0 by {
            if j < i {
                assert(acts_all[j] == acts_before[j]);
                assert(views(out_lines@)[j] == before[j]);
            }
        }
        assert(views(out_lines@) =~= Seq::new((i + 1) as nat, |j: int| rw_line_out(gl, j, acts_all[j]).0));
        i += 1;
    }
    let ghost outs = Seq::new(gl.len(), |j: int| rw_line_out(gl, j, acts_all[j]).0);
    assert(views(out_lines@) =~= outs);
    let sep = vec!['\n'];
    assert(sep@ =~= seq!['\n']);
    let mut result = join_lines(&out_lines, &sep);
    if bv.len() > 0 && bv[bv.len() - 1] == '\n' {
        result.push('\n');
    }
    let text = string_of(&result);
    assert(answers_for(rewrite_fn, body@, acts_all));
    assert((text@, total as nat) == rewrite_body(body@, acts_all));
    (text, total)
}

pub proof fn lemma_rw_total_prefix(
    ls: Seq<Seq<char>>,
    a: Seq<Seq<LinkRewriteAction>>,
    b: Seq<Seq<LinkRewriteAction>>,
    n: int,
)
    requires
        0 <= n <= a.len(),
        n <= b.len(),
        forall|j: int| 0 <= j < n ==> a[j] == b[j],
    ensures
        rw_total(ls, a, n) == rw_total(ls, b, n),
    decreases n,
{
    if n > 0 {
        lemma_rw_total_prefix(ls, a, b, n - 1);
    }
}


pub proof fn lemma_keep_scan(c: Seq<char>, i: int, code: bool, acts: Seq<LinkRewriteAction>)
    requires
        0 <= i <= c.len(),
        forall|k: int| 0 <= k < acts.len() ==> #[trigger] acts[k] is Keep,
    ensures
        rw_scan(c, i, code, acts) == (c.subrange(i, c.len() as int), 0nat),
    decreases c.len() - i,
{
    if i < c.len() {
        if c[i] == '`' && !escaped(c, i) {
            lemma_keep_scan(c, i + 1, !code, acts);
            assert(seq!['`'] + c.subrange(i + 1, c.len() as int) =~= c.subrange(i, c.len() as int));
        } else if rw_link_at(c, i, code) {
            let next = inline_link(c, i).unwrap().2;
            let rest = rest_acts(acts);
            assert forall|k: int| 0 <= k < rest.len() implies #[trigger] rest[k] is Keep by {
                assert(rest[k] == acts[k + 1]);
            }
            lemma_keep_scan(c, next, code, rest);
            assert(c.subrange(i, next) + c.subrange(next, c.len() as int) =~= c.subrange(i, c.len() as int));
        } else {
            lemma_keep_scan(c, i + 1, code, acts);
            assert(seq![c[i]] + c.subrange(i + 1, c.len() as int) =~= c.subrange(i, c.len() as int));
        }
    } else {
        assert(c.subrange(i, c.len() as int) =~= Seq::<char>::empty());
    }
}

pub proof fn lemma_keep_total(ls: Seq<Seq<char>>, acts: Seq<Seq<LinkRewriteAction>>, n: int)
    requires
        0 <= n <= ls.len(),
        acts.len() == ls.len(),
        forall|i: int, k: int| 0 <= i < acts.len() && 0 <= k < acts[i].len() ==> #[trigger] acts[i][k] is Keep,
    ensures
        rw_total(ls, acts, n) == 0,
        forall|i: int| 0 <= i < n ==> #[trigger] rw_line_out(ls, i, acts[i]) == (ls[i], 0nat),
    decreases n,
{
    if n > 0 {
        lemma_keep_total(ls, acts, n - 1);
        let i = n - 1;
        assert forall|k: int| 0 <= k < acts[i].len() implies #[trigger] acts[i][k] is Keep by {
            assert(acts[i][k] is Keep);
        }
        lemma_keep_scan(ls[i], 0, false, acts[i]);
        assert(ls[i].subrange(0, ls[i].len() as int) =~= ls[i]);
        assert(rw_line_out(ls, i, acts[i]) == (ls[i], 0nat));
    }
}

/// Keeping every link changes nothing: when every action is `Keep`, the
/// rewritten body is the body itself and no link counts as changed. (Stated
/// for bodies whose lines end in a bare `\n`: a `\r\n` comes back as `\n`.)
pub proof fn lemma_keeping_links_changes_nothing(body: Seq<char>, acts: Seq<Seq<LinkRewriteAction>>)
    requires
        crate::text::no_crlf(body),
        acts.len() == lines(body).len(),
        forall|i: int, k: int| 0 <= i < acts.len() && 0 <= k < acts[i].len() ==> #[trigger] acts[i][k] is Keep,
    ensures
        rewrite_body(body, acts) == (body, 0nat),
{
    let ls = lines(body);
    lemma_keep_total(ls, acts, ls.len() as int);
    let outs = Seq::new(ls.len(), |i: int| rw_line_out(ls, i, acts[i]).0);
    assert(outs =~= ls) by {
        assert forall|i: int| 0 <= i < ls.len() implies outs[i] == ls[i] by {
            assert(rw_line_out(ls, i, acts[i]) == (ls[i], 0nat));
        }
    }
    crate::text::lemma_lines_rejoin_all(body);
}

proof fn lemma_rw_total_prose(ls: Seq<Seq<char>>, a: Seq<Seq<LinkRewriteAction>>, b: Seq<Seq<LinkRewriteAction>>, n: int)
    requires
        0 <= n <= ls.len(),
        forall|i: int| 0 <= i < ls.len() && is_prose(ls, i) ==> a[i] == b[i],
    ensures
        rw_total(ls, a, n) == rw_total(ls, b, n),
        forall|i: int| 0 <= i < ls.len() ==> #[trigger] rw_line_out(ls, i, a[i]) == rw_line_out(ls, i, b[i]),
    decreases n,
{
    assert forall|i: int| 0 <= i < ls.len() implies #[trigger] rw_line_out(ls, i, a[i]) == rw_line_out(ls, i, b[i]) by {
        if is_prose(ls, i) {
            assert(a[i] == b[i]);
        }
    }
    if n > 0 {
        lemma_rw_total_prose(ls, a, b, n - 1);
        assert(rw_line_out(ls, n - 1, a[n - 1]) == rw_line_out(ls, n - 1, b[n - 1]));
    }
}

/// A callback that keeps every link leaves the body as it is: whatever
/// answers `rewrite_markdown_links` collected from it (one per link site of
/// each prose line, in order), the rewritten body is the body itself and no
/// link counts as changed. (Stated for bodies whose lines end in a bare
/// `\n`.)
pub proof fn lemma_keeping_callback_changes_nothing<F: Fn(&crate::links::Link, &str) -> LinkRewriteAction>(
    f: F,
    body: Seq<char>,
    acts: Seq<Seq<LinkRewriteAction>>,
)
    requires
        crate::text::no_crlf(body),
        answers_for(f, body, acts),
        forall|l: &crate::links::Link, d: &str, a: LinkRewriteAction| #[trigger] call_ensures(f, (l, d), a) ==> a is Keep,
    ensures
        rewrite_body(body, acts) == (body, 0nat),
{
    let ls = lines(body);
    let kept = Seq::new(ls.len(), |i: int| if is_prose(ls, i) { acts[i] } else { Seq::<LinkRewriteAction>::empty() });
    assert forall|i: int, k: int| 0 <= i < kept.len() && 0 <= k < kept[i].len() implies #[trigger] kept[i][k] is Keep by {
        assert(is_prose(ls, i));
        assert(acts[i] == kept[i]);
        let site = rw_sites(ls[i], 0, false)[k];
        assert(answered(f, site, acts[i][k]));
        let (l, d) = choose|l: crate::links::Link, d: &str| site_link(l, site) && d@ == site.1 && #[trigger] call_ensures(f, (&l, d), acts[i][k]);
        assert(call_ensures(f, (&l, d), acts[i][k]));
    }
    lemma_keeping_links_changes_nothing(body, kept);
    lemma_rw_total_prose(ls, acts, kept, ls.len() as int);
    let outs_a = Seq::new(ls.len(), |i: int| rw_line_out(ls, i, acts[i]).0);
    let outs_k = Seq::new(ls.len(), |i: int| rw_line_out(ls, i, kept[i]).0);
    assert(outs_a =~= outs_k);
}

pub proof fn lemma_wiki_scan_none(chars: Seq<char>, blank: Seq<char>, i: int)
    requires
        0 <= i <= chars.len(),
        wiki_scan(chars, blank, i).1 == 0,
    ensures
        wiki_scan(chars, blank, i).0 == chars.subrange(i, chars.len() as int),
    decreases chars.len() - i,
{
    if i < chars.len() {
        if blank[i] == '[' && !escaped(blank, i) && wikilink(blank, i) is Some && i < wikilink(blank, i).unwrap().1 <= chars.len() {
        } else {
            lemma_wiki_scan_none(chars, blank, i + 1);
            assert(seq![chars[i]] + chars.subrange(i + 1, chars.len() as int) =~= chars.subrange(i, chars.len() as int));
        }
    } else {
        assert(chars.subrange(i, chars.len() as int) =~= Seq::<char>::empty());
    }
}

pub proof fn lemma_wiki_total_none(ls: Seq<Seq<char>>, n: int)
    requires
        0 <= n <= ls.len(),
        wiki_total(ls, n) == 0,
    ensures
        forall|i: int| 0 <= i < n ==> #[trigger] wiki_out(ls, i).0 == ls[i],
    decreases n,
{
    if n > 0 {
        lemma_wiki_total_none(ls, n - 1);
        let i = n - 1;
        if is_prose(ls, i) && find(ls[i], seq!['[', '[']) is Some {
            lemma_wiki_scan_none(ls[i], blank_code(ls[i]), 0);
            assert(ls[i].subrange(0, ls[i].len() as int) =~= ls[i]);
        }
    }
}

/// Text with no wikilink to expand comes back unchanged: when expansion
/// counts no wikilink, its output is the body itself. (Stated for bodies
/// whose lines end in a bare `\n`: a `\r\n` comes back as `\n`.)
pub proof fn lemma_unexpanded_text_unchanged(body: Seq<char>)
    requires
        crate::text::no_crlf(body),
        expand_wikis(body).1 == 0,
    ensures
        expand_wikis(body).0 == body,
{
    let ls = lines(body);
    lemma_wiki_total_none(ls, ls.len() as int);
    let outs = Seq::new(ls.len(), |i: int| wiki_out(ls, i).0);
    assert(outs =~= ls) by {
        assert forall|i: int| 0 <= i < ls.len() implies outs[i] == ls[i] by {
            assert(wiki_out(ls, i).0 == ls[i]);
        }
    }
    crate::text::lemma_lines_rejoin_all(body);
}

} // verus!
