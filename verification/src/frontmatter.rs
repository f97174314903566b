//! What the toolkit reads of a frontmatter block beyond its mapping shape:
//! whether every value closes the quotes and flow brackets it opens, and
//! which plain, quoted or block scalar a key holds.
use crate::document::{content_line, item_line, key_colon, top_level};
use crate::markdown::eq_chars;
use crate::text::{slice_of, trim, trim_v, views};
use vstd::prelude::*;

verus! {

// ---------------------------------------------------------------------------
// Closing what a value opens.
// ---------------------------------------------------------------------------

/// Where a scan of a value stands after some of its characters.
#[derive(Clone, Copy, Debug, PartialEq, Eq, Structural)]
pub enum Scan {
    /// Before the value's first character.
    Start,
    /// In a plain scalar, or past a value that closed: nothing can open.
    Done,
    /// In a double-quoted scalar, inside this many flow brackets.
    Double(usize),
    /// Right after a backslash in a double-quoted scalar.
    Escape(usize),
    /// In a single-quoted scalar.
    Single(usize),
    /// Right after a `'` in a single-quoted scalar: it closes the scalar
    /// unless another `'` follows.
    SingleEnd(usize),
    /// In a flow sequence or mapping this many brackets deep; `ready` when a
    /// scalar may start here, `blank` after a blank.
    Flow(usize, bool, bool),
    /// In a comment inside a flow collection.
    Comment(usize),
}

/// The state after a quoted scalar closes inside `d` brackets.
pub open spec fn closed(d: usize) -> Scan {
    if d == 0 {
        Scan::Done
    } else {
        Scan::Flow(d, false, false)
    }
}

/// A blank: space, tab or line break.
pub open spec fn blank(c: char) -> bool {
    c == ' ' || c == '\t' || c == '\n'
}

/// One character in any state but [`Scan::SingleEnd`].
pub open spec fn step_core(s: Scan, c: char) -> Scan {
    match s {
        Scan::Start => if blank(c) {
            Scan::Start
        } else if c == '"' {
            Scan::Double(0)
        } else if c == '\'' {
            Scan::Single(0)
        } else if c == '[' || c == '{' {
            Scan::Flow(1, true, true)
        } else {
            Scan::Done
        },
        Scan::Done => Scan::Done,
        Scan::Double(d) => if c == '\\' {
            Scan::Escape(d)
        } else if c == '"' {
            closed(d)
        } else {
            Scan::Double(d)
        },
        Scan::Escape(d) => Scan::Double(d),
        Scan::Single(d) => if c == '\'' {
            Scan::SingleEnd(d)
        } else {
            Scan::Single(d)
        },
        Scan::SingleEnd(d) => Scan::SingleEnd(d),
        Scan::Flow(d, ready, was_blank) => if c == '[' || c == '{' {
            Scan::Flow((d + 1) as usize, true, true)
        } else if c == ']' || c == '}' {
            if d <= 1 {
                Scan::Done
            } else {
                Scan::Flow((d - 1) as usize, false, false)
            }
        } else if c == ',' || c == ':' {
            Scan::Flow(d, true, false)
        } else if blank(c) {
            Scan::Flow(d, ready, true)
        } else if c == '"' && ready {
            Scan::Double(d)
        } else if c == '\'' && ready {
            Scan::Single(d)
        } else if c == '#' && was_blank {
            Scan::Comment(d)
        } else {
            Scan::Flow(d, false, false)
        },
        Scan::Comment(d) => if c == '\n' {
            Scan::Flow(d, true, true)
        } else {
            Scan::Comment(d)
        },
    }
}

/// One character of a value.
pub open spec fn step(s: Scan, c: char) -> Scan {
    match s {
        Scan::SingleEnd(d) => if c == '\'' {
            Scan::Single(d)
        } else {
            step_core(closed(d), c)
        },
        _ => step_core(s, c),
    }
}

/// The scan after the first `n` characters of `v`.
pub open spec fn scan(v: Seq<char>, n: int) -> Scan
    decreases n,
{
    if n <= 0 {
        Scan::Start
    } else {
        step(scan(v, n - 1), v[n - 1])
    }
}

/// A scan left something open: a quote or a bracket.
pub open spec fn open(s: Scan) -> bool {
    match s {
        Scan::Start | Scan::Done => false,
        Scan::SingleEnd(d) => d > 0,
        _ => true,
    }
}

/// How deep a state sits in flow brackets.
pub open spec fn depth(s: Scan) -> int {
    match s {
        Scan::Start | Scan::Done => 0,
        Scan::Double(d) | Scan::Escape(d) | Scan::Single(d) | Scan::SingleEnd(d) | Scan::Comment(d) => d as int,
        Scan::Flow(d, _, _) => d as int,
    }
}

/// The value a top-level line starts: after `- ` for a sequence item, the
/// whole line for a flow collection, after the key's colon for an entry,
/// else the whole line.
pub open spec fn line_value(l: Seq<char>) -> Seq<char> {
    if item_line(l) {
        trim(l.skip(1))
    } else if l.len() > 0 && (l[0] == '[' || l[0] == '{') {
        trim(l)
    } else {
        match key_colon(l, 0) {
            Some(k) => trim(l.skip(k + 1)),
            None => trim(l),
        }
    }
}

/// A top-level line that starts a value.
pub open spec fn starts_value(l: Seq<char>) -> bool {
    content_line(l) && top_level(l)
}

/// The lines from `j` up to the next top-level line that starts a value,
/// each after a line break: where a value opened on an earlier line goes
/// on.
pub open spec fn continuation(ls: Seq<Seq<char>>, j: int) -> Seq<char>
    decreases ls.len() - j,
{
    if j < 0 || j >= ls.len() || starts_value(ls[j]) {
        Seq::empty()
    } else {
        seq!['\n'] + ls[j] + continuation(ls, j + 1)
    }
}

/// The text of the value started on line `i`, with its continuation lines.
pub open spec fn region(ls: Seq<Seq<char>>, i: int) -> Seq<char> {
    line_value(ls[i]) + continuation(ls, i + 1)
}

/// Every value started on a top-level line closes the quotes and flow
/// brackets it opens before the next top-level value starts.
pub open spec fn values_close(ls: Seq<Seq<char>>) -> bool {
    forall|i: int| 0 <= i < ls.len() && #[trigger] starts_value(ls[i]) ==> !open(scan(region(ls, i), region(ls, i).len() as int))
}

fn step_v(s: Scan, c: char) -> (r: Scan)
    requires
        depth(s) < usize::MAX,
    ensures
        r == step(s, c),
        depth(r) <= depth(s) + 1,
{
    let s2 = match s {
        Scan::SingleEnd(d) => {
            if c == '\'' {
                return Scan::Single(d);
            }
            if d == 0 {
                Scan::Done
            } else {
                Scan::Flow(d, false, false)
            }
        },
        _ => s,
    };
    let bl = c == ' ' || c == '\t' || c == '\n';
    match s2 {
        Scan::Start => if bl {
            Scan::Start
        } else if c == '"' {
            Scan::Double(0)
        } else if c == '\'' {
            Scan::Single(0)
        } else if c == '[' || c == '{' {
            Scan::Flow(1, true, true)
        } else {
            Scan::Done
        },
        Scan::Done => Scan::Done,
        Scan::Double(d) => if c == '\\' {
            Scan::Escape(d)
        } else if c == '"' {
            if d == 0 {
                Scan::Done
            } else {
                Scan::Flow(d, false, false)
            }
        } else {
            Scan::Double(d)
        },
        Scan::Escape(d) => Scan::Double(d),
        Scan::Single(d) => if c == '\'' {
            Scan::SingleEnd(d)
        } else {
            Scan::Single(d)
        },
        Scan::SingleEnd(d) => Scan::SingleEnd(d),
        Scan::Flow(d, ready, was_blank) => if c == '[' || c == '{' {
            Scan::Flow(d + 1, true, true)
        } else if c == ']' || c == '}' {
            if d <= 1 {
                Scan::Done
            } else {
                Scan::Flow(d - 1, false, false)
            }
        } else if c == ',' || c == ':' {
            Scan::Flow(d, true, false)
        } else if bl {
            Scan::Flow(d, ready, true)
        } else if c == '"' && ready {
            Scan::Double(d)
        } else if c == '\'' && ready {
            Scan::Single(d)
        } else if c == '#' && was_blank {
            Scan::Comment(d)
        } else {
            Scan::Flow(d, false, false)
        },
        Scan::Comment(d) => if c == '\n' {
            Scan::Flow(d, true, true)
        } else {
            Scan::Comment(d)
        },
    }
}

/// Whether a value text leaves a quote or bracket open.
fn leaves_open(v: &[char]) -> (r: bool)
    ensures
        r == open(scan(v@, v@.len() as int)),
{
    let mut s = Scan::Start;
    let mut i: usize = 0;
    while i < v.len()
        invariant
            i <= v@.len(),
            s == scan(v@, i as int),
            depth(s) <= i,
        decreases v.len() - i,
    {
        s = step_v(s, v[i]);
        i += 1;
    }
    match s {
        Scan::Start | Scan::Done => false,
        Scan::SingleEnd(d) => d > 0,
        _ => true,
    }
}

pub(crate) fn starts_value_v(l: &[char]) -> (r: bool)
    ensures
        r == starts_value(l@),
{
    let t = trim_v(l);
    t.len() > 0 && t[0] != '#' && l.len() > 0 && l[0] != ' ' && l[0] != '\t'
}

fn line_value_v(l: &[char]) -> (r: Vec<char>)
    ensures
        r@ == line_value(l@),
{
    if l.len() > 0 && l[0] == '-' && (l.len() == 1 || l[1] == ' ' || l[1] == '\t') {
        let rest = slice_of(l, 1, l.len());
        assert(rest@ =~= l@.skip(1));
        return trim_v(&rest);
    }
    if l.len() > 0 && (l[0] == '[' || l[0] == '{') {
        return trim_v(l);
    }
    match crate::document::key_colon_v(l) {
        Some(k) => {
            let rest = slice_of(l, k + 1, l.len());
            assert(rest@ =~= l@.skip(k + 1));
            trim_v(&rest)
        },
        None => trim_v(l),
    }
}

/// The value started on line `i` with its continuation lines.
fn region_v(ls: &Vec<Vec<char>>, i: usize) -> (r: Vec<char>)
    requires
        i < ls@.len(),
    ensures
        r@ == region(views(ls@), i as int),
{
    let ghost lv = views(ls@);
    let n = ls.len();
    let mut out = line_value_v(ls[i].as_slice());
    let ghost head = out@;
    let mut j: usize = i + 1;
    proof {
        assert(lv[i as int] == ls@[i as int]@);
    }
    while j < ls.len() && !starts_value_v(ls[j].as_slice())
        invariant
            i < j <= ls@.len(),
            lv == views(ls@),
            head == line_value(lv[i as int]),
            out@ + continuation(lv, j as int) == region(lv, i as int),
        decreases ls.len() - j,
    {
        proof {
            assert(lv[j as int] == ls@[j as int]@);
            assert(continuation(lv, j as int) == seq!['\n'] + lv[j as int] + continuation(lv, j + 1));
        }
        let ghost before = out@;
        out.push('\n');
        crate::text::push_all(&mut out, ls[j].as_slice());
        proof {
            assert(before + continuation(lv, j as int) =~= out@ + continuation(lv, j + 1));
        }
        j += 1;
    }
    proof {
        if j < ls.len() {
            assert(lv[j as int] == ls@[j as int]@);
        }
        assert(continuation(lv, j as int) == Seq::<char>::empty());
        assert(out@ + Seq::<char>::empty() =~= out@);
    }
    out
}

/// Whether every top-level value closes what it opens (see
/// [`values_close`]).
pub fn values_close_v(ls: &Vec<Vec<char>>) -> (r: bool)
    ensures
        r == values_close(views(ls@)),
{
    let ghost lv = views(ls@);
    let mut i: usize = 0;
    while i < ls.len()
        invariant
            i <= ls@.len(),
            lv == views(ls@),
            forall|k: int| 0 <= k < i && #[trigger] starts_value(lv[k]) ==> !open(scan(region(lv, k), region(lv, k).len() as int)),
        decreases ls.len() - i,
    {
        proof {
            assert(lv[i as int] == ls@[i as int]@);
        }
        if starts_value_v(ls[i].as_slice()) {
            let r = region_v(ls, i);
            if leaves_open(&r) {
                return false;
            }
        }
        i += 1;
    }
    true
}

// ---------------------------------------------------------------------------
// Reading a scalar.
// ---------------------------------------------------------------------------

/// The first `#` at or after `i` that starts a comment: at the start of the
/// text or after a blank; the text's length when there is none.
pub open spec fn comment_at(v: Seq<char>, i: int) -> int
    decreases v.len() - i,
{
    if i < 0 || i >= v.len() {
        v.len() as int
    } else if v[i] == '#' && (i == 0 || v[i - 1] == ' ' || v[i - 1] == '\t') {
        i
    } else {
        comment_at(v, i + 1)
    }
}

/// A value text without its comment, trimmed.
pub open spec fn uncommented(v: Seq<char>) -> Seq<char> {
    trim(v.take(comment_at(v, 0)))
}

/// The plain scalars that read as null.
pub open spec fn null_word(p: Seq<char>) -> bool {
    p == seq!['~'] || p == seq!['n', 'u', 'l', 'l'] || p == seq!['N', 'u', 'l', 'l'] || p == seq!['N', 'U', 'L', 'L']
}

/// A scalar text (starting at its first character) that reads as a
/// non-empty string, number or boolean: a quoted scalar that is not empty,
/// or a plain scalar that is not null; a flow collection, a comment or
/// nothing at all is not one.
pub open spec fn scalar_set(t: Seq<char>) -> bool {
    if t.len() == 0 {
        false
    } else if t[0] == '"' {
        !(t.len() >= 2 && t[1] == '"')
    } else if t[0] == '\'' {
        !(t.len() >= 2 && t[1] == '\'' && (t.len() == 2 || t[2] != '\''))
    } else if t[0] == '[' || t[0] == '{' || t[0] == '#' {
        false
    } else {
        let p = uncommented(t);
        p.len() > 0 && !null_word(p)
    }
}

/// Some line from `j` on, before the next non-indented line, holds text:
/// a block scalar (`|` or `>`) there is not empty.
pub open spec fn block_content(ls: Seq<Seq<char>>, j: int) -> bool
    decreases ls.len() - j,
{
    if j < 0 || j >= ls.len() || top_level(ls[j]) {
        false
    } else if trim(ls[j]).len() > 0 {
        true
    } else {
        block_content(ls, j + 1)
    }
}

/// The first line from `j` on that holds something other than a comment.
pub open spec fn next_content(ls: Seq<Seq<char>>, j: int) -> Option<int>
    decreases ls.len() - j,
{
    if j < 0 || j >= ls.len() {
        None
    } else if content_line(ls[j]) {
        Some(j)
    } else {
        next_content(ls, j + 1)
    }
}

/// The value of the entry on top-level line `i` (whose inline value text is
/// `v`) is a non-empty scalar: inline, as a block scalar, or on the next
/// indented line when nothing follows the colon; a nested sequence or
/// mapping is not a scalar.
pub open spec fn entry_set(ls: Seq<Seq<char>>, i: int, v: Seq<char>) -> bool {
    if v.len() > 0 && v[0] != '#' {
        if v[0] == '|' || v[0] == '>' {
            block_content(ls, i + 1)
        } else {
            scalar_set(v)
        }
    } else {
        match next_content(ls, i + 1) {
            None => false,
            Some(j) => {
                let t = trim(ls[j]);
                !top_level(ls[j]) && !item_line(t) && key_colon(t, 0) is None && scalar_set(t)
            },
        }
    }
}

fn comment_at_v(v: &[char]) -> (r: usize)
    ensures
        r == comment_at(v@, 0),
        r <= v@.len(),
{
    let mut i: usize = 0;
    while i < v.len()
        invariant
            i <= v@.len(),
            comment_at(v@, 0) == comment_at(v@, i as int),
        decreases v.len() - i,
    {
        if v[i] == '#' && (i == 0 || v[i - 1] == ' ' || v[i - 1] == '\t') {
            return i;
        }
        i += 1;
    }
    i
}

fn null_word_v(p: &[char]) -> (r: bool)
    ensures
        r == null_word(p@),
{
    let a = vec!['~'];
    let b = vec!['n', 'u', 'l', 'l'];
    let c = vec!['N', 'u', 'l', 'l'];
    let d = vec!['N', 'U', 'L', 'L'];
    assert(a@ =~= seq!['~']);
    assert(b@ =~= seq!['n', 'u', 'l', 'l']);
    assert(c@ =~= seq!['N', 'u', 'l', 'l']);
    assert(d@ =~= seq!['N', 'U', 'L', 'L']);
    eq_chars(p, &a) || eq_chars(p, &b) || eq_chars(p, &c) || eq_chars(p, &d)
}

fn scalar_set_v(t: &[char]) -> (r: bool)
    ensures
        r == scalar_set(t@),
{
    if t.len() == 0 {
        false
    } else if t[0] == '"' {
        !(t.len() >= 2 && t[1] == '"')
    } else if t[0] == '\'' {
        !(t.len() >= 2 && t[1] == '\'' && (t.len() == 2 || t[2] != '\''))
    } else if t[0] == '[' || t[0] == '{' || t[0] == '#' {
        false
    } else {
        let k = comment_at_v(t);
        let head = slice_of(t, 0, k);
        assert(head@ =~= t@.take(k as int));
        let p = trim_v(&head);
        p.len() > 0 && !null_word_v(&p)
    }
}

fn block_content_v(ls: &Vec<Vec<char>>, j: usize) -> (r: bool)
    ensures
        r == block_content(views(ls@), j as int),
{
    let ghost lv = views(ls@);
    let mut k: usize = j;
    while k < ls.len()
        invariant
            j <= k,
            lv == views(ls@),
            block_content(lv, j as int) == block_content(lv, k as int),
        decreases ls.len() - k,
    {
        proof {
            assert(lv[k as int] == ls@[k as int]@);
        }
        let l = &ls[k];
        if l.len() > 0 && l[0] != ' ' && l[0] != '\t' {
            return false;
        }
        let t = trim_v(l.as_slice());
        if t.len() > 0 {
            return true;
        }
        k += 1;
    }
    false
}

fn next_content_v(ls: &Vec<Vec<char>>, j: usize) -> (r: Option<usize>)
    ensures
        match r {
            Some(k) => k < ls@.len() && next_content(views(ls@), j as int) == Some(k as int),
            None => next_content(views(ls@), j as int) is None,
        },
{
    let ghost lv = views(ls@);
    let mut k: usize = j;
    while k < ls.len()
        invariant
            j <= k,
            lv == views(ls@),
            next_content(lv, j as int) == next_content(lv, k as int),
        decreases ls.len() - k,
    {
        proof {
            assert(lv[k as int] == ls@[k as int]@);
        }
        let t = trim_v(ls[k].as_slice());
        if t.len() > 0 && t[0] != '#' {
            return Some(k);
        }
        k += 1;
    }
    None
}

/// Whether the entry on top-level line `i`, with inline value text `v`,
/// holds a non-empty scalar (see [`entry_set`]).
pub fn entry_set_v(ls: &Vec<Vec<char>>, i: usize, v: &[char]) -> (r: bool)
    requires
        i < ls@.len(),
    ensures
        r == entry_set(views(ls@), i as int, v@),
{
    let n = ls.len();
    if v.len() > 0 && v[0] != '#' {
        if v[0] == '|' || v[0] == '>' {
            block_content_v(ls, i + 1)
        } else {
            scalar_set_v(v)
        }
    } else {
        match next_content_v(ls, i + 1) {
            None => false,
            Some(j) => {
                proof {
                    assert(views(ls@)[j as int] == ls@[j as int]@);
                }
                let l = &ls[j];
                let t = trim_v(l.as_slice());
                let top = l.len() > 0 && l[0] != ' ' && l[0] != '\t';
                let item = t.len() > 0 && t[0] == '-' && (t.len() == 1 || t[1] == ' ' || t[1] == '\t');
                !top && !item && crate::document::key_colon_v(&t).is_none() && scalar_set_v(&t)
            },
        }
    }
}

} // verus!
