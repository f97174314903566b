//! The concept document: a `---`-delimited frontmatter block and a markdown
//! body, and the body conventions read off it (sections, links, legacy
//! citations).
//!
//! The frontmatter block is kept as its text, and read for the shape the
//! toolkit relies on: a block mapping whose top-level lines are `key: value`
//! entries. A block that is a sequence or a bare scalar is not a mapping,
//! and one whose values leave a quote or a flow bracket open is not YAML.
//! Values are read as YAML scalars: trailing comments, `~`/`null` and empty
//! quotes count as unset.
use crate::chars::{chars_of, string_of};
use crate::links::{body_links, citation_view, citations, extract_citations, extract_links, link_is, Citation, Link};
use crate::frontmatter::{entry_set, entry_set_v, starts_value, starts_value_v, values_close, values_close_v};
use crate::markdown::{eq_chars, expand_wikilinks, expand_wikis};
use crate::text::{join, join_v, lines, lines_v, starts_with, trim, trim_v, views};
use vstd::prelude::*;

verus! {

/// A parsed concept document.
#[derive(Clone, Debug)]
pub struct Document {
    /// The text between the `---` delimiters (empty when there are none).
    pub frontmatter: String,
    /// Everything after the frontmatter.
    pub body: String,
}

/// Why a text is not a concept document.
#[derive(Clone, Debug, PartialEq, Eq)]
pub enum DocumentError {
    /// The opening `---` has no matching close.
    UnterminatedFrontmatter,
    /// The frontmatter leaves a quote or a flow bracket open.
    InvalidYaml,
    /// The frontmatter is a sequence or a scalar rather than a mapping.
    FrontmatterNotMapping,
    /// Required keys that are absent, empty, or of the wrong shape.
    MissingKeys(Vec<String>),
}

// ---------------------------------------------------------------------------
// The mapping shape of a frontmatter block.
// ---------------------------------------------------------------------------

/// A line that says something: not blank and not a `#` comment.
pub open spec fn content_line(l: Seq<char>) -> bool {
    trim(l).len() > 0 && trim(l)[0] != '#'
}

/// A line at the top level of the block: not indented.
pub open spec fn top_level(l: Seq<char>) -> bool {
    l.len() > 0 && l[0] != ' ' && l[0] != '\t'
}

/// The first `:` at or after `i` that ends a key: one followed by a blank
/// or by the end of the line.
pub open spec fn key_colon(l: Seq<char>, i: int) -> Option<int>
    decreases l.len() - i,
{
    if i < 0 || i >= l.len() {
        None
    } else if l[i] == ':' && (i + 1 == l.len() || l[i + 1] == ' ' || l[i + 1] == '\t') {
        Some(i)
    } else {
        key_colon(l, i + 1)
    }
}

/// A key with one pair of matching quotes around it removed.
pub open spec fn unquoted(k: Seq<char>) -> Seq<char> {
    if k.len() >= 2 && (k[0] == '"' || k[0] == '\'') && k.last() == k[0] {
        k.subrange(1, k.len() - 1)
    } else {
        k
    }
}

/// A top-level line starts a sequence item (`-` then a blank or the end).
pub open spec fn item_line(l: Seq<char>) -> bool {
    l.len() > 0 && l[0] == '-' && (l.len() == 1 || l[1] == ' ' || l[1] == '\t')
}

/// The `(key, value text)` a top-level line holds, if it is a mapping
/// entry: the unquoted key before its colon and the trimmed text after it
/// (empty when the value is a nested block).
pub open spec fn line_entry(l: Seq<char>) -> Option<(Seq<char>, Seq<char>)> {
    if item_line(l) || (l.len() > 0 && l[0] == '[') {
        None
    } else {
        match key_colon(l, 0) {
            Some(k) => Some((unquoted(trim(l.take(k))), trim(l.skip(k + 1)))),
            None => None,
        }
    }
}

/// The top-level entries of a frontmatter block, given as its lines, in
/// order; `None` when some top-level line is not a mapping entry. Blank
/// lines, comments and indented lines (parts of nested values) are passed
/// over.
pub open spec fn fm_entries(ls: Seq<Seq<char>>) -> Option<Seq<(Seq<char>, Seq<char>)>>
    decreases ls.len(),
{
    if ls.len() == 0 {
        Some(Seq::empty())
    } else {
        match fm_entries(ls.drop_last()) {
            None => None,
            Some(es) => {
                let l = ls.last();
                if !content_line(l) || !top_level(l) {
                    Some(es)
                } else {
                    match line_entry(l) {
                        Some(e) => Some(es.push(e)),
                        None => None,
                    }
                }
            },
        }
    }
}

// ---------------------------------------------------------------------------
// Validation.
// ---------------------------------------------------------------------------

/// The first top-level line from `j` on that is an entry with key `type`.
pub open spec fn type_line(ls: Seq<Seq<char>>, j: int) -> Option<int>
    decreases ls.len() - j,
{
    if j < 0 || j >= ls.len() {
        None
    } else if starts_value(ls[j]) && (line_entry(ls[j]) matches Some(e) && e.0 == seq!['t', 'y', 'p', 'e']) {
        Some(j)
    } else {
        type_line(ls, j + 1)
    }
}

/// The frontmatter is a mapping whose first `type` entry holds a non-empty
/// scalar (see [`entry_set`]).
pub open spec fn has_type(fm: Seq<char>) -> bool {
    let ls = lines(fm);
    fm_entries(ls) is Some && match type_line(ls, 0) {
        Some(i) => entry_set(ls, i, line_entry(ls[i]).unwrap().1),
        None => false,
    }
}

pub(crate) fn key_colon_v(l: &[char]) -> (r: Option<usize>)
    ensures
        r matches Some(k) ==> key_colon(l@, 0) == Some(k as int) && k < l@.len(),
        r is None ==> key_colon(l@, 0) is None,
{
    let mut i: usize = 0;
    while i < l.len()
        invariant
            i <= l@.len(),
            key_colon(l@, 0) == key_colon(l@, i as int),
        decreases l.len() - i,
    {
        if l[i] == ':' && (i + 1 == l.len() || l[i + 1] == ' ' || l[i + 1] == '\t') {
            return Some(i);
        }
        i += 1;
    }
    None
}

fn unquoted_v(k: Vec<char>) -> (r: Vec<char>)
    ensures
        r@ == unquoted(k@),
{
    if k.len() >= 2 && (k[0] == '"' || k[0] == '\'') && k[k.len() - 1] == k[0] {
        crate::text::slice_of(k.as_slice(), 1, k.len() - 1)
    } else {
        k
    }
}

fn line_entry_v(l: &[char]) -> (r: Option<(Vec<char>, Vec<char>)>)
    ensures
        match r {
            Some((a, b)) => line_entry(l@) == Some((a@, b@)),
            None => line_entry(l@) is None,
        },
{
    if (l.len() > 0 && l[0] == '-' && (l.len() == 1 || l[1] == ' ' || l[1] == '\t')) || (l.len() > 0 && l[0] == '[') {
        return None;
    }
    match key_colon_v(l) {
        Some(k) => {
            let before = crate::text::slice_of(l, 0, k);
            let after = crate::text::slice_of(l, k + 1, l.len());
            assert(before@ =~= l@.take(k as int));
            assert(after@ =~= l@.skip(k + 1));
            let key = unquoted_v(trim_v(before.as_slice()));
            let value = trim_v(after.as_slice());
            Some((key, value))
        },
        None => None,
    }
}

/// The entries of a frontmatter block's lines (see [`fm_entries`]).
fn fm_entries_v(ls: &Vec<Vec<char>>) -> (r: Option<Vec<(Vec<char>, Vec<char>)>>)
    ensures
        match r {
            Some(v) => fm_entries(views(ls@)) == Some(v@.map_values(|e: (Vec<char>, Vec<char>)| (e.0@, e.1@))),
            None => fm_entries(views(ls@)) is None,
        },
{
    let mut out: Vec<(Vec<char>, Vec<char>)> = Vec::new();
    let mut i: usize = 0;
    while i < ls.len()
        invariant
            i <= ls@.len(),
            fm_entries(views(ls@).take(i as int)) == Some(out@.map_values(|e: (Vec<char>, Vec<char>)| (e.0@, e.1@))),
        decreases ls.len() - i,
    {
        proof {
            assert(views(ls@).take(i + 1).drop_last() =~= views(ls@).take(i as int));
            assert(views(ls@).take(i + 1).last() == ls@[i as int]@);
        }
        let l = &ls[i];
        let t = trim_v(l.as_slice());
        let content = t.len() > 0 && t[0] != '#';
        let top = l.len() > 0 && l[0] != ' ' && l[0] != '\t';
        if content && top {
            match line_entry_v(l.as_slice()) {
                Some(e) => {
                    let ghost before = out@.map_values(|e: (Vec<char>, Vec<char>)| (e.0@, e.1@));
                    let ghost ev = (e.0@, e.1@);
                    out.push(e);
                    proof {
                        assert(out@.map_values(|e: (Vec<char>, Vec<char>)| (e.0@, e.1@)) =~= before.push(ev));
                    }
                },
                None => {
                    proof {
                        lemma_fm_entries_none(views(ls@), i as int + 1);
                        assert(views(ls@).take(ls@.len() as int) =~= views(ls@));
                    }
                    return None;
                },
            }
        }
        i += 1;
    }
    proof {
        assert(views(ls@).take(i as int) =~= views(ls@));
    }
    Some(out)
}

/// Once a prefix of the lines is not a mapping, no longer one is.
pub proof fn lemma_fm_entries_none(ls: Seq<Seq<char>>, n: int)
    requires
        0 <= n <= ls.len(),
        fm_entries(ls.take(n)) is None,
    ensures
        fm_entries(ls) is None,
    decreases ls.len() - n,
{
    if n < ls.len() {
        assert(ls.take(n + 1).drop_last() =~= ls.take(n));
        lemma_fm_entries_none(ls, n + 1);
    } else {
        assert(ls.take(n) =~= ls);
    }
}

/// `---`
pub open spec fn delim() -> Seq<char> {
    seq!['-', '-', '-']
}

/// The first index at or after `i` whose line trims to `---`, if any.
pub open spec fn closing_delim(ls: Seq<Seq<char>>, i: int) -> Option<int>
    decreases ls.len() - i,
{
    if i < 0 || i >= ls.len() {
        None
    } else if trim(ls[i]) == delim() {
        Some(i)
    } else {
        closing_delim(ls, i + 1)
    }
}

/// The parse of a document text: `(frontmatter, body)`. Without a leading
/// `---` line the whole text is the body, verbatim. Otherwise the lines up
/// to the closing `---` are the frontmatter, which must be a mapping (see
/// [`fm_entries`]), and the lines after it, joined by `\n` with one leading
/// newline dropped, are the body.
pub open spec fn parsed(text: Seq<char>) -> Result<(Seq<char>, Seq<char>), DocumentError> {
    let ls = lines(text);
    if ls.len() == 0 || trim(ls[0]) != delim() {
        Ok((Seq::empty(), text))
    } else {
        match closing_delim(ls, 1) {
            None => Err(DocumentError::UnterminatedFrontmatter),
            Some(e) => {
                let fm = join(ls.subrange(1, e), seq!['\n']);
                let body = join(ls.subrange(e + 1, ls.len() as int), seq!['\n']);
                let body = if body.len() > 0 && body[0] == '\n' {
                    body.drop_first()
                } else {
                    body
                };
                if !values_close(lines(fm)) {
                    Err(DocumentError::InvalidYaml)
                } else if fm_entries(lines(fm)) is None {
                    Err(DocumentError::FrontmatterNotMapping)
                } else {
                    Ok((fm, body))
                }
            },
        }
    }
}

/// The lines of `ls` in the section `heading` (a full heading line such as
/// `# Schema`): non-blank lines after a `# ` line that trims to `heading`,
/// up to the next `# ` line; `state` says whether the walk is in the
/// section.
pub open spec fn section_from(ls: Seq<Seq<char>>, heading: Seq<char>, n: int) -> (Seq<Seq<char>>, bool)
    decreases n,
{
    if n <= 0 {
        (Seq::empty(), false)
    } else {
        let (acc, inside) = section_from(ls, heading, n - 1);
        let t = trim(ls[n - 1]);
        if starts_with(t, seq!['#', ' ']) {
            (acc, t == heading)
        } else if inside && t.len() > 0 {
            (acc.push(ls[n - 1]), inside)
        } else {
            (acc, inside)
        }
    }
}

/// A `# ` heading line (after trimming).
pub open spec fn top_heading(l: Seq<char>) -> bool {
    starts_with(trim(l), seq!['#', ' '])
}

/// The last `# ` heading line among the first `m` lines.
pub open spec fn last_heading(ls: Seq<Seq<char>>, m: int) -> Option<int>
    decreases m,
{
    if m <= 0 {
        None
    } else if top_heading(ls[m - 1]) {
        Some(m - 1)
    } else {
        last_heading(ls, m - 1)
    }
}

/// Line `m` lies under a `# ` heading that trims to `heading`, with no
/// other `# ` heading in between.
pub open spec fn under_heading(ls: Seq<Seq<char>>, heading: Seq<char>, m: int) -> bool {
    match last_heading(ls, m) {
        Some(j) => trim(ls[j]) == heading,
        None => false,
    }
}

/// Line `m` belongs to the section: a non-blank, non-heading line under the
/// heading.
pub open spec fn in_section(ls: Seq<Seq<char>>, heading: Seq<char>, m: int) -> bool {
    !top_heading(ls[m]) && trim(ls[m]).len() > 0 && under_heading(ls, heading, m)
}

/// The lines among the first `n` that belong to the section, in order.
pub open spec fn section_lines(ls: Seq<Seq<char>>, heading: Seq<char>, n: int) -> Seq<Seq<char>>
    decreases n,
{
    if n <= 0 {
        Seq::empty()
    } else if in_section(ls, heading, n - 1) {
        section_lines(ls, heading, n - 1).push(ls[n - 1])
    } else {
        section_lines(ls, heading, n - 1)
    }
}

/// A section is exactly the non-blank lines that lie under a `# ` heading
/// trimming to `heading` with no other `# ` heading in between: the next
/// `# ` heading ends the section, and a repeat of the heading opens it
/// again. After the first `n` lines the walk is inside the section exactly
/// when the last `# ` heading so far is that heading.
pub proof fn lemma_section_is_lines_under_heading(ls: Seq<Seq<char>>, heading: Seq<char>, n: int)
    requires
        0 <= n <= ls.len(),
    ensures
        section_from(ls, heading, n).0 == section_lines(ls, heading, n),
        section_from(ls, heading, n).1 == under_heading(ls, heading, n),
    decreases n,
{
    if n > 0 {
        lemma_section_is_lines_under_heading(ls, heading, n - 1);
    }
}

/// `x` is one of the first `n` lines that belong to the section.
pub open spec fn from_section(ls: Seq<Seq<char>>, heading: Seq<char>, n: int, x: Seq<char>) -> bool {
    exists|m: int| 0 <= m < n && x == ls[m] && #[trigger] in_section(ls, heading, m)
}

proof fn lemma_section_lines_sound(ls: Seq<Seq<char>>, heading: Seq<char>, n: int)
    requires
        0 <= n <= ls.len(),
    ensures
        forall|k: int| 0 <= k < section_lines(ls, heading, n).len() ==> from_section(ls, heading, n, #[trigger] section_lines(ls, heading, n)[k]),
    decreases n,
{
    if n > 0 {
        lemma_section_lines_sound(ls, heading, n - 1);
        let prev = section_lines(ls, heading, n - 1);
        let cur = section_lines(ls, heading, n);
        assert forall|k: int| 0 <= k < cur.len() implies from_section(ls, heading, n, #[trigger] cur[k]) by {
            if k < prev.len() {
                assert(cur[k] == prev[k]);
                assert(from_section(ls, heading, n - 1, prev[k]));
                let m = choose|m: int| 0 <= m < n - 1 && prev[k] == ls[m] && #[trigger] in_section(ls, heading, m);
                assert(0 <= m < n && cur[k] == ls[m] && in_section(ls, heading, m));
            } else {
                assert(in_section(ls, heading, n - 1));
                assert(cur == prev.push(ls[n - 1]));
                assert(0 <= n - 1 < n && cur[k] == ls[n - 1] && in_section(ls, heading, n - 1));
            }
        }
    }
}

/// Every line a section returns is a line of the body under the heading:
/// it stands after a `# ` line trimming to `heading`, with no other `# `
/// heading between them.
pub proof fn lemma_section_lines_lie_under_heading(ls: Seq<Seq<char>>, heading: Seq<char>, n: int)
    requires
        0 <= n <= ls.len(),
    ensures
        forall|k: int| 0 <= k < section_from(ls, heading, n).0.len() ==> from_section(ls, heading, n, #[trigger] section_from(ls, heading, n).0[k]),
{
    lemma_section_is_lines_under_heading(ls, heading, n);
    lemma_section_lines_sound(ls, heading, n);
}

fn eq_delim(t: &Vec<char>) -> (r: bool)
    ensures
        r == (t@ == delim()),
{
    let d = vec!['-', '-', '-'];
    assert(d@ =~= delim());
    crate::markdown::eq_chars(t.as_slice(), d.as_slice())
}

impl Document {
    /// A document from frontmatter text and a body.
    pub fn new(frontmatter: String, body: String) -> (r: Document)
        ensures
            r.frontmatter@ == frontmatter@,
            r.body@ == body@,
    {
        Document { frontmatter, body }
    }

    /// Parses a document text (see [`parsed`]): the only error is an opening
    /// `---` without a closing one.
    pub fn parse(text: &str) -> (r: Result<Document, DocumentError>)
        ensures
            match r {
                Ok(d) => parsed(text@) == Ok::<(Seq<char>, Seq<char>), DocumentError>((d.frontmatter@, d.body@))
                    && fm_entries(lines(d.frontmatter@)) is Some,
                Err(e) => parsed(text@) == Err::<(Seq<char>, Seq<char>), DocumentError>(e),
            },
    {
        let tv = chars_of(text);
        let ls = lines_v(tv.as_slice());
        let ghost lv = views(ls@);
        if ls.len() == 0 || !eq_delim(&trim_v(ls[0].as_slice())) {
            return Ok(Document { frontmatter: String::new(), body: string_of(tv.as_slice()) });
        }
        let mut i: usize = 1;
        while i < ls.len() && !eq_delim(&trim_v(ls[i].as_slice()))
            invariant
                1 <= i <= ls@.len(),
                lv == views(ls@),
                closing_delim(lv, 1) == closing_delim(lv, i as int),
            decreases ls.len() - i,
        {
            i += 1;
        }
        if i == ls.len() {
            return Err(DocumentError::UnterminatedFrontmatter);
        }
        let mut fm_lines: Vec<Vec<char>> = Vec::new();
        let mut k: usize = 1;
        while k < i
            invariant
                1 <= k <= i < ls@.len(),
                lv == views(ls@),
                views(fm_lines@) == lv.subrange(1, k as int),
            decreases i - k,
        {
            let ghost before = views(fm_lines@);
            fm_lines.push(ls[k].clone());
            proof {
                assert(views(fm_lines@) =~= before.push(lv[k as int]));
                assert(lv.subrange(1, k + 1) =~= lv.subrange(1, k as int).push(lv[k as int]));
            }
            k += 1;
        }
        let mut body_lines: Vec<Vec<char>> = Vec::new();
        let mut m: usize = i + 1;
        while m < ls.len()
            invariant
                i < m <= ls@.len(),
                lv == views(ls@),
                views(body_lines@) == lv.subrange(i + 1, m as int),
            decreases ls.len() - m,
        {
            let ghost before = views(body_lines@);
            body_lines.push(ls[m].clone());
            proof {
                assert(views(body_lines@) =~= before.push(lv[m as int]));
                assert(lv.subrange(i + 1, m + 1) =~= lv.subrange(i + 1, m as int).push(lv[m as int]));
            }
            m += 1;
        }
        let nl = vec!['\n'];
        assert(nl@ =~= seq!['\n']);
        let fm = join_v(&fm_lines, nl.as_slice());
        let fls = lines_v(fm.as_slice());
        if !values_close_v(&fls) {
            return Err(DocumentError::InvalidYaml);
        }
        if fm_entries_v(&fls).is_none() {
            return Err(DocumentError::FrontmatterNotMapping);
        }
        let body = join_v(&body_lines, nl.as_slice());
        let body = if body.len() > 0 && body[0] == '\n' {
            let b = crate::text::slice_of(body.as_slice(), 1, body.len());
            assert(b@ =~= body@.drop_first());
            b
        } else {
            body
        };
        Ok(Document { frontmatter: string_of(fm.as_slice()), body: string_of(body.as_slice()) })
    }

    /// The frontmatter's top-level `(key, value text)` entries, in order
    /// (see [`fm_entries`]); `None` when the block is not a mapping.
    pub fn frontmatter_entries(&self) -> (r: Option<Vec<(String, String)>>)
        ensures
            match r {
                Some(v) => fm_entries(lines(self.frontmatter@)) == Some(v@.map_values(|e: (String, String)| (e.0@, e.1@))),
                None => fm_entries(lines(self.frontmatter@)) is None,
            },
    {
        let fv = chars_of(self.frontmatter.as_str());
        let ls = lines_v(fv.as_slice());
        match fm_entries_v(&ls) {
            None => None,
            Some(es) => {
                let ghost want = es@.map_values(|e: (Vec<char>, Vec<char>)| (e.0@, e.1@));
                let mut out: Vec<(String, String)> = Vec::new();
                let mut i: usize = 0;
                while i < es.len()
                    invariant
                        i <= es@.len(),
                        want == es@.map_values(|e: (Vec<char>, Vec<char>)| (e.0@, e.1@)),
                        out@.map_values(|e: (String, String)| (e.0@, e.1@)) == want.take(i as int),
                    decreases es.len() - i,
                {
                    let ghost before = out@.map_values(|e: (String, String)| (e.0@, e.1@));
                    let k = string_of(es[i].0.as_slice());
                    let v = string_of(es[i].1.as_slice());
                    out.push((k, v));
                    proof {
                        assert(out@.map_values(|e: (String, String)| (e.0@, e.1@)) =~= before.push(want[i as int]));
                        assert(want.take(i + 1) =~= want.take(i as int).push(want[i as int]));
                    }
                    i += 1;
                }
                proof {
                    assert(want.take(i as int) =~= want);
                }
                Some(out)
            },
        }
    }

    /// Validates the document: the frontmatter must carry a non-empty
    /// `type`, and nothing else is required; every other field is a
    /// recommendation.
    pub fn validate(&self) -> (r: Result<(), DocumentError>)
        ensures
            r is Ok <==> has_type(self.frontmatter@),
            r matches Err(e) ==> e matches DocumentError::MissingKeys(ks) && ks@.len() == 1 && ks@[0]@ == seq![
                't',
                'y',
                'p',
                'e',
            ],
    {
        let ty = vec!['t', 'y', 'p', 'e'];
        assert(ty@ =~= seq!['t', 'y', 'p', 'e']);
        let fv = chars_of(self.frontmatter.as_str());
        let ls = lines_v(fv.as_slice());
        let ghost lv = views(ls@);
        let ok = if fm_entries_v(&ls).is_none() {
            false
        } else {
            let mut i: usize = 0;
            let mut found: Option<(usize, Vec<char>)> = None;
            while i < ls.len() && found.is_none()
                invariant
                    i <= ls@.len(),
                    lv == views(ls@),
                    ty@ == seq!['t', 'y', 'p', 'e'],
                    found is None ==> type_line(lv, 0) == type_line(lv, i as int),
                    found matches Some(f) ==> (f.0 < ls@.len() && type_line(lv, 0) == Some(f.0 as int)
                        && line_entry(lv[f.0 as int]) is Some && line_entry(lv[f.0 as int]).unwrap().1 == f.1@),
                decreases ls.len() - i,
            {
                proof {
                    assert(lv[i as int] == ls@[i as int]@);
                }
                if starts_value_v(ls[i].as_slice()) {
                    match line_entry_v(ls[i].as_slice()) {
                        Some((k, v)) => {
                            if eq_chars(&k, &ty) {
                                found = Some((i, v));
                            }
                        },
                        None => {},
                    }
                }
                i += 1;
            }
            match found {
                Some((j, v)) => entry_set_v(&ls, j, &v),
                None => false,
            }
        };
        if ok {
            Ok(())
        } else {
            let mut ks: Vec<String> = Vec::new();
            ks.push(string_of(&ty));
            Err(DocumentError::MissingKeys(ks))
        }
    }

    /// The non-blank lines of the body under the `# ` heading line that trims
    /// to `heading`, up to the next `# ` heading; lines keep their
    /// indentation, and a repeated heading contributes to the same result.
    pub fn section(&self, heading: &str) -> (r: Vec<String>)
        ensures
            r@.map_values(|s: String| s@) == section_from(lines(self.body@), heading@, lines(self.body@).len() as int).0,
            r@.map_values(|s: String| s@) == section_lines(lines(self.body@), heading@, lines(self.body@).len() as int),
    {
        let bv = chars_of(self.body.as_str());
        let hv = chars_of(heading);
        let ls = lines_v(bv.as_slice());
        let ghost lv = views(ls@);
        let mut out: Vec<String> = Vec::new();
        let mut inside = false;
        let mut i: usize = 0;
        let hash = vec!['#', ' '];
        assert(hash@ =~= seq!['#', ' ']);
        while i < ls.len()
            invariant
                i <= ls@.len(),
                lv == views(ls@),
                lv == lines(self.body@),
                hv@ == heading@,
                hash@ == seq!['#', ' '],
                (out@.map_values(|s: String| s@), inside) == section_from(lv, heading@, i as int),
            decreases ls.len() - i,
        {
            let t = trim_v(ls[i].as_slice());
            let ghost before = out@.map_values(|s: String| s@);
            if crate::text::starts_with_v(t.as_slice(), hash.as_slice()) {
                inside = crate::markdown::eq_chars(t.as_slice(), hv.as_slice());
            } else if inside && t.len() > 0 {
                let s = string_of(ls[i].as_slice());
                out.push(s);
                proof {
                    assert(out@.map_values(|s: String| s@) =~= before.push(lv[i as int]));
                }
            }
            i += 1;
        }
        proof {
            lemma_section_is_lines_under_heading(lv, heading@, i as int);
        }
        out
    }

    /// The body's markdown links, with `[[target]]` wikilinks expanded to
    /// standard links first, so every consumer sees one syntax.
    pub fn links(&self) -> (r: Vec<Link>)
        ensures
            r@.len() == body_links(expand_wikis(self.body@).0).len(),
            forall|k: int| 0 <= k < r@.len() ==> link_is(#[trigger] r@[k], body_links(expand_wikis(self.body@).0)[k]),
    {
        let (expanded, _n) = expand_wikilinks(self.body.as_str());
        extract_links(expanded.as_str())
    }

    /// The numbered entries of a legacy `# Citations` section.
    pub fn citations(&self) -> (r: Vec<Citation>)
        ensures
            Seq::new(r@.len(), |k: int| citation_view(r@[k])) == citations(self.body@),
    {
        extract_citations(self.body.as_str())
    }

    /// Whether the body carries a legacy `# Citations` section with entries.
    pub fn has_legacy_citations(&self) -> (r: bool)
        ensures
            r == (citations(self.body@).len() > 0),
    {
        let c = self.citations();
        assert(Seq::new(c@.len(), |k: int| citation_view(c@[k])).len() == c@.len());
        c.len() > 0
    }
}

} // verus!
