//! The command line's arguments (the parser itself lives with the binary),
//! its exit codes, and the text clean-up it prints diagnostics through.
//!
//! Paths are held as text and `--today` as its raw `YYYY-MM-DD` text.
use crate::chars::{chars_of, is_ascii_digit, is_ws, string_of, whitespace};
use crate::text::trim_end;
use vstd::prelude::*;

verus! {

/// `EX_USAGE`: a bad command line.
pub const EX_USAGE: u8 = 2;

/// `EX_DATAERR`: incorrect input data.
pub const EX_DATAERR: u8 = 65;

/// `EX_NOINPUT`: an input that could not be opened.
pub const EX_NOINPUT: u8 = 66;

/// A command-line error paired with the exit code it should produce.
#[derive(Clone, Debug)]
pub struct CliError {
    pub message: String,
    pub code: u8,
}

/// `Broken pipe`
pub open spec fn broken_pipe_text() -> Seq<char> {
    seq!['B', 'r', 'o', 'k', 'e', 'n', ' ', 'p', 'i', 'p', 'e']
}

/// `os error 32`
pub open spec fn os_error_32_text() -> Seq<char> {
    seq!['o', 's', ' ', 'e', 'r', 'r', 'o', 'r', ' ', '3', '2']
}

impl CliError {
    /// An incorrect-input-data error.
    pub fn data(message: String) -> (r: CliError)
        ensures
            r.message@ == message@,
            r.code == EX_DATAERR,
    {
        CliError { message, code: EX_DATAERR }
    }

    /// An input-could-not-be-opened error.
    pub fn no_input(message: String) -> (r: CliError)
        ensures
            r.message@ == message@,
            r.code == EX_NOINPUT,
    {
        CliError { message, code: EX_NOINPUT }
    }

    /// Whether the error is a closed output pipe, which exits quietly.
    pub fn is_broken_pipe(&self) -> (r: bool)
        ensures
            r == (crate::text::find(self.message@, broken_pipe_text()) is Some || crate::text::find(
                self.message@,
                os_error_32_text(),
            ) is Some),
    {
        let m = chars_of(self.message.as_str());
        let a = vec!['B', 'r', 'o', 'k', 'e', 'n', ' ', 'p', 'i', 'p', 'e'];
        let b = vec!['o', 's', ' ', 'e', 'r', 'r', 'o', 'r', ' ', '3', '2'];
        assert(a@ =~= broken_pipe_text());
        assert(b@ =~= os_error_32_text());
        crate::text::find_v(m.as_slice(), a.as_slice()).is_some() || crate::text::find_v(
            m.as_slice(),
            b.as_slice(),
        ).is_some()
    }
}

/// A panic message that means output went to a closed pipe
/// (`okf ... | head`): the process then exits quietly.
pub open spec fn closed_pipe_message(msg: Seq<char>) -> bool {
    ||| crate::text::find(msg, "Broken pipe"@) is Some
    ||| crate::text::find(msg, "failed printing to stdout"@) is Some
    ||| crate::text::find(msg, "failed printing to stderr"@) is Some
    ||| crate::text::find(msg, "os error 32"@) is Some
    ||| crate::text::find(msg, "os error 109"@) is Some
    ||| crate::text::find(msg, "os error 232"@) is Some
}

fn holds_text(m: &[char], p: &str) -> (r: bool)
    ensures
        r == (crate::text::find(m@, p@) is Some),
{
    let pv = chars_of(p);
    crate::text::find_v(m, pv.as_slice()).is_some()
}

/// Whether a panic message means output went to a closed pipe.
pub fn is_closed_pipe_panic(msg: &str) -> (r: bool)
    ensures
        r == closed_pipe_message(msg@),
{
    let m = chars_of(msg);
    holds_text(m.as_slice(), "Broken pipe") || holds_text(m.as_slice(), "failed printing to stdout")
        || holds_text(m.as_slice(), "failed printing to stderr") || holds_text(m.as_slice(), "os error 32")
        || holds_text(m.as_slice(), "os error 109") || holds_text(m.as_slice(), "os error 232")
}

// ---------------------------------------------------------------------------
// Section references: `§4`, `§4.2.1`, and groups such as `(§4, §5 to §6)`.
// ---------------------------------------------------------------------------

/// The end of the digits run starting at `i`.
pub open spec fn digits_end(s: Seq<char>, i: int) -> int
    decreases s.len() - i,
{
    if i < 0 || i >= s.len() || !is_ascii_digit(s[i]) {
        i
    } else {
        digits_end(s, i + 1)
    }
}

pub proof fn lemma_digits_end(s: Seq<char>, i: int)
    requires
        0 <= i <= s.len(),
    ensures
        i <= digits_end(s, i) <= s.len(),
    decreases s.len() - i,
{
    if i < s.len() && is_ascii_digit(s[i]) {
        lemma_digits_end(s, i + 1);
    }
}

/// After a reference's first number, at `i`: zero or more `.digits` parts;
/// `None` when a `.` is not followed by a digit.
pub open spec fn decimals_end(s: Seq<char>, i: int) -> Option<int>
    decreases s.len() - i,
{
    if i < 0 || i >= s.len() || s[i] != '.' {
        Some(i)
    } else {
        let e = digits_end(s, i + 1);
        proof {
            lemma_digits_end(s, i + 1);
        }
        if e == i + 1 {
            None
        } else {
            decimals_end(s, e)
        }
    }
}

/// The end of a section reference `§n(.n)*` starting at `start`, if one
/// starts there.
pub open spec fn section_ref_end(s: Seq<char>, start: int) -> Option<int> {
    if start < 0 || start >= s.len() || s[start] != '§' {
        None
    } else {
        let e = digits_end(s, start + 1);
        if e == start + 1 {
            None
        } else {
            decimals_end(s, e)
        }
    }
}

pub proof fn lemma_decimals_end(s: Seq<char>, i: int)
    requires
        0 <= i <= s.len(),
    ensures
        decimals_end(s, i) matches Some(e) ==> i <= e <= s.len(),
    decreases s.len() - i,
{
    if i < s.len() && s[i] == '.' {
        lemma_digits_end(s, i + 1);
        let e = digits_end(s, i + 1);
        if e != i + 1 {
            lemma_decimals_end(s, e);
        }
    }
}

pub proof fn lemma_section_ref_end(s: Seq<char>, start: int)
    requires
        0 <= start <= s.len(),
    ensures
        section_ref_end(s, start) matches Some(e) ==> start < e <= s.len(),
{
    if start < s.len() && s[start] == '§' {
        lemma_digits_end(s, start + 1);
        let e = digits_end(s, start + 1);
        if e != start + 1 {
            lemma_decimals_end(s, e);
        }
    }
}

fn digits_end_v(s: &[char], i: usize) -> (r: usize)
    requires
        i <= s@.len(),
    ensures
        r == digits_end(s@, i as int),
        i <= r <= s@.len(),
{
    let mut j = i;
    while j < s.len() && crate::chars::ascii_digit(s[j])
        invariant
            i <= j <= s@.len(),
            digits_end(s@, i as int) == digits_end(s@, j as int),
        decreases s.len() - j,
    {
        j += 1;
    }
    j
}

/// The end of the section reference starting at `start`, if one does.
pub fn section_reference_end(chars: &[char], start: usize) -> (r: Option<usize>)
    ensures
        r matches Some(e) ==> section_ref_end(chars@, start as int) == Some(e as int),
        r is None ==> section_ref_end(chars@, start as int) is None,
{
    if start >= chars.len() || chars[start] != '§' {
        return None;
    }
    let mut i = digits_end_v(chars, start + 1);
    if i == start + 1 {
        return None;
    }
    while i < chars.len() && chars[i] == '.'
        invariant
            start < i <= chars@.len(),
            section_ref_end(chars@, start as int) == decimals_end(chars@, i as int),
        decreases chars.len() - i,
    {
        let e = digits_end_v(chars, i + 1);
        if e == i + 1 {
            return None;
        }
        i = e;
    }
    Some(i)
}

/// The end of the whitespace run starting at `i`.
pub open spec fn ws_end(s: Seq<char>, i: int) -> int
    decreases s.len() - i,
{
    if i < 0 || i >= s.len() || !is_ws(s[i]) {
        i
    } else {
        ws_end(s, i + 1)
    }
}

pub proof fn lemma_ws_end(s: Seq<char>, i: int)
    requires
        0 <= i <= s.len(),
    ensures
        i <= ws_end(s, i) <= s.len(),
    decreases s.len() - i,
{
    if i < s.len() && is_ws(s[i]) {
        lemma_ws_end(s, i + 1);
    }
}

/// Whether `s[i..]` is a run of section references separated by `,` or
/// `to` (whitespace allowed around each).
pub open spec fn group_from(s: Seq<char>, i: int) -> bool
    decreases s.len() - i,
{
    if i < 0 || i > s.len() {
        false
    } else {
        let a = ws_end(s, i);
        proof {
            lemma_ws_end(s, i);
            lemma_section_ref_end(s, a);
        }
        match section_ref_end(s, a) {
            None => false,
            Some(e) => {
                let b = ws_end(s, e);
                proof {
                    lemma_ws_end(s, e);
                }
                if b == s.len() {
                    true
                } else if s[b] == ',' {
                    group_from(s, b + 1)
                } else if b + 2 <= s.len() && s[b] == 't' && s[b + 1] == 'o' {
                    group_from(s, b + 2)
                } else {
                    false
                }
            },
        }
    }
}

fn ws_end_v(s: &[char], i: usize) -> (r: usize)
    requires
        i <= s@.len(),
    ensures
        r == ws_end(s@, i as int),
        i <= r <= s@.len(),
{
    let mut j = i;
    while j < s.len() && whitespace(s[j])
        invariant
            i <= j <= s@.len(),
            ws_end(s@, i as int) == ws_end(s@, j as int),
        decreases s.len() - j,
    {
        j += 1;
    }
    j
}

/// Whether the text between parentheses is nothing but section references
/// joined by `,` or `to`.
pub fn is_section_group(chars: &[char]) -> (r: bool)
    ensures
        r == group_from(chars@, 0),
{
    let mut i: usize = 0;
    loop
        invariant
            i <= chars@.len(),
            group_from(chars@, 0) == group_from(chars@, i as int),
        decreases chars@.len() - i,
    {
        let a = ws_end_v(chars, i);
        let e = match section_reference_end(chars, a) {
            Some(e) => e,
            None => {
                return false;
            },
        };
        proof {
            lemma_section_ref_end(chars@, a as int);
        }
        let b = ws_end_v(chars, e);
        if b == chars.len() {
            return true;
        }
        if chars[b] == ',' {
            i = b + 1;
            continue;
        }
        if b + 1 < chars.len() && chars[b] == 't' && chars[b + 1] == 'o' {
            i = b + 2;
            continue;
        }
        return false;
    }
}

/// The first `)` at or after `i`, if any.
pub open spec fn close_paren(s: Seq<char>, i: int) -> Option<int>
    decreases s.len() - i,
{
    if i < 0 || i >= s.len() {
        None
    } else if s[i] == ')' {
        Some(i)
    } else {
        close_paren(s, i + 1)
    }
}

pub proof fn lemma_close_paren(s: Seq<char>, i: int)
    requires
        0 <= i <= s.len(),
    ensures
        close_paren(s, i) matches Some(e) ==> i <= e < s.len(),
    decreases s.len() - i,
{
    if i < s.len() && s[i] != ')' {
        lemma_close_paren(s, i + 1);
    }
}

/// The text left after dropping a trailing space from `out`, when it has
/// one.
pub open spec fn drop_space(out: Seq<char>) -> Seq<char> {
    if out.len() > 0 && out.last() == ' ' {
        out.drop_last()
    } else {
        out
    }
}

/// The scan of `strip_spec_references` from `i` with output so far `out`:
/// a parenthesized group of references is dropped (with one space before
/// it), a bare reference is dropped (with one whitespace after it when the
/// output ends in a space), and every other char is kept.
pub open spec fn strip_scan(s: Seq<char>, i: int, out: Seq<char>) -> Seq<char>
    decreases s.len() - i,
{
    if i < 0 || i >= s.len() {
        out
    } else {
        let paren = if s[i] == '(' {
            match close_paren(s, i + 1) {
                Some(end) => if group_from(s.subrange(i + 1, end), 0) {
                    Some(end)
                } else {
                    None
                },
                None => None,
            }
        } else {
            None
        };
        match paren {
            Some(end) => {
                proof {
                    lemma_close_paren(s, i + 1);
                }
                strip_scan(s, end + 1, drop_space(out))
            },
            None => match section_ref_end(s, i) {
                Some(e) => {
                    proof {
                        lemma_section_ref_end(s, i);
                    }
                    if e < s.len() && is_ws(s[e]) && out.len() > 0 && out.last() == ' ' {
                        strip_scan(s, e + 1, out)
                    } else {
                        strip_scan(s, e, out)
                    }
                },
                None => strip_scan(s, i + 1, out.push(s[i])),
            },
        }
    }
}

/// CLI text without section citations such as `(§4.2)` or `§5`, trailing
/// whitespace trimmed.
pub open spec fn stripped_text(s: Seq<char>) -> Seq<char> {
    trim_end(strip_scan(s, 0, Seq::empty()))
}

/// Removes section citations from CLI text while keeping the surrounding
/// explanation.
pub fn strip_spec_references(text: &str) -> (r: String)
    ensures
        r@ == stripped_text(text@),
{
    let chars = chars_of(text);
    let mut out: Vec<char> = Vec::new();
    let mut i: usize = 0;
    while i < chars.len()
        invariant
            i <= chars@.len(),
            strip_scan(chars@, 0, Seq::empty()) == strip_scan(chars@, i as int, out@),
        decreases chars@.len() - i,
    {
        if chars[i] == '(' {
            let close = crate::text::next_char_v(chars.as_slice(), ')', i + 1);
            proof {
                lemma_close_paren_next(chars@, i + 1);
            }
            if close < chars.len() {
                let inner = crate::text::slice_of(chars.as_slice(), i + 1, close);
                if is_section_group(inner.as_slice()) {
                    let ghost prev = out@;
                    if out.len() > 0 && out[out.len() - 1] == ' ' {
                        out.pop();
                        proof {
                            assert(out@ =~= prev.drop_last());
                        }
                    }
                    assert(out@ == drop_space(prev));
                    i = close + 1;
                    continue;
                }
            }
        }
        match section_reference_end(chars.as_slice(), i) {
            Some(end) => {
                proof {
                    lemma_section_ref_end(chars@, i as int);
                }
                i = end;
                if i < chars.len() && whitespace(chars[i]) && out.len() > 0 && out[out.len() - 1] == ' ' {
                    i += 1;
                }
                continue;
            },
            None => {},
        }
        out.push(chars[i]);
        i += 1;
    }
    let t = crate::text::trim_end_v(out.as_slice());
    string_of(t.as_slice())
}

pub proof fn lemma_close_paren_next(s: Seq<char>, i: int)
    requires
        0 <= i <= s.len(),
    ensures
        crate::text::next_char(s, ')', i) < s.len() ==> close_paren(s, i) == Some(crate::text::next_char(s, ')', i)),
        crate::text::next_char(s, ')', i) >= s.len() ==> close_paren(s, i) is None,
    decreases s.len() - i,
{
    if i < s.len() && s[i] != ')' {
        lemma_close_paren_next(s, i + 1);
    }
}

// ---------------------------------------------------------------------------
// Arguments.
// ---------------------------------------------------------------------------

/// The parsed command line.
#[derive(Clone, Debug)]
pub struct Cli {
    pub command: Commands,
}

/// The subcommands.
#[derive(Clone, Debug)]
pub enum Commands {
    Init(InitArgs),
    New(NewArgs),
    Mv(MvArgs),
    Rm(RmArgs),
    Split(SplitArgs),
    Merge(MergeArgs),
    Validate(ValidateArgs),
    Lint(LintArgs),
    Fmt(FmtArgs),
    Info(InfoArgs),
    Trust(TrustArgs),
    Links(LinksArgs),
    Graph(GraphArgs),
    Computations(ComputationsArgs),
    Diff(DiffArgs),
    Index(IndexArgs),
    Search(SearchArgs),
    Parse(ParseArgs),
    Studio(StudioArgs),
    Site(SiteArgs),
}

/// `okf init`: initialize a new bundle.
#[derive(Clone, Debug)]
pub struct InitArgs {
    pub dir: String,
    pub title: String,
    pub bare: bool,
    pub sample_name: String,
    pub author: Option<String>,
    pub force: bool,
    pub json: bool,
    pub format: Option<String>,
}

/// `okf new`: create a concept document.
#[derive(Clone, Debug)]
pub struct NewArgs {
    pub path: Vec<String>,
    pub bundle: Option<String>,
    pub type_: String,
    pub title: Option<String>,
    pub description: Option<String>,
    pub author: Option<String>,
    pub status: String,
    pub attested: bool,
    pub force: bool,
    pub json: bool,
    pub format: Option<String>,
}

/// `okf validate`: conformance check.
#[derive(Clone, Debug)]
pub struct ValidateArgs {
    pub bundle: String,
    pub fix: bool,
    pub author: Option<String>,
    pub today: Option<String>,
    pub json: bool,
    pub format: Option<String>,
}

/// `okf info`: bundle summary.
#[derive(Clone, Debug)]
pub struct InfoArgs {
    pub bundle: String,
    pub today: Option<String>,
    pub json: bool,
    pub format: Option<String>,
}

/// `okf trust`: trust tiers, status, staleness.
#[derive(Clone, Debug)]
pub struct TrustArgs {
    pub bundle: String,
    pub today: Option<String>,
    pub json: bool,
    pub format: Option<String>,
}

/// `okf links`: cross-link inspection.
#[derive(Clone, Debug)]
pub struct LinksArgs {
    pub bundle: String,
    pub broken: bool,
    pub check: bool,
    pub all: bool,
    pub json: bool,
    pub format: Option<String>,
}

/// `okf search`: metadata and body search.
#[derive(Clone, Debug)]
pub struct SearchArgs {
    pub query: Vec<String>,
    pub bundle: String,
    pub today: Option<String>,
    pub limit: usize,
    pub json: bool,
    pub format: Option<String>,
}

/// `okf computations`: Attested Computation contracts.
#[derive(Clone, Debug)]
pub struct ComputationsArgs {
    pub bundle: String,
    pub json: bool,
    pub format: Option<String>,
}

/// `okf index`: directory indexes.
#[derive(Clone, Debug)]
pub struct IndexArgs {
    pub bundle: String,
    pub json: bool,
    pub format: Option<String>,
}

/// `okf graph`: the cross-link graph.
#[derive(Clone, Debug)]
pub struct GraphArgs {
    pub bundle: String,
    pub format: String,
    pub sources: bool,
    pub json: bool,
}

/// `okf parse`: one document's structure.
#[derive(Clone, Debug)]
pub struct ParseArgs {
    pub file: String,
    pub today: Option<String>,
    pub json: bool,
    pub format: Option<String>,
}

/// `okf fmt`: normalize documents.
#[derive(Clone, Debug)]
pub struct FmtArgs {
    pub path: String,
    pub write: bool,
    pub check: bool,
    pub json: bool,
    pub format: Option<String>,
}

/// `okf lint`: bundle health checks.
#[derive(Clone, Debug)]
pub struct LintArgs {
    pub bundle: String,
    pub fix: bool,
    pub author: Option<String>,
    pub today: Option<String>,
    pub json: bool,
    pub format: Option<String>,
}

/// `okf diff`: semantic diff of two bundles.
#[derive(Clone, Debug)]
pub struct DiffArgs {
    pub a: String,
    pub b: String,
    pub json: bool,
    pub format: Option<String>,
}

/// `okf mv`: move or rename a concept.
#[derive(Clone, Debug)]
pub struct MvArgs {
    pub source: String,
    pub target: String,
    pub bundle: String,
    pub dry_run: bool,
    pub force: bool,
    pub no_index: bool,
    pub no_log: bool,
    pub author: Option<String>,
    pub json: bool,
    pub format: Option<String>,
}

/// `okf rm`: remove a concept.
#[derive(Clone, Debug)]
pub struct RmArgs {
    pub target: String,
    pub bundle: String,
    pub redirect_to: Option<String>,
    pub unlink: bool,
    pub force: bool,
    pub dry_run: bool,
    pub no_index: bool,
    pub no_log: bool,
    pub author: Option<String>,
    pub json: bool,
    pub format: Option<String>,
}

/// `okf split`: extract a section into a new concept.
#[derive(Clone, Debug)]
pub struct SplitArgs {
    pub source: String,
    pub target: String,
    pub section: String,
    pub title: Option<String>,
    pub type_: String,
    pub link_text: Option<String>,
    pub bundle: String,
    pub force: bool,
    pub dry_run: bool,
    pub no_index: bool,
    pub no_log: bool,
    pub author: Option<String>,
    pub json: bool,
    pub format: Option<String>,
}

/// `okf merge`: consolidate one concept into another.
#[derive(Clone, Debug)]
pub struct MergeArgs {
    pub source: String,
    pub target: String,
    pub heading: Option<String>,
    pub bundle: String,
    pub force: bool,
    pub dry_run: bool,
    pub no_index: bool,
    pub no_log: bool,
    pub author: Option<String>,
    pub json: bool,
    pub format: Option<String>,
}

/// `okf studio`: the terminal studio.
#[derive(Clone, Debug)]
pub struct StudioArgs {
    pub bundle: String,
    pub today: Option<String>,
    pub no_watch: bool,
    pub tab: Option<String>,
    pub author: Option<String>,
}

/// `okf site`: generate the static site.
#[derive(Clone, Debug)]
pub struct SiteArgs {
    pub bundle: String,
    pub today: Option<String>,
    pub out: Option<String>,
    pub title: Option<String>,
}

} // verus!
