//! The document pane's renderer: markdown to styled terminal lines.
//!
//! Not a general CommonMark engine: bodies are deliberately simple. Besides
//! styled text, the renderer records where every link and footnote
//! reference lands, so the viewer can cycle through them and follow one,
//! and where every heading lands, for the outline.
//!
//! Styles are semantic: a [`Tone`] the terminal theme colours, plus the
//! modifiers the renderer adds.
use crate::chars::{chars_of, string_of};
use crate::links::{classify_spec, Link, LinkKind};
use crate::markdown::{clean_dest, escaped, fence_open, heading_line, inline_link};
use crate::studio::{char_cols, char_width, text_cols, truncated_text, FocusKind, FocusTarget, HeadingPos};
use crate::text::{find, find_from, next_char, split, views, push_all, slice_of, starts_with, trim, trim_end_char, trim_start, trim_start_char};
use vstd::prelude::*;

verus! {

/// The theme colour a piece of text takes.
#[derive(Clone, Copy, Debug, PartialEq, Eq, Structural)]
pub enum Tone {
    /// The terminal's own foreground.
    Plain,
    /// The theme's accent colour.
    Accent,
    /// The theme's muted colour.
    Muted,
    /// The theme's colour for a passing check.
    Good,
    /// The theme's colour for a failing check.
    Bad,
}

/// A semantic text style: a tone plus modifiers.
#[derive(Clone, Copy, Debug, PartialEq, Eq, Structural)]
pub struct TextStyle {
    pub tone: Tone,
    pub bold: bool,
    pub italic: bool,
    pub underlined: bool,
    pub reversed: bool,
    pub faint: bool,
}

/// A style of one tone with no modifiers.
pub open spec fn toned(t: Tone) -> TextStyle {
    TextStyle { tone: t, bold: false, italic: false, underlined: false, reversed: false, faint: false }
}

impl TextStyle {
    /// A style of tone `t` with no modifiers.
    pub fn of(t: Tone) -> (r: TextStyle)
        ensures
            r == toned(t),
    {
        TextStyle { tone: t, bold: false, italic: false, underlined: false, reversed: false, faint: false }
    }
}

/// An inline fragment: text with one style and, for a link or footnote
/// reference, the index of its focus target.
#[derive(Clone, Debug)]
pub struct Frag {
    pub text: Vec<char>,
    pub style: TextStyle,
    pub focus: Option<usize>,
}

pub type FragView = (Seq<char>, TextStyle, Option<usize>);

pub open spec fn frag_view(f: Frag) -> FragView {
    (f.text@, f.style, f.focus)
}

pub open spec fn frag_views(v: Seq<Frag>) -> Seq<FragView> {
    v.map_values(|f: Frag| frag_view(f))
}

/// What a focus target points at.
pub ghost enum FocusSpec {
    Link(Seq<char>, Seq<char>, LinkKind),
    Footnote(Seq<char>),
}

pub open spec fn focus_spec(k: FocusKind) -> FocusSpec {
    match k {
        FocusKind::Link { text, target, kind } => FocusSpec::Link(text@, target@, kind),
        FocusKind::Footnote(l) => FocusSpec::Footnote(l@),
    }
}

pub open spec fn focus_specs(v: Seq<FocusTarget>) -> Seq<FocusSpec> {
    v.map_values(|t: FocusTarget| focus_spec(t.kind))
}

// ---------------------------------------------------------------------------
// Inline markdown.
// ---------------------------------------------------------------------------

/// Where the inline scan stands: the fragments so far, the pending plain
/// text, the bold and italic toggles, and the focus targets registered.
pub ghost struct Scan {
    pub frags: Seq<FragView>,
    pub buf: Seq<char>,
    pub bold: bool,
    pub italic: bool,
    pub links: Seq<FocusSpec>,
}

/// The style of plain text under the toggles.
pub open spec fn toggled(base: TextStyle, bold: bool, italic: bool) -> TextStyle {
    TextStyle { bold: base.bold || bold, italic: base.italic || italic, ..base }
}

/// Pending plain text becomes a fragment.
pub open spec fn flushed(s: Scan, base: TextStyle) -> Scan {
    if s.buf.len() == 0 {
        s
    } else {
        Scan { frags: s.frags.push((s.buf, toggled(base, s.bold, s.italic), None)), buf: Seq::empty(), ..s }
    }
}

/// The focus style: reversed when the target is the focused one.
pub open spec fn focus_style(st: TextStyle, id: int, focused: Option<usize>) -> TextStyle {
    if focused == Some(id as usize) {
        TextStyle { reversed: true, ..st }
    } else {
        st
    }
}

/// The inline code style.
pub open spec fn code_style() -> TextStyle {
    TextStyle { faint: true, ..toned(Tone::Accent) }
}

/// The footnote reference `[^label]` starting at `i`, when there is one:
/// its label and the index just past it.
pub open spec fn footnote_ref(cs: Seq<char>, i: int) -> Option<(Seq<char>, int)> {
    if 0 <= i && i + 1 < cs.len() && cs[i] == '[' && cs[i + 1] == '^' {
        let close = next_char(cs, ']', i + 2);
        if close < cs.len() && close > i + 2 && !(close + 1 < cs.len() && cs[close + 1] == ':') {
            Some((cs.subrange(i + 2, close), close + 1))
        } else {
            None
        }
    } else {
        None
    }
}

/// The link `[text](dest)` at `i`, when there is one and its `[` is not
/// escaped.
pub open spec fn link_at(cs: Seq<char>, i: int) -> Option<(Seq<char>, Seq<char>, int)> {
    if cs[i] == '[' && !escaped(cs, i) {
        inline_link(cs, i)
    } else {
        None
    }
}

/// How a link renders: an external one in the accent tone as its text,
/// any other in the base tone behind an arrow; both underlined.
pub open spec fn link_look(base: TextStyle, text: Seq<char>, kind: LinkKind) -> (TextStyle, Seq<char>) {
    if kind == LinkKind::External {
        (TextStyle { underlined: true, ..toned(Tone::Accent) }, text)
    } else {
        (TextStyle { underlined: true, ..base }, seq!['→'] + text)
    }
}

/// One step of the inline scan at `i`: the scan after it, and where the
/// next step starts.
pub open spec fn inline_step(cs: Seq<char>, i: int, s: Scan, base: TextStyle, focused: Option<usize>) -> (Scan, int) {
    let c = cs[i];
    let tick = next_char(cs, '`', i + 1);
    if c == '`' && tick < cs.len() {
        let f = flushed(s, base);
        (Scan { frags: f.frags.push((cs.subrange(i + 1, tick), code_style(), None)), ..f }, tick + 1)
    } else if c == '*' {
        let f = flushed(s, base);
        if i + 1 < cs.len() && cs[i + 1] == '*' {
            (Scan { bold: !f.bold, ..f }, i + 2)
        } else {
            (Scan { italic: !f.italic, ..f }, i + 1)
        }
    } else if footnote_ref(cs, i) is Some {
        let (label, next) = footnote_ref(cs, i).unwrap();
        let f = flushed(s, base);
        let id = f.links.len() as int;
        let text = seq!['[', '^'] + label + seq![']'];
        (Scan {
            frags: f.frags.push((text, focus_style(toned(Tone::Accent), id, focused), Some(id as usize))),
            links: f.links.push(FocusSpec::Footnote(label)),
            ..f
        }, next)
    } else if link_at(cs, i) is Some {
        let (text, dest, next) = link_at(cs, i).unwrap();
        let target = clean_dest(dest);
        let kind = classify_spec(target);
        let f = flushed(s, base);
        let id = f.links.len() as int;
        let (st, shown) = link_look(base, text, kind);
        (Scan {
            frags: f.frags.push((shown, focus_style(st, id, focused), Some(id as usize))),
            links: f.links.push(FocusSpec::Link(text, target, kind)),
            ..f
        }, next)
    } else {
        (Scan { buf: s.buf.push(c), ..s }, i + 1)
    }
}

/// The scan from `i` to the end of the text.
pub open spec fn inline_scan(cs: Seq<char>, i: int, s: Scan, base: TextStyle, focused: Option<usize>) -> Scan
    decreases cs.len() - i,
{
    if i < 0 || i >= cs.len() {
        flushed(s, base)
    } else {
        let (t, next) = inline_step(cs, i, s, base, focused);
        if next <= i || next > cs.len() {
            flushed(s, base)
        } else {
            inline_scan(cs, next, t, base, focused)
        }
    }
}

/// The fragments of an inline text, and the focus targets it registers
/// after the `prior` ones.
pub open spec fn inline_of(cs: Seq<char>, base: TextStyle, focused: Option<usize>, prior: Seq<FocusSpec>) -> Scan {
    inline_scan(cs, 0, Scan { frags: Seq::empty(), buf: Seq::empty(), bold: false, italic: false, links: prior }, base, focused)
}


/// A link's `next` lies past its `[`.
pub proof fn lemma_inline_link_advances(cs: Seq<char>, i: int)
    requires
        0 <= i,
        inline_link(cs, i) is Some,
    ensures
        inline_link(cs, i).unwrap().2 > i,
        inline_link(cs, i).unwrap().2 <= cs.len(),
{
    crate::markdown::lemma_text_close(cs, i + 1, 1);
    let close = crate::markdown::text_close(cs, i + 1, 1).unwrap();
    crate::markdown::lemma_dest_close(cs, close + 2, 1);
}

pub open spec fn scan_of(frags: Seq<Frag>, buf: Seq<char>, bold: bool, italic: bool, links: Seq<FocusTarget>) -> Scan {
    Scan { frags: frag_views(frags), buf, bold, italic, links: focus_specs(links) }
}

fn flush(buf: &mut Vec<char>, frags: &mut Vec<Frag>, base: TextStyle, bold: bool, italic: bool)
    ensures
        ({
            let f = flushed(Scan { frags: frag_views(old(frags)@), buf: old(buf)@, bold, italic, links: Seq::empty() }, base);
            frag_views(final(frags)@) == f.frags && final(buf)@ == f.buf
        }),
{
    if buf.len() > 0 {
        let mut text: Vec<char> = Vec::new();
        std::mem::swap(&mut text, buf);
        let style = TextStyle { bold: base.bold || bold, italic: base.italic || italic, ..base };
        let ghost before = frag_views(frags@);
        frags.push(Frag { text, style, focus: None });
        assert(frag_views(frags@) =~= before.push((old(buf)@, toggled(base, bold, italic), None)));
        assert(buf@ =~= Seq::<char>::empty());
    }
}

fn styled_focus(st: TextStyle, id: usize, focused: Option<usize>) -> (r: TextStyle)
    ensures
        r == focus_style(st, id as int, focused),
{
    match focused {
        Some(f) => if f == id {
            TextStyle { reversed: true, ..st }
        } else {
            st
        },
        None => st,
    }
}

/// The footnote-reference step: `[^label]` becomes a focusable fragment.
fn footnote_step(
    cs: &[char],
    i: usize,
    close: usize,
    base: TextStyle,
    focused: Option<usize>,
    frags: &mut Vec<Frag>,
    buf: &mut Vec<char>,
    bold: bool,
    italic: bool,
    links: &mut Vec<FocusTarget>,
) -> (next: usize)
    requires
        footnote_ref(cs@, i as int) is Some,
        close as int == next_char(cs@, ']', i + 2),
        i + 2 < close < cs@.len(),
    ensures
        (scan_of(final(frags)@, final(buf)@, bold, italic, final(links)@), next as int)
            == inline_step(cs@, i as int, scan_of(old(frags)@, old(buf)@, bold, italic, old(links)@), base, focused),
        i < next <= cs@.len(),
        final(links)@.len() == old(links)@.len() + 1,
        forall|k: int| 0 <= k < old(links)@.len() ==> #[trigger] final(links)@[k] == old(links)@[k],
        forall|k: int| old(links)@.len() <= k < final(links)@.len() ==> (#[trigger] final(links)@[k]).line == usize::MAX,
{
    let ghost s0 = scan_of(frags@, buf@, bold, italic, links@);
    flush(buf, frags, base, bold, italic);
    let label = slice_of(cs, i + 2, close);
    let id = links.len();
    let ghost lb = focus_specs(links@);
    links.push(FocusTarget { line: usize::MAX, kind: FocusKind::Footnote(string_of(label.as_slice())) });
    let mut text: Vec<char> = Vec::new();
    text.push('[');
    text.push('^');
    push_all(&mut text, label.as_slice());
    text.push(']');
    let st = styled_focus(TextStyle::of(Tone::Accent), id, focused);
    let ghost before = frag_views(frags@);
    let ghost tv = text@;
    frags.push(Frag { text, style: st, focus: Some(id) });
    proof {
        let l = cs@.subrange(i + 2, close as int);
        assert(tv =~= seq!['[', '^'] + l + seq![']']);
        assert(focus_specs(links@) =~= lb.push(FocusSpec::Footnote(l)));
        assert(frag_views(frags@) =~= before.push((tv, st, Some(id))));
    }
    assert(close < cs.len());
    close + 1
}

/// The link step: `[text](dest)` becomes a focusable fragment.
fn link_step(
    cs: &[char],
    i: usize,
    base: TextStyle,
    focused: Option<usize>,
    frags: &mut Vec<Frag>,
    buf: &mut Vec<char>,
    bold: bool,
    italic: bool,
    links: &mut Vec<FocusTarget>,
) -> (next: Option<usize>)
    requires
        i < cs@.len(),
        cs@[i as int] == '[',
        footnote_ref(cs@, i as int) is None,
        !(cs@[i as int] == '`' && next_char(cs@, '`', i + 1) < cs@.len()),
    ensures
        match next {
            Some(n) => link_at(cs@, i as int) is Some
                && (scan_of(final(frags)@, final(buf)@, bold, italic, final(links)@), n as int)
                == inline_step(cs@, i as int, scan_of(old(frags)@, old(buf)@, bold, italic, old(links)@), base, focused)
                && i < n <= cs@.len(),
            None => link_at(cs@, i as int) is None && final(frags)@ == old(frags)@ && final(buf)@ == old(buf)@
                && final(links)@ == old(links)@,
        },
        final(links)@.len() >= old(links)@.len(),
        forall|k: int| 0 <= k < old(links)@.len() ==> #[trigger] final(links)@[k] == old(links)@[k],
        forall|k: int| old(links)@.len() <= k < final(links)@.len() ==> (#[trigger] final(links)@[k]).line == usize::MAX,
{
    if crate::markdown::is_escaped(cs, i) {
        return None;
    }
    let (text, dest, next) = match crate::markdown::inline_link_v(cs, i) {
        Some(x) => x,
        None => {
            return None;
        },
    };
    proof {
        lemma_inline_link_advances(cs@, i as int);
    }
    flush(buf, frags, base, bold, italic);
    let target = crate::markdown::clean_destination_v(dest.as_slice());
    let kind = crate::links::classify_v(target.as_slice());
    let id = links.len();
    let ghost lb = focus_specs(links@);
    links.push(FocusTarget {
        line: usize::MAX,
        kind: FocusKind::Link { text: string_of(text.as_slice()), target: string_of(target.as_slice()), kind },
    });
    let ghost text_v = text@;
    let (st0, shown) = if kind == LinkKind::External {
        (TextStyle { underlined: true, ..TextStyle::of(Tone::Accent) }, text)
    } else {
        let mut v: Vec<char> = Vec::new();
        v.push('→');
        push_all(&mut v, text.as_slice());
        (TextStyle { underlined: true, ..base }, v)
    };
    assert((st0, shown@) == link_look(base, text_v, kind));
    let st = styled_focus(st0, id, focused);
    let ghost before = frag_views(frags@);
    let ghost shown_v = shown@;
    frags.push(Frag { text: shown, style: st, focus: Some(id) });
    proof {
        assert(focus_specs(links@) =~= lb.push(FocusSpec::Link(text_v, target@, kind)));
        assert(frag_views(frags@) =~= before.push((shown_v, st, Some(id))));
    }
    Some(next)
}

/// One step of the inline scan at `i`.
fn inline_step_exec(
    cs: &[char],
    i: usize,
    base: TextStyle,
    focused: Option<usize>,
    frags: &mut Vec<Frag>,
    buf: &mut Vec<char>,
    bold: &mut bool,
    italic: &mut bool,
    links: &mut Vec<FocusTarget>,
) -> (next: usize)
    requires
        i < cs@.len(),
    ensures
        (scan_of(final(frags)@, final(buf)@, *final(bold), *final(italic), final(links)@), next as int)
            == inline_step(cs@, i as int, scan_of(old(frags)@, old(buf)@, *old(bold), *old(italic), old(links)@), base, focused),
        i < next <= cs@.len(),
        final(links)@.len() >= old(links)@.len(),
        forall|k: int| 0 <= k < old(links)@.len() ==> #[trigger] final(links)@[k] == old(links)@[k],
        forall|k: int| old(links)@.len() <= k < final(links)@.len() ==> (#[trigger] final(links)@[k]).line == usize::MAX,
{
    let ghost s0 = scan_of(frags@, buf@, *bold, *italic, links@);
    let ghost step = inline_step(cs@, i as int, s0, base, focused);
    let c = cs[i];
    let tick = crate::text::next_char_v(cs, '`', i + 1);
    if c == '`' && tick < cs.len() {
        flush(buf, frags, base, *bold, *italic);
        let code = slice_of(cs, i + 1, tick);
        let ghost before = frag_views(frags@);
        frags.push(Frag { text: code, style: TextStyle { faint: true, ..TextStyle::of(Tone::Accent) }, focus: None });
        proof {
            assert(frag_views(frags@) =~= before.push((cs@.subrange(i + 1, tick as int), code_style(), None)));
        }
        return tick + 1;
    }
    if c == '*' {
        flush(buf, frags, base, *bold, *italic);
        if i + 1 < cs.len() && cs[i + 1] == '*' {
            *bold = !*bold;
            return i + 2;
        } else {
            *italic = !*italic;
            return i + 1;
        }
    }
    if c == '[' && i + 1 < cs.len() && cs[i + 1] == '^' {
        let close = crate::text::next_char_v(cs, ']', i + 2);
        if close < cs.len() && close > i + 2 && !(close + 1 < cs.len() && cs[close + 1] == ':') {
            return footnote_step(cs, i, close, base, focused, frags, buf, *bold, *italic, links);
        }
    }
    if c == '[' {
        match link_step(cs, i, base, focused, frags, buf, *bold, *italic, links) {
            Some(next) => {
                return next;
            },
            None => {},
        }
    }
    buf.push(c);
    i + 1
}

/// Parses inline markdown (bold, italic, code, links, footnote references)
/// into styled fragments, registering each link and footnote reference as
/// a focus target (its line is fixed up when the fragments are placed).
pub fn parse_inline(cs: &[char], base: TextStyle, focused: Option<usize>, links: &mut Vec<FocusTarget>) -> (r: Vec<Frag>)
    ensures
        ({
            let s = inline_of(cs@, base, focused, focus_specs(old(links)@));
            frag_views(r@) == s.frags && focus_specs(final(links)@) == s.links
        }),
        final(links)@.len() >= old(links)@.len(),
        forall|k: int| 0 <= k < old(links)@.len() ==> #[trigger] final(links)@[k] == old(links)@[k],
        forall|k: int| old(links)@.len() <= k < final(links)@.len() ==> (#[trigger] final(links)@[k]).line == usize::MAX,
{
    let ghost prior = focus_specs(links@);
    let ghost old_links = links@;
    let mut frags: Vec<Frag> = Vec::new();
    let mut buf: Vec<char> = Vec::new();
    let mut bold = false;
    let mut italic = false;
    let mut i: usize = 0;
    proof {
        assert(frag_views(frags@) =~= Seq::<FragView>::empty());
        assert(buf@ =~= Seq::<char>::empty());
    }
    while i < cs.len()
        invariant
            i <= cs@.len(),
            prior == focus_specs(old_links),
            links@.len() >= old_links.len(),
            forall|k: int| 0 <= k < old_links.len() ==> #[trigger] links@[k] == old_links[k],
            forall|k: int| old_links.len() <= k < links@.len() ==> (#[trigger] links@[k]).line == usize::MAX,
            inline_of(cs@, base, focused, prior) == inline_scan(cs@, i as int, scan_of(frags@, buf@, bold, italic, links@), base, focused),
        decreases cs.len() - i,
    {
        let ghost links0 = links@;
        i = inline_step_exec(cs, i, base, focused, &mut frags, &mut buf, &mut bold, &mut italic, links);
        proof {
            assert forall|k: int| 0 <= k < old_links.len() implies #[trigger] links@[k] == old_links[k] by {
                assert(links@[k] == links0[k]);
            }
            assert forall|k: int| old_links.len() <= k < links@.len() implies (#[trigger] links@[k]).line == usize::MAX by {
                if k < links0.len() {
                    assert(links@[k] == links0[k]);
                }
            }
        }
    }
    flush(&mut buf, &mut frags, base, bold, italic);
    frags
}


// ---------------------------------------------------------------------------
// Word wrapping.
// ---------------------------------------------------------------------------

/// A run of text in one style on one output line.
#[derive(Clone, Debug)]
pub struct Span {
    pub text: String,
    pub style: TextStyle,
}

pub type SpanView = (Seq<char>, TextStyle);

pub open spec fn span_view(s: Span) -> SpanView {
    (s.text@, s.style)
}

pub open spec fn line_view(l: Seq<Span>) -> Seq<SpanView> {
    l.map_values(|s: Span| span_view(s))
}

pub open spec fn lines_view(ls: Seq<Vec<Span>>) -> Seq<Seq<SpanView>> {
    ls.map_values(|l: Vec<Span>| line_view(l@))
}

/// The maximal runs of spaces and of non-spaces of a text, in order, each
/// marked whether it is spaces.
pub open spec fn runs(t: Seq<char>) -> Seq<(Seq<char>, bool)>
    decreases t.len(),
{
    if t.len() == 0 {
        Seq::empty()
    } else {
        let r = runs(t.drop_last());
        let c = t.last();
        let sp = c == ' ';
        if r.len() > 0 && r.last().1 == sp {
            r.update(r.len() - 1, (r.last().0.push(c), sp))
        } else {
            r.push((seq![c], sp))
        }
    }
}

/// A word or whitespace run with its fragment's style and focus.
pub type Atom = (Seq<char>, TextStyle, Option<usize>, bool);

pub open spec fn frag_atoms(f: FragView) -> Seq<Atom> {
    runs(f.0).map_values(|r: (Seq<char>, bool)| (r.0, f.1, f.2, r.1))
}

pub open spec fn atoms_of(fs: Seq<FragView>) -> Seq<Atom>
    decreases fs.len(),
{
    if fs.len() == 0 {
        Seq::empty()
    } else {
        atoms_of(fs.drop_last()) + frag_atoms(fs.last())
    }
}

/// Where the layout stands: the lines so far (never none), the width of
/// the last one, and the line each focusable atom landed on.
pub ghost struct Lay {
    pub lines: Seq<Seq<SpanView>>,
    pub cur: int,
    pub focus: Seq<(usize, int)>,
}

/// Places one atom: a word that does not fit a non-empty line starts a new
/// one; spaces at the start of a wrapped line are dropped.
pub open spec fn lay_step(l: Lay, a: Atom, avail: int) -> Lay {
    let w = text_cols(a.0) as int;
    let l1 = if l.cur + w > avail && l.cur > 0 && !a.3 {
        Lay { lines: l.lines.push(Seq::empty()), cur: 0, ..l }
    } else {
        l
    };
    if a.3 && l1.cur == 0 && l1.lines.last().len() == 0 {
        l1
    } else {
        let last = l1.lines.len() - 1;
        Lay {
            lines: l1.lines.update(last, l1.lines[last].push((a.0, a.1))),
            cur: l1.cur + w,
            focus: match a.2 {
                Some(f) => l1.focus.push((f, last)),
                None => l1.focus,
            },
        }
    }
}

pub open spec fn layout(atoms: Seq<Atom>, n: int, avail: int) -> Lay
    decreases n,
{
    if n <= 0 {
        Lay { lines: seq![Seq::empty()], cur: 0, focus: Seq::empty() }
    } else {
        lay_step(layout(atoms, n - 1, avail), atoms[n - 1], avail)
    }
}

pub open spec fn spans_cols(v: Seq<SpanView>) -> int
    decreases v.len(),
{
    if v.len() == 0 {
        0
    } else {
        spans_cols(v.drop_last()) + text_cols(v.last().0)
    }
}

/// The columns a wrapped line may fill: the pane width less the first
/// prefix, but never under eight.
pub open spec fn avail_cols(width: int, prefix: Seq<SpanView>) -> int {
    let w = width - spans_cols(prefix);
    if w < 8 {
        8
    } else {
        w
    }
}

/// The wrapped lines behind their prefixes.
pub open spec fn prefixed(lines: Seq<Seq<SpanView>>, first: Seq<SpanView>, cont: Seq<SpanView>) -> Seq<Seq<SpanView>> {
    Seq::new(lines.len(), |k: int| if k == 0 { first + lines[k] } else { cont + lines[k] })
}

/// The focus targets' lines after placing: each target an atom carries
/// takes the line of the last such atom.
pub open spec fn relined(lines: Seq<usize>, focus: Seq<(usize, int)>, base: int) -> Seq<usize>
    decreases focus.len(),
{
    if focus.len() == 0 {
        lines
    } else {
        let prev = relined(lines, focus.drop_last(), base);
        let (f, rel) = focus.last();
        if f < prev.len() {
            prev.update(f as int, (base + rel) as usize)
        } else {
            prev
        }
    }
}

pub open spec fn target_lines(v: Seq<FocusTarget>) -> Seq<usize> {
    v.map_values(|t: FocusTarget| t.line)
}

/// Columns of `t`, capped at `cap`.
fn cols_capped(t: &[char], cap: usize) -> (r: usize)
    ensures
        r as int == if text_cols(t@) > cap { cap as int } else { text_cols(t@) as int },
{
    let mut w: usize = 0;
    let mut i: usize = 0;
    assert(t@.take(0) =~= Seq::<char>::empty());
    while i < t.len()
        invariant
            i <= t@.len(),
            w as int == if text_cols(t@.take(i as int)) > cap { cap as int } else { text_cols(t@.take(i as int)) as int },
        decreases t.len() - i,
    {
        proof {
            crate::studio::lemma_text_cols_take(t@, i as int);
        }
        let cw = char_width(t[i]);
        if w >= cap || cw >= cap - w {
            w = cap;
        } else {
            w = w + cw;
        }
        i += 1;
    }
    assert(t@.take(t@.len() as int) =~= t@);
    w
}

pub type AtomExec = (Vec<char>, TextStyle, Option<usize>, bool);

pub open spec fn atom_view(a: AtomExec) -> Atom {
    (a.0@, a.1, a.2, a.3)
}

pub open spec fn atoms_views(v: Seq<AtomExec>) -> Seq<Atom> {
    v.map_values(|a: AtomExec| atom_view(a))
}

pub open spec fn run_atoms(r: Seq<(Seq<char>, bool)>, st: TextStyle, focus: Option<usize>) -> Seq<Atom> {
    r.map_values(|x: (Seq<char>, bool)| (x.0, st, focus, x.1))
}

/// Splits a fragment into its atoms, appended to `out`.
fn push_atoms(f: &Frag, out: &mut Vec<AtomExec>)
    ensures
        atoms_views(final(out)@) == atoms_views(old(out)@) + frag_atoms(frag_view(*f)),
{
    let ghost o0 = atoms_views(out@);
    let ghost t = f.text@;
    let ghost st = f.style;
    let ghost fo = f.focus;
    let mut cur: Vec<char> = Vec::new();
    let mut cur_space = false;
    let mut i: usize = 0;
    proof {
        assert(t.take(0) =~= Seq::<char>::empty());
        assert(atoms_views(out@).skip(o0.len() as int) =~= Seq::<Atom>::empty());
    }
    while i < f.text.len()
        invariant
            i <= t.len(),
            t == f.text@,
            st == f.style,
            fo == f.focus,
            o0.len() <= atoms_views(out@).len(),
            atoms_views(out@).take(o0.len() as int) == o0,
            (cur@.len() == 0) == (i == 0),
            i == 0 ==> runs(t.take(i as int)).len() == 0 && atoms_views(out@).len() == o0.len(),
            i > 0 ==> run_atoms(runs(t.take(i as int)), st, fo)
                == atoms_views(out@).skip(o0.len() as int).push((cur@, st, fo, cur_space)),
        decreases t.len() - i,
    {
        let c = f.text[i];
        let space = c == ' ';
        let ghost before = atoms_views(out@);
        let ghost cur0 = cur@;
        let ghost r = runs(t.take(i as int));
        proof {
            assert(t.take(i + 1).drop_last() =~= t.take(i as int));
            assert(t.take(i + 1).last() == c);
        }
        if i == 0 {
            cur.push(c);
            cur_space = space;
            proof {
                assert(runs(t.take(1)) =~= seq![(seq![c], space)]);
                assert(cur@ =~= seq![c]);
                assert(atoms_views(out@).skip(o0.len() as int) =~= Seq::<Atom>::empty());
                assert(run_atoms(runs(t.take(1)), st, fo) =~= Seq::<Atom>::empty().push((cur@, st, fo, cur_space)));
            }
        } else if space == cur_space {
            cur.push(c);
            proof {
                let done = before.skip(o0.len() as int);
                assert(run_atoms(r, st, fo) == done.push((cur0, st, fo, space)));
                assert(r.len() > 0 && r.last() == (cur0, space)) by {
                    assert(run_atoms(r, st, fo).last() == (cur0, st, fo, space));
                    assert(run_atoms(r, st, fo)[r.len() - 1] == (r.last().0, st, fo, r.last().1));
                }
                let r2 = r.update(r.len() - 1, (cur0.push(c), space));
                assert(runs(t.take(i + 1)) == r2);
                assert(run_atoms(r2, st, fo) =~= run_atoms(r, st, fo).update(r.len() - 1, (cur0.push(c), st, fo, space)));
                assert(done.push((cur0, st, fo, space)).update(r.len() - 1, (cur0.push(c), st, fo, space))
                    =~= done.push((cur@, st, fo, cur_space)));
            }
        } else {
            let mut taken: Vec<char> = Vec::new();
            std::mem::swap(&mut taken, &mut cur);
            out.push((taken, f.style, f.focus, cur_space));
            cur.push(c);
            proof {
                let done = before.skip(o0.len() as int);
                assert(run_atoms(r, st, fo) == done.push((cur0, st, fo, cur_space)));
                assert(r.len() > 0 && r.last() == (cur0, cur_space)) by {
                    assert(run_atoms(r, st, fo)[r.len() - 1] == (r.last().0, st, fo, r.last().1));
                }
                assert(atoms_views(out@) =~= before.push((cur0, st, fo, cur_space)));
                assert(atoms_views(out@).take(o0.len() as int) =~= o0);
                assert(atoms_views(out@).skip(o0.len() as int) =~= done.push((cur0, st, fo, cur_space)));
                assert(runs(t.take(i + 1)) == r.push((seq![c], space)));
                assert(cur@ =~= seq![c]);
            }
            cur_space = space;
            proof {
                let done2 = atoms_views(out@).skip(o0.len() as int);
                assert(run_atoms(runs(t.take(i + 1)), st, fo) =~= done2.push((cur@, st, fo, cur_space)));
            }
        }
        i += 1;
    }
    if cur.len() > 0 {
        let ghost before = atoms_views(out@);
        let ghost cv = cur@;
        out.push((cur, f.style, f.focus, cur_space));
        proof {
            assert(atoms_views(out@) =~= before.push((cv, st, fo, cur_space)));
            assert(atoms_views(out@).skip(o0.len() as int) =~= before.skip(o0.len() as int).push((cv, st, fo, cur_space)));
        }
    } else {
        proof {
            assert(i == 0);
        }
    }
    proof {
        assert(t.take(t.len() as int) =~= t);
        assert(atoms_views(out@) =~= o0 + atoms_views(out@).skip(o0.len() as int));
        if t.len() == 0 {
            assert(runs(t) =~= Seq::<(Seq<char>, bool)>::empty());
        }
        assert(frag_atoms(frag_view(*f)) == run_atoms(runs(t), st, fo));
    }
}


/// The atoms of a fragment list, in order.
fn atoms_of_frags(frags: &Vec<Frag>) -> (r: Vec<AtomExec>)
    ensures
        atoms_views(r@) == atoms_of(frag_views(frags@)),
{
    let mut out: Vec<AtomExec> = Vec::new();
    let mut i: usize = 0;
    assert(atoms_views(out@) =~= Seq::<Atom>::empty());
    assert(frag_views(frags@).take(0) =~= Seq::<FragView>::empty());
    while i < frags.len()
        invariant
            i <= frags@.len(),
            atoms_views(out@) == atoms_of(frag_views(frags@).take(i as int)),
        decreases frags.len() - i,
    {
        push_atoms(&frags[i], &mut out);
        proof {
            let fs = frag_views(frags@);
            assert(fs.take(i + 1).drop_last() =~= fs.take(i as int));
            assert(fs.take(i + 1).last() == frag_view(frags@[i as int]));
        }
        i += 1;
    }
    assert(frag_views(frags@).take(frags@.len() as int) =~= frag_views(frags@));
    out
}

fn copy_span(s: &Span) -> (r: Span)
    ensures
        span_view(r) == span_view(*s),
{
    Span { text: s.text.as_str().to_owned(), style: s.style }
}

/// The columns of a prefix, capped at `cap`.
fn prefix_cols_capped(v: &Vec<Span>, cap: usize) -> (r: usize)
    ensures
        r as int == if spans_cols(line_view(v@)) > cap { cap as int } else { spans_cols(line_view(v@)) },
{
    let ghost lv = line_view(v@);
    let mut w: usize = 0;
    let mut k: usize = 0;
    assert(lv.take(0) =~= Seq::<SpanView>::empty());
    while k < v.len()
        invariant
            k <= v@.len(),
            lv == line_view(v@),
            w as int == if spans_cols(lv.take(k as int)) > cap { cap as int } else { spans_cols(lv.take(k as int)) },
        decreases v.len() - k,
    {
        let tv = chars_of(v[k].text.as_str());
        let c = cols_capped(tv.as_slice(), cap);
        proof {
            assert(lv.take(k + 1).drop_last() =~= lv.take(k as int));
            assert(lv.take(k + 1).last() == span_view(v@[k as int]));
            lemma_spans_cols_nonneg(lv.take(k as int));
        }
        if w >= cap || c >= cap - w {
            w = cap;
        } else {
            w = w + c;
        }
        k += 1;
    }
    assert(lv.take(v@.len() as int) =~= lv);
    w
}

pub proof fn lemma_spans_cols_nonneg(v: Seq<SpanView>)
    ensures
        spans_cols(v) >= 0,
    decreases v.len(),
{
    if v.len() > 0 {
        lemma_spans_cols_nonneg(v.drop_last());
    }
}

pub proof fn lemma_layout_shape(atoms: Seq<Atom>, n: int, avail: int)
    requires
        0 <= n,
    ensures
        layout(atoms, n, avail).lines.len() >= 1,
        layout(atoms, n, avail).cur >= 0,
        forall|k: int| 0 <= k < layout(atoms, n, avail).focus.len()
            ==> 0 <= #[trigger] layout(atoms, n, avail).focus[k].1 < layout(atoms, n, avail).lines.len(),
    decreases n,
{
    if n > 0 {
        lemma_layout_shape(atoms, n - 1, avail);
    }
}

/// Word-wraps fragments to `width` columns and appends the lines, the
/// first behind `first`, the others behind `cont`; each focus target a
/// fragment carries gets the line its last atom landed on.
pub fn push_wrapped(
    lines: &mut Vec<Vec<Span>>,
    links: &mut Vec<FocusTarget>,
    frags: &Vec<Frag>,
    width: usize,
    first: &Vec<Span>,
    cont: &Vec<Span>,
)
    requires
        width <= 0xffff,
    ensures
        ({
            let atoms = atoms_of(frag_views(frags@));
            let lay = layout(atoms, atoms.len() as int, avail_cols(width as int, line_view(first@)));
            &&& lines_view(final(lines)@) == lines_view(old(lines)@) + prefixed(lay.lines, line_view(first@), line_view(cont@))
            &&& target_lines(final(links)@) == relined(target_lines(old(links)@), lay.focus, old(lines)@.len() as int)
        }),
        focus_specs(final(links)@) == focus_specs(old(links)@),
        final(links)@.len() == old(links)@.len(),
{
    let atoms = atoms_of_frags(frags);
    let ghost av = atoms_views(atoms@);
    let pw = prefix_cols_capped(first, width);
    let avail: usize = if width - pw < 8 { 8 } else { width - pw };
    proof {
        lemma_spans_cols_nonneg(line_view(first@));
        assert(avail as int == avail_cols(width as int, line_view(first@)));
    }
    let mut out: Vec<Vec<Span>> = Vec::new();
    out.push(Vec::new());
    let mut cur: usize = 0;
    let mut focus_lines: Vec<(usize, usize)> = Vec::new();
    let mut i: usize = 0;
    proof {
        assert(line_view(out@[0]@) =~= Seq::<SpanView>::empty());
        assert(lines_view(out@) =~= seq![Seq::<SpanView>::empty()]);
        assert(focus_lines@ =~= Seq::<(usize, usize)>::empty());
    }
    while i < atoms.len()
        invariant
            i <= atoms@.len(),
            av == atoms_views(atoms@),
            avail <= 0xffff + 8,
            out@.len() >= 1,
            ({
                let lay = layout(av, i as int, avail as int);
                &&& lines_view(out@) == lay.lines
                &&& cur as int == if lay.cur > avail + 1 { avail + 1 } else { lay.cur }
                &&& focus_lines@.len() == lay.focus.len()
                &&& forall|k: int| 0 <= k < lay.focus.len() ==> (#[trigger] focus_lines@[k]).0 == lay.focus[k].0
                    && focus_lines@[k].1 as int == lay.focus[k].1
            }),
        decreases atoms.len() - i,
    {
        let ghost lay0 = layout(av, i as int, avail as int);
        proof {
            lemma_layout_shape(av, i as int, avail as int);
        }
        let a = &atoms[i];
        let ghost at = av[i as int];
        assert(at == atom_view(atoms@[i as int]));
        let ghost wspec = text_cols(at.0) as int;
        let ghost l1 = if lay0.cur + wspec > avail && lay0.cur > 0 && !at.3 {
            Lay { lines: lay0.lines.push(Seq::empty()), cur: 0, ..lay0 }
        } else {
            lay0
        };
        let w = cols_capped(a.0.as_slice(), avail + 1);
        assert((cur + w > avail) == (lay0.cur + wspec > avail));
        if cur + w > avail && cur > 0 && !a.3 {
            let ghost ob = lines_view(out@);
            out.push(Vec::new());
            cur = 0;
            proof {
                assert(line_view(out@[out@.len() - 1]@) =~= Seq::<SpanView>::empty());
                assert(lines_view(out@) =~= ob.push(Seq::<SpanView>::empty()));
            }
        }
        assert(lines_view(out@) == l1.lines);
        assert(cur as int == if l1.cur > avail + 1 { avail + 1 } else { l1.cur });
        let n = out.len();
        let last_empty = out[n - 1].len() == 0;
        assert(last_empty == (l1.lines.last().len() == 0));
        if a.3 && cur == 0 && last_empty {
        } else {
            match a.2 {
                Some(f) => {
                    focus_lines.push((f, n - 1));
                },
                None => {},
            }
            let span = Span { text: string_of(a.0.as_slice()), style: a.1 };
            let ghost ob = lines_view(out@);
            let mut line: Vec<Span> = Vec::new();
            std::mem::swap(&mut line, &mut out[n - 1]);
            let ghost lv0 = line_view(line@);
            line.push(span);
            assert(line_view(line@) =~= lv0.push((at.0, at.1)));
            out.set(n - 1, line);
            proof {
                assert(lines_view(out@) =~= ob.update(n - 1, ob[n - 1].push((at.0, at.1))));
            }
            cur = if cur + w > avail + 1 { avail + 1 } else { cur + w };
        }
        proof {
            let lay1 = layout(av, i + 1, avail as int);
            assert(lay1 == lay_step(lay0, at, avail as int));
            assert(lines_view(out@) =~= lay1.lines);
        }
        i += 1;
    }
    let base = lines.len();
    let ghost lines0 = lines_view(lines@);
    let mut k: usize = 0;
    let n = out.len();
    while k < n
        invariant
            k <= n,
            n == out@.len(),
            base == old(lines)@.len(),
            lines_view(lines@) == lines0 + prefixed(lines_view(out@), line_view(first@), line_view(cont@)).take(k as int),
        decreases n - k,
    {
        let pre = if k == 0 { first } else { cont };
        let mut full: Vec<Span> = Vec::new();
        let mut j: usize = 0;
        while j < pre.len()
            invariant
                j <= pre@.len(),
                line_view(full@) == line_view(pre@).take(j as int),
            decreases pre.len() - j,
        {
            let sp = copy_span(&pre[j]);
            let ghost fb = line_view(full@);
            full.push(sp);
            assert(line_view(full@) =~= fb.push(span_view(pre@[j as int])));
            assert(line_view(pre@).take(j + 1) =~= line_view(pre@).take(j as int).push(span_view(pre@[j as int])));
            j += 1;
        }
        let mut j: usize = 0;
        let ghost plen = full@.len();
        assert(line_view(pre@).take(pre@.len() as int) =~= line_view(pre@));
        while j < out[k].len()
            invariant
                j <= out@[k as int]@.len(),
                k < out@.len(),
                line_view(full@) == line_view(pre@) + line_view(out@[k as int]@).take(j as int),
            decreases out@[k as int]@.len() - j,
        {
            let sp = copy_span(&out[k][j]);
            let ghost fb = line_view(full@);
            full.push(sp);
            assert(line_view(full@) =~= fb.push(span_view(out@[k as int]@[j as int])));
            assert(line_view(out@[k as int]@).take(j + 1) =~= line_view(out@[k as int]@).take(j as int).push(span_view(out@[k as int]@[j as int])));
            j += 1;
        }
        let ghost lb = lines_view(lines@);
        lines.push(full);
        proof {
            assert(line_view(out@[k as int]@).take(out@[k as int]@.len() as int) =~= line_view(out@[k as int]@));
            let p = prefixed(lines_view(out@), line_view(first@), line_view(cont@));
            assert(p[k as int] == line_view(full@));
            assert(lines_view(lines@) =~= lb.push(line_view(full@)));
            assert(p.take(k + 1) =~= p.take(k as int).push(p[k as int]));
        }
        k += 1;
    }
    proof {
        let p = prefixed(lines_view(out@), line_view(first@), line_view(cont@));
        assert(p.take(n as int) =~= p);
    }
    let ghost lay = layout(av, av.len() as int, avail as int);
    let ghost tl0 = target_lines(links@);
    let ghost fs0 = focus_specs(links@);
    let total = lines.len();
    let mut q: usize = 0;
    proof {
        lemma_layout_shape(av, av.len() as int, avail as int);
        assert(lay.focus.take(0) =~= Seq::<(usize, int)>::empty());
    }
    while q < focus_lines.len()
        invariant
            q <= focus_lines@.len(),
            focus_lines@.len() == lay.focus.len(),
            forall|k: int| 0 <= k < lay.focus.len() ==> (#[trigger] focus_lines@[k]).0 == lay.focus[k].0
                && focus_lines@[k].1 as int == lay.focus[k].1,
            forall|k: int| 0 <= k < lay.focus.len() ==> 0 <= #[trigger] lay.focus[k].1 < n,
            base + n == total,
            links@.len() == tl0.len(),
            focus_specs(links@) == fs0,
            target_lines(links@) == relined(tl0, lay.focus.take(q as int), base as int),
        decreases focus_lines.len() - q,
    {
        let (f, rel) = focus_lines[q];
        let ghost prev = target_lines(links@);
        assert(lay.focus.take(q + 1).drop_last() =~= lay.focus.take(q as int));
        assert(lay.focus.take(q + 1).last() == lay.focus[q as int]);
        assert(focus_lines@[q as int].1 < n);
        assert(base + rel < total);
        if f < links.len() {
            let ghost fs_before = focus_specs(links@);
            links[f].line = base + rel;
            assert(target_lines(links@) =~= prev.update(f as int, (base + rel) as usize));
            assert(focus_specs(links@) =~= fs_before);
        }
        q += 1;
    }
    assert(lay.focus.take(lay.focus.len() as int) =~= lay.focus);
}


// ---------------------------------------------------------------------------
// Block shapes.
// ---------------------------------------------------------------------------

/// Every char of `t` is `c`.
pub open spec fn all_are(t: Seq<char>, c: char) -> bool {
    forall|i: int| 0 <= i < t.len() ==> #[trigger] t[i] == c
}

/// A thematic break: three or more of one of `-`, `*`, `_`.
pub open spec fn is_rule(t: Seq<char>) -> bool {
    t.len() >= 3 && (all_are(t, '-') || all_are(t, '*') || all_are(t, '_'))
}

fn all_are_v(t: &[char], c: char) -> (r: bool)
    ensures
        r == all_are(t@, c),
{
    let mut i: usize = 0;
    while i < t.len()
        invariant
            i <= t@.len(),
            forall|k: int| 0 <= k < i ==> #[trigger] t@[k] == c,
        decreases t.len() - i,
    {
        if t[i] != c {
            return false;
        }
        i += 1;
    }
    true
}

pub fn is_hr(t: &[char]) -> (r: bool)
    ensures
        r == is_rule(t@),
{
    t.len() >= 3 && (all_are_v(t, '-') || all_are_v(t, '*') || all_are_v(t, '_'))
}

/// A footnote definition `[^label]: rest` (of a line's trimmed start): the
/// trimmed label, when not empty, and the rest after its leading space.
pub open spec fn footnote_definition(t: Seq<char>) -> Option<(Seq<char>, Seq<char>)> {
    if starts_with(t, seq!['[', '^']) {
        let inner = t.skip(2);
        match find(inner, seq![']', ':']) {
            Some(close) => {
                let label = trim(inner.take(close));
                if label.len() == 0 {
                    None
                } else {
                    Some((label, trim_start(inner.skip(close + 2))))
                }
            },
            None => None,
        }
    } else {
        None
    }
}

pub proof fn lemma_find_bounds(s: Seq<char>, p: Seq<char>, from: int)
    ensures
        find_from(s, p, from) matches Some(i) ==> from <= i && i + p.len() <= s.len(),
    decreases s.len() - from,
{
    if !(from < 0 || from + p.len() > s.len()) && !crate::text::occurs_at(s, p, from) && from < s.len() {
        lemma_find_bounds(s, p, from + 1);
    }
}

pub fn footnote_def(t: &[char]) -> (r: Option<(Vec<char>, Vec<char>)>)
    ensures
        match r {
            Some((l, rest)) => footnote_definition(t@) == Some((l@, rest@)),
            None => footnote_definition(t@) is None,
        },
{
    if !crate::text::starts_with_v(t, &['[', '^']) {
        proof {
            assert(seq!['[', '^'] =~= seq!['[', '^']);
        }
        return None;
    }
    let inner = slice_of(t, 2, t.len());
    assert(inner@ =~= t@.skip(2));
    let pat = vec![']', ':'];
    assert(pat@ =~= seq![']', ':']);
    match crate::text::find_v(inner.as_slice(), pat.as_slice()) {
        Some(close) => {
            proof {
                lemma_find_bounds(inner@, pat@, 0);
            }
            let head = slice_of(inner.as_slice(), 0, close);
            assert(head@ =~= inner@.take(close as int));
            let label = crate::text::trim_v(head.as_slice());
            if label.len() == 0 {
                return None;
            }
            let tail = slice_of(inner.as_slice(), close + 2, inner.len());
            assert(tail@ =~= inner@.skip(close + 2));
            let rest = crate::text::trim_start_v(tail.as_slice());
            Some((label, rest))
        },
        None => None,
    }
}

/// The leading ASCII digits of `t`, counted.
pub open spec fn digit_run(t: Seq<char>, i: int) -> int
    decreases t.len() - i,
{
    if 0 <= i < t.len() && '0' <= t[i] <= '9' {
        digit_run(t, i + 1)
    } else {
        i
    }
}

/// A list item (of a whole line): the rendered marker and the item text.
/// Task boxes first, then bullets, then `1.` / `1)` numbers.
pub open spec fn list_item(line: Seq<char>) -> Option<(Seq<char>, Seq<char>)> {
    let t = trim_start(line);
    if starts_with(t, "- [ ] "@) || starts_with(t, "* [ ] "@) {
        Some((seq!['☐'], t.skip(6)))
    } else if starts_with(t, "- [x] "@) || starts_with(t, "* [x] "@) || starts_with(t, "- [X] "@) || starts_with(t, "* [X] "@) {
        Some((seq!['☑'], t.skip(6)))
    } else if starts_with(t, "- "@) || starts_with(t, "* "@) || starts_with(t, "+ "@) {
        Some((seq!['•'], t.skip(2)))
    } else {
        let d = digit_run(t, 0);
        let rest = t.skip(d);
        if d > 0 && (starts_with(rest, ". "@) || starts_with(rest, ") "@)) {
            Some((t.take(d).push('.'), rest.skip(2)))
        } else {
            None
        }
    }
}

pub proof fn lemma_digit_run(t: Seq<char>, i: int)
    requires
        0 <= i <= t.len(),
    ensures
        i <= digit_run(t, i) <= t.len(),
        forall|k: int| i <= k < digit_run(t, i) ==> '0' <= #[trigger] t[k] <= '9',
        digit_run(t, i) < t.len() ==> !('0' <= t[digit_run(t, i)] <= '9'),
    decreases t.len() - i,
{
    if i < t.len() && '0' <= t[i] <= '9' {
        lemma_digit_run(t, i + 1);
    }
}

pub fn list_marker(line: &[char]) -> (r: Option<(Vec<char>, Vec<char>)>)
    ensures
        match r {
            Some((m, rest)) => list_item(line@) == Some((m@, rest@)),
            None => list_item(line@) is None,
        },
{
    let t = crate::text::trim_start_v(line);
    let ts = t.as_slice();
    proof {
        reveal_strlit("- [ ] ");
        reveal_strlit("* [ ] ");
        reveal_strlit("- [x] ");
        reveal_strlit("* [x] ");
        reveal_strlit("- [X] ");
        reveal_strlit("* [X] ");
        reveal_strlit("- ");
        reveal_strlit("* ");
        reveal_strlit("+ ");
        reveal_strlit(". ");
        reveal_strlit(") ");
    }
    if crate::text::starts_with_str(ts, "- [ ] ") || crate::text::starts_with_str(ts, "* [ ] ") {
        let m = vec!['☐'];
        assert(m@ =~= seq!['☐']);
        return Some((m, slice_of(ts, 6, ts.len())));
    }
    if crate::text::starts_with_str(ts, "- [x] ") || crate::text::starts_with_str(ts, "* [x] ")
        || crate::text::starts_with_str(ts, "- [X] ") || crate::text::starts_with_str(ts, "* [X] ") {
        let m = vec!['☑'];
        assert(m@ =~= seq!['☑']);
        return Some((m, slice_of(ts, 6, ts.len())));
    }
    if crate::text::starts_with_str(ts, "- ") || crate::text::starts_with_str(ts, "* ") || crate::text::starts_with_str(ts, "+ ") {
        let m = vec!['•'];
        assert(m@ =~= seq!['•']);
        return Some((m, slice_of(ts, 2, ts.len())));
    }
    let mut d: usize = 0;
    while d < ts.len() && '0' <= ts[d] && ts[d] <= '9'
        invariant
            d <= ts@.len(),
            digit_run(ts@, 0) == digit_run(ts@, d as int),
        decreases ts.len() - d,
    {
        d += 1;
    }
    proof {
        lemma_digit_run(ts@, d as int);
    }
    let rest = slice_of(ts, d, ts.len());
    assert(rest@ =~= ts@.skip(d as int));
    let rs = rest.as_slice();
    if d > 0 && (crate::text::starts_with_str(rs, ". ") || crate::text::starts_with_str(rs, ") ")) {
        let mut m = slice_of(ts, 0, d);
        m.push('.');
        proof {
            assert(ts@.subrange(0, d as int) =~= ts@.take(d as int));
        }
        let item = slice_of(rs, 2, rs.len());
        assert(item@ =~= rest@.skip(2));
        return Some((m, item));
    }
    None
}

/// A table row that only separates the header: dashes, colons, pipes and
/// spaces, and not nothing.
pub open spec fn table_separator(row: Seq<char>) -> bool {
    let t = trim_end_char(trim_start_char(trim(row), '|'), '|');
    t.len() > 0 && forall|i: int| 0 <= i < t.len() ==> sep_char(#[trigger] t[i])
}

pub open spec fn sep_char(c: char) -> bool {
    c == '-' || c == ':' || c == '|' || c == ' '
}

pub fn is_table_separator(row: &[char]) -> (r: bool)
    ensures
        r == table_separator(row@),
{
    let a = crate::text::trim_v(row);
    let b = crate::text::trim_start_char_v(a.as_slice(), '|');
    let t = crate::text::trim_end_char_v(b.as_slice(), '|');
    if t.len() == 0 {
        return false;
    }
    let mut i: usize = 0;
    while i < t.len()
        invariant
            i <= t@.len(),
            t@ == trim_end_char(trim_start_char(trim(row@), '|'), '|'),
            forall|k: int| 0 <= k < i ==> sep_char(#[trigger] t@[k]),
        decreases t.len() - i,
    {
        let c = t[i];
        if !(c == '-' || c == ':' || c == '|' || c == ' ') {
            assert(!sep_char(t@[i as int]));
            return false;
        }
        i += 1;
    }
    true
}


// ---------------------------------------------------------------------------
// Rules and code blocks.
// ---------------------------------------------------------------------------

/// `n` copies of `c`.
pub open spec fn repeated(c: char, n: int) -> Seq<char> {
    Seq::new(if n < 0 { 0 } else { n as nat }, |_i: int| c)
}

fn repeat_v(c: char, n: usize) -> (r: Vec<char>)
    ensures
        r@ == repeated(c, n as int),
{
    let mut v: Vec<char> = Vec::new();
    let mut i: usize = 0;
    while i < n
        invariant
            i <= n,
            v@ == repeated(c, i as int),
        decreases n - i,
    {
        v.push(c);
        i += 1;
        assert(v@ =~= repeated(c, i as int));
    }
    v
}

fn span_of(text: &[char], style: TextStyle) -> (r: Span)
    ensures
        span_view(r) == (text@, style),
{
    Span { text: string_of(text), style }
}

/// A full-width rule.
pub open spec fn rule_line(width: int) -> Seq<SpanView> {
    seq![(repeated('─', width), toned(Tone::Muted))]
}

fn rule_line_v(width: usize) -> (r: Vec<Span>)
    ensures
        line_view(r@) == rule_line(width as int),
{
    let t = repeat_v('─', width);
    let v = vec![span_of(t.as_slice(), TextStyle::of(Tone::Muted))];
    assert(line_view(v@) =~= rule_line(width as int));
    v
}

/// The glyphs the syntax badge shows.
#[derive(Clone, Debug)]
pub struct Glyphs {
    /// Shown when a block's syntax checks.
    pub ok: String,
    /// Shown when it does not.
    pub broken: String,
}

/// The outcome of a syntax check: `None` when no grammar applies to the
/// block's tag, else whether the source parses, with the complaint.
pub type Verdict = Option<Result<(), String>>;

pub open spec fn verdict_view(v: Verdict) -> Option<Result<(), Seq<char>>> {
    match v {
        Some(Ok(())) => Some(Ok(())),
        Some(Err(e)) => Some(Err(e@)),
        None => None,
    }
}

/// The badge of a code block and its style.
pub open spec fn badge(v: Option<Result<(), Seq<char>>>, ok: Seq<char>, broken: Seq<char>) -> (Seq<char>, TextStyle) {
    match v {
        Some(Ok(())) => (" syntax "@ + ok, toned(Tone::Good)),
        Some(Err(e)) => (" syntax "@ + broken + " "@ + e, toned(Tone::Bad)),
        None => (Seq::empty(), toned(Tone::Muted)),
    }
}

pub open spec fn sat_sub(a: int, b: int) -> int {
    if a > b { a - b } else { 0 }
}

/// The lines of a fenced code block: a top border with the language tag
/// and the syntax badge, each code line cut to the box, a bottom border.
pub open spec fn code_lines(
    code: Seq<Seq<char>>,
    tag: Seq<char>,
    width: int,
    v: Option<Result<(), Seq<char>>>,
    ok: Seq<char>,
    broken: Seq<char>,
) -> Seq<Seq<SpanView>> {
    let inner = if sat_sub(width, 4) < 4 { 4 } else { sat_sub(width, 4) };
    let (b, bs) = badge(v, ok, broken);
    let head = "┌ "@ + tag;
    let fill = sat_sub(width, (text_cols(head) + text_cols(b) + 2) as int);
    let top = seq![(head, toned(Tone::Muted)), (truncated_text(b, sat_sub(width, 4)), bs), (seq![' '] + repeated('─', fill), toned(Tone::Muted))];
    let body = Seq::new(code.len(), |k: int| seq![("│ "@, toned(Tone::Muted)), (truncated_text(code[k], inner), toned(Tone::Plain))]);
    let bottom = seq![(seq!['└'] + repeated('─', sat_sub(width, 1)), toned(Tone::Muted))];
    seq![top] + body + seq![bottom]
}

fn truncate_v(t: &[char], max: usize) -> (r: Vec<char>)
    ensures
        r@ == truncated_text(t@, max as int),
{
    let s = string_of(t);
    let r = crate::studio::truncate_to_width(s.as_str(), max);
    chars_of(r.as_str())
}

/// Appends a code block's lines.
pub fn push_code_block(
    lines: &mut Vec<Vec<Span>>,
    code: &Vec<Vec<char>>,
    tag: &[char],
    width: usize,
    verdict: &Verdict,
    glyphs: &Glyphs,
)
    requires
        width <= 0xffff,
    ensures
        lines_view(final(lines)@) == lines_view(old(lines)@)
            + code_lines(crate::text::views(code@), tag@, width as int, verdict_view(*verdict), glyphs.ok@, glyphs.broken@),
{
    let ghost l0 = lines_view(lines@);
    let inner: usize = if width < 8 { 4 } else { width - 4 };
    let mut b: Vec<char> = Vec::new();
    let bs = match verdict {
        Some(Ok(())) => {
            crate::text::push_str(&mut b, " syntax ");
            crate::text::push_str(&mut b, glyphs.ok.as_str());
            TextStyle::of(Tone::Good)
        },
        Some(Err(e)) => {
            crate::text::push_str(&mut b, " syntax ");
            crate::text::push_str(&mut b, glyphs.broken.as_str());
            crate::text::push_str(&mut b, " ");
            crate::text::push_str(&mut b, e.as_str());
            TextStyle::of(Tone::Bad)
        },
        None => TextStyle::of(Tone::Muted),
    };
    assert((b@, bs) == badge(verdict_view(*verdict), glyphs.ok@, glyphs.broken@));
    let mut head: Vec<char> = vec!['┌', ' '];
    push_all(&mut head, tag);
    assert(head@ =~= "┌ "@ + tag@) by {
        reveal_strlit("┌ ");
    }
    let cap = width + 2;
    let hc = cols_capped(head.as_slice(), cap);
    let bc = cols_capped(b.as_slice(), cap);
    let fill: usize = if hc + bc + 2 >= width { 0 } else { width - hc - bc - 2 };
    assert(fill as int == sat_sub(width as int, (text_cols(head@) + text_cols(b@) + 2) as int));
    let cut = if width > 4 { width - 4 } else { 0 };
    let bt = truncate_v(b.as_slice(), cut);
    let mut tail: Vec<char> = vec![' '];
    let rep = repeat_v('─', fill);
    push_all(&mut tail, rep.as_slice());
    let top = vec![
        span_of(head.as_slice(), TextStyle::of(Tone::Muted)),
        span_of(bt.as_slice(), bs),
        span_of(tail.as_slice(), TextStyle::of(Tone::Muted)),
    ];
    lines.push(top);
    let ghost cl = code_lines(crate::text::views(code@), tag@, width as int, verdict_view(*verdict), glyphs.ok@, glyphs.broken@);
    proof {
        assert(tail@ =~= seq![' '] + repeated('─', fill as int));
        let ctop = seq![(head@, toned(Tone::Muted)), (truncated_text(b@, sat_sub(width as int, 4)), bs), (seq![' '] + repeated('─', fill as int), toned(Tone::Muted))];
        assert(line_view(top@) =~= ctop);
        assert(cl[0] == ctop);
        assert(line_view(top@) =~= cl[0]);
        assert(lines_view(lines@) =~= l0 + cl.take(1));
    }
    let mut k: usize = 0;
    while k < code.len()
        invariant
            k <= code@.len(),
            inner as int == (if sat_sub(width as int, 4) < 4 { 4 } else { sat_sub(width as int, 4) }),
            cl.len() == code@.len() + 2,
            cl == code_lines(crate::text::views(code@), tag@, width as int, verdict_view(*verdict), glyphs.ok@, glyphs.broken@),
            lines_view(lines@) == l0 + cl.take(k + 1),
        decreases code.len() - k,
    {
        let cut_line = truncate_v(code[k].as_slice(), inner);
        let bar = vec!['│', ' '];
        let row = vec![span_of(bar.as_slice(), TextStyle::of(Tone::Muted)), span_of(cut_line.as_slice(), TextStyle::of(Tone::Plain))];
        let ghost lb = lines_view(lines@);
        lines.push(row);
        proof {
            reveal_strlit("│ ");
            assert(bar@ =~= "│ "@);
            assert(line_view(row@) =~= cl[k + 1]);
            assert(lines_view(lines@) =~= lb.push(cl[k + 1]));
            assert(cl.take(k + 2) =~= cl.take(k + 1).push(cl[k + 1]));
        }
        k += 1;
    }
    let mut foot: Vec<char> = vec!['└'];
    let rep2 = repeat_v('─', if width > 0 { width - 1 } else { 0 });
    push_all(&mut foot, rep2.as_slice());
    let bottom = vec![span_of(foot.as_slice(), TextStyle::of(Tone::Muted))];
    let ghost lb = lines_view(lines@);
    lines.push(bottom);
    proof {
        let n = code@.len() as int;
        assert(foot@ =~= seq!['└'] + repeated('─', sat_sub(width as int, 1)));
        let cb = seq![(seq!['└'] + repeated('─', sat_sub(width as int, 1)), toned(Tone::Muted))];
        assert(line_view(bottom@) =~= cb);
        assert(cl[n + 1] == cb);
        assert(line_view(bottom@) =~= cl[n + 1]);
        assert(lines_view(lines@) =~= lb.push(cl[n + 1]));
        assert(cl.take(n + 2) =~= cl);
    }
}


// ---------------------------------------------------------------------------
// Tables.
// ---------------------------------------------------------------------------

/// A row's cells: the row trimmed and stripped of outer pipes, split at
/// the inner ones, each cell trimmed.
pub open spec fn cells_of(row: Seq<char>) -> Seq<Seq<char>> {
    split(trim_end_char(trim_start_char(trim(row), '|'), '|'), '|').map_values(|c: Seq<char>| trim(c))
}

pub type Table = Seq<Seq<Seq<char>>>;

/// The rows that carry cells (separator rows dropped), as cells.
pub open spec fn data_rows(rows: Seq<Seq<char>>) -> Table
    decreases rows.len(),
{
    if rows.len() == 0 {
        Seq::empty()
    } else {
        let p = data_rows(rows.drop_last());
        if table_separator(rows.last()) {
            p
        } else {
            p.push(cells_of(rows.last()))
        }
    }
}

/// The most cells any row has.
pub open spec fn max_cols(t: Table) -> int
    decreases t.len(),
{
    if t.len() == 0 {
        0
    } else {
        let p = max_cols(t.drop_last());
        if t.last().len() > p { t.last().len() as int } else { p }
    }
}

/// The widest cell of column `c`.
pub open spec fn col_width(t: Table, c: int) -> int
    decreases t.len(),
{
    if t.len() == 0 {
        0
    } else {
        let p = col_width(t.drop_last(), c);
        let w = if 0 <= c < t.last().len() { text_cols(t.last()[c]) as int } else { 0 };
        if w > p { w } else { p }
    }
}

pub open spec fn widths_sum(t: Table, n: int) -> int
    decreases n,
{
    if n <= 0 {
        0
    } else {
        widths_sum(t, n - 1) + col_width(t, n - 1)
    }
}

/// The columns the boxed table takes.
pub open spec fn table_total(t: Table) -> int {
    widths_sum(t, max_cols(t)) + max_cols(t) * 3 + 1
}

/// A border: `l`, then per column its dashes and `m` (`r` after the last).
pub open spec fn rule_segs(t: Table, k: int, m: char, r: char) -> Seq<char>
    decreases k,
{
    if k <= 0 {
        Seq::empty()
    } else {
        rule_segs(t, k - 1, m, r) + repeated('─', col_width(t, k - 1) + 2) + seq![if k == max_cols(t) { r } else { m }]
    }
}

pub open spec fn table_rule(t: Table, l: char, m: char, r: char) -> Seq<SpanView> {
    seq![(seq![l] + rule_segs(t, max_cols(t), m, r), toned(Tone::Muted))]
}

/// Cell `c` of a row, or nothing past its end.
pub open spec fn cell_at(row: Seq<Seq<char>>, c: int) -> Seq<char> {
    if 0 <= c < row.len() { row[c] } else { Seq::empty() }
}

/// The padded cell and the bar after it, per column.
pub open spec fn row_cells(t: Table, row: Seq<Seq<char>>, k: int, st: TextStyle) -> Seq<SpanView>
    decreases k,
{
    if k <= 0 {
        Seq::empty()
    } else {
        let cell = cell_at(row, k - 1);
        let pad = sat_sub(col_width(t, k - 1), text_cols(cell) as int);
        row_cells(t, row, k - 1, st) + seq![(seq![' '] + cell + repeated(' ', pad) + seq![' '], st), (seq!['│'], toned(Tone::Muted))]
    }
}

/// A boxed row: the header row bold.
pub open spec fn table_row(t: Table, r: int) -> Seq<SpanView> {
    let st = if r == 0 { TextStyle { bold: true, ..toned(Tone::Plain) } } else { toned(Tone::Plain) };
    seq![(seq!['│'], toned(Tone::Muted))] + row_cells(t, t[r], max_cols(t), st)
}

/// The rows from the top: each row, with a rule under the header when
/// rows follow it.
pub open spec fn table_body(t: Table, n: int) -> Seq<Seq<SpanView>>
    decreases n,
{
    if n <= 0 {
        Seq::empty()
    } else {
        let p = table_body(t, n - 1);
        let r = n - 1;
        let with_row = p.push(table_row(t, r));
        if r == 0 && t.len() > 1 {
            with_row.push(table_rule(t, '├', '┼', '┤'))
        } else {
            with_row
        }
    }
}

/// A run of `|` rows: boxed when the columns fit the width, else each row
/// as it was written; nothing when every row is a separator.
pub open spec fn table_lines(rows: Seq<Seq<char>>, width: int) -> Seq<Seq<SpanView>> {
    let t = data_rows(rows);
    if t.len() == 0 {
        Seq::empty()
    } else if table_total(t) > width {
        rows.map_values(|r: Seq<char>| seq![(r, toned(Tone::Plain))])
    } else {
        seq![table_rule(t, '┌', '┬', '┐')] + table_body(t, t.len() as int) + seq![table_rule(t, '└', '┴', '┘')]
    }
}

pub open spec fn table_view(t: Seq<Vec<Vec<char>>>) -> Table {
    t.map_values(|r: Vec<Vec<char>>| views(r@))
}

fn cells_v(row: &[char]) -> (r: Vec<Vec<char>>)
    ensures
        views(r@) == cells_of(row@),
{
    let a = crate::text::trim_v(row);
    let b = crate::text::trim_start_char_v(a.as_slice(), '|');
    let c = crate::text::trim_end_char_v(b.as_slice(), '|');
    let parts = crate::text::split_v(c.as_slice(), '|');
    let ghost pv = views(parts@);
    let mut out: Vec<Vec<char>> = Vec::new();
    let mut i: usize = 0;
    while i < parts.len()
        invariant
            i <= parts@.len(),
            pv == views(parts@),
            views(out@) == pv.take(i as int).map_values(|c: Seq<char>| trim(c)),
        decreases parts.len() - i,
    {
        let t = crate::text::trim_v(parts[i].as_slice());
        let ghost ob = views(out@);
        out.push(t);
        proof {
            assert(views(out@) =~= ob.push(trim(pv[i as int])));
            assert(pv.take(i + 1).map_values(|c: Seq<char>| trim(c)) =~= pv.take(i as int).map_values(|c: Seq<char>| trim(c)).push(trim(pv[i as int])));
        }
        i += 1;
    }
    assert(pv.take(pv.len() as int) =~= pv);
    out
}

pub proof fn lemma_col_width_bounds(t: Table, c: int, r: int)
    requires
        0 <= r < t.len(),
    ensures
        col_width(t, c) >= 0,
        0 <= c < t[r].len() ==> col_width(t, c) >= text_cols(t[r][c]),
    decreases t.len(),
{
    if r < t.len() - 1 {
        lemma_col_width_bounds(t.drop_last(), c, r);
    } else if t.len() > 1 {
        lemma_col_width_bounds(t.drop_last(), c, 0);
    }
}

pub proof fn lemma_col_width_nonneg(t: Table, c: int)
    ensures
        col_width(t, c) >= 0,
    decreases t.len(),
{
    if t.len() > 0 {
        lemma_col_width_nonneg(t.drop_last(), c);
    }
}

pub proof fn lemma_max_cols_bounds(t: Table, r: int)
    requires
        0 <= r < t.len(),
    ensures
        max_cols(t) >= t[r].len(),
        max_cols(t) >= 0,
    decreases t.len(),
{
    if r < t.len() - 1 {
        lemma_max_cols_bounds(t.drop_last(), r);
    } else if t.len() > 1 {
        lemma_max_cols_bounds(t.drop_last(), 0);
    }
}

pub proof fn lemma_widths_sum_mono(t: Table, n: int, k: int)
    requires
        0 <= k <= n,
    ensures
        widths_sum(t, k) <= widths_sum(t, n),
        widths_sum(t, n) >= 0,
        k < n ==> col_width(t, k) <= widths_sum(t, n),
    decreases n,
{
    if n > 0 {
        lemma_col_width_nonneg(t, n - 1);
        if k < n {
            lemma_widths_sum_mono(t, n - 1, k);
            if k < n - 1 {
            } else {
                lemma_widths_sum_mono(t, n - 1, n - 1);
            }
        } else {
            lemma_widths_sum_mono(t, n - 1, n - 1);
        }
    }
}


fn table_rule_v(widths: &Vec<usize>, cols: usize, l: char, m: char, r: char, Ghost(t): Ghost<Table>) -> (out: Vec<Span>)
    requires
        cols as int == max_cols(t),
        widths@.len() == cols,
        forall|c: int| 0 <= c < cols ==> #[trigger] widths@[c] as int == col_width(t, c),
        forall|c: int| 0 <= c < cols ==> widths@[c] <= 0xffff,
    ensures
        line_view(out@) == table_rule(t, l, m, r),
{
    let mut text: Vec<char> = vec![l];
    let mut c: usize = 0;
    assert(text@ =~= seq![l] + rule_segs(t, 0, m, r));
    while c < cols
        invariant
            c <= cols,
            cols as int == max_cols(t),
            widths@.len() == cols,
            forall|k: int| 0 <= k < cols ==> #[trigger] widths@[k] as int == col_width(t, k),
            forall|k: int| 0 <= k < cols ==> widths@[k] <= 0xffff,
            text@ == seq![l] + rule_segs(t, c as int, m, r),
        decreases cols - c,
    {
        let dashes = repeat_v('─', widths[c] + 2);
        push_all(&mut text, dashes.as_slice());
        text.push(if c + 1 == cols { r } else { m });
        c += 1;
        assert(text@ =~= seq![l] + rule_segs(t, c as int, m, r));
    }
    let out = vec![span_of(text.as_slice(), TextStyle::of(Tone::Muted))];
    assert(line_view(out@) =~= table_rule(t, l, m, r));
    out
}

fn table_row_v(widths: &Vec<usize>, cols: usize, row: &Vec<Vec<char>>, st: TextStyle, Ghost(t): Ghost<Table>) -> (out: Vec<Span>)
    requires
        cols as int == max_cols(t),
        widths@.len() == cols,
        forall|c: int| 0 <= c < cols ==> #[trigger] widths@[c] as int == col_width(t, c),
        forall|c: int| 0 <= c < cols ==> widths@[c] <= 0xffff,
    ensures
        line_view(out@) == seq![(seq!['│'], toned(Tone::Muted))] + row_cells(t, views(row@), cols as int, st),
{
    let bar = vec!['│'];
    assert(bar@ =~= seq!['│']);
    let mut out: Vec<Span> = Vec::new();
    out.push(span_of(bar.as_slice(), TextStyle::of(Tone::Muted)));
    let mut c: usize = 0;
    proof {
        assert(line_view(out@) =~= seq![(seq!['│'], toned(Tone::Muted))] + row_cells(t, views(row@), 0, st));
    }
    while c < cols
        invariant
            c <= cols,
            cols as int == max_cols(t),
            widths@.len() == cols,
            forall|k: int| 0 <= k < cols ==> #[trigger] widths@[k] as int == col_width(t, k),
            forall|k: int| 0 <= k < cols ==> widths@[k] <= 0xffff,
            line_view(out@) == seq![(seq!['│'], toned(Tone::Muted))] + row_cells(t, views(row@), c as int, st),
            bar@ == seq!['│'],
        decreases cols - c,
    {
        let empty: Vec<char> = Vec::new();
        let cell: &Vec<char> = if c < row.len() { &row[c] } else { &empty };
        assert(cell@ == cell_at(views(row@), c as int));
        let cw = cols_capped(cell.as_slice(), 0x10000);
        let pad: usize = if widths[c] > cw { widths[c] - cw } else { 0 };
        assert(pad as int == sat_sub(col_width(t, c as int), text_cols(cell@) as int));
        let mut text: Vec<char> = vec![' '];
        push_all(&mut text, cell.as_slice());
        let spaces = repeat_v(' ', pad);
        push_all(&mut text, spaces.as_slice());
        text.push(' ');
        let ghost ob = line_view(out@);
        out.push(span_of(text.as_slice(), st));
        out.push(span_of(bar.as_slice(), TextStyle::of(Tone::Muted)));
        c += 1;
        proof {
            assert(text@ =~= seq![' '] + cell_at(views(row@), c - 1) + repeated(' ', pad as int) + seq![' ']);
            assert(line_view(out@) =~= ob + seq![(text@, st), (seq!['│'], toned(Tone::Muted))]);
        }
    }
    out
}

/// Appends the lines of a run of `|` rows (see [`table_lines`]).
pub fn push_table(lines: &mut Vec<Vec<Span>>, rows: &Vec<Vec<char>>, width: usize)
    requires
        width <= 0xffff,
    ensures
        lines_view(final(lines)@) == lines_view(old(lines)@) + table_lines(views(rows@), width as int),
{
    let ghost rv = views(rows@);
    let ghost l0 = lines_view(lines@);
    let mut parsed: Vec<Vec<Vec<char>>> = Vec::new();
    let mut i: usize = 0;
    assert(table_view(parsed@) =~= data_rows(rv.take(0)));
    while i < rows.len()
        invariant
            i <= rows@.len(),
            rv == views(rows@),
            table_view(parsed@) == data_rows(rv.take(i as int)),
        decreases rows.len() - i,
    {
        proof {
            assert(rv.take(i + 1).drop_last() =~= rv.take(i as int));
            assert(rv.take(i + 1).last() == rows@[i as int]@);
        }
        if !is_table_separator(rows[i].as_slice()) {
            let cells = cells_v(rows[i].as_slice());
            let ghost pb = table_view(parsed@);
            parsed.push(cells);
            assert(table_view(parsed@) =~= pb.push(cells_of(rows@[i as int]@)));
        }
        i += 1;
    }
    assert(rv.take(rv.len() as int) =~= rv);
    let ghost t = table_view(parsed@);
    if parsed.len() == 0 {
        assert(lines_view(lines@) =~= l0 + table_lines(rv, width as int));
        return;
    }
    let mut cols: usize = 0;
    let mut r: usize = 0;
    assert(t.take(0) =~= Seq::<Seq<Seq<char>>>::empty());
    while r < parsed.len()
        invariant
            r <= parsed@.len(),
            t == table_view(parsed@),
            cols as int == max_cols(t.take(r as int)),
        decreases parsed.len() - r,
    {
        proof {
            assert(t.take(r + 1).drop_last() =~= t.take(r as int));
            assert(t.take(r + 1).last() == views(parsed@[r as int]@));
        }
        if parsed[r].len() > cols {
            cols = parsed[r].len();
        }
        r += 1;
    }
    assert(t.take(t.len() as int) =~= t);
    let cap: usize = width + 1;
    let mut widths: Vec<usize> = Vec::new();
    let mut c: usize = 0;
    while c < cols
        invariant
            c <= cols,
            cols as int == max_cols(t),
            t == table_view(parsed@),
            cap == width + 1,
            widths@.len() == c,
            forall|k: int| 0 <= k < c ==> #[trigger] widths@[k] as int == if col_width(t, k) > cap { cap as int } else { col_width(t, k) },
        decreases cols - c,
    {
        let mut w: usize = 0;
        let mut r: usize = 0;
        while r < parsed.len()
            invariant
                r <= parsed@.len(),
                t == table_view(parsed@),
                c < cols,
                w as int == if col_width(t.take(r as int), c as int) > cap { cap as int } else { col_width(t.take(r as int), c as int) },
            decreases parsed.len() - r,
        {
            proof {
                assert(t.take(r + 1).drop_last() =~= t.take(r as int));
                assert(t.take(r + 1).last() == views(parsed@[r as int]@));
                lemma_col_width_nonneg(t.take(r as int), c as int);
            }
            if c < parsed[r].len() {
                let x = cols_capped(parsed[r][c].as_slice(), cap);
                if x > w {
                    w = x;
                }
            }
            r += 1;
        }
        assert(t.take(t.len() as int) =~= t);
        widths.push(w);
        c += 1;
    }
    let mut acc: usize = 0;
    let mut c: usize = 0;
    while c < cols
        invariant
            c <= cols,
            cols as int == max_cols(t),
            cap == width + 1,
            widths@.len() == cols,
            forall|k: int| 0 <= k < cols ==> #[trigger] widths@[k] as int == if col_width(t, k) > cap { cap as int } else { col_width(t, k) },
            acc as int == if widths_sum(t, c as int) > cap { cap as int } else { widths_sum(t, c as int) },
            width <= 0xffff,
        decreases cols - c,
    {
        proof {
            lemma_widths_sum_mono(t, c as int, c as int);
            lemma_col_width_nonneg(t, c as int);
        }
        let w = widths[c];
        acc = if acc + w > cap { cap } else { acc + w };
        c += 1;
    }
    proof {
        lemma_widths_sum_mono(t, cols as int, cols as int);
    }
    let too_wide = cols > width || acc + cols * 3 + 1 > width;
    assert(too_wide == (table_total(t) > width));
    if too_wide {
        let mut k: usize = 0;
        while k < rows.len()
            invariant
                k <= rows@.len(),
                rv == views(rows@),
                lines_view(lines@) == l0 + rv.take(k as int).map_values(|r: Seq<char>| seq![(r, toned(Tone::Plain))]),
            decreases rows.len() - k,
        {
            let ghost lb = lines_view(lines@);
            let line = vec![span_of(rows[k].as_slice(), TextStyle::of(Tone::Plain))];
            assert(line_view(line@) =~= seq![(rv[k as int], toned(Tone::Plain))]);
            lines.push(line);
            proof {
                assert(lines_view(lines@) =~= lb.push(seq![(rv[k as int], toned(Tone::Plain))]));
                assert(rv.take(k + 1).map_values(|r: Seq<char>| seq![(r, toned(Tone::Plain))])
                    =~= rv.take(k as int).map_values(|r: Seq<char>| seq![(r, toned(Tone::Plain))]).push(seq![(rv[k as int], toned(Tone::Plain))]));
            }
            k += 1;
        }
        assert(rv.take(rv.len() as int) =~= rv);
        return;
    }
    proof {
        assert forall|k: int| 0 <= k < cols implies #[trigger] widths@[k] as int == col_width(t, k) && widths@[k] <= 0xffff by {
            lemma_widths_sum_mono(t, cols as int, k);
        }
    }
    let top = table_rule_v(&widths, cols, '┌', '┬', '┐', Ghost(t));
    lines.push(top);
    let ghost tl = table_lines(rv, width as int);
    proof {
        assert(lines_view(lines@) =~= l0 + seq![table_rule(t, '┌', '┬', '┐')] + table_body(t, 0));
    }
    let mut r: usize = 0;
    while r < parsed.len()
        invariant
            r <= parsed@.len(),
            t == table_view(parsed@),
            cols as int == max_cols(t),
            widths@.len() == cols,
            forall|k: int| 0 <= k < cols ==> #[trigger] widths@[k] as int == col_width(t, k),
            forall|k: int| 0 <= k < cols ==> widths@[k] <= 0xffff,
            lines_view(lines@) == l0 + seq![table_rule(t, '┌', '┬', '┐')] + table_body(t, r as int),
        decreases parsed.len() - r,
    {
        let st = if r == 0 { TextStyle { bold: true, ..TextStyle::of(Tone::Plain) } } else { TextStyle::of(Tone::Plain) };
        let line = table_row_v(&widths, cols, &parsed[r], st, Ghost(t));
        let ghost lb = lines_view(lines@);
        lines.push(line);
        proof {
            assert(views(parsed@[r as int]@) == t[r as int]);
            assert(line_view(line@) == table_row(t, r as int));
            assert(lines_view(lines@) =~= lb.push(table_row(t, r as int)));
        }
        if r == 0 && parsed.len() > 1 {
            let mid = table_rule_v(&widths, cols, '├', '┼', '┤', Ghost(t));
            let ghost lb2 = lines_view(lines@);
            lines.push(mid);
            assert(lines_view(lines@) =~= lb2.push(table_rule(t, '├', '┼', '┤')));
        }
        r += 1;
    }
    let bottom = table_rule_v(&widths, cols, '└', '┴', '┘', Ghost(t));
    let ghost lb = lines_view(lines@);
    lines.push(bottom);
    assert(lines_view(lines@) =~= lb.push(table_rule(t, '└', '┴', '┘')));
    assert(lines_view(lines@) =~= l0 + tl);
}


// ---------------------------------------------------------------------------
// The document.
// ---------------------------------------------------------------------------

/// The rendered document: styled lines plus the focus and jump maps.
#[derive(Clone, Debug)]
pub struct RenderedDoc {
    /// The styled output, one entry per terminal row.
    pub lines: Vec<Vec<Span>>,
    /// Focusable links and footnote references, in document order.
    pub links: Vec<FocusTarget>,
    /// Headings, for the outline jump list.
    pub headings: Vec<HeadingPos>,
    /// The rendered line of each `[^label]:` definition (one entry per
    /// label, the last definition's line).
    pub footnote_defs: Vec<(String, usize)>,
}

/// What a rendered document holds, plus the syntax checks asked for.
pub ghost struct DocModel {
    pub lines: Seq<Seq<SpanView>>,
    pub links: Seq<FocusSpec>,
    pub link_lines: Seq<usize>,
    pub headings: Seq<(usize, usize, Seq<char>)>,
    pub notes: Seq<(Seq<char>, usize)>,
    pub blocks: Seq<(Seq<char>, Seq<char>)>,
}

pub open spec fn heading_views(v: Seq<HeadingPos>) -> Seq<(usize, usize, Seq<char>)> {
    v.map_values(|h: HeadingPos| (h.line, h.level, h.text@))
}

pub open spec fn note_views(v: Seq<(String, usize)>) -> Seq<(Seq<char>, usize)> {
    v.map_values(|n: (String, usize)| (n.0@, n.1))
}

pub open spec fn doc_view(d: RenderedDoc, blocks: Seq<(Seq<char>, Seq<char>)>) -> DocModel {
    DocModel {
        lines: lines_view(d.lines@),
        links: focus_specs(d.links@),
        link_lines: target_lines(d.links@),
        headings: heading_views(d.headings@),
        notes: note_views(d.footnote_defs@),
        blocks,
    }
}

pub open spec fn empty_doc() -> DocModel {
    DocModel {
        lines: Seq::empty(),
        links: Seq::empty(),
        link_lines: Seq::empty(),
        headings: Seq::empty(),
        notes: Seq::empty(),
        blocks: Seq::empty(),
    }
}

/// Inline text wrapped behind prefixes: its focus targets registered (at
/// no line yet), its lines appended, and the targets placed.
pub open spec fn inline_wrap(
    d: DocModel,
    text: Seq<char>,
    base: TextStyle,
    focused: Option<usize>,
    width: int,
    first: Seq<SpanView>,
    cont: Seq<SpanView>,
) -> DocModel {
    let s = inline_of(text, base, focused, d.links);
    let fresh = Seq::new((s.links.len() - d.links.len()) as nat, |_k: int| usize::MAX);
    let atoms = atoms_of(s.frags);
    let lay = layout(atoms, atoms.len() as int, avail_cols(width, first));
    DocModel {
        lines: d.lines + prefixed(lay.lines, first, cont),
        links: s.links,
        link_lines: relined(d.link_lines + fresh, lay.focus, d.lines.len() as int),
        ..d
    }
}

/// The index of the first note labelled `label`.
pub open spec fn note_index(ns: Seq<(Seq<char>, usize)>, label: Seq<char>, i: int) -> Option<int>
    decreases ns.len() - i,
{
    if i < 0 || i >= ns.len() {
        None
    } else if ns[i].0 == label {
        Some(i)
    } else {
        note_index(ns, label, i + 1)
    }
}

/// A definition's line recorded under its label, replacing an earlier one.
pub open spec fn note_set(ns: Seq<(Seq<char>, usize)>, label: Seq<char>, line: usize) -> Seq<(Seq<char>, usize)> {
    match note_index(ns, label, 0) {
        Some(k) => ns.update(k, (label, line)),
        None => ns.push((label, line)),
    }
}

pub open spec fn with_line(d: DocModel, l: Seq<SpanView>) -> DocModel {
    DocModel { lines: d.lines.push(l), ..d }
}

/// A heading: recorded for the outline, indented by level in the accent
/// tone and bold, with a rule under a top-level one.
pub open spec fn heading_block(d: DocModel, level: int, text: Seq<char>, width: int, focused: Option<usize>) -> DocModel {
    let d1 = DocModel { headings: d.headings.push((d.lines.len() as usize, level as usize, text)), ..d };
    let pre = seq![(repeated(' ', level - 1), toned(Tone::Plain))];
    let d2 = inline_wrap(d1, text, TextStyle { bold: true, ..toned(Tone::Accent) }, focused, width, pre, pre);
    if level == 1 { with_line(d2, rule_line(width)) } else { d2 }
}

/// A footnote definition: its line recorded under its label, its text
/// muted behind the marker.
pub open spec fn note_block(d: DocModel, label: Seq<char>, rest: Seq<char>, width: int, focused: Option<usize>) -> DocModel {
    let d1 = DocModel { notes: note_set(d.notes, label, d.lines.len() as usize), ..d };
    let mk = seq!['[', '^'] + label + seq![']', ' '];
    let first = seq![(mk, toned(Tone::Accent))];
    let cont = seq![(repeated(' ', text_cols(mk) as int), toned(Tone::Plain))];
    inline_wrap(d1, rest, toned(Tone::Muted), focused, width, first, cont)
}

/// The leading whitespace of a line, in bytes.
pub open spec fn indent_bytes(line: Seq<char>) -> int {
    crate::chars::byte_len(line) - crate::chars::byte_len(trim_start(line))
}

/// A list item: its marker in the accent tone, continuation lines aligned
/// under the text.
pub open spec fn list_block(d: DocModel, line: Seq<char>, marker: Seq<char>, rest: Seq<char>, width: int, focused: Option<usize>) -> DocModel {
    let indent = indent_bytes(line);
    let first = seq![(repeated(' ', indent) + marker + seq![' '], toned(Tone::Accent))];
    let cont = seq![(repeated(' ', indent + text_cols(marker) + 1), toned(Tone::Plain))];
    inline_wrap(d, rest, toned(Tone::Plain), focused, width, first, cont)
}

/// The first line from `j` on that closes a fence of `m`, or the end.
pub open spec fn fence_end(ls: Seq<Seq<char>>, j: int, m: char) -> int
    decreases ls.len() - j,
{
    if j < 0 || j >= ls.len() || fence_open(trim_start(ls[j])) == Some(m) {
        if j < 0 { 0 } else { j }
    } else {
        fence_end(ls, j + 1, m)
    }
}

/// The first line from `j` on that does not start (after indentation) with
/// `|`, or the end.
pub open spec fn table_end(ls: Seq<Seq<char>>, j: int) -> int
    decreases ls.len() - j,
{
    if j < 0 || j >= ls.len() || !starts_with(trim_start(ls[j]), seq!['|']) {
        if j < 0 { 0 } else { j }
    } else {
        table_end(ls, j + 1)
    }
}

/// The checker's verdict for the `k`-th code block.
pub open spec fn verdict_at(vs: Seq<Option<Result<(), Seq<char>>>>, k: int) -> Option<Result<(), Seq<char>>> {
    if 0 <= k < vs.len() { vs[k] } else { None }
}

/// The block at line `i` rendered: the document after it and the line
/// the next block starts at.
pub open spec fn block_at(
    ls: Seq<Seq<char>>,
    i: int,
    d: DocModel,
    width: int,
    focused: Option<usize>,
    vs: Seq<Option<Result<(), Seq<char>>>>,
    ok: Seq<char>,
    broken: Seq<char>,
) -> (DocModel, int) {
    let line = ls[i];
    let t = trim_start(line);
    if fence_open(t) is Some {
        let m = fence_open(t).unwrap();
        let j = fence_end(ls, i + 1, m);
        let code = ls.subrange(i + 1, j);
        let tag = trim(t.skip(3));
        let v = verdict_at(vs, d.blocks.len() as int);
        let d1 = DocModel {
            lines: d.lines + code_lines(code, tag, width, v, ok, broken),
            blocks: d.blocks.push((tag, crate::text::join(code, seq!['\n']))),
            ..d
        };
        (d1, if j < ls.len() { j + 1 } else { j })
    } else if starts_with(t, seq!['|']) {
        let j = table_end(ls, i);
        (DocModel { lines: d.lines + table_lines(ls.subrange(i, j), width), ..d }, j)
    } else {
        (line_block(d, line, width, focused), i + 1)
    }
}

/// A one-line block (a `|` line is a table, never a heading or a rule, so
/// tables are recognised first): a heading, a rule, a blank line, a
/// footnote definition, a block quote, a list item, or a paragraph line.
pub open spec fn line_block(d: DocModel, line: Seq<char>, width: int, focused: Option<usize>) -> DocModel {
    let t = trim_start(line);
    if heading_line(line) is Some {
        let (level, text) = heading_line(line).unwrap();
        heading_block(d, level, text, width, focused)
    } else if is_rule(t) {
        with_line(d, rule_line(width))
    } else if t.len() == 0 {
        with_line(d, Seq::empty())
    } else if footnote_definition(t) is Some {
        let (label, rest) = footnote_definition(t).unwrap();
        note_block(d, label, rest, width, focused)
    } else if starts_with(t, seq!['>']) {
        let gutter = seq![("│ "@, toned(Tone::Muted))];
        inline_wrap(d, trim_start(t.skip(1)), toned(Tone::Muted), focused, width, gutter, gutter)
    } else if list_item(line) is Some {
        let (marker, rest) = list_item(line).unwrap();
        list_block(d, line, marker, rest, width, focused)
    } else {
        inline_wrap(d, line, toned(Tone::Plain), focused, width, Seq::empty(), Seq::empty())
    }
}

/// The blocks from line `i` on.
pub open spec fn doc_from(
    ls: Seq<Seq<char>>,
    i: int,
    d: DocModel,
    width: int,
    focused: Option<usize>,
    vs: Seq<Option<Result<(), Seq<char>>>>,
    ok: Seq<char>,
    broken: Seq<char>,
) -> DocModel
    decreases ls.len() - i,
{
    if i < 0 || i >= ls.len() {
        d
    } else {
        let (d1, next) = block_at(ls, i, d, width, focused, vs, ok, broken);
        if next <= i || next > ls.len() {
            d
        } else {
            doc_from(ls, next, d1, width, focused, vs, ok, broken)
        }
    }
}

/// The pane width the renderer lays out to: at least ten columns.
pub open spec fn pane_width(width: u16) -> int {
    if width < 10 { 10 } else { width as int }
}

/// The document a body renders to, given the checker's verdicts for its
/// code blocks in order (wikilinks are expanded first).
pub open spec fn rendered(
    body: Seq<char>,
    width: u16,
    focused: Option<usize>,
    vs: Seq<Option<Result<(), Seq<char>>>>,
    ok: Seq<char>,
    broken: Seq<char>,
) -> DocModel {
    let ls = crate::text::lines(crate::markdown::expand_wikis(body).0);
    doc_from(ls, 0, empty_doc(), pane_width(width), focused, vs, ok, broken)
}


/// Wraps inline text behind prefixes into the document (see [`inline_wrap`]).
fn inline_wrap_v(
    doc: &mut RenderedDoc,
    text: &[char],
    base: TextStyle,
    focused: Option<usize>,
    width: usize,
    first: &Vec<Span>,
    cont: &Vec<Span>,
    Ghost(blocks): Ghost<Seq<(Seq<char>, Seq<char>)>>,
)
    requires
        width <= 0xffff,
    ensures
        doc_view(*final(doc), blocks) == inline_wrap(doc_view(*old(doc), blocks), text@, base, focused, width as int, line_view(first@), line_view(cont@)),
{
    let ghost d0 = doc_view(*doc, blocks);
    let ghost links0 = doc.links@;
    let frags = parse_inline(text, base, focused, &mut doc.links);
    let ghost links1 = doc.links@;
    proof {
        let s = inline_of(text@, base, focused, d0.links);
        let fresh = Seq::new((s.links.len() - d0.links.len()) as nat, |_k: int| usize::MAX);
        assert(focus_specs(links1).len() == links1.len());
        assert(target_lines(links1) =~= target_lines(links0) + fresh) by {
            assert forall|k: int| 0 <= k < links1.len() implies #[trigger] target_lines(links1)[k] == (target_lines(links0) + fresh)[k] by {
                if k < links0.len() {
                    assert(links1[k] == links0[k]);
                } else {
                    assert(links1[k].line == usize::MAX);
                }
            }
        }
    }
    push_wrapped(&mut doc.lines, &mut doc.links, &frags, width, first, cont);
}

fn with_line_v(doc: &mut RenderedDoc, l: Vec<Span>, Ghost(blocks): Ghost<Seq<(Seq<char>, Seq<char>)>>)
    ensures
        doc_view(*final(doc), blocks) == with_line(doc_view(*old(doc), blocks), line_view(l@)),
{
    let ghost lb = lines_view(doc.lines@);
    let ghost lv = line_view(l@);
    doc.lines.push(l);
    assert(lines_view(doc.lines@) =~= lb.push(lv));
}

fn heading_v(doc: &mut RenderedDoc, level: usize, text: &[char], width: usize, focused: Option<usize>, Ghost(blocks): Ghost<Seq<(Seq<char>, Seq<char>)>>)
    requires
        width <= 0xffff,
        1 <= level <= 6,
    ensures
        doc_view(*final(doc), blocks) == heading_block(doc_view(*old(doc), blocks), level as int, text@, width as int, focused),
{
    let ghost hb = heading_views(doc.headings@);
    let n = doc.lines.len();
    doc.headings.push(HeadingPos { line: n, level, text: string_of(text) });
    assert(heading_views(doc.headings@) =~= hb.push((n, level, text@)));
    let pad = repeat_v(' ', level - 1);
    let pre = vec![span_of(pad.as_slice(), TextStyle::of(Tone::Plain))];
    assert(line_view(pre@) =~= seq![(repeated(' ', level - 1), toned(Tone::Plain))]);
    inline_wrap_v(doc, text, TextStyle { bold: true, ..TextStyle::of(Tone::Accent) }, focused, width, &pre, &pre, Ghost(blocks));
    if level == 1 {
        with_line_v(doc, rule_line_v(width), Ghost(blocks));
    }
}

fn note_set_v(notes: &mut Vec<(String, usize)>, label: &[char], line: usize)
    ensures
        note_views(final(notes)@) == note_set(note_views(old(notes)@), label@, line),
{
    let ghost ns = note_views(notes@);
    let mut k: usize = 0;
    while k < notes.len()
        invariant
            k <= notes@.len(),
            ns == note_views(notes@),
            ns == note_views(old(notes)@),
            note_index(ns, label@, 0) == note_index(ns, label@, k as int),
        decreases notes.len() - k,
    {
        let lv = chars_of(notes[k].0.as_str());
        if crate::markdown::eq_chars(lv.as_slice(), label) {
            assert(ns[k as int].0 == label@);
            assert(note_index(ns, label@, k as int) == Some(k as int));
            notes.set(k, (string_of(label), line));
            assert(note_views(notes@) =~= ns.update(k as int, (label@, line)));
            return;
        }
        k += 1;
    }
    notes.push((string_of(label), line));
    assert(note_views(notes@) =~= ns.push((label@, line)));
}

fn note_v(doc: &mut RenderedDoc, label: &[char], rest: &[char], width: usize, focused: Option<usize>, Ghost(blocks): Ghost<Seq<(Seq<char>, Seq<char>)>>)
    requires
        width <= 0xffff,
    ensures
        doc_view(*final(doc), blocks) == note_block(doc_view(*old(doc), blocks), label@, rest@, width as int, focused),
{
    let n = doc.lines.len();
    note_set_v(&mut doc.footnote_defs, label, n);
    let mut mk: Vec<char> = vec!['[', '^'];
    push_all(&mut mk, label);
    mk.push(']');
    mk.push(' ');
    assert(mk@ =~= seq!['[', '^'] + label@ + seq![']', ' ']);
    let mks = string_of(mk.as_slice());
    let mkv = crate::studio::chars_fitting(mks.as_str());
    let mw = cols_capped(mkv.as_slice(), usize::MAX);
    let pad = repeat_v(' ', mw);
    let first = vec![span_of(mk.as_slice(), TextStyle::of(Tone::Accent))];
    let cont = vec![span_of(pad.as_slice(), TextStyle::of(Tone::Plain))];
    proof {
        crate::studio::lemma_text_cols_bound(mkv@, mkv@.len() as int);
        assert(mkv@.take(mkv@.len() as int) =~= mkv@);
        assert(line_view(first@) =~= seq![(mk@, toned(Tone::Accent))]);
        assert(line_view(cont@) =~= seq![(repeated(' ', text_cols(mk@) as int), toned(Tone::Plain))]);
    }
    inline_wrap_v(doc, rest, TextStyle::of(Tone::Muted), focused, width, &first, &cont, Ghost(blocks));
}

pub proof fn lemma_byte_len_ge_len(s: Seq<char>)
    ensures
        crate::chars::byte_len(s) >= s.len(),
    decreases s.len(),
{
    if s.len() > 0 {
        lemma_byte_len_ge_len(s.drop_last());
    }
}

/// A list marker takes fewer columns than its line has characters.
pub proof fn lemma_list_marker_cols(line: Seq<char>)
    requires
        list_item(line) is Some,
    ensures
        text_cols(list_item(line).unwrap().0) + 2 <= 2 * trim_start(line).len(),
{
    let t = trim_start(line);
    let m = list_item(line).unwrap().0;
    crate::studio::lemma_text_cols_bound(m, m.len() as int);
    assert(m.take(m.len() as int) =~= m);
    reveal_strlit("- [ ] ");
    reveal_strlit("* [ ] ");
    reveal_strlit("- [x] ");
    reveal_strlit("* [x] ");
    reveal_strlit("- [X] ");
    reveal_strlit("* [X] ");
    reveal_strlit("- ");
    reveal_strlit("* ");
    reveal_strlit("+ ");
    reveal_strlit(". ");
    reveal_strlit(") ");
    if !(starts_with(t, "- [ ] "@) || starts_with(t, "* [ ] "@) || starts_with(t, "- [x] "@) || starts_with(t, "* [x] "@)
        || starts_with(t, "- [X] "@) || starts_with(t, "* [X] "@) || starts_with(t, "- "@) || starts_with(t, "* "@)
        || starts_with(t, "+ "@)) {
        let d = digit_run(t, 0);
        lemma_digit_run(t, 0);
        assert(t.skip(d).len() >= 2);
    }
}

fn list_v(doc: &mut RenderedDoc, line: &[char], marker: &[char], rest: &[char], width: usize, focused: Option<usize>, Ghost(blocks): Ghost<Seq<(Seq<char>, Seq<char>)>>)
    requires
        width <= 0xffff,
        list_item(line@) == Some((marker@, rest@)),
    ensures
        doc_view(*final(doc), blocks) == list_block(doc_view(*old(doc), blocks), line@, marker@, rest@, width as int, focused),
{
    let k = crate::text::trim_start_index(line);
    let lead = slice_of(line, 0, k);
    let ls = string_of(lead.as_slice());
    let indent = crate::chars::str_byte_len(ls.as_str());
    let whole = string_of(line);
    let total = crate::chars::str_byte_len(whole.as_str());
    proof {
        assert(line@ =~= lead@ + trim_start(line@));
        crate::search::lemma_byte_len_concat(lead@, trim_start(line@));
        assert(indent as int == indent_bytes(line@));
        lemma_byte_len_ge_len(trim_start(line@));
        lemma_list_marker_cols(line@);
    }
    let mut head = repeat_v(' ', indent);
    push_all(&mut head, marker);
    head.push(' ');
    assert(head@ =~= repeated(' ', indent as int) + marker@ + seq![' ']);
    let mw = cols_capped(marker, usize::MAX);
    let first = vec![span_of(head.as_slice(), TextStyle::of(Tone::Accent))];
    assert(line_view(first@) =~= seq![(repeated(' ', indent as int) + marker@ + seq![' '], toned(Tone::Accent))]);
    let pad = repeat_v(' ', indent + mw + 1);
    let cont = vec![span_of(pad.as_slice(), TextStyle::of(Tone::Plain))];
    assert(line_view(cont@) =~= seq![(repeated(' ', indent + text_cols(marker@) + 1), toned(Tone::Plain))]);
    inline_wrap_v(doc, rest, TextStyle::of(Tone::Plain), focused, width, &first, &cont, Ghost(blocks));
}


/// The checker answered `v` for a block's language tag and source.
pub open spec fn checked<F: Fn(&str, &str) -> Verdict>(f: F, req: (Seq<char>, Seq<char>), v: Option<Result<(), Seq<char>>>) -> bool {
    exists|t: &str, src: &str, out: Verdict|
        t@ == req.0 && src@ == req.1 && #[trigger] call_ensures(f, (t, src), out) && verdict_view(out) == v
}

pub proof fn lemma_fence_end(ls: Seq<Seq<char>>, j: int, m: char)
    requires
        0 <= j,
    ensures
        j <= fence_end(ls, j, m),
        fence_end(ls, j, m) <= ls.len() || fence_end(ls, j, m) == j,
        forall|k: int| j <= k < fence_end(ls, j, m) ==> fence_open(trim_start(#[trigger] ls[k])) != Some(m),
        fence_end(ls, j, m) < ls.len() ==> fence_open(trim_start(ls[fence_end(ls, j, m)])) == Some(m),
    decreases ls.len() - j,
{
    if !(j >= ls.len() || fence_open(trim_start(ls[j])) == Some(m)) {
        lemma_fence_end(ls, j + 1, m);
    }
}

pub proof fn lemma_table_end(ls: Seq<Seq<char>>, j: int)
    requires
        0 <= j,
    ensures
        j <= table_end(ls, j),
        table_end(ls, j) <= ls.len() || table_end(ls, j) == j,
        forall|k: int| j <= k < table_end(ls, j) ==> starts_with(trim_start(#[trigger] ls[k]), seq!['|']),
        table_end(ls, j) < ls.len() ==> !starts_with(trim_start(ls[table_end(ls, j)]), seq!['|']),
    decreases ls.len() - j,
{
    if !(j >= ls.len() || !starts_with(trim_start(ls[j]), seq!['|'])) {
        lemma_table_end(ls, j + 1);
    }
}

/// A fenced code block at line `i`: its lines, and the checker's verdict.
fn code_block_v<F: Fn(&str, &str) -> Verdict>(
    doc: &mut RenderedDoc,
    ls: &Vec<Vec<char>>,
    i: usize,
    marker: char,
    width: usize,
    glyphs: &Glyphs,
    check: &F,
    Ghost(blocks): Ghost<Seq<(Seq<char>, Seq<char>)>>,
) -> (r: (usize, Verdict))
    requires
        i < ls@.len(),
        width <= 0xffff,
        fence_open(trim_start(ls@[i as int]@)) == Some(marker),
        forall|t: &str, src: &str| call_requires(*check, (t, src)),
    ensures
        ({
            let l = views(ls@);
            let t = trim_start(l[i as int]);
            let j = fence_end(l, i + 1, marker);
            let code = l.subrange(i + 1, j);
            let tag = trim(t.skip(3));
            let req = (tag, crate::text::join(code, seq!['\n']));
            &&& doc_view(*final(doc), blocks.push(req)) == DocModel {
                lines: doc_view(*old(doc), blocks).lines + code_lines(code, tag, width as int, verdict_view(r.1), glyphs.ok@, glyphs.broken@),
                blocks: blocks.push(req),
                ..doc_view(*old(doc), blocks)
            }
            &&& r.0 as int == if j < l.len() { j + 1 } else { j }
            &&& checked(*check, req, verdict_view(r.1))
        }),
{
    let ghost l = views(ls@);
    let t = crate::text::trim_start_v(ls[i].as_slice());
    let after = slice_of(t.as_slice(), if t.len() >= 3 { 3 } else { t.len() }, t.len());
    proof {
        assert(t@.len() >= 3);
        assert(after@ =~= t@.skip(3));
    }
    let tag = crate::text::trim_v(after.as_slice());
    let n = ls.len();
    assert(i < n);
    let mut j = i + 1;
    proof {
        lemma_fence_end(l, i + 1, marker);
    }
    while j < ls.len() && crate::markdown::fence_open_v(crate::text::trim_start_v(ls[j].as_slice()).as_slice()) != Some(marker)
        invariant
            i + 1 <= j <= ls@.len(),
            l == views(ls@),
            fence_end(l, i + 1, marker) == fence_end(l, j as int, marker),
        decreases ls.len() - j,
    {
        j += 1;
    }
    proof {
        lemma_fence_end(l, j as int, marker);
    }
    let mut code: Vec<Vec<char>> = Vec::new();
    let mut k = i + 1;
    while k < j
        invariant
            i + 1 <= k <= j <= ls@.len(),
            l == views(ls@),
            views(code@) == l.subrange(i + 1, k as int),
        decreases j - k,
    {
        let ghost cb = views(code@);
        let row = slice_of(ls[k].as_slice(), 0, ls[k].len());
        assert(row@ =~= l[k as int]);
        code.push(row);
        proof {
            assert(views(code@) =~= cb.push(l[k as int]));
            assert(l.subrange(i + 1, k + 1) =~= l.subrange(i + 1, k as int).push(l[k as int]));
        }
        k += 1;
    }
    let nl = vec!['\n'];
    assert(nl@ =~= seq!['\n']);
    let source = crate::text::join_v(&code, nl.as_slice());
    let tag_s = string_of(tag.as_slice());
    let source_s = string_of(source.as_slice());
    let verdict = check(tag_s.as_str(), source_s.as_str());
    push_code_block(&mut doc.lines, &code, tag.as_slice(), width, &verdict, glyphs);
    let next = if j < ls.len() { j + 1 } else { j };
    proof {
        let req = (tag@, crate::text::join(views(code@), seq!['\n']));
        assert(checked(*check, req, verdict_view(verdict)));
    }
    (next, verdict)
}

/// A table at line `i`: its run of `|` rows.
fn table_v(doc: &mut RenderedDoc, ls: &Vec<Vec<char>>, i: usize, width: usize, Ghost(blocks): Ghost<Seq<(Seq<char>, Seq<char>)>>) -> (next: usize)
    requires
        i < ls@.len(),
        width <= 0xffff,
        starts_with(trim_start(ls@[i as int]@), seq!['|']),
    ensures
        ({
            let l = views(ls@);
            let j = table_end(l, i as int);
            &&& doc_view(*final(doc), blocks) == DocModel {
                lines: doc_view(*old(doc), blocks).lines + table_lines(l.subrange(i as int, j), width as int),
                ..doc_view(*old(doc), blocks)
            }
            &&& next as int == j
            &&& i < next <= ls@.len()
        }),
{
    let ghost l = views(ls@);
    let bar = vec!['|'];
    assert(bar@ =~= seq!['|']);
    let mut j = i;
    proof {
        lemma_table_end(l, i as int);
    }
    while j < ls.len() && crate::text::starts_with_v(crate::text::trim_start_v(ls[j].as_slice()).as_slice(), bar.as_slice())
        invariant
            i <= j <= ls@.len(),
            l == views(ls@),
            bar@ == seq!['|'],
            table_end(l, i as int) == table_end(l, j as int),
        decreases ls.len() - j,
    {
        j += 1;
    }
    proof {
        lemma_table_end(l, j as int);
    }
    let mut rows: Vec<Vec<char>> = Vec::new();
    let mut k = i;
    while k < j
        invariant
            i <= k <= j <= ls@.len(),
            l == views(ls@),
            views(rows@) == l.subrange(i as int, k as int),
        decreases j - k,
    {
        let ghost rb = views(rows@);
        let row = slice_of(ls[k].as_slice(), 0, ls[k].len());
        assert(row@ =~= l[k as int]);
        rows.push(row);
        proof {
            assert(views(rows@) =~= rb.push(l[k as int]));
            assert(l.subrange(i as int, k + 1) =~= l.subrange(i as int, k as int).push(l[k as int]));
        }
        k += 1;
    }
    push_table(&mut doc.lines, &rows, width);
    j
}


pub proof fn lemma_heading_bounds(line: Seq<char>)
    requires
        heading_line(line) is Some,
    ensures
        1 <= heading_line(line).unwrap().0 <= 6,
{
}

/// `vs` begins with the verdicts `acc`.
pub open spec fn extends(vs: Seq<Option<Result<(), Seq<char>>>>, acc: Seq<Option<Result<(), Seq<char>>>>) -> bool {
    acc.len() <= vs.len() && forall|k: int| 0 <= k < acc.len() ==> #[trigger] vs[k] == acc[k]
}

/// A one-line block (see [`line_block`]).
fn line_block_v(doc: &mut RenderedDoc, line: &[char], width: usize, focused: Option<usize>, Ghost(blocks): Ghost<Seq<(Seq<char>, Seq<char>)>>)
    requires
        width <= 0xffff,
    ensures
        doc_view(*final(doc), blocks) == line_block(doc_view(*old(doc), blocks), line@, width as int, focused),
{
    let t = crate::text::trim_start_v(line);
    match crate::markdown::heading_line_v(line) {
        Some((level, text)) => {
            proof {
                lemma_heading_bounds(line@);
            }
            heading_v(doc, level, text.as_slice(), width, focused, Ghost(blocks));
            return;
        },
        None => {},
    }
    if is_hr(t.as_slice()) {
        with_line_v(doc, rule_line_v(width), Ghost(blocks));
        return;
    }
    if t.len() == 0 {
        let empty: Vec<Span> = Vec::new();
        assert(line_view(empty@) =~= Seq::<SpanView>::empty());
        with_line_v(doc, empty, Ghost(blocks));
        return;
    }
    match footnote_def(t.as_slice()) {
        Some((label, rest)) => {
            note_v(doc, label.as_slice(), rest.as_slice(), width, focused, Ghost(blocks));
            return;
        },
        None => {},
    }
    assert(t@.subrange(0, 1) =~= seq![t@[0]]);
    if t[0] == '>' {
        assert(starts_with(t@, seq!['>']));
        let after = slice_of(t.as_slice(), 1, t.len());
        assert(after@ =~= t@.skip(1));
        let rest = crate::text::trim_start_v(after.as_slice());
        let bar = vec!['│', ' '];
        proof {
            reveal_strlit("│ ");
            assert(bar@ =~= "│ "@);
        }
        let gutter = vec![span_of(bar.as_slice(), TextStyle::of(Tone::Muted))];
        assert(line_view(gutter@) =~= seq![("│ "@, toned(Tone::Muted))]);
        inline_wrap_v(doc, rest.as_slice(), TextStyle::of(Tone::Muted), focused, width, &gutter, &gutter, Ghost(blocks));
        return;
    }
    assert(!starts_with(t@, seq!['>'])) by {
        if starts_with(t@, seq!['>']) {
            assert(t@.subrange(0, 1)[0] == seq!['>'][0]);
        }
    }
    match list_marker(line) {
        Some((marker, rest)) => {
            list_v(doc, line, marker.as_slice(), rest.as_slice(), width, focused, Ghost(blocks));
            return;
        },
        None => {},
    }
    let none: Vec<Span> = Vec::new();
    assert(line_view(none@) =~= Seq::<SpanView>::empty());
    inline_wrap_v(doc, line, TextStyle::of(Tone::Plain), focused, width, &none, &none, Ghost(blocks));
}

/// Renders a document body at a pane width: the styled lines, the focus
/// map of its links and footnote references (`focused` selects which one
/// renders reversed), the outline, and the footnote definitions. `check`
/// is asked for the syntax verdict of each fenced code block, by its
/// language tag and source.
pub fn render_document<F: Fn(&str, &str) -> Verdict>(
    body: &str,
    width: u16,
    glyphs: &Glyphs,
    focused: Option<usize>,
    check: F,
) -> (r: RenderedDoc)
    requires
        forall|t: &str, src: &str| call_requires(check, (t, src)),
    ensures
        exists|vs: Seq<Option<Result<(), Seq<char>>>>| {
            let m = #[trigger] rendered(body@, width, focused, vs, glyphs.ok@, glyphs.broken@);
            &&& vs.len() == m.blocks.len()
            &&& forall|k: int| 0 <= k < vs.len() ==> checked(check, m.blocks[k], vs[k])
            &&& doc_view(r, m.blocks) == m
        },
{
    let w: usize = if width < 10 { 10 } else { width as usize };
    let bv = chars_of(body);
    let (expanded, _) = crate::markdown::expand_wikilinks_v(bv.as_slice());
    let ls = crate::text::lines_v(expanded.as_slice());
    let ghost l = views(ls@);
    let ghost ok = glyphs.ok@;
    let ghost br = glyphs.broken@;
    let mut doc = RenderedDoc { lines: Vec::new(), links: Vec::new(), headings: Vec::new(), footnote_defs: Vec::new() };
    let ghost mut blocks: Seq<(Seq<char>, Seq<char>)> = Seq::empty();
    let ghost mut acc: Seq<Option<Result<(), Seq<char>>>> = Seq::empty();
    proof {
        assert(doc_view(doc, blocks) =~= empty_doc()) by {
            assert(lines_view(doc.lines@) =~= Seq::<Seq<SpanView>>::empty());
            assert(focus_specs(doc.links@) =~= Seq::<FocusSpec>::empty());
            assert(target_lines(doc.links@) =~= Seq::<usize>::empty());
            assert(heading_views(doc.headings@) =~= Seq::<(usize, usize, Seq<char>)>::empty());
            assert(note_views(doc.footnote_defs@) =~= Seq::<(Seq<char>, usize)>::empty());
        }
    }
    let mut i: usize = 0;
    while i < ls.len()
        invariant
            i <= ls@.len(),
            l == views(ls@),
            l == crate::text::lines(crate::markdown::expand_wikis(body@).0),
            w as int == pane_width(width),
            w <= 0xffff,
            ok == glyphs.ok@,
            br == glyphs.broken@,
            blocks.len() == acc.len(),
            forall|t: &str, src: &str| call_requires(check, (t, src)),
            forall|k: int| 0 <= k < acc.len() ==> checked(check, blocks[k], acc[k]),
            forall|vs: Seq<Option<Result<(), Seq<char>>>>| extends(vs, acc) ==>
                #[trigger] doc_from(l, 0, empty_doc(), w as int, focused, vs, ok, br)
                    == doc_from(l, i as int, doc_view(doc, blocks), w as int, focused, vs, ok, br),
        decreases ls.len() - i,
    {
        let ghost d0 = doc_view(doc, blocks);
        let ghost acc0 = acc;
        let ghost blocks0 = blocks;
        let t = crate::text::trim_start_v(ls[i].as_slice());
        let bar = vec!['|'];
        assert(bar@ =~= seq!['|']);
        match crate::markdown::fence_open_v(t.as_slice()) {
            Some(m) => {
                let (next, verdict) = code_block_v(&mut doc, &ls, i, m, w, glyphs, &check, Ghost(blocks));
                proof {
                    let tt = trim_start(l[i as int]);
                    let j = fence_end(l, i + 1, m);
                    let code = l.subrange(i + 1, j);
                    let tag = trim(tt.skip(3));
                    let req = (tag, crate::text::join(code, seq!['\n']));
                    blocks = blocks.push(req);
                    acc = acc.push(verdict_view(verdict));
                    lemma_fence_end(l, i + 1, m);
                    assert forall|vs: Seq<Option<Result<(), Seq<char>>>>| extends(vs, acc) implies
                        #[trigger] doc_from(l, 0, empty_doc(), w as int, focused, vs, ok, br)
                            == doc_from(l, next as int, doc_view(doc, blocks), w as int, focused, vs, ok, br) by {
                        assert(extends(vs, acc0)) by {
                            assert forall|k: int| 0 <= k < acc0.len() implies #[trigger] vs[k] == acc0[k] by {
                                assert(vs[k] == acc[k]);
                            }
                        }
                        assert(verdict_at(vs, d0.blocks.len() as int) == verdict_view(verdict)) by {
                            assert(vs[acc0.len() as int] == acc[acc0.len() as int]);
                        }
                        let (d1, nx) = block_at(l, i as int, d0, w as int, focused, vs, ok, br);
                        assert(d1 == doc_view(doc, blocks));
                        assert(nx == next as int);
                    }
                    assert forall|k: int| 0 <= k < acc.len() implies checked(check, blocks[k], acc[k]) by {
                        if k < acc0.len() {
                            assert(blocks[k] == blocks0[k] && acc[k] == acc0[k]);
                        }
                    }
                }
                i = next;
            },
            None => {
                if crate::text::starts_with_v(t.as_slice(), bar.as_slice()) {
                    let next = table_v(&mut doc, &ls, i, w, Ghost(blocks));
                    proof {
                        assert forall|vs: Seq<Option<Result<(), Seq<char>>>>| extends(vs, acc) implies
                            #[trigger] doc_from(l, 0, empty_doc(), w as int, focused, vs, ok, br)
                                == doc_from(l, next as int, doc_view(doc, blocks), w as int, focused, vs, ok, br) by {
                            let (d1, nx) = block_at(l, i as int, d0, w as int, focused, vs, ok, br);
                            assert(d1 == doc_view(doc, blocks));
                            assert(nx == next as int);
                        }
                    }
                    i = next;
                } else {
                    line_block_v(&mut doc, ls[i].as_slice(), w, focused, Ghost(blocks));
                    proof {
                        assert forall|vs: Seq<Option<Result<(), Seq<char>>>>| extends(vs, acc) implies
                            #[trigger] doc_from(l, 0, empty_doc(), w as int, focused, vs, ok, br)
                                == doc_from(l, i + 1, doc_view(doc, blocks), w as int, focused, vs, ok, br) by {
                            let (d1, nx) = block_at(l, i as int, d0, w as int, focused, vs, ok, br);
                            assert(d1 == doc_view(doc, blocks));
                            assert(nx == i + 1);
                        }
                    }
                    i += 1;
                }
            },
        }
    }
    proof {
        assert(extends(acc, acc));
        let m = rendered(body@, width, focused, acc, ok, br);
        assert(m == doc_view(doc, blocks));
        assert(m.blocks == blocks);
    }
    doc
}

} // verus!
