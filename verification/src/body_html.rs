//! A concept body rendered to HTML: the CommonMark parse and HTML writer of
//! `pulldown-cmark`, with the page's own pass over the event stream in
//! between. That pass drops raw HTML (bodies never pass markup through),
//! turns ```` ```mermaid ```` blocks into `<pre class="mermaid">` elements
//! holding the escaped diagram source, and gives every heading the
//! GitHub-style anchor id the table of contents links to.
//!
//! The pass works on [`MdEvent`], which holds of each parser event what the
//! pass reads; its result is a plan of [`Emit`] steps, which the writer
//! carries out over the parser's own events.
use crate::chars::{chars_of, string_of};
use crate::concept_id::ConceptId;
use crate::links::{classify_spec, id_views, resolve_all_spec, Link, LinkKind};
use crate::markdown::{answered, answers_for, clean_dest, is_prose, rewrite_body, rewrite_markdown_links, rw_sites, slug, LinkRewriteAction};
use crate::text::{join, lines};
use crate::site::{escape_pre, is_mermaid_info, mermaid_info, pre_text, RenderedBody};
use crate::slugs::{allocated, first_free, suffixed, SlugAllocator};
use crate::text::{push_all, push_str};
use pulldown_cmark::{CodeBlockKind, Event, Options, Parser, Tag, TagEnd};
use vstd::prelude::*;

verus! {

/// What the pass reads of one parser event.
#[derive(Clone, Debug)]
pub enum MdEvent {
    /// A text node.
    Text(String),
    /// Raw HTML, block or inline.
    RawHtml,
    /// The start of a heading, with its level (1 to 6).
    HeadingStart(u8),
    /// The end of a heading, with its level.
    HeadingEnd(u8),
    /// The start of a fenced code block, with its info string.
    FencedStart(String),
    /// The end of a code block.
    CodeEnd,
    /// Any other event.
    Other,
}

/// What an [`MdEvent`] says.
pub ghost enum MdEventV {
    Text(Seq<char>),
    RawHtml,
    HeadingStart(int),
    HeadingEnd(int),
    FencedStart(Seq<char>),
    CodeEnd,
    Other,
}

impl View for MdEvent {
    type V = MdEventV;

    open spec fn view(&self) -> MdEventV {
        match self {
            MdEvent::Text(t) => MdEventV::Text(t@),
            MdEvent::RawHtml => MdEventV::RawHtml,
            MdEvent::HeadingStart(l) => MdEventV::HeadingStart(*l as int),
            MdEvent::HeadingEnd(l) => MdEventV::HeadingEnd(*l as int),
            MdEvent::FencedStart(i) => MdEventV::FencedStart(i@),
            MdEvent::CodeEnd => MdEventV::CodeEnd,
            MdEvent::Other => MdEventV::Other,
        }
    }
}

/// One step of the writer's input.
#[derive(Clone, Debug)]
pub enum Emit {
    /// The parser's event at this index, as it is.
    Keep(usize),
    /// Markup of the page's own.
    Html(String),
    /// The heading start at this index, with the anchor id given (the
    /// parser's own id when none is).
    Heading(usize, Option<String>),
}

/// What an [`Emit`] says.
pub ghost enum EmitV {
    Keep(int),
    Html(Seq<char>),
    Heading(int, Option<Seq<char>>),
}

impl View for Emit {
    type V = EmitV;

    open spec fn view(&self) -> EmitV {
        match self {
            Emit::Keep(k) => EmitV::Keep(*k as int),
            Emit::Html(s) => EmitV::Html(s@),
            Emit::Heading(k, id) => EmitV::Heading(
                *k as int,
                match id {
                    Some(s) => Some(s@),
                    None => None,
                },
            ),
        }
    }
}

pub open spec fn events_view(v: Seq<MdEvent>) -> Seq<MdEventV> {
    v.map_values(|e: MdEvent| e@)
}

pub open spec fn emits_view(v: Seq<Emit>) -> Seq<EmitV> {
    v.map_values(|e: Emit| e@)
}

/// The events `pulldown-cmark` parses a text into, tables enabled, as the
/// pass reads them.
pub uninterp spec fn cmark_events_spec(text: Seq<char>) -> Seq<MdEventV>;

/// The HTML `pulldown-cmark` writes for the events of a text, carried out
/// step by step as a plan says.
pub uninterp spec fn cmark_html_spec(text: Seq<char>, plan: Seq<EmitV>) -> Seq<char>;

/// Calls `pulldown_cmark::Parser::new_ext` with tables enabled and reads
/// each event as an [`MdEvent`]: one per event, in order. Named
/// [`cmark_events_spec`]; the parser is a function of its text alone.
#[verifier::external_body]
fn cmark_events(text: &str) -> (r: Vec<MdEvent>)
    ensures
        events_view(r@) == cmark_events_spec(text@),
{
    Parser::new_ext(text, Options::ENABLE_TABLES).map(|e| match e {
        Event::Text(t) => MdEvent::Text(t.to_string()),
        Event::Html(_) | Event::InlineHtml(_) => MdEvent::RawHtml,
        Event::Start(Tag::Heading { level, .. }) => MdEvent::HeadingStart(level as u8),
        Event::End(TagEnd::Heading(level)) => MdEvent::HeadingEnd(level as u8),
        Event::Start(Tag::CodeBlock(CodeBlockKind::Fenced(info))) => MdEvent::FencedStart(info.to_string()),
        Event::End(TagEnd::CodeBlock) => MdEvent::CodeEnd,
        _ => MdEvent::Other,
    }).collect()
}

/// The plan's indices name events of the text.
pub open spec fn plan_fits(plan: Seq<EmitV>, n: int) -> bool {
    forall|i: int| 0 <= i < plan.len() ==> match #[trigger] plan[i] {
        EmitV::Keep(k) => 0 <= k < n,
        EmitV::Heading(k, _) => 0 <= k < n,
        EmitV::Html(_) => true,
    }
}

/// Calls `pulldown_cmark::html::push_html` on the events of `text` (parsed
/// again, as [`cmark_events`] parses it) converted step by step from the
/// plan: a kept event as it is, the page's markup as an `Html` event, a
/// heading start with its id replaced. Named [`cmark_html_spec`].
#[verifier::external_body]
fn cmark_html(text: &str, plan: &Vec<Emit>) -> (r: String)
    requires
        plan_fits(emits_view(plan@), cmark_events_spec(text@).len() as int),
    ensures
        r@ == cmark_html_spec(text@, emits_view(plan@)),
{
    let evs: Vec<Event> = Parser::new_ext(text, Options::ENABLE_TABLES).collect();
    let out = plan.iter().map(|p| match p {
        Emit::Keep(k) => evs[*k].clone(),
        Emit::Html(s) => Event::Html(s.clone().into()),
        Emit::Heading(k, id) => match evs[*k].clone() {
            Event::Start(Tag::Heading { level, id: old, classes, attrs }) =>
                Event::Start(Tag::Heading { level, id: id.clone().map(Into::into).or(old), classes, attrs }),
            other => other,
        },
    });
    let mut html = String::new();
    pulldown_cmark::html::push_html(&mut html, out);
    html
}

// ---------------------------------------------------------------------------
// The pass.
// ---------------------------------------------------------------------------

/// The anchor one allocator with `used` taken hands out for a heading text:
/// its slug with the first free `-n` suffix, or the empty slug as it is.
pub open spec fn anchor_for(used: Set<Seq<char>>, text: Seq<char>) -> Seq<char> {
    if slug(text).len() == 0 {
        slug(text)
    } else {
        suffixed(slug(text), choose|n: nat| first_free(used, slug(text), n))
    }
}

/// The anchors taken after handing one out.
pub open spec fn used_after(used: Set<Seq<char>>, text: Seq<char>) -> Set<Seq<char>> {
    if slug(text).len() == 0 {
        used
    } else {
        used.insert(anchor_for(used, text))
    }
}

pub proof fn lemma_allocated_is_anchor_for(before: Set<Seq<char>>, text: Seq<char>, r: Seq<char>, after: Set<Seq<char>>)
    requires
        allocated(before, text, r, after),
    ensures
        r == anchor_for(before, text),
        after == used_after(before, text),
{
    if slug(text).len() > 0 {
        let a = choose|n: nat| #[trigger] first_free(before, slug(text), n) && r == suffixed(slug(text), n);
        let b = choose|n: nat| first_free(before, slug(text), n);
        crate::slugs::lemma_first_free_unique(before, slug(text), a, b);
    }
}

/// A mermaid block's source from `j` to its end: its text, the other
/// events met (to be written after the block), and where the block ends.
/// Raw HTML inside is dropped.
pub open spec fn drain_code(ev: Seq<MdEventV>, j: int) -> (Seq<char>, Seq<EmitV>, int)
    decreases ev.len() - j,
{
    if j < 0 || j >= ev.len() {
        (Seq::empty(), Seq::empty(), ev.len() as int)
    } else {
        match ev[j] {
            MdEventV::CodeEnd => (Seq::empty(), Seq::empty(), j + 1),
            MdEventV::Text(t) => {
                let r = drain_code(ev, j + 1);
                (t + r.0, r.1, r.2)
            },
            MdEventV::RawHtml => drain_code(ev, j + 1),
            _ => {
                let r = drain_code(ev, j + 1);
                (r.0, seq![EmitV::Keep(j)] + r.1, r.2)
            },
        }
    }
}

/// A heading's events from `j` to its end at level `l`: its text, the
/// events kept (written after the start), and where it ends. Raw HTML is
/// dropped, and so is the end event itself.
pub open spec fn drain_heading(ev: Seq<MdEventV>, j: int, l: int) -> (Seq<char>, Seq<EmitV>, int)
    decreases ev.len() - j,
{
    if j < 0 || j >= ev.len() {
        (Seq::empty(), Seq::empty(), ev.len() as int)
    } else {
        match ev[j] {
            MdEventV::HeadingEnd(m) => if m == l {
                (Seq::empty(), Seq::empty(), j + 1)
            } else {
                let r = drain_heading(ev, j + 1, l);
                (r.0, seq![EmitV::Keep(j)] + r.1, r.2)
            },
            MdEventV::Text(t) => {
                let r = drain_heading(ev, j + 1, l);
                (t + r.0, seq![EmitV::Keep(j)] + r.1, r.2)
            },
            MdEventV::RawHtml => drain_heading(ev, j + 1, l),
            _ => {
                let r = drain_heading(ev, j + 1, l);
                (r.0, seq![EmitV::Keep(j)] + r.1, r.2)
            },
        }
    }
}

/// The `<pre>` a mermaid block becomes.
pub open spec fn mermaid_pre(src: Seq<char>) -> Seq<char> {
    "<pre class=\"mermaid\">"@ + pre_text(src) + "</pre>"@
}

/// The pass from event `i` on, with the anchors `used` taken: the plan,
/// whether a mermaid block was met, and the headings as `(level, text,
/// anchor)`.
pub open spec fn intercepted(ev: Seq<MdEventV>, i: int, used: Set<Seq<char>>) -> (Seq<EmitV>, bool, Seq<(int, Seq<char>, Seq<char>)>)
    decreases ev.len() - i,
{
    if i < 0 || i >= ev.len() {
        (Seq::empty(), false, Seq::empty())
    } else {
        match ev[i] {
            MdEventV::RawHtml => intercepted(ev, i + 1, used),
            MdEventV::FencedStart(info) => if mermaid_info(info) {
                let d = drain_code(ev, i + 1);
                if d.2 <= i || d.2 > ev.len() {
                    (Seq::empty(), true, Seq::empty())
                } else {
                    let r = intercepted(ev, d.2, used);
                    (seq![EmitV::Html(mermaid_pre(d.0))] + d.1 + r.0, true, r.2)
                }
            } else {
                let r = intercepted(ev, i + 1, used);
                (seq![EmitV::Keep(i)] + r.0, r.1, r.2)
            },
            MdEventV::HeadingStart(l) => {
                let d = drain_heading(ev, i + 1, l);
                let a = anchor_for(used, d.0);
                let id = if a.len() == 0 { None } else { Some(a) };
                if d.2 <= i || d.2 > ev.len() {
                    (Seq::empty(), false, Seq::empty())
                } else {
                    let r = intercepted(ev, d.2, used_after(used, d.0));
                    (seq![EmitV::Heading(i, id)] + d.1 + r.0, r.1, seq![(l, d.0, a)] + r.2)
                }
            },
            _ => {
                let r = intercepted(ev, i + 1, used);
                (seq![EmitV::Keep(i)] + r.0, r.1, r.2)
            },
        }
    }
}

pub proof fn lemma_drain_code(ev: Seq<MdEventV>, j: int)
    requires
        0 <= j <= ev.len(),
    ensures
        j <= drain_code(ev, j).2 <= ev.len(),
        plan_fits(drain_code(ev, j).1, ev.len() as int),
    decreases ev.len() - j,
{
    if j < ev.len() {
        lemma_drain_code(ev, j + 1);
        let r = drain_code(ev, j + 1);
        let q = seq![EmitV::Keep(j)] + r.1;
        assert forall|i: int| 0 <= i < q.len() implies match #[trigger] q[i] {
            EmitV::Keep(k) => 0 <= k < ev.len(),
            EmitV::Heading(k, _) => 0 <= k < ev.len(),
            EmitV::Html(_) => true,
        } by {
            if i > 0 {
                assert(q[i] == r.1[i - 1]);
            }
        }
    }
}

pub proof fn lemma_drain_heading(ev: Seq<MdEventV>, j: int, l: int)
    requires
        0 <= j <= ev.len(),
    ensures
        j <= drain_heading(ev, j, l).2 <= ev.len(),
        plan_fits(drain_heading(ev, j, l).1, ev.len() as int),
    decreases ev.len() - j,
{
    if j < ev.len() {
        lemma_drain_heading(ev, j + 1, l);
        let r = drain_heading(ev, j + 1, l);
        let q = seq![EmitV::Keep(j)] + r.1;
        assert forall|i: int| 0 <= i < q.len() implies match #[trigger] q[i] {
            EmitV::Keep(k) => 0 <= k < ev.len(),
            EmitV::Heading(k, _) => 0 <= k < ev.len(),
            EmitV::Html(_) => true,
        } by {
            if i > 0 {
                assert(q[i] == r.1[i - 1]);
            }
        }
    }
}

pub proof fn lemma_plan_fits_concat(a: Seq<EmitV>, b: Seq<EmitV>, n: int)
    requires
        plan_fits(a, n),
        plan_fits(b, n),
    ensures
        plan_fits(a + b, n),
{
    let c = a + b;
    assert forall|i: int| 0 <= i < c.len() implies match #[trigger] c[i] {
        EmitV::Keep(k) => 0 <= k < n,
        EmitV::Heading(k, _) => 0 <= k < n,
        EmitV::Html(_) => true,
    } by {
        if i < a.len() {
            assert(c[i] == a[i]);
        } else {
            assert(c[i] == b[i - a.len()]);
        }
    }
}

/// Every index the pass writes names an event.
pub proof fn lemma_intercepted_fits(ev: Seq<MdEventV>, i: int, used: Set<Seq<char>>)
    requires
        0 <= i,
    ensures
        plan_fits(intercepted(ev, i, used).0, ev.len() as int),
    decreases ev.len() - i,
{
    if i < ev.len() {
        match ev[i] {
            MdEventV::RawHtml => lemma_intercepted_fits(ev, i + 1, used),
            MdEventV::FencedStart(info) => if mermaid_info(info) {
                let d = drain_code(ev, i + 1);
                lemma_drain_code(ev, i + 1);
                if d.2 > i && d.2 <= ev.len() {
                    lemma_intercepted_fits(ev, d.2, used);
                    let h = seq![EmitV::Html(mermaid_pre(d.0))];
                    assert(plan_fits(h, ev.len() as int)) by {
                        assert forall|k: int| 0 <= k < h.len() implies match #[trigger] h[k] {
                            EmitV::Keep(x) => 0 <= x < ev.len(),
                            EmitV::Heading(x, _) => 0 <= x < ev.len(),
                            EmitV::Html(_) => true,
                        } by {
                            assert(h[k] == EmitV::Html(mermaid_pre(d.0)));
                        }
                    }
                    lemma_plan_fits_concat(h, d.1, ev.len() as int);
                    lemma_plan_fits_concat(h + d.1, intercepted(ev, d.2, used).0, ev.len() as int);
                }
            } else {
                lemma_intercepted_fits(ev, i + 1, used);
                lemma_keep_head(ev, i, intercepted(ev, i + 1, used).0);
            },
            MdEventV::HeadingStart(l) => {
                let d = drain_heading(ev, i + 1, l);
                lemma_drain_heading(ev, i + 1, l);
                if d.2 > i && d.2 <= ev.len() {
                    let a = anchor_for(used, d.0);
                    let id = if a.len() == 0 { None } else { Some(a) };
                    lemma_intercepted_fits(ev, d.2, used_after(used, d.0));
                    let h = seq![EmitV::Heading(i, id)];
                    assert(plan_fits(h, ev.len() as int)) by {
                        assert forall|k: int| 0 <= k < h.len() implies match #[trigger] h[k] {
                            EmitV::Keep(x) => 0 <= x < ev.len(),
                            EmitV::Heading(x, _) => 0 <= x < ev.len(),
                            EmitV::Html(_) => true,
                        } by {
                            assert(h[k] == EmitV::Heading(i, id));
                        }
                    }
                    lemma_plan_fits_concat(h, d.1, ev.len() as int);
                    lemma_plan_fits_concat(h + d.1, intercepted(ev, d.2, used_after(used, d.0)).0, ev.len() as int);
                }
            },
            _ => {
                lemma_intercepted_fits(ev, i + 1, used);
                lemma_keep_head(ev, i, intercepted(ev, i + 1, used).0);
            },
        }
    }
}

pub proof fn lemma_keep_head(ev: Seq<MdEventV>, i: int, rest: Seq<EmitV>)
    requires
        0 <= i < ev.len(),
        plan_fits(rest, ev.len() as int),
    ensures
        plan_fits(seq![EmitV::Keep(i)] + rest, ev.len() as int),
{
    let h = seq![EmitV::Keep(i)];
    assert forall|k: int| 0 <= k < h.len() implies match #[trigger] h[k] {
        EmitV::Keep(x) => 0 <= x < ev.len(),
        EmitV::Heading(x, _) => 0 <= x < ev.len(),
        EmitV::Html(_) => true,
    } by {
        assert(h[k] == EmitV::Keep(i));
    }
    lemma_plan_fits_concat(h, rest, ev.len() as int);
}

fn copy_emit(e: &Emit) -> (r: Emit)
    ensures
        r@ == e@,
{
    match e {
        Emit::Keep(k) => Emit::Keep(*k),
        Emit::Html(h) => Emit::Html(string_of(chars_of(h.as_str()).as_slice())),
        Emit::Heading(k, id) => Emit::Heading(
            *k,
            match id {
                Some(a) => Some(string_of(chars_of(a.as_str()).as_slice())),
                None => None,
            },
        ),
    }
}

fn push_emit(out: &mut Vec<Emit>, e: Emit)
    ensures
        emits_view(final(out)@) == emits_view(old(out)@).push(e@),
{
    out.push(e);
    assert(emits_view(out@) =~= emits_view(old(out)@).push(e@));
}

/// A mermaid block's source, from `j` on (see [`drain_code`]); the other
/// events met are added to `out`.
fn drain_code_v(ev: &Vec<MdEvent>, j: usize, out: &mut Vec<Emit>) -> (r: (Vec<char>, usize))
    ensures
        r.0@ == drain_code(events_view(ev@), j as int).0,
        emits_view(final(out)@) == emits_view(old(out)@) + drain_code(events_view(ev@), j as int).1,
        r.1 == drain_code(events_view(ev@), j as int).2,
{
    let ghost evv = events_view(ev@);
    let ghost start = emits_view(out@);
    let mut src: Vec<char> = Vec::new();
    let mut k: usize = j;
    proof {
        assert(src@ + drain_code(evv, k as int).0 =~= drain_code(evv, j as int).0);
        assert(emits_view(out@) + drain_code(evv, k as int).1 =~= start + drain_code(evv, j as int).1);
    }
    while k < ev.len()
        invariant
            j <= k,
            evv == events_view(ev@),
            start == emits_view(old(out)@),
            src@ + drain_code(evv, k as int).0 == drain_code(evv, j as int).0,
            emits_view(out@) + drain_code(evv, k as int).1 == start + drain_code(evv, j as int).1,
            drain_code(evv, k as int).2 == drain_code(evv, j as int).2,
        decreases ev.len() - k,
    {
        let ghost before = emits_view(out@);
        let ghost sb = src@;
        let ghost r = drain_code(evv, k + 1);
        assert(evv[k as int] == ev@[k as int]@);
        match &ev[k] {
            MdEvent::CodeEnd => {
                proof {
                    assert(src@ + Seq::<char>::empty() =~= src@);
                    assert(before + Seq::<EmitV>::empty() =~= before);
                }
                return (src, k + 1);
            },
            MdEvent::Text(t) => {
                let tv = chars_of(t.as_str());
                push_all(&mut src, tv.as_slice());
                proof {
                    assert(sb + (tv@ + r.0) =~= src@ + r.0);
                }
            },
            MdEvent::RawHtml => {},
            _ => {
                push_emit(out, Emit::Keep(k));
                proof {
                    assert(before + (seq![EmitV::Keep(k as int)] + r.1) =~= emits_view(out@) + r.1);
                }
            },
        }
        k += 1;
    }
    proof {
        assert(src@ + Seq::<char>::empty() =~= src@);
        assert(emits_view(out@) + Seq::<EmitV>::empty() =~= emits_view(out@));
    }
    (src, ev.len())
}

/// A heading's events from `j` on at level `l` (see [`drain_heading`]); the
/// events kept are added to `out`.
fn drain_heading_v(ev: &Vec<MdEvent>, j: usize, l: u8, out: &mut Vec<Emit>) -> (r: (Vec<char>, usize))
    ensures
        r.0@ == drain_heading(events_view(ev@), j as int, l as int).0,
        emits_view(final(out)@) == emits_view(old(out)@) + drain_heading(events_view(ev@), j as int, l as int).1,
        r.1 == drain_heading(events_view(ev@), j as int, l as int).2,
{
    let ghost evv = events_view(ev@);
    let ghost start = emits_view(out@);
    let ghost li = l as int;
    let mut text: Vec<char> = Vec::new();
    let mut k: usize = j;
    proof {
        assert(text@ + drain_heading(evv, k as int, li).0 =~= drain_heading(evv, j as int, li).0);
        assert(emits_view(out@) + drain_heading(evv, k as int, li).1 =~= start + drain_heading(evv, j as int, li).1);
    }
    while k < ev.len()
        invariant
            j <= k,
            evv == events_view(ev@),
            li == l as int,
            start == emits_view(old(out)@),
            text@ + drain_heading(evv, k as int, li).0 == drain_heading(evv, j as int, li).0,
            emits_view(out@) + drain_heading(evv, k as int, li).1 == start + drain_heading(evv, j as int, li).1,
            drain_heading(evv, k as int, li).2 == drain_heading(evv, j as int, li).2,
        decreases ev.len() - k,
    {
        let ghost before = emits_view(out@);
        let ghost sb = text@;
        let ghost r = drain_heading(evv, k + 1, li);
        assert(evv[k as int] == ev@[k as int]@);
        match &ev[k] {
            MdEvent::HeadingEnd(m) => {
                if *m == l {
                    proof {
                        assert(text@ + Seq::<char>::empty() =~= text@);
                        assert(before + Seq::<EmitV>::empty() =~= before);
                    }
                    return (text, k + 1);
                }
                push_emit(out, Emit::Keep(k));
                proof {
                    assert(before + (seq![EmitV::Keep(k as int)] + r.1) =~= emits_view(out@) + r.1);
                }
            },
            MdEvent::Text(t) => {
                let tv = chars_of(t.as_str());
                push_all(&mut text, tv.as_slice());
                push_emit(out, Emit::Keep(k));
                proof {
                    assert(sb + (tv@ + r.0) =~= text@ + r.0);
                    assert(before + (seq![EmitV::Keep(k as int)] + r.1) =~= emits_view(out@) + r.1);
                }
            },
            MdEvent::RawHtml => {},
            _ => {
                push_emit(out, Emit::Keep(k));
                proof {
                    assert(before + (seq![EmitV::Keep(k as int)] + r.1) =~= emits_view(out@) + r.1);
                }
            },
        }
        k += 1;
    }
    proof {
        assert(text@ + Seq::<char>::empty() =~= text@);
        assert(emits_view(out@) + Seq::<EmitV>::empty() =~= emits_view(out@));
    }
    (text, ev.len())
}

/// The headings as `(level, text, anchor)`.
pub open spec fn heading_rows(v: Seq<(usize, String, String)>) -> Seq<(int, Seq<char>, Seq<char>)> {
    v.map_values(|h: (usize, String, String)| (h.0 as int, h.1@, h.2@))
}

/// The page's pass over a body's events: raw HTML dropped, each mermaid
/// block turned into a `<pre class="mermaid">` with its source escaped
/// (and whether there was one), and each heading given its anchor id, in
/// order, by one allocator. Returns the plan for the writer, whether a
/// mermaid block was met, and the headings as `(level, text, anchor)`.
pub fn intercept(events: &Vec<MdEvent>) -> (r: (Vec<Emit>, bool, Vec<(usize, String, String)>))
    ensures
        (emits_view(r.0@), r.1, heading_rows(r.2@)) == intercepted(events_view(events@), 0, Set::empty()),
{
    let ghost evv = events_view(events@);
    let mut out: Vec<Emit> = Vec::new();
    let mut has_mermaid = false;
    let mut heads: Vec<(usize, String, String)> = Vec::new();
    let mut alloc = SlugAllocator::default();
    let mut i: usize = 0;
    let ghost whole = intercepted(evv, 0, Set::empty());
    proof {
        assert(emits_view(out@) + intercepted(evv, 0, alloc@).0 =~= whole.0);
        assert(heading_rows(heads@) + intercepted(evv, 0, alloc@).2 =~= whole.2);
    }
    while i < events.len()
        invariant
            evv == events_view(events@),
            whole == intercepted(evv, 0, Set::empty()),
            emits_view(out@) + intercepted(evv, i as int, alloc@).0 == whole.0,
            (has_mermaid || intercepted(evv, i as int, alloc@).1) == whole.1,
            heading_rows(heads@) + intercepted(evv, i as int, alloc@).2 == whole.2,
        decreases events.len() - i,
    {
        let ghost before = emits_view(out@);
        let ghost hb = heading_rows(heads@);
        let ghost used = alloc@;
        assert(evv[i as int] == events@[i as int]@);
        match &events[i] {
            MdEvent::RawHtml => {
                i += 1;
            },
            MdEvent::FencedStart(info) => {
                if is_mermaid_info(info.as_str()) {
                    let ghost d = drain_code(evv, i + 1);
                    proof {
                        lemma_drain_code(evv, i + 1);
                    }
                    let mut pre: Vec<char> = Vec::new();
                    push_str(&mut pre, "<pre class=\"mermaid\">");
                    let mut block: Vec<Emit> = Vec::new();
                    let (src, next) = drain_code_v(events, i + 1, &mut block);
                    let s = string_of(src.as_slice());
                    let esc = escape_pre(s.as_str());
                    push_str(&mut pre, esc.as_str());
                    push_str(&mut pre, "</pre>");
                    push_emit(&mut out, Emit::Html(string_of(pre.as_slice())));
                    let ghost mid = emits_view(out@);
                    let mut b: usize = 0;
                    while b < block.len()
                        invariant
                            b <= block@.len(),
                            emits_view(out@) == mid + emits_view(block@).take(b as int),
                        decreases block.len() - b,
                    {
                        push_emit(&mut out, copy_emit(&block[b]));
                        proof {
                            assert(emits_view(block@).take(b + 1) =~= emits_view(block@).take(b as int).push(block@[b as int]@));
                        }
                        b += 1;
                    }
                    has_mermaid = true;
                    proof {
                        assert(emits_view(block@).take(b as int) =~= emits_view(block@));
                        assert(emits_view(block@) =~= d.1);
                        assert(pre@ =~= mermaid_pre(d.0));
                        let r = intercepted(evv, next as int, used);
                        assert(before + (seq![EmitV::Html(mermaid_pre(d.0))] + d.1 + r.0) =~= emits_view(out@) + r.0);
                    }
                    i = next;
                } else {
                    push_emit(&mut out, Emit::Keep(i));
                    proof {
                        let r = intercepted(evv, i + 1, used);
                        assert(before + (seq![EmitV::Keep(i as int)] + r.0) =~= emits_view(out@) + r.0);
                    }
                    i += 1;
                }
            },
            MdEvent::HeadingStart(l) => {
                let l = *l;
                let ghost d = drain_heading(evv, i + 1, l as int);
                proof {
                    lemma_drain_heading(evv, i + 1, l as int);
                }
                let mut block: Vec<Emit> = Vec::new();
                let (text_v, next) = drain_heading_v(events, i + 1, l, &mut block);
                let text = string_of(text_v.as_slice());
                let anchor = alloc.allocate(text.as_str());
                proof {
                    lemma_allocated_is_anchor_for(used, d.0, anchor@, alloc@);
                }
                let id: Option<String> = if anchor.as_str().is_empty() { None } else { Some(anchor.clone()) };
                push_emit(&mut out, Emit::Heading(i, id));
                let ghost mid = emits_view(out@);
                let mut b: usize = 0;
                while b < block.len()
                    invariant
                        b <= block@.len(),
                        emits_view(out@) == mid + emits_view(block@).take(b as int),
                    decreases block.len() - b,
                {
                    push_emit(&mut out, copy_emit(&block[b]));
                    proof {
                        assert(emits_view(block@).take(b + 1) =~= emits_view(block@).take(b as int).push(block@[b as int]@));
                    }
                    b += 1;
                }
                let ghost hrow = (l as int, text@, anchor@);
                heads.push((l as usize, text, anchor));
                proof {
                    assert(emits_view(block@).take(b as int) =~= emits_view(block@));
                    assert(emits_view(block@) =~= d.1);
                    let a = anchor_for(used, d.0);
                    let idv: Option<Seq<char>> = if a.len() == 0 { None } else { Some(a) };
                    assert(mid == before.push(EmitV::Heading(i as int, idv)));
                    let r = intercepted(evv, next as int, alloc@);
                    assert(before + (seq![EmitV::Heading(i as int, idv)] + d.1 + r.0) =~= emits_view(out@) + r.0);
                    assert(heading_rows(heads@) =~= hb.push(hrow));
                    assert(hb + (seq![hrow] + r.2) =~= heading_rows(heads@) + r.2);
                }
                i = next;
            },
            _ => {
                push_emit(&mut out, Emit::Keep(i));
                proof {
                    let r = intercepted(evv, i + 1, used);
                    assert(before + (seq![EmitV::Keep(i as int)] + r.0) =~= emits_view(out@) + r.0);
                }
                i += 1;
            },
        }
    }
    proof {
        assert(emits_view(out@) + Seq::<EmitV>::empty() =~= emits_view(out@));
        assert(heading_rows(heads@) + Seq::<(int, Seq<char>, Seq<char>)>::empty() =~= heading_rows(heads@));
    }
    (out, has_mermaid, heads)
}

/// The rendering of a markdown text: the HTML `pulldown-cmark` writes for
/// the plan of the page's pass over the text's events, whether a mermaid
/// block was met, and the headings as `(level, text, anchor)`.
pub open spec fn rendered_markdown(text: Seq<char>) -> (Seq<char>, bool, Seq<(int, Seq<char>, Seq<char>)>) {
    let p = intercepted(cmark_events_spec(text), 0, Set::empty());
    (cmark_html_spec(text, p.0), p.1, p.2)
}

/// Renders a markdown text to HTML through the page's pass (see
/// [`intercept`]).
pub fn render_markdown(text: &str) -> (r: RenderedBody)
    ensures
        (r.html@, r.has_mermaid, heading_rows(r.headings@)) == rendered_markdown(text@),
{
    let events = cmark_events(text);
    let (plan, has_mermaid, headings) = intercept(&events);
    proof {
        lemma_intercepted_fits(events_view(events@), 0, Set::empty());
    }
    let html = cmark_html(text, &plan);
    RenderedBody { html, has_mermaid, headings }
}


// ---------------------------------------------------------------------------
// A concept body.
// ---------------------------------------------------------------------------

/// The index of the first candidate the bundle holds, from `i` on.
pub open spec fn first_known(known: Seq<Seq<Seq<char>>>, cands: Seq<Seq<Seq<char>>>, i: int) -> Option<int>
    decreases cands.len() - i,
{
    if i < 0 || i >= cands.len() {
        None
    } else if known.contains(cands[i]) {
        Some(i)
    } else {
        first_known(known, cands, i + 1)
    }
}

/// The concept a link goes to: the first of its readings the bundle
/// holds, else its first reading (a broken link).
pub open spec fn link_goal(known: Seq<Seq<Seq<char>>>, cands: Seq<Seq<Seq<char>>>) -> Option<Seq<Seq<char>>> {
    match first_known(known, cands, 0) {
        Some(k) => Some(cands[k]),
        None => if cands.len() > 0 { Some(cands[0]) } else { None },
    }
}

/// What the page does with a link of target `target` and kind `kind` in
/// the concept `src`: a bundle-absolute or relative link to a concept is
/// pointed at that concept's page (`prefix` climbing to the site root);
/// anything else is kept.
pub open spec fn link_action_ok(
    known: Seq<Seq<Seq<char>>>,
    src: Seq<Seq<char>>,
    prefix: Seq<char>,
    target: Seq<char>,
    kind: LinkKind,
    a: LinkRewriteAction,
) -> bool {
    match link_goal(known, resolve_all_spec(target, kind, src)) {
        Some(t) => if kind == LinkKind::Absolute || kind == LinkKind::Relative {
            a matches LinkRewriteAction::Rewrite(s) && s@ == prefix + join(t, seq!['/']) + ".html"@
        } else {
            a is Keep
        },
        None => a is Keep,
    }
}

/// The page's actions for the links of a body: one per link site of each
/// prose line, in order, as [`link_action_ok`] says.
pub open spec fn page_actions(
    known: Seq<Seq<Seq<char>>>,
    src: Seq<Seq<char>>,
    prefix: Seq<char>,
    body: Seq<char>,
    acts: Seq<Seq<LinkRewriteAction>>,
) -> bool {
    let ls = lines(body);
    &&& acts.len() == ls.len()
    &&& forall|i: int| 0 <= i < ls.len() && is_prose(ls, i) ==> {
        &&& (#[trigger] acts[i]).len() == rw_sites(ls[i], 0, false).len()
        &&& forall|k: int| 0 <= k < acts[i].len() ==> {
            let site = rw_sites(ls[i], 0, false)[k];
            link_action_ok(known, src, prefix, clean_dest(site.1), classify_spec(clean_dest(site.1)), #[trigger] acts[i][k])
        }
    }
}

fn holds_id(known: &Vec<ConceptId>, c: &ConceptId) -> (r: bool)
    ensures
        r == id_views(known@).contains(c@),
{
    let mut i: usize = 0;
    while i < known.len()
        invariant
            i <= known@.len(),
            forall|k: int| 0 <= k < i ==> #[trigger] id_views(known@)[k] != c@,
        decreases known.len() - i,
    {
        if known[i].same(c) {
            assert(id_views(known@)[i as int] == c@);
            return true;
        }
        i += 1;
    }
    false
}

/// The page's action for one link (see [`link_action_ok`]).
fn link_action(known: &Vec<ConceptId>, src: &ConceptId, prefix: &str, link: &Link) -> (a: LinkRewriteAction)
    ensures
        link_action_ok(id_views(known@), src@, prefix@, link.target@, link.kind, a),
{
    let cands = link.resolve_all(src);
    let ghost cv = id_views(cands@);
    let ghost kv = id_views(known@);
    let mut k: usize = 0;
    while k < cands.len() && !holds_id(known, &cands[k])
        invariant
            k <= cands@.len(),
            cv == id_views(cands@),
            kv == id_views(known@),
            first_known(kv, cv, 0) == first_known(kv, cv, k as int),
        decreases cands.len() - k,
    {
        assert(cv[k as int] == cands@[k as int]@);
        k += 1;
    }
    if k < cands.len() {
        assert(cv[k as int] == cands@[k as int]@);
    }
    let pick: usize = if k < cands.len() { k } else { 0 };
    if pick < cands.len() && (link.kind == LinkKind::Absolute || link.kind == LinkKind::Relative) {
        assert(cv[pick as int] == cands@[pick as int]@);
        let p = cands[pick].to_path();
        let mut v: Vec<char> = Vec::new();
        push_str(&mut v, prefix);
        push_str(&mut v, p.as_str());
        push_str(&mut v, ".html");
        LinkRewriteAction::Rewrite(string_of(v.as_slice()))
    } else {
        LinkRewriteAction::Keep
    }
}

/// Renders a concept body to HTML for its page: links to concepts are
/// pointed at their pages first (a link to a concept the bundle lacks keeps
/// its first reading), then the text goes through [`render_markdown`].
/// `known` are the bundle's concepts, `id` the page's concept, and `prefix`
/// the `../` chain from the page to the site root.
pub fn render(known: &Vec<ConceptId>, id: &ConceptId, body: &str, prefix: &str) -> (r: RenderedBody)
    ensures
        exists|acts: Seq<Seq<LinkRewriteAction>>| {
            &&& page_actions(id_views(known@), id@, prefix@, body@, acts)
            &&& (r.html@, r.has_mermaid, heading_rows(r.headings@)) == rendered_markdown(#[trigger] rewrite_body(body@, acts).0)
        },
{
    let ghost kv = id_views(known@);
    let cb = |link: &Link, d: &str| -> (a: LinkRewriteAction)
        ensures
            link_action_ok(id_views(known@), id@, prefix@, link.target@, link.kind, a),
        { link_action(known, id, prefix, link) };
    let (text, _n) = rewrite_markdown_links(body, cb);
    let ghost acts = choose|acts: Seq<Seq<LinkRewriteAction>>|
        answers_for(cb, body@, acts) && (text@, _n as nat) == #[trigger] rewrite_body(body@, acts);
    proof {
        let ls = lines(body@);
        assert forall|i: int| 0 <= i < ls.len() && is_prose(ls, i) implies {
            &&& (#[trigger] acts[i]).len() == rw_sites(ls[i], 0, false).len()
            &&& forall|k: int| 0 <= k < acts[i].len() ==> {
                let site = rw_sites(ls[i], 0, false)[k];
                link_action_ok(kv, id@, prefix@, clean_dest(site.1), classify_spec(clean_dest(site.1)), #[trigger] acts[i][k])
            }
        } by {
            assert forall|k: int| 0 <= k < acts[i].len() implies {
                let site = rw_sites(ls[i], 0, false)[k];
                link_action_ok(kv, id@, prefix@, clean_dest(site.1), classify_spec(clean_dest(site.1)), #[trigger] acts[i][k])
            } by {
                let site = rw_sites(ls[i], 0, false)[k];
                assert(answered(cb, site, acts[i][k]));
                let (l, d) = choose|l: Link, d: &str|
                    crate::markdown::site_link(l, site) && d@ == site.1 && #[trigger] call_ensures(cb, (&l, d), acts[i][k]);
            }
        }
        assert(page_actions(kv, id@, prefix@, body@, acts));
        assert(rewrite_body(body@, acts).0 == text@);
    }
    let r = render_markdown(text.as_str());
    r
}

} // verus!
