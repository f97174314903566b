//! A concept's generated page: its rendered body, and the overview panel of
//! frontmatter facts, table of contents, backlinks, links, sources and
//! findings beside it.
use crate::chars::{chars_of, string_of};
use crate::concept_id::ConceptId;
use crate::dashboard::{esc, link_html, push_escaped, push_link, DashboardConcept};
use crate::lifecycle::{status_name, tier_name, Status, TrustTier};
use crate::site::{climb, page_depth, prefix_for, status_badge, status_class, tier_badge, tier_class, PagePath, RenderedBody, SitePage};
use crate::slugs::{decimal, decimal_u64_v, decimal_v};
use crate::text::{join, push_all, push_str};
use vstd::prelude::*;

verus! {

/// Where a source points.
#[derive(Clone, Debug)]
pub enum SourceTarget {
    /// A URL resource.
    Url(String),
    /// A bundle path resource that names a concept of the bundle.
    Concept(ConceptId),
    /// A bundle path resource that names no concept.
    Path(String),
    /// Anything else.
    Other,
}

/// Whether the body cites a source by its footnote label.
#[derive(Clone, Copy, Debug, PartialEq, Eq)]
pub enum Citation {
    /// The source has a label that the body's footnotes reference.
    Cited,
    /// The source has a label that nothing references.
    Uncited,
    /// The source has no label.
    Unlabelled,
}

/// One entry of the sources panel.
#[derive(Clone, Debug)]
pub struct SourceEntry {
    /// The source's display label.
    pub label: String,
    /// Where it points.
    pub target: SourceTarget,
    /// Its author, when named.
    pub author: Option<String>,
    /// How often it was used, when counted.
    pub usage_count: Option<u64>,
    /// Whether the body cites it.
    pub citation: Citation,
}

/// How severe a finding is.
#[derive(Clone, Copy, Debug, PartialEq, Eq)]
pub enum Severity {
    Info,
    Warning,
    Error,
}

/// A validation or lint finding on the concept.
#[derive(Clone, Debug)]
pub struct Finding {
    /// How severe it is.
    pub severity: Severity,
    /// What it says.
    pub message: String,
}

/// An outgoing link of the concept.
#[derive(Clone, Debug)]
pub struct PageLink {
    /// The link text.
    pub text: String,
    /// The concept it resolves to.
    pub target: ConceptId,
    /// Whether that concept is in the bundle.
    pub exists: bool,
}

/// What the concept page shows of a concept.
#[derive(Clone, Debug)]
pub struct ConceptPageModel {
    /// The concept's id.
    pub id: ConceptId,
    /// Its display title.
    pub title: String,
    /// Its `type`, when it has one.
    pub kind_name: Option<String>,
    /// Its lifecycle status.
    pub status: Status,
    /// Its trust tier.
    pub tier: TrustTier,
    /// `(stale today, raw stale_after)`, when it has `stale_after`.
    pub freshness: Option<(bool, String)>,
    /// `(by, at)` of `generated`, when present (empty where absent).
    pub generated: Option<(String, String)>,
    /// `(by, at)` of each `verified` event (empty where absent).
    pub verified: Vec<(String, String)>,
    /// Its tags.
    pub tags: Vec<String>,
    /// The concepts linking to it.
    pub backlinks: Vec<ConceptId>,
    /// Its outgoing links.
    pub links: Vec<PageLink>,
    /// Its sources.
    pub sources: Vec<SourceEntry>,
    /// The findings on it.
    pub findings: Vec<Finding>,
}

// ---------------------------------------------------------------------------
// The markup, stated.
// ---------------------------------------------------------------------------

/// A span of the given classes around escaped text.
pub open spec fn span_html(class: Seq<char>, text: Seq<char>) -> Seq<char> {
    "<span class=\""@ + esc(class) + "\">"@ + esc(text) + "</span>"@
}

/// An actor and a time, as the generated and verified rows show them.
pub open spec fn by_at_html(by: Seq<char>, at: Seq<char>) -> Seq<char> {
    esc(by) + " "@ + span_html("num"@, at)
}

/// The verification events as a list.
pub open spec fn verified_items(v: Seq<(String, String)>) -> Seq<char>
    decreases v.len(),
{
    if v.len() == 0 {
        Seq::empty()
    } else {
        verified_items(v.drop_last()) + "<li>"@ + by_at_html(v.last().0@, v.last().1@) + "</li>"@
    }
}

/// The tags as badges, each followed by a space.
pub open spec fn tags_html(v: Seq<String>) -> Seq<char>
    decreases v.len(),
{
    if v.len() == 0 {
        Seq::empty()
    } else {
        tags_html(v.drop_last()) + span_html("badge"@, v.last()@) + " "@
    }
}

/// The type row, when the concept has a type.
pub open spec fn kind_rows(m: ConceptPageModel) -> Seq<(Seq<char>, Seq<char>)> {
    match m.kind_name {
        Some(t) => seq![("type"@, esc(t@))],
        None => Seq::empty(),
    }
}

/// The status and trust badges.
pub open spec fn badge_rows(m: ConceptPageModel) -> Seq<(Seq<char>, Seq<char>)> {
    seq![
        ("status"@, span_html(status_badge(m.status), status_name(m.status))),
        ("trust"@, span_html(tier_badge(m.tier), tier_name(m.tier))),
    ]
}

/// The freshness row, when the concept has `stale_after`.
pub open spec fn fresh_rows(m: ConceptPageModel) -> Seq<(Seq<char>, Seq<char>)> {
    match m.freshness {
        Some(f) => seq![(
            "fresh"@,
            if f.0 {
                span_html("badge stale"@, "stale since "@ + f.1@)
            } else {
                span_html("badge fresh"@, "fresh until "@ + f.1@)
            },
        )],
        None => Seq::empty(),
    }
}

/// The generation row, when the concept records one.
pub open spec fn generated_rows(m: ConceptPageModel) -> Seq<(Seq<char>, Seq<char>)> {
    match m.generated {
        Some(g) => seq![("generated"@, by_at_html(g.0@, g.1@))],
        None => Seq::empty(),
    }
}

/// The verifications row, when there are any.
pub open spec fn verified_rows(m: ConceptPageModel) -> Seq<(Seq<char>, Seq<char>)> {
    if m.verified@.len() > 0 {
        seq![("verified"@, "<ul style=\"margin:0;padding-left:1rem\">"@ + verified_items(m.verified@) + "</ul>"@)]
    } else {
        Seq::empty()
    }
}

/// The tags row, when there are any.
pub open spec fn tag_rows(m: ConceptPageModel) -> Seq<(Seq<char>, Seq<char>)> {
    if m.tags@.len() > 0 {
        seq![("tags"@, tags_html(m.tags@))]
    } else {
        Seq::empty()
    }
}

/// The link counts row: outgoing, then incoming.
pub open spec fn degree_rows(m: ConceptPageModel) -> Seq<(Seq<char>, Seq<char>)> {
    seq![(
        "links"@,
        span_html("num"@, decimal(m.links@.len() as nat)) + " out · "@ + span_html("num"@, decimal(m.backlinks@.len() as nat))
            + " in"@,
    )]
}

/// The `(label, value markup)` rows of the frontmatter grid, in order:
/// type, status, trust, freshness, generation, verifications, tags, links.
pub open spec fn meta_rows(m: ConceptPageModel) -> Seq<(Seq<char>, Seq<char>)> {
    kind_rows(m) + badge_rows(m) + fresh_rows(m) + generated_rows(m) + verified_rows(m) + tag_rows(m) + degree_rows(m)
}

/// The rows of the frontmatter grid as markup.
pub open spec fn grid_rows(rows: Seq<(Seq<char>, Seq<char>)>) -> Seq<char>
    decreases rows.len(),
{
    if rows.len() == 0 {
        Seq::empty()
    } else {
        grid_rows(rows.drop_last()) + "<dt>"@ + esc(rows.last().0) + "</dt><dd>"@ + rows.last().1 + "</dd>"@
    }
}

/// A titled panel around a list, or nothing for an empty list.
pub open spec fn list_panel(heading: Seq<char>, n: nat, items: Seq<char>) -> Seq<char> {
    if n == 0 {
        Seq::empty()
    } else {
        "<div class=\"panel\"><h3>"@ + heading + "</h3><ul>"@ + items + "</ul></div>"@
    }
}

/// `padding-left:<level - 1>.2rem`
pub open spec fn indent_style(level: int) -> Seq<char> {
    "padding-left:"@ + decimal((level - 1) as nat) + ".2rem"@
}

/// The table of contents' entries.
pub open spec fn toc_items(hs: Seq<(usize, String, String)>) -> Seq<char>
    decreases hs.len(),
{
    if hs.len() == 0 {
        Seq::empty()
    } else {
        let h = hs.last();
        toc_items(hs.drop_last()) + "<div style=\""@ + esc(indent_style(h.0 as int)) + "\"><a href=\""@ + esc("#"@ + h.2@)
            + "\">"@ + esc(h.1@) + "</a></div>"@
    }
}

/// The contents panel, shown for two headings or more.
pub open spec fn toc_panel(hs: Seq<(usize, String, String)>) -> Seq<char> {
    if hs.len() < 2 {
        Seq::empty()
    } else {
        "<div class=\"panel\"><h3>Contents</h3><div class=\"toc-columns\">"@ + toc_items(hs) + "</div></div>"@
    }
}

/// The backlinks as list items.
pub open spec fn backlink_items(cs: Seq<DashboardConcept>, prefix: Seq<char>, ids: Seq<ConceptId>) -> Seq<char>
    decreases ids.len(),
{
    if ids.len() == 0 {
        Seq::empty()
    } else {
        backlink_items(cs, prefix, ids.drop_last()) + "<li>"@ + link_html(cs, prefix, ids.last()@) + "</li>"@
    }
}

/// One outgoing link: a page link when its concept exists, else the link
/// text marked broken and the id it named.
pub open spec fn link_item(cs: Seq<DashboardConcept>, prefix: Seq<char>, l: PageLink) -> Seq<char> {
    if l.exists {
        link_html(cs, prefix, l.target@)
    } else {
        "<span class=\"broken-link\" title=\"broken link\">"@ + esc(l.text@) + "</span> → <code>"@
            + esc(join(l.target@, seq!['/'])) + "</code>"@
    }
}

/// The outgoing links as list items.
pub open spec fn link_items(cs: Seq<DashboardConcept>, prefix: Seq<char>, ls: Seq<PageLink>) -> Seq<char>
    decreases ls.len(),
{
    if ls.len() == 0 {
        Seq::empty()
    } else {
        link_items(cs, prefix, ls.drop_last()) + "<li>"@ + link_item(cs, prefix, ls.last()) + "</li>"@
    }
}

/// Where a source points, as markup: a URL as an outbound link, a concept
/// as a page link beside its label, another path as code, else its label.
pub open spec fn source_head(cs: Seq<DashboardConcept>, prefix: Seq<char>, s: SourceEntry) -> Seq<char> {
    match s.target {
        SourceTarget::Url(r) => "<a href=\""@ + esc(r@) + "\" rel=\"noopener noreferrer\">"@ + esc(s.label@) + "</a>"@,
        SourceTarget::Concept(id) => link_html(cs, prefix, id@) + " <code>"@ + esc(s.label@) + "</code>"@,
        SourceTarget::Path(r) => "<code>"@ + esc(r@) + "</code>"@,
        SourceTarget::Other => esc(s.label@),
    }
}

/// One source: where it points, its author, its use count and whether the
/// body cites it.
pub open spec fn source_item(cs: Seq<DashboardConcept>, prefix: Seq<char>, s: SourceEntry) -> Seq<char> {
    "<li>"@ + source_head(cs, prefix, s) + source_tail(s) + "</li>"@
}

/// A source's author, when named.
pub open spec fn source_author(s: SourceEntry) -> Seq<char> {
    match s.author {
        Some(a) => " — "@ + esc(a@),
        None => Seq::empty(),
    }
}

/// A source's use count, when counted.
pub open spec fn source_used(s: SourceEntry) -> Seq<char> {
    match s.usage_count {
        Some(n) => " used "@ + span_html("num"@, decimal(n as nat)) + "×"@,
        None => Seq::empty(),
    }
}

/// A source's citation badge: cited, uncited, or none without a label.
pub open spec fn source_cited(s: SourceEntry) -> Seq<char> {
    match s.citation {
        Citation::Cited => " "@ + span_html("badge status-stable"@, "cited"@),
        Citation::Uncited => " "@ + span_html("badge sev-warning"@, "uncited"@),
        Citation::Unlabelled => Seq::empty(),
    }
}

/// A source's author, use count and citation badge.
pub open spec fn source_tail(s: SourceEntry) -> Seq<char> {
    source_author(s) + source_used(s) + source_cited(s)
}

/// The sources as list items.
pub open spec fn source_items(cs: Seq<DashboardConcept>, prefix: Seq<char>, ss: Seq<SourceEntry>) -> Seq<char>
    decreases ss.len(),
{
    if ss.len() == 0 {
        Seq::empty()
    } else {
        source_items(cs, prefix, ss.drop_last()) + source_item(cs, prefix, ss.last())
    }
}

/// The badge classes and name of a severity.
pub open spec fn severity_badge(s: Severity) -> (Seq<char>, Seq<char>) {
    match s {
        Severity::Info => ("badge sev-info"@, "info"@),
        Severity::Warning => ("badge sev-warning"@, "warning"@),
        Severity::Error => ("badge sev-error"@, "error"@),
    }
}

/// The findings as list items.
pub open spec fn finding_items(fs: Seq<Finding>) -> Seq<char>
    decreases fs.len(),
{
    if fs.len() == 0 {
        Seq::empty()
    } else {
        let f = fs.last();
        finding_items(fs.drop_last()) + "<li>"@ + span_html(severity_badge(f.severity).0, severity_badge(f.severity).1) + " "@
            + esc(f.message@) + "</li>"@
    }
}

/// The overview panel: the frontmatter grid, then the contents, backlinks,
/// links, sources and findings panels that have anything to show.
pub open spec fn overview_html(
    cs: Seq<DashboardConcept>,
    m: ConceptPageModel,
    hs: Seq<(usize, String, String)>,
    prefix: Seq<char>,
) -> Seq<char> {
    "<dl class=\"meta-grid\">"@ + grid_rows(meta_rows(m)) + "</dl>"@ + toc_panel(hs)
        + list_panel("Backlinks"@, m.backlinks@.len(), backlink_items(cs, prefix, m.backlinks@))
        + list_panel("Links"@, m.links@.len(), link_items(cs, prefix, m.links@))
        + list_panel("Sources"@, m.sources@.len(), source_items(cs, prefix, m.sources@))
        + list_panel("Findings"@, m.findings@.len(), finding_items(m.findings@))
}

// ---------------------------------------------------------------------------
// The markup, built.
// ---------------------------------------------------------------------------

fn push_span(out: &mut Vec<char>, class: &str, text: &str)
    ensures
        final(out)@ == old(out)@ + span_html(class@, text@),
{
    push_str(out, "<span class=\"");
    push_escaped(out, class);
    push_str(out, "\">");
    push_escaped(out, text);
    push_str(out, "</span>");
    assert(out@ =~= old(out)@ + span_html(class@, text@));
}

fn push_by_at(out: &mut Vec<char>, by: &str, at: &str)
    ensures
        final(out)@ == old(out)@ + by_at_html(by@, at@),
{
    push_escaped(out, by);
    push_str(out, " ");
    push_span(out, "num", at);
    assert(out@ =~= old(out)@ + by_at_html(by@, at@));
}

/// The rows' labels and values.
pub open spec fn pair_views(v: Seq<(Vec<char>, Vec<char>)>) -> Seq<(Seq<char>, Seq<char>)> {
    Seq::new(v.len(), |i: int| (v[i].0@, v[i].1@))
}

fn push_row(rows: &mut Vec<(Vec<char>, Vec<char>)>, label: &str, value: Vec<char>)
    ensures
        pair_views(final(rows)@) == pair_views(old(rows)@).push((label@, value@)),
{
    let l = chars_of(label);
    rows.push((l, value));
    assert(pair_views(rows@) =~= pair_views(old(rows)@).push((label@, value@)));
}

fn verified_list(v: &Vec<(String, String)>) -> (r: Vec<char>)
    ensures
        r@ == "<ul style=\"margin:0;padding-left:1rem\">"@ + verified_items(v@) + "</ul>"@,
{
    let mut out: Vec<char> = Vec::new();
    push_str(&mut out, "<ul style=\"margin:0;padding-left:1rem\">");
    let ghost start = out@;
    let mut i: usize = 0;
    while i < v.len()
        invariant
            i <= v@.len(),
            out@ == start + verified_items(v@.take(i as int)),
        decreases v.len() - i,
    {
        proof {
            assert(v@.take(i + 1).drop_last() =~= v@.take(i as int));
        }
        push_str(&mut out, "<li>");
        push_by_at(&mut out, v[i].0.as_str(), v[i].1.as_str());
        push_str(&mut out, "</li>");
        assert(out@ =~= start + verified_items(v@.take(i + 1)));
        i += 1;
    }
    assert(v@.take(i as int) =~= v@);
    push_str(&mut out, "</ul>");
    out
}

fn tag_badges(v: &Vec<String>) -> (r: Vec<char>)
    ensures
        r@ == tags_html(v@),
{
    let mut out: Vec<char> = Vec::new();
    let mut i: usize = 0;
    while i < v.len()
        invariant
            i <= v@.len(),
            out@ == tags_html(v@.take(i as int)),
        decreases v.len() - i,
    {
        proof {
            assert(v@.take(i + 1).drop_last() =~= v@.take(i as int));
        }
        push_span(&mut out, "badge", v[i].as_str());
        push_str(&mut out, " ");
        assert(out@ =~= tags_html(v@.take(i + 1)));
        i += 1;
    }
    assert(v@.take(i as int) =~= v@);
    out
}

fn add_kind(rows: &mut Vec<(Vec<char>, Vec<char>)>, m: &ConceptPageModel)
    ensures
        pair_views(final(rows)@) == pair_views(old(rows)@) + kind_rows(*m),
{
    match &m.kind_name {
        Some(t) => {
            let mut v: Vec<char> = Vec::new();
            push_escaped(&mut v, t.as_str());
            push_row(rows, "type", v);
        },
        None => {},
    }
    assert(pair_views(rows@) =~= pair_views(old(rows)@) + kind_rows(*m));
}

fn add_badges(rows: &mut Vec<(Vec<char>, Vec<char>)>, m: &ConceptPageModel)
    ensures
        pair_views(final(rows)@) == pair_views(old(rows)@) + badge_rows(*m),
{
    let mut v: Vec<char> = Vec::new();
    let sname = m.status.as_str();
    push_span(&mut v, status_class(&m.status), sname.as_str());
    push_row(rows, "status", v);
    let mut v: Vec<char> = Vec::new();
    let tname = m.tier.as_str();
    push_span(&mut v, tier_class(m.tier), tname.as_str());
    push_row(rows, "trust", v);
    assert(pair_views(rows@) =~= pair_views(old(rows)@) + badge_rows(*m));
}

fn add_fresh(rows: &mut Vec<(Vec<char>, Vec<char>)>, m: &ConceptPageModel)
    ensures
        pair_views(final(rows)@) == pair_views(old(rows)@) + fresh_rows(*m),
{
    match &m.freshness {
        Some(f) => {
            let mut v: Vec<char> = Vec::new();
            let mut text: Vec<char> = Vec::new();
            if f.0 {
                push_str(&mut text, "stale since ");
                push_str(&mut text, f.1.as_str());
                let ts = string_of(text.as_slice());
                push_span(&mut v, "badge stale", ts.as_str());
            } else {
                push_str(&mut text, "fresh until ");
                push_str(&mut text, f.1.as_str());
                let ts = string_of(text.as_slice());
                push_span(&mut v, "badge fresh", ts.as_str());
            }
            push_row(rows, "fresh", v);
        },
        None => {},
    }
    assert(pair_views(rows@) =~= pair_views(old(rows)@) + fresh_rows(*m));
}

fn add_generated(rows: &mut Vec<(Vec<char>, Vec<char>)>, m: &ConceptPageModel)
    ensures
        pair_views(final(rows)@) == pair_views(old(rows)@) + generated_rows(*m),
{
    match &m.generated {
        Some(g) => {
            let mut v: Vec<char> = Vec::new();
            push_by_at(&mut v, g.0.as_str(), g.1.as_str());
            push_row(rows, "generated", v);
        },
        None => {},
    }
    assert(pair_views(rows@) =~= pair_views(old(rows)@) + generated_rows(*m));
}

fn add_lists(rows: &mut Vec<(Vec<char>, Vec<char>)>, m: &ConceptPageModel)
    ensures
        pair_views(final(rows)@) == pair_views(old(rows)@) + verified_rows(*m) + tag_rows(*m),
{
    if m.verified.len() > 0 {
        let v = verified_list(&m.verified);
        push_row(rows, "verified", v);
    }
    let ghost mid = pair_views(rows@);
    assert(mid =~= pair_views(old(rows)@) + verified_rows(*m));
    if m.tags.len() > 0 {
        let v = tag_badges(&m.tags);
        push_row(rows, "tags", v);
    }
    assert(pair_views(rows@) =~= mid + tag_rows(*m));
}

fn add_degrees(rows: &mut Vec<(Vec<char>, Vec<char>)>, m: &ConceptPageModel)
    ensures
        pair_views(final(rows)@) == pair_views(old(rows)@) + degree_rows(*m),
{
    let mut v: Vec<char> = Vec::new();
    let out_n = decimal_v(m.links.len());
    let out_s = string_of(out_n.as_slice());
    push_span(&mut v, "num", out_s.as_str());
    push_str(&mut v, " out · ");
    let in_n = decimal_v(m.backlinks.len());
    let in_s = string_of(in_n.as_slice());
    push_span(&mut v, "num", in_s.as_str());
    push_str(&mut v, " in");
    push_row(rows, "links", v);
    assert(pair_views(rows@) =~= pair_views(old(rows)@) + degree_rows(*m));
}

/// The frontmatter grid's rows (see [`meta_rows`]).
fn meta_rows_v(m: &ConceptPageModel) -> (r: Vec<(Vec<char>, Vec<char>)>)
    ensures
        pair_views(r@) == meta_rows(*m),
{
    let mut rows: Vec<(Vec<char>, Vec<char>)> = Vec::new();
    add_kind(&mut rows, m);
    add_badges(&mut rows, m);
    add_fresh(&mut rows, m);
    add_generated(&mut rows, m);
    add_lists(&mut rows, m);
    add_degrees(&mut rows, m);
    assert(pair_views(rows@) =~= meta_rows(*m));
    rows
}

fn push_grid_rows(out: &mut Vec<char>, rows: &Vec<(Vec<char>, Vec<char>)>)
    ensures
        final(out)@ == old(out)@ + grid_rows(pair_views(rows@)),
{
    let ghost pv = pair_views(rows@);
    let mut i: usize = 0;
    while i < rows.len()
        invariant
            i <= rows@.len(),
            pv == pair_views(rows@),
            out@ == old(out)@ + grid_rows(pv.take(i as int)),
        decreases rows.len() - i,
    {
        proof {
            assert(pv.take(i + 1).drop_last() =~= pv.take(i as int));
            assert(pv.take(i + 1).last() == (rows@[i as int].0@, rows@[i as int].1@));
        }
        push_str(out, "<dt>");
        let l = string_of(rows[i].0.as_slice());
        push_escaped(out, l.as_str());
        push_str(out, "</dt><dd>");
        push_all(out, rows[i].1.as_slice());
        push_str(out, "</dd>");
        assert(out@ =~= old(out)@ + grid_rows(pv.take(i + 1)));
        i += 1;
    }
    assert(pv.take(i as int) =~= pv);
}

fn push_toc(out: &mut Vec<char>, hs: &Vec<(usize, String, String)>)
    requires
        forall|i: int| 0 <= i < hs@.len() ==> 1 <= #[trigger] hs@[i].0,
    ensures
        final(out)@ == old(out)@ + toc_panel(hs@),
{
    if hs.len() < 2 {
        assert(out@ =~= old(out)@ + toc_panel(hs@));
        return;
    }
    push_str(out, "<div class=\"panel\"><h3>Contents</h3><div class=\"toc-columns\">");
    let ghost start = out@;
    let mut i: usize = 0;
    while i < hs.len()
        invariant
            i <= hs@.len(),
            forall|j: int| 0 <= j < hs@.len() ==> 1 <= #[trigger] hs@[j].0,
            out@ == start + toc_items(hs@.take(i as int)),
        decreases hs.len() - i,
    {
        proof {
            assert(hs@.take(i + 1).drop_last() =~= hs@.take(i as int));
            assert(hs@.take(i + 1).last() == hs@[i as int]);
            assert(1 <= hs@[i as int].0);
        }
        let h = &hs[i];
        let mut style: Vec<char> = Vec::new();
        push_str(&mut style, "padding-left:");
        let d = decimal_v(h.0 - 1);
        push_all(&mut style, d.as_slice());
        push_str(&mut style, ".2rem");
        let st = string_of(style.as_slice());
        let mut href: Vec<char> = Vec::new();
        push_str(&mut href, "#");
        push_str(&mut href, h.2.as_str());
        let hr = string_of(href.as_slice());
        push_str(out, "<div style=\"");
        push_escaped(out, st.as_str());
        push_str(out, "\"><a href=\"");
        push_escaped(out, hr.as_str());
        push_str(out, "\">");
        push_escaped(out, h.1.as_str());
        push_str(out, "</a></div>");
        proof {
            assert(style@ =~= indent_style(h.0 as int));
            assert(out@ =~= start + toc_items(hs@.take(i + 1)));
        }
        i += 1;
    }
    assert(hs@.take(i as int) =~= hs@);
    push_str(out, "</div></div>");
    assert(out@ =~= old(out)@ + toc_panel(hs@));
}

fn push_list_panel(out: &mut Vec<char>, heading: &str, n: usize, items: &[char])
    ensures
        final(out)@ == old(out)@ + list_panel(heading@, n as nat, items@),
{
    if n == 0 {
        assert(out@ =~= old(out)@ + list_panel(heading@, n as nat, items@));
        return;
    }
    push_str(out, "<div class=\"panel\"><h3>");
    push_str(out, heading);
    push_str(out, "</h3><ul>");
    push_all(out, items);
    push_str(out, "</ul></div>");
    assert(out@ =~= old(out)@ + list_panel(heading@, n as nat, items@));
}

fn backlink_list(concepts: &Vec<DashboardConcept>, prefix: &str, ids: &Vec<ConceptId>) -> (r: Vec<char>)
    ensures
        r@ == backlink_items(concepts@, prefix@, ids@),
{
    let mut out: Vec<char> = Vec::new();
    let mut i: usize = 0;
    while i < ids.len()
        invariant
            i <= ids@.len(),
            out@ == backlink_items(concepts@, prefix@, ids@.take(i as int)),
        decreases ids.len() - i,
    {
        proof {
            assert(ids@.take(i + 1).drop_last() =~= ids@.take(i as int));
            assert(ids@.take(i + 1).last() == ids@[i as int]);
        }
        push_str(&mut out, "<li>");
        push_link(&mut out, concepts, prefix, &ids[i]);
        push_str(&mut out, "</li>");
        assert(out@ =~= backlink_items(concepts@, prefix@, ids@.take(i + 1)));
        i += 1;
    }
    assert(ids@.take(i as int) =~= ids@);
    out
}

fn push_link_item(out: &mut Vec<char>, concepts: &Vec<DashboardConcept>, prefix: &str, l: &PageLink)
    ensures
        final(out)@ == old(out)@ + link_item(concepts@, prefix@, *l),
{
    if l.exists {
        push_link(out, concepts, prefix, &l.target);
    } else {
        push_str(out, "<span class=\"broken-link\" title=\"broken link\">");
        push_escaped(out, l.text.as_str());
        push_str(out, "</span> → <code>");
        let p = l.target.to_path();
        push_escaped(out, p.as_str());
        push_str(out, "</code>");
        assert(out@ =~= old(out)@ + link_item(concepts@, prefix@, *l));
    }
}

fn link_list(concepts: &Vec<DashboardConcept>, prefix: &str, ls: &Vec<PageLink>) -> (r: Vec<char>)
    ensures
        r@ == link_items(concepts@, prefix@, ls@),
{
    let mut out: Vec<char> = Vec::new();
    let mut i: usize = 0;
    while i < ls.len()
        invariant
            i <= ls@.len(),
            out@ == link_items(concepts@, prefix@, ls@.take(i as int)),
        decreases ls.len() - i,
    {
        proof {
            assert(ls@.take(i + 1).drop_last() =~= ls@.take(i as int));
            assert(ls@.take(i + 1).last() == ls@[i as int]);
        }
        push_str(&mut out, "<li>");
        push_link_item(&mut out, concepts, prefix, &ls[i]);
        push_str(&mut out, "</li>");
        assert(out@ =~= link_items(concepts@, prefix@, ls@.take(i + 1)));
        i += 1;
    }
    assert(ls@.take(i as int) =~= ls@);
    out
}

fn push_source_head(out: &mut Vec<char>, concepts: &Vec<DashboardConcept>, prefix: &str, s: &SourceEntry)
    ensures
        final(out)@ == old(out)@ + source_head(concepts@, prefix@, *s),
{
    match &s.target {
        SourceTarget::Url(r) => {
            push_str(out, "<a href=\"");
            push_escaped(out, r.as_str());
            push_str(out, "\" rel=\"noopener noreferrer\">");
            push_escaped(out, s.label.as_str());
            push_str(out, "</a>");
        },
        SourceTarget::Concept(id) => {
            push_link(out, concepts, prefix, id);
            push_str(out, " <code>");
            push_escaped(out, s.label.as_str());
            push_str(out, "</code>");
        },
        SourceTarget::Path(r) => {
            push_str(out, "<code>");
            push_escaped(out, r.as_str());
            push_str(out, "</code>");
        },
        SourceTarget::Other => {
            push_escaped(out, s.label.as_str());
        },
    }
    assert(out@ =~= old(out)@ + source_head(concepts@, prefix@, *s));
}

fn push_source_author(out: &mut Vec<char>, s: &SourceEntry)
    ensures
        final(out)@ == old(out)@ + source_author(*s),
{
    match &s.author {
        Some(a) => {
            push_str(out, " — ");
            push_escaped(out, a.as_str());
        },
        None => {},
    }
    assert(out@ =~= old(out)@ + source_author(*s));
}

fn push_source_used(out: &mut Vec<char>, s: &SourceEntry)
    ensures
        final(out)@ == old(out)@ + source_used(*s),
{
    match s.usage_count {
        Some(n) => {
            push_str(out, " used ");
            let d = decimal_u64_v(n);
            let ds = string_of(d.as_slice());
            push_span(out, "num", ds.as_str());
            push_str(out, "×");
        },
        None => {},
    }
    assert(out@ =~= old(out)@ + source_used(*s));
}

fn push_source_cited(out: &mut Vec<char>, s: &SourceEntry)
    ensures
        final(out)@ == old(out)@ + source_cited(*s),
{
    match s.citation {
        Citation::Cited => {
            push_str(out, " ");
            push_span(out, "badge status-stable", "cited");
        },
        Citation::Uncited => {
            push_str(out, " ");
            push_span(out, "badge sev-warning", "uncited");
        },
        Citation::Unlabelled => {},
    }
    assert(out@ =~= old(out)@ + source_cited(*s));
}

fn push_source_tail(out: &mut Vec<char>, s: &SourceEntry)
    ensures
        final(out)@ == old(out)@ + source_tail(*s),
{
    push_source_author(out, s);
    push_source_used(out, s);
    push_source_cited(out, s);
    assert(out@ =~= old(out)@ + source_tail(*s));
}

fn push_source(out: &mut Vec<char>, concepts: &Vec<DashboardConcept>, prefix: &str, s: &SourceEntry)
    ensures
        final(out)@ == old(out)@ + source_item(concepts@, prefix@, *s),
{
    push_str(out, "<li>");
    push_source_head(out, concepts, prefix, s);
    push_source_tail(out, s);
    push_str(out, "</li>");
    assert(out@ =~= old(out)@ + source_item(concepts@, prefix@, *s));
}

fn source_list(concepts: &Vec<DashboardConcept>, prefix: &str, ss: &Vec<SourceEntry>) -> (r: Vec<char>)
    ensures
        r@ == source_items(concepts@, prefix@, ss@),
{
    let mut out: Vec<char> = Vec::new();
    let mut i: usize = 0;
    while i < ss.len()
        invariant
            i <= ss@.len(),
            out@ == source_items(concepts@, prefix@, ss@.take(i as int)),
        decreases ss.len() - i,
    {
        proof {
            assert(ss@.take(i + 1).drop_last() =~= ss@.take(i as int));
            assert(ss@.take(i + 1).last() == ss@[i as int]);
        }
        push_source(&mut out, concepts, prefix, &ss[i]);
        i += 1;
    }
    assert(ss@.take(i as int) =~= ss@);
    out
}

fn finding_list(fs: &Vec<Finding>) -> (r: Vec<char>)
    ensures
        r@ == finding_items(fs@),
{
    let mut out: Vec<char> = Vec::new();
    let mut i: usize = 0;
    while i < fs.len()
        invariant
            i <= fs@.len(),
            out@ == finding_items(fs@.take(i as int)),
        decreases fs.len() - i,
    {
        proof {
            assert(fs@.take(i + 1).drop_last() =~= fs@.take(i as int));
            assert(fs@.take(i + 1).last() == fs@[i as int]);
        }
        let f = &fs[i];
        push_str(&mut out, "<li>");
        match f.severity {
            Severity::Info => push_span(&mut out, "badge sev-info", "info"),
            Severity::Warning => push_span(&mut out, "badge sev-warning", "warning"),
            Severity::Error => push_span(&mut out, "badge sev-error", "error"),
        }
        push_str(&mut out, " ");
        push_escaped(&mut out, f.message.as_str());
        push_str(&mut out, "</li>");
        assert(out@ =~= finding_items(fs@.take(i + 1)));
        i += 1;
    }
    assert(fs@.take(i as int) =~= fs@);
    out
}

/// The overview panel beside a concept's body (see [`overview_html`]).
pub fn overview(
    concepts: &Vec<DashboardConcept>,
    model: &ConceptPageModel,
    headings: &Vec<(usize, String, String)>,
    prefix: &str,
) -> (r: String)
    requires
        forall|i: int| 0 <= i < headings@.len() ==> 1 <= #[trigger] headings@[i].0,
    ensures
        r@ == overview_html(concepts@, *model, headings@, prefix@),
{
    let mut out: Vec<char> = Vec::new();
    push_str(&mut out, "<dl class=\"meta-grid\">");
    let rows = meta_rows_v(model);
    push_grid_rows(&mut out, &rows);
    push_str(&mut out, "</dl>");
    push_toc(&mut out, headings);
    let b = backlink_list(concepts, prefix, &model.backlinks);
    push_list_panel(&mut out, "Backlinks", model.backlinks.len(), &b);
    let l = link_list(concepts, prefix, &model.links);
    push_list_panel(&mut out, "Links", model.links.len(), &l);
    let s = source_list(concepts, prefix, &model.sources);
    push_list_panel(&mut out, "Sources", model.sources.len(), &s);
    let f = finding_list(&model.findings);
    push_list_panel(&mut out, "Findings", model.findings.len(), &f);
    assert(out@ =~= overview_html(concepts@, *model, headings@, prefix@));
    string_of(out.as_slice())
}

/// A concept's page: its rendered body, and the overview panel with links
/// climbing from the concept's directory to the site root.
pub fn concept_page(concepts: &Vec<DashboardConcept>, model: &ConceptPageModel, body: &RenderedBody) -> (r: SitePage)
    requires
        forall|i: int| 0 <= i < body.headings@.len() ==> 1 <= #[trigger] body.headings@[i].0,
    ensures
        r.rel_path matches PagePath::Concept(id) && id@ == model.id@,
        r.title@ == model.title@,
        r.body_html@ == body.html@,
        r.has_mermaid == body.has_mermaid,
        !r.has_shiki,
        r.meta_rows@.len() == 1,
        r.meta_rows@[0].0@ == "Overview"@,
        r.meta_rows@[0].1@ == overview_html(
            concepts@,
            *model,
            body.headings@,
            climb(page_depth(PagePath::Concept(model.id)) as nat),
        ),
{
    let path = PagePath::Concept(model.id.clone());
    let prefix = prefix_for(&path);
    let meta = overview(concepts, model, &body.headings, prefix.as_str());
    let label = string_of(&['O', 'v', 'e', 'r', 'v', 'i', 'e', 'w']);
    proof {
        reveal_strlit("Overview");
        assert(label@ =~= "Overview"@);
    }
    let mut rows: Vec<(String, String)> = Vec::new();
    rows.push((label, meta));
    let title = string_of(chars_of(model.title.as_str()).as_slice());
    let html = string_of(chars_of(body.html.as_str()).as_slice());
    SitePage {
        rel_path: path,
        title,
        body_html: html,
        has_mermaid: body.has_mermaid,
        has_shiki: false,
        meta_rows: rows,
    }
}

} // verus!
