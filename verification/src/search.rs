//! The omnisearch index, the shared query syntax, and body-text search.
//!
//! One scorer ([`crate::fuzzy::fuzzy_match`]) serves every search surface.
//! The query syntax adds cheap filters (`#tag`, `type:Policy`,
//! `tier:unverified`, `status:draft`, `is:stale`, `is:broken`) that every
//! filterable view reuses; what is left of the query is the free text.
use crate::chars::{
    byte_len, char_utf8_len, chars_of, is_ws, lowercase_text, str_to_lower, string_of, unicode_uppercase,
    uppercase, utf8_len, whitespace, str_byte_len, text_fits,
};
use crate::concept_id::{string_views, ConceptId};
use crate::fuzzy::{best_score, drop_ws, fuzzy_match, optimal, positions, MAX_HAYSTACK_CHARS};
use crate::links::opt_view;
use crate::lifecycle::{status_name, tier_named, Status, TrustTier};
use crate::markdown::{eq_ignore_case, eq_ignore_case_v};
use crate::text::{
    find, find_from, find_v, join, join_v, lines, lines_v, slice_of, starts_with, trim_start, trim_start_index, views,
};
use vstd::prelude::*;

verus! {

/// One concept's searchable representation.
#[derive(Clone, Debug)]
pub struct SearchEntry {
    /// The concept id.
    pub id: ConceptId,
    /// Display title.
    pub title: String,
    /// One-line description (may be empty).
    pub description: String,
    /// Frontmatter tags.
    pub tags: Vec<String>,
    /// Body headings, for heading-level hits.
    pub headings: Vec<String>,
    /// The concept `type`.
    pub type_: String,
    /// Trust tier, for `tier:` filters.
    pub tier: TrustTier,
    /// Lifecycle status, for `status:` filters.
    pub status: Status,
    /// Whether the concept is stale, for `is:stale`.
    pub stale: bool,
    /// Whether the concept has broken outgoing links, for `is:broken`.
    pub broken: bool,
}

/// The omnisearch index: one entry per concept, in bundle order.
#[derive(Clone, Debug)]
pub struct SearchIndex {
    pub entries: Vec<SearchEntry>,
}

/// A single omnisearch result.
#[derive(Clone, Debug)]
pub struct SearchHit {
    /// The concept the hit points at.
    pub id: ConceptId,
    /// The heading within the concept, when the hit is heading-level.
    pub heading: Option<String>,
    /// Fuzzy score (higher is better).
    pub score: i32,
    /// Char indices of the query match within the label.
    pub indices: Vec<usize>,
    /// The text the match was scored against.
    pub label: String,
}

/// A single body-text hit.
#[derive(Clone, Debug)]
pub struct BodyHit {
    /// The concept whose body matched.
    pub id: ConceptId,
    /// The 1-based body line that matched.
    pub line: usize,
    /// The matching line, windowed around the match for display.
    pub snippet: String,
    /// Byte offset of the match within the snippet, for highlighting.
    pub start: usize,
}

/// A structured filter of the query syntax.
#[derive(Clone, Debug, PartialEq, Eq)]
pub enum Filter {
    /// `#tag`
    Tag(String),
    /// `type:Policy`
    Type(String),
    /// `tier:unverified`
    Tier(TrustTier),
    /// `status:draft`
    Status(String),
    /// `is:stale`
    Stale,
    /// `is:broken`
    Broken,
}

/// What a [`Filter`] asks for.
pub ghost enum FilterSpec {
    Tag(Seq<char>),
    Type(Seq<char>),
    Tier(TrustTier),
    Status(Seq<char>),
    Stale,
    Broken,
}

impl View for Filter {
    type V = FilterSpec;

    open spec fn view(&self) -> FilterSpec {
        match self {
            Filter::Tag(t) => FilterSpec::Tag(t@),
            Filter::Type(t) => FilterSpec::Type(t@),
            Filter::Tier(t) => FilterSpec::Tier(*t),
            Filter::Status(s) => FilterSpec::Status(s@),
            Filter::Stale => FilterSpec::Stale,
            Filter::Broken => FilterSpec::Broken,
        }
    }
}

/// A parsed query: free text plus filters.
#[derive(Clone, Debug)]
pub struct Query {
    /// The fuzzy free-text part.
    pub text: String,
    /// The structured filters.
    pub filters: Vec<Filter>,
}

// ---------------------------------------------------------------------------
// The query syntax.
// ---------------------------------------------------------------------------

/// The end of the run of non-whitespace chars starting at `i`.
pub open spec fn word_end(s: Seq<char>, i: int) -> int
    decreases s.len() - i,
{
    if i < 0 || i >= s.len() || is_ws(s[i]) {
        i
    } else {
        word_end(s, i + 1)
    }
}

pub proof fn lemma_word_end(s: Seq<char>, i: int)
    requires
        0 <= i <= s.len(),
    ensures
        i <= word_end(s, i) <= s.len(),
        word_end(s, i) < s.len() ==> is_ws(s[word_end(s, i)]),
        forall|k: int| i <= k < word_end(s, i) ==> !is_ws(#[trigger] s[k]),
    decreases s.len() - i,
{
    if i < s.len() && !is_ws(s[i]) {
        lemma_word_end(s, i + 1);
    }
}

/// The whitespace-separated words of `s` from index `i` on
/// (`str::split_whitespace`).
pub open spec fn words_from(s: Seq<char>, i: int) -> Seq<Seq<char>>
    decreases s.len() - i,
{
    if i < 0 || i >= s.len() {
        Seq::empty()
    } else if is_ws(s[i]) {
        words_from(s, i + 1)
    } else {
        let e = word_end(s, i);
        proof {
            lemma_word_end(s, i + 1);
        }
        seq![s.subrange(i, e)] + words_from(s, e)
    }
}

pub open spec fn words(s: Seq<char>) -> Seq<Seq<char>> {
    words_from(s, 0)
}

/// The filter a query word stands for, if any; the other words are free
/// text. A lone `#` and a `tier:` with an unknown tier are free text.
pub open spec fn word_filter(t: Seq<char>) -> Option<FilterSpec> {
    if t.len() > 0 && t[0] == '#' {
        if t.len() > 1 {
            Some(FilterSpec::Tag(t.drop_first()))
        } else {
            None
        }
    } else if starts_with(t, seq!['t', 'y', 'p', 'e', ':']) {
        Some(FilterSpec::Type(t.skip(5)))
    } else if starts_with(t, seq!['t', 'i', 'e', 'r', ':']) {
        match tier_named(t.skip(5)) {
            Some(x) => Some(FilterSpec::Tier(x)),
            None => None,
        }
    } else if starts_with(t, seq!['s', 't', 'a', 't', 'u', 's', ':']) {
        Some(FilterSpec::Status(t.skip(7)))
    } else if t == seq!['i', 's', ':', 's', 't', 'a', 'l', 'e'] {
        Some(FilterSpec::Stale)
    } else if t == seq!['i', 's', ':', 'b', 'r', 'o', 'k', 'e', 'n'] {
        Some(FilterSpec::Broken)
    } else {
        None
    }
}

/// The filters of a word list, in order.
pub open spec fn filters_of(ws: Seq<Seq<char>>) -> Seq<FilterSpec>
    decreases ws.len(),
{
    if ws.len() == 0 {
        Seq::empty()
    } else {
        match word_filter(ws.last()) {
            Some(f) => filters_of(ws.drop_last()).push(f),
            None => filters_of(ws.drop_last()),
        }
    }
}

/// The free-text words of a word list, in order.
pub open spec fn text_words(ws: Seq<Seq<char>>) -> Seq<Seq<char>>
    decreases ws.len(),
{
    if ws.len() == 0 {
        Seq::empty()
    } else {
        match word_filter(ws.last()) {
            Some(f) => text_words(ws.drop_last()),
            None => text_words(ws.drop_last()).push(ws.last()),
        }
    }
}

pub open spec fn filter_views(fs: Seq<Filter>) -> Seq<FilterSpec> {
    fs.map_values(|f: Filter| f@)
}

/// Whether an entry passes one filter; tags, types and statuses compare
/// ignoring ASCII case.
pub open spec fn filter_holds(f: FilterSpec, e: SearchEntry) -> bool {
    match f {
        FilterSpec::Tag(t) => exists|k: int|
            0 <= k < e.tags@.len() && eq_ignore_case(#[trigger] e.tags@[k]@, t),
        FilterSpec::Type(t) => eq_ignore_case(e.type_@, t),
        FilterSpec::Tier(x) => e.tier == x,
        FilterSpec::Status(s) => eq_ignore_case(status_name(e.status), s),
        FilterSpec::Stale => e.stale,
        FilterSpec::Broken => e.broken,
    }
}

/// Whether an entry passes every filter.
pub open spec fn passes(fs: Seq<FilterSpec>, e: SearchEntry) -> bool {
    forall|i: int| 0 <= i < fs.len() ==> filter_holds(#[trigger] fs[i], e)
}

/// Filters compose with AND: an entry passes a list of filters exactly
/// when it passes each one of them, and failing any single filter rejects
/// it.
pub proof fn lemma_filters_compose_with_and(fs: Seq<FilterSpec>, e: SearchEntry)
    ensures
        passes(fs, e) <==> (forall|i: int| 0 <= i < fs.len() ==> filter_holds(#[trigger] fs[i], e)),
        forall|i: int| 0 <= i < fs.len() && !filter_holds(#[trigger] fs[i], e) ==> !passes(fs, e),
        passes(fs, e) ==> forall|k: int| 0 <= k <= fs.len() ==> #[trigger] passes(fs.take(k), e),
{
    assert forall|k: int| 0 <= k <= fs.len() && passes(fs, e) implies #[trigger] passes(fs.take(k), e) by {
        assert forall|i: int| 0 <= i < fs.take(k).len() implies filter_holds(#[trigger] fs.take(k)[i], e) by {
            assert(fs.take(k)[i] == fs[i]);
        }
    }
}

fn word_filter_v(t: &Vec<char>) -> (r: Option<Filter>)
    ensures
        match r {
            Some(f) => word_filter(t@) == Some(f@),
            None => word_filter(t@) is None,
        },
{
    if t.len() > 0 && t[0] == '#' {
        if t.len() > 1 {
            let tag = slice_of(t.as_slice(), 1, t.len());
            proof {
                assert(tag@ =~= t@.drop_first());
            }
            return Some(Filter::Tag(string_of(tag.as_slice())));
        }
        return None;
    }
    let type_p = vec!['t', 'y', 'p', 'e', ':'];
    let tier_p = vec!['t', 'i', 'e', 'r', ':'];
    let status_p = vec!['s', 't', 'a', 't', 'u', 's', ':'];
    let stale_w = vec!['i', 's', ':', 's', 't', 'a', 'l', 'e'];
    let broken_w = vec!['i', 's', ':', 'b', 'r', 'o', 'k', 'e', 'n'];
    proof {
        assert(type_p@ =~= seq!['t', 'y', 'p', 'e', ':']);
        assert(tier_p@ =~= seq!['t', 'i', 'e', 'r', ':']);
        assert(status_p@ =~= seq!['s', 't', 'a', 't', 'u', 's', ':']);
        assert(stale_w@ =~= seq!['i', 's', ':', 's', 't', 'a', 'l', 'e']);
        assert(broken_w@ =~= seq!['i', 's', ':', 'b', 'r', 'o', 'k', 'e', 'n']);
    }
    if crate::text::starts_with_v(t.as_slice(), type_p.as_slice()) {
        let rest = slice_of(t.as_slice(), 5, t.len());
        proof {
            assert(rest@ =~= t@.skip(5));
        }
        return Some(Filter::Type(string_of(rest.as_slice())));
    }
    if crate::text::starts_with_v(t.as_slice(), tier_p.as_slice()) {
        let rest = slice_of(t.as_slice(), 5, t.len());
        proof {
            assert(rest@ =~= t@.skip(5));
        }
        let name = string_of(rest.as_slice());
        return match TrustTier::from_name(name.as_str()) {
            Some(x) => Some(Filter::Tier(x)),
            None => None,
        };
    }
    if crate::text::starts_with_v(t.as_slice(), status_p.as_slice()) {
        let rest = slice_of(t.as_slice(), 7, t.len());
        proof {
            assert(rest@ =~= t@.skip(7));
        }
        return Some(Filter::Status(string_of(rest.as_slice())));
    }
    if crate::markdown::eq_chars(t.as_slice(), stale_w.as_slice()) {
        return Some(Filter::Stale);
    }
    if crate::markdown::eq_chars(t.as_slice(), broken_w.as_slice()) {
        return Some(Filter::Broken);
    }
    None
}

/// The whitespace-separated words of `s`.
fn words_v(s: &Vec<char>) -> (r: Vec<Vec<char>>)
    ensures
        views(r@) == words(s@),
{
    let mut out: Vec<Vec<char>> = Vec::new();
    let mut i: usize = 0;
    while i < s.len()
        invariant
            i <= s@.len(),
            words(s@) == views(out@) + words_from(s@, i as int),
        decreases s.len() - i,
    {
        if whitespace(s[i]) {
            i += 1;
        } else {
            let start = i;
            proof {
                lemma_word_end(s@, i as int);
            }
            while i < s.len() && !whitespace(s[i])
                invariant
                    start <= i <= s@.len(),
                    word_end(s@, start as int) == word_end(s@, i as int),
                decreases s.len() - i,
            {
                i += 1;
            }
            let w = slice_of(s.as_slice(), start, i);
            let ghost before = views(out@);
            out.push(w);
            proof {
                assert(views(out@) =~= before.push(w@));
                assert(words_from(s@, start as int) == seq![s@.subrange(start as int, i as int)]
                    + words_from(s@, i as int));
                assert(views(out@) + words_from(s@, i as int) =~= before + words_from(
                    s@,
                    start as int,
                ));
            }
        }
    }
    assert(views(out@) + words_from(s@, i as int) =~= views(out@));
    out
}

impl Query {
    /// Parses the query syntax: whitespace-separated words, where `#x`,
    /// `type:x`, `tier:x` (a known tier), `status:x`, `is:stale` and
    /// `is:broken` become filters and the other words, joined by single
    /// spaces, are the free text.
    pub fn parse(raw: &str) -> (r: Query)
        ensures
            filter_views(r.filters@) == filters_of(words(raw@)),
            r.text@ == join(text_words(words(raw@)), seq![' ']),
    {
        let cs = chars_of(raw);
        let ws = words_v(&cs);
        let mut filters: Vec<Filter> = Vec::new();
        let mut texts: Vec<Vec<char>> = Vec::new();
        let mut i: usize = 0;
        while i < ws.len()
            invariant
                i <= ws@.len(),
                views(ws@) == words(raw@),
                filter_views(filters@) == filters_of(views(ws@).take(i as int)),
                views(texts@) == text_words(views(ws@).take(i as int)),
            decreases ws.len() - i,
        {
            let ghost wv = views(ws@);
            proof {
                assert(wv.take(i + 1).drop_last() =~= wv.take(i as int));
                assert(wv.take(i + 1).last() == ws@[i as int]@);
            }
            match word_filter_v(&ws[i]) {
                Some(f) => {
                    let ghost before = filter_views(filters@);
                    filters.push(f);
                    proof {
                        assert(filter_views(filters@) =~= before.push(f@));
                    }
                },
                None => {
                    let ghost before = views(texts@);
                    texts.push(ws[i].clone());
                    proof {
                        assert(views(texts@) =~= before.push(ws@[i as int]@));
                    }
                },
            }
            i += 1;
        }
        proof {
            assert(views(ws@).take(ws@.len() as int) =~= views(ws@));
        }
        let sep = vec![' '];
        let text = join_v(&texts, sep.as_slice());
        proof {
            assert(sep@ =~= seq![' ']);
        }
        Query { text: string_of(text.as_slice()), filters }
    }

    /// Whether an entry passes every filter.
    pub fn matches_filters(&self, entry: &SearchEntry) -> (r: bool)
        ensures
            r == passes(filter_views(self.filters@), *entry),
            r <==> (forall|i: int| 0 <= i < self.filters@.len() ==> filter_holds(#[trigger] filter_views(self.filters@)[i], *entry)),
    {
        let ghost fs = filter_views(self.filters@);
        let mut i: usize = 0;
        while i < self.filters.len()
            invariant
                i <= self.filters@.len(),
                fs == filter_views(self.filters@),
                forall|k: int| 0 <= k < i ==> filter_holds(#[trigger] fs[k], *entry),
            decreases self.filters.len() - i,
        {
            if !filter_holds_v(&self.filters[i], entry) {
                assert(!filter_holds(fs[i as int], *entry));
                return false;
            }
            i += 1;
        }
        true
    }
}

fn eq_ignore_case_str(a: &str, b: &str) -> (r: bool)
    ensures
        r == eq_ignore_case(a@, b@),
{
    let av = chars_of(a);
    let bv = chars_of(b);
    eq_ignore_case_v(av.as_slice(), bv.as_slice())
}

fn filter_holds_v(f: &Filter, e: &SearchEntry) -> (r: bool)
    ensures
        r == filter_holds(f@, *e),
{
    match f {
        Filter::Tag(tag) => {
            let mut k: usize = 0;
            while k < e.tags.len()
                invariant
                    k <= e.tags@.len(),
                    f@ == FilterSpec::Tag(tag@),
                    forall|j: int| 0 <= j < k ==> !eq_ignore_case(#[trigger] e.tags@[j]@, tag@),
                decreases e.tags.len() - k,
            {
                if eq_ignore_case_str(e.tags[k].as_str(), tag.as_str()) {
                    assert(eq_ignore_case(e.tags@[k as int]@, tag@));
                    return true;
                }
                k += 1;
            }
            false
        },
        Filter::Type(t) => eq_ignore_case_str(e.type_.as_str(), t.as_str()),
        Filter::Tier(x) => e.tier == *x,
        Filter::Status(s) => {
            let name = e.status.as_str();
            eq_ignore_case_str(name.as_str(), s.as_str())
        },
        Filter::Stale => e.stale,
        Filter::Broken => e.broken,
    }
}


// ---------------------------------------------------------------------------
// Omnisearch.
// ---------------------------------------------------------------------------

/// A concept id as text: its segments joined by `/`.
pub open spec fn id_text(id: Seq<Seq<char>>) -> Seq<char> {
    join(id, seq!['/'])
}

/// What a hit says, apart from its match indices.
pub ghost struct HitModel {
    pub id: Seq<Seq<char>>,
    pub heading: Option<Seq<char>>,
    pub score: int,
    pub label: Seq<char>,
}

pub open spec fn hit_model(h: SearchHit) -> HitModel {
    HitModel { id: h.id@, heading: opt_view(h.heading), score: h.score as int, label: h.label@ }
}

/// The texts a concept-level hit is scored against: id, title,
/// description, then the tags.
pub open spec fn candidates(e: SearchEntry) -> Seq<Seq<char>> {
    seq![id_text(e.id@), e.title@, e.description@] + string_views(e.tags@)
}

/// The best-scoring candidate and its score, the first among equals.
pub open spec fn best_candidate(qs: Seq<char>, cs: Seq<Seq<char>>) -> Option<(int, Seq<char>)>
    decreases cs.len(),
{
    if cs.len() == 0 {
        None
    } else {
        let prev = best_candidate(qs, cs.drop_last());
        match best_score(qs, cs.last()) {
            None => prev,
            Some(s) => match prev {
                Some(p) => if s > p.0 {
                    Some((s, cs.last()))
                } else {
                    prev
                },
                None => Some((s, cs.last())),
            },
        }
    }
}

/// Heading-level hits: every heading the query matches, in order, scored
/// one below its match so the concept row leads.
pub open spec fn heading_hits(qs: Seq<char>, id: Seq<Seq<char>>, hs: Seq<Seq<char>>) -> Seq<HitModel>
    decreases hs.len(),
{
    if hs.len() == 0 {
        Seq::empty()
    } else {
        let prev = heading_hits(qs, id, hs.drop_last());
        match best_score(qs, hs.last()) {
            Some(s) => prev.push(
                HitModel { id: id, heading: Some(hs.last()), score: s - 1, label: hs.last() },
            ),
            None => prev,
        }
    }
}

/// The hits of one entry for the filters `fs` and free text `text`: none
/// when a filter fails; the bare entry (score 0, labelled by its id) for
/// empty text; otherwise the best concept-level match, if any, then the
/// heading matches.
pub open spec fn entry_hits(e: SearchEntry, fs: Seq<FilterSpec>, text: Seq<char>) -> Seq<HitModel> {
    if !passes(fs, e) {
        Seq::empty()
    } else if text.len() == 0 {
        seq![HitModel { id: e.id@, heading: None, score: 0, label: id_text(e.id@) }]
    } else {
        let qs = drop_ws(text);
        let concept = match best_candidate(qs, candidates(e)) {
            Some(b) => seq![HitModel { id: e.id@, heading: None, score: b.0, label: b.1 }],
            None => Seq::empty(),
        };
        concept + heading_hits(qs, e.id@, string_views(e.headings@))
    }
}

/// The hits of every entry, in index order.
pub open spec fn index_hits(es: Seq<SearchEntry>, fs: Seq<FilterSpec>, text: Seq<char>) -> Seq<HitModel>
    decreases es.len(),
{
    if es.len() == 0 {
        Seq::empty()
    } else {
        index_hits(es.drop_last(), fs, text) + entry_hits(es.last(), fs, text)
    }
}

/// A hit's indices: none for empty free text, otherwise an optimal
/// placement of the free text in the label.
pub open spec fn indices_ok(h: SearchHit, text: Seq<char>) -> bool {
    if text.len() == 0 {
        h.indices@.len() == 0
    } else {
        optimal(drop_ws(text), h.label@, positions(h.indices@))
    }
}

/// The hits `hs` say what the models `ms` say, with fitting indices.
pub open spec fn hits_ok(hs: Seq<SearchHit>, ms: Seq<HitModel>, text: Seq<char>) -> bool {
    &&& hs.len() == ms.len()
    &&& forall|i: int| 0 <= i < hs.len() ==> hit_model(#[trigger] hs[i]) == ms[i] && indices_ok(hs[i], text)
}

/// Every text of an entry is short enough for the scorer.
pub open spec fn entry_fits(e: SearchEntry) -> bool {
    &&& id_text(e.id@).len() <= MAX_HAYSTACK_CHARS
    &&& e.title@.len() <= MAX_HAYSTACK_CHARS
    &&& e.description@.len() <= MAX_HAYSTACK_CHARS
    &&& forall|k: int| 0 <= k < e.tags@.len() ==> (#[trigger] e.tags@[k])@.len() <= MAX_HAYSTACK_CHARS
    &&& forall|k: int| 0 <= k < e.headings@.len() ==> (#[trigger] e.headings@[k])@.len() <= MAX_HAYSTACK_CHARS
}

/// Strict lexicographic order of char sequences (the order of `str`).
pub open spec fn seq_lt(a: Seq<char>, b: Seq<char>) -> bool
    decreases a.len(),
{
    if b.len() == 0 {
        false
    } else if a.len() == 0 {
        true
    } else if a[0] != b[0] {
        a[0] < b[0]
    } else {
        seq_lt(a.drop_first(), b.drop_first())
    }
}

/// `a` ranks before `b`: higher score, then smaller id.
pub open spec fn ranks_before(a: SearchHit, b: SearchHit) -> bool {
    a.score > b.score || (a.score == b.score && seq_lt(id_text(a.id@), id_text(b.id@)))
}

/// Where `x` goes into the ranked `s`: before the first element it ranks
/// before, after every other one.
pub open spec fn insert_pos(s: Seq<SearchHit>, x: SearchHit, i: int) -> int
    decreases s.len() - i,
{
    if i < 0 || i >= s.len() {
        s.len() as int
    } else if ranks_before(x, s[i]) {
        i
    } else {
        insert_pos(s, x, i + 1)
    }
}

/// `s` ranked best first; hits that rank alike keep their order (a stable
/// sort by descending score, then ascending id).
pub open spec fn ranked(s: Seq<SearchHit>) -> Seq<SearchHit>
    decreases s.len(),
{
    if s.len() == 0 {
        s
    } else {
        let r = ranked(s.drop_last());
        r.insert(insert_pos(r, s.last(), 0), s.last())
    }
}

/// The first `limit` elements of `s` (all of them when there are fewer).
pub open spec fn truncated<T>(s: Seq<T>, limit: int) -> Seq<T> {
    if limit < s.len() {
        s.take(limit)
    } else {
        s
    }
}

pub proof fn lemma_insert_pos(s: Seq<SearchHit>, x: SearchHit, i: int)
    requires
        0 <= i <= s.len(),
    ensures
        i <= insert_pos(s, x, i) <= s.len(),
    decreases s.len() - i,
{
    if i < s.len() && !ranks_before(x, s[i]) {
        lemma_insert_pos(s, x, i + 1);
    }
}

pub proof fn lemma_ranked_len(s: Seq<SearchHit>)
    ensures
        ranked(s).len() == s.len(),
    decreases s.len(),
{
    if s.len() > 0 {
        lemma_ranked_len(s.drop_last());
        lemma_insert_pos(ranked(s.drop_last()), s.last(), 0);
    }
}

pub proof fn lemma_hits_ok_append(a: Seq<SearchHit>, ma: Seq<HitModel>, b: Seq<SearchHit>, mb: Seq<HitModel>, text: Seq<char>)
    requires
        hits_ok(a, ma, text),
        hits_ok(b, mb, text),
    ensures
        hits_ok(a + b, ma + mb, text),
{
    assert forall|i: int| 0 <= i < (a + b).len() implies hit_model(#[trigger] (a + b)[i]) == (ma + mb)[i]
        && indices_ok((a + b)[i], text) by {
        if i >= a.len() {
            assert((a + b)[i] == b[i - a.len()]);
        }
    }
}

pub(crate) fn lex_less(a: &[char], b: &[char]) -> (r: bool)
    ensures
        r == seq_lt(a@, b@),
{
    let mut i: usize = 0;
    assert(a@.skip(0) =~= a@);
    assert(b@.skip(0) =~= b@);
    loop
        invariant
            i <= a@.len(),
            i <= b@.len(),
            seq_lt(a@, b@) == seq_lt(a@.skip(i as int), b@.skip(i as int)),
        decreases a.len() - i,
    {
        if i == b.len() {
            return false;
        }
        if i == a.len() {
            return true;
        }
        if a[i] != b[i] {
            return a[i] < b[i];
        }
        assert(a@.skip(i as int).drop_first() =~= a@.skip(i + 1));
        assert(b@.skip(i as int).drop_first() =~= b@.skip(i + 1));
        i += 1;
    }
}

fn ranks_before_v(a: &SearchHit, b: &SearchHit) -> (r: bool)
    ensures
        r == ranks_before(*a, *b),
{
    if a.score != b.score {
        return a.score > b.score;
    }
    let ap = a.id.to_path();
    let bp = b.id.to_path();
    let av = chars_of(ap.as_str());
    let bv = chars_of(bp.as_str());
    lex_less(av.as_slice(), bv.as_slice())
}

/// Ranks hits best first (descending score, then ascending id), keeping the
/// order of hits that rank alike.
fn rank_hits(hits: Vec<SearchHit>) -> (r: Vec<SearchHit>)
    ensures
        r@ == ranked(hits@),
{
    let ghost orig = hits@;
    assert(orig.len() == hits.len());
    let mut input = hits;
    let mut out: Vec<SearchHit> = Vec::new();
    let mut k: usize = 0;
    while input.len() > 0
        invariant
            k <= orig.len() <= usize::MAX,
            input@ == orig.skip(k as int),
            out@ == ranked(orig.take(k as int)),
        decreases input.len(),
    {
        assert(input@.len() == orig.len() - k);
        let x = input.remove(0);
        proof {
            assert(orig.skip(k as int).remove(0) =~= orig.skip(k + 1));
            assert(orig.take(k + 1).drop_last() =~= orig.take(k as int));
            lemma_insert_pos(out@, x, 0);
        }
        let mut p: usize = 0;
        while p < out.len() && !ranks_before_v(&x, &out[p])
            invariant
                p <= out@.len(),
                insert_pos(out@, x, 0) == insert_pos(out@, x, p as int),
            decreases out.len() - p,
        {
            p += 1;
        }
        out.insert(p, x);
        k += 1;
    }
    proof {
        assert(orig.take(orig.len() as int) =~= orig);
    }
    out
}

/// The best concept-level candidate so far, as the scorer returned it.
spec fn best_ok(b: Option<(i32, Vec<usize>, String)>, qs: Seq<char>, done: Seq<Seq<char>>) -> bool {
    match best_candidate(qs, done) {
        None => b is None,
        Some(m) => b matches Some(t) && t.0 == m.0 && t.2@ == m.1 && optimal(qs, t.2@, positions(t.1@)),
    }
}

fn consider(text: &str, hay: &str, best: Option<(i32, Vec<usize>, String)>, Ghost(done): Ghost<Seq<Seq<char>>>) -> (r: Option<(i32, Vec<usize>, String)>)
    requires
        hay@.len() <= MAX_HAYSTACK_CHARS,
        best_ok(best, drop_ws(text@), done),
    ensures
        best_ok(r, drop_ws(text@), done.push(hay@)),
{
    let ghost qs = drop_ws(text@);
    proof {
        assert(done.push(hay@).drop_last() =~= done);
    }
    match fuzzy_match(text, hay) {
        None => best,
        Some((score, idx)) => {
            let replace = match &best {
                None => true,
                Some(b) => score > b.0,
            };
            if replace {
                Some((score, idx, hay.to_owned()))
            } else {
                best
            }
        },
    }
}

/// The hits of one entry.
fn entry_hits_v(query: &Query, e: &SearchEntry) -> (r: Vec<SearchHit>)
    requires
        entry_fits(*e),
    ensures
        hits_ok(r@, entry_hits(*e, filter_views(query.filters@), query.text@), query.text@),
{
    let ghost fs = filter_views(query.filters@);
    let ghost text = query.text@;
    let mut out: Vec<SearchHit> = Vec::new();
    if !query.matches_filters(e) {
        return out;
    }
    if query.text.as_str().is_empty() {
        let hit = SearchHit {
            id: e.id.clone(),
            heading: None,
            score: 0,
            indices: Vec::new(),
            label: e.id.to_path(),
        };
        out.push(hit);
        return out;
    }
    let ghost qs = drop_ws(text);
    let t = query.text.as_str();
    let id_str = e.id.to_path();
    let ghost mut done: Seq<Seq<char>> = Seq::empty();
    let mut best: Option<(i32, Vec<usize>, String)> = None;
    best = consider(t, id_str.as_str(), best, Ghost(done));
    proof {
        done = done.push(id_str@);
    }
    best = consider(t, e.title.as_str(), best, Ghost(done));
    proof {
        done = done.push(e.title@);
    }
    best = consider(t, e.description.as_str(), best, Ghost(done));
    proof {
        done = done.push(e.description@);
    }
    let mut k: usize = 0;
    while k < e.tags.len()
        invariant
            k <= e.tags@.len(),
            entry_fits(*e),
            qs == drop_ws(t@),
            done == seq![id_text(e.id@), e.title@, e.description@] + string_views(e.tags@).take(k as int),
            best_ok(best, qs, done),
        decreases e.tags.len() - k,
    {
        best = consider(t, e.tags[k].as_str(), best, Ghost(done));
        proof {
            assert(string_views(e.tags@).take(k + 1) =~= string_views(e.tags@).take(k as int).push(e.tags@[k as int]@));
            done = done.push(e.tags@[k as int]@);
        }
        k += 1;
    }
    proof {
        assert(string_views(e.tags@).take(e.tags@.len() as int) =~= string_views(e.tags@));
        assert(done == candidates(*e));
    }
    let ghost concept: Seq<HitModel> = match best_candidate(qs, candidates(*e)) {
        Some(b) => seq![HitModel { id: e.id@, heading: None, score: b.0, label: b.1 }],
        None => Seq::empty(),
    };
    match best {
        Some((score, indices, label)) => {
            out.push(SearchHit { id: e.id.clone(), heading: None, score, indices, label });
        },
        None => {},
    }
    proof {
        assert(hits_ok(out@, concept, text));
    }
    let ghost hv = string_views(e.headings@);
    let mut j: usize = 0;
    while j < e.headings.len()
        invariant
            j <= e.headings@.len(),
            entry_fits(*e),
            qs == drop_ws(t@),
            text == t@,
            hv == string_views(e.headings@),
            hits_ok(out@, concept + heading_hits(qs, e.id@, hv.take(j as int)), text),
        decreases e.headings.len() - j,
    {
        let ghost before = out@;
        proof {
            assert(hv.take(j + 1).drop_last() =~= hv.take(j as int));
            assert(hv.take(j + 1).last() == e.headings@[j as int]@);
        }
        match fuzzy_match(t, e.headings[j].as_str()) {
            Some((score, indices)) => {
                out.push(
                    SearchHit {
                        id: e.id.clone(),
                        heading: Some(e.headings[j].clone()),
                        score: score - 1,
                        indices,
                        label: e.headings[j].clone(),
                    },
                );
                proof {
                    assert(out@ == before.push(out@.last()));
                    let m = concept + heading_hits(qs, e.id@, hv.take(j + 1));
                    assert(m =~= (concept + heading_hits(qs, e.id@, hv.take(j as int))).push(
                        m.last(),
                    ));
                    assert(hit_model(out@.last()) == m.last());
                    assert forall|i: int| 0 <= i < out@.len() implies hit_model(#[trigger] out@[i]) == m[i]
                        && indices_ok(out@[i], text) by {
                        if i < before.len() {
                            assert(out@[i] == before[i]);
                        }
                    }
                }
            },
            None => {
                proof {
                    assert(heading_hits(qs, e.id@, hv.take(j + 1)) == heading_hits(
                        qs,
                        e.id@,
                        hv.take(j as int),
                    ));
                }
            },
        }
        j += 1;
    }
    proof {
        assert(hv.take(e.headings@.len() as int) =~= hv);
    }
    out
}

impl SearchIndex {
    /// Runs a query over the index: the hits of every entry (see
    /// [`entry_hits`]) ranked best first (descending score, then ascending
    /// id, hits that rank alike in index order), at most `limit` of them. An
    /// empty free-text query yields every entry passing the filters, in
    /// index order.
    pub fn search(&self, raw_query: &str, limit: usize) -> (r: Vec<SearchHit>)
        requires
            forall|i: int| 0 <= i < self.entries@.len() ==> entry_fits(#[trigger] self.entries@[i]),
        ensures
            exists|raw: Seq<SearchHit>| #[trigger]
                hits_ok(
                    raw,
                    index_hits(
                        self.entries@,
                        filters_of(words(raw_query@)),
                        join(text_words(words(raw_query@)), seq![' ']),
                    ),
                    join(text_words(words(raw_query@)), seq![' ']),
                ) && r@ == truncated(
                    if join(text_words(words(raw_query@)), seq![' ']).len() == 0 {
                        raw
                    } else {
                        ranked(raw)
                    },
                    limit as int,
                ),
    {
        let query = Query::parse(raw_query);
        let ghost fs = filter_views(query.filters@);
        let ghost text = query.text@;
        let mut hits: Vec<SearchHit> = Vec::new();
        let mut i: usize = 0;
        while i < self.entries.len()
            invariant
                i <= self.entries@.len(),
                forall|k: int| 0 <= k < self.entries@.len() ==> entry_fits(#[trigger] self.entries@[k]),
                fs == filter_views(query.filters@),
                text == query.text@,
                hits_ok(hits@, index_hits(self.entries@.take(i as int), fs, text), text),
            decreases self.entries.len() - i,
        {
            let mut eh = entry_hits_v(&query, &self.entries[i]);
            let ghost before = hits@;
            let ghost added = eh@;
            hits.append(&mut eh);
            proof {
                let es = self.entries@.take(i + 1);
                assert(es.drop_last() =~= self.entries@.take(i as int));
                lemma_hits_ok_append(before, index_hits(self.entries@.take(i as int), fs, text), added, entry_hits(self.entries@[i as int], fs, text), text);
            }
            i += 1;
        }
        proof {
            assert(self.entries@.take(self.entries@.len() as int) =~= self.entries@);
        }
        let ghost raw = hits@;
        let mut out = if query.text.as_str().is_empty() {
            hits
        } else {
            rank_hits(hits)
        };
        proof {
            lemma_ranked_len(raw);
        }
        out.truncate(limit);
        out
    }
}


// ---------------------------------------------------------------------------
// Laws of the ranking.
// ---------------------------------------------------------------------------

pub proof fn lemma_seq_lt_irreflexive(a: Seq<char>)
    ensures
        !seq_lt(a, a),
    decreases a.len(),
{
    if a.len() > 0 {
        lemma_seq_lt_irreflexive(a.drop_first());
    }
}

pub proof fn lemma_seq_lt_transitive(a: Seq<char>, b: Seq<char>, c: Seq<char>)
    requires
        seq_lt(a, b),
        seq_lt(b, c),
    ensures
        seq_lt(a, c),
    decreases a.len(),
{
    if a.len() > 0 && a[0] == b[0] && b[0] == c[0] {
        lemma_seq_lt_transitive(a.drop_first(), b.drop_first(), c.drop_first());
    }
}

/// Ranking is a strict order: no hit ranks before itself, and ranking
/// before is transitive.
pub proof fn lemma_ranks_before_order(a: SearchHit, b: SearchHit, c: SearchHit)
    ensures
        !ranks_before(a, a),
        ranks_before(a, b) && ranks_before(b, c) ==> ranks_before(a, c),
{
    lemma_seq_lt_irreflexive(id_text(a.id@));
    if ranks_before(a, b) && ranks_before(b, c) && a.score == c.score {
        lemma_seq_lt_transitive(id_text(a.id@), id_text(b.id@), id_text(c.id@));
    }
}

pub proof fn lemma_insert_pos_props(s: Seq<SearchHit>, x: SearchHit, i: int)
    requires
        0 <= i <= s.len(),
    ensures
        forall|k: int| i <= k < insert_pos(s, x, i) ==> !ranks_before(x, #[trigger] s[k]),
        insert_pos(s, x, i) < s.len() ==> ranks_before(x, s[insert_pos(s, x, i)]),
    decreases s.len() - i,
{
    if i < s.len() && !ranks_before(x, s[i]) {
        lemma_insert_pos_props(s, x, i + 1);
    }
}

/// No element of `s` ranks before an earlier one.
pub open spec fn is_ranked(s: Seq<SearchHit>) -> bool {
    forall|i: int, j: int| 0 <= i < j < s.len() ==> !ranks_before(#[trigger] s[j], #[trigger] s[i])
}

/// Search results come best first: after ranking, no hit ranks before an
/// earlier one.
pub proof fn lemma_ranked_sorted(s: Seq<SearchHit>)
    ensures
        is_ranked(ranked(s)),
    decreases s.len(),
{
    if s.len() > 0 {
        let r = ranked(s.drop_last());
        let x = s.last();
        lemma_ranked_sorted(s.drop_last());
        lemma_insert_pos(r, x, 0);
        lemma_insert_pos_props(r, x, 0);
        let p = insert_pos(r, x, 0);
        let n = r.insert(p, x);
        assert forall|i: int, j: int| 0 <= i < j < n.len() implies !ranks_before(#[trigger] n[j], #[trigger] n[i]) by {
            if j < p {
                assert(n[i] == r[i] && n[j] == r[j]);
            } else if j == p {
                assert(n[i] == r[i]);
            } else if i > p {
                assert(n[i] == r[i - 1] && n[j] == r[j - 1]);
            } else if i == p {
                assert(n[j] == r[j - 1]);
                lemma_ranks_before_order(r[j - 1], x, r[p]);
                lemma_ranks_before_order(r[p], x, r[p]);
            } else {
                assert(n[i] == r[i] && n[j] == r[j - 1]);
            }
        }
    }
}

/// Ranking reorders the hits: it neither adds nor drops any.
pub proof fn lemma_ranked_permutation(s: Seq<SearchHit>)
    ensures
        ranked(s).to_multiset() == s.to_multiset(),
    decreases s.len(),
{
    broadcast use vstd::seq_lib::to_multiset_build, vstd::seq_lib::to_multiset_insert;

    if s.len() > 0 {
        let r = ranked(s.drop_last());
        lemma_ranked_permutation(s.drop_last());
        lemma_ranked_len(s.drop_last());
        lemma_insert_pos(r, s.last(), 0);
        assert(s.drop_last().push(s.last()) =~= s);
    }
}


// ---------------------------------------------------------------------------
// Body search: byte offsets, smart-case substrings, snippet windows.
// ---------------------------------------------------------------------------

/// Characters of context kept on each side of a body match.
pub const SNIPPET_CONTEXT: usize = 60;

/// Byte offset of char index `m` in `s`.
pub open spec fn byte_offset(s: Seq<char>, m: int) -> nat {
    byte_len(s.take(m))
}

/// `b` is a char boundary of `s` (its end included).
pub open spec fn char_boundary(s: Seq<char>, b: int) -> bool {
    exists|m: int| 0 <= m <= s.len() && #[trigger] byte_offset(s, m) == b
}

/// The first char index at or after `m` whose byte offset is at least `x`
/// (`s.len()` when there is none).
pub open spec fn ceil_index(s: Seq<char>, x: int, m: int) -> int
    decreases s.len() - m,
{
    if m < 0 || m >= s.len() || byte_offset(s, m) >= x {
        m
    } else {
        ceil_index(s, x, m + 1)
    }
}

pub proof fn lemma_byte_offset_step(s: Seq<char>, m: int)
    requires
        0 <= m < s.len(),
    ensures
        byte_offset(s, m + 1) == byte_offset(s, m) + utf8_len(s[m]),
        1 <= utf8_len(s[m]) <= 4,
{
    assert(s.take(m + 1).drop_last() =~= s.take(m));
}

/// Byte offsets grow with the char index.
pub proof fn lemma_byte_offset_mono(s: Seq<char>, m1: int, m2: int)
    requires
        0 <= m1 <= m2 <= s.len(),
    ensures
        byte_offset(s, m1) + (m2 - m1) <= byte_offset(s, m2),
        byte_offset(s, m2) <= byte_offset(s, m1) + 4 * (m2 - m1),
    decreases m2 - m1,
{
    if m1 < m2 {
        lemma_byte_offset_step(s, m2 - 1);
        lemma_byte_offset_mono(s, m1, m2 - 1);
    }
}

pub proof fn lemma_ceil_index(s: Seq<char>, x: int, m: int)
    requires
        0 <= m <= s.len(),
        byte_offset(s, m) <= x <= byte_offset(s, s.len() as int),
    ensures
        m <= ceil_index(s, x, m) <= s.len(),
        byte_offset(s, ceil_index(s, x, m)) >= x,
        byte_offset(s, ceil_index(s, x, m)) <= x + 3,
        forall|k: int| m <= k < ceil_index(s, x, m) ==> #[trigger] byte_offset(s, k) < x,
    decreases s.len() - m,
{
    if m < s.len() && byte_offset(s, m) < x {
        lemma_byte_offset_step(s, m);
        if byte_offset(s, m + 1) >= x {
            assert(ceil_index(s, x, m + 1) == m + 1);
        } else {
            lemma_ceil_index(s, x, m + 1);
        }
    }
}

/// Some char of `s` is upper case.
pub open spec fn has_upper(s: Seq<char>) -> bool {
    exists|i: int| 0 <= i < s.len() && unicode_uppercase(#[trigger] s[i])
}

/// Smart-case substring search, as a byte offset into `line`: an empty query
/// finds nothing; a query holding an upper-case char must occur exactly;
/// otherwise the lower-cased query is searched in the lower-cased line, and
/// the match counts when its offset there is also a char boundary of `line`.
pub open spec fn smart_find(q: Seq<char>, line: Seq<char>) -> Option<int> {
    if q.len() == 0 {
        None
    } else if has_upper(q) {
        match find(line, q) {
            Some(k) => Some(byte_offset(line, k) as int),
            None => None,
        }
    } else {
        let low = str_to_lower(line);
        match find(low, str_to_lower(q)) {
            Some(k) => if char_boundary(line, byte_offset(low, k) as int) {
                Some(byte_offset(low, k) as int)
            } else {
                None
            },
            None => None,
        }
    }
}

pub proof fn lemma_find_from(s: Seq<char>, p: Seq<char>, from: int)
    ensures
        find_from(s, p, from) matches Some(k) ==> from <= k && k + p.len() <= s.len() && 0 <= k,
    decreases s.len() - from,
{
    if !(from < 0 || from + p.len() > s.len()) && !crate::text::occurs_at(s, p, from) && from < s.len() {
        lemma_find_from(s, p, from + 1);
    }
}

/// Byte offset of char index `m`, computed.
fn byte_offset_v(s: &[char], m: usize) -> (r: usize)
    requires
        m <= s@.len(),
        byte_offset(s@, s@.len() as int) <= usize::MAX,
    ensures
        r == byte_offset(s@, m as int),
{
    let mut acc: usize = 0;
    let mut i: usize = 0;
    proof {
        assert(s@.take(0) =~= Seq::<char>::empty());
    }
    while i < m
        invariant
            i <= m <= s@.len(),
            byte_offset(s@, s@.len() as int) <= usize::MAX,
            acc == byte_offset(s@, i as int),
        decreases m - i,
    {
        proof {
            lemma_byte_offset_step(s@, i as int);
            lemma_byte_offset_mono(s@, i + 1, s@.len() as int);
        }
        acc = acc + char_utf8_len(s[i]);
        i += 1;
    }
    acc
}

/// Byte length of a string's chars, which `str` keeps within `usize`.
pub open spec fn fits_bytes(s: Seq<char>) -> bool {
    byte_len(s) <= usize::MAX
}

fn is_boundary_v(s: &[char], b: usize) -> (r: bool)
    requires
        fits_bytes(s@),
    ensures
        r == char_boundary(s@, b as int),
{
    proof {
        assert(s@.take(s@.len() as int) =~= s@);
    }
    let mut acc: usize = 0;
    let mut i: usize = 0;
    proof {
        assert(s@.take(0) =~= Seq::<char>::empty());
    }
    while i < s.len() && acc < b
        invariant
            i <= s@.len(),
            fits_bytes(s@),
            byte_offset(s@, s@.len() as int) == byte_len(s@),
            acc == byte_offset(s@, i as int),
            forall|k: int| 0 <= k < i ==> #[trigger] byte_offset(s@, k) < b,
        decreases s.len() - i,
    {
        proof {
            lemma_byte_offset_step(s@, i as int);
            lemma_byte_offset_mono(s@, i + 1, s@.len() as int);
        }
        acc = acc + char_utf8_len(s[i]);
        i += 1;
    }
    if acc == b {
        return true;
    }
    proof {
        assert forall|m: int| 0 <= m <= s@.len() implies #[trigger] byte_offset(s@, m) != b by {
            if m < i {
            } else if m > i {
                lemma_byte_offset_mono(s@, i as int, m);
            }
        }
    }
    false
}

/// Smart-case substring search: the byte offset of the first match of
/// `query` in `line`, matching case-insensitively unless the query holds an
/// upper-case char (then exactly).
pub fn find_substring_smart_case(query: &str, line: &str) -> (r: Option<usize>)
    ensures
        r matches Some(b) ==> smart_find(query@, line@) == Some(b as int) && b <= byte_len(line@),
        r is None ==> smart_find(query@, line@) is None,
{
    text_fits(line);
    let qv = chars_of(query);
    if qv.len() == 0 {
        return None;
    }
    let mut upper = false;
    let mut i: usize = 0;
    while i < qv.len()
        invariant
            i <= qv@.len(),
            qv@ == query@,
            upper == exists|k: int| 0 <= k < i && unicode_uppercase(#[trigger] qv@[k]),
        decreases qv.len() - i,
    {
        if uppercase(qv[i]) {
            upper = true;
        }
        i += 1;
    }
    let lv = chars_of(line);
    proof {
        assert(lv@.take(lv@.len() as int) =~= lv@);
    }
    if upper {
        match find_v(lv.as_slice(), qv.as_slice()) {
            Some(k) => {
                proof {
                    lemma_find_from(lv@, qv@, 0);
                    lemma_byte_offset_mono(lv@, 0, lv@.len() as int);
                    lemma_byte_offset_mono(lv@, k as int, lv@.len() as int);
                }
                return Some(byte_offset_v(lv.as_slice(), k));
            },
            None => return None,
        }
    }
    let low_line = lowercase_text(line);
    let low_query = lowercase_text(query);
    text_fits(low_line.as_str());
    let ll = chars_of(low_line.as_str());
    let lq = chars_of(low_query.as_str());
    proof {
        assert(ll@.take(ll@.len() as int) =~= ll@);
    }
    match find_v(ll.as_slice(), lq.as_slice()) {
        Some(k) => {
            proof {
                lemma_find_from(ll@, lq@, 0);
            }
            let b = byte_offset_v(ll.as_slice(), k);
            if is_boundary_v(lv.as_slice(), b) {
                proof {
                    let m = choose|m: int| 0 <= m <= lv@.len() && #[trigger] byte_offset(lv@, m) == b;
                    lemma_byte_offset_mono(lv@, m, lv@.len() as int);
                }
                Some(b)
            } else {
                None
            }
        },
        None => None,
    }
}

/// `s` without leading and trailing tabs and spaces.
pub open spec fn trim_blank(s: Seq<char>) -> Seq<char>
    decreases s.len(),
{
    if s.len() > 0 && (s[0] == ' ' || s[0] == '\t') {
        trim_blank(s.drop_first())
    } else if s.len() > 0 && (s.last() == ' ' || s.last() == '\t') {
        trim_blank(s.drop_last())
    } else {
        s
    }
}

/// The char span `[from, to)` of `line` that [`window`] keeps around a match
/// at byte `start` of byte length `len`: the match plus
/// [`SNIPPET_CONTEXT`] bytes on each side, each end moved forward to a char
/// boundary.
pub open spec fn window_span(line: Seq<char>, start: int, len: int) -> (int, int) {
    let total = byte_offset(line, line.len() as int) as int;
    let from = if start > SNIPPET_CONTEXT { start - SNIPPET_CONTEXT } else { 0 };
    let to = start + len + SNIPPET_CONTEXT;
    let from = if from < total { from } else { total };
    let to = if to < total { to } else { total };
    (ceil_index(line, from, 0), ceil_index(line, to, 0))
}

/// The snippet [`window`] returns: the kept span, trimmed of tabs and
/// spaces, with `…` where text was cut on either side.
pub open spec fn window_text(line: Seq<char>, start: int, len: int) -> Seq<char> {
    let (mf, mt) = window_span(line, start, len);
    let total = byte_offset(line, line.len() as int);
    let pre: Seq<char> = if byte_offset(line, mf) > 0 { seq!['…'] } else { Seq::empty() };
    let post: Seq<char> = if byte_offset(line, mt) < total { seq!['…'] } else { Seq::empty() };
    pre + trim_blank(line.subrange(mf, mt)) + post
}

/// How many tabs and spaces lead `s`.
pub open spec fn lead_blanks(s: Seq<char>) -> nat
    decreases s.len(),
{
    if s.len() > 0 && (s[0] == ' ' || s[0] == '\t') {
        1 + lead_blanks(s.drop_first())
    } else {
        0
    }
}

/// The match's byte offset within the snippet [`window`] returns: past the
/// `…` when text was cut before the kept span, and past the kept span's
/// bytes before the match, less the tabs and spaces trimmed from its front
/// (one byte each).
pub open spec fn window_offset(line: Seq<char>, start: int, len: int) -> int {
    let (mf, mt) = window_span(line, start, len);
    let from = byte_offset(line, mf);
    let kept = if mf <= mt { line.subrange(mf, mt) } else { Seq::empty() };
    let blanks = if lead_blanks(kept) < start - from { lead_blanks(kept) as int } else { start - from };
    (if from > 0 { 3int } else { 0int }) + start - from - blanks
}

fn lead_blanks_v(s: &[char]) -> (r: usize)
    ensures
        r == lead_blanks(s@),
{
    let mut i: usize = 0;
    proof {
        assert(s@.skip(0) =~= s@);
    }
    while i < s.len() && (s[i] == ' ' || s[i] == '\t')
        invariant
            i <= s@.len(),
            lead_blanks(s@) == i + lead_blanks(s@.skip(i as int)),
        decreases s.len() - i,
    {
        assert(s@.skip(i as int).drop_first() =~= s@.skip(i + 1));
        i += 1;
    }
    i
}

fn trim_blank_v(s: &[char]) -> (r: Vec<char>)
    ensures
        r@ == trim_blank(s@),
{
    let mut a: usize = 0;
    let mut b: usize = s.len();
    proof {
        assert(s@.subrange(0, s@.len() as int) =~= s@);
    }
    while a < b && (s[a] == ' ' || s[a] == '\t')
        invariant
            a <= b == s@.len(),
            trim_blank(s@) == trim_blank(s@.subrange(a as int, b as int)),
        decreases b - a,
    {
        assert(s@.subrange(a as int, b as int).drop_first() =~= s@.subrange(a + 1, b as int));
        a += 1;
    }
    while a < b && (s[b - 1] == ' ' || s[b - 1] == '\t')
        invariant
            a <= b <= s@.len(),
            a < b ==> !(s@[a as int] == ' ' || s@[a as int] == '\t'),
            trim_blank(s@) == trim_blank(s@.subrange(a as int, b as int)),
        decreases b - a,
    {
        assert(s@.subrange(a as int, b as int).drop_last() =~= s@.subrange(a as int, b - 1));
        b -= 1;
    }
    slice_of(s, a, b)
}

/// The index of the first char whose byte offset is at least `x`.
fn ceil_index_v(s: &[char], x: usize) -> (r: (usize, usize))
    requires
        fits_bytes(s@),
        x <= byte_offset(s@, s@.len() as int),
    ensures
        r.0 == ceil_index(s@, x as int, 0),
        r.1 == byte_offset(s@, r.0 as int),
{
    let mut acc: usize = 0;
    let mut i: usize = 0;
    proof {
        assert(s@.take(0) =~= Seq::<char>::empty());
        assert(s@.take(s@.len() as int) =~= s@);
    }
    while i < s.len() && acc < x
        invariant
            i <= s@.len(),
            fits_bytes(s@),
            byte_offset(s@, s@.len() as int) == byte_len(s@),
            acc == byte_offset(s@, i as int),
            ceil_index(s@, x as int, 0) == ceil_index(s@, x as int, i as int),
        decreases s.len() - i,
    {
        proof {
            lemma_byte_offset_step(s@, i as int);
            lemma_byte_offset_mono(s@, i + 1, s@.len() as int);
        }
        acc = acc + char_utf8_len(s[i]);
        i += 1;
    }
    (i, acc)
}

/// Windows `line` around the match at byte `start` of byte length `len`:
/// the snippet of [`window_text`] and the match's byte offset in it
/// ([`window_offset`]).
pub fn window(line: &str, start: usize, len: usize) -> (r: (String, usize))
    requires
        start + 3 <= usize::MAX,
    ensures
        r.0@ == window_text(line@, start as int, len as int),
        r.1 == window_offset(line@, start as int, len as int),
{
    text_fits(line);
    let s = chars_of(line);
    proof {
        assert(s@.take(s@.len() as int) =~= s@);
        lemma_byte_offset_mono(s@, 0, s@.len() as int);
    }
    let total = byte_offset_v(s.as_slice(), s.len());
    let from0: usize = if start > SNIPPET_CONTEXT { start - SNIPPET_CONTEXT } else { 0 };
    let to0: usize = start.saturating_add(len).saturating_add(SNIPPET_CONTEXT);
    let from1 = if from0 < total { from0 } else { total };
    let to1 = if to0 < total { to0 } else { total };
    proof {
        assert(s@.take(0) =~= Seq::<char>::empty());
    }
    let (mf, from) = ceil_index_v(s.as_slice(), from1);
    let (mt, to) = ceil_index_v(s.as_slice(), to1);
    proof {
        lemma_ceil_index(s@, from1 as int, 0);
        lemma_ceil_index(s@, to1 as int, 0);
        if from1 <= to1 {
            assert(mf <= mt) by {
                if mt < mf {
                    assert(byte_offset(s@, mt as int) < from1);
                }
            }
        }
    }
    let mut out: Vec<char> = Vec::new();
    if from > 0 {
        out.push('…');
    }
    let ghost pre = out@;
    let mid = if mf <= mt { slice_of(s.as_slice(), mf, mt) } else { Vec::new() };
    let kept = trim_blank_v(mid.as_slice());
    crate::text::push_all(&mut out, kept.as_slice());
    if to < total {
        out.push('…');
    }
    let lead: usize = if from > 0 { 3 } else { 0 };
    proof {
        assert(from1 <= to1);
        if from > 0 {
            assert(pre =~= seq!['…']);
        } else {
            assert(pre =~= Seq::<char>::empty());
        }
        assert(from <= start) by {
            if start > SNIPPET_CONTEXT {
            } else {
                assert(from1 == 0);
                assert(ceil_index(s@, 0, 0) == 0);
            }
        }
    }
    let blanks = lead_blanks_v(mid.as_slice());
    let back: usize = if blanks < start - from { blanks } else { start - from };
    (string_of(out.as_slice()), lead + (start - from) - back)
}


/// What a body hit says.
pub ghost struct BodyModel {
    pub id: Seq<Seq<char>>,
    pub line: int,
    pub snippet: Seq<char>,
    pub start: int,
}

pub open spec fn body_model(h: BodyHit) -> BodyModel {
    BodyModel { id: h.id@, line: h.line as int, snippet: h.snippet@, start: h.start as int }
}

pub open spec fn body_models(hs: Seq<BodyHit>) -> Seq<BodyModel> {
    hs.map_values(|h: BodyHit| body_model(h))
}

/// The hit of line `n` (0-based) of a body, if the free text occurs in it:
/// the line's leading whitespace is dropped and the rest windowed around
/// the match.
pub open spec fn line_hit(id: Seq<Seq<char>>, n: int, line: Seq<char>, text: Seq<char>) -> Option<BodyModel> {
    match smart_find(text, line) {
        None => None,
        Some(start) => {
            let t = trim_start(line);
            let lead = byte_len(line) - byte_len(t);
            let st = if start > lead { start - lead } else { 0 };
            Some(
                BodyModel {
                    id: id,
                    line: n + 1,
                    snippet: window_text(t, st, byte_len(text) as int),
                    start: window_offset(t, st, byte_len(text) as int),
                },
            )
        },
    }
}

/// The hits of the lines of one body, in line order.
pub open spec fn lines_hits(id: Seq<Seq<char>>, ls: Seq<Seq<char>>, text: Seq<char>) -> Seq<BodyModel>
    decreases ls.len(),
{
    if ls.len() == 0 {
        Seq::empty()
    } else {
        let prev = lines_hits(id, ls.drop_last(), text);
        match line_hit(id, ls.len() - 1, ls.last(), text) {
            Some(h) => prev.push(h),
            None => prev,
        }
    }
}

/// The body hits of the first `n` entries, in index order then line order;
/// an entry failing a filter, or without a body, has none.
pub open spec fn bodies_hits(
    es: Seq<SearchEntry>,
    bodies: Seq<Option<String>>,
    fs: Seq<FilterSpec>,
    text: Seq<char>,
    n: int,
) -> Seq<BodyModel>
    decreases n,
{
    if n <= 0 {
        Seq::empty()
    } else {
        let prev = bodies_hits(es, bodies, fs, text, n - 1);
        if passes(fs, es[n - 1]) && bodies[n - 1] is Some {
            prev + lines_hits(es[n - 1].id@, lines(bodies[n - 1]->0@), text)
        } else {
            prev
        }
    }
}

pub proof fn lemma_lines_hits_prefix(id: Seq<Seq<char>>, ls: Seq<Seq<char>>, text: Seq<char>, j: int)
    requires
        0 <= j <= ls.len(),
    ensures
        lines_hits(id, ls.take(j), text).len() <= lines_hits(id, ls, text).len(),
        lines_hits(id, ls, text).take(lines_hits(id, ls.take(j), text).len() as int) == lines_hits(
            id,
            ls.take(j),
            text,
        ),
    decreases ls.len() - j,
{
    if j < ls.len() {
        lemma_lines_hits_prefix(id, ls, text, j + 1);
        assert(ls.take(j + 1).drop_last() =~= ls.take(j));
        let a = lines_hits(id, ls.take(j), text);
        let b = lines_hits(id, ls.take(j + 1), text);
        let c = lines_hits(id, ls, text);
        assert(b.take(a.len() as int) =~= a);
        assert(c.take(a.len() as int) =~= b.take(a.len() as int));
    } else {
        assert(ls.take(j) =~= ls);
        let c = lines_hits(id, ls, text);
        assert(c.take(c.len() as int) =~= c);
    }
}

pub proof fn lemma_bodies_hits_prefix(
    es: Seq<SearchEntry>,
    bodies: Seq<Option<String>>,
    fs: Seq<FilterSpec>,
    text: Seq<char>,
    i: int,
    n: int,
)
    requires
        0 <= i <= n,
    ensures
        bodies_hits(es, bodies, fs, text, i).len() <= bodies_hits(es, bodies, fs, text, n).len(),
        bodies_hits(es, bodies, fs, text, n).take(bodies_hits(es, bodies, fs, text, i).len() as int)
            == bodies_hits(es, bodies, fs, text, i),
    decreases n - i,
{
    let a = bodies_hits(es, bodies, fs, text, i);
    if i < n {
        lemma_bodies_hits_prefix(es, bodies, fs, text, i + 1, n);
        let b = bodies_hits(es, bodies, fs, text, i + 1);
        let c = bodies_hits(es, bodies, fs, text, n);
        assert(b.take(a.len() as int) =~= a);
        assert(c.take(a.len() as int) =~= b.take(a.len() as int));
    } else {
        assert(a.take(a.len() as int) =~= a);
    }
}

pub proof fn lemma_byte_len_concat(a: Seq<char>, b: Seq<char>)
    ensures
        byte_len(a + b) == byte_len(a) + byte_len(b),
    decreases b.len(),
{
    if b.len() == 0 {
        assert(a + b =~= a);
    } else {
        lemma_byte_len_concat(a, b.drop_last());
        assert((a + b).drop_last() =~= a + b.drop_last());
    }
}

/// Searches the bodies for the free text of the query, line by line, in
/// index order then line order; `bodies[i]` is the body of entry `i`
/// (`None` when its concept is not loaded). Filters narrow which entries are
/// scanned; the free text is matched with [`find_substring_smart_case`] and
/// windowed with [`window`]. Empty free text scans nothing, and a `limit`
/// of 0 asks for nothing; otherwise the scan stops as soon as `limit` hits
/// are found.
pub fn search_bodies_indexed(index: &SearchIndex, bodies: &Vec<Option<String>>, raw_query: &str, limit: usize) -> (r: Vec<BodyHit>)
    requires
        bodies@.len() == index.entries@.len(),
    ensures
        join(text_words(words(raw_query@)), seq![' ']).len() == 0 || limit == 0 ==> r@.len() == 0,
        join(text_words(words(raw_query@)), seq![' ']).len() > 0 && limit > 0 ==> body_models(r@) == truncated(
            bodies_hits(
                index.entries@,
                bodies@,
                filters_of(words(raw_query@)),
                join(text_words(words(raw_query@)), seq![' ']),
                index.entries@.len() as int,
            ),
            limit as int,
        ),
{
    let query = Query::parse(raw_query);
    let mut hits: Vec<BodyHit> = Vec::new();
    if query.text.as_str().is_empty() || limit == 0 {
        return hits;
    }
    let ghost fs = filter_views(query.filters@);
    let ghost text = query.text@;
    let ghost es = index.entries@;
    let ghost cap: int = limit as int;
    let qlen = str_byte_len(query.text.as_str());
    let mut i: usize = 0;
    while i < index.entries.len()
        invariant
            i <= es.len(),
            es == index.entries@,
            bodies@.len() == es.len(),
            fs == filter_views(query.filters@),
            text == query.text@,
            fs == filters_of(words(raw_query@)),
            text == join(text_words(words(raw_query@)), seq![' ']),
            text.len() > 0,
            qlen == byte_len(text),
            cap == limit as int,
            body_models(hits@) == bodies_hits(es, bodies@, fs, text, i as int),
            hits@.len() < cap,
        decreases index.entries.len() - i,
    {
        let e = &index.entries[i];
        if query.matches_filters(e) {
            match &bodies[i] {
                Some(body) => {
                    let bv = chars_of(body.as_str());
                    let ls = lines_v(bv.as_slice());
                    let ghost lsv = views(ls@);
                    let ghost base = bodies_hits(es, bodies@, fs, text, i as int);
                    let mut j: usize = 0;
                    while j < ls.len()
                        invariant
                            i < es.len(),
                            es == index.entries@,
                            bodies@.len() == es.len(),
                            fs == filter_views(query.filters@),
                            fs == filters_of(words(raw_query@)),
                            text == join(text_words(words(raw_query@)), seq![' ']),
                            text.len() > 0,
                            *e == es[i as int],
                            passes(fs, es[i as int]),
                            bodies@[i as int] == Some(*body),
                            base == bodies_hits(es, bodies@, fs, text, i as int),
                            j <= ls@.len(),
                            lsv == views(ls@),
                            lsv == lines(body@),
                            qlen == byte_len(text),
                            text == query.text@,
                            body_models(hits@) == base + lines_hits(e.id@, lsv.take(j as int), text),
                            hits@.len() < cap,
                            cap == limit as int,
                        decreases ls.len() - j,
                    {
                        let line_s = string_of(ls[j].as_slice());
                        proof {
                            assert(lsv.take(j + 1).drop_last() =~= lsv.take(j as int));
                            assert(line_s@ == lsv[j as int]);
                        }
                        let ghost before = hits@;
                        match find_substring_smart_case(query.text.as_str(), line_s.as_str()) {
                            Some(start) => {
                                let i0 = trim_start_index(ls[j].as_slice());
                                let trimmed_v = slice_of(ls[j].as_slice(), i0, ls[j].len());
                                let trimmed = string_of(trimmed_v.as_slice());
                                let full = str_byte_len(line_s.as_str());
                                let rest = str_byte_len(trimmed.as_str());
                                proof {
                                    let lv = ls@[j as int]@;
                                    assert(lv =~= lv.subrange(0, i0 as int) + lv.subrange(i0 as int, lv.len() as int));
                                    lemma_byte_len_concat(lv.subrange(0, i0 as int), lv.subrange(i0 as int, lv.len() as int));
                                }
                                let lead = full - rest;
                                let st = start.saturating_sub(lead);
                                let (snippet, offset) = window(trimmed.as_str(), st, qlen);
                                hits.push(BodyHit { id: e.id.clone(), line: j + 1, snippet, start: offset });
                                proof {
                                    assert(body_models(hits@) =~= body_models(before).push(body_model(hits@.last())));
                                    assert(lsv.take(j + 1).last() == lsv[j as int]);
                                }
                                if hits.len() >= limit {
                                    proof {
                                        lemma_lines_hits_prefix(e.id@, lsv, text, j + 1);
                                        assert(lsv.take(lsv.len() as int) =~= lsv);
                                        lemma_bodies_hits_prefix(es, bodies@, fs, text, i + 1, es.len() as int);
                                        let all = bodies_hits(es, bodies@, fs, text, es.len() as int);
                                        let mid = bodies_hits(es, bodies@, fs, text, i + 1);
                                        assert(mid == base + lines_hits(e.id@, lsv, text));
                                        assert(all.take(hits@.len() as int) =~= body_models(hits@));
                                    }
                                    return hits;
                                }
                            },
                            None => {},
                        }
                        j += 1;
                    }
                    proof {
                        assert(lsv.take(lsv.len() as int) =~= lsv);
                    }
                },
                None => {},
            }
        }
        i += 1;
    }
    proof {
        assert(bodies_hits(es, bodies@, fs, text, es.len() as int).len() < cap);
    }
    hits
}

} // verus!
