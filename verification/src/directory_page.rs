//! A directory's index page: every concept under the directory, grouped by
//! type (groups in type order), each group ordered by title regardless of
//! case, the way `index.md` files list them.
use crate::chars::{chars_of, lowercase_text, str_to_lower, string_of};
use crate::concept_id::ConceptId;
use crate::dashboard::{bump, bump_type, esc, push_escaped, type_views};
use crate::search::{lex_less, seq_lt};
use crate::site::{climb, page_depth, prefix_for, segment_title, segment_title_text, PagePath, SitePage};
use crate::text::{join, push_all, push_str, starts_with};
use vstd::prelude::*;

verus! {

/// What a directory page reads of a concept.
#[derive(Clone, Debug)]
pub struct DirConcept {
    /// The concept's id.
    pub id: ConceptId,
    /// Its display title.
    pub title: String,
    /// Its `type`, when it has one.
    pub kind_name: Option<String>,
    /// Its description (empty when it has none).
    pub description: String,
}

/// A concept sits under the directory `dir`: its path starts with the
/// directory's path and a `/`.
pub open spec fn under(dir: Seq<Seq<char>>, c: DirConcept) -> bool {
    starts_with(join(c.id@, seq!['/']), join(dir, seq!['/']) + seq!['/'])
}

/// The group a concept is listed in: its type, or `Other`.
pub open spec fn group_of(c: DirConcept) -> Seq<char> {
    match c.kind_name {
        Some(t) => t@,
        None => "Other"@,
    }
}

/// The concepts under `dir`, in bundle order.
pub open spec fn members(dir: Seq<Seq<char>>, cs: Seq<DirConcept>) -> Seq<DirConcept>
    decreases cs.len(),
{
    if cs.len() == 0 {
        Seq::empty()
    } else if under(dir, cs.last()) {
        members(dir, cs.drop_last()).push(cs.last())
    } else {
        members(dir, cs.drop_last())
    }
}

/// The groups with their sizes, in type order.
pub open spec fn groups(ms: Seq<DirConcept>) -> Seq<(Seq<char>, nat)>
    decreases ms.len(),
{
    if ms.len() == 0 {
        Seq::empty()
    } else {
        bump(groups(ms.drop_last()), group_of(ms.last()), 0)
    }
}

/// The members of group `g`, in bundle order.
pub open spec fn in_group(ms: Seq<DirConcept>, g: Seq<char>) -> Seq<DirConcept>
    decreases ms.len(),
{
    if ms.len() == 0 {
        Seq::empty()
    } else if group_of(ms.last()) == g {
        in_group(ms.drop_last(), g).push(ms.last())
    } else {
        in_group(ms.drop_last(), g)
    }
}

/// The lower-cased title a concept is ordered by.
pub open spec fn sort_key(c: DirConcept) -> Seq<char> {
    str_to_lower(c.title@)
}

/// Where `x` goes into the ordered `r`, from `i` on: before the first entry
/// whose key is larger, so entries with equal keys keep their order.
pub open spec fn slot(r: Seq<DirConcept>, x: DirConcept, i: int) -> int
    decreases r.len() - i,
{
    if i < 0 || i >= r.len() {
        r.len() as int
    } else if seq_lt(sort_key(x), sort_key(r[i])) {
        i
    } else {
        slot(r, x, i + 1)
    }
}

/// `s` ordered by lower-cased title, stably.
pub open spec fn by_title(s: Seq<DirConcept>) -> Seq<DirConcept>
    decreases s.len(),
{
    if s.len() == 0 {
        s
    } else {
        let r = by_title(s.drop_last());
        r.insert(slot(r, s.last(), 0), s.last())
    }
}

/// The concepts at the indices `ix`.
pub open spec fn pick(cs: Seq<DirConcept>, ix: Seq<usize>) -> Seq<DirConcept> {
    ix.map_values(|i: usize| cs[i as int])
}

/// One listed concept: its title, a link to its page, and its description
/// after a dash when it has one.
pub open spec fn item_html(prefix: Seq<char>, c: DirConcept) -> Seq<char> {
    "<li class=\"md-li\">"@ + esc(c.title@) + " "@ + "<a href=\""@ + esc(prefix + join(c.id@, seq!['/']) + ".html"@)
        + "\">"@ + esc(c.title@) + "</a>"@ + (if c.description@.len() > 0 {
        " — "@ + esc(c.description@)
    } else {
        Seq::empty()
    }) + "</li>"@
}

pub open spec fn items_html(prefix: Seq<char>, s: Seq<DirConcept>) -> Seq<char>
    decreases s.len(),
{
    if s.len() == 0 {
        Seq::empty()
    } else {
        items_html(prefix, s.drop_last()) + item_html(prefix, s.last())
    }
}

/// One group: a rule before every group but the first, the type as a
/// heading, then its concepts.
pub open spec fn group_html(prefix: Seq<char>, ms: Seq<DirConcept>, g: Seq<char>, first: bool) -> Seq<char> {
    (if first { Seq::empty() } else { "<hr class=\"md-hr\"></hr>"@ }) + "<h2 class=\"md-h2\">"@ + esc(g)
        + "</h2><ul class=\"md-list\">"@ + items_html(prefix, by_title(in_group(ms, g))) + "</ul>"@
}

/// The first `k` groups.
pub open spec fn groups_html(prefix: Seq<char>, ms: Seq<DirConcept>, gs: Seq<(Seq<char>, nat)>, k: int) -> Seq<char>
    decreases k,
{
    if k <= 0 || k > gs.len() {
        Seq::empty()
    } else {
        groups_html(prefix, ms, gs, k - 1) + group_html(prefix, ms, gs[k - 1].0, k == 1)
    }
}

/// The directory page's body for `dir`, with links climbing `prefix`.
pub open spec fn directory_html(dir: Seq<Seq<char>>, cs: Seq<DirConcept>, prefix: Seq<char>) -> Seq<char> {
    let ms = members(dir, cs);
    groups_html(prefix, ms, groups(ms), groups(ms).len() as int)
}

/// Ordering by title keeps every concept: it only reorders them.
pub proof fn lemma_by_title_permutes(s: Seq<DirConcept>)
    ensures
        by_title(s).to_multiset() == s.to_multiset(),
        by_title(s).len() == s.len(),
    decreases s.len(),
{
    broadcast use vstd::seq_lib::to_multiset_build, vstd::seq_lib::to_multiset_insert;

    if s.len() > 0 {
        let r = by_title(s.drop_last());
        lemma_by_title_permutes(s.drop_last());
        lemma_slot_bounds(r, s.last(), 0);
        assert(s.drop_last().push(s.last()) =~= s);
    }
}

proof fn lemma_slot_bounds(r: Seq<DirConcept>, x: DirConcept, i: int)
    requires
        0 <= i <= r.len(),
    ensures
        i <= slot(r, x, i) <= r.len(),
    decreases r.len() - i,
{
    if i < r.len() && !seq_lt(sort_key(x), sort_key(r[i])) {
        lemma_slot_bounds(r, x, i + 1);
    }
}

// ---------------------------------------------------------------------------
// Building it.
// ---------------------------------------------------------------------------

fn under_v(dir_path: &[char], c: &DirConcept) -> (r: bool)
    ensures
        r == starts_with(join(c.id@, seq!['/']), dir_path@ + seq!['/']),
{
    let p = c.id.to_path();
    let pv = chars_of(p.as_str());
    let mut want: Vec<char> = Vec::new();
    push_all(&mut want, dir_path);
    want.push('/');
    assert(want@ =~= dir_path@ + seq!['/']);
    crate::text::starts_with_v(pv.as_slice(), want.as_slice())
}

fn group_text(c: &DirConcept) -> (r: String)
    ensures
        r@ == group_of(*c),
{
    match &c.kind_name {
        Some(t) => string_of(chars_of(t.as_str()).as_slice()),
        None => {
            let v = chars_of("Other");
            string_of(v.as_slice())
        },
    }
}

/// The members (indices into `cs`) of group `g`, ordered by title (see
/// [`by_title`]).
fn ordered_group(cs: &Vec<DirConcept>, ms: &Vec<usize>, g: &[char]) -> (r: Vec<usize>)
    requires
        forall|j: int| 0 <= j < ms@.len() ==> #[trigger] ms@[j] < cs@.len(),
    ensures
        pick(cs@, r@) == by_title(in_group(pick(cs@, ms@), g@)),
        forall|j: int| 0 <= j < r@.len() ==> #[trigger] r@[j] < cs@.len(),
{
    let ghost all = pick(cs@, ms@);
    let mut out: Vec<usize> = Vec::new();
    let mut keys: Vec<Vec<char>> = Vec::new();
    let mut k: usize = 0;
    proof {
        assert(all.take(0) =~= Seq::<DirConcept>::empty());
        assert(pick(cs@, out@) =~= Seq::<DirConcept>::empty());
    }
    while k < ms.len()
        invariant
            k <= ms@.len(),
            all == pick(cs@, ms@),
            forall|j: int| 0 <= j < ms@.len() ==> #[trigger] ms@[j] < cs@.len(),
            forall|j: int| 0 <= j < out@.len() ==> #[trigger] out@[j] < cs@.len(),
            pick(cs@, out@) == by_title(in_group(all.take(k as int), g@)),
            keys@.len() == out@.len(),
            forall|j: int| 0 <= j < keys@.len() ==> #[trigger] keys@[j]@ == sort_key(cs@[out@[j] as int]),
        decreases ms.len() - k,
    {
        proof {
            assert(all.take(k + 1).drop_last() =~= all.take(k as int));
            assert(all.take(k + 1).last() == cs@[ms@[k as int] as int]);
        }
        let ix = ms[k];
        let gt = group_text(&cs[ix]);
        let gv = chars_of(gt.as_str());
        if crate::markdown::eq_chars(&gv, g) {
            let ghost x = cs@[ix as int];
            let lower = lowercase_text(cs[ix].title.as_str());
            let xk = chars_of(lower.as_str());
            let ghost r = pick(cs@, out@);
            let mut p: usize = 0;
            while p < out.len() && !lex_less(xk.as_slice(), keys[p].as_slice())
                invariant
                    p <= out@.len(),
                    r == pick(cs@, out@),
                    keys@.len() == out@.len(),
                    forall|j: int| 0 <= j < out@.len() ==> #[trigger] out@[j] < cs@.len(),
                    forall|j: int| 0 <= j < keys@.len() ==> #[trigger] keys@[j]@ == sort_key(cs@[out@[j] as int]),
                    xk@ == sort_key(x),
                    slot(r, x, 0) == slot(r, x, p as int),
                decreases out.len() - p,
            {
                assert(keys@[p as int]@ == sort_key(cs@[out@[p as int] as int]));
                assert(r[p as int] == cs@[out@[p as int] as int]);
                p += 1;
            }
            proof {
                if p < out.len() {
                    assert(keys@[p as int]@ == sort_key(cs@[out@[p as int] as int]));
                    assert(r[p as int] == cs@[out@[p as int] as int]);
                }
            }
            let ghost oldkeys = keys@;
            let ghost oldout = out@;
            out.insert(p, ix);
            keys.insert(p, xk);
            proof {
                assert forall|j: int| 0 <= j < out@.len() implies #[trigger] out@[j] < cs@.len() by {
                    if j < p {
                        assert(out@[j] == oldout[j]);
                    } else if j > p {
                        assert(out@[j] == oldout[j - 1]);
                    }
                }
                assert forall|j: int| 0 <= j < keys@.len() implies #[trigger] keys@[j]@ == sort_key(cs@[out@[j] as int]) by {
                    if j < p {
                        assert(keys@[j] == oldkeys[j]);
                        assert(out@[j] == oldout[j]);
                    } else if j > p {
                        assert(keys@[j] == oldkeys[j - 1]);
                        assert(out@[j] == oldout[j - 1]);
                    }
                }
                assert(pick(cs@, out@) =~= r.insert(p as int, x));
                let pre = in_group(all.take(k as int), g@);
                assert(in_group(all.take(k + 1), g@) == pre.push(x));
                assert(pre.push(x).drop_last() =~= pre);
            }
        } else {
            proof {
                assert(in_group(all.take(k + 1), g@) == in_group(all.take(k as int), g@));
            }
        }
        k += 1;
    }
    proof {
        assert(all.take(k as int) =~= all);
    }
    out
}

fn push_item(out: &mut Vec<char>, prefix: &str, c: &DirConcept)
    ensures
        final(out)@ == old(out)@ + item_html(prefix@, *c),
{
    push_str(out, "<li class=\"md-li\">");
    push_escaped(out, c.title.as_str());
    push_str(out, " ");
    push_str(out, "<a href=\"");
    let mut href: Vec<char> = Vec::new();
    push_str(&mut href, prefix);
    let p = c.id.to_path();
    push_str(&mut href, p.as_str());
    push_str(&mut href, ".html");
    let hs = string_of(href.as_slice());
    push_escaped(out, hs.as_str());
    push_str(out, "\">");
    push_escaped(out, c.title.as_str());
    push_str(out, "</a>");
    let ghost mid = out@;
    let dvv = chars_of(c.description.as_str());
    if dvv.len() > 0 {
        push_str(out, " — ");
        push_escaped(out, c.description.as_str());
    }
    push_str(out, "</li>");
    proof {
        assert(out@ =~= old(out)@ + item_html(prefix@, *c));
    }
}

fn push_group(out: &mut Vec<char>, prefix: &str, cs: &Vec<DirConcept>, ms: &Vec<usize>, g: &str, first: bool)
    requires
        forall|j: int| 0 <= j < ms@.len() ==> #[trigger] ms@[j] < cs@.len(),
    ensures
        final(out)@ == old(out)@ + group_html(prefix@, pick(cs@, ms@), g@, first),
{
    if !first {
        push_str(out, "<hr class=\"md-hr\"></hr>");
    }
    push_str(out, "<h2 class=\"md-h2\">");
    push_escaped(out, g);
    push_str(out, "</h2><ul class=\"md-list\">");
    let gv = chars_of(g);
    let entries = ordered_group(cs, ms, &gv);
    let ghost ev = pick(cs@, entries@);
    let ghost start = out@;
    let mut i: usize = 0;
    while i < entries.len()
        invariant
            i <= entries@.len(),
            ev == pick(cs@, entries@),
            forall|j: int| 0 <= j < entries@.len() ==> #[trigger] entries@[j] < cs@.len(),
            out@ == start + items_html(prefix@, ev.take(i as int)),
        decreases entries.len() - i,
    {
        proof {
            assert(ev.take(i + 1).drop_last() =~= ev.take(i as int));
            assert(ev.take(i + 1).last() == cs@[entries@[i as int] as int]);
        }
        push_item(out, prefix, &cs[entries[i]]);
        i += 1;
    }
    proof {
        assert(ev.take(i as int) =~= ev);
    }
    push_str(out, "</ul>");
    assert(out@ =~= old(out)@ + group_html(prefix@, pick(cs@, ms@), g@, first));
}

/// The index page of directory `dir` (see [`directory_html`]), titled by
/// the directory's name.
pub fn directory_page(concepts: &Vec<DirConcept>, dir: &ConceptId) -> (r: SitePage)
    requires
        concepts@.len() < usize::MAX,
    ensures
        r.rel_path matches PagePath::Directory(d) && d@ == dir@,
        r.title@ == segment_title_text(dir@.last()),
        r.body_html@ == directory_html(dir@, concepts@, climb(page_depth(PagePath::Directory(*dir)) as nat)),
        !r.has_mermaid,
        !r.has_shiki,
        r.meta_rows@.len() == 0,
{
    let path = PagePath::Directory(dir.clone());
    let prefix = prefix_for(&path);
    let dp = dir.to_path();
    let dv = chars_of(dp.as_str());
    // The concepts under the directory.
    let mut ms: Vec<usize> = Vec::new();
    let mut k: usize = 0;
    proof {
        assert(concepts@.take(0) =~= Seq::<DirConcept>::empty());
        assert(pick(concepts@, ms@) =~= Seq::<DirConcept>::empty());
    }
    while k < concepts.len()
        invariant
            k <= concepts@.len(),
            dv@ == join(dir@, seq!['/']),
            pick(concepts@, ms@) == members(dir@, concepts@.take(k as int)),
            forall|j: int| 0 <= j < ms@.len() ==> #[trigger] ms@[j] < k,
            ms@.len() <= k,
        decreases concepts.len() - k,
    {
        proof {
            assert(concepts@.take(k + 1).drop_last() =~= concepts@.take(k as int));
            assert(concepts@.take(k + 1).last() == concepts@[k as int]);
        }
        if under_v(&dv, &concepts[k]) {
            let ghost before = pick(concepts@, ms@);
            ms.push(k);
            assert(pick(concepts@, ms@) =~= before.push(concepts@[k as int]));
        }
        k += 1;
    }
    proof {
        assert(concepts@.take(k as int) =~= concepts@);
    }
    let ghost mv = pick(concepts@, ms@);
    // The groups in type order.
    let mut gs: Vec<(String, usize)> = Vec::new();
    let mut m: usize = 0;
    proof {
        assert(mv.take(0) =~= Seq::<DirConcept>::empty());
    }
    while m < ms.len()
        invariant
            m <= ms@.len(),
            ms@.len() < usize::MAX,
            mv == pick(concepts@, ms@),
            forall|j: int| 0 <= j < ms@.len() ==> #[trigger] ms@[j] < concepts@.len(),
            type_views(gs@) == groups(mv.take(m as int)),
            forall|j: int| 0 <= j < gs@.len() ==> gs@[j].1 <= m,
        decreases ms.len() - m,
    {
        proof {
            assert(mv.take(m + 1).drop_last() =~= mv.take(m as int));
            assert(mv.take(m + 1).last() == concepts@[ms@[m as int] as int]);
            crate::dashboard::lemma_bump_bounded(type_views(gs@), group_of(concepts@[ms@[m as int] as int]), 0, m as nat);
        }
        let g = group_text(&concepts[ms[m]]);
        bump_type(&mut gs, g.as_str());
        proof {
            assert forall|j: int| 0 <= j < gs@.len() implies gs@[j].1 <= m + 1 by {
                assert(type_views(gs@)[j].1 == gs@[j].1);
            }
        }
        m += 1;
    }
    proof {
        assert(mv.take(m as int) =~= mv);
    }
    let ghost gv = type_views(gs@);
    let mut out: Vec<char> = Vec::new();
    let mut i: usize = 0;
    while i < gs.len()
        invariant
            i <= gs@.len(),
            gv == type_views(gs@),
            gv == groups(mv),
            mv == pick(concepts@, ms@),
            mv == members(dir@, concepts@),
            forall|j: int| 0 <= j < ms@.len() ==> #[trigger] ms@[j] < concepts@.len(),
            out@ == groups_html(prefix@, mv, gv, i as int),
        decreases gs.len() - i,
    {
        assert(gv[i as int].0 == gs@[i as int].0@);
        push_group(&mut out, prefix.as_str(), concepts, &ms, gs[i].0.as_str(), i == 0);
        i += 1;
    }
    let title = segment_title(dir.name().as_str());
    SitePage {
        rel_path: path,
        title,
        body_html: string_of(out.as_slice()),
        has_mermaid: false,
        has_shiki: false,
        meta_rows: Vec::new(),
    }
}

} // verus!
