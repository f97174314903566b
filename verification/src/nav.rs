//! The site's navigation tree: the dashboard and graph links, then the
//! bundle's directories as nested lists, each directory's concepts first
//! (in bundle order) and its subdirectories after (in name order), with
//! the current page marked active.
use crate::chars::{chars_of, string_of};
use crate::concept_id::{string_views, ConceptId};
use crate::dashboard::{bump, bump_type, esc, lemma_bump_bounded, push_escaped, type_views};
use crate::markdown::eq_chars;
use crate::site::{segment_title, segment_title_text};
use crate::text::{join, push_all, push_str, views};
use vstd::prelude::*;

verus! {

/// What the navigation tree reads of a concept.
#[derive(Clone, Debug)]
pub struct NavConcept {
    /// The concept's id.
    pub id: ConceptId,
    /// Its display title.
    pub title: String,
}

/// A concept sits directly in directory `p`.
pub open spec fn leaf_of(c: NavConcept, p: Seq<Seq<char>>) -> bool {
    c.id@.len() > 0 && c.id@.drop_last() == p
}

/// A concept sits in a subdirectory of `p`.
pub open spec fn below(c: NavConcept, p: Seq<Seq<char>>) -> bool {
    c.id@.len() > p.len() + 1 && c.id@.take(p.len() as int) == p
}

/// The concepts directly in `p`, in bundle order.
pub open spec fn leaves(cs: Seq<NavConcept>, p: Seq<Seq<char>>) -> Seq<NavConcept>
    decreases cs.len(),
{
    if cs.len() == 0 {
        Seq::empty()
    } else if leaf_of(cs.last(), p) {
        leaves(cs.drop_last(), p).push(cs.last())
    } else {
        leaves(cs.drop_last(), p)
    }
}

/// The subdirectories of `p` (with how many concepts lie below each), in
/// name order.
pub open spec fn subdirs(cs: Seq<NavConcept>, p: Seq<Seq<char>>) -> Seq<(Seq<char>, nat)>
    decreases cs.len(),
{
    if cs.len() == 0 {
        Seq::empty()
    } else if below(cs.last(), p) {
        bump(subdirs(cs.drop_last(), p), cs.last().id@[p.len() as int], 0)
    } else {
        subdirs(cs.drop_last(), p)
    }
}

/// `class="active" ` for the current page, else nothing.
pub open spec fn active_attr(active: bool) -> Seq<char> {
    if active {
        "class=\"active\" "@
    } else {
        Seq::empty()
    }
}

/// The collapse caret.
pub open spec fn caret() -> Seq<char> {
    "<svg class=\"dir-caret\" viewBox=\"0 0 24 24\" fill=\"none\" stroke=\"currentColor\" stroke-width=\"2\" stroke-linecap=\"round\" stroke-linejoin=\"round\" width=\"14\" height=\"14\" aria-hidden=\"true\"><path d=\"M6 9l6 6 6-6\"/></svg>"@
}

/// A concept's entry: a link to its page.
pub open spec fn leaf_html(c: NavConcept, prefix: Seq<char>, current: Seq<char>) -> Seq<char> {
    let rel = join(c.id@, seq!['/']) + ".html"@;
    "<li><a "@ + active_attr(rel == current) + "href=\""@ + esc(prefix + rel) + "\">"@ + esc(c.title@) + "</a></li>"@
}

pub open spec fn leaves_html(ls: Seq<NavConcept>, prefix: Seq<char>, current: Seq<char>) -> Seq<char>
    decreases ls.len(),
{
    if ls.len() == 0 {
        Seq::empty()
    } else {
        leaves_html(ls.drop_last(), prefix, current) + leaf_html(ls.last(), prefix, current)
    }
}

/// The opening of a directory's entry: its index link, marked active on
/// that page, and its collapse toggle.
pub open spec fn dir_open(dir: Seq<Seq<char>>, prefix: Seq<char>, current: Seq<char>) -> Seq<char> {
    let path = join(dir, seq!['/']);
    let label = segment_title_text(dir.last());
    "<li data-dir=\""@ + esc(path) + "\"><div class=\"dir-row\"><a class=\""@ + (if path + "/index.html"@ == current {
        "dir active"@
    } else {
        "dir"@
    }) + "\" href=\""@ + esc(prefix + path + "/index.html"@) + "\">"@ + esc(label)
        + "</a><button class=\"dir-toggle\" type=\"button\" aria-expanded=\"true\" aria-label=\""@ + esc(
        "Toggle "@ + label,
    ) + "\">"@ + caret() + "</button></div>"@
}

/// A directory's entry around its nested list `inner`.
pub open spec fn dir_html(dir: Seq<Seq<char>>, prefix: Seq<char>, current: Seq<char>, inner: Seq<char>) -> Seq<char> {
    dir_open(dir, prefix, current) + inner + "</li>"@
}

/// The nested list of directory `p`, `f` levels deep at most.
pub open spec fn node_html(cs: Seq<NavConcept>, p: Seq<Seq<char>>, prefix: Seq<char>, current: Seq<char>, f: nat) -> Seq<char>
    decreases f, 1int, 0int,
{
    if f == 0 {
        "<ul></ul>"@
    } else {
        "<ul>"@ + leaves_html(leaves(cs, p), prefix, current) + dirs_html(cs, p, subdirs(cs, p), prefix, current, f, subdirs(
            cs,
            p,
        ).len() as int) + "</ul>"@
    }
}

/// The entries of the first `k` subdirectories of `p`.
pub open spec fn dirs_html(
    cs: Seq<NavConcept>,
    p: Seq<Seq<char>>,
    ds: Seq<(Seq<char>, nat)>,
    prefix: Seq<char>,
    current: Seq<char>,
    f: nat,
    k: int,
) -> Seq<char>
    decreases f, 0int, k,
{
    if f == 0 || k <= 0 || k > ds.len() {
        Seq::empty()
    } else {
        let child = p.push(ds[k - 1].0);
        dirs_html(cs, p, ds, prefix, current, f, k - 1) + dir_html(
            child,
            prefix,
            current,
            node_html(cs, child, prefix, current, (f - 1) as nat),
        )
    }
}

/// The longest id's length: how deep the tree can go.
pub open spec fn max_depth(cs: Seq<NavConcept>) -> nat
    decreases cs.len(),
{
    if cs.len() == 0 {
        0
    } else {
        let m = max_depth(cs.drop_last());
        if cs.last().id@.len() > m {
            cs.last().id@.len()
        } else {
            m
        }
    }
}

/// The navigation tree for the page at `current` (its root-relative path),
/// with links climbing `prefix`.
pub open spec fn nav_html(cs: Seq<NavConcept>, prefix: Seq<char>, current: Seq<char>) -> Seq<char> {
    "<div class=\"special\"><a "@ + active_attr(current == "index.html"@) + "href=\""@ + esc(prefix + "index.html"@)
        + "\">Dashboard</a><a "@ + active_attr(current == "__okf/graph.html"@) + "href=\""@ + esc(
        prefix + "__okf/graph.html"@,
    ) + "\">Graph</a></div>"@ + node_html(cs, Seq::empty(), prefix, current, max_depth(cs))
}

// ---------------------------------------------------------------------------
// Building it.
// ---------------------------------------------------------------------------

fn push_active(out: &mut Vec<char>, active: bool)
    ensures
        final(out)@ == old(out)@ + active_attr(active),
{
    if active {
        push_str(out, "class=\"active\" ");
    } else {
        assert(out@ =~= old(out)@ + active_attr(active));
    }
}

/// Whether `id` sits directly in `p`.
fn leaf_of_v(id: &ConceptId, p: &Vec<Vec<char>>) -> (r: bool)
    ensures
        r == (id@.len() > 0 && id@.drop_last() == views(p@)),
{
    let segs = id.segments();
    if segs.len() == 0 || segs.len() - 1 != p.len() {
        assert(id@.drop_last().len() != views(p@).len());
        return false;
    }
    let mut i: usize = 0;
    while i < p.len()
        invariant
            i <= p@.len(),
            segs@.len() == p@.len() + 1,
            string_views(segs@) == id@,
            forall|j: int| 0 <= j < i ==> id@[j] == p@[j]@,
        decreases p.len() - i,
    {
        let s = chars_of(segs[i].as_str());
        assert(id@[i as int] == segs@[i as int]@);
        if !eq_chars(&s, p[i].as_slice()) {
            assert(id@.drop_last()[i as int] != views(p@)[i as int]);
            return false;
        }
        i += 1;
    }
    assert(id@.drop_last() =~= views(p@));
    true
}

/// Whether `id` sits in a subdirectory of `p`.
fn below_v(id: &ConceptId, p: &Vec<Vec<char>>) -> (r: bool)
    ensures
        r == (id@.len() > p@.len() + 1 && id@.take(p@.len() as int) == views(p@)),
{
    let segs = id.segments();
    if segs.len() <= 1 || segs.len() - 1 <= p.len() {
        return false;
    }
    let mut i: usize = 0;
    while i < p.len()
        invariant
            i <= p@.len(),
            segs@.len() > p@.len() + 1,
            string_views(segs@) == id@,
            forall|j: int| 0 <= j < i ==> id@[j] == p@[j]@,
        decreases p.len() - i,
    {
        let s = chars_of(segs[i].as_str());
        assert(id@[i as int] == segs@[i as int]@);
        if !eq_chars(&s, p[i].as_slice()) {
            assert(id@.take(p@.len() as int)[i as int] != views(p@)[i as int]);
            return false;
        }
        i += 1;
    }
    assert(id@.take(p@.len() as int) =~= views(p@));
    true
}

fn push_leaf(out: &mut Vec<char>, c: &NavConcept, prefix: &str, current: &str)
    ensures
        final(out)@ == old(out)@ + leaf_html(*c, prefix@, current@),
{
    let mut rel: Vec<char> = Vec::new();
    let p = c.id.to_path();
    push_str(&mut rel, p.as_str());
    push_str(&mut rel, ".html");
    let cur = chars_of(current);
    let active = eq_chars(&rel, &cur);
    push_str(out, "<li><a ");
    push_active(out, active);
    push_str(out, "href=\"");
    let mut href: Vec<char> = Vec::new();
    push_str(&mut href, prefix);
    push_all(&mut href, rel.as_slice());
    let hs = string_of(href.as_slice());
    push_escaped(out, hs.as_str());
    push_str(out, "\">");
    push_escaped(out, c.title.as_str());
    push_str(out, "</a></li>");
    assert(href@ =~= prefix@ + rel@);
    assert(out@ =~= old(out)@ + leaf_html(*c, prefix@, current@));
}

fn push_dir_open(out: &mut Vec<char>, dir: &Vec<Vec<char>>, prefix: &str, current: &str)
    requires
        dir@.len() > 0,
    ensures
        final(out)@ == old(out)@ + dir_open(views(dir@), prefix@, current@),
{
    let sep = vec!['/'];
    let path = crate::text::join_v(dir, sep.as_slice());
    assert(sep@ =~= seq!['/']);
    let last = string_of(dir[dir.len() - 1].as_slice());
    assert(views(dir@).last() == dir@[dir@.len() - 1]@);
    let label = segment_title(last.as_str());
    let mut idx: Vec<char> = Vec::new();
    push_all(&mut idx, path.as_slice());
    push_str(&mut idx, "/index.html");
    let cur = chars_of(current);
    let active = eq_chars(&idx, &cur);
    push_str(out, "<li data-dir=\"");
    let ps = string_of(path.as_slice());
    push_escaped(out, ps.as_str());
    push_str(out, "\"><div class=\"dir-row\"><a class=\"");
    if active {
        push_str(out, "dir active");
    } else {
        push_str(out, "dir");
    }
    push_str(out, "\" href=\"");
    let mut href: Vec<char> = Vec::new();
    push_str(&mut href, prefix);
    push_all(&mut href, idx.as_slice());
    let hs = string_of(href.as_slice());
    push_escaped(out, hs.as_str());
    push_str(out, "\">");
    push_escaped(out, label.as_str());
    push_str(out, "</a><button class=\"dir-toggle\" type=\"button\" aria-expanded=\"true\" aria-label=\"");
    let mut tl: Vec<char> = Vec::new();
    push_str(&mut tl, "Toggle ");
    push_str(&mut tl, label.as_str());
    let ts = string_of(tl.as_slice());
    push_escaped(out, ts.as_str());
    push_str(out, "\">");
    push_str(
        out,
        "<svg class=\"dir-caret\" viewBox=\"0 0 24 24\" fill=\"none\" stroke=\"currentColor\" stroke-width=\"2\" stroke-linecap=\"round\" stroke-linejoin=\"round\" width=\"14\" height=\"14\" aria-hidden=\"true\"><path d=\"M6 9l6 6 6-6\"/></svg>",
    );
    push_str(out, "</button></div>");
    proof {
        assert(idx@ =~= join(views(dir@), seq!['/']) + "/index.html"@);
        assert(href@ =~= prefix@ + join(views(dir@), seq!['/']) + "/index.html"@);
        assert(out@ =~= old(out)@ + dir_open(views(dir@), prefix@, current@));
    }
}


fn copy_segments(p: &Vec<Vec<char>>) -> (r: Vec<Vec<char>>)
    ensures
        views(r@) == views(p@),
{
    let mut r: Vec<Vec<char>> = Vec::new();
    let mut i: usize = 0;
    while i < p.len()
        invariant
            i <= p@.len(),
            views(r@) == views(p@).take(i as int),
        decreases p.len() - i,
    {
        let ghost before = views(r@);
        r.push(crate::text::slice_of(p[i].as_slice(), 0, p[i].len()));
        proof {
            assert(p@[i as int]@.subrange(0, p@[i as int]@.len() as int) =~= p@[i as int]@);
            assert(views(r@) =~= before.push(views(p@)[i as int]));
            assert(views(p@).take(i + 1) =~= views(p@).take(i as int).push(views(p@)[i as int]));
        }
        i += 1;
    }
    assert(views(p@).take(i as int) =~= views(p@));
    r
}

fn push_leaves(out: &mut Vec<char>, cs: &Vec<NavConcept>, p: &Vec<Vec<char>>, prefix: &str, current: &str)
    ensures
        final(out)@ == old(out)@ + leaves_html(leaves(cs@, views(p@)), prefix@, current@),
{
    let ghost pv = views(p@);
    let mut k: usize = 0;
    proof {
        assert(cs@.take(0) =~= Seq::<NavConcept>::empty());
    }
    while k < cs.len()
        invariant
            k <= cs@.len(),
            pv == views(p@),
            out@ == old(out)@ + leaves_html(leaves(cs@.take(k as int), pv), prefix@, current@),
        decreases cs.len() - k,
    {
        proof {
            assert(cs@.take(k + 1).drop_last() =~= cs@.take(k as int));
            assert(cs@.take(k + 1).last() == cs@[k as int]);
        }
        let ghost pre = leaves(cs@.take(k as int), pv);
        if leaf_of_v(&cs[k].id, p) {
            push_leaf(out, &cs[k], prefix, current);
            proof {
                assert(leaf_of(cs@[k as int], pv));
                assert(leaves(cs@.take(k + 1), pv) == pre.push(cs@[k as int]));
                assert(pre.push(cs@[k as int]).drop_last() =~= pre);
                assert(out@ =~= old(out)@ + leaves_html(leaves(cs@.take(k + 1), pv), prefix@, current@));
            }
        } else {
            proof {
                assert(!leaf_of(cs@[k as int], pv));
                assert(leaves(cs@.take(k + 1), pv) == pre);
            }
        }
        k += 1;
    }
    proof {
        assert(cs@.take(k as int) =~= cs@);
    }
}

fn subdirs_v(cs: &Vec<NavConcept>, p: &Vec<Vec<char>>) -> (r: Vec<(String, usize)>)
    ensures
        type_views(r@) == subdirs(cs@, views(p@)),
{
    let ghost pv = views(p@);
    let mut rows: Vec<(String, usize)> = Vec::new();
    let mut k: usize = 0;
    let n = cs.len();
    proof {
        assert(cs@.take(0) =~= Seq::<NavConcept>::empty());
    }
    while k < cs.len()
        invariant
            k <= cs@.len(),
            n == cs@.len(),
            pv == views(p@),
            type_views(rows@) == subdirs(cs@.take(k as int), pv),
            forall|j: int| 0 <= j < rows@.len() ==> rows@[j].1 <= k,
        decreases cs.len() - k,
    {
        proof {
            assert(cs@.take(k + 1).drop_last() =~= cs@.take(k as int));
            assert(cs@.take(k + 1).last() == cs@[k as int]);
        }
        if below_v(&cs[k].id, p) {
            let segs = cs[k].id.segments();
            proof {
                assert(cs@[k as int].id@[p@.len() as int] == segs@[p@.len() as int]@);
                lemma_bump_bounded(type_views(rows@), cs@[k as int].id@[p@.len() as int], 0, k as nat);
            }
            bump_type(&mut rows, segs[p.len()].as_str());
            proof {
                assert forall|j: int| 0 <= j < rows@.len() implies rows@[j].1 <= k + 1 by {
                    assert(type_views(rows@)[j].1 == rows@[j].1);
                }
            }
        }
        k += 1;
    }
    proof {
        assert(cs@.take(k as int) =~= cs@);
    }
    rows
}

fn push_dir_entry(
    out: &mut Vec<char>,
    cs: &Vec<NavConcept>,
    p: &Vec<Vec<char>>,
    seg: &Vec<char>,
    prefix: &str,
    current: &str,
    f: usize,
)
    requires
        f > 0,
    ensures
        final(out)@ == old(out)@ + dir_html(
            views(p@).push(seg@),
            prefix@,
            current@,
            node_html(cs@, views(p@).push(seg@), prefix@, current@, (f - 1) as nat),
        ),
    decreases f, 0int,
{
    let mut child = copy_segments(p);
    let s2 = crate::text::slice_of(seg.as_slice(), 0, seg.len());
    child.push(s2);
    proof {
        assert(seg@.subrange(0, seg@.len() as int) =~= seg@);
        assert(views(child@) =~= views(p@).push(seg@));
    }
    push_dir_open(out, &child, prefix, current);
    push_node(out, cs, &child, prefix, current, f - 1);
    push_str(out, "</li>");
    assert(out@ =~= old(out)@ + dir_html(
        views(p@).push(seg@),
        prefix@,
        current@,
        node_html(cs@, views(p@).push(seg@), prefix@, current@, (f - 1) as nat),
    ));
}

fn push_node(out: &mut Vec<char>, cs: &Vec<NavConcept>, p: &Vec<Vec<char>>, prefix: &str, current: &str, f: usize)
    ensures
        final(out)@ == old(out)@ + node_html(cs@, views(p@), prefix@, current@, f as nat),
    decreases f, 1int,
{
    if f == 0 {
        push_str(out, "<ul></ul>");
        return;
    }
    push_str(out, "<ul>");
    push_leaves(out, cs, p, prefix, current);
    let ghost mid = out@;
    let ds = subdirs_v(cs, p);
    let ghost dv = type_views(ds@);
    let mut i: usize = 0;
    while i < ds.len()
        invariant
            0 < f,
            i <= ds@.len(),
            dv == type_views(ds@),
            dv == subdirs(cs@, views(p@)),
            out@ == mid + dirs_html(cs@, views(p@), dv, prefix@, current@, f as nat, i as int),
        decreases ds.len() - i,
    {
        let seg = chars_of(ds[i].0.as_str());
        proof {
            assert(dv[i as int].0 == ds@[i as int].0@);
        }
        push_dir_entry(out, cs, p, &seg, prefix, current, f);
        proof {
            let child = views(p@).push(dv[i as int].0);
            assert(dirs_html(cs@, views(p@), dv, prefix@, current@, f as nat, i + 1) == dirs_html(
                cs@,
                views(p@),
                dv,
                prefix@,
                current@,
                f as nat,
                i as int,
            ) + dir_html(child, prefix@, current@, node_html(cs@, child, prefix@, current@, (f - 1) as nat)));
            assert(out@ =~= mid + dirs_html(cs@, views(p@), dv, prefix@, current@, f as nat, i + 1));
        }
        i += 1;
    }
    push_str(out, "</ul>");
    assert(out@ =~= old(out)@ + node_html(cs@, views(p@), prefix@, current@, f as nat));
}

/// The navigation tree (see [`nav_html`]) for the page at `current`, its
/// root-relative path, with links climbing `prefix`.
pub fn nav_tree(concepts: &Vec<NavConcept>, prefix: &str, current: &str) -> (r: String)
    ensures
        r@ == nav_html(concepts@, prefix@, current@),
{
    let mut depth: usize = 0;
    let mut k: usize = 0;
    proof {
        assert(concepts@.take(0) =~= Seq::<NavConcept>::empty());
    }
    while k < concepts.len()
        invariant
            k <= concepts@.len(),
            depth == max_depth(concepts@.take(k as int)),
        decreases concepts.len() - k,
    {
        proof {
            assert(concepts@.take(k + 1).drop_last() =~= concepts@.take(k as int));
            assert(concepts@.take(k + 1).last() == concepts@[k as int]);
        }
        let n = concepts[k].id.segments().len();
        if n > depth {
            depth = n;
        }
        k += 1;
    }
    proof {
        assert(concepts@.take(k as int) =~= concepts@);
    }
    let cur = chars_of(current);
    let mut out: Vec<char> = Vec::new();
    push_str(&mut out, "<div class=\"special\"><a ");
    let dash = chars_of("index.html");
    push_active(&mut out, eq_chars(&cur, &dash));
    push_str(&mut out, "href=\"");
    let mut h: Vec<char> = Vec::new();
    push_str(&mut h, prefix);
    push_str(&mut h, "index.html");
    let hs = string_of(h.as_slice());
    push_escaped(&mut out, hs.as_str());
    push_str(&mut out, "\">Dashboard</a><a ");
    let graph = chars_of("__okf/graph.html");
    push_active(&mut out, eq_chars(&cur, &graph));
    push_str(&mut out, "href=\"");
    let mut g: Vec<char> = Vec::new();
    push_str(&mut g, prefix);
    push_str(&mut g, "__okf/graph.html");
    let gs = string_of(g.as_slice());
    push_escaped(&mut out, gs.as_str());
    push_str(&mut out, "\">Graph</a></div>");
    let root: Vec<Vec<char>> = Vec::new();
    assert(views(root@) =~= Seq::<Seq<char>>::empty());
    push_node(&mut out, concepts, &root, prefix, current, depth);
    assert(out@ =~= nav_html(concepts@, prefix@, current@));
    string_of(out.as_slice())
}

} // verus!
