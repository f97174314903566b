//! The bundle-wide graph page: every concept and cross-link as a Mermaid
//! flowchart, with stable node names in order of first appearance and
//! dashed edges for broken links.
use crate::chars::{chars_of, string_of};
use crate::concept_id::ConceptId;
use crate::dashboard::{esc, push_escaped};
use crate::markdown::eq_chars;
use crate::site::{mermaid_label, mermaid_text, PagePath, SitePage};
use crate::slugs::{decimal, decimal_v};
use crate::text::{join, push_all, push_str};
use vstd::prelude::*;

verus! {

/// What the graph reads of a concept: its id and its outgoing links, each
/// with whether its target exists.
#[derive(Clone, Debug)]
pub struct GraphConcept {
    /// The concept's id.
    pub id: ConceptId,
    /// `(target, exists)` of each outgoing link, in order.
    pub links: Vec<(ConceptId, bool)>,
}

/// The id texts a concept brings to the graph: its own, then its links'
/// targets.
pub open spec fn concept_nodes(c: GraphConcept) -> Seq<Seq<char>> {
    seq![join(c.id@, seq!['/'])] + c.links@.map_values(|l: (ConceptId, bool)| join(l.0@, seq!['/']))
}

/// Every id text in order of appearance, repeats included.
pub open spec fn node_stream(cs: Seq<GraphConcept>) -> Seq<Seq<char>>
    decreases cs.len(),
{
    if cs.len() == 0 {
        Seq::empty()
    } else {
        node_stream(cs.drop_last()) + concept_nodes(cs.last())
    }
}

/// The distinct texts of `s`, each where it first appears.
pub open spec fn interned(s: Seq<Seq<char>>) -> Seq<Seq<char>>
    decreases s.len(),
{
    if s.len() == 0 {
        Seq::empty()
    } else {
        let r = interned(s.drop_last());
        if r.contains(s.last()) {
            r
        } else {
            r.push(s.last())
        }
    }
}

/// Where `x` first stands in `s`, from `i` on.
pub open spec fn position(s: Seq<Seq<char>>, x: Seq<char>, i: int) -> int
    decreases s.len() - i,
{
    if i < 0 || i >= s.len() {
        s.len() as int
    } else if s[i] == x {
        i
    } else {
        position(s, x, i + 1)
    }
}

/// The node name of an id text: `n` and its place in the node order.
pub open spec fn node_name(order: Seq<Seq<char>>, x: Seq<char>) -> Seq<char> {
    seq!['n'] + decimal(position(order, x, 0) as nat)
}

/// The node declarations, one line each, in node order.
pub open spec fn decls(order: Seq<Seq<char>>, k: int) -> Seq<char>
    decreases k,
{
    if k <= 0 || k > order.len() {
        Seq::empty()
    } else {
        decls(order, k - 1) + "  n"@ + decimal((k - 1) as nat) + "[\""@ + mermaid_text(order[k - 1]) + "\"]\n"@
    }
}

/// One edge line from `from` to the link `l`.
pub open spec fn edge(order: Seq<Seq<char>>, from: Seq<char>, l: (ConceptId, bool)) -> Seq<char> {
    "  "@ + node_name(order, from) + (if l.1 { " --> "@ } else { " -.->|broken| "@ }) + node_name(order, join(l.0@, seq!['/']))
        + "\n"@
}

/// The edge lines of the links `ls` from `from`.
pub open spec fn edges_of(order: Seq<Seq<char>>, from: Seq<char>, ls: Seq<(ConceptId, bool)>) -> Seq<char>
    decreases ls.len(),
{
    if ls.len() == 0 {
        Seq::empty()
    } else {
        edges_of(order, from, ls.drop_last()) + edge(order, from, ls.last())
    }
}

/// The edge lines of all concepts, in bundle and link order.
pub open spec fn edges(order: Seq<Seq<char>>, cs: Seq<GraphConcept>) -> Seq<char>
    decreases cs.len(),
{
    if cs.len() == 0 {
        Seq::empty()
    } else {
        edges(order, cs.drop_last()) + edges_of(order, join(cs.last().id@, seq!['/']), cs.last().links@)
    }
}

/// The flowchart source.
pub open spec fn flowchart(cs: Seq<GraphConcept>) -> Seq<char> {
    let order = interned(node_stream(cs));
    "flowchart LR\n"@ + decls(order, order.len() as int) + edges(order, cs)
}

/// The intro line of the graph page.
pub open spec fn graph_intro() -> Seq<char> {
    "<p class=\"md-p\">Every concept and cross-link in the bundle. Dashed edges mark broken links (permitted by the spec: they may be not-yet-written knowledge).</p>"@
}

/// The graph page's body: the intro, then the flowchart in a Mermaid block.
pub open spec fn graph_html(cs: Seq<GraphConcept>) -> Seq<char> {
    graph_intro() + "<pre class=\"mermaid\">"@ + esc(flowchart(cs)) + "</pre>"@
}

/// Every node is named once: the node order holds no text twice.
pub proof fn lemma_nodes_distinct(s: Seq<Seq<char>>)
    ensures
        interned(s).no_duplicates(),
        forall|i: int| 0 <= i < s.len() ==> interned(s).contains(#[trigger] s[i]),
    decreases s.len(),
{
    if s.len() > 0 {
        lemma_nodes_distinct(s.drop_last());
        let r = interned(s.drop_last());
        assert forall|i: int| 0 <= i < s.len() implies interned(s).contains(#[trigger] s[i]) by {
            if i < s.len() - 1 {
                assert(s.drop_last()[i] == s[i]);
                assert(r.contains(s[i]));
                if !r.contains(s.last()) {
                    let j = choose|j: int| 0 <= j < r.len() && r[j] == s[i];
                    assert(r.push(s.last())[j] == s[i]);
                }
            } else {
                if !r.contains(s.last()) {
                    assert(r.push(s.last())[r.len() as int] == s.last());
                }
            }
        }
    }
}

// ---------------------------------------------------------------------------
// Building it.
// ---------------------------------------------------------------------------

fn position_v(order: &Vec<Vec<char>>, x: &[char]) -> (r: usize)
    ensures
        r == position(crate::text::views(order@), x@, 0),
{
    let ghost ov = crate::text::views(order@);
    let mut i: usize = 0;
    while i < order.len()
        invariant
            i <= order@.len(),
            ov == crate::text::views(order@),
            position(ov, x@, 0) == position(ov, x@, i as int),
        decreases order.len() - i,
    {
        assert(ov[i as int] == order@[i as int]@);
        if eq_chars(order[i].as_slice(), x) {
            return i;
        }
        i += 1;
    }
    i
}

fn intern_v(order: &mut Vec<Vec<char>>, x: Vec<char>)
    ensures
        crate::text::views(final(order)@) == (if crate::text::views(old(order)@).contains(x@) {
            crate::text::views(old(order)@)
        } else {
            crate::text::views(old(order)@).push(x@)
        }),
{
    let ghost ov = crate::text::views(order@);
    let p = position_v(order, &x);
    proof {
        lemma_position(ov, x@, 0);
        assert(ov.len() == order@.len());
    }
    if p == order.len() {
        proof {
            assert(!ov.contains(x@)) by {
                if ov.contains(x@) {
                    let j = choose|j: int| 0 <= j < ov.len() && ov[j] == x@;
                    assert(exists|j: int| 0 <= j < ov.len() && ov[j] == x@);
                }
            }
        }
        order.push(x);
        assert(crate::text::views(order@) =~= ov.push(x@));
    } else {
        proof {
            assert(ov[p as int] == x@);
            assert(ov.contains(x@));
        }
    }
}

proof fn lemma_position(s: Seq<Seq<char>>, x: Seq<char>, i: int)
    requires
        0 <= i <= s.len(),
    ensures
        (position(s, x, i) < s.len()) <==> (exists|j: int| i <= j < s.len() && s[j] == x),
        position(s, x, i) < s.len() ==> s[position(s, x, i)] == x && i <= position(s, x, i),
        position(s, x, i) <= s.len(),
    decreases s.len() - i,
{
    if i < s.len() && s[i] != x {
        lemma_position(s, x, i + 1);
        if exists|j: int| i <= j < s.len() && s[j] == x {
            let j = choose|j: int| i <= j < s.len() && s[j] == x;
            assert(j != i);
            assert(i + 1 <= j);
        }
    }
}

fn node_order(cs: &Vec<GraphConcept>) -> (r: Vec<Vec<char>>)
    ensures
        crate::text::views(r@) == interned(node_stream(cs@)),
{
    let mut order: Vec<Vec<char>> = Vec::new();
    let mut k: usize = 0;
    proof {
        assert(cs@.take(0) =~= Seq::<GraphConcept>::empty());
        assert(crate::text::views(order@) =~= interned(node_stream(cs@.take(0))));
    }
    while k < cs.len()
        invariant
            k <= cs@.len(),
            crate::text::views(order@) == interned(node_stream(cs@.take(k as int))),
        decreases cs.len() - k,
    {
        let ghost pre = node_stream(cs@.take(k as int));
        let c = &cs[k];
        let p = c.id.to_path();
        intern_v(&mut order, chars_of(p.as_str()));
        proof {
            assert((pre + seq![join(c.id@, seq!['/'])]).drop_last() =~= pre);
        }
        let ghost mut done = pre + seq![join(c.id@, seq!['/'])];
        let mut j: usize = 0;
        while j < c.links.len()
            invariant
                j <= c.links@.len(),
                done == pre + concept_nodes(*c).take(j + 1),
                crate::text::views(order@) == interned(done),
            decreases c.links.len() - j,
        {
            let t = c.links[j].0.to_path();
            intern_v(&mut order, chars_of(t.as_str()));
            proof {
                let next = pre + concept_nodes(*c).take(j + 2);
                assert(concept_nodes(*c)[j + 1] == join(c.links@[j as int].0@, seq!['/']));
                assert(next.drop_last() =~= done);
                assert(next.last() == t@);
                done = next;
            }
            j += 1;
        }
        proof {
            assert(concept_nodes(*c).take(j + 1) =~= concept_nodes(*c));
            assert(cs@.take(k + 1).drop_last() =~= cs@.take(k as int));
            assert(cs@.take(k + 1).last() == *c);
        }
        k += 1;
    }
    proof {
        assert(cs@.take(k as int) =~= cs@);
    }
    order
}

fn push_name(out: &mut Vec<char>, order: &Vec<Vec<char>>, x: &[char])
    ensures
        final(out)@ == old(out)@ + node_name(crate::text::views(order@), x@),
{
    let p = position_v(order, x);
    out.push('n');
    let d = decimal_v(p);
    push_all(out, d.as_slice());
    assert(out@ =~= old(out)@ + node_name(crate::text::views(order@), x@));
}

/// The flowchart source (see [`flowchart`]).
fn flowchart_v(cs: &Vec<GraphConcept>) -> (r: Vec<char>)
    ensures
        r@ == flowchart(cs@),
{
    let order = node_order(cs);
    let ghost ov = crate::text::views(order@);
    let mut out: Vec<char> = Vec::new();
    push_str(&mut out, "flowchart LR\n");
    let ghost head = out@;
    let mut k: usize = 0;
    while k < order.len()
        invariant
            k <= order@.len(),
            ov == crate::text::views(order@),
            out@ == head + decls(ov, k as int),
        decreases order.len() - k,
    {
        push_str(&mut out, "  n");
        let d = decimal_v(k);
        push_all(&mut out, d.as_slice());
        push_str(&mut out, "[\"");
        let s = string_of(order[k].as_slice());
        let m = mermaid_label(s.as_str());
        push_str(&mut out, m.as_str());
        push_str(&mut out, "\"]\n");
        proof {
            assert(ov[k as int] == order@[k as int]@);
            assert(out@ =~= head + decls(ov, k + 1));
        }
        k += 1;
    }
    let ghost mid = out@;
    let mut c: usize = 0;
    proof {
        assert(cs@.take(0) =~= Seq::<GraphConcept>::empty());
        assert(out@ =~= mid + edges(ov, cs@.take(0)));
    }
    while c < cs.len()
        invariant
            c <= cs@.len(),
            ov == crate::text::views(order@),
            out@ == mid + edges(ov, cs@.take(c as int)),
        decreases cs.len() - c,
    {
        let gc = &cs[c];
        let from = chars_of(gc.id.to_path().as_str());
        let ghost before = out@;
        let mut j: usize = 0;
        while j < gc.links.len()
            invariant
                j <= gc.links@.len(),
                ov == crate::text::views(order@),
                from@ == join(gc.id@, seq!['/']),
                out@ == before + edges_of(ov, from@, gc.links@.take(j as int)),
            decreases gc.links.len() - j,
        {
            let ghost b2 = out@;
            push_str(&mut out, "  ");
            push_name(&mut out, &order, &from);
            if gc.links[j].1 {
                push_str(&mut out, " --> ");
            } else {
                push_str(&mut out, " -.->|broken| ");
            }
            let t = chars_of(gc.links[j].0.to_path().as_str());
            push_name(&mut out, &order, &t);
            push_str(&mut out, "\n");
            proof {
                assert(out@ =~= b2 + edge(ov, from@, gc.links@[j as int]));
                assert(gc.links@.take(j + 1).drop_last() =~= gc.links@.take(j as int));
                assert(gc.links@.take(j + 1).last() == gc.links@[j as int]);
            }
            j += 1;
        }
        proof {
            assert(gc.links@.take(j as int) =~= gc.links@);
            assert(cs@.take(c + 1).drop_last() =~= cs@.take(c as int));
            assert(cs@.take(c + 1).last() == *gc);
            assert(out@ =~= mid + edges(ov, cs@.take(c + 1)));
        }
        c += 1;
    }
    proof {
        assert(cs@.take(c as int) =~= cs@);
        assert(out@ =~= flowchart(cs@));
    }
    out
}

/// The graph page: every concept and cross-link as a Mermaid flowchart
/// (see [`graph_html`]).
pub fn graph_page(concepts: &Vec<GraphConcept>) -> (r: SitePage)
    ensures
        r.rel_path is Graph,
        r.title@ == "Cross-link graph"@,
        r.body_html@ == graph_html(concepts@),
        r.has_mermaid,
        !r.has_shiki,
        r.meta_rows@.len() == 0,
{
    let src = flowchart_v(concepts);
    let mut out: Vec<char> = Vec::new();
    push_str(
        &mut out,
        "<p class=\"md-p\">Every concept and cross-link in the bundle. Dashed edges mark broken links (permitted by the spec: they may be not-yet-written knowledge).</p>",
    );
    push_str(&mut out, "<pre class=\"mermaid\">");
    let ss = string_of(src.as_slice());
    push_escaped(&mut out, ss.as_str());
    push_str(&mut out, "</pre>");
    assert(out@ =~= graph_html(concepts@));
    let title = chars_of("Cross-link graph");
    SitePage {
        rel_path: PagePath::Graph,
        title: string_of(title.as_slice()),
        body_html: string_of(out.as_slice()),
        has_mermaid: true,
        has_shiki: false,
        meta_rows: Vec::new(),
    }
}

} // verus!
