use okf::concept_id::ConceptId;
use okf::graph_page::{graph_page, GraphConcept};
use okf::site::PagePath;

fn id(s: &str) -> ConceptId {
    ConceptId::parse(s).unwrap()
}

#[test]
fn the_graph_names_nodes_in_order_and_dashes_broken_links() {
    let cs = vec![
        GraphConcept { id: id("a"), links: vec![(id("dir/b"), true), (id("gone"), false)] },
        GraphConcept { id: id("dir/b"), links: vec![(id("a"), true)] },
    ];
    let page = graph_page(&cs);
    assert!(matches!(page.rel_path, PagePath::Graph));
    assert_eq!(page.title, "Cross-link graph");
    assert!(page.has_mermaid && !page.has_shiki && page.meta_rows.is_empty());
    let expected = [
        "<p class=\"md-p\">Every concept and cross-link in the bundle. Dashed edges mark broken links (permitted by the spec: they may be not-yet-written knowledge).</p>",
        "<pre class=\"mermaid\">flowchart LR\n",
        "  n0[&quot;a&quot;]\n  n1[&quot;dir/b&quot;]\n  n2[&quot;gone&quot;]\n",
        "  n0 --&gt; n1\n  n0 -.-&gt;|broken| n2\n  n1 --&gt; n0\n",
        "</pre>",
    ]
    .concat();
    assert_eq!(page.body_html, expected);
}

#[test]
fn an_empty_bundle_draws_an_empty_flowchart() {
    let page = graph_page(&Vec::new());
    assert!(page.body_html.ends_with("<pre class=\"mermaid\">flowchart LR\n</pre>"));
}
