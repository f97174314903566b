use okf::body_html::{intercept, render, render_markdown, Emit, MdEvent};
use okf::concept_id::ConceptId;
use okf::document::Document;

fn id(s: &str) -> ConceptId {
    ConceptId::parse(s).unwrap()
}

/// The body a concept file `doc.md` with this body carries.
fn doc_body(body: &str) -> String {
    Document::parse(&format!("---\ntype: Doc\ntitle: Doc\n---\n\n{body}")).unwrap().body
}

fn render_doc(body: &str) -> okf::site::RenderedBody {
    let known = vec![id("index"), id("doc")];
    render(&known, &id("doc"), &doc_body(body), "")
}

#[test]
fn relative_links_from_nested_pages_get_prefix() {
    let known = vec![id("index"), id("root"), id("a/b/leaf")];
    let body = Document::parse(
        "---\ntype: Doc\n---\n\n[Root](/root.md) is absolute.\n\n[Sibling](../../index.md) resolves.\n",
    )
    .unwrap()
    .body;
    let rendered = render(&known, &id("a/b/leaf"), &body, "../../");
    assert!(rendered.html.contains(r#"href="../../root.html""#), "{}", rendered.html);
    assert!(rendered.html.contains(r#"href="../../index.html""#), "{}", rendered.html);
}

#[test]
fn intercepts_mermaid_blocks_with_escaped_pre() {
    let body = "Text before.\n\n```mermaid\nflowchart LR\n  A[\"x\"] --> B\n```\n\nText after.";
    let rendered = render_doc(body);
    assert!(rendered.has_mermaid);
    assert!(rendered.html.contains(r#"<pre class="mermaid">flowchart LR"#), "{}", rendered.html);
    assert!(
        rendered.html.contains("A[\"x\"] --&gt; B"),
        "diagram source survives with < > escaped: {}",
        rendered.html
    );
    // The block must NOT render as an ordinary code block.
    assert!(!rendered.html.contains("<code"), "{}", rendered.html);
}

#[test]
fn drops_raw_html_but_keeps_code() {
    let body = "<script>alert(1)</script>\n\n```html\n<script>alert(2)</script>\n```\n";
    let rendered = render_doc(body);
    assert!(!rendered.html.contains("<script>alert(1)"), "{}", rendered.html);
    assert!(rendered.html.contains("&lt;script&gt;alert(2)"), "{}", rendered.html);
}

#[test]
fn drops_raw_html_in_mermaid_source() {
    let body = "```mermaid\nflowchart LR\n  A --><script>evil()</script> B\n```";
    let rendered = render_doc(body);
    assert!(rendered.html.contains("&lt;script&gt;"), "{}", rendered.html);
    assert!(!rendered.html.contains("<script>"), "{}", rendered.html);
}

#[test]
fn tables_render() {
    let body = "| a | b |\n|---|---|\n| 1 | 2 |\n";
    let rendered = render_doc(body);
    assert!(rendered.html.contains("<table>"), "{}", rendered.html);
}

#[test]
fn links_in_code_fences_are_untouched() {
    let body = "```text\n[not a link](x.md)\n```\n\n[real](index.md)";
    let rendered = render_doc(body);
    assert!(rendered.html.contains("[not a link](x.md)"), "{}", rendered.html);
    assert!(rendered.html.contains("index.html"), "{}", rendered.html);
}

#[test]
fn headings_get_disambiguated_ids_for_the_toc() {
    let rendered = render_markdown("# Rates\n\nFirst.\n\n## Rates\n\nSecond.\n\n### !!!\n");
    assert!(rendered.html.contains("<h1 id=\"rates\">Rates"), "{}", rendered.html);
    assert!(rendered.html.contains("<h2 id=\"rates-1\">Rates"), "{}", rendered.html);
    assert!(!rendered.has_mermaid);
    let heads: Vec<(usize, String, String)> = rendered.headings;
    assert_eq!(
        heads,
        vec![
            (1, "Rates".to_string(), "rates".to_string()),
            (2, "Rates".to_string(), "rates-1".to_string()),
            (3, "!!!".to_string(), String::new()),
        ]
    );
}

#[test]
fn the_pass_plans_drops_and_rewrites() {
    let events = vec![
        MdEvent::RawHtml,
        MdEvent::FencedStart("Mermaid x".to_string()),
        MdEvent::Text("a<b\n".to_string()),
        MdEvent::RawHtml,
        MdEvent::CodeEnd,
        MdEvent::Other,
    ];
    let (plan, has_mermaid, heads) = intercept(&events);
    assert!(has_mermaid);
    assert!(heads.is_empty());
    assert_eq!(plan.len(), 2);
    assert!(matches!(&plan[0], Emit::Html(h) if h == "<pre class=\"mermaid\">a&lt;b\n</pre>"));
    assert!(matches!(&plan[1], Emit::Keep(5)));
}
