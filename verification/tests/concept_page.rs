use okf::concept_id::ConceptId;
use okf::concept_page::{
    concept_page, Citation, ConceptPageModel, Finding, PageLink, Severity, SourceEntry, SourceTarget,
};
use okf::dashboard::DashboardConcept;
use okf::lifecycle::{Status, TrustTier};
use okf::site::{PagePath, RenderedBody};

fn id(s: &str) -> ConceptId {
    ConceptId::parse(s).unwrap()
}

fn known(path: &str, title: &str) -> DashboardConcept {
    DashboardConcept {
        id: id(path),
        title: title.to_string(),
        tier: TrustTier::HumanReviewed,
        status: Status::Stable,
        stale: false,
        stale_in_days: None,
        kind_name: None,
        generated_by: None,
        verified_by: Vec::new(),
        in_degree: 0,
        findings: 0,
    }
}

fn bare(path: &str, title: &str) -> ConceptPageModel {
    ConceptPageModel {
        id: id(path),
        title: title.to_string(),
        kind_name: None,
        status: Status::Draft,
        tier: TrustTier::Unverified,
        freshness: None,
        generated: None,
        verified: Vec::new(),
        tags: Vec::new(),
        backlinks: Vec::new(),
        links: Vec::new(),
        sources: Vec::new(),
        findings: Vec::new(),
    }
}

#[test]
fn the_concept_page_shows_frontmatter_and_panels() {
    let bundle = vec![
        known("overview", "Overview"),
        known("policies/rates", "Rates & Fees"),
        known("policies/travel", "Travel"),
    ];
    let mut m = bare("policies/travel", "Travel");
    m.kind_name = Some("Policy".to_string());
    m.status = Status::Stable;
    m.tier = TrustTier::MachineConfirmed;
    m.freshness = Some((false, "2026-06-01".to_string()));
    m.generated = Some(("bot".to_string(), "2026-01-01".to_string()));
    m.verified = vec![("ann".to_string(), "2026-02-01".to_string())];
    m.tags = vec!["hr".to_string(), "money".to_string()];
    m.backlinks = vec![id("overview")];
    m.links = vec![
        PageLink { text: "Rates".to_string(), target: id("policies/rates"), exists: true },
        PageLink { text: "Gone".to_string(), target: id("gone"), exists: false },
    ];
    m.sources = vec![
        SourceEntry {
            label: "Handbook".to_string(),
            target: SourceTarget::Url("https://x.org/?a=1&b=2".to_string()),
            author: Some("HR".to_string()),
            usage_count: Some(3),
            citation: Citation::Cited,
        },
        SourceEntry {
            label: "Notes".to_string(),
            target: SourceTarget::Path("notes.txt".to_string()),
            author: None,
            usage_count: None,
            citation: Citation::Unlabelled,
        },
    ];
    m.findings = vec![Finding { severity: Severity::Warning, message: "missing <owner>".to_string() }];
    let body = RenderedBody {
        html: "<p>x</p>".to_string(),
        has_mermaid: false,
        headings: vec![(1, "Intro".to_string(), "intro".to_string()), (2, "Details".to_string(), "details".to_string())],
    };
    let page = concept_page(&bundle, &m, &body);
    match &page.rel_path {
        PagePath::Concept(p) => assert_eq!(p.to_path(), "policies/travel"),
        _ => panic!("a concept page lands at its concept's path"),
    }
    assert_eq!(page.title, "Travel");
    assert_eq!(page.body_html, "<p>x</p>");
    assert!(!page.has_mermaid && !page.has_shiki);
    assert_eq!(page.meta_rows.len(), 1);
    assert_eq!(page.meta_rows[0].0, "Overview");
    let expected = [
        "<dl class=\"meta-grid\">",
        "<dt>type</dt><dd>Policy</dd>",
        "<dt>status</dt><dd><span class=\"badge status-stable\">stable</span></dd>",
        "<dt>trust</dt><dd><span class=\"badge tier-machine\">machine-confirmed</span></dd>",
        "<dt>fresh</dt><dd><span class=\"badge fresh\">fresh until 2026-06-01</span></dd>",
        "<dt>generated</dt><dd>bot <span class=\"num\">2026-01-01</span></dd>",
        "<dt>verified</dt><dd><ul style=\"margin:0;padding-left:1rem\"><li>ann <span class=\"num\">2026-02-01</span></li></ul></dd>",
        "<dt>tags</dt><dd><span class=\"badge\">hr</span> <span class=\"badge\">money</span> </dd>",
        "<dt>links</dt><dd><span class=\"num\">2</span> out · <span class=\"num\">1</span> in</dd>",
        "</dl>",
        "<div class=\"panel\"><h3>Contents</h3><div class=\"toc-columns\">",
        "<div style=\"padding-left:0.2rem\"><a href=\"#intro\">Intro</a></div>",
        "<div style=\"padding-left:1.2rem\"><a href=\"#details\">Details</a></div></div></div>",
        "<div class=\"panel\"><h3>Backlinks</h3><ul><li><a href=\"../overview.html\">Overview</a></li></ul></div>",
        "<div class=\"panel\"><h3>Links</h3><ul><li><a href=\"../policies/rates.html\">Rates &amp; Fees</a></li>",
        "<li><span class=\"broken-link\" title=\"broken link\">Gone</span> → <code>gone</code></li></ul></div>",
        "<div class=\"panel\"><h3>Sources</h3><ul>",
        "<li><a href=\"https://x.org/?a=1&amp;b=2\" rel=\"noopener noreferrer\">Handbook</a> — HR used <span class=\"num\">3</span>× <span class=\"badge status-stable\">cited</span></li>",
        "<li><code>notes.txt</code></li></ul></div>",
        "<div class=\"panel\"><h3>Findings</h3><ul><li><span class=\"badge sev-warning\">warning</span> missing &lt;owner&gt;</li></ul></div>",
    ]
    .concat();
    assert_eq!(page.meta_rows[0].1, expected);
}

#[test]
fn a_bare_concept_shows_only_its_grid() {
    let m = bare("overview", "Overview");
    let body = RenderedBody { html: String::new(), has_mermaid: true, headings: vec![(1, "Only".to_string(), "only".to_string())] };
    let page = concept_page(&Vec::new(), &m, &body);
    assert!(page.has_mermaid);
    assert_eq!(
        page.meta_rows[0].1,
        [
            "<dl class=\"meta-grid\">",
            "<dt>status</dt><dd><span class=\"badge status-draft\">draft</span></dd>",
            "<dt>trust</dt><dd><span class=\"badge tier-unverified\">unverified</span></dd>",
            "<dt>links</dt><dd><span class=\"num\">0</span> out · <span class=\"num\">0</span> in</dd>",
            "</dl>",
        ]
        .concat()
    );
}

#[test]
fn stale_concepts_and_unknown_sources_render_as_such() {
    let mut m = bare("a/b", "B");
    m.freshness = Some((true, "2020-01-01".to_string()));
    m.sources = vec![SourceEntry {
        label: "Doc".to_string(),
        target: SourceTarget::Concept(id("a/missing")),
        author: None,
        usage_count: None,
        citation: Citation::Uncited,
    }];
    let page = concept_page(&Vec::new(), &m, &RenderedBody { html: String::new(), has_mermaid: false, headings: Vec::new() });
    let html = &page.meta_rows[0].1;
    assert!(html.contains("<span class=\"badge stale\">stale since 2020-01-01</span>"));
    assert!(html.contains(
        "<li><span class=\"broken-link\" title=\"broken link\">missing</span> <code>Doc</code> <span class=\"badge sev-warning\">uncited</span></li>"
    ));
}
