use okf::concept_id::ConceptId;
use okf::dashboard::{dashboard_page, escape_html, DashboardConcept};
use okf::lifecycle::{Status, TrustTier};
use okf::site::PagePath;

fn concept(id: &str, title: &str, tier: TrustTier, status: Status) -> DashboardConcept {
    DashboardConcept {
        id: ConceptId::parse(id).unwrap(),
        title: title.to_string(),
        tier,
        status,
        stale: false,
        stale_in_days: None,
        kind_name: None,
        generated_by: None,
        verified_by: Vec::new(),
        in_degree: 0,
        findings: 0,
    }
}

#[test]
fn the_dashboard_tallies_and_ranks_the_bundle() {
    let mut travel = concept("policies/travel", "Travel & Expenses", TrustTier::Unverified, Status::Draft);
    travel.stale_in_days = Some(10);
    travel.kind_name = Some("Policy".to_string());
    travel.generated_by = Some("bot".to_string());
    let mut overview = concept("overview", "Overview", TrustTier::HumanReviewed, Status::Deprecated);
    overview.stale = true;
    overview.verified_by = vec!["ann".to_string()];
    overview.in_degree = 2;
    overview.findings = 3;
    let page = dashboard_page(&vec![travel, overview], "2026-03-01");
    assert!(matches!(page.rel_path, PagePath::Dashboard));
    assert_eq!(page.title, "Dashboard — 2 concept(s)");
    assert!(!page.has_mermaid && !page.has_shiki && page.meta_rows.is_empty());
    let expected = [
        "<div class=\"pagerow\"><section>",
        "<div class=\"panel\"><h3>Trust</h3><dl class=\"meta-grid\"><dt>unverified</dt><dd class=\"num\">1</dd>",
        "<dt>machine-confirmed</dt><dd class=\"num\">0</dd><dt>human-reviewed</dt><dd class=\"num\">1</dd></dl></div>",
        "<div class=\"panel\"><h3>Status</h3><dl class=\"meta-grid\"><dt>draft</dt><dd class=\"num\">1</dd>",
        "<dt>stable</dt><dd class=\"num\">0</dd><dt>deprecated</dt><dd class=\"num\">1</dd><dt>other</dt><dd class=\"num\">0</dd></dl></div>",
        "<div class=\"panel\"><h3>Freshness (as of 2026-03-01)</h3><dl class=\"meta-grid\"><dt>stale</dt><dd class=\"num\">1</dd>",
        "<dt>stale within 30 days</dt><dd class=\"num\">1</dd></dl></div>",
        "<div class=\"panel\"><h3>Types</h3><dl class=\"meta-grid\"><dt>(untyped)</dt><dd class=\"num\">1</dd>",
        "<dt>Policy</dt><dd class=\"num\">1</dd></dl></div>",
        "</section><section>",
        "<div class=\"panel\"><h3>Attention queue</h3><table><thead><tr><th>risk</th><th>concept</th><th>why</th></tr></thead><tbody>",
        "<tr><td class=\"num\">63</td><td><a href=\"overview.html\">Overview</a></td>",
        "<td>stale · human-reviewed · deprecated · 2 incoming links remain · 3 finding(s)</td></tr>",
        "<tr><td class=\"num\">25</td><td><a href=\"policies/travel.html\">Travel &amp; Expenses</a></td><td>unverified</td></tr>",
        "</tbody></table></div>",
        "<div class=\"panel\"><h3>Actors</h3><table><thead><tr><th>actor</th><th>generated</th><th>verified</th></tr></thead><tbody>",
        "<tr><td>ann</td><td class=\"num\">0</td><td class=\"num\">1</td></tr>",
        "<tr><td>bot</td><td class=\"num\">1</td><td class=\"num\">0</td></tr>",
        "</tbody></table></div>",
        "</section></div>",
    ]
    .concat();
    assert_eq!(page.body_html, expected);
}

#[test]
fn an_empty_bundle_has_an_empty_queue() {
    let page = dashboard_page(&Vec::new(), "2026-01-01");
    assert_eq!(page.title, "Dashboard — 0 concept(s)");
    assert!(page.body_html.contains("<tbody></tbody>"));
    assert!(page.body_html.contains("<dt>unverified</dt><dd class=\"num\">0</dd>"));
}

#[test]
fn ties_in_risk_rank_by_id_and_settled_concepts_stay_out() {
    let b = concept("b", "B", TrustTier::Unverified, Status::Stable);
    let a = concept("a", "A", TrustTier::Unverified, Status::Stable);
    let settled = concept("c", "C", TrustTier::HumanReviewed, Status::Stable);
    let mut capped = concept("d", "D", TrustTier::MachineConfirmed, Status::Stable);
    capped.findings = 99;
    let page = dashboard_page(&vec![b, a, settled, capped], "2026-01-01");
    let html = page.body_html;
    let pa = html.find(">A</a>").unwrap();
    let pb = html.find(">B</a>").unwrap();
    let pd = html.find(">D</a>").unwrap();
    assert!(pd < pa && pa < pb);
    assert!(!html.contains(">C</a>"));
    assert!(html.contains("<td class=\"num\">40</td>"));
    assert!(html.contains("99 finding(s)"));
}

#[test]
fn escaping_covers_the_markup_characters() {
    assert_eq!(escape_html("a<b>&\"c'"), "a&lt;b&gt;&amp;&quot;c'");
}
