use okf::concept_id::ConceptId;
use okf::nav::{nav_tree, NavConcept};

const CARET: &str = "<svg class=\"dir-caret\" viewBox=\"0 0 24 24\" fill=\"none\" stroke=\"currentColor\" stroke-width=\"2\" stroke-linecap=\"round\" stroke-linejoin=\"round\" width=\"14\" height=\"14\" aria-hidden=\"true\"><path d=\"M6 9l6 6 6-6\"/></svg>";

fn n(id: &str, title: &str) -> NavConcept {
    NavConcept { id: ConceptId::parse(id).unwrap(), title: title.to_string() }
}

fn dir(path: &str, label: &str, active: bool, prefix: &str, inner: &str) -> String {
    format!(
        "<li data-dir=\"{path}\"><div class=\"dir-row\"><a class=\"{}\" href=\"{prefix}{path}/index.html\">{label}</a><button class=\"dir-toggle\" type=\"button\" aria-expanded=\"true\" aria-label=\"Toggle {label}\">{CARET}</button></div>{inner}</li>",
        if active { "dir active" } else { "dir" }
    )
}

#[test]
fn the_nav_tree_nests_directories_and_marks_the_current_page() {
    let cs = vec![n("overview", "Overview"), n("tables/orders", "Orders"), n("tables/sub/x", "X"), n("a-b/y", "Y")];
    let html = nav_tree(&cs, "../", "tables/orders.html");
    let expected = [
        "<div class=\"special\"><a href=\"../index.html\">Dashboard</a><a href=\"../__okf/graph.html\">Graph</a></div>".to_string(),
        "<ul><li><a href=\"../overview.html\">Overview</a></li>".to_string(),
        dir("a-b", "A B", false, "../", "<ul><li><a href=\"../a-b/y.html\">Y</a></li></ul>"),
        dir(
            "tables",
            "Tables",
            false,
            "../",
            &format!(
                "<ul><li><a class=\"active\" href=\"../tables/orders.html\">Orders</a></li>{}</ul>",
                dir("tables/sub", "Sub", false, "../", "<ul><li><a href=\"../tables/sub/x.html\">X</a></li></ul>")
            ),
        ),
        "</ul>".to_string(),
    ]
    .concat();
    assert_eq!(html, expected);
}

#[test]
fn special_pages_and_directory_indexes_are_marked_active() {
    let cs = vec![n("docs/a", "A")];
    let html = nav_tree(&cs, "", "index.html");
    assert!(html.starts_with("<div class=\"special\"><a class=\"active\" href=\"index.html\">Dashboard</a><a href=\"__okf/graph.html\">Graph</a></div>"));
    let html = nav_tree(&cs, "../", "docs/index.html");
    assert!(html.contains("<a class=\"dir active\" href=\"../docs/index.html\">Docs</a>"));
    let html = nav_tree(&cs, "../", "__okf/graph.html");
    assert!(html.contains("<a class=\"active\" href=\"../__okf/graph.html\">Graph</a>"));
    assert_eq!(nav_tree(&Vec::new(), "", "x.html"), "<div class=\"special\"><a href=\"index.html\">Dashboard</a><a href=\"__okf/graph.html\">Graph</a></div><ul></ul>");
}
