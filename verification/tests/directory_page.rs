use okf::concept_id::ConceptId;
use okf::directory_page::{directory_page, DirConcept};
use okf::site::PagePath;

fn c(id: &str, title: &str, kind: Option<&str>, description: &str) -> DirConcept {
    DirConcept {
        id: ConceptId::parse(id).unwrap(),
        title: title.to_string(),
        kind_name: kind.map(|k| k.to_string()),
        description: description.to_string(),
    }
}

#[test]
fn directory_pages_group_by_type_and_order_by_title() {
    let cs = vec![
        c("tables/orders", "Orders", Some("Table"), "All orders"),
        c("other/y", "Y", Some("Table"), ""),
        c("tables/sub/x", "X & Co", None, ""),
        c("tablesx/z", "Z", Some("Table"), ""),
        c("tables/aardvark", "aardvark", Some("Table"), ""),
    ];
    let dir = ConceptId::parse("tables").unwrap();
    let page = directory_page(&cs, &dir);
    match &page.rel_path {
        PagePath::Directory(d) => assert_eq!(d.to_path(), "tables"),
        _ => panic!("a directory page lands at its directory"),
    }
    assert_eq!(page.title, "Tables");
    let expected = [
        "<h2 class=\"md-h2\">Other</h2><ul class=\"md-list\">",
        "<li class=\"md-li\">X &amp; Co <a href=\"../tables/sub/x.html\">X &amp; Co</a></li></ul>",
        "<hr class=\"md-hr\"></hr><h2 class=\"md-h2\">Table</h2><ul class=\"md-list\">",
        "<li class=\"md-li\">aardvark <a href=\"../tables/aardvark.html\">aardvark</a></li>",
        "<li class=\"md-li\">Orders <a href=\"../tables/orders.html\">Orders</a> — All orders</li></ul>",
    ]
    .concat();
    assert_eq!(page.body_html, expected);
}

#[test]
fn an_empty_directory_has_an_empty_body() {
    let page = directory_page(&Vec::new(), &ConceptId::parse("my-notes").unwrap());
    assert_eq!(page.title, "My Notes");
    assert_eq!(page.body_html, "");
}
