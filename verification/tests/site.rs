use okf::lifecycle::{Status, TrustTier};
use okf::concept_id::ConceptId;
use okf::config::{SchemePref, SiteConfig, DEFAULT_THEME_ID};
use okf::site::{
    body_heading_anchors, builtin_themes, directories_with_concepts, escape_pre, is_mermaid_info, is_safe_id, mermaid_label, prefix_for, resolve_default_theme, segment_title,
    site_title, status_class, theme_boot, tier_class, theme_catalog, Date, PagePath, SiteError, SiteOptions, ThemeEntry,
};
use okf::yaml::Value;

#[test]
fn page_paths_mirror_the_bundle_layout() {
    let id = ConceptId::parse("tables/orders").unwrap();
    assert_eq!(PagePath::Concept(id.clone()).rel(), "tables/orders.html");
    assert_eq!(PagePath::Concept(id).depth(), 1);
    assert_eq!(
        PagePath::Concept(ConceptId::parse("overview").unwrap()).depth(),
        0
    );
    assert_eq!(PagePath::Graph.rel(), "__okf/graph.html");
}

#[test]
fn theme_boot_inlines_the_catalog() {
    let themes = [
        ThemeEntry {
            id: DEFAULT_THEME_ID,
            label: "Default",
            light: true,
            dark: true,
        },
        ThemeEntry {
            id: "nord",
            label: "Nord",
            light: false,
            dark: true,
        },
        ThemeEntry {
            id: "no'quotes",
            label: "Hostile",
            light: true,
            dark: false,
        },
    ];
    let js = theme_boot(&themes, "nord", SchemePref::Dark);
    assert!(js.contains("var F = {'default':1,'nord':1}"), "{js}");
    assert!(js.contains("DT = 'nord', DS = 'dark'"), "{js}");
    assert!(!js.contains("no'quotes"), "unsafe id reached the literal");

    let js = theme_boot(&themes, "not an id", SchemePref::Auto);
    assert!(js.contains("DT = 'default', DS = 'auto'"), "{js}");
}

#[test]
fn directory_and_dashboard_pages_sit_at_their_depth() {
    let dir = ConceptId::parse("a/b").unwrap();
    assert_eq!(PagePath::Directory(dir.clone()).rel(), "a/b/index.html");
    assert_eq!(PagePath::Directory(dir.clone()).depth(), 2);
    assert_eq!(PagePath::Dashboard.rel(), "index.html");
    assert_eq!(PagePath::Dashboard.depth(), 0);
    assert_eq!(PagePath::Graph.depth(), 1);
    assert_eq!(prefix_for(&PagePath::Directory(dir)), "../../");
    assert_eq!(prefix_for(&PagePath::Dashboard), "");
}

#[test]
fn builtin_themes_are_safe_and_cover_a_variant() {
    let themes = builtin_themes();
    let ids: Vec<&str> = themes.iter().map(|t| t.id).collect();
    assert_eq!(ids, vec!["default", "sepia", "contrast"]);
    for theme in &themes {
        assert!(is_safe_id(theme.id));
        assert!(theme.light || theme.dark);
    }
}

#[test]
fn safe_ids_are_lowercase_digits_and_dashes() {
    assert!(is_safe_id("nord-2"));
    assert!(!is_safe_id(""));
    assert!(!is_safe_id("Nord"));
    assert!(!is_safe_id("a b"));
}

fn s(text: &str) -> Value {
    Value::String(text.to_string())
}

fn map(entries: Vec<(&str, Value)>) -> Value {
    Value::Mapping(entries.into_iter().map(|(k, v)| (s(k), v)).collect())
}

#[test]
fn the_catalog_appends_bundle_themes_and_skips_reused_ids() {
    let doc = map(vec![(
        "site",
        map(vec![(
            "themes",
            Value::Sequence(vec![
                map(vec![("id", s("nord")), ("label", s("Nord")), ("scheme", s("dark"))]),
                map(vec![("id", s("sepia")), ("scheme", s("light"))]),
                map(vec![("id", s("paper")), ("scheme", s("light"))]),
            ]),
        )]),
    )]);
    let config = SiteConfig::from_document(&doc).unwrap();
    let catalog = theme_catalog(&config.themes);
    let ids: Vec<&str> = catalog.iter().map(|t| t.id).collect();
    assert_eq!(ids, vec!["default", "sepia", "contrast", "nord", "paper"]);
    assert_eq!(catalog[1].label, "Sepia");
    assert_eq!(catalog[3].label, "Nord");
    assert!(catalog[3].dark && !catalog[3].light);
    assert_eq!(catalog[4].label, "paper");
    assert!(catalog[4].light && !catalog[4].dark);
}

#[test]
fn the_default_theme_resolves_by_precedence() {
    let catalog = builtin_themes();
    assert_eq!(
        resolve_default_theme("root", None, None, &catalog).unwrap(),
        "auto"
    );
    assert_eq!(
        resolve_default_theme("root", Some("sepia".into()), Some("contrast".into()), &catalog)
            .unwrap(),
        "sepia"
    );
    assert_eq!(
        resolve_default_theme("root", None, Some("contrast".into()), &catalog).unwrap(),
        "contrast"
    );
    match resolve_default_theme("root", Some("nord".into()), None, &catalog) {
        Err(SiteError::Theme(m)) => assert_eq!(
            m,
            "`nord` is not one of this site's themes: default, sepia, contrast"
        ),
        other => panic!("unexpected {other:?}"),
    }
    match resolve_default_theme("root", None, Some("nord".into()), &catalog) {
        Err(SiteError::Config(e)) => {
            assert_eq!(e.path(), "root/.okf/config.yaml");
            assert_eq!(
                e.describe(),
                "root/.okf/config.yaml: `site.theme` names `nord`, which is not one of this site's themes: default, sepia, contrast"
            );
        }
        other => panic!("unexpected {other:?}"),
    }
}

#[test]
fn the_title_and_date_fall_back_in_order() {
    assert_eq!(site_title(Some("A".into()), Some("B".into())), "A");
    assert_eq!(site_title(None, Some("B".into())), "B");
    assert_eq!(site_title(None, None), "okf site");
    let mut options = SiteOptions {
        root: ".".into(),
        out_dir: "site".into(),
        today: None,
        title: None,
        theme: None,
    };
    let clock = Date { year: 2024, month: 5, day: 6 };
    assert_eq!(options.effective_today(Some(clock)), clock);
    assert_eq!(
        options.effective_today(None),
        Date { year: 1970, month: 1, day: 1 }
    );
    let pinned = Date { year: 2020, month: 2, day: 29 };
    options.today = Some(pinned);
    assert_eq!(options.effective_today(Some(clock)), pinned);
}

#[test]
fn mermaid_labels_and_segment_titles() {
    assert_eq!(segment_title("travel_expenses-policy"), "Travel Expenses Policy");
    assert_eq!(
        mermaid_label("a \"quoted\" [b] \\"),
        "a #quot;quoted#quot; &#91;b&#93; \\\\"
    );
    assert_eq!(segment_title("__"), "__");
}

#[test]
fn diagram_source_is_escaped_for_pre() {
    assert_eq!(escape_pre("A --> B & C <br>"), "A --&gt; B &amp; C &lt;br&gt;");
    assert_eq!(escape_pre("plain"), "plain");
    assert_eq!(escape_pre(""), "");
}

#[test]
fn mermaid_blocks_are_named_by_their_first_info_word() {
    assert!(is_mermaid_info("mermaid"));
    assert!(is_mermaid_info("MerMaid title=flow"));
    assert!(!is_mermaid_info("rust"));
    assert!(!is_mermaid_info("mermaidx"));
    assert!(!is_mermaid_info(" mermaid"));
    assert!(!is_mermaid_info(""));
}

#[test]
fn directories_are_every_proper_prefix_once_in_path_order() {
    let ids: Vec<ConceptId> = ["a/b/x", "a-b/y", "a/b/z", "top", "a/c"]
        .iter()
        .map(|s| ConceptId::parse(s).unwrap())
        .collect();
    let dirs: Vec<String> = directories_with_concepts(&ids).iter().map(|d| d.to_path()).collect();
    assert_eq!(dirs, vec!["a", "a-b", "a/b"]);
    assert!(directories_with_concepts(&Vec::new()).is_empty());
}

#[test]
fn badges_name_their_tier_and_status() {
    assert_eq!(tier_class(TrustTier::Unverified), "badge tier-unverified");
    assert_eq!(tier_class(TrustTier::MachineConfirmed), "badge tier-machine");
    assert_eq!(tier_class(TrustTier::HumanReviewed), "badge tier-human");
    assert_eq!(status_class(&Status::Draft), "badge status-draft");
    assert_eq!(status_class(&Status::Stable), "badge status-stable");
    assert_eq!(status_class(&Status::Deprecated), "badge status-deprecated");
    assert_eq!(status_class(&Status::Other("retired".to_string())), "badge status-other");
}

#[test]
fn heading_anchors_follow_the_page_allocator() {
    let body = "# A\n## A\n```\n# not a heading\n```\n### B\n# a\n#### !!!\n";
    let anchors: Vec<(String, String)> = body_heading_anchors(body)
        .into_iter()
        .map(|h| (h.text, h.anchor))
        .collect();
    let expected = [("A", "a"), ("A", "a-1"), ("B", "b"), ("a", "a-2"), ("!!!", "")];
    assert_eq!(anchors.len(), expected.len());
    for ((text, anchor), (t, a)) in anchors.iter().zip(expected) {
        assert_eq!((text.as_str(), anchor.as_str()), (t, a));
    }
}

#[test]
fn duplicate_headings_get_disambiguated_anchors() {
    let body = "# Rates\n\nFirst.\n\n## Rates\n\nSecond.\n";
    let anchors: Vec<String> = body_heading_anchors(body).into_iter().map(|h| h.anchor).collect();
    assert_eq!(anchors, ["rates", "rates-1"]);
}

#[test]
fn escaped_labels_and_sources_cannot_break_out() {
    let label = mermaid_label("a \"quoted\" [bracketed] \\ label");
    assert!(!label.contains(&['"', '[', ']'][..]), "{label}");
    let src = escape_pre("</pre><script>x</script>");
    assert!(!src.contains(&['<', '>'][..]), "{src}");
}

#[test]
fn concept_directory_and_dashboard_pages_never_clash() {
    let id = |s: &str| ConceptId::parse(s).unwrap();
    let pages = vec![
        PagePath::Dashboard,
        PagePath::Concept(id("a")),
        PagePath::Concept(id("a/b")),
        PagePath::Concept(id("a/index2")),
        PagePath::Directory(id("a")),
        PagePath::Directory(id("a/b")),
    ];
    let rels: Vec<String> = pages.iter().map(|p| p.rel()).collect();
    for i in 0..rels.len() {
        for j in 0..i {
            assert_ne!(rels[i], rels[j]);
        }
    }
    assert_eq!(PagePath::Directory(id("a")).rel(), "a/index.html");
}

#[test]
fn builtin_themes_have_css_blocks() {
    for theme in builtin_themes() {
        assert!(is_safe_id(theme.id), "unsafe built-in id `{}`", theme.id);
        assert!(theme.light || theme.dark, "`{}` defines no variant at all", theme.id);
        if theme.id == DEFAULT_THEME_ID {
            assert!(theme.light && theme.dark, "the base family covers both");
        }
    }
}

#[test]
fn page_depth_counts_the_slashes_of_the_output_path() {
    let pages = vec![
        PagePath::Concept(ConceptId::parse("tables/orders").unwrap()),
        PagePath::Concept(ConceptId::parse("overview").unwrap()),
        PagePath::Directory(ConceptId::parse("a/b").unwrap()),
        PagePath::Graph,
        PagePath::Dashboard,
    ];
    for p in pages {
        assert_eq!(p.depth(), p.rel().matches('/').count());
    }
}
