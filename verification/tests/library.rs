use okf::cli::{is_closed_pipe_panic, strip_spec_references, CliError};
use okf::concept_id::ConceptId;
use okf::config::ConfigErrorKind;
use okf::css::{font_file_name, theme_id, FontFormat};
use okf::document::{Document, DocumentError};
use okf::lifecycle::{Status, TrustTier};
use okf::links::{percent_decode, Link, LinkKind, ParseLinkKindError};
use okf::slugs::SlugAllocator;
use okf::studio::{
    build_attention, str_width, truncate_to_width, AttentionFacts, ColorBy, QueueSort, TrustPanel,
};
use okf::yaml::Value;

fn message(e: ConfigErrorKind) -> String {
    e.describe()
}

#[test]
fn spec_references_are_stripped_with_their_spacing() {
    assert_eq!(
        strip_spec_references("missing title (§4.2) required"),
        "missing title required"
    );
    assert_eq!(strip_spec_references("See §3.1 for details"), "See for details");
    assert_eq!(strip_spec_references("a (§1 to §2, §3) b"), "a b");
    assert_eq!(strip_spec_references("ends §5"), "ends");
    assert_eq!(strip_spec_references("keep (see 4.2) and §x"), "keep (see 4.2) and §x");
}

#[test]
fn slug_allocation_suffixes_duplicates_and_skips_empty() {
    let mut slugs = SlugAllocator::default();
    assert_eq!(slugs.allocate("Pricing"), "pricing");
    assert_eq!(slugs.peek_duplicate("Pricing"), "pricing-1");
    assert_eq!(slugs.allocate("Pricing"), "pricing-1");
    assert_eq!(slugs.allocate("pricing 1"), "pricing-1-1");
    assert_eq!(slugs.allocate("!!"), "");
    assert_eq!(slugs.allocate("!!"), "");
}

#[test]
fn panels_and_color_modes_cycle_back_to_the_start() {
    let mut c = ColorBy::Trust;
    for _ in 0..5 {
        c = c.next();
    }
    assert_eq!(c, ColorBy::Trust);
    assert_eq!(ColorBy::Trust.next(), ColorBy::Status);
    let mut p = TrustPanel::Queue;
    for _ in 0..5 {
        p = p.next();
    }
    assert_eq!(p, TrustPanel::Queue);
    assert_eq!(TrustPanel::Queue.next(), TrustPanel::TrustBars);
    assert_eq!(QueueSort::Risk.next().next().next(), QueueSort::Risk);
    assert_eq!(QueueSort::Risk.next(), QueueSort::Staleness);
}

#[test]
fn widths_count_wide_characters_twice() {
    assert_eq!(str_width("ab"), 2);
    assert_eq!(str_width("日本"), 4);
    assert_eq!(truncate_to_width("hello", 10), "hello");
    assert_eq!(truncate_to_width("hello world", 6), "hello…");
    assert_eq!(truncate_to_width("日本語", 4), "日…");
}

#[test]
fn documents_split_frontmatter_from_body() {
    let doc = Document::parse("---\ntitle: A\n---\n\nBody\n").unwrap();
    assert_eq!(doc.frontmatter, "title: A");
    assert_eq!(doc.body, "Body");
    let doc = Document::parse("no frontmatter\n").unwrap();
    assert_eq!(doc.frontmatter, "");
    assert_eq!(doc.body, "no frontmatter\n");
    assert!(matches!(
        Document::parse("---\ntitle: A\n"),
        Err(DocumentError::UnterminatedFrontmatter)
    ));
}

#[test]
fn concept_ids_parse_and_relate() {
    let id = ConceptId::parse("policies/travel").unwrap();
    assert_eq!(id.to_path(), "policies/travel");
    assert_eq!(id.name(), "travel");
    assert_eq!(id.parent().unwrap().to_path(), "policies");
    assert!(ConceptId::parse("").is_err());
}

#[test]
fn tiers_and_statuses_have_names() {
    assert_eq!(TrustTier::HumanReviewed.as_str(), "human-reviewed");
    assert_eq!(TrustTier::from_name("machine-confirmed"), Some(TrustTier::MachineConfirmed));
    assert_eq!(TrustTier::from_name("nope"), None);
    assert!(Status::Deprecated.is_deprecated());
    assert_eq!(Status::Other("retired".into()).as_str(), "retired");
}

#[test]
fn percent_decoding_needs_an_escape_and_valid_utf8() {
    assert_eq!(percent_decode("a%20b"), Some("a b".to_string()));
    assert_eq!(percent_decode("caf%C3%A9"), Some("café".to_string()));
    assert_eq!(percent_decode("plain"), None);
    assert_eq!(percent_decode("%zz"), None);
    assert_eq!(percent_decode("%FF"), None);
}

#[test]
fn font_files_and_theme_ids_are_checked_with_debug_quoting() {
    let (file, format) = font_file_name("Inter-700.woff2", "site.fonts.files[0].file").unwrap();
    assert_eq!(file, "Inter-700.woff2");
    assert!(font_file_name("Inter.WOFF2", "f").is_err());
    assert_eq!(format, FontFormat::Woff2);
    let err = message(theme_id("Nord", "site.theme").unwrap_err());
    assert!(err.starts_with("`site.theme`: theme id \"Nord\" must match"), "{err}");
    assert_eq!(theme_id("nord-2", "site.theme").unwrap(), "nord-2");
}

#[test]
fn scalars_display_their_text() {
    assert_eq!(Value::Int(-7).as_display_str().as_deref(), Some("-7"));
    assert_eq!(Value::Bool(true).as_display_str().as_deref(), Some("true"));
    assert_eq!(Value::Null.as_display_str(), None);
    assert_eq!(Value::Sequence(vec![]).as_display_str(), None);
}

#[test]
fn cli_errors_carry_their_exit_codes() {
    let e = CliError::data("bad".to_string());
    assert!(!e.is_broken_pipe());
    let e = CliError::no_input("missing".to_string());
    assert!(!e.is_broken_pipe());
}

#[test]
fn closed_pipe_panics_are_recognized() {
    assert!(is_closed_pipe_panic("failed printing to stdout: Broken pipe (os error 32)"));
    assert!(is_closed_pipe_panic("failed printing to stderr"));
    assert!(is_closed_pipe_panic("The pipe is being closed. (os error 232)"));
    assert!(is_closed_pipe_panic("os error 109"));
    assert!(!is_closed_pipe_panic("index out of bounds"));
    assert!(!is_closed_pipe_panic(""));
}

fn facts(tier: TrustTier, status: Status) -> AttentionFacts {
    AttentionFacts {
        tier,
        status,
        stale: false,
        stale_in_days: None,
        overdue_days: None,
        diag_errors: 0,
        diag_warnings: 0,
        lint_findings: 0,
        in_degree: 0,
    }
}

#[test]
fn the_attention_queue_ranks_by_risk_then_id() {
    let id = |s: &str| ConceptId::parse(s).unwrap();
    let mut stale = facts(TrustTier::HumanReviewed, Status::Stable);
    stale.stale = true;
    stale.overdue_days = Some(5);
    stale.in_degree = 2;
    let fresh = facts(TrustTier::HumanReviewed, Status::Stable);
    let mut unverified = facts(TrustTier::Unverified, Status::Draft);
    unverified.stale_in_days = Some(10);
    unverified.diag_errors = 1;
    unverified.diag_warnings = 2;
    unverified.lint_findings = 3;
    let mut deprecated = facts(TrustTier::MachineConfirmed, Status::Deprecated);
    deprecated.in_degree = 12;
    let concepts = vec![
        (id("a/stale"), stale),
        (id("b/fresh"), fresh),
        (id("c/unverified"), unverified),
        (id("d/deprecated"), deprecated),
        (id("e/tie"), facts(TrustTier::Unverified, Status::Stable)),
        (id("a/tie2"), facts(TrustTier::Unverified, Status::Stable)),
    ];
    let queue = build_attention(&concepts);
    let rows: Vec<(String, i64, Vec<String>)> =
        queue.into_iter().map(|it| (it.id.to_path(), it.risk, it.reasons)).collect();
    let expected: Vec<(&str, i64, Vec<&str>)> = vec![
        ("c/unverified", 86, vec!["stale in 10d", "unverified", "6 diagnostic(s)"]),
        ("d/deprecated", 60, vec!["machine-confirmed", "deprecated · 12 incoming links remain", "12 backlinks"]),
        ("a/stale", 51, vec!["stale 5d", "human-reviewed", "2 backlinks"]),
        ("a/tie2", 25, vec!["unverified"]),
        ("e/tie", 25, vec!["unverified"]),
    ];
    assert_eq!(rows.len(), expected.len());
    for ((id, risk, reasons), (eid, erisk, ereasons)) in rows.iter().zip(expected) {
        assert_eq!((id.as_str(), *risk), (eid, erisk));
        assert_eq!(reasons, &ereasons);
    }
}

#[test]
fn link_kinds_parse_from_their_names() {
    for k in [LinkKind::Absolute, LinkKind::Relative, LinkKind::External, LinkKind::Anchor, LinkKind::Other] {
        assert_eq!(k.as_str().parse::<LinkKind>(), Ok(k));
    }
    assert_eq!(" Anchor ".parse::<LinkKind>(), Ok(LinkKind::Anchor));
    assert_eq!(
        "  Bogus\t".parse::<LinkKind>(),
        Err(ParseLinkKindError("bogus".to_string()))
    );
}

#[test]
fn frontmatter_must_be_a_mapping() {
    assert_eq!(Document::parse("---\ntype: Policy\n").err(), Some(DocumentError::UnterminatedFrontmatter));
    assert_eq!(Document::parse("---\n- a\n---\nbody").err(), Some(DocumentError::FrontmatterNotMapping));
    assert_eq!(Document::parse("---\njust a scalar\n---\nbody").err(), Some(DocumentError::FrontmatterNotMapping));
    let d = Document::parse("---\ntype: Policy\n---\n\nLine one\r\nLine two\r\n").unwrap();
    assert_eq!(d.body, "Line one\nLine two");
    assert_eq!(d.frontmatter_entries(), Some(vec![("type".to_string(), "Policy".to_string())]));
    let d = Document::parse(
        "---\n# a comment\ntitle: \"A: B\"\n'tags': [hr]\nsources:\n  - id: x\n\n---\nbody",
    )
    .unwrap();
    let keys: Vec<String> = d.frontmatter_entries().unwrap().into_iter().map(|(k, _)| k).collect();
    assert_eq!(keys, vec!["title", "tags", "sources"]);
    let d = Document::parse("---\n---\nbody").unwrap();
    assert_eq!(d.frontmatter_entries(), Some(Vec::new()));
}

fn link(target: &str, kind: LinkKind) -> Link {
    Link { text: String::new(), target: target.to_string(), kind }
}

#[test]
fn links_resolve_to_their_first_candidate() {
    let travel = ConceptId::parse("policies/travel").unwrap();
    let l = link("rates.md#x", LinkKind::Relative);
    assert_eq!(l.resolve(&travel).map(|id| id.to_path()), Some("policies/rates".to_string()));
    let all: Vec<String> = l.resolve_all(&travel).iter().map(|id| id.to_path()).collect();
    assert_eq!(all, vec!["policies/rates".to_string()]);
    let a = ConceptId::parse("a").unwrap();
    assert!(link("../x.md", LinkKind::Relative).resolve(&a).is_none());
    assert!(link("https://example.com/x.md", LinkKind::External).resolve(&a).is_none());
    assert!(link("#top", LinkKind::Anchor).resolve(&a).is_none());
    assert!(link("dir/", LinkKind::Relative).resolve(&a).is_none());
    let spaced = link("/tables/my%20notes.md", LinkKind::Absolute);
    let both: Vec<String> = spaced.resolve_all(&a).iter().map(|id| id.to_path()).collect();
    assert_eq!(both, vec!["tables/my%20notes".to_string(), "tables/my notes".to_string()]);
}

#[test]
fn validation_asks_for_a_non_empty_type_only() {
    let ok = Document::parse("---\ntype: Policy\n---\nbody").unwrap();
    assert_eq!(ok.validate(), Ok(()));
    let missing = Err(DocumentError::MissingKeys(vec!["type".to_string()]));
    for text in [
        "---\ntitle: X\n---\nbody",
        "---\ntype: \"\"\n---\nbody",
        "---\ntype: ~\n---\nbody",
        "---\ntype:\n  - a\n---\nbody",
        "---\ntype: [a]\n---\nbody",
        "just a body",
    ] {
        assert_eq!(Document::parse(text).unwrap().validate(), missing, "{text}");
    }
}

#[test]
fn a_contract_is_healthy_without_issues() {
    let mut info = okf::studio::ContractInfo {
        id: ConceptId::parse("calc/total").unwrap(),
        title: "Total".to_string(),
        path_checks: vec![("computation".to_string(), "./total.py".to_string(), Some("calc/total.py".to_string()))],
        syntax: Some(Ok(())),
        issues: Vec::new(),
    };
    assert!(info.healthy());
    info.issues.push("runtime missing".to_string());
    assert!(!info.healthy());
}

#[test]
fn validation_reads_the_type_as_a_yaml_scalar() {
    let missing = Err(DocumentError::MissingKeys(vec!["type".to_string()]));
    for text in [
        "---\ntype: ~ #\n---\nbody",
        "---\ntype: null # unset\n---\nbody",
        "---\ntype: '' # empty\n---\nbody",
        "---\ntype: # nothing\n---\nbody",
        "---\ntype: |\n---\nbody",
        "---\ntype:\n  key: value\n---\nbody",
    ] {
        assert_eq!(Document::parse(text).unwrap().validate(), missing, "{text}");
    }
    for text in [
        "---\ntype: Policy # note\n---\nbody",
        "---\ntype: \"a # b\"\n---\nbody",
        "---\ntype: ''''\n---\nbody",
        "---\ntype: Policy#x\n---\nbody",
        "---\ntype:\n  Policy\n---\nbody",
        "---\ntype: |\n  text\n---\nbody",
        "---\ntitle: X\ntype: 3\n---\nbody",
    ] {
        assert_eq!(Document::parse(text).unwrap().validate(), Ok(()), "{text}");
    }
}

#[test]
fn frontmatter_that_leaves_a_quote_or_bracket_open_is_invalid_yaml() {
    for text in [
        "---\ntitle: [unclosed\n---\nbody",
        "---\ntitle: \"open\n---\nbody",
        "---\ntitle: {a: [b}\ntype: X\n---\nbody",
        "---\ntitle: 'it''s\n---\nbody",
    ] {
        assert_eq!(Document::parse(text).err(), Some(DocumentError::InvalidYaml), "{text}");
    }
    for text in [
        "---\ntags: [a,\n  b]\ntype: X\n---\nbody",
        "---\ntitle: 'it''s'\n---\nbody",
        "---\ntitle: it's [fine\n---\nbody",
        "---\ntags: [a, \"b]\", 'c,d'] # note\n---\nbody",
        "---\ntitle: \"a \\\" b\"\n---\nbody",
    ] {
        assert!(Document::parse(text).is_ok(), "{text}");
    }
}
