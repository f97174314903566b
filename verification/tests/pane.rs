use okf::links::LinkKind;
use okf::pane::{
    list_marker, parse_inline, push_wrapped, render_document, Frag, Glyphs, RenderedDoc,
    TextStyle, Tone,
};
use okf::studio::{FocusKind, FocusTarget};

fn glyphs() -> Glyphs {
    Glyphs { ok: "ok".to_string(), broken: "x".to_string() }
}

fn texts(doc: &RenderedDoc, line: usize) -> Vec<String> {
    doc.lines[line].iter().map(|s| s.text.clone()).collect()
}

fn joined(doc: &RenderedDoc, line: usize) -> String {
    texts(doc, line).concat()
}

fn chars(s: &str) -> Vec<char> {
    s.chars().collect()
}

#[test]
fn headings_links_and_footnotes_are_mapped() {
    let doc = render_document(
        "# Title\n\nSee [a](b.md) and [^1].\n\n[^1]: note",
        40,
        &glyphs(),
        None,
        |_: &str, _: &str| None,
    );
    assert_eq!(doc.lines.len(), 6);
    assert_eq!(joined(&doc, 0), "Title");
    assert_eq!(doc.lines[0][1].style.tone, Tone::Accent);
    assert!(doc.lines[0][1].style.bold);
    assert_eq!(joined(&doc, 1), "─".repeat(40));
    assert!(doc.lines[2].is_empty());
    assert_eq!(joined(&doc, 3), "See →a and [^1].");
    assert_eq!(joined(&doc, 5), "[^1] note");
    assert_eq!(doc.headings.len(), 1);
    assert_eq!(doc.headings[0].line, 0);
    assert_eq!(doc.headings[0].text, "Title");
    assert_eq!(doc.links.len(), 2);
    assert_eq!(doc.links[0].line, 3);
    assert!(matches!(&doc.links[0].kind, FocusKind::Link { text, target, kind }
        if text == "a" && target == "b.md" && *kind == LinkKind::Relative));
    assert!(matches!(&doc.links[1].kind, FocusKind::Footnote(l) if l == "1"));
    assert_eq!(doc.footnote_defs, vec![("1".to_string(), 5)]);
}

#[test]
fn wikilinks_become_focusable_links() {
    let doc = render_document("See [[Pricing]].", 40, &glyphs(), Some(0), |_: &str, _: &str| None);
    assert_eq!(doc.links.len(), 1);
    assert!(matches!(&doc.links[0].kind, FocusKind::Link { target, kind, .. }
        if target == "#pricing" && *kind == LinkKind::Anchor));
    let focused = doc.lines[0].iter().find(|s| s.text == "→Pricing").unwrap();
    assert!(focused.style.reversed && focused.style.underlined);
}

#[test]
fn code_blocks_are_boxed_and_checked() {
    let doc = render_document(
        "```rust\nfn main() {}\nlet x;\n```\nafter",
        20,
        &glyphs(),
        None,
        |tag: &str, src: &str| {
            if tag == "rust" && src == "fn main() {}\nlet x;" {
                Some(Err("bad".to_string()))
            } else {
                Some(Ok(()))
            }
        },
    );
    assert_eq!(doc.lines.len(), 5);
    assert_eq!(texts(&doc, 0)[0], "┌ rust");
    assert_eq!(texts(&doc, 0)[1], " syntax x bad");
    assert_eq!(doc.lines[0][1].style.tone, Tone::Bad);
    assert_eq!(joined(&doc, 1), "│ fn main() {}");
    assert_eq!(joined(&doc, 3), format!("└{}", "─".repeat(19)));
    assert_eq!(joined(&doc, 4), "after");
}

#[test]
fn tables_box_when_they_fit_and_fall_back_when_not() {
    let doc = render_document("| a | bb |\n|---|---|\n| c | d |", 40, &glyphs(), None, |_: &str, _: &str| None);
    assert_eq!(joined(&doc, 0), "┌───┬────┐");
    assert_eq!(joined(&doc, 1), "│ a │ bb │");
    assert!(doc.lines[1][1].style.bold);
    assert_eq!(joined(&doc, 2), "├───┼────┤");
    assert_eq!(joined(&doc, 3), "│ c │ d  │");
    assert_eq!(joined(&doc, 4), "└───┴────┘");
    assert_eq!(doc.lines.len(), 5);

    let doc = render_document("| aaaaaaaa | bbbbbbbb |", 10, &glyphs(), None, |_: &str, _: &str| None);
    assert_eq!(doc.lines.len(), 1);
    assert_eq!(joined(&doc, 0), "| aaaaaaaa | bbbbbbbb |");
}

#[test]
fn lists_quotes_and_rules() {
    let doc = render_document("- one\n  2. two\n> quoted\n***\n- [x] done", 30, &glyphs(), None, |_: &str, _: &str| None);
    assert_eq!(texts(&doc, 0)[0], "• ");
    assert_eq!(joined(&doc, 0), "• one");
    assert_eq!(texts(&doc, 1)[0], "  2. ");
    assert_eq!(joined(&doc, 2), "│ quoted");
    assert_eq!(joined(&doc, 3), "─".repeat(30));
    assert_eq!(joined(&doc, 4), "☑ done");
}

#[test]
fn long_paragraphs_wrap_at_words() {
    let doc = render_document("alpha beta gamma delta", 10, &glyphs(), None, |_: &str, _: &str| None);
    let lines: Vec<String> = (0..doc.lines.len()).map(|i| joined(&doc, i)).collect();
    assert_eq!(lines, vec!["alpha beta ", "gamma ", "delta"]);
}

#[test]
fn inline_markup_splits_into_styled_fragments() {
    let mut links: Vec<FocusTarget> = Vec::new();
    let base = TextStyle::of(Tone::Plain);
    let frags = parse_inline(&chars("a **b** *c* `d` [e](https://x) \\[f](g)"), base, None, &mut links);
    let shown: Vec<String> = frags.iter().map(|f| f.text.iter().collect()).collect();
    assert_eq!(shown, vec!["a ", "b", " ", "c", " ", "d", " ", "e", " \\[f](g)"]);
    assert!(frags[1].style.bold && !frags[1].style.italic);
    assert!(frags[3].style.italic);
    assert!(frags[5].style.faint);
    assert_eq!(frags[7].style.tone, Tone::Accent);
    assert_eq!(frags[7].focus, Some(0));
    assert_eq!(links.len(), 1);
    assert_eq!(links[0].line, usize::MAX);
}

#[test]
fn wrapping_drops_leading_spaces_and_places_targets() {
    let mut lines = Vec::new();
    let mut links = vec![FocusTarget { line: usize::MAX, kind: FocusKind::Footnote("n".into()) }];
    let frags = vec![
        Frag { text: chars("aaaa bbbb"), style: TextStyle::of(Tone::Plain), focus: None },
        Frag { text: chars(" cc"), style: TextStyle::of(Tone::Accent), focus: Some(0) },
    ];
    push_wrapped(&mut lines, &mut links, &frags, 8, &Vec::new(), &Vec::new());
    let shown: Vec<String> = lines.iter().map(|l| l.iter().map(|s| s.text.clone()).collect::<String>()).collect();
    assert_eq!(shown, vec!["aaaa ", "bbbb cc"]);
    assert_eq!(links[0].line, 1);
}

#[test]
fn list_markers_are_recognised() {
    let m = |s: &str| list_marker(&chars(s)).map(|(a, b)| (a.iter().collect::<String>(), b.iter().collect::<String>()));
    assert_eq!(m("- [ ] todo"), Some(("☐".into(), "todo".into())));
    assert_eq!(m("12) twelve"), Some(("12.".into(), "twelve".into())));
    assert_eq!(m("12 twelve"), None);
    assert_eq!(m("-nope"), None);
}

fn all_text(doc: &RenderedDoc) -> String {
    (0..doc.lines.len()).map(|i| joined(doc, i) + "\n").collect()
}

#[test]
fn renderer_maps_links_headings_and_footnotes() {
    let body = "# Title\n\nSee [other](./other.md) and a note.[^src]\n\n```python\nx = 1\n```\n\n| a | b |\n|---|---|\n| 1 | 2 |\n\n[^src]: The source\n";
    let doc = render_document(body, 60, &glyphs(), None, |_: &str, _: &str| None);
    assert_eq!(doc.headings.len(), 1);
    assert_eq!(doc.links.len(), 2); // one link + one footnote ref
    assert!(doc.footnote_defs.iter().any(|(label, _)| label == "src"));
    let text = all_text(&doc);
    assert!(text.contains("→other"));
    // No checker answers for the block, so it renders with no badge at all.
    assert!(!text.contains("syntax"), "no verdict without a parser: {text}");
    assert!(text.contains("│ 1 │ 2 │"), "table box-drawn: {text}");
}

#[test]
fn renderer_survives_adversarial_input() {
    for body in [
        "```\nunclosed fence",
        "[unclosed link](nowhere",
        "**unclosed bold and `code",
        "| lonely table cell",
        "日本語のテキストが折り返される長い行です。日本語のテキストが折り返される長い行です。",
        "",
    ] {
        let doc = render_document(body, 20, &glyphs(), None, |_: &str, _: &str| None);
        let _ = doc.lines.len(); // must not panic
    }
}

#[test]
fn renderer_expands_wikilinks_into_anchor_links() {
    let body =
        "# Title\n\nSee [[Pricing Tiers]] and `[[not a link]]`.\n\n## Pricing Tiers\n\nText.\n";
    let doc = render_document(body, 60, &glyphs(), None, |_: &str, _: &str| None);
    assert_eq!(doc.links.len(), 1, "{:?}", doc.links);
    match &doc.links[0].kind {
        FocusKind::Link { text, target, kind } => {
            assert_eq!(text, "Pricing Tiers");
            assert_eq!(target, "#pricing-tiers");
            assert_eq!(*kind, LinkKind::Anchor);
        }
        other => panic!("expected a link focus target, got {other:?}"),
    }
    let text = all_text(&doc);
    assert!(text.contains("→Pricing Tiers"), "{text}");
    assert!(text.contains("[[not a link]]"), "code span verbatim: {text}");
}
