use okf::links::{extract_links, LinkKind};
use okf::markdown::{
    expand_wikilinks, extract_headings, heading_slug, rewrite_markdown_links, LinkRewriteAction,
};

#[test]
fn test_heading_slug() {
    assert_eq!(heading_slug("Pricing Tiers"), "pricing-tiers");
    assert_eq!(heading_slug("## Deep Heading!"), "deep-heading");
    assert_eq!(
        heading_slug("Special_Chars & Symbols"),
        "special-chars-symbols"
    );
}

#[test]
fn test_extract_headings() {
    let md = "\
# Top Heading

Some content.

```python
# Not a heading
pass
```

## Sub Heading

~~~bash
# Also not a heading
~~~

### Third Heading
";
    let headings = extract_headings(md);
    assert_eq!(headings.len(), 3);
    assert_eq!(headings[0].level, 1);
    assert_eq!(headings[0].text, "Top Heading");
    assert_eq!(headings[0].slug(), "top-heading");

    assert_eq!(headings[1].level, 2);
    assert_eq!(headings[1].text, "Sub Heading");
    assert_eq!(headings[1].slug(), "sub-heading");

    assert_eq!(headings[2].level, 3);
    assert_eq!(headings[2].text, "Third Heading");
    assert_eq!(headings[2].slug(), "third-heading");
}

#[test]
fn test_rewrite_markdown_links() {
    let body = "\
# Title

See [User Guide](../guides/user.md) and [Profile](/users/profile.md#info).
Also `[Code Link](../not/a/link.md)` should not change.

```python
# [Python Link](../ignored.md)
pass
```
";

    let (rewritten, count) = rewrite_markdown_links(body, |link, _| {
        if link.target.starts_with("../guides/user.md") {
            LinkRewriteAction::Rewrite("../../docs/user.md".to_string())
        } else if link.target.starts_with("/users/profile.md") {
            LinkRewriteAction::Unlink
        } else {
            LinkRewriteAction::Keep
        }
    });

    assert_eq!(count, 2);
    assert!(rewritten.contains("[User Guide](../../docs/user.md)"));
    assert!(rewritten.contains("and Profile."));
    assert!(rewritten.contains("`[Code Link](../not/a/link.md)`"));
    assert!(rewritten.contains("# [Python Link](../ignored.md)"));
}

#[test]
fn test_expand_wikilinks() {
    let body = "# Title\n\nSee [[Pricing Tiers]] and [[#Explicit]] next.\n\n`[[not a link]]`\n\n```python\n[[in a fence]]\n```\n";
    let (out, count) = expand_wikilinks(body);
    assert_eq!(count, 2);
    assert!(out.contains("[Pricing Tiers](#pricing-tiers)"));
    assert!(out.contains("[Explicit](#explicit)"));
    assert!(out.contains("`[[not a link]]`"));
    assert!(out.contains("[[in a fence]]"));
}

#[test]
fn wikilinks_expand_to_heading_anchors() {
    let (out, n) = expand_wikilinks(
        "[[Pricing]] [[#Notes]] [[plans/roadmap]] [[plans/roadmap#Milestone 2]] \
         [[plans/roadmap.md#Deploy]] [[https://example.com/a]]",
    );
    assert_eq!(n, 6);
    assert!(out.contains("[Pricing](#pricing)"));
    assert!(out.contains("[Notes](#notes)"));
    assert!(out.contains("[plans/roadmap](plans/roadmap)"));
    assert!(
        out.contains("[Milestone 2](plans/roadmap#milestone-2)"),
        "{out}"
    );
    assert!(out.contains("[Deploy](plans/roadmap.md#deploy)"), "{out}");
    assert!(out.contains("[https://example.com/a](https://example.com/a)"));
}

#[test]
fn wikilinks_reject_brackets_and_escaped_openers() {
    let (out, n) = expand_wikilinks("[[a [b]] [[a] [[b \\[[escaped]]");
    assert_eq!(n, 0);
    assert_eq!(out, "[[a [b]] [[a] [[b \\[[escaped]]");
}

#[test]
fn wikilink_heading_targets_survive_reparse() {
    let body = "# Pricing\n\nSee [[Pricing]] above.\n";
    let (expanded, _) = expand_wikilinks(body);
    let links = extract_links(&expanded);
    assert_eq!(links.len(), 1);
    assert_eq!(links[0].text, "Pricing");
    assert_eq!(links[0].target, "#pricing");
    assert_eq!(links[0].kind, LinkKind::Anchor);
}

#[test]
fn heading_slug_keeps_unicode_letters_and_collapses_separators() {
    assert_eq!(heading_slug("Café  au -- Lait"), "café-au-lait");
    assert_eq!(heading_slug(""), "");
}

#[test]
fn expanding_text_without_wikilinks_changes_nothing() {
    let body = "plain [link](a.md) and `[[code]]`\n";
    let (out, n) = expand_wikilinks(body);
    assert_eq!(n, 0);
    assert_eq!(out, body);
}

#[test]
fn keeping_every_link_changes_nothing() {
    let body = "See [a](x.md) and [b](y.md \"title\").\n";
    let (out, n) = rewrite_markdown_links(body, |_, _| LinkRewriteAction::Keep);
    assert_eq!(n, 0);
    assert_eq!(out, body);
}

#[test]
fn slugging_a_slug_changes_nothing() {
    for text in ["## Pricing Tiers", "  Milestone 2: Q3 -- Launch  ", "Café au_lait", "---", ""] {
        let once = heading_slug(text);
        assert_eq!(heading_slug(&once), once);
    }
    assert_eq!(heading_slug("some-heading"), "some-heading");
}
