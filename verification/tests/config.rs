//! Configuration tests. Each document below is written as the YAML value the
//! quoted file text parses to, with the file text beside it.
use okf::config::{
    config_path, fonts_dir, ConfigError, ConfigErrorKind, FontFormat, FontStyle, Scheme,
    SiteConfig, Themes,
};
use okf::css::{Color, FamilyList};
use okf::yaml::Value;

fn s(text: &str) -> Value {
    Value::String(text.to_string())
}

fn integer(n: i64) -> Value {
    Value::Int(n)
}

fn list(items: Vec<Value>) -> Value {
    Value::Sequence(items)
}

fn map(entries: Vec<(&str, Value)>) -> Value {
    Value::Mapping(entries.into_iter().map(|(k, v)| (s(k), v)).collect())
}

/// `site:` with the given entries.
fn site(entries: Vec<(&str, Value)>) -> Value {
    map(vec![("site", map(entries))])
}

/// `site: fonts:` with the given entries.
fn fonts(entries: Vec<(&str, Value)>) -> Value {
    site(vec![("fonts", map(entries))])
}

/// `site: themes:` with the given items.
fn themes(items: Vec<Value>) -> Value {
    site(vec![("themes", list(items))])
}

fn config(doc: &Value) -> SiteConfig {
    SiteConfig::from_document(doc).expect("config parses")
}

fn error(doc: &Value) -> String {
    SiteConfig::from_document(doc)
        .expect_err("config is rejected")
        .describe()
}

fn kind_text(e: ConfigErrorKind) -> String {
    e.describe()
}

#[test]
fn empty_and_sectionless_files_configure_nothing() {
    // "" and "# just a comment\n"
    assert_eq!(config(&Value::Null), SiteConfig::default());
    // "site:\n"
    assert_eq!(config(&map(vec![("site", Value::Null)])), SiteConfig::default());
    // "site:\n  fonts:\n"
    assert_eq!(config(&site(vec![("fonts", Value::Null)])), SiteConfig::default());
}

#[test]
fn unknown_sections_are_noted_unknown_keys_are_rejected() {
    // "studio:\n  theme: dark\nsite:\n  title: Docs\n"
    let config = config(&map(vec![
        ("studio", map(vec![("theme", s("dark"))])),
        ("site", map(vec![("title", s("Docs"))])),
    ]));
    assert_eq!(config.title.as_deref(), Some("Docs"));
    assert_eq!(config.notes.len(), 1);
    assert!(
        config.notes[0].contains("unknown section `studio`"),
        "note names the section: {:?}",
        config.notes
    );

    // "site:\n  titel: Docs\n"
    let err = error(&site(vec![("titel", s("Docs"))]));
    assert!(err.contains("unknown key `titel`"), "{err}");
    assert!(err.contains("known keys: title, fonts"), "{err}");
    // "site:\n  fonts:\n    bodyy: serif\n"
    let err = error(&fonts(vec![("bodyy", s("serif"))]));
    assert!(err.contains("known keys: body, code, files"), "{err}");
}

#[test]
fn wrong_types_are_rejected_with_the_path() {
    // "site: nope\n"
    assert!(error(&map(vec![("site", s("nope"))])).contains("`site` must be a mapping"));
    // "- a\n- b\n"
    assert!(error(&list(vec![s("a"), s("b")])).contains("must be a mapping of sections"));
    // "site:\n  title: \"  \"\n"
    assert!(error(&site(vec![("title", s("  "))])).contains("must not be empty"));
    // "site:\n  fonts:\n    body: [serif]\n"
    assert!(error(&fonts(vec![("body", list(vec![s("serif")]))]))
        .contains("`site.fonts.body` must be a string"));
    // "site:\n  fonts:\n    files: {}\n"
    assert!(error(&fonts(vec![("files", map(vec![]))]))
        .contains("`site.fonts.files` must be a list"));
}

#[test]
fn family_lists_quote_names_and_keep_generic_keywords_bare() {
    // body: "Newsreader, Georgia, serif"; code: "JetBrains Mono , ui-monospace,monospace"
    let config = config(&fonts(vec![
        ("body", s("Newsreader, Georgia, serif")),
        ("code", s("JetBrains Mono , ui-monospace,monospace")),
    ]));
    assert_eq!(
        config.fonts.body.as_ref().map(FamilyList::as_css),
        Some("\"Newsreader\", \"Georgia\", serif")
    );
    assert_eq!(
        config.fonts.code.as_ref().map(FamilyList::as_css),
        Some("\"JetBrains Mono\", ui-monospace, monospace")
    );
    assert!(!config.fonts.is_empty());
}

#[test]
fn family_names_cannot_carry_css() {
    for raw in [
        "Evil\"; } :root { color: red } .x {",
        "Evil'",
        "url(http://x)",
        "Font\\65",
        "A; B",
        "A(B)",
        "A/*x*/B",
        "A\nB",
        "A\tB",
    ] {
        let err = kind_text(
            FamilyList::parse(raw, "site.fonts.body").expect_err("family name is rejected"),
        );
        assert!(
            err.contains("`site.fonts.body`"),
            "rejected with the path: {err}"
        );
    }
    // body: "Ev!l" / "Serif,,Georgia" / " "
    assert!(error(&fonts(vec![("body", s("Ev!l"))])).contains("contains '!'"));
    assert!(error(&fonts(vec![("body", s("Serif,,Georgia"))])).contains("empty family"));
    assert!(error(&fonts(vec![("body", s(" "))])).contains("empty family"));
}

fn face(entries: Vec<(&str, Value)>) -> Value {
    map(entries)
}

#[test]
fn font_files_validate_names_weights_and_styles() {
    let config = config(&fonts(vec![(
        "files",
        list(vec![
            face(vec![
                ("family", s("Newsreader")),
                ("file", s("newsreader-400.woff2")),
                ("weight", integer(400)),
            ]),
            face(vec![
                ("family", s("Newsreader")),
                ("file", s("nr-700i.ttf")),
                ("weight", s("700")),
                ("style", s("italic")),
            ]),
        ]),
    )]));
    let files = &config.fonts.files;
    assert_eq!(files.len(), 2);
    assert_eq!(files[0].family(), "Newsreader");
    assert_eq!(files[0].file(), "newsreader-400.woff2");
    assert_eq!(files[0].format(), FontFormat::Woff2);
    assert_eq!(files[0].weight(), Some(400));
    assert_eq!(files[0].style(), FontStyle::Normal);
    assert_eq!(files[1].format(), FontFormat::Ttf);
    assert_eq!(files[1].weight(), Some(700));
    assert_eq!(files[1].style(), FontStyle::Italic);

    let bad = |file: &str| {
        error(&fonts(vec![(
            "files",
            list(vec![face(vec![("family", s("F")), ("file", s(file))])]),
        )]))
    };
    assert!(bad("../../etc/passwd").contains("starts with a dot"));
    assert!(bad("a/b.woff2").contains("contains '/'"));
    assert!(bad("sub\\b.woff2").contains("contains '\\\\'"));
    assert!(bad("..woff2").contains("starts with a dot"));
    assert!(bad("a..b.woff2").contains("contains `..`"));
    assert!(bad("font.css").contains("not a font format"));
    assert!(bad("font").contains("no file extension"));
    assert!(error(&fonts(vec![(
        "files",
        list(vec![face(vec![
            ("family", s("F")),
            ("file", s("f.woff2")),
            ("weight", integer(0))
        ])])
    )]))
    .contains("between 1 and 1000"));
    assert!(error(&fonts(vec![(
        "files",
        list(vec![face(vec![
            ("family", s("F")),
            ("file", s("f.woff2")),
            ("style", s("slanted"))
        ])])
    )]))
    .contains("normal, italic, oblique"));
    assert!(error(&fonts(vec![(
        "files",
        list(vec![face(vec![("file", s("f.woff2"))])])
    )]))
    .contains("needs a string `family`"));
    assert!(error(&fonts(vec![(
        "files",
        list(vec![face(vec![("family", s("F"))])])
    )]))
    .contains("needs a string `file`"));
    assert!(error(&fonts(vec![("files", list(vec![s("nope")]))])).contains("must be a mapping"));
}

#[test]
fn emitted_css_is_font_face_plus_token_override() {
    let config = config(&fonts(vec![
        ("body", s("Newsreader, serif")),
        (
            "files",
            list(vec![
                face(vec![
                    ("family", s("Newsreader")),
                    ("file", s("nr-400.woff2")),
                    ("weight", integer(400)),
                ]),
                face(vec![
                    ("family", s("Newsreader")),
                    ("file", s("nr-700i.otf")),
                    ("weight", integer(700)),
                    ("style", s("italic")),
                ]),
            ]),
        ),
    ]));
    let css = config.fonts.to_css();
    assert!(css.starts_with("/* Generated by `okf site`"), "{css}");
    assert!(
        css.contains(
            "@font-face {\n  font-family: \"Newsreader\";\n  \
             src: url(\"fonts/nr-400.woff2\") format(\"woff2\");\n  \
             font-style: normal;\n  font-weight: 400;\n  font-display: swap;\n}\n"
        ),
        "{css}"
    );
    assert!(
        css.contains("src: url(\"fonts/nr-700i.otf\") format(\"opentype\");"),
        "{css}"
    );
    assert!(css.contains("font-style: italic;"), "{css}");
    assert!(
        css.contains(":root {\n  --font-body: \"Newsreader\", serif;\n}\n"),
        "{css}"
    );
    assert!(!css.contains("--font-code"), "{css}");
}

#[test]
fn faces_alone_emit_no_token_override() {
    let config = config(&fonts(vec![(
        "files",
        list(vec![face(vec![("family", s("F")), ("file", s("f.woff"))])]),
    )]));
    let css = config.fonts.to_css();
    assert!(css.contains("format(\"woff\")"), "{css}");
    assert!(!css.contains(":root"), "{css}");
    assert!(!css.contains("font-weight"), "{css}");
}

#[test]
fn themes_emit_one_canonical_block_each() {
    let config = config(&themes(vec![
        map(vec![
            ("id", s("nord")),
            ("label", s("Nord")),
            ("scheme", s("dark")),
            (
                "colors",
                map(vec![("ink", s("#ECEFF4")), ("surface", s("#2e3440"))]),
            ),
        ]),
        map(vec![
            ("id", s("paper")),
            ("scheme", s("light")),
            (
                "colors",
                map(vec![("surface", s("oklch(0.98 0.01 90 / 50%)"))]),
            ),
        ]),
    ]));
    assert_eq!(config.themes.len(), 2);
    let themes: Vec<_> = config.themes.iter().iter().collect();
    assert_eq!(themes[0].id(), "nord");
    assert_eq!(themes[0].label(), "Nord");
    assert_eq!(themes[0].scheme(), Scheme::Dark);
    assert_eq!(themes[1].label(), "paper");
    assert_eq!(themes[1].scheme().as_css(), "light");
    assert_eq!(config.settings(), ["themes"]);
    assert_eq!(
        config.themes.to_css(),
        [
            "/* Generated by `okf site` from `.okf/config.yaml`. Do not edit:\n",
            "   rebuild the site instead. Linked after the inline stylesheet, so\n",
            "   these token overrides win the cascade. */\n",
            "\n",
            ":root[data-theme=\"nord\"] {\n",
            "  --surface: #2e3440;\n",
            "  --ink: #eceff4;\n",
            "}\n",
            "\n",
            ":root[data-theme=\"paper\"] {\n",
            "  --surface: oklch(0.98 0.01 90 / 50%);\n",
            "}\n",
        ]
        .concat()
    );
}

#[test]
fn declarations_follow_the_token_order_not_the_authors() {
    let config = config(&themes(vec![map(vec![
        ("id", s("nord")),
        ("scheme", s("dark")),
        (
            "colors",
            map(vec![
                ("danger", s("#bf616a")),
                ("ink", s("#eceff4")),
                ("surface", s("#2e3440")),
            ]),
        ),
    ])]));
    assert!(
        config.themes.to_css().contains(
            ":root[data-theme=\"nord\"] {\n  --surface: #2e3440;\n  \
             --ink: #eceff4;\n  --danger: #bf616a;\n}\n"
        ),
        "{}",
        config.themes.to_css()
    );
}

#[test]
fn a_theme_may_declare_only_a_scheme() {
    for doc in [
        // "site:\n  themes:\n    - id: nord\n      scheme: dark\n"
        themes(vec![map(vec![("id", s("nord")), ("scheme", s("dark"))])]),
        // the same with an empty "colors:"
        themes(vec![map(vec![
            ("id", s("nord")),
            ("scheme", s("dark")),
            ("colors", Value::Null),
        ])]),
    ] {
        let config = config(&doc);
        let theme = config.themes.iter().iter().next().expect("one theme");
        assert_eq!(theme.id(), "nord");
        assert_eq!(theme.label(), "nord");
        assert_eq!(theme.scheme(), Scheme::Dark);
        assert!(!config.themes.is_empty());
        let css = config.themes.to_css();
        assert!(css.starts_with("/* Generated by `okf site`"), "{css}");
        assert!(!css.contains("data-theme"), "{css}");
    }
    assert!(Themes::default().is_empty());
    assert_eq!(Themes::default().len(), 0);
}

fn nord_with(extra: Vec<(&str, Value)>) -> Value {
    let mut entries = vec![("id", s("nord")), ("scheme", s("dark"))];
    entries.extend(extra);
    themes(vec![map(entries)])
}

#[test]
fn theme_keys_and_shapes_are_checked() {
    assert!(error(&site(vec![("themes", map(vec![]))])).contains("`site.themes` must be a list"));
    assert!(error(&themes(vec![s("nope")]))
        .contains("`site.themes[0]` must be a mapping with `id` and `scheme`"));
    let err = error(&nord_with(vec![("colour", s("x"))]));
    assert!(
        err.contains("unknown key `colour` in `site.themes[0]`"),
        "{err}"
    );
    assert!(
        err.contains("known keys: id, label, scheme, colors"),
        "{err}"
    );
    let err = error(&nord_with(vec![("colors", map(vec![("surfase", s("#000"))]))]));
    assert!(
        err.contains("unknown key `surfase` in `site.themes[0].colors`"),
        "{err}"
    );
    assert!(err.contains("surface, ink, edge"), "{err}");
    assert!(error(&themes(vec![map(vec![("scheme", s("dark"))])]))
        .contains("`site.themes[0]` needs a string `id`"));
    assert!(error(&themes(vec![map(vec![("id", s("nord"))])]))
        .contains("`site.themes[0]` needs a `scheme` of `light` or `dark`"));
    assert!(error(&themes(vec![map(vec![("id", s("nord")), ("scheme", s("blue"))])]))
        .contains("`site.themes[0].scheme` must be `light` or `dark`"));
    assert!(error(&nord_with(vec![("label", s("  "))]))
        .contains("`site.themes[0].label` must not be empty"));
}

#[test]
fn theme_ids_are_flat_and_lowercase() {
    let bad = |id: &str| error(&themes(vec![map(vec![("id", s(id)), ("scheme", s("dark"))])]));
    for id in [
        "Nord",
        "1nord",
        "../etc",
        "nord theme",
        "nord\"]",
        "nord;color:red",
        "-nord",
        &"n".repeat(33),
    ] {
        let err = bad(id);
        assert!(err.contains("must match `[a-z][a-z0-9-]{0,31}`"), "{err}");
        assert!(err.contains("`site.themes[0].id`"), "{err}");
    }
    assert!(config(&themes(vec![map(vec![
        ("id", s(&"n".repeat(32))),
        ("scheme", s("dark"))
    ])]))
    .themes
    .iter()
    .iter()
    .next()
    .is_some());
    let err = bad("auto");
    assert!(err.contains("`auto` is reserved"), "{err}");

    let err = error(&themes(vec![
        map(vec![("id", s("nord")), ("scheme", s("dark"))]),
        map(vec![("id", s("nord")), ("scheme", s("light"))]),
    ]));
    assert!(err.contains("`site.themes[1]`"), "{err}");
    assert!(err.contains("duplicate theme id `nord`"), "{err}");
}

#[test]
fn colors_are_re_emitted_from_the_parse() {
    let css = |raw: &str| {
        Color::parse(raw, "site.themes[0].colors.surface")
            .expect("color parses")
            .as_css()
            .to_string()
    };
    assert_eq!(css("#ABC"), "#abc");
    assert_eq!(css("#ABCD"), "#abcd");
    assert_eq!(css(" #2E3440 "), "#2e3440");
    assert_eq!(css("#2E344080"), "#2e344080");
    assert_eq!(css("transparent"), "transparent");
    assert_eq!(css("RGB(46,52 , 64)"), "rgb(46, 52, 64)");
    assert_eq!(css("rgba(46, 52, 64, .5)"), "rgba(46, 52, 64, .5)");
    assert_eq!(css("oklch(0.7 0.1 250)"), "oklch(0.7 0.1 250)");
    assert_eq!(
        css("OKLCH(70% 0.1 250DEG  /  50%)"),
        "oklch(70% 0.1 250deg / 50%)"
    );
    assert_eq!(css("oklch(0.7 NONE -0.5turn)"), "oklch(0.7 none -0.5turn)");
    assert_eq!(css("hsl(210 100% 50% / none)"), "hsl(210 100% 50% / none)");
    assert_eq!(css("lab(52.2% +40.1 59.9)"), "lab(52.2% +40.1 59.9)");
}

#[test]
fn colors_cannot_carry_css() {
    for raw in [
        "var(--x)",
        "url(x)",
        "red",
        "oklch(1 2 3);}",
        "rgb(var(--x))",
        "rgb(1 2 calc(3))",
        "oklch(1 2 3",
        "oklch(1 2 3) ; color: red",
        "#",
        "#12345",
        "#ghijkl",
        "rgb()",
        "rgb(1,,2)",
        "rgb(1, 2, 3,)",
        "rgb(1 2 red)",
        "rgb(1e5 2 3)",
        "hsl(210 100% 50%\")",
        "",
    ] {
        let err = kind_text(
            Color::parse(raw, "site.themes[0].colors.surface").expect_err("color is rejected"),
        );
        assert!(
            err.contains("`site.themes[0].colors.surface`"),
            "rejected with the path: {err}"
        );
    }
    let err = error(&nord_with(vec![(
        "colors",
        map(vec![("ink", s("rgb(1, var(--x))"))]),
    )]));
    assert!(err.contains("`site.themes[0].colors.ink`"), "{err}");
    assert!(
        error(&nord_with(vec![("colors", map(vec![("ink", list(vec![s("black")]))]))]))
            .contains("`site.themes[0].colors.ink` must be a string")
    );
}

#[test]
fn the_default_theme_is_an_id_or_auto() {
    assert_eq!(
        config(&site(vec![("theme", s("auto"))])).theme.as_deref(),
        Some("auto")
    );
    let config = config(&site(vec![
        ("title", s("Docs")),
        ("theme", s("nord")),
        (
            "themes",
            list(vec![map(vec![("id", s("nord")), ("scheme", s("dark"))])]),
        ),
    ]));
    assert_eq!(config.theme.as_deref(), Some("nord"));
    assert_eq!(config.settings(), ["title", "theme", "themes"]);
    assert!(error(&site(vec![("theme", s("Nord"))])).contains("`site.theme`"));
    assert!(error(&site(vec![("theme", s("  "))])).contains("`site.theme` must not be empty"));
    assert!(error(&site(vec![("theme", list(vec![s("nord")]))]))
        .contains("`site.theme` must be a string"));
}

#[test]
fn scalar_titles_keep_their_text_and_later_sections_win() {
    let config = config(&site(vec![("title", integer(-2024))]));
    assert_eq!(config.title.as_deref(), Some("-2024"));
    let config = config_of_two_sites();
    assert_eq!(config.title.as_deref(), Some("Second"));
    assert_eq!(config.theme.as_deref(), Some("sepia"));
    assert_eq!(config.settings(), ["title", "theme"]);
}

fn config_of_two_sites() -> SiteConfig {
    config(&map(vec![
        ("site", map(vec![("title", s("First")), ("theme", s("sepia"))])),
        ("site", map(vec![("title", s("Second"))])),
    ]))
}

#[test]
fn section_names_must_be_strings() {
    let doc = Value::Mapping(vec![(integer(1), Value::Null)]);
    assert_eq!(error(&doc), "section names must be strings");
    let doc = site(vec![]);
    let mut config = config(&doc);
    config.path = None;
    assert_eq!(config, SiteConfig::default());
}

#[test]
fn the_config_file_and_font_dir_live_under_dot_okf() {
    assert_eq!(config_path("bundle"), "bundle/.okf/config.yaml");
    assert_eq!(config_path("bundle/"), "bundle/.okf/config.yaml");
    assert_eq!(config_path(""), ".okf/config.yaml");
    assert_eq!(fonts_dir("/srv/b"), "/srv/b/.okf/fonts");
    let e = ConfigError::invalid("b", "nope");
    assert_eq!(e.path(), "b/.okf/config.yaml");
    assert_eq!(e.describe(), "b/.okf/config.yaml: nope");
    assert!(matches!(e.kind(), ConfigErrorKind::Invalid(m) if m == "nope"));
}

#[test]
fn fonts_settings_are_reported_in_schema_order() {
    let config = config(&fonts(vec![
        ("code", s("monospace")),
        (
            "files",
            list(vec![face(vec![("family", s("F")), ("file", s("f.woff"))])]),
        ),
        ("body", s("serif")),
    ]));
    assert_eq!(config.settings(), ["fonts.body", "fonts.code", "fonts.files"]);
}

#[test]
fn reordering_a_palette_emits_the_same_bytes() {
    let palette = |order: [usize; 3]| {
        let entries = [("danger", "#bf616a"), ("ink", "#eceff4"), ("surface", "#2e3440")];
        let colors = order.iter().map(|&i| (entries[i].0, s(entries[i].1))).collect();
        config(&themes(vec![map(vec![("id", s("nord")), ("scheme", s("dark")), ("colors", map(colors))])]))
    };
    let first = palette([0, 1, 2]).themes.to_css();
    assert_eq!(palette([2, 0, 1]).themes.to_css(), first);
    assert_eq!(palette([1, 2, 0]).themes.to_css(), first);
}

#[test]
fn parsed_values_hold_no_declaration_breakers() {
    let breakers = [';', '{', '}', '\\', '\''];
    for raw in ["#ABC", "transparent", "RGB(46,52 , 64)", "OKLCH(70% 0.1 250DEG  /  50%)"] {
        let css = Color::parse(raw, "c").expect("color parses").as_css().to_string();
        assert!(!css.contains(&breakers[..]), "{css}");
        assert_eq!(css.matches('(').count(), css.matches(')').count());
        assert!(css.matches('(').count() <= 1, "{css}");
    }
    let css = FamilyList::parse("Newsreader, Noto Serif JP, serif", "f")
        .expect("list parses")
        .as_css()
        .to_string();
    assert_eq!(css, "\"Newsreader\", \"Noto Serif JP\", serif");
    assert!(!css.contains(&breakers[..]));
}
