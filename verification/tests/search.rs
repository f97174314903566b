use okf::fuzzy::fuzzy_match;
use okf::concept_id::ConceptId;
use okf::lifecycle::{Status, TrustTier};
use okf::document::Document;
use okf::search::{
    find_substring_smart_case, search_bodies_indexed, window, BodyHit, Filter, Query,
    SearchEntry, SearchIndex,
};
use okf::site::escape_js_unsafe;

#[test]
fn matches_segment_initials() {
    let (score, idx) = fuzzy_match("pte", "policies/travel_expenses").unwrap();
    assert!(score > 0);
    assert_eq!(idx, vec![0, 9, 16]);
}

#[test]
fn prefers_boundary_matches() {
    let (loose, _) = fuzzy_match("te", "notes").unwrap();
    let (boundary, _) = fuzzy_match("te", "travel_expenses").unwrap();
    assert!(boundary > loose);
}

#[test]
fn non_subsequence_is_none() {
    assert!(fuzzy_match("xyz", "policies").is_none());
    assert!(fuzzy_match("aa", "a").is_none());
}

#[test]
fn smart_case() {
    assert!(fuzzy_match("Pol", "policies").is_none());
    assert!(fuzzy_match("pol", "Policies").is_some());
}

#[test]
fn query_syntax_parses_filters() {
    let q = Query::parse("trav #hr type:Policy tier:unverified is:stale is:broken");
    assert_eq!(q.text, "trav");
    assert_eq!(q.filters.len(), 5);
    assert!(q.filters.contains(&Filter::Tag("hr".into())));
    assert!(q.filters.contains(&Filter::Type("Policy".into())));
    assert!(q.filters.contains(&Filter::Tier(TrustTier::Unverified)));
    assert!(q.filters.contains(&Filter::Stale));
    assert!(q.filters.contains(&Filter::Broken));
}

#[test]
fn smart_case_substring_finds_exact_for_uppercase_query() {
    assert_eq!(
        find_substring_smart_case("Mileage", "the Mileage rate"),
        Some(4)
    );
    assert_eq!(
        find_substring_smart_case("mileage", "The MILEAGE rate"),
        Some(4)
    );
    assert_eq!(find_substring_smart_case("xyz", "the Mileage rate"), None);
}

#[test]
fn window_snips_long_lines_with_ellipses() {
    let line = "a".repeat(300);
    let (snippet, offset) = window(&line, 150, 1);
    assert!(snippet.starts_with('…'));
    assert!(snippet.ends_with('…'));
    assert_eq!(offset, 63);
    let (snippet, offset) = window("short line", 6, 4);
    assert_eq!(snippet, "short line");
    assert_eq!(offset, 6);
}

#[test]
fn window_snaps_to_char_boundaries() {
    let line = "héllo wörld ünïcode";
    let (snippet, offset) = window(line, 1, 1);
    assert!(!snippet.is_empty());
    assert!(offset < snippet.len());
}

#[test]
fn escapes_html_breaking_bytes() {
    let mut s = String::from("a<b&c\u{2028}d\u{2029}e");
    escape_js_unsafe(&mut s);
    assert_eq!(s, "a\\u003cb\\u0026c\\u2028d\\u2029e");
    assert!(!s.contains('<'));
    assert!(!s.contains('&'));
}

#[test]
fn fuzzy_score_of_an_exact_prefix_beats_a_scattered_match() {
    let (prefix, idx) = fuzzy_match("trav", "travel").unwrap();
    assert_eq!(idx, vec![0, 1, 2, 3]);
    let (scattered, idx) = fuzzy_match("trav", "xtxrxaxv").unwrap();
    assert_eq!(idx, vec![1, 3, 5, 7]);
    assert!(prefix > scattered);
}

#[test]
fn an_empty_query_matches_with_no_positions() {
    let (score, idx) = fuzzy_match("", "anything").unwrap();
    assert_eq!(score, 0);
    assert!(idx.is_empty());
    let (_, idx) = fuzzy_match(" p ", "policies").unwrap();
    assert_eq!(idx, vec![0]);
}

#[test]
fn smart_case_substring_on_multibyte_lines_counts_bytes() {
    assert_eq!(find_substring_smart_case("rate", "café rate"), Some(6));
    assert_eq!(find_substring_smart_case("", "abc"), None);
}

#[test]
fn query_words_that_look_like_filters_but_are_not_stay_text() {
    let q = Query::parse("  hello   is:nothing  world ");
    assert_eq!(q.text, "hello is:nothing world");
    assert!(q.filters.is_empty());
    let q = Query::parse("status:draft tier:human-reviewed");
    assert_eq!(q.text, "");
    assert!(q.filters.contains(&Filter::Status("draft".into())));
    assert!(q.filters.contains(&Filter::Tier(TrustTier::HumanReviewed)));
}

#[test]
fn escaping_leaves_plain_text_alone() {
    let mut s = String::from("{\"a\":\"b c\"}");
    escape_js_unsafe(&mut s);
    assert_eq!(s, "{\"a\":\"b c\"}");
}

fn entry(id: &str, title: &str) -> SearchEntry {
    SearchEntry {
        id: ConceptId::parse(id).unwrap(),
        title: title.to_string(),
        description: String::new(),
        tags: Vec::new(),
        headings: Vec::new(),
        type_: "Policy".to_string(),
        tier: TrustTier::Unverified,
        status: Status::Draft,
        stale: false,
        broken: false,
    }
}

#[test]
fn search_ranks_by_score_then_id_and_truncates() {
    let index = SearchIndex {
        entries: vec![
            entry("travel/expenses", "Travel expenses"),
            entry("notes", "Notes"),
            entry("travel/booking", "Booking travel"),
        ],
    };
    let hits = index.search("trav", 10);
    let ids: Vec<String> = hits.iter().map(|h| h.id.to_path()).collect();
    assert_eq!(ids, vec!["travel/booking", "travel/expenses"]);
    let hits = index.search("trav", 1);
    assert_eq!(hits.len(), 1);
    assert_eq!(hits[0].id.to_path(), "travel/booking");
    let hits = index.search("trav is:stale", 10);
    assert!(hits.is_empty());
}

/// The concept files of a small bundle exercising every `SearchEntry`
/// field and filter (stale/healthy, broken/whole links, tags, types, tiers,
/// statuses), in bundle order.
fn fixture_files() -> Vec<(&'static str, &'static str)> {
    vec![
        (
            "policies/remote_work",
            "---\ntype: Policy\ntitle: Remote work policy\ntags: [hr]\nstatus: draft\n---\n\n\
             Remote arrangements require manager approval.\n",
        ),
        (
            "policies/travel",
            "---\ntype: Policy\ntitle: Travel and expense policy\n\
             description: Rules and standard per-mile reimbursement rates.\n\
             tags: [hr, finance, travel]\nstatus: stable\nstale_after: 2026-01-01T00:00:00Z\n\
             generated: { by: agent/gemini, at: 2026-06-20T22:53:05Z }\n\
             verified: { by: human:sarah, at: 2026-06-25T09:00:00Z }\n---\n\n\
             # Reimbursement rates\n\n\
             Employees are reimbursed for personal vehicle mileage at 0.67 per mile.\n\
             The rate is confirmed for all standard Mileage claims.\n",
        ),
        (
            "references/rates",
            "---\ntype: Reference\ntitle: Reimbursement rates reference\ntags: [finance]\n\
             status: stable\n---\n\n\
             See [the travel policy](../policies/travel.md) for Mileage rates.\n\
             This one links to a [missing concept](missing.md).\n",
        ),
    ]
}

/// The index the fixture's frontmatter describes on 2026-09-14.
fn fixture_index() -> SearchIndex {
    let mut remote = entry("policies/remote_work", "Remote work policy");
    remote.tags = vec!["hr".to_string()];
    let mut travel = entry("policies/travel", "Travel and expense policy");
    travel.description = "Rules and standard per-mile reimbursement rates.".to_string();
    travel.tags = vec!["hr".to_string(), "finance".to_string(), "travel".to_string()];
    travel.headings = vec!["Reimbursement rates".to_string()];
    travel.tier = TrustTier::HumanReviewed;
    travel.status = Status::Stable;
    travel.stale = true;
    let mut rates = entry("references/rates", "Reimbursement rates reference");
    rates.tags = vec!["finance".to_string()];
    rates.type_ = "Reference".to_string();
    rates.status = Status::Stable;
    rates.broken = true;
    SearchIndex { entries: vec![remote, travel, rates] }
}

fn bodies_of(files: &[(&str, &str)]) -> Vec<Option<String>> {
    files
        .iter()
        .map(|(_, text)| Document::parse(text).ok().map(|d| d.body))
        .collect()
}

fn search_bodies(index: &SearchIndex, files: &[(&str, &str)], query: &str, limit: usize) -> Vec<BodyHit> {
    search_bodies_indexed(index, &bodies_of(files), query, limit)
}

#[test]
fn search_filters_compose_and_free_text_scores() {
    let index = fixture_index();

    // Segment initials find the concept; heading hits trail concept rows.
    let mut hits = index.search("pte", 10);
    assert!(
        hits.iter()
            .any(|h| h.id.to_path() == "policies/travel" && h.heading.is_none())
    );
    let top = hits.remove(0);
    assert_eq!(top.id.to_path(), "policies/travel");

    // Filters compose: #finance narrows to travel (tag) + rates (tag).
    let hits = index.search("#finance", 10);
    let ids: Vec<String> = hits.iter().map(|h| h.id.to_path()).collect();
    assert_eq!(ids.len(), 2);
    assert!(ids.contains(&"policies/travel".to_string()));
    assert!(ids.contains(&"references/rates".to_string()));

    // is:stale narrows to travel; is:broken to rates.
    let hits = index.search("is:stale", 10);
    assert_eq!(hits.len(), 1);
    assert_eq!(hits[0].id.to_path(), "policies/travel");
    let hits = index.search("is:broken", 10);
    assert_eq!(hits.len(), 1);
    assert_eq!(hits[0].id.to_path(), "references/rates");

    // tier: travel is human-reviewed, remote and rates are unverified.
    let hits = index.search("tier:human-reviewed", 10);
    assert_eq!(hits.len(), 1);
    assert_eq!(hits[0].id.to_path(), "policies/travel");
    let hits = index.search("tier:unverified", 10);
    assert_eq!(hits.len(), 2, "remote_work and rates");

    // type: and status: filters.
    let hits = index.search("type:Reference", 10);
    assert_eq!(hits.len(), 1);
    assert_eq!(hits[0].id.to_path(), "references/rates");
    let hits = index.search("status:draft", 10);
    assert_eq!(hits.len(), 1);
    assert_eq!(hits[0].id.to_path(), "policies/remote_work");

    // Limit truncates.
    let hits = index.search("", 2);
    assert_eq!(hits.len(), 2);

    // Heading-level hit: the body heading is findable.
    let hits = index.search("reimb rates", 10);
    assert!(
        hits.iter()
            .any(|h| h.heading.as_deref() == Some("Reimbursement rates"))
    );
}

#[test]
fn search_body_hits_line_numbers_and_smart_case() {
    let files = fixture_files();
    let index = fixture_index();

    // Case-insensitive by default, one hit per line, concept then line order.
    let hits = search_bodies(&index, &files, "mileage", 10);
    assert_eq!(hits.len(), 3, "two lines in travel, one in rates");
    let travel: Vec<&BodyHit> = hits
        .iter()
        .filter(|h| h.id.to_path() == "policies/travel")
        .collect();
    assert_eq!(travel.len(), 2);
    assert_eq!(travel[0].line, 3, "first mileage line in the body");
    assert_eq!(travel[1].line, 4);
    assert!(travel[0].snippet.contains("mile"));

    // Smart case: an uppercase query forces exact-case matches only.
    let hits = search_bodies(&index, &files, "Mileage", 10);
    assert_eq!(hits.len(), 2);
    let exact_travel = hits
        .iter()
        .find(|h| h.id.to_path() == "policies/travel")
        .unwrap();
    assert_eq!(exact_travel.line, 4);

    // Filters narrow the scan: #finance keeps travel and rates.
    let hits = search_bodies(&index, &files, "#finance mileage", 10);
    assert_eq!(hits.len(), 3);
    assert!(
        hits.iter()
            .all(|h| h.id.to_path() != "policies/remote_work")
    );
    // is:broken narrows to rates' one mileage line.
    let hits = search_bodies(&index, &files, "is:broken mileage", 10);
    assert_eq!(hits.len(), 1);
    assert_eq!(hits[0].id.to_path(), "references/rates");

    // Limit truncates across concepts.
    let hits = search_bodies(&index, &files, "mileage", 2);
    assert_eq!(hits.len(), 2);

    // Empty free text scans nothing.
    assert!(search_bodies(&index, &files, "", 10).is_empty());
    assert!(search_bodies(&index, &files, "#hr", 10).is_empty());
}

#[test]
fn search_body_snippets_are_windowed() {
    let mut files = fixture_files();
    files.insert(
        0,
        (
            "policies/long",
            "---\ntype: Policy\ntitle: Long line\n---\n\n\
             This line contains the keyword somewhere in a very long stretch of \
             text that goes on and on so the window has to trim it down to size.\n",
        ),
    );
    let mut index = fixture_index();
    index.entries.insert(0, entry("policies/long", "Long line"));

    // A long line: the snippet is windowed and carries an offset for
    // highlighting.
    let hits = search_bodies(&index, &files, "keyword", 10);
    let hit = hits.iter().find(|h| h.id.to_path() == "policies/long");
    assert!(hit.is_some());
    let hit = hit.unwrap();
    assert!(hit.snippet.contains("keyword"));
    // The snippet marks where the match starts within the window.
    let matched = &hit.snippet[hit.start..hit.start + "keyword".len()];
    assert_eq!(matched, "keyword");
}

#[test]
fn an_empty_free_text_query_lists_entries_in_index_order() {
    let index = SearchIndex {
        entries: vec![
            entry("travel/expenses", "Travel expenses"),
            entry("notes", "Notes"),
            entry("travel/booking", "Booking travel"),
        ],
    };
    let ids: Vec<String> = index.search("", 10).iter().map(|h| h.id.to_path()).collect();
    assert_eq!(ids, vec!["travel/expenses", "notes", "travel/booking"]);
    let ids: Vec<String> = index.search("status:draft", 2).iter().map(|h| h.id.to_path()).collect();
    assert_eq!(ids, vec!["travel/expenses", "notes"]);
}

#[test]
fn the_window_offset_skips_trimmed_leading_blanks() {
    let line = format!("aa {}keyword", "c".repeat(59));
    let (snippet, offset) = window(&line, 62, 7);
    assert_eq!(snippet, format!("…{}keyword", "c".repeat(59)));
    assert_eq!(offset, 62);
    assert_eq!(&snippet[offset..offset + 7], "keyword");
}

#[test]
fn a_zero_limit_asks_for_no_body_hits() {
    let files = fixture_files();
    let index = fixture_index();
    assert!(search_bodies(&index, &files, "mileage", 0).is_empty());
    assert_eq!(search_bodies(&index, &files, "mileage", 1).len(), 1);
}
