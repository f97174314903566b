//! The site's trust dashboard: the tier, status and freshness tallies, the
//! concept types and the actors behind generation and verification, and the
//! attention queue, rendered as the landing page's HTML.
use crate::chars::{chars_of, string_of};
use crate::concept_id::{string_views, ConceptId};
use crate::lifecycle::{tier_name, Status, TrustTier};
use crate::search::{lex_less, seq_lt};
use crate::slugs::{decimal, decimal_v};
use crate::studio::{insert_ranked, item_view, item_views, push_text, ranked_rows, row_pos, AttentionItem};
use crate::markdown::eq_chars;
use crate::site::{PagePath, SitePage};
use crate::text::{join, join_v, push_all, push_str, views};
use crate::yaml::{int_text, int_text_v};
use vstd::prelude::*;

verus! {

/// What the dashboard reads of one concept.
#[derive(Clone, Debug)]
pub struct DashboardConcept {
    /// The concept's id.
    pub id: ConceptId,
    /// Its display title, the text of links to it.
    pub title: String,
    /// Its trust tier.
    pub tier: TrustTier,
    /// Its lifecycle status.
    pub status: Status,
    /// Whether it is stale today.
    pub stale: bool,
    /// Days from today to its `stale_after` date, when it has one that reads
    /// as a date.
    pub stale_in_days: Option<i64>,
    /// Its `type`, when it has one.
    pub kind_name: Option<String>,
    /// The actor named by `generated.by`, when there is one.
    pub generated_by: Option<String>,
    /// The actor of each `verified` event that names one, in order.
    pub verified_by: Vec<String>,
    /// How many concepts link to it.
    pub in_degree: usize,
    /// How many validation and lint findings it carries.
    pub findings: usize,
}

// ---------------------------------------------------------------------------
// The tallies.
// ---------------------------------------------------------------------------

/// The column of a trust tier: unverified, machine-confirmed, human-reviewed.
pub open spec fn tier_ix(t: TrustTier) -> int {
    match t {
        TrustTier::Unverified => 0,
        TrustTier::MachineConfirmed => 1,
        TrustTier::HumanReviewed => 2,
    }
}

/// The column of a status: draft, stable, deprecated, any other.
pub open spec fn status_ix(s: Status) -> int {
    match s {
        Status::Draft => 0,
        Status::Stable => 1,
        Status::Deprecated => 2,
        Status::Other(_) => 3,
    }
}

/// How many of the concepts sit in tier column `i`.
pub open spec fn tier_count(cs: Seq<DashboardConcept>, i: int) -> nat
    decreases cs.len(),
{
    if cs.len() == 0 {
        0
    } else {
        tier_count(cs.drop_last(), i) + if tier_ix(cs.last().tier) == i { 1nat } else { 0 }
    }
}

/// How many of the concepts sit in status column `i`.
pub open spec fn status_count(cs: Seq<DashboardConcept>, i: int) -> nat
    decreases cs.len(),
{
    if cs.len() == 0 {
        0
    } else {
        status_count(cs.drop_last(), i) + if status_ix(cs.last().status) == i { 1nat } else { 0 }
    }
}

/// A concept that is not stale yet but goes stale within 30 days.
pub open spec fn stale_soon(c: DashboardConcept) -> bool {
    !c.stale && (c.stale_in_days matches Some(d) && 0 <= d <= 30)
}

/// How many of the concepts are stale.
pub open spec fn stale_count(cs: Seq<DashboardConcept>) -> nat
    decreases cs.len(),
{
    if cs.len() == 0 {
        0
    } else {
        stale_count(cs.drop_last()) + if cs.last().stale { 1nat } else { 0 }
    }
}

/// How many of the concepts go stale within 30 days.
pub open spec fn stale_soon_count(cs: Seq<DashboardConcept>) -> nat
    decreases cs.len(),
{
    if cs.len() == 0 {
        0
    } else {
        stale_soon_count(cs.drop_last()) + if stale_soon(cs.last()) { 1nat } else { 0 }
    }
}

/// `(untyped)`
pub open spec fn untyped() -> Seq<char> {
    seq!['(', 'u', 'n', 't', 'y', 'p', 'e', 'd', ')']
}

/// The type a concept is counted under.
pub open spec fn type_label(c: DashboardConcept) -> Seq<char> {
    match c.kind_name {
        Some(t) => t@,
        None => untyped(),
    }
}

/// One more occurrence of `key` in the key-ordered rows, looking from row
/// `i`: its row counts one more, or a new row with count 1 goes before the
/// first larger key.
pub open spec fn bump(rows: Seq<(Seq<char>, nat)>, key: Seq<char>, i: int) -> Seq<(Seq<char>, nat)>
    decreases rows.len() - i,
{
    if i < 0 || i >= rows.len() {
        rows.push((key, 1nat))
    } else if rows[i].0 == key {
        rows.update(i, (key, rows[i].1 + 1))
    } else if seq_lt(key, rows[i].0) {
        rows.insert(i, (key, 1nat))
    } else {
        bump(rows, key, i + 1)
    }
}

/// The concept types with how many concepts have each, ordered by type.
pub open spec fn type_rows(cs: Seq<DashboardConcept>) -> Seq<(Seq<char>, nat)>
    decreases cs.len(),
{
    if cs.len() == 0 {
        Seq::empty()
    } else {
        bump(type_rows(cs.drop_last()), type_label(cs.last()), 0)
    }
}

/// One more generation (`verified` false) or verification (`verified`
/// true) by the actor `key` in the key-ordered rows, looking from row `i`.
pub open spec fn bump_actor(rows: Seq<(Seq<char>, nat, nat)>, key: Seq<char>, verified: bool, i: int) -> Seq<(Seq<char>, nat, nat)>
    decreases rows.len() - i,
{
    let fresh = if verified { (key, 0nat, 1nat) } else { (key, 1nat, 0nat) };
    if i < 0 || i >= rows.len() {
        rows.push(fresh)
    } else if rows[i].0 == key {
        rows.update(i, if verified { (key, rows[i].1, rows[i].2 + 1) } else { (key, rows[i].1 + 1, rows[i].2) })
    } else if seq_lt(key, rows[i].0) {
        rows.insert(i, fresh)
    } else {
        bump_actor(rows, key, verified, i + 1)
    }
}

/// The verifications by each of `keys`, in order.
pub open spec fn bump_verifiers(rows: Seq<(Seq<char>, nat, nat)>, keys: Seq<Seq<char>>) -> Seq<(Seq<char>, nat, nat)>
    decreases keys.len(),
{
    if keys.len() == 0 {
        rows
    } else {
        bump_actor(bump_verifiers(rows, keys.drop_last()), keys.last(), true, 0)
    }
}

/// The rows after counting one concept: its generator, then its verifiers.
pub open spec fn count_actors(rows: Seq<(Seq<char>, nat, nat)>, c: DashboardConcept) -> Seq<(Seq<char>, nat, nat)> {
    let r = match c.generated_by {
        Some(by) => bump_actor(rows, by@, false, 0),
        None => rows,
    };
    bump_verifiers(r, string_views(c.verified_by@))
}

/// Each actor with how many concepts it generated and verified, ordered by
/// actor.
pub open spec fn actor_rows(cs: Seq<DashboardConcept>) -> Seq<(Seq<char>, nat, nat)>
    decreases cs.len(),
{
    if cs.len() == 0 {
        Seq::empty()
    } else {
        count_actors(actor_rows(cs.drop_last()), cs.last())
    }
}

/// How many generation and verification events the concepts carry.
pub open spec fn actor_events(cs: Seq<DashboardConcept>) -> nat
    decreases cs.len(),
{
    if cs.len() == 0 {
        0
    } else {
        actor_events(cs.drop_last()) + cs.last().verified_by@.len() + if cs.last().generated_by is Some { 1nat } else { 0 }
    }
}

// ---------------------------------------------------------------------------
// The attention queue.
// ---------------------------------------------------------------------------

/// A concept's risk: stale 40; unverified 25, machine-confirmed 10;
/// deprecated but still linked to 20; one per finding, up to 30.
pub open spec fn dash_risk(c: DashboardConcept) -> int {
    (if c.stale { 40int } else { 0 }) + match c.tier {
        TrustTier::Unverified => 25int,
        TrustTier::MachineConfirmed => 10,
        TrustTier::HumanReviewed => 0,
    } + (if c.status is Deprecated && c.in_degree > 0 { 20int } else { 0 }) + (if c.findings > 30 {
        30int
    } else {
        c.findings as int
    })
}

/// Why a concept is in the queue: staleness, its tier, a deprecation still
/// linked to, its findings.
pub open spec fn dash_reasons(c: DashboardConcept) -> Seq<Seq<char>> {
    let stale: Seq<Seq<char>> = if c.stale { seq!["stale"@] } else { Seq::empty() };
    let deprecated: Seq<Seq<char>> = if c.status is Deprecated && c.in_degree > 0 {
        seq!["deprecated · "@ + decimal(c.in_degree as nat) + " incoming links remain"@]
    } else {
        Seq::empty()
    };
    let findings: Seq<Seq<char>> = if c.findings > 0 {
        seq![decimal(c.findings as nat) + " finding(s)"@]
    } else {
        Seq::empty()
    };
    stale + seq![tier_name(c.tier)] + deprecated + findings
}

/// A concept needs attention when it is stale, unverified, deprecated but
/// still linked to, or carries findings.
pub open spec fn dash_needs(c: DashboardConcept) -> bool {
    ||| c.stale
    ||| c.tier == TrustTier::Unverified
    ||| (c.status is Deprecated && c.in_degree > 0)
    ||| c.findings > 0
}

/// The queue rows `(id, risk, reasons)` of the concepts that need attention,
/// in the given order.
pub open spec fn dash_rows(cs: Seq<DashboardConcept>) -> Seq<(Seq<Seq<char>>, int, Seq<Seq<char>>)>
    decreases cs.len(),
{
    if cs.len() == 0 {
        Seq::empty()
    } else {
        let c = cs.last();
        let rest = dash_rows(cs.drop_last());
        if dash_needs(c) {
            rest.push((c.id@, dash_risk(c), dash_reasons(c)))
        } else {
            rest
        }
    }
}

/// The tallies behind the dashboard.
pub struct DashboardStats {
    /// Concepts per tier: unverified, machine-confirmed, human-reviewed.
    pub tiers: Vec<usize>,
    /// Concepts per status: draft, stable, deprecated, other.
    pub statuses: Vec<usize>,
    /// Stale concepts.
    pub stale: usize,
    /// Concepts going stale within 30 days.
    pub stale_soon: usize,
    /// `(type, concepts)`, ordered by type.
    pub types: Vec<(String, usize)>,
    /// `(actor, generated, verified)`, ordered by actor.
    pub actors: Vec<(String, usize, usize)>,
    /// The attention queue, highest risk first, then by id.
    pub attention: Vec<AttentionItem>,
}

/// The rows of a key-ordered tally.
pub open spec fn type_views(v: Seq<(String, usize)>) -> Seq<(Seq<char>, nat)> {
    Seq::new(v.len(), |i: int| (v[i].0@, v[i].1 as nat))
}

/// The rows of the actor tally.
pub open spec fn actor_views(v: Seq<(String, usize, usize)>) -> Seq<(Seq<char>, nat, nat)> {
    Seq::new(v.len(), |i: int| (v[i].0@, v[i].1 as nat, v[i].2 as nat))
}

/// The stats are those of the concepts `cs`.
pub open spec fn stats_of(s: DashboardStats, cs: Seq<DashboardConcept>) -> bool {
    &&& s.tiers@.len() == 3
    &&& forall|i: int| 0 <= i < 3 ==> s.tiers@[i] == tier_count(cs, i)
    &&& s.statuses@.len() == 4
    &&& forall|i: int| 0 <= i < 4 ==> s.statuses@[i] == status_count(cs, i)
    &&& s.stale == stale_count(cs)
    &&& s.stale_soon == stale_soon_count(cs)
    &&& type_views(s.types@) == type_rows(cs)
    &&& actor_views(s.actors@) == actor_rows(cs)
    &&& item_views(s.attention@) == ranked_rows(dash_rows(cs))
}

/// Every concept sits in exactly one tier column: the tier counts add up to
/// the number of concepts.
pub proof fn lemma_tier_counts_cover(cs: Seq<DashboardConcept>)
    ensures
        tier_count(cs, 0) + tier_count(cs, 1) + tier_count(cs, 2) == cs.len(),
    decreases cs.len(),
{
    if cs.len() > 0 {
        lemma_tier_counts_cover(cs.drop_last());
    }
}

/// Every concept sits in exactly one status column: the status counts add
/// up to the number of concepts.
pub proof fn lemma_status_counts_cover(cs: Seq<DashboardConcept>)
    ensures
        status_count(cs, 0) + status_count(cs, 1) + status_count(cs, 2) + status_count(cs, 3) == cs.len(),
    decreases cs.len(),
{
    if cs.len() > 0 {
        lemma_status_counts_cover(cs.drop_last());
    }
}

/// A stale concept is never also counted as going stale soon.
pub proof fn lemma_stale_and_soon_disjoint(cs: Seq<DashboardConcept>)
    ensures
        stale_count(cs) + stale_soon_count(cs) <= cs.len(),
    decreases cs.len(),
{
    if cs.len() > 0 {
        lemma_stale_and_soon_disjoint(cs.drop_last());
    }
}

// ---------------------------------------------------------------------------
// Counting.
// ---------------------------------------------------------------------------

/// Counting one more occurrence raises no count above `m + 1`.
pub(crate) proof fn lemma_bump_bounded(rows: Seq<(Seq<char>, nat)>, key: Seq<char>, i: int, m: nat)
    requires
        0 <= i,
        forall|j: int| 0 <= j < rows.len() ==> rows[j].1 <= m,
    ensures
        forall|j: int| 0 <= j < bump(rows, key, i).len() ==> bump(rows, key, i)[j].1 <= m + 1,
    decreases rows.len() - i,
{
    if i >= rows.len() {
        let r = rows.push((key, 1nat));
        assert(bump(rows, key, i) == r);
        assert forall|j: int| 0 <= j < r.len() implies r[j].1 <= m + 1 by {
            if j < rows.len() {
                assert(r[j] == rows[j]);
            }
        }
    } else if rows[i].0 == key {
        let r = rows.update(i, (key, rows[i].1 + 1));
        assert(bump(rows, key, i) == r);
        assert forall|j: int| 0 <= j < r.len() implies r[j].1 <= m + 1 by {
            if j != i {
                assert(r[j] == rows[j]);
            }
        }
    } else if seq_lt(key, rows[i].0) {
        let r = rows.insert(i, (key, 1nat));
        assert(bump(rows, key, i) == r);
        assert forall|j: int| 0 <= j < r.len() implies r[j].1 <= m + 1 by {
            if j > i {
                assert(r[j] == rows[j - 1]);
            } else if j < i {
                assert(r[j] == rows[j]);
            }
        }
    } else {
        lemma_bump_bounded(rows, key, i + 1, m);
        assert(bump(rows, key, i) == bump(rows, key, i + 1));
    }
}

proof fn lemma_bump_actor_bounded(rows: Seq<(Seq<char>, nat, nat)>, key: Seq<char>, verified: bool, i: int, m: nat)
    requires
        0 <= i,
        forall|j: int| 0 <= j < rows.len() ==> rows[j].1 <= m && rows[j].2 <= m,
    ensures
        forall|j: int| 0 <= j < bump_actor(rows, key, verified, i).len()
            ==> bump_actor(rows, key, verified, i)[j].1 <= m + 1 && bump_actor(rows, key, verified, i)[j].2 <= m + 1,
    decreases rows.len() - i,
{
    let fresh = if verified { (key, 0nat, 1nat) } else { (key, 1nat, 0nat) };
    if i >= rows.len() {
        let r = rows.push(fresh);
        assert(bump_actor(rows, key, verified, i) == r);
        assert forall|j: int| 0 <= j < r.len() implies r[j].1 <= m + 1 && r[j].2 <= m + 1 by {
            if j < rows.len() {
                assert(r[j] == rows[j]);
            }
        }
    } else if rows[i].0 == key {
        let r = rows.update(i, if verified { (key, rows[i].1, rows[i].2 + 1) } else { (key, rows[i].1 + 1, rows[i].2) });
        assert(bump_actor(rows, key, verified, i) == r);
        assert forall|j: int| 0 <= j < r.len() implies r[j].1 <= m + 1 && r[j].2 <= m + 1 by {
            if j != i {
                assert(r[j] == rows[j]);
            }
        }
    } else if seq_lt(key, rows[i].0) {
        let r = rows.insert(i, fresh);
        assert(bump_actor(rows, key, verified, i) == r);
        assert forall|j: int| 0 <= j < r.len() implies r[j].1 <= m + 1 && r[j].2 <= m + 1 by {
            if j > i {
                assert(r[j] == rows[j - 1]);
            } else if j < i {
                assert(r[j] == rows[j]);
            }
        }
    } else {
        lemma_bump_actor_bounded(rows, key, verified, i + 1, m);
        assert(bump_actor(rows, key, verified, i) == bump_actor(rows, key, verified, i + 1));
    }
}

/// Counts one more concept of type `key`.
pub(crate) fn bump_type(rows: &mut Vec<(String, usize)>, key: &str)
    requires
        forall|j: int| 0 <= j < old(rows)@.len() ==> old(rows)@[j].1 < usize::MAX,
    ensures
        type_views(final(rows)@) == bump(type_views(old(rows)@), key@, 0),
{
    let ghost tv = type_views(rows@);
    let kv = chars_of(key);
    let mut i: usize = 0;
    while i < rows.len()
        invariant
            i <= rows@.len(),
            rows@ == old(rows)@,
            tv == type_views(rows@),
            forall|j: int| 0 <= j < rows@.len() ==> rows@[j].1 < usize::MAX,
            bump(tv, key@, 0) == bump(tv, key@, i as int),
            kv@ == key@,
        decreases rows.len() - i,
    {
        let rk = chars_of(rows[i].0.as_str());
        assert(tv[i as int] == (rows@[i as int].0@, rows@[i as int].1 as nat));
        if eq_chars(&rk, &kv) {
            let n = rows[i].1;
            let name = string_of(&kv);
            rows.set(i, (name, n + 1));
            assert(type_views(rows@) =~= tv.update(i as int, (key@, tv[i as int].1 + 1)));
            return;
        }
        if lex_less(&kv, &rk) {
            let name = string_of(&kv);
            rows.insert(i, (name, 1));
            assert(type_views(rows@) =~= tv.insert(i as int, (key@, 1nat)));
            return;
        }
        i += 1;
    }
    let name = string_of(&kv);
    rows.push((name, 1));
    assert(type_views(rows@) =~= tv.push((key@, 1nat)));
}

/// Counts one more generation or verification by the actor `key`.
fn bump_actor_v(rows: &mut Vec<(String, usize, usize)>, key: &str, verified: bool)
    requires
        forall|j: int| 0 <= j < old(rows)@.len() ==> old(rows)@[j].1 < usize::MAX && old(rows)@[j].2 < usize::MAX,
    ensures
        actor_views(final(rows)@) == bump_actor(actor_views(old(rows)@), key@, verified, 0),
{
    let ghost tv = actor_views(rows@);
    let kv = chars_of(key);
    let mut i: usize = 0;
    while i < rows.len()
        invariant
            i <= rows@.len(),
            rows@ == old(rows)@,
            tv == actor_views(rows@),
            forall|j: int| 0 <= j < rows@.len() ==> rows@[j].1 < usize::MAX && rows@[j].2 < usize::MAX,
            bump_actor(tv, key@, verified, 0) == bump_actor(tv, key@, verified, i as int),
            kv@ == key@,
        decreases rows.len() - i,
    {
        let rk = chars_of(rows[i].0.as_str());
        assert(tv[i as int] == (rows@[i as int].0@, rows@[i as int].1 as nat, rows@[i as int].2 as nat));
        if eq_chars(&rk, &kv) {
            let g = rows[i].1;
            let v = rows[i].2;
            let name = string_of(&kv);
            if verified {
                rows.set(i, (name, g, v + 1));
                assert(actor_views(rows@) =~= tv.update(i as int, (key@, tv[i as int].1, tv[i as int].2 + 1)));
            } else {
                rows.set(i, (name, g + 1, v));
                assert(actor_views(rows@) =~= tv.update(i as int, (key@, tv[i as int].1 + 1, tv[i as int].2)));
            }
            return;
        }
        if lex_less(&kv, &rk) {
            let name = string_of(&kv);
            if verified {
                rows.insert(i, (name, 0, 1));
                assert(actor_views(rows@) =~= tv.insert(i as int, (key@, 0nat, 1nat)));
            } else {
                rows.insert(i, (name, 1, 0));
                assert(actor_views(rows@) =~= tv.insert(i as int, (key@, 1nat, 0nat)));
            }
            return;
        }
        i += 1;
    }
    let name = string_of(&kv);
    if verified {
        rows.push((name, 0, 1));
        assert(actor_views(rows@) =~= tv.push((key@, 0nat, 1nat)));
    } else {
        rows.push((name, 1, 0));
        assert(actor_views(rows@) =~= tv.push((key@, 1nat, 0nat)));
    }
}

/// The queue row of one concept.
fn dash_item(c: &DashboardConcept) -> (r: AttentionItem)
    ensures
        item_view(r) == (c.id@, dash_risk(*c), dash_reasons(*c)),
{
    let ghost cv = *c;
    let mut parts: Vec<Vec<char>> = Vec::new();
    let mut risk: i64 = 0;
    if c.stale {
        risk = 40;
        parts.push(chars_of("stale"));
    }
    match c.tier {
        TrustTier::Unverified => {
            risk = risk + 25;
        },
        TrustTier::MachineConfirmed => {
            risk = risk + 10;
        },
        TrustTier::HumanReviewed => {},
    }
    let tier_s = c.tier.as_str();
    parts.push(chars_of(tier_s.as_str()));
    if c.status.is_deprecated() && c.in_degree > 0 {
        risk = risk + 20;
        let mut v: Vec<char> = Vec::new();
        push_str(&mut v, "deprecated · ");
        let n = decimal_v(c.in_degree);
        push_all(&mut v, n.as_slice());
        push_str(&mut v, " incoming links remain");
        parts.push(v);
    }
    if c.findings > 0 {
        risk = risk + if c.findings > 30 { 30 } else { c.findings as i64 };
        let mut v: Vec<char> = Vec::new();
        let n = decimal_v(c.findings);
        push_all(&mut v, n.as_slice());
        push_str(&mut v, " finding(s)");
        parts.push(v);
    }
    proof {
        assert(views(parts@) =~= dash_reasons(cv));
    }
    let mut reasons: Vec<String> = Vec::new();
    let mut i: usize = 0;
    while i < parts.len()
        invariant
            i <= parts@.len(),
            views(parts@) == dash_reasons(cv),
            reasons@.map_values(|s: String| s@) == views(parts@).take(i as int),
        decreases parts.len() - i,
    {
        push_text(&mut reasons, &parts[i]);
        proof {
            assert(views(parts@).take(i + 1) =~= views(parts@).take(i as int).push(parts@[i as int]@));
        }
        i += 1;
    }
    proof {
        assert(views(parts@).take(i as int) =~= views(parts@));
    }
    AttentionItem { id: c.id.clone(), risk, reasons }
}

proof fn lemma_actor_events_prefix(cs: Seq<DashboardConcept>, k: int)
    requires
        0 <= k <= cs.len(),
    ensures
        actor_events(cs.take(k)) <= actor_events(cs),
    decreases cs.len(),
{
    if k == cs.len() {
        assert(cs.take(k) =~= cs);
    } else {
        lemma_actor_events_prefix(cs.drop_last(), k);
        assert(cs.drop_last().take(k) =~= cs.take(k));
    }
}

proof fn lemma_counts_bounded(cs: Seq<DashboardConcept>, i: int)
    ensures
        tier_count(cs, i) <= cs.len(),
        status_count(cs, i) <= cs.len(),
        stale_count(cs) <= cs.len(),
        stale_soon_count(cs) <= cs.len(),
    decreases cs.len(),
{
    if cs.len() > 0 {
        lemma_counts_bounded(cs.drop_last(), i);
    }
}

/// The dashboard's tallies and attention queue over the concepts, in
/// bundle order (see [`stats_of`]).
pub fn dashboard_stats(concepts: &Vec<DashboardConcept>) -> (r: DashboardStats)
    requires
        actor_events(concepts@) <= usize::MAX,
    ensures
        stats_of(r, concepts@),
{
    let ghost cs = concepts@;
    let mut tiers: Vec<usize> = vec![0, 0, 0];
    let mut statuses: Vec<usize> = vec![0, 0, 0, 0];
    let mut stale: usize = 0;
    let mut soon: usize = 0;
    let mut types: Vec<(String, usize)> = Vec::new();
    let mut actors: Vec<(String, usize, usize)> = Vec::new();
    let mut attention: Vec<AttentionItem> = Vec::new();
    let mut k: usize = 0;
    proof {
        assert(cs.take(0) =~= Seq::<DashboardConcept>::empty());
        assert(type_views(types@) =~= type_rows(cs.take(0)));
        assert(actor_views(actors@) =~= actor_rows(cs.take(0)));
        assert(item_views(attention@) =~= ranked_rows(dash_rows(cs.take(0))));
    }
    while k < concepts.len()
        invariant
            k <= cs.len(),
            cs == concepts@,
            actor_events(cs) <= usize::MAX,
            tiers@.len() == 3,
            forall|i: int| 0 <= i < 3 ==> tiers@[i] == tier_count(cs.take(k as int), i),
            statuses@.len() == 4,
            forall|i: int| 0 <= i < 4 ==> statuses@[i] == status_count(cs.take(k as int), i),
            stale == stale_count(cs.take(k as int)),
            soon == stale_soon_count(cs.take(k as int)),
            type_views(types@) == type_rows(cs.take(k as int)),
            forall|j: int| 0 <= j < types@.len() ==> types@[j].1 <= k,
            actor_views(actors@) == actor_rows(cs.take(k as int)),
            forall|j: int| 0 <= j < actors@.len() ==> actors@[j].1 <= actor_events(cs.take(k as int))
                && actors@[j].2 <= actor_events(cs.take(k as int)),
            item_views(attention@) == ranked_rows(dash_rows(cs.take(k as int))),
        decreases cs.len() - k,
    {
        let ghost pre = cs.take(k as int);
        let ghost next = cs.take(k + 1);
        proof {
            assert(next.drop_last() =~= pre);
            assert(next.last() == cs[k as int]);
            lemma_counts_bounded(pre, 0);
            lemma_counts_bounded(pre, 1);
            lemma_counts_bounded(pre, 2);
            lemma_counts_bounded(pre, 3);
            lemma_actor_events_prefix(cs, k + 1);
        }
        let c = &concepts[k];
        let ti: usize = match c.tier {
            TrustTier::Unverified => 0,
            TrustTier::MachineConfirmed => 1,
            TrustTier::HumanReviewed => 2,
        };
        let t = tiers[ti];
        tiers.set(ti, t + 1);
        let si: usize = match c.status {
            Status::Draft => 0,
            Status::Stable => 1,
            Status::Deprecated => 2,
            Status::Other(_) => 3,
        };
        let st = statuses[si];
        statuses.set(si, st + 1);
        if c.stale {
            stale = stale + 1;
        } else {
            match c.stale_in_days {
                Some(d) => {
                    if 0 <= d && d <= 30 {
                        soon = soon + 1;
                    }
                },
                None => {},
            }
        }
        // Types.
        proof {
            lemma_bump_bounded(type_views(types@), type_label(*c), 0, k as nat);
        }
        let ghost tv0 = type_views(types@);
        match &c.kind_name {
            Some(t) => {
                bump_type(&mut types, t.as_str());
            },
            None => {
                bump_type(&mut types, "(untyped)");
                proof {
                    reveal_strlit("(untyped)");
                    assert("(untyped)"@ =~= untyped());
                }
            },
        }
        proof {
            assert(type_views(types@) == bump(tv0, type_label(*c), 0));
            assert(type_views(types@) == type_rows(next));
            assert forall|j: int| 0 <= j < types@.len() implies types@[j].1 <= k + 1 by {
                assert(type_views(types@)[j].1 == types@[j].1);
            }
        }
        // Actors.
        let ghost base = actor_events(pre);
        let ghost mut used: nat = 0;
        match &c.generated_by {
            Some(by) => {
                proof {
                    lemma_bump_actor_bounded(actor_views(actors@), by@, false, 0, base);
                }
                bump_actor_v(&mut actors, by.as_str(), false);
                proof {
                    used = 1;
                    assert forall|j: int| 0 <= j < actors@.len() implies actors@[j].1 <= base + used
                        && actors@[j].2 <= base + used by {
                        assert(actor_views(actors@)[j].1 == actors@[j].1);
                        assert(actor_views(actors@)[j].2 == actors@[j].2);
                    }
                }
            },
            None => {},
        }
        let ghost after_gen = actor_views(actors@);
        let mut vi: usize = 0;
        while vi < c.verified_by.len()
            invariant
                vi <= c.verified_by@.len(),
                base + used + c.verified_by@.len() <= actor_events(cs),
                actor_events(cs) <= usize::MAX,
                actor_views(actors@) == bump_verifiers(after_gen, string_views(c.verified_by@).take(vi as int)),
                forall|j: int| 0 <= j < actors@.len() ==> actors@[j].1 <= base + used + vi
                    && actors@[j].2 <= base + used + vi,
            decreases c.verified_by.len() - vi,
        {
            proof {
                lemma_bump_actor_bounded(actor_views(actors@), c.verified_by@[vi as int]@, true, 0, (base + used + vi) as nat);
                assert forall|j: int| 0 <= j < actor_views(actors@).len() implies actor_views(actors@)[j].1 <= (base + used + vi) as nat
                    && actor_views(actors@)[j].2 <= (base + used + vi) as nat by {
                    assert(actor_views(actors@)[j].1 == actors@[j].1);
                }
            }
            bump_actor_v(&mut actors, c.verified_by[vi].as_str(), true);
            proof {
                let keys = string_views(c.verified_by@);
                assert(keys.take(vi + 1).drop_last() =~= keys.take(vi as int));
                assert(keys.take(vi + 1).last() == c.verified_by@[vi as int]@);
                assert forall|j: int| 0 <= j < actors@.len() implies actors@[j].1 <= base + used + vi + 1
                    && actors@[j].2 <= base + used + vi + 1 by {
                    assert(actor_views(actors@)[j].1 == actors@[j].1);
                    assert(actor_views(actors@)[j].2 == actors@[j].2);
                }
            }
            vi += 1;
        }
        proof {
            assert(string_views(c.verified_by@).take(vi as int) =~= string_views(c.verified_by@));
            assert(actor_views(actors@) == actor_rows(next));
        }
        // Attention.
        if c.stale || c.tier == TrustTier::Unverified || (c.status.is_deprecated() && c.in_degree > 0) || c.findings > 0 {
            let x = dash_item(c);
            let ghost xv = item_view(x);
            insert_ranked(&mut attention, x);
            proof {
                let s0 = dash_rows(pre);
                assert(dash_rows(next) == s0.push(xv));
                assert(s0.push(xv).drop_last() =~= s0);
                assert(ranked_rows(s0.push(xv)) == ranked_rows(s0).insert(row_pos(ranked_rows(s0), xv, 0), xv));
            }
        } else {
            proof {
                assert(dash_rows(next) == dash_rows(pre));
            }
        }
        k += 1;
    }
    proof {
        assert(cs.take(k as int) =~= cs);
    }
    DashboardStats { tiers, statuses, stale, stale_soon: soon, types, actors, attention }
}

// ---------------------------------------------------------------------------
// Markup.
// ---------------------------------------------------------------------------

/// A character as HTML text or attribute value: `&`, `<`, `>` and `"`
/// become entities, everything else stands as it is.
pub open spec fn esc_char(c: char) -> Seq<char> {
    if c == '&' {
        seq!['&', 'a', 'm', 'p', ';']
    } else if c == '<' {
        seq!['&', 'l', 't', ';']
    } else if c == '>' {
        seq!['&', 'g', 't', ';']
    } else if c == '"' {
        seq!['&', 'q', 'u', 'o', 't', ';']
    } else {
        seq![c]
    }
}

/// A text escaped for HTML.
pub open spec fn esc(s: Seq<char>) -> Seq<char>
    decreases s.len(),
{
    if s.len() == 0 {
        Seq::empty()
    } else {
        esc(s.drop_last()) + esc_char(s.last())
    }
}

/// Escaped text cannot open a tag or leave a quoted attribute: no `<`, `>`
/// or `"` is left in it.
pub proof fn lemma_escaped_text_is_inert(s: Seq<char>)
    ensures
        forall|i: int| 0 <= i < esc(s).len() ==> {
            let c = #[trigger] esc(s)[i];
            c != '<' && c != '>' && c != '"'
        },
    decreases s.len(),
{
    if s.len() > 0 {
        lemma_escaped_text_is_inert(s.drop_last());
        let a = esc(s.drop_last());
        let b = esc_char(s.last());
        assert forall|i: int| 0 <= i < (a + b).len() implies {
            let c = #[trigger] (a + b)[i];
            c != '<' && c != '>' && c != '"'
        } by {
            if i < a.len() {
                assert((a + b)[i] == a[i]);
            } else {
                assert((a + b)[i] == b[i - a.len()]);
            }
        }
    }
}

/// Appends `s` escaped for HTML.
pub(crate) fn push_escaped(out: &mut Vec<char>, s: &str)
    ensures
        final(out)@ == old(out)@ + esc(s@),
{
    let v = chars_of(s);
    let ghost start = out@;
    let mut i: usize = 0;
    while i < v.len()
        invariant
            i <= v@.len(),
            v@ == s@,
            out@ == start + esc(v@.take(i as int)),
        decreases v.len() - i,
    {
        proof {
            assert(v@.take(i + 1).drop_last() =~= v@.take(i as int));
        }
        let c = v[i];
        let rep: Vec<char> = if c == '&' {
            vec!['&', 'a', 'm', 'p', ';']
        } else if c == '<' {
            vec!['&', 'l', 't', ';']
        } else if c == '>' {
            vec!['&', 'g', 't', ';']
        } else if c == '"' {
            vec!['&', 'q', 'u', 'o', 't', ';']
        } else {
            vec![c]
        };
        assert(rep@ =~= esc_char(c));
        push_all(out, rep.as_slice());
        proof {
            assert(out@ =~= start + esc(v@.take(i + 1)));
        }
        i += 1;
    }
    assert(v@.take(v@.len() as int) =~= v@);
}

/// Escapes `&`, `<`, `>` and `"` as every interpolated value in the site's
/// markup is escaped.
pub fn escape_html(s: &str) -> (r: String)
    ensures
        r@ == esc(s@),
{
    let mut v: Vec<char> = Vec::new();
    push_escaped(&mut v, s);
    assert(v@ =~= esc(s@));
    string_of(v.as_slice())
}

/// The first concept with id `id`, looking from `i`.
pub open spec fn find_concept(cs: Seq<DashboardConcept>, id: Seq<Seq<char>>, i: int) -> Option<int>
    decreases cs.len() - i,
{
    if i < 0 || i >= cs.len() {
        None
    } else if cs[i].id@ == id {
        Some(i)
    } else {
        find_concept(cs, id, i + 1)
    }
}

/// A concept id linked to its page, titled by the concept; an id with no
/// concept is shown by its last segment as a broken link.
pub open spec fn link_html(cs: Seq<DashboardConcept>, prefix: Seq<char>, id: Seq<Seq<char>>) -> Seq<char> {
    match find_concept(cs, id, 0) {
        Some(i) => "<a href=\""@ + esc(prefix + join(id, seq!['/']) + ".html"@) + "\">"@ + esc(cs[i].title@) + "</a>"@,
        None => "<span class=\"broken-link\" title=\"broken link\">"@ + esc(id.last()) + "</span>"@,
    }
}

/// A labelled count in a definition grid.
pub open spec fn fact_html(label: Seq<char>, n: nat) -> Seq<char> {
    "<dt>"@ + label + "</dt><dd class=\"num\">"@ + decimal(n) + "</dd>"@
}

/// A panel holding a definition grid.
pub open spec fn grid_panel(heading: Seq<char>, facts: Seq<char>) -> Seq<char> {
    "<div class=\"panel\"><h3>"@ + heading + "</h3><dl class=\"meta-grid\">"@ + facts + "</dl></div>"@
}

/// The rows of the types grid.
pub open spec fn types_html(rows: Seq<(Seq<char>, nat)>) -> Seq<char>
    decreases rows.len(),
{
    if rows.len() == 0 {
        Seq::empty()
    } else {
        types_html(rows.drop_last()) + fact_html(esc(rows.last().0), rows.last().1)
    }
}

/// One row of the attention queue table.
pub open spec fn queue_row_html(cs: Seq<DashboardConcept>, prefix: Seq<char>, row: (Seq<Seq<char>>, int, Seq<Seq<char>>)) -> Seq<char> {
    "<tr><td class=\"num\">"@ + int_text(row.1) + "</td><td>"@ + link_html(cs, prefix, row.0) + "</td><td>"@
        + esc(join(row.2, " · "@)) + "</td></tr>"@
}

/// The rows of the attention queue table.
pub open spec fn queue_html(cs: Seq<DashboardConcept>, prefix: Seq<char>, rows: Seq<(Seq<Seq<char>>, int, Seq<Seq<char>>)>) -> Seq<char>
    decreases rows.len(),
{
    if rows.len() == 0 {
        Seq::empty()
    } else {
        queue_html(cs, prefix, rows.drop_last()) + queue_row_html(cs, prefix, rows.last())
    }
}

/// The rows of the actors table.
pub open spec fn actors_html(rows: Seq<(Seq<char>, nat, nat)>) -> Seq<char>
    decreases rows.len(),
{
    if rows.len() == 0 {
        Seq::empty()
    } else {
        actors_html(rows.drop_last()) + "<tr><td>"@ + esc(rows.last().0) + "</td><td class=\"num\">"@
            + decimal(rows.last().1) + "</td><td class=\"num\">"@ + decimal(rows.last().2) + "</td></tr>"@
    }
}

/// A panel holding a table with the given head and rows.
pub open spec fn table_panel(heading: Seq<char>, head: Seq<char>, rows: Seq<char>) -> Seq<char> {
    "<div class=\"panel\"><h3>"@ + heading + "</h3><table><thead><tr>"@ + head + "</tr></thead><tbody>"@ + rows
        + "</tbody></table></div>"@
}

/// The trust panel: concepts per tier.
pub open spec fn trust_panel(cs: Seq<DashboardConcept>) -> Seq<char> {
    grid_panel("Trust"@, fact_html("unverified"@, tier_count(cs, 0)) + fact_html("machine-confirmed"@, tier_count(cs, 1))
        + fact_html("human-reviewed"@, tier_count(cs, 2)))
}

/// The status panel: concepts per status.
pub open spec fn status_panel(cs: Seq<DashboardConcept>) -> Seq<char> {
    grid_panel("Status"@, fact_html("draft"@, status_count(cs, 0)) + fact_html("stable"@, status_count(cs, 1))
        + fact_html("deprecated"@, status_count(cs, 2)) + fact_html("other"@, status_count(cs, 3)))
}

/// The freshness panel as of `today`: stale concepts, and those going
/// stale within 30 days.
pub open spec fn fresh_panel(cs: Seq<DashboardConcept>, today: Seq<char>) -> Seq<char> {
    grid_panel("Freshness (as of "@ + esc(today) + ")"@, fact_html("stale"@, stale_count(cs))
        + fact_html("stale within 30 days"@, stale_soon_count(cs)))
}

/// The left column: trust tiers, statuses, freshness as of `today`, types.
pub open spec fn left_html(cs: Seq<DashboardConcept>, today: Seq<char>) -> Seq<char> {
    trust_panel(cs) + status_panel(cs) + fresh_panel(cs, today) + grid_panel("Types"@, types_html(type_rows(cs)))
}

/// The right column: the attention queue and the actors.
pub open spec fn right_html(cs: Seq<DashboardConcept>, prefix: Seq<char>) -> Seq<char> {
    table_panel("Attention queue"@, "<th>risk</th><th>concept</th><th>why</th>"@, queue_html(cs, prefix, ranked_rows(dash_rows(cs))))
    + table_panel("Actors"@, "<th>actor</th><th>generated</th><th>verified</th>"@, actors_html(actor_rows(cs)))
}

/// The dashboard's body markup, with links climbing `prefix` to the root.
pub open spec fn dashboard_html(cs: Seq<DashboardConcept>, today: Seq<char>, prefix: Seq<char>) -> Seq<char> {
    "<div class=\"pagerow\"><section>"@ + left_html(cs, today) + "</section><section>"@ + right_html(cs, prefix)
        + "</section></div>"@
}

/// The dashboard page's title: `Dashboard — N concept(s)`.
pub open spec fn dashboard_title(n: nat) -> Seq<char> {
    "Dashboard — "@ + decimal(n) + " concept(s)"@
}

fn push_fact(out: &mut Vec<char>, label: &str, n: usize)
    ensures
        final(out)@ == old(out)@ + fact_html(label@, n as nat),
{
    push_str(out, "<dt>");
    push_str(out, label);
    push_str(out, "</dt><dd class=\"num\">");
    let d = decimal_v(n);
    push_all(out, d.as_slice());
    push_str(out, "</dd>");
    assert(out@ =~= old(out)@ + fact_html(label@, n as nat));
}

fn push_grid_open(out: &mut Vec<char>, heading: &[char])
    ensures
        final(out)@ == old(out)@ + "<div class=\"panel\"><h3>"@ + heading@ + "</h3><dl class=\"meta-grid\">"@,
{
    push_str(out, "<div class=\"panel\"><h3>");
    push_all(out, heading);
    push_str(out, "</h3><dl class=\"meta-grid\">");
}

/// Where concept `id` first appears in `concepts`.
fn find_concept_v(concepts: &Vec<DashboardConcept>, id: &ConceptId) -> (r: Option<usize>)
    ensures
        r matches Some(i) ==> i < concepts@.len() && find_concept(concepts@, id@, 0) == Some(i as int),
        r is None ==> find_concept(concepts@, id@, 0) is None,
{
    let mut i: usize = 0;
    while i < concepts.len()
        invariant
            i <= concepts@.len(),
            find_concept(concepts@, id@, 0) == find_concept(concepts@, id@, i as int),
        decreases concepts.len() - i,
    {
        if concepts[i].id.same(id) {
            return Some(i);
        }
        i += 1;
    }
    None
}

pub(crate) fn push_link(out: &mut Vec<char>, concepts: &Vec<DashboardConcept>, prefix: &str, id: &ConceptId)
    ensures
        final(out)@ == old(out)@ + link_html(concepts@, prefix@, id@),
{
    match find_concept_v(concepts, id) {
        Some(i) => {
            let mut href: Vec<char> = Vec::new();
            push_str(&mut href, prefix);
            let p = id.to_path();
            push_str(&mut href, p.as_str());
            push_str(&mut href, ".html");
            let hs = string_of(href.as_slice());
            push_str(out, "<a href=\"");
            push_escaped(out, hs.as_str());
            push_str(out, "\">");
            push_escaped(out, concepts[i].title.as_str());
            push_str(out, "</a>");
            assert(out@ =~= old(out)@ + link_html(concepts@, prefix@, id@));
        },
        None => {
            let name = id.name();
            push_str(out, "<span class=\"broken-link\" title=\"broken link\">");
            push_escaped(out, name.as_str());
            push_str(out, "</span>");
            assert(out@ =~= old(out)@ + link_html(concepts@, prefix@, id@));
        },
    }
}

fn push_types(out: &mut Vec<char>, rows: &Vec<(String, usize)>)
    ensures
        final(out)@ == old(out)@ + types_html(type_views(rows@)),
{
    let ghost tv = type_views(rows@);
    let mut i: usize = 0;
    while i < rows.len()
        invariant
            i <= rows@.len(),
            tv == type_views(rows@),
            out@ == old(out)@ + types_html(tv.take(i as int)),
        decreases rows.len() - i,
    {
        proof {
            assert(tv.take(i + 1).drop_last() =~= tv.take(i as int));
            assert(tv.take(i + 1).last() == (rows@[i as int].0@, rows@[i as int].1 as nat));
        }
        let mut label: Vec<char> = Vec::new();
        push_escaped(&mut label, rows[i].0.as_str());
        let ls = string_of(label.as_slice());
        push_fact(out, ls.as_str(), rows[i].1);
        proof {
            assert(out@ =~= old(out)@ + types_html(tv.take(i + 1)));
        }
        i += 1;
    }
    assert(tv.take(i as int) =~= tv);
}

fn push_queue(out: &mut Vec<char>, concepts: &Vec<DashboardConcept>, prefix: &str, rows: &Vec<AttentionItem>)
    ensures
        final(out)@ == old(out)@ + queue_html(concepts@, prefix@, item_views(rows@)),
{
    let ghost iv = item_views(rows@);
    let sep = chars_of(" · ");
    let mut i: usize = 0;
    while i < rows.len()
        invariant
            i <= rows@.len(),
            iv == item_views(rows@),
            sep@ == " · "@,
            out@ == old(out)@ + queue_html(concepts@, prefix@, iv.take(i as int)),
        decreases rows.len() - i,
    {
        let ghost before = out@;
        proof {
            assert(iv.take(i + 1).drop_last() =~= iv.take(i as int));
            assert(iv.take(i + 1).last() == item_view(rows@[i as int]));
        }
        let row = &rows[i];
        push_str(out, "<tr><td class=\"num\">");
        let r = int_text_v(row.risk);
        push_all(out, r.as_slice());
        push_str(out, "</td><td>");
        push_link(out, concepts, prefix, &row.id);
        push_str(out, "</td><td>");
        let mut parts: Vec<Vec<char>> = Vec::new();
        let mut j: usize = 0;
        while j < row.reasons.len()
            invariant
                j <= row.reasons@.len(),
                views(parts@) == row.reasons@.map_values(|s: String| s@).take(j as int),
            decreases row.reasons.len() - j,
        {
            let ghost pv = views(parts@);
            parts.push(chars_of(row.reasons[j].as_str()));
            proof {
                assert(views(parts@) =~= pv.push(row.reasons@[j as int]@));
                assert(row.reasons@.map_values(|s: String| s@).take(j + 1) =~= row.reasons@.map_values(|s: String| s@).take(
                    j as int,
                ).push(row.reasons@[j as int]@));
            }
            j += 1;
        }
        proof {
            assert(row.reasons@.map_values(|s: String| s@).take(j as int) =~= row.reasons@.map_values(|s: String| s@));
        }
        let why = join_v(&parts, sep.as_slice());
        let ws = string_of(why.as_slice());
        push_escaped(out, ws.as_str());
        push_str(out, "</td></tr>");
        proof {
            assert(out@ =~= before + queue_row_html(concepts@, prefix@, item_view(rows@[i as int])));
            assert(out@ =~= old(out)@ + queue_html(concepts@, prefix@, iv.take(i + 1)));
        }
        i += 1;
    }
    assert(iv.take(i as int) =~= iv);
}

fn push_actors(out: &mut Vec<char>, rows: &Vec<(String, usize, usize)>)
    ensures
        final(out)@ == old(out)@ + actors_html(actor_views(rows@)),
{
    let ghost av = actor_views(rows@);
    let mut i: usize = 0;
    while i < rows.len()
        invariant
            i <= rows@.len(),
            av == actor_views(rows@),
            out@ == old(out)@ + actors_html(av.take(i as int)),
        decreases rows.len() - i,
    {
        let ghost before = out@;
        proof {
            assert(av.take(i + 1).drop_last() =~= av.take(i as int));
            assert(av.take(i + 1).last() == (rows@[i as int].0@, rows@[i as int].1 as nat, rows@[i as int].2 as nat));
        }
        push_str(out, "<tr><td>");
        push_escaped(out, rows[i].0.as_str());
        push_str(out, "</td><td class=\"num\">");
        let g = decimal_v(rows[i].1);
        push_all(out, g.as_slice());
        push_str(out, "</td><td class=\"num\">");
        let v = decimal_v(rows[i].2);
        push_all(out, v.as_slice());
        push_str(out, "</td></tr>");
        proof {
            assert(out@ =~= old(out)@ + actors_html(av.take(i + 1)));
        }
        i += 1;
    }
    assert(av.take(i as int) =~= av);
}

fn push_grid(out: &mut Vec<char>, heading: &[char], facts: &[char])
    ensures
        final(out)@ == old(out)@ + grid_panel(heading@, facts@),
{
    push_str(out, "<div class=\"panel\"><h3>");
    push_all(out, heading);
    push_str(out, "</h3><dl class=\"meta-grid\">");
    push_all(out, facts);
    push_str(out, "</dl></div>");
    assert(out@ =~= old(out)@ + grid_panel(heading@, facts@));
}

fn push_trust(out: &mut Vec<char>, stats: &DashboardStats, concepts: &Vec<DashboardConcept>)
    requires
        stats_of(*stats, concepts@),
    ensures
        final(out)@ == old(out)@ + trust_panel(concepts@),
{
    let ghost cs = concepts@;
    let mut f: Vec<char> = Vec::new();
    push_fact(&mut f, "unverified", stats.tiers[0]);
    push_fact(&mut f, "machine-confirmed", stats.tiers[1]);
    push_fact(&mut f, "human-reviewed", stats.tiers[2]);
    let h = chars_of("Trust");
    proof {
        assert(stats.tiers@[0] == tier_count(cs, 0));
        assert(stats.tiers@[1] == tier_count(cs, 1));
        assert(stats.tiers@[2] == tier_count(cs, 2));
        assert(f@ =~= fact_html("unverified"@, tier_count(cs, 0)) + fact_html("machine-confirmed"@, tier_count(cs, 1))
            + fact_html("human-reviewed"@, tier_count(cs, 2)));
    }
    push_grid(out, &h, &f);
}

fn push_status(out: &mut Vec<char>, stats: &DashboardStats, concepts: &Vec<DashboardConcept>)
    requires
        stats_of(*stats, concepts@),
    ensures
        final(out)@ == old(out)@ + status_panel(concepts@),
{
    let ghost cs = concepts@;
    let mut f: Vec<char> = Vec::new();
    push_fact(&mut f, "draft", stats.statuses[0]);
    push_fact(&mut f, "stable", stats.statuses[1]);
    push_fact(&mut f, "deprecated", stats.statuses[2]);
    push_fact(&mut f, "other", stats.statuses[3]);
    let h = chars_of("Status");
    proof {
        assert(stats.statuses@[0] == status_count(cs, 0));
        assert(stats.statuses@[1] == status_count(cs, 1));
        assert(stats.statuses@[2] == status_count(cs, 2));
        assert(stats.statuses@[3] == status_count(cs, 3));
        assert(f@ =~= fact_html("draft"@, status_count(cs, 0)) + fact_html("stable"@, status_count(cs, 1))
            + fact_html("deprecated"@, status_count(cs, 2)) + fact_html("other"@, status_count(cs, 3)));
    }
    push_grid(out, &h, &f);
}

fn push_left(out: &mut Vec<char>, stats: &DashboardStats, concepts: &Vec<DashboardConcept>, today: &str)
    requires
        stats_of(*stats, concepts@),
    ensures
        final(out)@ == old(out)@ + left_html(concepts@, today@),
{
    let ghost cs = concepts@;
    push_trust(out, stats, concepts);
    push_status(out, stats, concepts);
    let ghost a2 = out@;
    let mut h: Vec<char> = Vec::new();
    push_str(&mut h, "Freshness (as of ");
    push_escaped(&mut h, today);
    push_str(&mut h, ")");
    let mut f: Vec<char> = Vec::new();
    push_fact(&mut f, "stale", stats.stale);
    push_fact(&mut f, "stale within 30 days", stats.stale_soon);
    push_grid(out, &h, &f);
    proof {
        assert(h@ =~= "Freshness (as of "@ + esc(today@) + ")"@);
        assert(f@ =~= fact_html("stale"@, stale_count(cs)) + fact_html("stale within 30 days"@, stale_soon_count(cs)));
    }
    let ghost a3 = out@;
    let mut f: Vec<char> = Vec::new();
    push_types(&mut f, &stats.types);
    let h = chars_of("Types");
    push_grid(out, &h, &f);
    proof {
        assert(f@ =~= types_html(type_rows(cs)));
        assert(out@ =~= old(out)@ + left_html(cs, today@));
    }
}

fn push_right(out: &mut Vec<char>, stats: &DashboardStats, concepts: &Vec<DashboardConcept>)
    requires
        stats_of(*stats, concepts@),
    ensures
        final(out)@ == old(out)@ + right_html(concepts@, Seq::empty()),
{
    push_str(out, "<div class=\"panel\"><h3>Attention queue</h3><table><thead><tr>");
    push_str(out, "<th>risk</th><th>concept</th><th>why</th>");
    push_str(out, "</tr></thead><tbody>");
    push_queue(out, concepts, "", &stats.attention);
    push_str(out, "</tbody></table></div>");
    let ghost a1 = out@;
    push_str(out, "<div class=\"panel\"><h3>Actors</h3><table><thead><tr>");
    push_str(out, "<th>actor</th><th>generated</th><th>verified</th>");
    push_str(out, "</tr></thead><tbody>");
    push_actors(out, &stats.actors);
    push_str(out, "</tbody></table></div>");
    proof {
        reveal_strlit("");
        reveal_strlit("<div class=\"panel\"><h3>Attention queue</h3><table><thead><tr>");
        reveal_strlit("<div class=\"panel\"><h3>");
        reveal_strlit("Attention queue");
        reveal_strlit("</h3><table><thead><tr>");
        reveal_strlit("<div class=\"panel\"><h3>Actors</h3><table><thead><tr>");
        reveal_strlit("Actors");
        assert(""@ =~= Seq::<char>::empty());
        assert("<div class=\"panel\"><h3>Attention queue</h3><table><thead><tr>"@ =~= "<div class=\"panel\"><h3>"@
            + "Attention queue"@ + "</h3><table><thead><tr>"@);
        assert("<div class=\"panel\"><h3>Actors</h3><table><thead><tr>"@ =~= "<div class=\"panel\"><h3>"@ + "Actors"@
            + "</h3><table><thead><tr>"@);
        assert(out@ =~= old(out)@ + right_html(concepts@, Seq::empty()));
    }
}

/// The trust dashboard, the site's landing page: tier, status and
/// freshness tallies (as of `today`), the concept types, the attention
/// queue and the actors, over the bundle's concepts in bundle order.
pub fn dashboard_page(concepts: &Vec<DashboardConcept>, today: &str) -> (r: SitePage)
    requires
        actor_events(concepts@) <= usize::MAX,
    ensures
        r.rel_path is Dashboard,
        r.title@ == dashboard_title(concepts@.len()),
        r.body_html@ == dashboard_html(concepts@, today@, Seq::empty()),
        !r.has_mermaid,
        !r.has_shiki,
        r.meta_rows@.len() == 0,
{
    let stats = dashboard_stats(concepts);
    let mut out: Vec<char> = Vec::new();
    push_str(&mut out, "<div class=\"pagerow\"><section>");
    push_left(&mut out, &stats, concepts, today);
    push_str(&mut out, "</section><section>");
    push_right(&mut out, &stats, concepts);
    push_str(&mut out, "</section></div>");
    proof {
        assert(out@ =~= dashboard_html(concepts@, today@, Seq::empty()));
    }
    let ghost cs = concepts@;
    let mut t: Vec<char> = Vec::new();
    push_str(&mut t, "Dashboard — ");
    let n = decimal_v(concepts.len());
    push_all(&mut t, n.as_slice());
    push_str(&mut t, " concept(s)");
    assert(t@ =~= dashboard_title(cs.len()));
    SitePage {
        rel_path: PagePath::Dashboard,
        title: string_of(t.as_slice()),
        body_html: string_of(out.as_slice()),
        has_mermaid: false,
        has_shiki: false,
        meta_rows: Vec::new(),
    }
}

} // verus!
