//! The fuzzy scorer behind every search surface.
//!
//! A query matches a haystack when its non-whitespace characters occur in
//! the haystack in order (smart case: a query character written in upper
//! case must match exactly, any other one matches by its lower-case
//! mapping). Among all such placements the scorer picks one of highest
//! score: every matched character earns [`MATCH_SCORE`] plus a position
//! bonus (haystack start, after a separator, at a camelCase hump), a match
//! right after the previous one earns [`BONUS_CONSECUTIVE`] more, and a gap
//! of `g` skipped characters costs `PENALTY_GAP_START + (g - 1) *
//! PENALTY_GAP_EXTEND`. The dynamic programme below computes that maximum
//! row by row; its contract is stated over placements, not over the table.
use crate::chars::{
    char_to_lower, chars_of, is_ws, lower_mapping, lowercase, unicode_lowercase,
    unicode_uppercase, uppercase, whitespace,
};
use crate::markdown::eq_chars;
use vstd::prelude::*;

verus! {

/// Bonus for a match after `/ _ - . :` or whitespace.
pub const BONUS_BOUNDARY: i32 = 16;

/// Bonus for a match on an upper-case char right after a lower-case one.
pub const BONUS_CAMEL: i32 = 12;

/// Bonus for a match right after the previous match.
pub const BONUS_CONSECUTIVE: i32 = 8;

/// Bonus for a match on the first haystack char.
pub const BONUS_FIRST_CHAR: i32 = 20;

/// Cost of the first skipped char of a gap.
pub const PENALTY_GAP_START: i32 = -3;

/// Cost of each further skipped char of a gap.
pub const PENALTY_GAP_EXTEND: i32 = -1;

/// Score of every matched char.
pub const MATCH_SCORE: i32 = 16;

/// Longest haystack (in chars) the scorer accepts: every placement score of
/// such a haystack, and every intermediate value of the table, fits `i32`
/// with room to spare above the "no placement" sentinel.
pub const MAX_HAYSTACK_CHARS: usize = 40_000_000;

/// Table sentinel for "no placement ends here".
const NEG: i32 = -536_870_912;

// ---------------------------------------------------------------------------
// The model: placements and their scores.
// ---------------------------------------------------------------------------

/// `s` without its whitespace chars.
pub open spec fn drop_ws(s: Seq<char>) -> Seq<char>
    decreases s.len(),
{
    if s.len() == 0 {
        s
    } else if is_ws(s.last()) {
        drop_ws(s.drop_last())
    } else {
        drop_ws(s.drop_last()).push(s.last())
    }
}

/// Smart-case char equality: an upper-case query char must match exactly,
/// any other matches when both lower-case mappings agree.
pub open spec fn smart_eq(qc: char, hc: char) -> bool {
    if unicode_uppercase(qc) {
        qc == hc
    } else {
        char_to_lower(qc) == char_to_lower(hc)
    }
}

/// The chars after which a match earns the boundary bonus.
pub open spec fn separator(c: char) -> bool {
    c == '/' || c == '_' || c == '-' || c == '.' || c == ':' || is_ws(c)
}

/// Position bonus for a match at haystack index `j`.
pub open spec fn bonus(hs: Seq<char>, j: int) -> int {
    if j == 0 {
        BONUS_FIRST_CHAR as int
    } else if separator(hs[j - 1]) {
        BONUS_BOUNDARY as int
    } else if unicode_lowercase(hs[j - 1]) && unicode_uppercase(hs[j]) {
        BONUS_CAMEL as int
    } else {
        0
    }
}

/// Score of a match at `j` whose previous match is at `prev < j`.
pub open spec fn step_score(hs: Seq<char>, prev: int, j: int) -> int {
    if j == prev + 1 {
        MATCH_SCORE + BONUS_CONSECUTIVE + bonus(hs, j)
    } else {
        MATCH_SCORE + bonus(hs, j) + PENALTY_GAP_START + PENALTY_GAP_EXTEND * (j - prev - 2)
    }
}

/// Score of a placement: the haystack positions of the matched query chars.
/// A leading gap is free.
pub open spec fn placement_score(hs: Seq<char>, a: Seq<int>) -> int
    decreases a.len(),
{
    if a.len() == 0 {
        0
    } else if a.len() == 1 {
        MATCH_SCORE + bonus(hs, a[0])
    } else {
        placement_score(hs, a.drop_last()) + step_score(hs, a[a.len() - 2], a.last())
    }
}

/// `a` places the first `n` chars of `qs` in `hs`: strictly increasing
/// positions, each holding a char that smart-case matches.
pub open spec fn places(qs: Seq<char>, hs: Seq<char>, a: Seq<int>, n: int) -> bool {
    &&& a.len() == n
    &&& n <= qs.len()
    &&& forall|t: int| 0 <= t < n ==> 0 <= #[trigger] a[t] < hs.len() && smart_eq(qs[t], hs[a[t]])
    &&& forall|s: int, t: int| 0 <= s < t < n ==> #[trigger] a[s] < #[trigger] a[t]
}

/// Some placement of all of `qs` in `hs` exists: `qs` is a smart-case
/// subsequence of `hs`.
pub open spec fn matchable(qs: Seq<char>, hs: Seq<char>) -> bool {
    exists|a: Seq<int>| #[trigger] places(qs, hs, a, qs.len() as int)
}

/// `a` is a placement of all of `qs` with the highest score.
pub open spec fn optimal(qs: Seq<char>, hs: Seq<char>, a: Seq<int>) -> bool {
    &&& places(qs, hs, a, qs.len() as int)
    &&& forall|b: Seq<int>| #[trigger]
        places(qs, hs, b, qs.len() as int) ==> placement_score(hs, b) <= placement_score(hs, a)
}

/// Some optimal placement of `qs` in `hs` scores `s`.
pub open spec fn reaches(qs: Seq<char>, hs: Seq<char>, s: int) -> bool {
    exists|a: Seq<int>| #[trigger] optimal(qs, hs, a) && placement_score(hs, a) == s
}

/// The highest placement score of `qs` in `hs` (0 for an empty query), or
/// `None` when `qs` has no placement.
pub open spec fn best_score(qs: Seq<char>, hs: Seq<char>) -> Option<int> {
    if qs.len() == 0 {
        Some(0)
    } else if matchable(qs, hs) {
        Some(choose|s: int| reaches(qs, hs, s))
    } else {
        None
    }
}

/// Positions as integers.
pub open spec fn positions(v: Seq<usize>) -> Seq<int> {
    v.map_values(|x: usize| x as int)
}

/// What [`fuzzy_match`] returns for the query chars `qs` and haystack `hs`.
pub open spec fn fuzzy_result(qs: Seq<char>, hs: Seq<char>, r: Option<(i32, Vec<usize>)>) -> bool {
    if qs.len() == 0 {
        r matches Some(p) && p.0 == 0 && p.1@.len() == 0
    } else {
        match r {
            None => !matchable(qs, hs),
            Some(p) => optimal(qs, hs, positions(p.1@)) && p.0 == placement_score(
                hs,
                positions(p.1@),
            ),
        }
    }
}

// ---------------------------------------------------------------------------
// Facts about placements.
// ---------------------------------------------------------------------------

/// The `t`-th position of a placement is at least `t`.
pub proof fn lemma_places_floor(qs: Seq<char>, hs: Seq<char>, a: Seq<int>, n: int, t: int)
    requires
        places(qs, hs, a, n),
        0 <= t < n,
    ensures
        a[t] >= t,
    decreases t,
{
    if t > 0 {
        lemma_places_floor(qs, hs, a, n, t - 1);
        assert(a[t - 1] < a[t]);
    }
}

/// A placement of `n + 1` chars is a placement of `n` chars extended by one
/// step.
pub proof fn lemma_places_last(qs: Seq<char>, hs: Seq<char>, a: Seq<int>, n: int)
    requires
        places(qs, hs, a, n + 1),
        n >= 1,
    ensures
        places(qs, hs, a.drop_last(), n),
        a[n - 1] < a[n],
        placement_score(hs, a) == placement_score(hs, a.drop_last()) + step_score(
            hs,
            a[n - 1],
            a[n],
        ),
{
    let b = a.drop_last();
    assert forall|t: int| 0 <= t < n implies 0 <= #[trigger] b[t] < hs.len() && smart_eq(
        qs[t],
        hs[b[t]],
    ) by {
        assert(b[t] == a[t]);
    }
    assert forall|s: int, t: int| 0 <= s < t < n implies #[trigger] b[s] < #[trigger] b[t] by {
        assert(a[s] < a[t]);
    }
    assert(a[n - 1] < a[n]);
}

/// Extending a placement of `n` chars by a later matching position.
pub proof fn lemma_places_push(qs: Seq<char>, hs: Seq<char>, w: Seq<int>, n: int, j: int)
    requires
        places(qs, hs, w, n),
        1 <= n < qs.len(),
        w[n - 1] < j < hs.len(),
        smart_eq(qs[n], hs[j]),
    ensures
        places(qs, hs, w.push(j), n + 1),
        placement_score(hs, w.push(j)) == placement_score(hs, w) + step_score(hs, w[n - 1], j),
{
    let a = w.push(j);
    assert(a.drop_last() =~= w);
    assert forall|t: int| 0 <= t < n + 1 implies 0 <= #[trigger] a[t] < hs.len() && smart_eq(
        qs[t],
        hs[a[t]],
    ) by {
        if t < n {
            assert(a[t] == w[t]);
        }
    }
    assert forall|s: int, t: int| 0 <= s < t < n + 1 implies #[trigger] a[s] < #[trigger] a[t] by {
        if t < n {
            assert(w[s] < w[t]);
        } else if s < n - 1 {
            assert(w[s] < w[n - 1]);
        }
    }
}

/// All optimal placements share one score: [`best_score`].
pub proof fn lemma_best_score(qs: Seq<char>, hs: Seq<char>, a: Seq<int>)
    requires
        qs.len() > 0,
        optimal(qs, hs, a),
    ensures
        best_score(qs, hs) == Some(placement_score(hs, a)),
{
    assert(matchable(qs, hs));
    assert(reaches(qs, hs, placement_score(hs, a)));
    let s = choose|s: int| reaches(qs, hs, s);
    let b = choose|b: Seq<int>| #[trigger] optimal(qs, hs, b) && placement_score(hs, b) == s;
    assert(placement_score(hs, b) <= placement_score(hs, a));
    assert(placement_score(hs, a) <= placement_score(hs, b));
}

/// The empty placement is the optimal placement of the empty query.
pub proof fn lemma_empty_optimal(qs: Seq<char>, hs: Seq<char>)
    requires
        qs.len() == 0,
    ensures
        optimal(qs, hs, Seq::empty()),
{
    assert forall|b: Seq<int>| #[trigger] places(qs, hs, b, qs.len() as int) implies placement_score(
        hs,
        b,
    ) <= placement_score(hs, Seq::empty()) by {
        assert(b.len() == 0);
    }
}

// ---------------------------------------------------------------------------
// The table: rows of best scores and parent pointers.
// ---------------------------------------------------------------------------

/// The placement read back from the parent rows `par`, ending with query
/// char `i` at position `j`.
pub open spec fn chain(par: Seq<Seq<usize>>, i: int, j: int) -> Seq<int>
    decreases i,
{
    if i <= 0 {
        seq![j]
    } else {
        chain(par, i - 1, par[i][j] as int).push(j)
    }
}

pub open spec fn par_views(p: Seq<Vec<usize>>) -> Seq<Seq<usize>> {
    p.map_values(|v: Vec<usize>| v@)
}

/// Bounds every table value keeps: above the sentinel, at least `16 - j`,
/// at most `44` per matched char.
spec fn value_ok(n: int, j: int, v: int) -> bool {
    &&& NEG < v
    &&& 16 - j <= v <= 44 * n
    &&& n - 1 <= j
}

/// Row `n - 1` of the table: `row[j]` is the best score of placing the first
/// `n` query chars with the last at `j` (the sentinel when none exists), and
/// the parent rows read back a placement with that score.
spec fn row_ok(qs: Seq<char>, hs: Seq<char>, par: Seq<Seq<usize>>, n: int, row: Seq<i32>) -> bool {
    &&& row.len() == hs.len()
    &&& forall|j: int|
        0 <= j < row.len() && #[trigger] row[j] != NEG ==> {
            &&& value_ok(n, j, row[j] as int)
            &&& places(qs, hs, chain(par, n - 1, j), n)
            &&& chain(par, n - 1, j)[n - 1] == j
            &&& placement_score(hs, chain(par, n - 1, j)) == row[j]
        }
    &&& forall|a: Seq<int>| #[trigger]
        places(qs, hs, a, n) ==> row[a[n - 1]] != NEG && placement_score(hs, a) <= row[a[n - 1]]
}

pub proof fn lemma_chain_len(par: Seq<Seq<usize>>, i: int, j: int)
    requires
        i >= 0,
    ensures
        chain(par, i, j).len() == i + 1,
        chain(par, i, j)[i] == j,
    decreases i,
{
    if i > 0 {
        lemma_chain_len(par, i - 1, par[i][j] as int);
    }
}

/// Pushing a new parent row leaves the earlier chains unchanged.
pub proof fn lemma_chain_push(par: Seq<Seq<usize>>, x: Seq<usize>, m: int, j: int)
    requires
        0 <= m < par.len(),
    ensures
        chain(par.push(x), m, j) == chain(par, m, j),
    decreases m,
{
    if m > 0 {
        assert(par.push(x)[m] == par[m]);
        lemma_chain_push(par, x, m - 1, par[m][j] as int);
    }
}

/// Each position of a chain is the parent of the next one.
pub proof fn lemma_chain_parent(par: Seq<Seq<usize>>, n: int, j: int, t: int)
    requires
        1 <= t <= n,
    ensures
        chain(par, n, j)[t - 1] == par[t][chain(par, n, j)[t]] as int,
    decreases n,
{
    let p = par[n][j] as int;
    lemma_chain_len(par, n - 1, p);
    assert(chain(par, n, j) == chain(par, n - 1, p).push(j));
    if t < n {
        lemma_chain_parent(par, n - 1, p, t);
    }
}

// ---------------------------------------------------------------------------
// Executable pieces.
// ---------------------------------------------------------------------------

/// The non-whitespace chars of `s`, in order.
fn query_chars(s: &str) -> (r: Vec<char>)
    ensures
        r@ == drop_ws(s@),
{
    let cs = chars_of(s);
    let mut r: Vec<char> = Vec::new();
    let mut i: usize = 0;
    while i < cs.len()
        invariant
            i <= cs@.len(),
            cs@ == s@,
            r@ == drop_ws(cs@.take(i as int)),
        decreases cs.len() - i,
    {
        let c = cs[i];
        assert(cs@.take(i + 1).drop_last() =~= cs@.take(i as int));
        if !whitespace(c) {
            r.push(c);
        }
        i += 1;
    }
    assert(cs@.take(cs@.len() as int) =~= cs@);
    r
}

fn smart_eq_v(qc: char, hc: char) -> (r: bool)
    ensures
        r == smart_eq(qc, hc),
{
    if uppercase(qc) {
        qc == hc
    } else {
        let a = lower_mapping(qc);
        let b = lower_mapping(hc);
        eq_chars(a.as_slice(), b.as_slice())
    }
}

fn bonus_v(hs: &Vec<char>, j: usize) -> (r: i32)
    requires
        j < hs.len(),
    ensures
        r == bonus(hs@, j as int),
{
    if j == 0 {
        return BONUS_FIRST_CHAR;
    }
    let prev = hs[j - 1];
    if prev == '/' || prev == '_' || prev == '-' || prev == '.' || prev == ':' || whitespace(prev) {
        BONUS_BOUNDARY
    } else if lowercase(prev) && uppercase(hs[j]) {
        BONUS_CAMEL
    } else {
        0
    }
}

/// Row 0: the first query char alone at each position.
fn first_row(qs: &Vec<char>, hs: &Vec<char>) -> (r: (Vec<i32>, Vec<usize>))
    requires
        1 <= qs.len(),
        hs.len() <= MAX_HAYSTACK_CHARS,
    ensures
        r.1@.len() == hs.len(),
        row_ok(qs@, hs@, seq![r.1@], 1, r.0@),
{
    let mut row: Vec<i32> = Vec::new();
    let mut par: Vec<usize> = Vec::new();
    let ghost p = seq![par@];
    let mut j: usize = 0;
    while j < hs.len()
        invariant
            1 <= qs.len(),
            hs.len() <= MAX_HAYSTACK_CHARS,
            j <= hs.len(),
            row@.len() == j,
            par@.len() == j,
            forall|c: int|
                0 <= c < j && #[trigger] row@[c] != NEG ==> {
                    &&& value_ok(1, c, row@[c] as int)
                    &&& places(qs@, hs@, seq![c], 1)
                    &&& placement_score(hs@, seq![c]) == row@[c]
                },
            forall|a: Seq<int>| #[trigger]
                places(qs@, hs@, a, 1) && a[0] < j ==> row@[a[0]] != NEG && placement_score(
                    hs@,
                    a,
                ) <= row@[a[0]],
        decreases hs.len() - j,
    {
        if smart_eq_v(qs[0], hs[j]) {
            let b = bonus_v(hs, j);
            row.push(MATCH_SCORE + b);
            proof {
                let w = seq![j as int];
                assert(places(qs@, hs@, w, 1));
            }
        } else {
            row.push(NEG);
        }
        par.push(usize::MAX);
        proof {
            assert forall|a: Seq<int>| #[trigger]
                places(qs@, hs@, a, 1) && a[0] < j + 1 implies row@[a[0]] != NEG
                && placement_score(hs@, a) <= row@[a[0]] by {
                if a[0] == j {
                    assert(a.len() == 1);
                }
            }
        }
        j += 1;
    }
    proof {
        let pp = seq![par@];
        assert forall|c: int| 0 <= c < row@.len() && #[trigger] row@[c] != NEG implies {
            &&& value_ok(1, c, row@[c] as int)
            &&& places(qs@, hs@, chain(pp, 0, c), 1)
            &&& chain(pp, 0, c)[0] == c
            &&& placement_score(hs@, chain(pp, 0, c)) == row@[c]
        } by {
            assert(chain(pp, 0, c) == seq![c]);
        }
    }
    (row, par)
}

/// Row `n` from row `n - 1`: query char `n` placed at each position, either
/// right after its predecessor or after a gap.
fn next_row(qs: &Vec<char>, hs: &Vec<char>, n: usize, prev: &Vec<i32>, Ghost(par): Ghost<Seq<Seq<usize>>>) -> (r: (Vec<i32>, Vec<usize>))
    requires
        1 <= n < qs.len(),
        qs.len() <= hs.len() <= MAX_HAYSTACK_CHARS,
        par.len() == n,
        row_ok(qs@, hs@, par, n as int, prev@),
    ensures
        r.1@.len() == hs.len(),
        row_ok(qs@, hs@, par.push(r.1@), n + 1, r.0@),
{
    let h = hs.len();
    let mut row: Vec<i32> = Vec::new();
    let mut pv: Vec<usize> = Vec::new();
    let mut j: usize = 0;
    while j < n
        invariant
            1 <= n < qs.len() <= hs.len(),
            h == hs.len(),
            j <= n,
            row@.len() == j,
            pv@.len() == j,
            forall|c: int| 0 <= c < j ==> #[trigger] row@[c] == NEG,
        decreases n - j,
    {
        row.push(NEG);
        pv.push(usize::MAX);
        j += 1;
    }
    proof {
        assert forall|a: Seq<int>| #[trigger]
            places(qs@, hs@, a, n + 1) && a[n as int] < n implies row@[a[n as int]] != NEG
            && placement_score(hs@, a) <= row@[a[n as int]] by {
            lemma_places_floor(qs@, hs@, a, n + 1, n as int);
        }
    }
    let mut best_prev: i32 = NEG;
    let mut best_k: usize = usize::MAX;
    while j < h
        invariant
            1 <= n < qs.len() <= hs.len() <= MAX_HAYSTACK_CHARS,
            h == hs.len(),
            par.len() == n,
            row_ok(qs@, hs@, par, n as int, prev@),
            n <= j <= h,
            row@.len() == j,
            pv@.len() == j,
            // best_prev is the best gapped predecessor for position j - 1
            best_prev == NEG ==> forall|k: int| 0 <= k <= j - 3 ==> #[trigger] prev@[k] == NEG,
            best_prev != NEG ==> {
                &&& best_k <= j - 3
                &&& prev@[best_k as int] != NEG
                &&& best_prev == prev@[best_k as int] + best_k - j
                &&& 16 - j <= best_prev
                &&& forall|k: int|
                    0 <= k <= j - 3 && #[trigger] prev@[k] != NEG ==> prev@[k] + k - j <= best_prev
            },
            forall|c: int|
                0 <= c < j && #[trigger] row@[c] != NEG ==> {
                    &&& value_ok(n + 1, c, row@[c] as int)
                    &&& places(qs@, hs@, chain(par, n - 1, pv@[c] as int).push(c), n + 1)
                    &&& placement_score(hs@, chain(par, n - 1, pv@[c] as int).push(c)) == row@[c]
                },
            forall|a: Seq<int>| #[trigger]
                places(qs@, hs@, a, n + 1) && a[n as int] < j ==> row@[a[n as int]] != NEG
                    && placement_score(hs@, a) <= row@[a[n as int]],
        decreases h - j,
    {
        if best_prev > NEG {
            best_prev = best_prev + PENALTY_GAP_EXTEND;
        }
        if j >= 2 && prev[j - 2] > NEG {
            let candidate = prev[j - 2] + PENALTY_GAP_START;
            if candidate > best_prev {
                best_prev = candidate;
                best_k = j - 2;
            }
        }
        // best_prev now covers every gapped predecessor k <= j - 2 of j
        assert(best_prev == NEG ==> forall|k: int| 0 <= k <= j - 2 ==> #[trigger] prev@[k] == NEG);
        assert(best_prev != NEG ==> {
            &&& best_k <= j - 2
            &&& prev@[best_k as int] != NEG
            &&& best_prev == prev@[best_k as int] + best_k - j - 1
            &&& forall|k: int|
                0 <= k <= j - 2 && #[trigger] prev@[k] != NEG ==> prev@[k] + k - j - 1 <= best_prev
        });
        let ghost gp = best_prev;
        let ghost gk = best_k;
        if !smart_eq_v(qs[n], hs[j]) {
            row.push(NEG);
            pv.push(usize::MAX);
            proof {
                assert forall|a: Seq<int>| #[trigger]
                    places(qs@, hs@, a, n + 1) && a[n as int] < j + 1 implies row@[a[n as int]]
                    != NEG && placement_score(hs@, a) <= row@[a[n as int]] by {
                    if a[n as int] == j {
                        assert(smart_eq(qs@[n as int], hs@[a[n as int]]));
                    }
                }
            }
        } else {
            let b = bonus_v(hs, j);
            let consecutive: i32 = if prev[j - 1] > NEG {
                prev[j - 1] + MATCH_SCORE + BONUS_CONSECUTIVE + b
            } else {
                NEG
            };
            let gapped: i32 = if best_prev > NEG {
                best_prev + MATCH_SCORE + b
            } else {
                NEG
            };
            if consecutive >= gapped {
                if consecutive > NEG {
                    row.push(consecutive);
                    pv.push(j - 1);
                    proof {
                        let w = chain(par, n - 1, (j - 1) as int);
                        lemma_places_push(qs@, hs@, w, n as int, j as int);
                    }
                } else {
                    row.push(NEG);
                    pv.push(usize::MAX);
                }
            } else {
                row.push(gapped);
                pv.push(best_k);
                proof {
                    let w = chain(par, n - 1, best_k as int);
                    lemma_places_push(qs@, hs@, w, n as int, j as int);
                }
            }
            proof {
                assert forall|a: Seq<int>| #[trigger]
                    places(qs@, hs@, a, n + 1) && a[n as int] < j + 1 implies row@[a[n as int]]
                    != NEG && placement_score(hs@, a) <= row@[a[n as int]] by {
                    if a[n as int] == j {
                        lemma_places_last(qs@, hs@, a, n as int);
                        let k = a[n - 1];
                        assert(prev@[k] != NEG);
                        if k < j - 1 {
                            assert(prev@[k] + k - j - 1 <= gp);
                        }
                    }
                }
            }
        }
        j += 1;
    }
    proof {
        let pp = par.push(pv@);
        assert forall|c: int| 0 <= c < row@.len() && #[trigger] row@[c] != NEG implies {
            &&& value_ok(n + 1, c, row@[c] as int)
            &&& places(qs@, hs@, chain(pp, n as int, c), n + 1)
            &&& chain(pp, n as int, c)[n as int] == c
            &&& placement_score(hs@, chain(pp, n as int, c)) == row@[c]
        } by {
            lemma_chain_push(par, pv@, n - 1, pv@[c] as int);
            assert(pp[n as int] == pv@);
            assert(chain(pp, n as int, c) == chain(par, n - 1, pv@[c] as int).push(c));
        }
    }
    (row, pv)
}

/// Scores `query` against `haystack` (smart case, subsequence match with
/// affine gap penalties and boundary bonuses). Returns the highest score
/// over all placements of the query's non-whitespace chars and the char
/// indices of a placement reaching it; `None` when there is none. An empty
/// query matches with score 0 and no indices.
pub fn fuzzy_match(query: &str, haystack: &str) -> (r: Option<(i32, Vec<usize>)>)
    requires
        haystack@.len() <= MAX_HAYSTACK_CHARS,
    ensures
        fuzzy_result(drop_ws(query@), haystack@, r),
        r matches Some(p) ==> {
            &&& optimal(drop_ws(query@), haystack@, positions(p.1@))
            &&& best_score(drop_ws(query@), haystack@) == Some(p.0 as int)
            &&& p.0 > -(MAX_HAYSTACK_CHARS as int)
        },
        r is None <==> best_score(drop_ws(query@), haystack@) is None,
{
    let qs = query_chars(query);
    let hs = chars_of(haystack);
    if qs.len() == 0 {
        let r: Vec<usize> = Vec::new();
        proof {
            lemma_empty_optimal(qs@, hs@);
            assert(positions(r@) =~= Seq::empty());
        }
        return Some((0, r));
    }
    if qs.len() > hs.len() {
        proof {
            assert forall|a: Seq<int>| !#[trigger] places(qs@, hs@, a, qs@.len() as int) by {
                if places(qs@, hs@, a, qs@.len() as int) {
                    lemma_places_floor(qs@, hs@, a, qs@.len() as int, qs@.len() - 1);
                }
            }
        }
        return None;
    }
    let q = qs.len();
    let h = hs.len();
    let (row0, p0) = first_row(&qs, &hs);
    let ghost p0v = p0@;
    let mut par: Vec<Vec<usize>> = Vec::new();
    par.push(p0);
    proof {
        assert(par_views(par@) =~= seq![p0v]);
    }
    let mut row = row0;
    let mut i: usize = 1;
    while i < q
        invariant
            1 <= i <= q,
            q == qs.len(),
            h == hs.len(),
            q <= h <= MAX_HAYSTACK_CHARS,
            par@.len() == i,
            forall|t: int| 0 <= t < i ==> (#[trigger] par@[t])@.len() == h,
            row_ok(qs@, hs@, par_views(par@), i as int, row@),
        decreases q - i,
    {
        let (nr, np) = next_row(&qs, &hs, i, &row, Ghost(par_views(par@)));
        proof {
            assert(par_views(par@.push(np)) =~= par_views(par@).push(np@));
        }
        par.push(np);
        row = nr;
        i += 1;
    }
    let ghost pv = par_views(par@);
    // the best end position, first among equals
    let mut best_j: usize = usize::MAX;
    let mut best_score: i32 = NEG;
    let mut j: usize = 0;
    while j < h
        invariant
            j <= h,
            h == hs.len(),
            row@.len() == h,
            best_j == usize::MAX ==> best_score == NEG && forall|k: int|
                0 <= k < j ==> #[trigger] row@[k] == NEG,
            best_j != usize::MAX ==> best_j < j && best_score == row@[best_j as int]
                && best_score != NEG,
            row_ok(qs@, hs@, pv, q as int, row@),
            forall|k: int| 0 <= k < j && #[trigger] row@[k] != NEG ==> row@[k] <= best_score,
        decreases h - j,
    {
        if row[j] > best_score {
            best_score = row[j];
            best_j = j;
        }
        j += 1;
    }
    if best_j == usize::MAX {
        proof {
            assert forall|a: Seq<int>| !#[trigger] places(qs@, hs@, a, q as int) by {
                if places(qs@, hs@, a, q as int) {
                    assert(row@[a[q - 1]] != NEG);
                }
            }
        }
        return None;
    }
    let ghost w = chain(pv, q - 1, best_j as int);
    proof {
        lemma_chain_len(pv, q - 1, best_j as int);
        assert(row@[best_j as int] != NEG);
        assert(places(qs@, hs@, w, q as int));
    }
    let mut indices: Vec<usize> = Vec::new();
    let mut k: usize = 0;
    while k < q
        invariant
            k <= q,
            indices@.len() == k,
        decreases q - k,
    {
        indices.push(0);
        k += 1;
    }
    let mut cursor: usize = best_j;
    let mut i: usize = q;
    while i > 0
        invariant
            i <= q,
            q == qs.len(),
            h == hs.len(),
            par@.len() == q,
            pv == par_views(par@),
            forall|t: int| 0 <= t < q ==> (#[trigger] par@[t])@.len() == h,
            w == chain(pv, q - 1, best_j as int),
            places(qs@, hs@, w, q as int),
            indices@.len() == q,
            i > 0 ==> cursor == w[i - 1],
            forall|t: int| i <= t < q ==> #[trigger] indices@[t] == w[t],
        decreases i,
    {
        i -= 1;
        indices.set(i, cursor);
        if i > 0 {
            proof {
                lemma_chain_parent(pv, q - 1, best_j as int, i as int);
                assert(pv[i as int] == par@[i as int]@);
                assert(w[i - 1] == pv[i as int][w[i as int]] as int);
            }
            let ghost old_cursor = cursor;
            cursor = par[i][cursor];
            assert(cursor == par@[i as int]@[old_cursor as int]);
        }
    }
    proof {
        assert(positions(indices@) =~= w);
        assert forall|b: Seq<int>| #[trigger] places(qs@, hs@, b, q as int) implies placement_score(
            hs@,
            b,
        ) <= placement_score(hs@, w) by {
            assert(row@[b[q - 1]] != NEG);
        }
        lemma_best_score(qs@, hs@, w);
    }
    Some((best_score, indices))
}

} // verus!
