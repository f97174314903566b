//! Per-document heading anchors: a slug allocator that disambiguates
//! repeated heading slugs with `-1`, `-2`, … suffixes (GitHub's anchor
//! scheme), and the decimal numerals those suffixes are written in.
use crate::chars::string_of;
use crate::links::digits_value;
use crate::markdown::{heading_slug, slug};
use crate::text::push_str;
use vstd::prelude::*;
use vstd::set_lib::lemma_len_subset;

verus! {

/// The numeral char of a digit.
pub open spec fn digit_char(d: nat) -> char {
    (48 + d) as char
}

/// The decimal numeral of `n`, without leading zeros.
pub open spec fn decimal(n: nat) -> Seq<char>
    decreases n,
{
    if n < 10 {
        seq![digit_char(n)]
    } else {
        decimal(n / 10).push(digit_char(n % 10))
    }
}

/// Reading a numeral back gives the number.
pub proof fn lemma_decimal_value(n: nat)
    ensures
        digits_value(decimal(n)) == n,
        decimal(n).len() >= 1,
    decreases n,
{
    assert((digit_char(n % 10) as nat) == 48 + n % 10);
    assert(('0' as nat) == 48);
    if n < 10 {
        let d = decimal(n);
        assert(d.drop_last() =~= Seq::<char>::empty());
        assert(digits_value(d.drop_last()) == 0);
        assert(n % 10 == n);
        assert(digits_value(d) == n);
    } else {
        lemma_decimal_value(n / 10);
        let d = decimal(n);
        assert(d.drop_last() =~= decimal(n / 10));
        assert(d.last() == digit_char(n % 10));
        assert((n / 10) * 10 + n % 10 == n) by (nonlinear_arith);
        assert(digits_value(d) == digits_value(d.drop_last()) * 10 + (d.last() as nat - '0' as nat) as nat);
    }
}

/// The numeral of `n` as chars.
pub fn decimal_v(n: usize) -> (r: Vec<char>)
    ensures
        r@ == decimal(n as nat),
    decreases n,
{
    if n < 10 {
        let d: u8 = n as u8;
        vec![(48u8 + d) as char]
    } else {
        let mut r = decimal_v(n / 10);
        let d: u8 = (n % 10) as u8;
        r.push((48u8 + d) as char);
        r
    }
}

/// The numeral of a `u64` as chars.
pub fn decimal_u64_v(n: u64) -> (r: Vec<char>)
    ensures
        r@ == decimal(n as nat),
    decreases n,
{
    if n < 10 {
        let d: u8 = n as u8;
        vec![(48u8 + d) as char]
    } else {
        let mut r = decimal_u64_v(n / 10);
        let d: u8 = (n % 10) as u8;
        r.push((48u8 + d) as char);
        r
    }
}

/// The `n`-th candidate anchor for slug `base`: `base` itself, then
/// `base-1`, `base-2`, ….
pub open spec fn suffixed(base: Seq<char>, n: nat) -> Seq<char> {
    if n == 0 {
        base
    } else {
        base + seq!['-'] + decimal(n)
    }
}

pub proof fn lemma_suffixed_injective(base: Seq<char>, a: nat, b: nat)
    requires
        suffixed(base, a) == suffixed(base, b),
    ensures
        a == b,
{
    lemma_decimal_value(a);
    lemma_decimal_value(b);
    if a != 0 && b != 0 {
        let k: int = base.len() as int + 1;
        assert(suffixed(base, a).skip(k) =~= decimal(a));
        assert(suffixed(base, b).skip(k) =~= decimal(b));
    } else if a != 0 {
        assert(suffixed(base, a).len() > base.len());
    } else if b != 0 {
        assert(suffixed(base, b).len() > base.len());
    }
}

/// The first `m + 1` candidates of `base`.
pub open spec fn candidate_set(base: Seq<char>, m: nat) -> Set<Seq<char>>
    decreases m,
{
    if m == 0 {
        set![base]
    } else {
        candidate_set(base, (m - 1) as nat).insert(suffixed(base, m))
    }
}

pub proof fn lemma_candidate_set(base: Seq<char>, m: nat)
    ensures
        candidate_set(base, m).finite(),
        candidate_set(base, m).len() == m + 1,
        forall|s: Seq<char>| #[trigger]
            candidate_set(base, m).contains(s) ==> exists|k: nat| k <= m && s == suffixed(base, k),
        forall|k: nat| k <= m ==> #[trigger] candidate_set(base, m).contains(suffixed(base, k)),
    decreases m,
{
    if m > 0 {
        let prev = candidate_set(base, (m - 1) as nat);
        lemma_candidate_set(base, (m - 1) as nat);
        if prev.contains(suffixed(base, m)) {
            let k = choose|k: nat| k <= m - 1 && suffixed(base, m) == suffixed(base, k);
            lemma_suffixed_injective(base, m, k);
        }
        assert forall|k: nat| k <= m implies #[trigger] candidate_set(base, m).contains(
            suffixed(base, k),
        ) by {
            if k < m {
                assert(prev.contains(suffixed(base, k)));
            }
        }
    } else {
        assert(set![base].len() == 1);
        assert(base == suffixed(base, 0));
    }
}

/// A finite set of used anchors leaves a free candidate among the first
/// `used.len() + 1`.
pub proof fn lemma_free_candidate(used: Set<Seq<char>>, base: Seq<char>, n: nat)
    requires
        used.finite(),
        forall|k: nat| k <= n ==> #[trigger] used.contains(suffixed(base, k)),
    ensures
        n < used.len(),
{
    lemma_candidate_set(base, n);
    assert(candidate_set(base, n).subset_of(used)) by {
        assert forall|s: Seq<char>| #[trigger] candidate_set(base, n).contains(s) implies used.contains(s) by {
            let k = choose|k: nat| k <= n && s == suffixed(base, k);
        }
    }
    lemma_len_subset(candidate_set(base, n), used);
}

/// `n` is the first candidate of `base` not in `used`.
pub open spec fn first_free(used: Set<Seq<char>>, base: Seq<char>, n: nat) -> bool {
    &&& !used.contains(suffixed(base, n))
    &&& forall|k: nat| k < n ==> #[trigger] used.contains(suffixed(base, k))
}

/// What [`SlugAllocator::allocate`] does: with anchors `before` taken, the
/// heading text `text` gets the anchor `r` and leaves `after` taken. An
/// empty slug is handed out as-is and not recorded; any other slug gets its
/// first free candidate, which is then taken.
pub open spec fn allocated(before: Set<Seq<char>>, text: Seq<char>, r: Seq<char>, after: Set<Seq<char>>) -> bool {
    if slug(text).len() == 0 {
        r == slug(text) && after == before
    } else {
        &&& exists|n: nat| #[trigger] first_free(before, slug(text), n) && r == suffixed(slug(text), n)
        &&& after == before.insert(r)
    }
}

/// One allocator never hands out the same non-empty anchor twice: the
/// anchor of a second allocation differs from that of the first.
pub proof fn lemma_allocations_distinct(
    u0: Set<Seq<char>>,
    t1: Seq<char>,
    r1: Seq<char>,
    u1: Set<Seq<char>>,
    t2: Seq<char>,
    r2: Seq<char>,
    u2: Set<Seq<char>>,
)
    requires
        allocated(u0, t1, r1, u1),
        allocated(u1, t2, r2, u2),
        r1.len() > 0,
    ensures
        r2 != r1,
        u2.contains(r1),
{
    if slug(t2).len() > 0 {
        let n = choose|n: nat| #[trigger] first_free(u1, slug(t2), n) && r2 == suffixed(slug(t2), n);
    }
}

/// The first free candidate is unique.
pub proof fn lemma_first_free_unique(used: Set<Seq<char>>, base: Seq<char>, a: nat, b: nat)
    requires
        first_free(used, base, a),
        first_free(used, base, b),
    ensures
        a == b,
{
    if a < b {
        assert(used.contains(suffixed(base, a)));
    } else if b < a {
        assert(used.contains(suffixed(base, b)));
    }
}

/// What [`SlugAllocator::peek_duplicate`] reports for a heading is the
/// anchor the next [`SlugAllocator::allocate`] of it hands out.
pub proof fn lemma_peek_predicts_allocate(used: Set<Seq<char>>, text: Seq<char>, p: Seq<char>, r: Seq<char>, after: Set<Seq<char>>)
    requires
        exists|n: nat| #[trigger] first_free(used, slug(text), n) && p == suffixed(slug(text), n),
        allocated(used, text, r, after),
        slug(text).len() > 0,
    ensures
        p == r,
{
    let a = choose|n: nat| #[trigger] first_free(used, slug(text), n) && p == suffixed(slug(text), n);
    let b = choose|n: nat| #[trigger] first_free(used, slug(text), n) && r == suffixed(slug(text), n);
    lemma_first_free_unique(used, slug(text), a, b);
}

/// Allocates GitHub-style heading anchors for one document: a repeated
/// slug gets the first free `-1`, `-2`, … suffix.
#[derive(Debug)]
pub struct SlugAllocator {
    used: Vec<String>,
}

pub open spec fn used_set(v: Seq<String>) -> Set<Seq<char>> {
    v.map_values(|s: String| s@).to_set()
}

impl View for SlugAllocator {
    type V = Set<Seq<char>>;

    /// The anchors handed out so far.
    closed spec fn view(&self) -> Set<Seq<char>> {
        used_set(self.used@)
    }
}

impl Default for SlugAllocator {
    fn default() -> (r: Self)
        ensures
            r@ == Set::<Seq<char>>::empty(),
    {
        let r = SlugAllocator { used: Vec::new() };
        proof {
            assert(r.used@.map_values(|s: String| s@) =~= Seq::<Seq<char>>::empty());
            assert(used_set(r.used@) =~= Set::<Seq<char>>::empty());
        }
        r
    }
}

impl SlugAllocator {
    /// The set of anchors handed out so far is finite.
    pub proof fn lemma_finite(&self)
        ensures
            self@.finite(),
    {
        vstd::seq_lib::seq_to_set_is_finite(self.used@.map_values(|s: String| s@));
    }

    fn contains(&self, s: &Vec<char>) -> (r: bool)
        ensures
            r == self@.contains(s@),
    {
        let ghost vs = self.used@.map_values(|x: String| x@);
        let mut i: usize = 0;
        while i < self.used.len()
            invariant
                i <= self.used@.len(),
                vs == self.used@.map_values(|x: String| x@),
                forall|k: int| 0 <= k < i ==> #[trigger] vs[k] != s@,
            decreases self.used.len() - i,
        {
            let t = crate::chars::chars_of(self.used[i].as_str());
            if crate::markdown::eq_chars(t.as_slice(), s.as_slice()) {
                assert(vs[i as int] == s@);
                return true;
            }
            i += 1;
        }
        proof {
            if vs.to_set().contains(s@) {
                let k = choose|k: int| 0 <= k < vs.len() && vs[k] == s@;
            }
        }
        false
    }

    /// The first candidate of `base` not yet handed out, and its number.
    fn first_free_v(&self, base: &Vec<char>) -> (r: (Vec<char>, Ghost<nat>))
        ensures
            r.0@ == suffixed(base@, r.1@),
            first_free(self@, base@, r.1@),
    {
        proof {
            self.lemma_finite();
            self.used@.map_values(|x: String| x@).lemma_cardinality_of_set();
        }
        let mut slug = base.clone();
        let mut n: usize = 0;
        assert(self.used@.len() == self.used.len());
        while self.contains(&slug)
            invariant
                self.used@.len() <= usize::MAX,
                self@.finite(),
                self@.len() <= self.used@.len(),
                n <= self@.len(),
                slug@ == suffixed(base@, n as nat),
                forall|k: nat| k < n ==> #[trigger] self@.contains(suffixed(base@, k)),
            decreases self.used@.len() - n,
        {
            proof {
                assert forall|k: nat| k <= n implies #[trigger] self@.contains(suffixed(base@, k)) by {
                    if k == n {
                    }
                }
                lemma_free_candidate(self@, base@, n as nat);
            }
            n += 1;
            let digits = decimal_v(n);
            slug = base.clone();
            slug.push('-');
            crate::text::push_all(&mut slug, digits.as_slice());
            proof {
                assert(slug@ =~= suffixed(base@, n as nat));
            }
        }
        (slug, Ghost(n as nat))
    }

    /// Allocates the anchor for a heading text: its slug, suffixed with the
    /// first free `-n` when the slug is already taken, and records it. An
    /// empty slug is returned as-is and never recorded.
    pub fn allocate(&mut self, text: &str) -> (r: String)
        ensures
            allocated(old(self)@, text@, r@, final(self)@),
    {
        let base = heading_slug(text);
        if base.as_str().is_empty() {
            return base;
        }
        let bv = crate::chars::chars_of(base.as_str());
        let (slug_v, Ghost(n)) = self.first_free_v(&bv);
        let s = string_of(slug_v.as_slice());
        let ghost before = self.used@;
        self.used.push(s.clone());
        proof {
            assert(self.used@.map_values(|x: String| x@) =~= before.map_values(|x: String| x@).push(s@));
            assert(used_set(self.used@) =~= used_set(before).insert(s@)) by {
                before.map_values(|x: String| x@).lemma_push_to_set_commute(s@);
            }
        }
        s
    }

    /// The anchor [`SlugAllocator::allocate`] would hand out for `text` now,
    /// without recording it.
    pub fn peek_duplicate(&self, text: &str) -> (r: String)
        ensures
            exists|n: nat| #[trigger]
                first_free(self@, slug(text@), n) && r@ == suffixed(slug(text@), n),
    {
        let base = heading_slug(text);
        let bv = crate::chars::chars_of(base.as_str());
        let (slug_v, Ghost(n)) = self.first_free_v(&bv);
        string_of(slug_v.as_slice())
    }
}

} // verus!
