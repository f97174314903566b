//! Markdown link extraction, classification, and path-valued fields.
//!
//! OKF relationships are ordinary inline markdown links, so this module
//! scans `[text](dest)` links outside fenced code blocks and inline code
//! spans, classifies their targets (bundle-absolute, relative, external,
//! anchor), resolves internal ones to concept ids, and resolves the
//! path-valued frontmatter fields with the same path grammar. It also reads
//! the legacy numbered `# Citations` list.
use crate::chars::{ascii_alnum, ascii_alpha, ascii_digit, ascii_hex, chars_of, is_ascii_alnum, is_ascii_alpha, is_ascii_digit, is_ascii_hex, string_of};
use crate::concept_id::{string_views, valid_segments, ConceptId};
use crate::markdown::{
    clean_dest, clean_destination_v, code_free, code_free_lines_v, eq_ignore_case, escaped,
    inline_link, inline_link_v, is_escaped, numbered_views,
};
use crate::text::{
    ends_with, ends_with_v, has_char, has_char_v, index_of, index_of_v, join, join_v, lines, lines_v,
    next_char, slice_of, split, split_v, starts_with, starts_with_v, trim, trim_start_char,
    trim_start_char_v, trim_v, views,
};
use vstd::prelude::*;
use vstd::utf8::{decode_utf8, encode_utf8, valid_utf8};

verus! {

/// How a link target is interpreted.
#[derive(Clone, Copy, Debug, PartialEq, Eq, Hash, Structural)]
pub enum LinkKind {
    /// Begins with `/`: resolved relative to the bundle root (recommended).
    Absolute,
    /// A relative path such as `./other.md`.
    Relative,
    /// An external URI (`https://…`, `mailto:…`, …).
    External,
    /// A pure in-document anchor (`#section`).
    Anchor,
    /// Anything else (e.g. an empty target).
    Other,
}

/// The name of a link kind.
pub open spec fn kind_name(k: LinkKind) -> Seq<char> {
    match k {
        LinkKind::Absolute => seq!['a', 'b', 's', 'o', 'l', 'u', 't', 'e'],
        LinkKind::Relative => seq!['r', 'e', 'l', 'a', 't', 'i', 'v', 'e'],
        LinkKind::External => seq!['e', 'x', 't', 'e', 'r', 'n', 'a', 'l'],
        LinkKind::Anchor => seq!['a', 'n', 'c', 'h', 'o', 'r'],
        LinkKind::Other => seq!['o', 't', 'h', 'e', 'r'],
    }
}

impl LinkKind {
    /// Returns the string representation of this link kind.
    pub fn as_str(&self) -> (r: String)
        ensures
            r@ == kind_name(*self),
    {
        let v = match self {
            LinkKind::Absolute => vec!['a', 'b', 's', 'o', 'l', 'u', 't', 'e'],
            LinkKind::Relative => vec!['r', 'e', 'l', 'a', 't', 'i', 'v', 'e'],
            LinkKind::External => vec!['e', 'x', 't', 'e', 'r', 'n', 'a', 'l'],
            LinkKind::Anchor => vec!['a', 'n', 'c', 'h', 'o', 'r'],
            LinkKind::Other => vec!['o', 't', 'h', 'e', 'r'],
        };
        assert(v@ =~= kind_name(*self));
        string_of(&v)
    }

    /// Parses a kind name, trimmed and ignoring ASCII case.
    pub fn from_name(s: &str) -> (r: Result<LinkKind, ParseLinkKindError>)
        ensures
            r matches Ok(k) ==> eq_ignore_case(trim(s@), kind_name(k)),
            r is Err ==> forall|k: LinkKind| !eq_ignore_case(trim(s@), #[trigger] kind_name(k)),
            r matches Err(e) ==> e.0@ == trim(s@).map_values(|c: char| crate::chars::ascii_lower(c)),
    {
        let v = chars_of(s);
        let t = trim_v(&v);
        let kinds = [LinkKind::Absolute, LinkKind::Relative, LinkKind::External, LinkKind::Anchor, LinkKind::Other];
        let mut i: usize = 0;
        while i < 5
            invariant
                i <= 5,
                kinds@ == seq![LinkKind::Absolute, LinkKind::Relative, LinkKind::External, LinkKind::Anchor, LinkKind::Other],
                t@ == trim(s@),
                forall|j: int| 0 <= j < i ==> !eq_ignore_case(t@, kind_name(#[trigger] kinds@[j])),
            decreases 5 - i,
        {
            let name = kinds[i].as_str();
            let nv = chars_of(name.as_str());
            if crate::markdown::eq_ignore_case_v(&t, &nv) {
                return Ok(kinds[i]);
            }
            i += 1;
        }
        proof {
            assert forall|k: LinkKind| !eq_ignore_case(trim(s@), #[trigger] kind_name(k)) by {
                match k {
                    LinkKind::Absolute => assert(kinds@[0] == k),
                    LinkKind::Relative => assert(kinds@[1] == k),
                    LinkKind::External => assert(kinds@[2] == k),
                    LinkKind::Anchor => assert(kinds@[3] == k),
                    LinkKind::Other => assert(kinds@[4] == k),
                }
            }
        }
        let mut lowered: Vec<char> = Vec::new();
        let mut j: usize = 0;
        while j < t.len()
            invariant
                j <= t@.len(),
                lowered@ == t@.take(j as int).map_values(|c: char| crate::chars::ascii_lower(c)),
            decreases t.len() - j,
        {
            lowered.push(crate::chars::to_ascii_lower(t[j]));
            proof {
                assert(t@.take(j + 1).map_values(|c: char| crate::chars::ascii_lower(c)) =~= t@.take(j as int).map_values(|c: char| crate::chars::ascii_lower(c)).push(crate::chars::ascii_lower(t@[j as int])));
            }
            j += 1;
        }
        proof {
            assert(t@.take(j as int) =~= t@);
        }
        Err(ParseLinkKindError(string_of(&lowered)))
    }
}

impl std::str::FromStr for LinkKind {
    type Err = ParseLinkKindError;

    /// Parses a kind name (see [`LinkKind::from_name`]).
    fn from_str(s: &str) -> Result<LinkKind, ParseLinkKindError> {
        LinkKind::from_name(s)
    }
}

/// Error returned when a string cannot be parsed into a [`LinkKind`].
#[derive(Clone, Debug, PartialEq, Eq)]
pub struct ParseLinkKindError(pub String);

/// A markdown link found in a concept body.
#[derive(Clone, Debug, PartialEq, Eq)]
pub struct Link {
    /// The link text (between `[` and `]`).
    pub text: String,
    /// The raw destination (between `(` and `)`), with any title removed.
    pub target: String,
    /// The classification of [`Link::target`].
    pub kind: LinkKind,
}

/// A scheme character after the first: letter, digit, `+`, `-`, or `.`.
pub open spec fn scheme_char(c: char) -> bool {
    is_ascii_alnum(c) || c == '+' || c == '-' || c == '.'
}

/// `t` starts with `scheme:`, the scheme being `ALPHA *( ALPHA / DIGIT / "+" /
/// "-" / "." )`.
pub open spec fn uri_scheme(t: Seq<char>) -> bool {
    match index_of(t, ':') {
        None => false,
        Some(k) => k > 0 && is_ascii_alpha(t[0]) && forall|i: int| 1 <= i < k ==> scheme_char(#[trigger] t[i]),
    }
}

/// Names something outside the bundle: protocol-relative or with a scheme.
pub open spec fn external(t: Seq<char>) -> bool {
    starts_with(t, seq!['/', '/']) || uri_scheme(t)
}

/// How a target is classified.
pub open spec fn classify_spec(target: Seq<char>) -> LinkKind {
    let t = trim(target);
    if t.len() == 0 {
        LinkKind::Other
    } else if t[0] == '#' {
        LinkKind::Anchor
    } else if external(t) {
        LinkKind::External
    } else if t[0] == '/' {
        LinkKind::Absolute
    } else {
        LinkKind::Relative
    }
}

pub fn has_uri_scheme_v(t: &[char]) -> (r: bool)
    ensures
        r == uri_scheme(t@),
{
    let k = match index_of_v(t, ':') {
        Some(k) => k,
        None => return false,
    };
    if k == 0 || !ascii_alpha(t[0]) {
        return false;
    }
    let mut i: usize = 1;
    while i < k
        invariant
            1 <= i <= k,
            k < t@.len(),
            index_of(t@, ':') == Some(k as int),
            forall|j: int| 1 <= j < i ==> scheme_char(#[trigger] t@[j]),
        decreases k - i,
    {
        let c = t[i];
        if !(ascii_alnum(c) || c == '+' || c == '-' || c == '.') {
            assert(!scheme_char(t@[i as int]));
            assert(index_of(t@, ':') == Some(k as int));
            return false;
        }
        i += 1;
    }
    true
}

/// Matches `scheme:` where scheme is `ALPHA *( ALPHA / DIGIT / "+" / "-" / "." )`.
pub fn has_uri_scheme(t: &str) -> (r: bool)
    ensures
        r == uri_scheme(t@),
{
    let v = chars_of(t);
    has_uri_scheme_v(&v)
}

pub fn is_external_v(t: &[char]) -> (r: bool)
    ensures
        r == external(t@),
{
    let p = vec!['/', '/'];
    assert(p@ =~= seq!['/', '/']);
    starts_with_v(t, &p) || has_uri_scheme_v(t)
}

/// Whether a target names something outside the bundle: a protocol-relative
/// URL or any RFC-3986 scheme prefix (`https:`, `mailto:`, `bigquery:`).
pub fn is_external(t: &str) -> (r: bool)
    ensures
        r == external(t@),
{
    let v = chars_of(t);
    is_external_v(&v)
}

pub fn classify_v(target: &[char]) -> (r: LinkKind)
    ensures
        r == classify_spec(target@),
{
    let t = trim_v(target);
    if t.len() == 0 {
        LinkKind::Other
    } else if t[0] == '#' {
        LinkKind::Anchor
    } else if is_external_v(&t) {
        LinkKind::External
    } else if t[0] == '/' {
        LinkKind::Absolute
    } else {
        LinkKind::Relative
    }
}

/// The target up to its first `#`.
pub open spec fn strip_anchor_spec(target: Seq<char>) -> Seq<char> {
    match index_of(target, '#') {
        Some(i) => target.subrange(0, i),
        None => target,
    }
}

pub fn strip_anchor_v(target: &[char]) -> (r: Vec<char>)
    ensures
        r@ == strip_anchor_spec(target@),
{
    match index_of_v(target, '#') {
        Some(i) => slice_of(target, 0, i),
        None => slice_of(target, 0, target.len()),
    }
}

/// The target with any anchor fragment removed.
pub fn strip_anchor(target: &str) -> (r: String)
    ensures
        r@ == strip_anchor_spec(target@),
{
    let v = chars_of(target);
    let r = strip_anchor_v(&v);
    proof {
        if index_of(target@, '#') is None {
            assert(v@.subrange(0, v@.len() as int) =~= v@);
        }
    }
    string_of(&r)
}

impl Link {
    /// Classifies a raw target string.
    pub fn classify(target: &str) -> (r: LinkKind)
        ensures
            r == classify_spec(target@),
    {
        let v = chars_of(target);
        classify_v(&v)
    }

    /// Returns the target with any anchor fragment removed.
    pub fn target_without_anchor(&self) -> (r: String)
        ensures
            r@ == strip_anchor_spec(self.target@),
    {
        strip_anchor(self.target.as_str())
    }

    /// Returns the anchor fragment, if one was present: the text after the
    /// first `#`.
    pub fn anchor(&self) -> (r: Option<String>)
        ensures
            r matches Some(a) ==> index_of(self.target@, '#') matches Some(i) && a@ == self.target@.subrange(i + 1, self.target@.len() as int),
            r is None ==> index_of(self.target@, '#') is None,
    {
        let v = chars_of(self.target.as_str());
        match index_of_v(&v, '#') {
            Some(i) => {
                let a = slice_of(&v, i + 1, v.len());
                Some(string_of(&a))
            },
            None => None,
        }
    }
}

// ---------------------------------------------------------------------------
// Percent-decoding.
// ---------------------------------------------------------------------------

/// An ASCII hexadecimal digit byte.
pub open spec fn hex_byte(b: u8) -> bool {
    (48 <= b <= 57) || (97 <= b <= 102) || (65 <= b <= 70)
}

/// The value of a hexadecimal digit byte.
pub open spec fn hex_value(b: u8) -> int {
    if 48 <= b <= 57 {
        b - 48
    } else if 97 <= b <= 102 {
        b - 87
    } else {
        b - 55
    }
}

/// Percent-decoding of bytes from `i`: each `%` followed by two hex digits
/// becomes the byte they spell; the flag says whether any escape was decoded.
pub open spec fn pct_scan(b: Seq<u8>, i: int) -> (Seq<u8>, bool)
    decreases b.len() - i,
{
    if i < 0 || i >= b.len() {
        (Seq::empty(), false)
    } else if b[i] == 37 && i + 3 <= b.len() && hex_byte(b[i + 1]) && hex_byte(b[i + 2]) {
        let r = pct_scan(b, i + 3);
        (seq![(hex_value(b[i + 1]) * 16 + hex_value(b[i + 2])) as u8] + r.0, true)
    } else {
        let r = pct_scan(b, i + 1);
        (seq![b[i]] + r.0, r.1)
    }
}

/// The percent-decoded reading of a destination: `None` when it holds no
/// `%`, decodes no escape, or decodes to invalid UTF-8.
pub open spec fn percent_decoded(s: Seq<char>) -> Option<Seq<char>> {
    if !has_char(s, '%') {
        None
    } else {
        let r = pct_scan(encode_utf8(s), 0);
        if r.1 && valid_utf8(r.0) {
            Some(decode_utf8(r.0))
        } else {
            None
        }
    }
}

/// Calls `String::from_utf8`, which succeeds exactly on valid UTF-8 and then
/// holds the decoded characters.
#[verifier::external_body]
fn string_from_utf8(bytes: Vec<u8>) -> (r: Option<String>)
    ensures
        r is Some <==> valid_utf8(bytes@),
        r matches Some(s) ==> s@ == decode_utf8(bytes@),
{
    String::from_utf8(bytes).ok()
}

fn hex_byte_v(b: u8) -> (r: bool)
    ensures
        r == hex_byte(b),
{
    (48 <= b && b <= 57) || (97 <= b && b <= 102) || (65 <= b && b <= 70)
}

fn hex_value_v(b: u8) -> (r: u8)
    requires
        hex_byte(b),
    ensures
        r == hex_value(b),
        r < 16,
{
    if 48 <= b && b <= 57 {
        b - 48
    } else if 97 <= b && b <= 102 {
        b - 87
    } else {
        b - 55
    }
}

/// Percent-decodes a link destination, or `None` if there is nothing to decode
/// or the result is not valid UTF-8.
pub fn percent_decode(s: &str) -> (r: Option<String>)
    ensures
        r matches Some(d) ==> percent_decoded(s@) == Some(d@),
        r is None ==> percent_decoded(s@) is None,
{
    let v = chars_of(s);
    if !has_char_v(&v, '%') {
        return None;
    }
    let bytes = s.as_bytes();
    let n = bytes.len();
    let ghost whole = pct_scan(bytes@, 0);
    let mut out: Vec<u8> = Vec::new();
    let mut decoded_any = false;
    let mut i: usize = 0;
    while i < n
        invariant
            n == bytes@.len(),
            i <= n,
            whole == pct_scan(bytes@, 0),
            out@ + pct_scan(bytes@, i as int).0 == whole.0,
            (decoded_any || pct_scan(bytes@, i as int).1) == whole.1,
        decreases n - i,
    {
        let ghost before = out@;
        if bytes[i] == 37 && n - i >= 3 && hex_byte_v(bytes[i + 1]) && hex_byte_v(bytes[i + 2]) {
            let hi = hex_value_v(bytes[i + 1]);
            let lo = hex_value_v(bytes[i + 2]);
            out.push(hi * 16 + lo);
            decoded_any = true;
            assert(out@ + pct_scan(bytes@, i + 3).0 =~= before + pct_scan(bytes@, i as int).0);
            i += 3;
        } else {
            out.push(bytes[i]);
            assert(out@ + pct_scan(bytes@, i + 1).0 =~= before + pct_scan(bytes@, i as int).0);
            i += 1;
        }
    }
    assert(out@ =~= whole.0);
    if !decoded_any {
        return None;
    }
    string_from_utf8(out)
}

// ---------------------------------------------------------------------------
// Path resolution.
// ---------------------------------------------------------------------------

/// `.`/`..`/empty components resolved against `acc`, left to right; `..` at
/// the root is invalid.
pub open spec fn norm(comps: Seq<Seq<char>>, acc: Seq<Seq<char>>) -> Option<Seq<Seq<char>>>
    decreases comps.len(),
{
    if comps.len() == 0 {
        Some(acc)
    } else {
        let c = comps[0];
        if c.len() == 0 || c == seq!['.'] {
            norm(comps.drop_first(), acc)
        } else if c == seq!['.', '.'] {
            if acc.len() == 0 {
                None
            } else {
                norm(comps.drop_first(), acc.drop_last())
            }
        } else {
            norm(comps.drop_first(), acc.push(c))
        }
    }
}

/// A `/`-separated path resolved against `base`.
pub open spec fn normalize(path: Seq<char>, base: Seq<Seq<char>>) -> Option<Seq<Seq<char>>> {
    norm(split(path, '/'), base)
}

/// `.md` dropped from the last segment; `None` without segments.
pub open spec fn strip_md_spec(segs: Seq<Seq<char>>) -> Option<Seq<Seq<char>>> {
    if segs.len() == 0 {
        None
    } else {
        let last = segs.last();
        let stem = if ends_with(last, seq!['.', 'm', 'd']) {
            last.subrange(0, last.len() - 3)
        } else {
            last
        };
        Some(segs.drop_last().push(stem))
    }
}

/// The concept id segments a path resolves to against `base`, when they
/// form a valid id.
pub open spec fn resolve_from(t: Seq<char>, base: Seq<Seq<char>>) -> Option<Seq<Seq<char>>> {
    match normalize(t, base) {
        None => None,
        Some(segs) => match strip_md_spec(segs) {
            None => None,
            Some(s2) => if valid_segments(s2) {
                Some(s2)
            } else {
                None
            },
        },
    }
}

/// An absolute target's concept id: not a directory (`/` at the end).
pub open spec fn resolve_abs(t: Seq<char>) -> Option<Seq<Seq<char>>> {
    if ends_with(t, seq!['/']) {
        None
    } else {
        resolve_from(t, Seq::empty())
    }
}

/// A relative target's concept id, from the directory of `source`.
pub open spec fn resolve_rel(t: Seq<char>, source: Seq<Seq<char>>) -> Option<Seq<Seq<char>>> {
    if t.len() == 0 || ends_with(t, seq!['/']) {
        None
    } else {
        resolve_from(t, source.drop_last())
    }
}

fn seg_views_vec(v: &Vec<String>) -> (r: Vec<Vec<char>>)
    ensures
        views(r@) == string_views(v@),
{
    let mut r: Vec<Vec<char>> = Vec::new();
    let mut i: usize = 0;
    while i < v.len()
        invariant
            i <= v@.len(),
            views(r@) == string_views(v@).take(i as int),
        decreases v.len() - i,
    {
        let ghost before = views(r@);
        let c = chars_of(v[i].as_str());
        r.push(c);
        assert(views(r@) =~= before.push(string_views(v@)[i as int]));
        i += 1;
        assert(views(r@) =~= string_views(v@).take(i as int));
    }
    assert(string_views(v@).take(i as int) =~= string_views(v@));
    r
}

fn strings_of(v: &Vec<Vec<char>>) -> (r: Vec<String>)
    ensures
        string_views(r@) == views(v@),
{
    let mut r: Vec<String> = Vec::new();
    let mut i: usize = 0;
    while i < v.len()
        invariant
            i <= v@.len(),
            string_views(r@) == views(v@).take(i as int),
        decreases v.len() - i,
    {
        let ghost before = string_views(r@);
        let s = string_of(&v[i]);
        r.push(s);
        assert(string_views(r@) =~= before.push(views(v@)[i as int]));
        i += 1;
        assert(string_views(r@) =~= views(v@).take(i as int));
    }
    assert(views(v@).take(i as int) =~= views(v@));
    r
}

/// Resolves `.`/`..`/empty components in a `/`-separated path against `base`.
///
/// A `..` at the bundle root is invalid rather than being allowed to
/// disappear.
pub fn normalize_segments_v(path: &[char], base: &Vec<Vec<char>>) -> (r: Option<Vec<Vec<char>>>)
    ensures
        r matches Some(v) ==> normalize(path@, views(base@)) == Some(views(v@)),
        r is None ==> normalize(path@, views(base@)) is None,
{
    let comps = split_v(path, '/');
    let ghost gc = split(path@, '/');
    let mut segs: Vec<Vec<char>> = Vec::new();
    let mut i: usize = 0;
    while i < base.len()
        invariant
            i <= base@.len(),
            views(segs@) == views(base@).take(i as int),
        decreases base.len() - i,
    {
        let ghost before = views(segs@);
        segs.push(slice_of(&base[i], 0, base[i].len()));
        assert(base@[i as int]@.subrange(0, base@[i as int]@.len() as int) =~= base@[i as int]@);
        assert(views(segs@) =~= before.push(views(base@)[i as int]));
        i += 1;
        assert(views(segs@) =~= views(base@).take(i as int));
    }
    assert(views(base@).take(i as int) =~= views(base@));
    let dot = vec!['.'];
    let dotdot = vec!['.', '.'];
    assert(dot@ =~= seq!['.']);
    assert(dotdot@ =~= seq!['.', '.']);
    let mut k: usize = 0;
    assert(gc.skip(0) =~= gc);
    while k < comps.len()
        invariant
            views(comps@) == gc,
            gc == split(path@, '/'),
            dot@ == seq!['.'],
            dotdot@ == seq!['.', '.'],
            k <= comps@.len(),
            norm(gc, views(base@)) == norm(gc.skip(k as int), views(segs@)),
        decreases comps.len() - k,
    {
        let c = &comps[k];
        assert(c@ == gc[k as int]);
        assert(gc.skip(k as int).drop_first() =~= gc.skip(k + 1));
        assert(gc.skip(k as int)[0] == gc[k as int]);
        let ghost before = views(segs@);
        if c.len() == 0 || crate::markdown::eq_chars(c, &dot) {
        } else if crate::markdown::eq_chars(c, &dotdot) {
            if segs.len() == 0 {
                return None;
            }
            segs.pop();
            assert(views(segs@) =~= before.drop_last());
        } else {
            segs.push(slice_of(c, 0, c.len()));
            assert(c@.subrange(0, c@.len() as int) =~= c@);
            assert(views(segs@) =~= before.push(c@));
        }
        k += 1;
    }
    assert(gc.skip(k as int) =~= Seq::<Seq<char>>::empty());
    Some(segs)
}

fn strip_md_v(segs: Vec<Vec<char>>) -> (r: Option<Vec<Vec<char>>>)
    ensures
        r matches Some(v) ==> strip_md_spec(views(segs@)) == Some(views(v@)),
        r is None ==> strip_md_spec(views(segs@)) is None,
{
    let mut segs = segs;
    let ghost before = views(segs@);
    match segs.pop() {
        None => None,
        Some(last) => {
            let md = vec!['.', 'm', 'd'];
            assert(md@ =~= seq!['.', 'm', 'd']);
            let stem = if ends_with_v(&last, &md) {
                slice_of(&last, 0, last.len() - 3)
            } else {
                last
            };
            assert(views(segs@) =~= before.drop_last());
            segs.push(stem);
            assert(views(segs@) =~= before.drop_last().push(stem@));
            Some(segs)
        },
    }
}

fn id_of(segs: Vec<Vec<char>>) -> (r: Option<ConceptId>)
    ensures
        r matches Some(id) ==> valid_segments(views(segs@)) && id@ == views(segs@),
        r is None ==> !valid_segments(views(segs@)),
{
    let strings = strings_of(&segs);
    match ConceptId::new(strings) {
        Ok(id) => Some(id),
        Err(_) => None,
    }
}

fn resolve_from_v(t: &[char], base: &Vec<Vec<char>>) -> (r: Option<ConceptId>)
    ensures
        r matches Some(id) ==> resolve_from(t@, views(base@)) == Some(id@),
        r is None ==> resolve_from(t@, views(base@)) is None,
{
    match normalize_segments_v(t, base) {
        None => None,
        Some(segs) => match strip_md_v(segs) {
            None => None,
            Some(s2) => id_of(s2),
        },
    }
}

/// The absolute target's concept id.
pub fn resolve_absolute_path(t: &[char]) -> (r: Option<ConceptId>)
    ensures
        r matches Some(id) ==> resolve_abs(t@) == Some(id@),
        r is None ==> resolve_abs(t@) is None,
{
    let slash = vec!['/'];
    assert(slash@ =~= seq!['/']);
    if ends_with_v(t, &slash) {
        return None;
    }
    let base: Vec<Vec<char>> = Vec::new();
    assert(views(base@) =~= Seq::<Seq<char>>::empty());
    resolve_from_v(t, &base)
}

/// The directory segments of a concept id.
fn dir_of(source: &ConceptId) -> (r: Vec<Vec<char>>)
    ensures
        views(r@) == source@.drop_last(),
{
    let segs = seg_views_vec(source.segments());
    let mut r = segs;
    let ghost before = views(r@);
    r.pop();
    assert(views(r@) =~= before.drop_last());
    r
}

/// The relative target's concept id, from the directory of `source`.
pub fn resolve_relative_path(t: &[char], source: &ConceptId) -> (r: Option<ConceptId>)
    ensures
        r matches Some(id) ==> resolve_rel(t@, source@) == Some(id@),
        r is None ==> resolve_rel(t@, source@) is None,
{
    let slash = vec!['/'];
    assert(slash@ =~= seq!['/']);
    if t.len() == 0 || ends_with_v(t, &slash) {
        return None;
    }
    let base = dir_of(source);
    resolve_from_v(t, &base)
}

/// The concept id one reading of a target names, by its kind.
pub open spec fn candidate(kind: LinkKind, t: Seq<char>, source: Seq<Seq<char>>) -> Option<Seq<Seq<char>>> {
    match kind {
        LinkKind::Absolute => resolve_abs(t),
        LinkKind::Relative => resolve_rel(t, source),
        _ => None,
    }
}

/// Every concept id a link may denote, most likely first: the literal
/// reading of the target without its anchor, then the percent-decoded one
/// when it differs.
pub open spec fn resolve_all_spec(target: Seq<char>, kind: LinkKind, source: Seq<Seq<char>>) -> Seq<Seq<Seq<char>>> {
    let t = strip_anchor_spec(target);
    let first = match candidate(kind, t, source) {
        Some(id) => seq![id],
        None => Seq::empty(),
    };
    match percent_decoded(t) {
        None => first,
        Some(d) => match candidate(kind, d, source) {
            Some(id) => if first.contains(id) {
                first
            } else {
                first.push(id)
            },
            None => first,
        },
    }
}

/// Only internal links resolve: an external URL, an in-page anchor or any
/// other target denotes no concept, whatever page it appears on.
pub proof fn lemma_only_internal_links_resolve(target: Seq<char>, kind: LinkKind, source: Seq<Seq<char>>)
    requires
        !(kind is Absolute || kind is Relative),
    ensures
        resolve_all_spec(target, kind, source).len() == 0,
{
}

/// A relative link that climbs above the bundle root with `..` and holds no
/// percent-escape denotes no concept.
pub proof fn lemma_climbing_above_root_resolves_nothing(target: Seq<char>, source: Seq<Seq<char>>)
    requires
        source.len() == 1,
        split(strip_anchor_spec(target), '/').len() > 0,
        split(strip_anchor_spec(target), '/')[0] == seq!['.', '.'],
        percent_decoded(strip_anchor_spec(target)) is None,
    ensures
        resolve_all_spec(target, LinkKind::Relative, source).len() == 0,
{
    let t = strip_anchor_spec(target);
    let comps = split(t, '/');
    assert(comps[0].len() == 2);
    assert(comps[0] != seq!['.']);
    assert(source.drop_last().len() == 0);
    assert(norm(comps, source.drop_last()) is None);
    assert(resolve_rel(t, source) is None);
}

proof fn lemma_encode_ends_with_slash(t: Seq<char>)
    requires
        t.len() > 0,
        t.last() == '/',
    ensures
        encode_utf8(t).len() > 0,
        encode_utf8(t).last() == 47u8,
        t.len() == 1 ==> encode_utf8(t) == seq![47u8],
    decreases t.len(),
{
    if t.len() == 1 {
        assert(t[0] == '/');
        assert((47u32 & 0x7F) as u8 == 47u8) by (bit_vector);
        assert(encode_utf8(t.drop_first()) =~= Seq::<u8>::empty());
        assert(encode_utf8(t) =~= seq![47u8]);
    } else {
        lemma_encode_ends_with_slash(t.drop_first());
        let head = vstd::utf8::encode_scalar(t[0] as u32);
        assert(encode_utf8(t) == head + encode_utf8(t.drop_first()));
    }
}

proof fn lemma_pct_scan_ends_with_slash(b: Seq<u8>, i: int)
    requires
        0 <= i < b.len(),
        b.last() == 47u8,
    ensures
        pct_scan(b, i).0.len() > 0,
        pct_scan(b, i).0.last() == 47u8,
    decreases b.len() - i,
{
    if b[i] == 37 && i + 3 <= b.len() && hex_byte(b[i + 1]) && hex_byte(b[i + 2]) {
        if i + 3 == b.len() {
            assert(b[i + 2] == b.last());
        } else {
            lemma_pct_scan_ends_with_slash(b, i + 3);
        }
    } else if i + 1 < b.len() {
        lemma_pct_scan_ends_with_slash(b, i + 1);
    } else {
        assert(b[i] == b.last());
        assert(pct_scan(b, i + 1).0 =~= Seq::<u8>::empty());
    }
}

/// Percent-decoding keeps a trailing `/`: the decoded reading of a
/// directory-like target is directory-like too.
pub proof fn lemma_decoded_keeps_trailing_slash(t: Seq<char>)
    requires
        ends_with(t, seq!['/']),
        percent_decoded(t) is Some,
    ensures
        ends_with(percent_decoded(t).unwrap(), seq!['/']),
{
    assert(t.last() == t.subrange(t.len() - 1, t.len() as int)[0]);
    lemma_encode_ends_with_slash(t);
    let b = encode_utf8(t);
    lemma_pct_scan_ends_with_slash(b, 0);
    let r = pct_scan(b, 0).0;
    let n = r.len() - 1;
    assert(r[n] == 47u8);
    assert(vstd::utf8::is_leading_byte_width_1(47u8)) by (bit_vector);
    vstd::utf8::is_char_boundary_iff_is_leading_byte(r, n);
    vstd::utf8::decode_utf8_split(r, n);
    let last = r.subrange(n, r.len() as int);
    assert(last =~= seq![47u8]);
    assert((47u32 & 0x7F) as u8 == 47u8) by (bit_vector);
    lemma_encode_ends_with_slash(seq!['/']);
    vstd::utf8::encode_utf8_decode_utf8(seq!['/']);
    let d = decode_utf8(r);
    assert(d =~= decode_utf8(r.subrange(0, n)) + seq!['/']);
    assert(d.subrange(d.len() - 1, d.len() as int) =~= seq!['/']);
}

/// A target that names a directory (a `/` at its end, anchor aside)
/// denotes no concept, on its literal reading and on its decoded one.
pub proof fn lemma_directory_targets_resolve_nothing(target: Seq<char>, kind: LinkKind, source: Seq<Seq<char>>)
    requires
        ends_with(strip_anchor_spec(target), seq!['/']),
    ensures
        resolve_all_spec(target, kind, source).len() == 0,
{
    let t = strip_anchor_spec(target);
    if percent_decoded(t) is Some {
        lemma_decoded_keeps_trailing_slash(t);
        let d = percent_decoded(t).unwrap();
        assert(candidate(kind, d, source) is None);
    }
    assert(candidate(kind, t, source) is None);
}

/// The ids held by a vector of concept ids.
pub open spec fn id_views(v: Seq<ConceptId>) -> Seq<Seq<Seq<char>>> {
    Seq::new(v.len(), |i: int| v[i]@)
}

fn candidate_v(kind: LinkKind, t: &[char], source: &ConceptId) -> (r: Option<ConceptId>)
    ensures
        r matches Some(id) ==> candidate(kind, t@, source@) == Some(id@),
        r is None ==> candidate(kind, t@, source@) is None,
{
    match kind {
        LinkKind::Absolute => resolve_absolute_path(t),
        LinkKind::Relative => resolve_relative_path(t, source),
        _ => None,
    }
}

impl Link {
    /// Every concept id this link may denote, most likely first.
    ///
    /// A markdown destination is a URL, so a concept whose filename contains
    /// a space is normally linked as `/tables/my%20notes.md`; decoding is
    /// offered as a second candidate rather than applied outright.
    pub fn resolve_all(&self, source: &ConceptId) -> (r: Vec<ConceptId>)
        ensures
            id_views(r@) == resolve_all_spec(self.target@, self.kind, source@),
    {
        let tv = chars_of(self.target.as_str());
        let target = strip_anchor_v(&tv);
        let mut out: Vec<ConceptId> = Vec::new();
        match candidate_v(self.kind, &target, source) {
            Some(id) => {
                out.push(id);
            },
            None => {},
        }
        assert(id_views(out@) =~= match candidate(self.kind, target@, source@) {
            Some(id) => seq![id],
            None => Seq::empty(),
        });
        let ts = string_of(&target);
        match percent_decode(ts.as_str()) {
            None => {},
            Some(decoded) => {
                let dv = chars_of(decoded.as_str());
                match candidate_v(self.kind, &dv, source) {
                    Some(id) => {
                        let mut seen = false;
                        let mut j: usize = 0;
                        while j < out.len()
                            invariant
                                j <= out@.len(),
                                seen == exists|m: int| 0 <= m < j && out@[m]@ == id@,
                            decreases out.len() - j,
                        {
                            if out[j].same(&id) {
                                seen = true;
                            }
                            j += 1;
                        }
                        let ghost before = id_views(out@);
                        proof {
                            if seen {
                                let m = choose|m: int| 0 <= m < j && out@[m]@ == id@;
                                assert(before[m] == id@);
                            } else {
                                assert forall|m: int| 0 <= m < before.len() implies before[m] != id@ by {
                                    assert(before[m] == out@[m]@);
                                }
                            }
                        }
                        if !seen {
                            out.push(id);
                            assert(id_views(out@) =~= before.push(id@));
                        }
                    },
                    None => {},
                }
            },
        }
        out
    }

    /// Resolves an internal link to the concept id it points at, given the
    /// id of the concept the link appears in: the literal reading first.
    pub fn resolve(&self, source: &ConceptId) -> (r: Option<ConceptId>)
        ensures
            r matches Some(id) ==> resolve_all_spec(self.target@, self.kind, source@).len() > 0
                && id@ == resolve_all_spec(self.target@, self.kind, source@)[0],
            r is None ==> resolve_all_spec(self.target@, self.kind, source@).len() == 0,
    {
        let mut all = self.resolve_all(source);
        if all.len() == 0 {
            None
        } else {
            assert(id_views(all@)[0] == all@[0]@);
            Some(all.remove(0))
        }
    }
}

// ---------------------------------------------------------------------------
// Path-valued fields.
// ---------------------------------------------------------------------------

/// The non-empty sequences among `s`, in order.
pub open spec fn non_empty(s: Seq<Seq<char>>) -> Seq<Seq<char>>
    decreases s.len(),
{
    if s.len() == 0 {
        Seq::empty()
    } else if s.last().len() > 0 {
        non_empty(s.drop_last()).push(s.last())
    } else {
        non_empty(s.drop_last())
    }
}

/// The bundle-relative paths a path-valued frontmatter field may name, most
/// likely first: an absolute path resolved from the root; a relative path
/// read both from the concept's directory and from the root (each once,
/// empty ones dropped); nothing for URLs and anchors. Extensions are kept.
pub open spec fn field_candidates(raw: Seq<char>, from: Seq<Seq<char>>) -> Seq<Seq<char>> {
    let target = trim(raw);
    let stripped = strip_anchor_spec(target);
    match classify_spec(target) {
        LinkKind::Absolute => match normalize(stripped, Seq::empty()) {
            Some(segs) => seq![join(segs, seq!['/'])],
            None => Seq::empty(),
        },
        LinkKind::Relative => {
            let first = match normalize(stripped, from.drop_last()) {
                Some(p) => seq![join(p, seq!['/'])],
                None => Seq::empty(),
            };
            let both = match normalize(stripped, Seq::empty()) {
                Some(p) => if first.contains(join(p, seq!['/'])) {
                    first
                } else {
                    first.push(join(p, seq!['/']))
                },
                None => first,
            };
            non_empty(both)
        },
        _ => Seq::empty(),
    }
}

fn joined(segs: &Vec<Vec<char>>) -> (r: Vec<char>)
    ensures
        r@ == join(views(segs@), seq!['/']),
{
    let sep = vec!['/'];
    assert(sep@ =~= seq!['/']);
    join_v(segs, &sep)
}

/// Normalizes a **path-valued frontmatter field** into the bundle-relative
/// paths it might name, most likely first.
///
/// `resource`, `sources[].resource`, `computation`, `executor.resource`, and
/// `attester.resource` accept an absolute URL, a bundle-relative path
/// beginning with `/`, or a relative path. A relative path yields two
/// candidates, from the concept's directory and from the bundle root.
/// Unlike [`Link::resolve`], the paths keep their file extension.
pub fn field_path_candidates(raw: &str, from: &ConceptId) -> (r: Vec<String>)
    ensures
        string_views(r@) == field_candidates(raw@, from@),
{
    let rv = chars_of(raw);
    let target = trim_v(&rv);
    let stripped = strip_anchor_v(&target);
    let empty: Vec<Vec<char>> = Vec::new();
    assert(views(empty@) =~= Seq::<Seq<char>>::empty());
    match classify_v(&target) {
        LinkKind::Absolute => {
            let mut out: Vec<String> = Vec::new();
            match normalize_segments_v(&stripped, &empty) {
                Some(segs) => {
                    let j = joined(&segs);
                    out.push(string_of(&j));
                    assert(string_views(out@) =~= seq![j@]);
                },
                None => {
                    assert(string_views(out@) =~= Seq::<Seq<char>>::empty());
                },
            }
            out
        },
        LinkKind::Relative => {
            let base = dir_of(from);
            let mut out: Vec<Vec<char>> = Vec::new();
            match normalize_segments_v(&stripped, &base) {
                Some(p) => {
                    out.push(joined(&p));
                },
                None => {},
            }
            let ghost first = views(out@);
            assert(first =~= match normalize(stripped@, from@.drop_last()) {
                Some(p) => seq![join(p, seq!['/'])],
                None => Seq::<Seq<char>>::empty(),
            });
            match normalize_segments_v(&stripped, &empty) {
                Some(p) => {
                    let fr = joined(&p);
                    let mut seen = false;
                    if out.len() > 0 && crate::markdown::eq_chars(&out[0], &fr) {
                        seen = true;
                    }
                    proof {
                        if seen {
                            assert(first[0] == fr@);
                            assert(first.contains(fr@));
                        } else {
                            assert forall|m: int| 0 <= m < first.len() implies first[m] != fr@ by {}
                            assert(!first.contains(fr@));
                        }
                    }
                    if !seen {
                        out.push(fr);
                        assert(views(out@) =~= first.push(fr@));
                    }
                },
                None => {},
            }
            let ghost both = views(out@);
            assert(both == match normalize(stripped@, Seq::empty()) {
                Some(p) => if first.contains(join(p, seq!['/'])) {
                    first
                } else {
                    first.push(join(p, seq!['/']))
                },
                None => first,
            });
            let mut kept: Vec<String> = Vec::new();
            let mut i: usize = 0;
            while i < out.len()
                invariant
                    i <= out@.len(),
                    both == views(out@),
                    string_views(kept@) == non_empty(both.take(i as int)),
                decreases out.len() - i,
            {
                let ghost before = string_views(kept@);
                assert(both.take(i + 1).drop_last() =~= both.take(i as int));
                if out[i].len() > 0 {
                    kept.push(string_of(&out[i]));
                    assert(string_views(kept@) =~= before.push(both[i as int]));
                } else {
                    assert(both[i as int].len() == 0);
                }
                i += 1;
            }
            assert(both.take(i as int) =~= both);
            kept
        },
        _ => {
            let out: Vec<String> = Vec::new();
            assert(string_views(out@) =~= Seq::<Seq<char>>::empty());
            out
        },
    }
}

/// The concept id a bundle-relative markdown path denotes: the path less
/// its `.md`, when it has one and the rest is a valid id.
pub open spec fn id_for_path(path: Seq<char>) -> Option<Seq<Seq<char>>> {
    if !ends_with(path, seq!['.', 'm', 'd']) {
        None
    } else {
        let stem = path.subrange(0, path.len() - 3);
        if valid_segments(split(stem, '/')) {
            Some(split(stem, '/'))
        } else {
            None
        }
    }
}

/// The concept id a bundle-relative markdown path denotes, or `None` if the
/// path is not a `.md` file or is not a valid id.
pub fn concept_id_for_path(path: &str) -> (r: Option<ConceptId>)
    ensures
        r matches Some(id) ==> id_for_path(path@) == Some(id@),
        r is None ==> id_for_path(path@) is None,
{
    let v = chars_of(path);
    let md = vec!['.', 'm', 'd'];
    assert(md@ =~= seq!['.', 'm', 'd']);
    if !ends_with_v(&v, &md) {
        return None;
    }
    let stem = slice_of(&v, 0, v.len() - 3);
    let s = string_of(&stem);
    match ConceptId::parse(s.as_str()) {
        Ok(id) => Some(id),
        Err(_) => None,
    }
}

// ---------------------------------------------------------------------------
// Link extraction.
// ---------------------------------------------------------------------------

/// The `(text, cleaned target)` of every inline link in a code-free line
/// from `i`.
pub open spec fn link_scan(c: Seq<char>, i: int) -> Seq<(Seq<char>, Seq<char>)>
    decreases c.len() - i,
{
    if i < 0 || i >= c.len() {
        Seq::empty()
    } else if c[i] == '[' && !escaped(c, i) && inline_link(c, i) is Some && i < inline_link(c, i).unwrap().2 <= c.len() {
        let (text, dest, next) = inline_link(c, i).unwrap();
        seq![(text, clean_dest(dest))] + link_scan(c, next)
    } else {
        link_scan(c, i + 1)
    }
}

/// The links of code-free rows, row by row.
pub open spec fn links_of_rows(rows: Seq<(int, Seq<char>)>) -> Seq<(Seq<char>, Seq<char>)>
    decreases rows.len(),
{
    if rows.len() == 0 {
        Seq::empty()
    } else {
        links_of_rows(rows.drop_last()) + link_scan(rows.last().1, 0)
    }
}

/// The `(text, target)` of every link in a body, outside code.
pub open spec fn body_links(body: Seq<char>) -> Seq<(Seq<char>, Seq<char>)> {
    links_of_rows(code_free(body))
}

/// A link value agrees with a `(text, target)` pair, its kind classified
/// from the target.
pub open spec fn link_is(l: Link, p: (Seq<char>, Seq<char>)) -> bool {
    l.text@ == p.0 && l.target@ == p.1 && l.kind == classify_spec(p.1)
}

/// Scans a single (code-free) line for `[text](dest)` links, appending them.
pub fn scan_line_links(line: &[char], out: &mut Vec<Link>)
    ensures
        final(out)@.len() == old(out)@.len() + link_scan(line@, 0).len(),
        forall|k: int| 0 <= k < old(out)@.len() ==> final(out)@[k] == old(out)@[k],
        forall|k: int| 0 <= k < link_scan(line@, 0).len() ==> link_is(#[trigger] final(out)@[old(out)@.len() + k], link_scan(line@, 0)[k]),
{
    let ghost start = out@;
    let ghost whole = link_scan(line@, 0);
    let mut i: usize = 0;
    while i < line.len()
        invariant
            i <= line@.len(),
            whole == link_scan(line@, 0),
            out@.len() >= start.len(),
            forall|k: int| 0 <= k < start.len() ==> out@[k] == start[k],
            out@.len() - start.len() + link_scan(line@, i as int).len() == whole.len(),
            forall|k: int| 0 <= k < out@.len() - start.len() ==> link_is(#[trigger] out@[start.len() + k], whole[k]),
            forall|k: int| 0 <= k < link_scan(line@, i as int).len() ==> whole[out@.len() - start.len() + k] == #[trigger] link_scan(line@, i as int)[k],
        decreases line.len() - i,
    {
        let mut advanced = false;
        if line[i] == '[' && !is_escaped(line, i) {
            match inline_link_v(line, i) {
                Some((text, dest, next)) => {
                    proof {
                        crate::markdown::lemma_inline_link(line@, i as int);
                    }
                    let target = clean_destination_v(&dest);
                    let kind = classify_v(&target);
                    let ghost done = out@.len() - start.len();
                    let ghost rest = link_scan(line@, next as int);
                    assert(link_scan(line@, i as int) =~= seq![(text@, clean_dest(dest@))] + rest);
                    assert(link_scan(line@, i as int)[0] == (text@, clean_dest(dest@)));
                    assert(whole[done] == (text@, clean_dest(dest@)));
                    out.push(Link { text: string_of(&text), target: string_of(&target), kind });
                    assert forall|k: int| 0 <= k < rest.len() implies whole[out@.len() - start.len() + k] == #[trigger] rest[k] by {
                        assert(link_scan(line@, i as int)[k + 1] == rest[k]);
                    }
                    i = next;
                    advanced = true;
                },
                None => {},
            }
        }
        if !advanced {
            i += 1;
        }
    }
}

/// Extracts all inline markdown links from a body, skipping fenced code
/// blocks and inline code spans.
pub fn extract_links(body: &str) -> (r: Vec<Link>)
    ensures
        r@.len() == body_links(body@).len(),
        forall|k: int| 0 <= k < r@.len() ==> link_is(#[trigger] r@[k], body_links(body@)[k]),
{
    let bv = chars_of(body);
    let rows = code_free_lines_v(&bv);
    let ghost grows = numbered_views(rows@);
    let mut links: Vec<Link> = Vec::new();
    let mut i: usize = 0;
    while i < rows.len()
        invariant
            grows == numbered_views(rows@),
            grows == code_free(body@),
            i <= rows@.len(),
            links@.len() == links_of_rows(grows.take(i as int)).len(),
            forall|k: int| 0 <= k < links@.len() ==> link_is(#[trigger] links@[k], links_of_rows(grows.take(i as int))[k]),
        decreases rows.len() - i,
    {
        let ghost before = links@;
        let ghost prev = links_of_rows(grows.take(i as int));
        assert(grows.take(i + 1).drop_last() =~= grows.take(i as int));
        assert(grows.take(i + 1).last().1 == rows@[i as int].1@);
        scan_line_links(&rows[i].1, &mut links);
        let ghost added = link_scan(rows@[i as int].1@, 0);
        assert(links_of_rows(grows.take(i + 1)) == prev + added);
        assert forall|k: int| 0 <= k < links@.len() implies link_is(#[trigger] links@[k], links_of_rows(grows.take(i + 1))[k]) by {
            if k < before.len() {
                assert(links@[k] == before[k]);
            } else {
                assert(links@[before.len() + (k - before.len())] == links@[k]);
            }
        }
        i += 1;
    }
    assert(grows.take(i as int) =~= grows);
    links
}

// ---------------------------------------------------------------------------
// Legacy citations.
// ---------------------------------------------------------------------------

/// A numbered entry under a legacy v0.1 `# Citations` heading.
#[derive(Clone, Debug, PartialEq, Eq)]
pub struct Citation {
    /// The citation number (the `n` in `[n]`).
    pub number: u32,
    /// The link text, if the entry is a markdown link.
    pub text: Option<String>,
    /// The cited URL/target, if present.
    pub target: Option<String>,
    /// The full raw text of the entry after the `[n]` marker.
    pub raw: String,
}

/// The value of a string of decimal digits.
pub open spec fn digits_value(s: Seq<char>) -> nat
    decreases s.len(),
{
    if s.len() == 0 {
        0
    } else {
        digits_value(s.drop_last()) * 10 + (s.last() as nat - '0' as nat) as nat
    }
}

/// The digits of an unsigned number: the text after an optional `+`.
pub open spec fn unsigned_digits(s: Seq<char>) -> Seq<char> {
    if s.len() > 0 && s[0] == '+' {
        s.drop_first()
    } else {
        s
    }
}

/// Every character is an ASCII digit.
pub open spec fn all_digits(d: Seq<char>) -> bool {
    forall|i: int| 0 <= i < d.len() ==> is_ascii_digit(#[trigger] d[i])
}

/// `str::parse::<u32>`: an optional `+`, then one or more ASCII digits whose
/// value fits in a `u32`.
pub open spec fn parse_u32(s: Seq<char>) -> Option<nat> {
    let d = unsigned_digits(s);
    if d.len() == 0 || !all_digits(d) {
        None
    } else if digits_value(d) > u32::MAX {
        None
    } else {
        Some(digits_value(d))
    }
}

pub proof fn lemma_digits_grow(s: Seq<char>, k: int)
    requires
        0 <= k <= s.len(),
        forall|i: int| 0 <= i < s.len() ==> is_ascii_digit(#[trigger] s[i]),
    ensures
        digits_value(s.take(k)) <= digits_value(s),
    decreases s.len() - k,
{
    if k < s.len() {
        lemma_digits_grow(s, k + 1);
        assert(s.take(k + 1).drop_last() =~= s.take(k));
    } else {
        assert(s.take(k) =~= s);
    }
}

pub fn parse_u32_v(s: &[char]) -> (r: Option<u32>)
    ensures
        r matches Some(n) ==> parse_u32(s@) == Some(n as nat),
        r is None ==> parse_u32(s@) is None,
{
    let start: usize = if s.len() > 0 && s[0] == '+' { 1 } else { 0 };
    let d = slice_of(s, start, s.len());
    assert(start == 1 ==> d@ =~= s@.drop_first());
    assert(start == 0 ==> d@ =~= s@);
    assert(d@ == unsigned_digits(s@));
    if d.len() == 0 {
        return None;
    }
    let mut i: usize = 0;
    while i < d.len()
        invariant
            i <= d@.len(),
            d@ == unsigned_digits(s@),
            forall|k: int| 0 <= k < i ==> is_ascii_digit(#[trigger] d@[k]),
        decreases d.len() - i,
    {
        if !ascii_digit(d[i]) {
            assert(!is_ascii_digit(d@[i as int]));
            return None;
        }
        i += 1;
    }
    let mut value: u64 = 0;
    let mut j: usize = 0;
    while j < d.len()
        invariant
            j <= d@.len(),
            d@.len() > 0,
            d@ == unsigned_digits(s@),
            forall|k: int| 0 <= k < d@.len() ==> is_ascii_digit(#[trigger] d@[k]),
            value == digits_value(d@.take(j as int)),
            value <= u32::MAX,
        decreases d.len() - j,
    {
        assert(d@.take(j + 1).drop_last() =~= d@.take(j as int));
        let digit: u64 = (d[j] as u32 - '0' as u32) as u64;
        value = value * 10 + digit;
        j += 1;
        if value > 4294967295u64 {
            proof {
                lemma_digits_grow(d@, j as int);
                assert(digits_value(d@) > u32::MAX);
            }
            return None;
        }
    }
    assert(d@.take(j as int) =~= d@);
    Some(value as u32)
}

/// The citation spelled by one trimmed line `[n] rest`: its number, the
/// text and cleaned target of the first inline link in the rest, and the
/// trimmed rest.
pub open spec fn citation_line(line: Seq<char>) -> Option<(nat, Option<Seq<char>>, Option<Seq<char>>, Seq<char>)> {
    if !(line.len() > 0 && line[0] == '[') {
        None
    } else {
        let rest = line.drop_first();
        match index_of(rest, ']') {
            None => None,
            Some(close) => match parse_u32(trim(rest.subrange(0, close))) {
                None => None,
                Some(number) => {
                    let after = trim(rest.subrange(close + 1, rest.len() as int));
                    let link = match index_of(after, '[') {
                        Some(open) => inline_link(after, open),
                        None => None,
                    };
                    match link {
                        Some((t, d, _)) => Some((number, Some(t), Some(clean_dest(d)), after)),
                        None => Some((number, None, None, after)),
                    }
                },
            },
        }
    }
}

/// The citation title: a `#` heading's text without the `#`s.
pub open spec fn cit_title(t: Seq<char>) -> Seq<char> {
    trim(trim_start_char(t.drop_first(), '#'))
}

/// The word `citations`.
pub open spec fn citations_word() -> Seq<char> {
    seq!['c', 'i', 't', 'a', 't', 'i', 'o', 'n', 's']
}

/// The citations of lines from `i`: entries of the first section headed
/// `# Citations` (any level, ASCII case ignored), up to the next heading.
pub open spec fn cit_from(ls: Seq<Seq<char>>, i: int, in_section: bool) -> Seq<(nat, Option<Seq<char>>, Option<Seq<char>>, Seq<char>)>
    decreases ls.len() - i,
{
    if i < 0 || i >= ls.len() {
        Seq::empty()
    } else {
        let t = trim(ls[i]);
        if t.len() > 0 && t[0] == '#' {
            if in_section {
                Seq::empty()
            } else {
                cit_from(ls, i + 1, eq_ignore_case(cit_title(t), citations_word()))
            }
        } else if !in_section || t.len() == 0 {
            cit_from(ls, i + 1, in_section)
        } else {
            match citation_line(t) {
                Some(c) => seq![c] + cit_from(ls, i + 1, in_section),
                None => cit_from(ls, i + 1, in_section),
            }
        }
    }
}

/// A text with every ASCII capital letter lowered.
pub open spec fn lowered(s: Seq<char>) -> Seq<char> {
    s.map_values(|c: char| crate::chars::ascii_lower(c))
}

/// A heading whose title reads `citations` once lowered (`# Citations`,
/// `## CITATIONS`, ...) opens the citations section: what follows it is
/// read as the section's entries.
pub proof fn lemma_citations_heading_opens(ls: Seq<Seq<char>>, i: int)
    requires
        0 <= i < ls.len(),
        trim(ls[i]).len() > 0,
        trim(ls[i])[0] == '#',
        lowered(cit_title(trim(ls[i]))) == citations_word(),
    ensures
        cit_from(ls, i, false) == cit_from(ls, i + 1, true),
{
    let t = cit_title(trim(ls[i]));
    assert(t.len() == lowered(t).len());
    assert forall|k: int| 0 <= k < t.len() implies crate::chars::ascii_lower(#[trigger] t[k])
        == crate::chars::ascii_lower(citations_word()[k]) by {
        assert(lowered(t)[k] == crate::chars::ascii_lower(t[k]));
    }
    assert(eq_ignore_case(t, citations_word()));
}

/// Inside the citations section, a numbered entry line contributes its
/// citation first, and the next heading ends the section.
pub proof fn lemma_citations_section_reads_entries(ls: Seq<Seq<char>>, i: int)
    requires
        0 <= i < ls.len(),
    ensures
        trim(ls[i]).len() > 0 && trim(ls[i])[0] == '#' ==> cit_from(ls, i, true).len() == 0,
        (trim(ls[i]).len() > 0 && trim(ls[i])[0] != '#' && citation_line(trim(ls[i])) is Some) ==> cit_from(ls, i, true)
            == seq![citation_line(trim(ls[i])).unwrap()] + cit_from(ls, i + 1, true),
{
}

/// A body that starts with a `# Citations` heading (in any ASCII case)
/// followed by an entry line yields that entry as its first citation.
pub proof fn lemma_first_entry_under_citations(body: Seq<char>)
    requires
        lines(body).len() >= 2,
        trim(lines(body)[0]).len() > 0,
        trim(lines(body)[0])[0] == '#',
        lowered(cit_title(trim(lines(body)[0]))) == citations_word(),
        trim(lines(body)[1]).len() > 0,
        trim(lines(body)[1])[0] != '#',
        citation_line(trim(lines(body)[1])) is Some,
    ensures
        citations(body).len() > 0,
        citations(body)[0] == citation_line(trim(lines(body)[1])).unwrap(),
{
    let ls = lines(body);
    lemma_citations_heading_opens(ls, 0);
    lemma_citations_section_reads_entries(ls, 1);
}

/// The citations of a body.
pub open spec fn citations(body: Seq<char>) -> Seq<(nat, Option<Seq<char>>, Option<Seq<char>>, Seq<char>)> {
    cit_from(lines(body), 0, false)
}

/// The view of an optional string.
pub open spec fn opt_view(o: Option<String>) -> Option<Seq<char>> {
    match o {
        Some(s) => Some(s@),
        None => None,
    }
}

/// The view of a citation.
pub open spec fn citation_view(c: Citation) -> (nat, Option<Seq<char>>, Option<Seq<char>>, Seq<char>) {
    (c.number as nat, opt_view(c.text), opt_view(c.target), c.raw@)
}

fn citation_line_v(line: &[char]) -> (r: Option<Citation>)
    ensures
        r matches Some(c) ==> citation_line(line@) == Some(citation_view(c)),
        r is None ==> citation_line(line@) is None,
{
    if !(line.len() > 0 && line[0] == '[') {
        return None;
    }
    let rest = slice_of(line, 1, line.len());
    assert(rest@ =~= line@.drop_first());
    let close = match index_of_v(&rest, ']') {
        Some(c) => c,
        None => return None,
    };
    let num_part = slice_of(&rest, 0, close);
    let num_trim = trim_v(&num_part);
    let number = match parse_u32_v(&num_trim) {
        Some(n) => n,
        None => return None,
    };
    let after_raw = slice_of(&rest, close + 1, rest.len());
    let after = trim_v(&after_raw);
    let (text, target) = match index_of_v(&after, '[') {
        Some(open) => match inline_link_v(&after, open) {
            Some((t, d, _)) => {
                let cd = clean_destination_v(&d);
                (Some(string_of(&t)), Some(string_of(&cd)))
            },
            None => (None, None),
        },
        None => (None, None),
    };
    Some(Citation { number, text, target, raw: string_of(&after) })
}

/// Parses a single `[n] …` citation line.
pub fn parse_citation_line(line: &str) -> (r: Option<Citation>)
    ensures
        r matches Some(c) ==> citation_line(line@) == Some(citation_view(c)),
        r is None ==> citation_line(line@) is None,
{
    let v = chars_of(line);
    citation_line_v(&v)
}

/// Extracts numbered citation entries from the `# Citations` section.
pub fn extract_citations(body: &str) -> (r: Vec<Citation>)
    ensures
        Seq::new(r@.len(), |k: int| citation_view(r@[k])) == citations(body@),
{
    let bv = chars_of(body);
    let ls = lines_v(&bv);
    let ghost gl = lines(body@);
    let ghost whole = citations(body@);
    let word = vec!['c', 'i', 't', 'a', 't', 'i', 'o', 'n', 's'];
    assert(word@ =~= citations_word());
    let mut out: Vec<Citation> = Vec::new();
    let mut in_section = false;
    let mut i: usize = 0;
    while i < ls.len()
        invariant
            views(ls@) == gl,
            gl == lines(body@),
            whole == cit_from(gl, 0, false),
            word@ == citations_word(),
            i <= ls@.len(),
            Seq::new(out@.len(), |k: int| citation_view(out@[k])) + cit_from(gl, i as int, in_section) == whole,
        decreases ls.len() - i,
    {
        let ghost before = Seq::new(out@.len(), |k: int| citation_view(out@[k]));
        let line = &ls[i];
        assert(line@ == gl[i as int]);
        let t = trim_v(line);
        if t.len() > 0 && t[0] == '#' {
            if in_section {
                assert(cit_from(gl, i as int, in_section) =~= Seq::empty());
                assert(cit_from(gl, ls@.len() as int, in_section) =~= Seq::empty());
                i = ls.len();
            } else {
                let after_hash = slice_of(&t, 1, t.len());
                assert(after_hash@ =~= t@.drop_first());
                let h = trim_start_char_v(&after_hash, '#');
                let title = trim_v(&h);
                in_section = crate::markdown::eq_ignore_case_v(&title, &word);
                i += 1;
            }
        } else if !in_section || t.len() == 0 {
            i += 1;
        } else {
            match citation_line_v(&t) {
                Some(c) => {
                    let ghost cv = citation_view(c);
                    out.push(c);
                    assert(Seq::new(out@.len(), |k: int| citation_view(out@[k])) =~= before.push(cv));
                    assert(before.push(cv) + cit_from(gl, i + 1, in_section) =~= before + cit_from(gl, i as int, in_section));
                },
                None => {},
            }
            i += 1;
        }
    }
    assert(cit_from(gl, i as int, in_section) =~= Seq::empty());
    assert(Seq::new(out@.len(), |k: int| citation_view(out@[k])) =~= whole);
    out
}

} // verus!
