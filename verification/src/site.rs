//! The static site's page layout and script fragments: where each page lands
//! in the output tree, the theme catalog entries, the boot script that
//! applies a stored theme before first paint, and the escaping that keeps
//! generated text inert inside scripts and diagrams.
use crate::chars::{char_to_upper, chars_of, is_ws, string_of, upper_mapping, whitespace};
use crate::concept_id::{valid_segment, valid_segments, ConceptId};
use crate::config::{
    joined_path, scheme_pref_name, ConfigError, ConfigErrorKind, Scheme, SchemePref, ThemeModel, Themes,
    AUTO_THEME_ID, CONFIG_PATH, DEFAULT_THEME_ID,
};
use crate::lifecycle::{Status, TrustTier};
use crate::markdown::{extract_headings, heading_views, headings};
use crate::slugs::{allocated, SlugAllocator};
use crate::search::{lex_less, seq_lt};
use crate::text::{join, push_all, push_str, views};
use vstd::prelude::*;

verus! {

/// Where a generated page lives in the output tree, mirroring the bundle
/// layout so relative links deploy under any base path.
#[derive(Clone, Debug)]
pub enum PagePath {
    /// A concept page: `<concept path>.html`.
    Concept(ConceptId),
    /// The trust dashboard and landing page: `index.html`.
    Dashboard,
    /// The bundle-wide graph: `__okf/graph.html`.
    Graph,
    /// A subdirectory listing page: `<dir>/index.html`.
    Directory(ConceptId),
}

/// `index.html`
pub open spec fn index_html() -> Seq<char> {
    seq!['i', 'n', 'd', 'e', 'x', '.', 'h', 't', 'm', 'l']
}

/// The output path of a page relative to the site root.
pub open spec fn page_rel(p: PagePath) -> Seq<char> {
    match p {
        PagePath::Concept(id) => join(id@, seq!['/']) + seq!['.', 'h', 't', 'm', 'l'],
        PagePath::Dashboard => index_html(),
        PagePath::Graph => seq!['_', '_', 'o', 'k', 'f', '/', 'g', 'r', 'a', 'p', 'h', '.', 'h', 't', 'm', 'l'],
        PagePath::Directory(id) => join(id@, seq!['/']) + seq!['/'] + index_html(),
    }
}

/// How many directory levels a page sits below the site root.
pub open spec fn page_depth(p: PagePath) -> int {
    match p {
        PagePath::Concept(id) => id@.len() - 1,
        PagePath::Directory(id) => id@.len() as int,
        PagePath::Graph => 1,
        PagePath::Dashboard => 0,
    }
}

/// How many `/` a text holds.
pub open spec fn slash_count(s: Seq<char>) -> int
    decreases s.len(),
{
    if s.len() == 0 {
        0
    } else {
        slash_count(s.drop_last()) + if s.last() == '/' { 1int } else { 0 }
    }
}

proof fn lemma_slash_count_concat(a: Seq<char>, b: Seq<char>)
    ensures
        slash_count(a + b) == slash_count(a) + slash_count(b),
    decreases b.len(),
{
    if b.len() == 0 {
        assert(a + b =~= a);
    } else {
        lemma_slash_count_concat(a, b.drop_last());
        assert((a + b).drop_last() =~= a + b.drop_last());
    }
}

proof fn lemma_slash_one()
    ensures
        slash_count(seq!['/']) == 1,
{
    let s = seq!['/'];
    assert(s.drop_last() =~= Seq::<char>::empty());
    assert(slash_count(s.drop_last()) == 0);
}

proof fn lemma_slash_count_none(s: Seq<char>)
    requires
        forall|i: int| 0 <= i < s.len() ==> s[i] != '/',
    ensures
        slash_count(s) == 0,
    decreases s.len(),
{
    if s.len() > 0 {
        lemma_slash_count_none(s.drop_last());
    }
}

proof fn lemma_slash_count_join(segs: Seq<Seq<char>>)
    requires
        valid_segments(segs),
    ensures
        slash_count(join(segs, seq!['/'])) == segs.len() - 1,
    decreases segs.len(),
{
    lemma_slash_count_none(segs.last());
    if segs.len() > 1 {
        let front = segs.drop_last();
        assert forall|i: int| 0 <= i < front.len() implies valid_segment(#[trigger] front[i]) by {
            assert(front[i] == segs[i]);
        }
        lemma_slash_count_join(front);
        lemma_slash_count_concat(join(front, seq!['/']), seq!['/']);
        lemma_slash_count_concat(join(front, seq!['/']) + seq!['/'], segs.last());
        lemma_slash_one();
    } else {
        assert(valid_segment(segs[0]));
    }
}

/// The ids a page is named by are valid concept ids.
pub open spec fn page_ids_valid(p: PagePath) -> bool {
    match p {
        PagePath::Concept(id) => valid_segments(id@),
        PagePath::Directory(id) => valid_segments(id@),
        _ => true,
    }
}

/// A page's depth is the number of `/` in its output path: the `../` a
/// relative link from it climbs are exactly the directories it sits in.
pub proof fn lemma_depth_counts_slashes(p: PagePath)
    requires
        page_ids_valid(p),
    ensures
        page_depth(p) == slash_count(page_rel(p)),
{
    let html = seq!['.', 'h', 't', 'm', 'l'];
    lemma_slash_count_none(html);
    lemma_slash_count_none(index_html());
    match p {
        PagePath::Concept(id) => {
            lemma_slash_count_join(id@);
            lemma_slash_count_concat(join(id@, seq!['/']), html);
        },
        PagePath::Directory(id) => {
            lemma_slash_count_join(id@);
            lemma_slash_count_concat(join(id@, seq!['/']), seq!['/']);
            lemma_slash_count_concat(join(id@, seq!['/']) + seq!['/'], index_html());
            lemma_slash_one();
        },
        PagePath::Graph => {
            let g = seq!['_', '_', 'o', 'k', 'f', '/', 'g', 'r', 'a', 'p', 'h', '.', 'h', 't', 'm', 'l'];
            let a = seq!['_', '_', 'o', 'k', 'f', '/'];
            let b = seq!['g', 'r', 'a', 'p', 'h', '.', 'h', 't', 'm', 'l'];
            assert(g =~= a + b);
            lemma_slash_count_concat(a, b);
            lemma_slash_count_none(b);
            lemma_slash_count_none(a.drop_last());
            assert(a.drop_last().len() == 5);
        },
        PagePath::Dashboard => {},
    }
}

impl PagePath {
    /// The output path relative to the site root, `/`-separated.
    pub fn rel(&self) -> (r: String)
        ensures
            r@ == page_rel(*self),
    {
        let mut v: Vec<char> = Vec::new();
        match self {
            PagePath::Concept(id) => {
                let p = id.to_path();
                push_str(&mut v, p.as_str());
                let ext = vec!['.', 'h', 't', 'm', 'l'];
                push_all(&mut v, ext.as_slice());
            },
            PagePath::Dashboard => {
                v = vec!['i', 'n', 'd', 'e', 'x', '.', 'h', 't', 'm', 'l'];
            },
            PagePath::Graph => {
                v = vec!['_', '_', 'o', 'k', 'f', '/', 'g', 'r', 'a', 'p', 'h', '.', 'h', 't', 'm', 'l'];
            },
            PagePath::Directory(id) => {
                let p = id.to_path();
                push_str(&mut v, p.as_str());
                let tail = vec!['/', 'i', 'n', 'd', 'e', 'x', '.', 'h', 't', 'm', 'l'];
                push_all(&mut v, tail.as_slice());
            },
        }
        proof {
            assert(v@ =~= page_rel(*self));
        }
        string_of(v.as_slice())
    }

    /// How deep the page sits below the site root: the number of `../` a
    /// relative link from it must climb.
    pub fn depth(&self) -> (r: usize)
        ensures
            r == page_depth(*self),
    {
        match self {
            PagePath::Concept(id) => id.segments().len() - 1,
            PagePath::Directory(id) => id.segments().len(),
            PagePath::Graph => 1,
            PagePath::Dashboard => 0,
        }
    }
}

/// `../` repeated `n` times.
pub open spec fn climb(n: nat) -> Seq<char>
    decreases n,
{
    if n == 0 {
        Seq::empty()
    } else {
        climb((n - 1) as nat) + seq!['.', '.', '/']
    }
}

/// The `../` prefix from a page to the site root.
pub fn prefix_for(path: &PagePath) -> (r: String)
    ensures
        r@ == climb(page_depth(*path) as nat),
{
    let d = path.depth();
    let mut v: Vec<char> = Vec::new();
    let mut k: usize = 0;
    while k < d
        invariant
            k <= d,
            v@ == climb(k as nat),
        decreases d - k,
    {
        v.push('.');
        v.push('.');
        v.push('/');
        k += 1;
        assert(v@ =~= climb(k as nat));
    }
    string_of(v.as_slice())
}

/// `index`
pub open spec fn index_segment() -> Seq<char> {
    seq!['i', 'n', 'd', 'e', 'x']
}

/// A page whose ids are valid, where a concept never ends in the reserved
/// `index` (the `index.md` files are not concepts).
pub open spec fn page_ok(p: PagePath) -> bool {
    match p {
        PagePath::Concept(id) => crate::concept_id::valid_segments(id@) && id@.last() != index_segment(),
        PagePath::Directory(id) => crate::concept_id::valid_segments(id@),
        _ => true,
    }
}

/// Two page paths name the same page.
pub open spec fn same_page(a: PagePath, b: PagePath) -> bool {
    match (a, b) {
        (PagePath::Concept(x), PagePath::Concept(y)) => x@ == y@,
        (PagePath::Directory(x), PagePath::Directory(y)) => x@ == y@,
        (PagePath::Dashboard, PagePath::Dashboard) => true,
        (PagePath::Graph, PagePath::Graph) => true,
        _ => false,
    }
}

pub proof fn lemma_drop_suffix(x: Seq<char>, y: Seq<char>, t: Seq<char>)
    requires
        x + t == y + t,
    ensures
        x == y,
{
    assert((x + t).len() == (y + t).len());
    vstd::seq::axiom_seq_add_len(x, t);
    vstd::seq::axiom_seq_add_len(y, t);
    assert(x.len() == y.len());
    assert forall|i: int| 0 <= i < x.len() implies x[i] == y[i] by {
        assert((x + t)[i] == x[i]);
        assert((y + t)[i] == y[i]);
    }
    assert(x =~= y);
}

/// Where the last `/` falls decides both sides of it.
pub proof fn lemma_last_slash(p: Seq<char>, q: Seq<char>, p2: Seq<char>, q2: Seq<char>)
    requires
        p + seq!['/'] + q == p2 + seq!['/'] + q2,
        forall|i: int| 0 <= i < q.len() ==> q[i] != '/',
        forall|i: int| 0 <= i < q2.len() ==> q2[i] != '/',
    ensures
        p == p2,
        q == q2,
{
    let x = p + seq!['/'] + q;
    let y = p2 + seq!['/'] + q2;
    assert(x.len() == y.len());
    assert(p.len() + q.len() == p2.len() + q2.len());
    if q.len() < q2.len() {
        let k = p.len() as int;
        assert(x[k] == '/');
        assert(y[k] == q2[k - p2.len() - 1]);
    } else if q2.len() < q.len() {
        let k = p2.len() as int;
        assert(y[k] == '/');
        assert(x[k] == q[k - p.len() - 1]);
    }
    assert(p.len() == p2.len());
    assert forall|i: int| 0 <= i < p.len() implies p[i] == p2[i] by {
        assert(x[i] == p[i] && y[i] == p2[i]);
    }
    assert forall|i: int| 0 <= i < q.len() implies q[i] == q2[i] by {
        assert(x[p.len() + 1 + i] == q[i] && y[p.len() + 1 + i] == q2[i]);
    }
    assert(p =~= p2);
    assert(q =~= q2);
}

/// A path of several segments holds a `/`; one of a single valid segment
/// holds none.
pub proof fn lemma_join_slashes(d: Seq<Seq<char>>)
    requires
        crate::concept_id::valid_segments(d),
    ensures
        d.len() == 1 ==> join(d, seq!['/']) == d[0] && forall|i: int| 0 <= i < d[0].len() ==> d[0][i] != '/',
        d.len() > 1 ==> join(d, seq!['/']) == join(d.drop_last(), seq!['/']) + seq!['/'] + d.last(),
        d.len() > 1 ==> join(d, seq!['/'])[join(d.drop_last(), seq!['/']).len() as int] == '/',
{
    assert(crate::concept_id::valid_segment(d[0]));
    assert(crate::concept_id::valid_segment(d[d.len() - 1]));
}

/// Joining valid segments with `/` loses nothing: equal paths have equal
/// segments.
pub proof fn lemma_join_injective(a: Seq<Seq<char>>, b: Seq<Seq<char>>)
    requires
        crate::concept_id::valid_segments(a),
        crate::concept_id::valid_segments(b),
        join(a, seq!['/']) == join(b, seq!['/']),
    ensures
        a == b,
    decreases a.len(),
{
    lemma_join_slashes(a);
    lemma_join_slashes(b);
    if a.len() == 1 && b.len() == 1 {
        assert(a =~= b);
    } else if a.len() == 1 {
        let k = join(b.drop_last(), seq!['/']).len() as int;
        assert(join(b, seq!['/'])[k] == '/');
    } else if b.len() == 1 {
        let k = join(a.drop_last(), seq!['/']).len() as int;
        assert(join(a, seq!['/'])[k] == '/');
    } else {
        assert(crate::concept_id::valid_segment(a.last()));
        assert(crate::concept_id::valid_segment(b.last()));
        lemma_last_slash(join(a.drop_last(), seq!['/']), a.last(), join(b.drop_last(), seq!['/']), b.last());
        assert(crate::concept_id::valid_segments(a.drop_last())) by {
            assert forall|i: int| 0 <= i < a.drop_last().len() implies crate::concept_id::valid_segment(#[trigger] a.drop_last()[i]) by {
                assert(a.drop_last()[i] == a[i]);
            }
        }
        assert(crate::concept_id::valid_segments(b.drop_last())) by {
            assert forall|i: int| 0 <= i < b.drop_last().len() implies crate::concept_id::valid_segment(#[trigger] b.drop_last()[i]) by {
                assert(b.drop_last()[i] == b[i]);
            }
        }
        lemma_join_injective(a.drop_last(), b.drop_last());
        assert(a =~= a.drop_last().push(a.last()));
        assert(b =~= b.drop_last().push(b.last()));
    }
}

/// Pages never clash: because no concept ends in the reserved `index`, the
/// dashboard's `index.html` and a directory's `<dir>/index.html` are never a
/// concept's page, and distinct concepts, like distinct directories, get
/// distinct pages. (The graph page is left out: a concept at `__okf/graph`
/// would share its path.)
pub proof fn lemma_page_paths_distinct(a: PagePath, b: PagePath)
    requires
        page_ok(a),
        page_ok(b),
        !(a is Graph),
        !(b is Graph),
        page_rel(a) == page_rel(b),
    ensures
        same_page(a, b),
{
    let html = seq!['.', 'h', 't', 'm', 'l'];
    let dir_tail = seq!['/'] + index_segment() + html;
    assert(index_html() =~= index_segment() + html);
    match (a, b) {
        (PagePath::Concept(x), PagePath::Concept(y)) => {
            lemma_drop_suffix(join(x@, seq!['/']), join(y@, seq!['/']), html);
            lemma_join_injective(x@, y@);
        },
        (PagePath::Directory(x), PagePath::Directory(y)) => {
            assert(join(x@, seq!['/']) + seq!['/'] + index_html() =~= join(x@, seq!['/']) + dir_tail);
            assert(join(y@, seq!['/']) + seq!['/'] + index_html() =~= join(y@, seq!['/']) + dir_tail);
            lemma_drop_suffix(join(x@, seq!['/']), join(y@, seq!['/']), dir_tail);
            lemma_join_injective(x@, y@);
        },
        (PagePath::Concept(x), PagePath::Dashboard) => {
            lemma_concept_not_index_page(x@);
        },
        (PagePath::Dashboard, PagePath::Concept(y)) => {
            lemma_concept_not_index_page(y@);
        },
        (PagePath::Concept(x), PagePath::Directory(y)) => {
            lemma_concept_not_directory_page(x@, y@);
        },
        (PagePath::Directory(x), PagePath::Concept(y)) => {
            lemma_concept_not_directory_page(y@, x@);
        },
        (PagePath::Directory(x), PagePath::Dashboard) => {
            lemma_join_slashes(x@);
            assert(page_rel(a).len() > index_html().len());
        },
        (PagePath::Dashboard, PagePath::Directory(y)) => {
            lemma_join_slashes(y@);
            assert(page_rel(b).len() > index_html().len());
        },
        _ => {},
    }
}

pub proof fn lemma_concept_not_index_page(c: Seq<Seq<char>>)
    requires
        crate::concept_id::valid_segments(c),
        c.last() != index_segment(),
    ensures
        join(c, seq!['/']) + seq!['.', 'h', 't', 'm', 'l'] != index_html(),
{
    let html = seq!['.', 'h', 't', 'm', 'l'];
    if join(c, seq!['/']) + html == index_html() {
        assert(index_html() =~= index_segment() + html);
        lemma_drop_suffix(join(c, seq!['/']), index_segment(), html);
        let one = seq![index_segment()];
        assert(crate::concept_id::valid_segments(one)) by {
            assert(crate::concept_id::valid_segment(index_segment()));
        }
        assert(join(one, seq!['/']) == index_segment());
        lemma_join_injective(c, one);
    }
}

pub proof fn lemma_concept_not_directory_page(c: Seq<Seq<char>>, d: Seq<Seq<char>>)
    requires
        crate::concept_id::valid_segments(c),
        crate::concept_id::valid_segments(d),
        c.last() != index_segment(),
    ensures
        join(c, seq!['/']) + seq!['.', 'h', 't', 'm', 'l'] != join(d, seq!['/']) + seq!['/'] + index_html(),
{
    let html = seq!['.', 'h', 't', 'm', 'l'];
    if join(c, seq!['/']) + html == join(d, seq!['/']) + seq!['/'] + index_html() {
        let di = d.push(index_segment());
        assert(crate::concept_id::valid_segments(di)) by {
            assert forall|i: int| 0 <= i < di.len() implies crate::concept_id::valid_segment(#[trigger] di[i]) by {
                if i < d.len() {
                    assert(di[i] == d[i]);
                }
            }
        }
        assert(di.drop_last() =~= d);
        assert(join(di, seq!['/']) == join(d, seq!['/']) + seq!['/'] + index_segment());
        assert(join(d, seq!['/']) + seq!['/'] + index_html() =~= join(di, seq!['/']) + html);
        lemma_drop_suffix(join(c, seq!['/']), join(di, seq!['/']), html);
        lemma_join_injective(c, di);
    }
}

/// One entry of the site's theme catalog: a family offered once in the
/// header menu, in whichever variants it defines.
#[derive(Clone, Copy, Debug)]
pub struct ThemeEntry<'a> {
    /// The `data-theme` value, and the string persisted under `okf-theme`.
    pub id: &'a str,
    /// The menu label.
    pub label: &'a str,
    /// Whether the family carries a light variant.
    pub light: bool,
    /// Whether the family carries a dark variant.
    pub dark: bool,
}

impl<'a> ThemeEntry<'a> {
    /// Whether the family covers `scheme` itself rather than falling through
    /// to the base palette.
    pub fn has(&self, scheme: Scheme) -> (r: bool)
        ensures
            r == match scheme {
                Scheme::Light => self.light,
                Scheme::Dark => self.dark,
            },
    {
        match scheme {
            Scheme::Light => self.light,
            Scheme::Dark => self.dark,
        }
    }
}

/// An id that can be written into a JavaScript string literal and a CSS
/// attribute selector: non-empty, lowercase ASCII letters, digits, and `-`.
pub open spec fn safe_id(id: Seq<char>) -> bool {
    id.len() > 0 && forall|i: int| 0 <= i < id.len() ==> safe_id_char(#[trigger] id[i])
}

pub open spec fn safe_id_char(c: char) -> bool {
    ('a' <= c <= 'z') || ('0' <= c <= '9') || c == '-'
}

pub fn is_safe_id(id: &str) -> (r: bool)
    ensures
        r == safe_id(id@),
{
    let v = chars_of(id);
    if v.len() == 0 {
        return false;
    }
    let mut i: usize = 0;
    while i < v.len()
        invariant
            i <= v@.len(),
            v@ == id@,
            forall|k: int| 0 <= k < i ==> safe_id_char(#[trigger] v@[k]),
        decreases v.len() - i,
    {
        let c = v[i];
        if !(('a' <= c && c <= 'z') || ('0' <= c && c <= '9') || c == '-') {
            assert(!safe_id_char(v@[i as int]));
            return false;
        }
        i += 1;
    }
    true
}

/// The catalog literal the boot script inlines: `{'a':1,'b':1}` over the
/// safe ids of `ids`, in order.
pub open spec fn families_literal(ids: Seq<Seq<char>>) -> Seq<char> {
    seq!['{'] + join(safe_entries(ids), seq![',']) + seq!['}']
}

/// `'id':1` for each safe id, in order.
pub open spec fn safe_entries(ids: Seq<Seq<char>>) -> Seq<Seq<char>>
    decreases ids.len(),
{
    if ids.len() == 0 {
        Seq::empty()
    } else if safe_id(ids.last()) {
        safe_entries(ids.drop_last()).push(seq!['\''] + ids.last() + seq!['\'', ':', '1'])
    } else {
        safe_entries(ids.drop_last())
    }
}

pub open spec fn entry_ids<'a>(themes: Seq<ThemeEntry<'a>>) -> Seq<Seq<char>> {
    themes.map_values(|t: ThemeEntry<'a>| t.id@)
}

/// The script after the catalog literal: reads the stored choices and
/// applies them to `<html>`.
pub const THEME_BOOT_BODY: &'static str = "  var root = document.documentElement;  var theme = DT, scheme = DS;  try {    var t = localStorage.getItem('okf-theme');    var s = localStorage.getItem('okf-scheme');    if (!s && (t === 'light' || t === 'dark')) { s = t; t = null; }    if (t && Object.prototype.hasOwnProperty.call(F, t)) theme = t;    if (s === 'auto' || s === 'light' || s === 'dark') scheme = s;  } catch (e) { /* no localStorage (e.g. privacy mode): the build defaults */ }  if (theme && theme !== 'default') root.setAttribute('data-theme', theme);  else root.removeAttribute('data-theme');  if (scheme === 'light' || scheme === 'dark') root.setAttribute('data-scheme', scheme);  else root.removeAttribute('data-scheme');  try {    if (localStorage.getItem('okf-nav') === 'collapsed') {      root.classList.add('nav-hidden');    }    var closed = JSON.parse(localStorage.getItem('okf-nav-closed') || '[]');    if (Array.isArray(closed) && closed.length) {      var hide = [], turn = [];      for (var i = 0; i < closed.length; i++) {        var sel = '#site-nav li[data-dir=' + CSS.escape(String(closed[i])) + ']';        hide.push(sel + '>ul');        turn.push(sel + '>.dir-row .dir-caret');      }      var st = document.createElement('style');      st.id = 'okf-nav-closed-style';      st.textContent = hide.join(',') + '{display:none}'        + turn.join(',') + '{transform:rotate(-90deg)}';      document.head.appendChild(st);    }  } catch (e) { /* no localStorage: the expanded nav */ }})()";

/// `(function () {  var F = `
pub open spec fn boot_head() -> Seq<char> {
    seq!['(', 'f', 'u', 'n', 'c', 't', 'i', 'o', 'n', ' ', '(', ')', ' ', '{', ' ', ' ', 'v', 'a', 'r', ' ', 'F', ' ', '=', ' ']
}

/// The boot script for a catalog, a default family, and a default
/// appearance: the catalog literal of the safe ids, the default family when
/// it is a safe id (else the base family), then the script body.
pub open spec fn boot_script(ids: Seq<Seq<char>>, default_theme: Seq<char>, scheme: Seq<char>, body: Seq<char>) -> Seq<char> {
    let dt = if safe_id(default_theme) { default_theme } else { DEFAULT_THEME_ID@ };
    boot_head() + families_literal(ids) + seq![',', ' ', 'D', 'T', ' ', '=', ' ', '\''] + dt
        + seq!['\'', ',', ' ', 'D', 'S', ' ', '=', ' ', '\''] + scheme + seq!['\'', ';'] + body
}

/// Applies stored site state before first paint: the catalog is inlined as
/// the allowlist of stored family ids (unsafe ids are skipped), and a
/// default family that is not a safe id falls back to the base family.
pub fn theme_boot(themes: &[ThemeEntry], default_theme: &str, default_scheme: SchemePref) -> (r: String)
    ensures
        r@ == boot_script(entry_ids(themes@), default_theme@, scheme_pref_name(default_scheme), THEME_BOOT_BODY@),
{
    let ghost ids = entry_ids(themes@);
    let mut entries: Vec<Vec<char>> = Vec::new();
    let mut i: usize = 0;
    while i < themes.len()
        invariant
            i <= themes@.len(),
            ids == entry_ids(themes@),
            views(entries@) == safe_entries(ids.take(i as int)),
        decreases themes.len() - i,
    {
        proof {
            assert(ids.take(i + 1).drop_last() =~= ids.take(i as int));
            assert(ids.take(i + 1).last() == themes@[i as int].id@);
        }
        if is_safe_id(themes[i].id) {
            let mut e: Vec<char> = vec!['\''];
            push_str(&mut e, themes[i].id);
            e.push('\'');
            e.push(':');
            e.push('1');
            let ghost before = views(entries@);
            assert(e@ =~= seq!['\''] + themes@[i as int].id@ + seq!['\'', ':', '1']);
            entries.push(e);
            proof {
                assert(views(entries@) =~= before.push(seq!['\''] + themes@[i as int].id@ + seq!['\'', ':', '1']));
            }
        }
        i += 1;
    }
    proof {
        assert(ids.take(themes@.len() as int) =~= ids);
    }
    let comma = vec![','];
    assert(comma@ =~= seq![',']);
    let joined = crate::text::join_v(&entries, comma.as_slice());
    let mut js: Vec<char> = vec!['(', 'f', 'u', 'n', 'c', 't', 'i', 'o', 'n', ' ', '(', ')', ' ', '{', ' ', ' ', 'v', 'a', 'r', ' ', 'F', ' ', '=', ' '];
    js.push('{');
    push_all(&mut js, joined.as_slice());
    js.push('}');
    let mid = vec![',', ' ', 'D', 'T', ' ', '=', ' ', '\''];
    push_all(&mut js, mid.as_slice());
    if is_safe_id(default_theme) {
        push_str(&mut js, default_theme);
    } else {
        push_str(&mut js, DEFAULT_THEME_ID);
    }
    let ds = vec!['\'', ',', ' ', 'D', 'S', ' ', '=', ' ', '\''];
    push_all(&mut js, ds.as_slice());
    let scheme = default_scheme.as_str();
    push_str(&mut js, scheme.as_str());
    js.push('\'');
    js.push(';');
    push_str(&mut js, THEME_BOOT_BODY);
    proof {
        assert(js@ =~= boot_script(ids, default_theme@, scheme_pref_name(default_scheme), THEME_BOOT_BODY@));
    }
    string_of(js.as_slice())
}

/// The JS escape of one char that could break a script context or an HTML
/// parser (`<`, `&`, U+2028, U+2029); other chars stand for themselves.
pub open spec fn js_safe_char(c: char) -> Seq<char> {
    if c == '<' {
        seq!['\\', 'u', '0', '0', '3', 'c']
    } else if c == '&' {
        seq!['\\', 'u', '0', '0', '2', '6']
    } else if c == '\u{2028}' {
        seq!['\\', 'u', '2', '0', '2', '8']
    } else if c == '\u{2029}' {
        seq!['\\', 'u', '2', '0', '2', '9']
    } else {
        seq![c]
    }
}

/// Every char of `s` escaped by [`js_safe_char`].
pub open spec fn js_safe(s: Seq<char>) -> Seq<char>
    decreases s.len(),
{
    if s.len() == 0 {
        Seq::empty()
    } else {
        js_safe(s.drop_last()) + js_safe_char(s.last())
    }
}

/// Escaped text is inert in a script and in HTML: none of `<`, `&`,
/// U+2028, U+2029 is left in it.
pub proof fn lemma_js_safe_inert(s: Seq<char>)
    ensures
        forall|i: int| 0 <= i < js_safe(s).len() ==> {
            let c = #[trigger] js_safe(s)[i];
            c != '<' && c != '&' && c != '\u{2028}' && c != '\u{2029}'
        },
    decreases s.len(),
{
    if s.len() > 0 {
        lemma_js_safe_inert(s.drop_last());
        let a = js_safe(s.drop_last());
        let b = js_safe_char(s.last());
        assert forall|i: int| 0 <= i < (a + b).len() implies {
            let c = #[trigger] (a + b)[i];
            c != '<' && c != '&' && c != '\u{2028}' && c != '\u{2029}'
        } by {
            if i < a.len() {
                assert((a + b)[i] == a[i]);
            } else {
                assert((a + b)[i] == b[i - a.len()]);
            }
        }
    }
}

/// Replaces the chars that would break a JS string context or an HTML
/// parser with their JS escapes: `<`, `&`, U+2028, and U+2029.
pub fn escape_js_unsafe(json: &mut String)
    ensures
        final(json)@ == js_safe(old(json)@),
{
    let v = chars_of(json.as_str());
    let mut out: Vec<char> = Vec::new();
    let mut i: usize = 0;
    while i < v.len()
        invariant
            i <= v@.len(),
            out@ == js_safe(v@.take(i as int)),
        decreases v.len() - i,
    {
        proof {
            assert(v@.take(i + 1).drop_last() =~= v@.take(i as int));
        }
        let c = v[i];
        let rep: Vec<char> = if c == '<' {
            vec!['\\', 'u', '0', '0', '3', 'c']
        } else if c == '&' {
            vec!['\\', 'u', '0', '0', '2', '6']
        } else if c == '\u{2028}' {
            vec!['\\', 'u', '2', '0', '2', '8']
        } else if c == '\u{2029}' {
            vec!['\\', 'u', '2', '0', '2', '9']
        } else {
            vec![c]
        };
        assert(rep@ =~= js_safe_char(c));
        push_all(&mut out, rep.as_slice());
        i += 1;
    }
    assert(v@.take(v@.len() as int) =~= v@);
    *json = string_of(out.as_slice());
}

/// The escape of one char inside a Mermaid `["..."]` node label.
pub open spec fn mermaid_char(c: char) -> Seq<char> {
    if c == '\\' {
        seq!['\\', '\\']
    } else if c == '"' {
        seq!['#', 'q', 'u', 'o', 't', ';']
    } else if c == '[' {
        seq!['&', '#', '9', '1', ';']
    } else if c == ']' {
        seq!['&', '#', '9', '3', ';']
    } else {
        seq![c]
    }
}

pub open spec fn mermaid_text(s: Seq<char>) -> Seq<char>
    decreases s.len(),
{
    if s.len() == 0 {
        Seq::empty()
    } else {
        mermaid_text(s.drop_last()) + mermaid_char(s.last())
    }
}

/// An escaped label cannot end its node declaration: no `"`, `[` or `]`
/// is left in it.
pub proof fn lemma_mermaid_text_inert(s: Seq<char>)
    ensures
        forall|i: int| 0 <= i < mermaid_text(s).len() ==> {
            let c = #[trigger] mermaid_text(s)[i];
            c != '"' && c != '[' && c != ']'
        },
    decreases s.len(),
{
    if s.len() > 0 {
        lemma_mermaid_text_inert(s.drop_last());
        let a = mermaid_text(s.drop_last());
        let b = mermaid_char(s.last());
        assert forall|i: int| 0 <= i < (a + b).len() implies {
            let c = #[trigger] (a + b)[i];
            c != '"' && c != '[' && c != ']'
        } by {
            if i < a.len() {
                assert((a + b)[i] == a[i]);
            } else {
                assert((a + b)[i] == b[i - a.len()]);
            }
        }
    }
}

/// A label safe inside a Mermaid `["..."]` node declaration.
pub fn mermaid_label(s: &str) -> (r: String)
    ensures
        r@ == mermaid_text(s@),
{
    let v = chars_of(s);
    let mut out: Vec<char> = Vec::new();
    let mut i: usize = 0;
    while i < v.len()
        invariant
            i <= v@.len(),
            out@ == mermaid_text(v@.take(i as int)),
        decreases v.len() - i,
    {
        proof {
            assert(v@.take(i + 1).drop_last() =~= v@.take(i as int));
        }
        let c = v[i];
        let rep: Vec<char> = if c == '\\' {
            vec!['\\', '\\']
        } else if c == '"' {
            vec!['#', 'q', 'u', 'o', 't', ';']
        } else if c == '[' {
            vec!['&', '#', '9', '1', ';']
        } else if c == ']' {
            vec!['&', '#', '9', '3', ';']
        } else {
            vec![c]
        };
        assert(rep@ =~= mermaid_char(c));
        push_all(&mut out, rep.as_slice());
        i += 1;
    }
    assert(v@.take(v@.len() as int) =~= v@);
    string_of(out.as_slice())
}

/// The badge classes of a trust tier, mirroring the studio's theme roles.
pub open spec fn tier_badge(t: TrustTier) -> Seq<char> {
    match t {
        TrustTier::Unverified => "badge tier-unverified"@,
        TrustTier::MachineConfirmed => "badge tier-machine"@,
        TrustTier::HumanReviewed => "badge tier-human"@,
    }
}

/// Badge colors for the trust tiers.
pub fn tier_class(tier: TrustTier) -> (r: &'static str)
    ensures
        r@ == tier_badge(tier),
{
    match tier {
        TrustTier::Unverified => "badge tier-unverified",
        TrustTier::MachineConfirmed => "badge tier-machine",
        TrustTier::HumanReviewed => "badge tier-human",
    }
}

/// The badge classes of a lifecycle status.
pub open spec fn status_badge(s: Status) -> Seq<char> {
    match s {
        Status::Draft => "badge status-draft"@,
        Status::Stable => "badge status-stable"@,
        Status::Deprecated => "badge status-deprecated"@,
        Status::Other(_) => "badge status-other"@,
    }
}

/// Badge classes for lifecycle statuses.
pub fn status_class(status: &Status) -> (r: &'static str)
    ensures
        r@ == status_badge(*status),
{
    match status {
        Status::Draft => "badge status-draft",
        Status::Stable => "badge status-stable",
        Status::Deprecated => "badge status-deprecated",
        Status::Other(_) => "badge status-other",
    }
}

/// A body heading with its page anchor, so heading hits deep-link.
#[derive(Clone, Debug)]
pub struct HeadingAnchor {
    /// The heading text.
    pub text: String,
    /// The anchor the page gives the heading.
    pub anchor: String,
}

/// One allocator, starting with nothing taken, hands out `anchors[i]` for
/// `texts[i]`, in order.
pub open spec fn allocations(texts: Seq<Seq<char>>, anchors: Seq<Seq<char>>) -> bool {
    &&& texts.len() == anchors.len()
    &&& exists|us: Seq<Set<Seq<char>>>| #[trigger] us.len() == texts.len() + 1 && us[0] == Set::<Seq<char>>::empty()
        && forall|i: int, j: int|
            #![trigger texts[i], us[j]]
            0 <= i < texts.len() && j == i + 1 ==> allocated(us[i], texts[i], anchors[i], us[j])
}

/// The heading texts of a body, in order.
pub open spec fn heading_texts(body: Seq<char>) -> Seq<Seq<char>> {
    headings(body).map_values(|h: (int, Seq<char>, int)| h.1)
}

/// The anchors' texts and anchors.
pub open spec fn anchor_views(v: Seq<HeadingAnchor>) -> (Seq<Seq<char>>, Seq<Seq<char>>) {
    (v.map_values(|a: HeadingAnchor| a.text@), v.map_values(|a: HeadingAnchor| a.anchor@))
}

/// The heading anchors of one page, computed by the same slug allocator the
/// page writer uses, so index anchors match the emitted `id=` attributes:
/// every heading in order, with its text and the anchor one allocator hands
/// out for it.
pub fn body_heading_anchors(body: &str) -> (r: Vec<HeadingAnchor>)
    ensures
        anchor_views(r@).0 == heading_texts(body@),
        allocations(heading_texts(body@), anchor_views(r@).1),
{
    let hs = extract_headings(body);
    let ghost texts = heading_texts(body@);
    let mut allocator = SlugAllocator::default();
    let mut out: Vec<HeadingAnchor> = Vec::new();
    let ghost mut us: Seq<Set<Seq<char>>> = seq![allocator@];
    let mut i: usize = 0;
    proof {
        assert(texts.len() == hs@.len()) by {
            assert(heading_views(hs@).len() == hs@.len());
        }
    }
    while i < hs.len()
        invariant
            i <= hs@.len(),
            texts == heading_texts(body@),
            texts.len() == hs@.len(),
            heading_views(hs@) == headings(body@),
            us.len() == i + 1,
            us[0] == Set::<Seq<char>>::empty(),
            us[i as int] == allocator@,
            anchor_views(out@).0 == texts.take(i as int),
            anchor_views(out@).1.len() == i,
            forall|k: int, j: int|
                #![trigger texts[k], us[j]]
                0 <= k < i && j == k + 1 ==> allocated(us[k], texts[k], anchor_views(out@).1[k], us[j]),
        decreases hs.len() - i,
    {
        let text = hs[i].text.clone();
        proof {
            assert(heading_views(hs@)[i as int].1 == hs@[i as int].text@);
            assert(texts[i as int] == headings(body@)[i as int].1);
        }
        let ghost prev = allocator@;
        let anchor = allocator.allocate(text.as_str());
        let ghost old_out = out@;
        out.push(HeadingAnchor { text, anchor });
        proof {
            us = us.push(allocator@);
            assert(anchor_views(out@).0 =~= texts.take(i + 1)) by {
                assert(anchor_views(out@).0 =~= anchor_views(old_out).0.push(texts[i as int]));
            }
            assert(anchor_views(out@).1 =~= anchor_views(old_out).1.push(out@[i as int].anchor@));
            assert forall|k: int, j: int|
                #![trigger texts[k], us[j]]
                0 <= k < i + 1 && j == k + 1 implies allocated(us[k], texts[k], anchor_views(out@).1[k], us[j]) by {
                if k < i {
                    assert(anchor_views(out@).1[k] == anchor_views(old_out).1[k]);
                } else {
                    assert(us[k] == prev);
                }
            }
        }
        i += 1;
    }
    proof {
        assert(texts.take(i as int) =~= texts);
        assert(us.len() == texts.len() + 1);
    }
    out
}

/// The escape of one char of diagram source inside a `<pre>`.
pub open spec fn pre_char(c: char) -> Seq<char> {
    if c == '&' {
        seq!['&', 'a', 'm', 'p', ';']
    } else if c == '<' {
        seq!['&', 'l', 't', ';']
    } else if c == '>' {
        seq!['&', 'g', 't', ';']
    } else {
        seq![c]
    }
}

pub open spec fn pre_text(s: Seq<char>) -> Seq<char>
    decreases s.len(),
{
    if s.len() == 0 {
        Seq::empty()
    } else {
        pre_text(s.drop_last()) + pre_char(s.last())
    }
}

/// Escaped diagram source cannot open or close markup: no `<` or `>` is
/// left in it.
pub proof fn lemma_pre_text_inert(s: Seq<char>)
    ensures
        forall|i: int| 0 <= i < pre_text(s).len() ==> {
            let c = #[trigger] pre_text(s)[i];
            c != '<' && c != '>'
        },
    decreases s.len(),
{
    if s.len() > 0 {
        lemma_pre_text_inert(s.drop_last());
        let a = pre_text(s.drop_last());
        let b = pre_char(s.last());
        assert forall|i: int| 0 <= i < (a + b).len() implies {
            let c = #[trigger] (a + b)[i];
            c != '<' && c != '>'
        } by {
            if i < a.len() {
                assert((a + b)[i] == a[i]);
            } else {
                assert((a + b)[i] == b[i - a.len()]);
            }
        }
    }
}

/// Escapes `&`, `<`, `>` so diagram source survives inside a `<pre>` as
/// both the Mermaid input and the render-failure fallback.
pub fn escape_pre(s: &str) -> (r: String)
    ensures
        r@ == pre_text(s@),
{
    let v = chars_of(s);
    let mut out: Vec<char> = Vec::new();
    let mut i: usize = 0;
    while i < v.len()
        invariant
            i <= v@.len(),
            out@ == pre_text(v@.take(i as int)),
        decreases v.len() - i,
    {
        proof {
            assert(v@.take(i + 1).drop_last() =~= v@.take(i as int));
        }
        let c = v[i];
        let rep: Vec<char> = if c == '&' {
            vec!['&', 'a', 'm', 'p', ';']
        } else if c == '<' {
            vec!['&', 'l', 't', ';']
        } else if c == '>' {
            vec!['&', 'g', 't', ';']
        } else {
            vec![c]
        };
        assert(rep@ =~= pre_char(c));
        push_all(&mut out, rep.as_slice());
        i += 1;
    }
    assert(v@.take(v@.len() as int) =~= v@);
    string_of(out.as_slice())
}

/// The first word of a fenced code block's info string (up to the first
/// space) names Mermaid, in any ASCII case.
pub open spec fn mermaid_info(info: Seq<char>) -> bool {
    let word = crate::text::split(info, ' ')[0];
    crate::markdown::eq_ignore_case(word, seq!['m', 'e', 'r', 'm', 'a', 'i', 'd'])
}

/// Whether a fenced code block's info string names Mermaid: its first
/// space-separated word is `mermaid` in any ASCII case.
pub fn is_mermaid_info(info: &str) -> (r: bool)
    ensures
        r == mermaid_info(info@),
{
    let v = chars_of(info);
    let e = crate::text::next_char_v(v.as_slice(), ' ', 0);
    let word = crate::text::slice_of(v.as_slice(), 0, e);
    proof {
        crate::text::lemma_next_char(v@, ' ', 0);
        assert(word@ == crate::text::split(v@, ' ')[0]);
    }
    let name = vec!['m', 'e', 'r', 'm', 'a', 'i', 'd'];
    assert(name@ =~= seq!['m', 'e', 'r', 'm', 'a', 'i', 'd']);
    crate::markdown::eq_ignore_case_v(word.as_slice(), name.as_slice())
}

/// The ids' segment sequences.
pub open spec fn id_views(v: Seq<ConceptId>) -> Seq<Seq<Seq<char>>> {
    Seq::new(v.len(), |i: int| v[i]@)
}

/// A directory the concepts make: a proper prefix, at least one segment
/// long, of some concept id.
pub open spec fn concept_dir(ids: Seq<Seq<Seq<char>>>, d: Seq<Seq<char>>) -> bool {
    exists|k: int, n: int| 0 <= k < ids.len() && 1 <= n < ids[k].len() && d == #[trigger] ids[k].take(n)
}

/// The key directories are ordered by: their `/`-joined path.
pub open spec fn dir_key(d: Seq<Seq<char>>) -> Seq<char> {
    join(d, seq!['/'])
}

/// Distinct directories in key order.
pub open spec fn dirs_sorted(out: Seq<ConceptId>) -> bool {
    forall|i: int, j: int|
        0 <= i < j < out.len() ==> #[trigger] out[i]@ != #[trigger] out[j]@ && !seq_lt(dir_key(out[j]@), dir_key(out[i]@))
}

/// The directories the concepts `ids` make.
pub open spec fn concept_dirs(ids: Seq<Seq<Seq<char>>>) -> Set<Seq<Seq<char>>> {
    Set::new(|d: Seq<Seq<char>>| concept_dir(ids, d))
}

/// The prefixes of `full` at least `m` segments long, short of `full` itself.
pub open spec fn prefixes_from(full: Seq<Seq<char>>, m: int) -> Set<Seq<Seq<char>>> {
    Set::new(|x: Seq<Seq<char>>| exists|n: int| m <= n < full.len() && x == #[trigger] full.take(n))
}

fn find_dir(out: &Vec<ConceptId>, d: &ConceptId) -> (r: bool)
    ensures
        r == id_views(out@).contains(d@),
{
    let mut i: usize = 0;
    while i < out.len()
        invariant
            i <= out@.len(),
            forall|k: int| 0 <= k < i ==> #[trigger] id_views(out@)[k] != d@,
        decreases out.len() - i,
    {
        if out[i].same(d) {
            assert(id_views(out@)[i as int] == d@);
            return true;
        }
        i += 1;
    }
    false
}

fn insert_pos(keys: &Vec<Vec<char>>, key: &[char]) -> (pos: usize)
    ensures
        pos <= keys@.len(),
        forall|k: int| 0 <= k < pos ==> !seq_lt(key@, #[trigger] keys@[k]@),
        pos < keys@.len() ==> seq_lt(key@, keys@[pos as int]@),
{
    let mut pos: usize = 0;
    while pos < keys.len() && !lex_less(key, keys[pos].as_slice())
        invariant
            pos <= keys@.len(),
            forall|k: int| 0 <= k < pos ==> !seq_lt(key@, #[trigger] keys@[k]@),
        decreases keys.len() - pos,
    {
        pos += 1;
    }
    pos
}

pub proof fn lemma_seq_lt_asymmetric(a: Seq<char>, b: Seq<char>)
    requires
        seq_lt(a, b),
    ensures
        !seq_lt(b, a),
{
    if seq_lt(b, a) {
        crate::search::lemma_seq_lt_transitive(a, b, a);
        crate::search::lemma_seq_lt_irreflexive(a);
    }
}

pub proof fn lemma_insert_sorted(before: Seq<ConceptId>, pos: int, d: ConceptId)
    requires
        dirs_sorted(before),
        0 <= pos <= before.len(),
        !id_views(before).contains(d@),
        forall|k: int| 0 <= k < pos ==> !seq_lt(dir_key(d@), dir_key(#[trigger] before[k]@)),
        pos < before.len() ==> seq_lt(dir_key(d@), dir_key(before[pos]@)),
    ensures
        dirs_sorted(before.insert(pos, d)),
        id_views(before.insert(pos, d)).to_set() == id_views(before).to_set().insert(d@),
{
    let now = before.insert(pos, d);
    let dv = d@;
    assert forall|a: int, b: int| 0 <= a < b < now.len() implies #[trigger] now[a]@ != #[trigger] now[b]@ && !seq_lt(dir_key(now[b]@), dir_key(now[a]@)) by {
        if b < pos {
            assert(now[a] == before[a] && now[b] == before[b]);
        } else if b == pos {
            assert(now[a] == before[a]);
            assert(id_views(before)[a] == before[a]@);
        } else if a < pos {
            assert(now[a] == before[a] && now[b] == before[b - 1]);
        } else if a == pos {
            assert(now[b] == before[b - 1]);
            assert(id_views(before)[b - 1] == before[b - 1]@);
            let p = before[pos]@;
            if b - 1 > pos {
                assert(!seq_lt(dir_key(before[b - 1]@), dir_key(p)));
                if seq_lt(dir_key(before[b - 1]@), dir_key(dv)) {
                    crate::search::lemma_seq_lt_transitive(dir_key(before[b - 1]@), dir_key(dv), dir_key(p));
                }
            } else {
                lemma_seq_lt_asymmetric(dir_key(dv), dir_key(p));
            }
        } else {
            assert(now[a] == before[a - 1] && now[b] == before[b - 1]);
        }
    }
    let vn = id_views(now);
    let vb = id_views(before);
    assert forall|x: Seq<Seq<char>>| #[trigger] vn.contains(x) <==> vb.contains(x) || x == dv by {
        if vn.contains(x) {
            let i = choose|i: int| 0 <= i < vn.len() && vn[i] == x;
            if i < pos {
                assert(vb[i] == x);
            } else if i > pos {
                assert(vb[i - 1] == x);
            }
        }
        if vb.contains(x) {
            let i = choose|i: int| 0 <= i < vb.len() && vb[i] == x;
            if i < pos {
                assert(vn[i] == x);
            } else {
                assert(vn[i + 1] == x);
            }
        }
        if x == dv {
            assert(vn[pos] == x);
        }
    }
    assert(vn.to_set() =~= vb.to_set().insert(dv));
}

/// Adds `d` to the sorted directories unless it is there already.
fn insert_dir(out: &mut Vec<ConceptId>, keys: &mut Vec<Vec<char>>, d: ConceptId)
    requires
        old(keys)@.len() == old(out)@.len(),
        forall|i: int| 0 <= i < old(out)@.len() ==> #[trigger] old(keys)@[i]@ == dir_key(old(out)@[i]@),
        dirs_sorted(old(out)@),
    ensures
        final(keys)@.len() == final(out)@.len(),
        forall|i: int| 0 <= i < final(out)@.len() ==> #[trigger] final(keys)@[i]@ == dir_key(final(out)@[i]@),
        dirs_sorted(final(out)@),
        id_views(final(out)@).to_set() == id_views(old(out)@).to_set().insert(d@),
{
    if find_dir(out, &d) {
        assert(id_views(out@).to_set() =~= id_views(out@).to_set().insert(d@));
        return;
    }
    let p = d.to_path();
    let key = chars_of(p.as_str());
    let pos = insert_pos(keys, key.as_slice());
    let ghost before = out@;
    let ghost kb = keys@;
    proof {
        assert forall|k: int| 0 <= k < pos implies !seq_lt(dir_key(d@), dir_key(#[trigger] before[k]@)) by {
            assert(kb[k]@ == dir_key(before[k]@));
        }
        lemma_insert_sorted(before, pos as int, d);
    }
    out.insert(pos, d);
    keys.insert(pos, key);
    proof {
        assert forall|k: int| 0 <= k < out@.len() implies #[trigger] keys@[k]@ == dir_key(out@[k]@) by {
            if k > pos {
                assert(out@[k] == before[k - 1]);
                assert(keys@[k] == kb[k - 1]);
            } else if k < pos {
                assert(out@[k] == before[k]);
                assert(keys@[k] == kb[k]);
            }
        }
    }
}

/// Adds every proper prefix of `id` to the sorted directories.
fn insert_prefixes(out: &mut Vec<ConceptId>, keys: &mut Vec<Vec<char>>, id: &ConceptId)
    requires
        old(keys)@.len() == old(out)@.len(),
        forall|i: int| 0 <= i < old(out)@.len() ==> #[trigger] old(keys)@[i]@ == dir_key(old(out)@[i]@),
        dirs_sorted(old(out)@),
    ensures
        final(keys)@.len() == final(out)@.len(),
        forall|i: int| 0 <= i < final(out)@.len() ==> #[trigger] final(keys)@[i]@ == dir_key(final(out)@[i]@),
        dirs_sorted(final(out)@),
        id_views(final(out)@).to_set() == id_views(old(out)@).to_set().union(prefixes_from(id@, 1)),
{
    let ghost full = id@;
    let ghost start = id_views(out@).to_set();
    let _valid = id.segments();
    let mut cur = id.parent();
    let ghost mut m: int = full.len() - 1;
    proof {
        if cur is Some {
            assert(full.drop_last() =~= full.take(m));
        }
        assert(prefixes_from(full, m + 1) =~= Set::<Seq<Seq<char>>>::empty());
        assert(start =~= start.union(prefixes_from(full, m + 1)));
    }
    while cur.is_some()
        invariant
            full == id@,
            full.len() >= 1,
            0 <= m < full.len(),
            cur matches Some(c) ==> c@ == full.take(m) && m >= 1,
            cur is None ==> m == 0,
            start == id_views(old(out)@).to_set(),
            keys@.len() == out@.len(),
            forall|i: int| 0 <= i < out@.len() ==> #[trigger] keys@[i]@ == dir_key(out@[i]@),
            dirs_sorted(out@),
            id_views(out@).to_set() == start.union(prefixes_from(full, m + 1)),
        decreases m,
    {
        let d = cur.unwrap();
        let next = d.parent();
        let ghost dv = d@;
        insert_dir(out, keys, d);
        proof {
            assert(prefixes_from(full, m) =~= prefixes_from(full, m + 1).insert(dv)) by {
                assert forall|x: Seq<Seq<char>>| #[trigger] prefixes_from(full, m).contains(x) implies prefixes_from(full, m + 1).insert(dv).contains(x) by {
                    let n = choose|n: int| m <= n < full.len() && x == #[trigger] full.take(n);
                    if n > m {
                        assert(prefixes_from(full, m + 1).contains(x));
                    }
                }
                assert forall|x: Seq<Seq<char>>| #[trigger] prefixes_from(full, m + 1).insert(dv).contains(x) implies prefixes_from(full, m).contains(x) by {
                    if x == dv {
                        assert(x == full.take(m));
                    } else {
                        let n = choose|n: int| m + 1 <= n < full.len() && x == #[trigger] full.take(n);
                        assert(x == full.take(n));
                    }
                }
            }
            assert(id_views(out@).to_set() =~= start.union(prefixes_from(full, m)));
            if next is Some {
                assert(full.take(m).drop_last() =~= full.take(m - 1));
            }
            m = m - 1;
        }
        cur = next;
    }
}

/// Every subdirectory that contains a concept, directly or through a child
/// directory: the proper prefixes of the ids, each once, ordered by their
/// `/`-joined path. The root is not among them.
pub fn directories_with_concepts(ids: &Vec<ConceptId>) -> (r: Vec<ConceptId>)
    ensures
        id_views(r@).to_set() == concept_dirs(id_views(ids@)),
        dirs_sorted(r@),
{
    let mut out: Vec<ConceptId> = Vec::new();
    let mut keys: Vec<Vec<char>> = Vec::new();
    let ghost idv = id_views(ids@);
    let mut k: usize = 0;
    proof {
        assert(id_views(out@).to_set() =~= concept_dirs(idv.take(0)));
    }
    while k < ids.len()
        invariant
            k <= ids@.len(),
            idv == id_views(ids@),
            keys@.len() == out@.len(),
            forall|i: int| 0 <= i < out@.len() ==> #[trigger] keys@[i]@ == dir_key(out@[i]@),
            dirs_sorted(out@),
            id_views(out@).to_set() == concept_dirs(idv.take(k as int)),
        decreases ids.len() - k,
    {
        insert_prefixes(&mut out, &mut keys, &ids[k]);
        proof {
            let a = idv.take(k as int);
            let b = idv.take(k + 1);
            let full = idv[k as int];
            assert(full == ids@[k as int]@);
            assert(concept_dirs(b) =~= concept_dirs(a).union(prefixes_from(full, 1))) by {
                assert forall|x: Seq<Seq<char>>| #[trigger] concept_dirs(b).contains(x) implies concept_dirs(a).union(prefixes_from(full, 1)).contains(x) by {
                    let (j, n) = choose|j: int, n: int| 0 <= j < b.len() && 1 <= n < b[j].len() && x == #[trigger] b[j].take(n);
                    if j < k {
                        assert(a[j] == b[j]);
                        assert(concept_dir(a, x));
                    } else {
                        assert(b[j] == full);
                        assert(prefixes_from(full, 1).contains(x));
                    }
                }
                assert forall|x: Seq<Seq<char>>| #[trigger] concept_dirs(a).union(prefixes_from(full, 1)).contains(x) implies concept_dirs(b).contains(x) by {
                    if concept_dirs(a).contains(x) {
                        let (j, n) = choose|j: int, n: int| 0 <= j < a.len() && 1 <= n < a[j].len() && x == #[trigger] a[j].take(n);
                        assert(b[j] == a[j]);
                        assert(x == b[j].take(n));
                    } else {
                        let n = choose|n: int| 1 <= n < full.len() && x == #[trigger] full.take(n);
                        assert(b[k as int] == full);
                        assert(x == b[k as int].take(n));
                    }
                }
            }
        }
        k += 1;
    }
    proof {
        assert(idv.take(k as int) =~= idv);
    }
    out
}

/// A separator of directory-name words: `-`, `_`, or whitespace.
pub open spec fn word_sep(c: char) -> bool {
    c == '-' || c == '_' || is_ws(c)
}

/// The pieces of `s` between separators, empty ones included, from `i` on
/// with the current piece `cur`.
pub open spec fn sep_pieces(s: Seq<char>, i: int, cur: Seq<char>) -> Seq<Seq<char>>
    decreases s.len() - i,
{
    if i < 0 || i >= s.len() {
        seq![cur]
    } else if word_sep(s[i]) {
        seq![cur] + sep_pieces(s, i + 1, Seq::empty())
    } else {
        sep_pieces(s, i + 1, cur.push(s[i]))
    }
}

/// A word with its first char upper-cased (full Unicode mapping).
pub open spec fn capitalized(w: Seq<char>) -> Seq<char> {
    char_to_upper(w[0]) + w.drop_first()
}

/// The capitalized non-empty pieces, in order.
pub open spec fn title_words(ps: Seq<Seq<char>>) -> Seq<Seq<char>>
    decreases ps.len(),
{
    if ps.len() == 0 {
        Seq::empty()
    } else if ps.last().len() == 0 {
        title_words(ps.drop_last())
    } else {
        title_words(ps.drop_last()).push(capitalized(ps.last()))
    }
}

/// A directory segment as a display title: its words (split on `-`, `_`,
/// and whitespace) capitalized and joined by spaces; the segment itself when
/// it has no words.
pub open spec fn segment_title_text(seg: Seq<char>) -> Seq<char> {
    let ws = title_words(sep_pieces(seg, 0, Seq::empty()));
    if ws.len() == 0 {
        seg
    } else {
        join(ws, seq![' '])
    }
}

/// Formats a directory segment into a display title: `foo-kebab` becomes
/// `Foo Kebab`.
pub fn segment_title(seg: &str) -> (r: String)
    ensures
        r@ == segment_title_text(seg@),
{
    let v = chars_of(seg);
    let mut words: Vec<Vec<char>> = Vec::new();
    let mut cur: Vec<char> = Vec::new();
    let mut i: usize = 0;
    let ghost all = sep_pieces(v@, 0, Seq::empty());
    while i < v.len()
        invariant
            i <= v@.len(),
            all == sep_pieces(v@, 0, Seq::empty()),
            title_words(all) == title_words_rest(views(words@), sep_pieces(v@, i as int, cur@)),
        decreases v.len() - i,
    {
        let c = v[i];
        if c == '-' || c == '_' || whitespace(c) {
            let ghost before = views(words@);
            proof {
                lemma_title_words_rest_step(before, cur@, sep_pieces(v@, i + 1, Seq::empty()));
            }
            if cur.len() > 0 {
                let cap = capitalize_v(&cur);
                words.push(cap);
                proof {
                    assert(views(words@) =~= before.push(capitalized(cur@)));
                }
            }
            cur = Vec::new();
        } else {
            cur.push(c);
        }
        i += 1;
    }
    let ghost before = views(words@);
    proof {
        lemma_title_words_rest_step(before, cur@, Seq::empty());
        assert(seq![cur@] + Seq::<Seq<char>>::empty() =~= seq![cur@]);
        assert(sep_pieces(v@, i as int, cur@) == seq![cur@]);
    }
    if cur.len() > 0 {
        let cap = capitalize_v(&cur);
        words.push(cap);
        proof {
            assert(views(words@) =~= before.push(capitalized(cur@)));
        }
    }
    proof {
        assert(title_words(Seq::<Seq<char>>::empty()) == Seq::<Seq<char>>::empty());
        assert(title_words_rest(views(words@), Seq::empty()) =~= views(words@));
    }
    if words.len() == 0 {
        return string_of(v.as_slice());
    }
    let sp = vec![' '];
    assert(sp@ =~= seq![' ']);
    let out = crate::text::join_v(&words, sp.as_slice());
    string_of(out.as_slice())
}

/// The title words of `done` followed by those of the remaining pieces.
pub open spec fn title_words_rest(done: Seq<Seq<char>>, rest: Seq<Seq<char>>) -> Seq<Seq<char>> {
    done + title_words(rest)
}

pub proof fn lemma_title_words_prepend(p: Seq<char>, rest: Seq<Seq<char>>)
    ensures
        title_words(seq![p] + rest) == (if p.len() == 0 {
            title_words(rest)
        } else {
            seq![capitalized(p)] + title_words(rest)
        }),
    decreases rest.len(),
{
    let whole = seq![p] + rest;
    if rest.len() == 0 {
        assert(whole =~= seq![p]);
        assert(whole.drop_last() =~= Seq::<Seq<char>>::empty());
        assert(title_words(Seq::<Seq<char>>::empty()) == Seq::<Seq<char>>::empty());
        if p.len() > 0 {
            assert(Seq::<Seq<char>>::empty().push(capitalized(p)) =~= seq![capitalized(p)] + Seq::<Seq<char>>::empty());
        }
    } else {
        lemma_title_words_prepend(p, rest.drop_last());
        assert(whole.drop_last() =~= seq![p] + rest.drop_last());
        assert(whole.last() == rest.last());
        let a = title_words(rest.drop_last());
        if p.len() > 0 {
            if rest.last().len() > 0 {
                assert((seq![capitalized(p)] + a).push(capitalized(rest.last())) =~= seq![capitalized(p)]
                    + a.push(capitalized(rest.last())));
            }
        }
    }
}

pub proof fn lemma_title_words_rest_step(done: Seq<Seq<char>>, cur: Seq<char>, rest: Seq<Seq<char>>)
    ensures
        title_words_rest(done, seq![cur] + rest) == title_words_rest(
            if cur.len() == 0 { done } else { done.push(capitalized(cur)) },
            rest,
        ),
{
    lemma_title_words_prepend(cur, rest);
    if cur.len() > 0 {
        assert(done + (seq![capitalized(cur)] + title_words(rest)) =~= done.push(capitalized(cur)) + title_words(rest));
    }
}

fn capitalize_v(w: &Vec<char>) -> (r: Vec<char>)
    requires
        w@.len() > 0,
    ensures
        r@ == capitalized(w@),
{
    let mut r = upper_mapping(w[0]);
    let rest = crate::text::slice_of(w.as_slice(), 1, w.len());
    push_all(&mut r, rest.as_slice());
    assert(rest@ =~= w@.drop_first());
    r
}


// ---------------------------------------------------------------------------
// The theme catalog and the default theme.
// ---------------------------------------------------------------------------

/// What a catalog entry says: id, label, light variant, dark variant.
pub type EntryModel = (Seq<char>, Seq<char>, bool, bool);

pub open spec fn entry_model<'a>(e: ThemeEntry<'a>) -> EntryModel {
    (e.id@, e.label@, e.light, e.dark)
}

pub open spec fn entry_models<'a>(v: Seq<ThemeEntry<'a>>) -> Seq<EntryModel> {
    v.map_values(|e: ThemeEntry<'a>| entry_model(e))
}

/// The families compiled into the site stylesheet, in menu order.
pub open spec fn builtin_models() -> Seq<EntryModel> {
    seq![
        (DEFAULT_THEME_ID@, "Default"@, true, true),
        ("sepia"@, "Sepia"@, true, false),
        ("contrast"@, "High contrast"@, true, true),
    ]
}

/// The built-in families: the base palette, sepia, and high contrast.
pub fn builtin_themes() -> (r: Vec<ThemeEntry<'static>>)
    ensures
        entry_models(r@) == builtin_models(),
{
    let r = vec![
        ThemeEntry { id: DEFAULT_THEME_ID, label: "Default", light: true, dark: true },
        ThemeEntry { id: "sepia", label: "Sepia", light: true, dark: false },
        ThemeEntry { id: "contrast", label: "High contrast", light: true, dark: true },
    ];
    assert(entry_models(r@) =~= builtin_models());
    r
}

/// A bundle theme's menu label: its label, or its id.
pub open spec fn theme_label(t: ThemeModel) -> Seq<char> {
    match t.label {
        Some(l) => l,
        None => t.id,
    }
}

pub open spec fn model_ids(c: Seq<EntryModel>) -> Seq<Seq<char>> {
    c.map_values(|e: EntryModel| e.0)
}

/// The catalog: the built-ins, then each bundle theme whose id is not
/// already listed (a bundle theme reusing a built-in id restyles that
/// entry through the cascade instead of adding one).
pub open spec fn catalog_of(ts: Seq<ThemeModel>) -> Seq<EntryModel>
    decreases ts.len(),
{
    if ts.len() == 0 {
        builtin_models()
    } else {
        let prev = catalog_of(ts.drop_last());
        let t = ts.last();
        if model_ids(prev).contains(t.id) {
            prev
        } else {
            prev.push((t.id, theme_label(t), t.scheme == Scheme::Light, t.scheme == Scheme::Dark))
        }
    }
}

fn catalog_has(catalog: &Vec<ThemeEntry>, id: &str) -> (r: bool)
    ensures
        r == model_ids(entry_models(catalog@)).contains(id@),
{
    let ghost ids = model_ids(entry_models(catalog@));
    let mut k: usize = 0;
    while k < catalog.len()
        invariant
            k <= catalog@.len(),
            ids == model_ids(entry_models(catalog@)),
            forall|q: int| 0 <= q < k ==> ids[q] != id@,
        decreases catalog.len() - k,
    {
        let a = chars_of(catalog[k].id);
        let b = chars_of(id);
        if crate::markdown::eq_chars(a.as_slice(), b.as_slice()) {
            assert(ids[k as int] == id@);
            return true;
        }
        k += 1;
    }
    false
}

/// The site's theme catalog: the built-in families, then the bundle's own.
pub fn theme_catalog<'a>(themes: &'a Themes) -> (r: Vec<ThemeEntry<'a>>)
    ensures
        entry_models(r@) == catalog_of(themes@),
{
    let mut catalog: Vec<ThemeEntry<'a>> = builtin_themes();
    let ts = themes.iter();
    let ghost ms = themes@;
    let mut i: usize = 0;
    while i < ts.len()
        invariant
            i <= ts@.len(),
            crate::config::theme_models(ts@) == ms,
            entry_models(catalog@) == catalog_of(ms.subrange(0, i as int)),
        decreases ts.len() - i,
    {
        let t = &ts[i];
        proof {
            assert(ms.subrange(0, i + 1).drop_last() =~= ms.subrange(0, i as int));
            assert(ms[i as int] == t.model());
        }
        if !catalog_has(&catalog, t.id()) {
            let e = ThemeEntry {
                id: t.id(),
                label: t.label(),
                light: t.scheme() == Scheme::Light,
                dark: t.scheme() == Scheme::Dark,
            };
            let ghost before = entry_models(catalog@);
            catalog.push(e);
            assert(entry_models(catalog@) =~= before.push(entry_model(e)));
        }
        i += 1;
    }
    assert(ms.subrange(0, ms.len() as int) =~= ms);
    catalog
}

/// The catalog lists each family once: its ids are distinct, whatever the
/// bundle's themes.
pub proof fn lemma_catalog_ids_distinct(ts: Seq<ThemeModel>)
    ensures
        forall|i: int, j: int| 0 <= i < j < catalog_of(ts).len() ==> #[trigger] model_ids(catalog_of(ts))[i] != #[trigger] model_ids(catalog_of(ts))[j],
    decreases ts.len(),
{
    if ts.len() == 0 {
        reveal_strlit("default");
        reveal_strlit("sepia");
        reveal_strlit("contrast");
        let ids = model_ids(builtin_models());
        assert(ids[0] == DEFAULT_THEME_ID@);
        assert(ids[0][0] == 'd' && ids[1][0] == 's' && ids[2][0] == 'c');
    } else {
        lemma_catalog_ids_distinct(ts.drop_last());
        let prev = catalog_of(ts.drop_last());
        let t = ts.last();
        if !model_ids(prev).contains(t.id) {
            let c = prev.push((t.id, theme_label(t), t.scheme == Scheme::Light, t.scheme == Scheme::Dark));
            assert forall|i: int, j: int| 0 <= i < j < c.len() implies #[trigger] model_ids(c)[i] != #[trigger] model_ids(c)[j] by {
                if j == c.len() - 1 {
                    assert(model_ids(c)[j] == t.id);
                    assert(model_ids(c)[i] == model_ids(prev)[i]);
                } else {
                    assert(model_ids(c)[i] == model_ids(prev)[i]);
                    assert(model_ids(c)[j] == model_ids(prev)[j]);
                }
            }
        }
    }
}

/// The catalog's ids, comma separated, for messages.
pub open spec fn known_ids(catalog: Seq<EntryModel>) -> Seq<char> {
    join(model_ids(catalog), ", "@)
}

fn known_ids_v(catalog: &[ThemeEntry]) -> (r: Vec<char>)
    ensures
        r@ == known_ids(entry_models(catalog@)),
{
    let ghost ids = model_ids(entry_models(catalog@));
    let mut pieces: Vec<Vec<char>> = Vec::new();
    let mut i: usize = 0;
    while i < catalog.len()
        invariant
            i <= catalog@.len(),
            ids == model_ids(entry_models(catalog@)),
            views(pieces@) == ids.subrange(0, i as int),
        decreases catalog.len() - i,
    {
        let ghost before = views(pieces@);
        pieces.push(chars_of(catalog[i].id));
        assert(views(pieces@) =~= before.push(ids[i as int]));
        assert(ids.subrange(0, i + 1) =~= ids.subrange(0, i as int).push(ids[i as int]));
        i += 1;
    }
    assert(ids.subrange(0, ids.len() as int) =~= ids);
    let sep = chars_of(", ");
    crate::text::join_v(&pieces, sep.as_slice())
}

/// An error from a site build.
#[derive(Debug)]
pub enum SiteError {
    /// The bundle could not be loaded (the loader's message).
    Bundle(String),
    /// The bundle's `.okf/config.yaml` could not be used.
    Config(ConfigError),
    /// The caller asked for a default theme the site does not define.
    Theme(String),
    /// An output file could not be written: the message and the path.
    Io(String, String),
}

/// The message for a requested default theme the catalog lacks.
pub open spec fn unknown_theme_message(id: Seq<char>, catalog: Seq<EntryModel>) -> Seq<char> {
    "`"@ + id + "` is not one of this site's themes: "@ + known_ids(catalog)
}

/// The message for a configured default theme the catalog lacks.
pub open spec fn unknown_configured_theme_message(id: Seq<char>, catalog: Seq<EntryModel>) -> Seq<char> {
    "`site.theme` names `"@ + id + "`, which is not one of this site's themes: "@ + known_ids(catalog)
}

/// Resolves the theme a first visit gets: the caller's choice over the
/// bundle's `site.theme` over `auto`. An id outside the catalog fails: a
/// bad `site.theme` as a configuration error carrying the file's path, a
/// bad requested id as the caller's mistake.
pub fn resolve_default_theme(
    root: &str,
    requested: Option<String>,
    configured: Option<String>,
    catalog: &[ThemeEntry],
) -> (r: Result<String, SiteError>)
    ensures
        ({
            let c = entry_models(catalog@);
            match (requested, configured) {
                (None, None) => r matches Ok(s) && s@ == AUTO_THEME_ID@,
                (Some(id), _) => if model_ids(c).contains(id@) {
                    r matches Ok(s) && s@ == id@
                } else {
                    r matches Err(SiteError::Theme(m)) && m@ == unknown_theme_message(id@, c)
                },
                (None, Some(id)) => if model_ids(c).contains(id@) {
                    r matches Ok(s) && s@ == id@
                } else {
                    r matches Err(SiteError::Config(e)) && (e.path_view() == joined_path(root@, CONFIG_PATH@)
                        && (e.kind_view() matches ConfigErrorKind::Invalid(m)
                        && m@ == unknown_configured_theme_message(id@, c)))
                },
            }
        }),
{
    let ghost ids = model_ids(entry_models(catalog@));
    let ghost req = requested;
    let ghost conf = configured;
    let (id, from_caller) = match requested {
        Some(id) => (id, true),
        None => match configured {
            Some(id) => (id, false),
            None => {
                return Ok(AUTO_THEME_ID.to_owned());
            },
        },
    };
    assert(from_caller ==> req == Some(id));
    assert(!from_caller ==> req is None && conf == Some(id));
    let mut k: usize = 0;
    while k < catalog.len()
        invariant
            k <= catalog@.len(),
            ids == model_ids(entry_models(catalog@)),
            req == requested,
            conf == configured,
            from_caller ==> req == Some(id),
            !from_caller ==> req is None && conf == Some(id),
            forall|q: int| 0 <= q < k ==> ids[q] != id@,
        decreases catalog.len() - k,
    {
        let a = chars_of(catalog[k].id);
        let b = chars_of(id.as_str());
        if crate::markdown::eq_chars(a.as_slice(), b.as_slice()) {
            assert(ids[k as int] == id@);
            return Ok(id);
        }
        k += 1;
    }
    assert(!ids.contains(id@));
    let known = known_ids_v(catalog);
    let mut m: Vec<char> = Vec::new();
    if from_caller {
        push_str(&mut m, "`");
        push_str(&mut m, id.as_str());
        push_str(&mut m, "` is not one of this site's themes: ");
        push_all(&mut m, known.as_slice());
        Err(SiteError::Theme(string_of(m.as_slice())))
    } else {
        push_str(&mut m, "`site.theme` names `");
        push_str(&mut m, id.as_str());
        push_str(&mut m, "`, which is not one of this site's themes: ");
        push_all(&mut m, known.as_slice());
        let ms = string_of(m.as_slice());
        Err(SiteError::Config(ConfigError::invalid(root, ms.as_str())))
    }
}

// ---------------------------------------------------------------------------
// Build options and results.
// ---------------------------------------------------------------------------

/// A calendar date.
#[derive(Clone, Copy, Debug, PartialEq, Eq, Structural)]
pub struct Date {
    pub year: i32,
    pub month: u32,
    pub day: u32,
}

/// The date a build evaluates staleness against when neither the caller
/// nor the clock supplies one.
pub open spec fn epoch_date() -> Date {
    Date { year: 1970, month: 1, day: 1 }
}

/// The site title used when neither the caller nor the bundle names one.
pub const DEFAULT_SITE_TITLE: &'static str = "okf site";

/// Options for one site build.
#[derive(Clone, Debug)]
pub struct SiteOptions {
    /// The bundle directory to read.
    pub root: String,
    /// The directory to write the site into.
    pub out_dir: String,
    /// The date staleness is evaluated against; `None` uses the clock.
    pub today: Option<Date>,
    /// The header title; `None` falls back to `site.title`, then to
    /// [`DEFAULT_SITE_TITLE`].
    pub title: Option<String>,
    /// The theme a first-time visitor sees, by id; `None` falls back to
    /// `site.theme`, then to `auto`.
    pub theme: Option<String>,
}

impl SiteOptions {
    /// The effective build date: `today`, else what the clock reported
    /// (`clock`), else 1970-01-01 for a clock before the epoch.
    pub fn effective_today(&self, clock: Option<Date>) -> (r: Date)
        ensures
            r == match self.today {
                Some(d) => d,
                None => match clock {
                    Some(c) => c,
                    None => epoch_date(),
                },
            },
    {
        match self.today {
            Some(d) => d,
            None => match clock {
                Some(c) => c,
                None => Date { year: 1970, month: 1, day: 1 },
            },
        }
    }
}

/// The header title: the caller's, else the bundle's, else the default.
pub fn site_title(requested: Option<String>, configured: Option<String>) -> (r: String)
    ensures
        r@ == match requested {
            Some(t) => t@,
            None => match configured {
                Some(t) => t@,
                None => DEFAULT_SITE_TITLE@,
            },
        },
{
    match requested {
        Some(t) => t,
        None => match configured {
            Some(t) => t,
            None => DEFAULT_SITE_TITLE.to_owned(),
        },
    }
}

/// The result of a site build, reported to the caller.
#[derive(Clone, Debug)]
pub struct SiteSummary {
    /// Pages written, including directory indexes and special pages.
    pub pages: usize,
    /// Concepts whose body carries at least one mermaid block.
    pub mermaid_pages: usize,
    /// Concepts whose body carries a fenced code block with a language tag.
    pub code_pages: usize,
    /// The `.okf/config.yaml` this build read, if any.
    pub config: Option<String>,
    /// Which `site:` settings that file supplied, in schema order.
    pub config_settings: Vec<&'static str>,
    /// One note per section of that file the build ignored.
    pub notes: Vec<String>,
}

impl Default for SiteSummary {
    fn default() -> (r: SiteSummary)
        ensures
            r.pages == 0 && r.mermaid_pages == 0 && r.code_pages == 0,
            r.config is None,
            r.config_settings@.len() == 0,
            r.notes@.len() == 0,
    {
        SiteSummary {
            pages: 0,
            mermaid_pages: 0,
            code_pages: 0,
            config: None,
            config_settings: Vec::new(),
            notes: Vec::new(),
        }
    }
}

/// One page ready to write.
#[derive(Clone, Debug)]
pub struct SitePage {
    /// Where the page lands in the output tree.
    pub rel_path: PagePath,
    /// The page `<title>`.
    pub title: String,
    /// The body markup, every interpolated value escaped.
    pub body_html: String,
    /// Whether the page carries `<pre class="mermaid">` content.
    pub has_mermaid: bool,
    /// Whether the page carries a fenced code block with a language tag.
    pub has_shiki: bool,
    /// `(label, rendered-value markup)` rows for the frontmatter panel.
    pub meta_rows: Vec<(String, String)>,
}

/// What rendering one concept body produced.
#[derive(Clone, Debug)]
pub struct RenderedBody {
    /// The rendered HTML.
    pub html: String,
    /// Whether at least one mermaid block was intercepted.
    pub has_mermaid: bool,
    /// Body headings with the ids injected into the HTML, for the table of
    /// contents: `(level, text, id)`.
    pub headings: Vec<(usize, String, String)>,
}

impl Default for RenderedBody {
    fn default() -> (r: RenderedBody)
        ensures
            r.html@.len() == 0,
            !r.has_mermaid,
            r.headings@.len() == 0,
    {
        RenderedBody { html: String::new(), has_mermaid: false, headings: Vec::new() }
    }
}

/// The build-wide chrome every page shares.
#[derive(Clone, Copy, Debug)]
pub struct SiteChrome<'a> {
    /// The header title, linking back to the dashboard.
    pub title: &'a str,
    /// Whether this build wrote `assets/mermaid.min.js`.
    pub has_mermaid: bool,
    /// Whether this build wrote `assets/fonts.css`.
    pub has_fonts: bool,
    /// Whether this build wrote `assets/theme.css`.
    pub has_theme_css: bool,
    /// The catalog the header menu offers, built-ins first.
    pub themes: &'a [ThemeEntry<'a>],
    /// The family a visitor with no stored choice gets.
    pub default_theme: &'a str,
    /// The appearance a visitor with no stored choice gets.
    pub default_scheme: SchemePref,
}


/// How a build error reads.
pub open spec fn site_error_text(e: SiteError) -> Seq<char> {
    match e {
        SiteError::Bundle(m) => "bundle: "@ + m@,
        SiteError::Config(c) => "config: "@ + c.path_view() + ": "@ + crate::config::kind_text(c.kind_view()),
        SiteError::Theme(m) => "theme: "@ + m@,
        SiteError::Io(m, path) => path@ + ": "@ + m@,
    }
}

impl SiteError {
    /// The message, as the build reports it.
    pub fn describe(&self) -> (r: String)
        ensures
            r@ == site_error_text(*self),
    {
        let mut v: Vec<char> = Vec::new();
        match self {
            SiteError::Bundle(m) => {
                push_str(&mut v, "bundle: ");
                push_str(&mut v, m.as_str());
            },
            SiteError::Config(c) => {
                push_str(&mut v, "config: ");
                let d = c.describe();
                push_str(&mut v, d.as_str());
            },
            SiteError::Theme(m) => {
                push_str(&mut v, "theme: ");
                push_str(&mut v, m.as_str());
            },
            SiteError::Io(m, path) => {
                push_str(&mut v, path.as_str());
                push_str(&mut v, ": ");
                push_str(&mut v, m.as_str());
            },
        }
        string_of(v.as_slice())
    }
}

} // verus!
