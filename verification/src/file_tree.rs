//! The explorer's file tree, built from the bundle's files.
//!
//! Each directory lists its reserved files first (`index.md`, then
//! `log.md`), then its subdirectories by name, then its other files by
//! name; a directory counts the concepts anywhere below it.
use crate::chars::string_of;
use crate::concept_id::{string_views, ConceptId};
use crate::search::seq_lt;
use crate::studio::{LeafKind, TreeNode};
use vstd::prelude::*;

verus! {

/// One file of the bundle: the directories above it, its file name, and
/// what it is.
#[derive(Clone, Debug)]
pub struct TreeEntry {
    pub dirs: Vec<String>,
    pub name: String,
    pub kind: LeafKind,
}

/// What a leaf is, by value.
pub ghost enum KindView {
    Concept(Seq<Seq<char>>),
    Index(Seq<char>),
    Log(Seq<char>),
    Broken(Seq<char>),
}

pub open spec fn kind_view(k: LeafKind) -> KindView {
    match k {
        LeafKind::Concept(id) => KindView::Concept(id@),
        LeafKind::Index(p) => KindView::Index(p@),
        LeafKind::Log(p) => KindView::Log(p@),
        LeafKind::Broken(p) => KindView::Broken(p@),
    }
}

pub type EntryView = (Seq<Seq<char>>, Seq<char>, KindView);

pub open spec fn entry_view(e: TreeEntry) -> EntryView {
    (string_views(e.dirs@), e.name@, kind_view(e.kind))
}

pub open spec fn entry_views(v: Seq<TreeEntry>) -> Seq<EntryView> {
    v.map_values(|e: TreeEntry| entry_view(e))
}

// ---------------------------------------------------------------------------
// The shape of a level.
// ---------------------------------------------------------------------------

/// The entries directly in this directory.
pub open spec fn here_of(es: Seq<EntryView>) -> Seq<EntryView>
    decreases es.len(),
{
    if es.len() == 0 {
        Seq::empty()
    } else {
        let p = here_of(es.drop_last());
        if es.last().0.len() == 0 { p.push(es.last()) } else { p }
    }
}

/// Where a stable insertion by name puts `x`: before the first entry whose
/// name sorts after its own.
pub open spec fn name_pos(s: Seq<EntryView>, x: EntryView, i: int) -> int
    decreases s.len() - i,
{
    if i < 0 || i >= s.len() || seq_lt(x.1, s[i].1) {
        if i < 0 { 0 } else { i }
    } else {
        name_pos(s, x, i + 1)
    }
}

/// The entries sorted by name, equal names keeping their order.
pub open spec fn sorted_by_name(s: Seq<EntryView>) -> Seq<EntryView>
    decreases s.len(),
{
    if s.len() == 0 {
        Seq::empty()
    } else {
        let p = sorted_by_name(s.drop_last());
        let k = name_pos(p, s.last(), 0);
        p.take(k).push(s.last()) + p.skip(k)
    }
}

pub open spec fn is_index(e: EntryView) -> bool {
    e.2 is Index
}

pub open spec fn is_log(e: EntryView) -> bool {
    e.2 is Log
}

pub open spec fn is_concept(e: EntryView) -> bool {
    e.2 is Concept
}

/// The entries of one kind of reserved file, in order: `index` picks the
/// `index.md` files, else the `log.md` ones.
pub open spec fn reserved_of(s: Seq<EntryView>, index: bool) -> Seq<EntryView>
    decreases s.len(),
{
    if s.len() == 0 {
        Seq::empty()
    } else {
        let p = reserved_of(s.drop_last(), index);
        if (index && is_index(s.last())) || (!index && is_log(s.last())) { p.push(s.last()) } else { p }
    }
}

/// The entries that are not reserved, in order.
pub open spec fn plain_of(s: Seq<EntryView>) -> Seq<EntryView>
    decreases s.len(),
{
    if s.len() == 0 {
        Seq::empty()
    } else {
        let p = plain_of(s.drop_last());
        if !is_index(s.last()) && !is_log(s.last()) { p.push(s.last()) } else { p }
    }
}

/// A sorted list of distinct names with `x` added.
pub open spec fn with_name(ns: Seq<Seq<char>>, x: Seq<char>) -> Seq<Seq<char>> {
    if ns.contains(x) {
        ns
    } else {
        let k = first_after(ns, x, 0);
        ns.take(k).push(x) + ns.skip(k)
    }
}

/// The first index from `i` whose name sorts after `x`, or the end.
pub open spec fn first_after(ns: Seq<Seq<char>>, x: Seq<char>, i: int) -> int
    decreases ns.len() - i,
{
    if i < 0 || i >= ns.len() || seq_lt(x, ns[i]) {
        if i < 0 { 0 } else { i }
    } else {
        first_after(ns, x, i + 1)
    }
}

/// The subdirectories of this directory: the distinct first directories
/// of the entries below it, sorted.
pub open spec fn dir_names(es: Seq<EntryView>) -> Seq<Seq<char>>
    decreases es.len(),
{
    if es.len() == 0 {
        Seq::empty()
    } else {
        let p = dir_names(es.drop_last());
        if es.last().0.len() > 0 { with_name(p, es.last().0[0]) } else { p }
    }
}

/// The entries below subdirectory `d`, relative to it.
pub open spec fn child_entries(es: Seq<EntryView>, d: Seq<char>) -> Seq<EntryView>
    decreases es.len(),
{
    if es.len() == 0 {
        Seq::empty()
    } else {
        let p = child_entries(es.drop_last(), d);
        let e = es.last();
        if e.0.len() > 0 && e.0[0] == d { p.push((e.0.drop_first(), e.1, e.2)) } else { p }
    }
}

/// The concepts among the entries.
pub open spec fn concepts_in(es: Seq<EntryView>) -> int
    decreases es.len(),
{
    if es.len() == 0 {
        0
    } else {
        concepts_in(es.drop_last()) + if is_concept(es.last()) { 1int } else { 0int }
    }
}

/// The deepest directory nesting among the entries.
pub open spec fn max_depth(es: Seq<EntryView>) -> int
    decreases es.len(),
{
    if es.len() == 0 {
        0
    } else {
        let p = max_depth(es.drop_last());
        if es.last().0.len() > p { es.last().0.len() as int } else { p }
    }
}

/// A directory's path: its parent's path, `/`, and its name.
pub open spec fn dir_path(prefix: Seq<char>, name: Seq<char>) -> Seq<char> {
    if prefix.len() == 0 { name } else { prefix + seq!['/'] + name }
}

/// A leaf node for an entry.
pub open spec fn leaf_is(n: TreeNode, e: EntryView) -> bool {
    match n {
        TreeNode::Leaf { name, kind } => name@ == e.1 && kind_view(kind) == e.2,
        _ => false,
    }
}

/// The nodes of one directory level, built from the entries under it.
pub open spec fn level_ok(nodes: Seq<TreeNode>, es: Seq<EntryView>, prefix: Seq<char>, fuel: nat) -> bool
    decreases fuel, 0nat,
{
    if fuel == 0 {
        false
    } else {
        let s = sorted_by_name(here_of(es));
        let r = reserved_of(s, true) + reserved_of(s, false);
        let p = plain_of(s);
        let ds = dir_names(es);
        &&& nodes.len() == r.len() + ds.len() + p.len()
        &&& forall|k: int| 0 <= k < r.len() ==> leaf_is(#[trigger] nodes[k], r[k])
        &&& forall|k: int| 0 <= k < p.len() ==> leaf_is(#[trigger] nodes[r.len() + ds.len() + k], p[k])
        &&& forall|d: int| 0 <= d < ds.len() ==> dir_is(#[trigger] nodes[r.len() + d], ds[d], prefix, es, (fuel - 1) as nat)
    }
}

/// A directory node for subdirectory `name`.
pub open spec fn dir_is(n: TreeNode, name: Seq<char>, prefix: Seq<char>, es: Seq<EntryView>, fuel: nat) -> bool
    decreases fuel, 1nat,
{
    match n {
        TreeNode::Dir { name: nm, path, concept_count, children } => {
            &&& nm@ == name
            &&& path@ == dir_path(prefix, name)
            &&& concept_count as int == concepts_in(child_entries(es, name))
            &&& level_ok(children@, child_entries(es, name), dir_path(prefix, name), fuel)
        },
        _ => false,
    }
}

/// The tree of a bundle's files.
pub open spec fn tree_of(nodes: Seq<TreeNode>, es: Seq<EntryView>) -> bool {
    level_ok(nodes, es, Seq::empty(), (max_depth(es) + 1) as nat)
}


// ---------------------------------------------------------------------------
// Building.
// ---------------------------------------------------------------------------

fn copy_kind(k: &LeafKind) -> (r: LeafKind)
    ensures
        kind_view(r) == kind_view(*k),
{
    match k {
        LeafKind::Concept(id) => LeafKind::Concept(id.clone()),
        LeafKind::Index(p) => LeafKind::Index(p.clone()),
        LeafKind::Log(p) => LeafKind::Log(p.clone()),
        LeafKind::Broken(p) => LeafKind::Broken(p.clone()),
    }
}

/// A copy of the strings of `v` from `from` on.
fn copy_strings(v: &Vec<String>, from: usize) -> (r: Vec<String>)
    requires
        from <= v@.len(),
    ensures
        string_views(r@) == string_views(v@).skip(from as int),
{
    let mut out: Vec<String> = Vec::new();
    let mut i = from;
    while i < v.len()
        invariant
            from <= i <= v@.len(),
            string_views(out@) == string_views(v@).subrange(from as int, i as int),
        decreases v.len() - i,
    {
        let ghost ob = string_views(out@);
        out.push(v[i].clone());
        assert(string_views(out@) =~= ob.push(v@[i as int]@));
        assert(string_views(v@).subrange(from as int, i + 1) =~= string_views(v@).subrange(from as int, i as int).push(v@[i as int]@));
        i += 1;
    }
    assert(string_views(v@).subrange(from as int, v@.len() as int) =~= string_views(v@).skip(from as int));
    out
}

/// A copy of an entry, its directories from `from` on.
fn copy_entry(e: &TreeEntry, from: usize) -> (r: TreeEntry)
    requires
        from <= e.dirs@.len(),
    ensures
        entry_view(r) == (string_views(e.dirs@).skip(from as int), e.name@, kind_view(e.kind)),
{
    TreeEntry { dirs: copy_strings(&e.dirs, from), name: e.name.clone(), kind: copy_kind(&e.kind) }
}

fn less_name(a: &String, b: &String) -> (r: bool)
    ensures
        r == seq_lt(a@, b@),
{
    let av = crate::chars::chars_of(a.as_str());
    let bv = crate::chars::chars_of(b.as_str());
    crate::search::lex_less(av.as_slice(), bv.as_slice())
}

fn same_name(a: &String, b: &String) -> (r: bool)
    ensures
        r == (a@ == b@),
{
    let av = crate::chars::chars_of(a.as_str());
    let bv = crate::chars::chars_of(b.as_str());
    crate::markdown::eq_chars(av.as_slice(), bv.as_slice())
}

/// The entries directly here, sorted by name.
fn sorted_here(es: &Vec<TreeEntry>) -> (r: Vec<TreeEntry>)
    ensures
        entry_views(r@) == sorted_by_name(here_of(entry_views(es@))),
{
    let ghost ev = entry_views(es@);
    let mut out: Vec<TreeEntry> = Vec::new();
    let mut i: usize = 0;
    assert(ev.take(0) =~= Seq::<EntryView>::empty());
    assert(entry_views(out@) =~= Seq::<EntryView>::empty());
    while i < es.len()
        invariant
            i <= es@.len(),
            ev == entry_views(es@),
            entry_views(out@) == sorted_by_name(here_of(ev.take(i as int))),
        decreases es.len() - i,
    {
        proof {
            assert(ev.take(i + 1).drop_last() =~= ev.take(i as int));
            assert(ev.take(i + 1).last() == entry_view(es@[i as int]));
        }
        if es[i].dirs.len() == 0 {
            let ghost sv = entry_views(out@);
            let ghost x = entry_view(es@[i as int]);
            let mut k: usize = 0;
            while k < out.len() && !less_name(&es[i].name, &out[k].name)
                invariant
                    k <= out@.len(),
                    sv == entry_views(out@),
                    x == entry_view(es@[i as int]),
                    i < es@.len(),
                    name_pos(sv, x, 0) == name_pos(sv, x, k as int),
                decreases out.len() - k,
            {
                k += 1;
            }
            assert(name_pos(sv, x, k as int) == k as int);
            let c = copy_entry(&es[i], 0);
            proof {
                assert(string_views(es@[i as int].dirs@).skip(0) =~= string_views(es@[i as int].dirs@));
                assert(here_of(ev.take(i + 1)) == here_of(ev.take(i as int)).push(x));
            }
            out.insert(k, c);
            proof {
                assert(entry_views(out@) =~= sv.take(k as int).push(x) + sv.skip(k as int));
                let h = here_of(ev.take(i as int));
                assert(h.push(x).drop_last() =~= h);
                assert(h.push(x).last() == x);
                assert(sorted_by_name(h.push(x)) == sv.take(k as int).push(x) + sv.skip(k as int));
            }
        } else {
            assert(here_of(ev.take(i + 1)) == here_of(ev.take(i as int)));
        }
        i += 1;
    }
    assert(ev.take(ev.len() as int) =~= ev);
    out
}

/// The distinct subdirectory names, sorted.
fn dir_names_v(es: &Vec<TreeEntry>) -> (r: Vec<String>)
    ensures
        string_views(r@) == dir_names(entry_views(es@)),
{
    let ghost ev = entry_views(es@);
    let mut out: Vec<String> = Vec::new();
    let mut i: usize = 0;
    assert(ev.take(0) =~= Seq::<EntryView>::empty());
    assert(string_views(out@) =~= Seq::<Seq<char>>::empty());
    while i < es.len()
        invariant
            i <= es@.len(),
            ev == entry_views(es@),
            string_views(out@) == dir_names(ev.take(i as int)),
        decreases es.len() - i,
    {
        proof {
            assert(ev.take(i + 1).drop_last() =~= ev.take(i as int));
            assert(ev.take(i + 1).last() == entry_view(es@[i as int]));
        }
        if es[i].dirs.len() > 0 {
            let x = &es[i].dirs[0];
            let ghost ns = string_views(out@);
            assert(x@ == ev[i as int].0[0]);
            let mut found = false;
            let mut k: usize = 0;
            while k < out.len()
                invariant
                    k <= out@.len(),
                    ns == string_views(out@),
                    found == exists|q: int| 0 <= q < k && ns[q] == x@,
                decreases out.len() - k,
            {
                if same_name(&out[k], x) {
                    found = true;
                    assert(ns[k as int] == x@);
                } else {
                    assert(ns[k as int] != x@);
                }
                k += 1;
            }
            if !found {
                let mut k: usize = 0;
                while k < out.len() && !less_name(x, &out[k])
                    invariant
                        k <= out@.len(),
                        ns == string_views(out@),
                        first_after(ns, x@, 0) == first_after(ns, x@, k as int),
                    decreases out.len() - k,
                {
                    k += 1;
                }
                assert(first_after(ns, x@, k as int) == k as int);
                proof {
                    assert(!ns.contains(x@));
                }
                out.insert(k, x.clone());
                assert(string_views(out@) =~= ns.take(k as int).push(x@) + ns.skip(k as int));
            } else {
                proof {
                    let q = choose|q: int| 0 <= q < ns.len() && ns[q] == x@;
                    assert(ns.contains(x@));
                }
            }
        }
        i += 1;
    }
    assert(ev.take(ev.len() as int) =~= ev);
    out
}


/// The entries of `s` that `mode` selects: 0 the `index.md` files, 1 the
/// `log.md` files, 2 the rest.
pub open spec fn selected(s: Seq<EntryView>, mode: int) -> Seq<EntryView> {
    if mode == 0 {
        reserved_of(s, true)
    } else if mode == 1 {
        reserved_of(s, false)
    } else {
        plain_of(s)
    }
}

/// Appends a leaf for each entry `mode` selects.
fn push_leaves(sorted: &Vec<TreeEntry>, nodes: &mut Vec<TreeNode>, mode: u8)
    requires
        mode <= 2,
    ensures
        ({
            let sel = selected(entry_views(sorted@), mode as int);
            &&& final(nodes)@.len() == old(nodes)@.len() + sel.len()
            &&& forall|k: int| 0 <= k < old(nodes)@.len() ==> #[trigger] final(nodes)@[k] == old(nodes)@[k]
            &&& forall|k: int| 0 <= k < sel.len() ==> leaf_is(#[trigger] final(nodes)@[old(nodes)@.len() + k], sel[k])
        }),
{
    let ghost sv = entry_views(sorted@);
    let ghost n0 = nodes@;
    let mut i: usize = 0;
    assert(sv.take(0) =~= Seq::<EntryView>::empty());
    while i < sorted.len()
        invariant
            i <= sorted@.len(),
            mode <= 2,
            sv == entry_views(sorted@),
            nodes@.len() == n0.len() + selected(sv.take(i as int), mode as int).len(),
            forall|k: int| 0 <= k < n0.len() ==> #[trigger] nodes@[k] == n0[k],
            forall|k: int| 0 <= k < selected(sv.take(i as int), mode as int).len()
                ==> leaf_is(#[trigger] nodes@[n0.len() + k], selected(sv.take(i as int), mode as int)[k]),
        decreases sorted.len() - i,
    {
        let e = &sorted[i];
        let ghost x = sv[i as int];
        proof {
            assert(sv.take(i + 1).drop_last() =~= sv.take(i as int));
            assert(sv.take(i + 1).last() == x);
        }
        let take = match &e.kind {
            LeafKind::Index(_) => mode == 0,
            LeafKind::Log(_) => mode == 1,
            _ => mode == 2,
        };
        let ghost before = nodes@;
        let ghost sel0 = selected(sv.take(i as int), mode as int);
        if take {
            nodes.push(TreeNode::Leaf { name: e.name.clone(), kind: copy_kind(&e.kind) });
            proof {
                assert(selected(sv.take(i + 1), mode as int) == sel0.push(x));
                assert forall|k: int| 0 <= k < sel0.len() + 1 implies leaf_is(#[trigger] nodes@[n0.len() + k], sel0.push(x)[k]) by {
                    if k < sel0.len() {
                        assert(nodes@[n0.len() + k] == before[n0.len() + k]);
                    }
                }
            }
        } else {
            assert(selected(sv.take(i + 1), mode as int) == sel0);
        }
        i += 1;
    }
    assert(sv.take(sv.len() as int) =~= sv);
}

pub proof fn lemma_max_depth_bounds(es: Seq<EntryView>, k: int)
    requires
        0 <= k < es.len(),
    ensures
        es[k].0.len() <= max_depth(es),
        max_depth(es) >= 0,
    decreases es.len(),
{
    if k < es.len() - 1 {
        lemma_max_depth_bounds(es.drop_last(), k);
    } else if es.len() > 1 {
        lemma_max_depth_bounds(es.drop_last(), 0);
    }
}

pub proof fn lemma_max_depth_nonneg(es: Seq<EntryView>)
    ensures
        max_depth(es) >= 0,
    decreases es.len(),
{
    if es.len() > 0 {
        lemma_max_depth_nonneg(es.drop_last());
    }
}

pub proof fn lemma_dir_names_depth(es: Seq<EntryView>)
    ensures
        dir_names(es).len() > 0 ==> max_depth(es) >= 1,
    decreases es.len(),
{
    if es.len() > 0 {
        lemma_dir_names_depth(es.drop_last());
        lemma_max_depth_nonneg(es.drop_last());
        if es.last().0.len() > 0 {
        } else {
        }
    }
}

pub proof fn lemma_child_depth(es: Seq<EntryView>, d: Seq<char>)
    ensures
        max_depth(child_entries(es, d)) + 1 <= max_depth(es) || max_depth(child_entries(es, d)) == 0,
        max_depth(child_entries(es, d)) >= 0,
    decreases es.len(),
{
    if es.len() > 0 {
        lemma_child_depth(es.drop_last(), d);
        lemma_max_depth_nonneg(es.drop_last());
        let p = child_entries(es.drop_last(), d);
        lemma_max_depth_nonneg(p);
        let e = es.last();
        if e.0.len() > 0 && e.0[0] == d {
            let x = (e.0.drop_first(), e.1, e.2);
            assert(p.push(x).drop_last() =~= p);
            assert(p.push(x).last() == x);
            assert(child_entries(es, d) == p.push(x));
        }
    }
}

/// The entries under subdirectory `d`, relative to it, and how many are
/// concepts.
fn children_of(es: &Vec<TreeEntry>, d: &String) -> (r: (Vec<TreeEntry>, usize))
    ensures
        entry_views(r.0@) == child_entries(entry_views(es@), d@),
        r.1 as int == concepts_in(child_entries(entry_views(es@), d@)),
{
    let ghost ev = entry_views(es@);
    let mut out: Vec<TreeEntry> = Vec::new();
    let mut count: usize = 0;
    let mut i: usize = 0;
    assert(ev.take(0) =~= Seq::<EntryView>::empty());
    assert(entry_views(out@) =~= Seq::<EntryView>::empty());
    while i < es.len()
        invariant
            i <= es@.len(),
            ev == entry_views(es@),
            entry_views(out@) == child_entries(ev.take(i as int), d@),
            count as int == concepts_in(child_entries(ev.take(i as int), d@)),
            count <= i,
        decreases es.len() - i,
    {
        proof {
            assert(ev.take(i + 1).drop_last() =~= ev.take(i as int));
            assert(ev.take(i + 1).last() == entry_view(es@[i as int]));
        }
        let e = &es[i];
        if e.dirs.len() > 0 && same_name(&e.dirs[0], d) {
            let c = copy_entry(e, 1);
            let ghost ob = entry_views(out@);
            let is_c = match &e.kind {
                LeafKind::Concept(_) => true,
                _ => false,
            };
            out.push(c);
            proof {
                assert(string_views(e.dirs@).skip(1) =~= ev[i as int].0.drop_first());
                assert(entry_views(out@) =~= ob.push((ev[i as int].0.drop_first(), ev[i as int].1, ev[i as int].2)));
                let ce = child_entries(ev.take(i as int), d@);
                assert(ce.push(entry_view(c)).drop_last() =~= ce);
            }
            if is_c {
                count += 1;
            }
        }
        i += 1;
    }
    assert(ev.take(ev.len() as int) =~= ev);
    (out, count)
}

fn dir_path_v(prefix: &str, name: &String) -> (r: String)
    ensures
        r@ == dir_path(prefix@, name@),
{
    let pv = crate::chars::chars_of(prefix);
    if pv.len() == 0 {
        return name.clone();
    }
    let mut v = pv;
    v.push('/');
    crate::text::push_str(&mut v, name.as_str());
    string_of(v.as_slice())
}

/// The nodes of one directory level (see [`level_ok`]).
fn build_level(es: &Vec<TreeEntry>, prefix: &str, Ghost(fuel): Ghost<nat>) -> (r: Vec<TreeNode>)
    requires
        fuel > max_depth(entry_views(es@)),
    ensures
        level_ok(r@, entry_views(es@), prefix@, fuel),
    decreases fuel,
{
    let ghost ev = entry_views(es@);
    let sorted = sorted_here(es);
    let ghost sv = entry_views(sorted@);
    let mut nodes: Vec<TreeNode> = Vec::new();
    push_leaves(&sorted, &mut nodes, 0);
    let ghost n_index = nodes@;
    push_leaves(&sorted, &mut nodes, 1);
    let ghost r = reserved_of(sv, true) + reserved_of(sv, false);
    proof {
        assert forall|k: int| 0 <= k < r.len() implies leaf_is(#[trigger] nodes@[k], r[k]) by {
            if k < reserved_of(sv, true).len() {
                assert(nodes@[k] == n_index[k]);
                assert(selected(sv, 0) == reserved_of(sv, true));
                assert(leaf_is(n_index[0 + k], reserved_of(sv, true)[k]));
                assert(r[k] == reserved_of(sv, true)[k]);
            } else {
                let j = k - reserved_of(sv, true).len();
                assert(n_index.len() == reserved_of(sv, true).len());
                assert(r[k] == reserved_of(sv, false)[j]);
                assert(selected(sv, 1) == reserved_of(sv, false));
                assert(leaf_is(nodes@[n_index.len() + j], reserved_of(sv, false)[j]));
            }
        }
    }
    let names = dir_names_v(es);
    let ghost ds = dir_names(ev);
    let mut d: usize = 0;
    proof {
        lemma_dir_names_depth(ev);
        lemma_max_depth_nonneg(ev);
    }
    while d < names.len()
        invariant
            d <= names@.len(),
            ev == entry_views(es@),
            ds == dir_names(ev),
            string_views(names@) == ds,
            fuel > max_depth(ev),
            names@.len() > 0 ==> max_depth(ev) >= 1,
            nodes@.len() == r.len() + d,
            forall|k: int| 0 <= k < r.len() ==> leaf_is(#[trigger] nodes@[k], r[k]),
            forall|q: int| 0 <= q < d ==> dir_is(#[trigger] nodes@[r.len() + q], ds[q], prefix@, ev, (fuel - 1) as nat),
        decreases names.len() - d,
    {
        let (child, count) = children_of(es, &names[d]);
        let path = dir_path_v(prefix, &names[d]);
        proof {
            lemma_child_depth(ev, names@[d as int]@);
        }
        let children = build_level(&child, path.as_str(), Ghost((fuel - 1) as nat));
        let ghost before = nodes@;
        nodes.push(TreeNode::Dir { name: names[d].clone(), path, concept_count: count, children });
        proof {
            assert(ds[d as int] == names@[d as int]@);
            assert forall|k: int| 0 <= k < r.len() implies leaf_is(#[trigger] nodes@[k], r[k]) by {
                assert(nodes@[k] == before[k]);
            }
            assert forall|q: int| 0 <= q < d + 1 implies dir_is(#[trigger] nodes@[r.len() + q], ds[q], prefix@, ev, (fuel - 1) as nat) by {
                if q < d {
                    assert(nodes@[r.len() + q] == before[r.len() + q]);
                }
            }
        }
        d += 1;
    }
    let ghost before_plain = nodes@;
    push_leaves(&sorted, &mut nodes, 2);
    proof {
        let p = plain_of(sv);
        assert(before_plain.len() == r.len() + ds.len());
        assert forall|k: int| 0 <= k < r.len() implies leaf_is(#[trigger] nodes@[k], r[k]) by {
            assert(nodes@[k] == before_plain[k]);
        }
        assert forall|q: int| 0 <= q < ds.len() implies dir_is(#[trigger] nodes@[r.len() + q], ds[q], prefix@, ev, (fuel - 1) as nat) by {
            assert(nodes@[r.len() + q] == before_plain[r.len() + q]);
        }
        assert forall|k: int| 0 <= k < p.len() implies leaf_is(#[trigger] nodes@[r.len() + ds.len() + k], p[k]) by {
            assert(selected(sv, 2) == p);
        }
    }
    nodes
}

/// Builds the explorer's file tree from the bundle's files (concepts,
/// then `index.md` files, then `log.md` files, then unparsable files).
pub fn build_tree(entries: &Vec<TreeEntry>) -> (r: Vec<TreeNode>)
    ensures
        tree_of(r@, entry_views(entries@)),
{
    proof {
        lemma_max_depth_nonneg(entry_views(entries@));
        reveal_strlit("");
    }
    build_level(entries, "", Ghost((max_depth(entry_views(entries@)) + 1) as nat))
}

/// The tree entry of a concept: its parent directories and `<name>.md`.
pub fn concept_entry(id: &ConceptId) -> (r: TreeEntry)
    ensures
        entry_view(r) == (id@.drop_last(), id@.last() + ".md"@, KindView::Concept(id@)),
{
    let segs = id.segments();
    let n = segs.len();
    let dirs = copy_strings_prefix(segs, n - 1);
    let mut name = crate::chars::chars_of(id.name().as_str());
    crate::text::push_str(&mut name, ".md");
    proof {
        assert(string_views(segs@).take(n - 1) =~= id@.drop_last());
    }
    TreeEntry { dirs, name: string_of(name.as_slice()), kind: LeafKind::Concept(id.clone()) }
}

fn copy_strings_prefix(v: &Vec<String>, n: usize) -> (r: Vec<String>)
    requires
        n <= v@.len(),
    ensures
        string_views(r@) == string_views(v@).take(n as int),
{
    let mut out: Vec<String> = Vec::new();
    let mut i: usize = 0;
    while i < n
        invariant
            i <= n <= v@.len(),
            string_views(out@) == string_views(v@).take(i as int),
        decreases n - i,
    {
        let ghost ob = string_views(out@);
        out.push(v[i].clone());
        assert(string_views(out@) =~= ob.push(v@[i as int]@));
        assert(string_views(v@).take(i + 1) =~= string_views(v@).take(i as int).push(v@[i as int]@));
        i += 1;
    }
    out
}

} // verus!
