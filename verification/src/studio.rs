//! The studio's application model: workspace and overlay state, the focus
//! and sort cycles, the flattened file tree, and the display-width helpers
//! the terminal views lay text out with.
use crate::chars::{chars_of, is_control, string_of, text_fits, whitespace};
use crate::concept_id::ConceptId;
use crate::links::LinkKind;
use crate::lifecycle::{tier_name, Status, TrustTier};
use crate::search::{id_text, lex_less, seq_lt, BodyHit, SearchHit};
use crate::slugs::{decimal, decimal_v};
use crate::text::{push_all, push_str, views};
use crate::yaml::{int_text, int_text_v};
use vstd::prelude::*;

verus! {

// ---------------------------------------------------------------------------
// Focus and sort cycles.
// ---------------------------------------------------------------------------

/// Which explorer pane has focus.
#[derive(Clone, Copy, Debug, PartialEq, Eq, Structural)]
pub enum ExplorerPane {
    /// The tree.
    Tree,
    /// The document viewer.
    Viewer,
}

/// The dimension the graph colors nodes by.
#[derive(Clone, Copy, Debug, PartialEq, Eq, Structural)]
pub enum ColorBy {
    /// Trust tier (the default).
    Trust,
    /// Lifecycle status.
    Status,
    /// Staleness.
    Staleness,
    /// Concept type.
    Type,
    /// Open diagnostics.
    Diagnostics,
}

pub open spec fn color_by_next(c: ColorBy) -> ColorBy {
    match c {
        ColorBy::Trust => ColorBy::Status,
        ColorBy::Status => ColorBy::Staleness,
        ColorBy::Staleness => ColorBy::Type,
        ColorBy::Type => ColorBy::Diagnostics,
        ColorBy::Diagnostics => ColorBy::Trust,
    }
}

pub open spec fn color_by_name(c: ColorBy) -> Seq<char> {
    match c {
        ColorBy::Trust => seq!['t', 'r', 'u', 's', 't'],
        ColorBy::Status => seq!['s', 't', 'a', 't', 'u', 's'],
        ColorBy::Staleness => seq!['s', 't', 'a', 'l', 'e', 'n', 'e', 's', 's'],
        ColorBy::Type => seq!['t', 'y', 'p', 'e'],
        ColorBy::Diagnostics => seq!['d', 'i', 'a', 'g', 'n', 'o', 's', 't', 'i', 'c', 's'],
    }
}

impl ColorBy {
    /// The next dimension in the cycle trust → status → staleness → type →
    /// diagnostics → trust.
    pub fn next(self) -> (r: ColorBy)
        ensures
            r == color_by_next(self),
    {
        match self {
            ColorBy::Trust => ColorBy::Status,
            ColorBy::Status => ColorBy::Staleness,
            ColorBy::Staleness => ColorBy::Type,
            ColorBy::Type => ColorBy::Diagnostics,
            ColorBy::Diagnostics => ColorBy::Trust,
        }
    }

    /// Display name.
    pub fn name(self) -> (r: String)
        ensures
            r@ == color_by_name(self),
    {
        let v: Vec<char> = match self {
            ColorBy::Trust => vec!['t', 'r', 'u', 's', 't'],
            ColorBy::Status => vec!['s', 't', 'a', 't', 'u', 's'],
            ColorBy::Staleness => vec!['s', 't', 'a', 'l', 'e', 'n', 'e', 's', 's'],
            ColorBy::Type => vec!['t', 'y', 'p', 'e'],
            ColorBy::Diagnostics => vec!['d', 'i', 'a', 'g', 'n', 'o', 's', 't', 'i', 'c', 's'],
        };
        proof {
            assert(v@ =~= color_by_name(self));
        }
        string_of(v.as_slice())
    }
}

/// Cycling the graph coloring visits all five dimensions and comes back
/// after five steps.
pub proof fn lemma_color_by_cycle(c: ColorBy)
    ensures
        color_by_next(color_by_next(color_by_next(color_by_next(color_by_next(c))))) == c,
        color_by_next(c) != c,
{
}

/// Which mission-control panel has focus.
#[derive(Clone, Copy, Debug, PartialEq, Eq, Structural)]
pub enum TrustPanel {
    /// The attention queue.
    Queue,
    /// The trust-tier distribution bars.
    TrustBars,
    /// The lifecycle distribution bars.
    LifecycleBars,
    /// The freshness distribution bars.
    FreshnessBars,
    /// The activity sparkline.
    Activity,
}

pub open spec fn trust_panel_next(p: TrustPanel) -> TrustPanel {
    match p {
        TrustPanel::Queue => TrustPanel::TrustBars,
        TrustPanel::TrustBars => TrustPanel::LifecycleBars,
        TrustPanel::LifecycleBars => TrustPanel::FreshnessBars,
        TrustPanel::FreshnessBars => TrustPanel::Activity,
        TrustPanel::Activity => TrustPanel::Queue,
    }
}

impl TrustPanel {
    /// The next panel in the focus cycle.
    pub fn next(self) -> (r: TrustPanel)
        ensures
            r == trust_panel_next(self),
    {
        match self {
            TrustPanel::Queue => TrustPanel::TrustBars,
            TrustPanel::TrustBars => TrustPanel::LifecycleBars,
            TrustPanel::LifecycleBars => TrustPanel::FreshnessBars,
            TrustPanel::FreshnessBars => TrustPanel::Activity,
            TrustPanel::Activity => TrustPanel::Queue,
        }
    }
}

/// The panel focus cycle comes back after five steps.
pub proof fn lemma_trust_panel_cycle(p: TrustPanel)
    ensures
        trust_panel_next(trust_panel_next(trust_panel_next(trust_panel_next(trust_panel_next(p)))))
            == p,
        trust_panel_next(p) != p,
{
}

/// A cohort filter applied to the attention queue.
#[derive(Clone, Copy, Debug, PartialEq, Eq, Structural)]
pub enum Cohort {
    /// Filter to a trust tier.
    Tier(TrustTier),
    /// Filter to a status bucket (index into the status counts).
    Status(usize),
    /// Freshness bucket: 0 fresh, 1 stale, 2 stale-soon.
    Fresh(usize),
}

/// Attention-queue sort order.
#[derive(Clone, Copy, Debug, PartialEq, Eq, Structural)]
pub enum QueueSort {
    /// By risk score (default).
    Risk,
    /// By days overdue.
    Staleness,
    /// By blast radius (backlinks).
    Backlinks,
}

pub open spec fn queue_sort_next(s: QueueSort) -> QueueSort {
    match s {
        QueueSort::Risk => QueueSort::Staleness,
        QueueSort::Staleness => QueueSort::Backlinks,
        QueueSort::Backlinks => QueueSort::Risk,
    }
}

pub open spec fn queue_sort_name(s: QueueSort) -> Seq<char> {
    match s {
        QueueSort::Risk => seq!['r', 'i', 's', 'k'],
        QueueSort::Staleness => seq!['s', 't', 'a', 'l', 'e', 'n', 'e', 's', 's'],
        QueueSort::Backlinks => seq!['b', 'a', 'c', 'k', 'l', 'i', 'n', 'k', 's'],
    }
}

impl QueueSort {
    /// The next sort in the cycle risk → staleness → backlinks → risk.
    pub fn next(self) -> (r: QueueSort)
        ensures
            r == queue_sort_next(self),
    {
        match self {
            QueueSort::Risk => QueueSort::Staleness,
            QueueSort::Staleness => QueueSort::Backlinks,
            QueueSort::Backlinks => QueueSort::Risk,
        }
    }

    /// Display name.
    pub fn name(self) -> (r: String)
        ensures
            r@ == queue_sort_name(self),
    {
        let v: Vec<char> = match self {
            QueueSort::Risk => vec!['r', 'i', 's', 'k'],
            QueueSort::Staleness => vec!['s', 't', 'a', 'l', 'e', 'n', 'e', 's', 's'],
            QueueSort::Backlinks => vec!['b', 'a', 'c', 'k', 'l', 'i', 'n', 'k', 's'],
        };
        proof {
            assert(v@ =~= queue_sort_name(self));
        }
        string_of(v.as_slice())
    }
}

/// The sort cycle comes back after three steps.
pub proof fn lemma_queue_sort_cycle(s: QueueSort)
    ensures
        queue_sort_next(queue_sort_next(queue_sort_next(s))) == s,
        queue_sort_next(s) != s,
{
}

/// Mission-control workspace state.
#[derive(Clone, Copy, Debug)]
pub struct TrustState {
    /// Focused panel.
    pub panel: TrustPanel,
    /// Selected queue row.
    pub queue_sel: usize,
    /// Selected bar row within the focused bar panel.
    pub bar_sel: usize,
    /// Active cohort filter.
    pub cohort: Option<Cohort>,
    /// Queue sort.
    pub sort: QueueSort,
}

/// Which computations pane has focus.
#[derive(Clone, Copy, Debug, PartialEq, Eq, Structural)]
pub enum CompPane {
    /// The contract list.
    List,
    /// The playground form.
    Form,
}

/// Computations workspace state.
#[derive(Clone, Debug)]
pub struct ComputationsState {
    /// Focused pane.
    pub pane: CompPane,
    /// Selected contract index.
    pub selected: usize,
    /// Focused form field.
    pub field: usize,
    /// Parameter values, as `(concept-id\u{0}param-name, value)` pairs.
    pub values: Vec<(String, String)>,
}

// ---------------------------------------------------------------------------
// Overlays.
// ---------------------------------------------------------------------------

/// The palette's mode, derived from its input prefix.
#[derive(Clone, Copy, Debug, PartialEq, Eq, Structural)]
pub enum PaletteMode {
    /// Omnisearch over concepts.
    Search,
    /// Command mode (`>` prefix).
    Command,
}

/// Palette overlay state.
#[derive(Clone, Debug)]
pub struct PaletteState {
    /// The typed query.
    pub input: String,
    /// Selected result row.
    pub sel: usize,
}

/// The palette mode of an input: command mode when it starts with `>`
/// after leading whitespace.
pub open spec fn palette_mode(input: Seq<char>) -> PaletteMode {
    let t = crate::text::trim_start(input);
    if t.len() > 0 && t[0] == '>' {
        PaletteMode::Command
    } else {
        PaletteMode::Search
    }
}

impl PaletteState {
    /// The active mode: `Command` when the input starts with `>` (after
    /// leading whitespace), `Search` otherwise.
    pub fn mode(&self) -> (r: PaletteMode)
        ensures
            r == palette_mode(self.input@),
    {
        let v = chars_of(self.input.as_str());
        let i = crate::text::trim_start_index(v.as_slice());
        if i < v.len() && v[i] == '>' {
            PaletteMode::Command
        } else {
            PaletteMode::Search
        }
    }
}

/// The palette's result rows.
#[derive(Clone, Debug)]
pub enum PaletteResults {
    /// Omnisearch hits (metadata first, then body-text rows).
    Search(Vec<SearchHit>, Vec<BodyHit>),
    /// Command rows: `(label, key hint)`.
    Commands(Vec<(String, String)>),
}

/// Diagnostics overlay filter.
#[derive(Clone, Copy, Debug, PartialEq, Eq, Structural)]
pub enum DiagFilter {
    /// Everything.
    All,
    /// Validation errors only.
    Errors,
    /// Validation warnings only.
    Warnings,
    /// Lint findings only.
    Lint,
}

/// Diagnostics overlay state.
#[derive(Clone, Copy, Debug)]
pub struct DiagnosticsState {
    /// Active filter.
    pub filter: DiagFilter,
    /// Selected row.
    pub sel: usize,
}

/// What a confirm overlay confirms.
#[derive(Clone, Debug)]
pub enum ConfirmAction {
    /// Stamp a verification.
    Verify(ConceptId),
}

/// Confirm overlay state.
#[derive(Clone, Debug)]
pub struct ConfirmState {
    /// Title line.
    pub title: String,
    /// Body lines.
    pub body: Vec<String>,
    /// What Enter does.
    pub action: ConfirmAction,
}

/// Date-picker overlay state (stale extension / today pinning).
#[derive(Clone, Debug)]
pub struct DatePickerState {
    /// The concept whose `stale_after` is written; `None` pins the
    /// evaluation date.
    pub id: Option<ConceptId>,
    /// The typed date.
    pub input: String,
}

/// The refactor verb a modal drives.
#[derive(Clone, Copy, Debug, PartialEq, Eq, Structural)]
pub enum VerbKind {
    /// Move / rename.
    Move,
    /// Remove.
    Remove,
    /// Merge into another concept.
    Merge,
    /// Split a section out.
    Split,
    /// Rename a section heading.
    RenameSection,
}

/// The remove modal's decision.
#[derive(Clone, Copy, Debug, PartialEq, Eq, Structural)]
pub enum RemoveChoice {
    /// No inbound links (or not decided yet).
    Plain,
    /// Redirect inbound links.
    Redirect,
    /// Unlink inbound links to plain text.
    Unlink,
    /// Force: leave broken links.
    Force,
}

/// A refactor operation, shared by preview and apply.
#[derive(Clone, Debug)]
pub enum RefactorOp {
    /// Move / rename a concept.
    Move { source: ConceptId, target: ConceptId, force: bool },
    /// Remove a concept.
    Remove { target: ConceptId, redirect_to: Option<ConceptId>, unlink: bool, force: bool },
    /// Merge `source` into `target`.
    Merge { source: ConceptId, target: ConceptId },
    /// Split a section out into a new concept.
    Split { source: ConceptId, target: ConceptId, section: String, title: Option<String>, force: bool },
    /// Rename a section heading.
    RenameSection { concept: ConceptId, old: String, new: String },
}

/// New-concept form state.
#[derive(Clone, Debug)]
pub struct NewConceptState {
    /// Field values: path, type, title.
    pub fields: [String; 3],
    /// Focused field.
    pub field: usize,
}

/// Outline overlay state.
#[derive(Clone, Debug)]
pub struct OutlineState {
    /// The concept whose outline shows.
    pub id: ConceptId,
    /// Selected heading row.
    pub sel: usize,
    /// When set, the selected heading is being renamed with this input.
    pub rename: Option<String>,
}

/// A transient status message.
#[derive(Clone, Debug)]
pub struct Toast {
    /// The text.
    pub text: String,
    /// Remaining ticks.
    pub ttl: u8,
    /// Whether it reports an error.
    pub error: bool,
}

/// What background work is in flight, for the status-bar spinner.
#[derive(Clone, Copy, Debug, PartialEq, Eq, Structural)]
pub enum LoadPhase {
    /// Nothing in flight.
    Idle,
    /// A snapshot rebuild is in flight.
    Reloading,
    /// A write operation is in flight.
    Applying,
}

// ---------------------------------------------------------------------------
// The file tree and its visible rows.
// ---------------------------------------------------------------------------

/// A leaf in the file tree; paths are bundle-relative and `/`-separated.
#[derive(Clone, Debug)]
pub enum LeafKind {
    /// A parsed concept.
    Concept(ConceptId),
    /// A reserved `index.md`.
    Index(String),
    /// A reserved `log.md`.
    Log(String),
    /// A file whose frontmatter failed to parse.
    Broken(String),
}

/// One node of the file tree.
#[derive(Debug)]
pub enum TreeNode {
    /// A directory with children.
    Dir {
        /// The directory's own name.
        name: String,
        /// The `/`-joined path from the bundle root, the collapse key.
        path: String,
        /// Recursive concept count.
        concept_count: usize,
        /// Child nodes, reserved files first, then dirs, then leaves.
        children: Vec<TreeNode>,
    },
    /// A file.
    Leaf {
        /// Display name (filename).
        name: String,
        /// What the file is.
        kind: LeafKind,
    },
}

/// The bundle's directory tree.
#[derive(Debug)]
pub struct FileTree {
    /// Top-level nodes.
    pub roots: Vec<TreeNode>,
}

/// What the tree selection points at, held by identifier so it survives
/// snapshot swaps.
#[derive(Clone, Debug)]
pub enum TreeSel {
    /// A directory (by `/`-joined relative path).
    Dir(String),
    /// A concept.
    Concept(ConceptId),
    /// A reserved or broken file.
    File(String),
}

/// The payload of a tree row.
#[derive(Clone, Debug)]
pub enum TreeRowKind {
    /// A directory row.
    Dir {
        /// Recursive concept count.
        count: usize,
        /// Whether it is currently collapsed.
        collapsed: bool,
    },
    /// A file row.
    Leaf(LeafKind),
}

/// One visible row of the flattened tree.
#[derive(Clone, Debug)]
pub struct TreeRow {
    /// Indentation depth.
    pub depth: usize,
    /// The selection identifier.
    pub sel: TreeSel,
    /// Display name.
    pub name: String,
    /// Row payload.
    pub kind: TreeRowKind,
}

/// Explorer workspace state.
#[derive(Clone, Debug)]
pub struct ExplorerState {
    /// Focused pane.
    pub pane: ExplorerPane,
    /// Current selection.
    pub selected: Option<TreeSel>,
    /// Collapsed directory paths.
    pub collapsed: Vec<String>,
    /// Tree scroll offset, written back by the view.
    pub tree_offset: usize,
    /// Viewer scroll offset (rendered lines).
    pub scroll: usize,
    /// The height-clamped maximum scroll, written back by the view.
    pub max_scroll: usize,
    /// Focused link index in the rendered document.
    pub focused_link: Option<usize>,
    /// Whether frontmatter shows as raw YAML.
    pub raw_yaml: bool,
    /// Inspector tab: 0 Meta, 1 Links, 2 Sources, 3 History.
    pub inspector_tab: usize,
    /// Back stack of viewed concepts.
    pub history: Vec<ConceptId>,
    /// Forward stack.
    pub future: Vec<ConceptId>,
}

/// What a visible row says: `(depth, kind of row, name, path or file)`,
/// where the kind is 0 for a directory (then `count`, `collapsed` apply) and
/// 1 for a file.
pub ghost struct RowModel {
    pub depth: int,
    pub is_dir: bool,
    pub name: Seq<char>,
    pub count: int,
    pub collapsed: bool,
}

pub open spec fn row_model(r: TreeRow) -> RowModel {
    RowModel {
        depth: r.depth as int,
        is_dir: r.kind is Dir,
        name: r.name@,
        count: match r.kind {
            TreeRowKind::Dir { count, .. } => count as int,
            _ => 0,
        },
        collapsed: match r.kind {
            TreeRowKind::Dir { collapsed, .. } => collapsed,
            _ => false,
        },
    }
}

pub open spec fn collapsed_set(c: Seq<String>) -> Set<Seq<char>> {
    c.map_values(|s: String| s@).to_set()
}

/// Size of a tree, for termination.
pub open spec fn nodes_size(ns: Seq<TreeNode>) -> nat
    decreases ns,
{
    if ns.len() == 0 {
        0
    } else {
        nodes_size(ns.drop_last()) + node_size(ns.last())
    }
}

pub open spec fn node_size(n: TreeNode) -> nat
    decreases n,
{
    match n {
        TreeNode::Dir { children, .. } => 1 + nodes_size(children@),
        TreeNode::Leaf { .. } => 1,
    }
}

/// The visible rows of `ns` at `depth`: each node in order, a directory
/// followed by its own rows unless its path is collapsed.
pub open spec fn visible_rows(ns: Seq<TreeNode>, depth: int, collapsed: Set<Seq<char>>) -> Seq<RowModel>
    decreases ns,
{
    if ns.len() == 0 {
        Seq::empty()
    } else {
        visible_rows(ns.drop_last(), depth, collapsed) + node_rows(ns.last(), depth, collapsed)
    }
}

pub open spec fn node_rows(n: TreeNode, depth: int, collapsed: Set<Seq<char>>) -> Seq<RowModel>
    decreases n,
{
    match n {
        TreeNode::Dir { name, path, concept_count, children } => {
            let c = collapsed.contains(path@);
            let head = RowModel {
                depth: depth,
                is_dir: true,
                name: name@,
                count: concept_count as int,
                collapsed: c,
            };
            if c {
                seq![head]
            } else {
                seq![head] + visible_rows(children@, depth + 1, collapsed)
            }
        },
        TreeNode::Leaf { name, kind } => seq![
            RowModel { depth: depth, is_dir: false, name: name@, count: 0, collapsed: false },
        ],
    }
}

fn is_collapsed(collapsed: &Vec<String>, path: &String) -> (r: bool)
    ensures
        r == collapsed_set(collapsed@).contains(path@),
{
    let ghost vs = collapsed@.map_values(|s: String| s@);
    let mut i: usize = 0;
    while i < collapsed.len()
        invariant
            i <= collapsed@.len(),
            vs == collapsed@.map_values(|s: String| s@),
            forall|k: int| 0 <= k < i ==> #[trigger] vs[k] != path@,
        decreases collapsed.len() - i,
    {
        if collapsed[i] == *path {
            assert(vs[i as int] == path@);
            return true;
        }
        i += 1;
    }
    proof {
        if vs.to_set().contains(path@) {
            let k = choose|k: int| 0 <= k < vs.len() && vs[k] == path@;
        }
    }
    false
}

pub open spec fn row_models(rows: Seq<TreeRow>) -> Seq<RowModel> {
    rows.map_values(|r: TreeRow| row_model(r))
}

/// Appends the visible rows of `nodes` at `depth` to `out`.
pub fn flatten_tree(nodes: &Vec<TreeNode>, depth: usize, collapsed: &Vec<String>, out: &mut Vec<TreeRow>)
    requires
        depth + nodes_size(nodes@) <= usize::MAX,
    ensures
        row_models(final(out)@) == row_models(old(out)@) + visible_rows(nodes@, depth as int, collapsed_set(collapsed@)),
    decreases nodes_size(nodes@),
{
    let ghost cs = collapsed_set(collapsed@);
    let ghost start = row_models(out@);
    let mut i: usize = 0;
    while i < nodes.len()
        invariant
            i <= nodes@.len(),
            cs == collapsed_set(collapsed@),
            depth + nodes_size(nodes@) <= usize::MAX,
            row_models(out@) == start + visible_rows(nodes@.take(i as int), depth as int, cs),
        decreases nodes.len() - i,
    {
        proof {
            assert(nodes@.take(i + 1).drop_last() =~= nodes@.take(i as int));
            lemma_nodes_size_take(nodes@, i as int);
        }
        let ghost before = row_models(out@);
        proof {
            assert(nodes@.take(i + 1).last() == nodes@[i as int]);
        }
        match &nodes[i] {
            TreeNode::Dir { name, path, concept_count, children } => {
                let c = is_collapsed(collapsed, path);
                out.push(
                    TreeRow {
                        depth,
                        sel: TreeSel::Dir(path.clone()),
                        name: name.clone(),
                        kind: TreeRowKind::Dir { count: *concept_count, collapsed: c },
                    },
                );
                proof {
                    assert(row_models(out@) =~= before.push(row_model(out@.last())));
                }
                if !c {
                    let ghost mid = row_models(out@);
                    flatten_tree(children, depth + 1, collapsed, out);
                    proof {
                        assert(row_models(out@) =~= before + node_rows(nodes@[i as int], depth as int, cs));
                    }
                } else {
                    proof {
                        assert(row_models(out@) =~= before + node_rows(nodes@[i as int], depth as int, cs));
                    }
                }
            },
            TreeNode::Leaf { name, kind } => {
                let sel = match kind {
                    LeafKind::Concept(id) => TreeSel::Concept(id.clone()),
                    LeafKind::Index(p) => TreeSel::File(p.clone()),
                    LeafKind::Log(p) => TreeSel::File(p.clone()),
                    LeafKind::Broken(p) => TreeSel::File(p.clone()),
                };
                out.push(TreeRow { depth, sel, name: name.clone(), kind: TreeRowKind::Leaf(kind.clone()) });
                proof {
                    assert(row_models(out@) =~= before.push(row_model(out@.last())));
                    assert(row_models(out@) =~= before + node_rows(nodes@[i as int], depth as int, cs));
                }
            },
        }
        i += 1;
    }
    proof {
        assert(nodes@.take(nodes@.len() as int) =~= nodes@);
    }
}

pub proof fn lemma_nodes_size_take(ns: Seq<TreeNode>, i: int)
    requires
        0 <= i < ns.len(),
    ensures
        nodes_size(ns.take(i + 1)) == nodes_size(ns.take(i)) + node_size(ns[i]),
        nodes_size(ns.take(i + 1)) <= nodes_size(ns),
    decreases ns.len(),
{
    assert(ns.take(i + 1).drop_last() =~= ns.take(i));
    if i + 1 < ns.len() {
        lemma_nodes_size_take(ns.drop_last(), i);
        assert(ns.drop_last().take(i + 1) =~= ns.take(i + 1));
        assert(ns.drop_last().take(i) =~= ns.take(i));
    } else {
        assert(ns.take(i + 1) =~= ns);
    }
}

// ---------------------------------------------------------------------------
// Display widths.
// ---------------------------------------------------------------------------

/// Code points drawn two columns wide: the East Asian wide and full-width
/// blocks and the pictographs.
pub open spec fn wide(cp: u32) -> bool {
    ||| 0x1100 <= cp <= 0x115F
    ||| 0x2E80 <= cp <= 0xA4CF
    ||| 0xAC00 <= cp <= 0xD7A3
    ||| 0xF900 <= cp <= 0xFAFF
    ||| 0xFE30 <= cp <= 0xFE4F
    ||| 0xFF00 <= cp <= 0xFF60
    ||| 0xFFE0 <= cp <= 0xFFE6
    ||| 0x1F300 <= cp <= 0x1FAFF
    ||| 0x20000 <= cp <= 0x3FFFD
}

/// Columns a char takes: 0 for a control char, 2 for a wide one, else 1.
pub open spec fn char_cols(c: char) -> nat {
    if is_control(c) {
        0
    } else if wide(c as u32) {
        2
    } else {
        1
    }
}

/// Columns a text takes.
pub open spec fn text_cols(s: Seq<char>) -> nat
    decreases s.len(),
{
    if s.len() == 0 {
        0
    } else {
        text_cols(s.drop_last()) + char_cols(s.last())
    }
}

/// Display width of a char: a small `wcwidth` approximation.
pub fn char_width(c: char) -> (r: usize)
    ensures
        r == char_cols(c),
{
    let cp: u32 = c as u32;
    if crate::chars::control(c) {
        return 0;
    }
    let is_wide = (0x1100 <= cp && cp <= 0x115F) || (0x2E80 <= cp && cp <= 0xA4CF) || (0xAC00 <= cp
        && cp <= 0xD7A3) || (0xF900 <= cp && cp <= 0xFAFF) || (0xFE30 <= cp && cp <= 0xFE4F) || (
    0xFF00 <= cp && cp <= 0xFF60) || (0xFFE0 <= cp && cp <= 0xFFE6) || (0x1F300 <= cp && cp
        <= 0x1FAFF) || (0x20000 <= cp && cp <= 0x3FFFD);
    if is_wide {
        2
    } else {
        1
    }
}

pub proof fn lemma_text_cols_take(s: Seq<char>, k: int)
    requires
        0 <= k < s.len(),
    ensures
        text_cols(s.take(k + 1)) == text_cols(s.take(k)) + char_cols(s[k]),
{
    assert(s.take(k + 1).drop_last() =~= s.take(k));
}

pub proof fn lemma_text_cols_bound(s: Seq<char>, k: int)
    requires
        0 <= k <= s.len(),
    ensures
        text_cols(s.take(k)) <= 2 * k,
        text_cols(s.take(k)) <= text_cols(s),
{
    lemma_text_cols_double(s, k);
    lemma_text_cols_mono(s, k);
}

pub proof fn lemma_text_cols_double(s: Seq<char>, k: int)
    requires
        0 <= k <= s.len(),
    ensures
        text_cols(s.take(k)) <= 2 * k,
    decreases k,
{
    if k > 0 {
        lemma_text_cols_take(s, k - 1);
        lemma_text_cols_double(s, k - 1);
    } else {
        assert(s.take(0) =~= Seq::<char>::empty());
    }
}

pub proof fn lemma_text_cols_mono(s: Seq<char>, k: int)
    requires
        0 <= k <= s.len(),
    ensures
        text_cols(s.take(k)) <= text_cols(s),
    decreases s.len() - k,
{
    if k < s.len() {
        lemma_text_cols_take(s, k);
        lemma_text_cols_mono(s, k + 1);
    } else {
        assert(s.take(k) =~= s);
    }
}

/// The chars of `s` and a proof that two columns per char fit a `usize`.
pub(crate) fn chars_fitting(s: &str) -> (v: Vec<char>)
    ensures
        v@ == s@,
        2 * v@.len() < usize::MAX,
{
    text_fits(s);
    let v = chars_of(s);
    proof {
        assert(v@.take(v@.len() as int) =~= v@);
        crate::search::lemma_byte_offset_mono(v@, 0, v@.len() as int);
        assert(v@.take(0) =~= Seq::<char>::empty());
    }
    v
}

/// Display width of a string.
pub fn str_width(s: &str) -> (r: usize)
    ensures
        r == text_cols(s@),
{
    let v = chars_fitting(s);
    let mut w: usize = 0;
    let mut i: usize = 0;
    proof {
        assert(v@.take(0) =~= Seq::<char>::empty());
    }
    while i < v.len()
        invariant
            i <= v@.len(),
            2 * v@.len() < usize::MAX,
            w == text_cols(v@.take(i as int)),
        decreases v.len() - i,
    {
        proof {
            lemma_text_cols_take(v@, i as int);
            lemma_text_cols_bound(v@, i + 1);
        }
        w = w + char_width(v[i]);
        i += 1;
    }
    proof {
        assert(v@.take(v@.len() as int) =~= v@);
    }
    w
}

/// How many leading chars of `s` [`truncate_to_width`] keeps: chars are
/// taken while they leave one column for the `…`.
pub open spec fn kept_chars(s: Seq<char>, max: int, k: int) -> int
    decreases s.len() - k,
{
    if k < 0 || k >= s.len() || text_cols(s.take(k + 1)) + 1 > max {
        k
    } else {
        kept_chars(s, max, k + 1)
    }
}

/// `s` cut to at most `max` columns: unchanged when it fits, otherwise the
/// kept prefix followed by `…`.
pub open spec fn truncated_text(s: Seq<char>, max: int) -> Seq<char> {
    if text_cols(s) <= max {
        s
    } else {
        s.take(kept_chars(s, max, 0)).push('…')
    }
}

/// Truncates `s` to at most `max` display columns, appending `…` when cut.
pub fn truncate_to_width(s: &str, max: usize) -> (r: String)
    ensures
        r@ == truncated_text(s@, max as int),
{
    let v = chars_fitting(s);
    let total = str_width(s);
    if total <= max {
        return string_of(v.as_slice());
    }
    let mut w: usize = 0;
    let mut i: usize = 0;
    proof {
        assert(v@.take(0) =~= Seq::<char>::empty());
        lemma_text_cols_bound(v@, 0);
    }
    while i < v.len()
        invariant
            i <= v@.len(),
            2 * v@.len() < usize::MAX,
            total == text_cols(v@),
            max < total,
            w == text_cols(v@.take(i as int)),
            w + 1 <= max || i == 0,
            kept_chars(v@, max as int, 0) == kept_chars(v@, max as int, i as int),
        ensures
            kept_chars(v@, max as int, 0) == i as int,
        decreases v.len() - i,
    {
        proof {
            lemma_text_cols_take(v@, i as int);
            lemma_text_cols_bound(v@, i + 1);
            lemma_text_cols_bound(v@, i as int);
        }
        let cw = char_width(v[i]);
        if w + cw + 1 > max {
            break;
        }
        w = w + cw;
        i += 1;
    }
    let mut out = crate::text::slice_of(v.as_slice(), 0, i);
    out.push('…');
    proof {
        assert(v@.subrange(0, i as int) =~= v@.take(i as int));
    }
    string_of(out.as_slice())
}

/// A cut text fits its width: when `max` leaves room for the `…`, the
/// result of [`truncate_to_width`] is at most `max` columns wide.
pub proof fn lemma_truncated_fits(s: Seq<char>, max: int)
    requires
        max >= 1,
    ensures
        text_cols(truncated_text(s, max)) <= max,
{
    if text_cols(s) > max {
        lemma_kept_fits(s, max, 0);
        let k = kept_chars(s, max, 0);
        let t = s.take(k).push('…');
        assert(t.drop_last() =~= s.take(k));
        assert(char_cols('…') == 1);
    }
}

pub proof fn lemma_kept_fits(s: Seq<char>, max: int, k: int)
    requires
        0 <= k <= s.len(),
        text_cols(s.take(k)) + 1 <= max,
    ensures
        k <= kept_chars(s, max, k) <= s.len(),
        text_cols(s.take(kept_chars(s, max, k))) + 1 <= max,
    decreases s.len() - k,
{
    if k < s.len() && text_cols(s.take(k + 1)) + 1 <= max {
        lemma_kept_fits(s, max, k + 1);
    }
}

// ---------------------------------------------------------------------------
// The document pane's focus and jump maps.
// ---------------------------------------------------------------------------

/// What a focusable element in the rendered document points at.
#[derive(Clone, Debug)]
pub enum FocusKind {
    /// A markdown link, classified.
    Link { text: String, target: String, kind: LinkKind },
    /// A `[^label]` footnote reference.
    Footnote(String),
}

/// One focusable element and the rendered line it starts on.
#[derive(Clone, Debug)]
pub struct FocusTarget {
    /// 0-based index into the rendered lines.
    pub line: usize,
    /// What the element points at.
    pub kind: FocusKind,
}

/// A heading's position in the rendered output.
#[derive(Clone, Debug)]
pub struct HeadingPos {
    /// 0-based index into the rendered lines.
    pub line: usize,
    /// Heading level (1–6).
    pub level: usize,
    /// The heading text.
    pub text: String,
}

/// One row of the mission-control attention queue.
#[derive(Clone, Debug)]
pub struct AttentionItem {
    /// The concept needing a decision.
    pub id: ConceptId,
    /// The transparent risk score the queue ranks by.
    pub risk: i64,
    /// Why the row ranks where it does.
    pub reasons: Vec<String>,
}


// ---------------------------------------------------------------------------
// The attention queue.
// ---------------------------------------------------------------------------

/// What the attention queue reads of a concept.
#[derive(Clone, Debug)]
pub struct AttentionFacts {
    /// Trust tier.
    pub tier: TrustTier,
    /// Lifecycle status.
    pub status: Status,
    /// Whether the concept is stale today.
    pub stale: bool,
    /// Days until `stale_after`, when it lies within the next 30 days.
    pub stale_in_days: Option<i64>,
    /// Days since `stale_after` passed, when stale.
    pub overdue_days: Option<i64>,
    /// Validation errors attributed to the concept.
    pub diag_errors: usize,
    /// Validation warnings attributed to the concept.
    pub diag_warnings: usize,
    /// Lint findings attributed to the concept.
    pub lint_findings: usize,
    /// Incoming link count.
    pub in_degree: usize,
}

/// The weight of a concept's findings: errors 15, warnings 5, lint 2.
pub open spec fn diag_weight(f: AttentionFacts) -> int {
    f.diag_errors * 15 + f.diag_warnings * 5 + f.lint_findings * 2
}

/// Staleness risk: overdue days count (40 plus up to 60 more), going stale
/// soon counts more the sooner, stale alone counts 40.
pub open spec fn stale_risk(f: AttentionFacts) -> int {
    match f.overdue_days {
        Some(o) => 40 + if o < 0 { 0 } else if o > 60 { 60 } else { o as int },
        None => match f.stale_in_days {
            Some(d) => 10 + if 30 - d > 0 { 30 - d } else { 0 },
            None => if f.stale { 40 } else { 0 },
        },
    }
}

/// Trust risk: unverified 25, machine-confirmed 10, human-reviewed none.
pub open spec fn tier_risk(t: TrustTier) -> int {
    match t {
        TrustTier::Unverified => 25,
        TrustTier::MachineConfirmed => 10,
        TrustTier::HumanReviewed => 0,
    }
}

/// Backlinks count 3 each, up to 10 of them.
pub open spec fn backlink_risk(n: usize) -> int {
    if n == 0 || n > i64::MAX {
        0
    } else if n > 10 {
        30
    } else {
        3 * n
    }
}

/// The transparent risk score of a concept.
pub open spec fn risk_of(f: AttentionFacts) -> int {
    stale_risk(f) + tier_risk(f.tier) + (if f.status is Deprecated && f.in_degree > 0 { 20int } else { 0 })
        + backlink_risk(f.in_degree) + (if diag_weight(f) <= i64::MAX { diag_weight(f) } else { 0 })
}

/// Why a concept ranks where it does, in order: its staleness, its tier,
/// a deprecation still linked to, its backlinks, its findings.
pub open spec fn attention_reasons(f: AttentionFacts) -> Seq<Seq<char>> {
    let stale: Seq<Seq<char>> = match f.overdue_days {
        Some(o) => seq!["stale "@ + int_text(o as int) + "d"@],
        None => match f.stale_in_days {
            Some(d) => seq!["stale in "@ + int_text(d as int) + "d"@],
            None => if f.stale { seq!["stale"@] } else { Seq::empty() },
        },
    };
    let deprecated: Seq<Seq<char>> = if f.status is Deprecated && f.in_degree > 0 {
        seq!["deprecated · "@ + decimal(f.in_degree as nat) + " incoming links remain"@]
    } else {
        Seq::empty()
    };
    let backlinks: Seq<Seq<char>> = if f.in_degree > 0 {
        seq![decimal(f.in_degree as nat) + " backlinks"@]
    } else {
        Seq::empty()
    };
    let diags: Seq<Seq<char>> = if diag_weight(f) > 0 {
        seq![decimal((f.diag_errors + f.diag_warnings + f.lint_findings) as nat) + " diagnostic(s)"@]
    } else {
        Seq::empty()
    };
    stale + seq![tier_name(f.tier)] + deprecated + backlinks + diags
}

/// Whether a concept needs a decision: stale or going stale, unverified,
/// deprecated but still linked to, or carrying validation findings.
pub open spec fn needs_attention(f: AttentionFacts) -> bool {
    ||| f.stale
    ||| f.stale_in_days is Some
    ||| f.tier == TrustTier::Unverified
    ||| (f.status is Deprecated && f.in_degree > 0)
    ||| f.diag_errors + f.diag_warnings > 0
}

/// The facts stay within the machine's integers: the findings' weight fits
/// a `usize` and the risk an `i64`.
pub open spec fn facts_fit(f: AttentionFacts) -> bool {
    diag_weight(f) <= usize::MAX && risk_of(f) <= i64::MAX
}

/// An item as `(id, risk, reasons)`.
pub open spec fn item_view(it: AttentionItem) -> (Seq<Seq<char>>, int, Seq<Seq<char>>) {
    (it.id@, it.risk as int, it.reasons@.map_values(|s: String| s@))
}

pub open spec fn item_views(v: Seq<AttentionItem>) -> Seq<(Seq<Seq<char>>, int, Seq<Seq<char>>)> {
    v.map_values(|it: AttentionItem| item_view(it))
}

/// The rows of the concepts that need attention, in the given order.
pub open spec fn attention_rows(cs: Seq<(ConceptId, AttentionFacts)>) -> Seq<(Seq<Seq<char>>, int, Seq<Seq<char>>)>
    decreases cs.len(),
{
    if cs.len() == 0 {
        Seq::empty()
    } else {
        let (id, f) = cs.last();
        let rest = attention_rows(cs.drop_last());
        if needs_attention(f) {
            rest.push((id@, risk_of(f), attention_reasons(f)))
        } else {
            rest
        }
    }
}

/// Row `a` goes before row `b`: higher risk first, then ascending id.
pub open spec fn row_before(a: (Seq<Seq<char>>, int, Seq<Seq<char>>), b: (Seq<Seq<char>>, int, Seq<Seq<char>>)) -> bool {
    a.1 > b.1 || (a.1 == b.1 && seq_lt(id_text(a.0), id_text(b.0)))
}

/// Where `x` goes into the ranked rows `s`, from `i` on.
pub open spec fn row_pos(s: Seq<(Seq<Seq<char>>, int, Seq<Seq<char>>)>, x: (Seq<Seq<char>>, int, Seq<Seq<char>>), i: int) -> int
    decreases s.len() - i,
{
    if i < 0 || i >= s.len() {
        s.len() as int
    } else if row_before(x, s[i]) {
        i
    } else {
        row_pos(s, x, i + 1)
    }
}

/// Rows ranked by risk, then id; rows that rank alike keep their order.
pub open spec fn ranked_rows(s: Seq<(Seq<Seq<char>>, int, Seq<Seq<char>>)>) -> Seq<(Seq<Seq<char>>, int, Seq<Seq<char>>)>
    decreases s.len(),
{
    if s.len() == 0 {
        s
    } else {
        let r = ranked_rows(s.drop_last());
        r.insert(row_pos(r, s.last(), 0), s.last())
    }
}

pub proof fn lemma_row_pos(s: Seq<(Seq<Seq<char>>, int, Seq<Seq<char>>)>, x: (Seq<Seq<char>>, int, Seq<Seq<char>>), i: int)
    requires
        0 <= i <= s.len(),
    ensures
        i <= row_pos(s, x, i) <= s.len(),
    decreases s.len() - i,
{
    if i < s.len() && !row_before(x, s[i]) {
        lemma_row_pos(s, x, i + 1);
    }
}

pub proof fn lemma_ranked_rows_len(s: Seq<(Seq<Seq<char>>, int, Seq<Seq<char>>)>)
    ensures
        ranked_rows(s).len() == s.len(),
    decreases s.len(),
{
    if s.len() > 0 {
        lemma_ranked_rows_len(s.drop_last());
        lemma_row_pos(ranked_rows(s.drop_last()), s.last(), 0);
    }
}

/// Ranking rows is a strict order: no row goes before itself, and going
/// before is transitive.
pub proof fn lemma_row_before_order(
    a: (Seq<Seq<char>>, int, Seq<Seq<char>>),
    b: (Seq<Seq<char>>, int, Seq<Seq<char>>),
    c: (Seq<Seq<char>>, int, Seq<Seq<char>>),
)
    ensures
        !row_before(a, a),
        row_before(a, b) && row_before(b, c) ==> row_before(a, c),
{
    crate::search::lemma_seq_lt_irreflexive(id_text(a.0));
    if row_before(a, b) && row_before(b, c) && a.1 == c.1 {
        crate::search::lemma_seq_lt_transitive(id_text(a.0), id_text(b.0), id_text(c.0));
    }
}

pub proof fn lemma_row_pos_props(s: Seq<(Seq<Seq<char>>, int, Seq<Seq<char>>)>, x: (Seq<Seq<char>>, int, Seq<Seq<char>>), i: int)
    requires
        0 <= i <= s.len(),
    ensures
        forall|k: int| i <= k < row_pos(s, x, i) ==> !row_before(x, #[trigger] s[k]),
        row_pos(s, x, i) < s.len() ==> row_before(x, s[row_pos(s, x, i)]),
    decreases s.len() - i,
{
    if i < s.len() && !row_before(x, s[i]) {
        lemma_row_pos_props(s, x, i + 1);
    }
}

/// No row goes before an earlier one.
pub open spec fn rows_ranked(s: Seq<(Seq<Seq<char>>, int, Seq<Seq<char>>)>) -> bool {
    forall|i: int, j: int| 0 <= i < j < s.len() ==> !row_before(#[trigger] s[j], #[trigger] s[i])
}

/// The attention queue is ranked: no row has a higher risk than an earlier
/// one, or the same risk and a smaller id.
pub proof fn lemma_attention_queue_ranked(s: Seq<(Seq<Seq<char>>, int, Seq<Seq<char>>)>)
    ensures
        rows_ranked(ranked_rows(s)),
    decreases s.len(),
{
    if s.len() > 0 {
        let r = ranked_rows(s.drop_last());
        let x = s.last();
        lemma_attention_queue_ranked(s.drop_last());
        lemma_row_pos(r, x, 0);
        lemma_row_pos_props(r, x, 0);
        let p = row_pos(r, x, 0);
        let n = r.insert(p, x);
        assert forall|i: int, j: int| 0 <= i < j < n.len() implies !row_before(#[trigger] n[j], #[trigger] n[i]) by {
            if j < p {
                assert(n[i] == r[i] && n[j] == r[j]);
            } else if j == p {
                assert(n[i] == r[i]);
            } else if i > p {
                assert(n[i] == r[i - 1] && n[j] == r[j - 1]);
            } else if i == p {
                assert(n[j] == r[j - 1]);
                lemma_row_before_order(r[j - 1], x, r[p]);
                lemma_row_before_order(r[p], x, r[p]);
            } else {
                assert(n[i] == r[i] && n[j] == r[j - 1]);
            }
        }
    }
}

/// Ranking the queue reorders its rows: it neither adds nor drops any.
pub proof fn lemma_attention_queue_permutation(s: Seq<(Seq<Seq<char>>, int, Seq<Seq<char>>)>)
    ensures
        ranked_rows(s).to_multiset() == s.to_multiset(),
    decreases s.len(),
{
    broadcast use vstd::seq_lib::to_multiset_build, vstd::seq_lib::to_multiset_insert;

    if s.len() > 0 {
        let r = ranked_rows(s.drop_last());
        lemma_attention_queue_permutation(s.drop_last());
        lemma_ranked_rows_len(s.drop_last());
        lemma_row_pos(r, s.last(), 0);
        assert(s.drop_last().push(s.last()) =~= s);
    }
}

pub(crate) fn push_text(out: &mut Vec<String>, v: &Vec<char>)
    ensures
        final(out)@.map_values(|s: String| s@) == old(out)@.map_values(|s: String| s@).push(v@),
{
    let s = string_of(v.as_slice());
    out.push(s);
    assert(out@.map_values(|s: String| s@) =~= old(out)@.map_values(|s: String| s@).push(v@));
}

/// The risk score of a concept (see [`risk_of`]).
fn attention_risk(f: &AttentionFacts) -> (r: i64)
    requires
        facts_fit(*f),
    ensures
        r == risk_of(*f),
{
    let ghost fv = *f;
    let mut risk: i64 = 0;
    if let Some(overdue) = f.overdue_days {
        let c: i64 = if overdue < 0 { 0 } else if overdue > 60 { 60 } else { overdue };
        risk = 40 + c;
    } else if let Some(days) = f.stale_in_days {
        assert(10 + 30 - days <= risk_of(fv));
        let left: i64 = 30 - days;
        risk = 10 + if left > 0 { left } else { 0 };
    } else if f.stale {
        risk = 40;
    }
    assert(risk == stale_risk(fv));
    match f.tier {
        TrustTier::Unverified => {
            risk = risk + 25;
        },
        TrustTier::MachineConfirmed => {
            risk = risk + 10;
        },
        TrustTier::HumanReviewed => {},
    }
    if f.status.is_deprecated() && f.in_degree > 0 {
        risk = risk + 20;
    }
    let ghost dep: int = if fv.status is Deprecated && fv.in_degree > 0 { 20int } else { 0 };
    assert(risk == stale_risk(fv) + tier_risk(fv.tier) + dep);
    if f.in_degree > 0 {
        let b: i64 = if f.in_degree as u64 > i64::MAX as u64 {
            0
        } else if f.in_degree > 10 {
            10
        } else {
            f.in_degree as i64
        };
        risk = risk + b * 3;
    }
    assert(risk == stale_risk(fv) + tier_risk(fv.tier) + dep + backlink_risk(fv.in_degree));
    let diags: usize = f.diag_errors * 15 + f.diag_warnings * 5 + f.lint_findings * 2;
    if diags > 0 {
        let d: i64 = if diags as u64 > i64::MAX as u64 { 0 } else { diags as i64 };
        risk = risk + d;
    }
    risk
}

/// The staleness reason of a concept, if any.
fn stale_reason(f: &AttentionFacts) -> (r: Vec<Vec<char>>)
    ensures
        views(r@) == attention_reasons(*f).take(if f.overdue_days is Some || f.stale_in_days is Some || f.stale { 1int } else { 0 }),
        views(r@) == (match f.overdue_days {
            Some(o) => seq!["stale "@ + int_text(o as int) + "d"@],
            None => match f.stale_in_days {
                Some(d) => seq!["stale in "@ + int_text(d as int) + "d"@],
                None => if f.stale { seq!["stale"@] } else { Seq::<Seq<char>>::empty() },
            },
        }),
{
    let mut out: Vec<Vec<char>> = Vec::new();
    let mut v: Vec<char> = Vec::new();
    if let Some(overdue) = f.overdue_days {
        push_str(&mut v, "stale ");
        let n = int_text_v(overdue);
        push_all(&mut v, n.as_slice());
        push_str(&mut v, "d");
        out.push(v);
    } else if let Some(days) = f.stale_in_days {
        push_str(&mut v, "stale in ");
        let n = int_text_v(days);
        push_all(&mut v, n.as_slice());
        push_str(&mut v, "d");
        out.push(v);
    } else if f.stale {
        push_str(&mut v, "stale");
        out.push(v);
    }
    proof {
        assert(views(out@) =~= attention_reasons(*f).take(if f.overdue_days is Some || f.stale_in_days is Some || f.stale { 1int } else { 0 }));
    }
    out
}

/// The reasons a concept ranks where it does (see [`attention_reasons`]).
fn attention_reason_list(f: &AttentionFacts) -> (r: Vec<String>)
    requires
        facts_fit(*f),
    ensures
        r@.map_values(|s: String| s@) == attention_reasons(*f),
{
    let ghost fv = *f;
    let mut parts = stale_reason(f);
    let tier_s = f.tier.as_str();
    parts.push(chars_of(tier_s.as_str()));
    let ghost after_tier = views(parts@);
    if f.status.is_deprecated() && f.in_degree > 0 {
        let mut v: Vec<char> = Vec::new();
        push_str(&mut v, "deprecated · ");
        let n = decimal_v(f.in_degree);
        push_all(&mut v, n.as_slice());
        push_str(&mut v, " incoming links remain");
        parts.push(v);
    }
    let ghost after_dep = views(parts@);
    if f.in_degree > 0 {
        let mut v: Vec<char> = Vec::new();
        let n = decimal_v(f.in_degree);
        push_all(&mut v, n.as_slice());
        push_str(&mut v, " backlinks");
        parts.push(v);
    }
    let ghost after_back = views(parts@);
    let diags: usize = f.diag_errors * 15 + f.diag_warnings * 5 + f.lint_findings * 2;
    if diags > 0 {
        let mut v: Vec<char> = Vec::new();
        let n = decimal_v(f.diag_errors + f.diag_warnings + f.lint_findings);
        push_all(&mut v, n.as_slice());
        push_str(&mut v, " diagnostic(s)");
        parts.push(v);
    }
    proof {
        assert(views(parts@) =~= attention_reasons(fv));
    }
    let mut out: Vec<String> = Vec::new();
    let mut i: usize = 0;
    while i < parts.len()
        invariant
            i <= parts@.len(),
            views(parts@) == attention_reasons(fv),
            out@.map_values(|s: String| s@) == views(parts@).take(i as int),
        decreases parts.len() - i,
    {
        push_text(&mut out, &parts[i]);
        proof {
            assert(views(parts@).take(i + 1) =~= views(parts@).take(i as int).push(parts@[i as int]@));
        }
        i += 1;
    }
    proof {
        assert(views(parts@).take(i as int) =~= views(parts@));
    }
    out
}

/// The attention row of one concept.
fn attention_item(id: &ConceptId, f: &AttentionFacts) -> (r: AttentionItem)
    requires
        facts_fit(*f),
    ensures
        item_view(r) == (id@, risk_of(*f), attention_reasons(*f)),
{
    let risk = attention_risk(f);
    let reasons = attention_reason_list(f);
    AttentionItem { id: id.clone(), risk, reasons }
}

/// Whether row `x` goes before row `y` (see [`row_before`]).
fn row_goes_before(x: &AttentionItem, y: &AttentionItem) -> (r: bool)
    ensures
        r == row_before(item_view(*x), item_view(*y)),
{
    if x.risk != y.risk {
        return x.risk > y.risk;
    }
    let xp = x.id.to_path();
    let yp = y.id.to_path();
    let xk = chars_of(xp.as_str());
    let yk = chars_of(yp.as_str());
    lex_less(xk.as_slice(), yk.as_slice())
}

/// Inserts `x` into the ranked rows `out` where [`ranked_rows`] puts it:
/// before the first row it goes before.
pub(crate) fn insert_ranked(out: &mut Vec<AttentionItem>, x: AttentionItem)
    ensures
        item_views(final(out)@) == item_views(old(out)@).insert(
            row_pos(item_views(old(out)@), item_view(x), 0),
            item_view(x),
        ),
{
    let ghost xv = item_view(x);
    let ghost before = item_views(out@);
    proof {
        lemma_row_pos(before, xv, 0);
    }
    let mut p: usize = 0;
    while p < out.len() && !row_goes_before(&x, &out[p])
        invariant
            p <= out@.len(),
            before == item_views(out@),
            xv == item_view(x),
            row_pos(before, xv, 0) == row_pos(before, xv, p as int),
        decreases out.len() - p,
    {
        proof {
            assert(before[p as int] == item_view(out@[p as int]));
        }
        p += 1;
    }
    proof {
        if p < out.len() {
            assert(before[p as int] == item_view(out@[p as int]));
        }
    }
    out.insert(p, x);
    proof {
        assert(item_views(out@) =~= before.insert(p as int, xv));
    }
}

/// The mission-control attention queue: every concept that needs a
/// decision (see [`needs_attention`]), with its risk score and the reasons
/// behind it, highest risk first, then by id.
pub fn build_attention(concepts: &Vec<(ConceptId, AttentionFacts)>) -> (r: Vec<AttentionItem>)
    requires
        forall|i: int| 0 <= i < concepts@.len() ==> facts_fit(#[trigger] concepts@[i].1),
    ensures
        item_views(r@) == ranked_rows(attention_rows(concepts@)),
{
    let mut out: Vec<AttentionItem> = Vec::new();
    let mut k: usize = 0;
    proof {
        assert(item_views(out@) =~= ranked_rows(attention_rows(concepts@.take(0))));
    }
    while k < concepts.len()
        invariant
            k <= concepts@.len(),
            forall|i: int| 0 <= i < concepts@.len() ==> facts_fit(#[trigger] concepts@[i].1),
            item_views(out@) == ranked_rows(attention_rows(concepts@.take(k as int))),
        decreases concepts.len() - k,
    {
        proof {
            assert(concepts@.take(k + 1).drop_last() =~= concepts@.take(k as int));
            assert(concepts@.take(k + 1).last() == concepts@[k as int]);
        }
        let f = &concepts[k].1;
        let needs = f.stale || f.stale_in_days.is_some() || f.tier == TrustTier::Unverified
            || (f.status.is_deprecated() && f.in_degree > 0) || f.diag_errors + f.diag_warnings > 0;
        if needs {
            let x = attention_item(&concepts[k].0, f);
            let ghost xv = item_view(x);
            let ghost before = item_views(out@);
            insert_ranked(&mut out, x);
            proof {
                let s0 = attention_rows(concepts@.take(k as int));
                let c = concepts@.take(k + 1);
                assert(xv == (c.last().0@, risk_of(c.last().1), attention_reasons(c.last().1)));
                assert(attention_rows(c) == s0.push(xv));
                assert(s0.push(xv).drop_last() =~= s0);
                assert(ranked_rows(s0.push(xv)) == ranked_rows(s0).insert(row_pos(ranked_rows(s0), xv, 0), xv));
            }
        } else {
            proof {
                let c = concepts@.take(k + 1);
                assert(!needs_attention(c.last().1));
                assert(attention_rows(c) == attention_rows(concepts@.take(k as int)));
            }
        }
        k += 1;
    }
    proof {
        assert(concepts@.take(k as int) =~= concepts@);
    }
    out
}

/// A precomputed Attested Computation contract's health checks.
#[derive(Clone, Debug)]
pub struct ContractInfo {
    /// The computation concept's id.
    pub id: ConceptId,
    /// Display title.
    pub title: String,
    /// Path-valued fields `(field, raw value, resolved path)`.
    pub path_checks: Vec<(String, String, Option<String>)>,
    /// Inline-code syntax verdict, when the computation is inline and the
    /// runtime names a checkable language.
    pub syntax: Option<Result<(), String>>,
    /// Itemized failures; empty means every check passed.
    pub issues: Vec<String>,
}

impl ContractInfo {
    /// `true` when every health check passes.
    pub fn healthy(&self) -> (r: bool)
        ensures
            r == (self.issues@.len() == 0),
    {
        self.issues.len() == 0
    }
}

} // verus!
