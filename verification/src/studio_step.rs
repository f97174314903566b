//! The studio's key actions as a step from state to state: which tab shows,
//! which overlay opens, which toast appears, which command goes to the
//! worker. Actions on the graph, the navigation history and the selection
//! cursor are handed back to the caller, which owns that state.
use crate::chars::{chars_of, string_of};
use crate::concept_id::ConceptId;
use crate::studio::{
    queue_sort_next, trust_panel_next, CompPane, ConfirmAction, ConfirmState, DatePickerState, DiagFilter,
    DiagnosticsState, LoadPhase, NewConceptState, OutlineState, PaletteState, RemoveChoice, Toast, TreeSel,
    TrustPanel, TrustState, VerbKind,
};
use crate::text::{join, push_str};
use vstd::prelude::*;

verus! {

/// The studio's workspaces.
#[derive(Clone, Copy, Debug, PartialEq, Eq, Structural)]
pub enum Tab {
    Explorer,
    Graph,
    Trust,
    Computations,
}

/// A key action.
#[derive(Clone, Copy, Debug, PartialEq, Eq, Structural)]
pub enum Action {
    SwitchTab(usize),
    OpenPalette,
    OpenDiagnostics,
    OpenHelp,
    Reload,
    OpenEditor,
    Quit,
    Verify,
    ExtendStale,
    MoveOrRename,
    Remove,
    Merge,
    SplitSection,
    Outline,
    NewConcept,
    CycleInspector,
    ToggleRawYaml,
    NextLink,
    PrevLink,
    Back,
    Forward,
    ZoomIn,
    ZoomOut,
    NextNode,
    PrevNode,
    FocusMode,
    CycleColor,
    ToggleSources,
    ToggleBroken,
    ToggleDerivations,
    PauseLayout,
    GraphFilter,
    CycleLayout,
    CyclePanel,
    CycleSort,
    CopySketch,
    FixAll,
    PinToday,
    OpenLog,
    Up,
    Down,
    Left,
    Right,
    PageUp,
    PageDown,
    HalfUp,
    HalfDown,
    Home,
    End,
    Activate,
}

/// The refactor modal's state as it opens.
#[derive(Clone, Debug)]
pub struct RefactorState {
    /// The verb the modal drives.
    pub verb: VerbKind,
    /// The concept it acts on.
    pub subject: ConceptId,
    /// The section it acts on, for section verbs.
    pub section: Option<String>,
    /// The main input.
    pub input: String,
    /// The secondary input.
    pub extra: String,
    /// The focused field.
    pub field: usize,
    /// The remove decision.
    pub choice: RemoveChoice,
    /// Whether to force past conflicts.
    pub force: bool,
    /// The preview request counter.
    pub request: u64,
    /// Whether a dry run is due.
    pub needs_preview: bool,
}

/// An overlay on the overlay stack.
#[derive(Clone, Debug)]
pub enum Overlay {
    Palette(PaletteState),
    Diagnostics(DiagnosticsState),
    Help(usize),
    Confirm(ConfirmState),
    DatePicker(DatePickerState),
    Refactor(RefactorState),
    NewConcept(NewConceptState),
    LogView(usize),
    Outline(OutlineState),
}

/// A command a key action sends to the worker.
#[derive(Clone, Copy, Debug, PartialEq, Eq, Structural)]
pub enum StudioCommand {
    /// Rebuild the snapshot from disk.
    Reload,
    /// Dry-run the bundle fix engine.
    PreviewFix,
}

/// What a step asks of its caller.
#[derive(Clone, Copy, Debug, PartialEq, Eq, Structural)]
pub enum StepEffect {
    /// Nothing.
    Nothing,
    /// Send a command to the worker.
    Send(StudioCommand),
    /// The action acts on graph, navigation, cursor or snapshot state that
    /// the caller owns; it performs it.
    Delegate,
}

/// The part of the studio a key action reads and writes.
#[derive(Clone, Debug)]
pub struct StudioState {
    /// The active workspace.
    pub tab: Tab,
    /// The overlay stack, topmost last.
    pub overlays: Vec<Overlay>,
    /// Transient messages, oldest first, at most three kept.
    pub toasts: Vec<Toast>,
    /// Background work indicator.
    pub loading: LoadPhase,
    /// A file to open in the editor.
    pub editor_request: Option<String>,
    /// Set when the user quits.
    pub should_quit: bool,
    /// The explorer's selected tree entry.
    pub explorer_selected: Option<TreeSel>,
    /// The explorer's inspector tab.
    pub inspector_tab: usize,
    /// Whether the explorer shows raw YAML.
    pub raw_yaml: bool,
    /// Mission-control state.
    pub trust: TrustState,
    /// The computations workspace's focused pane.
    pub comp_pane: CompPane,
    /// Author identity for stamps.
    pub author: String,
    /// The concept the current selection denotes, if any.
    pub selected_concept: Option<ConceptId>,
    /// The file the current selection denotes, if any.
    pub selected_path: Option<String>,
    /// The snapshot's evaluation date, when a snapshot is loaded.
    pub today: Option<String>,
}

// ---------------------------------------------------------------------------
// The step, stated.
// ---------------------------------------------------------------------------

/// An overlay by its contents.
pub enum OverlayView {
    Palette(Seq<char>, usize),
    Diagnostics(DiagFilter, usize),
    Help(usize),
    Confirm(Seq<char>, Seq<Seq<char>>, Seq<Seq<char>>),
    DatePicker(Option<Seq<Seq<char>>>, Seq<char>),
    Refactor(VerbKind, Seq<Seq<char>>, Option<Seq<char>>, Seq<char>, Seq<char>, usize, RemoveChoice, bool, u64, bool),
    NewConcept(Seq<Seq<char>>, usize),
    LogView(usize),
    Outline(Seq<Seq<char>>, usize, Option<Seq<char>>),
}

pub open spec fn opt_text(o: Option<String>) -> Option<Seq<char>> {
    match o {
        Some(s) => Some(s@),
        None => None,
    }
}

/// An overlay's contents.
pub open spec fn overlay_view(o: Overlay) -> OverlayView {
    match o {
        Overlay::Palette(p) => OverlayView::Palette(p.input@, p.sel),
        Overlay::Diagnostics(d) => OverlayView::Diagnostics(d.filter, d.sel),
        Overlay::Help(n) => OverlayView::Help(n),
        Overlay::Confirm(c) => OverlayView::Confirm(
            c.title@,
            c.body@.map_values(|s: String| s@),
            match c.action {
                ConfirmAction::Verify(id) => id@,
            },
        ),
        Overlay::DatePicker(d) => OverlayView::DatePicker(
            match d.id {
                Some(id) => Some(id@),
                None => None,
            },
            d.input@,
        ),
        Overlay::Refactor(r) => OverlayView::Refactor(
            r.verb,
            r.subject@,
            opt_text(r.section),
            r.input@,
            r.extra@,
            r.field,
            r.choice,
            r.force,
            r.request,
            r.needs_preview,
        ),
        Overlay::NewConcept(n) => OverlayView::NewConcept(n.fields@.map_values(|s: String| s@), n.field),
        Overlay::LogView(n) => OverlayView::LogView(n),
        Overlay::Outline(o) => OverlayView::Outline(o.id@, o.sel, opt_text(o.rename)),
    }
}

pub open spec fn overlay_views(v: Seq<Overlay>) -> Seq<OverlayView> {
    v.map_values(|o: Overlay| overlay_view(o))
}

pub open spec fn toast_views(v: Seq<Toast>) -> Seq<(Seq<char>, u8, bool)> {
    v.map_values(|t: Toast| (t.text@, t.ttl, t.error))
}

/// The last three of `ts`.
pub open spec fn last_three<T>(ts: Seq<T>) -> Seq<T> {
    if ts.len() > 3 {
        ts.skip(ts.len() - 3)
    } else {
        ts
    }
}

/// The tab a `SwitchTab` number selects: 1 graph, 2 trust, 3 computations,
/// anything else the explorer.
pub open spec fn tab_for(ix: usize) -> Tab {
    if ix == 1 {
        Tab::Graph
    } else if ix == 2 {
        Tab::Trust
    } else if ix == 3 {
        Tab::Computations
    } else {
        Tab::Explorer
    }
}

/// `new` is `old` with only its overlay stack changed, to `old`'s with `v`
/// pushed.
pub open spec fn pushed(old: StudioState, new: StudioState, v: OverlayView) -> bool {
    &&& new == StudioState { overlays: new.overlays, ..old }
    &&& overlay_views(new.overlays@) == overlay_views(old.overlays@).push(v)
}

/// The stamp confirmation for concept `id` by `author`.
pub open spec fn verify_view(id: Seq<Seq<char>>, author: Seq<char>) -> OverlayView {
    OverlayView::Confirm(
        "Stamp verification on "@ + join(id, seq!['/']),
        seq!["by "@ + author, "Appends a { by, at } event to `verified` and logs it."@],
        id,
    )
}

/// The refactor modal for `verb` on concept `id`: a move starts from the
/// id's path, the others from nothing.
pub open spec fn refactor_view(verb: VerbKind, id: Seq<Seq<char>>) -> OverlayView {
    OverlayView::Refactor(
        verb,
        id,
        None,
        if verb == VerbKind::Move { join(id, seq!['/']) } else { Seq::empty() },
        Seq::empty(),
        0,
        RemoveChoice::Plain,
        false,
        0,
        true,
    )
}

/// The directory a new concept starts in: the selected directory, or the
/// selected concept's directory.
pub open spec fn new_concept_dir(sel: Option<TreeSel>) -> Seq<char> {
    match sel {
        Some(TreeSel::Dir(p)) => p@,
        Some(TreeSel::Concept(id)) => if id@.len() == 1 { Seq::empty() } else { join(id@.drop_last(), seq!['/']) },
        _ => Seq::empty(),
    }
}

/// The new-concept form: the path field starts at the directory.
pub open spec fn new_concept_view(sel: Option<TreeSel>) -> OverlayView {
    let dir = new_concept_dir(sel);
    OverlayView::NewConcept(
        seq![if dir.len() == 0 { Seq::empty() } else { dir + seq!['/'] }, "Concept"@, Seq::empty()],
        0,
    )
}

/// Whether a state changed and an effect came as action `a` asks.
pub open spec fn stepped(old: StudioState, new: StudioState, a: Action, e: StepEffect) -> bool {
    match a {
        Action::SwitchTab(ix) => new == StudioState { tab: tab_for(ix), ..old } && e == StepEffect::Nothing,
        Action::OpenPalette => pushed(old, new, OverlayView::Palette(Seq::empty(), 0)) && e == StepEffect::Nothing,
        Action::OpenDiagnostics => pushed(old, new, OverlayView::Diagnostics(DiagFilter::All, 0)) && e == StepEffect::Nothing,
        Action::OpenHelp => pushed(old, new, OverlayView::Help(0)) && e == StepEffect::Nothing,
        Action::OpenLog => pushed(old, new, OverlayView::LogView(0)) && e == StepEffect::Nothing,
        Action::Reload => new == StudioState { loading: LoadPhase::Reloading, ..old } && e == StepEffect::Send(
            StudioCommand::Reload,
        ),
        Action::FixAll => new == old && e == StepEffect::Send(StudioCommand::PreviewFix),
        Action::Quit => new == StudioState { should_quit: true, ..old } && e == StepEffect::Nothing,
        Action::OpenEditor => e == StepEffect::Nothing && match old.selected_path {
            Some(p) => new == StudioState { editor_request: new.editor_request, ..old } && opt_text(new.editor_request)
                == Some(p@),
            None => new == StudioState { toasts: new.toasts, ..old } && toast_views(new.toasts@) == last_three(
                toast_views(old.toasts@).push(("no file selected"@, 12u8, true)),
            ),
        },
        Action::Verify => e == StepEffect::Nothing && match old.selected_concept {
            Some(id) => pushed(old, new, verify_view(id@, old.author@)),
            None => new == old,
        },
        Action::MoveOrRename | Action::Remove | Action::Merge => e == StepEffect::Nothing && match old.selected_concept {
            Some(id) => pushed(
                old,
                new,
                refactor_view(
                    match a {
                        Action::MoveOrRename => VerbKind::Move,
                        Action::Remove => VerbKind::Remove,
                        _ => VerbKind::Merge,
                    },
                    id@,
                ),
            ),
            None => new == old,
        },
        Action::SplitSection | Action::Outline => e == StepEffect::Nothing && match old.explorer_selected {
            Some(TreeSel::Concept(id)) => if old.tab == Tab::Explorer {
                pushed(old, new, OverlayView::Outline(id@, 0, None))
            } else {
                new == old
            },
            _ => new == old,
        },
        Action::NewConcept => pushed(old, new, new_concept_view(old.explorer_selected)) && e == StepEffect::Nothing,
        Action::CycleInspector => new == StudioState { inspector_tab: ((old.inspector_tab + 1) % 4) as usize, ..old }
            && e == StepEffect::Nothing,
        Action::ToggleRawYaml => new == StudioState { raw_yaml: !old.raw_yaml, ..old } && e == StepEffect::Nothing,
        Action::CyclePanel => e == StepEffect::Nothing && match old.tab {
            Tab::Trust => new == StudioState {
                trust: TrustState { panel: trust_panel_next(old.trust.panel), bar_sel: 0, ..old.trust },
                ..old
            },
            Tab::Computations => new == StudioState {
                comp_pane: if old.comp_pane == CompPane::List { CompPane::Form } else { CompPane::List },
                ..old
            },
            _ => new == old,
        },
        Action::CycleSort => new == StudioState { trust: TrustState { sort: queue_sort_next(old.trust.sort), ..old.trust }, ..old }
            && e == StepEffect::Nothing,
        Action::PinToday => pushed(
            old,
            new,
            OverlayView::DatePicker(None, match old.today { Some(t) => t@, None => Seq::empty() }),
        ) && e == StepEffect::Nothing,
        _ => new == old && e == StepEffect::Delegate,
    }
}

/// The toasts stay capped: from at most three toasts, no action leaves more.
pub proof fn lemma_toasts_stay_capped(old: StudioState, new: StudioState, a: Action, e: StepEffect)
    requires
        stepped(old, new, a, e),
        old.toasts@.len() <= 3,
    ensures
        new.toasts@.len() <= 3,
{
    if a is OpenEditor && old.selected_path is None {
        let full = toast_views(old.toasts@).push(("no file selected"@, 12u8, true));
        assert(toast_views(new.toasts@).len() == new.toasts@.len());
        assert(last_three(full).len() <= 3);
    }
}

/// No action disturbs the overlays already open: the stack either stays
/// as it is or gains one overlay on top.
pub proof fn lemma_overlays_below_stay(old: StudioState, new: StudioState, a: Action, e: StepEffect)
    requires
        stepped(old, new, a, e),
    ensures
        new.overlays@.len() == old.overlays@.len() || new.overlays@.len() == old.overlays@.len() + 1,
        forall|i: int| 0 <= i < old.overlays@.len() ==> overlay_view(#[trigger] new.overlays@[i]) == overlay_view(old.overlays@[i]),
{
    let ov = overlay_views(old.overlays@);
    let nv = overlay_views(new.overlays@);
    assert(nv.len() == new.overlays@.len());
    assert(ov.len() == old.overlays@.len());
    assert forall|i: int| 0 <= i < old.overlays@.len() implies overlay_view(#[trigger] new.overlays@[i]) == overlay_view(
        old.overlays@[i],
    ) by {
        assert(nv[i] == overlay_view(new.overlays@[i]));
        assert(ov[i] == overlay_view(old.overlays@[i]));
    }
}

// ---------------------------------------------------------------------------
// The step, taken.
// ---------------------------------------------------------------------------

fn text(t: &str) -> (r: String)
    ensures
        r@ == t@,
{
    let v = chars_of(t);
    string_of(v.as_slice())
}

fn empty_text() -> (r: String)
    ensures
        r@ == Seq::<char>::empty(),
{
    let v: Vec<char> = Vec::new();
    string_of(v.as_slice())
}

/// Adds a toast with the studio's lifetime, keeping the last three.
fn push_toast(toasts: &mut Vec<Toast>, t: &str, error: bool)
    ensures
        toast_views(final(toasts)@) == last_three(toast_views(old(toasts)@).push((t@, 12u8, error))),
{
    toasts.push(Toast { text: text(t), ttl: 12, error });
    let ghost full = toast_views(toasts@);
    proof {
        assert(full =~= toast_views(old(toasts)@).push((t@, 12u8, error)));
        assert(full.skip(0) =~= full);
    }
    let ghost mut k: int = 0;
    while toasts.len() > 3
        invariant
            0 <= k <= full.len(),
            toast_views(toasts@) == full.skip(k),
            k > 0 ==> full.len() - k >= 3,
        decreases toasts.len(),
    {
        let ghost before = toasts@;
        toasts.remove(0);
        proof {
            assert(toast_views(toasts@) =~= toast_views(before).drop_first());
            assert(full.skip(k).drop_first() =~= full.skip(k + 1));
            k = k + 1;
        }
    }
    proof {
        assert(toast_views(toasts@).len() == toasts@.len());
        if k > 0 {
            assert(full.len() - k == 3);
        }
    }
}

fn push_overlay(s: &mut StudioState, o: Overlay)
    ensures
        pushed(*old(s), *final(s), overlay_view(o)),
{
    s.overlays.push(o);
    assert(overlay_views(s.overlays@) =~= overlay_views(old(s).overlays@).push(overlay_view(o)));
}

fn refactor_for(verb: VerbKind, id: &ConceptId) -> (r: Overlay)
    ensures
        overlay_view(r) == refactor_view(verb, id@),
{
    let input = if verb == VerbKind::Move {
        id.to_path()
    } else {
        empty_text()
    };
    Overlay::Refactor(RefactorState {
        verb,
        subject: id.clone(),
        section: None,
        input,
        extra: empty_text(),
        field: 0,
        choice: RemoveChoice::Plain,
        force: false,
        request: 0,
        needs_preview: true,
    })
}

fn verify_for(id: &ConceptId, author: &String) -> (r: Overlay)
    ensures
        overlay_view(r) == verify_view(id@, author@),
{
    let mut title: Vec<char> = Vec::new();
    push_str(&mut title, "Stamp verification on ");
    let p = id.to_path();
    push_str(&mut title, p.as_str());
    let mut by: Vec<char> = Vec::new();
    push_str(&mut by, "by ");
    push_str(&mut by, author.as_str());
    let mut body: Vec<String> = Vec::new();
    body.push(string_of(by.as_slice()));
    body.push(text("Appends a { by, at } event to `verified` and logs it."));
    let r = Overlay::Confirm(ConfirmState {
        title: string_of(title.as_slice()),
        body,
        action: ConfirmAction::Verify(id.clone()),
    });
    proof {
        assert(body@.map_values(|s: String| s@) =~= seq![
            "by "@ + author@,
            "Appends a { by, at } event to `verified` and logs it."@,
        ]);
    }
    r
}

fn new_concept_for(sel: &Option<TreeSel>) -> (r: Overlay)
    ensures
        overlay_view(r) == new_concept_view(*sel),
{
    let dir: Vec<char> = match sel {
        Some(TreeSel::Dir(p)) => chars_of(p.as_str()),
        Some(TreeSel::Concept(id)) => match id.parent() {
            Some(pp) => {
                let t = pp.to_path();
                chars_of(t.as_str())
            },
            None => Vec::new(),
        },
        _ => Vec::new(),
    };
    assert(dir@ == new_concept_dir(*sel));
    let ghost dv = dir@;
    let path = if dir.len() == 0 {
        empty_text()
    } else {
        let mut d = dir;
        d.push('/');
        assert(d@ =~= dv + seq!['/']);
        string_of(d.as_slice())
    };
    assert(path@ == (if dv.len() == 0 { Seq::<char>::empty() } else { dv + seq!['/'] }));
    let ghost pv = path@;
    let c = text("Concept");
    let z = empty_text();
    let fields = [path, c, z];
    proof {
        assert(fields@.len() == 3);
        assert(fields@[0]@ == pv);
        assert(fields@[1]@ == "Concept"@);
        assert(fields@[2]@ == Seq::<char>::empty());
        assert(fields@.map_values(|s: String| s@) =~= seq![
            if new_concept_dir(*sel).len() == 0 { Seq::empty() } else { new_concept_dir(*sel) + seq!['/'] },
            "Concept"@,
            Seq::empty(),
        ]);
    }
    let r = Overlay::NewConcept(NewConceptState { fields, field: 0 });
    r
}

/// Takes one key action (see [`stepped`]): the state changes and the
/// effect returned are exactly those the action asks for.
pub fn studio_step(s: &mut StudioState, a: Action) -> (e: StepEffect)
    ensures
        stepped(*old(s), *final(s), a, e),
{
    match a {
        Action::SwitchTab(ix) => {
            s.tab = if ix == 1 {
                Tab::Graph
            } else if ix == 2 {
                Tab::Trust
            } else if ix == 3 {
                Tab::Computations
            } else {
                Tab::Explorer
            };
            StepEffect::Nothing
        },
        Action::OpenPalette => {
            push_overlay(s, Overlay::Palette(PaletteState { input: empty_text(), sel: 0 }));
            StepEffect::Nothing
        },
        Action::OpenDiagnostics => {
            push_overlay(s, Overlay::Diagnostics(DiagnosticsState { filter: DiagFilter::All, sel: 0 }));
            StepEffect::Nothing
        },
        Action::OpenHelp => {
            push_overlay(s, Overlay::Help(0));
            StepEffect::Nothing
        },
        Action::OpenLog => {
            push_overlay(s, Overlay::LogView(0));
            StepEffect::Nothing
        },
        Action::Reload => {
            s.loading = LoadPhase::Reloading;
            StepEffect::Send(StudioCommand::Reload)
        },
        Action::FixAll => StepEffect::Send(StudioCommand::PreviewFix),
        Action::Quit => {
            s.should_quit = true;
            StepEffect::Nothing
        },
        Action::OpenEditor => {
            let req = match &s.selected_path {
                Some(p) => Some(text(p.as_str())),
                None => None,
            };
            match req {
                Some(p) => {
                    s.editor_request = Some(p);
                },
                None => {
                    push_toast(&mut s.toasts, "no file selected", true);
                },
            }
            StepEffect::Nothing
        },
        Action::Verify => {
            let o = match &s.selected_concept {
                Some(id) => Some(verify_for(id, &s.author)),
                None => None,
            };
            match o {
                Some(o) => push_overlay(s, o),
                None => {},
            }
            StepEffect::Nothing
        },
        Action::MoveOrRename | Action::Remove | Action::Merge => {
            let verb = match a {
                Action::MoveOrRename => VerbKind::Move,
                Action::Remove => VerbKind::Remove,
                _ => VerbKind::Merge,
            };
            let o = match &s.selected_concept {
                Some(id) => Some(refactor_for(verb, id)),
                None => None,
            };
            match o {
                Some(o) => push_overlay(s, o),
                None => {},
            }
            StepEffect::Nothing
        },
        Action::SplitSection | Action::Outline => {
            let o = match &s.explorer_selected {
                Some(TreeSel::Concept(id)) => if s.tab == Tab::Explorer {
                    Some(Overlay::Outline(OutlineState { id: id.clone(), sel: 0, rename: None }))
                } else {
                    None
                },
                _ => None,
            };
            match o {
                Some(o) => push_overlay(s, o),
                None => {},
            }
            StepEffect::Nothing
        },
        Action::NewConcept => {
            let o = new_concept_for(&s.explorer_selected);
            push_overlay(s, o);
            StepEffect::Nothing
        },
        Action::CycleInspector => {
            s.inspector_tab = (s.inspector_tab % 4 + 1) % 4;
            StepEffect::Nothing
        },
        Action::ToggleRawYaml => {
            s.raw_yaml = !s.raw_yaml;
            StepEffect::Nothing
        },
        Action::CyclePanel => {
            match s.tab {
                Tab::Trust => {
                    s.trust.panel = s.trust.panel.next();
                    s.trust.bar_sel = 0;
                },
                Tab::Computations => {
                    s.comp_pane = if s.comp_pane == CompPane::List {
                        CompPane::Form
                    } else {
                        CompPane::List
                    };
                },
                _ => {},
            }
            StepEffect::Nothing
        },
        Action::CycleSort => {
            s.trust.sort = s.trust.sort.next();
            StepEffect::Nothing
        },
        Action::PinToday => {
            let input = match &s.today {
                Some(t) => text(t.as_str()),
                None => empty_text(),
            };
            push_overlay(s, Overlay::DatePicker(DatePickerState { id: None, input }));
            StepEffect::Nothing
        },
        _ => StepEffect::Delegate,
    }
}

} // verus!
