use okf::concept_id::ConceptId;
use okf::studio::{CompPane, DiagFilter, LoadPhase, QueueSort, Toast, TreeSel, TrustPanel, TrustState, VerbKind};
use okf::studio_step::{studio_step, Action, Overlay, StepEffect, StudioCommand, StudioState, Tab};

fn state() -> StudioState {
    StudioState {
        tab: Tab::Explorer,
        overlays: Vec::new(),
        toasts: Vec::new(),
        loading: LoadPhase::Idle,
        editor_request: None,
        should_quit: false,
        explorer_selected: None,
        inspector_tab: 0,
        raw_yaml: false,
        trust: TrustState { panel: TrustPanel::Queue, queue_sel: 0, bar_sel: 4, cohort: None, sort: QueueSort::Risk },
        comp_pane: CompPane::List,
        author: "ann".to_string(),
        selected_concept: None,
        selected_path: None,
        today: None,
    }
}

#[test]
fn tabs_switch_by_number() {
    let mut s = state();
    for (ix, tab) in [(1, Tab::Graph), (2, Tab::Trust), (3, Tab::Computations), (0, Tab::Explorer), (9, Tab::Explorer)] {
        assert_eq!(studio_step(&mut s, Action::SwitchTab(ix)), StepEffect::Nothing);
        assert_eq!(s.tab, tab);
    }
}

#[test]
fn reload_and_fix_send_commands() {
    let mut s = state();
    assert_eq!(studio_step(&mut s, Action::Reload), StepEffect::Send(StudioCommand::Reload));
    assert_eq!(s.loading, LoadPhase::Reloading);
    assert_eq!(studio_step(&mut s, Action::FixAll), StepEffect::Send(StudioCommand::PreviewFix));
    assert_eq!(studio_step(&mut s, Action::ZoomIn), StepEffect::Delegate);
    assert_eq!(studio_step(&mut s, Action::Quit), StepEffect::Nothing);
    assert!(s.should_quit);
}

#[test]
fn opening_the_editor_without_a_file_toasts_and_keeps_three() {
    let mut s = state();
    for _ in 0..5 {
        studio_step(&mut s, Action::OpenEditor);
    }
    assert_eq!(s.toasts.len(), 3);
    assert!(s.toasts.iter().all(|t: &Toast| t.text == "no file selected" && t.error && t.ttl == 12));
    s.selected_path = Some("notes/a.md".to_string());
    studio_step(&mut s, Action::OpenEditor);
    assert_eq!(s.editor_request.as_deref(), Some("notes/a.md"));
}

#[test]
fn verbs_open_overlays_on_the_selected_concept() {
    let mut s = state();
    studio_step(&mut s, Action::Verify);
    assert!(s.overlays.is_empty());
    s.selected_concept = Some(ConceptId::parse("policies/travel").unwrap());
    studio_step(&mut s, Action::Verify);
    match &s.overlays[0] {
        Overlay::Confirm(c) => {
            assert_eq!(c.title, "Stamp verification on policies/travel");
            assert_eq!(c.body, vec!["by ann".to_string(), "Appends a { by, at } event to `verified` and logs it.".to_string()]);
        },
        _ => panic!("a confirmation opens"),
    }
    studio_step(&mut s, Action::MoveOrRename);
    match &s.overlays[1] {
        Overlay::Refactor(r) => {
            assert_eq!(r.verb, VerbKind::Move);
            assert_eq!(r.input, "policies/travel");
            assert!(r.needs_preview);
        },
        _ => panic!("a refactor modal opens"),
    }
    studio_step(&mut s, Action::Remove);
    match &s.overlays[2] {
        Overlay::Refactor(r) => assert!(r.verb == VerbKind::Remove && r.input.is_empty()),
        _ => panic!("a refactor modal opens"),
    }
}

#[test]
fn new_concepts_start_in_the_selected_directory() {
    let mut s = state();
    s.explorer_selected = Some(TreeSel::Concept(ConceptId::parse("tables/orders").unwrap()));
    studio_step(&mut s, Action::NewConcept);
    s.explorer_selected = Some(TreeSel::Dir("docs".to_string()));
    studio_step(&mut s, Action::NewConcept);
    s.explorer_selected = Some(TreeSel::Concept(ConceptId::parse("top").unwrap()));
    studio_step(&mut s, Action::NewConcept);
    let paths: Vec<String> = s
        .overlays
        .iter()
        .map(|o| match o {
            Overlay::NewConcept(n) => {
                assert_eq!(n.fields[1], "Concept");
                n.fields[0].clone()
            },
            _ => panic!("a new-concept form opens"),
        })
        .collect();
    assert_eq!(paths, vec!["tables/".to_string(), "docs/".to_string(), String::new()]);
}

#[test]
fn outlines_open_only_in_the_explorer() {
    let mut s = state();
    s.explorer_selected = Some(TreeSel::Concept(ConceptId::parse("a").unwrap()));
    s.tab = Tab::Trust;
    studio_step(&mut s, Action::Outline);
    assert!(s.overlays.is_empty());
    s.tab = Tab::Explorer;
    studio_step(&mut s, Action::SplitSection);
    assert!(matches!(&s.overlays[0], Overlay::Outline(o) if o.sel == 0 && o.rename.is_none()));
}

#[test]
fn panels_and_toggles_cycle() {
    let mut s = state();
    for expected in [1, 2, 3, 0] {
        studio_step(&mut s, Action::CycleInspector);
        assert_eq!(s.inspector_tab, expected);
    }
    studio_step(&mut s, Action::ToggleRawYaml);
    assert!(s.raw_yaml);
    s.tab = Tab::Trust;
    studio_step(&mut s, Action::CyclePanel);
    assert_eq!(s.trust.panel, TrustPanel::TrustBars);
    assert_eq!(s.trust.bar_sel, 0);
    studio_step(&mut s, Action::CycleSort);
    assert_eq!(s.trust.sort, QueueSort::Staleness);
    s.tab = Tab::Computations;
    studio_step(&mut s, Action::CyclePanel);
    assert_eq!(s.comp_pane, CompPane::Form);
    studio_step(&mut s, Action::OpenDiagnostics);
    assert!(matches!(&s.overlays[0], Overlay::Diagnostics(d) if d.filter == DiagFilter::All && d.sel == 0));
    s.today = Some("2026-03-01".to_string());
    studio_step(&mut s, Action::PinToday);
    assert!(matches!(&s.overlays[1], Overlay::DatePicker(d) if d.id.is_none() && d.input == "2026-03-01"));
}
