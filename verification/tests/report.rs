use kicase::designer::{
    ActionReport, DesignerData, ExportKind, GraphicRow, HoleInfo, ItemInfo, PartId, Projection,
    SectionAxis,
};
use kicase::config::{DatumConfig, DatumNormal, FeatureBinding};
use kicase::report::{
    bound_to, role_layer_name, FitCheck, FitStatus, GraphicSummary, Orphan, OrphanKind,
    PreviewOutcome, RebuildOptions, RebuildReport, Warning,
};
use kicase::source::LayerRole;
use kicase::watcher::{BoardWatcher, WatchSource, ACTIVE_INTERVAL_MS, POLL_INTERVAL_MS};

fn check(status: FitStatus) -> FitCheck {
    FitCheck { subject: "board".into(), status, message: "m".into() }
}

#[test]
fn a_warning_shows_the_object_it_is_about() {
    assert_eq!(Warning::new("too thin").text(), "too thin");
    let warning = Warning::about("abc-123", "too thin");
    assert_eq!(warning.uuid.as_deref(), Some("abc-123"));
    assert_eq!(warning.text(), "too thin [abc-123]");
}

#[test]
fn fit_statuses_print_and_rank() {
    assert_eq!(FitStatus::Passed.symbol(), "ok");
    assert_eq!(FitStatus::Warning.symbol(), "warn");
    assert_eq!(FitStatus::Problem.symbol(), "FAIL");
    assert!(FitStatus::Problem.is_problem());
    assert!(!FitStatus::Warning.is_problem());
    assert!(!FitStatus::Passed.is_problem());
    let fit = FitCheck {
        subject: "lid".into(),
        status: FitStatus::Problem,
        message: "overlaps by 2.0 mm^3".into(),
    };
    assert_eq!(fit.text(), "[FAIL] lid: overlaps by 2.0 mm^3");
}

#[test]
fn a_report_is_clean_without_warnings_orphans_or_problems() {
    let mut report = RebuildReport::default();
    assert!(report.is_clean());
    report.fit = vec![check(FitStatus::Passed), check(FitStatus::Warning)];
    assert!(report.is_clean());
    assert_eq!(report.fit_problems().len(), 1);
    assert_eq!(report.fit_problems()[0].status, FitStatus::Warning);
    report.fit.push(check(FitStatus::Problem));
    assert!(!report.is_clean());
    assert_eq!(report.fit_problems().len(), 2);
    let mut report = RebuildReport::default();
    report.orphans.push(Orphan { id: "usb".into(), uuid: "x".into(), kind: OrphanKind::Feature });
    assert!(!report.is_clean());
    let mut report = RebuildReport::default();
    report.warnings.push("w".into());
    assert!(!report.is_clean());
    report.preview = Some(PreviewOutcome::Created);
    assert_ne!(report.preview, Some(PreviewOutcome::Preserved));
}

#[test]
fn a_plain_rebuild_writes_step_and_updates_kicad() {
    let options = RebuildOptions::default();
    assert!(options.step && !options.stl && !options.openscad && options.update_kicad);
    assert_eq!(RebuildOptions::rebuild(true), RebuildOptions { openscad: true, ..options });
    assert_eq!(RebuildOptions::rebuild(false), options);
}

#[test]
fn graphics_are_listed_with_their_layer_and_binding() {
    assert_eq!(role_layer_name(LayerRole::Cuts), "Enclosure.Cuts");
    assert_eq!(role_layer_name(LayerRole::Outline), "Enclosure");
    assert_eq!(role_layer_name(LayerRole::BoardOutline), "Edge.Cuts");
    assert_eq!(role_layer_name(LayerRole::Solids), "Enclosure.Solids");
    let datums = [DatumConfig { id: "front".into(), graphic_uuid: "g1".into(), normal: DatumNormal::Left }];
    let features = [
        FeatureBinding { id: "usb".into(), graphic_uuid: "g2".into(), datum: Some("front".into()), enabled: true },
        FeatureBinding { id: "also".into(), graphic_uuid: "g1".into(), datum: None, enabled: true },
    ];
    assert_eq!(bound_to(&datums, &features, "g1").as_deref(), Some("front"));
    assert_eq!(bound_to(&datums, &features, "g2").as_deref(), Some("usb"));
    assert_eq!(bound_to(&datums, &features, "g3"), None);
    let summary = GraphicSummary {
        uuid: "g2".into(),
        layer: role_layer_name(LayerRole::Cuts),
        closed: true,
        description: "10.00 x 3.00 mm at (120.00, -98.00)".into(),
        bound_to: bound_to(&datums, &features, "g2"),
    };
    assert_eq!(summary.bound_to.as_deref(), Some("usb"));
}

#[test]
fn the_designer_labels() {
    assert_eq!(ExportKind::Step.label(), "Export STEP");
    assert_eq!(ExportKind::Stl.label(), "Export STL");
    assert_eq!(ExportKind::OpenScad.label(), "Generate OpenSCAD project");
    assert_eq!(SectionAxis::all(), [SectionAxis::X, SectionAxis::Y, SectionAxis::Z]);
    let labels: Vec<&str> = SectionAxis::all().iter().map(|a| a.label()).collect();
    assert_eq!(labels, vec!["X", "Y", "Z"]);
    let labels: Vec<&str> = PartId::all().iter().map(|p| p.label()).collect();
    assert_eq!(labels, vec!["PCB", "Enclosure bottom", "Enclosure lid", "Components"]);
    assert_ne!(Projection::Orthographic, Projection::Perspective);
}

#[test]
fn an_action_report_collects_lines() {
    let report = ActionReport::ok("Rebuilt").with("bottom.step").with("lid.step");
    assert!(report.ok);
    assert_eq!(report.headline, "Rebuilt");
    assert_eq!(report.lines, vec!["bottom.step", "lid.step"]);
    let failed = ActionReport::failed("No board");
    assert!(!failed.ok);
    assert!(failed.lines.is_empty());
    let data = DesignerData {
        datums: vec![ItemInfo { id: "front".into(), uuid: "g".into(), detail: "d".into(), orphaned: false }],
        holes: vec![HoleInfo { id: "H1".into(), detail: "3.2 mm".into(), orphaned: true }],
        graphics: vec![GraphicRow {
            uuid: "g".into(),
            layer: "Enclosure.Datums".into(),
            description: "line".into(),
            closed: false,
            bound_to: None,
        }],
        ..DesignerData::default()
    };
    assert_eq!(data.datums.len(), 1);
    assert!(data.kicad_version.is_none());
}

#[test]
fn the_first_reading_is_never_a_change() {
    let mut watcher = BoardWatcher::new();
    assert!(!watcher.observe(7, 0));
    assert!(!watcher.take_change());
    assert!(!watcher.observe(7, 250));
    assert_eq!(watcher.next_poll_ms(250), POLL_INTERVAL_MS);
}

#[test]
fn several_changes_collapse_into_one() {
    let mut watcher = BoardWatcher::new();
    watcher.observe(1, 0);
    assert!(watcher.observe(2, 250));
    assert!(watcher.observe(3, 310));
    assert!(watcher.take_change());
    assert!(!watcher.take_change());
    assert!(!watcher.observe(3, 370));
    assert!(!watcher.take_change());
}

#[test]
fn the_watcher_leans_in_after_a_change() {
    let mut watcher = BoardWatcher::new();
    watcher.observe(1, 0);
    watcher.observe(2, 1_000);
    assert_eq!(watcher.next_poll_ms(1_000), ACTIVE_INTERVAL_MS);
    assert_eq!(watcher.next_poll_ms(3_999), ACTIVE_INTERVAL_MS);
    assert_eq!(watcher.next_poll_ms(4_000), POLL_INTERVAL_MS);
    assert_eq!(watcher.next_poll_ms(10), ACTIVE_INTERVAL_MS);
    assert_ne!(WatchSource::LiveKiCad, WatchSource::File("b.kicad_pcb".into()));
}

#[test]
fn a_rebuild_report_becomes_a_button_report() {
    let report = RebuildReport {
        files: vec!["out/bottom.step".into()],
        warnings: vec!["too thin [u1]".into()],
        orphans: vec![Orphan { id: "usb".into(), uuid: "u2".into(), kind: OrphanKind::Feature }],
        notes: vec!["wall from drawing".into()],
        ..RebuildReport::default()
    };
    let action = kicase::report::to_action("Rebuilt", report);
    assert_eq!(action.headline, "Rebuilt");
    assert!(!action.ok);
    assert_eq!(
        action.lines,
        vec!["wrote out/bottom.step", "warning: too thin [u1]", "orphaned: usb (u2)", "wall from drawing"]
    );
    let clean = kicase::report::to_action("Exported", RebuildReport::default());
    assert!(clean.ok && clean.lines.is_empty());
    assert_eq!(kicase::report::kind_of(&Orphan { id: "a".into(), uuid: "b".into(), kind: OrphanKind::MountingHole }), "mounting hole");
}

#[test]
fn an_unmeasured_check_is_a_warning_not_a_pass() {
    let check = kicase::report::unmeasured("board", "whether the PCB clears the enclosure", "boolean failed");
    assert_eq!(check.status, FitStatus::Warning);
    assert_eq!(check.subject, "board");
    assert_eq!(
        check.message,
        "could not work out whether the PCB clears the enclosure (boolean failed) \u{2014} check \
         this one by eye in the 3D view"
    );
    assert_eq!(FitCheck::new("lid", FitStatus::Passed, "clear").text(), "[ok] lid: clear");
}

#[test]
fn over_a_run_each_differing_reading_is_one_change() {
    let readings: [u64; 7] = [5, 5, 6, 6, 6, 5, 9];
    let mut watcher = BoardWatcher::new();
    let changes: Vec<bool> =
        readings.iter().enumerate().map(|(i, h)| watcher.observe(*h, i as u64 * 250)).collect();
    assert_eq!(changes, vec![false, false, true, false, false, true, true]);
}

#[test]
fn a_polling_loop_reports_each_change_once() {
    let readings: [u64; 6] = [1, 1, 2, 3, 3, 1];
    let mut watcher = BoardWatcher::new();
    let reported: Vec<bool> = readings
        .iter()
        .enumerate()
        .map(|(i, h)| {
            watcher.observe(*h, i as u64 * 60);
            watcher.take_change()
        })
        .collect();
    assert_eq!(reported, vec![false, false, true, true, false, true]);
}
