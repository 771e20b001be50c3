use kicase::config::{CutFace, DatumConfig, DatumNormal, FeatureBinding};
use kicase::layers::{enabled_after, rename_note};
use kicase::model::{
    available_datums, binding_problem, check_datum, entry_role, find_orphans, id_taken,
    is_closed_shape, outline_problem, removal, resolve_entries, treat, BindError, ResolveError, Shape,
    Treatment,
};
use kicase::report::{OrphanKind, Warning};
use kicase::source::{default_id, LayerRole};

fn datum(id: &str, uuid: &str) -> DatumConfig {
    DatumConfig { id: id.into(), graphic_uuid: uuid.into(), normal: DatumNormal::Auto }
}

fn entry(id: &str, uuid: &str, datum: Option<&str>, enabled: bool) -> FeatureBinding {
    FeatureBinding { id: id.into(), graphic_uuid: uuid.into(), datum: datum.map(str::to_string), enabled }
}

#[test]
fn entries_whose_graphic_is_gone_are_orphans() {
    let datums = [datum("front", "g1"), datum("back", "gone-1")];
    let features = [entry("usb", "gone-2", Some("front"), true), entry("led", "g2", None, true)];
    let present = vec!["g1".to_string(), "g2".to_string()];
    let (orphans, warnings) = find_orphans(&datums, &features, &present);
    assert_eq!(orphans.len(), 2);
    assert_eq!((orphans[0].id.as_str(), orphans[0].kind), ("back", OrphanKind::Datum));
    assert_eq!((orphans[1].id.as_str(), orphans[1].kind), ("usb", OrphanKind::Feature));
    assert_eq!(
        warnings[0],
        Warning::about("gone-1", "datum \"back\" references a deleted KiCad graphic")
    );
    assert_eq!(warnings[1].text(), "feature \"usb\" references a deleted KiCad graphic [gone-2]");
    let (orphans, warnings) = find_orphans(&datums[..1], &features[1..], &present);
    assert!(orphans.is_empty() && warnings.is_empty());
}

#[test]
fn a_shape_is_what_its_layer_says() {
    let available = vec!["front".to_string()];
    let features = [
        entry("usb", "c1", Some("front"), true),
        entry("led", "c2", None, true),
        entry("gone", "c3", Some("back"), true),
        entry("off", "t2", None, false),
    ];
    let treat_as = |role, uuid, closed| treat(role, uuid, closed, &features, &available);
    assert_eq!(
        treat_as(LayerRole::Top, "t1-0123456789", true),
        Treatment::Hole { id: "top-t1-01234".into(), face: CutFace::Top }
    );
    assert_eq!(
        treat_as(LayerRole::Bottom, "b1", true),
        Treatment::Hole { id: "bottom-b1".into(), face: CutFace::Bottom }
    );
    assert_eq!(treat_as(LayerRole::Solids, "s1", true), Treatment::Solid { id: "solid-s1".into() });
    assert_eq!(
        treat_as(LayerRole::Cuts, "c1", true),
        Treatment::Side { id: "usb".into(), datum: "front".into() }
    );
    assert_eq!(treat_as(LayerRole::Top, "t2", true), Treatment::Ignored);
    assert_eq!(treat_as(LayerRole::Datums, "d1", true), Treatment::Ignored);
    assert_eq!(treat_as(LayerRole::BoardOutline, "e1", true), Treatment::Ignored);
}

#[test]
fn a_shape_that_cannot_be_used_is_skipped_with_a_reason() {
    let available = vec!["front".to_string()];
    let features = [entry("led", "c2", None, true), entry("gone", "c3", Some("back"), true)];
    let treat_as = |role, uuid, closed| treat(role, uuid, closed, &features, &available);
    assert_eq!(
        treat_as(LayerRole::Top, "t1", false),
        Treatment::Skipped(Warning::about(
            "t1",
            "\"top-t1\" is not a closed shape, so it was skipped. Draw a rectangle, circle or \
             closed polygon."
        ))
    );
    assert_eq!(
        treat_as(LayerRole::Cuts, "c2", true),
        Treatment::Skipped(Warning::about(
            "c2",
            "\"led\" is on the cuts layer but is not attached to a datum, so it was skipped. Add \
             it as a cutout against a datum."
        ))
    );
    assert_eq!(
        treat_as(LayerRole::Cuts, "c3", true),
        Treatment::Skipped(Warning::about(
            "c3",
            "\"gone\" was skipped: its datum \"back\" is unavailable"
        ))
    );
    assert_eq!(
        treat_as(LayerRole::Cuts, "c9", true),
        Treatment::Skipped(Warning::about(
            "c9",
            "\"cut-c9\" is on the cuts layer but is not attached to a datum, so it was skipped. \
             Add it as a cutout against a datum."
        ))
    );
}

#[test]
fn a_shape_nobody_named_is_named_from_its_layer() {
    assert_eq!(default_id(LayerRole::Cuts, "8b27aaaa-bbbb"), "cut-8b27aaaa");
    assert_eq!(default_id(LayerRole::Outline, "ab"), "feature-ab");
    assert_eq!(default_id(LayerRole::Solids, ""), "solid-");
    assert_eq!(default_id(LayerRole::Top, "αβγδεζηθικ"), "top-αβγδεζηθ");
}

#[test]
fn enabling_keeps_the_layer_set_sorted_and_single() {
    assert_eq!(enabled_after(&[60, 3, 0], &[54, 3, 53]), vec![0, 3, 53, 54, 60]);
    assert_eq!(enabled_after(&[], &[]), Vec::<i32>::new());
    assert_eq!(enabled_after(&[5, 5], &[]), vec![5]);
}

#[test]
fn the_rename_note_lists_every_layer() {
    let note = rename_note(&[(53, "Enclosure".to_string()), (63, "Enclosure.Cuts".to_string())]);
    assert_eq!(
        note,
        "KiCad 10 does not expose layer renaming over IPC for these layers. Rename them by hand \
         in Board Setup > Board Editor Layers: User.1 -> Enclosure, User.10 -> Enclosure.Cuts."
    );
    assert!(rename_note(&[(-7, "X".to_string())]).ends_with(": -7 -> X."));
    assert!(rename_note(&[(62, "X".to_string())]).ends_with(": 62 -> X."));
}

#[test]
fn deleted_graphics_become_orphans_and_are_never_rebound() {
    // A graphic exists, but it is not the one the project file names.
    let present = vec!["some-other-graphic".to_string()];
    let datums = [datum("front", "deleted-uuid")];
    let (orphans, warnings) = find_orphans(&datums, &[], &present);
    assert_eq!(orphans.len(), 1);
    assert_eq!(orphans[0].kind, OrphanKind::Datum);
    assert_eq!(orphans[0].uuid, "deleted-uuid");
    assert_eq!(warnings.len(), 1);
}

#[test]
fn a_board_needs_both_outlines() {
    assert_eq!(outline_problem(&[]), Some(ResolveError::NoBoardOutline));
    assert_eq!(outline_problem(&[LayerRole::Outline]), Some(ResolveError::NoBoardOutline));
    assert_eq!(
        outline_problem(&[LayerRole::BoardOutline, LayerRole::Cuts]),
        Some(ResolveError::NoEnclosureOutline)
    );
    assert_eq!(outline_problem(&[LayerRole::Outline, LayerRole::BoardOutline]), None);
}

#[test]
fn a_datum_must_be_a_line_and_should_stay_on_its_layer() {
    let front = datum("front", "g1");
    assert_eq!(
        check_datum(&front, LayerRole::Datums, "gr_arc"),
        Err(ResolveError::DatumNotALine { id: "front".into() })
    );
    assert_eq!(check_datum(&front, LayerRole::Datums, "gr_line"), Ok(None));
    let moved = check_datum(&front, LayerRole::Cuts, "gr_line").expect("a warning, not an error");
    assert_eq!(
        moved,
        Some(Warning::about(
            "g1",
            "datum \"front\" points at a graphic that is no longer on the datum layer"
        ))
    );
}

#[test]
fn only_datum_and_feature_layers_are_bound_by_entries() {
    assert!(!entry_role(LayerRole::BoardOutline));
    assert!(!entry_role(LayerRole::Outline));
    for role in [LayerRole::Datums, LayerRole::Cuts, LayerRole::Top, LayerRole::Bottom, LayerRole::Solids] {
        assert!(entry_role(role));
    }
}

#[test]
fn only_datums_on_the_board_are_available() {
    let datums = [datum("front", "g1"), datum("back", "gone"), datum("left", "g3")];
    let present = vec!["g3".to_string(), "g1".to_string()];
    assert_eq!(available_datums(&datums, &present), vec!["front".to_string(), "left".to_string()]);
    assert!(available_datums(&datums, &Vec::new()).is_empty());
}

#[test]
fn a_new_entry_needs_a_graphic_of_the_right_kind() {
    assert!(is_closed_shape("gr_rect") && is_closed_shape("gr_circle") && is_closed_shape("gr_poly"));
    assert!(!is_closed_shape("gr_line") && !is_closed_shape("gr_arc"));
    assert_eq!(binding_problem(None, true), Some(BindError::NoGraphic));
    assert_eq!(binding_problem(Some("gr_line"), true), Some(BindError::NotClosed));
    assert_eq!(binding_problem(Some("gr_rect"), true), None);
    assert_eq!(binding_problem(Some("gr_rect"), false), Some(BindError::NotALine));
    assert_eq!(binding_problem(Some("gr_line"), false), None);
}

#[test]
fn ids_are_shared_between_datums_and_features() {
    let datums = [datum("front", "g1")];
    let features = [entry("usb", "g2", Some("front"), true)];
    assert!(id_taken(&datums, &features, "front"));
    assert!(id_taken(&datums, &features, "usb"));
    assert!(!id_taken(&datums, &features, "led"));
}

#[test]
fn removing_an_id_removes_every_entry_with_it() {
    let datums = [datum("usb", "g1"), datum("front", "g2")];
    let features = [entry("usb", "g3", None, true), entry("led", "g4", None, true)];
    let (keep_datums, keep_features, removed) = removal(&datums, &features, "usb");
    assert_eq!(keep_datums, vec![false, true]);
    assert_eq!(keep_features, vec![false, true]);
    assert!(removed);
    let (keep_datums, keep_features, removed) = removal(&datums, &features, "none");
    assert_eq!(keep_datums, vec![true, true]);
    assert_eq!(keep_features, vec![true, true]);
    assert!(!removed);
}

#[test]
fn a_disabled_entry_switches_its_shape_off() {
    let features = [entry("usb", "g1", Some("front"), false), entry("other", "g1", None, true)];
    let available = vec!["front".to_string()];
    assert_eq!(treat(LayerRole::Cuts, "g1", true, &features, &available), Treatment::Ignored);
    assert_eq!(treat(LayerRole::Solids, "g1", true, &features, &available), Treatment::Ignored);
}

fn shape(uuid: &str, role: LayerRole, head: &str) -> Shape {
    Shape { uuid: uuid.into(), role, head: head.into() }
}

const OUTLINES: [LayerRole; 2] = [LayerRole::BoardOutline, LayerRole::Outline];

#[test]
fn a_datum_whose_graphic_was_deleted_does_not_resolve() {
    // A graphic exists, but it is not the one the project file names.
    let shapes = [shape("some-other-graphic", LayerRole::Datums, "gr_line")];
    let datums = [datum("front", "deleted-uuid")];
    let resolution =
        resolve_entries(&OUTLINES, &shapes, &datums, &[]).expect("resolution continues");
    assert!(resolution.datums.is_empty());
    assert_eq!(resolution.orphans.len(), 1);
    assert_eq!(resolution.orphans[0].kind, OrphanKind::Datum);
    assert_eq!(resolution.orphans[0].uuid, "deleted-uuid");
    assert_eq!(resolution.warnings.len(), 1);
}

#[test]
fn resolution_stops_at_the_first_problem_in_build_order() {
    let datums = [datum("front", "g1")];
    let arc = [shape("g1", LayerRole::Datums, "gr_arc")];
    assert_eq!(
        resolve_entries(&[LayerRole::Outline], &arc, &datums, &[]),
        Err(ResolveError::NoBoardOutline)
    );
    assert_eq!(
        resolve_entries(&[LayerRole::BoardOutline], &arc, &datums, &[]),
        Err(ResolveError::NoEnclosureOutline)
    );
    assert_eq!(
        resolve_entries(&OUTLINES, &arc, &datums, &[]),
        Err(ResolveError::DatumNotALine { id: "front".into() })
    );
}

#[test]
fn warnings_come_in_build_order() {
    let shapes = [
        shape("g-side", LayerRole::Cuts, "gr_line"),
        shape("g-open", LayerRole::Solids, "gr_line"),
        shape("g-usb", LayerRole::Cuts, "gr_rect"),
    ];
    let datums = [datum("gone", "deleted-1"), datum("side", "g-side"), datum("back", "deleted-2")];
    let features = [entry("usb", "g-usb", Some("side"), true), entry("led", "deleted-3", None, true)];
    let resolution =
        resolve_entries(&OUTLINES, &shapes, &datums, &features).expect("resolution continues");
    assert_eq!(resolution.datums, vec!["side".to_string()]);
    let texts: Vec<String> = resolution.warnings.iter().map(|w| w.text()).collect();
    assert_eq!(
        texts,
        vec![
            "datum \"gone\" references a deleted KiCad graphic [deleted-1]".to_string(),
            "datum \"side\" points at a graphic that is no longer on the datum layer [g-side]"
                .to_string(),
            "datum \"back\" references a deleted KiCad graphic [deleted-2]".to_string(),
            "\"cut-g-side\" is not a closed shape, so it was skipped. Draw a rectangle, circle \
             or closed polygon. [g-side]"
                .to_string(),
            "\"solid-g-open\" is not a closed shape, so it was skipped. Draw a rectangle, \
             circle or closed polygon. [g-open]"
                .to_string(),
            "feature \"led\" references a deleted KiCad graphic [deleted-3]".to_string(),
        ]
    );
    assert_eq!(resolution.treatments[2], Treatment::Side { id: "usb".into(), datum: "side".into() });
    let kinds: Vec<OrphanKind> = resolution.orphans.iter().map(|o| o.kind).collect();
    assert_eq!(kinds, vec![OrphanKind::Datum, OrphanKind::Datum, OrphanKind::Feature]);
}
