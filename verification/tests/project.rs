use kicase::config::{
    check_entry_ids, config_file_name, default_true, generated_dir_name,
    layer_display_names, openscad_dir_name, project_dir_name, CutFace, DatumConfig, DatumNormal,
    EntryError, FeatureBinding, LayerMapping, SCHEMA_VERSION,
};
use kicase::paths::{assembly_parts, join, ExportPaths, ExportedFiles};
use kicase::rename::{failure_reason, layer_arguments, RenameError};
use kicase::source::KiCadUuid;

fn datum(id: &str, uuid: &str) -> DatumConfig {
    DatumConfig { id: id.into(), graphic_uuid: uuid.into(), normal: DatumNormal::Auto }
}

fn feature(id: &str, uuid: &str, datum: Option<&str>) -> FeatureBinding {
    FeatureBinding {
        id: id.into(),
        graphic_uuid: uuid.into(),
        datum: datum.map(str::to_string),
        enabled: true,
    }
}

#[test]
fn rejects_a_cutout_pointing_at_a_missing_datum() {
    let err = check_entry_ids(&[], &[feature("usb", "abc", Some("front"))])
        .expect_err("dangling datum must fail to validate");
    assert!(matches!(err, EntryError::UnknownDatum { .. }), "got {err:?}");
    assert_eq!(err, EntryError::UnknownDatum { id: "usb".into(), datum: "front".into() });
}

#[test]
fn duplicate_ids_are_reported_first_found_first() {
    let datums = [datum("front", "a"), datum("back", "b"), datum("front", "c")];
    assert_eq!(
        check_entry_ids(&datums, &[]),
        Err(EntryError::DuplicateId { id: "front".into() })
    );
    let datums = [datum("front", "a")];
    let features = [
        feature("usb", "x", Some("front")),
        feature("led", "y", None),
        feature("usb", "z", Some("nowhere")),
    ];
    assert_eq!(
        check_entry_ids(&datums, &features),
        Err(EntryError::DuplicateId { id: "usb".into() })
    );
    // A datum and a feature may share an id: they are checked apart.
    let features = [feature("front", "x", Some("front"))];
    assert_eq!(check_entry_ids(&datums, &features), Ok(()));
}

#[test]
fn the_project_layout_names() {
    assert_eq!(SCHEMA_VERSION, 1);
    assert_eq!(project_dir_name(), ".enclosure");
    assert_eq!(config_file_name(), "enclosure.toml");
    assert_eq!(generated_dir_name(), "generated");
    assert_eq!(openscad_dir_name(), "openscad");
    assert_eq!(layer_display_names()[0], "Enclosure");
    assert_eq!(layer_display_names()[5], "Enclosure.Solids");
    assert!(default_true());
    assert_eq!(CutFace::default(), CutFace::Top);
    assert_eq!(DatumNormal::default(), DatumNormal::Auto);
    let mapping = LayerMapping::default();
    assert_eq!(mapping.all(), ["User.1", "User.2", "User.3", "User.4", "User.5", "User.6"]);
    let uuid = KiCadUuid::new("abc".to_string());
    assert_eq!(uuid.as_str(), "abc");
}

#[test]
fn output_paths_live_under_the_project() {
    let paths = ExportPaths::new("/work/board");
    assert_eq!(paths.enclosure_dir, "/work/board/.enclosure");
    assert_eq!(paths.config(), "/work/board/.enclosure/enclosure.toml");
    assert_eq!(paths.bottom_step(), "/work/board/.enclosure/generated/bottom.step");
    assert_eq!(paths.lid_step(), "/work/board/.enclosure/generated/lid.step");
    assert_eq!(paths.enclosure_step(), "/work/board/.enclosure/generated/enclosure.step");
    assert_eq!(
        paths.preview_bottom_step(),
        "/work/board/.enclosure/generated/preview-bottom.step"
    );
    assert_eq!(paths.preview_lid_step(), "/work/board/.enclosure/generated/preview-lid.step");
    assert_eq!(paths.bottom_stl(), "/work/board/.enclosure/generated/bottom.stl");
    assert_eq!(paths.lid_stl(), "/work/board/.enclosure/generated/lid.stl");
    assert_eq!(paths.generated_scad(), "/work/board/.enclosure/openscad/generated.scad");
    assert_eq!(paths.custom_scad(), "/work/board/.enclosure/openscad/custom.scad");
    assert_eq!(paths.preview_library_dir(), "/work/board/.enclosure/kicase.pretty");
    assert_eq!(
        ExportPaths::preview_model_references(),
        [
            "${KIPRJMOD}/.enclosure/generated/preview-bottom.step",
            "${KIPRJMOD}/.enclosure/generated/preview-lid.step",
        ]
    );
}

#[test]
fn joining_adds_one_separator() {
    assert_eq!(join("a", "b"), "a/b");
    assert_eq!(join("a/", "b"), "a/b");
    assert_eq!(join("", "b"), "b");
    assert_eq!(ExportPaths::new("").config(), ".enclosure/enclosure.toml");
    assert_eq!(ExportPaths::new("proj/").generated_dir, "proj/.enclosure/generated");
}

#[test]
fn exported_files_are_listed_by_kind() {
    let files = ExportedFiles {
        step: vec!["a.step".into(), "b.step".into()],
        stl: vec!["a.stl".into()],
        scad: vec!["g.scad".into()],
    };
    let all: Vec<&str> = files.all().iter().map(|p| p.as_str()).collect();
    assert_eq!(all, vec!["a.step", "b.step", "a.stl", "g.scad"]);
    assert!(ExportedFiles::default().all().is_empty());
    let (bottom, lid) = (1u8, 2u8);
    let parts = assembly_parts(&bottom, &lid);
    assert_eq!((parts[0].name, *parts[0].solid), ("bottom", 1));
    assert_eq!((parts[1].name, *parts[1].solid), ("lid", 2));
}

#[test]
fn the_naming_script_gets_one_pair_per_layer() {
    let args = layer_arguments(&[
        ("User.5".to_string(), "Enclosure.Top".to_string()),
        ("User.6".to_string(), "Enclosure.Bottom".to_string()),
    ]);
    assert_eq!(args, vec!["User.5=Enclosure.Top", "User.6=Enclosure.Bottom"]);
    assert!(layer_arguments(&[]).is_empty());
}

#[test]
fn a_failed_run_reports_its_last_telling_line() {
    let stderr = "12:00:00: Debug: Assert failure in property.h\n\
                  Traceback (most recent call last):\n\
                  SystemExit: no layer called User.99 on this board\r\n\
                  ../common/property.h(123): assert \"x\" failed\n";
    assert_eq!(failure_reason(stderr), "SystemExit: no layer called User.99 on this board");
    assert_eq!(failure_reason(""), "no reason given");
    assert_eq!(failure_reason("assert one\nproperty.h two\n"), "no reason given");
    assert_eq!(failure_reason("first\nsecond"), "second");
    assert_eq!(failure_reason("first\n\n"), "");
    assert_eq!(failure_reason("kept\r"), "kept\r");
    let errors = [RenameError::NoPython, RenameError::Failed("x".into())];
    assert_ne!(errors[0], errors[1]);
}

#[test]
fn the_preview_references_name_the_preview_files() {
    let dir = "/home/me/board";
    let paths = ExportPaths::new(dir);
    let [bottom, lid] = ExportPaths::preview_model_references();
    assert_eq!(bottom.replace("${KIPRJMOD}", dir), paths.preview_bottom_step());
    assert_eq!(lid.replace("${KIPRJMOD}", dir), paths.preview_lid_step());
}

#[test]
fn the_preview_references_name_the_preview_files_under_a_directory_ending_in_a_slash() {
    let dir = "/home/me/board/";
    let paths = ExportPaths::new(dir);
    let [bottom, lid] = ExportPaths::preview_model_references();
    let bottom = bottom.replace("${KIPRJMOD}", dir);
    assert_eq!(bottom, "/home/me/board//.enclosure/generated/preview-bottom.step");
    assert_eq!(bottom.replace("//", "/"), paths.preview_bottom_step());
    assert_eq!(lid.replace("${KIPRJMOD}", dir).replace("//", "/"), paths.preview_lid_step());
}
