use kicase::board::{
    canonical_layer, edge_cuts, footprint_on_back, footprint_reference, graphic_role,
    model_shown, read_board, round_npth, BoardLayer, LayerRoles, ReadError,
};
use kicase::config::LayerMapping;
use kicase::sexpr::{parse, Node};
use kicase::source::LayerRole;

fn roles() -> LayerRoles {
    LayerRoles {
        outline: "User.1".into(),
        datums: "User.2".into(),
        cuts: "User.3".into(),
        top: "User.4".into(),
        bottom: "User.5".into(),
        solids: "User.6".into(),
    }
}

const BOARD: &str = r#"
(kicad_pcb
  (version 20241229)
  (generator "pcbnew")
  (layers
    (0 "F.Cu" signal)
    (31 "B.Cu" signal)
    (47 "Edge.Cuts" user)
    (53 "User.1" user "Enclosure")
    (54 "User.2" user "Enclosure.Datums")
    (55 "User.3" user "Enclosure.Cuts")
    (56 "User.4" user "Enclosure.Solids")
  )
  (gr_line (start 100 100) (end 150 100) (layer "Edge.Cuts") (uuid "e1"))
  (gr_line (start 150 100) (end 150 130) (layer "Edge.Cuts") (uuid "e2"))
  (gr_line (start 150 130) (end 100 130) (layer "Edge.Cuts") (uuid "e3"))
  (gr_line (start 100 130) (end 100 100) (layer "Edge.Cuts") (uuid "e4"))
  (gr_line (start 100 100) (end 150 100) (layer "User.2") (uuid "datum-front"))
  (gr_rect (start 120 95) (end 130 98) (layer "Enclosure.Cuts") (uuid "cut-usb"))
  (gr_rect (start 100 120) (end 120 130) (radius 2) (layer "User.3") (uuid "cut-rounded"))
  (gr_poly (pts (xy 110 110) (xy 120 110) (xy 120 115)) (layer "User.4") (uuid "solid-rib"))
  (gr_circle (center 125 115) (end 128 115) (layer "User.3") (uuid "cut-led"))
  (gr_curve (start 0 0) (end 1 1) (layer "User.3") (uuid "bezier"))
  (footprint "MountingHole:MountingHole_3.2mm"
    (layer "F.Cu")
    (at 105 105)
    (uuid "fp1")
    (property "Reference" "H1")
    (pad "" np_thru_hole circle (at 0 0) (size 6 6) (drill 3.2) (uuid "hole-1"))
  )
  (footprint "Connector:USB_C"
    (layer "F.Cu")
    (at 120 100 90)
    (uuid "fp2")
    (property "Reference" "J1")
    (pad "" np_thru_hole oval (at 1 0) (size 2 3) (drill oval 1 2) (uuid "slot-1"))
    (pad "1" smd rect (at 0 0) (size 1 1) (uuid "pad-1"))
    (model "${KICAD9_3DMODEL_DIR}/Connector.3dshapes/USB_C.step"
      (offset (xyz 0 0 1.5)) (scale (xyz 1 1 1)) (rotate (xyz 0 0 -90))
    )
    (model "${KIPRJMOD}/hidden.step" (hide yes) (offset (xyz 0 0 0)))
  )
  (footprint "MountingHole:MountingHole_2.2mm"
    (layer "B.Cu")
    (at 100 50 90)
    (uuid "fp3")
    (property "Reference" "H9")
    (pad "" np_thru_hole circle (at 1 0) (size 4 4) (drill 2.2) (uuid "hole-9"))
    (model "legacy.wrl" (at (xyz 1 0 0)))
  )
)"#;

fn top_level(reading: &kicase::board::BoardReading) -> &[Node] {
    reading.root.as_list().expect("the root is a list")
}

fn footprints(reading: &kicase::board::BoardReading) -> Vec<&Node> {
    top_level(reading).iter().filter(|n| n.head() == Some("footprint")).collect()
}

#[test]
fn reads_the_layer_table_with_display_names() {
    let reading = read_board(BOARD, &roles()).expect("parses");
    let user1 = reading.layers.iter().find(|l| l.canonical == "User.1").expect("User.1");
    assert_eq!(user1.id, 53);
    assert_eq!(user1.display.as_deref(), Some("Enclosure"));
    assert_eq!(reading.layers.len(), 7);
    assert_eq!(reading.layers[0], BoardLayer { id: 0, canonical: "F.Cu".into(), display: None });
}

#[test]
fn recognises_layers_by_canonical_and_display_name() {
    let reading = read_board(BOARD, &roles()).expect("parses");
    let items = top_level(&reading);
    // A bezier curve is left out of the graphics (it is noted as skipped).
    let cuts: Vec<_> = reading
        .graphics
        .iter()
        .filter(|g| g.role == LayerRole::Cuts && items[g.index].head() != Some("gr_curve"))
        .collect();
    // The rectangle names the layer by its display name, the circle by its
    // canonical name; both must land on the cuts layer.
    assert_eq!(cuts.len(), 3);
    let outline = reading.graphics.iter().filter(|g| g.role == LayerRole::BoardOutline).count();
    assert_eq!(outline, 4);
    let datums = reading.graphics.iter().filter(|g| g.role == LayerRole::Datums).count();
    assert_eq!(datums, 1);
    let uuid = |g: &kicase::board::GraphicRef| items[g.index].child_string("uuid");
    let solids: Vec<_> = reading.graphics.iter().filter(|g| g.role == LayerRole::Top).collect();
    assert_eq!(solids.len(), 1);
    assert_eq!(uuid(solids[0]), Some("solid-rib"));
}

#[test]
fn tracks_which_layers_carry_objects() {
    let reading = read_board(BOARD, &roles()).expect("parses");
    assert!(reading.used_layers.iter().any(|l| l == "Edge.Cuts"));
    assert!(reading.used_layers.iter().any(|l| l == "User.2"));
    // The rectangle referenced the cuts layer by its display name; it must
    // be recorded under the canonical name.
    assert!(reading.used_layers.iter().any(|l| l == "User.3"));
    assert!(!reading.used_layers.iter().any(|l| l == "User.5"));
    assert!(!reading.used_layers.iter().any(|l| l == "Enclosure.Cuts"));
    let mut sorted = reading.used_layers.clone();
    sorted.sort();
    sorted.dedup();
    assert_eq!(sorted.len(), reading.used_layers.len(), "each layer is recorded once");
}

#[test]
fn rejects_documents_that_are_not_boards() {
    let err = read_board("(kicad_sch (version 1))", &roles()).expect_err("must fail");
    assert!(matches!(err, ReadError::NotABoard));
    let err = read_board("(kicad_pcb (layers", &roles()).expect_err("must fail");
    assert!(matches!(err, ReadError::Sexpr(_)));
}

#[test]
fn detects_circular_npth_holes_and_ignores_slots_and_smd_pads() {
    let reading = read_board(BOARD, &roles()).expect("parses");
    let mut holes = Vec::new();
    for footprint in footprints(&reading) {
        for pad in footprint.children("pad") {
            if round_npth(pad) {
                holes.push((footprint_reference(footprint), pad.child_string("uuid")));
            }
        }
    }
    assert_eq!(holes.len(), 2);
    assert_eq!(holes[0], (Some("H1"), Some("hole-1")));
    assert_eq!(holes[1], (Some("H9"), Some("hole-9")));
}

#[test]
fn records_footprint_positions_for_the_preview_lookup() {
    let reading = read_board(BOARD, &roles()).expect("parses");
    let all = footprints(&reading);
    assert_eq!(all.len(), 3);
    let h1 = all.iter().find(|f| footprint_reference(f) == Some("H1")).expect("H1 is present");
    let at = h1.child("at").expect("a position");
    assert_eq!((at.string(0), at.string(1)), (Some("105"), Some("105")));
}

#[test]
fn reads_the_side_rotation_and_models_of_a_footprint() {
    let reading = read_board(BOARD, &roles()).expect("parses");
    let all = footprints(&reading);
    let j1 = all.iter().find(|f| footprint_reference(f) == Some("J1")).expect("J1 is present");
    assert_eq!(j1.child("at").and_then(|a| a.string(2)), Some("90"));
    assert!(!footprint_on_back(j1));
    // The second model is hidden, so KiCad does not draw it and neither does
    // KiCase.
    let models: Vec<_> = j1.children("model").into_iter().filter(|m| model_shown(m)).collect();
    assert_eq!(models.len(), 1);
    assert_eq!(models[0].string(0), Some("${KICAD9_3DMODEL_DIR}/Connector.3dshapes/USB_C.step"));

    let h9 = all.iter().find(|f| footprint_reference(f) == Some("H9")).expect("H9 is present");
    assert!(footprint_on_back(h9));
    assert_eq!(h9.children("model").into_iter().filter(|m| model_shown(m)).count(), 1);
}

#[test]
fn a_model_is_hidden_unless_it_says_no() {
    let shown = |text: &str| model_shown(&parse(text).expect("parses"));
    assert!(shown("(model \"a.step\")"));
    assert!(shown("(model \"a.step\" (hide no))"));
    assert!(!shown("(model \"a.step\" (hide yes))"));
    assert!(!shown("(model \"a.step\" (hide))"));
}

#[test]
fn the_first_reference_property_names_a_footprint() {
    let reference = |text: &str| {
        let node = parse(text).expect("parses");
        footprint_reference(&node).map(str::to_string)
    };
    assert_eq!(reference("(footprint (property \"Value\" \"10k\") (property \"Reference\" \"R1\"))"), Some("R1".into()));
    assert_eq!(reference("(footprint (property \"Reference\") (property \"Reference\" \"R2\"))"), None);
    assert_eq!(reference("(footprint (property \"Value\" \"10k\"))"), None);
}

#[test]
fn a_large_board_reads_in_reasonable_time() {
    let mut board = String::from(
        "(kicad_pcb (version 20241229) (general (thickness 1.6))\n\
         (layers (0 \"F.Cu\" signal) (47 \"Edge.Cuts\" user) (53 \"User.1\" user))\n",
    );
    for index in 0..40_000 {
        board.push_str(&format!(
            "(segment (start {index} 0) (end {index} 10) (width 0.25) \
             (layer \"F.Cu\") (net 3) (uuid \"net-name-{index}-with-some-length\"))\n"
        ));
    }
    for index in 0..2_000 {
        board.push_str(&format!(
            "(footprint \"lib:part-{index}\" (layer \"F.Cu\") (at {index} 20 90)\n\
             (uuid \"fp-{index}\") (property \"Reference\" \"R{index}\")\n\
             (fp_line (start 0 0) (end 1 0) (layer \"F.SilkS\") (uuid \"s{index}\"))\n\
             (model \"${{KICAD9_3DMODEL_DIR}}/Resistor_SMD.3dshapes/R_0402.step\"\n\
               (offset (xyz 0 0 0)) (scale (xyz 1 1 1)) (rotate (xyz 0 0 0)))\n)\n"
        ));
    }
    board.push_str("(gr_line (start 0 0) (end 10 0) (layer \"Edge.Cuts\") (uuid \"e1\"))\n)");

    let started = std::time::Instant::now();
    let reading = read_board(&board, &roles()).expect("parses");
    let taken = started.elapsed();

    let outline = reading.graphics.iter().filter(|g| g.role == LayerRole::BoardOutline).count();
    assert_eq!(outline, 1, "the one graphic was found");
    let all = footprints(&reading);
    assert_eq!(all.len(), 2_000, "every footprint was read");
    assert!(
        all.iter().all(|fp| fp.children("model").len() == 1),
        "every footprint kept its model reference"
    );
    assert!(
        taken < std::time::Duration::from_secs(5),
        "reading a {} KB board took {taken:?}",
        board.len() / 1000
    );
}

#[test]
fn a_display_name_maps_to_its_canonical_layer() {
    let layers = vec![
        BoardLayer { id: 53, canonical: "User.1".into(), display: Some("Front".into()) },
        BoardLayer { id: 54, canonical: "User.2".into(), display: Some("Front".into()) },
        BoardLayer { id: 55, canonical: "User.3".into(), display: None },
    ];
    // Of two layers showing the same name, the later one wins.
    assert_eq!(canonical_layer(&layers, "Front"), "User.2");
    assert_eq!(canonical_layer(&layers, "User.3"), "User.3");
    assert_eq!(canonical_layer(&layers, "Nothing"), "Nothing");
}

#[test]
fn a_graphic_takes_the_role_of_its_layer() {
    let mapping = LayerMapping::default();
    let roles = LayerRoles::from_mapping(&mapping);
    assert_eq!(roles, self::roles());
    let layers = vec![BoardLayer { id: 57, canonical: "User.5".into(), display: Some("Under".into()) }];
    let role = |text: &str| graphic_role(&parse(text).expect("parses"), &roles, &layers);
    assert_eq!(role("(gr_line (layer \"Edge.Cuts\"))"), Some(LayerRole::BoardOutline));
    assert_eq!(role("(gr_line (layer \"Under\"))"), Some(LayerRole::Bottom));
    assert_eq!(role("(gr_line (layer \"User.6\"))"), Some(LayerRole::Solids));
    assert_eq!(role("(gr_line (layer \"F.SilkS\"))"), None);
    assert_eq!(role("(gr_line (start 0 0))"), None);
    assert_eq!(edge_cuts(), "Edge.Cuts");
}

#[test]
fn an_old_board_writes_model_offsets_in_inches() {
    let node = parse("(model \"a.wrl\" (at (xyz 1 0 0)))").expect("parses");
    let (at, inches) = kicase::board::model_offset_source(&node).expect("an offset");
    assert!(inches);
    assert_eq!(at.child("xyz").and_then(|x| x.string(0)), Some("1"));
    let node = parse("(model \"a.step\" (offset (xyz 0 0 1.5)) (at (xyz 9 9 9)))").expect("parses");
    let (offset, inches) = kicase::board::model_offset_source(&node).expect("an offset");
    assert!(!inches);
    assert_eq!(offset.head(), Some("offset"));
    assert!(kicase::board::model_offset_source(&parse("(model \"a\")").expect("parses")).is_none());
}

#[test]
fn reports_unsupported_geometry_instead_of_approximating_it() {
    let reading = read_board(BOARD, &roles()).expect("parses");
    assert!(
        reading.skipped.iter().any(|s| s.contains("bezier")),
        "skipped list was {:?}",
        reading.skipped
    );
    assert_eq!(
        reading.skipped,
        vec!["bezier curve bezier on User.3 was ignored: KiCase v0.1 supports lines and arcs"]
    );
}

#[test]
fn a_layer_that_only_skipped_objects_use_is_in_use() {
    let text = r#"(kicad_pcb (layers (53 "User.1" user)) (gr_text "hi" (at 0 0) (layer "User.1") (uuid "t")))"#;
    let reading = read_board(text, &roles()).expect("parses");
    assert_eq!(reading.used_layers, vec!["User.1".to_string()]);
    assert!(reading.graphics.is_empty());
}

#[test]
fn layers_inside_footprint_graphics_are_in_use_under_their_canonical_names() {
    let text = r#"(kicad_pcb (layers (0 "F.Cu" signal) (54 "User.2" user "Datums"))
        (footprint "x" (layer "F.Cu") (fp_line (start 0 0) (end 1 0) (layer "Datums")))
        (segment (start 0 0) (end 1 0) (layer "User.9")))"#;
    let reading = read_board(text, &roles()).expect("parses");
    let mut used = reading.used_layers.clone();
    used.sort();
    assert_eq!(used, vec!["F.Cu".to_string(), "User.2".to_string(), "User.9".to_string()]);
}

#[test]
fn a_polygon_with_fewer_than_three_points_is_noted_and_left_out() {
    let text = r#"(kicad_pcb (layers (55 "User.3" user))
        (gr_poly (pts (xy 0 0) (xy 1 0)) (layer "User.3") (uuid "thin"))
        (gr_poly (pts (xy 0 0) (xy 1 0) (xy 1 1)) (layer "User.3") (uuid "tri")))"#;
    let reading = read_board(text, &roles()).expect("parses");
    assert_eq!(reading.skipped, vec!["polygon thin has fewer than three points".to_string()]);
    assert_eq!(reading.graphics.len(), 1);
    let items = top_level(&reading);
    assert_eq!(items[reading.graphics[0].index].child_string("uuid"), Some("tri"));
}

#[test]
fn a_graphic_without_the_points_of_its_shape_is_left_out() {
    let text = r#"(kicad_pcb (layers (55 "User.3" user))
        (gr_line (start 0 0) (layer "User.3") (uuid "no-end"))
        (gr_arc (start 0 0) (end 1 1) (layer "User.3") (uuid "no-mid"))
        (gr_circle (center 5) (end 6 5) (layer "User.3") (uuid "half-centre"))
        (gr_rect (start 0 0) (end 2 2) (layer "User.3") (uuid "whole"))
        (gr_poly (pts (xy 0 0) (xy 1) (xy 1 1)) (layer "User.3") (uuid "two-points")))"#;
    let reading = read_board(text, &roles()).expect("parses");
    let items = top_level(&reading);
    let kept: Vec<_> =
        reading.graphics.iter().map(|g| items[g.index].child_string("uuid")).collect();
    assert_eq!(kept, vec![Some("whole")]);
    assert_eq!(reading.skipped, vec!["polygon two-points has fewer than three points".to_string()]);
}

#[test]
fn a_pad_without_a_drill_diameter_or_a_position_is_no_mounting_hole() {
    let pad = |text: &str| round_npth(&parse(text).expect("parses"));
    assert!(pad("(pad \"\" np_thru_hole circle (at 0 0) (size 3 3) (drill 3))"));
    assert!(!pad("(pad \"\" np_thru_hole circle (at 0 0) (size 3 3) (drill))"));
    assert!(!pad("(pad \"\" np_thru_hole circle (at 0 0) (size 3 3) (drill (offset 1 1)))"));
    assert!(!pad("(pad \"\" np_thru_hole circle (size 3 3) (drill 3))"));
    assert!(!pad("(pad \"\" np_thru_hole oval (at 0 0) (size 3 3) (drill oval 1 2))"));
}
