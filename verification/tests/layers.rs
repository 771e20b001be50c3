use kicase::board::{read_board, LayerRoles};
use kicase::config::LayerMapping;
use kicase::layers::{plan_layers, user_layer_id, user_layer_name};

fn roles() -> LayerRoles {
    LayerRoles {
        outline: "User.1".into(),
        datums: "User.2".into(),
        cuts: "User.3".into(),
        top: "User.4".into(),
        bottom: "User.5".into(),
        solids: "User.6".into(),
    }
}

fn board_with(extra: &str) -> String {
    format!(
        r#"(kicad_pcb (version 20241229)
             (layers (0 "F.Cu" signal) (47 "Edge.Cuts" user)
                     (53 "User.1" user) (54 "User.2" user) (55 "User.3" user)
                     (56 "User.4" user) (57 "User.5" user) (58 "User.6" user)
                     (59 "User.7" user) (60 "User.8" user) (61 "User.9" user)
                     (63 "User.10" user) (64 "User.11" user) (65 "User.12" user))
             {extra})"#
    )
}

#[test]
fn layer_name_and_id_round_trip() {
    assert_eq!(user_layer_id("User.1"), Some(53));
    assert_eq!(user_layer_name(53).as_deref(), Some("User.1"));
    assert_eq!(user_layer_id("User.45"), Some(98));
    assert_eq!(user_layer_id("User.46"), None);
    // Id 62 is KiCad's Rescue layer, not a user layer.
    assert_eq!(user_layer_name(62), None);
    assert_eq!(user_layer_id("User.9"), Some(61));
    assert_eq!(user_layer_id("User.10"), Some(63));
    assert_eq!(user_layer_name(63).as_deref(), Some("User.10"));
    assert_eq!(user_layer_id("F.Cu"), None);
}

#[test]
fn every_user_layer_name_reads_back_as_its_id() {
    for id in 40..110 {
        match user_layer_name(id) {
            Some(name) => assert_eq!(user_layer_id(&name), Some(id), "{name}"),
            None => assert!(!(53..=98).contains(&id) || id == 62, "{id}"),
        }
    }
    assert_eq!(user_layer_name(98).as_deref(), Some("User.45"));
}

#[test]
fn odd_spellings_of_user_layers() {
    assert_eq!(user_layer_id("User.0"), None);
    assert_eq!(user_layer_id("User.-1"), None);
    assert_eq!(user_layer_id("User.07"), Some(59));
    assert_eq!(user_layer_id("User.+7"), Some(59));
    assert_eq!(user_layer_id("User."), None);
    assert_eq!(user_layer_id("User.x"), None);
    assert_eq!(user_layer_id("User"), None);
    assert_eq!(user_layer_id("user.1"), None);
    assert_eq!(user_layer_id("User.99999999999"), None);
    assert_eq!(user_layer_id("User.2147483647"), None);
}

#[test]
fn skips_user_layers_that_already_carry_objects() {
    let board = board_with(
        r#"(gr_line (start 0 0) (end 1 1) (layer "User.1") (uuid "a"))
           (gr_line (start 0 0) (end 1 1) (layer "User.3") (uuid "b"))"#,
    );
    let reading = read_board(&board, &roles()).expect("parses");
    let plan = plan_layers(&reading, None, &[]).expect("a plan exists");
    // User.1 and User.3 are in use, so the enclosure takes 2, 4, 5, 6, 7, 8.
    assert_eq!(plan.mapping.outline, "User.2");
    assert_eq!(plan.mapping.datums, "User.4");
    assert_eq!(plan.mapping.cuts, "User.5");
    assert_eq!(plan.mapping.top, "User.6");
    assert_eq!(plan.mapping.bottom, "User.7");
    assert_eq!(plan.mapping.solids, "User.8");
}

#[test]
fn reuses_layers_that_already_have_the_kicase_display_names() {
    let board = r#"(kicad_pcb (version 20241229)
         (layers (47 "Edge.Cuts" user)
                 (53 "User.1" user)
                 (60 "User.8" user "Enclosure")
                 (61 "User.9" user "Enclosure.Datums")
                 (63 "User.10" user "Enclosure.Cuts")
                 (64 "User.11" user "Enclosure.Top")
                 (65 "User.12" user "Enclosure.Bottom")
                 (66 "User.13" user "Enclosure.Solids")))"#;
    let reading = read_board(board, &roles()).expect("parses");
    let plan = plan_layers(&reading, None, &[60, 61, 63, 64, 65, 66]).expect("a plan exists");
    assert_eq!(plan.mapping.outline, "User.8");
    assert_eq!(plan.mapping.top, "User.11");
    assert_eq!(plan.mapping.solids, "User.13");
    assert!(plan.unchanged, "nothing needs enabling or renaming: {plan:?}");
}

#[test]
fn keeps_the_mapping_recorded_in_the_project_file() {
    let board = board_with("");
    let reading = read_board(&board, &roles()).expect("parses");
    let existing = LayerMapping {
        outline: "User.5".into(),
        datums: "User.6".into(),
        cuts: "User.7".into(),
        top: "User.8".into(),
        bottom: "User.9".into(),
        solids: "User.10".into(),
    };
    let plan =
        plan_layers(&reading, Some(&existing), &[57, 58, 59, 60, 61, 63]).expect("a plan exists");
    assert_eq!(plan.mapping, existing);
    assert!(plan.enable.is_empty());
    // The display names still need setting.
    assert_eq!(plan.rename.len(), 6);
}

#[test]
fn reports_which_layers_need_enabling() {
    let board = board_with("");
    let reading = read_board(&board, &roles()).expect("parses");
    let plan = plan_layers(&reading, None, &[53]).expect("a plan exists");
    assert_eq!(plan.mapping.outline, "User.1");
    assert_eq!(plan.enable, vec![54, 55, 56, 57, 58]);
    assert!(!plan.unchanged);
}

#[test]
fn a_recorded_layer_that_is_not_a_user_layer_is_replaced() {
    let board = board_with(r#"(gr_line (start 0 0) (end 1 1) (layer "User.1") (uuid "a"))"#);
    let reading = read_board(&board, &roles()).expect("parses");
    let existing = LayerMapping {
        outline: "F.Cu".into(),
        datums: "User.1".into(),
        cuts: "User.1".into(),
        top: "User.4".into(),
        bottom: "User.5".into(),
        solids: "User.6".into(),
    };
    let plan = plan_layers(&reading, Some(&existing), &[]).expect("a plan exists");
    // F.Cu is no user layer: the first free one, User.2, is taken instead.
    assert_eq!(plan.mapping.outline, "User.2");
    // The project file's User.1 is kept although it carries objects...
    assert_eq!(plan.mapping.datums, "User.1");
    // ...but never twice.
    assert_eq!(plan.mapping.cuts, "User.3");
    assert_eq!(plan.mapping.top, "User.4");
    assert_eq!(plan.enable, vec![54, 53, 55, 56, 57, 58]);
    assert_eq!(plan.rename.len(), 6);
    assert_eq!(plan.rename[0], (54, "Enclosure".to_string()));
    assert_eq!(plan.rename[5], (58, "Enclosure.Solids".to_string()));
}

#[test]
fn no_plan_when_every_user_layer_is_drawn_on() {
    let mut extra = String::new();
    for id in 1..=45 {
        extra.push_str(&format!("(gr_line (start 0 0) (end 1 1) (layer \"User.{id}\"))\n"));
    }
    let reading = read_board(&board_with(&extra), &roles()).expect("parses");
    assert!(plan_layers(&reading, None, &[]).is_none());
}

#[test]
fn a_used_layer_displaying_a_kicase_name_is_kept() {
    let board = r#"(kicad_pcb (version 20241229)
         (layers (53 "User.1" user "Enclosure.Cuts") (54 "User.2" user))
         (gr_rect (start 0 0) (end 1 1) (layer "Enclosure.Cuts")))"#;
    let reading = read_board(board, &roles()).expect("parses");
    assert_eq!(reading.used_layers, vec!["User.1".to_string()]);
    let plan = plan_layers(&reading, None, &[53, 54]).expect("a plan exists");
    assert_eq!(plan.mapping.cuts, "User.1");
    assert_eq!(plan.mapping.outline, "User.2");
    assert_eq!(plan.mapping.datums, "User.3");
    assert_eq!(plan.enable, vec![55, 56, 57, 58]);
    // User.1 already shows its name; User.2 does not yet.
    assert!(plan.rename.iter().all(|(id, _)| *id != 53));
    assert!(plan.rename.contains(&(54, "Enclosure".to_string())));
}

#[test]
fn six_undrawn_user_layers_are_enough_for_a_plan() {
    let mut extra = String::new();
    for id in 1..=39 {
        extra.push_str(&format!("(gr_line (start 0 0) (end 1 1) (layer \"User.{id}\"))\n"));
    }
    let reading = read_board(&board_with(&extra), &roles()).expect("parses");
    let plan = plan_layers(&reading, None, &[]).expect("a plan exists");
    assert_eq!(plan.mapping.outline, "User.40");
    assert_eq!(plan.mapping.solids, "User.45");
    assert_eq!(plan.enable, vec![93, 94, 95, 96, 97, 98]);
}
