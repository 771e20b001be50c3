use kicase::sexpr::{parse, parse_selected, Node};

#[test]
fn parses_nested_lists_and_quoted_strings() {
    let node = parse(r#"(kicad_pcb (version 20241229) (layer "User.1" user "Enclosure"))"#)
        .expect("parses");
    assert_eq!(node.head(), Some("kicad_pcb"));
    let version: Option<f64> =
        node.child("version").and_then(|n| n.string(0)).and_then(|s| s.parse().ok());
    assert_eq!(version, Some(20241229.0));
    let layer = node.child("layer").expect("layer child");
    assert_eq!(layer.string(0), Some("User.1"));
    assert_eq!(layer.string(2), Some("Enclosure"));
}

#[test]
fn handles_escaped_quotes() {
    let node = parse(r#"(descr "a \"quoted\" word")"#).expect("parses");
    assert_eq!(node.string(0), Some(r#"a "quoted" word"#));
}

#[test]
fn reads_coordinate_children() {
    let node = parse("(gr_line (start 1.5 -2.5) (end 3 4))").expect("parses");
    let xy = |name: &str| -> Option<(f64, f64)> {
        let child = node.child(name)?;
        Some((child.string(0)?.parse().ok()?, child.string(1)?.parse().ok()?))
    };
    assert_eq!(xy("start"), Some((1.5, -2.5)));
    assert_eq!(xy("end"), Some((3.0, 4.0)));
}

#[test]
fn rejects_unbalanced_input() {
    assert!(parse("(a (b)").is_err());
}

#[test]
fn reports_where_a_parse_failed() {
    let err = parse("(a \"open").expect_err("an unterminated string fails");
    assert_eq!(err.message, "unterminated string");
    let err = parse("  )").expect_err("a stray close fails");
    assert_eq!(err.message, "unexpected ')'");
    assert_eq!(err.offset, 2);
    // Whatever follows the first complete node is not read.
    assert!(parse("(a))").is_ok());
    let err = parse("(a").expect_err("an unclosed list fails");
    assert_eq!(err.message, "unclosed list");
    let err = parse("").expect_err("nothing is not a document");
    assert_eq!(err.message, "unexpected end of input");
}

#[test]
fn keeps_bare_tokens_and_empty_lists() {
    let node = parse("(a b () \"\" 12)").expect("parses");
    let items = node.as_list().expect("a list");
    assert_eq!(items.len(), 5);
    assert_eq!(items[1].as_atom(), Some("b"));
    assert_eq!(items[2], Node::List(Vec::new()));
    assert_eq!(items[3].as_atom(), Some(""));
    assert_eq!(node.args().len(), 4);
    assert_eq!(node.string(3), Some("12"));
    assert_eq!(node.string(1), None);
    assert_eq!(node.string(9), None);
}

#[test]
fn finds_children_by_head_in_order() {
    let node = parse("(fp (pad 1) (model a) (pad 2) (pad 3))").expect("parses");
    let pads = node.children("pad");
    assert_eq!(pads.len(), 3);
    assert_eq!(pads[2].string(0), Some("3"));
    assert_eq!(node.child("pad").and_then(|p| p.string(0)), Some("1"));
    assert!(node.child("drill").is_none());
    assert_eq!(node.child_string("model"), Some("a"));
}

#[test]
fn walks_every_list_before_its_children() {
    let node = parse("(a (b (c)) (d))").expect("parses");
    let heads: Vec<Option<&str>> = node.walk().iter().map(|n| n.head()).collect();
    assert_eq!(heads, vec![Some("a"), Some("b"), Some("c"), Some("d")]);
}

#[test]
fn a_selective_parse_keeps_only_what_is_asked_for() {
    let text = r#"(kicad_pcb (version 1)
        (segment (start 0 0) (layer "F.Cu"))
        (gr_line (start 0 0) (layer "Edge.Cuts"))
        (footprint "x" (layer "B.Cu") (fp_line (layer "B.SilkS")) (pad "1" smd) (model "m.step")))"#;
    let selection = parse_selected(text, &["gr_line", "footprint"]).expect("parses");
    let heads: Vec<Option<&str>> = selection.items.iter().map(|n| n.head()).collect();
    assert_eq!(heads, vec![None, Some("gr_line"), Some("footprint")]);
    assert_eq!(selection.items[0].as_atom(), Some("kicad_pcb"));
    // A footprint keeps its pads and models but not its silkscreen.
    let footprint = &selection.items[2];
    assert!(footprint.child("fp_line").is_none());
    assert!(footprint.child("pad").is_some());
    assert!(footprint.child("model").is_some());
    // Every layer named is noted once, skipped items included: top-level ones
    // and the graphics dropped from inside a footprint alike.
    for layer in ["F.Cu", "Edge.Cuts", "B.SilkS", "B.Cu"] {
        assert_eq!(selection.layers_seen.iter().filter(|l| l.as_str() == layer).count(), 1);
    }
    assert_eq!(selection.layers_seen.len(), 4);
}

#[test]
fn a_selective_parse_reports_a_broken_skipped_item() {
    assert!(parse_selected("(kicad_pcb (segment (start 0 0)", &["gr_line"]).is_err());
    let err = parse_selected("(kicad_pcb", &["gr_line"]).err().expect("fails");
    assert_eq!((err.message.as_str(), err.offset), ("unclosed document", 10));
    let err = parse_selected("  kicad_pcb", &["gr_line"]).err().expect("fails");
    assert_eq!((err.message.as_str(), err.offset), ("expected a document", 2));
    let err = parse_selected("(kicad_pcb (segment \"x)", &["gr_line"]).err().expect("fails");
    assert_eq!(err.message, "unterminated string");
}

#[test]
fn a_selective_read_agrees_with_a_full_read() {
    let text = r#"(kicad_pcb (version 1) "loose" bare
        (segment (start 0 0) (net "a (b)") (layer "F.Cu"))
        (gr_line (start 0 0) (end 1 "x y") (layer "Edge.Cuts"))
        (footprint "lib:x" (layer "B.Cu") (fp_line (layer "B.SilkS")) "name"
            (pad "1" np_thru_hole (drill 3)) (model "m.step" (hide yes))))"#;
    let keep = ["gr_line", "footprint", "version"];
    let full = parse(text).expect("parses in full");
    let selection = parse_selected(text, &keep).expect("parses selectively");
    let mut expected: Vec<&Node> = Vec::new();
    let items = full.as_list().expect("a list");
    expected.push(&items[0]);
    for item in &items[1..] {
        match item.head() {
            None => expected.push(item),
            Some(head) if keep.contains(&head) => expected.push(item),
            Some(_) => {},
        }
    }
    assert_eq!(selection.items.len(), expected.len());
    for (got, want) in selection.items.iter().zip(&expected) {
        if want.head() == Some("footprint") {
            let kept: Vec<&Node> = want
                .as_list()
                .expect("a list")
                .iter()
                .filter(|c| match c.head() {
                    Some(h) => ["at", "uuid", "property", "pad", "attr", "layer", "model"].contains(&h),
                    None => c.as_atom().is_some(),
                })
                .collect();
            let got: Vec<&Node> = got.as_list().expect("a list").iter().collect();
            assert_eq!(got, kept);
        } else {
            assert_eq!(&got, want);
        }
    }
}

#[test]
fn a_cloned_node_is_the_same_node() {
    let node = parse(r#"(kicad_pcb (layer "F.Cu") (at 1 2) "x y")"#).expect("parses");
    assert_eq!(node.clone(), node);
}

#[test]
fn with_nothing_skipped_the_layers_are_those_of_the_full_read() {
    let text = r#"(kicad_pcb (version 1)
        (gr_line (layer "B") (x (layer "A")))
        (gr_text (layer "B"))
        (gr_arc (start 0 0) (layer "C")))"#;
    let selection =
        parse_selected(text, &["version", "gr_line", "gr_text", "gr_arc"]).expect("parses");
    assert_eq!(selection.layers_seen, vec!["B".to_string(), "A".to_string(), "C".to_string()]);
    let full = parse(text).expect("parses in full");
    assert_eq!(selection.items, full.as_list().expect("a list").to_vec());
}

#[test]
fn a_value_written_out_reads_back_as_itself() {
    let word = |w: &str| Node::Atom(w.to_string());
    let value = Node::List(vec![
        word("kicad_pcb"),
        Node::List(vec![word("layer"), word("F.Cu")]),
        Node::List(vec![]),
        word("\u{e9}t\u{e9}"),
    ]);
    assert_eq!(parse("(kicad_pcb (layer F.Cu) () \u{e9}t\u{e9})").expect("parses"), value);
}
