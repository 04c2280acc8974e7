use cycle_midi::aliases::insert_alias;
use cycle_midi::ast::{MacroDef, MidiImportOptions, Node, Pitch};
use cycle_midi::imports::{collect_imports, fill_imports};
use cycle_midi::parser::program::mmn_parser;

fn import(path: &str) -> Node {
    let mut o = MidiImportOptions::default();
    o.path = path.to_string();
    Node::MidiImport(o)
}

fn note(d: i32) -> Node {
    Node::Note { pitch: Pitch::Numeric(d, 0), velocity: 100, gate: 100 }
}

fn paths(v: &[MidiImportOptions]) -> Vec<String> {
    v.iter().map(|o| o.path.clone()).collect()
}

#[test]
fn default_import_options() {
    let o = MidiImportOptions::default();
    assert_eq!(o.path, "");
    assert_eq!(o.target_scale, "C4 major");
    assert_eq!(o.format, "chain");
    assert_eq!(o.grid, 8);
    assert_eq!((o.beats.negative, o.beats.mantissa, o.beats.scale), (false, 2, 0));
    assert!(!o.subdivide && !o.preserve_velocity && !o.snap_to_grid && !o.chords && !o.debug);
}

#[test]
fn imports_are_found_in_order_and_replaced() {
    let n = Node::Sequence(vec![
        import("a.mid"),
        Node::Struct(Box::new(import("mask.mid")), Box::new(import("b.mid"))),
        Node::Parallel(vec![vec![Node::Rest], vec![import("c.mid")]]),
        Node::RandomChoice(vec![(2, import("d.mid"))]),
        Node::Arrange(vec![(0, 1, Box::new(import("e.mid")))]),
        Node::Ref("M".to_string(), vec![import("f.mid")]),
    ]);
    let mut found = Vec::new();
    collect_imports(&n, &mut found);
    // the mask of a structure is not resolved
    assert_eq!(paths(&found), vec!["a.mid", "b.mid", "c.mid", "d.mid", "e.mid", "f.mid"]);

    let mut reps: Vec<Node> = (1..=6).map(note).collect();
    let filled = fill_imports(n, &mut reps);
    assert!(reps.is_empty());
    let mut left = Vec::new();
    collect_imports(&filled, &mut left);
    assert!(left.is_empty());
    let text = format!("{:?}", filled);
    assert!(text.contains("mask.mid"));
    assert!(!text.contains("a.mid"));
    assert_eq!(
        text,
        format!(
            "{:?}",
            Node::Sequence(vec![
                note(1),
                Node::Struct(Box::new(import("mask.mid")), Box::new(note(2))),
                Node::Parallel(vec![vec![Node::Rest], vec![note(3)]]),
                Node::RandomChoice(vec![(2, note(4))]),
                Node::Arrange(vec![(0, 1, Box::new(note(5)))]),
                Node::Ref("M".to_string(), vec![note(6)]),
            ])
        )
    );
}

#[test]
fn too_few_replacements_leave_imports() {
    let n = Node::Sequence(vec![import("a.mid"), import("b.mid")]);
    let mut reps = vec![Node::Hold];
    let filled = fill_imports(n, &mut reps);
    assert_eq!(format!("{:?}", filled), format!("{:?}", Node::Sequence(vec![Node::Hold, import("b.mid")])));
}

#[test]
fn program_imports_tracks_then_macros() {
    let mut p = mmn_parser("T1: 0\nT2: 1").unwrap();
    p.tracks[1].root_node = import("track.mid");
    insert_alias(&mut p.aliases, "M".to_string(), MacroDef { params: vec![], body: import("macro.mid") });
    let found = p.midi_imports();
    assert_eq!(paths(&found), vec!["track.mid", "macro.mid"]);
    p.fill_midi_imports(vec![note(7), note(8)]);
    assert_eq!(format!("{:?}", p.tracks[1].root_node), format!("{:?}", note(7)));
    assert_eq!(format!("{:?}", p.aliases[0].1.body), format!("{:?}", note(8)));
    assert!(p.midi_imports().is_empty());
}
