use cycle_midi::ast::{ArpStyle, CondScope, Modifier, Node, Pitch, QuantizeMode};
use cycle_midi::parser::expr::{alt_group, par_group, poly_group, seq_group, shuf_group};
use cycle_midi::parser::program::{mmn_parser, node_parser};

fn note(d: i32) -> String {
    format!("{:?}", Node::Note { pitch: Pitch::Numeric(d, 0), velocity: 100, gate: 100 })
}

#[test]
fn parses_default_live_file() {
    let p = mmn_parser("#BPM=120\n#SCALE=C4 minor\nT1: 0 2 3 4 . 7 _").unwrap();
    let bpm = p.bpm.unwrap();
    assert_eq!((bpm.negative, bpm.mantissa, bpm.scale), (false, 120, 0));
    let sc = p.scale.as_ref().unwrap();
    assert_eq!(sc.root_pitch, 60);
    assert_eq!(sc.intervals, vec![0, 2, 3, 5, 7, 8, 10]);
    assert_eq!(p.tracks.len(), 1);
    let t = &p.tracks[0];
    assert_eq!(t.channel, 0);
    assert!(!t.is_muted);
    match &t.root_node {
        Node::Sequence(items) => {
            assert_eq!(items.len(), 7);
            assert_eq!(format!("{:?}", items[0]), note(0));
            assert_eq!(format!("{:?}", items[3]), note(4));
            assert!(matches!(items[4], Node::Rest));
            assert!(matches!(items[6], Node::Hold));
        }
        other => panic!("unexpected root {:?}", other),
    }
}

#[test]
fn rejects_trailing_garbage_with_position() {
    let src = "T1: 0 1 ]";
    let e = mmn_parser(src).unwrap_err();
    assert_eq!(e.offset, 8);
}

#[test]
fn track_header_settings() {
    let p = mmn_parser("!T3(span: 2, octave: -1, pc: 5, seed: 42 every 4): 0").unwrap();
    let t = &p.tracks[0];
    assert_eq!(t.channel, 2);
    assert!(t.is_muted);
    assert_eq!(t.octave_offset, -1);
    assert_eq!(t.program_change, Some(4));
    let seed = t.seed.unwrap();
    assert_eq!(seed.base, 42);
    assert!(matches!(seed.interval, Some(cycle_midi::ast::SeedInterval::Micro(4))));
    match &t.root_node {
        Node::Modified(inner, mods) => {
            assert!(matches!(**inner, Node::Sequence(_)));
            assert!(matches!(mods[..], [Modifier::Span(2)]));
        }
        other => panic!("unexpected root {:?}", other),
    }
}

#[test]
fn track_channel_is_clamped() {
    let p = mmn_parser("T0: 0\nT40: 1").unwrap();
    assert_eq!(p.tracks[0].channel, 0);
    assert_eq!(p.tracks[1].channel, 15);
}

#[test]
fn octaves_add_up_and_overflow_fails() {
    let p = mmn_parser("T1(octave: 1, octave: 2): 0").unwrap();
    assert_eq!(p.tracks[0].octave_offset, 3);
    assert!(mmn_parser("T1(octave: 2000000000, octave: 2000000000): 0").is_err());
}

#[test]
fn macro_definitions_replace_earlier_ones() {
    let p = mmn_parser("let a = 0 1\nlet b(x, y) = x y\nlet a = 5\nT1: a").unwrap();
    assert_eq!(p.aliases.len(), 2);
    assert_eq!(p.aliases[0].0, "a");
    assert_eq!(format!("{:?}", p.aliases[0].1.body), note(5));
    assert_eq!(p.aliases[1].0, "b");
    assert_eq!(p.aliases[1].1.params, vec!["x".to_string(), "y".to_string()]);
}

#[test]
fn reserved_names_are_refused() {
    assert!(mmn_parser("let T2 = 0").is_err());
    assert!(mmn_parser("let let = 0").is_err());
}

#[test]
fn postfix_operations_attach_in_order() {
    let n = node_parser("[0 2 4]*2?50").unwrap();
    match n {
        Node::Modified(inner, mods) => {
            assert!(matches!(*inner, Node::Sequence(ref v) if v.len() == 3));
            assert!(matches!(mods[..], [Modifier::Ratchet(2), Modifier::Probability(50)]));
        }
        other => panic!("unexpected {:?}", other),
    }
}

#[test]
fn euclid_and_arp_methods() {
    let n = node_parser("0.euclid(3, 8).arp(updown)").unwrap();
    match n {
        Node::Modified(_, mods) => {
            assert!(matches!(mods[..], [Modifier::Euclidean(3, 8), Modifier::Arp(ArpStyle::UpDown)]));
        }
        other => panic!("unexpected {:?}", other),
    }
}

#[test]
fn plus_links_notes_and_transposes_groups() {
    let n = node_parser("0+2+4").unwrap();
    let note = |d: i32| Node::Note { pitch: Pitch::Numeric(d, 0), velocity: 100, gate: 100 };
    assert_eq!(format!("{:?}", n), format!("{:?}", Node::Chord(vec![note(0), note(2), note(4)])));
    let n = node_parser("[0 2]+12 ").unwrap();
    assert!(matches!(n, Node::Modified(_, ref m) if matches!(m[..], [Modifier::Transpose(12)])));
    assert!(node_parser("[0 2]+12").is_err());
    let seq = node_parser("[0 -2#]").unwrap();
    match seq {
        Node::Sequence(v) => {
            assert_eq!(v.len(), 2);
            assert_eq!(format!("{:?}", v[1]), format!("{:?}", Node::Note { pitch: Pitch::Numeric(-2, 1), velocity: 100, gate: 100 }));
        }
        other => panic!("unexpected {:?}", other),
    }
}

#[test]
fn diatonic_chord() {
    let n = node_parser("0'triad").unwrap();
    match n {
        Node::Chord(v) => {
            assert_eq!(v.len(), 3);
            assert_eq!(format!("{:?}", v[1]), note(2));
            assert_eq!(format!("{:?}", v[2]), note(4));
        }
        other => panic!("unexpected {:?}", other),
    }
}

#[test]
fn groups_and_choices() {
    assert!(matches!(node_parser("alt(0 1 2)").unwrap(), Node::Alternator(ref v) if v.len() == 3));
    assert!(matches!(node_parser("shuf(0 1)").unwrap(), Node::ShuffledSequence(ref v) if v.len() == 2));
    assert!(matches!(node_parser("seq(0)").unwrap(), Node::Note { .. }));
    match node_parser("rnd(3: 0 1, 2)").unwrap() {
        Node::RandomChoice(v) => {
            assert_eq!(v.len(), 2);
            assert_eq!(v[0].0, 3);
            assert!(matches!(v[0].1, Node::Sequence(ref s) if s.len() == 2));
            assert_eq!(v[1].0, 1);
        }
        other => panic!("unexpected {:?}", other),
    }
    match node_parser("par(0 1, 2)").unwrap() {
        Node::Parallel(ls) => {
            assert_eq!(ls.len(), 2);
            assert_eq!(ls[0].len(), 2);
            assert_eq!(ls[1].len(), 1);
        }
        other => panic!("unexpected {:?}", other),
    }
    assert!(matches!(node_parser("struct(0 , 1)").unwrap(), Node::Struct(..)));
}

#[test]
fn chain_lays_segments_end_to_end() {
    match node_parser("chain [ 2: 0 1, 3: 4 ]").unwrap() {
        Node::Arrange(segs) => {
            assert_eq!(segs.len(), 2);
            assert_eq!((segs[0].0, segs[0].1), (0, 2));
            assert_eq!((segs[1].0, segs[1].1), (2, 5));
            assert!(matches!(*segs[1].2, Node::Note { .. }));
        }
        other => panic!("unexpected {:?}", other),
    }
    let big = format!("chain [ {}: 0, 1: 1 ]", usize::MAX);
    assert!(node_parser(&big).is_err());
}

#[test]
fn arrange_segments() {
    match node_parser("arrange [ (0, 2): 0 1 (2, 4): 3 ]").unwrap() {
        Node::Arrange(segs) => {
            assert_eq!(segs.len(), 2);
            assert_eq!((segs[1].0, segs[1].1), (2, 4));
        }
        other => panic!("unexpected {:?}", other),
    }
}

#[test]
fn macro_reference_with_arguments() {
    match node_parser("riff(0, [1 2])").unwrap() {
        Node::Ref(name, args) => {
            assert_eq!(name, "riff");
            assert_eq!(args.len(), 2);
        }
        other => panic!("unexpected {:?}", other),
    }
}

#[test]
fn global_directives() {
    let p = mmn_parser("#SIG=3/4\n#QUANTIZE=auto\n#SILENCE\n#INCLUDE \"drums.mmn\"\n").unwrap();
    assert_eq!(p.signature, Some((3, 4)));
    assert!(matches!(p.quantize, Some(QuantizeMode::Auto)));
    assert!(p.global_silence);
    assert_eq!(p.includes, vec!["drums.mmn".to_string()]);
    let q = mmn_parser("#QUANTIZE=8").unwrap();
    assert!(matches!(q.quantize, Some(QuantizeMode::Fixed(8))));
}

#[test]
fn comments_are_padding() {
    let p = mmn_parser("// intro\nT1: 0 // first\n  1\n").unwrap();
    match &p.tracks[0].root_node {
        Node::Sequence(v) => assert_eq!(v.len(), 2),
        other => panic!("unexpected {:?}", other),
    }
}

#[test]
fn scale_with_node() {
    match node_parser("scale(D3 dorian) 0").unwrap() {
        Node::WithScale(sc, inner) => {
            assert_eq!(sc.root_pitch, 50);
            assert_eq!(sc.intervals, vec![0, 2, 3, 5, 7, 9, 10]);
            assert!(matches!(*inner, Node::Note { .. }));
        }
        other => panic!("unexpected {:?}", other),
    }
}

#[test]
fn keyword_groups() {
    let text = |t: &str| -> Vec<char> { t.chars().collect() };
    let (n, e) = seq_group(&text("seq(0 1)"), 0).unwrap();
    assert_eq!(e, 8);
    assert!(matches!(n, Node::Sequence(ref v) if v.len() == 2));
    let (n, _) = seq_group(&text("seq(3)"), 0).unwrap();
    assert_eq!(format!("{:?}", n), note(3));
    let (n, _) = alt_group(&text("alt(0 1 2)"), 0).unwrap();
    assert!(matches!(n, Node::Alternator(ref v) if v.len() == 3));
    let (n, _) = shuf_group(&text("shuf(0 1)"), 0).unwrap();
    assert!(matches!(n, Node::ShuffledSequence(ref v) if v.len() == 2));
    let (n, _) = par_group(&text("par(0 1, 2)"), 0).unwrap();
    assert!(matches!(n, Node::Parallel(ref ls) if ls.len() == 2 && ls[0].len() == 2 && ls[1].len() == 1));
    let (n, _) = poly_group(&text("poly(0 1 2, 3 4)"), 0).unwrap();
    assert!(matches!(n, Node::Polymeter(ref ls) if ls.len() == 2 && ls[0].len() == 3));
    assert!(seq_group(&text("alt(0)"), 0).is_none());
    assert!(par_group(&text("par(0"), 0).is_none());
}

#[test]
fn note_names_are_absolute_pitches() {
    let p = mmn_parser("T1: C4+E4 F#3 Bb2").unwrap();
    let abs = |m: u8| Node::Note { pitch: Pitch::Absolute(m), velocity: 100, gate: 100 };
    assert_eq!(
        format!("{:?}", p.tracks[0].root_node),
        format!("{:?}", Node::Sequence(vec![Node::Chord(vec![abs(60), abs(64)]), abs(54), abs(46)]))
    );
    // velocity, gate and probability attach to the whole chord
    let n = node_parser("C4+E4@80%20?50").unwrap();
    match n {
        Node::Modified(c, mods) => {
            assert_eq!(format!("{:?}", c), format!("{:?}", Node::Chord(vec![abs(60), abs(64)])));
            assert!(matches!(
                mods[..],
                [Modifier::VelocityOverride(80), Modifier::GateOverride(20), Modifier::Probability(50)]
            ));
        }
        other => panic!("unexpected {:?}", other),
    }
}

#[test]
fn conditions_gate_nodes_and_modifiers() {
    let abs = |m: u8| Node::Note { pitch: Pitch::Absolute(m), velocity: 100, gate: 100 };
    let p = mmn_parser("T1: C4 only(4)").unwrap();
    assert_eq!(
        format!("{:?}", p.tracks[0].root_node),
        format!(
            "{:?}",
            Node::Sequence(vec![Node::Condition {
                scope: CondScope::Cycle,
                interval: 4,
                offset: 0,
                then_branch: Box::new(abs(60)),
                else_branch: Box::new(Node::Rest),
            }])
        )
    );
    let n = node_parser("36 m_only(4, 3)").unwrap();
    assert!(matches!(n, Node::Condition { scope: CondScope::MacroFirst, interval: 4, offset: 3, .. }));
    let n = node_parser("[0 1] *2 if(4)").unwrap();
    match n {
        Node::Condition { scope: CondScope::Cycle, interval: 4, offset: 0, then_branch, else_branch } => {
            assert!(matches!(*then_branch, Node::Modified(_, ref m) if matches!(m[..], [Modifier::Ratchet(2)])));
            assert!(matches!(*else_branch, Node::Sequence(_)));
        }
        other => panic!("unexpected {:?}", other),
    }
    let n = node_parser("0.arp(up) m_if(2, 1)").unwrap();
    assert!(matches!(n, Node::Condition { scope: CondScope::Macro, interval: 2, offset: 1, .. }));
}
