use cycle_midi::ast::Node;
use cycle_midi::expand::ExpandError;
use cycle_midi::parser::program::{mmn_parser, node_parser};

fn has_refs(n: &Node) -> bool {
    match n {
        Node::Ref(..) => true,
        Node::Chord(v) | Node::Sequence(v) | Node::ShuffledSequence(v) | Node::Alternator(v) => v.iter().any(has_refs),
        Node::RandomChoice(w) => w.iter().any(|e| has_refs(&e.1)),
        Node::Parallel(ls) | Node::Polymeter(ls) => ls.iter().any(|l| l.iter().any(has_refs)),
        Node::Arrange(s) => s.iter().any(|e| has_refs(&e.2)),
        Node::WithScale(_, c) | Node::Modified(c, _) => has_refs(c),
        Node::Struct(a, b) => has_refs(a) || has_refs(b),
        _ => false,
    }
}

#[test]
fn expands_macro_with_arguments() {
    let mut p = mmn_parser("let pair(a, b) = a b\nT1: pair(0, 7) 3").unwrap();
    p.expand_all_refs().unwrap();
    let root = &p.tracks[0].root_node;
    assert!(!has_refs(root));
    let expected = node_parser("[[0 7] 3]").unwrap();
    assert_eq!(format!("{:?}", root), format!("{:?}", expected));
}

#[test]
fn unresolved_alias_is_an_error() {
    let mut p = mmn_parser("T1: nothing").unwrap();
    match p.expand_all_refs() {
        Err(ExpandError::Unresolved(name)) => assert_eq!(name, "nothing"),
        other => panic!("unexpected {:?}", other),
    }
}

#[test]
fn wrong_argument_count_is_an_error() {
    let mut p = mmn_parser("let f(x) = x\nT1: f(0, 1)").unwrap();
    match p.expand_all_refs() {
        Err(ExpandError::WrongArgCount(name, expected, got)) => {
            assert_eq!(name, "f");
            assert_eq!(expected, 1);
            assert_eq!(got, 2);
        }
        other => panic!("unexpected {:?}", other),
    }
}

#[test]
fn circular_macros_hit_the_depth_limit() {
    let mut p = mmn_parser("let a = b\nlet b = a\nT1: a").unwrap();
    assert!(matches!(p.expand_all_refs(), Err(ExpandError::TooDeep)));
}

#[test]
fn failing_track_leaves_later_tracks_untouched() {
    let mut p = mmn_parser("let x = 0\nT1: y\nT2: x").unwrap();
    assert!(p.expand_all_refs().is_err());
    assert!(matches!(p.tracks[1].root_node, Node::Sequence(ref v) if matches!(v[0], Node::Ref(..))));
}

#[test]
fn expansion_is_ref_free_on_success() {
    let mut p = mmn_parser("let a = 0 1\nlet b = a a\nT1: alt(b rnd(a, 2)) par(a, b)").unwrap();
    p.expand_all_refs().unwrap();
    assert!(!has_refs(&p.tracks[0].root_node));
}

#[test]
fn expand_refs_depth_limit_at_node_level() {
    let mut n = node_parser("0").unwrap();
    let env = Vec::new();
    assert!(matches!(n.expand_refs(&env, 33), Err(ExpandError::TooDeep)));
    let mut m = node_parser("0").unwrap();
    assert!(m.expand_refs(&env, 32).is_ok());
}

#[test]
fn expanding_twice_changes_nothing() {
    let mut p = mmn_parser("let riff = 0 2 alt(4 5)\nlet twice(x) = x x\nT1: twice(riff) . par(riff, 7)").unwrap();
    p.expand_all_refs().unwrap();
    let once = format!("{:?}", p.tracks);
    p.expand_all_refs().unwrap();
    assert_eq!(format!("{:?}", p.tracks), once);
    let mut n = node_parser("[[0 1] alt(2 3)]").unwrap();
    let before = format!("{:?}", n);
    n.expand_refs(&vec![], 0).unwrap();
    assert_eq!(format!("{:?}", n), before);
}

#[test]
fn expansion_error_messages() {
    assert_eq!(
        ExpandError::TooDeep.message(),
        "Max macro expansion depth exceeded (circular reference?)"
    );
    assert_eq!(
        ExpandError::WrongArgCount("f".to_string(), 1, 2).message(),
        "Macro 'f' expects 1 args, got 2"
    );
    assert_eq!(ExpandError::Unresolved("x".to_string()).message(), "Unresolved alias: 'x'");
}
