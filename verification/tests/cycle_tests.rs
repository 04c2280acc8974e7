use cycle_midi::math::{lcm, resolve_pitch};
use cycle_midi::ast::{Pitch, ScaleDef};
use cycle_midi::parser::program::{mmn_parser, node_parser};

#[test]
fn lcm_values() {
    assert_eq!(lcm(4, 6), 12);
    assert_eq!(lcm(6, 4), 12);
    assert_eq!(lcm(0, 5), 0);
    assert_eq!(lcm(7, 1), 7);
}

#[test]
fn node_cycle_lengths() {
    assert_eq!(node_parser("[0 1 2]").unwrap().cycle_length(), 1);
    assert_eq!(node_parser("alt(0 1 2)").unwrap().cycle_length(), 3);
    assert_eq!(node_parser("[alt(0 1) alt(0 1 2)]").unwrap().cycle_length(), 6);
    assert_eq!(node_parser("alt(alt(0 1) 2)").unwrap().cycle_length(), 4);
    assert_eq!(node_parser("arrange [ (0, 2): 0 (2, 5): 1 ]").unwrap().cycle_length(), 5);
    assert_eq!(node_parser("0/4").unwrap().cycle_length(), 4);
    assert_eq!(node_parser("alt(0 1)/0").unwrap().cycle_length(), 1);
    assert_eq!(node_parser("alt()").unwrap().cycle_length(), 0);
    assert_eq!(node_parser("poly(0 1 2, 0 1)").unwrap().cycle_length(), 2);
}

#[test]
fn pattern_length_is_common_multiple() {
    let p = mmn_parser("T1: alt(0 1)\nT2: alt(0 1 2)\nT3: 0").unwrap();
    let len = p.pattern_length_cycles();
    assert_eq!(len, 6);
    for t in &p.tracks {
        assert_eq!(len % t.root_node.cycle_length(), 0);
    }
}

#[test]
fn overflowing_pattern_length_is_reported() {
    let big = format!("T1: arrange [ (0, {}): 0 ]\nT2: alt(0 1)", usize::MAX);
    let p = mmn_parser(&big).unwrap();
    assert_eq!(p.checked_pattern_length(), None);
}

#[test]
fn resolve_pitch_values() {
    let minor = Some(ScaleDef { root_pitch: 60, intervals: vec![0, 2, 3, 5, 7, 8, 10] });
    assert_eq!(resolve_pitch(&Pitch::Numeric(0, 0), &minor, 0), 60);
    assert_eq!(resolve_pitch(&Pitch::Numeric(2, 0), &minor, 0), 63);
    assert_eq!(resolve_pitch(&Pitch::Numeric(7, 0), &minor, 0), 72);
    assert_eq!(resolve_pitch(&Pitch::Numeric(-1, 0), &minor, 0), 58);
    assert_eq!(resolve_pitch(&Pitch::Numeric(2, 1), &minor, 1), 76);
    assert_eq!(resolve_pitch(&Pitch::Numeric(64, 0), &None, 0), 64);
    assert_eq!(resolve_pitch(&Pitch::Numeric(500, 0), &None, 0), 127);
    assert_eq!(resolve_pitch(&Pitch::Numeric(0, 0), &minor, -20), 0);
}

#[test]
fn muted_tracks_do_not_count_in_the_pattern_length() {
    let p = mmn_parser("T1: alt(0 1)\n!T2: alt(0 1 2)").unwrap();
    assert_eq!(p.pattern_length_cycles(), 2);
    let p = mmn_parser("T1: alt(0 1)\nT2: alt(0 1 2)").unwrap();
    assert_eq!(p.pattern_length_cycles(), 6);
}

#[test]
fn higher_degrees_never_sound_lower() {
    let minor = Some(ScaleDef { root_pitch: 60, intervals: vec![0, 2, 3, 5, 7, 8, 10] });
    let pitches: Vec<u8> = (-20..20).map(|d| resolve_pitch(&Pitch::Numeric(d, 0), &minor, 0)).collect();
    assert!(pitches.windows(2).all(|w| w[0] <= w[1]));
    assert_eq!(resolve_pitch(&Pitch::Absolute(61), &minor, 1), 73);
}
